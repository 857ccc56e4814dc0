use xpt_parser::descriptor::NameStringRecord;
use xpt_parser::order::{order_variables, sort_order};
use xpt_parser::VariableType;

fn parsed_record(var_type: u16, length: u16, position: u16, name: &str, label: &str) -> NameStringRecord {
    NameStringRecord {
        var_type,
        length,
        name: name.to_string(),
        label: label.to_string(),
        format: String::new(),
        position,
    }
}

fn names(records: &Vec<NameStringRecord>) -> Vec<String> {
    order_variables(records).into_iter().map(|variable| variable.name).collect()
}

#[test]
fn variables_are_ordered_by_position() {
    let records = vec![
        parsed_record(1, 8, 3, "C", ""),
        parsed_record(1, 8, 1, "A", ""),
        parsed_record(1, 8, 2, "B", ""),
    ];
    assert_eq!(sort_order(&records), vec![1, 2, 0]);
    assert_eq!(names(&records), ["A", "B", "C"]);
}

#[test]
fn equal_positions_keep_file_order() {
    let records = vec![
        parsed_record(1, 8, 2, "X", ""),
        parsed_record(1, 8, 1, "P", ""),
        parsed_record(1, 8, 2, "Y", ""),
        parsed_record(1, 8, 1, "Q", ""),
        parsed_record(1, 8, 2, "Z", ""),
    ];
    assert_eq!(sort_order(&records), vec![1, 3, 0, 2, 4]);
    assert_eq!(names(&records), ["P", "Q", "X", "Y", "Z"]);
}

#[test]
fn undeclared_position_is_place_in_file() {
    // the second record declares nothing and counts as position 2
    let records = vec![
        parsed_record(1, 8, 3, "A", ""),
        parsed_record(1, 8, 0, "B", ""),
        parsed_record(1, 8, 2, "C", ""),
        parsed_record(1, 8, 1, "D", ""),
    ];
    assert_eq!(sort_order(&records), vec![3, 1, 2, 0]);
    let variables = order_variables(&records);
    let positions: Vec<usize> = variables.iter().map(|variable| variable.position).collect();
    assert_eq!(positions, [1, 2, 2, 3]);
}

#[test]
fn all_undeclared_positions_keep_file_order() {
    let records = vec![
        parsed_record(2, 4, 0, "ONE", ""),
        parsed_record(2, 4, 0, "TWO", ""),
        parsed_record(2, 4, 0, "THREE", ""),
    ];
    assert_eq!(sort_order(&records), vec![0, 1, 2]);
    let variables = order_variables(&records);
    let positions: Vec<usize> = variables.iter().map(|variable| variable.position).collect();
    assert_eq!(positions, [1, 2, 3]);
}

#[test]
fn no_records_no_variables() {
    let records: Vec<NameStringRecord> = Vec::new();
    assert!(sort_order(&records).is_empty());
    assert!(order_variables(&records).is_empty());
}

#[test]
fn missing_name_is_made_from_place_in_order() {
    let records = vec![
        parsed_record(1, 8, 2, "", "second"),
        parsed_record(1, 8, 1, "", ""),
        parsed_record(1, 8, 3, "NAMED", ""),
    ];
    let variables = order_variables(&records);
    assert_eq!(variables[0].name, "VAR1");
    assert_eq!(variables[0].label, "VAR1");
    assert_eq!(variables[1].name, "VAR2");
    assert_eq!(variables[1].label, "second");
    assert_eq!(variables[2].name, "NAMED");
    assert_eq!(variables[2].label, "NAMED");
}

#[test]
fn made_up_names_count_beyond_nine() {
    let records: Vec<NameStringRecord> = (0..12).map(|_| parsed_record(1, 8, 0, "", "")).collect();
    let variables = order_variables(&records);
    assert_eq!(variables[8].name, "VAR9");
    assert_eq!(variables[9].name, "VAR10");
    assert_eq!(variables[11].name, "VAR12");
}

#[test]
fn type_code_one_is_numeric() {
    let records = vec![parsed_record(1, 8, 1, "N", ""), parsed_record(2, 8, 2, "C", ""), parsed_record(0, 8, 3, "Z", ""),
        parsed_record(257, 8, 4, "W", "")];
    let variables = order_variables(&records);
    assert_eq!(variables[0].var_type, VariableType::Numeric);
    assert_eq!(variables[1].var_type, VariableType::Character);
    assert_eq!(variables[2].var_type, VariableType::Character);
    assert_eq!(variables[3].var_type, VariableType::Character);
}

#[test]
fn length_is_at_least_the_minimum_of_the_kind() {
    let records = vec![
        parsed_record(1, 0, 1, "A", ""),
        parsed_record(1, 3, 2, "B", ""),
        parsed_record(1, 8, 3, "C", ""),
        parsed_record(1, 12, 4, "D", ""),
        parsed_record(2, 0, 5, "E", ""),
        parsed_record(2, 1, 6, "F", ""),
        parsed_record(2, 200, 7, "G", ""),
        parsed_record(2, 65535, 8, "H", ""),
    ];
    let lengths: Vec<usize> = order_variables(&records).iter().map(|variable| variable.length).collect();
    assert_eq!(lengths, [8, 8, 8, 12, 1, 1, 200, 65535]);
}
