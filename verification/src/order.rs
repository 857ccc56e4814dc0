//! The order of the variables, and what each descriptor becomes.
//!
//! Variables are ordered by their effective position. Where two have the
//! same one, the record that comes first in the file stays first.

use crate::decimal::{append_decimal, decimal_bytes};
use crate::descriptor::{record_views, DescriptorView, NameStringRecord};
use crate::model::{variable_views, VariableType, VariableView, XPTVariable};
use crate::numeric::lemma_decimal_is_ascii;
use crate::text::{ascii_text, text_from_ascii};
use vstd::prelude::*;
use vstd::string::StringExecFns;

verus! {

/// Least width in bytes of a numeric cell.
pub const MIN_NUMERIC_LENGTH: u16 = 8;

/// Least width in bytes of a character cell.
pub const MIN_CHARACTER_LENGTH: u16 = 1;

/// The position by which a record is ordered: the declared one, or, where
/// none is declared, the place of the record in the file, counted from 1.
pub open spec fn effective_position(position: nat, index: int) -> nat {
    if position > 0 {
        position
    } else {
        (index + 1) as nat
    }
}

/// The effective position of the `index`-th record.
pub open spec fn position_at(records: Seq<DescriptorView>, index: int) -> nat {
    effective_position(records[index].position, index)
}

/// Record `i` comes before record `j` in the order of the variables.
pub open spec fn sorts_before(records: Seq<DescriptorView>, i: int, j: int) -> bool {
    position_at(records, i) < position_at(records, j) || (position_at(records, i) == position_at(
        records,
        j,
    ) && i < j)
}

/// `order` lists every record once, each before all that it sorts before.
pub open spec fn is_ordering(records: Seq<DescriptorView>, order: Seq<int>) -> bool {
    &&& order.len() == records.len()
    &&& forall|k: int| 0 <= k < order.len() ==> 0 <= #[trigger] order[k] < records.len()
    &&& forall|i: int| 0 <= i < records.len() ==> #[trigger] order.contains(i)
    &&& forall|a: int, b: int|
        0 <= a < b < order.len() ==> sorts_before(
            records,
            #[trigger] order[a],
            #[trigger] order[b],
        )
}

/// The order of the variables: for each place, the index of the record
/// that stands there.
pub open spec fn ordering_of(records: Seq<DescriptorView>) -> Seq<int> {
    choose|order: Seq<int>| is_ordering(records, order)
}

/// Two orderings of the same records agree up to any place.
proof fn lemma_orderings_agree(
    records: Seq<DescriptorView>,
    first: Seq<int>,
    second: Seq<int>,
    place: int,
)
    requires
        is_ordering(records, first),
        is_ordering(records, second),
        0 <= place <= records.len(),
    ensures
        forall|k: int| 0 <= k < place ==> first[k] == second[k],
    decreases place,
{
    if place > 0 {
        lemma_orderings_agree(records, first, second, place - 1);
        let k = place - 1;
        let x = first[k];
        let y = second[k];
        if x != y {
            assert(second.contains(x));
            let m = choose|m: int| 0 <= m < second.len() && second[m] == x;
            assert(first.contains(y));
            let n = choose|n: int| 0 <= n < first.len() && first[n] == y;
            if m < k {
                assert(first[m] == x);
                assert(sorts_before(records, first[m], first[k]));
            } else {
                assert(sorts_before(records, second[k], second[m]));
            }
            if n < k {
                assert(second[n] == y);
                assert(sorts_before(records, second[n], second[k]));
            } else {
                assert(sorts_before(records, first[k], first[n]));
            }
        }
    }
}

/// Records have one ordering only.
pub proof fn lemma_ordering_unique(records: Seq<DescriptorView>, order: Seq<int>)
    requires
        is_ordering(records, order),
    ensures
        ordering_of(records) == order,
{
    let chosen = ordering_of(records);
    lemma_orderings_agree(records, chosen, order, records.len() as int);
    assert(chosen =~= order);
}

/// The last record can be put into an ordering of the others: after all
/// that sort before it and before all that it sorts before.
pub proof fn lemma_insert_last(records: Seq<DescriptorView>, order: Seq<int>, place: int)
    requires
        records.len() > 0,
        is_ordering(records.drop_last(), order),
        0 <= place <= order.len(),
        forall|k: int|
            0 <= k < place ==> sorts_before(records, #[trigger] order[k], records.len() - 1),
        forall|k: int|
            place <= k < order.len() ==> sorts_before(
                records,
                records.len() - 1,
                #[trigger] order[k],
            ),
    ensures
        is_ordering(records, order.insert(place, records.len() - 1)),
{
    let last = records.len() - 1;
    let longer = order.insert(place, last);
    let from = |k: int| if k < place { k } else { k - 1 };
    assert forall|k: int| 0 <= k < longer.len() implies 0 <= #[trigger] longer[k]
        < records.len() by {
        if k != place {
            assert(longer[k] == order[from(k)]);
        }
    }
    assert forall|i: int| 0 <= i < records.len() implies #[trigger] longer.contains(i) by {
        if i == last {
            assert(longer[place] == last);
        } else {
            assert(order.contains(i));
            let at = choose|at: int| 0 <= at < order.len() && order[at] == i;
            if at < place {
                assert(longer[at] == i);
            } else {
                assert(longer[at + 1] == i);
            }
        }
    }
    assert forall|a: int, b: int| 0 <= a < b < longer.len() implies sorts_before(
        records,
        #[trigger] longer[a],
        #[trigger] longer[b],
    ) by {
        if a != place {
            assert(longer[a] == order[from(a)]);
        }
        if b != place {
            assert(longer[b] == order[from(b)]);
        }
        if a != place && b != place {
            assert(sorts_before(records.drop_last(), order[from(a)], order[from(b)]));
        }
    }
}

/// Where the last record goes in an ordering of the others.
proof fn lemma_place_of_last(records: Seq<DescriptorView>, order: Seq<int>, upto: int) -> (place:
    int)
    requires
        records.len() > 0,
        is_ordering(records.drop_last(), order),
        0 <= upto <= order.len(),
        forall|k: int|
            upto <= k < order.len() ==> sorts_before(
                records,
                records.len() - 1,
                #[trigger] order[k],
            ),
    ensures
        0 <= place <= order.len(),
        forall|k: int|
            0 <= k < place ==> sorts_before(records, #[trigger] order[k], records.len() - 1),
        forall|k: int|
            place <= k < order.len() ==> sorts_before(
                records,
                records.len() - 1,
                #[trigger] order[k],
            ),
    decreases upto,
{
    if upto == 0 {
        0
    } else if sorts_before(records, order[upto - 1], records.len() - 1) {
        assert forall|k: int| 0 <= k < upto implies sorts_before(
            records,
            #[trigger] order[k],
            records.len() - 1,
        ) by {
            if k < upto - 1 {
                assert(sorts_before(records.drop_last(), order[k], order[upto - 1]));
            }
        }
        upto
    } else {
        lemma_place_of_last(records, order, upto - 1)
    }
}

/// Every sequence of records has an ordering.
pub proof fn lemma_ordering_exists(records: Seq<DescriptorView>)
    ensures
        is_ordering(records, ordering_of(records)),
    decreases records.len(),
{
    if records.len() == 0 {
        assert(is_ordering(records, Seq::<int>::empty()));
    } else {
        lemma_ordering_exists(records.drop_last());
        let order = ordering_of(records.drop_last());
        let place = lemma_place_of_last(records, order, order.len() as int);
        lemma_insert_last(records, order, place);
    }
}

/// The order is a stable sort by effective position: positions never
/// decrease along it, and of two records with the same position the one
/// that comes first in the file comes first.
pub proof fn lemma_ordering_is_stable(records: Seq<DescriptorView>, a: int, b: int)
    requires
        0 <= a < b < records.len(),
    ensures
        position_at(records, ordering_of(records)[a]) <= position_at(
            records,
            ordering_of(records)[b],
        ),
        position_at(records, ordering_of(records)[a]) == position_at(
            records,
            ordering_of(records)[b],
        ) ==> ordering_of(records)[a] < ordering_of(records)[b],
{
    lemma_ordering_exists(records);
    let order = ordering_of(records);
    assert(sorts_before(records, order[a], order[b]));
}

/// The indices of an order, as integers.
pub open spec fn indices_of(order: Seq<usize>) -> Seq<int> {
    Seq::new(order.len(), |k: int| order[k] as int)
}

/// The kind of variable that a type code stands for.
pub open spec fn variable_kind(var_type: nat) -> VariableType {
    if var_type == 1 {
        VariableType::Numeric
    } else {
        VariableType::Character
    }
}

/// The name given to a variable without one: `VAR` and its place in the
/// order, counted from 1.
pub open spec fn default_name(ordinal: nat) -> Seq<char> {
    "VAR"@ + ascii_text(decimal_bytes(ordinal))
}

/// The variable that the record at `index` becomes at place `rank` of the
/// order: a missing name is made up, a missing label is the name, and the
/// length is at least the least width of the kind.
pub open spec fn variable_of(record: DescriptorView, index: int, rank: int) -> VariableView {
    let name = if record.name.len() == 0 {
        default_name((rank + 1) as nat)
    } else {
        record.name
    };
    let kind = variable_kind(record.var_type);
    VariableView {
        name,
        label: if record.label.len() == 0 {
            name
        } else {
            record.label
        },
        var_type: kind,
        length: if record.length < kind.minimum_length() {
            kind.minimum_length()
        } else {
            record.length
        },
        position: effective_position(record.position, index),
    }
}

/// The variables of a dataset, in order.
pub open spec fn ordered_variables(records: Seq<DescriptorView>) -> Seq<VariableView> {
    Seq::new(
        records.len(),
        |rank: int|
            variable_of(records[ordering_of(records)[rank]], ordering_of(records)[rank], rank),
    )
}

/// The effective position of the record at `index`.
fn effective_position_at(records: &Vec<NameStringRecord>, index: usize) -> (position: usize)
    requires
        index < records@.len(),
    ensures
        position == position_at(record_views(records@), index as int),
{
    let declared: u16 = records[index].position;
    if declared > 0 {
        declared as usize
    } else {
        assert(index < records.len());
        index + 1
    }
}

/// Orders the records: a stable insertion sort on their indices.
pub fn sort_order(records: &Vec<NameStringRecord>) -> (order: Vec<usize>)
    ensures
        indices_of(order@) == ordering_of(record_views(records@)),
        is_ordering(record_views(records@), indices_of(order@)),
{
    let ghost views = record_views(records@);
    let count: usize = records.len();
    let mut order: Vec<usize> = Vec::new();
    let mut next: usize = 0;
    assert(is_ordering(views.take(0), indices_of(order@)));
    while next < count
        invariant
            next <= count,
            count == records@.len(),
            views == record_views(records@),
            is_ordering(views.take(next as int), indices_of(order@)),
        decreases count - next,
    {
        let ghost before = indices_of(order@);
        let ghost longer = views.take(next + 1);
        assert(longer.drop_last() =~= views.take(next as int));
        assert forall|k: int| 0 <= k < order@.len() implies (#[trigger] order@[k]) < next by {
            assert(before[k] == order@[k]);
        }
        let key: usize = effective_position_at(records, next);
        let mut place: usize = order.len();
        while place > 0 && effective_position_at(records, order[place - 1]) > key
            invariant
                place <= order@.len(),
                next < count,
                forall|k: int| 0 <= k < order@.len() ==> (#[trigger] order@[k]) < next,
                count == records@.len(),
                views == record_views(records@),
                before == indices_of(order@),
                longer == views.take(next + 1),
                is_ordering(longer.drop_last(), before),
                key == position_at(longer, next as int),
                forall|k: int|
                    place <= k < before.len() ==> sorts_before(
                        longer,
                        next as int,
                        #[trigger] before[k],
                    ),
            decreases place,
        {
            assert(before[place - 1] == order@[place - 1]);
            place -= 1;
        }
        proof {
            if place > 0 {
                assert(before[place - 1] == order@[place - 1]);
                assert(sorts_before(longer, before[place - 1], next as int));
            }
            assert forall|k: int| 0 <= k < place implies sorts_before(
                longer,
                #[trigger] before[k],
                next as int,
            ) by {
                if k < place - 1 {
                    assert(sorts_before(longer.drop_last(), before[k], before[place - 1]));
                }
            }
            lemma_insert_last(longer, before, place as int);
        }
        order.insert(place, next);
        assert(indices_of(order@) =~= before.insert(place as int, next as int));
        next += 1;
    }
    proof {
        assert(views.take(count as int) =~= views);
        lemma_ordering_unique(views, indices_of(order@));
    }
    order
}

/// The kind of variable that a type code stands for.
fn kind_of(var_type: u16) -> (kind: VariableType)
    ensures
        kind == variable_kind(var_type as nat),
{
    if var_type == 1 {
        VariableType::Numeric
    } else {
        VariableType::Character
    }
}

/// The name for a variable without one at place `ordinal` of the order.
fn make_default_name(ordinal: usize) -> (name: String)
    ensures
        name@ == default_name(ordinal as nat),
{
    let mut digits: Vec<u8> = Vec::new();
    append_decimal(&mut digits, ordinal as u128);
    proof {
        lemma_decimal_is_ascii(ordinal as nat);
        assert(digits@ =~= decimal_bytes(ordinal as nat));
    }
    let number = text_from_ascii(digits.as_slice());
    let mut name = String::from_str("VAR");
    name.append(number.as_str());
    name
}

/// Makes the variable for the record at `index`, which stands at place
/// `rank` of the order.
fn make_variable(record: &NameStringRecord, index: usize, rank: usize) -> (variable: XPTVariable)
    requires
        rank < usize::MAX,
        index < usize::MAX,
    ensures
        variable@ == variable_of(record@, index as int, rank as int),
{
    let name = if record.name.as_str().is_empty() {
        make_default_name(rank + 1)
    } else {
        record.name.clone()
    };
    let label = if record.label.as_str().is_empty() {
        name.clone()
    } else {
        record.label.clone()
    };
    let var_type = kind_of(record.var_type);
    let least: u16 = match var_type {
        VariableType::Numeric => MIN_NUMERIC_LENGTH,
        VariableType::Character => MIN_CHARACTER_LENGTH,
    };
    let length: usize = if record.length < least {
        least as usize
    } else {
        record.length as usize
    };
    let position: usize = if record.position > 0 {
        record.position as usize
    } else {
        index + 1
    };
    XPTVariable { name, label, var_type, length, position }
}

/// Orders the records and makes a variable of each.
pub fn order_variables(records: &Vec<NameStringRecord>) -> (variables: Vec<XPTVariable>)
    ensures
        variable_views(variables@) == ordered_variables(record_views(records@)),
{
    let order = sort_order(records);
    let count: usize = records.len();
    let mut variables: Vec<XPTVariable> = Vec::new();
    let mut rank: usize = 0;
    while rank < count
        invariant
            rank <= count,
            count == records@.len(),
            is_ordering(record_views(records@), indices_of(order@)),
            indices_of(order@) == ordering_of(record_views(records@)),
            variables@.len() == rank,
            forall|k: int|
                0 <= k < rank ==> (#[trigger] variables@[k])@ == variable_of(
                    records@[order@[k] as int]@,
                    order@[k] as int,
                    k,
                ),
        decreases count - rank,
    {
        let index: usize = order[rank];
        assert(indices_of(order@)[rank as int] == index);
        let variable = make_variable(&records[index], index, rank);
        variables.push(variable);
        rank += 1;
    }
    assert forall|k: int| 0 <= k < count implies variable_views(variables@)[k]
        == ordered_variables(record_views(records@))[k] by {
        assert(indices_of(order@)[k] == order@[k]);
    }
    assert(variable_views(variables@) =~= ordered_variables(record_views(records@)));
    variables
}

} // verus!
