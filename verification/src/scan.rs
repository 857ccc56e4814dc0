//! Runs of elements at the ends of a sequence, by a predicate.

use vstd::prelude::*;

verus! {

/// `s` without the longest prefix whose elements all satisfy `p`.
pub open spec fn skip_while<T>(s: Seq<T>, p: spec_fn(T) -> bool) -> Seq<T>
    decreases s.len(),
{
    if s.len() > 0 && p(s[0]) {
        skip_while(s.drop_first(), p)
    } else {
        s
    }
}

/// The longest prefix of `s` whose elements all satisfy `p`.
pub open spec fn take_while<T>(s: Seq<T>, p: spec_fn(T) -> bool) -> Seq<T>
    decreases s.len(),
{
    if s.len() > 0 && p(s[0]) {
        seq![s[0]] + take_while(s.drop_first(), p)
    } else {
        Seq::empty()
    }
}

/// `s` without the longest suffix whose elements all satisfy `p`.
pub open spec fn drop_tail_while<T>(s: Seq<T>, p: spec_fn(T) -> bool) -> Seq<T>
    decreases s.len(),
{
    if s.len() > 0 && p(s.last()) {
        drop_tail_while(s.drop_last(), p)
    } else {
        s
    }
}

/// The first `n` elements satisfy `p` and the next one, if any, does not.
pub open spec fn is_prefix_run<T>(s: Seq<T>, p: spec_fn(T) -> bool, n: int) -> bool {
    &&& 0 <= n <= s.len()
    &&& forall|i: int| 0 <= i < n ==> p(#[trigger] s[i])
    &&& n < s.len() ==> !p(s[n])
}

/// The elements from `n` on satisfy `p` and the one before, if any, does
/// not.
pub open spec fn is_suffix_run<T>(s: Seq<T>, p: spec_fn(T) -> bool, n: int) -> bool {
    &&& 0 <= n <= s.len()
    &&& forall|i: int| n <= i < s.len() ==> p(#[trigger] s[i])
    &&& n > 0 ==> !p(s[n - 1])
}

/// A maximal run at the front is what `skip_while` drops and `take_while`
/// keeps.
pub proof fn lemma_prefix_run<T>(s: Seq<T>, p: spec_fn(T) -> bool, n: int)
    requires
        is_prefix_run(s, p, n),
    ensures
        skip_while(s, p) == s.skip(n),
        take_while(s, p) == s.take(n),
    decreases s.len(),
{
    if n == 0 {
        assert(s.skip(0) =~= s);
        assert(s.take(0) =~= Seq::<T>::empty());
    } else {
        let rest = s.drop_first();
        assert(p(s[0]));
        assert forall|i: int| 0 <= i < n - 1 implies p(#[trigger] rest[i]) by {
            assert(rest[i] == s[i + 1]);
        }
        lemma_prefix_run(rest, p, n - 1);
        assert(rest.skip(n - 1) =~= s.skip(n));
        assert(seq![s[0]] + rest.take(n - 1) =~= s.take(n));
    }
}

/// What `drop_tail_while` leaves is a prefix that does not end in an
/// element that satisfies `p`, and all that it drops satisfies `p`.
pub proof fn lemma_drop_tail_while<T>(s: Seq<T>, p: spec_fn(T) -> bool)
    ensures
        is_suffix_run(s, p, drop_tail_while(s, p).len() as int),
        drop_tail_while(s, p) == s.take(drop_tail_while(s, p).len() as int),
    decreases s.len(),
{
    if s.len() > 0 && p(s.last()) {
        let rest = s.drop_last();
        lemma_drop_tail_while(rest, p);
        let kept = drop_tail_while(rest, p).len() as int;
        assert(rest.take(kept) =~= s.take(kept));
        assert forall|i: int| kept <= i < s.len() implies p(#[trigger] s[i]) by {
            if i < rest.len() {
                assert(rest[i] == s[i]);
            }
        }
        if kept > 0 {
            assert(rest[kept - 1] == s[kept - 1]);
        }
    } else {
        assert(s.take(s.len() as int) =~= s);
    }
}

/// A maximal run at the back is what `drop_tail_while` drops.
pub proof fn lemma_suffix_run<T>(s: Seq<T>, p: spec_fn(T) -> bool, n: int)
    requires
        is_suffix_run(s, p, n),
    ensures
        drop_tail_while(s, p) == s.take(n),
    decreases s.len(),
{
    if n == s.len() {
        assert(s.take(n) =~= s);
    } else {
        let rest = s.drop_last();
        assert(p(s[s.len() - 1]));
        assert forall|i: int| n <= i < rest.len() implies p(#[trigger] rest[i]) by {
            assert(rest[i] == s[i]);
        }
        lemma_suffix_run(rest, p, n);
        assert(rest.take(n) =~= s.take(n));
    }
}

} // verus!
