//! A verified descending sort for the requirement list. The allocator's
//! placement policy is "largest request first", so the sort is part of the
//! core logic: `sort_desc` is the mathematical ordering the contracts speak
//! of, and `sort_desc_vec` computes it.

use vstd::prelude::*;
use vstd::seq_lib::{lemma_multiset_commutative, to_multiset_build};
use vstd::multiset::Multiset;

verus! {

/// The sequence is in non-increasing order.
pub open spec fn sorted_desc(s: Seq<u32>) -> bool {
    forall|i: int, j: int| #![trigger s[i], s[j]] 0 <= i < j < s.len() ==> s[i] >= s[j]
}

/// Inserts `v` into a non-increasing sequence, before the first element it
/// exceeds.
pub open spec fn insert_desc(s: Seq<u32>, v: u32) -> Seq<u32>
    decreases s.len(),
{
    if s.len() == 0 {
        seq![v]
    } else if v > s[0] {
        seq![v] + s
    } else {
        seq![s[0]] + insert_desc(s.drop_first(), v)
    }
}

/// Sorts a sequence into non-increasing order by repeated insertion.
pub open spec fn sort_desc(s: Seq<u32>) -> Seq<u32>
    decreases s.len(),
{
    if s.len() == 0 {
        Seq::empty()
    } else {
        insert_desc(sort_desc(s.drop_first()), s[0])
    }
}

/// Prepending an element adds it to the sequence's multiset.
proof fn lemma_cons_to_multiset(s: Seq<u32>, v: u32)
    ensures
        (seq![v] + s).to_multiset() == s.to_multiset().insert(v),
{
    broadcast use vstd::multiset::group_multiset_axioms;

    lemma_multiset_commutative(seq![v], s);
    assert(seq![v] =~= Seq::<u32>::empty().push(v));
    to_multiset_build(Seq::<u32>::empty(), v);
    assert(Seq::<u32>::empty().to_multiset() =~= Multiset::<u32>::empty()) by {
        Seq::<u32>::empty().to_multiset_ensures();
    }
    assert(Multiset::<u32>::empty().insert(v).add(s.to_multiset()) =~= s.to_multiset().insert(
        v,
    ));
    assert((seq![v] + s).to_multiset() =~= s.to_multiset().insert(v));
}

/// `insert_desc` keeps the order, grows the length by one, and adds exactly
/// the new element to the multiset.
proof fn lemma_insert_desc_props(s: Seq<u32>, v: u32)
    requires
        sorted_desc(s),
    ensures
        sorted_desc(insert_desc(s, v)),
        insert_desc(s, v).len() == s.len() + 1,
        insert_desc(s, v).to_multiset() == s.to_multiset().insert(v),
    decreases s.len(),
{
    broadcast use vstd::multiset::group_multiset_axioms;

    let t = insert_desc(s, v);
    if s.len() == 0 {
        assert(s =~= Seq::<u32>::empty());
        lemma_cons_to_multiset(s, v);
        assert(seq![v] + s =~= seq![v]);
    } else if v > s[0] {
        lemma_cons_to_multiset(s, v);
        assert forall|i: int, j: int| 0 <= i < j < t.len() implies t[i] >= t[j] by {
            if i > 0 {
                assert(t[i] == s[i - 1] && t[j] == s[j - 1]);
            } else {
                assert(t[j] == s[j - 1]);
                assert(s[0] >= s[j - 1]);
            }
        }
    } else {
        let rest = s.drop_first();
        let inner = insert_desc(rest, v);
        lemma_insert_desc_props(rest, v);
        lemma_cons_to_multiset(inner, v);
        lemma_cons_to_multiset(rest, s[0]);
        lemma_cons_to_multiset(inner, s[0]);
        assert(seq![s[0]] + rest =~= s);
        // Multisets: t = {s[0]} + inner = {s[0]} + rest + {v} = s + {v}.
        assert(t.to_multiset() =~= inner.to_multiset().insert(s[0]));
        assert(inner.to_multiset() =~= rest.to_multiset().insert(v));
        assert(rest.to_multiset().insert(v).insert(s[0]) =~= rest.to_multiset().insert(
            s[0],
        ).insert(v));
        assert(t.to_multiset() =~= s.to_multiset().insert(v));
        // Order: the head dominates everything in `inner`, which holds only
        // `v` and elements of `rest`.
        s.to_multiset_ensures();
        rest.to_multiset_ensures();
        inner.to_multiset_ensures();
        assert forall|i: int, j: int| 0 <= i < j < t.len() implies t[i] >= t[j] by {
            if i > 0 {
                assert(t[i] == inner[i - 1] && t[j] == inner[j - 1]);
            } else {
                assert(t[j] == inner[j - 1]);
                let x = inner[j - 1];
                assert(inner.to_multiset().count(x) > 0);
                if x != v {
                    assert(rest.to_multiset().count(x) > 0);
                    assert(rest.contains(x));
                    let k = choose|k: int| 0 <= k < rest.len() && rest[k] == x;
                    assert(s[k + 1] == x);
                    assert(s[0] >= x);
                }
            }
        }
    }
}

/// `sort_desc` returns a non-increasing sequence with the same length and
/// the same multiset of elements as its input.
pub proof fn lemma_sort_desc_props(s: Seq<u32>)
    ensures
        sorted_desc(sort_desc(s)),
        sort_desc(s).len() == s.len(),
        sort_desc(s).to_multiset() == s.to_multiset(),
    decreases s.len(),
{
    broadcast use vstd::multiset::group_multiset_axioms;

    if s.len() == 0 {
        assert(s =~= Seq::<u32>::empty());
        assert(sort_desc(s) == Seq::<u32>::empty());
    } else {
        let rest = s.drop_first();
        lemma_sort_desc_props(rest);
        lemma_insert_desc_props(sort_desc(rest), s[0]);
        lemma_cons_to_multiset(rest, s[0]);
        assert(seq![s[0]] + rest =~= s);
    }
}

/// `insert_desc` is insertion at the first position whose element the new
/// value exceeds.
proof fn lemma_insert_desc_at(s: Seq<u32>, v: u32, i: int)
    requires
        0 <= i <= s.len(),
        forall|j: int| 0 <= j < i ==> s[j] >= v,
        i == s.len() || v > s[i],
    ensures
        insert_desc(s, v) == s.insert(i, v),
    decreases i,
{
    if i == 0 {
        if s.len() == 0 {
            assert(s.insert(0, v) =~= seq![v]);
        } else {
            assert(s.insert(0, v) =~= seq![v] + s);
        }
    } else {
        let rest = s.drop_first();
        lemma_insert_desc_at(rest, v, i - 1);
        assert(insert_desc(s, v) == seq![s[0]] + rest.insert(i - 1, v));
        assert(seq![s[0]] + rest.insert(i - 1, v) =~= s.insert(i, v));
    }
}

/// Inserts `x` into the non-increasingly sorted vector `v`, keeping it
/// sorted.
fn insert_sorted(v: &mut Vec<u32>, x: u32)
    ensures
        final(v)@ == insert_desc(old(v)@, x),
{
    let mut i: usize = 0;
    while i < v.len() && v[i] >= x
        invariant
            i <= v@.len(),
            forall|j: int| 0 <= j < i ==> v@[j] >= x,
            v@ == old(v)@,
        decreases v@.len() - i,
    {
        i = i + 1;
    }
    proof {
        lemma_insert_desc_at(v@, x, i as int);
    }
    v.insert(i, x);
}

/// Returns the elements of `v` in non-increasing order.
pub fn sort_desc_vec(v: &Vec<u32>) -> (r: Vec<u32>)
    ensures
        r@ == sort_desc(v@),
{
    let mut r: Vec<u32> = Vec::new();
    let mut i: usize = v.len();
    while i > 0
        invariant
            i <= v@.len(),
            r@ == sort_desc(v@.skip(i as int)),
        decreases i,
    {
        i = i - 1;
        assert(v@.skip(i as int).drop_first() =~= v@.skip(i as int + 1));
        insert_sorted(&mut r, v[i]);
    }
    assert(v@.skip(0) =~= v@);
    r
}

} // verus!
