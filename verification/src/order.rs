//! Ordering of beat positions: the sortedness predicate and a verified
//! ascending sort used by the note normalizer.

use vstd::prelude::*;
use vstd::seq_lib::group_to_multiset_ensures;

verus! {

/// The sequence is ascending: every element is at most each later one.
pub open spec fn sorted_asc(s: Seq<u64>) -> bool {
    forall|i: int, j: int| 0 <= i <= j < s.len() ==> s[i] <= s[j]
}

/// Inserting an element anywhere in a sequence adds exactly that element
/// to the sequence's multiset.
proof fn lemma_to_multiset_insert(s: Seq<u64>, pos: int, a: u64)
    requires
        0 <= pos <= s.len(),
    ensures
        s.insert(pos, a).to_multiset() == s.to_multiset().insert(a),
{
    broadcast use group_to_multiset_ensures;
    broadcast use vstd::multiset::group_multiset_properties;

    let t = s.insert(pos, a);
    assert(t.remove(pos) =~= s);
    assert(t[pos] == a);
    assert(s.to_multiset() == t.to_multiset().remove(a));
    assert(t.to_multiset().count(a) > 0);
    assert forall|x: u64|
        #[trigger] t.to_multiset().count(x) == s.to_multiset().insert(a).count(x) by {
        if x == a {
            assert(s.to_multiset().count(a) == t.to_multiset().count(a) - 1);
        } else {
            assert(s.to_multiset().count(x) == t.to_multiset().count(x));
        }
    }
    assert(t.to_multiset() =~= s.to_multiset().insert(a));
}

/// Inserts a beat into an ascending sequence, after any equal beats.
pub open spec fn insert_sorted(s: Seq<u64>, x: u64) -> Seq<u64>
    decreases s.len(),
{
    if s.len() == 0 {
        seq![x]
    } else if x >= s.last() {
        s.push(x)
    } else {
        insert_sorted(s.drop_last(), x) + seq![s.last()]
    }
}

/// The ascending reordering of a sequence of beats.
pub open spec fn sort_spec(s: Seq<u64>) -> Seq<u64>
    decreases s.len(),
{
    if s.len() == 0 {
        Seq::empty()
    } else {
        insert_sorted(sort_spec(s.drop_last()), s.last())
    }
}

/// Inserting into an ascending sequence at the first position whose element
/// exceeds the new beat is what `insert_sorted` denotes.
proof fn lemma_insert_sorted_at(s: Seq<u64>, x: u64, pos: int)
    requires
        sorted_asc(s),
        0 <= pos <= s.len(),
        forall|k: int| 0 <= k < pos ==> s[k] <= x,
        pos < s.len() ==> s[pos] > x,
    ensures
        insert_sorted(s, x) == s.insert(pos, x),
    decreases s.len(),
{
    if pos == s.len() {
        if s.len() == 0 {
            assert(insert_sorted(s, x) =~= s.insert(pos, x));
        } else {
            assert(s.last() <= x);
            assert(s.push(x) =~= s.insert(pos, x));
        }
    } else {
        assert(s.last() >= s[pos]);
        assert(x < s.last());
        lemma_insert_sorted_at(s.drop_last(), x, pos);
        assert(insert_sorted(s.drop_last(), x) + seq![s.last()] =~= s.insert(pos, x));
    }
}

/// Sorts the beats ascending. The result holds exactly the input's beats.
pub fn sort_beats(v: &Vec<u64>) -> (r: Vec<u64>)
    ensures
        sorted_asc(r@),
        r@.to_multiset() == v@.to_multiset(),
        r@.len() == v@.len(),
        r@ == sort_spec(v@),
{
    broadcast use group_to_multiset_ensures;

    let mut out: Vec<u64> = Vec::new();
    let ghost input = v@;
    proof {
        assert(v@.subrange(0, 0) =~= Seq::<u64>::empty());
        assert(out@.to_multiset() =~= v@.subrange(0, 0).to_multiset());
    }
    let mut i: usize = 0;
    while i < v.len()
        invariant
            i <= v@.len(),
            v@ == input,
            sorted_asc(out@),
            out@.to_multiset() == v@.subrange(0, i as int).to_multiset(),
            out@ == sort_spec(v@.subrange(0, i as int)),
            out@.len() == i,
        decreases v@.len() - i,
    {
        let x = v[i];
        let mut pos: usize = 0;
        while pos < out.len() && out[pos] <= x
            invariant
                pos <= out@.len(),
                forall|k: int| 0 <= k < pos ==> out@[k] <= x,
                sorted_asc(out@),
            decreases out@.len() - pos,
        {
            pos += 1;
        }
        proof {
            lemma_to_multiset_insert(out@, pos as int, x);
            lemma_insert_sorted_at(out@, x, pos as int);
            v@.subrange(0, i as int).to_multiset_ensures();
            assert(v@.subrange(0, i as int + 1) =~= v@.subrange(0, i as int).push(v@[i as int]));
            assert(v@.subrange(0, i as int + 1).drop_last() =~= v@.subrange(0, i as int));
            assert(v@.subrange(0, i as int + 1).last() == v@[i as int]);
        }
        let ghost before = out@;
        out.insert(pos, x);
        proof {
            assert(out@ == before.insert(pos as int, x));
            assert(v@.subrange(0, i as int).push(v@[i as int]).to_multiset() =~= v@.subrange(
                0,
                i as int,
            ).to_multiset().insert(v@[i as int]));
            assert(out@.to_multiset() == v@.subrange(0, i as int + 1).to_multiset());
            assert forall|p: int, q: int| 0 <= p <= q < out@.len() implies out@[p] <= out@[q] by {
                before.insert_ensures(pos as int, x);
            }
        }
        i += 1;
    }
    proof {
        assert(v@.subrange(0, v@.len() as int) =~= v@);
    }
    out
}

} // verus!
