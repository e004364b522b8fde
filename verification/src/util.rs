//! Deduplication of fetched time entries.
use vstd::prelude::*;
use crate::teamwork::{EntryView, TimeEntry};

verus! {

/// The entries of `s` with every exact duplicate dropped, keeping the
/// first occurrence of each value in order.
pub open spec fn spec_dedup(s: Seq<EntryView>) -> Seq<EntryView>
    decreases s.len(),
{
    if s.len() == 0 {
        Seq::empty()
    } else {
        let p = spec_dedup(s.drop_last());
        if p.contains(s.last()) {
            p
        } else {
            p.push(s.last())
        }
    }
}

/// Deduplication keeps exactly the values of its input.
pub proof fn lemma_dedup_same_values(s: Seq<EntryView>)
    ensures
        forall|x: EntryView| #[trigger] spec_dedup(s).contains(x) <==> s.contains(x),
    decreases s.len(),
{
    if s.len() > 0 {
        lemma_dedup_same_values(s.drop_last());
        assert forall|x: EntryView| #[trigger] spec_dedup(s).contains(x) implies s.contains(x) by {
            if x == s.last() {
                assert(s[s.len() - 1] == x);
            } else {
                assert(spec_dedup(s.drop_last()).contains(x));
                let i = choose|i: int|
                    0 <= i < s.drop_last().len() && s.drop_last()[i] == x;
                assert(s[i] == x);
            }
        }
        assert forall|x: EntryView| s.contains(x) implies #[trigger] spec_dedup(s).contains(x) by {
            let i = choose|i: int| 0 <= i < s.len() && s[i] == x;
            if i < s.len() - 1 {
                assert(s.drop_last()[i] == x);
                assert(spec_dedup(s.drop_last()).contains(x));
                let p = spec_dedup(s.drop_last());
                if !p.contains(s.last()) {
                    let j = choose|j: int| 0 <= j < p.len() && p[j] == x;
                    assert(p.push(s.last())[j] == x);
                }
            } else {
                let p = spec_dedup(s.drop_last());
                if p.contains(s.last()) {
                    assert(p.contains(x));
                } else {
                    assert(p.push(s.last())[p.len() as int] == x);
                }
            }
        }
    }
}

/// Deduplication leaves no two equal values behind.
pub proof fn lemma_dedup_distinct(s: Seq<EntryView>)
    ensures
        forall|i: int, j: int|
            0 <= i < j < spec_dedup(s).len() ==> #[trigger] spec_dedup(s)[i] != #[trigger] spec_dedup(
                s,
            )[j],
    decreases s.len(),
{
    if s.len() > 0 {
        lemma_dedup_distinct(s.drop_last());
        let p = spec_dedup(s.drop_last());
        if !p.contains(s.last()) {
            assert forall|i: int, j: int|
                0 <= i < j < p.push(s.last()).len() implies #[trigger] p.push(s.last())[i]
                != #[trigger] p.push(s.last())[j] by {
                if j == p.len() {
                    assert(p[i] == p.push(s.last())[i]);
                    assert(p.contains(p[i]));
                }
            }
        }
    }
}

/// Deduplicating a sequence with no duplicate values changes nothing.
pub proof fn lemma_dedup_of_distinct(s: Seq<EntryView>)
    requires
        forall|i: int, j: int| 0 <= i < j < s.len() ==> s[i] != s[j],
    ensures
        spec_dedup(s) == s,
    decreases s.len(),
{
    if s.len() == 0 {
        assert(spec_dedup(s) =~= s);
    } else {
        lemma_dedup_of_distinct(s.drop_last());
        let p = spec_dedup(s.drop_last());
        if p.contains(s.last()) {
            let i = choose|i: int| 0 <= i < p.len() && p[i] == s.last();
            assert(s[i] == s[s.len() - 1]);
            assert(false);
        }
        assert(p.push(s.last()) =~= s);
    }
}

/// Deduplication is idempotent: a second pass returns its input.
pub proof fn lemma_dedup_idempotent(s: Seq<EntryView>)
    ensures
        spec_dedup(spec_dedup(s)) == spec_dedup(s),
{
    lemma_dedup_distinct(s);
    lemma_dedup_of_distinct(spec_dedup(s));
}

/// Deduplication is order-independent: two sequences holding the same
/// values in any arrangement deduplicate to the same set of values.
pub proof fn lemma_dedup_order_independent(s: Seq<EntryView>, t: Seq<EntryView>)
    requires
        s.to_multiset() == t.to_multiset(),
    ensures
        forall|x: EntryView|
            #[trigger] spec_dedup(s).contains(x) <==> #[trigger] spec_dedup(t).contains(x),
{
    broadcast use vstd::seq_lib::group_to_multiset_ensures;

    lemma_dedup_same_values(s);
    lemma_dedup_same_values(t);
    assert forall|x: EntryView| s.contains(x) <==> t.contains(x) by {
        assert(s.contains(x) <==> s.to_multiset().count(x) > 0);
        assert(t.contains(x) <==> t.to_multiset().count(x) > 0);
    }
}

/// Does some held entry equal `e`?
fn contains_entry(v: &Vec<TimeEntry>, e: &TimeEntry) -> (r: bool)
    ensures
        r == v@.map_values(|x: TimeEntry| x@).contains(e@),
{
    let ghost s = v@.map_values(|x: TimeEntry| x@);
    let mut i: usize = 0;
    while i < v.len()
        invariant
            0 <= i <= v.len(),
            s == v@.map_values(|x: TimeEntry| x@),
            forall|j: int| 0 <= j < i ==> s[j] != e@,
        decreases v.len() - i,
    {
        if v[i] == *e {
            assert(s[i as int] == e@);
            return true;
        }
        i = i + 1;
    }
    assert(!s.contains(e@));
    false
}

/// Collapses exact-duplicate entries, keeping the first occurrence of
/// each value; the relative order of first occurrences is kept.
pub fn remove_duplicates(items: Vec<TimeEntry>) -> (r: Vec<TimeEntry>)
    ensures
        r@.map_values(|x: TimeEntry| x@) == spec_dedup(items@.map_values(|x: TimeEntry| x@)),
{
    let ghost orig = items@.map_values(|x: TimeEntry| x@);
    let mut items = items;
    let n: usize = items.len();
    assert(orig.len() == n);
    let mut unique_items: Vec<TimeEntry> = Vec::new();
    let mut i: usize = 0;
    while items.len() > 0
        invariant
            orig.len() <= usize::MAX,
            i + items.len() == orig.len(),
            items@.map_values(|x: TimeEntry| x@) =~= orig.skip(i as int),
            unique_items@.map_values(|x: TimeEntry| x@) == spec_dedup(orig.take(i as int)),
        decreases items.len(),
    {
        let ghost before = items@;
        let e = items.remove(0);
        proof {
            assert(before.map_values(|x: TimeEntry| x@)[0] == e@);
            assert(e@ == orig[i as int]);
            assert forall|k: int|
                0 <= k < items@.len() implies items@.map_values(|x: TimeEntry| x@)[k] == #[trigger] (
            orig.skip(i as int + 1)[k]) by {
                assert(items@[k] == before[k + 1]);
                assert(before.map_values(|x: TimeEntry| x@)[k + 1] == orig.skip(i as int)[k + 1]);
            }
            assert(items@.map_values(|x: TimeEntry| x@) =~= orig.skip(i as int + 1));
            assert(orig.take(i as int + 1).drop_last() =~= orig.take(i as int));
            assert(orig.take(i as int + 1).last() == orig[i as int]);
        }
        if !contains_entry(&unique_items, &e) {
            unique_items.push(e);
            proof {
                assert(unique_items@.map_values(|x: TimeEntry| x@) =~= spec_dedup(
                    orig.take(i as int + 1),
                ));
            }
        }
        i = i + 1;
    }
    proof {
        assert(orig.take(orig.len() as int) =~= orig);
    }
    unique_items
}

} // verus!
