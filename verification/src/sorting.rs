//! Stable ordering of records by timestamp and record class.

use vstd::prelude::*;
use vstd::seq_lib::*;
use crate::types::{
    ControlRecord, ControlView, PayloadView, Record, RecordView, WpiLog, WpiRecord, records_view,
};

verus! {

/// A sort key: the timestamp, then the class of the record.
pub type SortKey = (u64, u8);

/// Class of a record within one timestamp: `Start` comes first, then
/// `SetMetadata`, then `Finish`, then data.
pub open spec fn rank(r: RecordView) -> u8 {
    match r.data {
        PayloadView::Control(ControlView::Start(_)) => 0,
        PayloadView::Control(ControlView::SetMetadata(_)) => 1,
        PayloadView::Control(ControlView::Finish(_)) => 2,
        PayloadView::Data(_) => 3,
    }
}

/// The key by which `sort` orders a record.
pub open spec fn sort_key(r: RecordView) -> SortKey {
    (r.timestamp_us, rank(r))
}

/// The keys of a run of records, in order.
pub open spec fn sort_keys(rs: Seq<RecordView>) -> Seq<SortKey> {
    rs.map_values(|r: RecordView| sort_key(r))
}

/// Lexicographic order on keys.
pub open spec fn key_lt(a: SortKey, b: SortKey) -> bool {
    a.0 < b.0 || (a.0 == b.0 && a.1 < b.1)
}

/// The item at position `a` must come before the item at position `b`:
/// its key is smaller, or the keys are equal and it stood first.
pub open spec fn comes_before(keys: Seq<SortKey>, a: int, b: int) -> bool {
    key_lt(keys[a], keys[b]) || (keys[a] == keys[b] && a < b)
}

/// `order` lists the positions `0..keys.len()` by ascending key, positions
/// with equal keys in ascending order.
pub open spec fn is_stable_order(keys: Seq<SortKey>, order: Seq<int>) -> bool {
    &&& order.len() == keys.len()
    &&& forall|i: int| 0 <= i < order.len() ==> 0 <= #[trigger] order[i] < keys.len()
    &&& forall|i: int, j: int|
        0 <= i < j < order.len() ==> comes_before(keys, #[trigger] order[i], #[trigger] order[j])
}

/// `out` holds the items of `items` in the order that `order` lists.
pub open spec fn arranged<T>(items: Seq<T>, order: Seq<int>, out: Seq<T>) -> bool {
    &&& out.len() == order.len()
    &&& forall|i: int| 0 <= i < out.len() ==> out[i] == items[#[trigger] order[i]]
}

/// The positions `0..n` in ascending order.
pub open spec fn all_positions(n: nat) -> Seq<int> {
    Seq::new(n, |i: int| i)
}

/// `order` lists each of the positions `0..n` exactly once.
pub open spec fn is_permutation(order: Seq<int>, n: nat) -> bool {
    order.to_multiset() == all_positions(n).to_multiset()
}

/// Mapping two sequences with the same items gives sequences with the
/// same items.
pub proof fn lemma_map_keeps_items<A, B>(a: Seq<A>, b: Seq<A>, f: spec_fn(A) -> B)
    requires
        a.to_multiset() == b.to_multiset(),
    ensures
        a.map_values(f).to_multiset() == b.map_values(f).to_multiset(),
    decreases a.len(),
{
    broadcast use vstd::multiset::group_multiset_axioms;

    a.to_multiset_ensures();
    b.to_multiset_ensures();
    let fa = a.map_values(f);
    let fb = b.map_values(f);
    if a.len() == 0 {
        assert(fa =~= fb);
    } else {
        let last = a.len() - 1;
        let x = a[last];
        assert(a.contains(x));
        assert(a.to_multiset().count(x) > 0);
        assert(b.to_multiset().count(x) > 0);
        assert(b.contains(x));
        let k = choose|k: int| 0 <= k < b.len() && b[k] == x;
        let a1 = a.remove(last);
        let b1 = b.remove(k);
        lemma_map_keeps_items(a1, b1, f);
        fa.to_multiset_ensures();
        fb.to_multiset_ensures();
        assert(fa.remove(last) =~= a1.map_values(f));
        assert(fb.remove(k) =~= b1.map_values(f));
        assert(fa.contains(fa[last]));
        assert(fb.contains(fb[k]));
        assert(fa.to_multiset().count(fa[last]) > 0);
        assert(fb.to_multiset().count(fb[k]) > 0);
        assert(fa.to_multiset() =~= fb.to_multiset()) by {
            let y = f(x);
            assert(fa[last] == y && fb[k] == y);
            assert(fa.to_multiset().remove(y) == fb.to_multiset().remove(y));
            assert forall|v: B| fa.to_multiset().count(v) == fb.to_multiset().count(v) by {
                assert(fa.to_multiset().remove(y).count(v) == fb.to_multiset().remove(y).count(
                    v,
                ));
            }
        }
    }
}

/// Items arranged by a permutation of their positions are the same items.
pub proof fn lemma_arranged_keeps_items<T>(items: Seq<T>, order: Seq<int>, out: Seq<T>)
    requires
        arranged(items, order, out),
        is_permutation(order, items.len()),
    ensures
        out.to_multiset() == items.to_multiset(),
{
    broadcast use to_multiset_len, to_multiset_contains;

    let iota = all_positions(items.len());
    let pick = |p: int| items[p];
    lemma_map_keeps_items(order, iota, pick);
    assert(iota.map_values(pick) =~= items);
    assert(order.map_values(pick) =~= out);
}

/// The positions held in `order`, as integers.
pub open spec fn positions(order: Seq<usize>) -> Seq<int> {
    order.map_values(|p: usize| p as int)
}

fn key_at(keys: &Vec<SortKey>, i: usize) -> (k: SortKey)
    requires
        i < keys@.len(),
    ensures
        k == keys@[i as int],
{
    keys[i]
}

/// Calls `<[usize]>::sort_by_key` with the key `keys[i]` for the position
/// `i`. std documents the sort as stable and tuples as ordered
/// lexicographically: the positions are rearranged by ascending key, and
/// those with equal keys, which stood in ascending order, stay so.
#[verifier::external_body]
fn sort_positions(order: &mut Vec<usize>, keys: &Vec<SortKey>)
    requires
        forall|i: int| 0 <= i < old(order)@.len() ==> old(order)@[i] < keys@.len(),
        forall|i: int, j: int| 0 <= i < j < old(order)@.len() ==> old(order)@[i] < old(order)@[j],
    ensures
        final(order)@.to_multiset() == old(order)@.to_multiset(),
        forall|i: int, j: int|
            0 <= i < j < final(order)@.len() ==> comes_before(
                keys@,
                final(order)@[i] as int,
                final(order)@[j] as int,
            ),
{
    order.sort_by_key(|i| key_at(keys, *i));
}

/// The positions `0..keys.len()` in stable ascending order of their keys.
pub fn stable_order(keys: &Vec<SortKey>) -> (order: Vec<usize>)
    ensures
        is_stable_order(keys@, positions(order@)),
        is_permutation(positions(order@), keys@.len()),
{
    let mut order: Vec<usize> = Vec::new();
    let mut i: usize = 0;
    while i < keys.len()
        invariant
            i <= keys@.len(),
            order@.len() == i,
            forall|k: int| 0 <= k < i ==> order@[k] == k,
        decreases keys@.len() - i,
    {
        order.push(i);
        i = i + 1;
    }
    let ghost identity = order@;
    sort_positions(&mut order, keys);
    proof {
        broadcast use to_multiset_len, to_multiset_contains;

        assert(order@.len() == identity.len()) by {
            assert(order@.to_multiset().len() == order@.len());
            assert(identity.to_multiset().len() == identity.len());
        }
        assert forall|k: int| 0 <= k < order@.len() implies order@[k] < keys@.len() by {
            let p = order@[k];
            assert(order@.contains(p));
            assert(order@.to_multiset().count(p) > 0);
            assert(identity.contains(p));
        }
        let ps = positions(order@);
        lemma_map_keeps_items(order@, identity, |p: usize| p as int);
        assert(identity.map_values(|p: usize| p as int) =~= all_positions(keys@.len()));
        assert forall|a: int, b: int| 0 <= a < b < ps.len() implies comes_before(
            keys@,
            #[trigger] ps[a],
            #[trigger] ps[b],
        ) by {
            assert(ps[a] == order@[a] as int && ps[b] == order@[b] as int);
        }
    }
    order
}

fn rank_of<'a>(r: &WpiRecord<'a>) -> (k: u8)
    ensures
        k == rank(r@),
{
    match r.data {
        Record::Control(ControlRecord::Start(_)) => 0,
        Record::Control(ControlRecord::SetMetadata(_)) => 1,
        Record::Control(ControlRecord::Finish(_)) => 2,
        Record::Data(_) => 3,
    }
}

impl<'a> WpiLog<'a> {
    /// Reorders the records by ascending timestamp; records that share a
    /// timestamp come as `Start`, `SetMetadata`, `Finish`, data, and within
    /// one class in the order they had.
    pub fn sort(&mut self)
        ensures
            final(self).major_version == old(self).major_version,
            final(self).minor_version == old(self).minor_version,
            final(self).extra_header == old(self).extra_header,
            exists|order: Seq<int>|
                is_stable_order(sort_keys(records_view(old(self).records@)), order) && arranged(
                    old(self).records@,
                    order,
                    final(self).records@,
                ),
            forall|i: int, j: int|
                0 <= i < j < final(self).records@.len() ==> !key_lt(
                    sort_key(#[trigger] final(self).records@[j]@),
                    sort_key(#[trigger] final(self).records@[i]@),
                ),
            final(self).records@.to_multiset() == old(self).records@.to_multiset(),
    {
        let mut keys: Vec<SortKey> = Vec::new();
        let mut i: usize = 0;
        while i < self.records.len()
            invariant
                i <= self.records@.len(),
                keys@.len() == i,
                forall|k: int| 0 <= k < i ==> keys@[k] == sort_key(self.records@[k]@),
            decreases self.records@.len() - i,
        {
            let record = &self.records[i];
            keys.push((record.timestamp_us, rank_of(record)));
            i = i + 1;
        }
        assert(keys@ =~= sort_keys(records_view(self.records@)));
        let order = stable_order(&keys);
        let ghost ps = positions(order@);
        let mut sorted: Vec<WpiRecord<'a>> = Vec::new();
        let mut j: usize = 0;
        while j < order.len()
            invariant
                j <= order@.len(),
                sorted@.len() == j,
                is_stable_order(keys@, positions(order@)),
                is_permutation(positions(order@), keys@.len()),
                keys@.len() == self.records@.len(),
                forall|k: int| 0 <= k < j ==> sorted@[k] == self.records@[order@[k] as int],
            decreases order@.len() - j,
        {
            let p = order[j];
            assert(positions(order@)[j as int] == p);
            sorted.push(self.records[p]);
            j = j + 1;
        }
        proof {
            assert(arranged(self.records@, ps, sorted@) && sorted@.to_multiset()
                == self.records@.to_multiset()) by {
                assert forall|k: int| 0 <= k < sorted@.len() implies sorted@[k]
                    == self.records@[#[trigger] ps[k]] by {
                    assert(ps[k] == order@[k] as int);
                }
                lemma_arranged_keeps_items(self.records@, ps, sorted@);
            }
            assert(arranged(self.records@, ps, sorted@)) by {
                assert forall|k: int| 0 <= k < sorted@.len() implies sorted@[k]
                    == self.records@[#[trigger] ps[k]] by {
                    assert(ps[k] == order@[k] as int);
                }
            }
            assert forall|a: int, b: int| 0 <= a < b < sorted@.len() implies !key_lt(
                sort_key(#[trigger] sorted@[b]@),
                sort_key(#[trigger] sorted@[a]@),
            ) by {
                assert(comes_before(keys@, ps[a], ps[b]));
                assert(sorted@[a] == self.records@[ps[a]]);
                assert(sorted@[b] == self.records@[ps[b]]);
            }
        }
        self.records = sorted;
    }
}

} // verus!
