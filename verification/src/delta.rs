//! The delta tracker: per-neighbour bookkeeping of which broadcast values
//! that neighbour is already known to hold, by protocol acknowledgment
//! rather than confirmed receipt.
//!
//! Values are marked known optimistically at send time; a lost message is
//! compensated by the next gossip round recomputing a fresh, possibly
//! overlapping, delta. Known-sets only grow, like the store itself.

use vstd::prelude::*;

use crate::store::{merge_seq, merge_into, lemma_merge_seq_contains, BroadcastStore};
use crate::topology::{has_id, first_index_of, lemma_first_index_of, find_first};

verus! {

/// The values of `s` that are not in `k`, in the order of `s`: the
/// minimal gossip payload for a neighbour whose known-set is `k`.
pub open spec fn diff_seq(s: Seq<u64>, k: Seq<u64>) -> Seq<u64>
    decreases s.len(),
{
    if s.len() == 0 {
        Seq::empty()
    } else {
        let r = diff_seq(s.drop_last(), k);
        if k.contains(s.last()) {
            r
        } else {
            r.push(s.last())
        }
    }
}

/// The delta is the set difference of the store and the known-set.
pub proof fn lemma_diff_seq_to_set(s: Seq<u64>, k: Seq<u64>)
    ensures
        diff_seq(s, k).to_set() =~= s.to_set() - k.to_set(),
    decreases s.len(),
{
    if s.len() > 0 {
        lemma_diff_seq_to_set(s.drop_last(), k);
        let dd = diff_seq(s.drop_last(), k);
        let d = diff_seq(s, k);
        assert(forall|v: u64| #[trigger] dd.contains(v) <==> dd.to_set().contains(v));
        assert(forall|v: u64| #[trigger] k.contains(v) <==> k.to_set().contains(v));
        assert(forall|v: u64| #[trigger] s.contains(v) <==> s.to_set().contains(v));
        assert(forall|v: u64|
            #[trigger] s.drop_last().contains(v) <==> s.drop_last().to_set().contains(v));
        assert(forall|v: u64| #[trigger] d.contains(v) <==> d.to_set().contains(v));
        assert forall|v: u64| d.contains(v) implies
            s.contains(v) && !k.contains(v) by {
            let i = choose|i: int| 0 <= i < d.len() && d[i] == v;
            if i < dd.len() {
                assert(dd[i] == v);
                assert(dd.contains(v));
                assert(dd.to_set().contains(v));
                assert(s.drop_last().to_set().contains(v));
                assert(!k.to_set().contains(v));
                assert(s.drop_last().contains(v));
                let j = choose|j: int| 0 <= j < s.drop_last().len() && s.drop_last()[j] == v;
                assert(s.drop_last()[j] == s[j]);
                assert(s[j] == v);
            } else {
                assert(v == s.last());
                assert(s[s.len() - 1] == v);
                assert(!k.contains(s.last()));
            }
        }
        assert forall|v: u64| s.contains(v) && !k.contains(v) implies
            d.contains(v) by {
            let i = choose|i: int| 0 <= i < s.len() && s[i] == v;
            if i < s.len() - 1 {
                assert(s.drop_last()[i] == v);
                assert(s.drop_last().contains(v));
                assert(s.drop_last().to_set().contains(v));
                assert(!k.to_set().contains(v));
                assert(dd.to_set().contains(v));
                assert(dd.contains(v));
                let j = choose|j: int| 0 <= j < dd.len() && dd[j] == v;
                assert(d[j] == dd[j]);
                assert(d.contains(v));
            } else {
                assert(v == s.last());
                if !k.contains(s.last()) {
                    assert(d.last() == v);
                    assert(d[d.len() - 1] == v);
                }
            }
        }
        assert forall|v: u64| #[trigger] d.to_set().contains(v) <==>
            (s.to_set() - k.to_set()).contains(v) by {
            assert(d.contains(v) <==> d.to_set().contains(v));
            assert(s.contains(v) <==> s.to_set().contains(v));
        }
    }
}

/// The delta repeats no value when the store does not.
pub proof fn lemma_diff_seq_no_duplicates(s: Seq<u64>, k: Seq<u64>)
    requires
        s.no_duplicates(),
    ensures
        diff_seq(s, k).no_duplicates(),
        forall|i: int| 0 <= i < diff_seq(s, k).len() ==> s.contains(#[trigger] diff_seq(s, k)[i]),
    decreases s.len(),
{
    if s.len() > 0 {
        lemma_diff_seq_no_duplicates(s.drop_last(), k);
        let dd = diff_seq(s.drop_last(), k);
        assert forall|i: int| 0 <= i < dd.len() implies s.contains(#[trigger] dd[i]) by {
            assert(s.drop_last().contains(dd[i]));
            let j = choose|j: int| 0 <= j < s.drop_last().len() && s.drop_last()[j] == dd[i];
            assert(s[j] == dd[i]);
        }
        if !k.contains(s.last()) {
            assert forall|i: int| 0 <= i < dd.len() implies dd[i] != s.last() by {
                assert(s.drop_last().contains(dd[i]));
                let j = choose|j: int|
                    0 <= j < s.drop_last().len() && s.drop_last()[j] == dd[i];
                assert(j < s.len() - 1 && s[j] == dd[i]);
            }
        }
    }
}

/// A store whose every value is known leaves nothing pending.
pub proof fn lemma_diff_seq_all_known(s: Seq<u64>, k: Seq<u64>)
    requires
        forall|i: int| 0 <= i < s.len() ==> k.contains(#[trigger] s[i]),
    ensures
        diff_seq(s, k) == Seq::<u64>::empty(),
    decreases s.len(),
{
    if s.len() > 0 {
        lemma_diff_seq_all_known(s.drop_last(), k);
        assert(k.contains(s.last()));
    }
}

/// Immediately after the delta for a neighbour is recorded as sent, that
/// neighbour's delta is empty — unless the store gains new values first.
pub proof fn lemma_delta_empty_after_send(s: Seq<u64>, k: Seq<u64>)
    ensures
        diff_seq(s, merge_seq(k, diff_seq(s, k))) == Seq::<u64>::empty(),
{
    let d = diff_seq(s, k);
    let k2 = merge_seq(k, d);
    lemma_merge_seq_contains(k, d);
    lemma_diff_seq_to_set(s, k);
    assert forall|i: int| 0 <= i < s.len() implies k2.contains(#[trigger] s[i]) by {
        let v = s[i];
        if k.contains(v) {
        } else {
            assert(s.contains(v));
            assert(s.to_set().contains(v) && !k.to_set().contains(v));
            assert(d.to_set().contains(v));
            assert(d.contains(v));
            let j = choose|j: int| 0 <= j < d.len() && d[j] == v;
            assert(k2.contains(d[j]));
        }
    }
    lemma_diff_seq_all_known(s, k2);
}

/// Per-neighbour record of which broadcast values each neighbour is
/// already known to hold. One entry per neighbour, fixed at startup.
pub struct DeltaTracker {
    pub neighbours: Vec<String>,
    pub known: Vec<Vec<u64>>,
}

impl DeltaTracker {
    /// One known-set per neighbour, each free of duplicates.
    pub open spec fn wf(&self) -> bool {
        &&& self.known@.len() == self.neighbours@.len()
        &&& forall|i: int|
            0 <= i < self.known@.len() ==> (#[trigger] self.known@[i])@.no_duplicates()
    }

    /// The values neighbour `i` is known to hold.
    pub open spec fn known_at(&self, i: int) -> Seq<u64> {
        self.known@[i]@
    }

    /// Whether `id` names a tracked neighbour.
    pub open spec fn is_neighbour(&self, id: Seq<char>) -> bool {
        has_id(self.neighbours@, id)
    }

    /// A tracker for the given neighbours, each with an empty known-set.
    pub fn new(neighbours: Vec<String>) -> (t: DeltaTracker)
        ensures
            t.wf(),
            t.neighbours@ == neighbours@,
            t.known@.len() == neighbours@.len(),
            forall|i: int| 0 <= i < neighbours@.len() ==> t.known_at(i) == Seq::<u64>::empty(),
    {
        let mut known: Vec<Vec<u64>> = Vec::new();
        let mut i: usize = 0;
        while i < neighbours.len()
            invariant
                i <= neighbours@.len(),
                known@.len() == i,
                forall|j: int| 0 <= j < i ==> (#[trigger] known@[j])@ == Seq::<u64>::empty(),
            decreases neighbours@.len() - i,
        {
            known.push(Vec::new());
            i = i + 1;
        }
        DeltaTracker { neighbours, known }
    }

    /// How many neighbours are tracked.
    pub fn len(&self) -> (n: usize)
        ensures
            n == self.neighbours@.len(),
    {
        self.neighbours.len()
    }

    /// The identity of neighbour `i`.
    pub fn neighbour_at(&self, i: usize) -> (r: &String)
        requires
            i < self.neighbours@.len(),
        ensures
            *r == self.neighbours@[i as int],
    {
        &self.neighbours[i]
    }

    /// The position of the neighbour named `id`, if it is tracked.
    pub fn index_of(&self, id: &String) -> (r: Option<usize>)
        ensures
            r is Some <==> self.is_neighbour(id@),
            r matches Some(i) ==> i == first_index_of(self.neighbours@, id@),
    {
        find_first(&self.neighbours, id)
    }

    /// The minimal gossip payload for neighbour `i`: every store value it
    /// is not yet known to hold, in store order.
    pub fn pending_at(&self, store: &BroadcastStore, i: usize) -> (r: Vec<u64>)
        requires
            i < self.known@.len(),
        ensures
            r@ == diff_seq(store.seq(), self.known_at(i as int)),
            store.wf() ==> r@.no_duplicates(),
    {
        proof {
            if store.wf() {
                lemma_diff_seq_no_duplicates(store.seq(), self.known_at(i as int));
            }
        }
        let known = &self.known[i];
        let mut r: Vec<u64> = Vec::new();
        let mut j: usize = 0;
        let n = store.len();
        while j < n
            invariant
                j <= store.seq().len(),
                n == store.seq().len(),
                known@ == self.known_at(i as int),
                r@ == diff_seq(store.seq().take(j as int), known@),
            decreases store.seq().len() - j,
        {
            let v = store.values_at(j);
            proof {
                assert(store.seq().take(j + 1).drop_last() == store.seq().take(j as int));
                assert(store.seq().take(j + 1).last() == store.seq()[j as int]);
            }
            if !crate::store::contains_val(known, v) {
                r.push(v);
            }
            j = j + 1;
        }
        proof {
            assert(store.seq().take(store.seq().len() as int) == store.seq());
        }
        r
    }

    /// The minimal gossip payload for the neighbour named `id`, or nothing
    /// when `id` is not a tracked neighbour.
    pub fn pending_for(&self, store: &BroadcastStore, id: &String) -> (r: Option<Vec<u64>>)
        requires
            self.wf(),
        ensures
            r is Some <==> self.is_neighbour(id@),
            r matches Some(d) ==> d@ == diff_seq(
                store.seq(),
                self.known_at(first_index_of(self.neighbours@, id@)),
            ),
    {
        match self.index_of(id) {
            Some(i) => {
                proof {
                    lemma_first_index_of(self.neighbours@, id@);
                }
                Some(self.pending_at(store, i))
            },
            None => None,
        }
    }

    /// Marks `values` as known by neighbour `i`, optimistically, at send
    /// time.
    pub fn record_sent_at(&mut self, i: usize, values: &Vec<u64>)
        requires
            old(self).wf(),
            i < old(self).known@.len(),
        ensures
            final(self).wf(),
            final(self).neighbours@ == old(self).neighbours@,
            final(self).known@.len() == old(self).known@.len(),
            final(self).known_at(i as int) == merge_seq(old(self).known_at(i as int), values@),
            forall|j: int|
                0 <= j < old(self).known@.len() && j != i ==> final(self).known_at(j) == old(
                    self,
                ).known_at(j),
    {
        let row = &mut self.known[i];
        merge_into(row, values);
    }

    /// Marks `values` as known by the neighbour named `id`, optimistically,
    /// at send time. Nothing changes when `id` is not tracked.
    pub fn record_sent(&mut self, id: &String, values: &Vec<u64>)
        requires
            old(self).wf(),
        ensures
            final(self).wf(),
            final(self).neighbours@ == old(self).neighbours@,
            final(self).known@.len() == old(self).known@.len(),
            old(self).is_neighbour(id@) ==> {
                let i = first_index_of(old(self).neighbours@, id@);
                &&& final(self).known_at(i) == merge_seq(old(self).known_at(i), values@)
                &&& forall|j: int|
                    0 <= j < old(self).known@.len() && j != i ==> final(self).known_at(j) == old(
                        self,
                    ).known_at(j)
            },
            !old(self).is_neighbour(id@) ==> *final(self) == *old(self),
    {
        match self.index_of(id) {
            Some(i) => {
                proof {
                    lemma_first_index_of(self.neighbours@, id@);
                }
                self.record_sent_at(i, values);
            },
            None => {},
        }
    }

    /// Absorbs an inbound gossip payload from the neighbour named `id`:
    /// the values join the store, and the sender is known to hold them.
    /// The caller has checked that `id` is a tracked neighbour.
    pub fn record_received_from(
        &mut self,
        store: &mut BroadcastStore,
        id: &String,
        values: &Vec<u64>,
    )
        requires
            old(self).wf(),
            old(store).wf(),
            old(self).is_neighbour(id@),
        ensures
            final(self).wf(),
            final(store).wf(),
            final(self).neighbours@ == old(self).neighbours@,
            final(self).known@.len() == old(self).known@.len(),
            final(store).seq() == merge_seq(old(store).seq(), values@),
            final(store)@ =~= old(store)@ + values@.to_set(),
            ({
                let i = first_index_of(old(self).neighbours@, id@);
                &&& final(self).known_at(i) == merge_seq(old(self).known_at(i), values@)
                &&& forall|j: int|
                    0 <= j < old(self).known@.len() && j != i ==> final(self).known_at(j) == old(
                        self,
                    ).known_at(j)
            }),
    {
        store.merge(values);
        self.record_sent(id, values);
    }
}

} // verus!
