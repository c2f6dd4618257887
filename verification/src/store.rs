//! The authoritative, monotonically growing set of broadcast values a
//! node has learned, via direct client broadcasts or gossip from peers.
//!
//! Values are kept in first-seen order without duplicates; the abstract
//! view of a store is the set of values it holds.

use vstd::prelude::*;

verus! {

/// Appends to `s` the values of `p`, in order, skipping those already
/// present. This is how a store (or a known-by-neighbour record) absorbs
/// a gossip payload.
pub open spec fn merge_seq(s: Seq<u64>, p: Seq<u64>) -> Seq<u64>
    decreases p.len(),
{
    if p.len() == 0 {
        s
    } else {
        let q = merge_seq(s, p.drop_last());
        if q.contains(p.last()) {
            q
        } else {
            q.push(p.last())
        }
    }
}

/// Merging never loses values: the merged sequence holds exactly the
/// values of both inputs.
pub proof fn lemma_merge_seq_to_set(s: Seq<u64>, p: Seq<u64>)
    ensures
        merge_seq(s, p).to_set() =~= s.to_set() + p.to_set(),
    decreases p.len(),
{
    if p.len() == 0 {
    } else {
        lemma_merge_seq_to_set(s, p.drop_last());
        let d = p.drop_last();
        let q = merge_seq(s, d);
        let m = merge_seq(s, p);
        assert(forall|v: u64| #[trigger] q.contains(v) <==> q.to_set().contains(v));
        assert(forall|v: u64| #[trigger] d.contains(v) <==> d.to_set().contains(v));
        assert(forall|v: u64| q.contains(v) <==> s.contains(v) || d.contains(v));
        assert forall|v: u64| m.contains(v) implies
            s.contains(v) || p.contains(v) by {
            if q.contains(v) {
                if d.contains(v) {
                    let i = choose|i: int| 0 <= i < d.len() && d[i] == v;
                    assert(p[i] == v);
                }
            } else {
                let i = choose|i: int| 0 <= i < m.len() && m[i] == v;
                if i < q.len() {
                    assert(q[i] == v);
                } else {
                    assert(v == p.last());
                }
            }
        }
        assert forall|v: u64| s.contains(v) || p.contains(v) implies
            m.contains(v) by {
            if p.contains(v) {
                let i = choose|i: int| 0 <= i < p.len() && p[i] == v;
                if i < p.len() - 1 {
                    assert(d[i] == v);
                } else if !q.contains(v) {
                    assert(m.last() == v);
                }
            }
            if q.contains(v) {
                let j = choose|j: int| 0 <= j < q.len() && q[j] == v;
                assert(m[j] == v);
            }
        }
        assert forall|v: u64| #[trigger] m.to_set().contains(v) <==>
            (s.to_set() + p.to_set()).contains(v) by {
            assert(m.contains(v) <==> m.to_set().contains(v));
            assert(s.contains(v) <==> s.to_set().contains(v));
            assert(p.contains(v) <==> p.to_set().contains(v));
        }
    }
}

/// Merging keeps the sequence free of duplicates.
pub proof fn lemma_merge_seq_no_duplicates(s: Seq<u64>, p: Seq<u64>)
    requires
        s.no_duplicates(),
    ensures
        merge_seq(s, p).no_duplicates(),
    decreases p.len(),
{
    if p.len() > 0 {
        lemma_merge_seq_no_duplicates(s, p.drop_last());
    }
}

/// The merged sequence starts with the original one: nothing is removed
/// or reordered.
pub proof fn lemma_merge_seq_prefix(s: Seq<u64>, p: Seq<u64>)
    ensures
        merge_seq(s, p).len() >= s.len(),
        forall|i: int| 0 <= i < s.len() ==> merge_seq(s, p)[i] == s[i],
    decreases p.len(),
{
    if p.len() > 0 {
        lemma_merge_seq_prefix(s, p.drop_last());
    }
}

/// A payload already wholly present leaves the sequence exactly as it is.
pub proof fn lemma_merge_seq_absorbed(s: Seq<u64>, p: Seq<u64>)
    requires
        forall|i: int| 0 <= i < p.len() ==> s.contains(#[trigger] p[i]),
    ensures
        merge_seq(s, p) == s,
    decreases p.len(),
{
    if p.len() > 0 {
        lemma_merge_seq_absorbed(s, p.drop_last());
        assert(s.contains(p.last()));
    }
}

/// Every value of the payload is present after the merge.
pub proof fn lemma_merge_seq_contains(s: Seq<u64>, p: Seq<u64>)
    ensures
        forall|i: int| 0 <= i < p.len() ==> merge_seq(s, p).contains(#[trigger] p[i]),
        forall|i: int| 0 <= i < s.len() ==> merge_seq(s, p).contains(#[trigger] s[i]),
    decreases p.len(),
{
    lemma_merge_seq_prefix(s, p);
    assert forall|i: int| 0 <= i < s.len() implies
        merge_seq(s, p).contains(#[trigger] s[i]) by {
        assert(merge_seq(s, p)[i] == s[i]);
    }
    if p.len() > 0 {
        lemma_merge_seq_contains(s, p.drop_last());
        let q = merge_seq(s, p.drop_last());
        lemma_merge_seq_prefix(q, seq![p.last()]);
        assert forall|i: int| 0 <= i < p.len() implies
            merge_seq(s, p).contains(#[trigger] p[i]) by {
            if i < p.len() - 1 {
                assert(p.drop_last()[i] == p[i]);
                let j = choose|j: int| 0 <= j < q.len() && q[j] == p[i];
                assert(merge_seq(s, p)[j] == p[i]);
            } else {
                if q.contains(p.last()) {
                    let j = choose|j: int| 0 <= j < q.len() && q[j] == p.last();
                    assert(merge_seq(s, p)[j] == p[i]);
                } else {
                    assert(merge_seq(s, p).last() == p[i]);
                }
            }
        }
    }
}

/// Merging a gossip payload twice yields exactly the store that merging
/// it once yields: absorbing a payload is idempotent.
pub proof fn lemma_merge_idempotent(s: Seq<u64>, p: Seq<u64>)
    ensures
        merge_seq(merge_seq(s, p), p) == merge_seq(s, p),
{
    lemma_merge_seq_contains(s, p);
    lemma_merge_seq_absorbed(merge_seq(s, p), p);
}

/// Whether `v` holds the value `x`.
pub fn contains_val(v: &Vec<u64>, x: u64) -> (r: bool)
    ensures
        r == v@.contains(x),
{
    let mut i: usize = 0;
    while i < v.len()
        invariant
            i <= v@.len(),
            forall|j: int| 0 <= j < i ==> v@[j] != x,
        decreases v@.len() - i,
    {
        if v[i] == x {
            return true;
        }
        i = i + 1;
    }
    false
}

/// Absorbs the values of `src` into `dst`: appends, in `src` order, every
/// value not already present.
pub fn merge_into(dst: &mut Vec<u64>, src: &Vec<u64>)
    requires
        old(dst)@.no_duplicates(),
    ensures
        final(dst)@ == merge_seq(old(dst)@, src@),
        final(dst)@.no_duplicates(),
{
    let ghost orig = dst@;
    let mut i: usize = 0;
    while i < src.len()
        invariant
            i <= src@.len(),
            orig.no_duplicates(),
            dst@ == merge_seq(orig, src@.take(i as int)),
        decreases src@.len() - i,
    {
        let v = src[i];
        proof {
            assert(src@.take(i + 1).drop_last() == src@.take(i as int));
            assert(src@.take(i + 1).last() == src@[i as int]);
            lemma_merge_seq_no_duplicates(orig, src@.take(i as int));
        }
        if !contains_val(dst, v) {
            dst.push(v);
        }
        i = i + 1;
    }
    proof {
        assert(src@.take(src@.len() as int) == src@);
        lemma_merge_seq_no_duplicates(orig, src@);
    }
}

/// The set of all values this node has ever learned. Values are never
/// removed; the set only grows.
pub struct BroadcastStore {
    pub values: Vec<u64>,
}

impl View for BroadcastStore {
    type V = Set<u64>;

    open spec fn view(&self) -> Set<u64> {
        self.values@.to_set()
    }
}

impl BroadcastStore {
    /// The values in first-seen order.
    pub open spec fn seq(&self) -> Seq<u64> {
        self.values@
    }

    /// Internal consistency: no value is recorded twice.
    pub open spec fn wf(&self) -> bool {
        self.values@.no_duplicates()
    }

    /// An empty store.
    pub fn new() -> (s: BroadcastStore)
        ensures
            s.wf(),
            s.seq() == Seq::<u64>::empty(),
            s@ =~= Set::<u64>::empty(),
    {
        BroadcastStore { values: Vec::new() }
    }

    /// Whether the store already holds `v`.
    pub fn contains(&self, v: u64) -> (r: bool)
        ensures
            r == self.seq().contains(v),
            r == self@.contains(v),
    {
        let mut i: usize = 0;
        while i < self.values.len()
            invariant
                i <= self.values.len(),
                forall|j: int| 0 <= j < i ==> self.values@[j] != v,
            decreases self.values.len() - i,
        {
            if self.values[i] == v {
                return true;
            }
            i = i + 1;
        }
        false
    }

    /// Records one value learned from a direct client broadcast.
    pub fn insert(&mut self, v: u64)
        requires
            old(self).wf(),
        ensures
            final(self).wf(),
            final(self)@ =~= old(self)@.insert(v),
            final(self).seq() == (if old(self).seq().contains(v) {
                old(self).seq()
            } else {
                old(self).seq().push(v)
            }),
    {
        if !self.contains(v) {
            self.values.push(v);
            assert(self.values@.drop_last() == old(self).values@);
            assert(self@ =~= old(self)@.insert(v)) by {
                assert(self.values@.last() == v);
                assert forall|x: u64| old(self)@.insert(v).contains(x) implies
                    self@.contains(x) by {
                    if x == v {
                        assert(self.values@.contains(x));
                    } else {
                        let i = choose|i: int|
                            0 <= i < old(self).values@.len() && old(self).values@[i] == x;
                        assert(self.values@[i] == x);
                    }
                }
                assert forall|x: u64| self@.contains(x) implies
                    old(self)@.insert(v).contains(x) by {
                    let i = choose|i: int| 0 <= i < self.values@.len() && self.values@[i] == x;
                    if i < self.values@.len() - 1 {
                        assert(old(self).values@[i] == x);
                    }
                }
            }
        } else {
            assert(self@ =~= old(self)@.insert(v));
        }
    }

    /// Absorbs a gossip payload: appends, in payload order, every value
    /// not already present.
    pub fn merge(&mut self, values: &Vec<u64>)
        requires
            old(self).wf(),
        ensures
            final(self).wf(),
            final(self).seq() == merge_seq(old(self).seq(), values@),
            final(self)@ =~= old(self)@ + values@.to_set(),
    {
        merge_into(&mut self.values, values);
        proof {
            lemma_merge_seq_to_set(old(self).values@, values@);
        }
    }

    /// How many distinct values the store holds.
    pub fn len(&self) -> (n: usize)
        ensures
            n == self.seq().len(),
    {
        self.values.len()
    }
}

/// A snapshot of the store's values in first-seen order, as a `Read`
/// request reports them.
pub fn to_seq(s: &BroadcastStore) -> (r: Vec<u64>)
    ensures
        r@ == s.seq(),
{
    let mut r: Vec<u64> = Vec::new();
    let mut i: usize = 0;
    while i < s.len()
        invariant
            i <= s.seq().len(),
            r@ == s.seq().take(i as int),
        decreases s.seq().len() - i,
    {
        r.push(s.values_at(i));
        proof {
            assert(s.seq().take(i + 1) == s.seq().take(i as int).push(s.seq()[i as int]));
        }
        i = i + 1;
    }
    proof {
        assert(s.seq().take(s.seq().len() as int) == s.seq());
    }
    r
}

impl BroadcastStore {
    /// The value at position `i` in first-seen order.
    pub fn values_at(&self, i: usize) -> (v: u64)
        requires
            i < self.seq().len(),
        ensures
            v == self.seq()[i as int],
    {
        self.values[i]
    }
}

} // verus!
