//! The address index: disjoint closed intervals, each tied to one handle.
//!
//! The index stores the interval of every live descriptor, keyed by range,
//! and answers overlap queries, point queries, exact-range deletion,
//! insertion and size.  Any ordered interval container satisfies this
//! contract; here the entries sit in a vector kept sorted by interval
//! start, which is all the orchestrator's logic relies on.

use vstd::prelude::*;

verus! {

/// One stored entry: the closed interval `[lo, hi]` and the handle of the
/// descriptor mapped there.
#[derive(Debug, Clone, Copy, PartialEq, Eq, Structural)]
pub struct Interval {
    pub lo: u64,
    pub hi: u64,
    pub hndl: u64,
}

/// Does the entry intersect the closed range `[lo, hi]`?
pub open spec fn overlaps(e: Interval, lo: int, hi: int) -> bool {
    e.lo <= hi && lo <= e.hi
}

/// Does the entry contain the address `p`?
pub open spec fn covers(e: Interval, p: int) -> bool {
    e.lo <= p <= e.hi
}

/// The entries are each non-empty, strictly ordered by start, and pairwise
/// disjoint.
pub open spec fn ordered_disjoint(s: Seq<Interval>) -> bool {
    &&& forall|i: int| 0 <= i < s.len() ==> (#[trigger] s[i]).lo <= s[i].hi
    &&& forall|i: int, j: int|
        0 <= i < j < s.len() ==> (#[trigger] s[i]).hi < (#[trigger] s[j]).lo
}

/// No stored entry intersects the range of `len` addresses starting at `a`.
pub open spec fn range_is_free(s: Seq<Interval>, a: int, len: int) -> bool {
    forall|k: int| 0 <= k < s.len() ==> !overlaps(#[trigger] s[k], a, a + len - 1)
}

/// Some stored entry contains the address `p`.
pub open spec fn addr_is_covered(s: Seq<Interval>, p: int) -> bool {
    exists|k: int| 0 <= k < s.len() && covers(#[trigger] s[k], p)
}

/// Every one of the `len` addresses starting at `a` lies inside some entry.
pub open spec fn range_is_covered(s: Seq<Interval>, a: int, len: int) -> bool {
    forall|p: int| a <= p < a + len ==> #[trigger] addr_is_covered(s, p)
}

/// The subsequence of entries that intersect `[lo, hi]`, in stored order.
pub open spec fn overlapping(s: Seq<Interval>, lo: int, hi: int) -> Seq<Interval>
    decreases s.len(),
{
    if s.len() == 0 {
        Seq::empty()
    } else if overlaps(s.last(), lo, hi) {
        overlapping(s.drop_last(), lo, hi).push(s.last())
    } else {
        overlapping(s.drop_last(), lo, hi)
    }
}

/// `s` with `e` placed before the first entry whose start exceeds `e.lo`,
/// so that a sorted sequence stays sorted.
pub open spec fn placed(s: Seq<Interval>, e: Interval) -> Seq<Interval>
    decreases s.len(),
{
    if s.len() == 0 {
        seq![e]
    } else if e.lo < s.first().lo {
        seq![e] + s
    } else {
        seq![s.first()] + placed(s.drop_first(), e)
    }
}

/// `s` with the first entry of bounds exactly `[lo, hi]` removed; `s`
/// itself when no entry has these bounds.
pub open spec fn removed(s: Seq<Interval>, lo: u64, hi: u64) -> Seq<Interval>
    decreases s.len(),
{
    if s.len() == 0 {
        s
    } else if s.first().lo == lo && s.first().hi == hi {
        s.drop_first()
    } else {
        seq![s.first()] + removed(s.drop_first(), lo, hi)
    }
}

/// What `overlapping` yields: exactly the stored entries that intersect
/// the queried range, in stored order, hence themselves ordered and
/// disjoint.
pub proof fn lemma_overlapping_props(s: Seq<Interval>, lo: int, hi: int)
    requires
        ordered_disjoint(s),
    ensures
        overlapping(s, lo, hi).len() <= s.len(),
        forall|j: int|
            0 <= j < overlapping(s, lo, hi).len() ==> overlaps(
                #[trigger] overlapping(s, lo, hi)[j],
                lo,
                hi,
            ),
        forall|j: int|
            0 <= j < overlapping(s, lo, hi).len() ==> exists|k: int|
                0 <= k < s.len() && s[k] == #[trigger] overlapping(s, lo, hi)[j],
        forall|k: int|
            0 <= k < s.len() && overlaps(#[trigger] s[k], lo, hi) ==> overlapping(
                s,
                lo,
                hi,
            ).contains(s[k]),
        ordered_disjoint(overlapping(s, lo, hi)),
    decreases s.len(),
{
    let ov = overlapping(s, lo, hi);
    if s.len() == 0 {
    } else {
        let s0 = s.drop_last();
        let e = s.last();
        assert(ordered_disjoint(s0)) by {
            assert(forall|i: int| 0 <= i < s0.len() ==> s0[i] == s[i]);
        }
        lemma_overlapping_props(s0, lo, hi);
        let ov0 = overlapping(s0, lo, hi);
        assert(forall|i: int| 0 <= i < s0.len() ==> s0[i] == s[i]);
        if overlaps(e, lo, hi) {
            assert(ov == ov0.push(e));
            assert forall|j: int| 0 <= j < ov.len() implies exists|k: int|
                0 <= k < s.len() && s[k] == #[trigger] ov[j] by {
                if j < ov0.len() {
                    assert(ov[j] == ov0[j]);
                    let k = choose|k: int| 0 <= k < s0.len() && s0[k] == ov0[j];
                    assert(s[k] == ov[j]);
                } else {
                    assert(ov[j] == e);
                    assert(s[s.len() - 1] == ov[j]);
                }
            }
            assert forall|k: int|
                0 <= k < s.len() && overlaps(#[trigger] s[k], lo, hi) implies ov.contains(
                s[k],
            ) by {
                if k < s.len() - 1 {
                    assert(ov0.contains(s0[k]));
                    let j = choose|j: int| 0 <= j < ov0.len() && ov0[j] == s0[k];
                    assert(ov[j] == s[k]);
                } else {
                    assert(ov[ov.len() - 1] == s[k]);
                }
            }
            assert forall|i: int, j: int| 0 <= i < j < ov.len() implies (#[trigger] ov[i]).hi < (
            #[trigger] ov[j]).lo by {
                if j < ov0.len() {
                    assert(ov[i] == ov0[i] && ov[j] == ov0[j]);
                } else {
                    assert(ov[j] == e);
                    let k = choose|k: int| 0 <= k < s0.len() && s0[k] == ov0[i];
                    assert(s[k].hi < s[s.len() - 1].lo);
                }
            }
            assert forall|i: int| 0 <= i < ov.len() implies (#[trigger] ov[i]).lo <= ov[i].hi by {
                let k = choose|k: int| 0 <= k < s.len() && s[k] == ov[i];
            }
        } else {
            assert(ov == ov0);
            assert forall|k: int|
                0 <= k < s.len() && overlaps(#[trigger] s[k], lo, hi) implies ov.contains(
                s[k],
            ) by {
                assert(k < s.len() - 1);
                assert(ov0.contains(s0[k]));
            }
        }
    }
}

/// When an overlap query comes back empty, the queried range is free, and
/// the other way round.
pub proof fn lemma_overlapping_empty(s: Seq<Interval>, lo: int, hi: int)
    requires
        ordered_disjoint(s),
        hi == lo + (hi - lo),
    ensures
        overlapping(s, lo, hi).len() == 0 <==> range_is_free(s, lo, hi - lo + 1),
{
    lemma_overlapping_props(s, lo, hi);
    if overlapping(s, lo, hi).len() == 0 {
        assert forall|k: int| 0 <= k < s.len() implies !overlaps(#[trigger] s[k], lo, hi) by {
            if overlaps(s[k], lo, hi) {
                assert(overlapping(s, lo, hi).contains(s[k]));
            }
        }
    } else {
        let e = overlapping(s, lo, hi)[0];
        assert(overlaps(e, lo, hi));
        let k = choose|k: int| 0 <= k < s.len() && s[k] == e;
        assert(!range_is_free(s, lo, hi - lo + 1));
    }
}

/// Placing an entry into a sorted sequence at position `k` — past every
/// entry that starts no later than it, before every entry that starts
/// after it — is insertion at `k`.
pub proof fn lemma_placed_is_insert(s: Seq<Interval>, e: Interval, k: int)
    requires
        0 <= k <= s.len(),
        forall|i: int| 0 <= i < k ==> (#[trigger] s[i]).lo <= e.lo,
        forall|i: int| k <= i < s.len() ==> e.lo < (#[trigger] s[i]).lo,
    ensures
        placed(s, e) == s.insert(k, e),
    decreases s.len(),
{
    if s.len() == 0 {
        assert(placed(s, e) =~= s.insert(0, e));
    } else if k == 0 {
        assert(e.lo < s.first().lo);
        assert(placed(s, e) =~= s.insert(0, e));
    } else {
        let s1 = s.drop_first();
        assert(forall|i: int| 0 <= i < s1.len() ==> s1[i] == s[i + 1]);
        lemma_placed_is_insert(s1, e, k - 1);
        assert(placed(s, e) == seq![s.first()] + s1.insert(k - 1, e));
        s1.insert_ensures(k - 1, e);
        s.insert_ensures(k, e);
        assert(seq![s.first()] + s1.insert(k - 1, e) =~= s.insert(k, e));
    }
}

/// Removing the entry of bounds `[lo, hi]` found at position `k` — with no
/// earlier entry of these bounds — is removal at `k`.
pub proof fn lemma_removed_is_remove(s: Seq<Interval>, lo: u64, hi: u64, k: int)
    requires
        0 <= k < s.len(),
        s[k].lo == lo && s[k].hi == hi,
        forall|i: int| 0 <= i < k ==> !((#[trigger] s[i]).lo == lo && s[i].hi == hi),
    ensures
        removed(s, lo, hi) == s.remove(k),
    decreases s.len(),
{
    if k == 0 {
        assert(s.first() == s[0]);
        assert(removed(s, lo, hi) =~= s.remove(0));
    } else {
        let s1 = s.drop_first();
        assert(forall|i: int| 0 <= i < s1.len() ==> s1[i] == s[i + 1]);
        assert(!(s.first().lo == lo && s.first().hi == hi));
        lemma_removed_is_remove(s1, lo, hi, k - 1);
        s1.remove_ensures(k - 1);
        s.remove_ensures(k);
        assert(seq![s.first()] + s1.remove(k - 1) =~= s.remove(k));
    }
}

/// When no entry has bounds exactly `[lo, hi]`, removal changes nothing.
pub proof fn lemma_removed_absent(s: Seq<Interval>, lo: u64, hi: u64)
    requires
        forall|i: int| 0 <= i < s.len() ==> !((#[trigger] s[i]).lo == lo && s[i].hi == hi),
    ensures
        removed(s, lo, hi) == s,
    decreases s.len(),
{
    if s.len() == 0 {
    } else {
        let s1 = s.drop_first();
        assert(forall|i: int| 0 <= i < s1.len() ==> s1[i] == s[i + 1]);
        lemma_removed_absent(s1, lo, hi);
        assert(seq![s.first()] + s1 =~= s);
    }
}

/// The address index itself.  The balancing strategy of a production
/// interval container is deliberately not part of the contract: only the
/// five operations below are.
pub struct AddressIndex {
    entries: Vec<Interval>,
}

impl View for AddressIndex {
    type V = Seq<Interval>;

    closed spec fn view(&self) -> Seq<Interval> {
        self.entries@
    }
}

impl AddressIndex {
    /// The stored entries are ordered and disjoint.
    pub open spec fn wf(&self) -> bool {
        ordered_disjoint(self@)
    }

    /// An empty index.
    pub fn new() -> (r: AddressIndex)
        ensures
            r@ == Seq::<Interval>::empty(),
            r.wf(),
    {
        AddressIndex { entries: Vec::new() }
    }

    /// How many intervals are stored.
    pub fn size(&self) -> (n: usize)
        ensures
            n == self@.len(),
    {
        self.entries.len()
    }

    /// Store `[lo, hi] -> hndl`.  The caller must already have checked
    /// that the range is free: the container is corrupted otherwise, which
    /// is why the orchestrator always checks, then inserts.
    pub fn insert(&mut self, lo: u64, hi: u64, hndl: u64)
        requires
            old(self).wf(),
            lo <= hi,
            forall|k: int|
                0 <= k < old(self)@.len() ==> !overlaps(#[trigger] old(self)@[k], lo as int, hi as int),
        ensures
            final(self)@ == placed(old(self)@, (Interval { lo, hi, hndl })),
            exists|k: int|
                0 <= k <= old(self)@.len() && final(self)@ == old(self)@.insert(
                    k,
                    (Interval { lo, hi, hndl }),
                ),
            final(self).wf(),
    {
        let e = Interval { lo, hi, hndl };
        let ghost s = self.entries@;
        let mut k: usize = 0;
        while k < self.entries.len() && self.entries[k].lo <= lo
            invariant
                k <= self.entries.len(),
                forall|i: int| 0 <= i < k ==> (#[trigger] s[i]).lo <= lo,
            decreases self.entries.len() - k,
        {
            k += 1;
        }
        proof {
            assert forall|i: int| k <= i < s.len() implies lo < (#[trigger] s[i]).lo by {
                // at k the scan stopped: either past the end or at an entry
                // starting after lo; entries further right start later still
                if s[k as int].lo <= lo {
                    assert(overlaps(s[k as int], lo as int, hi as int));
                }
                if i > k {
                    assert(s[k as int].hi < s[i].lo);
                }
            }
            lemma_placed_is_insert(s, e, k as int);
            s.insert_ensures(k as int, e);
        }
        self.entries.insert(k, e);
        proof {
            let t = self.entries@;
            assert forall|i: int, j: int| 0 <= i < j < t.len() implies (#[trigger] t[i]).hi < (
            #[trigger] t[j]).lo by {
                if j == k {
                    // t[i] starts no later than e and misses [lo, hi]
                    assert(t[i] == s[i]);
                    assert(!overlaps(s[i], lo as int, hi as int));
                } else if i == k {
                    assert(t[j] == s[j - 1]);
                    assert(!overlaps(s[j - 1], lo as int, hi as int));
                } else if i < k && j > k {
                    assert(t[i] == s[i] && t[j] == s[j - 1]);
                } else if j < k {
                    assert(t[i] == s[i] && t[j] == s[j]);
                } else {
                    assert(t[i] == s[i - 1] && t[j] == s[j - 1]);
                }
            }
            assert forall|i: int| 0 <= i < t.len() implies (#[trigger] t[i]).lo <= t[i].hi by {
                if i < k {
                    assert(t[i] == s[i]);
                } else if i > k {
                    assert(t[i] == s[i - 1]);
                }
            }
        }
    }

    /// Remove the interval that matches these exact bounds, if any.
    pub fn delete_exact(&mut self, lo: u64, hi: u64)
        requires
            old(self).wf(),
        ensures
            final(self)@ == removed(old(self)@, lo, hi),
            final(self).wf(),
    {
        let ghost s = self.entries@;
        let mut k: usize = 0;
        while k < self.entries.len()
            invariant
                k <= self.entries.len(),
                self.entries@ == s,
                forall|i: int| 0 <= i < k ==> !((#[trigger] s[i]).lo == lo && s[i].hi == hi),
            decreases self.entries.len() - k,
        {
            if self.entries[k].lo == lo && self.entries[k].hi == hi {
                proof {
                    lemma_removed_is_remove(s, lo, hi, k as int);
                    s.remove_ensures(k as int);
                }
                self.entries.remove(k);
                proof {
                    let t = self.entries@;
                    assert forall|i: int, j: int| 0 <= i < j < t.len() implies (#[trigger] t[
                    i]).hi < (#[trigger] t[j]).lo by {
                        assert(t[i] == if i < k { s[i] } else { s[i + 1] });
                        assert(t[j] == if j < k { s[j] } else { s[j + 1] });
                    }
                    assert forall|i: int| 0 <= i < t.len() implies (#[trigger] t[i]).lo <= t[
                    i].hi by {
                        assert(t[i] == if i < k { s[i] } else { s[i + 1] });
                    }
                }
                return ;
            }
            k += 1;
        }
        proof {
            lemma_removed_absent(s, lo, hi);
        }
    }

    /// The handles of every stored interval that intersects `[lo, hi]`,
    /// ordered by interval start ascending.
    pub fn overlap(&self, lo: u64, hi: u64) -> (r: Vec<u64>)
        requires
            self.wf(),
            lo <= hi,
        ensures
            r@.len() == overlapping(self@, lo as int, hi as int).len(),
            forall|j: int|
                0 <= j < r@.len() ==> r@[j] == overlapping(self@, lo as int, hi as int)[j].hndl,
    {
        let mut r: Vec<u64> = Vec::new();
        let mut i: usize = 0;
        while i < self.entries.len()
            invariant
                i <= self.entries.len(),
                r@.len() == overlapping(self@.take(i as int), lo as int, hi as int).len(),
                forall|j: int|
                    0 <= j < r@.len() ==> r@[j] == overlapping(
                        self@.take(i as int),
                        lo as int,
                        hi as int,
                    )[j].hndl,
            decreases self.entries.len() - i,
        {
            proof {
                assert(self@.take(i + 1).drop_last() =~= self@.take(i as int));
                assert(self@.take(i + 1).last() == self@[i as int]);
            }
            let e = self.entries[i];
            if e.lo <= hi && lo <= e.hi {
                r.push(e.hndl);
            }
            i += 1;
        }
        proof {
            assert(self@.take(self@.len() as int) =~= self@);
        }
        r
    }

    /// The handles of every stored interval containing `addr`; at most one
    /// element while the entries are disjoint.
    pub fn point(&self, addr: u64) -> (r: Vec<u64>)
        requires
            self.wf(),
        ensures
            r@.len() == overlapping(self@, addr as int, addr as int).len(),
            forall|j: int|
                0 <= j < r@.len() ==> r@[j] == overlapping(self@, addr as int, addr as int)[j].hndl,
    {
        self.overlap(addr, addr)
    }
}

} // verus!
