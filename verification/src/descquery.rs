//! The descriptor query core: open, exact-address open, close, and
//! handle/address lookups over one flat address space.
//!
//! A descriptor produced by a backend open is adopted here: it receives a
//! handle from the table, an address from the first-fit placement sweep,
//! and an entry in the address index.  `close` undoes all of it in one
//! step and hands the descriptor back.  Handles are recycled smallest
//! first; intervals of distinct handles never overlap.

use vstd::prelude::*;

use crate::desc::RIODesc;
use crate::index::{
    addr_is_covered, covers, ordered_disjoint, overlapping, overlaps, placed, range_is_covered,
    range_is_free, removed, AddressIndex, Interval,
};
use crate::index::{lemma_overlapping_empty, lemma_overlapping_props, lemma_removed_is_remove};
use crate::utils::IoError;

verus! {

/// A sorted free pool with one more handle: `h` goes in front of the
/// first pooled handle smaller than it, so a descending pool stays
/// descending and its last element stays the smallest.
pub open spec fn pool_inserted(free: Seq<u64>, h: u64) -> Seq<u64>
    decreases free.len(),
{
    if free.len() == 0 {
        seq![h]
    } else if h > free.first() {
        seq![h] + free
    } else {
        seq![free.first()] + pool_inserted(free.drop_first(), h)
    }
}

/// Putting `h` into a descending pool right before the first smaller
/// handle is insertion at that position.
pub proof fn lemma_pool_inserted_is_insert(free: Seq<u64>, h: u64, k: int)
    requires
        0 <= k <= free.len(),
        forall|i: int| 0 <= i < k ==> (#[trigger] free[i]) > h,
        forall|i: int| k <= i < free.len() ==> (#[trigger] free[i]) < h,
    ensures
        pool_inserted(free, h) == free.insert(k, h),
    decreases free.len(),
{
    if free.len() == 0 {
        assert(pool_inserted(free, h) =~= free.insert(0, h));
    } else if k == 0 {
        assert(h > free.first());
        assert(pool_inserted(free, h) =~= free.insert(0, h));
    } else {
        let f1 = free.drop_first();
        assert(forall|i: int| 0 <= i < f1.len() ==> f1[i] == free[i + 1]);
        lemma_pool_inserted_is_insert(f1, h, k - 1);
        f1.insert_ensures(k - 1, h);
        free.insert_ensures(k, h);
        assert(seq![free.first()] + f1.insert(k - 1, h) =~= free.insert(k, h));
    }
}

/// The descriptor query core.  The handle table is the vector of optional
/// slots indexed by handle; released handles wait in `free_hndls`, kept
/// sorted descending so the smallest is always at the back.
pub struct RIODescQuery {
    /// key = handle, value = the descriptor, should it exist
    pub hndl_to_descs: Vec<Option<RIODesc>>,
    /// key = closed address range, value = handle
    pub paddr_to_hndls: AddressIndex,
    /// next handle to be used when the free pool is empty
    pub next_hndl: u64,
    /// handles issued before and released, largest first
    pub free_hndls: Vec<u64>,
}

impl RIODescQuery {
    /// The table: one optional descriptor per ever-issued handle.
    pub open spec fn slots(&self) -> Seq<Option<RIODesc>> {
        self.hndl_to_descs@
    }

    /// The stored address intervals, ordered by start.
    pub open spec fn index(&self) -> Seq<Interval> {
        self.paddr_to_hndls@
    }

    /// The released handles, largest first.
    pub open spec fn free(&self) -> Seq<u64> {
        self.free_hndls@
    }

    /// Is `h` the handle of a live descriptor?
    pub open spec fn is_live(&self, h: u64) -> bool {
        h < self.slots().len() && self.slots()[h as int] is Some
    }

    /// The live descriptor registered under `h`.
    pub open spec fn desc_at(&self, h: u64) -> RIODesc {
        self.slots()[h as int].unwrap()
    }

    /// Handle-table invariant: the next-handle counter is the watermark of
    /// every handle ever issued, each slot holds its own handle, and every
    /// issued handle is in exactly one of the table and the free pool.
    pub open spec fn table_wf(&self) -> bool {
        &&& self.next_hndl as int == self.slots().len()
        &&& forall|i: int|
            0 <= i < self.slots().len() ==> ((#[trigger] self.slots()[i]) is Some
                ==> self.slots()[i].unwrap().hndl == i)
        &&& forall|i: int, j: int| 0 <= i < j < self.free().len() ==> self.free()[i] > self.free()[j]
        &&& forall|i: int|
            0 <= i < self.free().len() ==> (#[trigger] self.free()[i]) < self.next_hndl
                && self.slots()[self.free()[i] as int] is None
        &&& forall|i: int|
            0 <= i < self.slots().len() ==> ((#[trigger] self.slots()[i]) is None
                ==> self.free().contains(i as u64))
    }

    /// One index entry agrees with the table: its handle is live and the
    /// registered descriptor spans exactly the stored interval.
    pub open spec fn entry_linked(&self, e: Interval) -> bool {
        &&& self.is_live(e.hndl)
        &&& self.desc_at(e.hndl).paddr == e.lo
        &&& self.desc_at(e.hndl).size >= 1
        &&& e.hi == e.lo + self.desc_at(e.hndl).size - 1
        // the top address stays unmapped: the closed-interval arithmetic
        // `paddr + size - 1` computes `paddr + size` first, so an interval
        // ending at the very top of the space could never be handled
        &&& e.hi < u64::MAX
    }

    /// Address-index invariant: the entries are ordered and disjoint, each
    /// entry mirrors a live descriptor, and every live descriptor has an
    /// entry.
    pub open spec fn index_wf(&self) -> bool {
        &&& ordered_disjoint(self.index())
        &&& forall|k: int| 0 <= k < self.index().len() ==> self.entry_linked(#[trigger] self.index()[k])
        &&& forall|h: u64| #[trigger] self.is_live(h) ==> exists|k: int|
            0 <= k < self.index().len() && (#[trigger] self.index()[k]).hndl == h
    }

    /// The whole structure is well formed.
    pub open spec fn wf(&self) -> bool {
        self.table_wf() && self.index_wf()
    }

    /// An empty query core: no descriptor, no interval, no issued handle.
    pub fn new() -> (r: RIODescQuery)
        ensures
            r.wf(),
            r.slots() == Seq::<Option<RIODesc>>::empty(),
            r.index() == Seq::<Interval>::empty(),
            r.free() == Seq::<u64>::empty(),
            r.next_hndl == 0,
    {
        RIODescQuery {
            hndl_to_descs: Vec::new(),
            paddr_to_hndls: AddressIndex::new(),
            next_hndl: 0,
            free_hndls: Vec::new(),
        }
    }

    /// The next handle to issue: the smallest released one, or a fresh
    /// counter value.  The handle space is assumed large enough never to
    /// run out; the caller keeps the counter below its ceiling.
    fn get_new_hndl(&mut self) -> (h: u64)
        requires
            old(self).table_wf(),
            old(self).free().len() > 0 || old(self).next_hndl < u64::MAX,
        ensures
            final(self).slots() == old(self).slots(),
            final(self).index() == old(self).index(),
            !old(self).is_live(h),
            old(self).free().len() > 0 ==> h == old(self).free().last() && final(self).free()
                == old(self).free().drop_last() && final(self).next_hndl == old(self).next_hndl,
            old(self).free().len() == 0 ==> h == old(self).next_hndl && final(self).free()
                == old(self).free() && final(self).next_hndl == old(self).next_hndl + 1,
    {
        let result: u64;
        if let Some(hndl) = self.free_hndls.pop() {
            result = hndl;
        } else {
            result = self.next_hndl;
            self.next_hndl = self.next_hndl + 1;
        }
        result
    }

    /// Give back a released handle: the slot is emptied, ownership of the
    /// descriptor moves to the caller, and the handle joins the free pool.
    #[verifier::rlimit(50)]
    fn deregister_hndl(&mut self, hndl: u64) -> (r: Result<RIODesc, IoError>)
        requires
            old(self).table_wf(),
        ensures
            !old(self).is_live(hndl) ==> r == Err::<RIODesc, IoError>(IoError::HndlNotFoundError)
                && *final(self) == *old(self),
            old(self).is_live(hndl) ==> r == Ok::<RIODesc, IoError>(old(self).desc_at(hndl))
                && final(self).slots() == old(self).slots().update(hndl as int, None::<RIODesc>)
                && final(self).free() == pool_inserted(old(self).free(), hndl)
                && final(self).next_hndl == old(self).next_hndl && final(self).index() == old(self).index() && final(self).table_wf(),
    {
        if hndl >= self.hndl_to_descs.len() as u64 || self.hndl_to_descs[hndl as usize].is_none() {
            return Err(IoError::HndlNotFoundError);
        }
        let ghost pre = *self;
        let ret = self.hndl_to_descs[hndl as usize].unwrap();
        self.hndl_to_descs[hndl as usize] = None;
        // the handle rejoins the pool right before the first smaller one
        let ghost f = self.free_hndls@;
        proof {
            assert forall|i: int| 0 <= i < f.len() implies (#[trigger] f[i]) != hndl by {
                assert(pre.slots()[f[i] as int] is None);
            }
        }
        let mut k: usize = 0;
        while k < self.free_hndls.len() && self.free_hndls[k] > hndl
            invariant
                k <= f.len(),
                forall|i: int| 0 <= i < k ==> (#[trigger] f[i]) > hndl,
            decreases f.len() - k,
        {
            k += 1;
        }
        proof {
            assert forall|i: int| k <= i < f.len() implies (#[trigger] f[i]) < hndl by {
                if i > k {
                    assert(f[k as int] > f[i]);
                }
            }
            lemma_pool_inserted_is_insert(f, hndl, k as int);
            f.insert_ensures(k as int, hndl);
        }
        self.free_hndls.insert(k, hndl);
        proof {
            let post = *self;
            let t = post.free();
            assert(post.slots() =~= pre.slots().update(hndl as int, None::<RIODesc>));
            assert forall|i: int, j: int| 0 <= i < j < t.len() implies t[i] > t[j] by {
                assert(t[i] == if i < k { f[i] } else if i == k { hndl } else { f[i - 1] });
                assert(t[j] == if j < k { f[j] } else if j == k { hndl } else { f[j - 1] });
            }
            assert forall|i: int| 0 <= i < t.len() implies (#[trigger] t[i]) < post.next_hndl
                && post.slots()[t[i] as int] is None by {
                assert(t[i] == if i < k { f[i] } else if i == k { hndl } else { f[i - 1] });
            }
            assert forall|i: int|
                0 <= i < post.slots().len() && post.slots()[i] is None implies post.free().contains(
                i as u64,
            ) by {
                if i == hndl {
                    assert(t[k as int] == hndl);
                } else {
                    assert(pre.slots()[i] is None);
                    assert(pre.free().contains(i as u64));
                    let p = choose|p: int| 0 <= p < f.len() && f[p] == i as u64;
                    assert(t[if p < k { p } else { p + 1 }] == i as u64);
                }
            }
        }
        Ok(ret)
    }

    /// Close a live handle: the slot is emptied, the interval leaves the
    /// index, the handle becomes reusable, and the descriptor is handed
    /// back.  An unknown handle fails with `HndlNotFoundError` and changes
    /// nothing.
    pub fn close(&mut self, hndl: u64) -> (r: Result<RIODesc, IoError>)
        requires
            old(self).wf(),
        ensures
            final(self).wf(),
            !old(self).is_live(hndl) ==> r == Err::<RIODesc, IoError>(IoError::HndlNotFoundError)
                && *final(self) == *old(self),
            old(self).is_live(hndl) ==> ({
                let d = old(self).desc_at(hndl);
                &&& r == Ok::<RIODesc, IoError>(d)
                &&& final(self).slots() == old(self).slots().update(hndl as int, None::<RIODesc>)
                &&& final(self).free() == pool_inserted(old(self).free(), hndl)
                &&& final(self).next_hndl == old(self).next_hndl
                &&& final(self).index() == removed(
                    old(self).index(),
                    d.paddr,
                    (d.paddr + d.size - 1) as u64,
                )
            }),
    {
        let ghost pre = *old(self);
        let desc = match self.deregister_hndl(hndl) {
            Ok(d) => d,
            Err(e) => {
                return Err(e);
            },
        };
        let ghost s = pre.index();
        let ghost k0 = choose|k: int| 0 <= k < s.len() && (#[trigger] s[k]).hndl == hndl;
        proof {
            assert(pre.is_live(hndl));
            assert(0 <= k0 < s.len() && s[k0].hndl == hndl);
            assert(pre.entry_linked(s[k0]));
            assert(s[k0].lo == desc.paddr);
            assert(s[k0].hi == desc.paddr + desc.size - 1);
        }
        self.paddr_to_hndls.delete_exact(desc.paddr, desc.paddr + desc.size - 1);
        proof {
            let post = *self;
            let lo = desc.paddr;
            let hi = (desc.paddr + desc.size - 1) as u64;
            assert forall|i: int| 0 <= i < k0 implies !((#[trigger] s[i]).lo == lo && s[i].hi
                == hi) by {
                assert(s[i].hi < s[k0].lo);
            }
            lemma_removed_is_remove(s, lo, hi, k0);
            s.remove_ensures(k0);
            let t = post.index();
            assert(t == s.remove(k0));
            // every entry of any handle other than the closed one is kept,
            // and the closed handle had only this entry
            assert forall|k: int| 0 <= k < t.len() implies post.entry_linked(#[trigger] t[k]) by {
                let e = if k < k0 { s[k] } else { s[k + 1] };
                assert(t[k] == e);
                assert(pre.entry_linked(e));
                assert(e.hndl != hndl) by {
                    if e.hndl == hndl {
                        assert(e.lo == desc.paddr && s[k0].lo == desc.paddr);
                    }
                }
            }
            assert forall|h: u64| #[trigger] post.is_live(h) implies exists|k: int|
                0 <= k < t.len() && (#[trigger] t[k]).hndl == h by {
                assert(pre.is_live(h) && h != hndl);
                let k = choose|k: int| 0 <= k < s.len() && (#[trigger] s[k]).hndl == h;
                assert(k != k0);
                if k < k0 {
                    assert(t[k].hndl == h);
                } else {
                    assert(t[k - 1].hndl == h);
                }
            }
        }
        Ok(desc)
    }

    /// Adopt a freshly opened descriptor at an address the caller has
    /// already proved free: a handle is issued, the slot is filled, and
    /// the interval enters the index.
    #[verifier::rlimit(100)]
    fn register_handle(&mut self, desc: RIODesc, paddr: u64) -> (h: u64)
        requires
            old(self).wf(),
            desc.size >= 1,
            paddr + desc.size <= u64::MAX,
            range_is_free(old(self).index(), paddr as int, desc.size as int),
            old(self).free().len() > 0 || old(self).next_hndl < u64::MAX,
        ensures
            final(self).wf(),
            final(self).is_live(h),
            final(self).desc_at(h) == (RIODesc { hndl: h, paddr, size: desc.size }),
            final(self).index() == placed(
                old(self).index(),
                (Interval { lo: paddr, hi: (paddr + desc.size - 1) as u64, hndl: h }),
            ),
            old(self).free().len() > 0 ==> h == old(self).free().last() && final(self).free()
                == old(self).free().drop_last() && final(self).next_hndl == old(self).next_hndl
                && final(self).slots() == old(self).slots().update(
                h as int,
                Some((RIODesc { hndl: h, paddr, size: desc.size })),
            ),
            old(self).free().len() == 0 ==> h == old(self).next_hndl && final(self).free() == old(self).free() && final(self).next_hndl == old(self).next_hndl + 1 && final(self).slots()
                == old(self).slots().push(Some((RIODesc { hndl: h, paddr, size: desc.size }))),
    {
        let ghost pre = *old(self);
        let hndl = self.get_new_hndl();
        let d = RIODesc { hndl, paddr, size: desc.size };
        if hndl < self.hndl_to_descs.len() as u64 {
            self.hndl_to_descs[hndl as usize] = Some(d);
        } else {
            self.hndl_to_descs.push(Some(d));
        }
        proof {
            if pre.free().len() > 0 {
                assert(pre.slots()[hndl as int] is None);
                assert(self.slots() =~= pre.slots().update(hndl as int, Some(d)));
            } else {
                assert(self.slots() =~= pre.slots().push(Some(d)));
            }
            assert forall|k: int| 0 <= k < self.index().len() implies !overlaps(
                #[trigger] self.index()[k],
                paddr as int,
                paddr + desc.size - 1,
            ) by {
                assert(!overlaps(pre.index()[k], paddr as int, paddr as int + desc.size as int
                    - 1));
            }
        }
        let hi = paddr + desc.size - 1;
        self.paddr_to_hndls.insert(paddr, hi, hndl);
        proof {
            let post = *self;
            let e = Interval { lo: paddr, hi, hndl };
            let s = pre.index();
            let t = post.index();
            let k0 = choose|k: int| 0 <= k <= s.len() && t == s.insert(k, e);
            s.insert_ensures(k0, e);
            // table invariant
            assert forall|i: int|
                0 <= i < post.slots().len() && (#[trigger] post.slots()[i]) is Some implies post
                .slots()[i].unwrap().hndl == i by {
                if i != hndl {
                    assert(post.slots()[i] == pre.slots()[i]);
                }
            }
            assert forall|i: int|
                0 <= i < post.free().len() implies (#[trigger] post.free()[i]) < post.next_hndl
                && post.slots()[post.free()[i] as int] is None by {
                assert(post.free()[i] == pre.free()[i]);
                assert(pre.free()[i] != hndl) by {
                    if pre.free().len() > 0 && i < pre.free().len() - 1 {
                        assert(pre.free()[i] > pre.free()[pre.free().len() - 1]);
                    }
                }
            }
            assert forall|i: int|
                0 <= i < post.slots().len() && (#[trigger] post.slots()[i]) is None implies post
                .free().contains(i as u64) by {
                assert(i != hndl);
                assert(pre.slots()[i] is None);
                assert(pre.free().contains(i as u64));
                let p = choose|p: int| 0 <= p < pre.free().len() && pre.free()[p] == i as u64;
                if pre.free().len() > 0 {
                    assert(p != pre.free().len() - 1);
                    assert(post.free()[p] == i as u64);
                }
            }
            assert(post.table_wf());
            // index invariant: the new entry mirrors the new slot, the old
            // entries mirror their untouched slots
            assert forall|k: int| 0 <= k < t.len() implies post.entry_linked(#[trigger] t[k]) by {
                if k == k0 {
                    assert(t[k] == e);
                    assert(post.is_live(hndl));
                    assert(post.desc_at(hndl) == d);
                } else {
                    let f = if k < k0 { s[k] } else { s[k - 1] };
                    assert(t[k] == f);
                    assert(pre.entry_linked(f));
                    assert(f.hndl != hndl);
                    assert(post.slots()[f.hndl as int] == pre.slots()[f.hndl as int]);
                }
            }
            assert forall|h2: u64| #[trigger] post.is_live(h2) implies exists|k: int|
                0 <= k < t.len() && (#[trigger] t[k]).hndl == h2 by {
                if h2 == hndl {
                    assert(t[k0].hndl == h2);
                } else {
                    assert(post.slots()[h2 as int] == pre.slots()[h2 as int]);
                    assert(pre.is_live(h2));
                    let k = choose|k: int| 0 <= k < s.len() && (#[trigger] s[k]).hndl == h2;
                    if k < k0 {
                        assert(t[k].hndl == h2);
                    } else {
                        assert(t[k + 1].hndl == h2);
                    }
                }
            }
        }
        hndl
    }

    /// Open with first-fit placement: the descriptor lands at the lowest
    /// address whose whole range is free, found by sweeping forward from
    /// zero past every blocking interval.
    pub fn register_open(&mut self, desc: RIODesc) -> (r: Result<u64, IoError>)
        requires
            old(self).wf(),
            desc.size >= 1,
            // somewhere inside the address space a range of this size is
            // still free; the sweep would otherwise never come back
            exists|a: int|
                0 <= a && a + desc.size <= u64::MAX && range_is_free(
                    old(self).index(),
                    a,
                    desc.size as int,
                ),
            // the handle space is assumed never to run out
            old(self).free().len() > 0 || old(self).next_hndl < u64::MAX,
        ensures
            final(self).wf(),
            r is Ok,
            ({
                let h = r.unwrap();
                let d = final(self).desc_at(h);
                &&& final(self).is_live(h)
                &&& d.hndl == h && d.size == desc.size
                // first fit: the whole range at d.paddr is free, and no
                // lower address has a free range of this size
                &&& range_is_free(old(self).index(), d.paddr as int, desc.size as int)
                &&& forall|b: int|
                    0 <= b < d.paddr ==> !range_is_free(old(self).index(), b, desc.size as int)
                &&& final(self).index() == placed(
                    old(self).index(),
                    (Interval { lo: d.paddr, hi: (d.paddr + desc.size - 1) as u64, hndl: h }),
                )
                // the smallest released handle is reused first; a fresh
                // counter value is issued only when none is free
                &&& (old(self).free().len() > 0 ==> h == old(self).free().last() && final(self).free() == old(self).free().drop_last() && final(self).next_hndl == old(self).next_hndl && final(self).slots() == old(self).slots().update(h as int, Some(d)))
                &&& (old(self).free().len() == 0 ==> h == old(self).next_hndl && final(self).free()
                    == old(self).free() && final(self).next_hndl == old(self).next_hndl + 1
                    && final(self).slots() == old(self).slots().push(Some(d)))
            }),
    {
        let ghost s = old(self).index();
        let ghost a0 = choose|a: int|
            0 <= a && a + desc.size <= u64::MAX && range_is_free(s, a, desc.size as int);
        let size = desc.size;
        let mut lo: u64 = 0;
        let mut done = false;
        while !done
            invariant
                lo <= a0,
                forall|b: int| 0 <= b < lo ==> !range_is_free(s, b, size as int),
                done ==> range_is_free(s, lo as int, size as int),
            decreases u64::MAX - lo, (if done { 0int } else { 1int }),
        {
            let hi = lo + size - 1;
            let ovl = self.paddr_to_hndls.overlap(lo, hi);
            proof {
                lemma_overlapping_props(s, lo as int, hi as int);
                lemma_overlapping_empty(s, lo as int, hi as int);
            }
            if ovl.len() == 0 {
                done = true;
            } else {
                let last_hndl = ovl[ovl.len() - 1];
                let ghost cands = overlapping(s, lo as int, hi as int);
                let ghost e = cands.last();
                proof {
                    assert(last_hndl == e.hndl);
                    assert(overlaps(e, lo as int, hi as int));
                    let k = choose|k: int| 0 <= k < s.len() && s[k] == e;
                    assert(self.entry_linked(e));
                }
                let n = self.hndl_to_descs.len();
                proof {
                    assert(last_hndl < n as u64);
                }
                let last = self.hndl_to_descs[last_hndl as usize].unwrap();
                let next_lo = last.paddr + last.size;
                proof {
                    let k = choose|k: int| 0 <= k < s.len() && s[k] == e;
                    assert(next_lo == e.hi + 1);
                    // every address from the old candidate up to the end of
                    // the last blocking interval is itself blocked by it
                    assert forall|b: int| lo <= b < next_lo implies !range_is_free(
                        s,
                        b,
                        size as int,
                    ) by {
                        assert(e.lo <= hi);
                        assert(b + size - 1 >= e.lo);
                        assert(b <= e.hi);
                        assert(overlaps(s[k], b, b + size as int - 1));
                    }
                    // the known-free range lies at or past the new cursor
                    assert(next_lo <= a0) by {
                        if a0 < next_lo {
                            assert(!range_is_free(s, a0, size as int));
                        }
                    }
                }
                lo = next_lo;
            }
        }
        let hndl = self.register_handle(desc, lo);
        Ok(hndl)
    }

    /// Open at a caller-chosen address.  When the requested interval
    /// intersects any live one, the call fails with
    /// `AddressesOverlapError` and the state is exactly what it was.
    pub fn register_open_at(&mut self, desc: RIODesc, at: u64) -> (r: Result<u64, IoError>)
        requires
            old(self).wf(),
            desc.size >= 1,
            at + desc.size <= u64::MAX,
            // the handle space is assumed never to run out
            old(self).free().len() > 0 || old(self).next_hndl < u64::MAX,
        ensures
            final(self).wf(),
            r is Ok <==> range_is_free(old(self).index(), at as int, desc.size as int),
            r is Err ==> r == Err::<u64, IoError>(IoError::AddressesOverlapError) && *final(self)
                == *old(self),
            r is Ok ==> ({
                let h = r.unwrap();
                let d = final(self).desc_at(h);
                &&& final(self).is_live(h)
                &&& d.hndl == h && d.size == desc.size && d.paddr == at
                &&& final(self).index() == placed(
                    old(self).index(),
                    (Interval { lo: at, hi: (at + desc.size - 1) as u64, hndl: h }),
                )
                &&& (old(self).free().len() > 0 ==> h == old(self).free().last() && final(self).free() == old(self).free().drop_last() && final(self).next_hndl == old(self).next_hndl && final(self).slots() == old(self).slots().update(h as int, Some(d)))
                &&& (old(self).free().len() == 0 ==> h == old(self).next_hndl && final(self).free()
                    == old(self).free() && final(self).next_hndl == old(self).next_hndl + 1
                    && final(self).slots() == old(self).slots().push(Some(d)))
            }),
    {
        let lo = at;
        let hi = at + desc.size - 1;
        let ovl = self.paddr_to_hndls.overlap(lo, hi);
        proof {
            lemma_overlapping_empty(old(self).index(), lo as int, hi as int);
        }
        if ovl.len() > 0 {
            return Err(IoError::AddressesOverlapError);
        }
        let hndl = self.register_handle(desc, at);
        Ok(hndl)
    }

    /// Borrow the live descriptor under `hndl`; absence, not an error,
    /// for an unknown handle.
    pub fn hndl_to_desc(&self, hndl: u64) -> (r: Option<&RIODesc>)
        ensures
            r is Some <==> self.is_live(hndl),
            r is Some ==> *r.unwrap() == self.desc_at(hndl),
    {
        if hndl >= self.hndl_to_descs.len() as u64 {
            return None;
        }
        match &self.hndl_to_descs[hndl as usize] {
            Some(d) => Some(d),
            None => None,
        }
    }

    /// Borrow the live descriptor under `hndl` mutably; absence, not an
    /// error, for an unknown handle.  Whatever the caller writes through
    /// the borrow lands in the handle's slot, so a caller that cares for
    /// the placement invariants leaves `hndl`, `paddr` and `size` alone.
    pub fn hndl_to_mut_desc(&mut self, hndl: u64) -> (r: Option<&mut RIODesc>)
        ensures
            r is Some <==> old(self).is_live(hndl),
            r is None ==> *final(self) == *old(self),
            r is Some ==> *r.unwrap() == old(self).desc_at(hndl) && final(self).hndl_to_descs@
                == old(self).hndl_to_descs@.update(hndl as int, Some(*final(r.unwrap())))
                && final(self).paddr_to_hndls == old(self).paddr_to_hndls && final(self).next_hndl
                == old(self).next_hndl && final(self).free_hndls@ == old(self).free_hndls@,
    {
        if hndl >= self.hndl_to_descs.len() as u64 {
            return None;
        }
        if self.hndl_to_descs[hndl as usize].is_none() {
            return None;
        }
        match &mut self.hndl_to_descs[hndl as usize] {
            Some(d) => Some(d),
            None => {
                proof {
                    assert(false);
                }
                None
            },
        }
    }

    /// The handle of the descriptor mapped at `paddr`: the point query,
    /// unique while the intervals are disjoint.
    pub fn paddr_to_hndl(&self, paddr: u64) -> (r: Option<u64>)
        requires
            self.wf(),
        ensures
            r is Some <==> addr_is_covered(self.index(), paddr as int),
            forall|k: int|
                0 <= k < self.index().len() && covers(#[trigger] self.index()[k], paddr as int)
                    ==> r == Some(self.index()[k].hndl),
    {
        let ghost s = self.index();
        let hndl = self.paddr_to_hndls.point(paddr);
        let ghost cands = overlapping(s, paddr as int, paddr as int);
        proof {
            lemma_overlapping_props(s, paddr as int, paddr as int);
        }
        if hndl.is_empty() {
            proof {
                assert forall|k: int|
                    0 <= k < s.len() implies !covers(#[trigger] s[k], paddr as int) by {
                    if covers(s[k], paddr as int) {
                        assert(cands.contains(s[k]));
                    }
                }
            }
            None
        } else {
            let h = hndl[0];
            proof {
                assert(overlaps(cands[0], paddr as int, paddr as int));
                let k0 = choose|k: int| 0 <= k < s.len() && s[k] == cands[0];
                assert(covers(s[k0], paddr as int));
                assert(addr_is_covered(s, paddr as int));
                // no second stored entry can contain the same address
                assert forall|k: int|
                    0 <= k < s.len() && covers(#[trigger] s[k], paddr as int) implies s[k].hndl
                    == h by {
                    assert(overlaps(s[k], paddr as int, paddr as int));
                    assert(cands.contains(s[k]));
                    let j = choose|j: int| 0 <= j < cands.len() && cands[j] == s[k];
                    if j > 0 {
                        assert(cands[0].hi < cands[j].lo);
                    }
                }
            }
            Some(h)
        }
    }
}

/// The chunk that the `i`-th covering descriptor contributes to the range
/// `[paddr, last]`: it starts at the range start for the first descriptor
/// and at the descriptor's own start after that, and it runs to the end
/// of the descriptor or of the range, whichever comes first.
pub open spec fn chunk_at(cands: Seq<Interval>, paddr: u64, last: u64, i: int) -> (u64, u64, u64) {
    let start: int = if i == 0 {
        paddr as int
    } else {
        cands[i].lo as int
    };
    let end: int = if cands[i].hi < last {
        cands[i].hi as int
    } else {
        last as int
    };
    (cands[i].hndl, start as u64, (end - start + 1) as u64)
}

/// The ordered chunk list contributed by the covering descriptors.
pub open spec fn chunks_of(cands: Seq<Interval>, paddr: u64, last: u64) -> Seq<(u64, u64, u64)> {
    Seq::new(cands.len(), |i: int| chunk_at(cands, paddr, last, i))
}

impl RIODescQuery {
    /// Decompose the byte range `[paddr, paddr + size - 1]` into the
    /// ordered chunks of the descriptors that back it; each chunk names a
    /// handle, the address where the chunk starts, and its length.
    /// Absence when any part of the range — at the left, in the middle or
    /// at the right — is unmapped.
    #[verifier::rlimit(100)]
    pub fn paddr_range_to_hndl(&self, paddr: u64, size: u64) -> (r: Option<Vec<(u64, u64, u64)>>)
        requires
            self.wf(),
            size >= 1,
            paddr + size <= u64::MAX,
        ensures
            r is Some <==> range_is_covered(self.index(), paddr as int, size as int),
            r is Some ==> r.unwrap()@ == chunks_of(
                overlapping(self.index(), paddr as int, paddr + size - 1),
                paddr,
                (paddr + size - 1) as u64,
            ),
    {
        let ghost s = self.index();
        let last = paddr + size - 1;
        let hndls = self.paddr_to_hndls.overlap(paddr, last);
        let ghost cands = overlapping(s, paddr as int, last as int);
        proof {
            lemma_overlapping_props(s, paddr as int, last as int);
        }
        if hndls.is_empty() {
            proof {
                assert(!addr_is_covered(s, paddr as int)) by {
                    if addr_is_covered(s, paddr as int) {
                        let k = choose|k: int|
                            0 <= k < s.len() && covers(#[trigger] s[k], paddr as int);
                        assert(overlaps(s[k], paddr as int, last as int));
                        assert(cands.contains(s[k]));
                    }
                }
                assert(!range_is_covered(s, paddr as int, size as int));
            }
            return None;
        }
        let mut ranged_hndl: Vec<(u64, u64, u64)> = Vec::with_capacity(hndls.len());
        let mut start = paddr;
        let mut remaining = size;
        let mut i: usize = 0;
        while i < hndls.len()
            invariant
                hndls@.len() == cands.len(),
                0 < cands.len() <= s.len(),
                i <= cands.len(),
                start == paddr + size - remaining,
                remaining <= size,
                ranged_hndl@.len() == i,
                forall|j: int| 0 <= j < i ==> ranged_hndl@[j] == chunk_at(cands, paddr, last, j),
                i < cands.len() ==> remaining > 0,
                remaining > 0 && i == 0 ==> start == paddr,
                remaining > 0 && i > 0 ==> start == cands[i - 1].hi + 1,
                forall|p: int| paddr <= p < start ==> #[trigger] addr_is_covered(s, p),
            decreases cands.len() - i,
        {
            let hndl = hndls[i];
            let ghost e = cands[i as int];
            proof {
                assert(hndl == e.hndl);
                assert(overlaps(e, paddr as int, last as int));
                let k = choose|k: int| 0 <= k < s.len() && s[k] == e;
                assert(self.entry_linked(e));
                if i > 0 {
                    assert(cands[i - 1].hi < e.lo);
                }
                assert(start <= e.hi);
                assert forall|j: int| 0 <= j < i implies (#[trigger] cands[j]).hi < start by {
                    if j < i - 1 {
                        assert(cands[j].hi < cands[i - 1].lo);
                        assert(cands[i - 1].lo <= cands[i - 1].hi);
                    }
                }
            }
            let n = self.hndl_to_descs.len();
            proof {
                assert(hndl < n as u64);
            }
            let desc = self.hndl_to_descs[hndl as usize].unwrap();
            if start < desc.paddr {
                // a gap right before this candidate: the cursor address
                // itself is backed by nothing
                proof {
                    assert(paddr <= start <= last);
                    assert(!addr_is_covered(s, start as int)) by {
                        if addr_is_covered(s, start as int) {
                            let k2 = choose|k2: int|
                                0 <= k2 < s.len() && covers(#[trigger] s[k2], start as int);
                            assert(overlaps(s[k2], paddr as int, last as int));
                            assert(cands.contains(s[k2]));
                            let j = choose|j: int| 0 <= j < cands.len() && cands[j] == s[k2];
                            if j >= i {
                                assert(e.lo <= cands[j].lo) by {
                                    if j > i {
                                        assert(e.hi < cands[j].lo);
                                    }
                                }
                            }
                        }
                    }
                    assert(!range_is_covered(s, paddr as int, size as int));
                }
                return None;
            }
            let avail = desc.size - (start - desc.paddr);
            let delta = if remaining < avail {
                remaining
            } else {
                avail
            };
            ranged_hndl.push((hndl, start, delta));
            proof {
                let k = choose|k: int| 0 <= k < s.len() && s[k] == e;
                assert(desc == self.desc_at(e.hndl));
                assert(desc.paddr == e.lo);
                assert(avail == e.hi - start + 1);
                assert(remaining == last - start + 1);
                assert(start + delta - 1 == if e.hi < last {
                    e.hi as int
                } else {
                    last as int
                });
                assert(ranged_hndl@[i as int] == chunk_at(cands, paddr, last, i as int));
                // the chunk's addresses are all covered by this entry
                assert forall|p: int| start <= p < start + delta implies #[trigger] addr_is_covered(
                    s,
                    p,
                ) by {
                    assert(covers(s[k], p));
                }
                // with more candidates waiting, the range cannot already
                // be exhausted: the next candidate starts past this one
                // yet inside the range
                if i + 1 < cands.len() {
                    assert(remaining - delta > 0) by {
                        if delta == remaining {
                            assert(last <= e.hi);
                            assert(overlaps(cands[i + 1], paddr as int, last as int));
                            assert(e.hi < cands[i + 1].lo);
                        }
                    }
                }
            }
            start = start + delta;
            remaining = remaining - delta;
            i += 1;
        }
        if remaining != 0 {
            proof {
                assert(paddr <= start <= last);
                assert forall|j: int| 0 <= j < cands.len() implies (#[trigger] cands[j]).hi
                    < start by {
                    if j < cands.len() - 1 {
                        assert(cands[j].hi < cands[cands.len() - 1].lo);
                        assert(cands[cands.len() - 1].lo <= cands[cands.len() - 1].hi);
                    }
                }
                assert(!addr_is_covered(s, start as int)) by {
                    if addr_is_covered(s, start as int) {
                        let k2 = choose|k2: int|
                            0 <= k2 < s.len() && covers(#[trigger] s[k2], start as int);
                        assert(overlaps(s[k2], paddr as int, last as int));
                        assert(cands.contains(s[k2]));
                    }
                }
                assert(!range_is_covered(s, paddr as int, size as int));
            }
            return None;
        }
        proof {
            assert(range_is_covered(s, paddr as int, size as int));
            assert(ranged_hndl@ =~= chunks_of(cands, paddr, last));
        }
        Some(ranged_hndl)
    }
}

/// Round trip: `close` on a live handle returns the descriptor with the
/// recorded address and size (its own contract says so), and afterwards
/// the handle's slot answers no lookup and no address of the old interval
/// answers a point query: the closed slot is empty, and the index that
/// `close` leaves behind covers no address the descriptor used to cover.
pub proof fn lemma_close_round_trip(s: RIODescQuery, h: u64, p: int)
    requires
        s.wf(),
        s.is_live(h),
        s.desc_at(h).paddr <= p <= s.desc_at(h).paddr + s.desc_at(h).size - 1,
    ensures
        s.slots().update(h as int, None::<RIODesc>)[h as int] is None,
        !addr_is_covered(
            removed(
                s.index(),
                s.desc_at(h).paddr,
                (s.desc_at(h).paddr + s.desc_at(h).size - 1) as u64,
            ),
            p,
        ),
{
    let d = s.desc_at(h);
    let lo = d.paddr;
    let hi = (d.paddr + d.size - 1) as u64;
    let idx = s.index();
    let k0 = choose|k: int| 0 <= k < idx.len() && (#[trigger] idx[k]).hndl == h;
    assert(0 <= k0 < idx.len() && idx[k0].hndl == h);
    assert(s.entry_linked(idx[k0]));
    assert(idx[k0].lo == lo && idx[k0].hi == hi);
    assert forall|i: int| 0 <= i < k0 implies !((#[trigger] idx[i]).lo == lo && idx[i].hi
        == hi) by {
        assert(idx[i].hi < idx[k0].lo);
    }
    lemma_removed_is_remove(idx, lo, hi, k0);
    idx.remove_ensures(k0);
    let t = idx.remove(k0);
    // a remaining entry containing p would intersect the removed interval
    assert forall|j: int| 0 <= j < t.len() implies !covers(#[trigger] t[j], p) by {
        let e = if j < k0 {
            idx[j]
        } else {
            idx[j + 1]
        };
        assert(t[j] == e);
        if covers(e, p) {
            assert(covers(idx[k0], p));
            if j < k0 {
                assert(idx[j].hi < idx[k0].lo);
            } else {
                assert(idx[k0].hi < idx[j + 1].lo);
            }
        }
    }
}

/// Handle reuse order: releasing `a` and then `b`, with `a < b` and every
/// already-pooled handle above `b`, queues the pool so that the next open
/// draws `a` and the one after it draws `b` — the smallest free handle is
/// always the one reused.  `close` grows the pool by `pool_inserted`, and
/// open issues the pool's last element, so the two draws are the pool's
/// last element and the last of what remains.
pub proof fn lemma_handle_reuse_order(free: Seq<u64>, a: u64, b: u64)
    requires
        a < b,
        forall|i: int| 0 <= i < free.len() ==> b < (#[trigger] free[i]),
        forall|i: int, j: int| 0 <= i < j < free.len() ==> free[i] > free[j],
    ensures
        pool_inserted(pool_inserted(free, a), b).last() == a,
        pool_inserted(pool_inserted(free, a), b).drop_last() == pool_inserted(free, b),
        pool_inserted(free, b).last() == b,
{
    lemma_pool_inserted_is_insert(free, a, free.len() as int);
    free.insert_ensures(free.len() as int, a);
    let f1 = pool_inserted(free, a);
    assert(f1.last() == a);
    lemma_pool_inserted_is_insert(f1, b, f1.len() - 1);
    f1.insert_ensures(f1.len() - 1, b);
    let f2 = pool_inserted(f1, b);
    assert(f2.last() == a);
    lemma_pool_inserted_is_insert(free, b, free.len() as int);
    free.insert_ensures(free.len() as int, b);
    assert(f2.drop_last() =~= pool_inserted(free, b));
    assert(pool_inserted(free, b).last() == b);
}

/// The other half of handle reuse: with the pool empty, an open issues
/// the fresh counter value, which no live descriptor carries — every
/// handle issued so far lies below the counter.
pub proof fn lemma_fresh_handle_never_issued(s: RIODescQuery)
    requires
        s.wf(),
        s.free().len() == 0,
    ensures
        forall|h: u64| #[trigger] s.is_live(h) ==> h < s.next_hndl,
{
}

} // verus!
