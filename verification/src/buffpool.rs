use vstd::prelude::*;
use vstd::seq_lib::*;
use vstd::set_lib::{lemma_len_subset, lemma_int_range, set_int_range};
use crate::bitmap::Qcbitmap;
use crate::error::QcBupoError;
use crate::page::QcPager;
use crate::trace::QcTracer;

verus! {

/// Number of page slots in the backing store.
pub const PAGE_COUNT: usize = 16;

/// One page-table entry: the frame a resident page occupies and its pin
/// count (number of outstanding fetches not yet unpinned).
#[derive(Debug, Clone, Copy, PartialEq, Eq, Structural)]
pub struct QcBuffItem {
    pub frame_id: usize,
    pub ref_num: i32,
}

impl QcBuffItem {
    pub fn new(frame_id: usize, ref_num: i32) -> (r: Self)
        ensures
            r.frame_id == frame_id,
            r.ref_num == ref_num,
    {
        QcBuffItem { frame_id, ref_num }
    }
}

/// Buffer pool manager: a fixed array of in-memory frames caching pages of
/// a backing store, with a bitmap frame allocator, a page table mapping
/// page id to frame and pin count, and a recency tracker that orders the
/// eviction candidates (the resident pages whose pin count is zero).
///
/// The backing store is modelled inside the pool as an array of page
/// buffers: page `i` occupies slot `i`, counted from zero; real file
/// traffic sits outside this type and exchanges whole page buffers with it.
pub struct QcBuffpool {
    frame: Vec<QcPager>,
    frame_bits: Qcbitmap,
    table: Vec<(u8, QcBuffItem)>,
    tracer: QcTracer,
    storage: Vec<QcPager>,
}

impl QcBuffpool {
    // ---- abstraction ----

    /// Number of frames.
    pub closed spec fn capacity(self) -> int {
        self.frame@.len() as int
    }

    /// Number of page slots in the backing store.
    pub closed spec fn page_count(self) -> int {
        self.storage@.len() as int
    }

    spec fn tbl_has(t: Seq<(u8, QcBuffItem)>, pid: u8) -> bool {
        exists|i: int| 0 <= i < t.len() && (#[trigger] t[i]).0 == pid
    }

    spec fn tbl_ix(t: Seq<(u8, QcBuffItem)>, pid: u8) -> int {
        choose|i: int| 0 <= i < t.len() && (#[trigger] t[i]).0 == pid
    }

    spec fn tbl_frame(t: Seq<(u8, QcBuffItem)>, f: int) -> bool {
        exists|i: int| 0 <= i < t.len() && (#[trigger] t[i]).1.frame_id == f
    }

    /// Page `pid` is resident in some frame.
    pub closed spec fn is_resident(self, pid: u8) -> bool {
        Self::tbl_has(self.table@, pid)
    }

    spec fn entry_index(self, pid: u8) -> int {
        Self::tbl_ix(self.table@, pid)
    }

    /// Frame holding resident page `pid`.
    pub closed spec fn frame_of(self, pid: u8) -> int {
        self.table@[self.entry_index(pid)].1.frame_id as int
    }

    /// Pin count of resident page `pid`.
    pub closed spec fn pin_of(self, pid: u8) -> int {
        self.table@[self.entry_index(pid)].1.ref_num as int
    }

    /// The in-memory page of resident page `pid`.
    pub closed spec fn page_of(self, pid: u8) -> QcPager {
        self.frame@[self.frame_of(pid)]
    }

    /// The backing-store copy of page `pid`.
    pub closed spec fn stored_page(self, pid: u8) -> QcPager {
        self.storage@[pid as int]
    }

    /// Eviction candidates, least recently used first.
    pub closed spec fn lru(self) -> Seq<u8> {
        self.tracer@
    }

    /// Some frame holds no resident page.
    pub closed spec fn has_free_frame(self) -> bool {
        exists|f: int| 0 <= f < self.capacity() && !(#[trigger] self.frame_bits.bit(f))
    }

    // ---- invariant ----

    pub closed spec fn wf(self) -> bool {
        &&& 1 <= self.capacity()
        &&& self.page_count() == PAGE_COUNT
        &&& self.frame_bits.wf()
        &&& self.capacity() <= self.frame_bits.nbits()
        &&& forall|f: int|
            self.capacity() <= f < self.frame_bits.nbits() ==> #[trigger] self.frame_bits.bit(f)
        &&& forall|i: int| 0 <= i < self.table@.len() ==> {
            &&& (#[trigger] self.table@[i]).1.frame_id < self.capacity()
            &&& self.table@[i].1.ref_num >= 0
            &&& self.table@[i].0 < self.page_count()
        }
        &&& forall|i: int, j: int|
            0 <= i < j < self.table@.len()
                ==> (#[trigger] self.table@[i]).0 != (#[trigger] self.table@[j]).0
        &&& forall|i: int, j: int|
            0 <= i < j < self.table@.len()
                ==> (#[trigger] self.table@[i]).1.frame_id != (#[trigger] self.table@[j]).1.frame_id
        &&& forall|f: int|
            0 <= f < self.capacity()
                ==> ((#[trigger] self.frame_bits.bit(f)) <==> Self::tbl_frame(self.table@, f))
        &&& forall|f: int| 0 <= f < self.capacity() ==> (#[trigger] self.frame@[f]).wf()
        &&& forall|p: int| 0 <= p < self.page_count() ==> (#[trigger] self.storage@[p]).wf()
        &&& forall|p: int|
            0 <= p < self.page_count() ==> !(#[trigger] self.storage@[p]).spec_dirty()
        &&& self.tracer.wf()
        &&& self.tracer.spec_cap() == self.capacity()
        &&& forall|pid: u8|
            #[trigger] self.lru().contains(pid) ==> self.is_resident(pid) && self.pin_of(pid) == 0
        &&& forall|i: int|
            0 <= i < self.table@.len() && (#[trigger] self.table@[i]).1.ref_num == 0
                ==> self.lru().contains(self.table@[i].0)
    }

    /// Observational equality of two pool states.
    pub open spec fn same_pool_state(a: Self, b: Self) -> bool {
        &&& a.capacity() == b.capacity()
        &&& a.page_count() == b.page_count()
        &&& forall|p: u8| #[trigger] a.is_resident(p) == b.is_resident(p)
        &&& forall|p: u8| a.is_resident(p) ==> {
            &&& #[trigger] a.frame_of(p) == b.frame_of(p)
            &&& a.pin_of(p) == b.pin_of(p)
            &&& a.page_of(p).same_state(b.page_of(p))
        }
        &&& a.lru() == b.lru()
        &&& forall|p: u8|
            0 <= p < a.page_count() ==> (#[trigger] a.stored_page(p)).same_state(b.stored_page(p))
    }

    // ---- internal lemmas ----

    /// With distinct page ids, the table entry of a page id is unique, so
    /// the abstraction functions read the entry that holds it.
    proof fn lemma_entry_facts(self, i: int)
        requires
            forall|x: int, y: int|
                0 <= x < y < self.table@.len()
                    ==> (#[trigger] self.table@[x]).0 != (#[trigger] self.table@[y]).0,
            0 <= i < self.table@.len(),
        ensures
            self.is_resident(self.table@[i].0),
            self.entry_index(self.table@[i].0) == i,
            self.frame_of(self.table@[i].0) == self.table@[i].1.frame_id,
            self.pin_of(self.table@[i].0) == self.table@[i].1.ref_num,
            self.page_of(self.table@[i].0) == self.frame@[self.table@[i].1.frame_id as int],
    {
        let pid = self.table@[i].0;
        assert(self.is_resident(pid));
        let w = self.entry_index(pid);
        if w < i {
            assert(self.table@[w].0 != self.table@[i].0);
        } else if w > i {
            assert(self.table@[i].0 != self.table@[w].0);
        }
    }

    /// The table never holds more entries than there are frames: its frame
    /// ids are distinct values below the capacity.
    proof fn lemma_table_len(self)
        requires
            forall|i: int| 0 <= i < self.table@.len()
                ==> (#[trigger] self.table@[i]).1.frame_id < self.capacity(),
            forall|i: int, j: int|
                0 <= i < j < self.table@.len()
                    ==> (#[trigger] self.table@[i]).1.frame_id
                        != (#[trigger] self.table@[j]).1.frame_id,
        ensures
            self.table@.len() <= self.capacity(),
    {
        let fids = Seq::new(self.table@.len(), |i: int| self.table@[i].1.frame_id as int);
        assert(fids.no_duplicates());
        fids.unique_seq_to_set();
        let range = set_int_range(0, self.capacity());
        lemma_int_range(0, self.capacity());
        assert forall|x: int| fids.to_set().contains(x) implies range.contains(x) by {
            let i = choose|i: int| 0 <= i < fids.len() && fids[i] == x;
            assert(self.table@[i].1.frame_id < self.capacity());
        }
        lemma_len_subset(fids.to_set(), range);
    }

    // ---- lookup ----

    /// The table entry index of `pid`, if the page is resident.
    fn find_entry(&self, pid: u8) -> (r: Option<usize>)
        ensures
            match r {
                Some(i) => i < self.table@.len() && self.table@[i as int].0 == pid,
                None => !self.is_resident(pid),
            },
    {
        let mut i: usize = 0;
        while i < self.table.len()
            invariant
                i <= self.table@.len(),
                forall|j: int| 0 <= j < i ==> (#[trigger] self.table@[j]).0 != pid,
            decreases self.table@.len() - i,
        {
            if self.table[i].0 == pid {
                return Some(i);
            }
            i = i + 1;
        }
        proof {
            if self.is_resident(pid) {
                let j = choose|j: int|
                    0 <= j < self.table@.len() && (#[trigger] self.table@[j]).0 == pid;
                assert(self.table@[j].0 != pid);
            }
        }
        None
    }

    // ---- construction ----

    /// A pool of `size` frames over a fresh backing store of `PAGE_COUNT`
    /// empty pages, with nothing resident.
    pub fn new(size: usize) -> (r: Self)
        requires
            1 <= size <= usize::MAX - 7,
        ensures
            r.wf(),
            r.capacity() == size,
            r.page_count() == PAGE_COUNT,
            forall|p: u8| !r.is_resident(p),
            r.lru() == Seq::<u8>::empty(),
            r.has_free_frame(),
            forall|p: u8| 0 <= p < r.page_count() ==> {
                &&& (#[trigger] r.stored_page(p)).wf()
                &&& r.stored_page(p).n_slots() == 0
            },
    {
        let mut bf: Vec<QcPager> = Vec::new();
        let mut i: usize = 0;
        while i < size
            invariant
                i <= size,
                bf@.len() == i,
                forall|f: int| 0 <= f < i ==> (#[trigger] bf@[f]).wf(),
            decreases size - i,
        {
            bf.push(QcPager::new());
            i = i + 1;
        }
        let mut st: Vec<QcPager> = Vec::new();
        let mut p: usize = 0;
        while p < PAGE_COUNT
            invariant
                p <= PAGE_COUNT,
                st@.len() == p,
                forall|q: int| 0 <= q < p ==> {
                    &&& (#[trigger] st@[q]).wf()
                    &&& st@[q].n_slots() == 0
                    &&& !st@[q].spec_dirty()
                },
            decreases PAGE_COUNT - p,
        {
            st.push(QcPager::new());
            p = p + 1;
        }
        let r = QcBuffpool {
            frame: bf,
            frame_bits: Qcbitmap::new(size),
            table: Vec::new(),
            tracer: QcTracer::new(size),
            storage: st,
        };
        proof {
            assert(!r.frame_bits.bit(0));
        }
        r
    }

    // ---- fetch ----

    /// Fetch `page_id`, pinning it, and return the frame id that holds it.
    ///
    /// On a hit the pin count rises by one and the page, now pinned, leaves
    /// the eviction candidates.  On a miss the page is loaded from the
    /// backing store into a free frame, or, when no frame is free, into the
    /// frame of the least-recently-used candidate, which is evicted (its
    /// buffer written back first when dirty).  Fails with `IoFailure` when
    /// `page_id` lies outside the backing store, and with `PoolExhausted`
    /// when no frame is free and every resident page is pinned.
    #[verifier::rlimit(100)]
    pub fn fetch_page(&mut self, page_id: u8) -> (r: Result<usize, QcBupoError>)
        requires
            old(self).wf(),
            old(self).is_resident(page_id) ==> old(self).pin_of(page_id) < i32::MAX,
        ensures
            final(self).wf(),
            final(self).capacity() == old(self).capacity(),
            final(self).page_count() == old(self).page_count(),
            old(self).is_resident(page_id) ==> {
                &&& r == Ok::<usize, QcBupoError>(old(self).frame_of(page_id) as usize)
                &&& forall|p: u8| #[trigger] final(self).is_resident(p) == old(self).is_resident(p)
                &&& final(self).frame_of(page_id) == old(self).frame_of(page_id)
                &&& final(self).pin_of(page_id) == old(self).pin_of(page_id) + 1
                &&& forall|p: u8|
                    #![trigger final(self).frame_of(p)]
                    #![trigger final(self).pin_of(p)]
                    p != page_id && old(self).is_resident(p)
                        ==> final(self).frame_of(p) == old(self).frame_of(p)
                            && final(self).pin_of(p) == old(self).pin_of(p)
                &&& forall|p: u8|
                    old(self).is_resident(p)
                        ==> (#[trigger] final(self).page_of(p)).same_state(old(self).page_of(p))
                &&& (old(self).pin_of(page_id) == 0 ==> final(self).lru()
                    == old(self).lru().remove(old(self).lru().index_of_first(page_id)->0))
                &&& (old(self).pin_of(page_id) > 0 ==> final(self).lru() == old(self).lru())
                &&& !final(self).lru().contains(page_id)
                &&& forall|p: u8|
                    p != page_id
                        ==> #[trigger] final(self).lru().contains(p) == old(self).lru().contains(p)
                &&& forall|p: u8|
                    0 <= p < old(self).page_count()
                        ==> (#[trigger] final(self).stored_page(p)).same_state(
                            old(self).stored_page(p))
            },
            !old(self).is_resident(page_id) && page_id >= old(self).page_count() ==> {
                &&& r == Err::<usize, QcBupoError>(QcBupoError::IoFailure)
                &&& Self::same_pool_state(*old(self), *final(self))
            },
            !old(self).is_resident(page_id) && page_id < old(self).page_count()
                && old(self).has_free_frame() ==> {
                &&& r is Ok
                &&& r->Ok_0 == final(self).frame_of(page_id)
                &&& final(self).is_resident(page_id)
                &&& final(self).pin_of(page_id) == 1
                &&& final(self).page_of(page_id).same_state(old(self).stored_page(page_id))
                &&& forall|p: u8|
                    p != page_id ==> #[trigger] final(self).is_resident(p) == old(self).is_resident(p)
                &&& forall|p: u8|
                    #![trigger final(self).frame_of(p)]
                    #![trigger final(self).pin_of(p)]
                    p != page_id && old(self).is_resident(p)
                        ==> final(self).frame_of(p) == old(self).frame_of(p)
                            && final(self).pin_of(p) == old(self).pin_of(p)
                            && final(self).page_of(p).same_state(old(self).page_of(p))
                &&& final(self).lru() == old(self).lru()
                &&& forall|p: u8|
                    0 <= p < old(self).page_count()
                        ==> (#[trigger] final(self).stored_page(p)).same_state(
                            old(self).stored_page(p))
            },
            !old(self).is_resident(page_id) && page_id < old(self).page_count()
                && !old(self).has_free_frame() && old(self).lru().len() > 0 ==> {
                let victim = old(self).lru()[0];
                &&& r is Ok
                &&& r->Ok_0 == final(self).frame_of(page_id)
                &&& final(self).frame_of(page_id) == old(self).frame_of(victim)
                &&& !final(self).is_resident(victim)
                &&& final(self).is_resident(page_id)
                &&& final(self).pin_of(page_id) == 1
                &&& final(self).page_of(page_id).same_state(old(self).stored_page(page_id))
                &&& forall|p: u8|
                    p != page_id && p != victim
                        ==> #[trigger] final(self).is_resident(p) == old(self).is_resident(p)
                &&& forall|p: u8|
                    #![trigger final(self).frame_of(p)]
                    #![trigger final(self).pin_of(p)]
                    p != page_id && p != victim && old(self).is_resident(p)
                        ==> final(self).frame_of(p) == old(self).frame_of(p)
                            && final(self).pin_of(p) == old(self).pin_of(p)
                            && final(self).page_of(p).same_state(old(self).page_of(p))
                &&& final(self).lru() == old(self).lru().drop_first()
                &&& (old(self).page_of(victim).spec_dirty() ==> {
                    &&& final(self).stored_page(victim).bytes()
                        == old(self).page_of(victim).bytes()
                    &&& !final(self).stored_page(victim).spec_dirty()
                })
                &&& (!old(self).page_of(victim).spec_dirty()
                    ==> final(self).stored_page(victim).same_state(old(self).stored_page(victim)))
                &&& forall|p: u8|
                    p != victim && 0 <= p < old(self).page_count()
                        ==> (#[trigger] final(self).stored_page(p)).same_state(
                            old(self).stored_page(p))
            },
            !old(self).is_resident(page_id) && page_id < old(self).page_count()
                && !old(self).has_free_frame() && old(self).lru().len() == 0 ==> {
                &&& r == Err::<usize, QcBupoError>(QcBupoError::PoolExhausted)
                &&& Self::same_pool_state(*old(self), *final(self))
            },
    {
        let ghost pre = *old(self);
        match self.find_entry(page_id) {
            Some(ei) => {
                proof {
                    self.lemma_entry_facts(ei as int);
                }
                let fid: usize = self.table[ei].1.frame_id;
                let pin: i32 = self.table[ei].1.ref_num;
                self.table.set(ei, (page_id, QcBuffItem::new(fid, pin + 1)));
                proof {
                    self.lemma_table_entry_update(pre, ei as int);
                }
                if pin == 0 {
                    self.tracer.remove(page_id);
                    proof {
                        self.lemma_table_entry_update(pre, ei as int);
                        assert forall|pid2: u8| #[trigger] self.lru().contains(pid2)
                            implies self.is_resident(pid2) && self.pin_of(pid2) == 0 by {
                            assert(pid2 != page_id);
                            assert(pre.lru().contains(pid2));
                            assert(self.frame_of(pid2) == pre.frame_of(pid2));
                            assert(self.pin_of(pid2) == pre.pin_of(pid2));
                        }
                        assert forall|i: int|
                            0 <= i < self.table@.len() && (#[trigger] self.table@[i]).1.ref_num == 0
                            implies self.lru().contains(self.table@[i].0) by {
                            assert(i != ei as int);
                            pre.lemma_entry_facts(i);
                            assert(pre.table@[i].0 != page_id);
                            assert(pre.lru().contains(pre.table@[i].0));
                        }
                        assert(self.wf());
                        Self::lemma_pool_preserved_after_pin_change(pre, *self, ei as int);
                    }
                } else {
                    proof {
                        assert forall|pid2: u8| #[trigger] self.lru().contains(pid2)
                            implies self.is_resident(pid2) && self.pin_of(pid2) == 0 by {
                            assert(pre.lru().contains(pid2));
                            assert(pid2 != page_id);
                            assert(self.frame_of(pid2) == pre.frame_of(pid2));
                            assert(self.pin_of(pid2) == pre.pin_of(pid2));
                        }
                        assert forall|i: int|
                            0 <= i < self.table@.len() && (#[trigger] self.table@[i]).1.ref_num == 0
                            implies self.lru().contains(self.table@[i].0) by {
                            assert(i != ei as int);
                            pre.lemma_entry_facts(i);
                        }
                        assert(self.wf());
                        Self::lemma_pool_preserved_after_pin_change(pre, *self, ei as int);
                    }
                }
                Ok(fid)
            },
            None => {
                if (page_id as usize) >= self.storage.len() {
                    proof {
                        Self::lemma_same_state_everywhere(pre);
                    }
                    return Err(QcBupoError::IoFailure);
                }
                match self.frame_bits.issue() {
                    Some(f) => {
                        proof {
                            if f >= pre.capacity() {
                                assert(pre.frame_bits.bit(f as int));
                            }
                            assert(f < pre.capacity());
                            assert(pre.has_free_frame());
                        }
                        self.frame_bits.set(f);
                        let pg = self.storage[page_id as usize].duplicate();
                        proof {
                            QcPager::lemma_same_state_congruent(pg, pre.storage@[page_id as int]);
                        }
                        self.frame.set(f, pg);
                        self.table.push((page_id, QcBuffItem::new(f, 1)));
                        proof {
                            let e = (page_id, QcBuffItem { frame_id: f, ref_num: 1i32 });
                            Self::lemma_table_push(pre.table@, self.table@, e);
                            self.lemma_entry_facts(pre.table@.len() as int);
                            // frame ids stay distinct: frame `f` held no page
                            assert forall|x: int, y: int| 0 <= x < y < self.table@.len()
                                implies (#[trigger] self.table@[x]).1.frame_id
                                    != (#[trigger] self.table@[y]).1.frame_id by {
                                if y == self.table@.len() - 1 {
                                    assert(self.table@[x] == pre.table@[x]);
                                    if pre.table@[x].1.frame_id == f {
                                        assert(Self::tbl_frame(pre.table@, f as int));
                                        assert(pre.frame_bits.bit(f as int));
                                    }
                                } else {
                                    assert(self.table@[x] == pre.table@[x]
                                        && self.table@[y] == pre.table@[y]);
                                }
                            }
                            // occupancy
                            assert forall|f2: int| 0 <= f2 < self.capacity()
                                implies ((#[trigger] self.frame_bits.bit(f2))
                                    <==> Self::tbl_frame(self.table@, f2)) by {
                                if f2 == f as int {
                                    assert(self.table@[pre.table@.len() as int].1.frame_id == f);
                                } else {
                                    if Self::tbl_frame(pre.table@, f2) {
                                        let i = choose|i: int|
                                            0 <= i < pre.table@.len()
                                                && (#[trigger] pre.table@[i]).1.frame_id == f2;
                                        assert(self.table@[i].1.frame_id == f2);
                                    }
                                    if Self::tbl_frame(self.table@, f2) {
                                        let i = choose|i: int|
                                            0 <= i < self.table@.len()
                                                && (#[trigger] self.table@[i]).1.frame_id == f2;
                                        assert(i < pre.table@.len());
                                        assert(pre.table@[i].1.frame_id == f2);
                                    }
                                }
                            }
                            // untouched entries keep their abstraction
                            assert forall|p: u8| p != page_id && pre.is_resident(p)
                                implies #[trigger] self.frame_of(p) == pre.frame_of(p)
                                    && self.pin_of(p) == pre.pin_of(p)
                                    && self.frame_of(p) != f by {
                                assert(Self::tbl_ix(self.table@, p) == Self::tbl_ix(pre.table@, p));
                                let i = Self::tbl_ix(pre.table@, p);
                                assert(pre.table@[i].0 == p);
                                assert(self.table@[i] == pre.table@[i]);
                                if pre.table@[i].1.frame_id == f {
                                    assert(Self::tbl_frame(pre.table@, f as int));
                                    assert(pre.frame_bits.bit(f as int));
                                }
                            }
                            assert forall|p: u8| p != page_id && pre.is_resident(p)
                                implies (#[trigger] self.page_of(p)).same_state(pre.page_of(p)) by {
                                assert(self.page_of(p) == pre.page_of(p));
                                QcPager::lemma_same_state_refl(self.page_of(p), pre.page_of(p));
                            }
                            // tracker invariants
                            assert forall|pid2: u8| #[trigger] self.lru().contains(pid2)
                                implies self.is_resident(pid2) && self.pin_of(pid2) == 0 by {
                                assert(pre.lru().contains(pid2));
                                assert(pid2 != page_id);
                            }
                            assert forall|i: int|
                                0 <= i < self.table@.len()
                                    && (#[trigger] self.table@[i]).1.ref_num == 0
                                implies self.lru().contains(self.table@[i].0) by {
                                assert(i < pre.table@.len());
                                pre.lemma_entry_facts(i);
                            }
                            assert(self.wf());
                            assert forall|p: u8| 0 <= p < pre.page_count()
                                implies (#[trigger] self.stored_page(p)).same_state(
                                    pre.stored_page(p)) by {
                                QcPager::lemma_same_state_refl(
                                    self.stored_page(p), pre.stored_page(p));
                            }
                        }
                        Ok(f)
                    },
                    None => {
                        proof {
                            assert(!pre.has_free_frame());
                        }
                        let vo = self.tracer.victim();
                        match vo {
                            None => {
                                proof {
                                    Self::lemma_same_pool_by_parts(pre, *self);
                                }
                                Err(QcBupoError::PoolExhausted)
                            },
                            Some(v) => {
                                proof {
                                    assert(pre.lru().contains(v)) by {
                                        assert(pre.lru()[0] == v);
                                    }
                                    assert(pre.is_resident(v) && pre.pin_of(v) == 0);
                                    assert(v != page_id);
                                }
                                // an eviction candidate is always resident
                                let vei = match self.find_entry(v) {
                                    Some(x) => x,
                                    None => {
                                        proof {
                                            assert(false);
                                        }
                                        return Err(QcBupoError::PoolExhausted);
                                    },
                                };
                                proof {
                                    self.lemma_entry_facts(vei as int);
                                    assert(pre.entry_index(v) == vei as int);
                                    assert(pre.frame_of(v) == self.table@[vei as int].1.frame_id);
                                }
                                let vfid: usize = self.table[vei].1.frame_id;
                                if self.frame[vfid].is_dirty() {
                                    let mut cleaned = self.frame[vfid].duplicate();
                                    proof {
                                        QcPager::lemma_same_state_congruent(
                                            cleaned, pre.frame@[vfid as int]);
                                    }
                                    cleaned.op_clear();
                                    proof {
                                        QcPager::lemma_bytes_congruent(
                                            cleaned, pre.frame@[vfid as int]);
                                    }
                                    self.storage.set(v as usize, cleaned);
                                }
                                let ghost st = self.storage@;
                                self.table.remove(vei);
                                let ghost t_rem = self.table@;
                                let pg = self.storage[page_id as usize].duplicate();
                                proof {
                                    assert(self.storage@[page_id as int]
                                        == pre.storage@[page_id as int]);
                                    QcPager::lemma_same_state_congruent(
                                        pg, pre.storage@[page_id as int]);
                                }
                                self.frame.set(vfid, pg);
                                self.table.push((page_id, QcBuffItem::new(vfid, 1)));
                                proof {
                                    self.lemma_fetch_evict_post(
                                        pre, page_id, v, vei as int, vfid as int, st, t_rem);
                                }
                                Ok(vfid)
                            },
                        }
                    },
                }
            },
        }
    }

    /// State of the pool after an eviction: the victim's entry is gone (its
    /// buffer written back when it was dirty), its frame reloaded from the
    /// backing store for the requested page, which is resident with pin 1.
    #[verifier::rlimit(100)]
    proof fn lemma_fetch_evict_post(
        self,
        pre: Self,
        page_id: u8,
        v: u8,
        vei: int,
        vfid: int,
        st: Seq<QcPager>,
        t_rem: Seq<(u8, QcBuffItem)>,
    )
        requires
            pre.wf(),
            !pre.is_resident(page_id),
            page_id < pre.page_count(),
            pre.lru().len() > 0,
            v == pre.lru()[0],
            pre.is_resident(v),
            pre.pin_of(v) == 0,
            0 <= vei < pre.table@.len(),
            pre.table@[vei].0 == v,
            pre.entry_index(v) == vei,
            vfid == pre.table@[vei].1.frame_id,
            st.len() == pre.storage@.len(),
            pre.frame@[vfid].spec_dirty() ==> {
                &&& st[v as int].bytes() == pre.frame@[vfid].bytes()
                &&& st[v as int].wf()
                &&& !st[v as int].spec_dirty()
            },
            !pre.frame@[vfid].spec_dirty() ==> st == pre.storage@,
            forall|p: int| 0 <= p < st.len() && p != v ==> #[trigger] st[p] == pre.storage@[p],
            t_rem == pre.table@.remove(vei),
            self.storage@ == st,
            self.table@ == t_rem.push(
                (page_id, QcBuffItem { frame_id: vfid as usize, ref_num: 1i32 })),
            self.frame@.len() == pre.frame@.len(),
            forall|ff: int|
                0 <= ff < pre.frame@.len() && ff != vfid
                    ==> #[trigger] self.frame@[ff] == pre.frame@[ff],
            self.frame@[vfid].same_state(pre.storage@[page_id as int]),
            self.frame_bits == pre.frame_bits,
            self.tracer.wf(),
            self.tracer.spec_cap() == pre.capacity(),
            self.lru() == pre.lru().drop_first(),
            !self.lru().contains(v),
            forall|p: u8| p != v ==> #[trigger] self.lru().contains(p) == pre.lru().contains(p),
        ensures
            self.wf(),
            self.capacity() == pre.capacity(),
            self.page_count() == pre.page_count(),
            self.frame_of(page_id) == pre.frame_of(v),
            !self.is_resident(v),
            self.is_resident(page_id),
            self.pin_of(page_id) == 1,
            self.page_of(page_id).same_state(pre.stored_page(page_id)),
            forall|p: u8|
                p != page_id && p != v
                    ==> #[trigger] self.is_resident(p) == pre.is_resident(p),
            forall|p: u8|
                p != page_id && p != v && pre.is_resident(p)
                    ==> #[trigger] self.frame_of(p) == pre.frame_of(p)
                        && self.pin_of(p) == pre.pin_of(p)
                        && self.page_of(p).same_state(pre.page_of(p)),
            pre.frame@[vfid].spec_dirty() ==> {
                &&& self.stored_page(v).bytes() == pre.page_of(v).bytes()
                &&& !self.stored_page(v).spec_dirty()
            },
            !pre.frame@[vfid].spec_dirty()
                ==> self.stored_page(v).same_state(pre.stored_page(v)),
            forall|p: u8|
                p != v && 0 <= p < pre.page_count()
                    ==> (#[trigger] self.stored_page(p)).same_state(pre.stored_page(p)),
            pre.page_of(v).spec_dirty() == pre.frame@[vfid].spec_dirty(),
    {
        let e = (page_id, QcBuffItem { frame_id: vfid as usize, ref_num: 1i32 });
        assert(v != page_id);
        pre.lemma_entry_facts(vei);
        assert(pre.frame_of(v) == vfid);
        assert(pre.page_of(v) == pre.frame@[vfid]);
        Self::lemma_table_remove(pre.table@, t_rem, vei);
        assert(!Self::tbl_has(t_rem, page_id));
        Self::lemma_table_push(t_rem, self.table@, e);
        assert(self.table@[t_rem.len() as int] == e);
        assert(Self::tbl_ix(self.table@, page_id) == t_rem.len());
        assert(self.frame_of(page_id) == vfid && self.pin_of(page_id) == 1);
        assert(self.page_of(page_id) == self.frame@[vfid]);
        assert(self.page_of(page_id).same_state(pre.stored_page(page_id)));

        // frame ids distinct in the final table
        assert(!Self::tbl_frame(t_rem, vfid));
        assert forall|x: int, y: int| 0 <= x < y < self.table@.len()
            implies (#[trigger] self.table@[x]).1.frame_id
                != (#[trigger] self.table@[y]).1.frame_id by {
            if y == self.table@.len() - 1 {
                assert(self.table@[x] == t_rem[x]);
                if t_rem[x].1.frame_id == vfid {
                    assert(Self::tbl_frame(t_rem, vfid));
                }
            } else {
                assert(self.table@[x] == t_rem[x] && self.table@[y] == t_rem[y]);
            }
        }

        // untouched entries keep their abstraction and their frame's page
        assert forall|p: u8| p != page_id && p != v && pre.is_resident(p)
            implies #[trigger] self.frame_of(p) == pre.frame_of(p)
                && self.pin_of(p) == pre.pin_of(p)
                && self.frame_of(p) != vfid by {
            assert(Self::tbl_has(t_rem, p));
            assert(Self::tbl_ix(self.table@, p) == Self::tbl_ix(t_rem, p));
            assert(t_rem[Self::tbl_ix(t_rem, p)] == pre.table@[Self::tbl_ix(pre.table@, p)]);
            assert(self.table@[Self::tbl_ix(self.table@, p)] == t_rem[Self::tbl_ix(t_rem, p)]);
            if self.frame_of(p) == vfid {
                assert(Self::tbl_frame(t_rem, vfid)) by {
                    assert(t_rem[Self::tbl_ix(t_rem, p)].1.frame_id == vfid);
                }
            }
        }
        assert forall|p: u8| p != page_id && p != v && pre.is_resident(p)
            implies (#[trigger] self.page_of(p)).same_state(pre.page_of(p)) by {
            assert(self.page_of(p) == pre.page_of(p));
            QcPager::lemma_same_state_refl(self.page_of(p), pre.page_of(p));
        }

        // storage
        assert forall|p: u8| p != v && 0 <= p < pre.page_count()
            implies (#[trigger] self.stored_page(p)).same_state(pre.stored_page(p)) by {
            assert(st[p as int] == pre.storage@[p as int]);
            QcPager::lemma_same_state_refl(self.stored_page(p), pre.stored_page(p));
        }
        if !pre.frame@[vfid].spec_dirty() {
            QcPager::lemma_same_state_refl(self.stored_page(v), pre.stored_page(v));
        }

        // well-formedness of the final pool
        QcPager::lemma_same_state_congruent(self.frame@[vfid], pre.storage@[page_id as int]);
        assert forall|i: int| 0 <= i < self.table@.len() implies {
            &&& (#[trigger] self.table@[i]).1.frame_id < self.capacity()
            &&& self.table@[i].1.ref_num >= 0
            &&& self.table@[i].0 < self.page_count()
        } by {
            if i < t_rem.len() {
                let a = if i < vei { i } else { i + 1 };
                assert(self.table@[i] == pre.table@[a]);
            }
        }
        assert forall|f2: int| 0 <= f2 < self.capacity()
            implies ((#[trigger] self.frame_bits.bit(f2))
                <==> Self::tbl_frame(self.table@, f2)) by {
            if f2 == vfid {
                assert(self.table@[t_rem.len() as int].1.frame_id == vfid);
                assert(Self::tbl_frame(self.table@, f2));
                assert(pre.frame_bits.bit(f2)) by {
                    assert(Self::tbl_frame(pre.table@, f2)) by {
                        assert(pre.table@[vei].1.frame_id == vfid);
                    }
                }
            } else {
                if Self::tbl_frame(pre.table@, f2) {
                    assert(Self::tbl_frame(t_rem, f2));
                    let i = choose|i: int|
                        0 <= i < t_rem.len() && (#[trigger] t_rem[i]).1.frame_id == f2;
                    assert(self.table@[i].1.frame_id == f2);
                    assert(Self::tbl_frame(self.table@, f2));
                }
                if Self::tbl_frame(self.table@, f2) {
                    let i = choose|i: int|
                        0 <= i < self.table@.len()
                            && (#[trigger] self.table@[i]).1.frame_id == f2;
                    assert(i < t_rem.len());
                    assert(t_rem[i].1.frame_id == f2);
                    assert(Self::tbl_frame(t_rem, f2));
                    assert(Self::tbl_frame(pre.table@, f2));
                }
            }
        }
        assert forall|ff: int| 0 <= ff < self.capacity()
            implies (#[trigger] self.frame@[ff]).wf() by {
            if ff != vfid {
                assert(self.frame@[ff] == pre.frame@[ff]);
            }
        }
        assert forall|pid2: u8| #[trigger] self.lru().contains(pid2)
            implies self.is_resident(pid2) && self.pin_of(pid2) == 0 by {
            assert(pid2 != v);
            assert(pre.lru().contains(pid2));
            assert(pre.is_resident(pid2) && pre.pin_of(pid2) == 0);
            assert(pid2 != page_id);
            assert(self.frame_of(pid2) == pre.frame_of(pid2));
            assert(self.pin_of(pid2) == pre.pin_of(pid2));
        }
        assert forall|i: int|
            0 <= i < self.table@.len() && (#[trigger] self.table@[i]).1.ref_num == 0
            implies self.lru().contains(self.table@[i].0) by {
            assert(i < t_rem.len());
            let a = if i < vei { i } else { i + 1 };
            assert(self.table@[i] == pre.table@[a]);
            assert(a != vei);
            pre.lemma_entry_facts(a);
            assert(pre.lru().contains(pre.table@[a].0));
            if a < vei {
                assert(pre.table@[a].0 != pre.table@[vei].0);
            } else {
                assert(pre.table@[vei].0 != pre.table@[a].0);
            }
        }
        assert(self.wf());
    }

    // ---- flush ----

    /// Write the resident page's buffer back to the backing store and clear
    /// its dirty flag.
    ///
    /// Fails with `NotFound` when the page is not resident, and with `Busy`
    /// when its pin count is nonzero (a writer may still be mutating it
    /// through an outstanding fetch); in both cases nothing is written.
    pub fn flush_page(&mut self, page_id: u8) -> (r: Result<(), QcBupoError>)
        requires
            old(self).wf(),
        ensures
            final(self).wf(),
            !old(self).is_resident(page_id) ==> {
                &&& r == Err::<(), QcBupoError>(QcBupoError::NotFound)
                &&& Self::same_pool_state(*old(self), *final(self))
            },
            old(self).is_resident(page_id) && old(self).pin_of(page_id) > 0 ==> {
                &&& r == Err::<(), QcBupoError>(QcBupoError::Busy)
                &&& Self::same_pool_state(*old(self), *final(self))
            },
            old(self).is_resident(page_id) && old(self).pin_of(page_id) == 0 ==> {
                &&& r == Ok::<(), QcBupoError>(())
                &&& final(self).stored_page(page_id).bytes() == old(self).page_of(page_id).bytes()
                &&& !final(self).stored_page(page_id).spec_dirty()
                &&& forall|p: u8|
                    p != page_id && 0 <= p < old(self).page_count()
                        ==> (#[trigger] final(self).stored_page(p)).same_state(
                            old(self).stored_page(p))
                &&& final(self).page_of(page_id).bytes() == old(self).page_of(page_id).bytes()
                &&& !final(self).page_of(page_id).spec_dirty()
                &&& forall|p: u8| #[trigger] final(self).is_resident(p) == old(self).is_resident(p)
                &&& forall|p: u8|
                    #![trigger final(self).frame_of(p)]
                    #![trigger final(self).pin_of(p)]
                    old(self).is_resident(p)
                        ==> final(self).frame_of(p) == old(self).frame_of(p)
                            && final(self).pin_of(p) == old(self).pin_of(p)
                &&& forall|p: u8|
                    p != page_id && old(self).is_resident(p)
                        ==> (#[trigger] final(self).page_of(p)).same_state(old(self).page_of(p))
                &&& final(self).lru() == old(self).lru()
                &&& final(self).capacity() == old(self).capacity()
                &&& final(self).page_count() == old(self).page_count()
            },
    {
        let ghost pre = *old(self);
        match self.find_entry(page_id) {
            None => {
                proof {
                    Self::lemma_same_state_everywhere(pre);
                }
                Err(QcBupoError::NotFound)
            },
            Some(ei) => {
                proof {
                    self.lemma_entry_facts(ei as int);
                }
                let fid: usize = self.table[ei].1.frame_id;
                if self.table[ei].1.ref_num > 0 {
                    proof {
                        Self::lemma_same_state_everywhere(pre);
                    }
                    return Err(QcBupoError::Busy);
                }
                let mut cleaned = self.frame[fid].duplicate();
                proof {
                    QcPager::lemma_same_state_congruent(cleaned, pre.frame@[fid as int]);
                }
                cleaned.op_clear();
                proof {
                    QcPager::lemma_bytes_congruent(cleaned, pre.frame@[fid as int]);
                }
                let stored = cleaned.duplicate();
                self.storage.set(page_id as usize, stored);
                self.frame.set(fid, cleaned);
                proof {
                    QcPager::lemma_same_state_congruent(stored, cleaned);
                    self.lemma_frame_update_frames(pre, fid as int);
                    assert(final(self).wf()) by {
                        assert(forall|p: int|
                            0 <= p < self.storage@.len() && p != page_id
                                ==> self.storage@[p] == pre.storage@[p]);
                    }
                    assert forall|p: u8|
                        p != page_id && 0 <= p < pre.page_count()
                            implies (#[trigger] self.stored_page(p)).same_state(
                                pre.stored_page(p)) by {
                        QcPager::lemma_same_state_refl(pre.stored_page(p), self.stored_page(p));
                    }
                    assert forall|p: u8| p != page_id && pre.is_resident(p)
                        implies (#[trigger] self.page_of(p)).same_state(pre.page_of(p)) by {
                        let j = choose|j: int|
                            0 <= j < pre.table@.len() && (#[trigger] pre.table@[j]).0 == p;
                        pre.lemma_entry_facts(j);
                        if j < ei as int {
                            assert(pre.table@[j].1.frame_id != pre.table@[ei as int].1.frame_id);
                        } else {
                            assert(j != ei as int);
                            assert(pre.table@[ei as int].1.frame_id != pre.table@[j].1.frame_id);
                        }
                        assert(pre.frame_of(p) != fid);
                        assert(self.page_of(p) == pre.page_of(p));
                        QcPager::lemma_same_state_refl(self.page_of(p), pre.page_of(p));
                    }
                }
                Ok(())
            },
        }
    }

    /// A pool compared with itself is in the same state everywhere.
    proof fn lemma_same_state_everywhere(p: Self)
        ensures
            Self::same_pool_state(p, p),
    {
        assert forall|q: u8| p.is_resident(q)
            implies (#[trigger] p.page_of(q)).same_state(p.page_of(q)) by {
            QcPager::lemma_same_state_refl(p.page_of(q), p.page_of(q));
        }
        assert forall|q: u8| 0 <= q < p.page_count()
            implies (#[trigger] p.stored_page(q)).same_state(p.stored_page(q)) by {
            QcPager::lemma_same_state_refl(p.stored_page(q), p.stored_page(q));
        }
    }

    /// After overwriting only frame `fid`'s page (same table), every page
    /// table abstraction is unchanged and the other frames keep their pages.
    proof fn lemma_frame_update_frames(self, pre: Self, fid: int)
        requires
            pre.wf(),
            self.table@ == pre.table@,
            self.tracer == pre.tracer,
            self.frame_bits == pre.frame_bits,
            self.frame@.len() == pre.frame@.len(),
            self.storage@.len() == pre.storage@.len(),
            0 <= fid < pre.capacity(),
            forall|f: int|
                0 <= f < pre.capacity() && f != fid
                    ==> #[trigger] self.frame@[f] == pre.frame@[f],
            self.frame@[fid].wf(),
        ensures
            forall|p: u8| #[trigger] self.is_resident(p) == pre.is_resident(p),
            forall|p: u8|
                pre.is_resident(p)
                    ==> #[trigger] self.frame_of(p) == pre.frame_of(p)
                        && self.pin_of(p) == pre.pin_of(p)
                        && self.entry_index(p) == pre.entry_index(p),
            forall|p: u8|
                pre.is_resident(p) && pre.frame_of(p) != fid
                    ==> #[trigger] self.page_of(p) == pre.page_of(p),
            forall|f: int| 0 <= f < pre.capacity() ==> (#[trigger] self.frame@[f]).wf(),
            forall|i: int, j: int|
                0 <= i < j < self.table@.len()
                    ==> (#[trigger] self.table@[i]).0 != (#[trigger] self.table@[j]).0,
    {
        assert forall|p: u8| pre.is_resident(p)
            implies #[trigger] self.frame_of(p) == pre.frame_of(p)
                && self.pin_of(p) == pre.pin_of(p)
                && self.entry_index(p) == pre.entry_index(p) by {
            let i = choose|i: int|
                0 <= i < pre.table@.len() && (#[trigger] pre.table@[i]).0 == p;
            pre.lemma_entry_facts(i);
            self.lemma_entry_facts(i);
        }
        assert forall|f: int| 0 <= f < pre.capacity()
            implies (#[trigger] self.frame@[f]).wf() by {
            if f != fid {
                assert(self.frame@[f] == pre.frame@[f]);
            }
        }
    }

    /// After swapping only frame `fid`'s page for one in the same state,
    /// the pool is observationally unchanged.
    proof fn lemma_same_after_page_swap(self, pre: Self, pid: u8, fid: int)
        requires
            pre.wf(),
            self.table@ == pre.table@,
            self.tracer == pre.tracer,
            self.frame_bits == pre.frame_bits,
            self.frame@.len() == pre.frame@.len(),
            self.storage@ == pre.storage@,
            0 <= fid < pre.capacity(),
            forall|f: int|
                0 <= f < pre.capacity() && f != fid
                    ==> #[trigger] self.frame@[f] == pre.frame@[f],
            self.frame@[fid].wf(),
            pre.is_resident(pid),
            pre.frame_of(pid) == fid,
            self.frame@[fid].same_state(pre.frame@[fid]),
        ensures
            Self::same_pool_state(pre, self),
    {
        self.lemma_frame_update_frames(pre, fid);
        assert forall|p: u8| pre.is_resident(p)
            implies (#[trigger] pre.page_of(p)).same_state(self.page_of(p)) by {
            if pre.frame_of(p) == fid {
                QcPager::lemma_same_state_refl(self.page_of(p), pre.page_of(p));
            } else {
                assert(self.page_of(p) == pre.page_of(p));
                QcPager::lemma_same_state_refl(self.page_of(p), pre.page_of(p));
            }
        }
        assert forall|p: u8| 0 <= p < pre.page_count()
            implies (#[trigger] pre.stored_page(p)).same_state(self.stored_page(p)) by {
            QcPager::lemma_same_state_refl(pre.stored_page(p), self.stored_page(p));
        }
    }

    /// When a resident page is not yet an eviction candidate, the tracker
    /// has room left for it.
    proof fn lemma_lru_lt(self, pid: u8)
        requires
            self.wf(),
            self.is_resident(pid),
            !self.lru().contains(pid),
        ensures
            self.lru().len() < self.capacity(),
    {
        broadcast use vstd::seq_lib::seq_to_set_is_finite;
        broadcast use vstd::set::axiom_set_remove_len;

        self.tracer.lemma_wf_facts();
        let pids = Seq::new(self.table@.len(), |i: int| self.table@[i].0);
        assert(pids.no_duplicates());
        pids.unique_seq_to_set();
        self.lru().unique_seq_to_set();
        let j = choose|j: int|
            0 <= j < self.table@.len() && (#[trigger] self.table@[j]).0 == pid;
        assert(pids[j] == pid);
        assert(pids.to_set().contains(pid));
        let target = pids.to_set().remove(pid);
        assert forall|x: u8| self.lru().to_set().contains(x)
            implies target.contains(x) by {
            assert(self.lru().contains(x));
            assert(self.is_resident(x));
            let i = choose|i: int|
                0 <= i < self.table@.len() && (#[trigger] self.table@[i]).0 == x;
            assert(pids[i] == x);
            assert(pids.to_set().contains(x));
        }
        lemma_len_subset(self.lru().to_set(), target);
        self.lemma_table_len();
    }

    // ---- pin bookkeeping ----

    /// Decrement the pin count of `page_id`; when it reaches zero the page
    /// becomes an eviction candidate at the most-recently-used end.
    ///
    /// An unpin of a page that is not resident, or whose pin count is
    /// already zero (a caller bug), is reported with `NotFound` and changes
    /// nothing.
    pub fn unpin_page(&mut self, page_id: u8) -> (r: Result<(), QcBupoError>)
        requires
            old(self).wf(),
        ensures
            final(self).wf(),
            !old(self).is_resident(page_id) || old(self).pin_of(page_id) == 0 ==> {
                &&& r == Err::<(), QcBupoError>(QcBupoError::NotFound)
                &&& Self::same_pool_state(*old(self), *final(self))
            },
            old(self).is_resident(page_id) && old(self).pin_of(page_id) > 0 ==> {
                &&& r == Ok::<(), QcBupoError>(())
                &&& forall|p: u8| #[trigger] final(self).is_resident(p) == old(self).is_resident(p)
                &&& final(self).pin_of(page_id) == old(self).pin_of(page_id) - 1
                &&& forall|p: u8|
                    old(self).is_resident(p)
                        ==> #[trigger] final(self).frame_of(p) == old(self).frame_of(p)
                &&& forall|p: u8|
                    p != page_id && old(self).is_resident(p)
                        ==> #[trigger] final(self).pin_of(p) == old(self).pin_of(p)
                &&& forall|p: u8|
                    old(self).is_resident(p)
                        ==> (#[trigger] final(self).page_of(p)).same_state(old(self).page_of(p))
                &&& (old(self).pin_of(page_id) == 1
                    ==> final(self).lru() == old(self).lru().push(page_id))
                &&& (old(self).pin_of(page_id) > 1 ==> final(self).lru() == old(self).lru())
                &&& forall|p: u8|
                    0 <= p < old(self).page_count()
                        ==> (#[trigger] final(self).stored_page(p)).same_state(
                            old(self).stored_page(p))
                &&& final(self).capacity() == old(self).capacity()
                &&& final(self).page_count() == old(self).page_count()
            },
    {
        let ghost pre = *old(self);
        match self.find_entry(page_id) {
            None => {
                proof {
                    Self::lemma_same_state_everywhere(pre);
                }
                Err(QcBupoError::NotFound)
            },
            Some(ei) => {
                proof {
                    self.lemma_entry_facts(ei as int);
                }
                let fid: usize = self.table[ei].1.frame_id;
                let pin: i32 = self.table[ei].1.ref_num;
                if pin == 0 {
                    proof {
                        Self::lemma_same_state_everywhere(pre);
                    }
                    return Err(QcBupoError::NotFound);
                }
                self.table.set(ei, (page_id, QcBuffItem::new(fid, pin - 1)));
                proof {
                    self.lemma_table_entry_update(pre, ei as int);
                }
                if pin == 1 {
                    proof {
                        pre.lemma_lru_lt(page_id);
                        assert(self.tracer@.len() < self.tracer.spec_cap());
                        assert(!self.tracer@.contains(page_id));
                    }
                    let ghost mid = *self;
                    let inserted = self.tracer.insert(page_id);
                    proof {
                        assert(inserted is Some);
                        assert(self.lru() == pre.lru().push(page_id));
                        assert forall|pid2: u8| #[trigger] self.lru().contains(pid2)
                            implies self.is_resident(pid2) && self.pin_of(pid2) == 0 by {
                            if pid2 != page_id {
                                assert(pre.lru().contains(pid2));
                                assert(mid.frame_of(pid2) == pre.frame_of(pid2));
                                assert(mid.pin_of(pid2) == pre.pin_of(pid2));
                            } else {
                                assert(self.pin_of(page_id) == 0);
                            }
                        }
                        assert forall|i: int|
                            0 <= i < self.table@.len() && (#[trigger] self.table@[i]).1.ref_num == 0
                            implies self.lru().contains(self.table@[i].0) by {
                            if i != ei as int {
                                pre.lemma_entry_facts(i);
                                assert(pre.lru().contains(pre.table@[i].0));
                                assert(self.lru().contains(pre.table@[i].0)) by {
                                    assert(pre.lru()[pre.lru().index_of(pre.table@[i].0)]
                                        == pre.table@[i].0);
                                }
                            } else {
                                assert(self.lru().last() == page_id);
                            }
                        }
                        assert(self.wf());
                        self.lemma_table_entry_update(pre, ei as int);
                        Self::lemma_pool_preserved_after_pin_change(pre, *self, ei as int);
                    }
                } else {
                    proof {
                        assert forall|pid2: u8| #[trigger] self.lru().contains(pid2)
                            implies self.is_resident(pid2) && self.pin_of(pid2) == 0 by {
                            assert(pre.lru().contains(pid2));
                            assert(self.frame_of(pid2) == pre.frame_of(pid2));
                            assert(self.pin_of(pid2) == pre.pin_of(pid2));
                            assert(pid2 != page_id);
                        }
                        assert forall|i: int|
                            0 <= i < self.table@.len() && (#[trigger] self.table@[i]).1.ref_num == 0
                            implies self.lru().contains(self.table@[i].0) by {
                            if i != ei as int {
                                pre.lemma_entry_facts(i);
                            }
                        }
                        assert(self.wf());
                        Self::lemma_pool_preserved_after_pin_change(pre, *self, ei as int);
                    }
                }
                Ok(())
            },
        }
    }

    /// After replacing entry `ei` with one holding the same page id and
    /// frame, residency and every other page's pin stay as they were, and
    /// every page keeps its state.
    proof fn lemma_table_entry_update(self, pre: Self, ei: int)
        requires
            pre.wf(),
            0 <= ei < pre.table@.len(),
            self.table@.len() == pre.table@.len(),
            self.table@[ei].0 == pre.table@[ei].0,
            self.table@[ei].1.frame_id == pre.table@[ei].1.frame_id,
            forall|i: int|
                0 <= i < pre.table@.len() && i != ei
                    ==> #[trigger] self.table@[i] == pre.table@[i],
            self.frame@ == pre.frame@,
            self.storage@ == pre.storage@,
            self.frame_bits == pre.frame_bits,
        ensures
            forall|p: u8| #[trigger] self.is_resident(p) == pre.is_resident(p),
            forall|p: u8|
                pre.is_resident(p)
                    ==> #[trigger] self.frame_of(p) == pre.frame_of(p)
                        && self.entry_index(p) == pre.entry_index(p)
                        && self.page_of(p) == pre.page_of(p),
            forall|p: u8|
                p != pre.table@[ei].0 && pre.is_resident(p)
                    ==> #[trigger] self.pin_of(p) == pre.pin_of(p),
            self.entry_index(pre.table@[ei].0) == ei,
            self.pin_of(pre.table@[ei].0) == self.table@[ei].1.ref_num,
            forall|i: int, j: int|
                0 <= i < j < self.table@.len()
                    ==> (#[trigger] self.table@[i]).0 != (#[trigger] self.table@[j]).0,
            forall|i: int, j: int|
                0 <= i < j < self.table@.len()
                    ==> (#[trigger] self.table@[i]).1.frame_id
                        != (#[trigger] self.table@[j]).1.frame_id,
            forall|f: int|
                0 <= f < pre.capacity()
                    ==> ((#[trigger] self.frame_bits.bit(f)) <==> Self::tbl_frame(self.table@, f)),
    {
        assert forall|f: int| 0 <= f < pre.capacity()
            implies ((#[trigger] self.frame_bits.bit(f)) <==> Self::tbl_frame(self.table@, f)) by {
            if Self::tbl_frame(pre.table@, f) {
                let i = choose|i: int|
                    0 <= i < pre.table@.len()
                        && (#[trigger] pre.table@[i]).1.frame_id == f;
                assert(self.table@[i].1.frame_id == f);
            }
            if Self::tbl_frame(self.table@, f) {
                let i = choose|i: int|
                    0 <= i < self.table@.len()
                        && (#[trigger] self.table@[i]).1.frame_id == f;
                assert(pre.table@[i].1.frame_id == f);
            }
        }
        assert forall|i: int, j: int| 0 <= i < j < self.table@.len()
            implies (#[trigger] self.table@[i]).0 != (#[trigger] self.table@[j]).0
                && (#[trigger] self.table@[i]).1.frame_id
                    != (#[trigger] self.table@[j]).1.frame_id by {
            assert(self.table@[i].0 == pre.table@[i].0);
            assert(self.table@[j].0 == pre.table@[j].0);
            assert(self.table@[i].1.frame_id == pre.table@[i].1.frame_id);
            assert(self.table@[j].1.frame_id == pre.table@[j].1.frame_id);
        }
        assert forall|p: u8| #[trigger] self.is_resident(p) == pre.is_resident(p) by {
            if pre.is_resident(p) {
                let i = choose|i: int|
                    0 <= i < pre.table@.len() && (#[trigger] pre.table@[i]).0 == p;
                assert(self.table@[i].0 == p);
            }
            if self.is_resident(p) {
                let i = choose|i: int|
                    0 <= i < self.table@.len() && (#[trigger] self.table@[i]).0 == p;
                assert(pre.table@[i].0 == p);
            }
        }
        assert forall|p: u8| pre.is_resident(p)
            implies #[trigger] self.frame_of(p) == pre.frame_of(p)
                && self.entry_index(p) == pre.entry_index(p)
                && self.page_of(p) == pre.page_of(p) by {
            let i = choose|i: int|
                0 <= i < pre.table@.len() && (#[trigger] pre.table@[i]).0 == p;
            pre.lemma_entry_facts(i);
            assert(self.table@[i].0 == p);
            self.lemma_entry_facts(i);
        }
        assert forall|p: u8| p != pre.table@[ei].0 && pre.is_resident(p)
            implies #[trigger] self.pin_of(p) == pre.pin_of(p) by {
            let i = choose|i: int|
                0 <= i < pre.table@.len() && (#[trigger] pre.table@[i]).0 == p;
            pre.lemma_entry_facts(i);
            assert(self.table@[i].0 == p);
            self.lemma_entry_facts(i);
            assert(i != ei);
            assert(self.table@[i] == pre.table@[i]);
        }
        self.lemma_entry_facts(ei);
    }

    /// The unchanged observations after only a pin count changed.
    proof fn lemma_pool_preserved_after_pin_change(pre: Self, cur: Self, ei: int)
        requires
            pre.wf(),
            0 <= ei < pre.table@.len(),
            cur.table@.len() == pre.table@.len(),
            cur.table@[ei].0 == pre.table@[ei].0,
            cur.table@[ei].1.frame_id == pre.table@[ei].1.frame_id,
            forall|i: int|
                0 <= i < pre.table@.len() && i != ei
                    ==> #[trigger] cur.table@[i] == pre.table@[i],
            cur.frame@ == pre.frame@,
            cur.storage@ == pre.storage@,
            cur.frame_bits == pre.frame_bits,
        ensures
            forall|p: u8|
                pre.is_resident(p)
                    ==> (#[trigger] cur.page_of(p)).same_state(pre.page_of(p)),
            forall|p: u8|
                0 <= p < pre.page_count()
                    ==> (#[trigger] cur.stored_page(p)).same_state(pre.stored_page(p)),
    {
        cur.lemma_table_entry_update(pre, ei);
        assert forall|p: u8| pre.is_resident(p)
            implies (#[trigger] cur.page_of(p)).same_state(pre.page_of(p)) by {
            QcPager::lemma_same_state_refl(cur.page_of(p), pre.page_of(p));
        }
        assert forall|p: u8| 0 <= p < pre.page_count()
            implies (#[trigger] cur.stored_page(p)).same_state(pre.stored_page(p)) by {
            QcPager::lemma_same_state_refl(cur.stored_page(p), pre.stored_page(p));
        }
    }

    /// Two pools whose parts agree are observationally equal.
    proof fn lemma_same_pool_by_parts(pre: Self, cur: Self)
        requires
            cur.table@ == pre.table@,
            cur.frame@ == pre.frame@,
            cur.storage@ == pre.storage@,
            cur.lru() == pre.lru(),
        ensures
            Self::same_pool_state(pre, cur),
    {
        assert forall|p: u8| pre.is_resident(p)
            implies (#[trigger] pre.page_of(p)).same_state(cur.page_of(p))
                && pre.frame_of(p) == cur.frame_of(p)
                && pre.pin_of(p) == cur.pin_of(p) by {
            QcPager::lemma_same_state_refl(pre.page_of(p), cur.page_of(p));
        }
        assert forall|p: u8| 0 <= p < pre.page_count()
            implies (#[trigger] pre.stored_page(p)).same_state(cur.stored_page(p)) by {
            QcPager::lemma_same_state_refl(pre.stored_page(p), cur.stored_page(p));
        }
    }

    /// Appending a fresh page id to the table extends residency by exactly
    /// that page and moves nothing else.
    proof fn lemma_table_push(pre: Seq<(u8, QcBuffItem)>, cur: Seq<(u8, QcBuffItem)>, e: (u8, QcBuffItem))
        requires
            forall|x: int, y: int|
                0 <= x < y < pre.len() ==> (#[trigger] pre[x]).0 != (#[trigger] pre[y]).0,
            !Self::tbl_has(pre, e.0),
            cur == pre.push(e),
        ensures
            forall|x: int, y: int|
                0 <= x < y < cur.len() ==> (#[trigger] cur[x]).0 != (#[trigger] cur[y]).0,
            forall|p: u8| #[trigger] Self::tbl_has(cur, p) == (p == e.0 || Self::tbl_has(pre, p)),
            Self::tbl_ix(cur, e.0) == pre.len(),
            forall|p: u8|
                p != e.0 && Self::tbl_has(pre, p)
                    ==> #[trigger] Self::tbl_ix(cur, p) == Self::tbl_ix(pre, p),
    {
        assert forall|x: int, y: int| 0 <= x < y < cur.len()
            implies (#[trigger] cur[x]).0 != (#[trigger] cur[y]).0 by {
            if y == cur.len() - 1 {
                assert(cur[x] == pre[x]);
                if cur[x].0 == e.0 {
                    assert(Self::tbl_has(pre, e.0));
                }
            } else {
                assert(cur[x] == pre[x] && cur[y] == pre[y]);
            }
        }
        assert forall|p: u8|
            #[trigger] Self::tbl_has(cur, p) == (p == e.0 || Self::tbl_has(pre, p)) by {
            if Self::tbl_has(cur, p) {
                let i = choose|i: int| 0 <= i < cur.len() && (#[trigger] cur[i]).0 == p;
                if i < pre.len() {
                    assert(pre[i].0 == p);
                }
            }
            if p == e.0 {
                assert(cur[pre.len() as int].0 == p);
            }
            if Self::tbl_has(pre, p) {
                let i = choose|i: int| 0 <= i < pre.len() && (#[trigger] pre[i]).0 == p;
                assert(cur[i].0 == p);
            }
        }
        assert(cur[pre.len() as int].0 == e.0);
        let w = Self::tbl_ix(cur, e.0);
        assert(cur[w].0 == e.0);
        if w < pre.len() {
            assert(pre[w].0 == e.0);
            assert(Self::tbl_has(pre, e.0));
        }
        assert forall|p: u8| p != e.0 && Self::tbl_has(pre, p)
            implies #[trigger] Self::tbl_ix(cur, p) == Self::tbl_ix(pre, p) by {
            let i = Self::tbl_ix(pre, p);
            assert(pre[i].0 == p);
            assert(cur[i].0 == p);
            assert(Self::tbl_has(cur, p));
            let j = Self::tbl_ix(cur, p);
            assert(cur[j].0 == p);
            assert(j < pre.len());
            if i < j {
                assert(pre[i].0 != pre[j].0);
            } else if j < i {
                assert(pre[j].0 != pre[i].0);
            }
        }
    }

    /// Removing one table entry removes exactly that page from residency
    /// and moves nothing else.
    proof fn lemma_table_remove(pre: Seq<(u8, QcBuffItem)>, cur: Seq<(u8, QcBuffItem)>, vei: int)
        requires
            forall|x: int, y: int|
                0 <= x < y < pre.len() ==> (#[trigger] pre[x]).0 != (#[trigger] pre[y]).0,
            forall|x: int, y: int|
                0 <= x < y < pre.len()
                    ==> (#[trigger] pre[x]).1.frame_id != (#[trigger] pre[y]).1.frame_id,
            0 <= vei < pre.len(),
            cur == pre.remove(vei),
        ensures
            forall|x: int, y: int|
                0 <= x < y < cur.len() ==> (#[trigger] cur[x]).0 != (#[trigger] cur[y]).0,
            forall|x: int, y: int|
                0 <= x < y < cur.len()
                    ==> (#[trigger] cur[x]).1.frame_id != (#[trigger] cur[y]).1.frame_id,
            forall|p: u8|
                #[trigger] Self::tbl_has(cur, p)
                    == (Self::tbl_has(pre, p) && p != pre[vei].0),
            forall|p: u8|
                p != pre[vei].0 && Self::tbl_has(pre, p)
                    ==> cur[#[trigger] Self::tbl_ix(cur, p)] == pre[Self::tbl_ix(pre, p)],
            forall|f: int|
                #[trigger] Self::tbl_frame(cur, f)
                    == (Self::tbl_frame(pre, f) && f != pre[vei].1.frame_id),
    {
        assert forall|x: int, y: int| 0 <= x < y < cur.len()
            implies (#[trigger] cur[x]).0 != (#[trigger] cur[y]).0
                && (#[trigger] cur[x]).1.frame_id != (#[trigger] cur[y]).1.frame_id by {
            let a = if x < vei { x } else { x + 1 };
            let b = if y < vei { y } else { y + 1 };
            assert(cur[x] == pre[a] && cur[y] == pre[b]);
        }
        assert forall|p: u8|
            #[trigger] Self::tbl_has(cur, p)
                == (Self::tbl_has(pre, p) && p != pre[vei].0) by {
            if Self::tbl_has(cur, p) {
                let i = choose|i: int| 0 <= i < cur.len() && (#[trigger] cur[i]).0 == p;
                let a = if i < vei { i } else { i + 1 };
                assert(pre[a].0 == p);
                assert(a != vei);
                if a < vei {
                    assert(pre[a].0 != pre[vei].0);
                } else {
                    assert(pre[vei].0 != pre[a].0);
                }
            }
            if Self::tbl_has(pre, p) && p != pre[vei].0 {
                let i = choose|i: int| 0 <= i < pre.len() && (#[trigger] pre[i]).0 == p;
                assert(i != vei);
                if i < vei {
                    assert(cur[i].0 == p);
                } else {
                    assert(cur[i - 1].0 == p);
                }
            }
        }
        assert forall|p: u8| p != pre[vei].0 && Self::tbl_has(pre, p)
            implies cur[#[trigger] Self::tbl_ix(cur, p)] == pre[Self::tbl_ix(pre, p)] by {
            assert(Self::tbl_has(cur, p));
            let j = Self::tbl_ix(cur, p);
            assert(cur[j].0 == p);
            let a = if j < vei { j } else { j + 1 };
            assert(pre[a].0 == p);
            let i = Self::tbl_ix(pre, p);
            assert(pre[i].0 == p);
            if i < a {
                assert(pre[i].0 != pre[a].0);
            } else if a < i {
                assert(pre[a].0 != pre[i].0);
            }
            assert(cur[j] == pre[a]);
        }
        assert forall|f: int|
            #[trigger] Self::tbl_frame(cur, f)
                == (Self::tbl_frame(pre, f) && f != pre[vei].1.frame_id) by {
            if Self::tbl_frame(cur, f) {
                let i = choose|i: int| 0 <= i < cur.len() && (#[trigger] cur[i]).1.frame_id == f;
                let a = if i < vei { i } else { i + 1 };
                assert(pre[a].1.frame_id == f);
                if a < vei {
                    assert(pre[a].1.frame_id != pre[vei].1.frame_id);
                } else {
                    assert(a != vei);
                    assert(pre[vei].1.frame_id != pre[a].1.frame_id);
                }
            }
            if Self::tbl_frame(pre, f) && f != pre[vei].1.frame_id {
                let i = choose|i: int| 0 <= i < pre.len() && (#[trigger] pre[i]).1.frame_id == f;
                assert(i != vei);
                if i < vei {
                    assert(cur[i].1.frame_id == f);
                } else {
                    assert(cur[i - 1].1.frame_id == f);
                }
            }
        }
    }

    // ---- record access on a resident page ----

    /// Insert record `(k, v)` into resident page `page_id`.  This is the
    /// access path a fetched page grants; the page-level rejections
    /// (`DuplicateKey`, `CapacityExceeded`) pass through unchanged, and a
    /// page id that is not resident is refused with `NotFound`.
    #[verifier::rlimit(100)]
    pub fn save(&mut self, page_id: u8, k: u32, v: &Vec<u8>) -> (r: Result<usize, QcBupoError>)
        requires
            old(self).wf(),
        ensures
            final(self).wf(),
            !old(self).is_resident(page_id) ==> {
                &&& r == Err::<usize, QcBupoError>(QcBupoError::NotFound)
                &&& Self::same_pool_state(*old(self), *final(self))
            },
            old(self).is_resident(page_id) && v@.len() > 65535 ==> {
                &&& r == Err::<usize, QcBupoError>(QcBupoError::CapacityExceeded)
                &&& Self::same_pool_state(*old(self), *final(self))
            },
            old(self).is_resident(page_id) && v@.len() <= 65535
                && old(self).page_of(page_id).has_key(k) ==> {
                &&& r == Err::<usize, QcBupoError>(QcBupoError::DuplicateKey)
                &&& Self::same_pool_state(*old(self), *final(self))
            },
            old(self).is_resident(page_id) && v@.len() <= 65535
                && !old(self).page_of(page_id).has_key(k)
                && 8 + v@.len() > old(self).page_of(page_id).free_space() ==> {
                &&& r == Err::<usize, QcBupoError>(QcBupoError::CapacityExceeded)
                &&& Self::same_pool_state(*old(self), *final(self))
            },
            old(self).is_resident(page_id) && v@.len() <= 65535
                && !old(self).page_of(page_id).has_key(k)
                && 8 + v@.len() <= old(self).page_of(page_id).free_space() ==> {
                &&& r == Ok::<usize, QcBupoError>(v@.len() as usize)
                &&& final(self).page_of(page_id).wf()
                &&& final(self).page_of(page_id).spec_dirty()
                &&& final(self).page_of(page_id).n_slots()
                    == old(self).page_of(page_id).n_slots() + 1
                &&& final(self).page_of(page_id).has_key(k)
                &&& final(self).page_of(page_id).value_of(k) == v@
                &&& forall|k2: u32|
                    k2 != k ==> #[trigger] final(self).page_of(page_id).has_key(k2)
                        == old(self).page_of(page_id).has_key(k2)
                &&& forall|k2: u32|
                    k2 != k && old(self).page_of(page_id).has_key(k2)
                        ==> #[trigger] final(self).page_of(page_id).value_of(k2)
                            == old(self).page_of(page_id).value_of(k2)
                &&& forall|p: u8| #[trigger] final(self).is_resident(p) == old(self).is_resident(p)
                &&& forall|p: u8|
                    #![trigger final(self).frame_of(p)]
                    #![trigger final(self).pin_of(p)]
                    old(self).is_resident(p)
                        ==> final(self).frame_of(p) == old(self).frame_of(p)
                            && final(self).pin_of(p) == old(self).pin_of(p)
                &&& forall|p: u8|
                    p != page_id && old(self).is_resident(p)
                        ==> (#[trigger] final(self).page_of(p)).same_state(old(self).page_of(p))
                &&& final(self).lru() == old(self).lru()
                &&& forall|p: u8|
                    0 <= p < old(self).page_count()
                        ==> (#[trigger] final(self).stored_page(p)).same_state(
                            old(self).stored_page(p))
                &&& final(self).capacity() == old(self).capacity()
                &&& final(self).page_count() == old(self).page_count()
            },
    {
        let ghost pre = *old(self);
        match self.find_entry(page_id) {
            None => {
                proof {
                    Self::lemma_same_state_everywhere(pre);
                }
                Err(QcBupoError::NotFound)
            },
            Some(ei) => {
                proof {
                    self.lemma_entry_facts(ei as int);
                }
                let fid: usize = self.table[ei].1.frame_id;
                let mut pg = self.frame[fid].duplicate();
                proof {
                    QcPager::lemma_same_state_congruent(pg, pre.frame@[fid as int]);
                }
                let ghost pg0 = pg;
                let res = pg.save(k, v);
                self.frame.set(fid, pg);
                proof {
                    self.lemma_frame_update_frames(pre, fid as int);
                    if res is Err {
                        assert(self.frame@[fid as int].same_state(pg0));
                        QcPager::lemma_same_state_trans(
                            self.frame@[fid as int], pg0, pre.frame@[fid as int]);
                        QcPager::lemma_same_state_congruent(
                            self.frame@[fid as int], pre.frame@[fid as int]);
                        self.lemma_same_after_page_swap(pre, page_id, fid as int);
                    } else {
                        assert forall|p: u8| p != page_id && pre.is_resident(p)
                            implies (#[trigger] self.page_of(p)).same_state(pre.page_of(p)) by {
                            let j = choose|j: int|
                                0 <= j < pre.table@.len() && (#[trigger] pre.table@[j]).0 == p;
                            pre.lemma_entry_facts(j);
                            if j < ei as int {
                                assert(pre.table@[j].1.frame_id
                                    != pre.table@[ei as int].1.frame_id);
                            } else {
                                assert(j != ei as int);
                                assert(pre.table@[ei as int].1.frame_id
                                    != pre.table@[j].1.frame_id);
                            }
                            assert(self.page_of(p) == pre.page_of(p));
                            QcPager::lemma_same_state_refl(self.page_of(p), pre.page_of(p));
                        }
                        assert forall|p: u8| 0 <= p < pre.page_count()
                            implies (#[trigger] self.stored_page(p)).same_state(
                                pre.stored_page(p)) by {
                            QcPager::lemma_same_state_refl(self.stored_page(p), pre.stored_page(p));
                        }
                    }
                    assert forall|pid: u8| #[trigger] self.lru().contains(pid)
                        implies self.is_resident(pid) && self.pin_of(pid) == 0 by {
                        assert(pre.lru().contains(pid));
                        assert(self.frame_of(pid) == pre.frame_of(pid));
                    }
                    assert(self.wf());
                }
                res
            },
        }
    }

    /// Look up key `k` in resident page `page_id`: a copy of the value
    /// bytes, `Ok(None)` when the key is absent, `NotFound` when the page
    /// is not resident.
    pub fn obtain(&self, page_id: u8, k: u32) -> (r: Result<Option<Vec<u8>>, QcBupoError>)
        requires
            self.wf(),
        ensures
            !self.is_resident(page_id)
                ==> r == Err::<Option<Vec<u8>>, QcBupoError>(QcBupoError::NotFound),
            self.is_resident(page_id) ==> match r {
                Ok(ov) => match ov {
                    Some(v) => self.page_of(page_id).has_key(k)
                        && v@ == self.page_of(page_id).value_of(k),
                    None => !self.page_of(page_id).has_key(k),
                },
                Err(_) => false,
            },
    {
        match self.find_entry(page_id) {
            None => Err(QcBupoError::NotFound),
            Some(ei) => {
                proof {
                    self.lemma_entry_facts(ei as int);
                }
                let fid: usize = self.table[ei].1.frame_id;
                Ok(self.frame[fid].obtain(k))
            },
        }
    }

    // ---- introspection ----

    /// Number of frames.
    pub fn pool_size(&self) -> (r: usize)
        ensures
            r == self.capacity(),
    {
        self.frame.len()
    }

    /// True iff `page_id` currently occupies a frame.
    pub fn contains_page(&self, page_id: u8) -> (r: bool)
        ensures
            r == self.is_resident(page_id),
    {
        match self.find_entry(page_id) {
            Some(_) => {
                proof {
                    let i = choose|i: int|
                        0 <= i < self.table@.len() && (#[trigger] self.table@[i]).0 == page_id;
                }
                true
            },
            None => false,
        }
    }

    /// Pin count of `page_id`, or `None` when it is not resident.
    pub fn pin_count(&self, page_id: u8) -> (r: Option<i32>)
        requires
            self.wf(),
        ensures
            match r {
                Some(n) => self.is_resident(page_id) && n == self.pin_of(page_id),
                None => !self.is_resident(page_id),
            },
    {
        match self.find_entry(page_id) {
            Some(i) => {
                proof {
                    self.lemma_entry_facts(i as int);
                }
                Some(self.table[i].1.ref_num)
            },
            None => None,
        }
    }
}

} // verus!
