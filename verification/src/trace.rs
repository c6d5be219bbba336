use vstd::prelude::*;
use crate::double_link::{parse_qctd, QcDoubleLink};

verus! {

/// Recency tracker: the page ids that are candidates for eviction, ordered
/// from least recently used (front) to most recently used (back).
///
/// Invariants: a page id appears at most once, and the tracker never grows
/// past the capacity it was built with — when full, `insert` of an untracked
/// id reports failure instead of growing; callers take a `victim` first.
#[derive(Debug)]
pub struct QcTracer {
    dblink: QcDoubleLink,
    cap: usize,
}

impl View for QcTracer {
    type V = Seq<u8>;

    closed spec fn view(&self) -> Seq<u8> {
        Seq::new(self.dblink@.len(), |i: int| self.dblink@[i] as u8)
    }
}

impl QcTracer {
    pub closed spec fn wf(self) -> bool {
        &&& forall|i: int|
            0 <= i < self.dblink@.len() ==> 0 <= #[trigger] self.dblink@[i] < 256
        &&& self.dblink@.no_duplicates()
        &&& self.dblink@.len() <= self.cap
    }

    /// The capacity the tracker was built with.
    pub closed spec fn spec_cap(self) -> int {
        self.cap as int
    }

    /// A well-formed tracker lists each page id once and holds at most
    /// `cap` of them.
    pub proof fn lemma_wf_facts(self)
        requires
            self.wf(),
        ensures
            self@.no_duplicates(),
            self@.len() <= self.spec_cap(),
    {
        assert forall|i: int, j: int| 0 <= i < j < self@.len()
            implies self@[i] != self@[j] by {
            assert(self.dblink@[i] != self.dblink@[j]);
        }
    }

    /// An empty tracker for a pool of `cap` frames.
    pub fn new(cap: usize) -> (r: Self)
        ensures
            r.wf(),
            r@ == Seq::<u8>::empty(),
            r.spec_cap() == cap,
    {
        let r = QcTracer { dblink: QcDoubleLink::new(), cap };
        proof {
            assert(r@ =~= Seq::<u8>::empty());
        }
        r
    }

    /// Number of tracked page ids.
    pub fn len(&self) -> (r: usize)
        ensures
            r == self@.len(),
    {
        self.dblink.len()
    }

    /// The tracked page ids in order, least recently used first, for
    /// inspection.
    pub fn candidates(&self) -> (r: Vec<u8>)
        requires
            self.wf(),
        ensures
            r@ == self@,
    {
        let vals = self.dblink.values();
        let mut out: Vec<u8> = Vec::new();
        let mut i: usize = 0;
        while i < vals.len()
            invariant
                self.wf(),
                vals@ == self.dblink@,
                i <= vals@.len(),
                out@.len() == i,
                forall|j: int| 0 <= j < i ==> out@[j] == self@[j],
            decreases vals@.len() - i,
        {
            out.push(vals[i] as u8);
            i = i + 1;
        }
        proof {
            assert(out@ =~= self@);
        }
        out
    }

    /// True iff `page_id` is tracked.
    pub fn is_tracked(&self, page_id: u8) -> (r: bool)
        requires
            self.wf(),
        ensures
            r == self@.contains(page_id),
    {
        let r = self.dblink.contains(page_id as i32);
        proof {
            if self.dblink@.contains(page_id as i32) {
                let i = choose|i: int|
                    0 <= i < self.dblink@.len() && self.dblink@[i] == page_id as i32;
                assert(self@[i] == page_id);
            }
            if self@.contains(page_id) {
                let i = choose|i: int| 0 <= i < self@.len() && self@[i] == page_id;
                assert(self.dblink@[i] == page_id as i32);
            }
        }
        r
    }

    /// Touch `page_id`: re-queue it at the most-recently-used end if it is
    /// tracked, append it if it is untracked and there is room, and report
    /// failure (`None`) without growing when the tracker is full.
    pub fn insert(&mut self, page_id: u8) -> (r: Option<()>)
        requires
            old(self).wf(),
        ensures
            final(self).wf(),
            final(self).spec_cap() == old(self).spec_cap(),
            old(self)@.contains(page_id) ==> r is Some
                && final(self)@ == old(self)@.remove(old(self)@.index_of_first(page_id)->0).push(page_id),
            !old(self)@.contains(page_id) && old(self)@.len() < old(self).spec_cap()
                ==> r is Some && final(self)@ == old(self)@.push(page_id),
            !old(self)@.contains(page_id) && old(self)@.len() >= old(self).spec_cap()
                ==> r is None && final(self)@ == old(self)@,
            r is Some ==> final(self)@.len() <= old(self)@.len() + 1
                && final(self)@.last() == page_id && final(self)@.contains(page_id),
            forall|v: u8| v != page_id ==> final(self)@.contains(v) == old(self)@.contains(v),
    {
        let pid: i32 = page_id as i32;
        let ghost pre = *self;
        proof {
            pre.lemma_contains_agree(page_id);
        }
        if self.dblink.contains(pid) {
            proof {
                self.dblink@.index_of_first_ensures(pid);
            }
            let ghost di = self.dblink@.index_of_first(pid)->0;
            self.dblink.remove_item(pid);
            self.dblink.push_back(pid);
            proof {
                let s0 = pre.dblink@;
                let s1 = s0.remove(di).push(pid);
                assert(self.dblink@ == s1);
                // index ranges and values
                assert forall|i: int| 0 <= i < s1.len() implies 0 <= #[trigger] s1[i] < 256 by {
                    if i < s1.len() - 1 {
                        if i < di {
                            assert(s1[i] == s0[i]);
                        } else {
                            assert(s1[i] == s0[i + 1]);
                        }
                    }
                }
                // no duplicates after moving the value to the back
                assert forall|i: int, j: int| 0 <= i < j < s1.len()
                    implies s1[i] != s1[j] by {
                    let a = if i < di { i } else { i + 1 };
                    if j < s1.len() - 1 {
                        let b = if j < di { j } else { j + 1 };
                        assert(s1[i] == s0[a] && s1[j] == s0[b]);
                    } else {
                        assert(s1[j] == pid && s0[di] == pid);
                        assert(s1[i] == s0[a] && a != di);
                    }
                }
                assert(self@ =~= pre@.remove(pre@.index_of_first(page_id)->0).push(page_id)) by {
                    pre.lemma_index_of_first_agree(page_id);
                }
                assert forall|v: u8| v != page_id
                    implies self@.contains(v) == pre@.contains(v) by {
                    self.lemma_contains_agree(v);
                    pre.lemma_contains_agree(v);
                    Self::lemma_move_to_back_contains(s0, di, v as i32);
                }
                assert(self@.len() == pre@.len());
                assert(self@[self@.len() - 1] == page_id);
                assert(self@.last() == page_id);
                assert(self@.contains(page_id));
            }
            Some(())
        } else if self.dblink.len() < self.cap {
            self.dblink.push_back(pid);
            proof {
                let s1 = pre.dblink@.push(pid);
                assert(self.dblink@ == s1);
                assert forall|i: int, j: int| 0 <= i < j < s1.len()
                    implies s1[i] != s1[j] by {
                    if j == s1.len() - 1 {
                        assert(!pre.dblink@.contains(pid));
                        assert(pre.dblink@[i] != pid);
                    }
                }
                assert(self@ =~= pre@.push(page_id));
                assert forall|v: u8| v != page_id
                    implies self@.contains(v) == pre@.contains(v) by {
                    self.lemma_contains_agree(v);
                    pre.lemma_contains_agree(v);
                    if pre.dblink@.contains(v as i32) {
                        let w = choose|w: int|
                            0 <= w < pre.dblink@.len() && pre.dblink@[w] == v as i32;
                        assert(s1[w] == v as i32);
                    }
                    if s1.contains(v as i32) {
                        let w = choose|w: int| 0 <= w < s1.len() && s1[w] == v as i32;
                        assert(pre.dblink@[w] == v as i32);
                    }
                }
                assert(self@.len() == pre@.len() + 1);
                assert(self@[self@.len() - 1] == page_id);
                assert(self@.last() == page_id);
                assert(self@.contains(page_id));
            }
            Some(())
        } else {
            None
        }
    }

    /// Agreement between the tracked i32 values and the page-id view.
    proof fn lemma_contains_agree(self, v: u8)
        requires
            forall|i: int|
                0 <= i < self.dblink@.len() ==> 0 <= #[trigger] self.dblink@[i] < 256,
        ensures
            self@.contains(v) == self.dblink@.contains(v as i32),
    {
        if self.dblink@.contains(v as i32) {
            let i = choose|i: int|
                0 <= i < self.dblink@.len() && self.dblink@[i] == v as i32;
            assert(self@[i] == v);
        }
        if self@.contains(v) {
            let i = choose|i: int| 0 <= i < self@.len() && self@[i] == v;
            assert(self.dblink@[i] == v as i32);
        }
    }

    /// The first index of a page id is the same in both abstractions.
    proof fn lemma_index_of_first_agree(self, v: u8)
        requires
            forall|i: int|
                0 <= i < self.dblink@.len() ==> 0 <= #[trigger] self.dblink@[i] < 256,
            self.dblink@.contains(v as i32),
        ensures
            self@.index_of_first(v) == self.dblink@.index_of_first(v as i32),
    {
        self.lemma_contains_agree(v);
        self.dblink@.index_of_first_ensures(v as i32);
        self@.index_of_first_ensures(v);
        let a = self.dblink@.index_of_first(v as i32)->0;
        let b = self@.index_of_first(v)->0;
        assert(self.dblink@[a] == v as i32);
        assert(self@[b] == v);
        assert(self@[a] == v);
        assert(self.dblink@[b] == v as i32);
        if a < b {
            assert(self@[a] != v);
        } else if b < a {
            assert(self.dblink@[b] != v as i32);
        }
    }

    /// Moving the value at `di` to the back keeps membership of every value.
    proof fn lemma_move_to_back_contains(s0: Seq<i32>, di: int, w: i32)
        requires
            0 <= di < s0.len(),
            w != s0[di],
        ensures
            s0.remove(di).push(s0[di]).contains(w) == s0.contains(w),
    {
        let s1 = s0.remove(di).push(s0[di]);
        if s0.contains(w) {
            let i = choose|i: int| 0 <= i < s0.len() && s0[i] == w;
            if i < di {
                assert(s1[i] == w);
            } else {
                assert(i > di);
                assert(s1[i - 1] == w);
            }
        }
        if s1.contains(w) {
            let i = choose|i: int| 0 <= i < s1.len() && s1[i] == w;
            assert(i < s1.len() - 1);
            if i < di {
                assert(s0[i] == w);
            } else {
                assert(s0[i + 1] == w);
            }
        }
    }

    /// Detach and return the least-recently-used page id; `None` when no
    /// page is an eviction candidate.
    pub fn victim(&mut self) -> (r: Option<u8>)
        requires
            old(self).wf(),
        ensures
            final(self).wf(),
            final(self).spec_cap() == old(self).spec_cap(),
            old(self)@.len() == 0 ==> r is None && final(self)@ == old(self)@,
            old(self)@.len() > 0 ==> {
                &&& r == Some(old(self)@[0])
                &&& final(self)@ == old(self)@.drop_first()
                &&& !final(self)@.contains(old(self)@[0])
                &&& forall|v: u8|
                    v != old(self)@[0] ==> final(self)@.contains(v) == old(self)@.contains(v)
            },
    {
        let ghost pre = *self;
        let out = parse_qctd(self.dblink.pop_front());
        match out {
            None => None,
            Some(ov) => {
                proof {
                    assert(pre.dblink@[0] == ov);
                    assert(pre@[0] == ov as u8);
                    assert(self@ =~= pre@.drop_first());
                    let h = pre@[0];
                    assert forall|v: u8| self@.contains(v)
                        implies pre@.contains(v) by {
                        let i = choose|i: int|
                            0 <= i < self@.len() && self@[i] == v;
                        assert(pre@[i + 1] == v);
                    }
                    assert forall|v: u8| v != h && pre@.contains(v)
                        implies self@.contains(v) by {
                        let i = choose|i: int| 0 <= i < pre@.len() && pre@[i] == v;
                        assert(i != 0);
                        assert(self@[i - 1] == v);
                    }
                    if self@.contains(h) {
                        let i = choose|i: int|
                            0 <= i < self@.len() && self@[i] == h;
                        assert(pre.dblink@[i + 1] == h as i32);
                        assert(pre.dblink@[0] == h as i32);
                    }
                }
                Some(ov as u8)
            },
        }
    }

    /// Untrack `page_id` (it was pinned, or explicitly evicted); a page id
    /// that is not tracked is left alone.
    pub fn remove(&mut self, page_id: u8)
        requires
            old(self).wf(),
        ensures
            final(self).wf(),
            final(self).spec_cap() == old(self).spec_cap(),
            old(self)@.contains(page_id)
                ==> final(self)@ == old(self)@.remove(old(self)@.index_of_first(page_id)->0),
            !old(self)@.contains(page_id) ==> final(self)@ == old(self)@,
            !final(self)@.contains(page_id),
            forall|v: u8| v != page_id ==> final(self)@.contains(v) == old(self)@.contains(v),
            final(self)@.len() <= old(self)@.len(),
    {
        let pid: i32 = page_id as i32;
        let ghost pre = *self;
        proof {
            pre.lemma_contains_agree(page_id);
            pre.dblink@.index_of_first_ensures(pid);
        }
        self.dblink.remove_item(pid);
        proof {
            let s0 = pre.dblink@;
            if s0.contains(pid) {
                pre.lemma_index_of_first_agree(page_id);
                let di = s0.index_of_first(pid)->0;
                let s1 = s0.remove(di);
                assert(self.dblink@ == s1);
                assert forall|i: int, j: int| 0 <= i < j < s1.len()
                    implies s1[i] != s1[j] by {
                    let a = if i < di { i } else { i + 1 };
                    let b = if j < di { j } else { j + 1 };
                    assert(s1[i] == s0[a] && s1[j] == s0[b]);
                }
                assert(self@ =~= pre@.remove(pre@.index_of_first(page_id)->0));
                assert forall|v: u8| v != page_id
                    implies self@.contains(v) == pre@.contains(v) by {
                    self.lemma_contains_agree(v);
                    pre.lemma_contains_agree(v);
                    if s0.contains(v as i32) {
                        let i = choose|i: int| 0 <= i < s0.len() && s0[i] == v as i32;
                        if i < di {
                            assert(s1[i] == v as i32);
                        } else {
                            assert(i != di);
                            assert(s1[i - 1] == v as i32);
                        }
                    }
                    if s1.contains(v as i32) {
                        let i = choose|i: int| 0 <= i < s1.len() && s1[i] == v as i32;
                        if i < di {
                            assert(s0[i] == v as i32);
                        } else {
                            assert(s0[i + 1] == v as i32);
                        }
                    }
                }
                // the removed id is gone: it occurred only once
                if self@.contains(page_id) {
                    let i = choose|i: int|
                        0 <= i < self@.len() && self@[i] == page_id;
                    if i < di {
                        assert(s1[i] == s0[i]);
                        assert(s0[i] == pid);
                        assert(s0[i] != pid);
                    } else {
                        assert(s1[i] == s0[i + 1]);
                        assert(s0[i + 1] == pid);
                        assert(s0[i + 1] != pid);
                    }
                }
            } else {
                assert(self.dblink@ == s0);
                assert(self@ == pre@);
                self.lemma_contains_agree(page_id);
            }
        }
    }
}

} // verus!
