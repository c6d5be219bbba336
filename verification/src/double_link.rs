use vstd::prelude::*;

verus! {

/// One node of the recency list: the tracked value.
///
/// A classical intrusive list links nodes through raw pointers; here the
/// links are implicit in the position of the node inside the backing vector,
/// which removes the aliasing hazards while keeping the outside behaviour.
#[derive(Debug, Clone, Copy, PartialEq, Eq, Structural)]
pub struct QcDLnode {
    pub val: i32,
}

impl QcDLnode {
    pub fn new(val: i32) -> (r: Self)
        ensures
            r.val == val,
    {
        QcDLnode { val }
    }
}

/// What a list operation hands back: the value of the node it touched.
pub type QcTd = Option<i32>;

/// The value carried by `qc`, if any.
pub fn parse_qctd(qc: QcTd) -> (r: Option<i32>)
    ensures
        r == qc,
{
    qc
}

/// A list of values ordered from head (front, least recent) to tail (back,
/// most recent), abstracted as the sequence of its values.
#[derive(Debug)]
pub struct QcDoubleLink {
    items: Vec<QcDLnode>,
}

impl View for QcDoubleLink {
    type V = Seq<i32>;

    closed spec fn view(&self) -> Seq<i32> {
        self.items@.map_values(|n: QcDLnode| n.val)
    }
}

impl QcDoubleLink {
    /// An empty list.
    pub fn new() -> (r: Self)
        ensures
            r@ == Seq::<i32>::empty(),
    {
        let r = QcDoubleLink { items: Vec::new() };
        proof {
            assert(r@ =~= Seq::<i32>::empty());
        }
        r
    }

    /// Number of values in the list.
    pub fn len(&self) -> (r: usize)
        ensures
            r == self@.len(),
    {
        self.items.len()
    }

    /// True iff `val` is in the list.
    pub fn contains(&self, val: i32) -> (r: bool)
        ensures
            r == self@.contains(val),
    {
        let mut i: usize = 0;
        while i < self.items.len()
            invariant
                i <= self@.len(),
                forall|j: int| 0 <= j < i ==> self@[j] != val,
            decreases self@.len() - i,
        {
            if self.items[i].val == val {
                proof {
                    assert(self@[i as int] == val);
                }
                return true;
            }
            i = i + 1;
        }
        false
    }

    /// The values of the list in order, head first, for inspection.
    pub fn values(&self) -> (r: Vec<i32>)
        ensures
            r@ == self@,
    {
        let mut out: Vec<i32> = Vec::new();
        let mut i: usize = 0;
        while i < self.items.len()
            invariant
                i <= self@.len(),
                out@.len() == i,
                forall|j: int| 0 <= j < i ==> out@[j] == self@[j],
            decreases self@.len() - i,
        {
            out.push(self.items[i].val);
            i = i + 1;
        }
        proof {
            assert(out@ =~= self@);
        }
        out
    }

    /// Append `val` at the tail (most-recently-used end).
    pub fn push_back(&mut self, val: i32) -> (r: QcTd)
        ensures
            final(self)@ == old(self)@.push(val),
            r == Some(val),
    {
        self.items.push(QcDLnode { val });
        proof {
            assert(self@ =~= old(self)@.push(val));
        }
        Some(val)
    }

    /// Detach and return the head (least-recently-used end); `None` when the
    /// list is empty.
    pub fn pop_front(&mut self) -> (r: QcTd)
        ensures
            old(self)@.len() == 0 ==> r is None && final(self)@ == old(self)@,
            old(self)@.len() > 0 ==> r == Some(old(self)@[0])
                && final(self)@ == old(self)@.drop_first(),
    {
        if self.items.len() == 0 {
            None
        } else {
            let node = self.items.remove(0);
            proof {
                assert(self@ =~= old(self)@.drop_first());
            }
            Some(node.val)
        }
    }

    /// Unlink the first node holding `val`, if any.
    pub fn remove_item(&mut self, val: i32)
        ensures
            match old(self)@.index_of_first(val) {
                Some(i) => final(self)@ == old(self)@.remove(i),
                None => final(self)@ == old(self)@,
            },
    {
        let mut i: usize = 0;
        while i < self.items.len()
            invariant
                self@ == old(self)@,
                i <= self@.len(),
                forall|j: int| 0 <= j < i ==> self@[j] != val,
            decreases self@.len() - i,
        {
            if self.items[i].val == val {
                proof {
                    let s = old(self)@;
                    s.index_of_first_ensures(val);
                    assert(s[i as int] == val);
                    assert(s.contains(val));
                    match s.index_of_first(val) {
                        Some(idx) => {
                            assert(s[idx] == val);
                            if idx < i as int {
                                assert(s[idx] != val);
                            } else if idx > i as int {
                                assert(s[i as int] != val);
                            }
                            assert(idx == i as int);
                        },
                        None => {
                            assert(!s.contains(val));
                        },
                    }
                    assert(s.index_of_first(val) == Some(i as int));
                }
                self.items.remove(i);
                proof {
                    assert(self@ =~= old(self)@.remove(i as int));
                }
                return;
            }
            i = i + 1;
        }
        proof {
            let s = old(self)@;
            s.index_of_first_ensures(val);
            if s.contains(val) {
                let w = s.index_of(val);
                assert(s[w] == val);
            }
            assert(s.index_of_first(val) is None);
        }
    }

    /// Overwrite the value of the first node holding `from` with `val`.
    pub fn reset_item(&mut self, from: i32, val: i32)
        ensures
            match old(self)@.index_of_first(from) {
                Some(i) => final(self)@ == old(self)@.update(i, val),
                None => final(self)@ == old(self)@,
            },
    {
        let mut i: usize = 0;
        while i < self.items.len()
            invariant
                self@ == old(self)@,
                i <= self@.len(),
                forall|j: int| 0 <= j < i ==> self@[j] != from,
            decreases self@.len() - i,
        {
            if self.items[i].val == from {
                proof {
                    let s = old(self)@;
                    s.index_of_first_ensures(from);
                    assert(s[i as int] == from);
                    assert(s.contains(from));
                    match s.index_of_first(from) {
                        Some(idx) => {
                            assert(s[idx] == from);
                            if idx < i as int {
                                assert(s[idx] != from);
                            } else if idx > i as int {
                                assert(s[i as int] != from);
                            }
                            assert(idx == i as int);
                        },
                        None => {
                            assert(!s.contains(from));
                        },
                    }
                    assert(s.index_of_first(from) == Some(i as int));
                }
                self.items.set(i, QcDLnode { val });
                proof {
                    assert(self@ =~= old(self)@.update(i as int, val));
                }
                return;
            }
            i = i + 1;
        }
        proof {
            let s = old(self)@;
            s.index_of_first_ensures(from);
            if s.contains(from) {
                let w = s.index_of(from);
                assert(s[w] == from);
            }
            assert(s.index_of_first(from) is None);
        }
    }
}

} // verus!
