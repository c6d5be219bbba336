use vstd::prelude::*;
use vstd::arithmetic::div_mod::{lemma_breakdown, lemma_fundamental_div_mod};
use crate::error::QcBupoError;

verus! {

/// Size in bytes of a page buffer.
pub const PAGE_SIZE: usize = 4096;

/// Big-endian value of two bytes.
pub open spec fn be16(b0: u8, b1: u8) -> int {
    256 * b0 + b1
}

/// Big-endian value of four bytes.
pub open spec fn be32(b0: u8, b1: u8, b2: u8, b3: u8) -> int {
    16777216 * b0 + 65536 * b1 + 256 * b2 + b3
}

/// A slotted page: a fixed 4096-byte buffer holding
///
///   - a header: slot-directory byte length at offsets 8..10, slot-directory
///     start offset (always 16) at 10..12, data end offset at 12..14, each
///     big-endian;
///   - a slot directory growing forward from offset 16: 8-byte slots
///     `{key: u32, value offset: u16, value length: u16}`, kept sorted
///     strictly ascending by key;
///   - a data region of value bytes packed backward from the end of the
///     buffer; the data pointer is the lowest unused byte of that region.
///
/// The dirty flag is held outside the buffer.
#[derive(Debug)]
pub struct QcPager {
    dirty: bool,
    data: Vec<u8>,
}

impl QcPager {
    /// The raw bytes of the page buffer.
    pub closed spec fn bytes(self) -> Seq<u8> {
        self.data@
    }

    /// The dirty flag.
    pub closed spec fn spec_dirty(self) -> bool {
        self.dirty
    }

    /// Byte length of the slot directory (header field).
    pub closed spec fn slot_bytes(self) -> int {
        be16(self.data@[8], self.data@[9])
    }

    /// Start offset of the slot directory (header field; 16 when well formed).
    pub closed spec fn slot_start(self) -> int {
        be16(self.data@[10], self.data@[11])
    }

    /// Data pointer (header field): highest unused byte of the data region.
    pub closed spec fn data_ptr(self) -> int {
        be16(self.data@[12], self.data@[13])
    }

    /// Number of records in the page.
    pub closed spec fn n_slots(self) -> int {
        self.slot_bytes() / 8
    }

    /// Key of slot `i`.
    pub closed spec fn key_at(self, i: int) -> int {
        be32(
            self.data@[16 + 8 * i],
            self.data@[16 + 8 * i + 1],
            self.data@[16 + 8 * i + 2],
            self.data@[16 + 8 * i + 3],
        )
    }

    /// Value offset of slot `i`.
    pub closed spec fn voff_at(self, i: int) -> int {
        be16(self.data@[16 + 8 * i + 4], self.data@[16 + 8 * i + 5])
    }

    /// Value length of slot `i`.
    pub closed spec fn vlen_at(self, i: int) -> int {
        be16(self.data@[16 + 8 * i + 6], self.data@[16 + 8 * i + 7])
    }

    /// Value bytes of slot `i`.
    pub closed spec fn value_at(self, i: int) -> Seq<u8> {
        self.data@.subrange(self.voff_at(i), self.voff_at(i) + self.vlen_at(i))
    }

    /// Slot `i` is internally consistent: an empty value records offset 0,
    /// a non-empty one lies entirely inside the data region.
    pub closed spec fn slot_ok(self, i: int) -> bool {
        if self.vlen_at(i) == 0 {
            self.voff_at(i) == 0
        } else {
            self.data_ptr() < self.voff_at(i)
                && self.voff_at(i) + self.vlen_at(i) <= 4096
        }
    }

    /// Well-formedness: the header is consistent, slot directory and data
    /// region do not overlap, keys are strictly ascending (hence unique),
    /// and every slot's value span is in bounds.
    pub closed spec fn wf(self) -> bool {
        &&& self.data@.len() == 4096
        &&& self.slot_start() == 16
        &&& self.slot_bytes() % 8 == 0
        &&& 16 + self.slot_bytes() <= self.data_ptr() + 1
        &&& self.data_ptr() <= 4095
        &&& forall|i: int, j: int|
            0 <= i < j < self.n_slots() ==> self.key_at(i) < self.key_at(j)
        &&& forall|i: int| 0 <= i < self.n_slots() ==> #[trigger] self.slot_ok(i)
    }

    /// The page holds key `k`.
    pub closed spec fn has_key(self, k: u32) -> bool {
        exists|i: int| 0 <= i < self.n_slots() && self.key_at(i) == k
    }

    /// The value recorded for key `k` (meaningful when `has_key(k)`).
    pub closed spec fn value_of(self, k: u32) -> Seq<u8> {
        self.value_at(choose|i: int| 0 <= i < self.n_slots() && self.key_at(i) == k)
    }

    /// Bytes still free between the slot directory and the data region.
    pub closed spec fn free_space(self) -> int {
        self.data_ptr() + 1 - 16 - self.slot_bytes()
    }

    /// Two pages are in the same state: same buffer bytes, same dirty flag.
    pub closed spec fn same_state(self, other: Self) -> bool {
        self.data@ == other.data@ && self.dirty == other.dirty
    }

    /// `same_state` is reflexive and symmetric.
    pub proof fn lemma_same_state_refl(a: Self, b: Self)
        ensures
            a.same_state(a),
            a.same_state(b) == b.same_state(a),
    {
    }

    /// `same_state` is transitive.
    pub proof fn lemma_same_state_trans(a: Self, b: Self, c: Self)
        requires
            a.same_state(b),
            b.same_state(c),
        ensures
            a.same_state(c),
    {
    }

    /// Pages in the same state agree on every observation.
    pub proof fn lemma_same_state_congruent(a: Self, b: Self)
        requires
            a.same_state(b),
        ensures
            a.wf() == b.wf(),
            a.n_slots() == b.n_slots(),
            a.free_space() == b.free_space(),
            a.spec_dirty() == b.spec_dirty(),
            a.bytes() == b.bytes(),
            forall|i: int| #[trigger] a.key_at(i) == b.key_at(i),
            forall|i: int| #[trigger] a.value_at(i) == b.value_at(i),
            forall|k: u32| #[trigger] a.has_key(k) == b.has_key(k),
            a.wf() ==> forall|k: u32|
                a.has_key(k) ==> #[trigger] a.value_of(k) == b.value_of(k),
    {
        Self::lemma_bytes_congruent(a, b);
    }

    /// Pages with the same buffer bytes agree on every observation of the
    /// record contents (only the dirty flag may differ).
    pub proof fn lemma_bytes_congruent(a: Self, b: Self)
        requires
            a.bytes() == b.bytes(),
        ensures
            a.wf() == b.wf(),
            a.n_slots() == b.n_slots(),
            a.free_space() == b.free_space(),
            forall|i: int| #[trigger] a.key_at(i) == b.key_at(i),
            forall|i: int| #[trigger] a.value_at(i) == b.value_at(i),
            forall|k: u32| #[trigger] a.has_key(k) == b.has_key(k),
            a.wf() ==> forall|k: u32|
                a.has_key(k) ==> #[trigger] a.value_of(k) == b.value_of(k),
    {
        assert(forall|i: int| #[trigger] a.key_at(i) == b.key_at(i));
        assert(forall|i: int| #[trigger] a.voff_at(i) == b.voff_at(i));
        assert(forall|i: int| #[trigger] a.vlen_at(i) == b.vlen_at(i));
        assert(forall|i: int| #[trigger] a.value_at(i) == b.value_at(i));
        assert(forall|i: int| #[trigger] a.slot_ok(i) == b.slot_ok(i));
        assert forall|k: u32| #[trigger] a.has_key(k) == b.has_key(k) by {
            if a.has_key(k) {
                let i = choose|i: int| 0 <= i < a.n_slots() && a.key_at(i) == k;
                assert(0 <= i < b.n_slots() && b.key_at(i) == k);
            }
            if b.has_key(k) {
                let i = choose|i: int| 0 <= i < b.n_slots() && b.key_at(i) == k;
                assert(0 <= i < a.n_slots() && a.key_at(i) == k);
            }
        }
        if a.wf() {
            assert forall|i: int, j: int| 0 <= i < j < b.n_slots()
                implies b.key_at(i) < b.key_at(j) by {
                assert(a.key_at(i) == b.key_at(i));
                assert(a.key_at(j) == b.key_at(j));
            }
            assert forall|i: int| 0 <= i < b.n_slots() implies #[trigger] b.slot_ok(i) by {
                assert(a.slot_ok(i) == b.slot_ok(i));
            }
            assert(b.wf());
            assert forall|k: u32| a.has_key(k) implies #[trigger] a.value_of(k) == b.value_of(k) by {
                let i = choose|i: int| 0 <= i < a.n_slots() && a.key_at(i) == k;
                let j = choose|i: int| 0 <= i < b.n_slots() && b.key_at(i) == k;
                assert(0 <= j < a.n_slots() && a.key_at(j) == k);
                a.lemma_key_index_unique(i, j);
            }
        }
        if b.wf() {
            assert forall|i: int, j: int| 0 <= i < j < a.n_slots()
                implies a.key_at(i) < a.key_at(j) by {
                assert(a.key_at(i) == b.key_at(i));
                assert(a.key_at(j) == b.key_at(j));
            }
            assert forall|i: int| 0 <= i < a.n_slots() implies #[trigger] a.slot_ok(i) by {
                assert(a.slot_ok(i) == b.slot_ok(i));
            }
            assert(a.wf());
        }
    }

    /// In a well-formed page each key names at most one slot.
    pub proof fn lemma_key_index_unique(self, i: int, j: int)
        requires
            self.wf(),
            0 <= i < self.n_slots(),
            0 <= j < self.n_slots(),
            self.key_at(i) == self.key_at(j),
        ensures
            i == j,
    {
    }

    /// If slot `i` holds key `k`, then `value_of(k)` is that slot's value.
    proof fn lemma_value_of_at(self, i: int, k: u32)
        requires
            self.wf(),
            0 <= i < self.n_slots(),
            self.key_at(i) == k,
        ensures
            self.has_key(k),
            self.value_of(k) == self.value_at(i),
    {
        let w = choose|t: int| 0 <= t < self.n_slots() && self.key_at(t) == k;
        self.lemma_key_index_unique(i, w);
    }

    /// Keys are sorted strictly ascending over the slot directory
    /// (checkable by scanning; maintained by every successful insert).
    pub proof fn lemma_wf_keys_sorted(self)
        requires
            self.wf(),
        ensures
            forall|i: int, j: int|
                0 <= i < j < self.n_slots() ==> self.key_at(i) < self.key_at(j),
    {
    }

    // ---- byte codec helpers ----

    /// Read a big-endian u16 at `off`.
    fn read_u16(&self, off: usize) -> (r: u16)
        requires
            self.data@.len() == 4096,
            off + 2 <= 4096,
        ensures
            r == be16(self.data@[off as int], self.data@[off as int + 1]),
    {
        let b0: u8 = self.data[off];
        let b1: u8 = self.data[off + 1];
        (b0 as u16) * 256 + (b1 as u16)
    }

    /// Write a big-endian u16 at `off`; no other byte changes.
    fn write_u16(&mut self, off: usize, x: u16)
        requires
            old(self).data@.len() == 4096,
            off + 2 <= 4096,
        ensures
            final(self).data@.len() == 4096,
            be16(final(self).data@[off as int], final(self).data@[off as int + 1]) == x,
            forall|m: int|
                0 <= m < 4096 && m != off && m != off + 1
                    ==> final(self).data@[m] == old(self).data@[m],
            final(self).dirty == old(self).dirty,
    {
        let hi: u8 = (x / 256) as u8;
        let lo: u8 = (x % 256) as u8;
        self.data.set(off, hi);
        self.data.set(off + 1, lo);
        proof {
            lemma_fundamental_div_mod(x as int, 256);
        }
    }

    /// Read a big-endian u32 at `off`.
    fn read_u32(&self, off: usize) -> (r: u32)
        requires
            self.data@.len() == 4096,
            off + 4 <= 4096,
        ensures
            r == be32(
                self.data@[off as int],
                self.data@[off as int + 1],
                self.data@[off as int + 2],
                self.data@[off as int + 3],
            ),
    {
        let b0: u8 = self.data[off];
        let b1: u8 = self.data[off + 1];
        let b2: u8 = self.data[off + 2];
        let b3: u8 = self.data[off + 3];
        (b0 as u32) * 16777216 + (b1 as u32) * 65536 + (b2 as u32) * 256 + (b3 as u32)
    }

    /// Write a big-endian u32 at `off`; no other byte changes.
    fn write_u32(&mut self, off: usize, x: u32)
        requires
            old(self).data@.len() == 4096,
            off + 4 <= 4096,
        ensures
            final(self).data@.len() == 4096,
            be32(
                final(self).data@[off as int],
                final(self).data@[off as int + 1],
                final(self).data@[off as int + 2],
                final(self).data@[off as int + 3],
            ) == x,
            forall|m: int|
                0 <= m < 4096 && !(off <= m < off + 4)
                    ==> final(self).data@[m] == old(self).data@[m],
            final(self).dirty == old(self).dirty,
    {
        let b0: u8 = (x / 16777216) as u8;
        let b1: u8 = ((x / 65536) % 256) as u8;
        let b2: u8 = ((x / 256) % 256) as u8;
        let b3: u8 = (x % 256) as u8;
        self.data.set(off, b0);
        self.data.set(off + 1, b1);
        self.data.set(off + 2, b2);
        self.data.set(off + 3, b3);
        proof {
            let xi = x as int;
            lemma_fundamental_div_mod(xi, 16777216);
            lemma_breakdown(xi, 65536, 256);
            lemma_breakdown(xi, 256, 256);
            assert(65536 * 256 == 16777216);
            assert(256 * 256 == 65536);
        }
    }

    // ---- header accessors ----

    fn get_slot_len(&self) -> (r: u16)
        requires
            self.data@.len() == 4096,
        ensures
            r == self.slot_bytes(),
    {
        self.read_u16(8)
    }

    fn set_slot_len(&mut self, len: u16)
        requires
            old(self).data@.len() == 4096,
        ensures
            final(self).data@.len() == 4096,
            final(self).slot_bytes() == len,
            final(self).slot_start() == old(self).slot_start(),
            final(self).data_ptr() == old(self).data_ptr(),
            forall|m: int|
                16 <= m < 4096 ==> final(self).data@[m] == old(self).data@[m],
            final(self).dirty == old(self).dirty,
    {
        self.write_u16(8, len);
    }

    fn get_slot_pointer(&self) -> (r: u16)
        requires
            self.data@.len() == 4096,
        ensures
            r == self.slot_start(),
    {
        self.read_u16(10)
    }

    fn set_slot_pointer(&mut self, pointer: u16)
        requires
            old(self).data@.len() == 4096,
        ensures
            final(self).data@.len() == 4096,
            final(self).slot_start() == pointer,
            final(self).slot_bytes() == old(self).slot_bytes(),
            final(self).data_ptr() == old(self).data_ptr(),
            forall|m: int|
                16 <= m < 4096 ==> final(self).data@[m] == old(self).data@[m],
            final(self).dirty == old(self).dirty,
    {
        self.write_u16(10, pointer);
    }

    fn get_data_pointer(&self) -> (r: u16)
        requires
            self.data@.len() == 4096,
        ensures
            r == self.data_ptr(),
    {
        self.read_u16(12)
    }

    fn set_data_pointer(&mut self, pointer: u16)
        requires
            old(self).data@.len() == 4096,
        ensures
            final(self).data@.len() == 4096,
            final(self).data_ptr() == pointer,
            final(self).slot_bytes() == old(self).slot_bytes(),
            final(self).slot_start() == old(self).slot_start(),
            forall|m: int|
                16 <= m < 4096 ==> final(self).data@[m] == old(self).data@[m],
            final(self).dirty == old(self).dirty,
    {
        self.write_u16(12, pointer);
    }

    // ---- mutation helpers ----

    /// Copy the 8 bytes of slot `src` over slot `dst`.
    fn copy_slot(&mut self, src: usize, dst: usize)
        requires
            old(self).data@.len() == 4096,
            16 + 8 * src + 8 <= 4096,
            16 + 8 * dst + 8 <= 4096,
        ensures
            final(self).data@.len() == 4096,
            forall|m: int|
                16 + 8 * dst <= m < 16 + 8 * dst + 8
                    ==> #[trigger] final(self).data@[m] == old(self).data@[m + 8 * src - 8 * dst],
            forall|m: int|
                0 <= m < 4096 && !(16 + 8 * dst <= m < 16 + 8 * dst + 8)
                    ==> #[trigger] final(self).data@[m] == old(self).data@[m],
            final(self).dirty == old(self).dirty,
    {
        let s: usize = 16 + 8 * src;
        let d: usize = 16 + 8 * dst;
        let b0: u8 = self.data[s];
        let b1: u8 = self.data[s + 1];
        let b2: u8 = self.data[s + 2];
        let b3: u8 = self.data[s + 3];
        let b4: u8 = self.data[s + 4];
        let b5: u8 = self.data[s + 5];
        let b6: u8 = self.data[s + 6];
        let b7: u8 = self.data[s + 7];
        self.data.set(d, b0);
        self.data.set(d + 1, b1);
        self.data.set(d + 2, b2);
        self.data.set(d + 3, b3);
        self.data.set(d + 4, b4);
        self.data.set(d + 5, b5);
        self.data.set(d + 6, b6);
        self.data.set(d + 7, b7);
    }

    /// Write the bytes of `v` into the buffer at `off`.
    fn write_bytes(&mut self, off: usize, v: &Vec<u8>)
        requires
            old(self).data@.len() == 4096,
            off + v@.len() <= 4096,
        ensures
            final(self).data@.len() == 4096,
            forall|q: int| 0 <= q < v@.len() ==> final(self).data@[off + q] == v@[q],
            forall|m: int|
                0 <= m < 4096 && !(off <= m < off + v@.len())
                    ==> final(self).data@[m] == old(self).data@[m],
            final(self).dirty == old(self).dirty,
    {
        let mut t: usize = 0;
        while t < v.len()
            invariant
                self.data@.len() == 4096,
                t <= v@.len(),
                off + v@.len() <= 4096,
                forall|q: int| 0 <= q < t ==> self.data@[off + q] == v@[q],
                forall|m: int|
                    0 <= m < 4096 && !(off <= m < off + t)
                        ==> self.data@[m] == old(self).data@[m],
                self.dirty == old(self).dirty,
            decreases v@.len() - t,
        {
            self.data.set(off + t, v[t]);
            t = t + 1;
        }
    }

    /// Shift slots `idx .. n` one place up and write `{k, dstart, vlen}`
    /// into slot `idx`; the header bytes stay untouched.
    fn insert_slot(&mut self, k: u32, dstart: u16, vlen: u16, idx: usize)
        requires
            old(self).data@.len() == 4096,
            old(self).slot_bytes() % 8 == 0,
            idx <= old(self).n_slots(),
            16 + 8 * old(self).n_slots() + 8 <= 4096,
        ensures
            final(self).data@.len() == 4096,
            forall|m: int| 0 <= m < 16 ==> final(self).data@[m] == old(self).data@[m],
            forall|m: int| 16 <= m < 16 + 8 * idx ==> final(self).data@[m] == old(self).data@[m],
            final(self).key_at(idx as int) == k,
            final(self).voff_at(idx as int) == dstart,
            final(self).vlen_at(idx as int) == vlen,
            forall|t: int|
                #![trigger final(self).key_at(t)]
                #![trigger final(self).voff_at(t)]
                #![trigger final(self).vlen_at(t)]
                idx < t <= old(self).n_slots() ==> {
                    &&& final(self).key_at(t) == old(self).key_at(t - 1)
                    &&& final(self).voff_at(t) == old(self).voff_at(t - 1)
                    &&& final(self).vlen_at(t) == old(self).vlen_at(t - 1)
                },
            forall|m: int|
                16 + 8 * old(self).n_slots() + 8 <= m < 4096
                    ==> final(self).data@[m] == old(self).data@[m],
            final(self).dirty == old(self).dirty,
    {
        proof {
            assert(old(self).slot_bytes() == 8 * old(self).n_slots());
        }
        let n: usize = (self.get_slot_len() / 8) as usize;
        let mut j: usize = n;
        while j > idx
            invariant
                self.data@.len() == 4096,
                idx <= j <= n,
                n == old(self).n_slots(),
                16 + 8 * n + 8 <= 4096,
                forall|m: int|
                    16 + 8 * j + 8 <= m < 16 + 8 * n + 8
                        ==> self.data@[m] == old(self).data@[m - 8],
                forall|m: int|
                    0 <= m < 4096 && !(16 + 8 * j + 8 <= m < 16 + 8 * n + 8)
                        ==> self.data@[m] == old(self).data@[m],
                self.dirty == old(self).dirty,
            decreases j,
        {
            self.copy_slot(j - 1, j);
            j = j - 1;
        }
        self.write_u32(16 + 8 * idx, k);
        self.write_u16(16 + 8 * idx + 4, dstart);
        self.write_u16(16 + 8 * idx + 6, vlen);
        proof {
            assert forall|t: int|
                #![trigger final(self).key_at(t)]
                #![trigger final(self).voff_at(t)]
                #![trigger final(self).vlen_at(t)]
                idx < t <= old(self).n_slots() implies {
                &&& final(self).key_at(t) == old(self).key_at(t - 1)
                &&& final(self).voff_at(t) == old(self).voff_at(t - 1)
                &&& final(self).vlen_at(t) == old(self).vlen_at(t - 1)
            } by {
                assert forall|m: int| 16 + 8 * t <= m < 16 + 8 * t + 8
                    implies #[trigger] final(self).data@[m] == old(self).data@[m - 8] by {
                    assert(16 + 8 * idx + 8 <= m < 16 + 8 * old(self).n_slots() + 8);
                }
            }
        }
    }

    // ---- construction ----

    /// A fresh page: zeroed buffer, empty slot directory starting at 16,
    /// data pointer at the last byte, not dirty.
    pub fn new() -> (r: Self)
        ensures
            r.wf(),
            r.n_slots() == 0,
            !r.spec_dirty(),
            r.free_space() == 4080,
            forall|k: u32| !r.has_key(k),
    {
        let mut data: Vec<u8> = Vec::new();
        let mut i: usize = 0;
        while i < 4096
            invariant
                i <= 4096,
                data@.len() == i,
            decreases 4096 - i,
        {
            data.push(0u8);
            i = i + 1;
        }
        let mut pg = QcPager { dirty: false, data };
        pg.set_slot_len(0);
        pg.set_slot_pointer(16);
        pg.set_data_pointer(4095);
        pg
    }

    /// A copy of this page in the same state.
    pub fn duplicate(&self) -> (r: Self)
        ensures
            r.same_state(*self),
    {
        let data = self.data.clone();
        proof {
            assert(data@ =~= self.data@);
        }
        QcPager { dirty: self.dirty, data }
    }

    /// Insert the record `(k, v)`.
    ///
    /// Rejects, leaving the page unchanged: a value too long for the 16-bit
    /// length field (`CapacityExceeded`); a key already present
    /// (`DuplicateKey`); a record for which slot directory and data region
    /// would overlap (`CapacityExceeded`).  On success the new slot is placed
    /// at its sorted position, the value bytes are packed below the data
    /// pointer, every other record is kept, and the page is marked dirty.
    #[verifier::rlimit(100)]
    pub fn save(&mut self, k: u32, v: &Vec<u8>) -> (r: Result<usize, QcBupoError>)
        requires
            old(self).wf(),
        ensures
            final(self).wf(),
            v@.len() > 65535 ==> {
                &&& r == Err::<usize, QcBupoError>(QcBupoError::CapacityExceeded)
                &&& final(self).same_state(*old(self))
            },
            v@.len() <= 65535 && old(self).has_key(k) ==> {
                &&& r == Err::<usize, QcBupoError>(QcBupoError::DuplicateKey)
                &&& final(self).same_state(*old(self))
            },
            v@.len() <= 65535 && !old(self).has_key(k) && 8 + v@.len() > old(self).free_space()
                ==> {
                &&& r == Err::<usize, QcBupoError>(QcBupoError::CapacityExceeded)
                &&& final(self).same_state(*old(self))
            },
            v@.len() <= 65535 && !old(self).has_key(k) && 8 + v@.len() <= old(self).free_space()
                ==> {
                &&& r == Ok::<usize, QcBupoError>(v@.len() as usize)
                &&& final(self).spec_dirty()
                &&& final(self).n_slots() == old(self).n_slots() + 1
                &&& final(self).has_key(k)
                &&& final(self).value_of(k) == v@
                &&& forall|k2: u32|
                    k2 != k ==> #[trigger] final(self).has_key(k2) == old(self).has_key(k2)
                &&& forall|k2: u32|
                    k2 != k && old(self).has_key(k2)
                        ==> #[trigger] final(self).value_of(k2) == old(self).value_of(k2)
                &&& final(self).free_space() == old(self).free_space() - 8 - v@.len()
            },
    {
        let ghost p0 = *old(self);
        let ghost n0 = p0.n_slots();
        let ghost ll = v@.len() as int;
        proof {
            assert(p0.slot_bytes() == 8 * n0);
        }

        let vlen_usize: usize = v.len();
        if vlen_usize > 65535 {
            return Err(QcBupoError::CapacityExceeded);
        }
        let vlen: u16 = vlen_usize as u16;

        let slot_len: u16 = self.get_slot_len();
        let data_pointer: u16 = self.get_data_pointer();

        let (idx, found) = self.binary_search(k);
        if found.is_some() {
            proof {
                let fi = found->0;
                assert(p0.key_at(fi as int) == k);
            }
            return Err(QcBupoError::DuplicateKey);
        }
        proof {
            if p0.has_key(k) {
                let i = choose|i: int| 0 <= i < n0 && p0.key_at(i) == k;
                assert(p0.key_at(i) == k);
            }
        }

        let free: u16 = data_pointer + 1 - 16 - slot_len;
        if vlen_usize + 8 > free as usize {
            return Err(QcBupoError::CapacityExceeded);
        }

        // From here on the record fits: 8 + ll <= free_space.
        let ghost dp = p0.data_ptr();
        self.op_dirty();
        let dstart: u16 = if vlen > 0 { data_pointer - vlen + 1 } else { 0 };
        self.insert_slot(k, dstart, vlen, idx);
        let ghost s_ins = *self;
        if vlen > 0 {
            self.write_bytes(dstart as usize, v);
        }
        let ghost s_wb = *self;
        self.set_data_pointer(data_pointer - vlen);
        self.set_slot_len(slot_len + 8);

        proof {
            let pf = *self;
            let ii = idx as int;

            // Bytes at and above offset 16 survive the two header writes.
            assert forall|m: int| 16 <= m < 4096 implies #[trigger] pf.data@[m] == s_wb.data@[m] by {}
            // Bytes outside the value span survive `write_bytes`.
            assert forall|m: int|
                16 <= m < 4096 && !(dstart <= m < dstart + ll)
                    implies #[trigger] s_wb.data@[m] == s_ins.data@[m] by {}

            // Header fields of the final page.
            assert(pf.slot_start() == 16);
            assert(pf.slot_bytes() == slot_len + 8);
            assert(pf.data_ptr() == dp - ll);
            assert(pf.n_slots() == n0 + 1);

            // The whole slot directory survives the later writes.
            assert(16 + 8 * (n0 + 1) <= dstart || vlen == 0);
            assert forall|t: int|
                #![trigger pf.key_at(t)]
                #![trigger pf.voff_at(t)]
                #![trigger pf.vlen_at(t)]
                0 <= t <= n0 implies {
                &&& pf.key_at(t) == s_ins.key_at(t)
                &&& pf.voff_at(t) == s_ins.voff_at(t)
                &&& pf.vlen_at(t) == s_ins.vlen_at(t)
            } by {
                assert forall|m: int| 16 + 8 * t <= m < 16 + 8 * t + 8
                    implies #[trigger] pf.data@[m] == s_ins.data@[m] by {
                    assert(m < 16 + 8 * (n0 + 1));
                }
            }

            // Slot directory of the final page, in terms of the old page.
            assert(pf.key_at(ii) == k && pf.voff_at(ii) == dstart && pf.vlen_at(ii) == vlen);
            assert(forall|t: int|
                #![trigger pf.key_at(t)]
                #![trigger pf.voff_at(t)]
                #![trigger pf.vlen_at(t)]
                0 <= t < ii ==> {
                &&& pf.key_at(t) == p0.key_at(t)
                &&& pf.voff_at(t) == p0.voff_at(t)
                &&& pf.vlen_at(t) == p0.vlen_at(t)
            });
            assert(forall|t: int|
                #![trigger pf.key_at(t)]
                #![trigger pf.voff_at(t)]
                #![trigger pf.vlen_at(t)]
                ii < t <= n0 ==> {
                &&& pf.key_at(t) == p0.key_at(t - 1)
                &&& pf.voff_at(t) == p0.voff_at(t - 1)
                &&& pf.vlen_at(t) == p0.vlen_at(t - 1)
            });

            // The old data region is untouched.
            assert forall|m: int| dp < m < 4096 implies #[trigger] pf.data@[m] == p0.data@[m] by {
                assert(16 + 8 * n0 + 8 <= m);
                assert(!(dstart <= m < dstart + ll));
            }

            // Well-formedness: sorted keys.
            assert forall|i: int, j: int| 0 <= i < j < n0 + 1
                implies pf.key_at(i) < pf.key_at(j) by {
                if j < ii {
                    assert(p0.key_at(i) < p0.key_at(j));
                } else if j == ii {
                    assert(p0.key_at(i) < k);
                } else if i < ii {
                    assert(p0.key_at(i) < k || i == ii);
                    assert(k < p0.key_at(j - 1));
                } else if i == ii {
                    assert(k < p0.key_at(j - 1));
                } else {
                    assert(p0.key_at(i - 1) < p0.key_at(j - 1));
                }
            }

            // Well-formedness: every slot's value span is in bounds.
            assert forall|t: int| 0 <= t < n0 + 1 implies #[trigger] pf.slot_ok(t) by {
                if t == ii {
                    if vlen == 0 {
                        assert(pf.voff_at(t) == 0);
                    } else {
                        assert(pf.voff_at(t) == dstart && pf.vlen_at(t) == ll);
                        assert(dstart == dp - ll + 1);
                        assert(pf.data_ptr() == dp - ll);
                    }
                } else {
                    let t0 = if t < ii { t } else { t - 1 };
                    assert(p0.slot_ok(t0));
                    assert(pf.voff_at(t) == p0.voff_at(t0) && pf.vlen_at(t) == p0.vlen_at(t0));
                    if p0.vlen_at(t0) > 0 {
                        assert(p0.data_ptr() < p0.voff_at(t0));
                        assert(pf.data_ptr() == dp - ll);
                    }
                }
            }
            assert(pf.wf());

            // The new record is present with exactly the given bytes.
            assert(0 <= ii < pf.n_slots() && pf.key_at(ii) == k);
            pf.lemma_value_of_at(ii, k);
            if vlen > 0 {
                assert forall|q: int| 0 <= q < ll
                    implies #[trigger] pf.data@[dstart + q] == v@[q] by {
                    assert(s_wb.data@[dstart + q] == v@[q]);
                }
            }
            assert(pf.value_at(ii) =~= v@);

            // Every other record is kept, with its value bytes.
            assert forall|k2: u32| k2 != k
                implies #[trigger] pf.has_key(k2) == p0.has_key(k2) by {
                if p0.has_key(k2) {
                    let i = choose|i: int| 0 <= i < n0 && p0.key_at(i) == k2;
                    let t = if i < ii { i } else { i + 1 };
                    assert(pf.key_at(t) == k2);
                }
                if pf.has_key(k2) {
                    let t = choose|t: int| 0 <= t < n0 + 1 && pf.key_at(t) == k2;
                    if t < ii {
                        assert(p0.key_at(t) == k2);
                    } else {
                        assert(t != ii);
                        assert(p0.key_at(t - 1) == k2);
                    }
                }
            }
            assert forall|k2: u32| k2 != k && p0.has_key(k2)
                implies #[trigger] pf.value_of(k2) == p0.value_of(k2) by {
                let i = choose|i: int| 0 <= i < n0 && p0.key_at(i) == k2;
                let t = if i < ii { i } else { i + 1 };
                assert(pf.key_at(t) == k2);
                pf.lemma_value_of_at(t, k2);
                p0.lemma_value_of_at(i, k2);
                assert(pf.voff_at(t) == p0.voff_at(i) && pf.vlen_at(t) == p0.vlen_at(i));
                assert(p0.slot_ok(i));
                if p0.vlen_at(i) > 0 {
                    assert forall|m: int| p0.voff_at(i) <= m < p0.voff_at(i) + p0.vlen_at(i)
                        implies #[trigger] pf.data@[m] == p0.data@[m] by {
                        assert(dp < m);
                    }
                }
                assert(pf.value_at(t) =~= p0.value_at(i));
            }
        }

        Ok(vlen_usize)
    }

    // ---- small observers and dirty control ----

    /// The raw page buffer, for writing to the backing store.
    pub fn buffer(&self) -> (r: &Vec<u8>)
        ensures
            r@ == self.bytes(),
    {
        &self.data
    }

    /// Mutable access to the raw buffer (for a disk read that overwrites the
    /// contents); conservatively marks the page dirty.
    pub fn mut_buffer(&mut self) -> (r: &mut Vec<u8>)
        ensures
            r@ == old(self).bytes(),
            final(self).bytes() == final(r)@,
            final(self).spec_dirty(),
    {
        self.op_dirty();
        &mut self.data
    }

    /// A page is considered loaded/valid when it holds at least one record.
    pub fn is_valiable(&self) -> (r: bool)
        requires
            self.wf(),
        ensures
            r == (self.n_slots() > 0),
    {
        self.get_slot_len() > 0
    }

    pub fn is_dirty(&self) -> (r: bool)
        ensures
            r == self.spec_dirty(),
    {
        self.dirty
    }

    pub fn op_dirty(&mut self)
        ensures
            final(self).spec_dirty(),
            final(self).bytes() == old(self).bytes(),
    {
        self.dirty = true;
    }

    pub fn op_clear(&mut self)
        ensures
            !final(self).spec_dirty(),
            final(self).bytes() == old(self).bytes(),
    {
        self.dirty = false;
    }

    /// The keys of the slot directory in storage order (ascending when the
    /// page is well formed), for scanning.
    pub fn keys(&self) -> (r: Vec<u32>)
        requires
            self.wf(),
        ensures
            r@.len() == self.n_slots(),
            forall|i: int| 0 <= i < r@.len() ==> r@[i] == self.key_at(i),
    {
        proof {
            assert(self.slot_bytes() == 8 * self.n_slots());
        }
        let n: usize = (self.get_slot_len() / 8) as usize;
        let mut out: Vec<u32> = Vec::new();
        let mut i: usize = 0;
        while i < n
            invariant
                self.wf(),
                n == self.n_slots(),
                16 + 8 * n <= 4096,
                i <= n,
                out@.len() == i,
                forall|t: int| 0 <= t < i ==> out@[t] == self.key_at(t),
            decreases n - i,
        {
            out.push(self.read_u32(16 + 8 * i));
            i = i + 1;
        }
        out
    }

    /// Number of records in the page.
    pub fn count_slot(&self) -> (r: u16)
        requires
            self.wf(),
        ensures
            r == self.n_slots(),
    {
        self.get_slot_len() / 8
    }

    // ---- search and lookup ----

    /// Binary search over the sorted slot directory.  Returns `(i, Some(i))`
    /// when slot `i` holds `key`, else `(widx, None)` where `widx` is the
    /// sorted insertion index for `key`.
    fn binary_search(&self, key: u32) -> (r: (usize, Option<usize>))
        requires
            self.wf(),
        ensures
            match r.1 {
                Some(fi) => r.0 == fi && fi < self.n_slots() && self.key_at(fi as int) == key,
                None => {
                    &&& r.0 <= self.n_slots()
                    &&& forall|t: int| 0 <= t < r.0 ==> self.key_at(t) < key
                    &&& forall|t: int| r.0 <= t < self.n_slots() ==> self.key_at(t) > key
                },
            },
    {
        proof {
            assert(self.slot_bytes() == 8 * self.n_slots());
        }
        let n: usize = (self.get_slot_len() / 8) as usize;
        let mut lo: usize = 0;
        let mut hi: usize = n;
        while lo < hi
            invariant
                self.wf(),
                n == self.n_slots(),
                16 + 8 * n <= 4096,
                lo <= hi <= n,
                forall|t: int| 0 <= t < lo ==> self.key_at(t) < key,
                forall|t: int| hi <= t < n ==> self.key_at(t) > key,
            decreases hi - lo,
        {
            let mid: usize = lo + (hi - lo) / 2;
            let kk: u32 = self.read_u32(16 + 8 * mid);
            if kk == key {
                return (mid, Some(mid));
            } else if kk < key {
                proof {
                    assert forall|t: int| 0 <= t < mid + 1 implies self.key_at(t) < key by {
                        if t < mid {
                            assert(self.key_at(t) < self.key_at(mid as int));
                        }
                    }
                }
                lo = mid + 1;
            } else {
                proof {
                    assert forall|t: int| mid <= t < n implies self.key_at(t) > key by {
                        if t > mid {
                            assert(self.key_at(mid as int) < self.key_at(t));
                        }
                    }
                }
                hi = mid;
            }
        }
        (lo, None)
    }

    /// Look up key `k`: a copy of the value bytes most recently saved for
    /// `k`, or `None` when `k` was never saved.
    pub fn obtain(&self, k: u32) -> (r: Option<Vec<u8>>)
        requires
            self.wf(),
        ensures
            match r {
                Some(v) => self.has_key(k) && v@ == self.value_of(k),
                None => !self.has_key(k),
            },
    {
        let (_widx, page_opt) = self.binary_search(k);
        match page_opt {
            None => {
                proof {
                    if self.has_key(k) {
                        let i = choose|i: int|
                            0 <= i < self.n_slots() && self.key_at(i) == k;
                        assert(self.key_at(i) == k);
                    }
                }
                None
            },
            Some(fi) => {
                proof {
                    assert(self.slot_bytes() == 8 * self.n_slots());
                    assert(self.slot_ok(fi as int));
                }
                let pointer: usize = self.read_u16(16 + 8 * fi + 4) as usize;
                let len: usize = self.read_u16(16 + 8 * fi + 6) as usize;
                let mut out: Vec<u8> = Vec::new();
                let mut t: usize = 0;
                while t < len
                    invariant
                        self.wf(),
                        t <= len,
                        out@.len() == t,
                        pointer == self.voff_at(fi as int),
                        len == self.vlen_at(fi as int),
                        len > 0 ==> pointer + len <= 4096,
                        forall|q: int| 0 <= q < t ==> out@[q] == self.data@[pointer + q],
                    decreases len - t,
                {
                    out.push(self.data[pointer + t]);
                    t = t + 1;
                }
                proof {
                    self.lemma_value_of_at(fi as int, k);
                    assert(out@ =~= self.value_at(fi as int));
                }
                Some(out)
            },
        }
    }

    /// Bytes still free between the slot directory and the data region.
    pub fn left_space(&self) -> (r: u16)
        requires
            self.wf(),
        ensures
            r == self.free_space(),
    {
        let dp: u16 = self.get_data_pointer();
        let sp: u16 = self.get_slot_pointer();
        let sl: u16 = self.get_slot_len();
        dp + 1 - sp - sl
    }
}

} // verus!
