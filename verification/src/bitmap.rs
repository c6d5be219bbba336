use vstd::prelude::*;

verus! {

/// Bitmap frame allocator: one bit per frame, set = occupied.
///
/// Frame `i` lives in byte `i / 8`, at position `i % 8` counted from the
/// most significant bit.  The spare bits of the last byte (those at or past
/// the requested size) are set at construction so that `issue` can never
/// hand out a frame index the pool does not have.
#[derive(Debug)]
pub struct Qcbitmap(pub Vec<u8>);

impl Qcbitmap {
    /// True iff bit `idx` is set (frame `idx` occupied).
    pub open spec fn bit(self, idx: int) -> bool {
        self.0@[idx / 8] & (0x80u8 >> ((idx % 8) as u8)) != 0
    }

    /// Number of bits the map covers (a multiple of 8).
    pub open spec fn nbits(self) -> int {
        8 * self.0@.len() as int
    }

    pub open spec fn wf(self) -> bool {
        1 <= self.0@.len() <= usize::MAX / 8
    }

    /// A fresh map for `size` frames: bits `0 .. size` clear, spare bits of
    /// the last byte set.
    pub fn new(size: usize) -> (r: Self)
        requires
            1 <= size <= usize::MAX - 7,
        ensures
            r.wf(),
            size <= r.nbits(),
            forall|j: int| 0 <= j < size ==> !r.bit(j),
            forall|j: int| size <= j < r.nbits() ==> r.bit(j),
    {
        let num: usize = (size - 1) / 8 + 1;
        let mut bytes: Vec<u8> = Vec::new();
        let mut i: usize = 0;
        while i < num
            invariant
                i <= num,
                bytes@.len() == i,
                forall|k: int| 0 <= k < i ==> bytes@[k] == 0u8,
            decreases num - i,
        {
            bytes.push(0u8);
            i = i + 1;
        }
        let mut map = Qcbitmap(bytes);
        proof {
            assert(size <= 8 * num && 8 * num <= size + 7) by (nonlinear_arith)
                requires num == (size - 1) / 8 + 1 && 1 <= size;
            assert forall|j: int| 0 <= j < map.nbits() implies !map.bit(j) by {
                assert(0 <= j / 8 < map.0@.len());
                assert(map.0@[j / 8] == 0u8);
                let k: u8 = (j % 8) as u8;
                assert(0u8 & (0x80u8 >> k) == 0u8) by (bit_vector);
            }
        }
        let mut j: usize = size;
        let nb: usize = 8 * num;
        while j < nb
            invariant
                size <= j <= nb,
                nb == map.nbits(),
                map.wf(),
                forall|k: int| 0 <= k < size ==> !map.bit(k),
                forall|k: int| size <= k < j ==> map.bit(k),
            decreases nb - j,
        {
            map.set(j);
            j = j + 1;
        }
        map
    }

    /// Mark bit `idx` occupied; every other bit keeps its value.
    pub fn set(&mut self, idx: usize) -> (r: Option<()>)
        requires
            old(self).wf(),
            idx < old(self).nbits(),
        ensures
            final(self).wf(),
            final(self).nbits() == old(self).nbits(),
            final(self).bit(idx as int),
            forall|j: int| 0 <= j < old(self).nbits() && j != idx ==> final(self).bit(j) == old(self).bit(j),
            r is Some,
    {
        let block_num: usize = idx / 8;
        let block_offset: u8 = (idx % 8) as u8;
        let b: u8 = self.0[block_num];
        self.0.set(block_num, b | (0x80u8 >> block_offset));
        proof {
            let o: u8 = block_offset;
            assert(((b | (0x80u8 >> o)) & (0x80u8 >> o)) != 0) by (bit_vector)
                requires o < 8;
            assert forall|j: int| 0 <= j < old(self).nbits() && j != idx
                implies final(self).bit(j) == old(self).bit(j) by {
                if j / 8 == idx as int / 8 {
                    assert(j == 8 * (j / 8) + j % 8);
                    assert(idx as int == 8 * (idx as int / 8) + idx as int % 8);
                    let k: u8 = (j % 8) as u8;
                    assert((((b | (0x80u8 >> o)) & (0x80u8 >> k) != 0) <==> (k == o || b & (0x80u8 >> k) != 0)))
                        by (bit_vector)
                        requires o < 8 && k < 8;
                }
            }
        }
        Some(())
    }

    /// Clear bit `idx` (frame released); idempotent on an already-clear bit.
    pub fn release(&mut self, idx: usize)
        requires
            old(self).wf(),
            idx < old(self).nbits(),
        ensures
            final(self).wf(),
            final(self).nbits() == old(self).nbits(),
            !final(self).bit(idx as int),
            forall|j: int| 0 <= j < old(self).nbits() && j != idx ==> final(self).bit(j) == old(self).bit(j),
    {
        let block_num: usize = idx / 8;
        let block_offset: u8 = (idx % 8) as u8;
        let b: u8 = self.0[block_num];
        self.0.set(block_num, b & !(0x80u8 >> block_offset));
        proof {
            let o: u8 = block_offset;
            assert(((b & !(0x80u8 >> o)) & (0x80u8 >> o)) == 0) by (bit_vector)
                requires o < 8;
            assert forall|j: int| 0 <= j < old(self).nbits() && j != idx
                implies final(self).bit(j) == old(self).bit(j) by {
                if j / 8 == idx as int / 8 {
                    assert(j == 8 * (j / 8) + j % 8);
                    assert(idx as int == 8 * (idx as int / 8) + idx as int % 8);
                    let k: u8 = (j % 8) as u8;
                    assert((((b & !(0x80u8 >> o)) & (0x80u8 >> k) != 0) <==> (k != o && b & (0x80u8 >> k) != 0)))
                        by (bit_vector)
                        requires o < 8 && k < 8;
                }
            }
        }
    }

    /// Lowest-index clear bit, scanning deterministically from bit 0;
    /// `None` iff every bit is set.
    pub fn issue(&self) -> (r: Option<usize>)
        requires
            self.wf(),
        ensures
            match r {
                Some(i) => i < self.nbits() && !self.bit(i as int)
                    && forall|j: int| 0 <= j < i ==> self.bit(j),
                None => forall|j: int| 0 <= j < self.nbits() ==> self.bit(j),
            },
    {
        let mut ox: usize = 0;
        while ox < self.0.len()
            invariant
                self.wf(),
                ox <= self.0@.len(),
                forall|j: int| 0 <= j < 8 * ox ==> self.bit(j),
            decreases self.0@.len() - ox,
        {
            let ob: u8 = self.0[ox];
            let mut ci: u8 = 0;
            while ci < 8
                invariant
                    self.wf(),
                    ox < self.0@.len(),
                    ci <= 8,
                    ob == self.0@[ox as int],
                    forall|j: int| 0 <= j < 8 * ox + ci ==> self.bit(j),
                decreases 8 - ci,
            {
                if ob & (0x80u8 >> ci) == 0 {
                    let found: usize = ox * 8 + ci as usize;
                    proof {
                        assert(found as int / 8 == ox as int && found as int % 8 == ci as int);
                    }
                    return Some(found);
                }
                proof {
                    let j = 8 * ox as int + ci as int;
                    assert(j / 8 == ox as int && j % 8 == ci as int);
                    assert(self.bit(j));
                }
                ci = ci + 1;
            }
            ox = ox + 1;
        }
        None
    }
}

} // verus!
