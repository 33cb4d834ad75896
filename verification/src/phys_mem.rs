//! The model of usable physical memory: the page frames between the end of
//! the kernel image and the end of RAM, each frame holding 512 eight-byte
//! words.  Page-table nodes read and write whole words; user data is
//! addressed byte by byte, little-endian within each word.

use vstd::prelude::*;

verus! {

/// Byte `k` (0 = least significant) of the word `w`.
pub open spec fn word_byte(w: u64, k: u64) -> u8 {
    ((w >> ((8 * k) as u64)) & 0xFF) as u8
}

/// The frames of usable physical memory, indexed by physical page number
/// starting at `base`.
pub struct PhysMemory {
    base: u64,
    frames: Vec<Vec<u64>>,
}

impl PhysMemory {
    /// The first physical page number the model covers.
    pub closed spec fn base_ppn(self) -> u64 {
        self.base
    }

    /// How many frames the model covers.
    pub closed spec fn num_frames(self) -> int {
        self.frames@.len() as int
    }

    /// Whether `ppn` is one of the covered frames.
    pub open spec fn contains_ppn(self, ppn: u64) -> bool {
        self.base_ppn() <= ppn < self.base_ppn() + self.num_frames()
    }

    /// Word `i` of frame `ppn`.
    pub closed spec fn word(self, ppn: u64, i: int) -> u64 {
        self.frames@[ppn - self.base][i]
    }

    /// Byte `j` of frame `ppn`.
    pub open spec fn byte(self, ppn: u64, j: int) -> u8 {
        word_byte(self.word(ppn, j / 8), (j % 8) as u64)
    }

    /// The 4096 bytes of frame `ppn`.
    pub open spec fn frame_bytes(self, ppn: u64) -> Seq<u8> {
        Seq::new(4096, |j: int| self.byte(ppn, j))
    }

    /// Every word of frame `ppn` is zero.
    pub open spec fn frame_zero(self, ppn: u64) -> bool {
        forall|i: int| 0 <= i < 512 ==> self.word(ppn, i) == 0
    }

    /// Every covered frame has exactly 512 words and the covered page
    /// numbers stay inside the sv39 physical width.
    pub closed spec fn wf(self) -> bool {
        &&& forall|i: int| 0 <= i < self.frames@.len() ==> self.frames@[i].len() == 512
        &&& self.base + self.frames@.len() <= 0x1000_0000_0000u64
    }

    /// All covered page numbers are well-formed.
    pub proof fn lemma_wf_ppn_bound(self, ppn: u64)
        requires
            self.wf(),
            self.contains_ppn(ppn),
        ensures
            ppn < 0x1000_0000_0000u64,
    {
    }

    /// Builds a model of `count` zeroed frames starting at page `base`.
    pub fn new(base: u64, count: usize) -> (r: Self)
        requires
            base + count <= 0x1000_0000_0000u64,
        ensures
            r.wf(),
            r.base_ppn() == base,
            r.num_frames() == count,
            forall|ppn: u64, i: int|
                r.contains_ppn(ppn) && 0 <= i < 512 ==> r.word(ppn, i) == 0,
    {
        let mut frames: Vec<Vec<u64>> = Vec::new();
        let mut n: usize = 0;
        while n < count
            invariant
                n <= count,
                frames@.len() == n,
                forall|i: int| 0 <= i < n ==> frames@[i].len() == 512,
                forall|i: int, k: int| 0 <= i < n && 0 <= k < 512 ==> frames@[i][k] == 0,
            decreases count - n,
        {
            let mut frame: Vec<u64> = Vec::new();
            let mut k: usize = 0;
            while k < 512
                invariant
                    k <= 512,
                    frame@.len() == k,
                    forall|i: int| 0 <= i < k ==> frame@[i] == 0,
                decreases 512 - k,
            {
                frame.push(0);
                k = k + 1;
            }
            frames.push(frame);
            n = n + 1;
        }
        PhysMemory { base, frames }
    }

    /// Whether `ppn` is one of the covered frames.
    pub fn contains(&self, ppn: u64) -> (r: bool)
        ensures
            r == self.contains_ppn(ppn),
    {
        let n: usize = self.frames.len();
        self.base <= ppn && ppn - self.base < n as u64
    }

    /// Reads word `i` of frame `ppn`.
    pub fn read_word(&self, ppn: u64, i: usize) -> (r: u64)
        requires
            self.wf(),
            self.contains_ppn(ppn),
            i < 512,
        ensures
            r == self.word(ppn, i as int),
    {
        let n: usize = self.frames.len();
        proof {
            assert(ppn - self.base < n);
        }
        let idx: usize = (ppn - self.base) as usize;
        self.frames[idx][i]
    }

    /// Writes word `i` of frame `ppn`; no other word of any frame changes.
    pub fn write_word(&mut self, ppn: u64, i: usize, w: u64)
        requires
            old(self).wf(),
            old(self).contains_ppn(ppn),
            i < 512,
        ensures
            final(self).wf(),
            final(self).base_ppn() == old(self).base_ppn(),
            final(self).num_frames() == old(self).num_frames(),
            final(self).word(ppn, i as int) == w,
            forall|p: u64, k: int|
                old(self).contains_ppn(p) && 0 <= k < 512 && !(p == ppn && k == i as int)
                    ==> final(self).word(p, k) == old(self).word(p, k),
    {
        let n: usize = self.frames.len();
        proof {
            assert(ppn - self.base < n);
        }
        let idx: usize = (ppn - self.base) as usize;
        let row = &mut self.frames[idx];
        row[i] = w;
    }

    /// Fills frame `ppn` with zero words; no other frame changes.
    pub fn zero_frame(&mut self, ppn: u64)
        requires
            old(self).wf(),
            old(self).contains_ppn(ppn),
        ensures
            final(self).wf(),
            final(self).base_ppn() == old(self).base_ppn(),
            final(self).num_frames() == old(self).num_frames(),
            final(self).frame_zero(ppn),
            forall|p: u64, k: int|
                old(self).contains_ppn(p) && 0 <= k < 512 && p != ppn
                    ==> final(self).word(p, k) == old(self).word(p, k),
    {
        let mut i: usize = 0;
        while i < 512
            invariant
                i <= 512,
                self.wf(),
                self.base_ppn() == old(self).base_ppn(),
                self.num_frames() == old(self).num_frames(),
                old(self).contains_ppn(ppn),
                forall|k: int| 0 <= k < i ==> self.word(ppn, k) == 0,
                forall|p: u64, k: int|
                    old(self).contains_ppn(p) && 0 <= k < 512 && p != ppn
                        ==> self.word(p, k) == old(self).word(p, k),
            decreases 512 - i,
        {
            self.write_word(ppn, i, 0);
            i = i + 1;
        }
    }

    /// Reads byte `j` of frame `ppn`.
    pub fn read_byte(&self, ppn: u64, j: usize) -> (r: u8)
        requires
            self.wf(),
            self.contains_ppn(ppn),
            j < 4096,
        ensures
            r == self.byte(ppn, j as int),
    {
        let w: u64 = self.read_word(ppn, j / 8);
        let k: u64 = (j % 8) as u64;
        let r: u8 = ((w >> (8 * k)) & 0xFF) as u8;
        proof {
            assert(8 * k == (8 * k) as u64) by {
                assert(k < 8);
            }
        }
        r
    }

    /// Writes byte `j` of frame `ppn`; no other byte of any frame changes,
    /// and no word of any other frame changes.
    pub fn write_byte(&mut self, ppn: u64, j: usize, b: u8)
        requires
            old(self).wf(),
            old(self).contains_ppn(ppn),
            j < 4096,
        ensures
            final(self).wf(),
            final(self).base_ppn() == old(self).base_ppn(),
            final(self).num_frames() == old(self).num_frames(),
            final(self).byte(ppn, j as int) == b,
            forall|p: u64, jj: int|
                old(self).contains_ppn(p) && 0 <= jj < 4096 && !(p == ppn && jj == j as int)
                    ==> final(self).byte(p, jj) == old(self).byte(p, jj),
            forall|p: u64, k: int|
                old(self).contains_ppn(p) && 0 <= k < 512 && !(p == ppn && k == j as int / 8)
                    ==> final(self).word(p, k) == old(self).word(p, k),
    {
        let w: u64 = self.read_word(ppn, j / 8);
        let k: u64 = (j % 8) as u64;
        let s: u64 = 8 * k;
        let neww: u64 = (w & !(0xFFu64 << s)) | ((b as u64) << s);
        proof {
            lemma_word_byte_update(w, b, k);
        }
        self.write_word(ppn, j / 8, neww);
        proof {
            assert forall|p: u64, jj: int|
                old(self).contains_ppn(p) && 0 <= jj < 4096 && !(p == ppn && jj == j as int)
                    implies self.byte(p, jj) == old(self).byte(p, jj) by {
                if p == ppn && jj / 8 == j as int / 8 {
                    assert(jj % 8 != j as int % 8);
                    lemma_word_byte_update(w, b, k);
                }
            }
        }
    }
}

/// Updating byte `k` of a word by mask-and-or sets that byte and leaves
/// the other seven unchanged.
pub proof fn lemma_word_byte_update(w: u64, b: u8, k: u64)
    requires
        k < 8,
    ensures
        word_byte((w & !(0xFFu64 << ((8 * k) as u64))) | ((b as u64) << ((8 * k) as u64)), k)
            == b,
        forall|k2: u64|
            k2 < 8 && k2 != k ==> word_byte(
                (w & !(0xFFu64 << ((8 * k) as u64))) | ((b as u64) << ((8 * k) as u64)),
                k2,
            ) == word_byte(w, k2),
{
    let s: u64 = (8 * k) as u64;
    let neww: u64 = (w & !(0xFFu64 << s)) | ((b as u64) << s);
    assert(k < 8 ==> ((((w & !(0xFFu64 << ((8 * k) as u64))) | ((b as u64) << ((8 * k)
        as u64))) >> ((8 * k) as u64)) & 0xFF) as u8 == b) by (bit_vector);
    assert forall|k2: u64| k2 < 8 && k2 != k implies word_byte(neww, k2) == word_byte(w, k2)
        by {
        assert(k < 8 && k2 < 8 && k2 != k ==> ((((w & !(0xFFu64 << ((8 * k) as u64)))
            | ((b as u64) << ((8 * k) as u64))) >> ((8 * k2) as u64)) & 0xFF) as u8
            == ((w >> ((8 * k2) as u64)) & 0xFF) as u8) by (bit_vector);
    }
}

/// Every byte of a zero word is zero, so a zeroed frame reads as all
/// zero bytes.
pub proof fn lemma_zero_frame_bytes(mem: PhysMemory, ppn: u64)
    requires
        mem.frame_zero(ppn),
    ensures
        forall|j: int| 0 <= j < 4096 ==> mem.byte(ppn, j) == 0,
{
    assert forall|j: int| 0 <= j < 4096 implies mem.byte(ppn, j) == 0 by {
        assert(0 <= j / 8 < 512);
        let k: u64 = (j % 8) as u64;
        assert(((0u64 >> ((8 * k) as u64)) & 0xFF) as u8 == 0) by (bit_vector);
    }
}

} // verus!
