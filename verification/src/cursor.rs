//! The write cursor of the encoder: append-only output plus a list of
//! (slot, value) patches resolved in one finalize pass, for offsets that are
//! known only after later content is laid out.

use vstd::prelude::*;
use crate::bytes::{le32, pad16, round16, zeros};
use crate::bytes::{lemma_round16, lemma_round16_least};

verus! {

/// `b` with the four bytes at `p` replaced by `le32(v)`.
pub open spec fn splice32(b: Seq<u8>, p: int, v: int) -> Seq<u8> {
    b.subrange(0, p) + le32(v) + b.subrange(p + 4, b.len() as int)
}

/// All patches applied in order.
pub open spec fn apply_patches(b: Seq<u8>, ps: Seq<(usize, u32)>) -> Seq<u8>
    decreases ps.len(),
{
    if ps.len() == 0 {
        b
    } else {
        splice32(apply_patches(b, ps.drop_last()), ps.last().0 as int, ps.last().1 as int)
    }
}

pub struct Writer {
    pub out: Vec<u8>,
    pub patches: Vec<(usize, u32)>,
}

impl Writer {
    pub fn new() -> (r: Writer)
        ensures
            r.out@ == Seq::<u8>::empty(),
            r.patches@ == Seq::<(usize, u32)>::empty(),
    {
        let r = Writer { out: Vec::new(), patches: Vec::new() };
        proof {
            assert(r.out@ =~= Seq::<u8>::empty());
            assert(r.patches@ =~= Seq::<(usize, u32)>::empty());
        }
        r
    }

    pub fn write_bytes(&mut self, b: &Vec<u8>)
        ensures
            final(self).out@ == old(self).out@ + b@,
            final(self).patches@ == old(self).patches@,
    {
        self.out.extend_from_slice(b.as_slice());
    }

    pub fn write_u8(&mut self, b: u8)
        ensures
            final(self).out@ == old(self).out@ + seq![b],
            final(self).patches@ == old(self).patches@,
    {
        self.out.push(b);
        proof {
            assert(self.out@ =~= old(self).out@ + seq![b]);
        }
    }

    pub fn write_u32(&mut self, v: u32)
        ensures
            final(self).out@ == old(self).out@ + le32(v as int),
            final(self).patches@ == old(self).patches@,
    {
        self.out.push((v % 0x100) as u8);
        self.out.push((v / 0x100 % 0x100) as u8);
        self.out.push((v / 0x10000 % 0x100) as u8);
        self.out.push((v / 0x1000000 % 0x100) as u8);
        proof {
            assert(self.out@ =~= old(self).out@ + le32(v as int));
        }
    }

    /// Reserves a four-byte slot for a value not yet known and returns its
    /// position.
    pub fn reserve_u32(&mut self) -> (slot: usize)
        ensures
            final(self).out@ == old(self).out@ + le32(0),
            final(self).patches@ == old(self).patches@,
            slot == old(self).out@.len(),
    {
        let slot = self.out.len();
        self.write_u32(0);
        slot
    }

    /// Records the value a reserved slot must finally hold.
    pub fn schedule_patch(&mut self, slot: usize, v: u32)
        ensures
            final(self).out@ == old(self).out@,
            final(self).patches@ == old(self).patches@.push((slot, v)),
    {
        self.patches.push((slot, v));
    }

    /// Zero-pads the output to the next 16-byte boundary.
    pub fn align16(&mut self)
        ensures
            final(self).out@ == pad16(old(self).out@),
            final(self).patches@ == old(self).patches@,
    {
        let ghost base = self.out@;
        proof {
            lemma_round16(base.len() as int);
        }
        while self.out.len() % 16 != 0
            invariant
                base.len() <= self.out@.len() <= round16(base.len() as int),
                self.out@ == base + zeros(self.out@.len() - base.len()),
                self.patches@ == old(self).patches@,
            decreases round16(base.len() as int) - self.out@.len(),
        {
            proof {
                lemma_round16(base.len() as int);
            }
            self.out.push(0);
            proof {
                assert(self.out@ =~= base + zeros(self.out@.len() - base.len()));
            }
        }
        proof {
            lemma_round16(base.len() as int);
            lemma_round16_least(base.len() as int, self.out@.len() as int);
            assert(self.out@.len() == round16(base.len() as int));
            assert(self.out@ =~= pad16(base));
        }
    }

    /// Applies every scheduled patch and hands the finished buffer out.
    pub fn finish(self) -> (r: Vec<u8>)
        requires
            forall|j: int|
                0 <= j < self.patches@.len() ==> #[trigger] self.patches@[j].0 + 4
                    <= self.out@.len(),
        ensures
            r@ == apply_patches(self.out@, self.patches@),
    {
        let Writer { out, patches } = self;
        let ghost base = out@;
        let ghost ps = patches@;
        let mut buf = out;
        let total = buf.len();
        let n = patches.len();
        let mut i: usize = 0;
        while i < n
            invariant
                i <= n,
                n == ps.len(),
                patches@ == ps,
                total == base.len(),
                forall|j: int| 0 <= j < ps.len() ==> #[trigger] ps[j].0 + 4 <= base.len(),
                buf@ == apply_patches(base, ps.take(i as int)),
                buf@.len() == base.len(),
            decreases n - i,
        {
            let (p, v) = patches[i];
            let ghost before = buf@;
            assert(ps[i as int].0 + 4 <= base.len());
            assert(p + 4 <= total);
            buf.set(p, (v % 0x100) as u8);
            buf.set(p + 1, (v / 0x100 % 0x100) as u8);
            buf.set(p + 2, (v / 0x10000 % 0x100) as u8);
            buf.set(p + 3, (v / 0x1000000 % 0x100) as u8);
            proof {
                assert(buf@ =~= splice32(before, p as int, v as int));
                assert(ps.take(i + 1).drop_last() =~= ps.take(i as int));
                assert(ps.take(i + 1).last() == ps[i as int]);
                assert(buf@ == apply_patches(base, ps.take(i + 1)));
            }
            i = i + 1;
        }
        proof {
            assert(ps.take(n as int) =~= ps);
        }
        buf
    }
}

} // verus!
