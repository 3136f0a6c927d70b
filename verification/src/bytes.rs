//! Low-level byte primitives of the container format: little-endian 32-bit
//! values and padding to 16-byte boundaries.

use vstd::prelude::*;

verus! {

/// The four bytes of a 32-bit value in little-endian order.
pub open spec fn le32(v: int) -> Seq<u8> {
    seq![
        (v % 0x100) as u8,
        (v / 0x100 % 0x100) as u8,
        (v / 0x10000 % 0x100) as u8,
        (v / 0x1000000 % 0x100) as u8,
    ]
}

/// The 32-bit little-endian value stored at position `p` of `d`.
pub open spec fn u32_at(d: Seq<u8>, p: int) -> int {
    d[p] + d[p + 1] * 0x100 + d[p + 2] * 0x10000 + d[p + 3] * 0x1000000
}

pub proof fn lemma_le32_value(v: int)
    requires
        0 <= v < 0x1_0000_0000,
    ensures
        le32(v)[0] + le32(v)[1] * 0x100 + le32(v)[2] * 0x10000 + le32(v)[3] * 0x1000000 == v,
{
    assert(v % 0x100 + (v / 0x100 % 0x100) * 0x100 + (v / 0x10000 % 0x100) * 0x10000 + (v
        / 0x1000000 % 0x100) * 0x1000000 == v) by (nonlinear_arith)
        requires
            0 <= v < 0x1_0000_0000,
    ;
}

/// Reading back four bytes that hold `le32(v)` yields `v`.
pub proof fn lemma_u32_at_le32(d: Seq<u8>, p: int, v: int)
    requires
        0 <= p,
        p + 4 <= d.len(),
        0 <= v < 0x1_0000_0000,
        d.subrange(p, p + 4) == le32(v),
    ensures
        u32_at(d, p) == v,
{
    assert(d[p] == d.subrange(p, p + 4)[0]);
    assert(d[p + 1] == d.subrange(p, p + 4)[1]);
    assert(d[p + 2] == d.subrange(p, p + 4)[2]);
    assert(d[p + 3] == d.subrange(p, p + 4)[3]);
    lemma_le32_value(v);
}

/// The next multiple of 16 at or above `n`.
pub open spec fn round16(n: int) -> int {
    ((n + 15) / 16) * 16
}

pub proof fn lemma_round16(n: int)
    requires
        n >= 0,
    ensures
        round16(n) % 16 == 0,
        n <= round16(n) < n + 16,
        n % 16 == 0 ==> round16(n) == n,
        n % 16 != 0 ==> round16(n) == n + 16 - n % 16,
{
    assert(((n + 15) / 16) * 16 % 16 == 0 && n <= ((n + 15) / 16) * 16 < n + 16 && (n % 16 == 0
        ==> ((n + 15) / 16) * 16 == n) && (n % 16 != 0 ==> ((n + 15) / 16) * 16 == n + 16 - n
        % 16)) by (nonlinear_arith)
        requires
            n >= 0,
    ;
}

/// A multiple of 16 below `n` has `round16` distribute over the sum.
pub proof fn lemma_round16_shift(a: int, n: int)
    requires
        a >= 0,
        n >= 0,
        a % 16 == 0,
    ensures
        round16(a + n) == a + round16(n),
        (a + n) % 16 == n % 16,
{
    assert(((a + n + 15) / 16) * 16 == a + ((n + 15) / 16) * 16 && (a + n) % 16 == n % 16)
        by (nonlinear_arith)
        requires
            a >= 0,
            n >= 0,
            a % 16 == 0,
    ;
}

/// Any multiple of 16 at or above `n` is at or above `round16(n)`.
pub proof fn lemma_round16_least(n: int, m: int)
    requires
        n >= 0,
        m >= n,
        m % 16 == 0,
    ensures
        m >= round16(n),
{
    assert(m >= ((n + 15) / 16) * 16) by (nonlinear_arith)
        requires
            n >= 0,
            m >= n,
            m % 16 == 0,
    ;
}

/// `k` zero bytes (empty when `k` is not positive).
pub open spec fn zeros(k: int) -> Seq<u8> {
    Seq::new(
        if k >= 0 {
            k as nat
        } else {
            0
        },
        |i: int| 0u8,
    )
}

/// `s` padded with zero bytes to the next 16-byte boundary.
pub open spec fn pad16(s: Seq<u8>) -> Seq<u8> {
    s + zeros(round16(s.len() as int) - s.len())
}

pub proof fn lemma_pad16(s: Seq<u8>)
    ensures
        pad16(s).len() == round16(s.len() as int),
        forall|k: int| 0 <= k < s.len() ==> pad16(s)[k] == s[k],
        forall|k: int| s.len() <= k < pad16(s).len() ==> pad16(s)[k] == 0,
{
    lemma_round16(s.len() as int);
}

/// Padding after a 16-byte-aligned prefix only pads what follows it.
pub proof fn lemma_pad16_concat(a: Seq<u8>, s: Seq<u8>)
    requires
        a.len() % 16 == 0,
    ensures
        pad16(a + s) == a + pad16(s),
{
    lemma_round16_shift(a.len() as int, s.len() as int);
    assert(pad16(a + s) =~= a + pad16(s));
}

/// The concatenated little-endian encodings of a sequence of values.
pub open spec fn table32(vals: Seq<int>) -> Seq<u8>
    decreases vals.len(),
{
    if vals.len() == 0 {
        Seq::empty()
    } else {
        table32(vals.drop_last()) + le32(vals.last())
    }
}

pub proof fn lemma_table32_len(vals: Seq<int>)
    ensures
        table32(vals).len() == 4 * vals.len(),
    decreases vals.len(),
{
    if vals.len() > 0 {
        lemma_table32_len(vals.drop_last());
    }
}

pub proof fn lemma_table32_index(vals: Seq<int>, j: int)
    requires
        0 <= j < vals.len(),
    ensures
        forall|k: int|
            4 * j <= k < 4 * j + 4 ==> #[trigger] table32(vals)[k] == le32(vals[j])[k - 4 * j],
    decreases vals.len(),
{
    lemma_table32_len(vals.drop_last());
    if j == vals.len() - 1 {
        assert forall|k: int| 4 * j <= k < 4 * j + 4 implies #[trigger] table32(vals)[k] == le32(
            vals[j],
        )[k - 4 * j] by {
            assert(table32(vals)[k] == le32(vals.last())[k - 4 * j]);
        }
    } else {
        lemma_table32_index(vals.drop_last(), j);
        assert forall|k: int| 4 * j <= k < 4 * j + 4 implies #[trigger] table32(vals)[k] == le32(
            vals[j],
        )[k - 4 * j] by {
            assert(table32(vals)[k] == table32(vals.drop_last())[k]);
            assert(vals.drop_last()[j] == vals[j]);
        }
    }
}

/// Each position of a 32-bit table, by which value and which of its bytes
/// lies there.
pub open spec fn slot_j(k: int) -> int {
    (k - 16) / 4
}

pub open spec fn slot_t(k: int) -> int {
    (k - 16) % 4
}

pub proof fn lemma_table32_slots(vals: Seq<int>)
    ensures
        forall|k: int|
            16 <= k < 16 + 4 * vals.len() ==> #[trigger] table32(vals)[k - 16] == le32(
                vals[slot_j(k)],
            )[slot_t(k)],
{
    assert forall|k: int| 16 <= k < 16 + 4 * vals.len() implies #[trigger] table32(vals)[k - 16]
        == le32(vals[slot_j(k)])[slot_t(k)] by {
        let j = slot_j(k);
        let t = slot_t(k);
        assert(4 * j + t == k - 16 && 0 <= t < 4 && 0 <= j < vals.len()) by (nonlinear_arith)
            requires
                16 <= k < 16 + 4 * vals.len(),
                j == (k - 16) / 4,
                t == (k - 16) % 4,
        ;
        lemma_table32_index(vals, j);
        assert(table32(vals)[k - 16] == le32(vals[j])[(k - 16) - 4 * j]);
    }
}

/// Reads the little-endian 32-bit value at position `p`, if it lies within `d`.
pub fn read_u32_at(d: &Vec<u8>, p: usize) -> (r: Option<u32>)
    ensures
        match r {
            Some(v) => p + 4 <= d@.len() && v as int == u32_at(d@, p as int),
            None => p + 4 > d@.len(),
        },
{
    if d.len() >= 4 && p <= d.len() - 4 {
        let b0 = d[p];
        let b1 = d[p + 1];
        let b2 = d[p + 2];
        let b3 = d[p + 3];
        let v: u32 = b0 as u32 + (b1 as u32) * 0x100 + (b2 as u32) * 0x10000 + (b3 as u32)
            * 0x1000000;
        Some(v)
    } else {
        None
    }
}

/// Copies `n` bytes of `d` starting at `start`, if the run lies within `d`.
pub fn copy_range(d: &Vec<u8>, start: usize, n: usize) -> (r: Option<Vec<u8>>)
    ensures
        match r {
            Some(v) => start + n <= d@.len() && v@ == d@.subrange(
                start as int,
                start as int + n as int,
            ),
            None => start + n > d@.len(),
        },
{
    if n <= d.len() && start <= d.len() - n {
        let dlen = d.len();
        let mut out: Vec<u8> = Vec::new();
        let mut i: usize = 0;
        while i < n
            invariant
                i <= n,
                dlen == d@.len(),
                start + n <= dlen,
                out@ == d@.subrange(start as int, start as int + i as int),
            decreases n - i,
        {
            out.push(d[start + i]);
            assert(out@ =~= d@.subrange(start as int, start as int + i as int + 1));
            i = i + 1;
        }
        Some(out)
    } else {
        None
    }
}

} // verus!
