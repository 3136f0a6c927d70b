//! The container codec: the byte layout of an encoded archive as spec
//! functions, the verified decoder and encoder, and the round-trip laws.

use vstd::prelude::*;
use crate::archive::{sorted_ids, spec_insert, Xmd};
use crate::bytes::{le32, pad16, round16, slot_j, slot_t, table32, u32_at, zeros};
use crate::bytes::{
    lemma_pad16, lemma_pad16_concat, lemma_round16, lemma_round16_shift, lemma_table32_index,
    lemma_table32_len, lemma_table32_slots, lemma_u32_at_le32,
};
use crate::bytes::{copy_range, read_u32_at};
use crate::cursor::{apply_patches, splice32, Writer};
use crate::error::XmdError;
use crate::gzip::gunzip_of;

verus! {

/// The fixed first 12 bytes: the null-terminated "XMD" tag and the 8
/// reserved bytes the format always carries.
pub open spec fn magic12() -> Seq<u8> {
    seq![0x58u8, 0x4du8, 0x44u8, 0u8, 0x30u8, 0x30u8, 0x31u8, 0u8, 3u8, 0u8, 0u8, 0u8]
}

/// Start of the lengths table, for an `n`-entry container.
pub open spec fn pos_lens(n: int) -> int {
    round16(16 + 4 * n)
}

/// Start of the ids table.
pub open spec fn pos_ids(n: int) -> int {
    round16(pos_lens(n) + 4 * n)
}

/// Start of the payload area.
pub open spec fn pos_payload(n: int) -> int {
    round16(pos_ids(n) + 4 * n)
}

/// Total size of the first `i` payload blocks, each padded to 16 bytes.
pub open spec fn psum(m: Seq<(u32, Seq<u8>)>, i: int) -> int
    decreases i,
{
    if i <= 0 {
        0
    } else {
        psum(m, i - 1) + round16(m[i - 1].1.len() as int)
    }
}

/// Absolute position of payload block `i`.
pub open spec fn off(m: Seq<(u32, Seq<u8>)>, i: int) -> int {
    pos_payload(m.len() as int) + psum(m, i)
}

/// Length of the whole encoded container.
pub open spec fn total_len(m: Seq<(u32, Seq<u8>)>) -> int {
    off(m, m.len() as int)
}

pub open spec fn offs_vals(m: Seq<(u32, Seq<u8>)>) -> Seq<int> {
    Seq::new(m.len(), |i: int| off(m, i))
}

pub open spec fn lens_vals(m: Seq<(u32, Seq<u8>)>) -> Seq<int> {
    Seq::new(m.len(), |i: int| m[i].1.len() as int)
}

pub open spec fn ids_vals(m: Seq<(u32, Seq<u8>)>) -> Seq<int> {
    Seq::new(m.len(), |i: int| m[i].0 as int)
}

/// Header and the three aligned tables, with the offsets table holding the
/// given values (zero while slots are only reserved, real offsets once
/// patched).
pub open spec fn head_with(m: Seq<(u32, Seq<u8>)>, ovals: Seq<int>) -> Seq<u8> {
    pad16(
        pad16(pad16(magic12() + le32(m.len() as int) + table32(ovals)) + table32(lens_vals(m)))
            + table32(ids_vals(m)),
    )
}

/// The payload blocks in entry order, each padded to 16 bytes.
pub open spec fn blocks(m: Seq<(u32, Seq<u8>)>) -> Seq<u8>
    decreases m.len(),
{
    if m.len() == 0 {
        Seq::empty()
    } else {
        blocks(m.drop_last()) + pad16(m.last().1)
    }
}

/// The encoded container of a sorted archive.
pub open spec fn spec_encode_bytes(m: Seq<(u32, Seq<u8>)>) -> Seq<u8> {
    head_with(m, offs_vals(m)) + blocks(m)
}

/// When every count, length and offset of the container fits in 32 bits.
pub open spec fn encode_ok(m: Seq<(u32, Seq<u8>)>) -> bool {
    &&& m.len() <= 0xFFFF_FFFF
    &&& forall|i: int| 0 <= i < m.len() ==> (#[trigger] m[i].1.len()) <= 0xFFFF_FFFF
    &&& forall|i: int| 0 <= i < m.len() ==> #[trigger] off(m, i) <= 0xFFFF_FFFF
}

/// Whether the buffer begins with the null-terminated "XMD" tag.
pub open spec fn starts_xmd(d: Seq<u8>) -> bool {
    d.len() >= 4 && d[0] == 0x58 && d[1] == 0x4d && d[2] == 0x44 && d[3] == 0
}

/// The `n` 32-bit values of the table at `p`.
pub open spec fn read_vals(d: Seq<u8>, p: int, n: int) -> Seq<int> {
    Seq::new(
        if n >= 0 {
            n as nat
        } else {
            0
        },
        |j: int| u32_at(d, p + 4 * j),
    )
}

/// The mapping built from the first `k` decoded entries, later inserts
/// replacing earlier ones of the same id.
pub open spec fn build_entries(
    d: Seq<u8>,
    offs: Seq<int>,
    lens: Seq<int>,
    ids: Seq<int>,
    k: int,
) -> Result<Seq<(u32, Seq<u8>)>, XmdError>
    decreases k,
{
    if k <= 0 {
        Ok(Seq::empty())
    } else {
        match build_entries(d, offs, lens, ids, k - 1) {
            Err(e) => Err(e),
            Ok(s) => if offs[k - 1] + lens[k - 1] > d.len() {
                Err(XmdError::TruncatedData)
            } else {
                Ok(
                    spec_insert(
                        s,
                        ids[k - 1] as u32,
                        d.subrange(offs[k - 1], offs[k - 1] + lens[k - 1]),
                    ),
                )
            },
        }
    }
}

/// What decoding a bare (non-enveloped) container returns, for every input.
pub open spec fn spec_decode(d: Seq<u8>) -> Result<Seq<(u32, Seq<u8>)>, XmdError> {
    if !starts_xmd(d) {
        Err(XmdError::FormatMismatch)
    } else if d.len() < 16 {
        Err(XmdError::TruncatedData)
    } else {
        let n = u32_at(d, 12);
        if 16 + 4 * n > d.len() {
            Err(XmdError::TruncatedData)
        } else if pos_lens(n) + 4 * n > d.len() {
            Err(XmdError::TruncatedData)
        } else if pos_ids(n) + 4 * n > d.len() {
            Err(XmdError::TruncatedData)
        } else {
            build_entries(
                d,
                read_vals(d, 16, n),
                read_vals(d, pos_lens(n), n),
                read_vals(d, pos_ids(n), n),
                n,
            )
        }
    }
}

/// Whether the buffer begins with the gzip envelope magic.
pub open spec fn starts_gzip(d: Seq<u8>) -> bool {
    d.len() >= 3 && d[0] == 0x1f && d[1] == 0x8b && d[2] == 8
}

/// What decoding a possibly gzip-enveloped container returns: an enveloped
/// input is inflated once, anything else is decoded as it stands.
pub open spec fn spec_from_bytes(d: Seq<u8>) -> Result<Seq<(u32, Seq<u8>)>, XmdError> {
    if starts_gzip(d) {
        match gunzip_of(d) {
            Some(p) => spec_decode(p),
            None => Err(XmdError::IoFailure),
        }
    } else {
        spec_decode(d)
    }
}

/// Once one entry read fails, the whole build fails the same way.
proof fn lemma_build_err(d: Seq<u8>, offs: Seq<int>, lens: Seq<int>, ids: Seq<int>, i: int, k: int)
    requires
        0 <= i < k,
        build_entries(d, offs, lens, ids, i) is Ok,
        offs[i] + lens[i] > d.len(),
    ensures
        build_entries(d, offs, lens, ids, k) == Result::<Seq<(u32, Seq<u8>)>, XmdError>::Err(
            XmdError::TruncatedData,
        ),
    decreases k,
{
    if k > i + 1 {
        lemma_build_err(d, offs, lens, ids, i, k - 1);
    }
}

/// Reads an `n`-value 32-bit table starting at `start`.
fn read_table(d: &Vec<u8>, start: usize, n: usize) -> (r: Option<(Vec<u32>, usize)>)
    requires
        start <= d@.len(),
    ensures
        match r {
            Some(v) => {
                &&& start + 4 * n <= d@.len()
                &&& v.1 == start + 4 * n
                &&& v.0@.len() == n
                &&& forall|j: int|
                    0 <= j < n ==> (#[trigger] v.0@[j]) as int == u32_at(
                        d@,
                        start as int + 4 * j,
                    )
            },
            None => start + 4 * n > d@.len(),
        },
{
    let dlen = d.len();
    let mut vals: Vec<u32> = Vec::new();
    let mut pos: usize = start;
    let mut j: usize = 0;
    while j < n
        invariant
            j <= n,
            dlen == d@.len(),
            pos == start + 4 * j,
            pos <= dlen,
            vals@.len() == j,
            forall|t: int|
                0 <= t < j ==> (#[trigger] vals@[t]) as int == u32_at(d@, start as int + 4 * t),
        decreases n - j,
    {
        match read_u32_at(d, pos) {
            Some(v) => {
                vals.push(v);
                pos = pos + 4;
            },
            None => {
                return None;
            },
        }
        j = j + 1;
    }
    Some((vals, pos))
}

/// Moves `pos` to the next 16-byte boundary, if that stays inside `d`.
fn align_pos(d: &Vec<u8>, pos: usize) -> (r: Option<usize>)
    requires
        pos <= d@.len(),
    ensures
        match r {
            Some(p2) => p2 as int == round16(pos as int) && p2 <= d@.len(),
            None => round16(pos as int) > d@.len(),
        },
{
    proof {
        lemma_round16(pos as int);
    }
    if pos % 16 == 0 {
        Some(pos)
    } else {
        let pad = 16 - pos % 16;
        if pad <= d.len() - pos {
            Some(pos + pad)
        } else {
            None
        }
    }
}

/// The offsets table region once every slot has been patched.
spec fn zvals(n: int) -> Seq<int> {
    Seq::new(
        if n >= 0 {
            n as nat
        } else {
            0
        },
        |j: int| 0,
    )
}

/// The deferred offset patches the encoder schedules: slot `j` gets payload
/// block `j`'s final position.
spec fn patchlist(m: Seq<(u32, Seq<u8>)>) -> Seq<(usize, u32)> {
    Seq::new(m.len(), |j: int| ((16 + 4 * j) as usize, off(m, j) as u32))
}

pub proof fn lemma_positions(n: int)
    requires
        n >= 0,
    ensures
        16 + 4 * n <= pos_lens(n),
        pos_lens(n) + 4 * n <= pos_ids(n),
        pos_ids(n) + 4 * n <= pos_payload(n),
        pos_lens(n) % 16 == 0,
        pos_ids(n) % 16 == 0,
        pos_payload(n) % 16 == 0,
{
    lemma_round16(16 + 4 * n);
    lemma_round16(pos_lens(n) + 4 * n);
    lemma_round16(pos_ids(n) + 4 * n);
}

pub proof fn lemma_psum(m: Seq<(u32, Seq<u8>)>, i: int)
    requires
        0 <= i,
    ensures
        psum(m, i) >= 0,
        psum(m, i) % 16 == 0,
    decreases i,
{
    if i > 0 {
        lemma_psum(m, i - 1);
        lemma_round16(m[i - 1].1.len() as int);
        lemma_round16_shift(psum(m, i - 1), round16(m[i - 1].1.len() as int));
    }
}

pub proof fn lemma_psum_mono(m: Seq<(u32, Seq<u8>)>, i: int, j: int)
    requires
        0 <= i <= j,
    ensures
        psum(m, i) <= psum(m, j),
    decreases j,
{
    if i < j {
        lemma_psum_mono(m, i, j - 1);
        lemma_round16(m[j - 1].1.len() as int);
    }
}

proof fn lemma_psum_drop_last(m: Seq<(u32, Seq<u8>)>, k: int)
    requires
        0 <= k <= m.len() - 1,
    ensures
        psum(m.drop_last(), k) == psum(m, k),
    decreases k,
{
    if k > 0 {
        lemma_psum_drop_last(m, k - 1);
        assert(m.drop_last()[k - 1] == m[k - 1]);
    }
}

pub proof fn lemma_blocks_len(m: Seq<(u32, Seq<u8>)>)
    ensures
        blocks(m).len() == psum(m, m.len() as int),
    decreases m.len(),
{
    if m.len() > 0 {
        lemma_blocks_len(m.drop_last());
        lemma_psum_drop_last(m, m.len() - 1);
        lemma_pad16(m.last().1);
    }
}

proof fn lemma_blocks_index(m: Seq<(u32, Seq<u8>)>, j: int)
    requires
        0 <= j < m.len(),
    ensures
        forall|k: int|
            psum(m, j) <= k < psum(m, j) + round16(m[j].1.len() as int) ==> #[trigger] blocks(m)[k]
                == (if k - psum(m, j) < m[j].1.len() {
                m[j].1[k - psum(m, j)]
            } else {
                0
            }),
    decreases m.len(),
{
    lemma_blocks_len(m.drop_last());
    lemma_pad16(m.last().1);
    lemma_round16(m.last().1.len() as int);
    if j == m.len() - 1 {
        lemma_psum_drop_last(m, j);
        assert forall|k: int|
            psum(m, j) <= k < psum(m, j) + round16(m[j].1.len() as int) implies #[trigger] blocks(
            m,
        )[k] == (if k - psum(m, j) < m[j].1.len() {
            m[j].1[k - psum(m, j)]
        } else {
            0
        }) by {
            lemma_psum(m, j);
            let t = k - psum(m, j);
            assert(m.last() == m[j]);
            assert(blocks(m)[k] == pad16(m.last().1)[t]);
            assert(pad16(m.last().1)[t] == (if t < m[j].1.len() {
                m[j].1[t]
            } else {
                0
            }));
        }
    } else {
        lemma_blocks_index(m.drop_last(), j);
        lemma_psum_drop_last(m, j);
        lemma_psum_drop_last(m, j + 1);
        lemma_psum_mono(m.drop_last(), j + 1, m.len() - 1);
        assert forall|k: int|
            psum(m, j) <= k < psum(m, j) + round16(m[j].1.len() as int) implies #[trigger] blocks(
            m,
        )[k] == (if k - psum(m, j) < m[j].1.len() {
            m[j].1[k - psum(m, j)]
        } else {
            0
        }) by {
            lemma_psum(m, j);
            let dl = m.drop_last();
            assert(dl[j] == m[j]);
            assert(psum(dl, j + 1) == psum(dl, j) + round16(dl[j].1.len() as int));
            assert(k < psum(dl, m.len() - 1));
            assert(blocks(m)[k] == blocks(dl)[k]);
        }
    }
}

/// Where each byte of the header-and-tables region lies.
proof fn lemma_head_index(m: Seq<(u32, Seq<u8>)>, ovals: Seq<int>)
    requires
        ovals.len() == m.len(),
    ensures
        head_with(m, ovals).len() == pos_payload(m.len() as int),
        forall|k: int|
            0 <= k < 16 ==> #[trigger] head_with(m, ovals)[k] == (magic12() + le32(
                m.len() as int,
            ))[k],
        forall|k: int|
            16 <= k < 16 + 4 * m.len() ==> #[trigger] head_with(m, ovals)[k] == table32(ovals)[k
                - 16],
        forall|k: int|
            16 + 4 * m.len() <= k < pos_lens(m.len() as int) ==> #[trigger] head_with(m, ovals)[k]
                == 0,
        forall|k: int|
            pos_lens(m.len() as int) <= k < pos_lens(m.len() as int) + 4 * m.len()
                ==> #[trigger] head_with(m, ovals)[k] == table32(lens_vals(m))[k - pos_lens(
                m.len() as int,
            )],
        forall|k: int|
            pos_lens(m.len() as int) + 4 * m.len() <= k < pos_ids(m.len() as int)
                ==> #[trigger] head_with(m, ovals)[k] == 0,
        forall|k: int|
            pos_ids(m.len() as int) <= k < pos_ids(m.len() as int) + 4 * m.len()
                ==> #[trigger] head_with(m, ovals)[k] == table32(ids_vals(m))[k - pos_ids(
                m.len() as int,
            )],
        forall|k: int|
            pos_ids(m.len() as int) + 4 * m.len() <= k < pos_payload(m.len() as int)
                ==> #[trigger] head_with(m, ovals)[k] == 0,
{
    let n = m.len() as int;
    let p1 = magic12() + le32(n) + table32(ovals);
    let y1 = pad16(p1);
    let p2 = y1 + table32(lens_vals(m));
    let y2 = pad16(p2);
    let p3 = y2 + table32(ids_vals(m));
    let h = pad16(p3);
    lemma_table32_len(ovals);
    lemma_table32_len(lens_vals(m));
    lemma_table32_len(ids_vals(m));
    lemma_pad16(p1);
    lemma_pad16(p2);
    lemma_pad16(p3);
    lemma_positions(n);
    assert(p1.len() == 16 + 4 * n);
    assert(y1.len() == pos_lens(n));
    assert(p2.len() == pos_lens(n) + 4 * n);
    assert(y2.len() == pos_ids(n));
    assert(p3.len() == pos_ids(n) + 4 * n);
    assert(h.len() == pos_payload(n));
    assert(head_with(m, ovals) == h);
    assert forall|k: int| 0 <= k < 16 implies #[trigger] h[k] == (magic12() + le32(n))[k] by {
        assert(h[k] == p3[k]);
        assert(p3[k] == y2[k]);
        assert(y2[k] == p2[k]);
        assert(p2[k] == y1[k]);
        assert(y1[k] == p1[k]);
        assert(p1[k] == (magic12() + le32(n))[k]);
    }
    assert forall|k: int| 16 <= k < 16 + 4 * n implies #[trigger] h[k] == table32(ovals)[k
        - 16] by {
        assert(h[k] == p3[k]);
        assert(p3[k] == y2[k]);
        assert(y2[k] == p2[k]);
        assert(p2[k] == y1[k]);
        assert(y1[k] == p1[k]);
        assert(p1[k] == table32(ovals)[k - 16]);
    }
    assert forall|k: int| 16 + 4 * n <= k < pos_lens(n) implies #[trigger] h[k] == 0 by {
        assert(h[k] == p3[k]);
        assert(p3[k] == y2[k]);
        assert(y2[k] == p2[k]);
        assert(p2[k] == y1[k]);
    }
    assert forall|k: int| pos_lens(n) <= k < pos_lens(n) + 4 * n implies #[trigger] h[k] == table32(
        lens_vals(m),
    )[k - pos_lens(n)] by {
        assert(h[k] == p3[k]);
        assert(p3[k] == y2[k]);
        assert(y2[k] == p2[k]);
        assert(p2[k] == table32(lens_vals(m))[k - pos_lens(n)]);
    }
    assert forall|k: int| pos_lens(n) + 4 * n <= k < pos_ids(n) implies #[trigger] h[k] == 0 by {
        assert(h[k] == p3[k]);
        assert(p3[k] == y2[k]);
    }
    assert forall|k: int| pos_ids(n) <= k < pos_ids(n) + 4 * n implies #[trigger] h[k] == table32(
        ids_vals(m),
    )[k - pos_ids(n)] by {
        assert(h[k] == p3[k]);
        assert(p3[k] == table32(ids_vals(m))[k - pos_ids(n)]);
    }
    assert forall|k: int| pos_ids(n) + 4 * n <= k < pos_payload(n) implies #[trigger] h[k] == 0 by {
        assert(h[k] == 0);
    }
}

/// Patching the reserved slots turns the zero offsets table into the real
/// one and touches nothing else.
#[verifier::rlimit(50)]
proof fn lemma_apply_prefix(b: Seq<u8>, m: Seq<(u32, Seq<u8>)>, i: int)
    requires
        0 <= i <= m.len(),
        16 + 4 * m.len() <= usize::MAX,
        b.len() >= 16 + 4 * m.len(),
        forall|j: int| 0 <= j < m.len() ==> 0 <= #[trigger] off(m, j) <= 0xFFFF_FFFF,
    ensures
        apply_patches(b, patchlist(m).take(i)).len() == b.len(),
        forall|k: int|
            (0 <= k < 16 || 16 + 4 * i <= k < b.len()) ==> #[trigger] apply_patches(
                b,
                patchlist(m).take(i),
            )[k] == b[k],
        forall|k: int|
            16 <= k < 16 + 4 * i ==> #[trigger] apply_patches(b, patchlist(m).take(i))[k] == le32(
                off(m, slot_j(k)),
            )[slot_t(k)],
    decreases i,
{
    if i > 0 {
        lemma_apply_prefix(b, m, i - 1);
        let prev = apply_patches(b, patchlist(m).take(i - 1));
        let ps = patchlist(m).take(i);
        assert(ps.drop_last() =~= patchlist(m).take(i - 1));
        assert(ps.last() == patchlist(m)[i - 1]);
        let p = 16 + 4 * (i - 1);
        let v = off(m, i - 1);
        assert((off(m, i - 1) as u32) as int == v);
        let cur = apply_patches(b, ps);
        assert(ps.last().0 as int == p);
        assert(ps.last().1 as int == v);
        assert(cur == splice32(prev, p, v));
        assert(prev.subrange(0, p).len() == p);
        assert forall|k: int| (0 <= k < 16 || 16 + 4 * i <= k < b.len()) implies #[trigger] cur[k]
            == b[k] by {
            if k < 16 {
                assert(cur[k] == prev.subrange(0, p)[k]);
            } else {
                assert(cur[k] == prev.subrange(p + 4, prev.len() as int)[k - p - 4]);
            }
        }
        assert forall|k: int| 16 <= k < 16 + 4 * i implies #[trigger] cur[k] == le32(
            off(m, slot_j(k)),
        )[slot_t(k)] by {
            if k < p {
                assert(cur[k] == prev.subrange(0, p)[k]);
                assert(prev[k] == le32(off(m, slot_j(k)))[slot_t(k)]);
            } else {
                assert(slot_j(k) == i - 1 && slot_t(k) == k - p) by (nonlinear_arith)
                    requires
                        p == 16 + 4 * (i - 1),
                        p <= k < p + 4,
                ;
                assert(cur[k] == le32(v)[k - p]);
            }
        }
    } else {
        assert(patchlist(m).take(0) =~= Seq::<(usize, u32)>::empty());
    }
}

/// Patching the reserved slots of the laid-out buffer yields exactly the
/// encoded container.
proof fn lemma_patched_is_encoded(m: Seq<(u32, Seq<u8>)>)
    requires
        16 + 4 * m.len() <= usize::MAX,
        forall|j: int| 0 <= j < m.len() ==> 0 <= #[trigger] off(m, j) <= 0xFFFF_FFFF,
    ensures
        apply_patches(head_with(m, zvals(m.len() as int)) + blocks(m), patchlist(m))
            == spec_encode_bytes(m),
{
    let n = m.len() as int;
    let h0 = head_with(m, zvals(n));
    let h1 = head_with(m, offs_vals(m));
    let b = h0 + blocks(m);
    lemma_head_index(m, zvals(n));
    lemma_head_index(m, offs_vals(m));
    lemma_positions(n);
    lemma_blocks_len(m);
    lemma_psum(m, n);
    lemma_apply_prefix(b, m, n);
    assert(patchlist(m).take(n) =~= patchlist(m));
    let ap = apply_patches(b, patchlist(m));
    lemma_table32_slots(offs_vals(m));
    assert forall|k: int| 0 <= k < b.len() implies ap[k] == (h1 + blocks(m))[k] by {
        if k < 16 {
            assert(ap[k] == b[k]);
            assert(b[k] == h0[k]);
            assert(h0[k] == (magic12() + le32(n))[k]);
            assert(h1[k] == (magic12() + le32(n))[k]);
            assert((h1 + blocks(m))[k] == h1[k]);
        } else if k < 16 + 4 * n {
            assert(ap[k] == le32(off(m, slot_j(k)))[slot_t(k)]);
            assert(h1[k] == table32(offs_vals(m))[k - 16]);
            assert(table32(offs_vals(m))[k - 16] == le32(offs_vals(m)[slot_j(k)])[slot_t(k)]);
            assert(0 <= slot_j(k) < n) by (nonlinear_arith)
                requires
                    16 <= k < 16 + 4 * n,
                    slot_j(k) == (k - 16) / 4,
            ;
            assert(offs_vals(m)[slot_j(k)] == off(m, slot_j(k)));
            assert((h1 + blocks(m))[k] == h1[k]);
        } else if k < pos_payload(n) {
            assert(ap[k] == b[k]);
            assert(b[k] == h0[k]);
            if k < pos_lens(n) {
                assert(h0[k] == 0);
                assert(h1[k] == 0);
            } else if k < pos_lens(n) + 4 * n {
                assert(h0[k] == table32(lens_vals(m))[k - pos_lens(n)]);
                assert(h1[k] == table32(lens_vals(m))[k - pos_lens(n)]);
            } else if k < pos_ids(n) {
                assert(h0[k] == 0);
                assert(h1[k] == 0);
            } else if k < pos_ids(n) + 4 * n {
                assert(h0[k] == table32(ids_vals(m))[k - pos_ids(n)]);
                assert(h1[k] == table32(ids_vals(m))[k - pos_ids(n)]);
            } else {
                assert(h0[k] == 0);
                assert(h1[k] == 0);
            }
            assert((h1 + blocks(m))[k] == h1[k]);
        } else {
            assert(ap[k] == b[k]);
            assert(b[k] == blocks(m)[k - pos_payload(n)]);
            assert((h1 + blocks(m))[k] == blocks(m)[k - pos_payload(n)]);
        }
    }
    assert(ap =~= h1 + blocks(m));
}

/// Entries laid out in ascending-id order fold back, one insert at a time,
/// into the archive they came from.
proof fn lemma_build_of_encode(d: Seq<u8>, m: Seq<(u32, Seq<u8>)>, k: int)
    requires
        sorted_ids(m),
        0 <= k <= m.len(),
        forall|j: int|
            0 <= j < m.len() ==> #[trigger] read_vals(d, 16, m.len() as int)[j] == off(m, j),
        forall|j: int|
            0 <= j < m.len() ==> #[trigger] read_vals(d, pos_lens(m.len() as int), m.len() as int)[j]
                == m[j].1.len(),
        forall|j: int|
            0 <= j < m.len() ==> #[trigger] read_vals(d, pos_ids(m.len() as int), m.len() as int)[j]
                == m[j].0 as int,
        forall|j: int| 0 <= j < m.len() ==> #[trigger] off(m, j) + m[j].1.len() <= d.len(),
        forall|j: int|
            0 <= j < m.len() ==> #[trigger] d.subrange(off(m, j), off(m, j) + m[j].1.len() as int)
                == m[j].1,
    ensures
        build_entries(
            d,
            read_vals(d, 16, m.len() as int),
            read_vals(d, pos_lens(m.len() as int), m.len() as int),
            read_vals(d, pos_ids(m.len() as int), m.len() as int),
            k,
        ) == Result::<Seq<(u32, Seq<u8>)>, XmdError>::Ok(m.take(k)),
    decreases k,
{
    let n = m.len() as int;
    let os = read_vals(d, 16, n);
    let ls = read_vals(d, pos_lens(n), n);
    let is = read_vals(d, pos_ids(n), n);
    if k == 0 {
        assert(m.take(0) =~= Seq::<(u32, Seq<u8>)>::empty());
    } else {
        lemma_build_of_encode(d, m, k - 1);
        assert(os[k - 1] == off(m, k - 1));
        assert(ls[k - 1] == m[k - 1].1.len());
        assert(is[k - 1] == m[k - 1].0 as int);
        assert((is[k - 1]) as u32 == m[k - 1].0);
        assert(d.subrange(os[k - 1], os[k - 1] + ls[k - 1]) == m[k - 1].1);
        let s = m.take(k - 1);
        if k == 1 {
            assert(s =~= Seq::<(u32, Seq<u8>)>::empty());
            assert(spec_insert(s, m[0].0, m[0].1) == seq![(m[0].0, m[0].1)]);
            assert(seq![(m[0].0, m[0].1)] =~= m.take(1));
        } else {
            assert(s.last() == m[k - 2]);
            assert(m[k - 2].0 < m[k - 1].0);
            assert(spec_insert(s, m[k - 1].0, m[k - 1].1) == s.push((m[k - 1].0, m[k - 1].1)));
            assert(s.push((m[k - 1].0, m[k - 1].1)) =~= m.take(k));
        }
    }
}

/// Decoding reverses encoding: the container a sorted archive encodes to
/// decodes back to exactly that archive.
#[verifier::rlimit(100)]
pub proof fn lemma_round_trip(m: Seq<(u32, Seq<u8>)>)
    requires
        sorted_ids(m),
        encode_ok(m),
    ensures
        spec_decode(spec_encode_bytes(m)) == Result::<Seq<(u32, Seq<u8>)>, XmdError>::Ok(m),
{
    let n = m.len() as int;
    let d = spec_encode_bytes(m);
    let h = head_with(m, offs_vals(m));
    lemma_head_index(m, offs_vals(m));
    lemma_positions(n);
    lemma_blocks_len(m);
    lemma_psum(m, n);
    assert(d.len() == pos_payload(n) + psum(m, n));
    assert forall|k: int| 0 <= k < pos_payload(n) implies d[k] == h[k] by {}
    assert forall|t: int| 0 <= t < 4 implies d[12 + t] == le32(n)[t] by {
        assert(d[12 + t] == h[12 + t]);
        assert(h[12 + t] == (magic12() + le32(n))[12 + t]);
    }
    assert(starts_xmd(d)) by {
        assert(d[0] == h[0] && d[1] == h[1] && d[2] == h[2] && d[3] == h[3]);
        assert(h[0] == (magic12() + le32(n))[0]);
        assert(h[1] == (magic12() + le32(n))[1]);
        assert(h[2] == (magic12() + le32(n))[2]);
        assert(h[3] == (magic12() + le32(n))[3]);
    }
    assert(d.subrange(12, 16) =~= le32(n));
    lemma_u32_at_le32(d, 12, n);
    assert(u32_at(d, 12) == n);
    lemma_table32_slots(offs_vals(m));
    lemma_table32_slots(lens_vals(m));
    lemma_table32_slots(ids_vals(m));
    assert forall|j: int| 0 <= j < n implies #[trigger] read_vals(d, 16, n)[j] == off(m, j) by {
        lemma_table32_index(offs_vals(m), j);
        lemma_psum(m, j);
        assert forall|t: int| 0 <= t < 4 implies d.subrange(16 + 4 * j, 16 + 4 * j + 4)[t] == le32(
            off(m, j),
        )[t] by {
            let k = 16 + 4 * j + t;
            assert(d[k] == h[k]);
            assert(h[k] == table32(offs_vals(m))[k - 16]);
            assert(table32(offs_vals(m))[k - 16] == le32(offs_vals(m)[j])[(k - 16) - 4 * j]);
        }
        assert(d.subrange(16 + 4 * j, 16 + 4 * j + 4) =~= le32(off(m, j)));
        lemma_u32_at_le32(d, 16 + 4 * j, off(m, j));
    }
    assert forall|j: int| 0 <= j < n implies #[trigger] read_vals(d, pos_lens(n), n)[j]
        == m[j].1.len() by {
        lemma_table32_index(lens_vals(m), j);
        assert forall|t: int| 0 <= t < 4 implies d.subrange(
            pos_lens(n) + 4 * j,
            pos_lens(n) + 4 * j + 4,
        )[t] == le32(m[j].1.len() as int)[t] by {
            let k = pos_lens(n) + 4 * j + t;
            assert(d[k] == h[k]);
            assert(h[k] == table32(lens_vals(m))[k - pos_lens(n)]);
            assert(table32(lens_vals(m))[k - pos_lens(n)] == le32(lens_vals(m)[j])[(k - pos_lens(n))
                - 4 * j]);
        }
        assert(d.subrange(pos_lens(n) + 4 * j, pos_lens(n) + 4 * j + 4) =~= le32(
            m[j].1.len() as int,
        ));
        lemma_u32_at_le32(d, pos_lens(n) + 4 * j, m[j].1.len() as int);
    }
    assert forall|j: int| 0 <= j < n implies #[trigger] read_vals(d, pos_ids(n), n)[j]
        == m[j].0 as int by {
        lemma_table32_index(ids_vals(m), j);
        assert forall|t: int| 0 <= t < 4 implies d.subrange(
            pos_ids(n) + 4 * j,
            pos_ids(n) + 4 * j + 4,
        )[t] == le32(m[j].0 as int)[t] by {
            let k = pos_ids(n) + 4 * j + t;
            assert(d[k] == h[k]);
            assert(h[k] == table32(ids_vals(m))[k - pos_ids(n)]);
            assert(table32(ids_vals(m))[k - pos_ids(n)] == le32(ids_vals(m)[j])[(k - pos_ids(n)) - 4
                * j]);
        }
        assert(d.subrange(pos_ids(n) + 4 * j, pos_ids(n) + 4 * j + 4) =~= le32(m[j].0 as int));
        lemma_u32_at_le32(d, pos_ids(n) + 4 * j, m[j].0 as int);
    }
    assert forall|j: int| 0 <= j < n implies #[trigger] off(m, j) + m[j].1.len() <= d.len() by {
        lemma_round16(m[j].1.len() as int);
        lemma_psum_mono(m, j + 1, n);
        assert(psum(m, j + 1) == psum(m, j) + round16(m[j].1.len() as int));
    }
    assert forall|j: int| 0 <= j < n implies #[trigger] d.subrange(
        off(m, j),
        off(m, j) + m[j].1.len() as int,
    ) == m[j].1 by {
        lemma_blocks_index(m, j);
        lemma_psum(m, j);
        lemma_round16(m[j].1.len() as int);
        lemma_psum_mono(m, j + 1, n);
        assert(psum(m, j + 1) == psum(m, j) + round16(m[j].1.len() as int));
        assert forall|t: int| 0 <= t < m[j].1.len() implies d.subrange(
            off(m, j),
            off(m, j) + m[j].1.len() as int,
        )[t] == m[j].1[t] by {
            let k = off(m, j) + t;
            assert(d[k] == blocks(m)[k - pos_payload(n)]);
            assert(blocks(m)[psum(m, j) + t] == m[j].1[t]);
        }
        assert(d.subrange(off(m, j), off(m, j) + m[j].1.len() as int) =~= m[j].1);
    }
    lemma_build_of_encode(d, m, n);
    assert(m.take(n) =~= m);
}

/// Every table and every payload block of an encoded container begins at a
/// multiple of 16: the offsets table at byte 16, and the lengths table, the
/// ids table and each payload offset on a 16-byte boundary.
pub proof fn lemma_alignment(m: Seq<(u32, Seq<u8>)>)
    ensures
        pos_lens(m.len() as int) % 16 == 0,
        pos_ids(m.len() as int) % 16 == 0,
        pos_payload(m.len() as int) % 16 == 0,
        forall|j: int| 0 <= j < m.len() ==> #[trigger] off(m, j) % 16 == 0,
{
    let n = m.len() as int;
    lemma_positions(n);
    assert forall|j: int| 0 <= j < m.len() implies #[trigger] off(m, j) % 16 == 0 by {
        lemma_psum(m, j);
        lemma_round16_shift(pos_payload(n), psum(m, j));
    }
}

impl Xmd {
    /// Decodes a bare container: tag, reserved bytes, count, the three
    /// tables, then one seek-and-read per entry.
    pub fn from_parser(data: &Vec<u8>) -> (r: Result<Xmd, XmdError>)
        ensures
            spec_decode(data@) matches Ok(m) ==> (r matches Ok(x) && x@ == m && x.wf()),
            spec_decode(data@) matches Err(e) ==> (r matches Err(e2) && e2 == e),
    {
        if data.len() < 4 || data[0] != 0x58 || data[1] != 0x4d || data[2] != 0x44 || data[3] != 0 {
            return Err(XmdError::FormatMismatch);
        }
        if data.len() < 16 {
            return Err(XmdError::TruncatedData);
        }
        let n32 = match read_u32_at(data, 12) {
            Some(v) => v,
            None => {
                return Err(XmdError::TruncatedData);
            },
        };
        let n = n32 as usize;
        let ghost ni = n as int;
        let (offs, pos_a) = match read_table(data, 16, n) {
            Some(v) => v,
            None => {
                return Err(XmdError::TruncatedData);
            },
        };
        let pos_l = match align_pos(data, pos_a) {
            Some(p) => p,
            None => {
                proof {
                    lemma_round16(16 + 4 * ni);
                }
                return Err(XmdError::TruncatedData);
            },
        };
        let (lens, pos_b) = match read_table(data, pos_l, n) {
            Some(v) => v,
            None => {
                return Err(XmdError::TruncatedData);
            },
        };
        let pos_i = match align_pos(data, pos_b) {
            Some(p) => p,
            None => {
                proof {
                    lemma_round16(pos_lens(ni) + 4 * ni);
                }
                return Err(XmdError::TruncatedData);
            },
        };
        let (ids, _pos_c) = match read_table(data, pos_i, n) {
            Some(v) => v,
            None => {
                return Err(XmdError::TruncatedData);
            },
        };
        let ghost os = read_vals(data@, 16, ni);
        let ghost ls = read_vals(data@, pos_lens(ni), ni);
        let ghost is = read_vals(data@, pos_ids(ni), ni);
        proof {
            assert(starts_xmd(data@));
            assert(pos_l as int == pos_lens(ni));
            assert(pos_i as int == pos_ids(ni));
            assert(spec_decode(data@) == build_entries(data@, os, ls, is, ni));
        }
        let mut xmd = Xmd::new();
        let mut i: usize = 0;
        while i < n
            invariant
                i <= n,
                n == ni,
                offs@.len() == n,
                lens@.len() == n,
                ids@.len() == n,
                os == read_vals(data@, 16, ni),
                ls == read_vals(data@, pos_lens(ni), ni),
                is == read_vals(data@, pos_ids(ni), ni),
                forall|t: int| 0 <= t < n ==> (#[trigger] offs@[t]) as int == os[t],
                forall|t: int| 0 <= t < n ==> (#[trigger] lens@[t]) as int == ls[t],
                forall|t: int| 0 <= t < n ==> (#[trigger] ids@[t]) as int == is[t],
                xmd.wf(),
                spec_decode(data@) == build_entries(data@, os, ls, is, ni),
                build_entries(data@, os, ls, is, i as int) == Result::<
                    Seq<(u32, Seq<u8>)>,
                    XmdError,
                >::Ok(xmd@),
            decreases n - i,
        {
            let o = offs[i] as usize;
            let l = lens[i] as usize;
            match copy_range(data, o, l) {
                Some(chunk) => {
                    proof {
                        assert(chunk@ == data@.subrange(os[i as int], os[i as int] + ls[i as int]));
                    }
                    xmd.insert(ids[i], chunk);
                },
                None => {
                    proof {
                        lemma_build_err(data@, os, ls, is, i as int, ni);
                    }
                    return Err(XmdError::TruncatedData);
                },
            }
            i = i + 1;
        }
        Ok(xmd)
    }

    /// Lays the header, the reserved offset slots and the two value tables
    /// out, each padded to a 16-byte boundary.
    #[verifier::rlimit(100)]
    fn layout_tables(&self) -> (r: Result<(Writer, Vec<usize>), XmdError>)
        requires
            self.wf(),
        ensures
            match r {
                Ok(ws) => {
                    &&& ws.0.out@ == head_with(self@, zvals(self@.len() as int))
                    &&& ws.0.out@.len() == pos_payload(self@.len() as int)
                    &&& ws.0.patches@.len() == 0
                    &&& ws.1@.len() == self@.len()
                    &&& forall|j: int| 0 <= j < self@.len() ==> #[trigger] ws.1@[j] == 16 + 4 * j
                    &&& self@.len() <= 0xFFFF_FFFF
                    &&& forall|j: int|
                        0 <= j < self@.len() ==> (#[trigger] self@[j].1.len()) <= 0xFFFF_FFFF
                },
                Err(e) => !encode_ok(self@) && e == XmdError::SizeOverflow,
            },
    {
        let ghost m = self@;
        let n = self.num_entries();
        let ghost ni = n as int;
        if n > u32::MAX as usize {
            proof {
                assert(!encode_ok(m));
            }
            return Err(XmdError::SizeOverflow);
        }
        let mut w = Writer::new();
        w.write_u8(0x58);
        w.write_u8(0x4d);
        w.write_u8(0x44);
        w.write_u8(0);
        w.write_u8(0x30);
        w.write_u8(0x30);
        w.write_u8(0x31);
        w.write_u8(0);
        w.write_u8(3);
        w.write_u8(0);
        w.write_u8(0);
        w.write_u8(0);
        proof {
            assert(w.out@ =~= magic12());
        }
        w.write_u32(n as u32);
        proof {
            assert(w.out@ == magic12() + le32(ni));
            assert(table32(zvals(0)) =~= Seq::<u8>::empty());
            assert(magic12() + le32(ni) + table32(zvals(0)) =~= magic12() + le32(ni));
        }
        let mut slots: Vec<usize> = Vec::new();
        let mut i: usize = 0;
        while i < n
            invariant
                i <= n,
                n == m.len(),
                ni == n as int,
                w.out@ == magic12() + le32(ni) + table32(zvals(i as int)),
                w.out@.len() == 16 + 4 * i,
                w.patches@.len() == 0,
                slots@.len() == i,
                forall|j: int| 0 <= j < i ==> #[trigger] slots@[j] == 16 + 4 * j,
            decreases n - i,
        {
            let s = w.reserve_u32();
            slots.push(s);
            proof {
                let z1 = zvals(i + 1);
                assert(z1.drop_last() =~= zvals(i as int));
                assert(z1.last() == 0);
                assert(table32(z1) == table32(zvals(i as int)) + le32(0));
                assert(magic12() + le32(ni) + table32(z1) =~= (magic12() + le32(ni) + table32(
                    zvals(i as int),
                )) + le32(0));
                lemma_table32_len(z1);
            }
            i = i + 1;
        }
        w.align16();
        let ghost p1z = magic12() + le32(ni) + table32(zvals(ni));
        proof {
            assert(zvals(i as int) =~= zvals(ni));
            lemma_table32_len(zvals(ni));
            assert(w.out@ == pad16(p1z));
            lemma_pad16(p1z);
            lemma_positions(ni);
            assert(w.out@.len() == pos_lens(ni));
            assert(lens_vals(m).take(0) =~= Seq::<int>::empty());
            assert(table32(lens_vals(m).take(0)) =~= Seq::<u8>::empty());
            assert(pad16(p1z) + table32(lens_vals(m).take(0)) =~= pad16(p1z));
        }
        let mut i: usize = 0;
        while i < n
            invariant
                i <= n,
                n == m.len(),
                ni == n as int,
                self.wf(),
                self@ == m,
                p1z == magic12() + le32(ni) + table32(zvals(ni)),
                w.out@ == pad16(p1z) + table32(lens_vals(m).take(i as int)),
                w.out@.len() == pos_lens(ni) + 4 * i,
                w.patches@.len() == 0,
                slots@.len() == n,
                forall|j: int| 0 <= j < n ==> #[trigger] slots@[j] == 16 + 4 * j,
                forall|j: int| 0 <= j < i ==> (#[trigger] m[j].1.len()) <= 0xFFFF_FFFF,
            decreases n - i,
        {
            let l = self.entry_data(i).len();
            if l > u32::MAX as usize {
                proof {
                    assert(m[i as int].1.len() > 0xFFFF_FFFF);
                    assert(!encode_ok(m));
                }
                return Err(XmdError::SizeOverflow);
            }
            w.write_u32(l as u32);
            proof {
                let lv = lens_vals(m);
                assert(lv.take(i + 1).drop_last() =~= lv.take(i as int));
                assert(lv.take(i + 1).last() == l as int);
                assert(table32(lv.take(i + 1)) == table32(lv.take(i as int)) + le32(l as int));
                assert(pad16(p1z) + table32(lv.take(i + 1)) =~= (pad16(p1z) + table32(
                    lv.take(i as int),
                )) + le32((l as u32) as int));
                lemma_table32_len(lv.take(i + 1));
            }
            i = i + 1;
        }
        let ghost p2 = pad16(p1z) + table32(lens_vals(m));
        proof {
            assert(lens_vals(m).take(ni) =~= lens_vals(m));
        }
        w.align16();
        proof {
            lemma_table32_len(lens_vals(m));
            lemma_pad16(p2);
            lemma_positions(ni);
            assert(w.out@ == pad16(p2));
            assert(w.out@.len() == pos_ids(ni));
            assert(ids_vals(m).take(0) =~= Seq::<int>::empty());
            assert(table32(ids_vals(m).take(0)) =~= Seq::<u8>::empty());
            assert(pad16(p2) + table32(ids_vals(m).take(0)) =~= pad16(p2));
        }
        let mut i: usize = 0;
        while i < n
            invariant
                i <= n,
                n == m.len(),
                ni == n as int,
                self.wf(),
                self@ == m,
                p2 == pad16(p1z) + table32(lens_vals(m)),
                p1z == magic12() + le32(ni) + table32(zvals(ni)),
                w.out@ == pad16(p2) + table32(ids_vals(m).take(i as int)),
                w.out@.len() == pos_ids(ni) + 4 * i,
                w.patches@.len() == 0,
                slots@.len() == n,
                forall|j: int| 0 <= j < n ==> #[trigger] slots@[j] == 16 + 4 * j,
                forall|j: int| 0 <= j < n ==> (#[trigger] m[j].1.len()) <= 0xFFFF_FFFF,
            decreases n - i,
        {
            let id = self.entry_id(i);
            w.write_u32(id);
            proof {
                let iv = ids_vals(m);
                assert(iv.take(i + 1).drop_last() =~= iv.take(i as int));
                assert(iv.take(i + 1).last() == id as int);
                assert(table32(iv.take(i + 1)) == table32(iv.take(i as int)) + le32(id as int));
                assert(pad16(p2) + table32(iv.take(i + 1)) =~= (pad16(p2) + table32(
                    iv.take(i as int),
                )) + le32(id as int));
                lemma_table32_len(iv.take(i + 1));
            }
            i = i + 1;
        }
        let ghost p3 = pad16(p2) + table32(ids_vals(m));
        let ghost h0 = head_with(m, zvals(ni));
        proof {
            assert(ids_vals(m).take(ni) =~= ids_vals(m));
        }
        w.align16();
        proof {
            lemma_table32_len(ids_vals(m));
            lemma_pad16(p3);
            lemma_positions(ni);
            assert(w.out@ == pad16(p3));
            assert(pad16(p3) == h0);
            assert(w.out@.len() == pos_payload(ni));
        }
        Ok((w, slots))
    }

    /// Appends every payload block in order, padded to 16 bytes, patching
    /// each reserved slot with its block's final position.
    #[verifier::rlimit(100)]
    fn write_blocks(&self, w: &mut Writer, slots: &Vec<usize>) -> (r: Result<(), XmdError>)
        requires
            self.wf(),
            old(w).out@ == head_with(self@, zvals(self@.len() as int)),
            old(w).out@.len() == pos_payload(self@.len() as int),
            old(w).patches@.len() == 0,
            slots@.len() == self@.len(),
            forall|j: int| 0 <= j < self@.len() ==> #[trigger] slots@[j] == 16 + 4 * j,
            self@.len() <= 0xFFFF_FFFF,
            forall|j: int| 0 <= j < self@.len() ==> (#[trigger] self@[j].1.len()) <= 0xFFFF_FFFF,
        ensures
            match r {
                Ok(u) => {
                    &&& final(w).out@ == head_with(self@, zvals(self@.len() as int)) + blocks(
                        self@,
                    )
                    &&& final(w).out@.len() == off(self@, self@.len() as int)
                    &&& final(w).patches@ == patchlist(self@)
                    &&& forall|j: int|
                        0 <= j < final(w).patches@.len() ==> #[trigger] final(w).patches@[j].0 + 4
                            <= final(w).out@.len()
                    &&& encode_ok(self@)
                },
                Err(e) => !encode_ok(self@) && e == XmdError::SizeOverflow,
            },
    {
        let ghost m = self@;
        let n = self.num_entries();
        let ghost ni = n as int;
        let ghost h0 = head_with(m, zvals(ni));
        proof {
            assert(blocks(m.take(0)) =~= Seq::<u8>::empty());
            assert(h0 + blocks(m.take(0)) =~= h0);
        }
        let mut i: usize = 0;
        while i < n
            invariant
                i <= n,
                n == m.len(),
                ni == n as int,
                self.wf(),
                self@ == m,
                h0 == head_with(m, zvals(ni)),
                h0.len() == pos_payload(ni),
                w.out@ == h0 + blocks(m.take(i as int)),
                w.out@.len() == off(m, i as int),
                w.patches@.len() == i,
                forall|j: int|
                    0 <= j < i ==> #[trigger] w.patches@[j] == (
                        (16 + 4 * j) as usize,
                        off(m, j) as u32,
                    ),
                slots@.len() == n,
                forall|j: int| 0 <= j < n ==> #[trigger] slots@[j] == 16 + 4 * j,
                forall|j: int| 0 <= j < n ==> (#[trigger] m[j].1.len()) <= 0xFFFF_FFFF,
                forall|j: int| 0 <= j < i ==> 0 <= #[trigger] off(m, j) <= 0xFFFF_FFFF,
            decreases n - i,
        {
            let cur = w.out.len();
            if cur > u32::MAX as usize {
                proof {
                    assert(off(m, i as int) > 0xFFFF_FFFF);
                    assert(!encode_ok(m));
                }
                return Err(XmdError::SizeOverflow);
            }
            let sl = slots[i];
            w.schedule_patch(sl, cur as u32);
            w.write_bytes(self.entry_data(i));
            w.align16();
            proof {
                let bi = blocks(m.take(i as int));
                let pl = m[i as int].1;
                lemma_psum(m, i as int);
                lemma_positions(ni);
                lemma_round16_shift(pos_payload(ni), psum(m, i as int));
                assert((h0 + bi).len() % 16 == 0);
                lemma_pad16_concat(h0 + bi, pl);
                assert(pad16((h0 + bi) + pl) == (h0 + bi) + pad16(pl));
                assert((h0 + bi) + pl =~= h0 + bi + pl);
                assert(m.take(i + 1).drop_last() =~= m.take(i as int));
                assert(m.take(i + 1).last() == m[i as int]);
                assert(blocks(m.take(i + 1)) == bi + pad16(pl));
                assert(w.out@ =~= h0 + blocks(m.take(i + 1)));
                lemma_pad16(pl);
                lemma_round16(pl.len() as int);
                assert(off(m, i + 1) == off(m, i as int) + round16(pl.len() as int));
            }
            i = i + 1;
        }
        proof {
            assert(m.take(ni) =~= m);
            assert(w.patches@ =~= patchlist(m));
            assert(encode_ok(m));
            lemma_positions(ni);
            lemma_psum(m, ni);
            assert forall|j: int| 0 <= j < w.patches@.len() implies #[trigger] w.patches@[j].0 + 4
                <= w.out@.len() by {
                assert(w.patches@[j] == ((16 + 4 * j) as usize, off(m, j) as u32));
                assert(slots@[j] == 16 + 4 * j);
            }
        }
        Ok(())
    }

    /// Encodes the archive as a bare container: header, reserved offset
    /// slots, lengths, ids, then the payload blocks, patching each slot
    /// once its block's position is known.
    #[verifier::rlimit(100)]
    pub fn write_plain(&self) -> (r: Result<Vec<u8>, XmdError>)
        requires
            self.wf(),
        ensures
            encode_ok(self@) ==> (r matches Ok(b) && b@ == spec_encode_bytes(self@)),
            !encode_ok(self@) ==> r == Result::<Vec<u8>, XmdError>::Err(XmdError::SizeOverflow),
    {
        let ghost m = self@;
        let ghost ni = m.len() as int;
        let (mut w, slots) = match self.layout_tables() {
            Ok(ws) => ws,
            Err(e) => {
                return Err(e);
            },
        };
        match self.write_blocks(&mut w, &slots) {
            Ok(_) => {},
            Err(e) => {
                return Err(e);
            },
        }
        let bl = w.out.len();
        proof {
            lemma_positions(ni);
            lemma_psum(m, ni);
            assert(16 + 4 * ni <= bl);
            assert forall|j: int| 0 <= j < m.len() implies 0 <= #[trigger] off(m, j)
                <= 0xFFFF_FFFF by {
                lemma_psum(m, j);
            }
            lemma_patched_is_encoded(m);
        }
        let buf = w.finish();
        Ok(buf)
    }

    /// Decodes archive bytes as read from disk, unwrapping one gzip
    /// envelope when its magic opens the buffer.
    pub fn from_bytes(data: &Vec<u8>) -> (r: Result<Xmd, XmdError>)
        ensures
            spec_from_bytes(data@) matches Ok(m) ==> (r matches Ok(x) && x@ == m && x.wf()),
            spec_from_bytes(data@) matches Err(e) ==> (r matches Err(e2) && e2 == e),
    {
        if data.len() >= 3 && data[0] == 0x1f && data[1] == 0x8b && data[2] == 8 {
            match crate::gzip::gzip_decompress(data) {
                Some(plain) => Xmd::from_parser(&plain),
                None => Err(XmdError::IoFailure),
            }
        } else {
            Xmd::from_parser(data)
        }
    }

    /// Encodes the archive, gzip-wrapping the container when asked to.
    pub fn write_parser(&self, compress: bool) -> (r: Result<Vec<u8>, XmdError>)
        requires
            self.wf(),
        ensures
            !compress ==> match r {
                Ok(b) => encode_ok(self@) && b@ == spec_encode_bytes(self@),
                Err(e) => !encode_ok(self@) && e == XmdError::SizeOverflow,
            },
            compress ==> match r {
                Ok(b) => encode_ok(self@) && starts_gzip(b@) && gunzip_of(b@) == Some(
                    spec_encode_bytes(self@),
                ),
                Err(e) => if encode_ok(self@) {
                    e == XmdError::IoFailure
                } else {
                    e == XmdError::SizeOverflow
                },
            },
    {
        let plain = match self.write_plain() {
            Ok(b) => b,
            Err(e) => {
                return Err(e);
            },
        };
        if compress {
            match crate::gzip::gzip_compress(&plain) {
                Some(z) => Ok(z),
                None => Err(XmdError::IoFailure),
            }
        } else {
            Ok(plain)
        }
    }
}

/// The gzip round trip: a compressed encoding of a sorted archive decodes
/// back to exactly that archive.
pub proof fn lemma_compressed_round_trip(m: Seq<(u32, Seq<u8>)>, z: Seq<u8>)
    requires
        sorted_ids(m),
        encode_ok(m),
        starts_gzip(z),
        gunzip_of(z) == Some(spec_encode_bytes(m)),
    ensures
        spec_from_bytes(z) == Result::<Seq<(u32, Seq<u8>)>, XmdError>::Ok(m),
{
    lemma_round_trip(m);
}

/// Bytes that open with neither the gzip magic nor the "XMD" tag are
/// rejected as a format mismatch, and nothing is decoded from them.
pub proof fn lemma_format_mismatch(d: Seq<u8>)
    requires
        !starts_gzip(d),
        !starts_xmd(d),
    ensures
        spec_from_bytes(d) == Result::<Seq<(u32, Seq<u8>)>, XmdError>::Err(
            XmdError::FormatMismatch,
        ),
{
}

} // verus!
