//! The directory assembler's naming rule: a loose file's id is the number
//! formed by the digits of its extension-stripped name; names without
//! digits, or whose digits exceed 32 bits, are excluded.

use vstd::prelude::*;

verus! {

/// Position of the last '.' of a file name, if any.
pub open spec fn last_dot(s: Seq<u8>) -> Option<int>
    decreases s.len(),
{
    if s.len() == 0 {
        None
    } else if s.last() == 0x2e {
        Some(s.len() - 1)
    } else {
        last_dot(s.drop_last())
    }
}

/// The name with its extension stripped; a leading dot is no extension
/// separator.
pub open spec fn stem_of(s: Seq<u8>) -> Seq<u8> {
    match last_dot(s) {
        Some(j) => if j > 0 {
            s.subrange(0, j)
        } else {
            s
        },
        None => s,
    }
}

pub open spec fn is_digit(b: u8) -> bool {
    0x30 <= b <= 0x39
}

/// The digit bytes of `s`, in order.
pub open spec fn digits_of(s: Seq<u8>) -> Seq<u8>
    decreases s.len(),
{
    if s.len() == 0 {
        Seq::empty()
    } else if is_digit(s[0]) {
        seq![s[0]] + digits_of(s.skip(1))
    } else {
        digits_of(s.skip(1))
    }
}

/// The number the digit bytes spell in decimal.
pub open spec fn dec_val(ds: Seq<u8>) -> int
    decreases ds.len(),
{
    if ds.len() == 0 {
        0
    } else {
        dec_val(ds.drop_last()) * 10 + (ds.last() - 0x30)
    }
}

/// The entry id a file name maps to, if any.
pub open spec fn spec_id_from_name(name: Seq<u8>) -> Option<u32> {
    let ds = digits_of(stem_of(name));
    if ds.len() == 0 {
        None
    } else if dec_val(ds) > 0xFFFF_FFFF {
        None
    } else {
        Some(dec_val(ds) as u32)
    }
}

proof fn lemma_digits_of_digits(s: Seq<u8>)
    ensures
        forall|k: int| 0 <= k < digits_of(s).len() ==> is_digit(#[trigger] digits_of(s)[k]),
    decreases s.len(),
{
    if s.len() > 0 {
        lemma_digits_of_digits(s.skip(1));
        if is_digit(s[0]) {
            assert forall|k: int| 0 <= k < digits_of(s).len() implies is_digit(
                #[trigger] digits_of(s)[k],
            ) by {
                if k > 0 {
                    assert(digits_of(s)[k] == digits_of(s.skip(1))[k - 1]);
                }
            }
        } else {
            assert forall|k: int| 0 <= k < digits_of(s).len() implies is_digit(
                #[trigger] digits_of(s)[k],
            ) by {
                assert(digits_of(s)[k] == digits_of(s.skip(1))[k]);
            }
        }
    }
}

proof fn lemma_dec_val_nonneg(ds: Seq<u8>)
    requires
        forall|k: int| 0 <= k < ds.len() ==> is_digit(#[trigger] ds[k]),
    ensures
        dec_val(ds) >= 0,
    decreases ds.len(),
{
    if ds.len() > 0 {
        assert(forall|k: int| 0 <= k < ds.drop_last().len() ==> ds.drop_last()[k] == ds[k]);
        lemma_dec_val_nonneg(ds.drop_last());
    }
}

/// The value never shrinks as digits are appended.
proof fn lemma_dec_val_grow(ds: Seq<u8>, i: int)
    requires
        forall|k: int| 0 <= k < ds.len() ==> is_digit(#[trigger] ds[k]),
        0 <= i <= ds.len(),
    ensures
        dec_val(ds) >= dec_val(ds.take(i)),
    decreases ds.len() - i,
{
    if i < ds.len() {
        lemma_dec_val_grow(ds, i + 1);
        assert(ds.take(i + 1).drop_last() =~= ds.take(i));
        assert(ds.take(i + 1).last() == ds[i]);
        assert(forall|k: int| 0 <= k < ds.take(i).len() ==> ds.take(i)[k] == ds[k]);
        lemma_dec_val_nonneg(ds.take(i));
        assert(dec_val(ds.take(i + 1)) == dec_val(ds.take(i)) * 10 + (ds[i] - 0x30));
    } else {
        assert(ds.take(i) =~= ds);
    }
}

/// Keeps the digit bytes of `d[from..to]`.
fn digits_region(d: &Vec<u8>, from: usize, to: usize) -> (r: Vec<u8>)
    requires
        from <= to <= d@.len(),
    ensures
        r@ == digits_of(d@.subrange(from as int, to as int)),
{
    let ghost s = d@.subrange(from as int, to as int);
    let mut out: Vec<u8> = Vec::new();
    let mut i: usize = from;
    proof {
        assert(s.skip(0) =~= s);
        assert(out@ + digits_of(s) =~= digits_of(s));
    }
    while i < to
        invariant
            from <= i <= to,
            to <= d@.len(),
            s == d@.subrange(from as int, to as int),
            digits_of(s) == out@ + digits_of(s.skip(i - from)),
        decreases to - i,
    {
        let b = d[i];
        proof {
            let k = i - from;
            assert(s.skip(k)[0] == s[k]);
            assert(s[k] == d@[i as int]);
            assert(s.skip(k).skip(1) =~= s.skip(k + 1));
            if is_digit(b) {
                assert(digits_of(s.skip(k)) == seq![b] + digits_of(s.skip(k + 1)));
                assert(out@ + (seq![b] + digits_of(s.skip(k + 1))) =~= (out@ + seq![b])
                    + digits_of(s.skip(k + 1)));
                assert(out@.push(b) =~= out@ + seq![b]);
            } else {
                assert(digits_of(s.skip(k)) == digits_of(s.skip(k + 1)));
            }
        }
        if 0x30 <= b && b <= 0x39 {
            out.push(b);
        }
        i = i + 1;
    }
    proof {
        assert(s.skip(to - from) =~= Seq::<u8>::empty());
        assert(out@ + digits_of(s.skip(to - from)) =~= out@);
    }
    out
}

/// Maps a loose file's name to its entry id: strip the extension, keep the
/// digits, read them as a decimal number that must fit 32 bits.
pub fn id_from_file_name(name: &Vec<u8>) -> (r: Option<u32>)
    ensures
        r == spec_id_from_name(name@),
{
    let n = name.len();
    let mut i: usize = n;
    proof {
        assert(name@.take(n as int) =~= name@);
    }
    let mut stem_end: usize = n;
    let mut searching = true;
    while searching && i > 0
        invariant
            0 <= i <= n,
            n == name@.len(),
            searching ==> stem_end == n,
            searching ==> last_dot(name@) == last_dot(name@.take(i as int)),
            !searching ==> (last_dot(name@) == Some(i as int) && (if i > 0 {
                stem_end == i
            } else {
                stem_end == n
            })),
        decreases i + (if searching {
            1int
        } else {
            0int
        }),
    {
        proof {
            assert(name@.take(i as int).last() == name@[i - 1]);
            assert(name@.take(i as int).drop_last() =~= name@.take(i - 1));
        }
        if name[i - 1] == 0x2e {
            searching = false;
            i = i - 1;
            if i > 0 {
                stem_end = i;
            }
        } else {
            i = i - 1;
        }
    }
    let ghost stem = stem_of(name@);
    proof {
        if searching {
            assert(name@.take(0) =~= Seq::<u8>::empty());
            assert(last_dot(name@) is None);
            assert(stem == name@);
            assert(name@.subrange(0, stem_end as int) =~= name@);
        } else {
            assert(stem == name@.subrange(0, stem_end as int) || (i == 0 && stem == name@));
            if i == 0 {
                assert(name@.subrange(0, stem_end as int) =~= name@);
            }
        }
        assert(stem == name@.subrange(0, stem_end as int));
    }
    let ds = digits_region(name, 0, stem_end);
    proof {
        lemma_digits_of_digits(stem);
    }
    if ds.len() == 0 {
        return None;
    }
    let m = ds.len();
    let mut v: u32 = 0;
    let mut idx: usize = 0;
    proof {
        assert(ds@.take(0) =~= Seq::<u8>::empty());
    }
    while idx < m
        invariant
            0 <= idx <= m,
            m == ds@.len(),
            ds@ == digits_of(stem),
            stem == stem_of(name@),
            forall|k: int| 0 <= k < ds@.len() ==> is_digit(#[trigger] ds@[k]),
            v as int == dec_val(ds@.take(idx as int)),
        decreases m - idx,
    {
        let b = ds[idx];
        let dgt = (b - 0x30) as u32;
        proof {
            assert(is_digit(ds@[idx as int]));
            assert(ds@.take(idx as int + 1).drop_last() =~= ds@.take(idx as int));
            assert(ds@.take(idx as int + 1).last() == ds@[idx as int]);
            assert(dec_val(ds@.take(idx as int + 1)) == dec_val(ds@.take(idx as int)) * 10 + (
            ds@[idx as int] - 0x30));
        }
        if v > (u32::MAX - dgt) / 10 {
            proof {
                assert(v as int * 10 + dgt as int > 0xFFFF_FFFF) by (nonlinear_arith)
                    requires
                        0 <= dgt < 10,
                        v as int > (0xFFFF_FFFF - dgt as int) / 10,
                ;
                lemma_dec_val_grow(ds@, idx as int + 1);
                assert(dec_val(ds@) > 0xFFFF_FFFF);
            }
            return None;
        }
        proof {
            assert(v as int * 10 + dgt as int <= 0xFFFF_FFFF) by (nonlinear_arith)
                requires
                    0 <= dgt < 10,
                    0 <= v as int <= (0xFFFF_FFFF - dgt as int) / 10,
            ;
        }
        v = v * 10 + dgt;
        idx = idx + 1;
    }
    proof {
        assert(ds@.take(m as int) =~= ds@);
        assert(v as int == dec_val(ds@));
    }
    Some(v)
}

} // verus!
