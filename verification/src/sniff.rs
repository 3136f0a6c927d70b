//! The sub-format sniffer: derives a display name from a payload's leading
//! bytes. Also the directory assembler's rule mapping loose-file names to
//! entry ids.

use vstd::prelude::*;
use crate::bytes::u32_at;
use crate::bytes::read_u32_at;
use crate::error::XmdError;

verus! {

/// The closed set of recognized sub-formats.
#[derive(Clone, Copy, Debug, PartialEq, Eq, Structural)]
pub enum SubFormat {
    ModelContainer,
    TextureContainer,
    Unknown,
}

/// Which sub-format a payload's four-byte discriminator announces:
/// "NDWD" is a model container, "NTWD" a texture container.
pub open spec fn spec_sub_format(d: Seq<u8>) -> SubFormat {
    if d.len() >= 4 && d[0] == 0x4e && d[1] == 0x44 && d[2] == 0x57 && d[3] == 0x44 {
        SubFormat::ModelContainer
    } else if d.len() >= 4 && d[0] == 0x4e && d[1] == 0x54 && d[2] == 0x57 && d[3] == 0x44 {
        SubFormat::TextureContainer
    } else {
        SubFormat::Unknown
    }
}

pub fn sub_format(data: &Vec<u8>) -> (r: SubFormat)
    ensures
        r == spec_sub_format(data@),
{
    if data.len() >= 4 && data[0] == 0x4e && data[1] == 0x44 && data[2] == 0x57 && data[3] == 0x44 {
        SubFormat::ModelContainer
    } else if data.len() >= 4 && data[0] == 0x4e && data[1] == 0x54 && data[2] == 0x57 && data[3]
        == 0x44 {
        SubFormat::TextureContainer
    } else {
        SubFormat::Unknown
    }
}

/// The decimal digits of `v`, most significant first.
pub open spec fn dec_digits(v: nat) -> Seq<u8>
    decreases v,
{
    if v < 10 {
        seq![(0x30 + v) as u8]
    } else {
        dec_digits(v / 10).push((0x30 + v % 10) as u8)
    }
}

pub fn u32_digits(v: u32) -> (r: Vec<u8>)
    ensures
        r@ == dec_digits(v as nat),
    decreases v,
{
    if v < 10 {
        let mut out: Vec<u8> = Vec::new();
        out.push(0x30 + v as u8);
        proof {
            assert(out@ =~= dec_digits(v as nat));
        }
        out
    } else {
        let mut out = u32_digits(v / 10);
        out.push(0x30 + (v % 10) as u8);
        out
    }
}

/// A byte the cleaned model name keeps: an ASCII letter or an underscore.
pub open spec fn is_name_byte(b: u8) -> bool {
    (0x41 <= b <= 0x5a) || (0x61 <= b <= 0x7a) || b == 0x5f
}

/// `s` with every byte that is not an ASCII letter or underscore removed.
pub open spec fn clean_of(s: Seq<u8>) -> Seq<u8>
    decreases s.len(),
{
    if s.len() == 0 {
        Seq::empty()
    } else if is_name_byte(s[0]) {
        seq![s[0]] + clean_of(s.skip(1))
    } else {
        clean_of(s.skip(1))
    }
}

/// Position of the first nul byte at or after `p`.
pub open spec fn find_nul(d: Seq<u8>, p: int) -> Option<int>
    decreases d.len() - p,
{
    if p < 0 || p >= d.len() {
        None
    } else if d[p] == 0 {
        Some(p)
    } else {
        find_nul(d, p + 1)
    }
}

/// Where the model container's trailing name string starts: the polygon
/// section start (the field at 0x10 plus 0x30) plus the three section sizes
/// that follow the field.
pub open spec fn ndwd_name_pos(d: Seq<u8>) -> int {
    u32_at(d, 0x10) + 0x30 + u32_at(d, 0x14) + u32_at(d, 0x18) + u32_at(d, 0x1c)
}

/// The cleaned embedded name of a model container, when its computed
/// position lies inside the payload and a nul terminator follows.
pub open spec fn spec_ndwd_name(d: Seq<u8>) -> Option<Seq<u8>> {
    if d.len() < 0x20 {
        None
    } else {
        match find_nul(d, ndwd_name_pos(d)) {
            Some(q) => Some(clean_of(d.subrange(ndwd_name_pos(d), q))),
            None => None,
        }
    }
}

/// Keeps the letters and underscores of `d[from..to]`.
fn clean_region(d: &Vec<u8>, from: usize, to: usize) -> (r: Vec<u8>)
    requires
        from <= to <= d@.len(),
    ensures
        r@ == clean_of(d@.subrange(from as int, to as int)),
{
    let ghost s = d@.subrange(from as int, to as int);
    let mut out: Vec<u8> = Vec::new();
    let mut i: usize = from;
    proof {
        assert(s.skip(0) =~= s);
        assert(out@ + clean_of(s) =~= clean_of(s));
    }
    while i < to
        invariant
            from <= i <= to,
            to <= d@.len(),
            s == d@.subrange(from as int, to as int),
            clean_of(s) == out@ + clean_of(s.skip(i - from)),
        decreases to - i,
    {
        let b = d[i];
        proof {
            let k = i - from;
            assert(s.skip(k)[0] == s[k]);
            assert(s[k] == d@[i as int]);
            assert(s.skip(k).skip(1) =~= s.skip(k + 1));
            if is_name_byte(b) {
                assert(clean_of(s.skip(k)) == seq![b] + clean_of(s.skip(k + 1)));
                assert(out@ + (seq![b] + clean_of(s.skip(k + 1))) =~= (out@ + seq![b]) + clean_of(
                    s.skip(k + 1),
                ));
                assert(out@.push(b) =~= out@ + seq![b]);
            } else {
                assert(clean_of(s.skip(k)) == clean_of(s.skip(k + 1)));
            }
        }
        if (0x41 <= b && b <= 0x5a) || (0x61 <= b && b <= 0x7a) || b == 0x5f {
            out.push(b);
        }
        i = i + 1;
    }
    proof {
        assert(s.skip(to - from) =~= Seq::<u8>::empty());
        assert(out@ + clean_of(s.skip(to - from)) =~= out@);
    }
    out
}

/// Reads the model container's embedded name; a position outside the
/// payload or a missing terminator is a naming failure.
pub fn ndwd_name(data: &Vec<u8>) -> (r: Result<Vec<u8>, XmdError>)
    ensures
        match r {
            Ok(v) => spec_ndwd_name(data@) == Some(v@),
            Err(e) => e == XmdError::NamingFailure && spec_ndwd_name(data@) is None,
        },
{
    if data.len() < 0x20 {
        return Err(XmdError::NamingFailure);
    }
    let r0 = match read_u32_at(data, 0x10) {
        Some(v) => v,
        None => {
            return Err(XmdError::NamingFailure);
        },
    };
    let s1 = match read_u32_at(data, 0x14) {
        Some(v) => v,
        None => {
            return Err(XmdError::NamingFailure);
        },
    };
    let s2 = match read_u32_at(data, 0x18) {
        Some(v) => v,
        None => {
            return Err(XmdError::NamingFailure);
        },
    };
    let s3 = match read_u32_at(data, 0x1c) {
        Some(v) => v,
        None => {
            return Err(XmdError::NamingFailure);
        },
    };
    let p64: u64 = r0 as u64 + 0x30 + s1 as u64 + s2 as u64 + s3 as u64;
    proof {
        assert(p64 as int == ndwd_name_pos(data@));
    }
    if p64 >= data.len() as u64 {
        proof {
            assert(find_nul(data@, ndwd_name_pos(data@)) is None);
        }
        return Err(XmdError::NamingFailure);
    }
    let p = p64 as usize;
    let mut q = p;
    while q < data.len()
        invariant
            p <= q <= data@.len(),
            data@.len() >= 0x20,
            p as int == ndwd_name_pos(data@),
            find_nul(data@, p as int) == find_nul(data@, q as int),
        decreases data@.len() - q,
    {
        if data[q] == 0 {
            proof {
                assert(find_nul(data@, q as int) == Some(q as int));
            }
            let name = clean_region(data, p, q);
            return Ok(name);
        }
        proof {
            assert(find_nul(data@, q as int) == find_nul(data@, q as int + 1));
        }
        q = q + 1;
    }
    proof {
        assert(find_nul(data@, q as int) is None);
    }
    Err(XmdError::NamingFailure)
}

/// The display name of a payload: the cleaned embedded name plus
/// "_<id>.nud" for a model container (the decimal id alone when naming
/// fails), "<id>.nut" for a texture container, and the decimal id alone
/// otherwise.
pub open spec fn spec_name(d: Seq<u8>, id: u32) -> Seq<u8> {
    match spec_sub_format(d) {
        SubFormat::ModelContainer => match spec_ndwd_name(d) {
            Some(nm) => nm + seq![0x5fu8] + dec_digits(id as nat) + seq![
                0x2eu8,
                0x6eu8,
                0x75u8,
                0x64u8,
            ],
            None => dec_digits(id as nat),
        },
        SubFormat::TextureContainer => dec_digits(id as nat) + seq![0x2eu8, 0x6eu8, 0x75u8, 0x74u8],
        SubFormat::Unknown => dec_digits(id as nat),
    }
}

/// Derives the display name of the entry `(id, data)`.
pub fn derive_name(data: &Vec<u8>, id: u32) -> (r: Vec<u8>)
    ensures
        r@ == spec_name(data@, id),
{
    match sub_format(data) {
        SubFormat::ModelContainer => {
            match ndwd_name(data) {
                Ok(mut nm) => {
                    nm.push(0x5f);
                    let digits = u32_digits(id);
                    nm.extend_from_slice(digits.as_slice());
                    nm.push(0x2e);
                    nm.push(0x6e);
                    nm.push(0x75);
                    nm.push(0x64);
                    proof {
                        assert(nm@ =~= spec_name(data@, id));
                    }
                    nm
                },
                Err(_) => u32_digits(id),
            }
        },
        SubFormat::TextureContainer => {
            let mut nm = u32_digits(id);
            nm.push(0x2e);
            nm.push(0x6e);
            nm.push(0x75);
            nm.push(0x74);
            proof {
                assert(nm@ =~= spec_name(data@, id));
            }
            nm
        },
        SubFormat::Unknown => u32_digits(id),
    }
}

} // verus!
