//! Extraction driver support: verified slicing of carved ranges and the
//! naming of output files. The file system work itself is left to the
//! caller; this module only computes the bytes and the names.

use crate::carve::Position;
use vstd::prelude::*;

verus! {

/// A fresh copy of the bytes of `data` inside the half-open interval
/// `[p.start, p.end)`.
pub fn extract_range(data: &[u8], p: &Position) -> (r: Vec<u8>)
    requires
        p.start <= p.end,
        p.end <= data@.len(),
    ensures
        r@ == data@.subrange(p.start as int, p.end as int),
{
    let mut out: Vec<u8> = Vec::new();
    let mut i: usize = p.start;
    while i < p.end
        invariant
            p.start <= i <= p.end,
            p.end <= data@.len(),
            out@ == data@.subrange(p.start as int, i as int),
        decreases p.end - i,
    {
        out.push(data[i]);
        i = i + 1;
        proof {
            assert(out@ =~= data@.subrange(p.start as int, i as int));
        }
    }
    out
}

/// The decimal digit bytes of `n`, most significant first, with no leading
/// zeros (a single `0` for zero).
pub open spec fn decimal_digits(n: nat) -> Seq<u8>
    decreases n,
{
    if n < 10 {
        seq![(0x30 + n) as u8]
    } else {
        decimal_digits(n / 10).push((0x30 + n % 10) as u8)
    }
}

/// The bytes of the output file name for carved image number `index` of an
/// input named `base`: the base name, an underscore, the decimal index and
/// the `.png` suffix. Output numbering is zero-based.
pub open spec fn output_name_spec(base: Seq<u8>, index: nat) -> Seq<u8> {
    base + seq![0x5fu8] + decimal_digits(index) + seq![0x2eu8, 0x70u8, 0x6eu8, 0x67u8]
}

/// Append the decimal digits of `n` to `out`.
fn push_decimal(out: &mut Vec<u8>, n: usize)
    ensures
        final(out)@ == old(out)@ + decimal_digits(n as nat),
    decreases n,
{
    if n < 10 {
        out.push(0x30 + (n as u8));
        proof {
            assert(out@ =~= old(out)@ + decimal_digits(n as nat));
        }
    } else {
        push_decimal(out, n / 10);
        out.push(0x30 + ((n % 10) as u8));
        proof {
            assert(out@ =~= old(out)@ + decimal_digits(n as nat));
        }
    }
}

/// The output file name, as bytes, for carved image number `index` of an
/// input whose name is `base`.
pub fn output_name(base: &[u8], index: usize) -> (r: Vec<u8>)
    ensures
        r@ == output_name_spec(base@, index as nat),
{
    let mut out: Vec<u8> = Vec::new();
    let mut i: usize = 0;
    while i < base.len()
        invariant
            i <= base@.len(),
            out@ == base@.subrange(0, i as int),
        decreases base@.len() - i,
    {
        out.push(base[i]);
        i = i + 1;
        proof {
            assert(out@ =~= base@.subrange(0, i as int));
        }
    }
    out.push(0x5f);
    push_decimal(&mut out, index);
    out.push(0x2e);
    out.push(0x70);
    out.push(0x6e);
    out.push(0x67);
    proof {
        assert(base@.subrange(0, base@.len() as int) =~= base@);
        assert(out@ =~= output_name_spec(base@, index as nat));
    }
    out
}

} // verus!
