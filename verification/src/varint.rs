//! Little-endian base-128 variable-length integers: the primitive all
//! structured headers of the block and wire format are built from.
use vstd::prelude::*;

use crate::DecodeError;

verus! {

/// The canonical base-128 encoding of `n`: seven value bits per byte, the
/// high bit set on every byte except the last.
pub open spec fn varint(n: u64) -> Seq<u8>
    decreases n,
{
    if n < 0x80 {
        seq![n as u8]
    } else {
        seq![((n % 0x80) + 0x80) as u8] + varint(n / 0x80)
    }
}

/// `s` begins with the encoding of `n`.
pub open spec fn starts_with_varint(s: Seq<u8>, n: u64) -> bool {
    varint(n).len() <= s.len() && s.subrange(0, varint(n).len() as int) == varint(n)
}

/// The first byte and the tail of an encoding.
pub proof fn lemma_varint_shape(n: u64)
    ensures
        varint(n).len() >= 1,
        n < 0x80 ==> varint(n) == seq![n as u8],
        n >= 0x80 ==> varint(n)[0] == ((n % 0x80) + 0x80) as u8,
        n >= 0x80 ==> varint(n)[0] >= 0x80,
        n >= 0x80 ==> varint(n).skip(1) == varint(n / 0x80),
        n < 0x80 ==> varint(n)[0] == n as u8 && varint(n)[0] < 0x80,
{
    if n >= 0x80 {
        assert(varint(n) == seq![((n % 0x80) + 0x80) as u8] + varint(n / 0x80));
        assert(varint(n).skip(1) =~= varint(n / 0x80));
    }
}

/// `starts_with_varint` seen one byte in: the tail begins with the encoding
/// of `n / 0x80`.
pub proof fn lemma_varint_step(s: Seq<u8>, n: u64)
    requires
        starts_with_varint(s, n),
        n >= 0x80,
    ensures
        s.len() >= 1,
        s[0] == ((n % 0x80) + 0x80) as u8,
        starts_with_varint(s.skip(1), n / 0x80),
{
    lemma_varint_shape(n);
    assert(s.subrange(0, varint(n).len() as int)[0] == s[0]);
    let t = s.skip(1);
    let m = n / 0x80;
    assert(t.subrange(0, varint(m).len() as int) =~= varint(m)) by {
        assert forall|i: int| 0 <= i < varint(m).len() implies t.subrange(
            0,
            varint(m).len() as int,
        )[i] == varint(m)[i] by {
            assert(t[i] == s[i + 1]);
            assert(s[i + 1] == s.subrange(0, varint(n).len() as int)[i + 1]);
            assert(varint(n)[i + 1] == varint(n).skip(1)[i]);
        }
    }
}

/// The first byte of a short encoding is the value itself.
pub proof fn lemma_varint_small(s: Seq<u8>, n: u64)
    requires
        starts_with_varint(s, n),
        n < 0x80,
    ensures
        s.len() >= 1,
        s[0] == n as u8,
{
    lemma_varint_shape(n);
    assert(s.subrange(0, varint(n).len() as int)[0] == s[0]);
}

/// Two varints that begin at the same position encode the same number.
pub proof fn lemma_varint_prefix_unique(s: Seq<u8>, a: u64, b: u64)
    requires
        starts_with_varint(s, a),
        starts_with_varint(s, b),
    ensures
        a == b,
    decreases a,
{
    if a < 0x80 && b < 0x80 {
        lemma_varint_small(s, a);
        lemma_varint_small(s, b);
    } else if a < 0x80 {
        lemma_varint_small(s, a);
        lemma_varint_step(s, b);
    } else if b < 0x80 {
        lemma_varint_small(s, b);
        lemma_varint_step(s, a);
    } else {
        lemma_varint_step(s, a);
        lemma_varint_step(s, b);
        assert(a % 0x80 == b % 0x80);
        lemma_varint_prefix_unique(s.skip(1), a / 0x80, b / 0x80);
        assert(a == 0x80 * (a / 0x80) + a % 0x80);
        assert(b == 0x80 * (b / 0x80) + b % 0x80);
    }
}

/// Appends the canonical encoding of `n` to `out`.
pub fn encode_u64_varint(n: u64, out: &mut Vec<u8>)
    ensures
        final(out)@ == old(out)@ + varint(n),
{
    let mut m: u64 = n;
    while m >= 0x80
        invariant
            out@ + varint(m) == old(out)@ + varint(n),
        decreases m,
    {
        let ghost prev = out@;
        out.push(((m % 0x80) + 0x80) as u8);
        proof {
            assert(varint(m) == seq![((m % 0x80) + 0x80) as u8] + varint(m / 0x80));
            assert(out@ + varint(m / 0x80) =~= prev + varint(m));
        }
        m = m / 0x80;
    }
    let ghost prev = out@;
    out.push(m as u8);
    proof {
        assert(varint(m) == seq![m as u8]);
        assert(out@ =~= prev + varint(m));
    }
}

/// Reads one canonical varint from `data` at `pos`.  Returns the decoded
/// number and the position just past it; fails exactly when no `u64` has its
/// encoding there.
pub fn decode_u64_varint(data: &[u8], pos: usize) -> (r: Result<(u64, usize), DecodeError>)
    requires
        pos <= data@.len(),
    ensures
        match r {
            Ok((n, end)) => {
                &&& pos < end <= data@.len()
                &&& data@.subrange(pos as int, end as int) == varint(n)
            },
            Err(_) => true,
        },
        forall|n: u64| starts_with_varint(data@.skip(pos as int), n) ==> r is Ok,
    decreases data@.len() - pos,
{
    let ghost s = data@.skip(pos as int);
    if pos >= data.len() {
        proof {
            assert forall|n: u64| !starts_with_varint(s, n) by {
                lemma_varint_shape(n);
            }
        }
        return Err(DecodeError::Truncated);
    }
    let b = data[pos];
    proof {
        assert(s[0] == data@[pos as int]);
    }
    if b < 0x80 {
        let n = b as u64;
        proof {
            lemma_varint_shape(n);
            assert(data@.subrange(pos as int, pos + 1) =~= seq![b]);
        }
        Ok((n, pos + 1))
    } else {
        let low = (b - 0x80) as u64;
        let r = decode_u64_varint(data, pos + 1);
        proof {
            assert(s.skip(1) =~= data@.skip(pos + 1));
            assert forall|n: u64| starts_with_varint(s, n) implies n >= 0x80 && starts_with_varint(
                data@.skip(pos + 1),
                n / 0x80,
            ) by {
                if n < 0x80 {
                    lemma_varint_small(s, n);
                } else {
                    lemma_varint_step(s, n);
                }
            }
        }
        match r {
            Err(e) => Err(e),
            Ok((m, end)) => {
                proof {
                    assert(starts_with_varint(data@.skip(pos + 1), m)) by {
                        assert(data@.skip(pos + 1).subrange(0, varint(m).len() as int)
                            =~= data@.subrange(pos + 1, end as int));
                    }
                    assert forall|n: u64| starts_with_varint(s, n) implies m == n / 0x80 && n
                        >= 0x80 && n % 0x80 == low by {
                        lemma_varint_step(s, n);
                        lemma_varint_prefix_unique(data@.skip(pos + 1), m, n / 0x80);
                    }
                }
                if m == 0 {
                    // a canonical encoding never ends in a zero continuation
                    proof {
                        assert forall|n: u64| !starts_with_varint(s, n) by {
                            if starts_with_varint(s, n) {
                                assert(n / 0x80 >= 1);
                            }
                        }
                    }
                    Err(DecodeError::Malformed)
                } else if m > (u64::MAX - low) / 0x80 {
                    // the value would not fit in 64 bits
                    proof {
                        assert forall|n: u64| !starts_with_varint(s, n) by {
                            if starts_with_varint(s, n) {
                                assert(n == 0x80 * (n / 0x80) + n % 0x80);
                            }
                        }
                    }
                    Err(DecodeError::Malformed)
                } else {
                    proof {
                        assert(m * 0x80 <= (u64::MAX - low)) by (nonlinear_arith)
                            requires
                                m <= (u64::MAX - low) / 0x80,
                                0 <= low,
                        ;
                    }
                    let n = m * 0x80 + low;
                    proof {
                        assert(n % 0x80 == low && n / 0x80 == m) by (nonlinear_arith)
                            requires
                                n == m * 0x80 + low,
                                0 <= low < 0x80,
                                m >= 1,
                        ;
                        assert(n >= 0x80) by (nonlinear_arith)
                            requires
                                n == m * 0x80 + low,
                                m >= 1,
                                low >= 0,
                        ;
                        lemma_varint_shape(n);
                        assert(varint(n) == seq![b] + varint(m));
                        assert(data@.subrange(pos as int, end as int) =~= seq![b]
                            + data@.subrange(pos + 1, end as int));
                    }
                    Ok((n, end))
                }
            },
        }
    }
}

/// The four little-endian bytes of `n`.
pub open spec fn le32(n: u32) -> Seq<u8> {
    seq![
        (n % 0x100) as u8,
        ((n / 0x100) % 0x100) as u8,
        ((n / 0x10000) % 0x100) as u8,
        ((n / 0x1000000) % 0x100) as u8,
    ]
}

/// The eight little-endian bytes of `n`.
pub open spec fn le64(n: u64) -> Seq<u8> {
    le32((n % 0x1_0000_0000) as u32) + le32((n / 0x1_0000_0000) as u32)
}

/// Four little-endian bytes determine their number.
pub proof fn lemma_le32_unique(x: u32, y: u32)
    requires
        le32(x) == le32(y),
    ensures
        x == y,
{
    assert(le32(x)[0] == le32(y)[0]);
    assert(le32(x)[1] == le32(y)[1]);
    assert(le32(x)[2] == le32(y)[2]);
    assert(le32(x)[3] == le32(y)[3]);
    assert(x == y) by (bit_vector)
        requires
            x % 0x100 == y % 0x100,
            (x / 0x100) % 0x100 == (y / 0x100) % 0x100,
            (x / 0x10000) % 0x100 == (y / 0x10000) % 0x100,
            (x / 0x1000000) % 0x100 == (y / 0x1000000) % 0x100,
    ;
}

/// Eight little-endian bytes determine their number.
#[verifier::rlimit(50)]
pub proof fn lemma_le64_unique(x: u64, y: u64)
    requires
        le64(x) == le64(y),
    ensures
        x == y,
{
    let xl = (x % 0x1_0000_0000) as u32;
    let xh = (x / 0x1_0000_0000) as u32;
    let yl = (y % 0x1_0000_0000) as u32;
    let yh = (y / 0x1_0000_0000) as u32;
    assert(le32(xl) == le32(yl)) by {
        assert(le32(xl) =~= le64(x).take(4));
        assert(le32(yl) =~= le64(y).take(4));
    }
    assert(le32(xh) == le32(yh)) by {
        assert(le32(xh) =~= le64(x).skip(4));
        assert(le32(yh) =~= le64(y).skip(4));
    }
    lemma_le32_unique(xl, yl);
    lemma_le32_unique(xh, yh);
    assert(x == x % 0x1_0000_0000 + 0x1_0000_0000 * (x / 0x1_0000_0000));
    assert(y == y % 0x1_0000_0000 + 0x1_0000_0000 * (y / 0x1_0000_0000));
}

/// Appends the four little-endian bytes of `n`.
pub fn encode_u32_le(n: u32, out: &mut Vec<u8>)
    ensures
        final(out)@ == old(out)@ + le32(n),
{
    let ghost prev = out@;
    out.push((n % 0x100) as u8);
    out.push(((n / 0x100) % 0x100) as u8);
    out.push(((n / 0x10000) % 0x100) as u8);
    out.push(((n / 0x1000000) % 0x100) as u8);
    proof {
        assert(out@ =~= prev + le32(n));
    }
}

/// Reads back the number those four bytes spell.
pub fn decode_u32_le(b0: u8, b1: u8, b2: u8, b3: u8) -> (n: u32)
    ensures
        le32(n) == seq![b0, b1, b2, b3],
{
    let n = b0 as u32 + b1 as u32 * 0x100 + b2 as u32 * 0x10000 + b3 as u32 * 0x1000000;
    proof {
        assert(n % 0x100 == b0 && (n / 0x100) % 0x100 == b1 && (n / 0x10000) % 0x100 == b2 && (n
            / 0x1000000) % 0x100 == b3) by (bit_vector)
            requires
                n == b0 as u32 + b1 as u32 * 0x100 + b2 as u32 * 0x10000 + b3 as u32 * 0x1000000,
        ;
        assert(le32(n) =~= seq![b0, b1, b2, b3]);
    }
    n
}

/// Appends the eight little-endian bytes of `n`.
pub fn encode_u64_le(n: u64, out: &mut Vec<u8>)
    ensures
        final(out)@ == old(out)@ + le64(n),
{
    let ghost prev = out@;
    encode_u32_le((n % 0x1_0000_0000) as u32, out);
    encode_u32_le((n / 0x1_0000_0000) as u32, out);
    proof {
        assert(out@ =~= prev + le64(n));
    }
}

/// Reads back the number eight little-endian bytes spell.
pub fn decode_u64_le(lo: u32, hi: u32) -> (n: u64)
    ensures
        le64(n) == le32(lo) + le32(hi),
{
    let n = lo as u64 + hi as u64 * 0x1_0000_0000;
    proof {
        assert(n % 0x1_0000_0000 == lo && n / 0x1_0000_0000 == hi) by (bit_vector)
            requires
                n == lo as u64 + hi as u64 * 0x1_0000_0000,
        ;
        assert(le64(n) =~= le32(lo) + le32(hi));
    }
    n
}

} // verus!
