//! Fixed-width and decimal renderings of unsigned numbers: the index file
//! stores payload offsets as little-endian 8-byte integers, and the
//! manifest stores counts and sizes as decimal text.

use vstd::prelude::*;

verus! {

/// The eight little-endian bytes of a 64-bit integer.
pub open spec fn le64(x: u64) -> Seq<u8> {
    seq![
        (x & 0xff) as u8,
        ((x >> 8) & 0xff) as u8,
        ((x >> 16) & 0xff) as u8,
        ((x >> 24) & 0xff) as u8,
        ((x >> 32) & 0xff) as u8,
        ((x >> 40) & 0xff) as u8,
        ((x >> 48) & 0xff) as u8,
        ((x >> 56) & 0xff) as u8,
    ]
}

/// Appends the eight little-endian bytes of `x` to `out`.
pub fn push_le64(out: &mut Vec<u8>, x: u64)
    ensures
        final(out)@ == old(out)@ + le64(x),
{
    let ghost prior = out@;
    out.push((x & 0xff) as u8);
    out.push(((x >> 8) & 0xff) as u8);
    out.push(((x >> 16) & 0xff) as u8);
    out.push(((x >> 24) & 0xff) as u8);
    out.push(((x >> 32) & 0xff) as u8);
    out.push(((x >> 40) & 0xff) as u8);
    out.push(((x >> 48) & 0xff) as u8);
    out.push(((x >> 56) & 0xff) as u8);
    proof {
        assert(out@ =~= prior + le64(x));
    }
}

/// Reads the eight little-endian bytes at `pos` back as the integer they
/// render.
pub fn read_le64(b: &[u8], pos: usize) -> (r: u64)
    requires
        pos + 8 <= b@.len(),
    ensures
        le64(r) == b@.subrange(pos as int, pos as int + 8),
{
    let b0 = b[pos];
    let b1 = b[pos + 1];
    let b2 = b[pos + 2];
    let b3 = b[pos + 3];
    let b4 = b[pos + 4];
    let b5 = b[pos + 5];
    let b6 = b[pos + 6];
    let b7 = b[pos + 7];
    let x: u64 = (b0 as u64) | ((b1 as u64) << 8) | ((b2 as u64) << 16) | ((b3 as u64) << 24) | (
    (b4 as u64) << 32) | ((b5 as u64) << 40) | ((b6 as u64) << 48) | ((b7 as u64) << 56);
    proof {
        assert((x & 0xff) as u8 == b0 && ((x >> 8) & 0xff) as u8 == b1 && ((x >> 16) & 0xff) as u8
            == b2 && ((x >> 24) & 0xff) as u8 == b3 && ((x >> 32) & 0xff) as u8 == b4 && ((x >> 40)
            & 0xff) as u8 == b5 && ((x >> 48) & 0xff) as u8 == b6 && ((x >> 56) & 0xff) as u8 == b7)
            by (bit_vector)
            requires
                x == (b0 as u64) | ((b1 as u64) << 8) | ((b2 as u64) << 16) | ((b3 as u64) << 24) | (
                (b4 as u64) << 32) | ((b5 as u64) << 40) | ((b6 as u64) << 48) | ((b7 as u64) << 56),
        ;
        assert(le64(x) =~= b@.subrange(pos as int, pos as int + 8));
    }
    x
}

/// The decimal rendering of a non-negative integer, most significant digit
/// first, with no leading zero.
pub open spec fn dec_str(n: int) -> Seq<u8>
    decreases n,
{
    if n < 10 {
        seq![(48 + if n < 0 { 0int } else { n }) as u8]
    } else {
        dec_str(n / 10).push((48 + n % 10) as u8)
    }
}

/// Powers of ten.
pub open spec fn pow10(k: int) -> int
    decreases k,
{
    if k <= 0 {
        1
    } else {
        10 * pow10(k - 1)
    }
}

/// Every byte of a decimal rendering is a digit, the rendering is
/// non-empty, and a rendering of more than one digit does not start with
/// zero.
pub proof fn lemma_dec_str_shape(n: int)
    requires
        0 <= n,
    ensures
        1 <= dec_str(n).len(),
        forall|i: int| 0 <= i < dec_str(n).len() ==> 48 <= #[trigger] dec_str(n)[i] <= 57,
        dec_str(n).len() > 1 ==> dec_str(n)[0] != 48,
        n < pow10(dec_str(n).len() as int),
        dec_str(n).len() > 1 ==> pow10(dec_str(n).len() - 1) <= n,
    decreases n,
{
    if n < 10 {
        assert(dec_str(n).len() == 1);
        assert(pow10(1) == 10 * pow10(0));
        assert(pow10(0) == 1);
    } else {
        lemma_dec_str_shape(n / 10);
        let s = dec_str(n);
        let p = dec_str(n / 10);
        assert(s == p.push((48 + n % 10) as u8));
        assert(forall|i: int| 0 <= i < p.len() ==> 48 <= #[trigger] p[i] <= 57);
        assert forall|i: int| 0 <= i < s.len() implies 48 <= #[trigger] s[i] <= 57 by {
            if i < p.len() {
                assert(s[i] == p[i]);
            }
        }
        assert(n / 10 >= 1);
        if p.len() > 1 {
            assert(p[0] != 48);
        } else {
            assert(p[0] == (48 + n / 10) as u8);
        }
        assert(s[0] == p[0]);
        assert(n / 10 < pow10(p.len() as int));
        assert(n < 10 * pow10(p.len() as int));
        assert(pow10(s.len() as int) == 10 * pow10(p.len() as int));
        if p.len() > 1 {
            assert(pow10(p.len() - 1) <= n / 10);
        } else {
            assert(1 <= n / 10);
        }
        assert(pow10(s.len() - 1) == pow10(p.len() as int));
        assert(pow10(p.len() as int) <= 10 * (n / 10));
        assert(10 * (n / 10) <= n);
    }
}

/// Two integers with the same decimal rendering are equal.
pub proof fn lemma_dec_str_injective(a: int, b: int)
    requires
        0 <= a,
        0 <= b,
        dec_str(a) == dec_str(b),
    ensures
        a == b,
    decreases a,
{
    if a < 10 && b < 10 {
        assert(dec_str(a) =~= seq![(48 + a) as u8]);
        assert(dec_str(b) =~= seq![(48 + b) as u8]);
        assert(seq![(48 + a) as u8][0] == seq![(48 + b) as u8][0]);
        assert((48 + a) as u8 as int == 48 + a);
        assert((48 + b) as u8 as int == 48 + b);
        assert(a == b);
    } else if a < 10 {
        lemma_dec_str_shape(b / 10);
        assert(dec_str(b) == dec_str(b / 10).push((48 + b % 10) as u8));
        assert(dec_str(b).len() == dec_str(b / 10).len() + 1);
        assert(dec_str(a).len() == 1);
        assert(false);
    } else if b < 10 {
        lemma_dec_str_shape(a / 10);
        assert(dec_str(a) == dec_str(a / 10).push((48 + a % 10) as u8));
        assert(dec_str(a).len() == dec_str(a / 10).len() + 1);
        assert(dec_str(b).len() == 1);
        assert(false);
    } else {
        let sa = dec_str(a / 10);
        let sb = dec_str(b / 10);
        assert(dec_str(a) == sa.push((48 + a % 10) as u8));
        assert(dec_str(b) == sb.push((48 + b % 10) as u8));
        assert(sa.len() == sb.len());
        assert(dec_str(a)[sa.len() as int] == dec_str(b)[sb.len() as int]);
        assert((48 + a % 10) as u8 as int == 48 + a % 10);
        assert((48 + b % 10) as u8 as int == 48 + b % 10);
        assert(a % 10 == b % 10);
        assert forall|i: int| 0 <= i < sa.len() implies sa[i] == sb[i] by {
            assert(sa[i] == dec_str(a)[i]);
            assert(sb[i] == dec_str(b)[i]);
        }
        assert(sa =~= sb);
        lemma_dec_str_injective(a / 10, b / 10);
        assert(a == 10 * (a / 10) + a % 10);
        assert(b == 10 * (b / 10) + b % 10);
    }
}

/// Renders `n` in decimal.
pub fn to_decimal(n: u64) -> (r: Vec<u8>)
    ensures
        r@ == dec_str(n as int),
    decreases n,
{
    if n < 10 {
        let mut v: Vec<u8> = Vec::new();
        v.push(48 + n as u8);
        proof {
            assert(v@ =~= dec_str(n as int));
        }
        v
    } else {
        let mut v = to_decimal(n / 10);
        v.push(48 + (n % 10) as u8);
        v
    }
}

/// The largest decimal rendering of a 64-bit integer has twenty digits.
proof fn lemma_dec_str_len_u64(x: u64)
    ensures
        dec_str(x as int).len() <= 20,
{
    lemma_dec_str_shape(x as int);
    let s = dec_str(x as int);
    if s.len() > 20 {
        assert(pow10(s.len() - 1) <= x as int);
        lemma_pow10_mono(20, s.len() - 1);
        lemma_pow10_twenty();
    }
}

/// The twentieth power of ten, spelled out.
proof fn lemma_pow10_twenty()
    ensures
        pow10(20) == 100000000000000000000,
{
    reveal_with_fuel(pow10, 21);
}

/// Powers of ten do not shrink as the exponent grows.
proof fn lemma_pow10_mono(a: int, b: int)
    requires
        0 <= a <= b,
    ensures
        pow10(a) <= pow10(b),
        1 <= pow10(a),
    decreases b,
{
    if a < b {
        lemma_pow10_mono(a, b - 1);
    } else {
        lemma_pow10_pos(a);
    }
}

proof fn lemma_pow10_pos(a: int)
    ensures
        1 <= pow10(a),
    decreases (if a < 0 { 0int } else { a }),
{
    if a > 0 {
        lemma_pow10_pos(a - 1);
    }
}

/// Parses a canonical decimal rendering back; anything else, including a
/// rendering too large for 64 bits, is rejected.
pub fn parse_decimal(b: &[u8]) -> (r: Option<u64>)
    ensures
        match r {
            Some(x) => b@ == dec_str(x as int),
            None => true,
        },
        forall|x: u64| b@ == dec_str(x as int) ==> r == Some(x),
{
    if b.len() == 0 || b.len() > 20 {
        proof {
            assert forall|x: u64| b@ == dec_str(x as int) implies false by {
                lemma_dec_str_shape(x as int);
                lemma_dec_str_len_u64(x);
            }
        }
        return None;
    }
    if b[0] == 48 {
        if b.len() == 1 {
            proof {
                assert(b@ =~= dec_str(0int));
                assert forall|x: u64| b@ == dec_str(x as int) implies 0u64 == x by {
                    lemma_dec_str_injective(0int, x as int);
                }
            }
            return Some(0);
        }
        proof {
            assert forall|x: u64| b@ == dec_str(x as int) implies false by {
                lemma_dec_str_shape(x as int);
            }
        }
        return None;
    }
    let mut acc: u128 = 0;
    let mut i: usize = 0;
    proof {
        lemma_pow10_twenty();
        lemma_pow10_mono(0, 20);
    }
    while i < b.len()
        invariant
            i <= b@.len(),
            1 <= b@.len() <= 20,
            b@[0] != 48,
            acc < pow10(i as int),
            pow10(i as int) <= pow10(20),
            pow10(20) == 100000000000000000000,
            b@.len() <= 20,
            1 <= i ==> b@.take(i as int) == dec_str(acc as int),
            i == 0 ==> acc == 0,
        decreases b@.len() - i,
    {
        let d = b[i];
        if d < 48 || d > 57 {
            proof {
                assert forall|x: u64| b@ == dec_str(x as int) implies false by {
                    lemma_dec_str_shape(x as int);
                    assert(dec_str(x as int)[i as int] == b@[i as int]);
                }
            }
            return None;
        }
        proof {
            lemma_pow10_mono(i + 1, 20);
            assert(pow10(i + 1 as int) == 10 * pow10(i as int));
        }
        let digit = (d - 48) as u128;
        let next = acc * 10 + digit;
        proof {
            if i == 0 {
                assert(b@.take(1) =~= dec_str(next as int));
            } else {
                assert(1 <= acc) by {
                    lemma_dec_str_shape(acc as int);
                    if acc == 0 {
                        assert(dec_str(0int) =~= seq![48u8]);
                        assert(b@.take(i as int).len() == i);
                        assert(i == 1);
                        assert(b@.take(1)[0] == b@[0]);
                        assert(b@[0] == 48);
                    }
                }
                assert(next as int / 10 == acc as int && next as int % 10 == digit as int) by (
                nonlinear_arith)
                    requires
                        next == acc * 10 + digit,
                        0 <= digit < 10,
                        0 <= acc,
                ;
                assert(dec_str(next as int) == dec_str(acc as int).push((48 + next as int % 10) as u8));
                assert(b@.take(i + 1 as int) =~= b@.take(i as int).push(b@[i as int]));
            }
            assert(next < pow10(i + 1 as int)) by (nonlinear_arith)
                requires
                    next == acc * 10 + digit,
                    0 <= digit < 10,
                    0 <= acc,
                    acc < pow10(i as int),
                    pow10(i + 1 as int) == 10 * pow10(i as int),
            ;
        }
        acc = next;
        i = i + 1;
    }
    proof {
        assert(b@.take(b@.len() as int) =~= b@);
    }
    if acc > 0xffff_ffff_ffff_ffff {
        proof {
            assert forall|x: u64| b@ == dec_str(x as int) implies false by {
                lemma_dec_str_injective(acc as int, x as int);
            }
        }
        return None;
    }
    let out = acc as u64;
    proof {
        assert forall|x: u64| b@ == dec_str(x as int) implies out == x by {
            lemma_dec_str_injective(out as int, x as int);
        }
    }
    Some(out)
}

} // verus!
