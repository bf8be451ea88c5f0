//! A canonical, prefix-free, self-delimiting bit code for positive integers.
//!
//! The code of 1 is a single 0 bit. The code of `n >= 2` is a 1 bit, then the
//! code of `L = floor(log2 n)`, then the low `L` bits of `n` (its top bit,
//! always 1, is left implicit), most significant first.
use crate::bits::{
    bits_to_nat,
    bytes_to_bits,
    exp2,
    lemma_bits_to_nat_bound,
    lemma_bits_to_nat_push,
    lemma_exp2_adds,
    lemma_exp2_le,
    lemma_exp2_pos,
    lemma_exp2_values,
    lemma_pack_bits,
    pack,
    BitReader,
    BitWriter,
};
use vstd::prelude::*;

verus! {

/// Why decoding a natural number failed.
#[derive(Clone, Copy, PartialEq, Eq, Debug)]
pub enum NaturalDecodeError {
    /// The input ended before a complete code was read.
    EndOfInput,
    /// The code read (or the part of it read so far) stands for a number
    /// above the bound.
    BoundExceeded,
}

/// `floor(log2 n)`, and 0 for 0.
pub open spec fn log2(n: nat) -> nat
    decreases n,
{
    if n <= 1 {
        0
    } else {
        1 + log2(n / 2)
    }
}

/// The low `m` bits of `n`, most significant first.
pub open spec fn low_bits(n: nat, m: nat) -> Seq<bool>
    decreases m,
{
    if m == 0 {
        seq![]
    } else {
        low_bits(n / 2, (m - 1) as nat).push(n % 2 == 1)
    }
}

/// The code of the positive integer `n`.
pub open spec fn code(n: nat) -> Seq<bool>
    decreases n,
    via code_decreases
{
    if n <= 1 {
        seq![false]
    } else {
        seq![true] + code(log2(n)) + low_bits(n, log2(n))
    }
}

#[via_fn]
proof fn code_decreases(n: nat) {
    if n > 1 {
        lemma_log2_lt(n);
    }
}

/// `s` begins with `p`.
pub open spec fn starts_with(s: Seq<bool>, p: Seq<bool>) -> bool {
    p.len() <= s.len() && s.take(p.len() as int) == p
}

/// The largest value a decode may return: the bound if one is given, else
/// the largest `u64`.
pub open spec fn limit(bound: Option<u64>) -> nat {
    match bound {
        Some(b) => b as nat,
        None => u64::MAX as nat,
    }
}

proof fn lemma_log2_lt(n: nat)
    requires
        n >= 1,
    ensures
        log2(n) < n,
    decreases n,
{
    if n > 1 {
        if n / 2 >= 1 {
            lemma_log2_lt(n / 2);
        }
    }
}

/// `2^log2(n) <= n < 2^(log2(n) + 1)`.
proof fn lemma_log2_range(n: nat)
    requires
        n >= 1,
    ensures
        exp2(log2(n)) <= n < exp2(log2(n) + 1),
    decreases n,
{
    if n > 1 {
        lemma_log2_range(n / 2);
        assert(log2(n) == 1 + log2(n / 2));
        assert(exp2(log2(n) + 1) == 2 * exp2(log2(n)));
    }
}

proof fn lemma_log2_unique(n: nat, m: nat)
    requires
        exp2(m) <= n < exp2(m + 1),
    ensures
        log2(n) == m,
    decreases m,
{
    lemma_exp2_pos(m);
    if m == 0 {
        lemma_exp2_values();
    } else {
        assert(exp2(m) == 2 * exp2((m - 1) as nat));
        assert(exp2(m + 1) == 2 * exp2(m));
        lemma_log2_unique(n / 2, (m - 1) as nat);
        lemma_exp2_pos((m - 1) as nat);
    }
}

/// Below `2^64`, `log2` is at most 63; from `2^64` on, at least 64.
proof fn lemma_log2_u64(n: nat)
    requires
        n >= 1,
    ensures
        n <= u64::MAX ==> log2(n) <= 63,
        n > u64::MAX ==> log2(n) >= 64,
{
    lemma_log2_range(n);
    lemma_exp2_values();
    if n <= u64::MAX && log2(n) > 63 {
        lemma_exp2_le(64, log2(n));
    }
    if n > u64::MAX && log2(n) < 64 {
        lemma_exp2_le(log2(n) + 1, 64);
    }
}

proof fn lemma_low_bits_len(n: nat, m: nat)
    ensures
        low_bits(n, m).len() == m,
    decreases m,
{
    if m > 0 {
        lemma_low_bits_len(n / 2, (m - 1) as nat);
    }
}

/// The low `m` bits of `n` read back as a number are `n mod 2^m`.
proof fn lemma_low_bits_value(n: nat, m: nat)
    ensures
        bits_to_nat(low_bits(n, m)) == n % exp2(m),
    decreases m,
{
    if m > 0 {
        let e = exp2((m - 1) as nat);
        lemma_low_bits_value(n / 2, (m - 1) as nat);
        lemma_bits_to_nat_push(low_bits(n / 2, (m - 1) as nat), n % 2 == 1);
        lemma_exp2_pos((m - 1) as nat);
        vstd::arithmetic::div_mod::lemma_mod_breakdown(n as int, 2, e as int);
        assert(exp2(m) == 2 * e);
    }
}

/// Reading back the low bits of `2^m + v`, where `v` is given by the bits `c`
/// of length `m`, gives `c`.
proof fn lemma_low_bits_of_chunk(c: Seq<bool>)
    ensures
        low_bits(exp2(c.len()) + bits_to_nat(c), c.len()) == c,
    decreases c.len(),
{
    if c.len() > 0 {
        let m = c.len();
        let p = c.drop_last();
        let v = bits_to_nat(c);
        lemma_low_bits_of_chunk(p);
        assert(exp2(m) == 2 * exp2(p.len()));
        assert(v == 2 * bits_to_nat(p) + (if c.last() {
            1nat
        } else {
            0nat
        }));
        let n = exp2(m) + v;
        assert(n / 2 == exp2(p.len()) + bits_to_nat(p));
        assert(n % 2 == 1 <==> c.last());
        assert(c =~= p.push(c.last()));
    }
}

/// A number `n` with `2^m <= n < 2^(m+1)` is `2^m` plus the value of its low `m` bits.
proof fn lemma_split_top_bit(n: nat, m: nat)
    requires
        exp2(m) <= n < exp2(m + 1),
    ensures
        n == exp2(m) + bits_to_nat(low_bits(n, m)),
{
    lemma_low_bits_value(n, m);
    assert(exp2(m + 1) == 2 * exp2(m));
    lemma_exp2_pos(m);
    let e = exp2(m);
    vstd::arithmetic::div_mod::lemma_small_mod((n - e) as nat, e);
    vstd::arithmetic::div_mod::lemma_mod_add_multiples_vanish((n - e) as int, e as int);
    assert(e + (n - e) == n);
}

/// Every code is non-empty, and starts with 0 exactly for 1.
proof fn lemma_code_head(n: nat)
    requires
        n >= 1,
    ensures
        code(n).len() >= 1,
        code(n)[0] == (n >= 2),
{
    if n >= 2 {
        let c = seq![true] + code(log2(n)) + low_bits(n, log2(n));
        assert(code(n) == c);
        assert(c[0] == true);
    } else {
        assert(code(n) == seq![false]);
    }
}

/// If `s` starts with the code of `n >= 2`, then after its first bit it
/// starts with the code of `log2 n`, and after that with the low bits of `n`.
proof fn lemma_code_split(s: Seq<bool>, n: nat)
    requires
        n >= 2,
        starts_with(s, code(n)),
    ensures
        s.len() >= 1,
        s[0],
        starts_with(s.skip(1), code(log2(n))),
        starts_with(s.skip(1).skip(code(log2(n)).len() as int), low_bits(n, log2(n))),
{
    let l = log2(n);
    let c = code(n);
    assert(c == seq![true] + code(l) + low_bits(n, l));
    let a = code(l).len() as int;
    let b = low_bits(n, l).len() as int;
    assert(s.take(c.len() as int) == c);
    assert(c[0] == true);
    assert(s[0] == c[0]);
    assert(s.skip(1).take(a) =~= c.subrange(1, 1 + a));
    assert(c.subrange(1, 1 + a) =~= code(l));
    assert(s.skip(1).skip(a).take(b) =~= c.subrange(1 + a, 1 + a + b));
    assert(c.subrange(1 + a, 1 + a + b) =~= low_bits(n, l));
}

/// Codes are prefix-free: if a bit string starts with the code of `n` and
/// with the code of `m`, then `n == m`.
pub proof fn lemma_code_prefix_free(s: Seq<bool>, n: nat, m: nat)
    requires
        n >= 1,
        m >= 1,
        starts_with(s, code(n)),
        starts_with(s, code(m)),
    ensures
        n == m,
    decreases n,
{
    lemma_code_head(n);
    lemma_code_head(m);
    assert(s[0] == code(n)[0]);
    assert(s[0] == code(m)[0]);
    if n >= 2 && m >= 2 {
        lemma_code_split(s, n);
        lemma_code_split(s, m);
        lemma_log2_lt(n);
        lemma_log2_range(n);
        lemma_log2_range(m);
        lemma_exp2_pos(log2(n));
        assert(log2(n) >= 1) by {
            if log2(n) == 0 {
                lemma_exp2_values();
            }
        }
        assert(log2(m) >= 1) by {
            if log2(m) == 0 {
                lemma_exp2_values();
            }
        }
        lemma_code_prefix_free(s.skip(1), log2(n), log2(m));
        let l = log2(n);
        let t = s.skip(1).skip(code(l).len() as int);
        lemma_low_bits_len(n, l);
        lemma_low_bits_len(m, l);
        assert(low_bits(n, l) == t.take(l as int));
        assert(low_bits(m, l) == t.take(l as int));
        lemma_split_top_bit(n, l);
        lemma_split_top_bit(m, l);
    }
}

/// Round trip: when decoding a bit string `d` gives `n` (so `d` starts with the
/// code of `n`, and no other code), the bits it consumed are exactly the bits
/// that encoding `n` writes, and the bytes that flushing the encoding gives
/// hold those bits in front.
pub proof fn lemma_round_trip(d: Seq<bool>, n: nat)
    requires
        n >= 1,
        starts_with(d, code(n)),
    ensures
        d.take(code(n).len() as int) == code(n),
        forall|m: nat| m >= 1 && starts_with(d, code(m)) ==> m == n,
        bytes_to_bits(pack(code(n))).take(code(n).len() as int) == d.take(code(n).len() as int),
{
    lemma_pack_bits(code(n));
    assert forall|m: nat| m >= 1 && starts_with(d, code(m)) implies m == n by {
        lemma_code_prefix_free(d, n, m);
    }
}

/// `floor(log2 n)` for `n >= 1`.
fn floor_log2(n: u64) -> (l: u64)
    requires
        n >= 1,
    ensures
        l == log2(n as nat),
        l < n,
{
    let mut m: u64 = n;
    let mut l: u64 = 0;
    proof {
        lemma_log2_lt(n as nat);
    }
    while m > 1
        invariant
            m >= 1,
            log2(n as nat) == l + log2(m as nat),
            log2(n as nat) < n,
        decreases m,
    {
        m = m / 2;
        l = l + 1;
    }
    l
}

/// Writes the low `m` bits of `n`, most significant first.
fn write_low_bits(n: u64, m: u64, w: &mut BitWriter)
    requires
        old(w).wf(),
    ensures
        final(w).wf(),
        final(w).bits() == old(w).bits() + low_bits(n as nat, m as nat),
    decreases m,
{
    if m == 0 {
        assert(old(w).bits() + low_bits(n as nat, 0) =~= old(w).bits());
    } else {
        write_low_bits(n / 2, m - 1, w);
        w.write_bit(n % 2 == 1);
        assert(final(w).bits() =~= old(w).bits() + low_bits(n as nat, m as nat));
    }
}

/// Writes the code of the positive integer `n`.
pub fn encode_natural(n: u64, w: &mut BitWriter)
    requires
        n >= 1,
        old(w).wf(),
    ensures
        final(w).wf(),
        final(w).bits() == old(w).bits() + code(n as nat),
    decreases n,
{
    if n == 1 {
        w.write_bit(false);
        assert(final(w).bits() =~= old(w).bits() + code(1));
    } else {
        w.write_bit(true);
        let l = floor_log2(n);
        proof {
            lemma_log2_range(n as nat);
            lemma_exp2_pos(l as nat);
            if l == 0 {
                lemma_exp2_values();
            }
        }
        encode_natural(l, w);
        write_low_bits(n, l, w);
        assert(final(w).bits() =~= old(w).bits() + code(n as nat));
    }
}

proof fn lemma_group_step(n: nat, i: nat, bit: bool)
    requires
        n < exp2(i + 1),
        i < 63,
    ensures
        2 * n + (if bit {
            1nat
        } else {
            0nat
        }) < exp2(i + 2),
        exp2(i + 2) <= 0x1_0000_0000_0000_0000,
{
    assert(exp2(i + 2) == 2 * exp2(i + 1));
    lemma_exp2_values();
    lemma_exp2_le(i + 2, 64);
}

/// Reads `len` more bits below a leading 1: the result is `2^len` plus the
/// value of the bits read.
fn read_group(r: &mut BitReader, len: u64) -> (res: Result<u64, NaturalDecodeError>)
    requires
        old(r).wf(),
        len <= 63,
    ensures
        final(r).wf(),
        final(r).stream() == old(r).stream(),
        old(r).rest().len() >= len ==> res == Ok::<u64, NaturalDecodeError>(
            (exp2(len as nat) + bits_to_nat(old(r).rest().take(len as int))) as u64,
        ) && final(r).pos() == old(r).pos() + len && exp2(len as nat) + bits_to_nat(
            old(r).rest().take(len as int),
        ) <= u64::MAX,
        old(r).rest().len() < len ==> res == Err::<u64, NaturalDecodeError>(
            NaturalDecodeError::EndOfInput,
        ),
{
    let ghost rest0 = r.rest();
    let ghost pos0 = r.pos();
    let mut n: u64 = 1;
    let mut i: u64 = 0;
    proof {
        assert(rest0.take(0) =~= Seq::<bool>::empty());
        assert(exp2(0) == 1);
    }
    while i < len
        invariant
            old(r).wf(),
            r.wf(),
            r.stream() == old(r).stream(),
            rest0 == old(r).rest(),
            pos0 == old(r).pos(),
            i <= len <= 63,
            i <= rest0.len(),
            r.pos() == pos0 + i,
            r.rest() == rest0.skip(i as int),
            n as nat == exp2(i as nat) + bits_to_nat(rest0.take(i as int)),
            n < exp2(i as nat + 1),
        decreases len - i,
    {
        let b = r.read_bit();
        match b {
            None => {
                return Err(NaturalDecodeError::EndOfInput);
            },
            Some(bit) => {
                proof {
                    assert(bit == rest0[i as int]);
                    assert(rest0.take(i + 1) =~= rest0.take(i as int).push(bit));
                    lemma_bits_to_nat_push(rest0.take(i as int), bit);
                    lemma_group_step(n as nat, i as nat, bit);
                    assert(r.rest() =~= rest0.skip(i + 1));
                }
                n = n * 2 + if bit {
                    1
                } else {
                    0
                };
                i = i + 1;
            },
        }
    }
    proof {
        lemma_bits_to_nat_bound(rest0.take(len as int));
    }
    Ok(n)
}

/// Decodes one code with no bound but the width of `u64`.
fn decode_unbounded(r: &mut BitReader) -> (res: Result<u64, NaturalDecodeError>)
    requires
        old(r).wf(),
    ensures
        final(r).wf(),
        final(r).stream() == old(r).stream(),
        res matches Ok(n) ==> n >= 1 && starts_with(old(r).rest(), code(n as nat)) && final(r).pos()
            == old(r).pos() + code(n as nat).len(),
        forall|m: nat|
            #![trigger starts_with(old(r).rest(), code(m))]
            1 <= m <= u64::MAX && starts_with(old(r).rest(), code(m)) ==> res == Ok::<
                u64,
                NaturalDecodeError,
            >(m as u64),
        forall|m: nat|
            #![trigger starts_with(old(r).rest(), code(m))]
            m > u64::MAX && starts_with(old(r).rest(), code(m)) ==> res == Err::<
                u64,
                NaturalDecodeError,
            >(NaturalDecodeError::BoundExceeded),
    decreases old(r).rest().len(),
{
    let ghost rest0 = r.rest();
    let ghost pos0 = r.pos();
    let first = r.read_bit();
    match first {
        None => {
            proof {
                assert forall|m: nat| m >= 1 implies !starts_with(rest0, code(m)) by {
                    lemma_code_head(m);
                }
            }
            Err(NaturalDecodeError::EndOfInput)
        },
        Some(false) => {
            proof {
                assert(code(1) == seq![false]);
                assert(rest0.take(1) =~= seq![false]);
                assert forall|m: nat| m >= 2 implies !starts_with(rest0, code(m)) by {
                    lemma_code_head(m);
                    if starts_with(rest0, code(m)) {
                        assert(rest0[0] == code(m)[0]);
                    }
                }
            }
            Ok(1)
        },
        Some(true) => {
            let ghost rest1 = r.rest();
            proof {
                assert(rest0.len() > 0);
                assert(r.pos() == pos0 + 1);
                assert(rest1 =~= rest0.skip(1));
                assert forall|m: nat| m == 1 implies !starts_with(rest0, code(m)) by {
                    assert(code(1) == seq![false]);
                    if starts_with(rest0, code(m)) {
                        assert(rest0[0] == code(m)[0]);
                    }
                }
            }
            let inner = decode_unbounded(r);
            match inner {
                Err(e) => {
                    proof {
                        assert forall|m: nat|
                            1 <= m && starts_with(rest0, code(m)) implies m > u64::MAX && e
                            == NaturalDecodeError::BoundExceeded by {
                            lemma_code_split(rest0, m);
                            lemma_log2_u64(m);
                            lemma_log2_range(m);
                            lemma_exp2_pos(log2(m));
                            assert(log2(m) >= 1) by {
                                if log2(m) == 0 {
                                    lemma_exp2_values();
                                }
                            }
                        }
                    }
                    Err(e)
                },
                Ok(len) => {
                    if len > 63 {
                        proof {
                            assert forall|m: nat|
                                1 <= m && starts_with(rest0, code(m)) implies m > u64::MAX by {
                                lemma_code_split(rest0, m);
                                lemma_log2_u64(m);
                                lemma_log2_range(m);
                                lemma_exp2_pos(log2(m));
                                assert(log2(m) >= 1) by {
                                    if log2(m) == 0 {
                                        lemma_exp2_values();
                                    }
                                }
                                if m <= u64::MAX {
                                    assert(log2(m) <= 63);
                                }
                            }
                        }
                        return Err(NaturalDecodeError::BoundExceeded);
                    }
                    let ghost rest2 = r.rest();
                    let ghost a = code(len as nat).len() as int;
                    proof {
                        assert(starts_with(rest1, code(len as nat)));
                        assert(r.pos() == pos0 + 1 + a);
                        assert(rest2 =~= rest1.skip(a));
                    }
                    let res = read_group(r, len);
                    proof {
                        assert forall|m: nat|
                            1 <= m && starts_with(rest0, code(m)) implies (m <= u64::MAX ==> res
                            == Ok::<u64, NaturalDecodeError>(m as u64)) && (m > u64::MAX ==> res
                            == Err::<u64, NaturalDecodeError>(
                                NaturalDecodeError::BoundExceeded,
                            )) by {
                            lemma_code_split(rest0, m);
                            lemma_log2_u64(m);
                            lemma_log2_range(m);
                            lemma_exp2_pos(log2(m));
                            assert(log2(m) >= 1) by {
                                if log2(m) == 0 {
                                    lemma_exp2_values();
                                }
                            }
                            assert(log2(m) == len);
                            lemma_low_bits_len(m, log2(m));
                            assert(rest2.take(len as int) == low_bits(m, log2(m)));
                            lemma_split_top_bit(m, log2(m));
                        }
                        if let Ok(n) = res {
                            let c = rest2.take(len as int);
                            lemma_bits_to_nat_bound(c);
                            assert(exp2(len as nat + 1) == 2 * exp2(len as nat));
                            lemma_exp2_pos(len as nat);
                            lemma_log2_unique(n as nat, len as nat);
                            lemma_low_bits_of_chunk(c);
                            assert(n >= 2) by {
                                lemma_exp2_values();
                                if len >= 1 {
                                    lemma_exp2_adds(1, (len - 1) as nat);
                                    lemma_exp2_pos((len - 1) as nat);
                                    assert(exp2(1) * exp2((len - 1) as nat) >= 2)
                                        by (nonlinear_arith)
                                        requires
                                            exp2((len - 1) as nat) >= 1,
                                            exp2(1) == 2,
                                    ;
                                }
                            }
                            assert(low_bits(n as nat, len as nat) == c);
                            let cn = code(n as nat);
                            assert(cn == seq![true] + code(len as nat) + c);
                            assert(rest0.take(cn.len() as int) =~= cn);
                        }
                    }
                    res
                },
            }
        },
    }
}

/// Decodes the code of a positive integer from `r`, reading no further than
/// its end. With a bound, a value above it is refused.
pub fn decode_natural(r: &mut BitReader, bound: Option<u64>) -> (res: Result<
    u64,
    NaturalDecodeError,
>)
    requires
        old(r).wf(),
    ensures
        final(r).wf(),
        final(r).stream() == old(r).stream(),
        res matches Ok(n) ==> 1 <= n <= limit(bound) && starts_with(old(r).rest(), code(n as nat))
            && final(r).pos() == old(r).pos() + code(n as nat).len(),
        forall|m: nat|
            #![trigger starts_with(old(r).rest(), code(m))]
            1 <= m <= limit(bound) && starts_with(old(r).rest(), code(m)) ==> res == Ok::<
                u64,
                NaturalDecodeError,
            >(m as u64),
        forall|m: nat|
            #![trigger starts_with(old(r).rest(), code(m))]
            m > limit(bound) && starts_with(old(r).rest(), code(m)) ==> res == Err::<
                u64,
                NaturalDecodeError,
            >(NaturalDecodeError::BoundExceeded),
        res == Err::<u64, NaturalDecodeError>(NaturalDecodeError::EndOfInput) ==> forall|m: nat|
            m >= 1 ==> !starts_with(old(r).rest(), code(m)),
{
    let ghost rest0 = r.rest();
    let res = decode_unbounded(r);
    let out = match res {
        Ok(n) => {
            let over = match bound {
                Some(b) => n > b,
                None => false,
            };
            if over {
                Err(NaturalDecodeError::BoundExceeded)
            } else {
                Ok(n)
            }
        },
        Err(e) => Err(e),
    };
    proof {
        assert forall|m: nat| m >= 1 && starts_with(rest0, code(m)) implies out
            != Err::<u64, NaturalDecodeError>(NaturalDecodeError::EndOfInput) by {
            if m <= u64::MAX {
                assert(res == Ok::<u64, NaturalDecodeError>(m as u64));
            }
        }
    }
    out
}

} // verus!
