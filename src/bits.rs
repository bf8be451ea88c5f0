//! Bit-level input and output: a writer that packs bits MSB-first into bytes,
//! and a reader that hands out the bits of a byte string one at a time.
use vstd::prelude::*;

verus! {

/// Two to the power `e`.
pub open spec fn exp2(e: nat) -> nat
    decreases e,
{
    if e == 0 {
        1
    } else {
        2 * exp2((e - 1) as nat)
    }
}

/// The number whose big-endian binary digits are `s` (`true` is a one).
pub open spec fn bits_to_nat(s: Seq<bool>) -> nat
    decreases s.len(),
{
    if s.len() == 0 {
        0
    } else {
        2 * bits_to_nat(s.drop_last()) + (if s.last() {
            1nat
        } else {
            0nat
        })
    }
}

/// One byte holding the (at most eight) bits of `s` from its top bit down,
/// padded with zero bits at the bottom.
pub open spec fn pack_chunk(s: Seq<bool>) -> u8 {
    (bits_to_nat(s) * exp2((8 - s.len()) as nat)) as u8
}

/// The bytes that hold `s` MSB-first, the last one padded with zero bits.
pub open spec fn pack(s: Seq<bool>) -> Seq<u8>
    decreases s.len(),
{
    if s.len() == 0 {
        seq![]
    } else if s.len() <= 8 {
        seq![pack_chunk(s)]
    } else {
        seq![pack_chunk(s.take(8))] + pack(s.skip(8))
    }
}

/// Bit `i` of the byte string `d`, counting from the top bit of its first byte.
pub open spec fn bit_at(d: Seq<u8>, i: int) -> bool {
    (d[i / 8] >> ((7 - i % 8) as u8)) & 1u8 == 1u8
}

/// The bits of the byte string `d`, MSB-first.
pub open spec fn bytes_to_bits(d: Seq<u8>) -> Seq<bool> {
    Seq::new((8 * d.len()) as nat, |i: int| bit_at(d, i))
}

pub proof fn lemma_exp2_pos(e: nat)
    ensures
        exp2(e) >= 1,
    decreases e,
{
    if e > 0 {
        lemma_exp2_pos((e - 1) as nat);
    }
}

pub proof fn lemma_exp2_adds(a: nat, b: nat)
    ensures
        exp2(a + b) == exp2(a) * exp2(b),
    decreases b,
{
    if b > 0 {
        lemma_exp2_adds(a, (b - 1) as nat);
        assert((a + b - 1) as nat == a + ((b - 1) as nat));
        assert(exp2((a + b - 1) as nat) == exp2(a) * exp2((b - 1) as nat));
        assert(exp2(a + b) == 2 * exp2((a + b - 1) as nat));
        assert(exp2(a) * exp2(b) == exp2(a) * (2 * exp2((b - 1) as nat)));
        assert(exp2(a) * (2 * exp2((b - 1) as nat)) == 2 * (exp2(a) * exp2((b - 1) as nat)))
            by (nonlinear_arith);
    } else {
        assert(exp2(0) == 1);
        assert(a + b == a);
        assert(exp2(a) * 1 == exp2(a));
    }
}

/// The powers of two that the codecs need.
pub proof fn lemma_exp2_values()
    ensures
        exp2(0) == 1,
        exp2(1) == 2,
        exp2(8) == 256,
        exp2(64) == 0x1_0000_0000_0000_0000,
{
    reveal_with_fuel(exp2, 9);
    lemma_exp2_adds(8, 8);
    assert(exp2(16) == 0x1_0000);
    lemma_exp2_adds(16, 16);
    assert(exp2(32) == 0x1_0000_0000);
    lemma_exp2_adds(32, 32);
    assert(exp2(64) == 0x1_0000_0000 * 0x1_0000_0000);
}

/// `exp2` is monotonic.
pub proof fn lemma_exp2_le(a: nat, b: nat)
    requires
        a <= b,
    ensures
        exp2(a) <= exp2(b),
{
    lemma_exp2_adds(a, (b - a) as nat);
    lemma_exp2_pos((b - a) as nat);
    assert(exp2(a) * exp2((b - a) as nat) >= exp2(a)) by (nonlinear_arith)
        requires
            exp2((b - a) as nat) >= 1,
    ;
}

pub proof fn lemma_bits_to_nat_bound(s: Seq<bool>)
    ensures
        bits_to_nat(s) < exp2(s.len()),
    decreases s.len(),
{
    if s.len() > 0 {
        lemma_bits_to_nat_bound(s.drop_last());
    }
}

pub proof fn lemma_bits_to_nat_push(s: Seq<bool>, b: bool)
    ensures
        bits_to_nat(s.push(b)) == 2 * bits_to_nat(s) + (if b {
            1nat
        } else {
            0nat
        }),
{
    assert(s.push(b).drop_last() =~= s);
}

proof fn lemma_pack_append(s: Seq<bool>, c: Seq<bool>)
    requires
        s.len() % 8 == 0,
        0 < c.len() <= 8,
    ensures
        pack(s + c) == pack(s).push(pack_chunk(c)),
    decreases s.len(),
{
    if s.len() == 0 {
        assert(s + c =~= c);
        assert(pack(s) =~= seq![]);
        assert(pack(c) =~= seq![pack_chunk(c)]);
    } else {
        let t = s + c;
        assert(t.take(8) =~= s.take(8));
        assert(t.skip(8) =~= s.skip(8) + c);
        lemma_pack_append(s.skip(8), c);
        if s.len() == 8 {
            assert(s.take(8) =~= s);
            assert(s.skip(8) + c =~= c);
            assert(pack(s) =~= seq![pack_chunk(s)]);
            assert(pack(s.skip(8)) =~= seq![]);
        }
        assert(pack(t) =~= seq![pack_chunk(s.take(8))] + pack(s.skip(8) + c));
        assert(pack(t) =~= pack(s).push(pack_chunk(c)));
    }
}

proof fn lemma_u8_bit(x: u8, k: u8)
    requires
        k < 8,
    ensures
        ((x >> k) & 1u8 == 1u8) == ((x as nat / exp2(k as nat)) % 2 == 1),
{
    reveal_with_fuel(exp2, 8);
    if k == 0 {
        assert((x >> 0u8) & 1u8 == x % 2) by (bit_vector);
        assert(exp2(0) == 1);
        assert(x as nat / 1 == x as nat);
    } else if k == 1 {
        assert((x >> 1u8) & 1u8 == (x / 2) % 2) by (bit_vector);
        assert(exp2(1) == 2);
    } else if k == 2 {
        assert((x >> 2u8) & 1u8 == (x / 4) % 2) by (bit_vector);
        assert(exp2(2) == 4);
    } else if k == 3 {
        assert((x >> 3u8) & 1u8 == (x / 8) % 2) by (bit_vector);
        assert(exp2(3) == 8);
    } else if k == 4 {
        assert((x >> 4u8) & 1u8 == (x / 16) % 2) by (bit_vector);
        assert(exp2(4) == 16);
    } else if k == 5 {
        assert((x >> 5u8) & 1u8 == (x / 32) % 2) by (bit_vector);
        assert(exp2(5) == 32);
    } else if k == 6 {
        assert((x >> 6u8) & 1u8 == (x / 64) % 2) by (bit_vector);
        assert(exp2(6) == 64);
    } else {
        assert((x >> 7u8) & 1u8 == (x / 128) % 2) by (bit_vector);
        assert(exp2(7) == 128);
    }
}

/// Bit `k` from the bottom of the number with digits `c` is `c[len - 1 - k]`.
proof fn lemma_bits_to_nat_digit(c: Seq<bool>, k: nat)
    requires
        k < c.len(),
    ensures
        (bits_to_nat(c) / exp2(k)) % 2 == 1 <==> c[c.len() - 1 - k],
    decreases k,
{
    let p = c.drop_last();
    let b: nat = if c.last() {
        1
    } else {
        0
    };
    assert(bits_to_nat(c) == 2 * bits_to_nat(p) + b);
    if k > 0 {
        lemma_bits_to_nat_digit(p, (k - 1) as nat);
        lemma_exp2_pos((k - 1) as nat);
        assert(exp2(k) == 2 * exp2((k - 1) as nat));
        vstd::arithmetic::div_mod::lemma_div_denominator(
            bits_to_nat(c) as int,
            2,
            exp2((k - 1) as nat) as int,
        );
        assert((2 * bits_to_nat(p) + b) / 2 == bits_to_nat(p));
        assert(p[p.len() - 1 - (k - 1)] == c[c.len() - 1 - k]);
    } else {
        assert(exp2(0) == 1);
        assert(bits_to_nat(c) / 1 == bits_to_nat(c));
        assert(c[c.len() - 1] == c.last());
    }
}

proof fn lemma_pad_zeros(c: Seq<bool>, k: nat)
    ensures
        bits_to_nat(c + Seq::new(k, |i: int| false)) == bits_to_nat(c) * exp2(k),
    decreases k,
{
    let z = Seq::new(k, |i: int| false);
    if k == 0 {
        assert(c + z =~= c);
        assert(bits_to_nat(c) * 1 == bits_to_nat(c));
    } else {
        let z1 = Seq::new((k - 1) as nat, |i: int| false);
        lemma_pad_zeros(c, (k - 1) as nat);
        assert(c + z =~= (c + z1).push(false));
        lemma_bits_to_nat_push(c + z1, false);
        assert(bits_to_nat(c) * exp2(k) == 2 * (bits_to_nat(c) * exp2((k - 1) as nat)))
            by (nonlinear_arith)
            requires
                exp2(k) == 2 * exp2((k - 1) as nat),
        ;
    }
}

/// Each bit of a chunk of at most eight stands in the packed byte, from
/// its top bit down.
proof fn lemma_pack_chunk_bit(c: Seq<bool>, j: int)
    requires
        0 < c.len() <= 8,
        0 <= j < c.len(),
    ensures
        ((pack_chunk(c) >> ((7 - j) as u8)) & 1u8 == 1u8) == c[j],
{
    let k = (8 - c.len()) as nat;
    let c8 = c + Seq::new(k, |i: int| false);
    lemma_pad_zeros(c, k);
    lemma_bits_to_nat_bound(c8);
    assert(exp2(8) == 256) by {
        reveal_with_fuel(exp2, 9);
    }
    assert(c8.len() == 8);
    lemma_bits_to_nat_digit(c8, (7 - j) as nat);
    lemma_u8_bit(pack_chunk(c), (7 - j) as u8);
    assert(c8[j] == c[j]);
}

/// Packing loses nothing: the bits of the packed bytes begin with `s`.
pub proof fn lemma_pack_bits(s: Seq<bool>)
    ensures
        bytes_to_bits(pack(s)).len() >= s.len(),
        bytes_to_bits(pack(s)).take(s.len() as int) == s,
    decreases s.len(),
{
    if s.len() == 0 {
        assert(bytes_to_bits(pack(s)).take(0) =~= s);
    } else if s.len() <= 8 {
        let b = bytes_to_bits(pack(s));
        assert(pack(s) =~= seq![pack_chunk(s)]);
        assert forall|i: int| 0 <= i < s.len() implies b[i] == s[i] by {
            lemma_pack_chunk_bit(s, i);
        }
        assert(b.take(s.len() as int) =~= s);
    } else {
        let t = s.skip(8);
        lemma_pack_bits(t);
        let p = pack(s);
        assert(p =~= seq![pack_chunk(s.take(8))] + pack(t));
        let b = bytes_to_bits(p);
        let bt = bytes_to_bits(pack(t));
        assert forall|i: int| 0 <= i < s.len() implies b[i] == s[i] by {
            if i < 8 {
                lemma_pack_chunk_bit(s.take(8), i);
            } else {
                assert(p[i / 8] == pack(t)[(i - 8) / 8]);
                assert(b[i] == bt[i - 8]);
                assert(bt.take(t.len() as int)[i - 8] == t[i - 8]);
            }
        }
        assert(b.take(s.len() as int) =~= s);
    }
}

/// Collects bits and packs them MSB-first into bytes.
pub struct BitWriter {
    bytes: Vec<u8>,
    acc: u8,
    n_acc: usize,
    written: Ghost<Seq<bool>>,
}

impl BitWriter {
    /// The bits written so far, in order.
    pub closed spec fn bits(&self) -> Seq<bool> {
        self.written@
    }

    pub closed spec fn wf(&self) -> bool {
        let full = (8 * self.bytes@.len()) as int;
        &&& self.n_acc < 8
        &&& self.written@.len() == full + self.n_acc
        &&& self.bytes@ == pack(self.written@.take(full))
        &&& self.acc as nat == bits_to_nat(self.written@.skip(full))
    }

    pub fn new() -> (w: BitWriter)
        ensures
            w.wf(),
            w.bits() == Seq::<bool>::empty(),
    {
        let w = BitWriter { bytes: Vec::new(), acc: 0, n_acc: 0, written: Ghost(Seq::empty()) };
        proof {
            assert(w.written@.take(0) =~= Seq::<bool>::empty());
            assert(w.written@.skip(0) =~= Seq::<bool>::empty());
        }
        w
    }

    /// The number of bits written so far.
    pub fn n_total_written(&self) -> (n: usize)
        requires
            self.wf(),
            self.bits().len() <= usize::MAX,
        ensures
            n == self.bits().len(),
    {
        self.bytes.len() * 8 + self.n_acc
    }

    pub fn write_bit(&mut self, b: bool)
        requires
            old(self).wf(),
        ensures
            final(self).wf(),
            final(self).bits() == old(self).bits().push(b),
    {
        let ghost old_w = self.written@;
        let ghost full = (8 * self.bytes@.len()) as int;
        proof {
            lemma_bits_to_nat_bound(old_w.skip(full));
            assert(exp2(self.n_acc as nat) <= 128) by {
                reveal_with_fuel(exp2, 8);
            }
            assert(old_w.push(b).skip(full) =~= old_w.skip(full).push(b));
            assert(old_w.push(b).take(full) =~= old_w.take(full));
            lemma_bits_to_nat_push(old_w.skip(full), b);
        }
        let bit: u8 = if b {
            1
        } else {
            0
        };
        self.acc = self.acc * 2 + bit;
        self.n_acc = self.n_acc + 1;
        self.written = Ghost(old_w.push(b));
        if self.n_acc == 8 {
            proof {
                let w = old_w.push(b);
                let chunk = w.skip(full);
                assert(chunk.len() == 8);
                assert(full % 8 == 0);
                assert(w.take(full).len() == full);
                assert(w.take(full + 8) =~= w.take(full) + chunk);
                lemma_pack_append(w.take(full), chunk);
                assert(exp2(0) == 1);
                assert(w.skip(full + 8) =~= Seq::<bool>::empty());
                assert(bits_to_nat(chunk) == self.acc as nat);
                let e0 = exp2(0);
                assert(e0 == 1);
                assert(bits_to_nat(chunk) * e0 == bits_to_nat(chunk)) by (nonlinear_arith)
                    requires
                        e0 == 1,
                ;
                assert((8 - chunk.len()) as nat == 0);
                assert(pack_chunk(chunk) == self.acc);
            }
            self.bytes.push(self.acc);
            self.acc = 0;
            self.n_acc = 0;
            proof {
                assert(8 * self.bytes@.len() == full + 8);
                assert(self.bytes@ == pack(self.written@.take(full + 8)));
            }
        } else {
            proof {
                assert(self.bytes@ == pack(self.written@.take(full)));
                assert(self.acc as nat == bits_to_nat(self.written@.skip(full)));
            }
        }
    }

    /// The packed bytes; a final partial byte is padded with zero bits.
    pub fn into_bytes(self) -> (r: Vec<u8>)
        requires
            self.wf(),
        ensures
            r@ == pack(self.bits()),
    {
        let mut bytes = self.bytes;
        let ghost w = self.written@;
        let ghost full = (8 * bytes@.len()) as int;
        if self.n_acc > 0 {
            let mut a: u16 = self.acc as u16;
            let mut k: usize = self.n_acc;
            proof {
                lemma_bits_to_nat_bound(w.skip(full));
                assert(exp2(0) == 1);
                assert(exp2(8) == 256) by {
                    reveal_with_fuel(exp2, 9);
                }
                assert(bits_to_nat(w.skip(full)) * exp2(0) == bits_to_nat(w.skip(full)));
                assert(self.n_acc < 8);
            }
            while k < 8
                invariant
                    self.n_acc <= k <= 8,
                    a as nat == bits_to_nat(w.skip(full)) * exp2((k - self.n_acc) as nat),
                    bits_to_nat(w.skip(full)) < exp2(self.n_acc as nat),
                    a < exp2(k as nat),
                    exp2(8) == 256,
                decreases 8 - k,
            {
                proof {
                    let e = (k - self.n_acc) as nat;
                    assert(exp2(e + 1) == 2 * exp2(e));
                    assert(exp2(k as nat + 1) == 2 * exp2(k as nat));
                    lemma_exp2_pos(k as nat);
                    assert(exp2(k as nat) <= 128) by {
                        if k < 7 {
                            lemma_exp2_adds(k as nat, (7 - k) as nat);
                            lemma_exp2_pos((7 - k) as nat);
                            assert(exp2(k as nat) * exp2((7 - k) as nat) >= exp2(k as nat))
                                by (nonlinear_arith)
                                requires
                                    exp2((7 - k) as nat) >= 1,
                            ;
                        }
                        reveal_with_fuel(exp2, 8);
                    }
                    assert(bits_to_nat(w.skip(full)) * (2 * exp2(e)) == 2 * (bits_to_nat(
                        w.skip(full),
                    ) * exp2(e))) by (nonlinear_arith);
                }
                a = a * 2;
                k = k + 1;
            }
            proof {
                assert(w =~= w.take(full) + w.skip(full));
                lemma_pack_append(w.take(full), w.skip(full));
            }
            bytes.push(a as u8);
        } else {
            proof {
                assert(w.take(full) =~= w);
            }
        }
        bytes
    }
}

/// Reads the bits of a byte string one at a time, MSB-first.
pub struct BitReader {
    data: Vec<u8>,
    pos: usize,
}

impl BitReader {
    /// All the bits of the underlying byte string.
    pub closed spec fn stream(&self) -> Seq<bool> {
        bytes_to_bits(self.data@)
    }

    /// How many bits have been read.
    pub closed spec fn pos(&self) -> nat {
        self.pos as nat
    }

    /// The bits not read yet.
    pub open spec fn rest(&self) -> Seq<bool> {
        self.stream().skip(self.pos() as int)
    }

    pub open spec fn wf(&self) -> bool {
        &&& self.pos() <= self.stream().len()
        &&& self.fits()
    }

    /// The input is short enough that its bit positions fit a `usize`.
    pub closed spec fn fits(&self) -> bool {
        self.data@.len() <= usize::MAX / 8
    }

    pub fn new(data: Vec<u8>) -> (r: BitReader)
        requires
            data@.len() <= usize::MAX / 8,
        ensures
            r.wf(),
            r.stream() == bytes_to_bits(data@),
            r.pos() == 0,
    {
        BitReader { data, pos: 0 }
    }

    /// The number of bits read so far.
    pub fn n_total_read(&self) -> (n: usize)
        ensures
            n == self.pos(),
    {
        self.pos
    }

    /// The next bit, or `None` where the input is exhausted.
    pub fn read_bit(&mut self) -> (r: Option<bool>)
        requires
            old(self).wf(),
        ensures
            final(self).wf(),
            final(self).stream() == old(self).stream(),
            old(self).rest().len() == 0 ==> r is None && final(self).pos() == old(self).pos(),
            old(self).rest().len() > 0 ==> r == Some(old(self).rest()[0]) && final(self).pos()
                == old(self).pos() + 1,
    {
        let idx = self.pos / 8;
        if idx < self.data.len() {
            let shift = (7 - self.pos % 8) as u8;
            let b = (self.data[idx] >> shift) & 1u8 == 1u8;
            proof {
                assert(self.rest()[0] == bit_at(self.data@, self.pos as int));
            }
            self.pos = self.pos + 1;
            Some(b)
        } else {
            None
        }
    }
}

} // verus!
