//! Algebraic values (unit, sums, products) and their canonical bit encoding.
use crate::bits::{exp2, pack, BitWriter};
use vstd::prelude::*;
use vstd::string::StringExecFns;

verus! {

#[derive(PartialEq, Eq, PartialOrd, Ord, Hash, Debug)]
pub enum Value {
    Unit,
    SumL(Box<Value>),
    SumR(Box<Value>),
    Prod(Box<Value>, Box<Value>),
}

impl Clone for Value {
    fn clone(&self) -> (r: Value)
        ensures
            r == *self,
        decreases self,
    {
        match self {
            Value::Unit => Value::Unit,
            Value::SumL(s) => Value::SumL(Box::new((**s).clone())),
            Value::SumR(s) => Value::SumR(Box::new((**s).clone())),
            Value::Prod(s, t) => Value::Prod(Box::new((**s).clone()), Box::new((**t).clone())),
        }
    }
}

/// Why a value could not be built or encoded.
#[derive(Clone, Copy, PartialEq, Eq, Debug)]
pub enum ValueError {
    /// A fixed-width constructor was given a number wider than its width.
    OutOfRange,
    /// The value's bit string does not fill a whole number of bytes.
    NotByteAligned,
}

/// The value of width `w` (a power of two) that holds `n`: halves split
/// recursively, the high half on the left, one bit as `SumL(Unit)` (0) or
/// `SumR(Unit)` (1).
pub open spec fn uint_value(n: nat, w: nat) -> Value
    decreases w,
{
    if w <= 1 {
        if n % 2 == 0 {
            Value::SumL(Box::new(Value::Unit))
        } else {
            Value::SumR(Box::new(Value::Unit))
        }
    } else {
        let h = w / 2;
        Value::Prod(
            Box::new(uint_value(n / exp2(h), h)),
            Box::new(uint_value(n % exp2(h), h)),
        )
    }
}

/// The big-endian number held by the bytes `s`.
pub open spec fn be_nat(s: Seq<u8>) -> nat
    decreases s.len(),
{
    if s.len() == 0 {
        0
    } else {
        256 * be_nat(s.drop_last()) + s.last() as nat
    }
}

/// The value of a 256-bit word given as 32 big-endian bytes: four 64-bit
/// words, paired two by two.
pub open spec fn u256_value(s: Seq<u8>) -> Value {
    Value::Prod(
        Box::new(
            Value::Prod(
                Box::new(uint_value(be_nat(s.subrange(0, 8)), 64)),
                Box::new(uint_value(be_nat(s.subrange(8, 16)), 64)),
            ),
        ),
        Box::new(
            Value::Prod(
                Box::new(uint_value(be_nat(s.subrange(16, 24)), 64)),
                Box::new(uint_value(be_nat(s.subrange(24, 32)), 64)),
            ),
        ),
    )
}

impl Value {
    /// The length of the value's bit encoding.
    pub open spec fn bit_len(self) -> nat
        decreases self,
    {
        match self {
            Value::Unit => 0,
            Value::SumL(s) => 1 + s.bit_len(),
            Value::SumR(s) => 1 + s.bit_len(),
            Value::Prod(s, t) => s.bit_len() + t.bit_len(),
        }
    }

    /// The value's bit encoding, in pre-order: a sum gives its tag bit
    /// (0 left, 1 right) and then its child, a product its left part and
    /// then its right part, the unit nothing.
    pub open spec fn bits(self) -> Seq<bool>
        decreases self,
    {
        match self {
            Value::Unit => seq![],
            Value::SumL(s) => seq![false] + s.bits(),
            Value::SumR(s) => seq![true] + s.bits(),
            Value::Prod(s, t) => s.bits() + t.bits(),
        }
    }

    /// The number of nodes in the value's tree.
    pub open spec fn size(self) -> nat
        decreases self,
    {
        match self {
            Value::Unit => 1,
            Value::SumL(s) => 1 + s.size(),
            Value::SumR(s) => 1 + s.size(),
            Value::Prod(s, t) => 1 + s.size() + t.size(),
        }
    }

    /// The length, in bits, of the value when encoded.
    pub fn len(&self) -> (r: usize)
        requires
            self.bit_len() <= usize::MAX,
        ensures
            r == self.bit_len(),
        decreases self,
    {
        match self {
            Value::Unit => 0,
            Value::SumL(s) => 1 + s.len(),
            Value::SumR(s) => 1 + s.len(),
            Value::Prod(s, t) => s.len() + t.len(),
        }
    }

    /// A single bit; `OutOfRange` above 1.
    pub fn u1(n: u8) -> (r: Result<Value, ValueError>)
        ensures
            n <= 1 ==> r == Ok::<Value, ValueError>(uint_value(n as nat, 1)),
            n > 1 ==> r == Err::<Value, ValueError>(ValueError::OutOfRange),
    {
        if n > 1 {
            Err(ValueError::OutOfRange)
        } else {
            Ok(bit(n))
        }
    }

    /// A two-bit number; `OutOfRange` above 3.
    pub fn u2(n: u8) -> (r: Result<Value, ValueError>)
        ensures
            n <= 3 ==> r == Ok::<Value, ValueError>(uint_value(n as nat, 2)),
            n > 3 ==> r == Err::<Value, ValueError>(ValueError::OutOfRange),
    {
        if n > 3 {
            Err(ValueError::OutOfRange)
        } else {
            Ok(two_bits(n))
        }
    }

    /// A four-bit number; `OutOfRange` above 15.
    pub fn u4(n: u8) -> (r: Result<Value, ValueError>)
        ensures
            n <= 15 ==> r == Ok::<Value, ValueError>(uint_value(n as nat, 4)),
            n > 15 ==> r == Err::<Value, ValueError>(ValueError::OutOfRange),
    {
        if n > 15 {
            Err(ValueError::OutOfRange)
        } else {
            Ok(nibble(n))
        }
    }

    /// An eight-bit number.
    pub fn u8(n: u8) -> (r: Value)
        ensures
            r == uint_value(n as nat, 8),
    {
        let w0 = n >> 4;
        let w1 = n & 0xf;
        proof {
            assert(w0 == n / 16) by (bit_vector)
                requires
                    w0 == n >> 4,
            ;
            assert(w1 == n % 16) by (bit_vector)
                requires
                    w1 == n & 0xf,
            ;
            reveal_with_fuel(exp2, 5);
        }
        Value::Prod(Box::new(nibble(w0)), Box::new(nibble(w1)))
    }

    /// A 16-bit number.
    pub fn u16(n: u16) -> (r: Value)
        ensures
            r == uint_value(n as nat, 16),
    {
        let w0 = (n >> 8) as u8;
        let w1 = (n & 0xff) as u8;
        proof {
            assert((n >> 8) == n / 256) by (bit_vector);
            assert((n & 0xff) == n % 256) by (bit_vector);
            reveal_with_fuel(exp2, 9);
        }
        Value::Prod(Box::new(Value::u8(w0)), Box::new(Value::u8(w1)))
    }

    /// A 32-bit number.
    pub fn u32(n: u32) -> (r: Value)
        ensures
            r == uint_value(n as nat, 32),
    {
        let w0 = (n >> 16) as u16;
        let w1 = (n & 0xffff) as u16;
        proof {
            assert((n >> 16) == n / 65536) by (bit_vector);
            assert((n & 0xffff) == n % 65536) by (bit_vector);
            reveal_with_fuel(exp2, 17);
        }
        Value::Prod(Box::new(Value::u16(w0)), Box::new(Value::u16(w1)))
    }

    /// A 64-bit number.
    pub fn u64(n: u64) -> (r: Value)
        ensures
            r == uint_value(n as nat, 64),
    {
        let w0 = (n >> 32) as u32;
        let w1 = (n & 0xffff_ffff) as u32;
        proof {
            assert((n >> 32) == n / 0x1_0000_0000) by (bit_vector);
            assert((n & 0xffff_ffff) == n % 0x1_0000_0000) by (bit_vector);
            reveal_with_fuel(exp2, 33);
        }
        Value::Prod(Box::new(Value::u32(w0)), Box::new(Value::u32(w1)))
    }

    /// A 256-bit number given as 32 big-endian bytes (a key or a hash).
    pub fn u256_from_slice(v: &[u8]) -> (r: Value)
        requires
            v@.len() == 32,
        ensures
            r == u256_value(v@),
    {
        Value::Prod(
            Box::new(
                Value::Prod(
                    Box::new(Value::u64(be_u64(v, 0))),
                    Box::new(Value::u64(be_u64(v, 8))),
                ),
            ),
            Box::new(
                Value::Prod(
                    Box::new(Value::u64(be_u64(v, 16))),
                    Box::new(Value::u64(be_u64(v, 24))),
                ),
            ),
        )
    }

    /// A 512-bit number given as 64 big-endian bytes (a signature): two
    /// 256-bit halves.
    pub fn u512_from_slice(v: &[u8]) -> (r: Value)
        requires
            v@.len() == 64,
        ensures
            r == Value::Prod(
                Box::new(u256_value(v@.subrange(0, 32))),
                Box::new(u256_value(v@.subrange(32, 64))),
            ),
    {
        let lo = v.split_at(32);
        proof {
            assert(lo.0@ =~= v@.subrange(0, 32));
            assert(lo.1@ =~= v@.subrange(32, 64));
        }
        Value::Prod(Box::new(Value::u256_from_slice(lo.0)), Box::new(Value::u256_from_slice(lo.1)))
    }

    /// The encoding as bytes; `NotByteAligned` where the bit string does
    /// not fill a whole number of bytes.
    pub fn try_to_bytes(&self) -> (r: Result<Vec<u8>, ValueError>)
        requires
            self.bit_len() <= usize::MAX,
        ensures
            self.bit_len() % 8 == 0 ==> r is Ok && r->Ok_0@ == pack(self.bits()),
            self.bit_len() % 8 != 0 ==> r == Err::<Vec<u8>, ValueError>(
                ValueError::NotByteAligned,
            ),
    {
        let (bytes, bit_length) = self.to_bytes_len();
        if bit_length % 8 == 0 {
            Ok(bytes)
        } else {
            Err(ValueError::NotByteAligned)
        }
    }

    /// The encoding packed MSB-first into bytes, the last one padded with
    /// zero bits, and the exact number of bits.
    pub fn to_bytes_len(&self) -> (r: (Vec<u8>, usize))
        requires
            self.bit_len() <= usize::MAX,
        ensures
            r.0@ == pack(self.bits()),
            r.1 == self.bit_len(),
    {
        let mut w = BitWriter::new();
        let mut stack: Vec<&Value> = vec![self];
        proof {
            lemma_bits_len(*self);
            assert(pending(stack@) =~= self.bits() + pending(Seq::<&Value>::empty())) by {
                assert(stack@.drop_last() =~= Seq::<&Value>::empty());
            }
            assert(pending(Seq::<&Value>::empty()) =~= Seq::<bool>::empty());
            assert(w.bits() + pending(stack@) =~= self.bits());
            assert(stack@.last() == self);
            assert(stack@.drop_last() =~= Seq::<&Value>::empty());
            assert(stack_size(stack@) == self.size() + stack_size(stack@.drop_last()));
        }
        while stack.len() > 0
            invariant
                w.wf(),
                w.bits() + pending(stack@) == self.bits(),
                self.bits().len() == self.bit_len(),
                self.bit_len() <= usize::MAX,
            decreases stack_size(stack@),
        {
            let ghost before = stack@;
            let value = stack.pop().unwrap();
            proof {
                assert(stack@ =~= before.drop_last());
                assert(pending(before) == value.bits() + pending(stack@));
                assert(stack_size(before) == value.size() + stack_size(stack@));
                lemma_size_pos(*value);
            }
            match value {
                Value::Unit => {
                    proof {
                        assert(w.bits() + pending(stack@) =~= self.bits());
                    }
                },
                Value::SumL(l) => {
                    let ghost wb = w.bits();
                    w.write_bit(false);
                    stack.push(&**l);
                    proof {
                        assert(stack@.drop_last() =~= before.drop_last());
                        assert(w.bits() + pending(stack@) =~= wb + pending(before));
                        assert(stack_size(stack@) == l.size() + stack_size(before.drop_last()));
                    }
                },
                Value::SumR(r) => {
                    let ghost wb = w.bits();
                    w.write_bit(true);
                    stack.push(&**r);
                    proof {
                        assert(stack@.drop_last() =~= before.drop_last());
                        assert(w.bits() + pending(stack@) =~= wb + pending(before));
                        assert(stack_size(stack@) == r.size() + stack_size(before.drop_last()));
                    }
                },
                Value::Prod(l, r) => {
                    stack.push(&**r);
                    stack.push(&**l);
                    proof {
                        assert(stack@.drop_last().drop_last() =~= before.drop_last());
                        assert(stack@.drop_last().last() == **r);
                        assert(pending(stack@.drop_last()) == r.bits() + pending(
                            before.drop_last(),
                        ));
                        assert(value.bits() == l.bits() + r.bits());
                        assert(w.bits() + pending(stack@) =~= w.bits() + pending(before));
                        assert(stack_size(stack@) == l.size() + stack_size(stack@.drop_last()));
                        assert(stack_size(stack@.drop_last()) == r.size() + stack_size(
                            before.drop_last(),
                        ));
                    }
                },
            }
        }
        proof {
            assert(w.bits() =~= self.bits());
        }
        let bit_length = w.n_total_written();
        (w.into_bytes(), bit_length)
    }

    /// The value as text (see `display_of`).
    pub fn to_string(&self) -> (r: String)
        ensures
            r@ == display_of(*self),
    {
        let mut out = String::new();
        write_display(self, &mut out);
        proof {
            assert(out@ =~= display_of(*self));
        }
        out
    }

    /// The left injection of a value.
    pub fn sum_l(a: Value) -> (r: Value)
        ensures
            r == Value::SumL(Box::new(a)),
    {
        Value::SumL(Box::new(a))
    }

    /// The right injection of a value.
    pub fn sum_r(a: Value) -> (r: Value)
        ensures
            r == Value::SumR(Box::new(a)),
    {
        Value::SumR(Box::new(a))
    }

    /// The product of two values.
    pub fn prod(a: Value, b: Value) -> (r: Value)
        ensures
            r == Value::Prod(Box::new(a), Box::new(b)),
    {
        Value::Prod(Box::new(a), Box::new(b))
    }
}

/// How a value is shown: the unit as `ε`; a sum as its tag bit followed by
/// its child, the child left out where it is the unit; a product as
/// `(left,right)`.
pub open spec fn display_of(v: Value) -> Seq<char>
    decreases v,
{
    match v {
        Value::Unit => seq!['ε'],
        Value::SumL(s) => seq!['0'] + (if *s == Value::Unit {
            Seq::<char>::empty()
        } else {
            display_of(*s)
        }),
        Value::SumR(s) => seq!['1'] + (if *s == Value::Unit {
            Seq::<char>::empty()
        } else {
            display_of(*s)
        }),
        Value::Prod(l, r) => seq!['('] + display_of(*l) + seq![','] + display_of(*r) + seq![')'],
    }
}

fn write_display(v: &Value, out: &mut String)
    ensures
        final(out)@ == old(out)@ + display_of(*v),
    decreases v,
{
    proof {
        reveal_strlit("ε");
        reveal_strlit("0");
        reveal_strlit("1");
        reveal_strlit("(");
        reveal_strlit(",");
        reveal_strlit(")");
    }
    match v {
        Value::Unit => {
            out.append("ε");
            assert(out@ =~= old(out)@ + display_of(*v));
        },
        Value::SumL(s) => {
            out.append("0");
            if !matches!(**s, Value::Unit) {
                write_display(s, out);
            }
            assert(out@ =~= old(out)@ + display_of(*v));
        },
        Value::SumR(s) => {
            out.append("1");
            if !matches!(**s, Value::Unit) {
                write_display(s, out);
            }
            assert(out@ =~= old(out)@ + display_of(*v));
        },
        Value::Prod(l, r) => {
            out.append("(");
            write_display(l, out);
            out.append(",");
            write_display(r, out);
            out.append(")");
            assert(out@ =~= old(out)@ + display_of(*v));
        },
    }
}

/// The bits still to be emitted for a work stack whose top is its last item.
pub open spec fn pending(st: Seq<&Value>) -> Seq<bool>
    decreases st.len(),
{
    if st.len() == 0 {
        seq![]
    } else {
        st.last().bits() + pending(st.drop_last())
    }
}

/// The number of nodes still to be visited on a work stack.
pub open spec fn stack_size(st: Seq<&Value>) -> nat
    decreases st.len(),
{
    if st.len() == 0 {
        0
    } else {
        st.last().size() + stack_size(st.drop_last())
    }
}

proof fn lemma_size_pos(v: Value)
    ensures
        v.size() >= 1,
{
}

/// The bit encoding has as many bits as the bit length says.
pub proof fn lemma_bits_len(v: Value)
    ensures
        v.bits().len() == v.bit_len(),
    decreases v,
{
    match v {
        Value::Unit => {},
        Value::SumL(s) => lemma_bits_len(*s),
        Value::SumR(s) => lemma_bits_len(*s),
        Value::Prod(s, t) => {
            lemma_bits_len(*s);
            lemma_bits_len(*t);
        },
    }
}

fn bit(n: u8) -> (r: Value)
    requires
        n <= 1,
    ensures
        r == uint_value(n as nat, 1),
{
    if n == 0 {
        Value::SumL(Box::new(Value::Unit))
    } else {
        Value::SumR(Box::new(Value::Unit))
    }
}

fn two_bits(n: u8) -> (r: Value)
    requires
        n <= 3,
    ensures
        r == uint_value(n as nat, 2),
{
    let b0 = (n & 2) / 2;
    let b1 = n & 1;
    proof {
        assert(b0 == n / 2) by (bit_vector)
            requires
                n <= 3,
                b0 == (n & 2) / 2,
        ;
        assert(b1 == n % 2) by (bit_vector)
            requires
                b1 == n & 1,
        ;
        reveal_with_fuel(exp2, 2);
        reveal_with_fuel(uint_value, 2);
    }
    Value::Prod(Box::new(bit(b0)), Box::new(bit(b1)))
}

fn nibble(n: u8) -> (r: Value)
    requires
        n <= 15,
    ensures
        r == uint_value(n as nat, 4),
{
    let w0 = (n & 12) / 4;
    let w1 = n & 3;
    proof {
        assert(w0 == n / 4) by (bit_vector)
            requires
                n <= 15,
                w0 == (n & 12) / 4,
        ;
        assert(w1 == n % 4) by (bit_vector)
            requires
                w1 == n & 3,
        ;
        reveal_with_fuel(exp2, 3);
    }
    Value::Prod(Box::new(two_bits(w0)), Box::new(two_bits(w1)))
}

proof fn lemma_be_step(r: nat, b: nat, i: nat)
    requires
        r < exp2(8 * i),
        b < 256,
        i < 8,
    ensures
        r * 256 + b < exp2(8 * (i + 1)),
        r * 256 + b <= u64::MAX,
{
    crate::bits::lemma_exp2_adds(8 * i, 8);
    assert(exp2(8) == 256) by {
        reveal_with_fuel(exp2, 9);
    }
    assert(8 * (i + 1) == 8 * i + 8);
    assert(r * 256 + b < exp2(8 * i) * 256) by (nonlinear_arith)
        requires
            r < exp2(8 * i),
            b < 256,
    ;
    crate::bits::lemma_exp2_values();
    crate::bits::lemma_exp2_le(8 * (i + 1), 64);
    assert(8 * (i + 1) + (64 - 8 * (i + 1)) as nat == 64);
}

/// The big-endian 64-bit word in bytes `start .. start + 8` of `v`.
fn be_u64(v: &[u8], start: usize) -> (r: u64)
    requires
        start + 8 <= v@.len(),
        v@.len() <= usize::MAX,
    ensures
        r == be_nat(v@.subrange(start as int, start + 8)),
{
    let mut r: u64 = 0;
    let mut i: usize = 0;
    while i < 8
        invariant
            i <= 8,
            start + 8 <= v@.len(),
            v@.len() <= usize::MAX,
            r as nat == be_nat(v@.subrange(start as int, start + i)),
            r < exp2(8 * i as nat),
        decreases 8 - i,
    {
        let ghost s = v@.subrange(start as int, start + i + 1);
        proof {
            assert(s.drop_last() =~= v@.subrange(start as int, start + i));
            lemma_be_step(r as nat, v@[start + i] as nat, i as nat);
        }
        let idx: usize = start + i;
        let byte: u64 = v[idx] as u64;
        r = r * 256 + byte;
        i = i + 1;
    }
    r
}

} // verus!
