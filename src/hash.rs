//! Domain-separated tagged hashing over SHA-256, the primitive that every
//! Merkle root is built from.
//!
//! A root is 32 bytes. A tag's initial value is the SHA-256 midstate after one
//! block made of the tag's digest twice; combining feeds one 64-byte block to
//! the compression function, starting from the given initial value.
use crate::bits::pack;
use crate::value::Value;
use vstd::prelude::*;
use vstd::string::StringSliceAdditionalSpecFns;

verus! {

/// The SHA-256 digest of `data`.
pub uninterp spec fn sha256_of(data: Seq<u8>) -> Seq<u8>;

/// The SHA-256 midstate after the 64-byte `block`, from the standard initial state.
pub uninterp spec fn first_block_state(block: Seq<u8>) -> Seq<u8>;

/// The SHA-256 midstate after the 64-byte `block`, from the midstate `state`.
pub uninterp spec fn compress_of(state: Seq<u8>, block: Seq<u8>) -> Seq<u8>;

/// Relies on `bitcoin_hashes::sha256::Hash::hash`: the SHA-256 digest of `data`,
/// returned as its 32 bytes by `into_inner`.
#[verifier::external_body]
fn sha256_digest(data: &[u8]) -> (r: [u8; 32])
    ensures
        r@ == sha256_of(data@),
{
    <bitcoin_hashes::sha256::Hash as bitcoin_hashes::Hash>::into_inner(
        <bitcoin_hashes::sha256::Hash as bitcoin_hashes::Hash>::hash(data),
    )
}

/// Relies on `bitcoin_hashes::sha256::HashEngine`: a fresh engine (the
/// standard initial state) fed one 64-byte block, then its `midstate`.
#[verifier::external_body]
fn sha256_first_block(block: &[u8]) -> (r: [u8; 32])
    requires
        block@.len() == 64,
    ensures
        r@ == first_block_state(block@),
{
    let mut e = <bitcoin_hashes::sha256::Hash as bitcoin_hashes::Hash>::engine();
    bitcoin_hashes::HashEngine::input(&mut e, block);
    bitcoin_hashes::HashEngine::midstate(&e).into_inner()
}

/// Relies on `bitcoin_hashes::sha256::HashEngine::from_midstate` (with length 0,
/// a multiple of the block size, so it does not panic): the engine resumed at
/// `state`, fed one 64-byte block, then its `midstate`.
#[verifier::external_body]
fn sha256_compress(state: &[u8; 32], block: &[u8]) -> (r: [u8; 32])
    requires
        block@.len() == 64,
    ensures
        r@ == compress_of(state@, block@),
{
    let mid = bitcoin_hashes::sha256::Midstate::from_inner(*state);
    let mut e = bitcoin_hashes::sha256::HashEngine::from_midstate(mid, 0);
    bitcoin_hashes::HashEngine::input(&mut e, block);
    bitcoin_hashes::HashEngine::midstate(&e).into_inner()
}

/// The initial value derived from the tag `tag`.
pub open spec fn tag_iv_of(tag: Seq<u8>) -> Seq<u8> {
    first_block_state(sha256_of(tag) + sha256_of(tag))
}

/// Two roots combined under `iv`.
pub open spec fn combine_of(iv: Seq<u8>, l: Seq<u8>, r: Seq<u8>) -> Seq<u8> {
    compress_of(iv, l + r)
}

/// `k` zero bytes.
pub open spec fn zeros(k: nat) -> Seq<u8> {
    Seq::new(k, |i: int| 0u8)
}

/// One root combined under `iv`: 32 zero bytes stand in for the left half.
pub open spec fn combine_one_of(iv: Seq<u8>, x: Seq<u8>) -> Seq<u8> {
    compress_of(iv, zeros(32) + x)
}

/// The midstate after each whole 64-byte block of `msg`, in order, from `state`.
pub open spec fn chain_of(state: Seq<u8>, msg: Seq<u8>) -> Seq<u8>
    decreases msg.len(),
{
    if msg.len() < 64 {
        state
    } else {
        chain_of(compress_of(state, msg.take(64)), msg.skip(64))
    }
}

/// `n` as eight big-endian bytes.
pub open spec fn be64(n: u64) -> Seq<u8> {
    Seq::new(8, |i: int| ((n >> ((56 - 8 * i) as u64)) & 0xffu64) as u8)
}

/// The number of zero bytes that take `n` bytes to a multiple of 64.
pub open spec fn pad_len(n: nat) -> nat {
    ((64 - n % 64) % 64) as nat
}

/// What a witness leaf hashes: the type root, the value's bit length as
/// eight big-endian bytes, 24 zero bytes, then the value's packed bits,
/// zero-padded to a whole block.
pub open spec fn leaf_message(tmr: Seq<u8>, v: Value) -> Seq<u8> {
    let bytes = pack(v.bits());
    tmr + be64(v.bit_len() as u64) + zeros(24) + bytes + zeros(pad_len(bytes.len()))
}

/// A witness value and the root of its type combined under `iv`.
pub open spec fn leaf_value_of(iv: Seq<u8>, v: Value, tmr: Seq<u8>) -> Seq<u8> {
    chain_of(iv, leaf_message(tmr, v))
}

/// The bytes of `a` followed by the bytes of `b`.
fn concat(a: &[u8; 32], b: &[u8; 32]) -> (r: Vec<u8>)
    ensures
        r@ == a@ + b@,
{
    let mut r: Vec<u8> = Vec::new();
    append(&mut r, a);
    append(&mut r, b);
    r
}

fn append(r: &mut Vec<u8>, a: &[u8; 32])
    ensures
        final(r)@ == old(r)@ + a@,
{
    let mut i: usize = 0;
    while i < 32
        invariant
            i <= 32,
            a@.len() == 32,
            r@ == old(r)@ + a@.take(i as int),
        decreases 32 - i,
    {
        r.push(a[i]);
        i = i + 1;
        assert(r@ =~= old(r)@ + a@.take(i as int));
    }
    assert(a@.take(32) =~= a@);
}

/// The initial value for the tag `tag`.
pub fn tag_iv(tag: &str) -> (r: [u8; 32])
    ensures
        r@ == tag_iv_of(tag.spec_bytes()),
{
    let d = sha256_digest(tag.as_bytes());
    let block = concat(&d, &d);
    sha256_first_block(block.as_slice())
}

/// `l` and `r` combined under `iv`.
pub fn combine(iv: &[u8; 32], l: &[u8; 32], r: &[u8; 32]) -> (out: [u8; 32])
    ensures
        out@ == combine_of(iv@, l@, r@),
{
    let block = concat(l, r);
    sha256_compress(iv, block.as_slice())
}

/// `x` combined alone under `iv`.
pub fn combine_one(iv: &[u8; 32], x: &[u8; 32]) -> (out: [u8; 32])
    ensures
        out@ == combine_one_of(iv@, x@),
{
    let z: [u8; 32] = [0u8; 32];
    assert(z@ =~= zeros(32));
    let block = concat(&z, x);
    sha256_compress(iv, block.as_slice())
}

fn push_zeros(r: &mut Vec<u8>, k: usize)
    ensures
        final(r)@ == old(r)@ + zeros(k as nat),
{
    let mut i: usize = 0;
    while i < k
        invariant
            i <= k,
            r@ == old(r)@ + zeros(i as nat),
        decreases k - i,
    {
        r.push(0u8);
        i = i + 1;
        assert(r@ =~= old(r)@ + zeros(i as nat));
    }
}

/// The message of a witness leaf.
fn leaf_message_bytes(tmr: &[u8; 32], v: &Value) -> (m: Vec<u8>)
    requires
        v.bit_len() <= usize::MAX,
    ensures
        m@ == leaf_message(tmr@, *v),
{
    let (bytes, bit_length) = v.to_bytes_len();
    let n = bit_length as u64;
    let mut m: Vec<u8> = Vec::new();
    append(&mut m, tmr);
    let mut i: u64 = 0;
    let ghost start = m@;
    while i < 8
        invariant
            i <= 8,
            n == v.bit_len() as u64,
            m@ == start + be64(n).take(i as int),
        decreases 8 - i,
    {
        m.push(((n >> (56 - 8 * i)) & 0xffu64) as u8);
        i = i + 1;
        assert(m@ =~= start + be64(n).take(i as int));
    }
    assert(be64(n).take(8) =~= be64(n));
    push_zeros(&mut m, 24);
    let mut j: usize = 0;
    let ghost start2 = m@;
    while j < bytes.len()
        invariant
            j <= bytes@.len(),
            m@ == start2 + bytes@.take(j as int),
        decreases bytes@.len() - j,
    {
        m.push(bytes[j]);
        j = j + 1;
        assert(m@ =~= start2 + bytes@.take(j as int));
    }
    assert(bytes@.take(bytes@.len() as int) =~= bytes@);
    let pad = (64 - bytes.len() % 64) % 64;
    push_zeros(&mut m, pad);
    m
}

/// A witness value and the root of its type combined under `iv`.
pub fn combine_leaf_value(iv: &[u8; 32], v: &Value, tmr: &[u8; 32]) -> (out: [u8; 32])
    requires
        v.bit_len() <= usize::MAX,
    ensures
        out@ == leaf_value_of(iv@, *v, tmr@),
{
    let msg = leaf_message_bytes(tmr, v);
    let mut state: [u8; 32] = *iv;
    let mut i: usize = 0;
    let total = msg.len();
    assert(msg@.skip(0) =~= msg@);
    while total - i >= 64
        invariant
            total == msg@.len(),
            i <= msg@.len(),
            chain_of(state@, msg@.skip(i as int)) == leaf_value_of(iv@, *v, tmr@),
        decreases msg@.len() - i,
    {
        let mut block: Vec<u8> = Vec::new();
        let mut j: usize = 0;
        while j < 64
            invariant
                j <= 64,
                i + 64 <= msg@.len(),
                total == msg@.len(),
                block@ == msg@.subrange(i as int, i + j),
            decreases 64 - j,
        {
            block.push(msg[i + j]);
            j = j + 1;
            assert(block@ =~= msg@.subrange(i as int, i + j));
        }
        proof {
            let rest = msg@.skip(i as int);
            assert(rest.take(64) =~= block@);
            assert(rest.skip(64) =~= msg@.skip(i + 64));
        }
        state = sha256_compress(&state, block.as_slice());
        i = i + 64;
    }
    state
}

} // verus!
