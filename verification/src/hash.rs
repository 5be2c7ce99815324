//! The 32-bit Jenkins hash that decides where a key is stored in a chunk.
//!
//! The block structure of the hash (how the key's bytes are gathered into
//! words and fed to the three accumulators) is verified here. The two mixing
//! rounds themselves are taken from the `jhash` crate.

use vstd::prelude::*;

verus! {

/// The golden-ratio seed every hash starts from.
pub const JHASH_INITVAL: u32 = 0xdeadbeef;

/// What `jhash::jhash_mix` leaves in its three accumulators.
pub uninterp spec fn mixed(a: u32, b: u32, c: u32) -> (u32, u32, u32);

/// What `jhash::jhash_final` returns.
pub uninterp spec fn avalanche(a: u32, b: u32, c: u32) -> u32;

/// Calls `jhash::jhash_mix`, the reversible mixing round applied after every
/// full block of twelve bytes. The crate computes the new accumulators from
/// the old ones alone; the contract names that result and claims no more.
#[verifier::external_body]
fn mix(a: u32, b: u32, c: u32) -> (r: (u32, u32, u32))
    ensures
        r == mixed(a, b, c),
{
    let mut a = a;
    let mut b = b;
    let mut c = c;
    jhash::jhash_mix(&mut a, &mut b, &mut c);
    (a, b, c)
}

/// Calls `jhash::jhash_final`, the avalanche round applied after the last
/// block. The crate computes its result from the three accumulators alone;
/// the contract names that result and claims no more.
#[verifier::external_body]
fn finish(a: u32, b: u32, c: u32) -> (r: u32)
    ensures
        r == avalanche(a, b, c),
{
    jhash::jhash_final(a, b, c)
}

/// Wrapping 32-bit addition.
pub open spec fn wadd(x: u32, y: u32) -> u32 {
    vstd::wrapping::u32_specs::wrapping_add(x, y)
}

/// Byte `i` of `key`, or zero past its end.
pub open spec fn byte_or_zero(key: Seq<u8>, i: int) -> u8 {
    if 0 <= i < key.len() {
        key[i]
    } else {
        0u8
    }
}

/// The little-endian word at byte `at` of the last block, which is padded
/// with zeros.
pub open spec fn tail_word(key: Seq<u8>, at: int) -> u32 {
    (byte_or_zero(key, at) as u32) | (byte_or_zero(key, at + 1) as u32) << 8 | (byte_or_zero(
        key,
        at + 2,
    ) as u32) << 16 | (byte_or_zero(key, at + 3) as u32) << 24
}

/// The accumulators after the first twelve bytes of `key` were added to
/// them, four bytes to each as a little-endian word. Where `key` is shorter,
/// the missing bytes count as zeros.
pub open spec fn absorbed(key: Seq<u8>, a: u32, b: u32, c: u32) -> (u32, u32, u32) {
    (wadd(a, tail_word(key, 0)), wadd(b, tail_word(key, 4)), wadd(c, tail_word(key, 8)))
}

/// The hash of the bytes that remain, from the accumulators reached so far:
/// blocks of twelve bytes are added and mixed while more than twelve bytes
/// remain, and the last one to twelve bytes are added and avalanched. With no
/// byte at all the third accumulator is the hash.
pub open spec fn jhash_blocks(key: Seq<u8>, a: u32, b: u32, c: u32) -> u32
    decreases key.len(),
{
    if key.len() > 12 {
        let s = absorbed(key, a, b, c);
        let m = mixed(s.0, s.1, s.2);
        jhash_blocks(key.skip(12), m.0, m.1, m.2)
    } else if key.len() == 0 {
        c
    } else {
        let s = absorbed(key, a, b, c);
        avalanche(s.0, s.1, s.2)
    }
}

/// The hash of `key`, with the accumulators started from `length` and
/// `initval`.
pub open spec fn jhash_spec(key: Seq<u8>, length: u32, initval: u32) -> u32 {
    let init = wadd(wadd(JHASH_INITVAL, length), initval);
    jhash_blocks(key, init, init, init)
}

/// The word made of up to four bytes of `key` from `at` on, zero past the end.
fn gather(key: &[u8], at: usize) -> (r: u32)
    requires
        at + 4 <= usize::MAX,
    ensures
        r == tail_word(key@, at as int),
{
    let n = key.len();
    let b0: u8 = if at < n { key[at] } else { 0 };
    let b1: u8 = if at + 1 < n { key[at + 1] } else { 0 };
    let b2: u8 = if at + 2 < n { key[at + 2] } else { 0 };
    let b3: u8 = if at + 3 < n { key[at + 3] } else { 0 };
    (b0 as u32) | (b1 as u32) << 8 | (b2 as u32) << 16 | (b3 as u32) << 24
}

/// Add the first twelve bytes of `block` to the accumulators, four bytes to
/// each as a little-endian word. This is what happens to the accumulators
/// between two mixing rounds.
pub fn absorb(block: &[u8], a: u32, b: u32, c: u32) -> (r: (u32, u32, u32))
    ensures
        r == absorbed(block@, a, b, c),
{
    (
        a.wrapping_add(gather(block, 0)),
        b.wrapping_add(gather(block, 4)),
        c.wrapping_add(gather(block, 8)),
    )
}

/// Hash `key`. `length` seeds the accumulators together with `initval`; every
/// byte of `key` is hashed.
#[must_use]
pub fn jhash(key: &[u8], length: u32, initval: u32) -> (r: u32)
    ensures
        r == jhash_spec(key@, length, initval),
{
    let mut a: u32 = JHASH_INITVAL.wrapping_add(length).wrapping_add(initval);
    let mut b: u32 = a;
    let mut c: u32 = a;
    let n = key.len();
    let mut at: usize = 0;
    proof {
        assert(key@.skip(0) =~= key@);
    }
    while n - at > 12
        invariant
            n == key@.len(),
            at <= n,
            jhash_blocks(key@.skip(at as int), a, b, c) == jhash_spec(key@, length, initval),
        decreases n - at,
    {
        let rest = vstd::slice::slice_subrange(key, at, n);
        proof {
            assert(rest@ =~= key@.skip(at as int));
            assert(rest@.skip(12) =~= key@.skip(at + 12));
        }
        let s = absorb(rest, a, b, c);
        let m = mix(s.0, s.1, s.2);
        a = m.0;
        b = m.1;
        c = m.2;
        at = at + 12;
    }
    if n - at == 0 {
        proof {
            assert(key@.skip(at as int).len() == 0);
        }
        return c;
    }
    let rest = vstd::slice::slice_subrange(key, at, n);
    proof {
        assert(rest@ =~= key@.skip(at as int));
    }
    let s = absorb(rest, a, b, c);
    finish(s.0, s.1, s.2)
}

} // verus!
