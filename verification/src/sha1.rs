//! SHA-1 (FIPS 180-4).
//!
//! It guards a protocol handshake here, not a secret: its cryptographic
//! weakness is irrelevant to that job.

use vstd::prelude::*;

use crate::bytes::{append, from_be, push_be};

verus! {

/// The five words that are carried from block to block.
#[derive(Clone, Copy, Debug, PartialEq, Eq, Structural)]
pub struct Chain {
    pub a: u32,
    pub b: u32,
    pub c: u32,
    pub d: u32,
    pub e: u32,
}

/// What the chain starts from.
pub open spec fn start() -> Chain {
    Chain {
        a: 0x6745_2301,
        b: 0xefcd_ab89,
        c: 0x98ba_dcfe,
        d: 0x1032_5476,
        e: 0xc3d2_e1f0,
    }
}

/// `x` rotated left by `n` bits, `0 < n < 32`.
pub open spec fn rotated(x: u32, n: u32) -> u32 {
    (x << n) | (x >> ((32 - n) as u32))
}

/// Word `t` of the message schedule of a 64-byte block.
pub open spec fn word(block: Seq<u8>, t: nat) -> u32
    decreases t,
{
    if t < 16 {
        crate::bytes::be_value(block.subrange(4 * t as int, 4 * t as int + 4)) as u32
    } else {
        rotated(
            word(block, (t - 3) as nat) ^ word(block, (t - 8) as nat) ^ word(block, (t - 14) as nat)
                ^ word(block, (t - 16) as nat),
            1,
        )
    }
}

/// The logical function of round `t`.
pub open spec fn mixed(t: nat, b: u32, c: u32, d: u32) -> u32 {
    if t < 20 {
        (b & c) | (!b & d)
    } else if t < 40 || t >= 60 {
        b ^ c ^ d
    } else {
        (b & c) | (b & d) | (c & d)
    }
}

/// The constant of round `t`.
pub open spec fn constant(t: nat) -> u32 {
    if t < 20 {
        0x5a82_7999
    } else if t < 40 {
        0x6ed9_eba1
    } else if t < 60 {
        0x8f1b_bcdc
    } else {
        0xca62_c1d6
    }
}

/// The chain after round `t` with schedule word `w`.
pub open spec fn after_round(s: Chain, t: nat, w: u32) -> Chain {
    Chain {
        a: rotated(s.a, 5).wrapping_add(mixed(t, s.b, s.c, s.d)).wrapping_add(s.e).wrapping_add(
            constant(t),
        ).wrapping_add(w),
        b: s.a,
        c: rotated(s.b, 30),
        d: s.c,
        e: s.d,
    }
}

/// The chain after the first `n` rounds over a block.
pub open spec fn after_rounds(s: Chain, block: Seq<u8>, n: nat) -> Chain
    decreases n,
{
    if n == 0 {
        s
    } else {
        let t = (n - 1) as nat;
        after_round(after_rounds(s, block, t), t, word(block, t))
    }
}

/// The chain after a 64-byte block.
pub open spec fn after_block(s: Chain, block: Seq<u8>) -> Chain {
    let r = after_rounds(s, block, 80);
    Chain {
        a: s.a.wrapping_add(r.a),
        b: s.b.wrapping_add(r.b),
        c: s.c.wrapping_add(r.c),
        d: s.d.wrapping_add(r.d),
        e: s.e.wrapping_add(r.e),
    }
}

/// The chain after the whole 64-byte blocks of `padded`.
pub open spec fn after_blocks(padded: Seq<u8>) -> Chain
    decreases padded.len(),
{
    if padded.len() < 64 {
        start()
    } else {
        let done = padded.len() - 64;
        after_block(after_blocks(padded.take(done)), padded.skip(done))
    }
}

/// The zero bytes between the end mark and the length of a message of `len`
/// bytes.
pub open spec fn filler(len: nat) -> nat {
    ((119 - len % 64) % 64) as nat
}

/// `message` with its end mark, filler and length in bits.
pub open spec fn padded(message: Seq<u8>) -> Seq<u8> {
    message + seq![0x80u8] + Seq::new(filler(message.len()), |i: int| 0u8)
        + crate::bytes::be_bytes(8 * message.len(), 8)
}

/// The SHA-1 digest of `message`: twenty bytes.
pub open spec fn sha1(message: Seq<u8>) -> Seq<u8> {
    let s = after_blocks(padded(message));
    crate::bytes::be_bytes(s.a as nat, 4) + crate::bytes::be_bytes(s.b as nat, 4)
        + crate::bytes::be_bytes(s.c as nat, 4) + crate::bytes::be_bytes(s.d as nat, 4)
        + crate::bytes::be_bytes(s.e as nat, 4)
}

fn rotate(x: u32, n: u32) -> (r: u32)
    requires
        0 < n < 32,
    ensures
        r == rotated(x, n),
{
    (x << n) | (x >> (32 - n))
}

/// The message schedule of a block.
fn schedule(block: &[u8]) -> (words: Vec<u32>)
    requires
        block@.len() == 64,
    ensures
        words@.len() == 80,
        forall|t: int| 0 <= t < 80 ==> #[trigger] words@[t] == word(block@, t as nat),
{
    let mut words: Vec<u32> = Vec::new();
    let mut t: usize = 0;
    while t < 80
        invariant
            t <= 80,
            block@.len() == 64,
            words@.len() == t,
            forall|u: int| 0 <= u < t ==> #[trigger] words@[u] == word(block@, u as nat),
        decreases 80 - t,
    {
        let next: u32 = if t < 16 {
            let four = vstd::slice::slice_subrange(block, 4 * t, 4 * t + 4);
            proof {
                crate::bytes::lemma_be_value_bound(four@);
                crate::bytes::lemma_spans();
            }
            from_be(four) as u32
        } else {
            proof {
                assert(words@[t - 3] == word(block@, (t - 3) as nat));
                assert(words@[t - 8] == word(block@, (t - 8) as nat));
                assert(words@[t - 14] == word(block@, (t - 14) as nat));
                assert(words@[t - 16] == word(block@, (t - 16) as nat));
            }
            rotate(words[t - 3] ^ words[t - 8] ^ words[t - 14] ^ words[t - 16], 1)
        };
        assert(next == word(block@, t as nat));
        words.push(next);
        t = t + 1;
    }
    words
}

/// One round.
fn round(s: Chain, t: usize, w: u32) -> (next: Chain)
    ensures
        next == after_round(s, t as nat, w),
{
    let mix: u32 = if t < 20 {
        (s.b & s.c) | (!s.b & s.d)
    } else if t < 40 || t >= 60 {
        s.b ^ s.c ^ s.d
    } else {
        (s.b & s.c) | (s.b & s.d) | (s.c & s.d)
    };
    let k: u32 = if t < 20 {
        0x5a82_7999
    } else if t < 40 {
        0x6ed9_eba1
    } else if t < 60 {
        0x8f1b_bcdc
    } else {
        0xca62_c1d6
    };
    Chain {
        a: rotate(s.a, 5).wrapping_add(mix).wrapping_add(s.e).wrapping_add(k).wrapping_add(w),
        b: s.a,
        c: rotate(s.b, 30),
        d: s.c,
        e: s.d,
    }
}

/// Take one block into the chain.
fn absorb(s: Chain, block: &[u8]) -> (next: Chain)
    requires
        block@.len() == 64,
    ensures
        next == after_block(s, block@),
{
    let words = schedule(block);
    let mut r: Chain = s;
    let mut t: usize = 0;
    while t < 80
        invariant
            t <= 80,
            words@.len() == 80,
            forall|u: int| 0 <= u < 80 ==> #[trigger] words@[u] == word(block@, u as nat),
            r == after_rounds(s, block@, t as nat),
        decreases 80 - t,
    {
        assert(words@[t as int] == word(block@, t as nat));
        r = round(r, t, words[t]);
        t = t + 1;
    }
    Chain {
        a: s.a.wrapping_add(r.a),
        b: s.b.wrapping_add(r.b),
        c: s.c.wrapping_add(r.c),
        d: s.d.wrapping_add(r.d),
        e: s.e.wrapping_add(r.e),
    }
}

/// The message, padded to whole blocks.
fn pad(message: &[u8]) -> (out: Vec<u8>)
    ensures
        out@ == padded(message@),
        out@.len() % 64 == 0,
{
    let len: usize = message.len();
    let mut out: Vec<u8> = Vec::new();
    append(&mut out, message);
    out.push(0x80);
    let zeros: usize = (119 - len % 64) % 64;
    let ghost marked = out@;
    let mut i: usize = 0;
    while i < zeros
        invariant
            i <= zeros,
            out@ == marked + Seq::new(i as nat, |j: int| 0u8),
        decreases zeros - i,
    {
        out.push(0);
        i = i + 1;
        assert(out@ =~= marked + Seq::new(i as nat, |j: int| 0u8));
    }
    // The length in bits does not fit in a machine word; its bytes do.
    push_be(&mut out, (len / 32) as u64, 7);
    out.push((len % 32 * 8) as u8);
    proof {
        let bits = 8 * message@.len();
        assert(bits / 256 == len / 32 && bits % 256 == len % 32 * 8);
        assert(crate::bytes::be_bytes(bits, 8) == crate::bytes::be_bytes(
            (len / 32) as nat,
            7,
        ).push((len % 32 * 8) as u8));
        assert(out@ =~= padded(message@));
        crate::bytes::lemma_be_bytes_len(bits, 8);
    }
    out
}

/// The SHA-1 digest of `message`.
pub fn digest(message: &[u8]) -> (out: Vec<u8>)
    ensures
        out@ == sha1(message@),
        out@.len() == 20,
{
    let blocks = pad(message);
    let mut s: Chain = Chain {
        a: 0x6745_2301,
        b: 0xefcd_ab89,
        c: 0x98ba_dcfe,
        d: 0x1032_5476,
        e: 0xc3d2_e1f0,
    };
    let mut at: usize = 0;
    while at < blocks.len()
        invariant
            at <= blocks@.len(),
            at % 64 == 0,
            blocks@.len() % 64 == 0,
            s == after_blocks(blocks@.take(at as int)),
        decreases blocks@.len() - at,
    {
        let block = vstd::slice::slice_subrange(blocks.as_slice(), at, at + 64);
        proof {
            let grown = blocks@.take(at + 64);
            assert(grown.take(at as int) =~= blocks@.take(at as int));
            assert(grown.skip(at as int) =~= block@);
        }
        s = absorb(s, block);
        at = at + 64;
    }
    assert(blocks@.take(at as int) =~= blocks@);
    let mut out: Vec<u8> = Vec::new();
    push_be(&mut out, s.a as u64, 4);
    push_be(&mut out, s.b as u64, 4);
    push_be(&mut out, s.c as u64, 4);
    push_be(&mut out, s.d as u64, 4);
    push_be(&mut out, s.e as u64, 4);
    proof {
        law_digest_length(message@);
        assert(out@ =~= sha1(message@));
    }
    out
}

/// A digest is twenty bytes long.
pub proof fn law_digest_length(message: Seq<u8>)
    ensures
        sha1(message).len() == 20,
{
    let s = after_blocks(padded(message));
    crate::bytes::lemma_be_bytes_len(s.a as nat, 4);
    crate::bytes::lemma_be_bytes_len(s.b as nat, 4);
    crate::bytes::lemma_be_bytes_len(s.c as nat, 4);
    crate::bytes::lemma_be_bytes_len(s.d as nat, 4);
    crate::bytes::lemma_be_bytes_len(s.e as nat, 4);
}

/// How a 64-byte block changes the chain, as the standard has it.
///
/// `w` is the message schedule: the sixteen big-endian words of the block, then
/// each word the one-bit rotation of four before it. `x` is the sequence that
/// the first word of the chain runs through, the other four being its earlier
/// values, the last three of them rotated by thirty bits. Whatever sequences
/// fulfil that, the chain after the block is the sum of the chain before it and
/// where they end.
pub proof fn law_block_runs_through_eighty_rounds(
    s: Chain,
    block: Seq<u8>,
    w: Seq<u32>,
    x: Seq<u32>,
)
    requires
        block.len() == 64,
        w.len() == 80,
        x.len() == 85,
        forall|t: int| #[trigger]
            vstd::set_lib::set_int_range(0, 16).contains(t) ==>
                w[t] == ((block[4 * t] * 0x100 + block[4 * t + 1]) * 0x100 + block[4
                * t + 2]) * 0x100 + block[4 * t + 3],
        forall|t: int| #[trigger]
            vstd::set_lib::set_int_range(16, 80).contains(t) ==>
                w[t] == ((w[t - 3] ^ w[t - 8] ^ w[t - 14] ^ w[t - 16]) << 1u32) | ((
            w[t - 3] ^ w[t - 8] ^ w[t - 14] ^ w[t - 16]) >> 31u32),
        x[4] == s.a,
        x[3] == s.b,
        (x[2] << 30u32) | (x[2] >> 2u32) == s.c,
        (x[1] << 30u32) | (x[1] >> 2u32) == s.d,
        (x[0] << 30u32) | (x[0] >> 2u32) == s.e,
        forall|t: int| #[trigger]
            vstd::set_lib::set_int_range(0, 80).contains(t) ==> ({
                let b = x[t + 3];
                let c = (x[t + 2] << 30u32) | (x[t + 2] >> 2u32);
                let d = (x[t + 1] << 30u32) | (x[t + 1] >> 2u32);
                let e = (x[t] << 30u32) | (x[t] >> 2u32);
                let f = if t < 20 {
                    d ^ (b & (c ^ d))
                } else if 40 <= t < 60 {
                    (b & c) ^ (b & d) ^ (c & d)
                } else {
                    b ^ c ^ d
                };
                let k: u32 = if t < 20 {
                    0x5a82_7999
                } else if t < 40 {
                    0x6ed9_eba1
                } else if t < 60 {
                    0x8f1b_bcdc
                } else {
                    0xca62_c1d6
                };
                x[t + 5] == (((x[t + 4] << 5u32) | (x[t + 4] >> 27u32)) + f + e + k + w[t])
                    % 0x1_0000_0000
            }),
    ensures
        after_block(s, block).a == (s.a + x[84]) % 0x1_0000_0000,
        after_block(s, block).b == (s.b + x[83]) % 0x1_0000_0000,
        after_block(s, block).c == (s.c + ((x[82] << 30u32) | (x[82] >> 2u32))) % 0x1_0000_0000,
        after_block(s, block).d == (s.d + ((x[81] << 30u32) | (x[81] >> 2u32))) % 0x1_0000_0000,
        after_block(s, block).e == (s.e + ((x[80] << 30u32) | (x[80] >> 2u32))) % 0x1_0000_0000,
{
    assert forall|t: int| 0 <= t < 80 implies word(block, t as nat) == #[trigger] w[t] by {
        lemma_schedule(block, w, t as nat);
    }
    lemma_rounds(s, block, w, x, 80);
}

/// The schedule is the one sequence that the standard's equations leave.
proof fn lemma_schedule(block: Seq<u8>, w: Seq<u32>, t: nat)
    requires
        block.len() == 64,
        w.len() == 80,
        t < 80,
        forall|t: int| #[trigger]
            vstd::set_lib::set_int_range(0, 16).contains(t) ==>
                w[t] == ((block[4 * t] * 0x100 + block[4 * t + 1]) * 0x100 + block[4
                * t + 2]) * 0x100 + block[4 * t + 3],
        forall|t: int| #[trigger]
            vstd::set_lib::set_int_range(16, 80).contains(t) ==>
                w[t] == ((w[t - 3] ^ w[t - 8] ^ w[t - 14] ^ w[t - 16]) << 1u32) | ((
            w[t - 3] ^ w[t - 8] ^ w[t - 14] ^ w[t - 16]) >> 31u32),
    ensures
        word(block, t) == w[t as int],
    decreases t,
{
    if t < 16 {
        let four = block.subrange(4 * t as int, 4 * t as int + 4);
        assert(vstd::set_lib::set_int_range(0, 16).contains(t as int));
        lemma_four_bytes(four);
    } else {
        assert(vstd::set_lib::set_int_range(16, 80).contains(t as int));
        lemma_schedule(block, w, (t - 3) as nat);
        lemma_schedule(block, w, (t - 8) as nat);
        lemma_schedule(block, w, (t - 14) as nat);
        lemma_schedule(block, w, (t - 16) as nat);
    }
}

/// What four bytes spell.
proof fn lemma_four_bytes(four: Seq<u8>)
    requires
        four.len() == 4,
    ensures
        crate::bytes::be_value(four) == ((four[0] * 0x100 + four[1]) * 0x100 + four[2]) * 0x100
            + four[3],
{
    reveal_with_fuel(crate::bytes::be_value, 5);
}

/// The logical functions, in the other form that they are given in.
proof fn lemma_mixed(t: nat, b: u32, c: u32, d: u32)
    ensures
        mixed(t, b, c, d) == (if t < 20 {
            d ^ (b & (c ^ d))
        } else if 40 <= t < 60 {
            (b & c) ^ (b & d) ^ (c & d)
        } else {
            b ^ c ^ d
        }),
{
    assert((b & c) | (!b & d) == d ^ (b & (c ^ d))) by (bit_vector);
    assert((b & c) | (b & d) | (c & d) == (b & c) ^ (b & d) ^ (c & d)) by (bit_vector);
}

/// After `n` rounds the chain holds five values of the sequence.
proof fn lemma_rounds(s: Chain, block: Seq<u8>, w: Seq<u32>, x: Seq<u32>, n: nat)
    requires
        n <= 80,
        w.len() == 80,
        x.len() == 85,
        forall|t: int| 0 <= t < 80 ==> word(block, t as nat) == #[trigger] w[t],
        x[4] == s.a,
        x[3] == s.b,
        (x[2] << 30u32) | (x[2] >> 2u32) == s.c,
        (x[1] << 30u32) | (x[1] >> 2u32) == s.d,
        (x[0] << 30u32) | (x[0] >> 2u32) == s.e,
        forall|t: int| #[trigger]
            vstd::set_lib::set_int_range(0, 80).contains(t) ==> ({
                let b = x[t + 3];
                let c = (x[t + 2] << 30u32) | (x[t + 2] >> 2u32);
                let d = (x[t + 1] << 30u32) | (x[t + 1] >> 2u32);
                let e = (x[t] << 30u32) | (x[t] >> 2u32);
                let f = if t < 20 {
                    d ^ (b & (c ^ d))
                } else if 40 <= t < 60 {
                    (b & c) ^ (b & d) ^ (c & d)
                } else {
                    b ^ c ^ d
                };
                let k: u32 = if t < 20 {
                    0x5a82_7999
                } else if t < 40 {
                    0x6ed9_eba1
                } else if t < 60 {
                    0x8f1b_bcdc
                } else {
                    0xca62_c1d6
                };
                x[t + 5] == (((x[t + 4] << 5u32) | (x[t + 4] >> 27u32)) + f + e + k + w[t])
                    % 0x1_0000_0000
            }),
    ensures
        after_rounds(s, block, n) == (Chain {
            a: x[n as int + 4],
            b: x[n as int + 3],
            c: (x[n as int + 2] << 30u32) | (x[n as int + 2] >> 2u32),
            d: (x[n as int + 1] << 30u32) | (x[n as int + 1] >> 2u32),
            e: (x[n as int] << 30u32) | (x[n as int] >> 2u32),
        }),
    decreases n,
{
    if n > 0 {
        let t = n - 1;
        lemma_rounds(s, block, w, x, t as nat);
        assert(vstd::set_lib::set_int_range(0, 80).contains(t));
        assert(word(block, t as nat) == w[t]);
        lemma_mixed(
            t as nat,
            x[t + 3],
            (x[t + 2] << 30u32) | (x[t + 2] >> 2u32),
            (x[t + 1] << 30u32) | (x[t + 1] >> 2u32),
        );
    }
}

/// What a digest is made of, as the standard has it.
///
/// `blocks` is the message, a mark, zeros up to whole blocks, and the length in
/// bits; `chain` starts from the standard's five words and takes in one block
/// after the other. Whatever sequences fulfil that, the digest spells the five
/// words that the chain ends with.
pub proof fn law_digest_spells_the_last_chain(
    message: Seq<u8>,
    blocks: Seq<u8>,
    chain: Seq<Chain>,
)
    requires
        blocks.len() % 64 == 0,
        message.len() + 9 <= blocks.len() < message.len() + 73,
        blocks.take(message.len() as int) == message,
        blocks[message.len() as int] == 0x80,
        forall|i: int| message.len() < i < blocks.len() - 8 ==> #[trigger] blocks[i] == 0,
        forall|i: int|
            0 <= i < 8 ==> #[trigger] blocks.skip(blocks.len() - 8)[i] == 8 * (
            message.len() as int) / vstd::arithmetic::power::pow(256, (7 - i) as nat) % 256,
        chain.len() == blocks.len() / 64 + 1,
        chain[0] == (Chain {
            a: 0x6745_2301,
            b: 0xefcd_ab89,
            c: 0x98ba_dcfe,
            d: 0x1032_5476,
            e: 0xc3d2_e1f0,
        }),
        forall|i: int| #[trigger]
            vstd::set_lib::set_int_range(0, blocks.len() as int / 64).contains(i) ==>
                chain[i + 1] == after_block(
                chain[i],
                blocks.subrange(64 * i, 64 * i + 64),
            ),
    ensures
        ({
            let d = sha1(message);
            let end = chain.last();
            &&& d.len() == 20
            &&& ((d[0] * 0x100 + d[1]) * 0x100 + d[2]) * 0x100 + d[3] == end.a
            &&& ((d[4] * 0x100 + d[5]) * 0x100 + d[6]) * 0x100 + d[7] == end.b
            &&& ((d[8] * 0x100 + d[9]) * 0x100 + d[10]) * 0x100 + d[11] == end.c
            &&& ((d[12] * 0x100 + d[13]) * 0x100 + d[14]) * 0x100 + d[15] == end.d
            &&& ((d[16] * 0x100 + d[17]) * 0x100 + d[18]) * 0x100 + d[19] == end.e
        }),
{
    lemma_padded_is(message, blocks);
    lemma_chain_is(blocks, chain, chain.len() - 1);
    assert(blocks.take(64 * (chain.len() - 1)) =~= blocks);
    let end = chain.last();
    law_digest_length(message);
    lemma_four_spelled(end.a);
    lemma_four_spelled(end.b);
    lemma_four_spelled(end.c);
    lemma_four_spelled(end.d);
    lemma_four_spelled(end.e);
}

/// The padded message is the one sequence that the standard describes.
proof fn lemma_padded_is(message: Seq<u8>, blocks: Seq<u8>)
    requires
        blocks.len() % 64 == 0,
        message.len() + 9 <= blocks.len() < message.len() + 73,
        blocks.take(message.len() as int) == message,
        blocks[message.len() as int] == 0x80,
        forall|i: int| message.len() < i < blocks.len() - 8 ==> #[trigger] blocks[i] == 0,
        forall|i: int|
            0 <= i < 8 ==> #[trigger] blocks.skip(blocks.len() - 8)[i] == 8 * (
            message.len() as int) / vstd::arithmetic::power::pow(256, (7 - i) as nat) % 256,
    ensures
        blocks == padded(message),
{
    let len = message.len();
    let last = blocks.skip(blocks.len() - 8);
    lemma_length_spelled(last, 8 * len);
    lemma_filler(len, blocks.len());
    let marked = message + seq![0x80u8];
    let zeros = Seq::new(filler(len), |i: int| 0u8);
    assert(blocks.take(len as int + 1) =~= marked) by {
        assert(blocks.take(len as int + 1) =~= blocks.take(len as int).push(blocks[len as int]));
    }
    assert(blocks.subrange(len as int + 1, blocks.len() - 8) =~= zeros);
    assert(blocks =~= blocks.take(len as int + 1) + blocks.subrange(
        len as int + 1,
        blocks.len() - 8,
    ) + last);
}

/// The filler is what is missing to whole blocks.
proof fn lemma_filler(len: nat, whole: nat)
    requires
        whole % 64 == 0,
        len + 9 <= whole < len + 73,
    ensures
        len + 1 + filler(len) + 8 == whole,
{
}

/// Eight bytes that are the digits of a number are its bytes.
proof fn lemma_length_spelled(last: Seq<u8>, bits: nat)
    requires
        last.len() == 8,
        forall|i: int|
            0 <= i < 8 ==> #[trigger] last[i] == (bits as int) / vstd::arithmetic::power::pow(
                256,
                (7 - i) as nat,
            ) % 256,
    ensures
        last == crate::bytes::be_bytes(bits, 8),
{
    let tail = crate::bytes::be_bytes(bits, 8);
    crate::bytes::law_bytes_are_digits(bits, 8);
    assert forall|i: int| 0 <= i < 8 implies last[i] == tail[i] by {
        assert(last[i] as int == tail[i] as int);
    }
    assert(last =~= tail);
}

/// The chain after a number of blocks is the one that the sequence reaches.
proof fn lemma_chain_is(blocks: Seq<u8>, chain: Seq<Chain>, n: int)
    requires
        0 <= n < chain.len(),
        chain.len() == blocks.len() / 64 + 1,
        chain[0] == start(),
        forall|i: int| #[trigger]
            vstd::set_lib::set_int_range(0, blocks.len() as int / 64).contains(i) ==>
                chain[i + 1] == after_block(
                chain[i],
                blocks.subrange(64 * i, 64 * i + 64),
            ),
    ensures
        after_blocks(blocks.take(64 * n)) == chain[n],
    decreases n,
{
    if n > 0 {
        lemma_chain_is(blocks, chain, n - 1);
        assert(vstd::set_lib::set_int_range(0, blocks.len() as int / 64).contains(n - 1));
        let grown = blocks.take(64 * n);
        assert(grown.take(64 * (n - 1)) =~= blocks.take(64 * (n - 1)));
        assert(grown.skip(64 * (n - 1)) =~= blocks.subrange(64 * (n - 1), 64 * (n - 1) + 64));
    }
}

/// A word reads back from the four bytes that spell it.
proof fn lemma_four_spelled(v: u32)
    ensures
        ({
            let d = crate::bytes::be_bytes(v as nat, 4);
            &&& d.len() == 4
            &&& ((d[0] * 0x100 + d[1]) * 0x100 + d[2]) * 0x100 + d[3] == v
        }),
{
    crate::bytes::lemma_be_bytes_len(v as nat, 4);
    crate::bytes::lemma_spans();
    crate::bytes::lemma_be_value_of_be_bytes(v as nat, 4);
    lemma_four_bytes(crate::bytes::be_bytes(v as nat, 4));
}

} // verus!
