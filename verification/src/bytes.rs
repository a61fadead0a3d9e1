//! Big-endian integers, as the wire carries them.

use vstd::prelude::*;

verus! {

/// How many values `width` bytes can tell apart: 256 to the power `width`.
pub open spec fn span(width: nat) -> nat
    decreases width,
{
    if width == 0 {
        1
    } else {
        256 * span((width - 1) as nat)
    }
}

/// The `width` low bytes of `value`, the most significant first.
pub open spec fn be_bytes(value: nat, width: nat) -> Seq<u8>
    decreases width,
{
    if width == 0 {
        Seq::empty()
    } else {
        be_bytes(value / 256, (width - 1) as nat).push((value % 256) as u8)
    }
}

/// The number that `bytes` spell, the most significant first.
pub open spec fn be_value(bytes: Seq<u8>) -> nat
    decreases bytes.len(),
{
    if bytes.len() == 0 {
        0
    } else {
        be_value(bytes.drop_last()) * 256 + bytes.last() as nat
    }
}

/// `width` bytes are `width` long.
pub proof fn lemma_be_bytes_len(value: nat, width: nat)
    ensures
        be_bytes(value, width).len() == width,
    decreases width,
{
    if width > 0 {
        lemma_be_bytes_len(value / 256, (width - 1) as nat);
    }
}

/// What is spelled in enough bytes reads back as it was.
pub proof fn lemma_be_value_of_be_bytes(value: nat, width: nat)
    requires
        value < span(width),
    ensures
        be_value(be_bytes(value, width)) == value,
    decreases width,
{
    if width > 0 {
        let rest = be_bytes(value / 256, (width - 1) as nat);
        lemma_be_value_of_be_bytes(value / 256, (width - 1) as nat);
        assert(be_bytes(value, width).drop_last() =~= rest);
    }
}

/// Bytes spell a number below their span.
pub proof fn lemma_be_value_bound(bytes: Seq<u8>)
    ensures
        be_value(bytes) < span(bytes.len()),
    decreases bytes.len(),
{
    if bytes.len() > 0 {
        lemma_be_value_bound(bytes.drop_last());
    }
}

/// The spans of the widths in use.
pub proof fn lemma_spans()
    ensures
        span(2) == 0x1_0000,
        span(4) == 0x1_0000_0000,
        span(8) == 0x1_0000_0000_0000_0000,
{
    reveal_with_fuel(span, 9);
}

/// A longer field spans at least as much.
pub proof fn lemma_span_monotonic(narrow: nat, wide: nat)
    requires
        narrow <= wide,
    ensures
        span(narrow) <= span(wide),
    decreases wide,
{
    if narrow < wide {
        lemma_span_monotonic(narrow, (wide - 1) as nat);
    }
}

/// Byte `i` of the bytes of a number is the digit of its place: the number over
/// 256 to the power of the bytes behind it, modulo 256.
pub proof fn law_bytes_are_digits(value: nat, width: nat)
    ensures
        be_bytes(value, width).len() == width,
        forall|i: int|
            0 <= i < width ==> (#[trigger] be_bytes(value, width)[i]) as int == value as int
                / vstd::arithmetic::power::pow(256, (width - 1 - i) as nat) % 256,
    decreases width,
{
    lemma_be_bytes_len(value, width);
    if width > 0 {
        let rest = be_bytes(value / 256, (width - 1) as nat);
        law_bytes_are_digits(value / 256, (width - 1) as nat);
        assert forall|i: int| 0 <= i < width implies (#[trigger] be_bytes(value, width)[i]) as int
            == value as int / vstd::arithmetic::power::pow(256, (width - 1 - i) as nat) % 256 by {
            if i == width - 1 {
                vstd::arithmetic::power::lemma_pow0(256);
            } else {
                let behind = (width - 2 - i) as nat;
                assert(be_bytes(value, width)[i] == rest[i]);
                vstd::arithmetic::power::lemma_pow_positive(256, behind);
                vstd::arithmetic::power::lemma_pow_adds(256, 1, behind);
                vstd::arithmetic::power::lemma_pow1(256);
                vstd::arithmetic::div_mod::lemma_div_denominator(
                    value as int,
                    256,
                    vstd::arithmetic::power::pow(256, behind),
                );
            }
        }
    }
}

/// The number that bytes spell: none spell zero, one spells itself, and bytes
/// behind others push those up by 256 each.
pub proof fn law_bytes_spell_a_number(front: Seq<u8>, behind: Seq<u8>, byte: u8)
    ensures
        be_value(Seq::empty()) == 0,
        be_value(seq![byte]) == byte,
        be_value(front + behind) == be_value(front) * vstd::arithmetic::power::pow(
            256,
            behind.len(),
        ) + be_value(behind),
    decreases behind.len(),
{
    assert(seq![byte].drop_last() =~= Seq::<u8>::empty());
    assert(be_value(Seq::empty()) == 0);
    if behind.len() == 0 {
        assert(front + behind =~= front);
        vstd::arithmetic::power::lemma_pow0(256);
    } else {
        let n = (behind.len() - 1) as nat;
        let less = behind.drop_last();
        law_bytes_spell_a_number(front, less, byte);
        assert((front + behind).drop_last() =~= front + less);
        vstd::arithmetic::power::lemma_pow_adds(256, n, 1);
        vstd::arithmetic::power::lemma_pow1(256);
        let p = vstd::arithmetic::power::pow(256, n);
        let v = be_value(front) as int;
        assert(v * p * 256 == v * (p * 256)) by (nonlinear_arith);
    }
}

/// Append the `width` low bytes of `value` to `out`, the most significant first.
pub fn push_be(out: &mut Vec<u8>, value: u64, width: usize)
    ensures
        final(out)@ == old(out)@ + be_bytes(value as nat, width as nat),
    decreases width,
{
    if width > 0 {
        push_be(out, value / 256, width - 1);
        out.push((value % 256) as u8);
        proof {
            assert(out@ =~= old(out)@ + be_bytes(value as nat, width as nat));
        }
    }
}

/// Append `more` to `out`.
pub fn append(out: &mut Vec<u8>, more: &[u8])
    ensures
        final(out)@ == old(out)@ + more@,
{
    out.extend_from_slice(more);
    assert(out@ =~= old(out)@ + more@);
}

/// The number that up to eight bytes spell.
pub fn from_be(bytes: &[u8]) -> (value: u64)
    requires
        bytes@.len() <= 8,
    ensures
        value == be_value(bytes@),
{
    let mut value: u64 = 0;
    let mut i: usize = 0;
    while i < bytes.len()
        invariant
            i <= bytes@.len() <= 8,
            value == be_value(bytes@.take(i as int)),
        decreases bytes@.len() - i,
    {
        let ghost so_far = bytes@.take(i as int);
        let ghost next = bytes@.take(i + 1);
        proof {
            assert(next.drop_last() =~= so_far);
            lemma_be_value_bound(next);
            lemma_span_monotonic(next.len(), 8);
            lemma_spans();
        }
        value = value * 256 + bytes[i] as u64;
        i = i + 1;
    }
    assert(bytes@.take(i as int) =~= bytes@);
    value
}

} // verus!
