//! Base64 (RFC 4648, section 4), encoding only.

use vstd::prelude::*;
use vstd::string::{StrSliceExecFns, StringExecFns};

verus! {

/// The character that stands for the six bits `v`.
pub open spec fn symbol(v: int) -> char {
    "ABCDEFGHIJKLMNOPQRSTUVWXYZabcdefghijklmnopqrstuvwxyz0123456789+/"@[v]
}

/// `data` in base64: four characters for three bytes, padded with `=` where
/// fewer are left.
pub open spec fn base64(data: Seq<u8>) -> Seq<char>
    decreases data.len(),
{
    if data.len() == 0 {
        Seq::empty()
    } else if data.len() == 1 {
        let a = data[0] as int;
        seq![symbol(a / 4), symbol(a % 4 * 16), '=', '=']
    } else if data.len() == 2 {
        let a = data[0] as int;
        let b = data[1] as int;
        seq![symbol(a / 4), symbol(a % 4 * 16 + b / 16), symbol(b % 16 * 4), '=']
    } else {
        let a = data[0] as int;
        let b = data[1] as int;
        let c = data[2] as int;
        seq![
            symbol(a / 4),
            symbol(a % 4 * 16 + b / 16),
            symbol(b % 16 * 4 + c / 64),
            symbol(c % 64),
        ] + base64(data.skip(3))
    }
}

/// Append the character that stands for the six bits `v`.
fn push_symbol(out: &mut String, v: u8)
    requires
        v < 64,
    ensures
        final(out)@ == old(out)@.push(symbol(v as int)),
{
    let alphabet = "ABCDEFGHIJKLMNOPQRSTUVWXYZabcdefghijklmnopqrstuvwxyz0123456789+/";
    proof {
        reveal_strlit("ABCDEFGHIJKLMNOPQRSTUVWXYZabcdefghijklmnopqrstuvwxyz0123456789+/");
    }
    out.append(alphabet.substring_ascii(v as usize, v as usize + 1));
    assert(out@ =~= old(out)@.push(symbol(v as int)));
}

/// `data` in base64.
pub fn encode(data: &[u8]) -> (text: String)
    ensures
        text@ == base64(data@),
{
    let mut text: String = String::new();
    let mut at: usize = 0;
    assert(data@.skip(0) =~= data@);
    while data.len() - at >= 3
        invariant
            at <= data@.len(),
            base64(data@) == text@ + base64(data@.skip(at as int)),
        decreases data@.len() - at,
    {
        let a: u8 = data[at];
        let b: u8 = data[at + 1];
        let c: u8 = data[at + 2];
        push_symbol(&mut text, a / 4);
        push_symbol(&mut text, a % 4 * 16 + b / 16);
        push_symbol(&mut text, b % 16 * 4 + c / 64);
        push_symbol(&mut text, c % 64);
        assert(data@.skip(at as int).skip(3) =~= data@.skip(at + 3));
        at = at + 3;
        assert(base64(data@) =~= text@ + base64(data@.skip(at as int)));
    }
    if data.len() - at == 1 {
        let a: u8 = data[at];
        push_symbol(&mut text, a / 4);
        push_symbol(&mut text, a % 4 * 16);
        proof {
            reveal_strlit("==");
        }
        text.append("==");
    } else if data.len() - at == 2 {
        let a: u8 = data[at];
        let b: u8 = data[at + 1];
        push_symbol(&mut text, a / 4);
        push_symbol(&mut text, a % 4 * 16 + b / 16);
        push_symbol(&mut text, b % 16 * 4);
        proof {
            reveal_strlit("=");
        }
        text.append("=");
    }
    assert(text@ =~= base64(data@));
    text
}

/// Base64 text is four characters for every three bytes begun.
pub proof fn law_base64_length(data: Seq<u8>)
    ensures
        base64(data).len() == (data.len() + 2) / 3 * 4,
    decreases data.len(),
{
    if data.len() >= 3 {
        law_base64_length(data.skip(3));
    }
}

/// The six bits that a character stands for, none set where that is not a
/// character of the alphabet.
pub open spec fn six_bits(c: char) -> int {
    let v = c as int;
    if 0x41 <= v <= 0x5a {
        v - 0x41
    } else if 0x61 <= v <= 0x7a {
        v - 0x61 + 26
    } else if 0x30 <= v <= 0x39 {
        v - 0x30 + 52
    } else if v == 0x2b {
        62
    } else if v == 0x2f {
        63
    } else {
        0
    }
}

/// A character of the alphabet stands for its place in it, and padding for no
/// bits.
pub proof fn law_alphabet(v: int)
    requires
        0 <= v < 64,
    ensures
        six_bits("ABCDEFGHIJKLMNOPQRSTUVWXYZabcdefghijklmnopqrstuvwxyz0123456789+/"@[v]) == v,
        "ABCDEFGHIJKLMNOPQRSTUVWXYZabcdefghijklmnopqrstuvwxyz0123456789+/"@[v] != '=',
        six_bits('=') == 0,
{
    reveal_strlit("ABCDEFGHIJKLMNOPQRSTUVWXYZabcdefghijklmnopqrstuvwxyz0123456789+/");
}

/// A symbol tells its six bits, and is printable ASCII other than `=`.
proof fn lemma_symbol(v: int)
    requires
        0 <= v < 64,
    ensures
        six_bits(symbol(v)) == v,
        symbol(v) != '=',
        '!' <= symbol(v) <= '~',
{
    reveal_strlit("ABCDEFGHIJKLMNOPQRSTUVWXYZabcdefghijklmnopqrstuvwxyz0123456789+/");
}

/// Base64 text is printable ASCII, without white space.
pub proof fn law_base64_is_printable(data: Seq<u8>)
    ensures
        forall|i: int| 0 <= i < base64(data).len() ==> '!' <= #[trigger] base64(data)[i] <= '~',
    decreases data.len(),
{
    assert forall|v: int| 0 <= v < 64 implies '!' <= #[trigger] symbol(v) <= '~' by {
        lemma_symbol(v);
    }
    if data.len() >= 3 {
        let rest = base64(data.skip(3));
        law_base64_is_printable(data.skip(3));
        assert forall|i: int| 0 <= i < base64(data).len() implies '!' <= #[trigger] base64(data)[i]
            <= '~' by {
            if i >= 4 {
                assert(base64(data)[i] == rest[i - 4]);
            }
        }
    }
}

/// Different data has different base64 text.
pub proof fn law_base64_tells_data_apart(left: Seq<u8>, right: Seq<u8>)
    requires
        base64(left) == base64(right),
    ensures
        left == right,
    decreases left.len(),
{
    law_base64_length(left);
    law_base64_length(right);
    if left.len() > 0 {
        assert forall|v: int| 0 <= v < 64 implies six_bits(#[trigger] symbol(v)) == v && symbol(v)
            != '=' by {
            lemma_symbol(v);
        }
        let l = base64(left);
        let r = base64(right);
        assert(l[0] == r[0] && l[1] == r[1] && l[2] == r[2] && l[3] == r[3]);
        if left.len() >= 3 && right.len() >= 3 {
            assert(l.skip(4) =~= base64(left.skip(3)));
            assert(r.skip(4) =~= base64(right.skip(3)));
            law_base64_tells_data_apart(left.skip(3), right.skip(3));
            assert(left =~= left.take(3) + left.skip(3));
            assert(right =~= right.take(3) + right.skip(3));
            assert(left.take(3) =~= right.take(3));
        } else {
            assert(left =~= right);
        }
    }
}

/// Four characters spell the 24 bits of three bytes, whatever the place `g` of
/// the group: each is the character of the alphabet at the place that its six
/// bits number, and where data is missing, its bits are zero and the characters
/// that would hold nothing else are `=`.
pub proof fn law_four_characters_spell_three_bytes(data: Seq<u8>, g: int)
    requires
        0 <= 3 * g < data.len(),
    ensures
        ({
            let text = base64(data);
            let alphabet = "ABCDEFGHIJKLMNOPQRSTUVWXYZabcdefghijklmnopqrstuvwxyz0123456789+/"@;
            let v0 = six_bits(text[4 * g]);
            let v1 = six_bits(text[4 * g + 1]);
            let v2 = six_bits(text[4 * g + 2]);
            let v3 = six_bits(text[4 * g + 3]);
            let b0 = data[3 * g] as int;
            let b1 = if 3 * g + 1 < data.len() { data[3 * g + 1] as int } else { 0 };
            let b2 = if 3 * g + 2 < data.len() { data[3 * g + 2] as int } else { 0 };
            &&& 4 * g + 4 <= text.len()
            &&& 0 <= v0 < 64 && 0 <= v1 < 64 && 0 <= v2 < 64 && 0 <= v3 < 64
            &&& text[4 * g] == alphabet[v0]
            &&& text[4 * g + 1] == alphabet[v1]
            &&& text[4 * g + 2] == (if 3 * g + 1 < data.len() { alphabet[v2] } else { '=' })
            &&& text[4 * g + 3] == (if 3 * g + 2 < data.len() { alphabet[v3] } else { '=' })
            &&& ((v0 * 64 + v1) * 64 + v2) * 64 + v3 == (b0 * 256 + b1) * 256 + b2
        }),
    decreases data.len(),
{
    law_base64_length(data);
    assert forall|v: int| 0 <= v < 64 implies six_bits(#[trigger] symbol(v)) == v by {
        lemma_symbol(v);
    }
    if g > 0 {
        let less = data.skip(3);
        law_four_characters_spell_three_bytes(less, g - 1);
        let text = base64(data);
        let rest = base64(less);
        assert(text[4 * g] == rest[4 * (g - 1)]);
        assert(text[4 * g + 1] == rest[4 * (g - 1) + 1]);
        assert(text[4 * g + 2] == rest[4 * (g - 1) + 2]);
        assert(text[4 * g + 3] == rest[4 * (g - 1) + 3]);
        assert(data[3 * g] == less[3 * (g - 1)]);
    }
}

/// The data that base64 text spells: of every four characters the 24 bits, less
/// a byte for every `=` at the end.
pub open spec fn decoded(text: Seq<char>) -> Seq<u8> {
    let n = text.len();
    let missing: int = if n < 4 || text[n - 1] != '=' {
        0
    } else if text[n - 2] != '=' {
        1
    } else {
        2
    };
    Seq::new(
        (n / 4 * 3 - missing) as nat,
        |k: int|
            {
                let g = k / 3;
                let bits = ((six_bits(text[4 * g]) * 64 + six_bits(text[4 * g + 1])) * 64 + six_bits(
                    text[4 * g + 2],
                )) * 64 + six_bits(text[4 * g + 3]);
                if k % 3 == 0 {
                    (bits / 0x1_0000) as u8
                } else if k % 3 == 1 {
                    (bits / 0x100 % 0x100) as u8
                } else {
                    (bits % 0x100) as u8
                }
            },
    )
}

/// The bytes that 24 bits are made of.
proof fn lemma_bytes_of_bits(b0: u8, b1: u8, b2: u8)
    ensures
        ({
            let bits = (b0 * 256 + b1) * 256 + b2;
            &&& bits / 0x1_0000 == b0
            &&& bits / 0x100 % 0x100 == b1
            &&& bits % 0x100 == b2
        }),
{
}

/// Base64 text has as many bytes as the data.
proof fn lemma_decoded_length(data: Seq<u8>)
    ensures
        decoded(base64(data)).len() == data.len(),
{
    law_base64_length(data);
    if data.len() > 0 {
        let text = base64(data);
        let last = (data.len() - 1) / 3;
        law_four_characters_spell_three_bytes(data, last);
        assert(text.len() == 4 * last + 4);
        law_alphabet(six_bits(text[4 * last + 2]));
        law_alphabet(six_bits(text[4 * last + 3]));
    }
}

/// Base64 text is decoded to the data that it was made from.
pub proof fn law_base64_decodes(data: Seq<u8>)
    ensures
        decoded(base64(data)) == data,
{
    lemma_decoded_length(data);
    assert forall|k: int| 0 <= k < data.len() implies decoded(base64(data))[k] == data[k] by {
        let g = k / 3;
        law_four_characters_spell_three_bytes(data, g);
        lemma_bytes_of_bits(
            data[3 * g],
            if 3 * g + 1 < data.len() {
                data[3 * g + 1]
            } else {
                0
            },
            if 3 * g + 2 < data.len() {
                data[3 * g + 2]
            } else {
                0
            },
        );
    }
    assert(decoded(base64(data)) =~= data);
}

} // verus!
