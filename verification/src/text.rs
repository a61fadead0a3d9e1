//! Text, character by character.

use vstd::prelude::*;
use vstd::string::{StrSliceExecFns, StringExecFns};

verus! {

/// The characters with the Unicode property `White_Space`.
pub open spec fn is_white(c: char) -> bool {
    let v = c as u32;
    ||| 0x9 <= v <= 0xd
    ||| v == 0x20
    ||| v == 0x85
    ||| v == 0xa0
    ||| v == 0x1680
    ||| 0x2000 <= v <= 0x200a
    ||| v == 0x2028
    ||| v == 0x2029
    ||| v == 0x202f
    ||| v == 0x205f
    ||| v == 0x3000
}

/// How many characters at the start of `s` are white space (or are not).
pub open spec fn leading(s: Seq<char>, white: bool) -> nat
    decreases s.len(),
{
    if s.len() > 0 && is_white(s[0]) == white {
        1 + leading(s.skip(1), white)
    } else {
        0
    }
}

/// The words of `s`: its longest stretches without white space, in order.
pub open spec fn words(s: Seq<char>) -> Seq<Seq<char>>
    decreases s.len(),
    via words_decreases
{
    let t = s.skip(leading(s, true) as int);
    if t.len() == 0 {
        Seq::empty()
    } else {
        let n = leading(t, false) as int;
        seq![t.take(n)] + words(t.skip(n))
    }
}

#[via_fn]
proof fn words_decreases(s: Seq<char>) {
    let t = s.skip(leading(s, true) as int);
    lemma_leading(s, true);
    lemma_leading(t, false);
}

/// `leading` counts a stretch of one kind, which ends with the text or with a
/// character of the other kind.
pub proof fn lemma_leading(s: Seq<char>, white: bool)
    ensures
        leading(s, white) <= s.len(),
        forall|i: int| 0 <= i < leading(s, white) ==> is_white(#[trigger] s[i]) == white,
        leading(s, white) < s.len() ==> is_white(s[leading(s, white) as int]) != white,
    decreases s.len(),
{
    if s.len() > 0 && is_white(s[0]) == white {
        let rest = s.skip(1);
        lemma_leading(rest, white);
        assert forall|i: int| 0 <= i < leading(s, white) implies is_white(#[trigger] s[i])
            == white by {
            if i > 0 {
                assert(s[i] == rest[i - 1]);
            }
        }
    }
}

/// A stretch of one kind that ends as `leading` asks is what it counts.
pub proof fn lemma_leading_is(s: Seq<char>, white: bool, n: nat)
    requires
        n <= s.len(),
        forall|i: int| 0 <= i < n ==> is_white(#[trigger] s[i]) == white,
        n < s.len() ==> is_white(s[n as int]) != white,
    ensures
        leading(s, white) == n,
{
    lemma_leading(s, white);
    let m = leading(s, white);
    if m < n {
        assert(is_white(s[m as int]) == white);
    } else if n < m {
        assert(is_white(s[n as int]) == white);
    }
}

/// The decimal digits of `n`, without leading zeros.
pub open spec fn decimal(n: nat) -> Seq<char>
    decreases n,
{
    if n < 10 {
        seq![(0x30 + n) as char]
    } else {
        decimal(n / 10).push((0x30 + n % 10) as char)
    }
}

/// How many characters of `s` come before the first `c`; all of them where
/// there is none.
pub open spec fn before(s: Seq<char>, c: char) -> nat
    decreases s.len(),
{
    if s.len() > 0 && s[0] != c {
        1 + before(s.skip(1), c)
    } else {
        0
    }
}

/// `before` counts characters other than `c`, and ends with the text or at a
/// `c`.
pub proof fn lemma_before(s: Seq<char>, c: char)
    ensures
        before(s, c) <= s.len(),
        forall|i: int| 0 <= i < before(s, c) ==> #[trigger] s[i] != c,
        before(s, c) < s.len() ==> s[before(s, c) as int] == c,
    decreases s.len(),
{
    if s.len() > 0 && s[0] != c {
        let rest = s.skip(1);
        lemma_before(rest, c);
        assert forall|i: int| 0 <= i < before(s, c) implies #[trigger] s[i] != c by {
            if i > 0 {
                assert(s[i] == rest[i - 1]);
            }
        }
    }
}

/// A stretch without `c` that ends as `before` asks is what it counts.
pub proof fn lemma_before_is(s: Seq<char>, c: char, n: nat)
    requires
        n <= s.len(),
        forall|i: int| 0 <= i < n ==> #[trigger] s[i] != c,
        n < s.len() ==> s[n as int] == c,
    ensures
        before(s, c) == n,
{
    lemma_before(s, c);
    let m = before(s, c);
    if m < n {
        assert(s[m as int] != c);
    } else if n < m {
        assert(s[n as int] != c);
    }
}

/// Where the first line of `s` ends: at its first CRLF, or with the text.
pub open spec fn line_end(s: Seq<char>) -> nat
    decreases s.len(),
{
    if s.len() < 2 {
        s.len()
    } else if s[0] == '\r' && s[1] == '\n' {
        0
    } else {
        1 + line_end(s.skip(1))
    }
}

/// The lines of `s`, as CRLF parts them.
pub open spec fn lines(s: Seq<char>) -> Seq<Seq<char>>
    decreases s.len(),
{
    let end = line_end(s);
    if end + 2 <= s.len() {
        seq![s.take(end as int)] + lines(s.skip(end as int + 2))
    } else {
        seq![s]
    }
}

/// A line without CR, and what follows its CRLF.
pub proof fn lemma_first_line(line: Seq<char>, rest: Seq<char>)
    requires
        !line.contains('\r'),
    ensures
        lines(line + seq!['\r', '\n'] + rest) == seq![line] + lines(rest),
{
    let s = line + seq!['\r', '\n'] + rest;
    lemma_line_end(line, rest);
    assert(s.take(line.len() as int) =~= line);
    assert(s.skip(line.len() as int + 2) =~= rest);
}

proof fn lemma_line_end(line: Seq<char>, rest: Seq<char>)
    requires
        !line.contains('\r'),
    ensures
        line_end(line + seq!['\r', '\n'] + rest) == line.len(),
    decreases line.len(),
{
    let s = line + seq!['\r', '\n'] + rest;
    if line.len() > 0 {
        let shorter = line.skip(1);
        assert(line.contains(line[0]));
        assert(s.skip(1) =~= shorter + seq!['\r', '\n'] + rest);
        assert forall|i: int| 0 <= i < shorter.len() implies shorter[i] != '\r' by {
            assert(line.contains(line[i + 1]));
        }
        lemma_line_end(shorter, rest);
    }
}

/// The decimal digits.
pub open spec fn is_digit(c: char) -> bool {
    '0' <= c <= '9'
}

/// Whether a word of `s` that starts with a digit starts at this place.
pub open spec fn starts_number(s: Seq<char>, at: nat) -> bool {
    at < s.len() && is_digit(s[at as int]) && (at == 0 || is_white(s[at - 1]))
}

/// Where the first such word from `from` on starts; the end where there is none.
pub open spec fn number_start(s: Seq<char>, from: nat) -> nat
    decreases s.len() - from,
{
    if from >= s.len() {
        s.len()
    } else if starts_number(s, from) {
        from
    } else {
        number_start(s, from + 1)
    }
}

/// Where the digits that start at `from` end.
pub open spec fn digits_end(s: Seq<char>, from: nat) -> nat
    decreases s.len() - from,
{
    if from < s.len() && is_digit(s[from as int]) {
        digits_end(s, from + 1)
    } else {
        from
    }
}

/// The first number of `s`: the leading digits of its first word that starts
/// with a digit, none where no word does.
pub open spec fn number_in(s: Seq<char>) -> Seq<char> {
    let start = number_start(s, 0);
    s.subrange(start as int, digits_end(s, start) as int)
}

/// Where no number starts before `at`, the search may start there.
pub proof fn lemma_number_start_is(s: Seq<char>, from: nat, at: nat)
    requires
        from <= at <= s.len(),
        forall|i: nat| from <= i < at ==> !#[trigger] starts_number(s, i),
    ensures
        number_start(s, from) == number_start(s, at),
    decreases at - from,
{
    if from < at {
        assert(!starts_number(s, from));
        lemma_number_start_is(s, from + 1, at);
    }
}

/// What `number_start` finds is the first place from `from` on where a number
/// starts, or the end.
pub proof fn lemma_number_start(s: Seq<char>, from: nat)
    requires
        from <= s.len(),
    ensures
        from <= number_start(s, from) <= s.len(),
        forall|i: nat| from <= i < number_start(s, from) ==> !#[trigger] starts_number(s, i),
        number_start(s, from) < s.len() ==> starts_number(s, number_start(s, from)),
    decreases s.len() - from,
{
    if from < s.len() && !starts_number(s, from) {
        lemma_number_start(s, from + 1);
    }
}

/// What `digits_end` finds ends a stretch of digits, with the text or before
/// another character.
pub proof fn lemma_digits_end(s: Seq<char>, from: nat)
    requires
        from <= s.len(),
    ensures
        from <= digits_end(s, from) <= s.len(),
        forall|i: int| from <= i < digits_end(s, from) ==> is_digit(#[trigger] s[i]),
        digits_end(s, from) < s.len() ==> !is_digit(s[digits_end(s, from) as int]),
    decreases s.len() - from,
{
    if from < s.len() && is_digit(s[from as int]) {
        lemma_digits_end(s, from + 1);
    }
}

/// A stretch of digits that ends with the text or before another character is
/// what `digits_end` finds.
pub proof fn lemma_digits_end_is(s: Seq<char>, from: nat, end: nat)
    requires
        from <= end <= s.len(),
        forall|i: int| from <= i < end ==> is_digit(#[trigger] s[i]),
        end < s.len() ==> !is_digit(s[end as int]),
    ensures
        digits_end(s, from) == end,
    decreases end - from,
{
    if from < end {
        lemma_digits_end_is(s, from + 1, end);
    }
}

/// Whether `part` stands in `s` at this place.
pub open spec fn stands_at(s: Seq<char>, part: Seq<char>, at: int) -> bool {
    0 <= at && at + part.len() <= s.len() && s.subrange(at, at + part.len()) == part
}

/// A part stands where each of its characters does.
pub proof fn law_part_stands_character_by_character(s: Seq<char>, part: Seq<char>, at: int)
    ensures
        stands_at(s, part, at) <==> 0 <= at && at + part.len() <= s.len() && forall|i: int|
            0 <= i < part.len() ==> s[at + i] == #[trigger] part[i],
{
    if 0 <= at && at + part.len() <= s.len() {
        let there = s.subrange(at, at + part.len());
        if there == part {
            assert forall|i: int| 0 <= i < part.len() implies s[at + i] == #[trigger] part[i] by {
                assert(there[i] == s[at + i]);
            }
        } else if forall|i: int| 0 <= i < part.len() ==> s[at + i] == #[trigger] part[i] {
            assert(there =~= part);
        }
    }
}

/// The first two words of a line, whatever white space stands around them and
/// whatever follows the second.
pub proof fn law_words_are_parted_by_white_space(
    lead: Seq<char>,
    first: Seq<char>,
    gap: Seq<char>,
    second: Seq<char>,
    tail: Seq<char>,
)
    requires
        forall|i: int| 0 <= i < lead.len() ==> is_white(#[trigger] lead[i]),
        first.len() > 0,
        forall|i: int| 0 <= i < first.len() ==> !is_white(#[trigger] first[i]),
        gap.len() > 0,
        forall|i: int| 0 <= i < gap.len() ==> is_white(#[trigger] gap[i]),
        second.len() > 0,
        forall|i: int| 0 <= i < second.len() ==> !is_white(#[trigger] second[i]),
        tail.len() > 0 ==> is_white(tail[0]),
    ensures
        words(lead + first + gap + second + tail).len() > 1,
        words(lead + first + gap + second + tail)[0] == first,
        words(lead + first + gap + second + tail)[1] == second,
{
    let line = lead + first + gap + second + tail;
    let t = first + gap + second + tail;
    let rest = gap + second + tail;
    let u = second + tail;
    lemma_leading_is(line, true, lead.len());
    assert(line.skip(lead.len() as int) =~= t);
    lemma_leading_is(t, false, first.len());
    assert(t.take(first.len() as int) =~= first);
    assert(t.skip(first.len() as int) =~= rest);
    lemma_leading_is(rest, true, gap.len());
    assert(rest.skip(gap.len() as int) =~= u);
    lemma_leading_is(u, false, second.len());
    assert(u.take(second.len() as int) =~= second);
    assert(words(rest) == seq![second] + words(u.skip(second.len() as int)));
    assert(words(line) == seq![first] + words(rest));
}

/// A line with no character but white space around one stretch of others has at
/// most that word.
pub proof fn law_one_stretch_is_one_word(lead: Seq<char>, word: Seq<char>, tail: Seq<char>)
    requires
        forall|i: int| 0 <= i < lead.len() ==> is_white(#[trigger] lead[i]),
        forall|i: int| 0 <= i < word.len() ==> !is_white(#[trigger] word[i]),
        forall|i: int| 0 <= i < tail.len() ==> is_white(#[trigger] tail[i]),
    ensures
        words(lead + word + tail) == (if word.len() > 0 {
            seq![word]
        } else {
            Seq::empty()
        }),
{
    let line = lead + word + tail;
    if word.len() == 0 {
        lemma_leading_is(line, true, line.len());
    } else {
        let t = word + tail;
        lemma_leading_is(line, true, lead.len());
        assert(line.skip(lead.len() as int) =~= t);
        lemma_leading_is(t, false, word.len());
        assert(t.take(word.len() as int) =~= word);
        assert(t.skip(word.len() as int) =~= tail);
        lemma_leading_is(tail, true, tail.len());
        assert(words(tail) =~= Seq::<Seq<char>>::empty());
        assert(words(line) =~= seq![word]);
    }
}

/// The first number of a line is the digits that start its first word to start
/// with one, whatever stands before that word and behind the digits.
pub proof fn law_first_number_starts_a_word(
    front: Seq<char>,
    digits: Seq<char>,
    behind: Seq<char>,
)
    requires
        front.len() > 0 ==> is_white(front.last()),
        forall|i: int|
            0 <= i < front.len() && '0' <= #[trigger] front[i] <= '9' ==> i > 0 && !is_white(
                front[i - 1],
            ),
        digits.len() > 0,
        forall|i: int| 0 <= i < digits.len() ==> '0' <= #[trigger] digits[i] <= '9',
        behind.len() > 0 ==> !('0' <= behind[0] <= '9'),
    ensures
        number_in(front + digits + behind) == digits,
{
    let line = front + digits + behind;
    let start = front.len();
    assert forall|i: nat| i < start implies !#[trigger] starts_number(line, i) by {
        assert(line[i as int] == front[i as int]);
        if i > 0 {
            assert(line[i - 1] == front[i - 1]);
        }
    }
    lemma_number_start_is(line, 0, start);
    assert(line[start as int] == digits[0]);
    if start > 0 {
        assert(line[start - 1] == front.last());
    }
    assert(starts_number(line, start));
    assert forall|i: int| start <= i < start + digits.len() implies is_digit(#[trigger] line[i]) by {
        assert(line[i] == digits[i - start]);
    }
    lemma_digits_end_is(line, start, start + digits.len());
    assert(line.subrange(start as int, (start + digits.len()) as int) =~= digits);
}

/// A line of which no word starts with a digit has no number.
pub proof fn law_no_number(line: Seq<char>)
    requires
        forall|i: int|
            0 <= i < line.len() && '0' <= #[trigger] line[i] <= '9' ==> i > 0 && !is_white(
                line[i - 1],
            ),
    ensures
        number_in(line).len() == 0,
{
    assert forall|i: nat| i < line.len() implies !#[trigger] starts_number(line, i) by {
        let c = line[i as int];
        if '0' <= c <= '9' {
            assert(!is_white(line[i - 1]));
        }
    }
    lemma_number_start_is(line, 0, line.len());
}

/// The decimal digits of a number are those of its places, and the first is not
/// zero unless it is the only one.
pub proof fn law_decimal_digits_have_their_places(n: nat)
    ensures
        decimal(n).len() > 0,
        decimal(n).len() > 1 ==> decimal(n)[0] != '0',
        n < vstd::arithmetic::power::pow(10, decimal(n).len()),
        forall|i: int|
            0 <= i < decimal(n).len() ==> (#[trigger] decimal(n)[i]) as int == 0x30 + n as int
                / vstd::arithmetic::power::pow(10, (decimal(n).len() - 1 - i) as nat) % 10,
    decreases n,
{
    vstd::arithmetic::power::lemma_pow0(10);
    vstd::arithmetic::power::lemma_pow1(10);
    if n < 10 {
        assert(decimal(n)[0] as int == 0x30 + n);
    } else {
        let rest = decimal(n / 10);
        let len = rest.len();
        law_decimal_digits_have_their_places(n / 10);
        assert(decimal(n) == rest.push((0x30 + n % 10) as char));
        vstd::arithmetic::power::lemma_pow_adds(10, 1, len);
        assert forall|i: int| 0 <= i < decimal(n).len() implies (#[trigger] decimal(n)[i]) as int
            == 0x30 + n as int / vstd::arithmetic::power::pow(
            10,
            (decimal(n).len() - 1 - i) as nat,
        ) % 10 by {
            if i < len {
                let behind = (len - 1 - i) as nat;
                assert(decimal(n)[i] == rest[i]);
                vstd::arithmetic::power::lemma_pow_positive(10, behind);
                vstd::arithmetic::power::lemma_pow_adds(10, 1, behind);
                vstd::arithmetic::div_mod::lemma_div_denominator(
                    n as int,
                    10,
                    vstd::arithmetic::power::pow(10, behind),
                );
            }
        }
        if len == 1 {
            assert(rest[0] as int == 0x30 + n / 10);
        }
    }
}

/// The characters of `s`.
pub fn chars_of(s: &str) -> (chars: Vec<char>)
    ensures
        chars@ == s@,
{
    let mut chars: Vec<char> = Vec::new();
    for c in it: s.chars()
        invariant
            it.seq() == s@,
            chars@ == s@.take(it.index() as int),
    {
        chars.push(c);
        assert(chars@ =~= s@.take(it.index() + 1));
    }
    assert(chars@ =~= s@);
    chars
}

/// Whether `c` is white space.
pub fn white(c: char) -> (b: bool)
    ensures
        b == is_white(c),
{
    let v: u32 = c as u32;
    (0x9 <= v && v <= 0xd) || v == 0x20 || v == 0x85 || v == 0xa0 || v == 0x1680 || (0x2000 <= v
        && v <= 0x200a) || v == 0x2028 || v == 0x2029 || v == 0x202f || v == 0x205f || v == 0x3000
}

/// Where the stretch of white space (or of none) that starts at `from` ends.
pub fn stretch_end(chars: &Vec<char>, from: usize, kind: bool) -> (end: usize)
    requires
        from <= chars@.len(),
    ensures
        from <= end <= chars@.len(),
        end == from + leading(chars@.skip(from as int), kind),
{
    let mut end: usize = from;
    while end < chars.len() && white(chars[end]) == kind
        invariant
            from <= end <= chars@.len(),
            forall|i: int| from <= i < end ==> is_white(#[trigger] chars@[i]) == kind,
        decreases chars@.len() - end,
    {
        end = end + 1;
    }
    proof {
        let s = chars@.skip(from as int);
        assert forall|i: int| 0 <= i < end - from implies is_white(#[trigger] s[i]) == kind by {
            assert(s[i] == chars@[from + i]);
        }
        lemma_leading_is(s, kind, (end - from) as nat);
    }
    end
}

/// The second word of `line`, where it has one.
pub fn second_word(line: &str) -> (word: Option<&str>)
    ensures
        match word {
            Some(word) => words(line@).len() > 1 && word@ == words(line@)[1],
            None => words(line@).len() <= 1,
        },
{
    let chars = chars_of(line);
    let first: usize = stretch_end(&chars, 0, true);
    let gap: usize = stretch_end(&chars, first, false);
    let second: usize = stretch_end(&chars, gap, true);
    let end: usize = stretch_end(&chars, second, false);
    proof {
        let s = line@;
        assert(s.skip(0) =~= s);
        let t = s.skip(first as int);
        if t.len() > 0 {
            let rest = t.skip(gap - first);
            assert(rest =~= s.skip(gap as int));
            let u = rest.skip(second - gap);
            assert(u =~= s.skip(second as int));
            reveal_with_fuel(words, 3);
            if u.len() > 0 {
                assert(u.take(end - second) =~= s.subrange(second as int, end as int));
                lemma_leading(rest, true);
            }
        }
    }
    if second < end {
        Some(line.substring_char(second, end))
    } else {
        None
    }
}

/// Whether `c` is a decimal digit.
pub fn digit(c: char) -> (b: bool)
    ensures
        b == is_digit(c),
{
    let v: u32 = c as u32;
    0x30 <= v && v <= 0x39
}

/// The first number of `line`, empty where it has none.
pub fn first_number(line: &str) -> (number: &str)
    ensures
        number@ == number_in(line@),
{
    let chars = chars_of(line);
    let mut start: usize = 0;
    while start < chars.len() && !(digit(chars[start]) && (start == 0 || white(chars[start - 1])))
        invariant
            start <= chars@.len(),
            number_start(chars@, 0) == number_start(chars@, start as nat),
        decreases chars@.len() - start,
    {
        start = start + 1;
    }
    let mut end: usize = start;
    while end < chars.len() && digit(chars[end])
        invariant
            start <= end <= chars@.len(),
            digits_end(chars@, start as nat) == digits_end(chars@, end as nat),
        decreases chars@.len() - end,
    {
        end = end + 1;
    }
    line.substring_char(start, end)
}

/// `n` in decimal.
pub fn to_decimal(n: usize) -> (text: String)
    ensures
        text@ == decimal(n as nat),
    decreases n,
{
    let digits = "0123456789";
    let d: usize = n % 10;
    proof {
        reveal_strlit("0123456789");
    }
    let digit = digits.substring_ascii(d, d + 1);
    let mut text: String = if n < 10 {
        String::new()
    } else {
        to_decimal(n / 10)
    };
    text.append(digit);
    assert(text@ =~= decimal(n as nat));
    text
}

/// Where the first `c` from `from` on stands; the end where there is none.
pub fn find(chars: &Vec<char>, from: usize, c: char) -> (at: usize)
    requires
        from <= chars@.len(),
    ensures
        from <= at <= chars@.len(),
        at == from + before(chars@.skip(from as int), c),
{
    let mut at: usize = from;
    while at < chars.len() && chars[at] != c
        invariant
            from <= at <= chars@.len(),
            forall|i: int| from <= i < at ==> #[trigger] chars@[i] != c,
        decreases chars@.len() - at,
    {
        at = at + 1;
    }
    proof {
        let s = chars@.skip(from as int);
        assert forall|i: int| 0 <= i < at - from implies #[trigger] s[i] != c by {
            assert(s[i] == chars@[from + i]);
        }
        lemma_before_is(s, c, (at - from) as nat);
    }
    at
}

/// Whether `part` stands in `chars` at this place.
pub fn has_at(chars: &Vec<char>, part: &Vec<char>, at: usize) -> (b: bool)
    requires
        at + part@.len() <= chars@.len(),
    ensures
        b == stands_at(chars@, part@, at as int),
{
    let mut i: usize = 0;
    while i < part.len()
        invariant
            i <= part@.len(),
            at + part.len() <= chars.len(),
            forall|j: int| 0 <= j < i ==> chars@[at + j] == #[trigger] part@[j],
        decreases part@.len() - i,
    {
        if chars[at + i] != part[i] {
            assert(chars@.subrange(at as int, at + part@.len())[i as int] != part@[i as int]);
            return false;
        }
        i = i + 1;
    }
    assert(chars@.subrange(at as int, at + part@.len()) =~= part@);
    true
}

} // verus!
