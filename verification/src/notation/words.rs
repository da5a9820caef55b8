//! Words of a notation: surrounding white space, letter case, what stands
//! between two delimiters, and decimal numbers.

use crate::text::{characters, decimal};
use vstd::prelude::*;
use vstd::string::StrSliceExecFns;

verus! {

/// A character with the Unicode property White_Space.
pub open spec fn is_blank(c: char) -> bool {
    let n = c as int;
    ||| 0x9 <= n <= 0xd
    ||| n == 0x20
    ||| n == 0x85
    ||| n == 0xa0
    ||| n == 0x1680
    ||| 0x2000 <= n <= 0x200a
    ||| n == 0x2028
    ||| n == 0x2029
    ||| n == 0x202f
    ||| n == 0x205f
    ||| n == 0x3000
}

/// A text without the white space at its ends.
pub open spec fn trimmed(s: Seq<char>) -> Seq<char>
    decreases s.len(),
{
    if s.len() == 0 {
        s
    } else if is_blank(s[0]) {
        trimmed(s.drop_first())
    } else if is_blank(s.last()) {
        trimmed(s.drop_last())
    } else {
        s
    }
}

/// The lower case form of an ASCII letter; any other character is left alone.
pub open spec fn lower(c: char) -> char {
    if 'A' <= c <= 'Z' {
        (c as int + 32) as char
    } else {
        c
    }
}

/// A text with its ASCII letters in lower case.
pub open spec fn lowered(s: Seq<char>) -> Seq<char> {
    Seq::new(s.len(), |i: int| lower(s[i]))
}

/// What stands in a text between an opening and a closing part.
pub open spec fn between(s: Seq<char>, opening: Seq<char>, closing: Seq<char>) -> Option<
    Seq<char>,
> {
    if opening.is_prefix_of(s) && closing.is_suffix_of(s.skip(opening.len() as int)) {
        Some(s.subrange(opening.len() as int, s.len() - closing.len()))
    } else {
        None
    }
}

/// `at` is the place of the last `c` of a text.
pub open spec fn is_last_of(s: Seq<char>, c: char, at: int) -> bool {
    &&& 0 <= at < s.len()
    &&& s[at] == c
    &&& forall|j: int| at < j < s.len() ==> s[j] != c
}

/// A text consists of decimal digits.
pub open spec fn all_digits(s: Seq<char>) -> bool {
    forall|i: int| 0 <= i < s.len() ==> '0' <= #[trigger] s[i] <= '9'
}

/// The number that a text of digits writes.
pub open spec fn value(s: Seq<char>) -> nat
    decreases s.len(),
{
    if s.len() == 0 {
        0
    } else {
        value(s.drop_last()) * 10 + (s.last() as nat - '0' as nat) as nat
    }
}

/// A number without its sign, where that is a plus.
pub open spec fn unsigned_part(s: Seq<char>) -> Seq<char> {
    if s.len() != 0 && s[0] == '+' {
        s.drop_first()
    } else {
        s
    }
}

/// The 32-bit number that a text writes: at least one digit, and at most one
/// plus sign in front.
pub open spec fn number(s: Seq<char>) -> Option<u32> {
    let digits = unsigned_part(s);
    if digits.len() != 0 && all_digits(digits) && value(digits) <= u32::MAX {
        Some(value(digits) as u32)
    } else {
        None
    }
}

/// A trimmed text is no longer than the text.
pub proof fn lemma_trimmed_is_no_longer(s: Seq<char>)
    ensures
        trimmed(s).len() <= s.len(),
    decreases s.len(),
{
    if s.len() != 0 {
        if is_blank(s[0]) {
            lemma_trimmed_is_no_longer(s.drop_first());
        } else if is_blank(s.last()) {
            lemma_trimmed_is_no_longer(s.drop_last());
        }
    }
}

/// White space around a text leaves what is trimmed as it is.
pub proof fn lemma_trimmed_at(s: Seq<char>, from: int, to: int)
    requires
        0 <= from <= to <= s.len(),
        forall|i: int| 0 <= i < from ==> is_blank(#[trigger] s[i]),
        forall|i: int| to <= i < s.len() ==> is_blank(#[trigger] s[i]),
        from < to ==> !is_blank(s[from]) && !is_blank(s[to - 1]),
    ensures
        trimmed(s) == s.subrange(from, to),
    decreases s.len(),
{
    if from > 0 {
        let rest = s.drop_first();
        assert forall|i: int| 0 <= i < from - 1 implies is_blank(#[trigger] rest[i]) by {
            assert(rest[i] == s[i + 1]);
        }
        assert forall|i: int| to - 1 <= i < rest.len() implies is_blank(#[trigger] rest[i]) by {
            assert(rest[i] == s[i + 1]);
        }
        lemma_trimmed_at(rest, from - 1, to - 1);
        assert(is_blank(s[0]));
        assert(rest.subrange(from - 1, to - 1) =~= s.subrange(from, to));
    } else if to < s.len() {
        if to == 0 {
            let rest = s.drop_first();
            assert forall|i: int| 0 <= i < rest.len() implies is_blank(#[trigger] rest[i]) by {
                assert(rest[i] == s[i + 1]);
            }
            lemma_trimmed_at(rest, 0, 0);
            assert(is_blank(s[0]));
            assert(rest.subrange(0, 0) =~= s.subrange(0, 0));
        } else {
            let rest = s.drop_last();
            assert forall|i: int| to <= i < rest.len() implies is_blank(#[trigger] rest[i]) by {
                assert(rest[i] == s[i]);
            }
            lemma_trimmed_at(rest, 0, to);
            assert(is_blank(s[s.len() - 1]));
            assert(rest.subrange(0, to) =~= s.subrange(0, to));
        }
    } else {
        assert(s.subrange(0, s.len() as int) =~= s);
    }
}

/// Reading a decimal number gives back the number that was written.
pub proof fn lemma_decimal_reads_back(n: nat)
    ensures
        decimal(n).len() != 0,
        all_digits(decimal(n)),
        value(decimal(n)) == n,
    decreases n,
{
    if n < 10 {
        assert(decimal(n).drop_last() =~= Seq::<char>::empty());
        assert(value(Seq::<char>::empty()) == 0);
    } else {
        lemma_decimal_reads_back(n / 10);
        assert(decimal(n).drop_last() =~= decimal(n / 10));
        assert forall|i: int| 0 <= i < decimal(n).len() implies '0' <= #[trigger] decimal(n)[i]
            <= '9' by {
            if i < decimal(n / 10).len() {
                assert(decimal(n)[i] == decimal(n / 10)[i]);
            }
        }
    }
}

proof fn lemma_longer_numbers_are_larger(s: Seq<char>, k: int)
    requires
        0 <= k <= s.len(),
    ensures
        value(s.take(k)) <= value(s),
    decreases s.len() - k,
{
    if k < s.len() {
        lemma_longer_numbers_are_larger(s, k + 1);
        assert(s.take(k + 1).drop_last() =~= s.take(k));
    } else {
        assert(s.take(k) =~= s);
    }
}

fn blank(c: char) -> (b: bool)
    ensures
        b == is_blank(c),
{
    let n: u32 = c as u32;
    (0x9 <= n && n <= 0xd) || n == 0x20 || n == 0x85 || n == 0xa0 || n == 0x1680 || (0x2000 <= n
        && n <= 0x200a) || n == 0x2028 || n == 0x2029 || n == 0x202f || n == 0x205f || n == 0x3000
}

/// Takes the white space off the ends of a text.
pub fn trim(text: &str) -> (inner: &str)
    ensures
        inner@ == trimmed(text@),
{
    let chars: Vec<char> = characters(text);
    let mut from: usize = 0;
    while from < chars.len() && blank(chars[from])
        invariant
            from <= chars@.len(),
            forall|i: int| 0 <= i < from ==> is_blank(#[trigger] chars@[i]),
        ensures
            from <= chars@.len(),
            forall|i: int| 0 <= i < from ==> is_blank(#[trigger] chars@[i]),
            from < chars@.len() ==> !is_blank(chars@[from as int]),
        decreases chars@.len() - from,
    {
        from += 1;
    }
    let mut to: usize = chars.len();
    while to > from && blank(chars[to - 1])
        invariant
            from <= to <= chars@.len(),
            forall|i: int| to <= i < chars@.len() ==> is_blank(#[trigger] chars@[i]),
        ensures
            from <= to <= chars@.len(),
            forall|i: int| to <= i < chars@.len() ==> is_blank(#[trigger] chars@[i]),
            from < to ==> !is_blank(chars@[to - 1]),
        decreases to,
    {
        to -= 1;
    }
    proof {
        lemma_trimmed_at(chars@, from as int, to as int);
    }
    text.substring_char(from, to)
}

/// What stands in a text between an opening and a closing part, where it has
/// both.
pub fn strip_prefix_suffix<'a>(s: &'a str, prefix: &str, suffix: &str) -> (inner: Option<&'a str>)
    ensures
        match inner {
            Some(text) => between(s@, prefix@, suffix@) == Some(text@),
            None => between(s@, prefix@, suffix@) is None,
        },
{
    let chars: Vec<char> = characters(s);
    let opening: Vec<char> = characters(prefix);
    let closing: Vec<char> = characters(suffix);
    if chars.len() < opening.len() || chars.len() - opening.len() < closing.len() {
        return None;
    }
    let mut i: usize = 0;
    while i < opening.len()
        invariant
            i <= opening@.len() <= chars@.len(),
            chars@ == s@,
            opening@ == prefix@,
            forall|j: int| 0 <= j < i ==> chars@[j] == opening@[j],
        decreases opening@.len() - i,
    {
        if chars[i] != opening[i] {
            return None;
        }
        i += 1;
    }
    let to: usize = chars.len() - closing.len();
    let ghost tail = s@.skip(opening@.len() as int);
    let mut i: usize = 0;
    while i < closing.len()
        invariant
            i <= closing@.len() <= chars@.len() - opening@.len(),
            to == chars@.len() - closing@.len(),
            chars@ == s@,
            opening@ == prefix@,
            closing@ == suffix@,
            tail == s@.skip(opening@.len() as int),
            forall|j: int| 0 <= j < i ==> chars@[to + j] == closing@[j],
        decreases closing@.len() - i,
    {
        assert(to + i < chars.len());
        if chars[to + i] != closing[i] {
            assert(tail[tail.len() - closing@.len() + i] == chars@[to + i]);
            return None;
        }
        i += 1;
    }
    assert(prefix@ =~= s@.subrange(0, prefix@.len() as int));
    assert(suffix@ =~= tail.subrange(tail.len() - suffix@.len(), tail.len() as int));
    Some(s.substring_char(opening.len(), to))
}

/// The parts of a text before and behind its last comma.
pub fn split_at_last_comma(text: &str) -> (parts: Option<(&str, &str)>)
    ensures
        match parts {
            Some((head, tail)) => exists|at: int| #[trigger]
                is_last_of(text@, ',', at) && head@ == text@.take(at) && tail@ == text@.skip(
                    at + 1,
                ),
            None => !text@.contains(','),
        },
{
    let chars: Vec<char> = characters(text);
    let mut at: usize = chars.len();
    while at > 0
        invariant
            at <= chars@.len(),
            chars@ == text@,
            forall|j: int| at <= j < chars@.len() ==> chars@[j] != ',',
        decreases at,
    {
        at -= 1;
        if chars[at] == ',' {
            assert(is_last_of(text@, ',', at as int));
            let head: &str = text.substring_char(0, at);
            let tail: &str = text.substring_char(at + 1, chars.len());
            assert(head@ =~= text@.take(at as int));
            assert(tail@ =~= text@.skip(at + 1));
            return Some((head, tail));
        }
    }
    None
}

/// Reads a 32-bit number.
pub fn parse_number(text: &str) -> (n: Option<u32>)
    ensures
        n == number(text@),
{
    let chars: Vec<char> = characters(text);
    let from: usize = if chars.len() != 0 && chars[0] == '+' {
        1
    } else {
        0
    };
    let ghost digits = unsigned_part(text@);
    assert(digits =~= chars@.skip(from as int));
    if from == chars.len() {
        return None;
    }
    let mut total: u32 = 0;
    let mut i: usize = from;
    assert(digits.take(0) =~= Seq::<char>::empty());
    while i < chars.len()
        invariant
            from <= i <= chars@.len(),
            digits == unsigned_part(text@),
            digits == chars@.skip(from as int),
            total == value(digits.take(i - from)),
            all_digits(digits.take(i - from)),
        decreases chars@.len() - i,
    {
        let c: char = chars[i];
        assert(digits[i - from] == c);
        if c < '0' || c > '9' {
            return None;
        }
        let d: u32 = c as u32 - 48;
        let next: u64 = (total as u64) * 10 + d as u64;
        proof {
            let ghost k = i - from;
            assert(digits.take(k + 1).drop_last() =~= digits.take(k));
            assert(digits.take(k + 1).last() == c);
            assert(value(digits.take(k + 1)) == next);
            assert(all_digits(digits.take(k + 1))) by {
                assert forall|j: int| 0 <= j < k + 1 implies '0' <= #[trigger] digits.take(
                    k + 1,
                )[j] <= '9' by {
                    if j < k {
                        assert(digits.take(k)[j] == digits.take(k + 1)[j]);
                    }
                }
            }
            lemma_longer_numbers_are_larger(digits, k + 1);
        }
        if next > 0xffff_ffff {
            return None;
        }
        total = next as u32;
        i += 1;
    }
    assert(digits.take(digits.len() as int) =~= digits);
    Some(total)
}

/// Believed of `str::to_ascii_lowercase`: the copy has each ASCII letter of the
/// text in lower case, and every other character as it is.
pub assume_specification[ str::to_ascii_lowercase ](s: &str) -> (copy: String)
    ensures
        copy@ == lowered(s@),
;

/// What the `Debug` form of a text is: the text in double quotes, with escapes.
pub uninterp spec fn quoted(text: Seq<char>) -> Seq<char>;

/// Wraps `format!` with `{:?}` on a `str`. Believed: the result is a function of
/// the text alone. Which characters are escaped, and how, is left open.
#[verifier::external_body]
pub(crate) fn quote(text: &str) -> (shown: String)
    ensures
        shown@ == quoted(text@),
{
    format!("{:?}", text)
}

/// Lower case changes the capital letters of ASCII alone: each becomes the small
/// letter at its place in the alphabet, and a text in lower case stays as it is.
pub proof fn law_lower_case_changes_capitals_alone(s: Seq<char>, i: int)
    requires
        0 <= i < s.len(),
    ensures
        lowered(s).len() == s.len(),
        'A' <= s[i] <= 'Z' ==> 'a' <= lowered(s)[i] <= 'z' && lowered(s)[i] as int - 'a' as int
            == s[i] as int - 'A' as int,
        !('A' <= s[i] <= 'Z') ==> lowered(s)[i] == s[i],
        lowered(lowered(s)) == lowered(s),
{
    assert(lowered(lowered(s)) =~= lowered(s));
}

/// What a number writes is read back digit by digit: one more digit counts ones,
/// and what stands before it counts tens. A leading plus changes nothing.
pub proof fn law_numbers_read_back(n: nat)
    ensures
        n <= u32::MAX ==> number(decimal(n)) == Some(n as u32) && number(seq!['+'] + decimal(n))
            == Some(n as u32),
        n > u32::MAX ==> number(decimal(n)) is None,
        number(Seq::empty()) is None,
        number(seq!['+']) is None,
{
    lemma_decimal_reads_back(n);
    let plain = decimal(n);
    assert('0' <= plain[0] <= '9');
    let signed = seq!['+'] + plain;
    assert(signed.drop_first() =~= plain);
    assert(seq!['+'].drop_first() =~= Seq::<char>::empty());
}

/// What is trimmed has no white space at its ends, and differs from the text by
/// nothing but white space there.
pub proof fn law_trimming_takes_the_white_space_off(s: Seq<char>)
    ensures
        trimmed(s).len() > 0 ==> !is_blank(trimmed(s)[0]) && !is_blank(trimmed(s).last()),
        exists|from: int, to: int|
            trimmed(s) == #[trigger] s.subrange(from, to) && 0 <= from <= to <= s.len()
                && blank_outside(s, from, to),
{
    let (from, to) = lemma_trimmed_ends(s);
}

/// All of a text but a part of it is white space.
pub open spec fn blank_outside(s: Seq<char>, from: int, to: int) -> bool {
    forall|i: int| 0 <= i < s.len() && !(from <= i < to) ==> is_blank(#[trigger] s[i])
}

proof fn lemma_trimmed_ends(s: Seq<char>) -> (ends: (int, int))
    ensures
        0 <= ends.0 <= ends.1 <= s.len(),
        trimmed(s) == s.subrange(ends.0, ends.1),
        blank_outside(s, ends.0, ends.1),
        trimmed(s).len() > 0 ==> !is_blank(trimmed(s)[0]) && !is_blank(trimmed(s).last()),
    decreases s.len(),
{
    if s.len() != 0 && is_blank(s[0]) {
        let rest = s.drop_first();
        let (from, to) = lemma_trimmed_ends(rest);
        assert(rest.subrange(from, to) =~= s.subrange(from + 1, to + 1));
        assert forall|i: int| 0 <= i < s.len() && !(from + 1 <= i < to + 1) implies is_blank(
            #[trigger] s[i],
        ) by {
            if i > 0 {
                assert(rest[i - 1] == s[i]);
            }
        }
        (from + 1, to + 1)
    } else if s.len() != 0 && is_blank(s.last()) {
        let rest = s.drop_last();
        let (from, to) = lemma_trimmed_ends(rest);
        assert(rest.subrange(from, to) =~= s.subrange(from, to));
        assert forall|i: int| 0 <= i < s.len() && !(from <= i < to) implies is_blank(
            #[trigger] s[i],
        ) by {
            if i < rest.len() {
                assert(rest[i] == s[i]);
            }
        }
        (from, to)
    } else {
        assert(s.subrange(0, s.len() as int) =~= s);
        (0, s.len() as int)
    }
}

/// No visible character of ASCII is white space; a space, a tab and a line break
/// are.
pub proof fn law_visible_characters_are_not_white_space(c: char)
    ensures
        '!' <= c <= '~' ==> !is_blank(c),
        c <= ' ' && is_blank(c) ==> c == ' ' || '\t' <= c <= '\r',
        c == ' ' || '\t' <= c <= '\r' ==> is_blank(c),
{
}

} // verus!
