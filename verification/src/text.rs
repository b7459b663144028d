//! Text handling shared by the tokenizer and the parser: byte spans of a
//! line, white space, and decimal digits.
//!
//! A line is a `&str`; positions in it are byte offsets into its UTF-8
//! encoding, as the pattern searches report them.

use vstd::prelude::*;
use vstd::string::*;
use vstd::utf8::*;

verus! {

/// Length in bytes of the UTF-8 encoding of `text`.
pub open spec fn byte_len(text: Seq<char>) -> nat {
    encode_utf8(text).len()
}

/// `first..last` is a range of byte offsets into `text` whose two ends fall
/// between characters.
pub open spec fn is_span(text: Seq<char>, first: int, last: int) -> bool {
    &&& 0 <= first <= last <= byte_len(text)
    &&& is_char_boundary(encode_utf8(text), first)
    &&& is_char_boundary(encode_utf8(text), last)
}

/// The characters that the bytes `first..last` of `text` encode.
pub open spec fn slice_text(text: Seq<char>, first: int, last: int) -> Seq<char> {
    decode_utf8(encode_utf8(text).subrange(first, last))
}

/// A character boundary of a text is also one of every prefix that reaches it.
pub proof fn lemma_boundary_in_prefix(bytes: Seq<u8>, first: int, last: int)
    requires
        valid_utf8(bytes),
        0 <= first <= last <= bytes.len(),
        is_char_boundary(bytes, first),
        is_char_boundary(bytes, last),
    ensures
        valid_utf8(bytes.subrange(0, last)),
        is_char_boundary(bytes.subrange(0, last), first),
{
    let head = bytes.subrange(0, last);
    valid_utf8_split(bytes, last);
    if first == last {
        is_char_boundary_start_end_of_seq(head);
    } else if first > 0 {
        is_char_boundary_iff_not_is_continuation_byte(bytes, first);
        is_char_boundary_iff_not_is_continuation_byte(head, first);
    }
}

/// Number of bytes in `line`.
pub fn line_len(line: &str) -> (n: usize)
    ensures
        n == byte_len(line@),
{
    line.as_bytes().len()
}

/// The text between two byte offsets of `line`, as an owned string.
pub fn split_range(first: &usize, last: &usize, line: &str) -> (out: String)
    requires
        is_span(line@, *first as int, *last as int),
    ensures
        out@ == slice_text(line@, *first as int, *last as int),
{
    broadcast use group_utf8_lib;

    let ghost bytes = line.spec_bytes();
    proof {
        lemma_boundary_in_prefix(bytes, *first as int, *last as int);
    }
    let (head, _) = line.split_at(*last);
    let (_, middle) = head.split_at(*first);
    assert(middle.spec_bytes() =~= bytes.subrange(*first as int, *last as int));
    assert(decode_utf8(encode_utf8(middle@)) == middle@);
    middle.to_owned()
}

/// The text of `line` before byte offset `pos`.
pub fn text_before(line: &str, pos: usize) -> (out: &str)
    requires
        is_span(line@, 0, pos as int),
    ensures
        out@ == slice_text(line@, 0, pos as int),
{
    broadcast use group_utf8_lib;

    let (head, _) = line.split_at(pos);
    assert(decode_utf8(encode_utf8(head@)) == head@);
    head
}

/// The text of `line` from byte offset `pos` on.
pub fn text_after(line: &str, pos: usize) -> (out: &str)
    requires
        is_span(line@, pos as int, byte_len(line@) as int),
    ensures
        out@ == slice_text(line@, pos as int, byte_len(line@) as int),
{
    broadcast use group_utf8_lib;

    let (_, tail) = line.split_at(pos);
    assert(decode_utf8(encode_utf8(tail@)) == tail@);
    tail
}

/// The code points with the Unicode property White_Space.
pub open spec fn is_white_space(c: char) -> bool {
    let u = c as u32;
    ||| 0x09 <= u <= 0x0D
    ||| u == 0x20
    ||| u == 0x85
    ||| u == 0xA0
    ||| u == 0x1680
    ||| 0x2000 <= u <= 0x200A
    ||| u == 0x2028
    ||| u == 0x2029
    ||| u == 0x202F
    ||| u == 0x205F
    ||| u == 0x3000
}

/// Tests a character for the property White_Space.
pub fn is_space(c: char) -> (b: bool)
    ensures
        b == is_white_space(c),
{
    let u: u32 = c as u32;
    (0x09 <= u && u <= 0x0D) || u == 0x20 || u == 0x85 || u == 0xA0 || u == 0x1680 || (0x2000 <= u
        && u <= 0x200A) || u == 0x2028 || u == 0x2029 || u == 0x202F || u == 0x205F || u
        == 0x3000
}

/// Number of white-space characters at the start of `s`.
pub open spec fn leading_white(s: Seq<char>) -> nat
    decreases s.len(),
{
    if s.len() == 0 || !is_white_space(s.first()) {
        0
    } else {
        1 + leading_white(s.drop_first())
    }
}

/// Number of white-space characters at the end of `s`.
pub open spec fn trailing_white(s: Seq<char>) -> nat
    decreases s.len(),
{
    if s.len() == 0 || !is_white_space(s.last()) {
        0
    } else {
        1 + trailing_white(s.drop_last())
    }
}

/// `s` without the white space at its start and at its end.
pub open spec fn trimmed(s: Seq<char>) -> Seq<char> {
    let rest = s.skip(leading_white(s) as int);
    rest.take(rest.len() - trailing_white(rest))
}

/// `k` white-space characters followed by the end or by another character
/// are exactly the leading white space.
pub proof fn lemma_leading_white(s: Seq<char>, k: int)
    requires
        0 <= k <= s.len(),
        forall|j: int| 0 <= j < k ==> is_white_space(#[trigger] s[j]),
        k < s.len() ==> !is_white_space(s[k]),
    ensures
        leading_white(s) == k,
    decreases k,
{
    if k > 0 {
        let rest = s.drop_first();
        assert forall|j: int| 0 <= j < k - 1 implies is_white_space(#[trigger] rest[j]) by {
            assert(rest[j] == s[j + 1]);
        }
        lemma_leading_white(rest, k - 1);
    }
}

/// The same at the end of the text.
pub proof fn lemma_trailing_white(s: Seq<char>, k: int)
    requires
        0 <= k <= s.len(),
        forall|j: int| s.len() - k <= j < s.len() ==> is_white_space(#[trigger] s[j]),
        k < s.len() ==> !is_white_space(s[s.len() - k - 1]),
    ensures
        trailing_white(s) == k,
    decreases k,
{
    if k > 0 {
        let rest = s.drop_last();
        assert forall|j: int| rest.len() - (k - 1) <= j < rest.len() implies is_white_space(
            #[trigger] rest[j],
        ) by {
            assert(rest[j] == s[j]);
        }
        lemma_trailing_white(rest, k - 1);
    }
}

/// What trimming leaves neither starts nor ends with white space, and it is
/// empty exactly when the text holds nothing but white space.
pub proof fn lemma_trimmed(s: Seq<char>)
    ensures
        trimmed(s).len() > 0 ==> !is_white_space(trimmed(s).first()) && !is_white_space(
            trimmed(s).last(),
        ),
        trimmed(s).len() == 0 <==> (forall|j: int| 0 <= j < s.len() ==> is_white_space(s[j])),
        trimmed(s).len() <= s.len(),
{
    lemma_leading_bound(s);
    let lo = leading_white(s) as int;
    let rest = s.skip(lo);
    lemma_trailing_bound(rest);
    let k = trailing_white(rest) as int;
    if trimmed(s).len() == 0 {
        assert forall|j: int| 0 <= j < s.len() implies is_white_space(s[j]) by {
            if j >= lo {
                assert(s[j] == rest[j - lo]);
            }
        }
    } else {
        assert(trimmed(s).first() == rest[0]);
        assert(rest[0] == s[lo]);
        assert(trimmed(s).last() == rest[rest.len() - k - 1]);
    }
}

/// The leading white space is white, and what follows it is not.
pub proof fn lemma_leading_bound(s: Seq<char>)
    ensures
        leading_white(s) <= s.len(),
        forall|j: int| 0 <= j < leading_white(s) ==> is_white_space(#[trigger] s[j]),
        leading_white(s) < s.len() ==> !is_white_space(s[leading_white(s) as int]),
    decreases s.len(),
{
    if s.len() == 0 || !is_white_space(s.first()) {
    } else {
        let rest = s.drop_first();
        lemma_leading_bound(rest);
        assert forall|j: int| 0 <= j < leading_white(s) implies is_white_space(#[trigger] s[j]) by {
            if j > 0 {
                assert(s[j] == rest[j - 1]);
            }
        }
        if leading_white(s) < s.len() {
            assert(s[leading_white(s) as int] == rest[leading_white(rest) as int]);
        }
    }
}

/// The trailing white space is white, and what precedes it is not.
pub proof fn lemma_trailing_bound(s: Seq<char>)
    ensures
        trailing_white(s) <= s.len(),
        forall|j: int|
            s.len() - trailing_white(s) <= j < s.len() ==> is_white_space(#[trigger] s[j]),
        trailing_white(s) < s.len() ==> !is_white_space(s[s.len() - trailing_white(s) - 1]),
    decreases s.len(),
{
    if s.len() == 0 || !is_white_space(s.last()) {
    } else {
        let rest = s.drop_last();
        lemma_trailing_bound(rest);
        assert forall|j: int| s.len() - trailing_white(s) <= j < s.len() implies is_white_space(
            #[trigger] s[j],
        ) by {
            if j < s.len() - 1 {
                assert(s[j] == rest[j]);
            }
        }
        if trailing_white(s) < s.len() {
            assert(s[s.len() - trailing_white(s) - 1] == rest[rest.len() - trailing_white(rest)
                - 1]);
        }
    }
}

/// Removes the white space at both ends of `text`.
pub fn trim(text: &str) -> (out: String)
    ensures
        out@ == trimmed(text@),
{
    let n = text.unicode_len();
    let mut lo: usize = 0;
    while lo < n && is_space(text.get_char(lo))
        invariant
            lo <= n,
            n == text@.len(),
            forall|j: int| 0 <= j < lo ==> is_white_space(#[trigger] text@[j]),
        decreases n - lo,
    {
        lo += 1;
    }
    proof {
        lemma_leading_white(text@, lo as int);
    }
    let ghost rest = text@.skip(lo as int);
    let mut hi: usize = n;
    while hi > lo && is_space(text.get_char(hi - 1))
        invariant
            lo <= hi <= n,
            n == text@.len(),
            forall|j: int| hi <= j < n ==> is_white_space(#[trigger] text@[j]),
        decreases hi,
    {
        hi -= 1;
    }
    proof {
        assert forall|j: int| rest.len() - (n - hi) <= j < rest.len() implies is_white_space(
            #[trigger] rest[j],
        ) by {
            assert(rest[j] == text@[j + lo]);
        }
        if hi > lo {
            assert(rest[rest.len() - (n - hi) - 1] == text@[hi - 1]);
        } else {
            assert(n - hi == rest.len());
        }
        lemma_trailing_white(rest, n - hi);
        assert(text@.subrange(lo as int, hi as int) =~= trimmed(text@));
    }
    text.substring_char(lo, hi).to_owned()
}

/// A decimal digit.
pub open spec fn is_digit(c: char) -> bool {
    '0' <= c <= '9'
}

/// The number that a decimal digit stands for.
pub open spec fn digit_value(c: char) -> int {
    c as int - '0' as int
}

/// Tests a character for a decimal digit.
pub fn is_decimal_digit(c: char) -> (b: bool)
    ensures
        b == is_digit(c),
{
    '0' <= c && c <= '9'
}

/// Every character is a decimal digit.
pub open spec fn all_digits(s: Seq<char>) -> bool {
    forall|i: int| 0 <= i < s.len() ==> is_digit(#[trigger] s[i])
}

/// The number that a sequence of decimal digits writes; 0 for none.
pub open spec fn decimal_value(s: Seq<char>) -> int
    decreases s.len(),
{
    if s.len() == 0 {
        0
    } else {
        decimal_value(s.drop_last()) * 10 + digit_value(s.last())
    }
}

/// The text without its underscores.
pub open spec fn without_underscores(s: Seq<char>) -> Seq<char>
    decreases s.len(),
{
    if s.len() == 0 {
        s
    } else if s.last() == '_' {
        without_underscores(s.drop_last())
    } else {
        without_underscores(s.drop_last()).push(s.last())
    }
}

/// Copies a text, leaving out its underscores.
pub fn strip_underscores(text: &str) -> (out: String)
    ensures
        out@ == without_underscores(text@),
{
    let n = text.unicode_len();
    let mut out = String::new();
    let mut i: usize = 0;
    while i < n
        invariant
            i <= n,
            n == text@.len(),
            out@ == without_underscores(text@.take(i as int)),
        decreases n - i,
    {
        proof {
            assert(text@.take(i + 1).drop_last() == text@.take(i as int));
        }
        if text.get_char(i) != '_' {
            let piece = text.substring_char(i, i + 1);
            assert(piece@ =~= seq![text@[i as int]]);
            out.append(piece);
        }
        i += 1;
    }
    proof {
        assert(text@.take(n as int) == text@);
    }
    out
}

/// The decimal digit for a number below ten.
pub open spec fn digit_char(d: nat) -> char {
    if d == 0 {
        '0'
    } else if d == 1 {
        '1'
    } else if d == 2 {
        '2'
    } else if d == 3 {
        '3'
    } else if d == 4 {
        '4'
    } else if d == 5 {
        '5'
    } else if d == 6 {
        '6'
    } else if d == 7 {
        '7'
    } else if d == 8 {
        '8'
    } else {
        '9'
    }
}

/// A number written in decimal digits, without leading zeros.
pub open spec fn decimal_text(n: nat) -> Seq<char>
    decreases n,
{
    if n < 10 {
        seq![digit_char(n)]
    } else {
        decimal_text(n / 10).push(digit_char(n % 10))
    }
}

/// The digit for a number below ten, as a text.
fn digit_text(d: usize) -> (out: &'static str)
    requires
        d < 10,
    ensures
        out@ == seq![digit_char(d as nat)],
{
    proof {
        reveal_strlit("0");
        reveal_strlit("1");
        reveal_strlit("2");
        reveal_strlit("3");
        reveal_strlit("4");
        reveal_strlit("5");
        reveal_strlit("6");
        reveal_strlit("7");
        reveal_strlit("8");
        reveal_strlit("9");
    }
    let out = if d == 0 {
        "0"
    } else if d == 1 {
        "1"
    } else if d == 2 {
        "2"
    } else if d == 3 {
        "3"
    } else if d == 4 {
        "4"
    } else if d == 5 {
        "5"
    } else if d == 6 {
        "6"
    } else if d == 7 {
        "7"
    } else if d == 8 {
        "8"
    } else {
        "9"
    };
    assert(out@ =~= seq![digit_char(d as nat)]);
    out
}

/// Writes a number in decimal digits.
pub fn decimal(n: usize) -> (out: String)
    ensures
        out@ == decimal_text(n as nat),
    decreases n,
{
    if n < 10 {
        String::from_str(digit_text(n))
    } else {
        let mut out = decimal(n / 10);
        out.append(digit_text(n % 10));
        assert(out@ =~= decimal_text((n / 10) as nat).push(digit_char((n % 10) as nat)));
        out
    }
}

/// What is written in decimal digits reads back as the same number.
pub proof fn lemma_decimal_round_trip(n: nat)
    ensures
        all_digits(decimal_text(n)),
        decimal_value(decimal_text(n)) == n,
    decreases n,
{
    if n < 10 {
        assert(decimal_text(n).drop_last() =~= Seq::<char>::empty());
        assert(decimal_value(decimal_text(n)) == decimal_value(Seq::<char>::empty()) * 10
            + digit_value(digit_char(n)));
    } else {
        lemma_decimal_round_trip(n / 10);
        let text = decimal_text(n);
        assert(text.drop_last() =~= decimal_text(n / 10));
        assert(text.last() == digit_char(n % 10));
        assert forall|i: int| 0 <= i < text.len() implies is_digit(#[trigger] text[i]) by {
            if i < text.len() - 1 {
                assert(text[i] == decimal_text(n / 10)[i]);
            }
        }
    }
}

} // verus!
