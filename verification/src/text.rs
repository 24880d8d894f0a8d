//! Character classes, decimal numerals and source lines.
//!
//! Everything here works on sequences of `char`; the lexer and the diagnostic
//! renderer are stated over these definitions.

use vstd::prelude::*;

verus! {

/// `String::push` appends the given character to the end of the string and
/// changes nothing else.
pub assume_specification[ String::push ](s: &mut String, c: char)
    ensures
        final(s)@ == old(s)@.push(c),
;

/// An ASCII decimal digit.
pub open spec fn is_digit_spec(c: char) -> bool {
    '0' <= c <= '9'
}

/// An ASCII letter.
pub open spec fn is_letter_spec(c: char) -> bool {
    ('a' <= c <= 'z') || ('A' <= c <= 'Z')
}

/// A character that may begin an identifier or keyword.
pub open spec fn starts_word_spec(c: char) -> bool {
    is_letter_spec(c) || c == '_'
}

/// A character that may continue an identifier or keyword.
pub open spec fn continues_word_spec(c: char) -> bool {
    is_letter_spec(c) || is_digit_spec(c) || c == '_'
}

#[verifier::when_used_as_spec(is_digit_spec)]
pub fn is_digit(c: char) -> (b: bool)
    ensures
        b == is_digit_spec(c),
{
    '0' <= c && c <= '9'
}

#[verifier::when_used_as_spec(is_letter_spec)]
pub fn is_letter(c: char) -> (b: bool)
    ensures
        b == is_letter_spec(c),
{
    ('a' <= c && c <= 'z') || ('A' <= c && c <= 'Z')
}

#[verifier::when_used_as_spec(starts_word_spec)]
pub fn starts_word(c: char) -> (b: bool)
    ensures
        b == starts_word_spec(c),
{
    is_letter(c) || c == '_'
}

#[verifier::when_used_as_spec(continues_word_spec)]
pub fn continues_word(c: char) -> (b: bool)
    ensures
        b == continues_word_spec(c),
{
    is_letter(c) || is_digit(c) || c == '_'
}

/// The number a decimal digit stands for.
pub open spec fn digit_to_int(c: char) -> int {
    c as int - '0' as int
}

/// The number a decimal digit stands for.
pub fn digit_value(c: char) -> (d: i64)
    requires
        is_digit(c),
    ensures
        d == digit_to_int(c),
        0 <= d <= 9,
{
    (c as u32 - '0' as u32) as i64
}

/// The decimal digit that stands for `d`.
pub open spec fn int_to_digit(d: int) -> char
    recommends
        0 <= d <= 9,
{
    (d + '0' as int) as char
}

/// The decimal digit that stands for `d`.
pub fn digit_char(d: u8) -> (c: char)
    requires
        d <= 9,
    ensures
        c == int_to_digit(d as int),
        is_digit(c),
        digit_to_int(c) == d,
{
    (d + 48u8) as char
}

/// Length of the longest prefix of `s` made of decimal digits.
pub open spec fn digit_run(s: Seq<char>) -> nat
    decreases s.len(),
{
    if s.len() > 0 && is_digit(s[0]) {
        1 + digit_run(s.skip(1))
    } else {
        0
    }
}

/// Length of the longest prefix of `s` made of letters, digits and `_`.
pub open spec fn word_run(s: Seq<char>) -> nat
    decreases s.len(),
{
    if s.len() > 0 && continues_word(s[0]) {
        1 + word_run(s.skip(1))
    } else {
        0
    }
}

/// The number that a sequence of decimal digits denotes, most significant
/// digit first. The empty sequence denotes zero.
pub open spec fn digits_value(s: Seq<char>) -> nat
    decreases s.len(),
{
    if s.len() == 0 {
        0
    } else {
        (digits_value(s.drop_last()) * 10 + digit_to_int(s.last())) as nat
    }
}

/// The shortest decimal numeral of a natural number.
pub open spec fn decimal_nat(n: nat) -> Seq<char>
    decreases n,
{
    if n < 10 {
        seq![int_to_digit(n as int)]
    } else {
        decimal_nat(n / 10).push(int_to_digit((n % 10) as int))
    }
}

/// The decimal numeral of an integer, with a leading `-` when negative.
pub open spec fn decimal(n: int) -> Seq<char> {
    if n < 0 {
        seq!['-'] + decimal_nat((-n) as nat)
    } else {
        decimal_nat(n as nat)
    }
}

/// The decimal numeral of a natural number consists of digits and denotes
/// that number.
pub proof fn lemma_decimal_denotes(n: nat)
    ensures
        decimal_nat(n).len() >= 1,
        forall|i: int| 0 <= i < decimal_nat(n).len() ==> is_digit(#[trigger] decimal_nat(n)[i]),
        digits_value(decimal_nat(n)) == n,
    decreases n,
{
    let numeral = decimal_nat(n);
    if n < 10 {
        assert(numeral.drop_last() == Seq::<char>::empty());
        assert(digits_value(Seq::<char>::empty()) == 0);
    } else {
        lemma_decimal_denotes(n / 10);
        assert(numeral.drop_last() == decimal_nat(n / 10));
    }
}

/// The longest run of digits lies within the sequence, consists of digits
/// and is followed by no digit.
pub proof fn lemma_digit_run_bound(s: Seq<char>)
    ensures
        digit_run(s) <= s.len(),
        forall|i: int| 0 <= i < digit_run(s) ==> is_digit(#[trigger] s[i]),
        digit_run(s) < s.len() ==> !is_digit(s[digit_run(s) as int]),
    decreases s.len(),
{
    if s.len() > 0 && is_digit(s[0]) {
        let t = s.skip(1);
        lemma_digit_run_bound(t);
        assert forall|i: int| 0 <= i < digit_run(s) implies is_digit(#[trigger] s[i]) by {
            if i > 0 {
                assert(s[i] == t[i - 1]);
            }
        }
    }
}

/// The longest run of word characters lies within the sequence, consists of
/// word characters and is followed by none.
pub proof fn lemma_word_run_bound(s: Seq<char>)
    ensures
        word_run(s) <= s.len(),
        forall|i: int| 0 <= i < word_run(s) ==> continues_word(#[trigger] s[i]),
        word_run(s) < s.len() ==> !continues_word(s[word_run(s) as int]),
    decreases s.len(),
{
    if s.len() > 0 && continues_word(s[0]) {
        let t = s.skip(1);
        lemma_word_run_bound(t);
        assert forall|i: int| 0 <= i < word_run(s) implies continues_word(#[trigger] s[i]) by {
            if i > 0 {
                assert(s[i] == t[i - 1]);
            }
        }
    }
}

/// A run of `k` digits that ends the sequence or is followed by a
/// character that is no digit is the longest one.
pub proof fn lemma_digit_run_is(s: Seq<char>, k: int)
    requires
        0 <= k <= s.len(),
        forall|i: int| 0 <= i < k ==> is_digit(#[trigger] s[i]),
        k < s.len() ==> !is_digit(s[k]),
    ensures
        digit_run(s) == k,
    decreases k,
{
    if k > 0 {
        lemma_digit_run_is(s.skip(1), k - 1);
    }
}

/// A run of `k` word characters that ends the sequence or is followed by a
/// character that continues no word is the longest one.
pub proof fn lemma_word_run_is(s: Seq<char>, k: int)
    requires
        0 <= k <= s.len(),
        forall|i: int| 0 <= i < k ==> continues_word(#[trigger] s[i]),
        k < s.len() ==> !continues_word(s[k]),
    ensures
        word_run(s) == k,
    decreases k,
{
    if k > 0 {
        lemma_word_run_is(s.skip(1), k - 1);
    }
}

/// The characters of a string slice.
pub fn chars_of(s: &str) -> (v: Vec<char>)
    ensures
        v@ == s@,
{
    let mut v: Vec<char> = Vec::new();
    for c in it: s.chars()
        invariant
            v@ == it.seq().take(it.index() as int),
            it.seq() == s@,
    {
        v.push(c);
    }
    v
}

/// Appends the decimal numeral of `n` to `out`.
pub fn push_decimal(out: &mut String, n: i64)
    ensures
        final(out)@ == old(out)@ + decimal(n as int),
{
    let mut rest: u64 = if n < 0 {
        out.push('-');
        (-(n as i128)) as u64
    } else {
        n as u64
    };
    let ghost magnitude = rest as nat;
    let ghost head = out@;
    let mut reversed: Vec<char> = Vec::new();
    reversed.push(digit_char((rest % 10) as u8));
    rest = rest / 10;
    while rest > 0
        invariant
            reversed.len() >= 1,
            rest == 0 ==> reversed@.reverse() == decimal_nat(magnitude),
            rest > 0 ==> decimal_nat(rest as nat) + reversed@.reverse() == decimal_nat(magnitude),
        decreases rest,
    {
        reversed.push(digit_char((rest % 10) as u8));
        rest = rest / 10;
    }
    let mut i: usize = reversed.len();
    while i > 0
        invariant
            i <= reversed.len(),
            out@ == head + reversed@.reverse().take(reversed.len() - i),
        decreases i,
    {
        i -= 1;
        out.push(reversed[i]);
    }
}

/// `count` copies of `c`.
pub open spec fn repeated(c: char, count: int) -> Seq<char> {
    Seq::new(
        if count > 0 {
            count as nat
        } else {
            0
        },
        |i: int| c,
    )
}

/// Appends `count` copies of `c` to `out`.
pub fn push_repeated(out: &mut String, c: char, count: usize)
    ensures
        final(out)@ == old(out)@ + repeated(c, count as int),
{
    let mut i: usize = 0;
    while i < count
        invariant
            i <= count,
            out@ == old(out)@ + repeated(c, i as int),
        decreases count - i,
    {
        out.push(c);
        i += 1;
    }
}

/// Number of characters before the first line feed of `s`, or the length of
/// `s` when it has none.
pub open spec fn line_len(s: Seq<char>) -> nat
    decreases s.len(),
{
    if s.len() > 0 && s[0] != '\n' {
        1 + line_len(s.skip(1))
    } else {
        0
    }
}

/// `k` characters without a line feed that end the sequence or are followed
/// by a line feed are the first line.
pub proof fn lemma_line_len_is(s: Seq<char>, k: int)
    requires
        0 <= k <= s.len(),
        forall|i: int| 0 <= i < k ==> #[trigger] s[i] != '\n',
        k < s.len() ==> s[k] == '\n',
    ensures
        line_len(s) == k,
    decreases k,
{
    if k > 0 {
        lemma_line_len_is(s.skip(1), k - 1);
    }
}

/// A line without its line ending: `segment` is what stands before the line
/// feed, if `terminated`, or before the end of the text. A carriage return
/// directly before the line feed belongs to the line ending.
pub open spec fn without_line_ending(segment: Seq<char>, terminated: bool) -> Seq<char> {
    if terminated && segment.len() > 0 && segment.last() == '\r' {
        segment.drop_last()
    } else {
        segment
    }
}

/// The text of line number `line` of `s`, the first line being number one.
/// Lines are separated by line feeds; the text of a line that `s` does not
/// have is empty.
pub open spec fn line_text(s: Seq<char>, line: int) -> Seq<char>
    decreases s.len(),
{
    let n = line_len(s);
    if line < 1 {
        Seq::empty()
    } else if line == 1 {
        without_line_ending(s.take(n as int), n < s.len())
    } else if n < s.len() {
        line_text(s.skip(n as int + 1), line - 1)
    } else {
        Seq::empty()
    }
}

/// The index of the first line feed at or after `from`, or the length of
/// `chars` when there is none.
fn find_line_end(chars: &Vec<char>, from: usize) -> (end: usize)
    requires
        from <= chars.len(),
    ensures
        from <= end <= chars.len(),
        end - from == line_len(chars@.skip(from as int)),
{
    let mut end = from;
    while end < chars.len() && chars[end] != '\n'
        invariant
            from <= end <= chars.len(),
            forall|i: int| from <= i < end ==> chars[i] != '\n',
        decreases chars.len() - end,
    {
        end += 1;
    }
    proof {
        let s = chars@.skip(from as int);
        lemma_line_len_is(s, end - from);
    }
    end
}

/// The text of line number `line` of `chars`.
pub fn source_line(chars: &Vec<char>, line: i32) -> (text: String)
    ensures
        text@ == line_text(chars@, line as int),
{
    let mut text = String::new();
    if line < 1 {
        return text;
    }
    let mut start: usize = 0;
    let mut ahead: i32 = line;
    assert(chars@.skip(0) == chars@);
    while ahead > 1
        invariant
            start <= chars.len(),
            1 <= ahead <= line,
            text@ == Seq::<char>::empty(),
            line_text(chars@, line as int) == line_text(chars@.skip(start as int), ahead as int),
        decreases ahead,
    {
        let end = find_line_end(chars, start);
        if end == chars.len() {
            return text;
        }
        assert(chars@.skip(start as int).skip(end - start + 1) == chars@.skip(end + 1));
        start = end + 1;
        ahead -= 1;
    }
    let end = find_line_end(chars, start);
    let stop = if end < chars.len() && end > start && chars[end - 1] == '\r' {
        end - 1
    } else {
        end
    };
    let mut i = start;
    while i < stop
        invariant
            start <= i <= stop <= chars.len(),
            text@ == chars@.subrange(start as int, i as int),
        decreases stop - i,
    {
        text.push(chars[i]);
        i += 1;
    }
    text
}

/// Number of line feeds in `s`: a text has one line more than it has line
/// feeds.
pub open spec fn line_feeds(s: Seq<char>) -> nat
    decreases s.len(),
{
    if s.len() == 0 {
        0
    } else if s[0] == '\n' {
        1 + line_feeds(s.skip(1))
    } else {
        line_feeds(s.skip(1))
    }
}

/// Leaving out leading characters that are no line feeds leaves the number
/// of line feeds as it is.
pub proof fn lemma_line_feeds_skip(s: Seq<char>, n: int)
    requires
        0 <= n <= s.len(),
        forall|i: int| 0 <= i < n ==> #[trigger] s[i] != '\n',
    ensures
        line_feeds(s.skip(n)) == line_feeds(s),
    decreases n,
{
    if n > 0 {
        let t = s.skip(1);
        lemma_line_feeds_skip(t, n - 1);
        assert(t.skip(n - 1) == s.skip(n));
    } else {
        assert(s.skip(0) == s);
    }
}

} // verus!
