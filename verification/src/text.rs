//! Texts: taking them in, writing numbers into them and reading numbers out.
use vstd::prelude::*;

verus! {

/// `String::push`: appends one character at the end of the text.
pub assume_specification[ String::push ](s: &mut String, c: char)
    ensures
        final(s)@ == old(s)@.push(c),
;

/// What can be turned into an owned text.
pub trait IntoText: Sized {
    spec fn text(&self) -> Seq<char>;

    fn into_text(self) -> (text: String)
        ensures
            text@ == self.text(),
    ;
}

impl<'a> IntoText for &'a str {
    open spec fn text(&self) -> Seq<char> {
        self@
    }

    fn into_text(self) -> (text: String) {
        self.to_owned()
    }
}

impl IntoText for String {
    open spec fn text(&self) -> Seq<char> {
        self@
    }

    fn into_text(self) -> (text: String) {
        self
    }
}

/// The decimal digit of a number below ten.
pub open spec fn digit(d: nat) -> char {
    (48 + d) as char
}

/// A number written in decimal, without leading zeros.
pub open spec fn decimal(n: nat) -> Seq<char>
    decreases n,
{
    if n < 10 {
        seq![digit(n)]
    } else {
        decimal(n / 10).push(digit(n % 10))
    }
}

fn digit_char(d: u64) -> (c: char)
    requires
        d < 10,
    ensures
        c == digit(d as nat),
{
    (48 + d as u8) as char
}

/// Writes a number in decimal.
pub fn decimal_text(n: u64) -> (text: String)
    ensures
        text@ == decimal(n as nat),
    decreases n,
{
    if n < 10 {
        let mut text = String::new();
        text.push(digit_char(n));
        assert(text@ =~= seq![digit(n as nat)]);
        text
    } else {
        let mut text = decimal_text(n / 10);
        text.push(digit_char(n % 10));
        text
    }
}

/// The characters of a text.
pub fn chars_of(text: &str) -> (chars: Vec<char>)
    ensures
        chars@ == text@,
{
    let mut chars: Vec<char> = Vec::new();
    for c in it: text.chars()
        invariant
            it.seq() == text@,
            chars@ == it.seq().take(it.index() as int),
    {
        chars.push(c);
        assert(chars@ =~= it.seq().take(it.index() + 1));
    }
    assert(text@.take(text@.len() as int) =~= text@);
    chars
}

/// The text made of the given characters.
pub fn text_of(chars: &Vec<char>) -> (text: String)
    ensures
        text@ == chars@,
{
    let mut text = String::new();
    let mut i: usize = 0;
    while i < chars.len()
        invariant
            i <= chars@.len(),
            text@ == chars@.subrange(0, i as int),
        decreases chars@.len() - i,
    {
        text.push(chars[i]);
        assert(chars@.subrange(0, i + 1) =~= chars@.subrange(0, i as int).push(chars@[i as int]));
        i += 1;
    }
    assert(chars@.subrange(0, i as int) =~= chars@);
    text
}

/// Whether a character is a decimal digit.
pub open spec fn is_digit(c: char) -> bool {
    '0' <= c <= '9'
}

/// Whether a text is made of decimal digits, at least one of them.
pub open spec fn all_digits(s: Seq<char>) -> bool {
    s.len() > 0 && forall|i: int| 0 <= i < s.len() ==> is_digit(#[trigger] s[i])
}

/// The number that a text of decimal digits writes.
pub open spec fn digits_value(s: Seq<char>) -> nat
    decreases s.len(),
{
    if s.len() == 0 {
        0
    } else {
        digits_value(s.drop_last()) * 10 + (s.last() as nat - 48) as nat
    }
}

/// The number below 2^32 that a text writes: an optional `+`, then decimal
/// digits, at least one.
pub open spec fn number(s: Seq<char>) -> Option<u32> {
    let digits = if s.len() > 0 && s[0] == '+' {
        s.drop_first()
    } else {
        s
    };
    if all_digits(digits) && digits_value(digits) <= u32::MAX {
        Some(digits_value(digits) as u32)
    } else {
        None
    }
}

proof fn lemma_digits_value_monotone(s: Seq<char>, i: int)
    requires
        0 <= i <= s.len(),
        forall|j: int| 0 <= j < s.len() ==> is_digit(#[trigger] s[j]),
    ensures
        digits_value(s.subrange(0, i)) <= digits_value(s),
    decreases s.len() - i,
{
    if i < s.len() {
        lemma_digits_value_monotone(s, i + 1);
        let longer = s.subrange(0, i + 1);
        assert(longer.drop_last() =~= s.subrange(0, i));
        assert(is_digit(s[i]));
    } else {
        assert(s.subrange(0, i) =~= s);
    }
}

/// Reads a number below 2^32 written in decimal.
pub fn parse_number(chars: &Vec<char>) -> (n: Option<u32>)
    ensures
        n == number(chars@),
{
    let start: usize = if chars.len() > 0 && chars[0] == '+' { 1 } else { 0 };
    let ghost digits = chars@.subrange(start as int, chars@.len() as int);
    proof {
        if chars@.len() > 0 && chars@[0] == '+' {
            assert(digits =~= chars@.drop_first());
        } else {
            assert(digits =~= chars@);
        }
    }
    if start == chars.len() {
        return None;
    }
    let mut all: bool = true;
    let mut i: usize = start;
    while i < chars.len()
        invariant
            start <= i <= chars@.len(),
            digits == chars@.subrange(start as int, chars@.len() as int),
            all ==> forall|j: int| 0 <= j < i - start ==> is_digit(#[trigger] digits[j]),
            !all ==> exists|j: int| 0 <= j < digits.len() && !is_digit(#[trigger] digits[j]),
        decreases chars@.len() - i,
    {
        assert(digits[i - start] == chars@[i as int]);
        if chars[i] < '0' || chars[i] > '9' {
            all = false;
        }
        i += 1;
    }
    if !all {
        return None;
    }
    assert(all_digits(digits));
    let mut value: u64 = 0;
    let mut k: usize = start;
    assert(digits.subrange(0, 0) =~= Seq::empty());
    while k < chars.len()
        invariant
            start <= k <= chars@.len(),
            digits == chars@.subrange(start as int, chars@.len() as int),
            all_digits(digits),
            value == digits_value(digits.subrange(0, k - start)),
            value <= u32::MAX,
            number(chars@) == (if digits_value(digits) <= u32::MAX {
                Some(digits_value(digits) as u32)
            } else {
                None::<u32>
            }),
        decreases chars@.len() - k,
    {
        proof {
            let longer = digits.subrange(0, k - start + 1);
            assert(longer.drop_last() =~= digits.subrange(0, k - start));
            assert(longer.last() == chars@[k as int]);
            assert(is_digit(digits[k - start]));
            lemma_digits_value_monotone(digits, k - start + 1);
        }
        value = value * 10 + (chars[k] as u64 - 48);
        if value > 4294967295 {
            return None;
        }
        k += 1;
    }
    assert(digits.subrange(0, k - start) =~= digits);
    Some(value as u32)
}


/// Where a character first stands in a text: at its length, where it does not.
pub open spec fn find(s: Seq<char>, c: char) -> int
    decreases s.len(),
{
    if s.len() == 0 || s[0] == c {
        0
    } else {
        1 + find(s.drop_first(), c)
    }
}

/// Before the place that [`find`] gives the character does not stand, and at
/// that place it does.
pub proof fn lemma_find(s: Seq<char>, c: char)
    ensures
        0 <= find(s, c) <= s.len(),
        find(s, c) < s.len() ==> s[find(s, c)] == c,
        forall|j: int| 0 <= j < find(s, c) ==> s[j] != c,
    decreases s.len(),
{
    if s.len() > 0 && s[0] != c {
        let rest = s.drop_first();
        lemma_find(rest, c);
        assert forall|j: int| 0 <= j < find(s, c) implies s[j] != c by {
            if j > 0 {
                assert(rest[j - 1] == s[j]);
            }
        }
    }
}

/// The first place at which a character stands is the one that [`find`] gives.
pub proof fn lemma_found(s: Seq<char>, c: char, i: int)
    requires
        0 <= i <= s.len(),
        i < s.len() ==> s[i] == c,
        forall|j: int| 0 <= j < i ==> s[j] != c,
    ensures
        find(s, c) == i,
{
    lemma_find(s, c);
    if find(s, c) < i {
        assert(s[find(s, c)] != c);
    } else if i < find(s, c) {
        assert(s[i] != c);
    }
}

/// A text before and after the first place of a character.
pub open spec fn split_once(s: Seq<char>, c: char) -> Option<(Seq<char>, Seq<char>)> {
    let i = find(s, c);
    if i < s.len() {
        Some((s.subrange(0, i), s.subrange(i + 1, s.len() as int)))
    } else {
        None
    }
}

/// Where a character first stands in a text at or after `from`.
pub fn find_char(chars: &Vec<char>, c: char, from: usize) -> (at: usize)
    requires
        from <= chars@.len(),
    ensures
        at == from + find(chars@.subrange(from as int, chars@.len() as int), c),
        from <= at <= chars@.len(),
        at < chars@.len() ==> chars@[at as int] == c,
        forall|j: int| from <= j < at ==> chars@[j] != c,
{
    let ghost rest = chars@.subrange(from as int, chars@.len() as int);
    let mut i: usize = from;
    while i < chars.len()
        invariant_except_break
            i <= chars@.len(),
        invariant
            from <= i <= chars@.len(),
            forall|j: int| from <= j < i ==> chars@[j] != c,
        ensures
            i < chars@.len() ==> chars@[i as int] == c,
        decreases chars@.len() - i,
    {
        if chars[i] == c {
            break;
        }
        i += 1;
    }
    proof {
        lemma_found(rest, c, i - from);
    }
    i
}

/// The part of a text from `from` up to `to`.
pub fn part(chars: &Vec<char>, from: usize, to: usize) -> (text: Vec<char>)
    requires
        from <= to <= chars@.len(),
    ensures
        text@ == chars@.subrange(from as int, to as int),
{
    let mut text: Vec<char> = Vec::new();
    let mut i: usize = from;
    while i < to
        invariant
            from <= i <= to <= chars@.len(),
            text@ == chars@.subrange(from as int, i as int),
        decreases to - i,
    {
        text.push(chars[i]);
        assert(chars@.subrange(from as int, i + 1) =~= chars@.subrange(from as int, i as int).push(
            chars@[i as int],
        ));
        i += 1;
    }
    text
}

/// Splits a text at the first place of a character.
pub fn split_at_char(chars: &Vec<char>, c: char) -> (parts: Option<(Vec<char>, Vec<char>)>)
    ensures
        parts is Some <==> split_once(chars@, c) is Some,
        parts matches Some((a, b)) ==> split_once(chars@, c) == Some((a@, b@)),
{
    assert(chars@.subrange(0, chars@.len() as int) =~= chars@);
    let at: usize = find_char(chars, c, 0);
    if at < chars.len() {
        Some((part(chars, 0, at), part(chars, at + 1, chars.len())))
    } else {
        None
    }
}

/// Where a pattern last stands in a text: -1, where it does not.
pub open spec fn rfind(s: Seq<char>, pattern: Seq<char>) -> int
    decreases s.len(),
{
    if s.len() < pattern.len() {
        -1
    } else if s.subrange(s.len() - pattern.len(), s.len() as int) == pattern {
        s.len() - pattern.len()
    } else if s.len() == 0 {
        -1
    } else {
        rfind(s.drop_last(), pattern)
    }
}

/// Whether two texts are the same.
pub fn same_chars(a: &Vec<char>, b: &Vec<char>) -> (same: bool)
    ensures
        same == (a@ == b@),
{
    if a.len() != b.len() {
        return false;
    }
    let mut i: usize = 0;
    while i < a.len()
        invariant
            a@.len() == b@.len(),
            i <= a@.len(),
            forall|j: int| 0 <= j < i ==> a@[j] == b@[j],
        decreases a@.len() - i,
    {
        if a[i] != b[i] {
            return false;
        }
        i += 1;
    }
    assert(a@ =~= b@);
    true
}

/// Whether a text starts with another.
pub fn starts_with(chars: &Vec<char>, prefix: &Vec<char>) -> (b: bool)
    ensures
        b == (prefix@.len() <= chars@.len() && chars@.subrange(0, prefix@.len() as int) == prefix@),
{
    if prefix.len() > chars.len() {
        return false;
    }
    same_chars(&part(chars, 0, prefix.len()), prefix)
}

/// Where a pattern last stands in a text.
pub fn find_last(chars: &Vec<char>, pattern: &Vec<char>) -> (at: Option<usize>)
    requires
        pattern@.len() > 0,
    ensures
        at is Some <==> rfind(chars@, pattern@) >= 0,
        at matches Some(i) ==> i == rfind(chars@, pattern@) && i + pattern@.len() <= chars@.len(),
{
    let mut end: usize = chars.len();
    assert(chars@.subrange(0, end as int) =~= chars@);
    while end >= pattern.len()
        invariant
            pattern@.len() > 0,
            end <= chars@.len(),
            rfind(chars@, pattern@) == rfind(chars@.subrange(0, end as int), pattern@),
        decreases end,
    {
        let ghost now = chars@.subrange(0, end as int);
        let start: usize = end - pattern.len();
        let window = part(chars, start, end);
        assert(window@ =~= now.subrange(now.len() - pattern@.len(), now.len() as int));
        if same_chars(&window, pattern) {
            return Some(start);
        }
        assert(now.drop_last() =~= chars@.subrange(0, end - 1));
        end = end - 1;
    }
    None
}

/// What the `Debug` form of a text is.
pub uninterp spec fn quoted(text: Seq<char>) -> Seq<char>;

/// What the `Debug` form of a character is.
pub uninterp spec fn quoted_char(c: char) -> Seq<char>;

/// The `Debug` form of a `str`, in quotes and with escapes: it is named.
#[verifier::external_body]
pub(crate) fn quote(text: &str) -> (form: String)
    ensures
        form@ == quoted(text@),
{
    format!("{text:?}")
}

/// The `Debug` form of a `char`, in quotes and with escapes: it is named.
#[verifier::external_body]
pub(crate) fn quote_char(c: char) -> (form: String)
    ensures
        form@ == quoted_char(c),
{
    format!("{c:?}")
}

/// Whether a character is white space: the Unicode property `White_Space`.
pub open spec fn is_space(c: char) -> bool {
    ||| '\u{9}' <= c <= '\u{d}'
    ||| c == ' '
    ||| c == '\u{85}'
    ||| c == '\u{a0}'
    ||| c == '\u{1680}'
    ||| '\u{2000}' <= c <= '\u{200a}'
    ||| c == '\u{2028}'
    ||| c == '\u{2029}'
    ||| c == '\u{202f}'
    ||| c == '\u{205f}'
    ||| c == '\u{3000}'
}

/// Whether a text holds nothing but white space.
pub open spec fn blank(s: Seq<char>) -> bool {
    forall|i: int| 0 <= i < s.len() ==> is_space(#[trigger] s[i])
}

/// Whether a character is white space.
pub fn is_white(c: char) -> (white: bool)
    ensures
        white == is_space(c),
{
    ('\u{9}' <= c && c <= '\u{d}') || c == ' ' || c == '\u{85}' || c == '\u{a0}' || c == '\u{1680}'
        || ('\u{2000}' <= c && c <= '\u{200a}') || c == '\u{2028}' || c == '\u{2029}' || c
        == '\u{202f}' || c == '\u{205f}' || c == '\u{3000}'
}

/// Whether a text holds nothing but white space.
pub fn is_blank(text: &str) -> (b: bool)
    ensures
        b == blank(text@),
{
    let chars = chars_of(text);
    let mut i: usize = 0;
    while i < chars.len()
        invariant
            chars@ == text@,
            i <= chars@.len(),
            forall|j: int| 0 <= j < i ==> is_space(#[trigger] chars@[j]),
        decreases chars@.len() - i,
    {
        if !is_white(chars[i]) {
            assert(!is_space(text@[i as int]));
            return false;
        }
        i += 1;
    }
    true
}

/// A number that is written in decimal digits is a text of digits, and reads as
/// that number.
proof fn lemma_decimal(n: nat)
    ensures
        all_digits(decimal(n)),
        digits_value(decimal(n)) == n,
    decreases n,
{
    if n < 10 {
        assert(decimal(n).drop_last() =~= Seq::empty());
        assert(digits_value(decimal(n).drop_last()) == 0);
    } else {
        lemma_decimal(n / 10);
        assert(decimal(n).drop_last() =~= decimal(n / 10));
        assert forall|j: int| 0 <= j < decimal(n).len() implies is_digit(#[trigger] decimal(n)[j]) by {
            if j < decimal(n / 10).len() {
                assert(decimal(n)[j] == decimal(n / 10)[j]);
            }
        }
    }
}

/// A number reads as it was written, and two numbers are never written alike.
pub proof fn law_a_number_reads_as_it_was_written(n: nat, m: nat)
    ensures
        n <= u32::MAX ==> number(decimal(n)) == Some(n as u32),
        n > u32::MAX ==> number(decimal(n)) is None,
        decimal(n) == decimal(m) ==> n == m,
        decimal(n).len() > 0,
        forall|j: int| 0 <= j < decimal(n).len() ==> '0' <= #[trigger] decimal(n)[j] <= '9',
{
    lemma_decimal(n);
    lemma_decimal(m);
}

/// The last place of a pattern of one character is where nothing behind it is
/// that character.
pub proof fn lemma_rfind_char(s: Seq<char>, c: char, at: int)
    requires
        0 <= at < s.len(),
        s[at] == c,
        forall|j: int| at < j < s.len() ==> s[j] != c,
    ensures
        rfind(s, seq![c]) == at,
    decreases s.len(),
{
    let last = s.subrange(s.len() - 1, s.len() as int);
    if at == s.len() - 1 {
        assert(last =~= seq![c]);
    } else {
        assert(last[0] == s[s.len() - 1]);
        assert(last != seq![c]);
        lemma_rfind_char(s.drop_last(), c, at);
    }
}

/// A pattern of one character that does not stand in a text is not found.
pub proof fn lemma_rfind_none(s: Seq<char>, c: char)
    requires
        !s.contains(c),
    ensures
        rfind(s, seq![c]) == -1,
    decreases s.len(),
{
    if s.len() > 0 {
        let last = s.subrange(s.len() - 1, s.len() as int);
        assert(last[0] == s[s.len() - 1]);
        assert(s.contains(s[s.len() - 1]));
        assert(last != seq![c]);
        let shorter = s.drop_last();
        assert(!shorter.contains(c)) by {
            if shorter.contains(c) {
                let j = choose|j: int| 0 <= j < shorter.len() && shorter[j] == c;
                assert(s[j] == c);
            }
        }
        lemma_rfind_none(shorter, c);
    }
}

/// Only a text of decimal digits, behind a `+` or not, reads as a number.
pub proof fn law_only_digits_read_as_a_number(s: Seq<char>, n: nat)
    ensures
        number(s) is Some ==> {
            let from: int = if s[0] == '+' {
                1
            } else {
                0
            };
            s.len() > from && forall|j: int| from <= j < s.len() ==> '0' <= #[trigger] s[j] <= '9'
        },
        n <= u32::MAX ==> number(seq!['+'] + decimal(n)) == Some(n as u32),
        number(Seq::empty()) is None,
{
    lemma_decimal(n);
    assert((seq!['+'] + decimal(n)).drop_first() =~= decimal(n));
    if number(s) is Some && s.len() > 0 && s[0] == '+' {
        let digits = s.drop_first();
        assert forall|j: int| 1 <= j < s.len() implies '0' <= #[trigger] s[j] <= '9' by {
            assert(is_digit(digits[j - 1]));
        }
    } else if number(s) is Some {
        assert forall|j: int| 0 <= j < s.len() implies '0' <= #[trigger] s[j] <= '9' by {
            assert(is_digit(s[j]));
        }
    }
}

/// White space separates, and letters, digits and signs do not.
pub proof fn law_white_space_is_no_printable_character(c: char)
    ensures
        '!' <= c <= '~' ==> !is_space(c),
        c == ' ' || c == '\t' || c == '\n' || c == '\r' ==> is_space(c),
        is_space(c) && c <= '~' ==> c == ' ' || '\u{9}' <= c <= '\u{d}',
{
}

/// A text splits at a character exactly where it holds it, into what stands before
/// the first place of the character and all that stands behind it.
pub proof fn law_a_text_splits_where_the_character_first_stands(
    s: Seq<char>,
    c: char,
    before: Seq<char>,
    after: Seq<char>,
)
    requires
        !before.contains(c),
    ensures
        split_once(before + seq![c] + after, c) == Some((before, after)),
        split_once(before, c) is None,
        split_once(s, c) matches Some((one, other)) ==> s == one + seq![c] + other
            && !one.contains(c),
        split_once(s, c) is None ==> !s.contains(c),
{
    let whole = before + seq![c] + after;
    let n = before.len() as int;
    assert forall|j: int| 0 <= j < n implies whole[j] != c && before[j] != c by {
        assert(before.contains(before[j]));
    }
    lemma_found(whole, c, n);
    assert(whole.subrange(0, n) =~= before);
    assert(whole.subrange(n + 1, whole.len() as int) =~= after);
    lemma_found(before, c, n);
    lemma_find(s, c);
    let i = find(s, c);
    if i < s.len() {
        assert(s =~= s.subrange(0, i) + seq![c] + s.subrange(i + 1, s.len() as int));
    }
}

} // verus!
