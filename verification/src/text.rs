//! Plain text operations on characters: copying, trimming, decimal numbers.

use vstd::prelude::*;

verus! {

/// `String::push` appends one character to the end of the string.
pub assume_specification[ String::push ](s: &mut String, c: char)
    ensures
        final(s)@ == old(s)@.push(c),
;

/// The characters of `s`, in order.
pub fn chars_of(s: &str) -> (chars: Vec<char>)
    ensures
        chars@ == s@,
{
    let mut chars: Vec<char> = Vec::new();
    for c in it: s.chars()
        invariant
            it.seq() == s@,
            chars@ == s@.take(it.index() as int),
    {
        assert(s@.take(it.index() + 1) =~= s@.take(it.index() as int).push(c));
        chars.push(c);
    }
    assert(s@.take(s@.len() as int) =~= s@);
    chars
}

/// The string made of `chars[from..to]`.
pub fn string_between(chars: &Vec<char>, from: usize, to: usize) -> (s: String)
    requires
        from <= to <= chars@.len(),
    ensures
        s@ == chars@.subrange(from as int, to as int),
{
    let mut s = String::new();
    let mut i: usize = from;
    while i < to
        invariant
            from <= i <= to <= chars@.len(),
            s@ == chars@.subrange(from as int, i as int),
        decreases to - i,
    {
        s.push(chars[i]);
        i = i + 1;
        assert(chars@.subrange(from as int, i as int) =~= chars@.subrange(
            from as int,
            i - 1,
        ).push(chars@[i - 1]));
    }
    s
}

/// The string made of all of `chars`.
pub fn string_of(chars: &Vec<char>) -> (s: String)
    ensures
        s@ == chars@,
{
    let s = string_between(chars, 0, chars.len());
    assert(chars@.subrange(0, chars@.len() as int) =~= chars@);
    s
}

/// Whether `s` starts with `prefix`.
pub open spec fn has_prefix(s: Seq<char>, prefix: Seq<char>) -> bool {
    prefix.len() <= s.len() && s.take(prefix.len() as int) == prefix
}

/// Whether `s` ends with `suffix`.
pub open spec fn has_suffix(s: Seq<char>, suffix: Seq<char>) -> bool {
    suffix.len() <= s.len() && s.skip(s.len() - suffix.len()) == suffix
}

/// Whether the two strings hold the same characters from the given places on,
/// for `len` characters.
fn same_stretch(s: &Vec<char>, from: usize, t: &Vec<char>, len: usize) -> (same: bool)
    requires
        from + len <= s@.len(),
        len == t@.len(),
    ensures
        same == (s@.subrange(from as int, from + len) == t@),
{
    let total: usize = s.len();
    let mut i: usize = 0;
    while i < len
        invariant
            i <= len,
            total == s@.len(),
            from + len <= total,
            len == t@.len(),
            forall|j: int| 0 <= j < i ==> s@[from + j] == t@[j],
        decreases len - i,
    {
        if s[from + i] != t[i] {
            assert(s@.subrange(from as int, from + len)[i as int] != t@[i as int]);
            return false;
        }
        i = i + 1;
    }
    assert(s@.subrange(from as int, from + len) =~= t@);
    true
}

/// Whether `s` starts with `prefix`.
pub fn starts_with(s: &str, prefix: &str) -> (yes: bool)
    ensures
        yes == has_prefix(s@, prefix@),
{
    let chars = chars_of(s);
    let start = chars_of(prefix);
    if start.len() > chars.len() {
        return false;
    }
    assert(chars@.subrange(0, start@.len() as int) =~= s@.take(prefix@.len() as int));
    same_stretch(&chars, 0, &start, start.len())
}

/// Whether `s` ends with `suffix`.
pub fn ends_with(s: &str, suffix: &str) -> (yes: bool)
    ensures
        yes == has_suffix(s@, suffix@),
{
    let chars = chars_of(s);
    let end = chars_of(suffix);
    if end.len() > chars.len() {
        return false;
    }
    let from: usize = chars.len() - end.len();
    assert(chars@.subrange(from as int, from + end@.len()) =~= s@.skip(
        s@.len() - suffix@.len(),
    ));
    same_stretch(&chars, from, &end, end.len())
}

/// Whether `c` has the Unicode property `White_Space`.
pub open spec fn is_white_space(c: char) -> bool {
    ||| '\u{9}' <= c <= '\u{d}'
    ||| c == ' '
    ||| c == '\u{85}'
    ||| c == '\u{a0}'
    ||| c == '\u{1680}'
    ||| '\u{2000}' <= c <= '\u{200a}'
    ||| c == '\u{2028}'
    ||| c == '\u{2029}'
    ||| c == '\u{202f}'
    ||| c == '\u{205f}'
    ||| c == '\u{3000}'
}

/// Whether `c` is white space.
pub fn is_whitespace(c: char) -> (yes: bool)
    ensures
        yes == is_white_space(c),
{
    ('\u{9}' <= c && c <= '\u{d}') || c == ' ' || c == '\u{85}' || c == '\u{a0}' || c == '\u{1680}'
        || ('\u{2000}' <= c && c <= '\u{200a}') || c == '\u{2028}' || c == '\u{2029}' || c
        == '\u{202f}' || c == '\u{205f}' || c == '\u{3000}'
}

/// `s` without the white space at its start.
pub open spec fn trimmed_start(s: Seq<char>) -> Seq<char>
    decreases s.len(),
{
    if s.len() > 0 && is_white_space(s.first()) {
        trimmed_start(s.drop_first())
    } else {
        s
    }
}

/// `s` without the white space at its end.
pub open spec fn trimmed_end(s: Seq<char>) -> Seq<char>
    decreases s.len(),
{
    if s.len() > 0 && is_white_space(s.last()) {
        trimmed_end(s.drop_last())
    } else {
        s
    }
}

/// `s` without the white space at its start and its end.
pub open spec fn trimmed(s: Seq<char>) -> Seq<char> {
    trimmed_end(trimmed_start(s))
}

/// `s` without the white space at its start and its end.
pub fn trim(s: &str) -> (t: String)
    ensures
        t@ == trimmed(s@),
{
    let chars = chars_of(s);
    let mut from: usize = 0;
    assert(s@.skip(0) =~= s@);
    while from < chars.len() && is_whitespace(chars[from])
        invariant
            chars@ == s@,
            from <= chars@.len(),
            trimmed_start(s@) == trimmed_start(s@.skip(from as int)),
        decreases chars.len() - from,
    {
        assert(s@.skip(from as int).drop_first() =~= s@.skip(from + 1));
        from = from + 1;
    }
    let ghost rest = s@.skip(from as int);
    assert(trimmed_start(s@) == rest);
    let mut to: usize = chars.len();
    assert(rest.take(to - from) =~= rest);
    while from < to && is_whitespace(chars[to - 1])
        invariant
            chars@ == s@,
            from <= to <= chars@.len(),
            rest == s@.skip(from as int),
            trimmed_end(rest) == trimmed_end(rest.take(to - from)),
        decreases to - from,
    {
        assert(rest.take(to - from).drop_last() =~= rest.take(to - from - 1));
        assert(rest.take(to - from).last() == chars@[to - 1]);
        to = to - 1;
    }
    assert(rest.take(to - from) =~= chars@.subrange(from as int, to as int));
    assert(from < to ==> rest.take(to - from).last() == chars@[to - 1]);
    string_between(&chars, from, to)
}

/// The decimal digit `d` as a character.
pub open spec fn digit(d: nat) -> char {
    (48 + d) as char
}

/// The decimal digits of `n`, without leading zeros.
pub open spec fn digits(n: nat) -> Seq<char>
    decreases n,
{
    if n < 10 {
        seq![digit(n)]
    } else {
        digits(n / 10).push(digit(n % 10))
    }
}

/// `s`, with as many zeros before it as bring it to `width` characters.
pub open spec fn zero_padded(s: Seq<char>, width: nat) -> Seq<char> {
    if s.len() < width {
        Seq::new((width - s.len()) as nat, |i: int| '0') + s
    } else {
        s
    }
}

/// The decimal digits of `n`, in order.
fn digit_chars(n: u32) -> (chars: Vec<char>)
    ensures
        chars@ == digits(n as nat),
    decreases n,
{
    let last: char = (48u8 + (n % 10) as u8) as char;
    let mut chars: Vec<char> = if n < 10 {
        Vec::new()
    } else {
        digit_chars(n / 10)
    };
    chars.push(last);
    assert(n < 10 ==> chars@ =~= seq![digit(n as nat)]);
    chars
}

/// `n` in decimal, with leading zeros up to `width` digits.
pub fn padded_decimal(n: u32, width: usize) -> (s: String)
    ensures
        s@ == zero_padded(digits(n as nat), width as nat),
{
    let chars = digit_chars(n);
    let mut s = String::new();
    let mut len: usize = chars.len();
    while len < width
        invariant
            chars@.len() <= len,
            len <= width || len == chars@.len(),
            s@ =~= Seq::new((len - chars@.len()) as nat, |i: int| '0'),
        decreases width - len,
    {
        s.push('0');
        len = len + 1;
    }
    let rest = string_of(&chars);
    s.append(rest.as_str());
    assert(s@ =~= zero_padded(digits(n as nat), width as nat));
    s
}

/// Whether `c` is a decimal digit.
pub open spec fn is_digit(c: char) -> bool {
    '0' <= c <= '9'
}

/// The number that the decimal digits `s` write.
pub open spec fn decimal_value(s: Seq<char>) -> nat
    decreases s.len(),
{
    if s.len() == 0 {
        0
    } else {
        decimal_value(s.drop_last()) * 10 + (s.last() as nat - 48) as nat
    }
}

/// `s` without one plus sign at its start.
pub open spec fn unsigned_part(s: Seq<char>) -> Seq<char> {
    if s.len() > 0 && s.first() == '+' {
        s.drop_first()
    } else {
        s
    }
}

/// The 32-bit number that `s` writes: an optional plus sign, then one or more
/// decimal digits whose value fits.
pub open spec fn u32_in(s: Seq<char>) -> Option<u32> {
    let ds = unsigned_part(s);
    if ds.len() > 0 && (forall|i: int| 0 <= i < ds.len() ==> is_digit(#[trigger] ds[i]))
        && decimal_value(ds) <= u32::MAX {
        Some(decimal_value(ds) as u32)
    } else {
        None
    }
}

/// A longer run of digits writes no smaller number.
proof fn lemma_decimal_value_grows(s: Seq<char>, k: int)
    requires
        0 <= k <= s.len(),
    ensures
        decimal_value(s.take(k)) <= decimal_value(s),
    decreases s.len() - k,
{
    if k < s.len() {
        assert(s.take(k + 1).drop_last() =~= s.take(k));
        lemma_decimal_value_grows(s, k + 1);
    } else {
        assert(s.take(k) =~= s);
    }
}

/// Reads `chars[..end]` as a 32-bit decimal number.
pub fn parse_u32(chars: &Vec<char>, end: usize) -> (n: Option<u32>)
    requires
        end <= chars@.len(),
    ensures
        n == u32_in(chars@.take(end as int)),
{
    let ghost s = chars@.take(end as int);
    let from: usize = if end > 0 && chars[0] == '+' {
        1
    } else {
        0
    };
    let ghost ds = unsigned_part(s);
    assert(ds =~= s.skip(from as int));
    if from == end {
        return None;
    }
    let mut value: u32 = 0;
    let mut i: usize = from;
    assert(ds.take(0) =~= Seq::<char>::empty());
    while i < end
        invariant
            from <= i <= end <= chars@.len(),
            s == chars@.take(end as int),
            ds == s.skip(from as int),
            ds == unsigned_part(s),
            ds.len() == end - from,
            value == decimal_value(ds.take(i - from)),
            forall|j: int| 0 <= j < i - from ==> is_digit(#[trigger] ds[j]),
        decreases end - i,
    {
        let c = chars[i];
        assert(ds[i - from] == c);
        if c < '0' || c > '9' {
            return None;
        }
        let d: u32 = c as u32 - 48;
        assert(ds.take(i - from + 1).drop_last() =~= ds.take(i - from));
        let wide: u64 = value as u64 * 10 + d as u64;
        assert(wide == decimal_value(ds.take(i - from + 1)));
        if wide > u32::MAX as u64 {
            proof {
                lemma_decimal_value_grows(ds, i - from + 1);
            }
            return None;
        }
        value = wide as u32;
        i = i + 1;
    }
    assert(ds.take(end - from) =~= ds);
    Some(value)
}

/// Padding with zeros keeps the number.
proof fn lemma_zeros_keep_value(zeros: Seq<char>, s: Seq<char>)
    requires
        forall|i: int| 0 <= i < zeros.len() ==> zeros[i] == '0',
    ensures
        decimal_value(zeros + s) == decimal_value(s),
    decreases zeros.len() + s.len(),
{
    if s.len() > 0 {
        assert((zeros + s).drop_last() =~= zeros + s.drop_last());
        lemma_zeros_keep_value(zeros, s.drop_last());
    } else if zeros.len() > 0 {
        assert((zeros + s).drop_last() =~= zeros.drop_last() + s);
        lemma_zeros_keep_value(zeros.drop_last(), s);
    }
}

/// The digits of a number are decimal digits and write that number.
proof fn lemma_digits(n: nat)
    ensures
        digits(n).len() > 0,
        forall|i: int| 0 <= i < digits(n).len() ==> is_digit(#[trigger] digits(n)[i]),
        decimal_value(digits(n)) == n,
    decreases n,
{
    if n >= 10 {
        lemma_digits(n / 10);
        assert(digits(n).drop_last() =~= digits(n / 10));
    } else {
        assert(digits(n).drop_last() =~= Seq::<char>::empty());
        assert(decimal_value(Seq::<char>::empty()) == 0);
    }
}

/// Reading back a padded number gives the number, and its text holds digits only.
pub proof fn lemma_padded_decimal_reads_back(n: u32, width: nat)
    ensures
        u32_in(zero_padded(digits(n as nat), width)) == Some(n),
        forall|i: int|
            0 <= i < zero_padded(digits(n as nat), width).len() ==> is_digit(
                #[trigger] zero_padded(digits(n as nat), width)[i],
            ),
{
    lemma_digits(n as nat);
    let ds = digits(n as nat);
    if ds.len() < width {
        let zeros = Seq::new((width - ds.len()) as nat, |i: int| '0');
        lemma_zeros_keep_value(zeros, ds);
    }
    let s = zero_padded(ds, width);
    assert(is_digit(s[0]));
    assert(unsigned_part(s) == s);
}

/// A text starts with another when it has the other's characters in its first places.
pub proof fn law_prefix(s: Seq<char>, prefix: Seq<char>)
    ensures
        has_prefix(s, prefix) <==> prefix.len() <= s.len() && forall|i: int|
            0 <= i < prefix.len() ==> s[i] == prefix[i],
{
    if prefix.len() <= s.len() {
        let start = s.take(prefix.len() as int);
        if forall|i: int| 0 <= i < prefix.len() ==> s[i] == prefix[i] {
            assert(start =~= prefix);
        }
        if start == prefix {
            assert forall|i: int| 0 <= i < prefix.len() implies s[i] == prefix[i] by {
                assert(start[i] == s[i]);
            }
        }
    }
}

/// A text ends with another when it has the other's characters in its last places.
pub proof fn law_suffix(s: Seq<char>, suffix: Seq<char>)
    ensures
        has_suffix(s, suffix) <==> suffix.len() <= s.len() && forall|i: int|
            0 <= i < suffix.len() ==> s[s.len() - suffix.len() + i] == suffix[i],
{
    if suffix.len() <= s.len() {
        let from = s.len() - suffix.len();
        let end = s.skip(from);
        if forall|i: int| 0 <= i < suffix.len() ==> s[from + i] == suffix[i] {
            assert(end =~= suffix);
        }
        if end == suffix {
            assert forall|i: int| 0 <= i < suffix.len() implies s[from + i] == suffix[i] by {
                assert(end[i] == s[from + i]);
            }
        }
    }
}

/// White space is what Unicode calls so, by code point.
pub proof fn law_white_space_by_code_point(c: char)
    ensures
        is_white_space(c) <==> ({
            let n = c as u32;
            ||| 9 <= n <= 13
            ||| n == 32
            ||| n == 0x85
            ||| n == 0xa0
            ||| n == 0x1680
            ||| 0x2000 <= n <= 0x200a
            ||| 0x2028 <= n <= 0x2029
            ||| n == 0x202f
            ||| n == 0x205f
            ||| n == 0x3000
        }),
{
}

/// Taking white space off the start leaves the rest from the first other character on.
proof fn lemma_trimmed_start(s: Seq<char>) -> (from: int)
    ensures
        0 <= from <= s.len(),
        trimmed_start(s) == s.skip(from),
        forall|j: int| 0 <= j < from ==> is_white_space(#[trigger] s[j]),
        from < s.len() ==> !is_white_space(s[from]),
    decreases s.len(),
{
    if s.len() > 0 && is_white_space(s.first()) {
        let rest = s.drop_first();
        let k = lemma_trimmed_start(rest);
        assert(rest.skip(k) =~= s.skip(k + 1));
        assert forall|j: int| 0 <= j < k + 1 implies is_white_space(#[trigger] s[j]) by {
            if j > 0 {
                assert(rest[j - 1] == s[j]);
            }
        }
        if k + 1 < s.len() {
            assert(rest[k] == s[k + 1]);
        }
        k + 1
    } else {
        assert(s.skip(0) =~= s);
        0
    }
}

/// Taking white space off the end leaves the text up to the last other character.
proof fn lemma_trimmed_end(s: Seq<char>) -> (to: int)
    ensures
        0 <= to <= s.len(),
        trimmed_end(s) == s.take(to),
        forall|j: int| to <= j < s.len() ==> is_white_space(#[trigger] s[j]),
        to > 0 ==> !is_white_space(s[to - 1]),
    decreases s.len(),
{
    if s.len() > 0 && is_white_space(s.last()) {
        let rest = s.drop_last();
        let k = lemma_trimmed_end(rest);
        assert(rest.take(k) =~= s.take(k));
        assert forall|j: int| k <= j < s.len() implies is_white_space(#[trigger] s[j]) by {
            if j < rest.len() {
                assert(rest[j] == s[j]);
            }
        }
        if k > 0 {
            assert(rest[k - 1] == s[k - 1]);
        }
        k
    } else {
        assert(s.take(s.len() as int) =~= s);
        s.len() as int
    }
}

/// A trimmed text is a stretch of the text with only white space around it, and neither
/// starts nor ends with white space.
pub proof fn law_trimmed_loses_outer_white_space_only(s: Seq<char>)
    ensures
        exists|from: int, to: int|
            #![trigger s.subrange(from, to)]
            {
                &&& 0 <= from <= to <= s.len()
                &&& trimmed(s) == s.subrange(from, to)
                &&& forall|j: int| 0 <= j < from ==> is_white_space(#[trigger] s[j])
                &&& forall|j: int| to <= j < s.len() ==> is_white_space(#[trigger] s[j])
                &&& from < to ==> !is_white_space(s[from]) && !is_white_space(s[to - 1])
            },
{
    let from = lemma_trimmed_start(s);
    let rest = s.skip(from);
    let len = lemma_trimmed_end(rest);
    let to = from + len;
    assert(rest.take(len) =~= s.subrange(from, to));
    assert forall|j: int| to <= j < s.len() implies is_white_space(#[trigger] s[j]) by {
        assert(rest[j - from] == s[j]);
    }
    if from < to {
        assert(rest[len - 1] == s[to - 1]);
    }
}

/// The number that a row of decimal digits writes.
pub open spec fn written(s: Seq<char>) -> nat
    decreases s.len(),
{
    if s.len() == 0 {
        0
    } else {
        10 * written(s.drop_last()) + (s.last() as nat - '0' as nat) as nat
    }
}

/// Whether `s` is a row of one or more decimal digits.
pub open spec fn is_row_of_digits(s: Seq<char>) -> bool {
    s.len() > 0 && forall|i: int| 0 <= i < s.len() ==> '0' <= #[trigger] s[i] <= '9'
}

/// Both ways to say what digits write agree.
pub(crate) proof fn lemma_written(s: Seq<char>)
    ensures
        written(s) == decimal_value(s),
    decreases s.len(),
{
    if s.len() > 0 {
        lemma_written(s.drop_last());
    }
}

/// A row of digits whose number fits is read as that number, with or without a plus
/// sign before it.
pub proof fn law_digits_are_read(ds: Seq<char>)
    requires
        is_row_of_digits(ds),
        written(ds) <= u32::MAX,
    ensures
        u32_in(ds) == Some(written(ds) as u32),
        u32_in(seq!['+'] + ds) == Some(written(ds) as u32),
{
    lemma_written(ds);
    assert('0' <= ds[0] <= '9');
    assert((seq!['+'] + ds).drop_first() =~= ds);
    assert(unsigned_part(ds) == ds);
    assert(unsigned_part(seq!['+'] + ds) == ds);
}

/// Only a row of digits is read as a number, with or without a plus sign before it, and
/// only as the number that it writes.
pub proof fn law_only_digits_are_read(s: Seq<char>)
    requires
        u32_in(s) is Some,
    ensures
        exists|ds: Seq<char>|
            #![trigger is_row_of_digits(ds)]
            is_row_of_digits(ds) && (s == ds || s == seq!['+'] + ds) && written(ds) == u32_in(s)->0,
{
    let ds = unsigned_part(s);
    lemma_written(ds);
    if s.len() > 0 && s.first() == '+' {
        assert(s =~= seq!['+'] + ds);
    }
    assert(is_row_of_digits(ds));
}

/// The digits of a number do not start with a zero, but for the number zero.
proof fn lemma_digits_lead(n: nat)
    ensures
        digits(n).len() > 1 ==> digits(n)[0] != '0',
        digits(n).len() == 1 ==> n < 10,
        n > 0 ==> digits(n)[0] != '0',
    decreases n,
{
    if n >= 10 {
        lemma_digits(n / 10);
        lemma_digits_lead(n / 10);
        assert(digits(n)[0] == digits(n / 10)[0]);
    }
}

/// A padded decimal is a row of digits that writes the number and has at least the
/// width asked for; a longer one starts with no zero.
pub proof fn law_padded_decimal(n: nat, width: nat)
    ensures
        is_row_of_digits(zero_padded(digits(n), width)),
        written(zero_padded(digits(n), width)) == n,
        zero_padded(digits(n), width).len() >= width,
        zero_padded(digits(n), width).len() > width && zero_padded(digits(n), width).len() > 1
            ==> zero_padded(digits(n), width)[0] != '0',
{
    lemma_digits(n);
    lemma_digits_lead(n);
    let ds = digits(n);
    let s = zero_padded(ds, width);
    lemma_written(s);
    if ds.len() < width {
        let zeros = Seq::new((width - ds.len()) as nat, |i: int| '0');
        lemma_zeros_keep_value(zeros, ds);
    }
    assert forall|i: int| 0 <= i < s.len() implies '0' <= #[trigger] s[i] <= '9' by {
        let pad = s.len() - ds.len();
        if i >= pad {
            assert(s[i] == ds[i - pad]);
            assert(is_digit(ds[i - pad]));
        }
    }
}

} // verus!
