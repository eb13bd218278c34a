//! Reading the `/proc/<pid>/status` text format: `Key:\tvalue` lines.

use vstd::prelude::*;
use vstd::slice::slice_subrange;

use crate::format::RssSample;
use crate::text::decimal;

verus! {

/// Classes of characters that the format distinguishes.
#[derive(Clone, Copy, Debug, PartialEq, Eq, Structural)]
pub enum CharClass {
    /// Characters with the Unicode `White_Space` property.
    WhiteSpace,
    /// Space, tab, line feed, form feed and carriage return.
    AsciiSpace,
    /// Everything but ASCII whitespace.
    Word,
    /// Everything but a line feed.
    Line,
}

/// Whether `c` is ASCII whitespace.
pub open spec fn is_ascii_space(c: char) -> bool {
    c == ' ' || c == '\t' || c == '\n' || c == '\x0C' || c == '\r'
}

/// Whether `c` has the Unicode `White_Space` property.
pub open spec fn is_white_space(c: char) -> bool {
    let u = c as u32;
    ||| 0x09 <= u <= 0x0d
    ||| u == 0x20
    ||| u == 0x85
    ||| u == 0xa0
    ||| u == 0x1680
    ||| 0x2000 <= u <= 0x200a
    ||| u == 0x2028
    ||| u == 0x2029
    ||| u == 0x202f
    ||| u == 0x205f
    ||| u == 0x3000
}

impl CharClass {
    /// Whether `c` belongs to this class.
    pub open spec fn has(self, c: char) -> bool {
        match self {
            CharClass::WhiteSpace => is_white_space(c),
            CharClass::AsciiSpace => is_ascii_space(c),
            CharClass::Word => !is_ascii_space(c),
            CharClass::Line => c != '\n',
        }
    }

    /// Whether `c` belongs to this class.
    pub fn contains(self, c: char) -> (b: bool)
        ensures
            b == self.has(c),
    {
        let u: u32 = c as u32;
        let ascii_space = c == ' ' || c == '\t' || c == '\n' || c == '\x0C' || c == '\r';
        match self {
            CharClass::WhiteSpace => (0x09 <= u && u <= 0x0d) || u == 0x20 || u == 0x85 || u == 0xa0
                || u == 0x1680 || (0x2000 <= u && u <= 0x200a) || u == 0x2028 || u == 0x2029 || u
                == 0x202f || u == 0x205f || u == 0x3000,
            CharClass::AsciiSpace => ascii_space,
            CharClass::Word => !ascii_space,
            CharClass::Line => c != '\n',
        }
    }
}

/// Number of leading characters of `s` in the class.
pub open spec fn leading(s: Seq<char>, class: CharClass) -> nat
    decreases s.len(),
{
    if s.len() > 0 && class.has(s[0]) {
        1 + leading(s.drop_first(), class)
    } else {
        0
    }
}

/// Number of trailing characters of `s` in the class.
pub open spec fn trailing(s: Seq<char>, class: CharClass) -> nat
    decreases s.len(),
{
    if s.len() > 0 && class.has(s.last()) {
        1 + trailing(s.drop_last(), class)
    } else {
        0
    }
}

/// `s` without leading and trailing white space.
pub open spec fn trimmed(s: Seq<char>) -> Seq<char> {
    let t = s.skip(leading(s, CharClass::WhiteSpace) as int);
    t.take(t.len() - trailing(t, CharClass::WhiteSpace))
}

/// The first run of characters that are not ASCII whitespace; empty if there
/// is none.
pub open spec fn first_word(s: Seq<char>) -> Seq<char> {
    let t = s.skip(leading(s, CharClass::AsciiSpace) as int);
    t.take(leading(t, CharClass::Word) as int)
}

/// The number that a string of decimal digits stands for.
pub open spec fn digits_number(s: Seq<char>) -> nat
    decreases s.len(),
{
    if s.len() == 0 {
        0
    } else {
        10 * digits_number(s.drop_last()) + (s.last() as u32 - 48) as nat
    }
}

/// Whether `s` is one or more decimal digits.
pub open spec fn is_number(s: Seq<char>) -> bool {
    &&& s.len() > 0
    &&& forall|i: int| 0 <= i < s.len() ==> 48 <= #[trigger] s[i] as u32 <= 57
}

/// An unsigned integer of at most `max`: decimal digits after an optional
/// plus sign.
pub open spec fn parsed_unsigned(s: Seq<char>, max: nat) -> Option<nat> {
    let digits = if s.len() > 0 && s[0] == '+' {
        s.skip(1)
    } else {
        s
    };
    if is_number(digits) && digits_number(digits) <= max {
        Some(digits_number(digits))
    } else {
        None
    }
}

/// The characters of `s`.
pub fn chars_of(s: &str) -> (v: Vec<char>)
    ensures
        v@ == s@,
{
    let mut v: Vec<char> = Vec::new();
    for c in it: s.chars()
        invariant
            v@ =~= it.seq().take(it.index() as int),
            it.seq() == s@,
    {
        v.push(c);
    }
    v
}

/// Number of leading characters of `s` in the class.
pub fn leading_len(s: &[char], class: CharClass) -> (n: usize)
    ensures
        n == leading(s@, class),
        n <= s@.len(),
{
    let mut i: usize = 0;
    assert(s@.skip(0) =~= s@);
    while i < s.len() && class.contains(s[i])
        invariant
            i <= s@.len(),
            leading(s@, class) == i + leading(s@.skip(i as int), class),
        decreases s@.len() - i,
    {
        assert(s@.skip(i as int).drop_first() =~= s@.skip(i + 1));
        i = i + 1;
    }
    i
}

/// `s` without leading and trailing white space.
pub fn trim(s: &[char]) -> (t: &[char])
    ensures
        t@ == trimmed(s@),
{
    let start: usize = leading_len(s, CharClass::WhiteSpace);
    let mut end: usize = s.len();
    let ghost t = s@.skip(start as int);
    assert(t.take(t.len() as int) =~= t);
    while start < end && CharClass::WhiteSpace.contains(s[end - 1])
        invariant
            start <= end <= s@.len(),
            t == s@.skip(start as int),
            trailing(t, CharClass::WhiteSpace) == (s@.len() - end) + trailing(
                t.take(end - start),
                CharClass::WhiteSpace,
            ),
        decreases end,
    {
        let ghost u = t.take(end - start);
        assert(u.last() == s@[end - 1]);
        assert(u.drop_last() =~= t.take(end - 1 - start));
        end = end - 1;
    }
    proof {
        if start < end {
            assert(t.take(end - start).last() == s@[end - 1]);
        }
        assert(s@.subrange(start as int, end as int) =~= trimmed(s@));
    }
    slice_subrange(s, start, end)
}

/// The first run of characters that are not ASCII whitespace.
pub fn leading_word(s: &[char]) -> (w: &[char])
    ensures
        w@ == first_word(s@),
{
    let start: usize = leading_len(s, CharClass::AsciiSpace);
    let t = slice_subrange(s, start, s.len());
    assert(t@ =~= s@.skip(start as int));
    let n: usize = leading_len(t, CharClass::Word);
    let w = slice_subrange(t, 0, n);
    assert(w@ =~= first_word(s@));
    w
}

/// Parses an unsigned integer of at most `max`.
pub fn parse_unsigned(s: &[char], max: u64) -> (n: Option<u64>)
    ensures
        n == match parsed_unsigned(s@, max as nat) {
            Some(n) => Some(n as u64),
            None => None,
        },
{
    let start: usize = if s.len() > 0 && s[0] == '+' {
        1
    } else {
        0
    };
    let digits = slice_subrange(s, start, s.len());
    let ghost d = digits@;
    proof {
        assert(d =~= if s@.len() > 0 && s@[0] == '+' {
            s@.skip(1)
        } else {
            s@
        });
    }
    if digits.len() == 0 {
        return None;
    }
    let mut n: u64 = 0;
    let mut i: usize = 0;
    let mut over = false;
    assert(d.take(0) =~= Seq::<char>::empty());
    while i < digits.len()
        invariant
            d == digits@,
            d == if s@.len() > 0 && s@[0] == '+' {
                s@.skip(1)
            } else {
                s@
            },
            i <= d.len(),
            forall|j: int| 0 <= j < i ==> 48 <= #[trigger] d[j] as u32 <= 57,
            !over ==> n == digits_number(d.take(i as int)) && n <= max,
            over ==> digits_number(d.take(i as int)) > max,
        decreases d.len() - i,
    {
        let c: u32 = digits[i] as u32;
        assert(digits@[i as int] == d[i as int]);
        if c < 48 || c > 57 {
            assert(!is_number(d));
            return None;
        }
        let ghost t = d.take(i + 1);
        assert(t.drop_last() =~= d.take(i as int));
        assert(t.last() == d[i as int]);
        if !over {
            let next: u128 = n as u128 * 10 + (c - 48) as u128;
            if next > max as u128 {
                over = true;
            } else {
                n = next as u64;
            }
        }
        i = i + 1;
    }
    assert(d.take(i as int) =~= d);
    if over {
        None
    } else {
        Some(n)
    }
}

/// The first line of `s`, without its line ending.
pub open spec fn first_line(s: Seq<char>) -> Seq<char> {
    let n = leading(s, CharClass::Line);
    if 0 < n < s.len() && s[n - 1] == '\r' {
        s.take(n - 1)
    } else {
        s.take(n as int)
    }
}

/// What follows the first line of `s`.
pub open spec fn after_first_line(s: Seq<char>) -> Seq<char> {
    let n = leading(s, CharClass::Line);
    if n < s.len() {
        s.skip(n as int + 1)
    } else {
        Seq::empty()
    }
}

/// The lines of `s`. A line ends with a line feed, optionally preceded by a
/// carriage return; the ending of the last line is optional.
pub open spec fn lines(s: Seq<char>) -> Seq<Seq<char>>
    decreases s.len(),
{
    if s.len() == 0 {
        Seq::empty()
    } else {
        seq![first_line(s)] + lines(after_first_line(s))
    }
}

/// Splits off the first line.
pub fn split_line(s: &[char]) -> (r: (&[char], &[char]))
    ensures
        r.0@ == first_line(s@),
        r.1@ == after_first_line(s@),
        s@.len() > 0 ==> r.1@.len() < s@.len(),
{
    let n: usize = leading_len(s, CharClass::Line);
    let end: usize = if 0 < n && n < s.len() && s[n - 1] == '\r' {
        n - 1
    } else {
        n
    };
    let start: usize = if n < s.len() {
        n + 1
    } else {
        n
    };
    let line = slice_subrange(s, 0, end);
    let rest = slice_subrange(s, start, s.len());
    assert(line@ =~= first_line(s@));
    assert(rest@ =~= after_first_line(s@));
    (line, rest)
}

/// Whether `s` starts with `prefix`.
pub open spec fn starts_with(s: Seq<char>, prefix: Seq<char>) -> bool {
    prefix.len() <= s.len() && s.take(prefix.len() as int) == prefix
}

/// The value of a field: what follows `key` on the last line that starts
/// with it.
pub open spec fn field(lines: Seq<Seq<char>>, key: Seq<char>) -> Option<Seq<char>>
    decreases lines.len(),
{
    if lines.len() == 0 {
        None
    } else if starts_with(lines.last(), key) {
        Some(lines.last().skip(key.len() as int))
    } else {
        field(lines.drop_last(), key)
    }
}

/// What follows `prefix` in `s`, where `s` starts with it.
pub fn strip_prefix<'a>(s: &'a [char], prefix: &str) -> (rest: Option<&'a [char]>)
    ensures
        rest is Some <==> starts_with(s@, prefix@),
        rest matches Some(r) ==> r@ == s@.skip(prefix@.len() as int),
{
    let p = chars_of(prefix);
    if p.len() > s.len() {
        return None;
    }
    let mut i: usize = 0;
    while i < p.len()
        invariant
            p@ == prefix@,
            p@.len() <= s@.len(),
            i <= p@.len(),
            forall|j: int| 0 <= j < i ==> p@[j] == s@[j],
        decreases p@.len() - i,
    {
        if s[i] != p[i] {
            assert(s@.take(p@.len() as int)[i as int] != p@[i as int]);
            return None;
        }
        i = i + 1;
    }
    assert(s@.take(p@.len() as int) =~= p@);
    let rest = slice_subrange(s, p.len(), s.len());
    assert(rest@ =~= s@.skip(p@.len() as int));
    Some(rest)
}

/// The leading integer of a value such as `\t 12345 kB`, or zero.
pub open spec fn kb_of(s: Seq<char>) -> nat {
    match parsed_unsigned(first_word(trimmed(s)), u64::MAX as nat) {
        Some(n) => n,
        None => 0,
    }
}

/// Parses the leading integer (kilobytes) of a value such as `\t 12345 kB`;
/// zero where there is none.
pub fn parse_kb(s: &str) -> (kb: u64)
    ensures
        kb == kb_of(s@),
{
    let chars = chars_of(s);
    kb_of_chars(chars.as_slice())
}

fn kb_of_chars(s: &[char]) -> (kb: u64)
    ensures
        kb == kb_of(s@),
{
    match parse_unsigned(leading_word(trim(s)), u64::MAX) {
        Some(n) => n,
        None => 0,
    }
}

/// A number reads back from its decimal notation.
pub proof fn law_decimal_reads_back(n: nat, max: nat)
    requires
        n <= max,
    ensures
        parsed_unsigned(decimal(n), max) == Some(n),
{
    lemma_decimal_digits(n);
}

/// Decimal notation is digits, and they stand for the number.
pub proof fn lemma_decimal_digits(n: nat)
    ensures
        is_number(decimal(n)),
        digits_number(decimal(n)) == n,
        decimal(n)[0] != '+',
    decreases n,
{
    let s = decimal(n);
    if n >= 10 {
        lemma_decimal_digits(n / 10);
        assert(s.drop_last() =~= decimal(n / 10));
        assert(s[0] == decimal(n / 10)[0]);
    } else {
        assert(s.drop_last() =~= Seq::<char>::empty());
        assert(digits_number(s.drop_last()) == 0);
    }
}

/// Leading characters of a class, up to one that is not in it.
pub proof fn lemma_leading_is(s: Seq<char>, class: CharClass, n: nat)
    requires
        n <= s.len(),
        forall|i: int| 0 <= i < n ==> class.has(#[trigger] s[i]),
        n < s.len() ==> !class.has(s[n as int]),
    ensures
        leading(s, class) == n,
    decreases n,
{
    if n > 0 {
        assert(class.has(s[0]));
        lemma_leading_is(s.drop_first(), class, (n - 1) as nat);
    }
}

/// A number that ends at a space is the first word.
pub proof fn lemma_first_word_is_decimal(n: nat, rest: Seq<char>)
    ensures
        first_word(decimal(n) + seq![' '] + rest) == decimal(n),
{
    let s = decimal(n) + seq![' '] + rest;
    lemma_decimal_digits(n);
    assert(s[0] == decimal(n)[0]);
    assert(48 <= decimal(n)[0] as u32 <= 57);
    lemma_leading_is(s, CharClass::AsciiSpace, 0);
    assert(s.skip(0) =~= s);
    assert forall|i: int| 0 <= i < decimal(n).len() implies CharClass::Word.has(#[trigger] s[i]) by {
        assert(s[i] == decimal(n)[i]);
    }
    lemma_leading_is(s, CharClass::Word, decimal(n).len());
    assert(s.take(decimal(n).len() as int) =~= decimal(n));
}

/// The value of a size line such as `\t   12345 kB` reads back, whatever
/// whitespace stands before the number.
pub proof fn law_size_reads_back(padding: Seq<char>, n: u64)
    requires
        forall|i: int| 0 <= i < padding.len() ==> is_ascii_space(#[trigger] padding[i]),
    ensures
        kb_of(padding + decimal(n as nat) + " kB"@) == n,
{
    let d = decimal(n as nat);
    let s = padding + d + " kB"@;
    let t = d + " kB"@;
    reveal_strlit(" kB");
    lemma_decimal_digits(n as nat);
    assert forall|i: int| 0 <= i < padding.len() implies CharClass::WhiteSpace.has(
        #[trigger] s[i],
    ) by {
        assert(s[i] == padding[i]);
    }
    assert(s[padding.len() as int] == d[0]);
    assert(48 <= d[0] as u32 <= 57);
    lemma_leading_is(s, CharClass::WhiteSpace, padding.len());
    assert(s.skip(padding.len() as int) =~= t);
    assert(t.last() == 'B');
    assert(trailing(t, CharClass::WhiteSpace) == 0);
    assert(t.take(t.len() as int) =~= t);
    assert(" kB"@ =~= seq![' '] + "kB"@) by {
        reveal_strlit("kB");
    }
    assert(t =~= d + seq![' '] + "kB"@);
    lemma_first_word_is_decimal(n as nat, "kB"@);
    law_decimal_reads_back(n as nat, u64::MAX as nat);
}

/// The value of a kilobyte field, zero where it is missing.
pub open spec fn kb_field(lines: Seq<Seq<char>>, key: Seq<char>) -> u64 {
    match field(lines, key) {
        Some(value) => kb_of(value) as u64,
        None => 0,
    }
}

/// The resident-set sizes that a status text gives; zero where the text could
/// not be read.
pub open spec fn rss_of(status: Option<Seq<char>>) -> RssSample {
    match status {
        None => RssSample { current_kb: 0, peak_kb: 0 },
        Some(text) => RssSample {
            current_kb: kb_field(lines(text), "VmRSS:"@),
            peak_kb: kb_field(lines(text), "VmHWM:"@),
        },
    }
}

/// The characters of an optional string slice.
pub open spec fn view_of(s: Option<&str>) -> Option<Seq<char>> {
    match s {
        Some(s) => Some(s@),
        None => None,
    }
}

/// The lines of a text are its first line and the lines of the rest.
pub proof fn lemma_lines_step(done: Seq<Seq<char>>, s: Seq<char>)
    requires
        s.len() > 0,
    ensures
        done + lines(s) == done.push(first_line(s)) + lines(after_first_line(s)),
{
    assert(done + (seq![first_line(s)] + lines(after_first_line(s))) =~= done.push(first_line(s))
        + lines(after_first_line(s)));
}

/// A line that starts with one of two different keys of equal length does not
/// start with the other.
pub proof fn lemma_keys_exclude(s: Seq<char>, a: Seq<char>, b: Seq<char>, i: int)
    requires
        starts_with(s, a),
        0 <= i < a.len(),
        i < b.len(),
        a[i] != b[i],
    ensures
        !starts_with(s, b),
{
    if starts_with(s, b) {
        assert(s.take(a.len() as int)[i] == s[i]);
        assert(s.take(b.len() as int)[i] == s[i]);
    }
}

/// The current and the peak resident-set size from the text of
/// `/proc/self/status`; zero where the text could not be read.
pub fn read_rss(status: Option<&str>) -> (sample: RssSample)
    ensures
        sample == rss_of(view_of(status)),
{
    let text = match status {
        Some(text) => text,
        None => {
            return RssSample::default();
        },
    };
    let chars = chars_of(text);
    let mut rest: &[char] = chars.as_slice();
    let mut sample = RssSample::default();
    let ghost mut done: Seq<Seq<char>> = Seq::empty();
    proof {
        assert(done + lines(text@) =~= lines(text@));
    }
    while rest.len() > 0
        invariant
            lines(text@) == done + lines(rest@),
            sample.current_kb == kb_field(done, "VmRSS:"@),
            sample.peak_kb == kb_field(done, "VmHWM:"@),
        decreases rest@.len(),
    {
        let (line, next) = split_line(rest);
        proof {
            lemma_lines_step(done, rest@);
            assert(done.push(line@).drop_last() =~= done);
            done = done.push(line@);
            reveal_strlit("VmRSS:");
            reveal_strlit("VmHWM:");
            if starts_with(line@, "VmRSS:"@) {
                lemma_keys_exclude(line@, "VmRSS:"@, "VmHWM:"@, 2);
            }
        }
        if let Some(value) = strip_prefix(line, "VmRSS:") {
            sample.current_kb = kb_of_chars(value);
        } else if let Some(value) = strip_prefix(line, "VmHWM:") {
            sample.peak_kb = kb_of_chars(value);
        }
        rest = next;
    }
    assert(done + lines(rest@) =~= done);
    sample
}

} // verus!
