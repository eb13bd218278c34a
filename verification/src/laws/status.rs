//! Reading status texts.

use vstd::prelude::*;

use crate::format::RssSample;
use crate::proc_status::{
    after_first_line, digits_number, field, first_line, first_word, is_ascii_space, is_number,
    is_white_space, kb_of, law_decimal_reads_back, lemma_decimal_digits, lemma_leading_is, lines,
    parsed_unsigned, rss_of, starts_with, trailing, trimmed, CharClass,
};
use crate::rss_sampler::{leading_kb, status_of};
use crate::text::decimal;

verus! {

/// Whether `s` holds no line feed.
pub open spec fn is_line(s: Seq<char>) -> bool {
    forall|i: int| 0 <= i < s.len() ==> #[trigger] s[i] != '\n'
}

/// `s` without a carriage return at its end.
pub open spec fn without_return(s: Seq<char>) -> Seq<char> {
    if s.len() > 0 && s.last() == '\r' {
        s.drop_last()
    } else {
        s
    }
}

/// A text is split after its line feeds. A carriage return before a line feed
/// belongs to the line's ending, and the last line needs none.
pub proof fn law_texts_are_split_into_lines(line: Seq<char>, rest: Seq<char>)
    requires
        is_line(line),
    ensures
        lines(Seq::empty()).len() == 0,
        line.len() > 0 ==> lines(line) == seq![line],
        lines(line + seq!['\n'] + rest) == seq![without_return(line)] + lines(rest),
        first_line(line) == line,
        first_line(line + seq!['\n'] + rest) == without_return(line),
{
    lemma_leading_is(line, CharClass::Line, line.len());
    assert(line.take(line.len() as int) =~= line);
    assert(after_first_line(line) =~= Seq::<char>::empty());
    assert(lines(after_first_line(line)) =~= Seq::<Seq<char>>::empty());
    let s = line + seq!['\n'] + rest;
    assert(s[line.len() as int] == '\n');
    assert forall|i: int| 0 <= i < line.len() implies CharClass::Line.has(#[trigger] s[i]) by {
        assert(s[i] == line[i]);
    }
    lemma_leading_is(s, CharClass::Line, line.len());
    assert(s.skip(line.len() as int + 1) =~= rest);
    if line.len() > 0 {
        assert(s[line.len() - 1] == line.last());
        assert(s.take(line.len() - 1) =~= line.drop_last());
    }
    assert(s.take(line.len() as int) =~= line);
    if line.len() > 0 {
        assert(lines(line) =~= seq![line]);
    }
}

/// The lines `ls` as a text, each with a line feed.
pub open spec fn as_text(ls: Seq<Seq<char>>) -> Seq<char>
    decreases ls.len(),
{
    if ls.len() == 0 {
        Seq::empty()
    } else {
        ls[0] + seq!['\n'] + as_text(ls.drop_first())
    }
}

/// Whether `ls` can be the lines of a text: none holds a line feed, or ends in
/// a carriage return.
pub open spec fn are_lines(ls: Seq<Seq<char>>) -> bool {
    forall|i: int|
        0 <= i < ls.len() ==> is_line(#[trigger] ls[i]) && without_return(ls[i]) == ls[i]
}

/// The lines of a text read back.
pub proof fn law_lines_read_back(ls: Seq<Seq<char>>)
    requires
        are_lines(ls),
    ensures
        lines(as_text(ls)) == ls,
    decreases ls.len(),
{
    if ls.len() == 0 {
        assert(lines(as_text(ls)) =~= ls);
    } else {
        let rest = ls.drop_first();
        assert(is_line(ls[0]) && without_return(ls[0]) == ls[0]);
        assert(are_lines(rest)) by {
            assert forall|i: int| 0 <= i < rest.len() implies is_line(#[trigger] rest[i])
                && without_return(rest[i]) == rest[i] by {
                assert(rest[i] == ls[i + 1]);
            }
        }
        law_lines_read_back(rest);
        law_texts_are_split_into_lines(ls[0], as_text(rest));
        assert(seq![ls[0]] + rest =~= ls);
    }
}

/// White space around a text is trimmed, and nothing else.
pub proof fn law_trimming(before: Seq<char>, text: Seq<char>, after: Seq<char>)
    requires
        forall|i: int| 0 <= i < before.len() ==> is_white_space(#[trigger] before[i]),
        forall|i: int| 0 <= i < after.len() ==> is_white_space(#[trigger] after[i]),
        text.len() > 0,
        !is_white_space(text[0]),
        !is_white_space(text.last()),
    ensures
        trimmed(before + text + after) == text,
{
    let s = before + text + after;
    assert forall|i: int| 0 <= i < before.len() implies CharClass::WhiteSpace.has(
        #[trigger] s[i],
    ) by {
        assert(s[i] == before[i]);
    }
    assert(s[before.len() as int] == text[0]);
    lemma_leading_is(s, CharClass::WhiteSpace, before.len());
    let t = text + after;
    assert(s.skip(before.len() as int) =~= t);
    lemma_trailing_is(text, after, CharClass::WhiteSpace);
    assert(t.take(text.len() as int) =~= text);
}

proof fn lemma_trailing_is(text: Seq<char>, after: Seq<char>, class: CharClass)
    requires
        forall|i: int| 0 <= i < after.len() ==> class.has(#[trigger] after[i]),
        text.len() > 0,
        !class.has(text.last()),
    ensures
        trailing(text + after, class) == after.len(),
    decreases after.len(),
{
    let t = text + after;
    if after.len() > 0 {
        assert(t.last() == after[after.len() - 1]);
        assert(t.drop_last() =~= text + after.drop_last());
        lemma_trailing_is(text, after.drop_last(), class);
    } else {
        assert(t =~= text);
    }
}

/// The first word stands between ASCII whitespace.
pub proof fn law_first_words(padding: Seq<char>, word: Seq<char>, rest: Seq<char>)
    requires
        forall|i: int| 0 <= i < padding.len() ==> is_ascii_space(#[trigger] padding[i]),
        word.len() > 0,
        forall|i: int| 0 <= i < word.len() ==> !is_ascii_space(#[trigger] word[i]),
        rest.len() > 0 ==> is_ascii_space(rest[0]),
    ensures
        first_word(padding + word + rest) == word,
        first_word(padding).len() == 0,
{
    let s = padding + word + rest;
    let t = word + rest;
    assert forall|i: int| 0 <= i < padding.len() implies CharClass::AsciiSpace.has(
        #[trigger] s[i],
    ) by {
        assert(s[i] == padding[i]);
    }
    assert(s[padding.len() as int] == word[0]);
    lemma_leading_is(s, CharClass::AsciiSpace, padding.len());
    assert(s.skip(padding.len() as int) =~= t);
    assert forall|i: int| 0 <= i < word.len() implies CharClass::Word.has(#[trigger] t[i]) by {
        assert(t[i] == word[i]);
    }
    if rest.len() > 0 {
        assert(t[word.len() as int] == rest[0]);
    }
    lemma_leading_is(t, CharClass::Word, word.len());
    assert(t.take(word.len() as int) =~= word);
    lemma_leading_is(padding, CharClass::AsciiSpace, padding.len());
    assert(padding.skip(padding.len() as int).len() == 0);
}

/// Digits make a number: each one multiplies by ten and adds, up to the limit.
/// A plus sign may lead.
pub proof fn law_integers_are_read(s: Seq<char>, d: nat, max: nat, limit: nat)
    requires
        d < 10,
    ensures
        parsed_unsigned(Seq::empty(), max) is None,
        parsed_unsigned(seq!['+'], max) is None,
        d <= max ==> parsed_unsigned(seq!["0123456789"@[d as int]], max) == Some(d),
        d > max ==> parsed_unsigned(seq!["0123456789"@[d as int]], max) is None,
        parsed_unsigned(s, limit) matches Some(n) ==> parsed_unsigned(
            s.push("0123456789"@[d as int]),
            max,
        ) == if 10 * n + d <= max {
            Some(10 * n + d)
        } else {
            None
        },
        s.len() > 0 && s[0] != '+' ==> parsed_unsigned(seq!['+'] + s, max) == parsed_unsigned(
            s,
            max,
        ),
{
    reveal_strlit("0123456789");
    let c = "0123456789"@[d as int];
    assert(c as u32 == 48 + d);
    assert(seq!['+'].skip(1) =~= Seq::<char>::empty());
    let one = seq![c];
    assert(one.drop_last() =~= Seq::<char>::empty());
    assert(digits_number(one.drop_last()) == 0);
    assert(is_number(one));
    assert(digits_number(one) == d);
    if parsed_unsigned(s, limit) is Some {
        let digits = if s.len() > 0 && s[0] == '+' {
            s.skip(1)
        } else {
            s
        };
        let all = s.push(c);
        let longer = digits.push(c);
        assert(longer.drop_last() =~= digits);
        assert(digits.len() > 0);
        assert(all[0] == s[0]);
        assert(longer =~= if all[0] == '+' {
            all.skip(1)
        } else {
            all
        });
        assert(is_number(longer)) by {
            assert forall|i: int| 0 <= i < longer.len() implies 48 <= #[trigger] longer[i] as u32
                <= 57 by {
                if i < digits.len() {
                    assert(longer[i] == digits[i]);
                }
            }
        }
    }
    if s.len() > 0 && s[0] != '+' {
        assert((seq!['+'] + s).skip(1) =~= s);
    }
}

/// A text with anything but digits in it, after an optional plus sign, is no
/// number.
pub proof fn law_other_texts_are_no_numbers(s: Seq<char>, i: int, max: nat)
    requires
        0 <= i < s.len(),
        !(48 <= s[i] as u32 <= 57),
        i > 0 || s[i] != '+',
    ensures
        parsed_unsigned(s, max) is None,
{
    if s[0] == '+' {
        assert(s.skip(1)[i - 1] == s[i]);
    }
}

/// The size on a line is the number that its first word is, and zero where
/// that is no number.
pub proof fn law_sizes_are_read(padding: Seq<char>, word: Seq<char>, rest: Seq<char>)
    requires
        forall|i: int| 0 <= i < padding.len() ==> is_ascii_space(#[trigger] padding[i]),
        word.len() > 0,
        forall|i: int| 0 <= i < word.len() ==> !is_white_space(#[trigger] word[i]),
        rest.len() > 0 ==> is_ascii_space(rest[0]),
    ensures
        ({
            let size = match parsed_unsigned(word, u64::MAX as nat) {
                Some(n) => n,
                None => 0,
            };
            &&& leading_kb(padding + word + rest) == size
            &&& kb_of(padding + word + rest) == size
        }),
{
    assert forall|i: int| 0 <= i < word.len() implies !is_ascii_space(#[trigger] word[i]) by {
        assert(!is_white_space(word[i]));
    }
    law_first_words(padding, word, rest);
    let s = padding + word + rest;
    assert forall|i: int| 0 <= i < padding.len() implies CharClass::WhiteSpace.has(
        #[trigger] s[i],
    ) by {
        assert(s[i] == padding[i]);
    }
    assert(s[padding.len() as int] == word[0]);
    lemma_leading_is(s, CharClass::WhiteSpace, padding.len());
    let t = word + rest;
    assert(s.skip(padding.len() as int) =~= t);
    let k = trailing(t, CharClass::WhiteSpace);
    lemma_trailing_bound(word, rest, CharClass::WhiteSpace);
    let shorter = rest.take(rest.len() - k);
    assert(trimmed(s) =~= word + shorter);
    law_first_words(Seq::empty(), word, shorter);
    assert(Seq::<char>::empty() + word + shorter =~= word + shorter);
}

proof fn lemma_trailing_bound(text: Seq<char>, after: Seq<char>, class: CharClass)
    requires
        text.len() > 0,
        !class.has(text.last()),
    ensures
        trailing(text + after, class) <= after.len(),
    decreases after.len(),
{
    let t = text + after;
    if after.len() > 0 {
        assert(t.drop_last() =~= text + after.drop_last());
        lemma_trailing_bound(text, after.drop_last(), class);
    } else {
        assert(t =~= text);
    }
}

/// A text starts with a prefix if and only if it is the prefix and a rest.
pub proof fn law_prefixes(s: Seq<char>, prefix: Seq<char>, rest: Seq<char>)
    ensures
        starts_with(prefix + rest, prefix),
        starts_with(s, prefix) ==> s == prefix + s.skip(prefix.len() as int),
{
    assert((prefix + rest).take(prefix.len() as int) =~= prefix);
    if starts_with(s, prefix) {
        assert(s =~= s.take(prefix.len() as int) + s.skip(prefix.len() as int));
    }
}

/// Whether line `i` starts with `key`, and no later line does.
pub open spec fn is_last_with(ls: Seq<Seq<char>>, key: Seq<char>, i: int) -> bool {
    &&& 0 <= i < ls.len()
    &&& starts_with(ls[i], key)
    &&& forall|j: int| i < j < ls.len() ==> !starts_with(#[trigger] ls[j], key)
}

/// The value of a field is what follows its key on the last line that starts
/// with it, whatever the other lines are.
pub proof fn law_fields_of_a_status(ls: Seq<Seq<char>>, key: Seq<char>, i: int)
    ensures
        is_last_with(ls, key, i) ==> field(ls, key) == Some(ls[i].skip(key.len() as int)),
        (forall|j: int| 0 <= j < ls.len() ==> !starts_with(#[trigger] ls[j], key)) ==> field(
            ls,
            key,
        ) is None,
    decreases ls.len(),
{
    if ls.len() > 0 {
        let shorter = ls.drop_last();
        if !starts_with(ls.last(), key) {
            if is_last_with(ls, key, i) {
                assert(shorter[i] == ls[i]);
                assert forall|j: int| i < j < shorter.len() implies !starts_with(
                    #[trigger] shorter[j],
                    key,
                ) by {
                    assert(shorter[j] == ls[j]);
                }
            }
            if forall|j: int| 0 <= j < ls.len() ==> !starts_with(#[trigger] ls[j], key) {
                assert forall|j: int| 0 <= j < shorter.len() implies !starts_with(
                    #[trigger] shorter[j],
                    key,
                ) by {
                    assert(shorter[j] == ls[j]);
                }
            }
            law_fields_of_a_status(shorter, key, i);
        } else if is_last_with(ls, key, i) {
            assert(ls[ls.len() - 1] == ls.last());
        } else {
            assert(starts_with(ls[ls.len() - 1], key));
        }
    }
}

/// Whether line `i` of `ls` is the last with `key`, and gives `n` kilobytes.
pub open spec fn gives_size(ls: Seq<Seq<char>>, key: Seq<char>, i: int, padding: Seq<char>, n: u64)
    -> bool {
    &&& is_last_with(ls, key, i)
    &&& ls[i] == key + padding + decimal(n as nat) + " kB"@
    &&& forall|j: int| 0 <= j < padding.len() ==> is_ascii_space(#[trigger] padding[j])
}

proof fn lemma_size_of_line(key: Seq<char>, padding: Seq<char>, n: u64)
    requires
        forall|j: int| 0 <= j < padding.len() ==> is_ascii_space(#[trigger] padding[j]),
    ensures
        ({
            let value = (key + padding + decimal(n as nat) + " kB"@).skip(key.len() as int);
            leading_kb(value) == n && kb_of(value) == n
        }),
{
    let d = decimal(n as nat);
    let value = (key + padding + d + " kB"@).skip(key.len() as int);
    assert(value =~= padding + d + " kB"@);
    reveal_strlit(" kB");
    lemma_decimal_digits(n as nat);
    law_decimal_reads_back(n as nat, u64::MAX as nat);
    assert forall|i: int| 0 <= i < d.len() implies !is_white_space(#[trigger] d[i]) by {
        assert(48 <= d[i] as u32 <= 57);
    }
    law_sizes_are_read(padding, d, " kB"@);
}

/// The resident-set size of a process is the number on its `VmRSS:` line, in
/// kilobytes, whatever the other lines of its status are.
pub proof fn law_resident_size_of_a_process(
    ls: Seq<Seq<char>>,
    i: int,
    padding: Seq<char>,
    n: u64,
)
    requires
        are_lines(ls),
    ensures
        gives_size(ls, "VmRSS:"@, i, padding, n) ==> status_of(as_text(ls)).rss == if 1024 * n
            <= u64::MAX {
            1024 * n
        } else {
            u64::MAX as int
        },
        (forall|j: int| 0 <= j < ls.len() ==> !starts_with(#[trigger] ls[j], "VmRSS:"@))
            ==> status_of(as_text(ls)).rss == 0,
{
    law_lines_read_back(ls);
    law_fields_of_a_status(ls, "VmRSS:"@, i);
    if gives_size(ls, "VmRSS:"@, i, padding, n) {
        lemma_size_of_line("VmRSS:"@, padding, n);
    }
}

/// The parent of a process is the number on its `PPid:` line, whatever the
/// other lines of its status are.
pub proof fn law_parent_of_a_process(ls: Seq<Seq<char>>, i: int, padding: Seq<char>, n: u32)
    requires
        are_lines(ls),
        forall|j: int| 0 <= j < padding.len() ==> is_white_space(#[trigger] padding[j]),
    ensures
        is_last_with(ls, "PPid:"@, i) && ls[i] == "PPid:"@ + padding + decimal(n as nat)
            ==> status_of(as_text(ls)).ppid == n,
        (forall|j: int| 0 <= j < ls.len() ==> !starts_with(#[trigger] ls[j], "PPid:"@))
            ==> status_of(as_text(ls)).ppid == 0,
{
    law_lines_read_back(ls);
    law_fields_of_a_status(ls, "PPid:"@, i);
    if is_last_with(ls, "PPid:"@, i) && ls[i] == "PPid:"@ + padding + decimal(n as nat) {
        let d = decimal(n as nat);
        let value = ls[i].skip("PPid:"@.len() as int);
        assert(value =~= padding + d + Seq::<char>::empty());
        lemma_decimal_digits(n as nat);
        assert(48 <= d[0] as u32 <= 57 && 48 <= d[d.len() - 1] as u32 <= 57);
        law_trimming(padding, d, Seq::empty());
        law_decimal_reads_back(n as nat, u32::MAX as nat);
    }
}

/// What a status gives of a process is on the last `VmRSS:` and the last
/// `PPid:` line, whatever these hold: the size is the one that
/// [`law_sizes_are_read`] tells, and the parent is an integer with white space
/// around it, or zero.
pub proof fn law_status_of_a_process(ls: Seq<Seq<char>>, i: int)
    requires
        are_lines(ls),
    ensures
        is_last_with(ls, "VmRSS:"@, i) ==> {
            let bytes = 1024 * leading_kb(ls[i].skip(6));
            status_of(as_text(ls)).rss == if bytes <= u64::MAX {
                bytes
            } else {
                u64::MAX as nat
            }
        },
        is_last_with(ls, "PPid:"@, i) ==> status_of(as_text(ls)).ppid == match parsed_unsigned(
            trimmed(ls[i].skip(5)),
            u32::MAX as nat,
        ) {
            Some(n) => n,
            None => 0,
        },
{
    reveal_strlit("VmRSS:");
    reveal_strlit("PPid:");
    law_lines_read_back(ls);
    law_fields_of_a_status(ls, "VmRSS:"@, i);
    law_fields_of_a_status(ls, "PPid:"@, i);
}

/// The current and the peak resident-set size are the numbers on the `VmRSS:`
/// and the `VmHWM:` line, zero where there is no such line, and nothing is
/// read without a status.
pub proof fn law_resident_sizes_of_the_process(
    ls: Seq<Seq<char>>,
    i: int,
    padding: Seq<char>,
    n: u64,
)
    requires
        are_lines(ls),
    ensures
        rss_of(None) == (RssSample { current_kb: 0, peak_kb: 0 }),
        gives_size(ls, "VmRSS:"@, i, padding, n) ==> rss_of(Some(as_text(ls))).current_kb == n,
        gives_size(ls, "VmHWM:"@, i, padding, n) ==> rss_of(Some(as_text(ls))).peak_kb == n,
        (forall|j: int| 0 <= j < ls.len() ==> !starts_with(#[trigger] ls[j], "VmRSS:"@)) ==> rss_of(
            Some(as_text(ls)),
        ).current_kb == 0,
        (forall|j: int| 0 <= j < ls.len() ==> !starts_with(#[trigger] ls[j], "VmHWM:"@)) ==> rss_of(
            Some(as_text(ls)),
        ).peak_kb == 0,
{
    law_lines_read_back(ls);
    law_fields_of_a_status(ls, "VmRSS:"@, i);
    law_fields_of_a_status(ls, "VmHWM:"@, i);
    if gives_size(ls, "VmRSS:"@, i, padding, n) {
        lemma_size_of_line("VmRSS:"@, padding, n);
    }
    if gives_size(ls, "VmHWM:"@, i, padding, n) {
        lemma_size_of_line("VmHWM:"@, padding, n);
    }
}

} // verus!
