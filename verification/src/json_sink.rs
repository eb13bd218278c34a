//! Machine-readable per-span timing records.
//!
//! The human timeline and the streaming one-liners go to a writer for eyes;
//! a sink takes one JSON object per closed span, as JSON Lines:
//!
//! ```json
//! {"span":"aiur/prove","seconds":1.234567}
//! ```
//!
//! so a benchmark harness can aggregate per-phase timings without scraping
//! the formatted timeline. Off unless [`to_file`] has been called.

use vstd::prelude::*;

use crate::double::{fixed, in_units, Float};
use crate::format::text_of;
use crate::proc_status::{is_number, lemma_decimal_digits, starts_with};
use crate::text::{decimal, last_digits, power_of_ten};

verus! {

/// Where records go: nowhere, or to the open file `file`.
pub struct Sink<F> {
    pub file: Option<F>,
}

/// A hexadecimal digit.
pub open spec fn hex_digit(d: nat) -> char {
    if d < 10 {
        ((48 + d) as u8) as char
    } else {
        ((87 + d) as u8) as char
    }
}

/// A character of a name, escaped where it cannot stand in a JSON string as it
/// is: a backslash, a quote or a control character.
pub open spec fn escaped_char(c: char) -> Seq<char> {
    if c == '\\' {
        seq!['\\', '\\']
    } else if c == '"' {
        seq!['\\', '"']
    } else if (c as u32) < 0x20 {
        seq![
            '\\',
            'u',
            '0',
            '0',
            hex_digit((c as u32 / 16) as nat),
            hex_digit((c as u32 % 16) as nat),
        ]
    } else {
        seq![c]
    }
}

/// A name as the body of a JSON string.
pub open spec fn escaped(name: Seq<char>) -> Seq<char>
    decreases name.len(),
{
    if name.len() == 0 {
        Seq::empty()
    } else {
        escaped_char(name[0]) + escaped(name.drop_first())
    }
}

/// The record of one timing, with its line ending, from the text of its
/// seconds.
pub open spec fn json_text(name: Seq<char>, seconds: Seq<char>) -> Seq<char> {
    "{\"span\":\""@ + escaped(name) + "\",\"seconds\":"@ + seconds + "}\n"@
}

/// A number of seconds as a JSON value: with six decimals, and `null` where it
/// is not finite, for which JSON has no number.
pub open spec fn seconds_text(seconds: Float) -> Seq<char> {
    match seconds {
        Float::Finite { negative, magnitude } => if negative {
            "-"@ + fixed(magnitude@, 6)
        } else {
            fixed(magnitude@, 6)
        },
        _ => "null"@,
    }
}

/// The record of one timing, with its line ending.
pub open spec fn json_line(name: Seq<char>, seconds: Float) -> Seq<char> {
    json_text(name, seconds_text(seconds))
}

/// What is recorded of one timing: a line where a sink is set, and else
/// nothing.
pub open spec fn record_of(active: bool, name: Seq<char>, seconds: Float) -> Option<Seq<char>> {
    if active {
        Some(json_line(name, seconds))
    } else {
        None
    }
}

/// Send records to `file` from now on. The most recent call wins.
pub fn to_file<F>(sink: &mut Sink<F>, file: F)
    ensures
        final(sink).file == Some(file),
{
    sink.file = Some(file);
}

/// Whether a sink is active (lets the tracker skip work when it isn't).
pub fn is_active<F>(sink: &Sink<F>) -> (active: bool)
    ensures
        active == sink.file is Some,
{
    sink.file.is_some()
}

/// Record a phase timing directly, without a tracing span. For consumers that
/// already measured a phase by hand and want it in the same per-phase stream
/// as span-derived timings. Seconds that are not finite are recorded as `null`.
/// `None` when no sink is set.
pub fn record_manual<F>(sink: &Sink<F>, name: &str, seconds: Float) -> (line: Option<String>)
    ensures
        text_of(line) == record_of(sink.file is Some, name@, seconds),
{
    record(sink, name, seconds)
}

/// One span's timing as a JSON line, for the caller to append to the sink's
/// file. `None` when no sink is set.
pub fn record<F>(sink: &Sink<F>, name: &str, seconds: Float) -> (line: Option<String>)
    ensures
        text_of(line) == record_of(sink.file is Some, name@, seconds),
{
    if !is_active(sink) {
        return None;
    }
    Some(format_record(name, seconds))
}

/// Formats the record of one timing.
pub fn format_record(name: &str, seconds: Float) -> (line: String)
    ensures
        line@ == json_line(name@, seconds),
{
    let mut line = String::new();
    line.append("{\"span\":\"");
    push_escaped(&mut line, name);
    line.append("\",\"seconds\":");
    push_seconds(&mut line, seconds);
    line.append("}\n");
    assert(line@ =~= json_line(name@, seconds));
    line
}

/// Appends a number of seconds as a JSON value.
fn push_seconds(out: &mut String, seconds: Float)
    ensures
        final(out)@ == old(out)@ + seconds_text(seconds),
{
    match seconds {
        Float::Finite { negative, magnitude } => {
            if negative {
                out.append("-");
            }
            magnitude.push_fixed(out, 6);
            assert(out@ =~= old(out)@ + seconds_text(seconds));
        },
        _ => out.append("null"),
    }
}

fn hex_char(d: u8) -> (c: char)
    requires
        d < 16,
    ensures
        c == hex_digit(d as nat),
{
    if d < 10 {
        (48 + d) as char
    } else {
        (87 + d) as char
    }
}

/// Appends a name as the body of a JSON string.
fn push_escaped(out: &mut String, name: &str)
    ensures
        final(out)@ == old(out)@ + escaped(name@),
{
    assert(name@.skip(0) =~= name@);
    for c in it: name.chars()
        invariant
            it.seq() == name@,
            out@ + escaped(name@.skip(it.index() as int)) =~= old(out)@ + escaped(name@),
    {
        let ghost rest = name@.skip(it.index() as int);
        let ghost before = out@;
        assert(rest[0] == c);
        assert(rest.drop_first() =~= name@.skip(it.index() + 1));
        push_escaped_char(out, c);
        assert(out@ =~= before + escaped_char(c));
    }
    assert(escaped(name@.skip(name@.len() as int)) =~= Seq::<char>::empty());
}

/// Appends a character of a JSON string.
fn push_escaped_char(out: &mut String, c: char)
    ensures
        final(out)@ == old(out)@ + escaped_char(c),
{
    let code: u32 = c as u32;
    if c == '\\' || c == '"' {
        out.push('\\');
        out.push(c);
    } else if code < 0x20 {
        out.append("\\u00");
        out.push(hex_char((code / 16) as u8));
        out.push(hex_char((code % 16) as u8));
        proof {
            reveal_strlit("\\u00");
        }
    } else {
        out.push(c);
    }
    assert(out@ =~= old(out)@ + escaped_char(c));
}

/// The value of a hexadecimal digit of either case.
pub open spec fn hex_value(c: char) -> Option<nat> {
    let u = c as u32;
    if 48 <= u <= 57 {
        Some((u - 48) as nat)
    } else if 97 <= u <= 102 {
        Some((u - 87) as nat)
    } else if 65 <= u <= 70 {
        Some((u - 55) as nat)
    } else {
        None
    }
}

/// The number that the first four characters give in hexadecimal.
pub open spec fn read_hex(s: Seq<char>) -> Option<nat> {
    if s.len() < 4 {
        None
    } else {
        match (hex_value(s[0]), hex_value(s[1]), hex_value(s[2]), hex_value(s[3])) {
            (Some(a), Some(b), Some(c), Some(d)) => Some(4096 * a + 256 * b + 16 * c + d),
            _ => None,
        }
    }
}

/// Reads what follows the backslash of an escape in a JSON string: the
/// character, and how many characters of `s` stand for it. A character beyond
/// the first plane is a pair of surrogates, which cannot stand alone.
pub open spec fn read_escape(s: Seq<char>) -> Option<(char, int)> {
    if s.len() == 0 {
        None
    } else if s[0] == '"' || s[0] == '\\' || s[0] == '/' {
        Some((s[0], 1))
    } else if s[0] == 'b' {
        Some(('\x08', 1))
    } else if s[0] == 'f' {
        Some(('\x0C', 1))
    } else if s[0] == 'n' {
        Some(('\n', 1))
    } else if s[0] == 'r' {
        Some(('\r', 1))
    } else if s[0] == 't' {
        Some(('\t', 1))
    } else if s[0] == 'u' {
        match read_hex(s.skip(1)) {
            None => None,
            Some(unit) => if 0xd800 <= unit < 0xdc00 {
                if s.len() >= 11 && s[5] == '\\' && s[6] == 'u' {
                    match read_hex(s.skip(7)) {
                        None => None,
                        Some(low) => if 0xdc00 <= low < 0xe000 {
                            Some(
                                (
                                    (0x1_0000 + 0x400 * (unit - 0xd800) + (low - 0xdc00)) as char,
                                    11,
                                ),
                            )
                        } else {
                            None
                        },
                    }
                } else {
                    None
                }
            } else if 0xdc00 <= unit < 0xe000 {
                None
            } else {
                Some((unit as char, 5))
            },
        }
    } else {
        None
    }
}

/// Reads the body of a JSON string up to its closing quote: the characters,
/// with escapes resolved, and what follows the quote. `None` where it is no
/// JSON string: it does not end, an escape is none of JSON's, or a control
/// character is not escaped.
pub open spec fn read_string(s: Seq<char>) -> Option<(Seq<char>, Seq<char>)>
    decreases s.len(),
{
    if s.len() == 0 || (s[0] as u32) < 0x20 {
        None
    } else if s[0] == '"' {
        Some((Seq::empty(), s.skip(1)))
    } else if s[0] == '\\' {
        match read_escape(s.skip(1)) {
            Some((c, n)) => match read_string(s.skip(1 + n)) {
                Some((body, rest)) => Some((seq![c] + body, rest)),
                None => None,
            },
            None => None,
        }
    } else {
        match read_string(s.skip(1)) {
            Some((body, rest)) => Some((seq![s[0]] + body, rest)),
            None => None,
        }
    }
}

proof fn lemma_hex_reads_back(d: nat)
    requires
        d < 16,
    ensures
        hex_value(hex_digit(d)) == Some(d),
        hex_digit(d) != '\n',
{
}

/// An escaped control character reads back.
proof fn lemma_control_reads_back(c: char, t: Seq<char>)
    requires
        (c as u32) < 0x20,
    ensures
        read_escape((escaped_char(c) + t).skip(1)) == Some((c, 5int)),
        (escaped_char(c) + t).skip(6) == t,
        (escaped_char(c) + t)[0] == '\\',
{
    let s = escaped_char(c) + t;
    let u = s.skip(1);
    let h = u.skip(1);
    lemma_hex_reads_back((c as u32 / 16) as nat);
    lemma_hex_reads_back((c as u32 % 16) as nat);
    assert(u[0] == 'u');
    assert(h[0] == '0' && h[1] == '0');
    assert(h[2] == hex_digit((c as u32 / 16) as nat));
    assert(h[3] == hex_digit((c as u32 % 16) as nat));
    assert(read_hex(h) == Some(c as u32 as nat));
    assert((c as u32 as nat) as char == c);
    assert(s.skip(6) =~= t);
}

/// A character of a string reads back.
proof fn lemma_char_reads_back(c: char, t: Seq<char>, body: Seq<char>, rest: Seq<char>)
    requires
        read_string(t) == Some((body, rest)),
    ensures
        read_string(escaped_char(c) + t) == Some((seq![c] + body, rest)),
{
    let s = escaped_char(c) + t;
    if c == '\\' || c == '"' {
        assert(s[0] == '\\' && s.skip(1)[0] == c);
        assert(read_escape(s.skip(1)) == Some((c, 1int)));
        assert(s.skip(2) =~= t);
    } else if (c as u32) < 0x20 {
        lemma_control_reads_back(c, t);
    } else {
        assert(s[0] == c);
        assert(s.skip(1) =~= t);
    }
}

/// Escaping keeps a name intact: a reader of the escaped name finds its
/// closing quote where the name ends, and gets the name back.
pub proof fn law_escaped_name_reads_back(name: Seq<char>, rest: Seq<char>)
    ensures
        read_string(escaped(name) + seq!['"'] + rest) == Some((name, rest)),
    decreases name.len(),
{
    let s = escaped(name) + seq!['"'] + rest;
    if name.len() == 0 {
        assert(s =~= seq!['"'] + rest);
        assert(s.skip(1) =~= rest);
        assert(name =~= Seq::<char>::empty());
    } else {
        let (c, tail) = (name[0], name.drop_first());
        let t = escaped(tail) + seq!['"'] + rest;
        law_escaped_name_reads_back(tail, rest);
        lemma_char_reads_back(c, t, tail, rest);
        assert(s =~= escaped_char(c) + t);
        assert(seq![c] + tail =~= name);
    }
}

/// The JSON number of a sign, a whole number and decimals.
pub open spec fn json_number(negative: bool, whole: nat, decimals: Seq<char>) -> Seq<char> {
    (if negative {
        "-"@
    } else {
        Seq::empty()
    }) + decimal(whole) + "."@ + decimals
}

/// Whether `s` is a JSON number with decimals: an optional minus sign, a whole
/// number without leading zeros, a point and digits.
pub open spec fn is_json_number(s: Seq<char>) -> bool {
    exists|negative: bool, whole: nat, decimals: Seq<char>|
        s == #[trigger] json_number(negative, whole, decimals) && is_number(decimals)
}

proof fn lemma_is_json_number(negative: bool, whole: nat, decimals: Seq<char>)
    requires
        is_number(decimals),
    ensures
        is_json_number(json_number(negative, whole, decimals)),
{
    let s = json_number(negative, whole, decimals);
    assert(s == json_number(negative, whole, decimals) && is_number(decimals));
}

/// Reads a line as a JSON object with a string `span` and a value `seconds`:
/// the characters of the string, and the text of the value.
pub open spec fn read_record(line: Seq<char>) -> Option<(Seq<char>, Seq<char>)> {
    let (before, between, after) = ("{\"span\":\""@, ",\"seconds\":"@, "}\n"@);
    if !starts_with(line, before) {
        None
    } else {
        match read_string(line.skip(before.len() as int)) {
            Some((name, rest)) => {
                let end = rest.len() - after.len();
                if starts_with(rest, between) && between.len() <= end && rest.skip(end) == after {
                    Some((name, rest.subrange(between.len() as int, end)))
                } else {
                    None
                }
            },
            None => None,
        }
    }
}

/// A record is a JSON object, whatever the name and the seconds: its `span`
/// reads as the name, and its `seconds` are a number, or `null` where they are
/// not finite.
pub proof fn law_record_reads_back(name: Seq<char>, seconds: Float)
    ensures
        read_record(json_line(name, seconds)) == Some((name, seconds_text(seconds))),
        seconds is Finite ==> is_json_number(seconds_text(seconds)),
        !(seconds is Finite) ==> seconds_text(seconds) == "null"@,
{
    let line = json_line(name, seconds);
    let (before, between, after) = ("{\"span\":\""@, ",\"seconds\":"@, "}\n"@);
    let text = seconds_text(seconds);
    let rest = between + text + after;
    reveal_strlit("\",\"seconds\":");
    reveal_strlit(",\"seconds\":");
    assert("\",\"seconds\":"@ =~= seq!['"'] + between);
    assert(line =~= before + (escaped(name) + seq!['"'] + rest));
    assert(line.take(before.len() as int) =~= before);
    assert(line.skip(before.len() as int) =~= escaped(name) + seq!['"'] + rest);
    law_escaped_name_reads_back(name, rest);
    let end = rest.len() - after.len();
    assert(rest.take(between.len() as int) =~= between);
    assert(rest.skip(end) =~= after);
    assert(rest.subrange(between.len() as int, end) =~= text);
    if let Float::Finite { negative, magnitude } = seconds {
        let n = in_units(magnitude@, 6);
        let (whole, decimals) = (n / power_of_ten(6), last_digits(n, 6));
        lemma_last_digits(n, 6);
        reveal_strlit(".");
        assert(text =~= json_number(negative, whole, decimals));
        lemma_is_json_number(negative, whole, decimals);
    }
}

/// Whether no line ends inside `s`.
pub open spec fn is_one_line(s: Seq<char>) -> bool {
    forall|i: int| 0 <= i < s.len() ==> #[trigger] s[i] != '\n'
}

/// A record is one line, whatever the name: its only line feed is its last
/// character.
pub proof fn law_record_is_one_line(name: Seq<char>, seconds: Float)
    ensures
        json_line(name, seconds).last() == '\n',
        is_one_line(json_line(name, seconds).drop_last()),
{
    let line = json_line(name, seconds);
    reveal_strlit("{\"span\":\"");
    reveal_strlit("\",\"seconds\":");
    reveal_strlit("}\n");
    reveal_strlit("}");
    lemma_escaped_is_one_line(name);
    lemma_seconds_are_one_line(seconds);
    let text = "{\"span\":\""@ + escaped(name) + "\",\"seconds\":"@ + seconds_text(seconds) + "}"@;
    assert(is_one_line(text)) by {
        assert(is_one_line("{\"span\":\""@));
        assert(is_one_line("\",\"seconds\":"@));
        assert(is_one_line("}"@));
    }
    assert(line.drop_last() =~= text);
}

proof fn lemma_escaped_is_one_line(name: Seq<char>)
    ensures
        is_one_line(escaped(name)),
    decreases name.len(),
{
    if name.len() > 0 {
        lemma_escaped_is_one_line(name.drop_first());
        let c = name[0];
        if (c as u32) < 0x20 {
            lemma_hex_reads_back((c as u32 / 16) as nat);
            lemma_hex_reads_back((c as u32 % 16) as nat);
        }
        assert(is_one_line(escaped_char(c)));
    }
}

proof fn lemma_seconds_are_one_line(seconds: Float)
    ensures
        is_one_line(seconds_text(seconds)),
{
    reveal_strlit("null");
    reveal_strlit("-");
    if let Float::Finite { negative, magnitude } = seconds {
        let n = in_units(magnitude@, 6);
        lemma_decimal_digits(n / power_of_ten(6));
        lemma_last_digits(n, 6);
        lemma_digits_are_one_line(decimal(n / power_of_ten(6)));
        lemma_digits_are_one_line(last_digits(n, 6));
        assert(is_one_line(fixed(magnitude@, 6)));
    }
}

proof fn lemma_digits_are_one_line(s: Seq<char>)
    requires
        is_number(s),
    ensures
        is_one_line(s),
{
    assert forall|i: int| 0 <= i < s.len() implies #[trigger] s[i] != '\n' by {
        assert(48 <= s[i] as u32 <= 57);
    }
}

proof fn lemma_last_digits(n: nat, places: nat)
    requires
        places > 0,
    ensures
        is_number(last_digits(n, places)),
    decreases places,
{
    if places > 1 {
        lemma_last_digits(n / 10, (places - 1) as nat);
    } else {
        assert(last_digits(n / 10, 0) =~= Seq::<char>::empty());
    }
}

} // verus!
