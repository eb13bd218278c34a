//! JSON records.

use vstd::prelude::*;

use crate::double::{in_units, Double, Float};
use crate::json_sink::{
    escaped, escaped_char, json_line, json_text, law_escaped_name_reads_back, read_record, record_of,
    seconds_text,
};
use crate::laws::numbers::law_fixed_notation;
use crate::text::{decimal, last_digits, power_of_ten};

verus! {

/// Characters that can stand in a JSON string are written as they are, and a
/// name is written character by character.
pub proof fn law_names_are_written_char_by_char(a: Seq<char>, b: Seq<char>, c: char)
    ensures
        escaped(Seq::empty()).len() == 0,
        escaped(a + b) == escaped(a) + escaped(b),
        c != '"' && c != '\\' && c as u32 >= 0x20 ==> escaped(seq![c]) == seq![c],
        escaped(seq!['"']) == "\\\""@,
        escaped(seq!['\\']) == "\\\\"@,
        escaped(seq!['\n']) == "\\u000a"@,
    decreases a.len(),
{
    assert forall|x: char| #[trigger] escaped(seq![x]) == escaped_char(x) by {
        let s = seq![x];
        assert(s.drop_first() =~= Seq::<char>::empty());
        assert(escaped(s.drop_first()) =~= Seq::<char>::empty());
        assert(escaped(s) =~= escaped_char(x));
    }
    reveal_strlit("\\\"");
    reveal_strlit("\\\\");
    reveal_strlit("\\u000a");
    assert(escaped(seq!['"']) =~= "\\\""@);
    assert(escaped(seq!['\\']) =~= "\\\\"@);
    assert(escaped(seq!['\n']) =~= "\\u000a"@);
    if a.len() == 0 {
        assert(a + b =~= b);
        assert(escaped(a) + escaped(b) =~= escaped(b));
    } else {
        law_names_are_written_char_by_char(a.drop_first(), b, c);
        assert((a + b).drop_first() =~= a.drop_first() + b);
        assert(escaped(a + b) =~= escaped(a) + escaped(b));
    }
}

/// A record is `{"span":"<name>","seconds":<seconds>}` and a line feed.
pub proof fn law_shape_of_a_record(name: Seq<char>, seconds: Float)
    ensures
        json_line(name, seconds) == "{\"span\":\""@ + escaped(name) + "\",\"seconds\":"@
            + seconds_text(seconds) + "}\n"@,
{
}

/// Where a sink is set there is a record, which reads back as the name and the
/// seconds; and else none.
pub proof fn law_records_need_a_sink(name: Seq<char>, seconds: Float)
    ensures
        record_of(false, name, seconds) is None,
        record_of(true, name, seconds) is Some,
        read_record(record_of(true, name, seconds)->0) == Some((name, seconds_text(seconds))),
{
    lemma_record_of_text(name, seconds_text(seconds));
}

/// Seconds are written with six decimals, as the count of microseconds that is
/// nearest, with a minus sign where they are negative.
pub proof fn law_seconds_of_a_record(negative: bool, magnitude: Double)
    ensures
        ({
            let micros = in_units(magnitude@, 6);
            let exact = magnitude@.num() * 1_000_000;
            let digits = decimal(micros / 1_000_000) + "."@ + last_digits(micros, 6);
            &&& seconds_text(Float::Finite { negative, magnitude }) == if negative {
                "-"@ + digits
            } else {
                digits
            }
            &&& 2 * exact <= 2 * (micros * magnitude@.den()) + magnitude@.den()
            &&& 2 * (micros * magnitude@.den()) <= 2 * exact + magnitude@.den()
        }),
{
    reveal_with_fuel(power_of_ten, 7);
    assert(power_of_ten(6) == 1_000_000);
    law_fixed_notation(magnitude@, 6);
}

/// A record whose seconds are `text` reads back.
pub proof fn lemma_record_of_text(name: Seq<char>, text: Seq<char>)
    ensures
        read_record(json_text(name, text)) == Some((name, text)),
{
    let line = json_text(name, text);
    let (before, between, after) = ("{\"span\":\""@, ",\"seconds\":"@, "}\n"@);
    let rest = between + text + after;
    reveal_strlit("\",\"seconds\":");
    reveal_strlit(",\"seconds\":");
    assert("\",\"seconds\":"@ =~= seq!['"'] + between);
    assert(line =~= before + (escaped(name) + seq!['"'] + rest));
    assert(line.take(before.len() as int) =~= before);
    assert(line.skip(before.len() as int) =~= escaped(name) + seq!['"'] + rest);
    law_escaped_name_reads_back(name, rest);
    let end = rest.len() - after.len();
    assert(rest.take(between.len() as int) =~= between);
    assert(rest.skip(end) =~= after);
    assert(rest.subrange(between.len() as int, end) =~= text);
}

} // verus!
