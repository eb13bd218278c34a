use tracing_texray::chart::{RenderSettings, Types};
use tracing_texray::double::Float;
use tracing_texray::fields::FieldSettings;
use tracing_texray::interest::InterestTracker;
use tracing_texray::json_sink::{is_active, record, record_manual, to_file, Sink};
use tracing_texray::span::SpanInfo;
use tracing_texray::time::{Duration, Timestamp};

fn float(x: f64) -> Float {
    Float::from_bits(x.to_bits())
}

fn in_floats(name: &str, seconds: f64) -> String {
    let esc = name.replace('\\', "\\\\").replace('"', "\\\"");
    format!("{{\"span\":\"{esc}\",\"seconds\":{seconds:.6}}}\n")
}

#[test]
fn records_are_json_lines() {
    let sink = Sink { file: Some(()) };
    assert_eq!(
        record(&sink, "aiur/prove", float(1.234567)).unwrap(),
        "{\"span\":\"aiur/prove\",\"seconds\":1.234567}\n"
    );
    let cases = [("", 0.0), ("a\"b", 0.1), ("\\", 2.5e-7), ("\\\"\\", 1e12), ("né\u{7f}", -3.25), ("n", -0.0)];
    for (name, seconds) in cases {
        let line = in_floats(name, seconds);
        assert_eq!(record(&sink, name, float(seconds)).unwrap(), line);
        assert_eq!(record_manual(&sink, name, float(seconds)).unwrap(), line);
    }
}

#[test]
fn records_need_a_sink_and_the_last_file_wins() {
    let mut sink: Sink<u8> = Sink { file: None };
    assert!(!is_active(&sink));
    assert_eq!(record(&sink, "a", float(1.0)), None);
    assert_eq!(record_manual(&sink, "a", float(1.0)), None);
    to_file(&mut sink, 1);
    to_file(&mut sink, 2);
    assert!(is_active(&sink));
    assert_eq!(sink.file, Some(2));
}

#[test]
fn control_characters_are_escaped() {
    let sink = Sink { file: Some(()) };
    assert_eq!(
        record_manual(&sink, "a\nb\tc\u{0}\u{1f} ", float(1.0)).unwrap(),
        "{\"span\":\"a\\u000ab\\u0009c\\u0000\\u001f \",\"seconds\":1.000000}\n"
    );
    for code in 0..0x20u8 {
        let name = (code as char).to_string();
        let line = record(&sink, &name, float(1.0)).unwrap();
        assert!(line.contains(&format!("\"\\u{code:04x}\"")), "{line:?}");
        assert_eq!(line.lines().count(), 1);
    }
}

#[test]
fn seconds_that_are_no_numbers_are_null() {
    let sink = Sink { file: Some(()) };
    for seconds in [f64::NAN, f64::INFINITY, f64::NEG_INFINITY] {
        let line = "{\"span\":\"x\",\"seconds\":null}\n";
        assert_eq!(record_manual(&sink, "x", float(seconds)).unwrap(), line);
    }
}

#[test]
fn names_read_back_from_their_records() {
    let sink = Sink { file: Some(()) };
    let names = [
        "plain", "quote\"", "back\\slash", "\\\"", "\\\\", "\"\"", "mixed \\\"x\\\\", "two\nlines", "\r\n\t\u{8}\u{c}",
        "\\n", "\\u0041", "𝕊pan\u{2028}",
    ];
    for name in names {
        let line = record(&sink, name, float(0.5)).unwrap();
        let body = line.strip_prefix("{\"span\":\"").unwrap();
        let (mut read, mut rest) = (String::new(), body.chars());
        loop {
            match rest.next().unwrap() {
                '"' => break,
                '\\' => match rest.next().unwrap() {
                    'u' => {
                        let hex: String = rest.by_ref().take(4).collect();
                        let code = u32::from_str_radix(&hex, 16).unwrap();
                        read.push(char::from_u32(code).unwrap());
                    }
                    c => {
                        assert!(c == '"' || c == '\\');
                        read.push(c);
                    }
                },
                c => {
                    assert!(c >= ' ');
                    read.push(c);
                }
            }
        }
        assert_eq!(read, name);
        assert_eq!(rest.as_str(), ",\"seconds\":0.500000}\n");
        assert_eq!(line.matches('\n').count(), 1);
    }
}

#[test]
fn exits_record_to_an_active_sink() {
    let settings = RenderSettings {
        width: 80,
        min_duration: None,
        types: Types { spans: true, events: true },
        track_ram: false,
        streaming: false,
    };
    let run = |sink: &Sink<()>, nanos: i128| {
        let mut t = InterestTracker::new(1, settings, FieldSettings::default());
        t.open(vec![1], SpanInfo::for_span(Some("phase/demo"), Timestamp { nanos: 0 }, false, None));
        t.exit(vec![1], Timestamp { nanos }, None, sink)
    };
    let (on, off) = (Sink { file: Some(()) }, Sink { file: None });
    assert_eq!(
        run(&on, 5_000_000).record.unwrap(),
        "{\"span\":\"phase/demo\",\"seconds\":0.005000}\n"
    );
    assert_eq!(run(&off, 5_000_000).record, None);
    assert_eq!(run(&on, -1).record, None);
    for nanos in [0u64, 1, 499, 500, 501, 1_499, 1_500, 2_500, 999_999_500, 123_456_789_012_345_678] {
        let secs = std::time::Duration::from_nanos(nanos).as_secs_f64();
        let mut text = String::new();
        Duration { nanos: nanos as u128 }.as_secs().push_fixed(&mut text, 6);
        assert_eq!(text, format!("{secs:.6}"));
        assert_eq!(run(&on, nanos as i128).record.unwrap(), in_floats("phase/demo", secs));
    }
}
