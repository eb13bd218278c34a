use tracing_texray::format::RssSample;
use tracing_texray::proc_status::{parse_kb, parse_unsigned, read_rss, CharClass};
use tracing_texray::rss_sampler::{
    bump_peak, current_tree_rss_bytes, parse_pid, parse_status, peak_tree_rss_bytes,
    reset_peak_tree_rss, start, ProcessEntry, ProcessStatus, Sampler,
};

fn process(pid: u32, ppid: u32, rss_kb: u64) -> ProcessEntry {
    ProcessEntry {
        pid,
        status: format!("Name:\tp{pid}\nPPid:\t{ppid}\nVmRSS:\t{rss_kb:>8} kB\n"),
    }
}

#[test]
fn character_classes_agree_with_std() {
    for c in (0..=0x10ffff).filter_map(char::from_u32) {
        assert_eq!(CharClass::WhiteSpace.contains(c), c.is_whitespace(), "{c:?}");
        assert_eq!(CharClass::AsciiSpace.contains(c), c.is_ascii_whitespace(), "{c:?}");
        assert_eq!(CharClass::Word.contains(c), !c.is_ascii_whitespace(), "{c:?}");
        assert_eq!(CharClass::Line.contains(c), c != '\n', "{c:?}");
    }
}

#[test]
fn integers_parse_as_std_parses_them() {
    let cases = [
        "", "+", "-", "-1", "+7", "++7", "0", "00", "007", "4294967295", "4294967296", "42 ", " 42",
        "18446744073709551615", "18446744073709551616", "99999999999999999999999", "1e3", "１", "12a",
        "+18446744073709551615", "0000000000000000000000000000000000001",
    ];
    for s in cases {
        let chars: Vec<char> = s.chars().collect();
        assert_eq!(parse_unsigned(&chars, u64::MAX), s.parse::<u64>().ok(), "{s:?}");
        assert_eq!(parse_pid(s), s.parse::<u32>().ok(), "{s:?}");
    }
}

#[test]
fn sizes_parse_whatever_stands_around_them() {
    let reference = |s: &str| -> u64 {
        s.trim().split_ascii_whitespace().next().and_then(|n| n.parse().ok()).unwrap_or(0)
    };
    let cases = [
        "", " ", "\t", "5", "5kB", "+5 kB", "\u{b}5 kB", "\u{a0}\u{2003}5 kB", "5\u{b}kB", "\r\n5 kB",
        "  18446744073709551615  kB", "18446744073709551616 kB", "-5 kB", "5 6 7", "kB 5",
    ];
    for s in cases {
        assert_eq!(parse_kb(s), reference(s), "{s:?}");
    }
    assert_eq!(parse_kb("\u{b}5 kB"), 5);
}

#[test]
fn status_texts_give_the_last_of_each_field() {
    let text = "VmRSS:\t10 kB\r\nVmHWM: 30 kB\nVmRSS: 20 kB\n VmRSS: 99 kB\nxVmHWM: 99 kB";
    assert_eq!(read_rss(Some(text)), RssSample { current_kb: 20, peak_kb: 30 });
    assert_eq!(read_rss(Some("")), RssSample { current_kb: 0, peak_kb: 0 });
    assert_eq!(read_rss(Some("VmHWM:\nVmRSS:8")), RssSample { current_kb: 8, peak_kb: 0 });
}

#[test]
fn statuses_of_processes() {
    assert_eq!(
        parse_status("PPid:\t17 \nVmRSS:\t   3 kB\n"),
        ProcessStatus { ppid: 17, rss: 3 * 1024 }
    );
    assert_eq!(parse_status("nothing here"), ProcessStatus { ppid: 0, rss: 0 });
    // A parent id with more than an integer in it does not count.
    assert_eq!(parse_status("PPid: 1 2\n").ppid, 0);
    assert_eq!(parse_status("PPid: 4294967296\n").ppid, 0);
    // Here only ASCII whitespace is skipped before the size.
    assert_eq!(parse_status("VmRSS: \u{a0}3 kB\n").rss, 0);
    // Bytes are cut off at the largest number.
    assert_eq!(parse_status("VmRSS: 18014398509481983 kB").rss, 18014398509481983 * 1024);
    assert_eq!(parse_status("VmRSS: 18014398509481984 kB").rss, u64::MAX);
}

#[test]
fn totals_include_all_descendants_and_no_others() {
    let scan = vec![
        process(1, 0, 1),
        process(10, 1, 10),
        process(11, 10, 100),
        process(12, 11, 1_000),
        process(13, 10, 10_000),
        process(20, 1, 100_000),
    ];
    assert_eq!(current_tree_rss_bytes(&scan, 10), 11_110 * 1024);
    assert_eq!(current_tree_rss_bytes(&scan, 12), 1_000 * 1024);
    assert_eq!(current_tree_rss_bytes(&scan, 1), 111_111 * 1024);
    assert_eq!(current_tree_rss_bytes(&scan, 99), 0);
    assert_eq!(current_tree_rss_bytes(&vec![], 1), 0);
    let mut reversed = scan;
    reversed.reverse();
    assert_eq!(current_tree_rss_bytes(&reversed, 10), 11_110 * 1024);
}

#[test]
fn children_of_a_root_that_left_count() {
    assert_eq!(current_tree_rss_bytes(&vec![process(5, 4, 2), process(6, 5, 3)], 4), 5 * 1024);
}

#[test]
fn cycles_count_once() {
    let scan = vec![process(1, 3, 1), process(2, 1, 10), process(3, 2, 100), process(4, 4, 1_000)];
    assert_eq!(current_tree_rss_bytes(&scan, 2), 111 * 1024);
    assert_eq!(current_tree_rss_bytes(&scan, 4), 1_000 * 1024);
}

#[test]
fn later_entries_replace_earlier_ones() {
    let scan = vec![process(1, 0, 1), process(2, 1, 10), process(2, 7, 100)];
    assert_eq!(current_tree_rss_bytes(&scan, 1), 1024);
    assert_eq!(current_tree_rss_bytes(&scan, 7), 100 * 1024);
}

#[test]
fn totals_are_cut_off() {
    let big = u64::MAX / 1024;
    let scan = vec![process(1, 0, big), process(2, 1, big)];
    assert_eq!(current_tree_rss_bytes(&scan, 1), u64::MAX);
}

#[test]
fn peaks_grow_until_they_are_reset() {
    let mut s = Sampler { started: false, peak: 0 };
    let scan = |kb| vec![process(1, 0, kb), process(2, 1, kb)];
    assert_eq!(peak_tree_rss_bytes(&s), 0);
    reset_peak_tree_rss(&mut s, &scan(4), 1);
    assert_eq!(peak_tree_rss_bytes(&s), 0);
    assert!(start(&mut s, &scan(10), 1));
    assert_eq!(peak_tree_rss_bytes(&s), 20 * 1024);
    // Starting again is a no-op.
    assert!(!start(&mut s, &scan(1_000), 1));
    assert_eq!(peak_tree_rss_bytes(&s), 20 * 1024);
    bump_peak(&mut s, 5);
    assert_eq!(peak_tree_rss_bytes(&s), 20 * 1024);
    bump_peak(&mut s, 50_000);
    assert_eq!(peak_tree_rss_bytes(&s), 50_000);
    reset_peak_tree_rss(&mut s, &scan(3), 1);
    assert_eq!(peak_tree_rss_bytes(&s), 6 * 1024);
    assert!(!start(&mut s, &scan(1), 1));
    assert_eq!(peak_tree_rss_bytes(&s), 6 * 1024);
}
