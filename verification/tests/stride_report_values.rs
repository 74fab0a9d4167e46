use red_leicester_string::report::{FlagContext, FlagFilter};
use red_leicester_string::searcher::MatchDirection;
use red_leicester_string::stride::{pile_plan, substride, triangle};

#[test]
fn substride_takes_every_nth_byte() {
    assert_eq!(substride(b"abcdefg", 1, 3), b"be".to_vec());
    assert_eq!(substride(b"abcdefg", 0, 1), b"abcdefg".to_vec());
    assert_eq!(substride(b"abcdefg", 9, 2), Vec::<u8>::new());
    assert_eq!(substride(b"abcdefg", 6, 100), b"g".to_vec());
}

#[test]
fn pile_plan_lists_every_offset_of_every_stride() {
    assert_eq!(pile_plan(3), vec![(0, 1), (0, 2), (1, 2), (0, 3), (1, 3), (2, 3)]);
    assert_eq!(pile_plan(32).len(), triangle(32));
    assert_eq!(triangle(32), 528);
    assert_eq!(triangle(8), 36);
    assert_eq!(pile_plan(0), vec![]);
}

#[test]
fn describe_context() {
    let ctx = FlagContext { decoder_name: "UTF8".to_string(), match_direction: MatchDirection::Backward, offset: 1, stride: 2 };
    assert_eq!(ctx.describe(), "Match found in stream[1::2][::-1] with decoder UTF8");
    let ctx = FlagContext { decoder_name: "base64".to_string(), match_direction: MatchDirection::Forward, offset: 0, stride: 1 };
    assert_eq!(ctx.describe(), "Match found in stream with decoder base64");
}

#[test]
fn strict_filter_wants_the_closing_string() {
    let mut filter = FlagFilter::new(true, false, "}".to_string());
    assert!(!filter.should_report(&"flag{partial".to_string()));
    assert!(filter.should_report(&"flag{whole}".to_string()));
    assert!(!filter.should_report(&"flag{whole}".to_string()));
    let mut filter = FlagFilter::new(true, false, "]]".to_string());
    assert!(filter.should_report(&"flag[[x]]".to_string()));
    assert!(!filter.should_report(&"flag{x}".to_string()));
}

#[test]
fn filter_reports_a_flag_once_unless_verbose() {
    let mut filter = FlagFilter::new(false, false, "}".to_string());
    assert!(filter.should_report(&"flag{a}".to_string()));
    assert!(!filter.should_report(&"flag{a}".to_string()));
    assert!(filter.should_report(&"flag{b}".to_string()));
    let mut verbose = FlagFilter::new(false, true, "}".to_string());
    assert!(verbose.should_report(&"flag{a}".to_string()));
    assert!(verbose.should_report(&"flag{a}".to_string()));
}

#[test]
fn filter_forgets_the_least_recently_seen_flag() {
    let mut filter = FlagFilter::new(false, false, "}".to_string());
    for i in 0..10_000 {
        assert!(filter.should_report(&format!("flag{{{i}}}")));
    }
    assert!(!filter.should_report(&"flag{0}".to_string()));
    // flag{0} is now the most recent, so flag{1} is the one to go
    assert!(filter.should_report(&"flag{new}".to_string()));
    assert!(filter.should_report(&"flag{1}".to_string()));
    assert!(!filter.should_report(&"flag{0}".to_string()));
}

#[test]
fn no_flag_is_reported_twice_across_other_flags() {
    let mut filter = FlagFilter::new(false, false, "}".to_string());
    let flags = ["flag{a}", "flag{b}", "flag{a}", "flag{c}", "flag{b}", "flag{c}", "flag{d}"];
    let reports: Vec<bool> = flags.iter().map(|f| filter.should_report(&f.to_string())).collect();
    assert_eq!(reports, vec![true, true, false, true, false, false, true]);
    let mut verbose = FlagFilter::new(false, true, "}".to_string());
    let reports: Vec<bool> = flags.iter().map(|f| verbose.should_report(&f.to_string())).collect();
    assert_eq!(reports, vec![true; 7]);
}
