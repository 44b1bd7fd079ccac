use pgn_stream::filter::contains_bot_bytes;
use pgn_stream::filter::parse_numeric;
use pgn_stream::filter::FilterConfig;
use pgn_stream::filter::FilteringVisitor;
use pgn_stream::reader::PgnReader;
use pgn_stream::source::SliceSource;
use pgn_stream::visitor::Visitor;

fn config(exclude_bots: bool) -> FilterConfig {
    FilterConfig {
        min_time_control: 180,
        min_white_elo: 1800,
        min_black_elo: 1700,
        exclude_bots,
    }
}

#[test]
fn parse_numeric_exact_values() {
    assert_eq!(parse_numeric(b"60"), Some(60));
    assert_eq!(parse_numeric(b"0"), Some(0));
    assert_eq!(parse_numeric(b"007"), Some(7));
    assert_eq!(parse_numeric(b"65535"), Some(65535));
    assert_eq!(parse_numeric(b"+60"), Some(60));
    assert_eq!(parse_numeric(b"65536"), Some(65535));
    assert_eq!(parse_numeric(b"99999999999999999999"), Some(65535));
    assert_eq!(parse_numeric(b""), None);
    assert_eq!(parse_numeric(b"+"), None);
    assert_eq!(parse_numeric(b"++6"), None);
    assert_eq!(parse_numeric(b"12a"), None);
    assert_eq!(parse_numeric(b"-5"), None);
}

#[test]
fn huge_elo_is_numeric_and_above_threshold() {
    // A rating beyond the threshold type's range is still a non-negative
    // integer at or above every configured minimum: it neither fails the
    // filter nor counts as a parse failure.
    let mut v = FilteringVisitor::new(config(false));
    v.observe_header(b"WhiteElo", b"70000");
    assert!(v.should_write());
    assert!(!v.had_invalid_numeric());
    v.observe_header(b"TimeControl", b"100000");
    assert!(v.should_write());
}

#[test]
fn contains_bot_is_case_insensitive() {
    assert!(contains_bot_bytes(b"SomeBot"));
    assert!(contains_bot_bytes(b"BOTMASTER"));
    assert!(contains_bot_bytes(b"robots"));
    assert!(contains_bot_bytes(b"bot"));
    assert!(!contains_bot_bytes(b"bo"));
    assert!(!contains_bot_bytes(b""));
    assert!(!contains_bot_bytes(b"Alice"));
    assert!(!contains_bot_bytes(b"b-o-t"));
}

#[test]
fn low_time_control_fails_regardless_of_later_headers() {
    let mut v = FilteringVisitor::new(config(false));
    v.observe_header(b"TimeControl", b"60");
    assert!(!v.should_write());
    v.observe_header(b"WhiteElo", b"2500");
    v.observe_header(b"BlackElo", b"2500");
    assert!(!v.should_write());
}

#[test]
fn time_control_at_minimum_passes() {
    let mut v = FilteringVisitor::new(config(false));
    v.observe_header(b"TimeControl", b"180");
    assert!(v.should_write());
}

#[test]
fn non_numeric_time_control_fails() {
    let mut v = FilteringVisitor::new(config(false));
    v.observe_header(b"TimeControl", b"40/7200:3600");
    assert!(!v.should_write());
}

#[test]
fn bot_name_fails_only_with_exclusion_enabled() {
    let mut with = FilteringVisitor::new(config(true));
    with.observe_header(b"White", b"SomeBot");
    assert!(!with.should_write());

    let mut without = FilteringVisitor::new(config(false));
    without.observe_header(b"White", b"SomeBot");
    assert!(without.should_write());
}

#[test]
fn black_bot_name_fails_too() {
    let mut v = FilteringVisitor::new(config(true));
    v.observe_header(b"Black", b"megaBOTer");
    assert!(!v.should_write());
}

#[test]
fn bot_title_must_match_exactly() {
    let mut v = FilteringVisitor::new(config(true));
    v.observe_header(b"WhiteTitle", b"GM");
    assert!(v.should_write());
    v.observe_header(b"BlackTitle", b"BOT");
    assert!(!v.should_write());

    let mut w = FilteringVisitor::new(config(true));
    w.observe_header(b"WhiteTitle", b"Bot");
    assert!(w.should_write());
}

#[test]
fn low_elo_fails_per_side() {
    let mut v = FilteringVisitor::new(config(false));
    v.observe_header(b"WhiteElo", b"1799");
    assert!(!v.should_write());

    let mut w = FilteringVisitor::new(config(false));
    w.observe_header(b"BlackElo", b"1700");
    assert!(w.should_write());
    w.observe_header(b"BlackElo", b"1699");
    assert!(!w.should_write());
}

#[test]
fn invalid_elo_fails() {
    let mut v = FilteringVisitor::new(config(false));
    v.observe_header(b"WhiteElo", b"?");
    assert!(!v.should_write());
}

#[test]
fn unknown_tags_are_ignored() {
    let mut v = FilteringVisitor::new(config(true));
    v.observe_header(b"Opening", b"robot opening with 60 bots");
    v.observe_header(b"Result", b"1-0");
    assert!(v.should_write());
}

#[test]
fn verdict_abandons_failing_game() {
    let mut v = FilteringVisitor::new(config(true));
    v.observe_header(b"White", b"cheaterbot");
    let s = v.end_headers();
    assert!(s.0);

    let mut w = FilteringVisitor::new(config(true));
    w.observe_header(b"White", b"Alice");
    let s = w.end_headers();
    assert!(!s.0);
}

#[test]
fn filtering_through_the_reader() {
    let input = b"[Event \"x\"]\n[TimeControl \"60\"]\n\n1. e4 1-0\n\n[Event \"y\"]\n[TimeControl \"300\"]\n\n1. d4 0-1\n";
    let mut reader = PgnReader::new(SliceSource::new(input.to_vec()));
    let mut verdicts = Vec::new();
    loop {
        let mut v = FilteringVisitor::new(config(true));
        match reader.read_game(&mut v) {
            Ok(Some(())) => verdicts.push(v.should_write()),
            Ok(None) => break,
            Err(_) => panic!("in-memory source cannot fail"),
        }
        if verdicts.len() > 100 {
            break;
        }
    }
    assert_eq!(verdicts, vec![false, true]);
}

#[test]
fn invalid_numeric_is_remembered_for_diagnostics() {
    let mut v = FilteringVisitor::new(config(false));
    assert!(!v.had_invalid_numeric());
    v.observe_header(b"WhiteElo", b"abc");
    assert!(v.had_invalid_numeric());
    assert!(!v.should_write());

    let mut w = FilteringVisitor::new(config(true));
    w.observe_header(b"White", b"SomeBot");
    assert!(!w.had_invalid_numeric());
    v.observe_header(b"TimeControl", b"300");
    assert!(v.had_invalid_numeric());
}
