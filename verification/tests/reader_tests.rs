use pgn_stream::reader::PgnReader;
use pgn_stream::source::SliceSource;
use pgn_stream::visitor::RawHeader;
use pgn_stream::visitor::SkipVisitor;
use pgn_stream::visitor::Visitor;

/// Records every protocol event so tests can check order and content.
struct Recorder {
    begins: usize,
    begin_headers: usize,
    end_headers: usize,
    ends: usize,
    headers: Vec<(usize, Vec<u8>, Vec<u8>)>,
}

impl Recorder {
    fn new() -> Recorder {
        Recorder { begins: 0, begin_headers: 0, end_headers: 0, ends: 0, headers: Vec::new() }
    }
}

impl Visitor for Recorder {
    type Output = usize;

    fn begin_game(&mut self) {
        self.begins += 1;
    }

    fn begin_headers(&mut self) {
        self.begin_headers += 1;
    }

    fn header(&mut self, key: &[u8], value: RawHeader<'_>) {
        self.headers.push((self.begins, key.to_vec(), value.0.to_vec()));
    }

    fn end_headers(&mut self) -> pgn_stream::visitor::Skip {
        self.end_headers += 1;
        pgn_stream::visitor::Skip(false)
    }

    fn end_game(&mut self) -> usize {
        self.ends += 1;
        self.ends
    }
}

fn read_all(input: &[u8]) -> (Recorder, usize) {
    let mut reader = PgnReader::new(SliceSource::new(input.to_vec()));
    let mut rec = Recorder::new();
    let mut games = 0usize;
    while let Ok(Some(_)) = reader.read_game(&mut rec) {
        games += 1;
        if games > 1000 {
            break;
        }
    }
    (rec, games)
}

#[test]
fn headers_fire_once_per_pair_in_order() {
    let (rec, games) = read_all(b"[Event \"Casual\"]\n[Site \"Club\"]\n\n1. e4 e5 1-0\n");
    assert_eq!(games, 1);
    assert_eq!(rec.headers.len(), 2);
    assert_eq!(rec.headers[0].1, b"Event".to_vec());
    assert_eq!(rec.headers[0].2, b"Casual".to_vec());
    assert_eq!(rec.headers[1].1, b"Site".to_vec());
    assert_eq!(rec.headers[1].2, b"Club".to_vec());
    assert_eq!(rec.begin_headers, 1);
    assert_eq!(rec.end_headers, 1);
}

#[test]
fn escaped_quotes_do_not_end_value() {
    let (rec, games) = read_all(b"[Event \"A \\\"B\\\" C\"]\n\n1. e4 1-0\n");
    assert_eq!(games, 1);
    assert_eq!(rec.headers.len(), 1);
    assert_eq!(rec.headers[0].2, b"A \\\"B\\\" C".to_vec());
}

#[test]
fn escaped_backslash_kept_verbatim() {
    let (rec, _) = read_all(b"[Event \"a\\\\b\"]\n\n*\n");
    assert_eq!(rec.headers[0].2, b"a\\\\b".to_vec());
}

#[test]
fn header_without_quote_yields_line_as_name() {
    let (rec, games) = read_all(b"[BadTag some text\n[Event \"x\"]\n\n1. e4 *\n");
    assert_eq!(games, 1);
    assert_eq!(rec.headers.len(), 2);
    assert_eq!(rec.headers[0].1, b"BadTag some text".to_vec());
    assert_eq!(rec.headers[0].2, b"".to_vec());
    assert_eq!(rec.headers[1].1, b"Event".to_vec());
}

#[test]
fn bom_at_start_is_consumed() {
    let (rec, games) = read_all(b"\xef\xbb\xbf[Event \"x\"]\n\n1. e4 *\n");
    assert_eq!(games, 1);
    assert_eq!(rec.headers.len(), 1);
    assert_eq!(rec.headers[0].1, b"Event".to_vec());
    assert_eq!(rec.headers[0].2, b"x".to_vec());
}

#[test]
fn bom_mid_stream_is_not_special() {
    // The second game starts with the same three bytes; they are not
    // stripped, so its header block never begins and no header fires.
    let (rec, games) = read_all(b"[Event \"x\"]\n\n1. e4 *\n\n\xef\xbb\xbf[Event \"y\"]\n\n*\n");
    assert_eq!(games, 3);
    let second: Vec<_> = rec.headers.iter().filter(|h| h.0 == 2).collect();
    assert!(second.is_empty());
    assert_eq!(rec.headers.len(), 1);
}

#[test]
fn two_games_one_blank_line() {
    let (rec, games) = read_all(
        b"[Event \"first\"]\n\n1. e4 e5 1-0\n\n[Event \"second\"]\n\n1. d4 d5 0-1\n",
    );
    assert_eq!(games, 2);
    assert_eq!(rec.begins, 2);
    assert_eq!(rec.ends, 2);
    let first: Vec<_> = rec.headers.iter().filter(|h| h.0 == 1).collect();
    let second: Vec<_> = rec.headers.iter().filter(|h| h.0 == 2).collect();
    assert_eq!(first.len(), 1);
    assert_eq!(second.len(), 1);
    assert_eq!(first[0].2, b"first".to_vec());
    assert_eq!(second[0].2, b"second".to_vec());
}

#[test]
fn empty_input_yields_no_game() {
    let mut reader = PgnReader::new(SliceSource::new(Vec::new()));
    let mut v = SkipVisitor;
    assert!(matches!(reader.read_game(&mut v), Ok(None)));
}

#[test]
fn whitespace_only_input_yields_no_game() {
    let mut reader = PgnReader::new(SliceSource::new(b"  \t\r\n  \n".to_vec()));
    let mut v = SkipVisitor;
    assert!(matches!(reader.read_game(&mut v), Ok(None)));
}

#[test]
fn percent_comment_lines_are_discarded() {
    let (rec, games) = read_all(b"% generator line\n[Event \"x\"]\n\n1. e4 *\n");
    assert_eq!(games, 1);
    assert_eq!(rec.headers.len(), 1);
    assert_eq!(rec.headers[0].1, b"Event".to_vec());
}

#[test]
fn trailing_space_before_quote_is_stripped_from_name() {
    let (rec, _) = read_all(b"[Event \"x\"]\n\n*\n");
    assert_eq!(rec.headers[0].1, b"Event".to_vec());
}

#[test]
fn unterminated_value_ends_at_line_feed() {
    let (rec, games) = read_all(b"[Event \"abc\n[Site \"y\"]\n\n*\n");
    assert_eq!(games, 1);
    assert_eq!(rec.headers[0].1, b"Event".to_vec());
    assert_eq!(rec.headers[0].2, b"abc".to_vec());
    assert_eq!(rec.headers[1].1, b"Site".to_vec());
}

#[test]
fn brace_comment_hides_blank_line() {
    let (rec, games) = read_all(b"[Event \"x\"]\n\n1. e4 {a\n\nb} e5\n\n[Event \"y\"]\n\n*\n");
    assert_eq!(games, 2);
    assert_eq!(rec.headers.len(), 2);
}

#[test]
fn semicolon_comment_runs_to_end_of_line() {
    let (rec, games) = read_all(b"[Event \"x\"]\n\n1. e4 ; rest of line\n1... e5\n\n*\n");
    assert_eq!(games, 2);
    assert_eq!(rec.headers.len(), 1);
}

#[test]
fn next_game_bracket_after_newline_ends_movetext() {
    let (rec, games) = read_all(b"[Event \"x\"]\n\n1. e4 e5\n[Event \"y\"]\n\n*\n");
    assert_eq!(games, 2);
    let second: Vec<_> = rec.headers.iter().filter(|h| h.0 == 2).collect();
    assert_eq!(second.len(), 1);
    assert_eq!(second[0].2, b"y".to_vec());
}

#[test]
fn refill_with_full_chunk_does_no_io() {
    // More than one chunk of input: the first fill reads exactly one chunk,
    // a second fill with a full chunk of unread data reads nothing more and
    // still reports bytes as available.
    let data = vec![b'x'; 3 * 8192];
    let mut reader = PgnReader::new(SliceSource::new(data));
    let first = reader.fill_buffer();
    assert!(matches!(first, Ok(true)));
    let second = reader.fill_buffer();
    assert!(matches!(second, Ok(true)));
    let source = reader.into_inner();
    assert_eq!(source.position(), 8192);
}

#[test]
fn skip_visitor_drives_past_games() {
    let mut reader = PgnReader::new(SliceSource::new(
        b"[Event \"a\"]\n\n1. e4 1-0\n\n[Event \"b\"]\n\n1. d4 0-1\n".to_vec(),
    ));
    let mut v = SkipVisitor;
    let mut games = 0usize;
    while let Ok(Some(())) = reader.read_game(&mut v) {
        games += 1;
        if games > 100 {
            break;
        }
    }
    assert_eq!(games, 2);
}

#[test]
fn value_spanning_chunk_boundary_is_intact() {
    // The opening quote sits near the end of the first chunk and the value
    // runs far into the second: the scan must keep the examined bytes while
    // refilling.
    let mut input = Vec::new();
    input.extend_from_slice(b"[Event \"");
    let long_value = vec![b'v'; 12000];
    input.extend_from_slice(&long_value);
    input.extend_from_slice(b"\"]\n\n1. e4 *\n");
    let (rec, games) = read_all(&input);
    assert_eq!(games, 1);
    assert_eq!(rec.headers.len(), 1);
    assert_eq!(rec.headers[0].2, long_value);
}

#[test]
fn stray_comment_after_closing_quote_is_tolerated() {
    let (rec, games) = read_all(b"[Event \"x\"]  % trailing note\n[Site \"y\"]\n\n1. e4 *\n");
    assert_eq!(games, 1);
    assert_eq!(rec.headers.len(), 2);
    assert_eq!(rec.headers[0].1, b"Event".to_vec());
    assert_eq!(rec.headers[1].1, b"Site".to_vec());
    assert_eq!(rec.headers[1].2, b"y".to_vec());
}

#[test]
fn recorded_read_matches_plain_read() {
    let input = b"[Event \"x\"]\n\n1. e4 *\n";
    let mut reader = PgnReader::new(SliceSource::new(input.to_vec()));
    let mut rec = Recorder::new();
    let (first, _events) = reader.read_game_recorded(&mut rec);
    assert!(matches!(first, Ok(Some(1))));
    assert_eq!(rec.begins, 1);
    assert_eq!(rec.begin_headers, 1);
    assert_eq!(rec.end_headers, 1);
    assert_eq!(rec.ends, 1);
    assert_eq!(rec.headers.len(), 1);
    let (second, _events) = reader.read_game_recorded(&mut rec);
    assert!(matches!(second, Ok(None)));
    assert_eq!(rec.begins, 1);
}

#[test]
fn skip_visitor_always_answers_skip() {
    let v = SkipVisitor;
    assert!(v.always_skip().0);
}
