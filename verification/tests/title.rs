use title_tokenizer::partial_title::{run, start, Info, Kind, Options, State, StateName};
use title_tokenizer::tokenizer::{Code, ContentType, Event, EventType, Token, Tokenizer};

fn options() -> Options {
    Options {
        title: Token::DefinitionTitle,
        marker: Token::DefinitionTitleMarker,
        string: Token::DefinitionTitleString,
    }
}

fn codes(text: &str) -> Vec<Code> {
    text.chars().map(Code::Char).collect()
}

fn ev(event_type: EventType, token: Token, index: usize) -> Event {
    Event { event_type, token, index, content_type: None, previous: None }
}

fn content_ev(event_type: EventType, token: Token, index: usize, previous: Option<usize>) -> Event {
    let content_type = if event_type == EventType::Enter {
        Some(ContentType::String)
    } else {
        None
    };
    let previous = if event_type == EventType::Enter { previous } else { None };
    Event { event_type, token, index, content_type, previous }
}

#[test]
fn nok_non_opener_leaves_no_trace() {
    let mut t = Tokenizer::new(codes("x\"a\""));
    let r = run(&mut t, options());
    assert_eq!(r, State::Nok);
    assert_eq!(t.index, 0);
    assert!(t.events.is_empty());
}

#[test]
fn nok_non_opener_start_alone() {
    let mut t = Tokenizer::new(codes("x"));
    let r = start(&mut t, options());
    assert_eq!(r, State::Nok);
    assert_eq!(t.index, 0);
    assert!(t.events.is_empty());
}

#[test]
fn nok_empty_input() {
    let mut t = Tokenizer::new(Vec::new());
    let r = run(&mut t, options());
    assert_eq!(r, State::Nok);
    assert_eq!(t.index, 0);
    assert!(t.events.is_empty());
}

#[test]
fn empty_title() {
    let mut t = Tokenizer::new(codes("\"\""));
    let r = run(&mut t, options());
    assert_eq!(r, State::Done);
    assert_eq!(t.index, 2);
    let o = options();
    let expected = vec![
        ev(EventType::Enter, o.title, 0),
        ev(EventType::Enter, o.marker, 0),
        ev(EventType::Exit, o.marker, 1),
        ev(EventType::Enter, o.marker, 1),
        ev(EventType::Exit, o.marker, 2),
        ev(EventType::Exit, o.title, 2),
    ];
    assert_eq!(t.events, expected);
    assert!(t.events.iter().all(|e| e.token != Token::Data));
}

#[test]
fn one_data_span() {
    let mut t = Tokenizer::new(codes("\"a\""));
    let r = run(&mut t, options());
    assert_eq!(r, State::Done);
    assert_eq!(t.index, 3);
    let o = options();
    let expected = vec![
        ev(EventType::Enter, o.title, 0),
        ev(EventType::Enter, o.marker, 0),
        ev(EventType::Exit, o.marker, 1),
        ev(EventType::Enter, o.string, 1),
        content_ev(EventType::Enter, Token::Data, 1, None),
        content_ev(EventType::Exit, Token::Data, 2, None),
        ev(EventType::Exit, o.string, 2),
        ev(EventType::Enter, o.marker, 2),
        ev(EventType::Exit, o.marker, 3),
        ev(EventType::Exit, o.title, 3),
    ];
    assert_eq!(t.events, expected);
}

#[test]
fn escaped_closer_stays_literal() {
    let input = codes("(a\\)b)");
    let mut t = Tokenizer::new(input.clone());
    let r = run(&mut t, options());
    assert_eq!(r, State::Done);
    assert_eq!(t.index, 6);
    // The one data span covers exactly `a\)b`: the escaped closer stays
    // literal, and the title closes only at the final unescaped `)`.
    let enters: Vec<&Event> = t
        .events
        .iter()
        .filter(|e| e.token == Token::Data && e.event_type == EventType::Enter)
        .collect();
    let exits: Vec<&Event> = t
        .events
        .iter()
        .filter(|e| e.token == Token::Data && e.event_type == EventType::Exit)
        .collect();
    assert_eq!(enters.len(), 1);
    assert_eq!(exits.len(), 1);
    assert_eq!(enters[0].index, 1);
    assert_eq!(exits[0].index, 5);
    let raw: Vec<Code> = input[1..5].to_vec();
    assert_eq!(raw, codes("a\\)b"));
}

#[test]
fn line_ending_links_two_spans() {
    let mut t = Tokenizer::new(codes("\"a\nb\""));
    let r = run(&mut t, options());
    assert_eq!(r, State::Done);
    assert_eq!(t.index, 5);
    let o = options();
    let expected = vec![
        ev(EventType::Enter, o.title, 0),
        ev(EventType::Enter, o.marker, 0),
        ev(EventType::Exit, o.marker, 1),
        ev(EventType::Enter, o.string, 1),
        content_ev(EventType::Enter, Token::Data, 1, None),
        content_ev(EventType::Exit, Token::Data, 2, None),
        content_ev(EventType::Enter, Token::LineEnding, 2, Some(4)),
        content_ev(EventType::Exit, Token::LineEnding, 3, None),
        content_ev(EventType::Enter, Token::Data, 3, Some(6)),
        content_ev(EventType::Exit, Token::Data, 4, None),
        ev(EventType::Exit, o.string, 4),
        ev(EventType::Enter, o.marker, 4),
        ev(EventType::Exit, o.marker, 5),
        ev(EventType::Exit, o.title, 5),
    ];
    assert_eq!(t.events, expected);
    // The chain runs second data span -> line ending -> first data span.
    assert_eq!(t.events[8].previous, Some(6));
    assert_eq!(t.events[6].previous, Some(4));
    assert_eq!(t.events[4].previous, None);
}

#[test]
fn blank_line_unwinds_everything() {
    let mut t = Tokenizer::new(codes("\"a\n\nb\""));
    let r = run(&mut t, options());
    assert_eq!(r, State::Nok);
    assert_eq!(t.index, 0);
    assert!(t.events.is_empty());
}

#[test]
fn unterminated_title_is_nok() {
    let mut t = Tokenizer::new(codes("\"a"));
    let r = run(&mut t, options());
    assert_eq!(r, State::Nok);
    assert_eq!(t.index, 0);
    assert!(t.events.is_empty());
}

#[test]
fn crlf_is_one_unit() {
    let input = vec![
        Code::Char('"'),
        Code::Char('a'),
        Code::CarriageReturnLineFeed,
        Code::Char('b'),
        Code::Char('"'),
    ];
    let mut t = Tokenizer::new(input);
    let r = run(&mut t, options());
    assert_eq!(r, State::Done);
    assert_eq!(t.index, 5);
    // The atomic pair is one unit: the line-ending span covers exactly it.
    assert_eq!(t.events[6], content_ev(EventType::Enter, Token::LineEnding, 2, Some(4)));
    assert_eq!(t.events[7], content_ev(EventType::Exit, Token::LineEnding, 3, None));
}

#[test]
fn whitespace_after_line_ending_is_chained() {
    let mut t = Tokenizer::new(codes("\"a\n  b\""));
    let r = run(&mut t, options());
    assert_eq!(r, State::Done);
    assert_eq!(t.index, 7);
    let o = options();
    let expected = vec![
        ev(EventType::Enter, o.title, 0),
        ev(EventType::Enter, o.marker, 0),
        ev(EventType::Exit, o.marker, 1),
        ev(EventType::Enter, o.string, 1),
        content_ev(EventType::Enter, Token::Data, 1, None),
        content_ev(EventType::Exit, Token::Data, 2, None),
        content_ev(EventType::Enter, Token::LineEnding, 2, Some(4)),
        content_ev(EventType::Exit, Token::LineEnding, 3, None),
        content_ev(EventType::Enter, Token::SpaceOrTab, 3, Some(6)),
        content_ev(EventType::Exit, Token::SpaceOrTab, 5, None),
        content_ev(EventType::Enter, Token::Data, 5, Some(8)),
        content_ev(EventType::Exit, Token::Data, 6, None),
        ev(EventType::Exit, o.string, 6),
        ev(EventType::Enter, o.marker, 6),
        ev(EventType::Exit, o.marker, 7),
        ev(EventType::Exit, o.title, 7),
    ];
    assert_eq!(t.events, expected);
}

#[test]
fn blank_line_with_whitespace_is_nok() {
    let mut t = Tokenizer::new(codes("\"a\n \nb\""));
    let r = run(&mut t, options());
    assert_eq!(r, State::Nok);
    assert_eq!(t.index, 0);
    assert!(t.events.is_empty());
}

#[test]
fn line_ending_then_whitespace_to_end_of_input_is_nok() {
    let mut t = Tokenizer::new(codes("\"a\n "));
    let r = run(&mut t, options());
    assert_eq!(r, State::Nok);
    assert_eq!(t.index, 0);
    assert!(t.events.is_empty());
}

#[test]
fn single_quoted_title() {
    let mut t = Tokenizer::new(codes("'a'"));
    let r = run(&mut t, options());
    assert_eq!(r, State::Done);
    assert_eq!(t.index, 3);
}

#[test]
fn parenthesized_title() {
    let mut t = Tokenizer::new(codes("(a)"));
    let r = run(&mut t, options());
    assert_eq!(r, State::Done);
    assert_eq!(t.index, 3);
}

#[test]
fn empty_parenthesized_title() {
    let mut t = Tokenizer::new(codes("()"));
    let r = run(&mut t, options());
    assert_eq!(r, State::Done);
    assert_eq!(t.index, 2);
    assert_eq!(t.events.len(), 6);
}

#[test]
fn other_kinds_marker_is_plain_data() {
    let mut t = Tokenizer::new(codes("\"a'(b)\""));
    let r = run(&mut t, options());
    assert_eq!(r, State::Done);
    assert_eq!(t.index, 7);
    // One data span covering `a'(b)`: other kinds' markers do not close.
    assert_eq!(t.events[4], content_ev(EventType::Enter, Token::Data, 1, None));
    assert_eq!(t.events[5], content_ev(EventType::Exit, Token::Data, 6, None));
}

#[test]
fn mismatched_closer_is_nok() {
    let mut t = Tokenizer::new(codes("'a\""));
    let r = run(&mut t, options());
    assert_eq!(r, State::Nok);
    assert_eq!(t.index, 0);
    assert!(t.events.is_empty());
}

#[test]
fn backslash_before_ordinary_unit_stays_in_data() {
    let mut t = Tokenizer::new(codes("\"a\\xb\""));
    let r = run(&mut t, options());
    assert_eq!(r, State::Done);
    assert_eq!(t.index, 6);
    assert_eq!(t.events[4], content_ev(EventType::Enter, Token::Data, 1, None));
    assert_eq!(t.events[5], content_ev(EventType::Exit, Token::Data, 5, None));
}

#[test]
fn backslash_before_line_ending() {
    let mut t = Tokenizer::new(codes("\"a\\\nb\""));
    let r = run(&mut t, options());
    assert_eq!(r, State::Done);
    assert_eq!(t.index, 6);
    // The backslash is literal data; the line ending still splits spans.
    assert_eq!(t.events[5], content_ev(EventType::Exit, Token::Data, 3, None));
    assert_eq!(t.events[6], content_ev(EventType::Enter, Token::LineEnding, 3, Some(4)));
}

#[test]
fn escaped_closer_then_end_of_input_is_nok() {
    let mut t = Tokenizer::new(codes("\"a\\\""));
    let r = run(&mut t, options());
    assert_eq!(r, State::Nok);
    assert_eq!(t.index, 0);
    assert!(t.events.is_empty());
}

#[test]
fn incremental_continuations() {
    let mut t = Tokenizer::new(codes("\"\""));
    let r = start(&mut t, options());
    let info = match r {
        State::Next(name, info) => {
            assert_eq!(name, StateName::Begin);
            assert_eq!(info.kind, Kind::Double);
            assert!(!info.connect);
            info
        },
        _ => panic!("expected a pending continuation"),
    };
    let r = title_tokenizer::partial_title::begin(&mut t, info);
    assert_eq!(r, State::Done);
    assert_eq!(t.index, 2);
    assert_eq!(t.events.len(), 6);
}

#[test]
fn two_titles_back_to_back() {
    let mut t = Tokenizer::new(codes("\"a\"'b'"));
    let r = run(&mut t, options());
    assert_eq!(r, State::Done);
    assert_eq!(t.index, 3);
    let first: Vec<Event> = t.events.clone();
    assert_eq!(first.len(), 10);
    let second = Options {
        title: Token::ResourceTitle,
        marker: Token::ResourceTitleMarker,
        string: Token::ResourceTitleString,
    };
    let r = run(&mut t, second);
    assert_eq!(r, State::Done);
    assert_eq!(t.index, 6);
    assert_eq!(t.events.len(), 20);
    // The earlier log is kept untouched; the second title begins after it.
    assert_eq!(t.events[..10], first[..]);
    assert_eq!(t.events[10], ev(EventType::Enter, Token::ResourceTitle, 3));
    assert_eq!(t.events[19], ev(EventType::Exit, Token::ResourceTitle, 6));
}

#[test]
fn failed_attempt_keeps_earlier_log() {
    let mut t = Tokenizer::new(codes("\"a\"x"));
    let r = run(&mut t, options());
    assert_eq!(r, State::Done);
    let first: Vec<Event> = t.events.clone();
    let r = run(&mut t, options());
    assert_eq!(r, State::Nok);
    assert_eq!(t.index, 3);
    assert_eq!(t.events, first);
}

#[test]
fn kind_of_each_marker() {
    assert_eq!(Kind::from_char('('), Kind::Paren);
    assert_eq!(Kind::from_char('"'), Kind::Double);
    assert_eq!(Kind::from_char('\''), Kind::Single);
    assert_eq!(Kind::from_code(Code::Char('(')), Kind::Paren);
}

#[test]
fn closer_follows_from_opener() {
    // The closing character is a pure function of the opening character.
    assert_eq!(Kind::from_char('(').as_char(), ')');
    assert_eq!(Kind::from_char('"').as_char(), '"');
    assert_eq!(Kind::from_char('\'').as_char(), '\'');
}

#[test]
fn round_trip_covers_consumed_input() {
    // Every advance of position happens inside one enter/exit pair, and
    // the log runs from the start position to the end position: the
    // extents, concatenated in log order, are exactly the consumed input.
    let mut t = Tokenizer::new(codes("(a\\)b\n c)x"));
    let r = run(&mut t, options());
    assert_eq!(r, State::Done);
    assert_eq!(t.events.first().unwrap().index, 0);
    assert_eq!(t.events.last().unwrap().index, t.index);
    for pair in t.events.windows(2) {
        let ok = pair[1].index == pair[0].index
            || (pair[0].event_type == EventType::Enter
                && pair[1].event_type == EventType::Exit
                && pair[0].token == pair[1].token
                && pair[0].index <= pair[1].index);
        assert!(ok);
    }
}

#[test]
fn log_is_well_nested() {
    // Every exit closes the innermost open span, and nothing stays open.
    let mut t = Tokenizer::new(codes("'a\\'b\n(c)'"));
    let r = run(&mut t, options());
    assert_eq!(r, State::Done);
    let mut stack: Vec<Token> = Vec::new();
    for e in &t.events {
        match e.event_type {
            EventType::Enter => stack.push(e.token),
            EventType::Exit => assert_eq!(stack.pop(), Some(e.token)),
        }
    }
    assert!(stack.is_empty());
}

#[test]
fn info_is_plain_state() {
    let info = Info { connect: false, kind: Kind::Paren, options: options() };
    assert_eq!(info, info.clone());
}
