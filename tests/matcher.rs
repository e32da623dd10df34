use xml::common::Position;
use xml::reader::{EventReader, XmlEvent};
use xpath_pos::{match_events, Event, PathMatcher, TextPosition};

fn next_event(parser: &mut EventReader<&[u8]>) -> Event {
    match parser.next() {
        Ok(XmlEvent::StartElement { name, .. }) => {
            let p = parser.position();
            Event::Open {
                name: name.to_string(),
                pos: TextPosition {
                    row: p.row,
                    column: p.column,
                },
            }
        }
        Ok(XmlEvent::EndElement { .. }) => Event::Close,
        Ok(XmlEvent::EndDocument) => Event::End,
        Err(e) => Event::Failure {
            message: e.to_string(),
        },
        _ => Event::Other,
    }
}

fn find_pos(reader: &[u8], needle: &[(String, usize)]) -> Result<Option<TextPosition>, String> {
    let mut parser = EventReader::new(reader);
    let mut matcher = PathMatcher::new(needle);
    loop {
        let ev = next_event(&mut parser);
        if let Some(done) = matcher.step(&ev) {
            return done;
        }
    }
}

fn open(name: &str, row: u64, column: u64) -> Event {
    Event::Open {
        name: name.to_string(),
        pos: TextPosition { row, column },
    }
}

fn path(segments: &[(&str, usize)]) -> Vec<(String, usize)> {
    segments.iter().map(|(n, i)| (n.to_string(), *i)).collect()
}

#[test]
fn finds_xpath_should_report_the_correct_position() {
    assert_eq!(
        Ok(Some(TextPosition { row: 0, column: 14 })),
        find_pos(
            "<a><b><c/></b><b/></a>".as_bytes(),
            &vec![("a".to_string(), 1), ("b".to_string(), 2)]
        )
    );
}

#[test]
fn finds_xpath_should_return_none_if_no_match() {
    assert_eq!(
        Ok(None),
        find_pos(
            "<a><b><c/></b><b/></a>".as_bytes(),
            &vec![("a".to_string(), 1), ("b".to_string(), 4)]
        )
    );
}

#[test]
fn finds_xpath_reports_a_mismatched_closing_tag() {
    let r = find_pos(
        "<a><b><c/></b></c></a>".as_bytes(),
        &vec![("a".to_string(), 1), ("b".to_string(), 4)],
    );
    match r {
        Err(msg) => assert!(msg.starts_with("XML parse error: 1:")),
        other => panic!("expected a stream error, got {:?}", other),
    }
}

#[test]
fn finds_xpath_should_ignore_trailing_text_segment() {
    assert_eq!(
        Ok(Some(TextPosition { row: 0, column: 14 })),
        find_pos(
            "<a><b><c/></b><b/></a>".as_bytes(),
            &vec![
                ("a".to_string(), 1),
                ("b".to_string(), 2),
                ("text()".to_string(), 1)
            ]
        )
    );
}

#[test]
fn finds_nested_element_under_second_sibling() {
    assert_eq!(
        Ok(Some(TextPosition { row: 1, column: 3 })),
        find_pos(
            "<a><b/>\n<b><c/></b></a>".as_bytes(),
            &path(&[("a", 1), ("b", 2), ("c", 1)])
        )
    );
}

#[test]
fn finds_root_element() {
    assert_eq!(
        Ok(Some(TextPosition { row: 0, column: 0 })),
        find_pos("<a><b/></a>".as_bytes(), &path(&[("a", 1)]))
    );
}

#[test]
fn index_zero_never_matches() {
    assert_eq!(
        Ok(None),
        find_pos("<a><b/></a>".as_bytes(), &path(&[("a", 0)]))
    );
}

#[test]
fn repeated_runs_give_the_same_outcome() {
    let doc = "<r><x/><y/><x><x/></x></r>".as_bytes();
    let needle = path(&[("r", 1), ("x", 2), ("x", 1)]);
    let first = find_pos(doc, &needle);
    assert_eq!(first, Ok(Some(TextPosition { row: 0, column: 14 })));
    assert_eq!(first, find_pos(doc, &needle));
}

#[test]
fn events_sibling_index_survives_closed_subtree() {
    let events = vec![
        open("a", 0, 0),
        open("b", 0, 3),
        open("c", 0, 6),
        Event::Close,
        Event::Close,
        Event::Other,
        open("b", 0, 14),
        Event::Close,
        Event::Close,
        Event::End,
    ];
    assert_eq!(
        Some(Ok(Some(TextPosition { row: 0, column: 14 }))),
        match_events(&events, &path(&[("a", 1), ("b", 2)]))
    );
    assert_eq!(
        Some(Ok(None)),
        match_events(&events, &path(&[("a", 1), ("b", 4)]))
    );
    assert_eq!(
        Some(Ok(Some(TextPosition { row: 0, column: 6 }))),
        match_events(&events, &path(&[("a", 1), ("b", 1), ("c", 1)]))
    );
}

#[test]
fn events_other_tags_do_not_share_indices() {
    let events = vec![
        open("a", 0, 0),
        open("b", 0, 1),
        Event::Close,
        open("c", 0, 2),
        Event::Close,
        open("b", 0, 3),
        Event::Close,
        Event::Close,
        Event::End,
    ];
    assert_eq!(
        Some(Ok(Some(TextPosition { row: 0, column: 2 }))),
        match_events(&events, &path(&[("a", 1), ("c", 1)]))
    );
    assert_eq!(
        Some(Ok(Some(TextPosition { row: 0, column: 3 }))),
        match_events(&events, &path(&[("a", 1), ("b", 2)]))
    );
}

#[test]
fn events_first_match_wins() {
    let events = vec![
        open("a", 0, 0),
        Event::Close,
        open("a", 1, 0),
        Event::Close,
        Event::End,
    ];
    assert_eq!(
        Some(Ok(Some(TextPosition { row: 0, column: 0 }))),
        match_events(&events, &path(&[("a", 1)]))
    );
    assert_eq!(
        Some(Ok(Some(TextPosition { row: 1, column: 0 }))),
        match_events(&events, &path(&[("a", 2)]))
    );
}

#[test]
fn events_trailing_text_segment_is_dropped() {
    let events = vec![open("a", 0, 0), open("b", 0, 3), Event::End];
    let plain = match_events(&events, &path(&[("a", 1), ("b", 1)]));
    assert_eq!(Some(Ok(Some(TextPosition { row: 0, column: 3 }))), plain);
    assert_eq!(
        plain,
        match_events(&events, &path(&[("a", 1), ("b", 1), ("text()", 1)]))
    );
    assert_eq!(
        Some(Ok(None)),
        match_events(&events, &path(&[("a", 1), ("b", 1), ("text()", 2)]))
    );
}

#[test]
fn events_failure_is_reported_with_prefix() {
    let events = vec![
        open("a", 0, 0),
        Event::Failure {
            message: "1:4 Unexpected EOF".to_string(),
        },
        open("b", 0, 9),
    ];
    assert_eq!(
        Some(Err("XML parse error: 1:4 Unexpected EOF".to_string())),
        match_events(&events, &path(&[("a", 1), ("b", 1)]))
    );
}

#[test]
fn events_running_out_is_undecided() {
    let events = vec![open("a", 0, 0), Event::Close];
    assert_eq!(None, match_events(&events, &path(&[("b", 1)])));
    assert_eq!(None, match_events(&[], &path(&[("a", 1)])));
}

#[test]
fn events_close_at_top_level_is_harmless() {
    let events = vec![Event::Close, open("a", 0, 5), Event::End];
    assert_eq!(
        Some(Ok(Some(TextPosition { row: 0, column: 5 }))),
        match_events(&events, &path(&[("a", 1)]))
    );
}

#[test]
fn matcher_counts_opened_elements() {
    let mut m = PathMatcher::new(&path(&[("z", 1)]));
    assert_eq!(0, m.opened_count());
    assert_eq!(None, m.step(&open("a", 0, 0)));
    assert_eq!(None, m.step(&Event::Close));
    assert_eq!(None, m.step(&open("a", 0, 4)));
    assert_eq!(2, m.opened_count());
    assert_eq!(Some(Ok(None)), m.step(&Event::End));
}
