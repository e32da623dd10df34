use xpath_pos::parse_xpath;

#[test]
fn parse_xpath_should_work() {
    assert_eq!(
        Ok(vec![("a".to_string(), 1), ("b".to_string(), 2)]),
        parse_xpath("a[1]/b[2]")
    );
}

#[test]
fn parse_xpath_should_work_also_with_a_leader_slash_and_trailing_text() {
    assert_eq!(
        Ok(vec![
            ("a".to_string(), 1),
            ("b".to_string(), 2),
            ("text()".to_string(), 1)
        ]),
        parse_xpath("/a[1]/b[2]/text()[1]")
    );
}

#[test]
fn parse_xpath_should_report_errors() {
    assert_eq!(
        Err(
            "failed parsing xpath at section: b[]: cannot parse integer from empty string"
                .to_string()
        ),
        parse_xpath("a[1]/b[]")
    );
}

#[test]
fn parse_xpath_rejects_a_token_without_closing_bracket() {
    assert_eq!(
        Err("failed parsing xpath at section: b".to_string()),
        parse_xpath("a[1]/b")
    );
}

#[test]
fn parse_xpath_rejects_empty_input() {
    assert_eq!(
        Err("failed parsing xpath at section: ".to_string()),
        parse_xpath("")
    );
}

#[test]
fn parse_xpath_rejects_two_open_brackets() {
    assert_eq!(
        Err("failed parsing xpath at section: a[[1]".to_string()),
        parse_xpath("a[[1]")
    );
}

#[test]
fn parse_xpath_reports_invalid_digits() {
    assert_eq!(
        Err("failed parsing xpath at section: a[x]: invalid digit found in string".to_string()),
        parse_xpath("a[x]")
    );
}

#[test]
fn parse_xpath_reports_overflow() {
    assert_eq!(
        Err(
            "failed parsing xpath at section: a[99999999999999999999999]: number too large to fit in target type"
                .to_string()
        ),
        parse_xpath("a[99999999999999999999999]")
    );
}

#[test]
fn parse_xpath_first_error_wins() {
    assert_eq!(
        Err("failed parsing xpath at section: b".to_string()),
        parse_xpath("a[1]/b/c[")
    );
}

#[test]
fn parse_xpath_accepts_index_zero_and_plus_sign() {
    assert_eq!(
        Ok(vec![("a".to_string(), 0), ("b".to_string(), 7), ("".to_string(), 12)]),
        parse_xpath("a[0]/b[+7]/[12]")
    );
}

#[test]
fn parse_xpath_strips_only_one_leading_slash() {
    assert_eq!(
        Err("failed parsing xpath at section: ".to_string()),
        parse_xpath("//a[1]")
    );
}

#[test]
fn parse_xpath_reads_back_written_segments() {
    let segments = vec![
        ("x".to_string(), 10),
        ("y-z".to_string(), 305),
        ("w".to_string(), 0),
    ];
    let text = segments
        .iter()
        .map(|(n, i)| format!("{}[{}]", n, i))
        .collect::<Vec<_>>()
        .join("/");
    assert_eq!(text, "x[10]/y-z[305]/w[0]");
    assert_eq!(Ok(segments), parse_xpath(&text));
}
