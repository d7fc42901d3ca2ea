use furl::classify::accept;
use furl::filters::{
    convert_usize_to_u16, parse_filter_list, parse_range_filter, parse_response_filters,
    FilterOption, ResponseFilters, TokenError,
};
use furl::fuzz::FuzzResponse;

fn no_rules() -> ResponseFilters {
    parse_response_filters(None, None, None, None, None, None).unwrap()
}

fn response(status: u16, length: Option<u64>, body: Option<&str>) -> FuzzResponse {
    FuzzResponse::from_response(
        "http://h/x".to_string(),
        status,
        length,
        body.map(|b| b.to_string()),
    )
}

#[test]
fn test_parse_response_filters() {
    let filters = parse_response_filters(
        Some("200,301".to_string()),
        Some("100-200,300".to_string()),
        Some("10-20,50".to_string()),
        Some("400,500".to_string()),
        Some("50-100,200".to_string()),
        Some("5-10,30".to_string()),
    )
    .unwrap();

    assert_eq!(filters.status_matches.unwrap(), vec![200, 301]);
    assert_eq!(filters.size_matches.unwrap(), vec![(100, 200), (300, 300)]);
    assert_eq!(filters.line_matches.unwrap(), vec![(10, 20), (50, 50)]);
    assert_eq!(filters.status_filters.unwrap(), vec![400, 500]);
    assert_eq!(filters.size_filters.unwrap(), vec![(50, 100), (200, 200)]);
    assert_eq!(filters.line_filters.unwrap(), vec![(5, 10), (30, 30)]);
}

#[test]
#[should_panic]
fn test_invalid_match_status() {
    parse_response_filters(Some("99999".to_string()), None, None, None, None, None).unwrap();
}

#[test]
fn test_parse_filter_list() {
    assert_eq!(
        parse_filter_list(Some("200,301".to_string())).unwrap(),
        Some(vec![200, 301])
    );
    assert_eq!(parse_filter_list(None).unwrap(), None);
}

#[test]
fn test_parse_range_filter() {
    assert_eq!(
        parse_range_filter(Some("100-200,300".to_string())).unwrap(),
        Some(vec![(100, 200), (300, 300)])
    );
    assert_eq!(
        parse_range_filter(Some("200".to_string())).unwrap(),
        Some(vec![(200, 200)])
    );
    assert_eq!(parse_range_filter(None).unwrap(), None);
}

#[test]
fn status_above_u16_is_an_error_not_clamped() {
    let err = parse_response_filters(Some("99999".to_string()), None, None, None, None, None)
        .unwrap_err();
    assert_eq!(err.option, FilterOption::MatchStatus);
    assert!(matches!(err.error, TokenError::StatusTooLarge(99999)));

    let err = parse_response_filters(None, None, None, Some("404,70000".to_string()), None, None)
        .unwrap_err();
    assert_eq!(err.option, FilterOption::FilterStatus);
    assert!(matches!(err.error, TokenError::StatusTooLarge(70000)));
}

#[test]
fn status_65535_is_accepted() {
    assert_eq!(
        convert_usize_to_u16(Some(vec![(0, 0), (65535, 65535)])).unwrap(),
        Some(vec![0, 65535])
    );
    assert!(matches!(
        convert_usize_to_u16(Some(vec![(1, 1), (65536, 65536), (70000, 70000)])),
        Err(TokenError::StatusTooLarge(65536))
    ));
    assert_eq!(convert_usize_to_u16(None).unwrap(), None);
}

#[test]
fn status_ranges_cover_their_codes() {
    assert_eq!(
        convert_usize_to_u16(Some(vec![(200, 202), (404, 404), (9, 3)])).unwrap(),
        Some(vec![200, 201, 202, 404])
    );
    assert_eq!(
        convert_usize_to_u16(Some(vec![(65534, 65535)])).unwrap(),
        Some(vec![65534, 65535])
    );
    assert!(matches!(
        convert_usize_to_u16(Some(vec![(10, 70000)])),
        Err(TokenError::StatusTooLarge(70000))
    ));
    assert!(matches!(
        convert_usize_to_u16(Some(vec![(70000, 10)])),
        Err(TokenError::StatusTooLarge(70000))
    ));

    let filters = parse_response_filters(
        Some("200-204, 301".to_string()),
        None,
        None,
        Some("500-503".to_string()),
        None,
        None,
    )
    .unwrap();
    assert_eq!(
        filters.status_matches.unwrap(),
        vec![200, 201, 202, 203, 204, 301]
    );
    assert_eq!(filters.status_filters.unwrap(), vec![500, 501, 502, 503]);

    let err = parse_response_filters(Some("200-99999".to_string()), None, None, None, None, None)
        .unwrap_err();
    assert_eq!(err.option, FilterOption::MatchStatus);
    assert!(matches!(err.error, TokenError::StatusTooLarge(99999)));
    let err = parse_response_filters(None, None, None, Some("1-2-3".to_string()), None, None)
        .unwrap_err();
    assert_eq!(err.option, FilterOption::FilterStatus);
    assert!(matches!(err.error, TokenError::InvalidRangeFormat(ref t) if t == "1-2-3"));
}

#[test]
fn status_single_equals_degenerate_range() {
    let single = parse_response_filters(None, None, None, Some("200".to_string()), None, None)
        .unwrap();
    let range = parse_response_filters(None, None, None, Some("200-200".to_string()), None, None)
        .unwrap();
    assert_eq!(single.status_filters, range.status_filters);
    for status in [199u16, 200, 201, 404] {
        let r = response(status, Some(1), None);
        assert_eq!(accept(&r, &single), accept(&r, &range));
        assert_eq!(accept(&r, &range), status != 200);
    }
    let matching = parse_response_filters(Some("200-299".to_string()), None, None, None, None, None)
        .unwrap();
    assert!(accept(&response(204, None, None), &matching));
    assert!(!accept(&response(301, None, None), &matching));
}

#[test]
fn each_token_error_names_its_token() {
    assert!(matches!(
        parse_filter_list(Some("200,abc".to_string())),
        Err(TokenError::InvalidNumber(ref t)) if t == "abc"
    ));
    assert!(matches!(
        parse_filter_list(Some("".to_string())),
        Err(TokenError::InvalidNumber(ref t)) if t.is_empty()
    ));
    assert!(matches!(
        parse_filter_list(Some("-5".to_string())),
        Err(TokenError::InvalidNumber(ref t)) if t == "-5"
    ));
    assert!(matches!(
        parse_range_filter(Some("x-5".to_string())),
        Err(TokenError::InvalidRangeStart(ref t)) if t == "x"
    ));
    assert!(matches!(
        parse_range_filter(Some("5- y".to_string())),
        Err(TokenError::InvalidRangeEnd(ref t)) if t == "y"
    ));
    assert!(matches!(
        parse_range_filter(Some("1,z".to_string())),
        Err(TokenError::InvalidSingleNumber(ref t)) if t == "z"
    ));
    assert!(matches!(
        parse_range_filter(Some("1-2-3".to_string())),
        Err(TokenError::InvalidRangeFormat(ref t)) if t == "1-2-3"
    ));
}

#[test]
fn first_bad_option_is_reported() {
    let err = parse_response_filters(
        None,
        Some("1-2".to_string()),
        Some("a".to_string()),
        None,
        Some("b".to_string()),
        None,
    )
    .unwrap_err();
    assert_eq!(err.option, FilterOption::MatchLines);
    assert!(matches!(err.error, TokenError::InvalidSingleNumber(ref t) if t == "a"));
}

#[test]
fn whitespace_around_tokens_is_ignored() {
    assert_eq!(
        parse_filter_list(Some(" 200 ,\t301".to_string())).unwrap(),
        Some(vec![200, 301])
    );
    assert_eq!(
        parse_range_filter(Some(" 10 - 20 , 30 ".to_string())).unwrap(),
        Some(vec![(10, 20), (30, 30)])
    );
}

#[test]
fn number_beyond_usize_is_an_error() {
    assert!(matches!(
        parse_filter_list(Some("123456789012345678901234567890".to_string())),
        Err(TokenError::InvalidNumber(_))
    ));
    assert_eq!(
        parse_filter_list(Some("18446744073709551615".to_string())).unwrap(),
        Some(vec![usize::MAX])
    );
}

#[test]
fn single_number_equals_degenerate_range() {
    let single = parse_range_filter(Some("200".to_string())).unwrap();
    let range = parse_range_filter(Some("200-200".to_string())).unwrap();
    assert_eq!(single, range);

    let by_single = parse_response_filters(None, None, None, None, Some("200".to_string()), None)
        .unwrap();
    let by_range =
        parse_response_filters(None, None, None, None, Some("200-200".to_string()), None)
            .unwrap();
    for length in [199u64, 200, 201] {
        let r = response(200, Some(length), None);
        assert_eq!(accept(&r, &by_single), accept(&r, &by_range));
    }
    assert!(!accept(&response(200, Some(200), None), &by_single));
    assert!(accept(&response(200, Some(201), None), &by_single));
}

#[test]
fn size_match_ranges_are_closed() {
    let rules = parse_response_filters(None, Some("100-200,300".to_string()), None, None, None, None)
        .unwrap();
    assert!(accept(&response(200, Some(150), None), &rules));
    assert!(!accept(&response(200, Some(250), None), &rules));
    assert!(accept(&response(200, Some(300), None), &rules));
    assert!(accept(&response(200, Some(100), None), &rules));
    assert!(accept(&response(200, Some(200), None), &rules));
    assert!(!accept(&response(200, Some(99), None), &rules));
    assert!(!accept(&response(200, None, None), &rules));
}

#[test]
fn size_filter_rejects_inside_and_unknown_length() {
    let rules = parse_response_filters(None, None, None, None, Some("50-100".to_string()), None)
        .unwrap();
    assert!(!accept(&response(200, Some(75), None), &rules));
    assert!(accept(&response(200, Some(101), None), &rules));
    assert!(!accept(&response(200, None, None), &rules));
}

#[test]
fn status_match_and_filter_are_complements() {
    let matching = parse_response_filters(Some("200".to_string()), None, None, None, None, None)
        .unwrap();
    let filtering = parse_response_filters(None, None, None, Some("200".to_string()), None, None)
        .unwrap();
    for status in [200u16, 201, 404] {
        let r = response(status, Some(1), None);
        assert_eq!(accept(&r, &matching), status == 200);
        assert_eq!(accept(&r, &filtering), status != 200);
        assert_ne!(accept(&r, &matching), accept(&r, &filtering));
    }
}

#[test]
fn transport_error_is_always_rejected() {
    let failed = FuzzResponse::transport_error("http://h/a".to_string());
    assert!(!accept(&failed, &no_rules()));
    let filtering = parse_response_filters(None, None, None, Some("404".to_string()), None, None)
        .unwrap();
    assert!(!accept(&failed, &filtering));
    assert!(accept(&response(200, None, None), &no_rules()));
}

#[test]
fn line_rules_count_lines_of_the_body() {
    let rules = parse_response_filters(None, None, Some("2".to_string()), None, None, None)
        .unwrap();
    assert!(rules.needs_body());
    assert!(!no_rules().needs_body());
    assert!(accept(&response(200, None, Some("a\nb")), &rules));
    assert!(accept(&response(200, None, Some("a\nb\n")), &rules));
    assert!(!accept(&response(200, None, Some("a\nb\nc")), &rules));
    assert!(!accept(&response(200, None, Some("a")), &rules));
    assert!(!accept(&response(200, None, None), &rules));

    let empty = parse_response_filters(None, None, Some("0".to_string()), None, None, None)
        .unwrap();
    assert!(accept(&response(200, None, Some("")), &empty));
    assert!(!accept(&response(200, None, Some("\n")), &empty));

    let filtered = parse_response_filters(None, None, None, None, None, Some("0".to_string()))
        .unwrap();
    assert!(!accept(&response(200, None, Some("")), &filtered));
    assert!(accept(&response(200, None, Some("x")), &filtered));
}

#[test]
fn leading_plus_is_read_as_std_reads_it() {
    assert_eq!(
        parse_filter_list(Some("+200, 301".to_string())).unwrap(),
        Some(vec![200, 301])
    );
    assert_eq!(
        parse_range_filter(Some("+5".to_string())).unwrap(),
        Some(vec![(5, 5)])
    );
    assert_eq!(
        parse_range_filter(Some("+1-+3".to_string())).unwrap(),
        Some(vec![(1, 3)])
    );
    assert!(matches!(
        parse_filter_list(Some("+".to_string())),
        Err(TokenError::InvalidNumber(ref t)) if t == "+"
    ));
    assert!(matches!(
        parse_filter_list(Some("++5".to_string())),
        Err(TokenError::InvalidNumber(ref t)) if t == "++5"
    ));
    assert!(matches!(
        parse_range_filter(Some("+ 5".to_string())),
        Err(TokenError::InvalidSingleNumber(ref t)) if t == "+ 5"
    ));
    for token in ["+200", "+0", "007", "+18446744073709551615"] {
        assert_eq!(
            parse_filter_list(Some(token.to_string())).unwrap(),
            Some(vec![token.parse::<usize>().unwrap()])
        );
    }
    let filters = parse_response_filters(None, None, None, Some("+404".to_string()), None, None)
        .unwrap();
    assert_eq!(filters.status_filters.unwrap(), vec![404]);
}
