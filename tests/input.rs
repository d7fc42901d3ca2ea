use furl::http::parse_headers;
use furl::input::{dedup_words, split_words, wordlist_words};

fn strings(v: &[&str]) -> Vec<String> {
    v.iter().map(|s| s.to_string()).collect()
}

#[test]
fn words_are_split_on_any_whitespace() {
    assert_eq!(
        split_words("admin\nlogin  test\r\n\tx\u{a0}y "),
        strings(&["admin", "login", "test", "x", "y"])
    );
    assert_eq!(split_words(""), Vec::<String>::new());
    assert_eq!(split_words(" \n\t "), Vec::<String>::new());
    assert_eq!(split_words("one"), strings(&["one"]));
}

#[test]
fn repeated_words_are_kept_once_at_first_place() {
    assert_eq!(
        dedup_words(strings(&["b", "a", "b", "c", "a", "b"])),
        strings(&["b", "a", "c"])
    );
    assert_eq!(dedup_words(vec![]), Vec::<String>::new());
    assert_eq!(
        wordlist_words("admin\nlogin\n\nadmin\ntest\nlogin\n"),
        strings(&["admin", "login", "test"])
    );
}

#[test]
fn many_distinct_words_survive_dedup() {
    let words: Vec<String> = (0..500).map(|i| format!("w{}", i)).collect();
    let mut doubled = words.clone();
    doubled.extend(words.iter().cloned());
    assert_eq!(dedup_words(doubled), words);
}

#[test]
fn headers_and_cookie_become_pairs() {
    assert_eq!(parse_headers(None, None), None);
    assert_eq!(
        parse_headers(
            Some("X-Token: abc, Accept: text/html,broken".to_string()),
            Some("a=1; b=2".to_string())
        ),
        Some(vec![
            ("X-Token".to_string(), "abc".to_string()),
            ("Accept".to_string(), "text/html".to_string()),
            ("Cookie".to_string(), "a=1; b=2".to_string()),
        ])
    );
    assert_eq!(
        parse_headers(None, Some("s=x".to_string())),
        Some(vec![("Cookie".to_string(), "s=x".to_string())])
    );
    assert_eq!(
        parse_headers(Some("Referer: http://h: 1".to_string()), None),
        Some(vec![("Referer".to_string(), "http://h: 1".to_string())])
    );
    assert_eq!(parse_headers(Some("nothing".to_string()), None), Some(vec![]));
}

#[test]
fn header_value_is_kept_as_written() {
    assert_eq!(
        parse_headers(Some(" X-A:  padded value ".to_string()), None),
        Some(vec![("X-A".to_string(), " padded value ".to_string())])
    );
}
