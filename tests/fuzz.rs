use furl::dispatch::{DispatchStep, Dispatcher};
use furl::filters::parse_response_filters;
use furl::fuzz::{create_fuzzlist, FuzzResponse, FuzzlistError};
use furl::output::{status_band, StatusBand};
use furl::status::reason_phrase;

#[test]
fn test_create_fuzzlist() {
    let target_url = "http://example.com/FUZZ";
    let wordlist = vec!["admin".to_string(), "login".to_string(), "test".to_string()];
    let fuzzlist = create_fuzzlist(target_url, wordlist).unwrap();

    assert_eq!(
        fuzzlist,
        vec![
            "http://example.com/admin".to_string(),
            "http://example.com/login".to_string(),
            "http://example.com/test".to_string()
        ]
    );
}

#[test]
#[should_panic]
fn test_invalid_fuzzlist() {
    let target_url = "http://example.com/";
    let wordlist = vec!["admin".to_string()];
    let _ = create_fuzzlist(target_url, wordlist).unwrap();
}

#[test]
fn every_placeholder_is_replaced() {
    let urls = create_fuzzlist(
        "http://FUZZ.example.com/FUZZ/x?q=FUZZ",
        vec!["a".to_string(), "éß".to_string()],
    )
    .unwrap();
    assert_eq!(
        urls,
        vec![
            "http://a.example.com/a/x?q=a".to_string(),
            "http://éß.example.com/éß/x?q=éß".to_string()
        ]
    );
}

#[test]
fn placeholder_occurrences_do_not_overlap() {
    let urls = create_fuzzlist("FUZZZFUZFUZZ", vec!["_".to_string()]).unwrap();
    assert_eq!(urls, vec!["_ZFUZ_".to_string()]);
    let urls = create_fuzzlist("/FUZZ", vec!["FUZZ".to_string()]).unwrap();
    assert_eq!(urls, vec!["/FUZZ".to_string()]);
}

#[test]
fn missing_placeholder_is_refused() {
    assert_eq!(
        create_fuzzlist("http://example.com/fuzz", vec!["a".to_string()]),
        Err(FuzzlistError::MissingPlaceholder)
    );
    assert_eq!(create_fuzzlist("FUZZ", vec![]), Ok(vec![]));
}

#[test]
fn reason_phrase_is_canonical_or_the_displayed_code() {
    assert_eq!(reason_phrase(404), "Not Found");
    assert_eq!(reason_phrase(200), "OK");
    assert_eq!(reason_phrase(599), "599 <unknown status code>");
    let r = FuzzResponse::from_response("u".to_string(), 301, Some(5), None);
    assert_eq!(r.reason_phrase.as_deref(), Some("Moved Permanently"));
    assert_eq!(r.status_code, Some(301));
    assert_eq!(r.content_length, Some(5));
    assert!(!r.request_error);
}

#[test]
fn transport_error_has_no_response_fields() {
    let r = FuzzResponse::transport_error("http://h/a".to_string());
    assert!(r.request_error);
    assert_eq!(r.url, "http://h/a");
    assert_eq!(r.status_code, None);
    assert_eq!(r.reason_phrase, None);
    assert_eq!(r.content_length, None);
    assert_eq!(r.body, None);
}

#[test]
fn status_bands() {
    assert_eq!(status_band(100), StatusBand::Informational);
    assert_eq!(status_band(299), StatusBand::Success);
    assert_eq!(status_band(301), StatusBand::Redirection);
    assert_eq!(status_band(404), StatusBand::ClientError);
    assert_eq!(status_band(599), StatusBand::ServerError);
    assert_eq!(status_band(600), StatusBand::Unexpected);
    assert_eq!(status_band(99), StatusBand::Unexpected);
}

/// A fake client: status and length by the last path segment.
fn fake_get(url: &str) -> FuzzResponse {
    if url.ends_with("/a") {
        FuzzResponse::from_response(url.to_string(), 200, Some(10), None)
    } else if url.ends_with("/b") {
        FuzzResponse::from_response(url.to_string(), 404, Some(20), None)
    } else {
        FuzzResponse::transport_error(url.to_string())
    }
}

#[test]
fn end_to_end_filter_status() {
    let words = vec!["a".to_string(), "b".to_string()];
    let rules =
        parse_response_filters(None, None, None, Some("404".to_string()), None, None).unwrap();
    let mut run = Dispatcher::for_template("http://h/FUZZ", words, 2, rules).unwrap();
    let mut pending: Vec<(usize, String)> = Vec::new();
    loop {
        match run.step() {
            DispatchStep::Start { index, url } => pending.push((index, url)),
            DispatchStep::Wait => {
                let (index, url) = pending.pop().unwrap();
                run.complete(index, fake_get(&url));
            }
            DispatchStep::Finished => break,
        }
    }
    let results = run.into_results();
    assert_eq!(results.len(), 1);
    assert_eq!(results[0].url, "http://h/a");
    assert_eq!(results[0].status_code, Some(200));
    assert_eq!(results[0].content_length, Some(10));
}

#[test]
fn in_flight_never_exceeds_budget() {
    let words: Vec<String> = (0..7).map(|i| format!("w{}", i)).collect();
    let urls = create_fuzzlist("http://h/FUZZ", words).unwrap();
    let rules = parse_response_filters(None, None, None, None, None, None).unwrap();
    let mut run = Dispatcher::new(urls, 3, rules);
    let mut open: Vec<(usize, String)> = Vec::new();
    let mut started = Vec::new();
    let mut max_open = 0;
    loop {
        match run.step() {
            DispatchStep::Start { index, url } => {
                assert_eq!(url, format!("http://h/w{}", index));
                open.push((index, url));
                started.push(index);
                max_open = max_open.max(open.len());
            }
            DispatchStep::Wait => {
                assert!(!open.is_empty());
                let (index, url) = open.remove(0);
                run.complete(index, FuzzResponse::from_response(url, 200, None, None));
            }
            DispatchStep::Finished => break,
        }
    }
    assert!(open.is_empty());
    assert_eq!(max_open, 3);
    assert_eq!(started, vec![0, 1, 2, 3, 4, 5, 6]);
    assert_eq!(run.into_results().len(), 7);
}

#[test]
fn run_without_placeholder_is_refused() {
    let rules = parse_response_filters(None, None, None, None, None, None).unwrap();
    let run = Dispatcher::for_template("http://h/", vec!["a".to_string()], 1, rules);
    assert!(matches!(run, Err(FuzzlistError::MissingPlaceholder)));
}

#[test]
fn empty_wordlist_finishes_at_once() {
    let rules = parse_response_filters(None, None, None, None, None, None).unwrap();
    let mut run = Dispatcher::for_template("http://h/FUZZ", vec![], 4, rules).unwrap();
    assert!(matches!(run.step(), DispatchStep::Finished));
    assert!(run.into_results().is_empty());
}

#[test]
fn expansion_is_split_and_join_on_the_placeholder() {
    let template = "http://FUZZ.h/a/FUZZ?x=FUZZ&y=1";
    let words = vec!["admin".to_string(), "".to_string(), "ü".to_string()];
    let urls = create_fuzzlist(template, words.clone()).unwrap();
    let pieces: Vec<&str> = template.split("FUZZ").collect();
    let k = pieces.len() - 1;
    assert_eq!(k, 3);
    for (url, word) in urls.iter().zip(words.iter()) {
        assert_eq!(url, &pieces.join(word));
        assert_eq!(
            url.chars().count(),
            template.chars().count() + k * word.chars().count() - 4 * k
        );
    }
}

#[test]
fn end_to_end_any_budget_and_order() {
    for budget in 1..=3 {
        for newest_first in [false, true] {
            let words = vec!["a".to_string(), "b".to_string()];
            let rules = parse_response_filters(None, None, None, Some("404".to_string()), None, None)
                .unwrap();
            let mut run = Dispatcher::for_template("http://h/FUZZ", words, budget, rules).unwrap();
            let mut open: Vec<(usize, String)> = Vec::new();
            loop {
                match run.step() {
                    DispatchStep::Start { index, url } => open.push((index, url)),
                    DispatchStep::Wait => {
                        let (index, url) = if newest_first {
                            open.pop().unwrap()
                        } else {
                            open.remove(0)
                        };
                        run.complete(index, fake_get(&url));
                    }
                    DispatchStep::Finished => break,
                }
            }
            let results = run.into_results();
            assert_eq!(results.len(), 1);
            assert_eq!(results[0].url, "http://h/a");
            assert_eq!(results[0].status_code, Some(200));
            assert_eq!(results[0].content_length, Some(10));
        }
    }
}
