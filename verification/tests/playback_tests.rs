use http_playback_proxy::playback::{chunk_wait_ms, emission_headers, match_transaction};
use http_playback_proxy::types::{BodyChunk, HeaderEntry, HeaderValue, HttpHeaders, Transaction};

fn tx(method: &str, url: &str) -> Transaction {
    Transaction {
        method: method.to_string(),
        url: url.to_string(),
        ttfb: 0,
        status_code: Some(200),
        error_message: None,
        raw_headers: None,
        chunks: Vec::new(),
        target_close_time: 0,
    }
}

#[test]
fn test_match_transaction_by_path_and_query() {
    let txs = vec![
        tx("GET", "https://example.com/a"),
        tx("GET", "https://example.com/b?x=1"),
        tx("POST", "https://example.com/b?x=1"),
    ];

    let x1 = "x=1".to_string();
    let got = match_transaction(&txs, "GET", None, "/b", Some(&x1));
    assert_eq!(got, Some(1));

    let got = match_transaction(&txs, "POST", None, "/b", Some(&x1));
    assert_eq!(got, Some(2));

    let got = match_transaction(&txs, "GET", None, "/b", None);
    assert_eq!(got, None);

    let got = match_transaction(&txs, "GET", None, "/missing", None);
    assert_eq!(got, None);
}

#[test]
fn test_match_transaction_host_best_effort() {
    let txs = vec![
        tx("GET", "https://one.example/a"),
        tx("GET", "https://two.example/a"),
    ];

    let host = "two.example".to_string();
    let got = match_transaction(&txs, "GET", Some(&host), "/a", None);
    assert_eq!(got, Some(1));

    // Without a request host, the first path match wins.
    let got = match_transaction(&txs, "GET", None, "/a", None);
    assert_eq!(got, Some(0));
}

#[test]
fn test_emission_headers_sanitized() {
    // Header sanitation: no hop-by-hop header is emitted, and exactly one
    // Content-Length equal to the body length is appended.
    let mut headers = HttpHeaders::new();
    headers.entries.push(HeaderEntry {
        name: "Connection".to_string(),
        value: HeaderValue::Single("keep-alive".to_string()),
    });
    headers.entries.push(HeaderEntry {
        name: "Transfer-Encoding".to_string(),
        value: HeaderValue::Single("chunked".to_string()),
    });
    headers.entries.push(HeaderEntry {
        name: "content-length".to_string(),
        value: HeaderValue::Single("999".to_string()),
    });
    headers.entries.push(HeaderEntry {
        name: "Set-Cookie".to_string(),
        value: HeaderValue::Multiple(vec!["a=1".to_string(), "b=2".to_string()]),
    });
    headers.entries.push(HeaderEntry {
        name: "X-Custom".to_string(),
        value: HeaderValue::Single("yes".to_string()),
    });

    let t = Transaction {
        method: "GET".to_string(),
        url: "https://example.com/".to_string(),
        ttfb: 0,
        status_code: Some(200),
        error_message: None,
        raw_headers: Some(headers),
        chunks: vec![
            BodyChunk {
                chunk: b"hello ".to_vec(),
                target_time: 0,
            },
            BodyChunk {
                chunk: b"world".to_vec(),
                target_time: 1,
            },
        ],
        target_close_time: 2,
    };

    let emitted = emission_headers(&t);

    let dropped = [
        "transfer-encoding",
        "connection",
        "keep-alive",
        "upgrade",
        "te",
        "trailer",
        "proxy-connection",
        "proxy-authorization",
        "proxy-authenticate",
        "host",
    ];
    for (name, _) in &emitted[..emitted.len() - 1] {
        let low = name.to_lowercase();
        assert!(!dropped.contains(&low.as_str()), "{} was emitted", name);
        assert_ne!(low, "content-length");
    }

    let content_lengths: Vec<&(String, String)> = emitted
        .iter()
        .filter(|(n, _)| n.to_lowercase() == "content-length")
        .collect();
    assert_eq!(content_lengths.len(), 1);
    assert_eq!(content_lengths[0].1, "11");

    // Both cookie values survive, in order.
    let cookies: Vec<&str> = emitted
        .iter()
        .filter(|(n, _)| n == "Set-Cookie")
        .map(|(_, v)| v.as_str())
        .collect();
    assert_eq!(cookies, vec!["a=1", "b=2"]);

    // The custom header survives.
    assert!(emitted.iter().any(|(n, v)| n == "X-Custom" && v == "yes"));
}

#[test]
fn test_chunk_wait_ms() {
    assert_eq!(chunk_wait_ms(100, 40), 60);
    assert_eq!(chunk_wait_ms(100, 100), 0);
    assert_eq!(chunk_wait_ms(100, 160), 0);
    assert_eq!(chunk_wait_ms(0, 0), 0);
}
