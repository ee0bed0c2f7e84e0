use http_playback_proxy::recording::{reconstruct_url, RecordingSession, RequestInfo};
use http_playback_proxy::signal::SignalKind;
use http_playback_proxy::types::Inventory;

fn info(method: &str, url: &str, start: u64) -> RequestInfo {
    RequestInfo {
        method: method.to_string(),
        url: url.to_string(),
        request_start_ms: start,
        elapsed_since_start: start,
    }
}

#[test]
fn test_reconstruct_url() {
    let host = "example.com".to_string();
    let q = "a=1".to_string();

    let url = reconstruct_url(false, "/p", Some(&host), "/p", Some(&q));
    assert_eq!(url, "https://example.com/p?a=1");

    let url = reconstruct_url(false, "/p", Some(&host), "/p", None);
    assert_eq!(url, "https://example.com/p");

    let url = reconstruct_url(true, "http://example.com/p", Some(&host), "/p", None);
    assert_eq!(url, "http://example.com/p");

    let url = reconstruct_url(false, "/p", None, "/p", None);
    assert_eq!(url, "/p");
}

#[test]
fn test_fifo_pairing_on_one_connection() {
    // Pairing correctness: three pipelined requests on one connection are
    // answered in arrival order.
    let mut session = RecordingSession::new(Inventory::new());
    let peer = "127.0.0.1:5000";

    session.on_request(peer.to_string(), info("GET", "https://h/1", 10));
    session.on_request(peer.to_string(), info("GET", "https://h/2", 20));
    session.on_request(peer.to_string(), info("GET", "https://h/3", 30));

    session.on_response(peer, 200, &Vec::new(), b"one".to_vec(), 110, 120);
    session.on_response(peer, 201, &Vec::new(), b"two".to_vec(), 210, 220);
    session.on_response(peer, 202, &Vec::new(), b"three".to_vec(), 310, 320);

    let resources = &session.inventory.resources;
    assert_eq!(resources.len(), 3);
    assert_eq!(resources[0].url, "https://h/1");
    assert_eq!(resources[1].url, "https://h/2");
    assert_eq!(resources[2].url, "https://h/3");
    assert_eq!(resources[0].status_code, Some(200));
    assert_eq!(resources[1].status_code, Some(201));
    assert_eq!(resources[2].status_code, Some(202));
    // TTFB is measured from each request's own start.
    assert_eq!(resources[0].ttfb_ms, 100);
    assert_eq!(resources[1].ttfb_ms, 190);
    assert_eq!(resources[2].ttfb_ms, 280);
    assert_eq!(resources[0].download_end_ms, Some(110));
}

#[test]
fn test_fifo_pairing_is_per_connection() {
    let mut session = RecordingSession::new(Inventory::new());

    session.on_request("peer-a".to_string(), info("GET", "https://h/a1", 0));
    session.on_request("peer-b".to_string(), info("GET", "https://h/b1", 0));
    session.on_request("peer-a".to_string(), info("GET", "https://h/a2", 0));

    // peer-b answers first; it must get its own request, not peer-a's.
    session.on_response("peer-b", 200, &Vec::new(), Vec::new(), 5, 6);
    session.on_response("peer-a", 200, &Vec::new(), Vec::new(), 7, 8);
    session.on_response("peer-a", 200, &Vec::new(), Vec::new(), 9, 10);

    let resources = &session.inventory.resources;
    assert_eq!(resources[0].url, "https://h/b1");
    assert_eq!(resources[1].url, "https://h/a1");
    assert_eq!(resources[2].url, "https://h/a2");
}

#[test]
fn test_unmatched_response_is_degraded_record() {
    let mut session = RecordingSession::new(Inventory::new());
    session.on_response("ghost", 500, &Vec::new(), Vec::new(), 42, 43);
    let resources = &session.inventory.resources;
    assert_eq!(resources.len(), 1);
    assert_eq!(resources[0].method, "GET");
    assert_eq!(resources[0].url, "unknown");
    assert_eq!(resources[0].ttfb_ms, 42);
}

#[test]
fn test_response_headers_coalesce_and_encoding_parsed() {
    let mut session = RecordingSession::new(Inventory::new());
    session.on_request("p".to_string(), info("GET", "https://h/x", 0));
    let lines = vec![
        ("content-type".to_string(), "text/html; charset=utf-8".to_string()),
        ("set-cookie".to_string(), "a=1".to_string()),
        ("set-cookie".to_string(), "b=2".to_string()),
        ("content-encoding".to_string(), "gzip".to_string()),
        ("Connection".to_string(), "keep-alive".to_string()),
        ("Proxy-Authorization".to_string(), "secret".to_string()),
    ];
    session.on_response("p", 200, &lines, b"x".to_vec(), 1, 2);

    let res = &session.inventory.resources[0];
    let headers = res.raw_headers.as_ref().unwrap();
    // Hop-by-hop lines are never stored.
    assert_eq!(headers.len(), 3);
    assert!(headers.get("Connection").is_none());
    assert!(headers.get("Proxy-Authorization").is_none());
    match headers.get("set-cookie") {
        Some(v) => assert_eq!(v.as_vec(), vec!["a=1", "b=2"]),
        None => panic!("missing set-cookie"),
    }
    assert_eq!(
        res.content_encoding,
        Some(http_playback_proxy::types::ContentEncodingType::Gzip)
    );
    // The Content-Type header is parsed into MIME and provisional charset.
    assert_eq!(res.content_type_mime.as_deref(), Some("text/html"));
    assert_eq!(res.content_charset.as_deref(), Some("utf-8"));
    assert_eq!(res.raw_body.as_deref(), Some(b"x".as_slice()));
}

#[test]
fn test_response_throughput_and_clamped_end() {
    let mut session = RecordingSession::new(Inventory::new());
    session.on_request("p".to_string(), info("GET", "https://h/big", 0));
    // 100 KiB delivered between 500 ms and 1500 ms: 819 kbit/s.
    let body = vec![0u8; 100 * 1024];
    session.on_response("p", 200, &Vec::new(), body, 500, 1500);
    let res = &session.inventory.resources[0];
    assert_eq!(res.ttfb_ms, 500);
    assert_eq!(res.download_end_ms, Some(1500));
    assert_eq!(res.mbps_x1000, Some(8 * 100 * 1024 / 1000));

    // A download end before the first byte is clamped, never inverted.
    session.on_request("p".to_string(), info("GET", "https://h/odd", 0));
    session.on_response("p", 200, &Vec::new(), Vec::new(), 50, 40);
    let res = &session.inventory.resources[1];
    assert_eq!(res.ttfb_ms, 50);
    assert_eq!(res.download_end_ms, Some(50));
    assert!(res.mbps_x1000.is_none());
}

#[test]
fn test_signal_kind_from_str() {
    assert_eq!(SignalKind::from_str("ctrl-break").unwrap(), SignalKind::CtrlBreak);
    assert_eq!(SignalKind::from_str("ctrl-c").unwrap(), SignalKind::CtrlC);
    assert_eq!(SignalKind::from_str("TERM").unwrap(), SignalKind::Term);
    assert_eq!(SignalKind::from_str("int").unwrap(), SignalKind::Int);
    assert!(SignalKind::from_str("hup").is_err());
}
