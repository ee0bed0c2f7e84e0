use http_playback_proxy::types::{
    BodyChunk, ContentEncodingType, DeviceType, HeaderValue, HttpHeaders, Inventory, Resource,
    Transaction,
};

#[test]
fn test_content_encoding_from_str() {
    assert_eq!(
        ContentEncodingType::from_str("gzip").unwrap(),
        ContentEncodingType::Gzip
    );
    assert_eq!(
        ContentEncodingType::from_str("br").unwrap(),
        ContentEncodingType::Br
    );
    assert_eq!(
        ContentEncodingType::from_str("identity").unwrap(),
        ContentEncodingType::Identity
    );

    assert!(ContentEncodingType::from_str("invalid").is_err());
}

#[test]
fn test_content_encoding_parsing() {
    // Test gzip
    let gzip = ContentEncodingType::from_str("gzip").unwrap();
    assert!(matches!(gzip, ContentEncodingType::Gzip));

    // Test br (brotli)
    let br = ContentEncodingType::from_str("br").unwrap();
    assert!(matches!(br, ContentEncodingType::Br));

    // Test deflate
    let deflate = ContentEncodingType::from_str("deflate").unwrap();
    assert!(matches!(deflate, ContentEncodingType::Deflate));

    // Test identity
    let identity = ContentEncodingType::from_str("identity").unwrap();
    assert!(matches!(identity, ContentEncodingType::Identity));

    // Test case insensitivity
    let gzip_upper = ContentEncodingType::from_str("GZIP").unwrap();
    assert!(matches!(gzip_upper, ContentEncodingType::Gzip));

    // Test invalid encoding
    let invalid = ContentEncodingType::from_str("invalid-encoding");
    assert!(invalid.is_err());
}

#[test]
fn test_content_encoding_all_types() {
    // Test all encoding types
    assert!(ContentEncodingType::from_str("gzip").is_ok());
    assert!(ContentEncodingType::from_str("br").is_ok());
    assert!(ContentEncodingType::from_str("deflate").is_ok());
    assert!(ContentEncodingType::from_str("identity").is_ok());

    // Case insensitive
    assert!(ContentEncodingType::from_str("GZIP").is_ok());
    assert!(ContentEncodingType::from_str("Br").is_ok());

    // Invalid
    assert!(ContentEncodingType::from_str("unknown").is_err());
    assert!(ContentEncodingType::from_str("").is_err());
}

#[test]
fn test_resource_creation() {
    let resource = Resource::new("GET".to_string(), "https://example.com".to_string());

    assert_eq!(resource.method, "GET");
    assert_eq!(resource.url, "https://example.com");
    assert_eq!(resource.ttfb_ms, 0);
    assert!(resource.status_code.is_none());
    assert!(resource.mbps_x1000.is_none());
}

#[test]
fn test_inventory_creation() {
    let inventory = Inventory::new();

    assert!(inventory.entry_url.is_none());
    assert!(inventory.device_type.is_none());
    assert!(inventory.resources.is_empty());
}

#[test]
fn test_handle_proxy_request_creation() {
    // Test that we can create the basic request/response structure
    let resource = Resource::new("GET".to_string(), "https://example.com".to_string());

    assert_eq!(resource.method, "GET");
    assert_eq!(resource.url, "https://example.com");
    assert_eq!(resource.ttfb_ms, 0);
}

#[test]
fn test_body_chunk_creation() {
    let chunk = BodyChunk {
        chunk: b"test data".to_vec(),
        target_time: 1000,
    };

    assert_eq!(chunk.chunk, b"test data");
    assert_eq!(chunk.target_time, 1000);
}

#[test]
fn test_transaction_creation() {
    let chunks = vec![
        BodyChunk {
            chunk: b"chunk1".to_vec(),
            target_time: 100,
        },
        BodyChunk {
            chunk: b"chunk2".to_vec(),
            target_time: 200,
        },
    ];

    let transaction = Transaction {
        method: "GET".to_string(),
        url: "https://example.com".to_string(),
        ttfb: 50,
        status_code: Some(200),
        error_message: None,
        raw_headers: None,
        chunks,
        target_close_time: 300, // Example close time
    };

    assert_eq!(transaction.method, "GET");
    assert_eq!(transaction.url, "https://example.com");
    assert_eq!(transaction.ttfb, 50);
    assert_eq!(transaction.status_code, Some(200));
    assert_eq!(transaction.chunks.len(), 2);
    assert_eq!(transaction.target_close_time, 300);
}

#[test]
fn test_header_values() {
    let single = HeaderValue::single("a".to_string());
    assert_eq!(single.first(), "a");
    assert_eq!(single.as_vec(), vec!["a"]);

    let multi = HeaderValue::multiple(vec!["a".to_string(), "b".to_string()]);
    assert_eq!(multi.first(), "a");
    assert_eq!(multi.as_vec(), vec!["a", "b"]);

    let empty = HeaderValue::multiple(Vec::new());
    assert_eq!(empty.first(), "");
    assert!(empty.as_vec().is_empty());
}

#[test]
fn test_headers_set_and_get() {
    let mut h = HttpHeaders::new();
    h.set(
        "content-type".to_string(),
        HeaderValue::single("text/html".to_string()),
    );
    h.set(
        "content-type".to_string(),
        HeaderValue::single("text/css".to_string()),
    );
    assert_eq!(h.len(), 1);
    match h.get("content-type") {
        Some(HeaderValue::Single(v)) => assert_eq!(v, "text/css"),
        _ => panic!("expected a single value"),
    }
    assert!(h.get("missing").is_none());
}

#[test]
fn test_headers_add_line_coalesces() {
    let mut h = HttpHeaders::new();
    h.add_line("set-cookie".to_string(), "a=1".to_string());
    h.add_line("set-cookie".to_string(), "b=2".to_string());
    assert_eq!(h.len(), 1);
    match h.get("set-cookie") {
        Some(v) => assert_eq!(v.as_vec(), vec!["a=1", "b=2"]),
        None => panic!("missing header"),
    }
}
