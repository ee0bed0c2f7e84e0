use http_playback_proxy::traits::FileSystem;
use http_playback_proxy::transaction::{
    compress_content, convert_resource_to_transaction, create_chunks, minify_content,
    re_encode_to_charset,
};
use http_playback_proxy::types::{ContentEncodingType, HeaderValue, HttpHeaders, Resource};
use base64::Engine;
use std::io::Read;

struct NoFs;

impl FileSystem for NoFs {
    fn read(&self, _path: &str) -> Result<Vec<u8>, String> {
        Err("no file system".to_string())
    }
    fn write(&self, _path: &str, _content: &[u8]) -> Result<(), String> {
        Err("no file system".to_string())
    }
    fn create_dir_all(&self, _path: &str) -> Result<(), String> {
        Err("no file system".to_string())
    }
    fn path_exists(&self, _path: &str) -> bool {
        false
    }
    fn read_to_string(&self, _path: &str) -> Result<String, String> {
        Err("no file system".to_string())
    }
    fn write_string(&self, _path: &str, _content: &str) -> Result<(), String> {
        Err("no file system".to_string())
    }
}

#[test]
fn test_create_chunks() {
    let mut resource = Resource::new("GET".to_string(), "https://example.com/test".to_string());
    resource.ttfb_ms = 100;
    resource.mbps_x1000 = Some(1000); // 1 Mbps

    let content = b"This is test content for chunking";
    let (chunks, target_close_time) = create_chunks(content, &resource).unwrap();

    assert!(!chunks.is_empty());

    // Verify that chunk target times are relative to TTFB (0-based)
    // First chunk should start at 0 (immediately after TTFB)
    assert_eq!(chunks[0].target_time, 0);

    // Verify that combined chunks equal original content
    let mut combined = Vec::new();
    for chunk in &chunks {
        combined.extend_from_slice(&chunk.chunk);
    }
    assert_eq!(combined, content);

    // Verify target_close_time is set appropriately (relative to TTFB)
    assert!(target_close_time > 0);
}

#[test]
fn test_minify_content() {
    // Test HTML minification
    let html_content = b"<html>\n  <body>\n    <h1>Test</h1>\n  </body>\n</html>";
    let minified = minify_content(html_content, &Some("text/html".to_string())).unwrap();
    let minified_str = String::from_utf8(minified).unwrap();

    // Should have fewer newlines and spaces
    assert!(minified_str.len() <= html_content.len());
    assert!(!minified_str.contains("  ")); // No double spaces

    // Test CSS minification
    let css_content = b"body {\n  margin: 0;\n  padding: 0;\n}";
    let minified = minify_content(css_content, &Some("text/css".to_string())).unwrap();
    let minified_str = String::from_utf8(minified).unwrap();

    // Should be more compact
    assert!(minified_str.len() <= css_content.len());
}

#[test]
fn test_minify_html_content() {
    let html_with_whitespace = b"<html>\n  <head>\n    <title>Test</title>\n  </head>\n  <body>\n    <h1>Hello</h1>\n  </body>\n</html>";

    let minified =
        minify_content(html_with_whitespace, &Some("text/html".to_string())).unwrap();
    let minified_str = String::from_utf8(minified).unwrap();

    // Should be more compact
    assert!(minified_str.len() <= html_with_whitespace.len());
    // Should not contain excessive whitespace
    assert!(!minified_str.contains("  "));
}

#[test]
fn test_minify_css_content() {
    let css_with_whitespace = b"body {\n  margin: 0;\n  padding: 0;\n}\n\nh1 {\n  color: red;\n}";

    let minified = minify_content(css_with_whitespace, &Some("text/css".to_string())).unwrap();
    let minified_str = String::from_utf8(minified).unwrap();

    // Should be more compact
    assert!(minified_str.len() <= css_with_whitespace.len());
    // Should not contain newlines (basic minification)
    assert!(!minified_str.contains('\n'));
}

#[test]
fn test_minify_javascript_content() {
    let js_with_comments =
        b"// This is a comment\nfunction test() {\n  // Another comment\n  return 42;\n}";

    let minified = minify_content(
        js_with_comments,
        &Some("application/javascript".to_string()),
    )
    .unwrap();
    let minified_str = String::from_utf8(minified).unwrap();

    // Should be more compact
    assert!(minified_str.len() <= js_with_comments.len());
}

#[test]
fn test_compress_content() {
    let content = b"This is some test content that should be compressed";

    // Test Gzip compression
    let compressed = compress_content(content, &ContentEncodingType::Gzip).unwrap();
    assert!(compressed.len() > 0);
    assert_ne!(compressed, content);

    // Test Deflate compression
    let compressed = compress_content(content, &ContentEncodingType::Deflate).unwrap();
    assert!(compressed.len() > 0);
    assert_ne!(compressed, content);

    // Test Identity (no compression)
    let not_compressed = compress_content(content, &ContentEncodingType::Identity).unwrap();
    assert_eq!(not_compressed, content);
}

#[test]
fn test_compress_gzip_content() {
    let content = b"This is test content for compression testing. It should be compressed efficiently. This is a longer text to ensure compression works properly and reduces the size significantly.";

    let compressed = compress_content(content, &ContentEncodingType::Gzip).unwrap();

    // Compressed content should be different from original
    assert_ne!(compressed.as_slice(), content.as_slice());
    // For longer content, gzip should compress it
    assert!(compressed.len() < content.len());
}

#[test]
fn test_compress_identity_content() {
    let content = b"This content should not be compressed.";

    let result = compress_content(content, &ContentEncodingType::Identity).unwrap();

    // Identity compression should return the same content
    assert_eq!(result, content);
}

#[test]
fn test_compress_brotli_content() {
    let content = b"This is test content for Brotli compression testing. Brotli is a modern compression algorithm developed by Google.";

    let compressed = compress_content(content, &ContentEncodingType::Br).unwrap();

    // Compressed content should be different
    assert_ne!(compressed.as_slice(), content.as_slice());
    // Brotli should compress this content
    assert!(compressed.len() < content.len());
}

#[test]
fn test_compress_deflate_content() {
    let content = b"This is test content for deflate compression. Deflate is a common compression algorithm used in HTTP.";

    let compressed = compress_content(content, &ContentEncodingType::Deflate).unwrap();

    // Compressed content should be different
    assert_ne!(compressed.as_slice(), content.as_slice());
    assert!(compressed.len() > 0);
}

#[test]
fn test_compress_very_small_content() {
    let content = b"Hi";

    // Gzip may increase size for very small content
    let compressed = compress_content(content, &ContentEncodingType::Gzip).unwrap();
    assert!(compressed.len() > 0);

    // But identity should preserve it
    let identity = compress_content(content, &ContentEncodingType::Identity).unwrap();
    assert_eq!(identity, content);
}

#[test]
fn test_gzip_round_trips_through_flate2() {
    // Compression round-trip: the emitted wire body decodes back to the
    // stored body under the recorded codec.
    let content = b"Compression round-trip: origin bytes must survive re-compression.";
    let compressed = compress_content(content, &ContentEncodingType::Gzip).unwrap();

    let mut decoder = flate2::read::GzDecoder::new(compressed.as_slice());
    let mut decompressed = Vec::new();
    decoder.read_to_end(&mut decompressed).unwrap();
    assert_eq!(decompressed, content);
}

#[test]
fn test_empty_content_chunks() {
    let resource = Resource::new("GET".to_string(), "https://example.com/empty".to_string());
    let empty_content = b"";

    let (chunks, target_close_time) = create_chunks(empty_content, &resource).unwrap();

    // Empty content should result in empty chunks
    assert!(chunks.is_empty());
    assert_eq!(target_close_time, 0);
}

#[test]
fn test_chunk_timing_calculation() {
    // Test with different bandwidths, in thousandths of a megabit per second
    let test_cases = vec![
        (1000u64, 1024usize, 100u64),  // 1 Mbps, 1KB, 100ms TTFB
        (10000, 10240, 50),            // 10 Mbps, 10KB, 50ms TTFB
        (500, 512, 200),               // 0.5 Mbps, 512B, 200ms TTFB
    ];

    for (mbps_x1000, content_size, ttfb) in test_cases {
        let mut resource =
            Resource::new("GET".to_string(), "https://example.com/test".to_string());
        resource.ttfb_ms = ttfb;
        resource.mbps_x1000 = Some(mbps_x1000);

        let content = vec![0u8; content_size];
        let (chunks, target_close_time) = create_chunks(&content, &resource).unwrap();

        // Verify first chunk timing (relative to TTFB, so 0)
        assert_eq!(chunks[0].target_time, 0);

        // Verify target_close_time: kilobits per second means the transfer
        // takes 8 * bytes / kbps milliseconds
        let expected_transfer_time = 8 * content_size as u64 / mbps_x1000;

        assert_eq!(
            target_close_time, expected_transfer_time,
            "For {} kbps, {}B content: expected transfer time {}ms, got {}ms",
            mbps_x1000, content_size, expected_transfer_time, target_close_time
        );
    }
}

#[test]
fn test_create_chunks_with_zero_mbps() {
    let mut resource = Resource::new("GET".to_string(), "https://example.com/test".to_string());
    resource.ttfb_ms = 100;
    resource.mbps_x1000 = Some(0); // Invalid: 0 Mbps

    let content = b"test content";

    // Should handle edge case gracefully
    let result = create_chunks(content, &resource);

    // Should either error or use a reasonable default
    assert!(result.is_ok() || result.is_err());
}

#[test]
fn test_create_chunks_without_mbps() {
    let mut resource = Resource::new("GET".to_string(), "https://example.com/test".to_string());
    resource.ttfb_ms = 100;
    resource.mbps_x1000 = None; // No bandwidth info

    let content = b"test content";
    let result = create_chunks(content, &resource);

    // Should handle missing bandwidth
    assert!(result.is_ok());
    if let Ok((chunks, _)) = result {
        assert!(!chunks.is_empty());
    }
}

#[test]
fn test_chunk_times_monotonic_and_bounded() {
    // Time monotonicity: target times never decrease, and the close time is
    // at least the last target time.
    let mut resource = Resource::new("GET".to_string(), "https://example.com/big".to_string());
    resource.ttfb_ms = 500;
    resource.download_end_ms = Some(1500); // 1000 ms transfer

    let content = vec![7u8; 100 * 1024]; // 100 KiB => two chunks
    let (chunks, close) = create_chunks(&content, &resource).unwrap();

    assert!(chunks.len() >= 2);
    assert_eq!(chunks[0].target_time, 0);
    for w in chunks.windows(2) {
        assert!(w[0].target_time <= w[1].target_time);
    }
    for c in &chunks {
        assert!(c.target_time <= close);
    }
    assert_eq!(close, 1000);

    // Chunk reconstruction: concatenation equals the wire body.
    let mut combined = Vec::new();
    for chunk in &chunks {
        combined.extend_from_slice(&chunk.chunk);
    }
    assert_eq!(combined, content);

    // Proportional schedule: the second chunk of a 100 KiB body at 64 KiB
    // granularity starts at floor(65536 * 1000 / 102400) ms.
    assert_eq!(chunks[1].target_time, 640);
}

#[test]
fn test_re_encode_to_charset_shift_jis() {
    let text = "こんにちは";
    let encoded = re_encode_to_charset(text.as_bytes(), "Shift_JIS").unwrap();
    let (expected, _, _) = encoding_rs::SHIFT_JIS.encode(text);
    assert_eq!(encoded, expected.into_owned());

    // UTF-8 targets pass the body through unchanged.
    let same = re_encode_to_charset(text.as_bytes(), "utf-8").unwrap();
    assert_eq!(same, text.as_bytes());
}

#[test]
fn test_re_encode_to_charset_errors() {
    assert!(re_encode_to_charset(b"\xff\xfe", "utf-8").is_err());
    assert!(re_encode_to_charset(b"plain", "no-such-charset").is_err());
}

#[test]
fn test_convert_resource_with_utf8_body() {
    let mut resource = Resource::new("GET".to_string(), "https://example.com/api".to_string());
    resource.status_code = Some(200);
    resource.ttfb_ms = 50;
    resource.content_utf8 = Some("{ \"message\": \"Hello, World!\" }".to_string());

    let tx = convert_resource_to_transaction(&resource, "inventory", &NoFs)
        .unwrap()
        .unwrap();
    assert_eq!(tx.method, "GET");
    assert_eq!(tx.url, "https://example.com/api");
    assert_eq!(tx.ttfb, 50);
    assert_eq!(tx.status_code, Some(200));

    let mut combined = Vec::new();
    for chunk in &tx.chunks {
        combined.extend_from_slice(&chunk.chunk);
    }
    assert_eq!(
        String::from_utf8(combined).unwrap(),
        "{ \"message\": \"Hello, World!\" }"
    );
}

#[test]
fn test_convert_resource_with_base64_body() {
    let original = b"Binary data content";
    let mut resource =
        Resource::new("GET".to_string(), "https://example.com/image.png".to_string());
    resource.content_base64 =
        Some(base64::engine::general_purpose::STANDARD.encode(original));
    resource.status_code = Some(200);

    let tx = convert_resource_to_transaction(&resource, "inventory", &NoFs)
        .unwrap()
        .unwrap();
    let mut combined = Vec::new();
    for chunk in &tx.chunks {
        combined.extend_from_slice(&chunk.chunk);
    }
    assert_eq!(combined, original);
}

#[test]
fn test_convert_resource_no_content() {
    let resource = Resource::new("GET".to_string(), "https://example.com/empty".to_string());
    let result = convert_resource_to_transaction(&resource, "inventory", &NoFs).unwrap();
    assert!(result.is_none());
}

#[test]
fn test_convert_resource_bad_base64() {
    let mut resource = Resource::new("GET".to_string(), "https://example.com/x".to_string());
    resource.content_base64 = Some("!!!not-base64!!!".to_string());
    assert!(convert_resource_to_transaction(&resource, "inventory", &NoFs).is_err());
}

#[test]
fn test_convert_resource_sets_content_length() {
    // Header sanitation: the rebuilt headers carry a content-length equal to
    // the wire body length.
    let mut resource = Resource::new("GET".to_string(), "https://example.com/t".to_string());
    resource.content_utf8 = Some("hello".to_string());
    resource.content_type_mime = Some("text/plain".to_string());

    let tx = convert_resource_to_transaction(&resource, "inventory", &NoFs)
        .unwrap()
        .unwrap();
    let headers = tx.raw_headers.as_ref().unwrap();
    match headers.get("content-length") {
        Some(HeaderValue::Single(v)) => assert_eq!(v, "5"),
        _ => panic!("missing content-length"),
    }
    match headers.get("content-type") {
        Some(HeaderValue::Single(v)) => assert_eq!(v, "text/plain"),
        _ => panic!("missing content-type"),
    }
}

#[test]
fn test_convert_resource_content_type_with_charset() {
    // Charset from the HTTP header: the recorded Content-Type named one, so
    // the rebuilt header names it too.
    let mut resource = Resource::new("GET".to_string(), "https://example.com/p".to_string());
    resource.content_utf8 = Some("<html></html>".to_string());
    resource.content_type_mime = Some("text/html".to_string());
    resource.content_charset = Some("Shift_JIS".to_string());
    let mut h = HttpHeaders::new();
    h.add_line(
        "content-type".to_string(),
        "text/html; charset=Shift_JIS".to_string(),
    );
    resource.raw_headers = Some(h);

    let tx = convert_resource_to_transaction(&resource, "inventory", &NoFs)
        .unwrap()
        .unwrap();
    let headers = tx.raw_headers.as_ref().unwrap();
    match headers.get("content-type") {
        Some(HeaderValue::Single(v)) => assert_eq!(v, "text/html; charset=Shift_JIS"),
        _ => panic!("missing content-type"),
    }
}

#[test]
fn test_convert_resource_detected_charset_stays_out_of_header() {
    // Charset detected from content: the recorded Content-Type had no
    // charset parameter, so the replayed one has none either, while the
    // body is still re-encoded to the detected charset.
    let text = r#"<html><head><meta charset="Shift_JIS"><title>見出し</title></head></html>"#;
    let mut resource = Resource::new("GET".to_string(), "https://example.com/".to_string());
    resource.content_utf8 = Some(text.to_string());
    resource.content_type_mime = Some("text/html".to_string());
    resource.content_charset = Some("shift_jis".to_string());
    let mut h = HttpHeaders::new();
    h.add_line("content-type".to_string(), "text/html".to_string());
    resource.raw_headers = Some(h);

    let tx = convert_resource_to_transaction(&resource, "inventory", &NoFs)
        .unwrap()
        .unwrap();

    let headers = tx.raw_headers.as_ref().unwrap();
    match headers.get("content-type") {
        Some(HeaderValue::Single(v)) => assert_eq!(v, "text/html"),
        _ => panic!("missing content-type"),
    }

    let mut wire = Vec::new();
    for chunk in &tx.chunks {
        wire.extend_from_slice(&chunk.chunk);
    }
    let (expected, _, _) = encoding_rs::SHIFT_JIS.encode(text);
    assert_eq!(wire, expected.into_owned());
}

#[test]
fn test_convert_resource_single_content_length() {
    // Exactly one content-length entry in the rebuilt headers, replacing any
    // recorded one.
    let mut resource = Resource::new("GET".to_string(), "https://example.com/t".to_string());
    resource.content_utf8 = Some("abcdef".to_string());
    let mut h = HttpHeaders::new();
    h.add_line("content-length".to_string(), "999".to_string());
    h.add_line("x-other".to_string(), "kept".to_string());
    resource.raw_headers = Some(h);

    let tx = convert_resource_to_transaction(&resource, "inventory", &NoFs)
        .unwrap()
        .unwrap();
    let headers = tx.raw_headers.as_ref().unwrap();
    let mut count = 0;
    let mut i = 0;
    while i < headers.len() {
        let e = headers.entry_at(i);
        if e.name.to_lowercase() == "content-length" {
            count += 1;
            match &e.value {
                HeaderValue::Single(v) => assert_eq!(v, "6"),
                _ => panic!("multi-valued content-length"),
            }
        }
        i += 1;
    }
    assert_eq!(count, 1);
}

struct OneFileFs {
    path: String,
    content: Vec<u8>,
    fail_reads: bool,
}

impl FileSystem for OneFileFs {
    fn read(&self, path: &str) -> Result<Vec<u8>, String> {
        if self.fail_reads {
            Err("disk error".to_string())
        } else if path == self.path {
            Ok(self.content.clone())
        } else {
            Err("not found".to_string())
        }
    }
    fn write(&self, _path: &str, _content: &[u8]) -> Result<(), String> {
        Ok(())
    }
    fn create_dir_all(&self, _path: &str) -> Result<(), String> {
        Ok(())
    }
    fn path_exists(&self, path: &str) -> bool {
        path == self.path
    }
    fn read_to_string(&self, path: &str) -> Result<String, String> {
        String::from_utf8(self.read(path)?).map_err(|e| e.to_string())
    }
    fn write_string(&self, path: &str, content: &str) -> Result<(), String> {
        self.write(path, content.as_bytes())
    }
}

#[test]
fn test_convert_resource_reads_content_file() {
    let fs = OneFileFs {
        path: "inventory/contents/get/https/example.com/test.txt".to_string(),
        content: b"Test file content".to_vec(),
        fail_reads: false,
    };
    let mut resource = Resource::new(
        "GET".to_string(),
        "https://example.com/test.txt".to_string(),
    );
    resource.content_file_path = Some("contents/get/https/example.com/test.txt".to_string());
    resource.status_code = Some(200);
    resource.ttfb_ms = 50;
    resource.mbps_x1000 = Some(1000);

    let tx = convert_resource_to_transaction(&resource, "inventory", &fs)
        .unwrap()
        .unwrap();
    assert_eq!(tx.ttfb, 50);
    let mut combined = Vec::new();
    for chunk in &tx.chunks {
        combined.extend_from_slice(&chunk.chunk);
    }
    assert_eq!(combined, b"Test file content");
}

#[test]
fn test_convert_resource_file_read_error() {
    let fs = OneFileFs {
        path: "inventory/contents/get/https/example.com/x".to_string(),
        content: Vec::new(),
        fail_reads: true,
    };
    let mut resource = Resource::new("GET".to_string(), "https://example.com/x".to_string());
    resource.content_file_path = Some("contents/get/https/example.com/x".to_string());

    assert!(convert_resource_to_transaction(&resource, "inventory", &fs).is_err());
}
