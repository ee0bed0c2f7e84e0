use http_playback_proxy::batch_processor::BatchProcessor;
use http_playback_proxy::processor::{
    count_lines, decompress_body_bytes, is_minified, RequestProcessor,
};
use http_playback_proxy::traits::{FileSystem, TimeProvider};
use http_playback_proxy::transaction::{convert_resource_to_transaction, re_encode_to_charset};
use http_playback_proxy::types::{ContentEncodingType, HeaderValue, HttpHeaders, Inventory, Resource};
use base64::Engine;
use std::cell::RefCell;
use std::io::Write;

struct MockFileSystem {
    files: RefCell<Vec<(String, Vec<u8>)>>,
}

impl MockFileSystem {
    fn new() -> Self {
        MockFileSystem {
            files: RefCell::new(Vec::new()),
        }
    }

    fn get_file(&self, path: &str) -> Option<Vec<u8>> {
        self.files
            .borrow()
            .iter()
            .find(|(p, _)| p == path)
            .map(|(_, c)| c.clone())
    }
}

impl FileSystem for MockFileSystem {
    fn read(&self, path: &str) -> Result<Vec<u8>, String> {
        self.get_file(path).ok_or_else(|| "not found".to_string())
    }
    fn write(&self, path: &str, content: &[u8]) -> Result<(), String> {
        self.files
            .borrow_mut()
            .push((path.to_string(), content.to_vec()));
        Ok(())
    }
    fn create_dir_all(&self, _path: &str) -> Result<(), String> {
        Ok(())
    }
    fn path_exists(&self, path: &str) -> bool {
        self.get_file(path).is_some()
    }
    fn read_to_string(&self, path: &str) -> Result<String, String> {
        let bytes = self.read(path)?;
        String::from_utf8(bytes).map_err(|e| e.to_string())
    }
    fn write_string(&self, path: &str, content: &str) -> Result<(), String> {
        self.write(path, content.as_bytes())
    }
}

struct MockTime;

impl TimeProvider for MockTime {
    fn now_ms(&self) -> u64 {
        0
    }
    fn elapsed_since(&self, _start: u64) -> u64 {
        0
    }
}

fn processor() -> RequestProcessor<MockFileSystem, MockTime> {
    RequestProcessor::new("inventory".to_string(), MockFileSystem::new(), MockTime)
}

#[test]
fn test_convert_to_utf8() {
    let processor = processor();

    let utf8_bytes = "Hello, 世界!".as_bytes();
    let (result, encoding_name) = processor.convert_to_utf8(utf8_bytes, &None);

    assert_eq!(result, "Hello, 世界!");
    assert_eq!(encoding_name, "UTF-8");
}

#[test]
fn test_convert_to_utf8_shift_jis() {
    let processor = processor();
    let (encoded, _, _) = encoding_rs::SHIFT_JIS.encode("日本語のテスト");
    let (result, encoding_name) =
        processor.convert_to_utf8(&encoded, &Some("Shift_JIS".to_string()));
    assert_eq!(result, "日本語のテスト");
    assert_eq!(encoding_name, "Shift_JIS");
}

#[test]
fn test_text_round_trip_through_charset() {
    // Round-trip for text resources: decoding then re-encoding under the
    // same charset reproduces bytes that decode to the same string.
    let processor = processor();
    let original_text = "丸い円と、angles & <tags>";
    let (wire, _, _) = encoding_rs::SHIFT_JIS.encode(original_text);

    let (decoded, _) = processor.convert_to_utf8(&wire, &Some("Shift_JIS".to_string()));
    assert_eq!(decoded, original_text);

    let re_encoded = re_encode_to_charset(decoded.as_bytes(), "Shift_JIS").unwrap();
    let (decoded_again, _) =
        processor.convert_to_utf8(&re_encoded, &Some("Shift_JIS".to_string()));
    assert_eq!(decoded_again, original_text);
}

#[test]
fn test_beautify_html() {
    let processor = processor();

    let minified_html =
        "<html><head><title>Test</title></head><body><h1>Hello</h1></body></html>";
    let result = processor
        .beautify_content(minified_html, &Some("text/html".to_string()))
        .unwrap();

    // Should have more newlines
    assert!(result.lines().count() > minified_html.lines().count());
}

#[test]
fn test_beautify_css() {
    let processor = processor();

    let minified_css = "body{margin:0;padding:0;}h1{color:red;}";
    let result = processor
        .beautify_content(minified_css, &Some("text/css".to_string()))
        .unwrap();

    // Should have more structure
    assert!(result.contains('\n'));
    assert!(result.len() >= minified_css.len());
}

#[test]
fn test_count_lines_and_minify_detection() {
    assert_eq!(count_lines(b""), 0);
    assert_eq!(count_lines(b"a"), 1);
    assert_eq!(count_lines(b"a\n"), 1);
    assert_eq!(count_lines(b"a\nb"), 2);
    assert_eq!(count_lines(b"a\nb\n"), 2);
    assert_eq!(count_lines(b"\n"), 1);

    assert!(is_minified("one line", "l1\nl2\nl3"));
    assert!(!is_minified("l1\nl2\nl3", "l1\nl2\nl3\nl4"));
}

#[test]
fn test_process_text_resource() {
    let fs = MockFileSystem::new();
    let processor =
        RequestProcessor::new("inventory".to_string(), fs, MockTime);

    let mut resource = Resource::new(
        "GET".to_string(),
        "https://example.com/script.js".to_string(),
    );
    resource.content_type_mime = Some("application/javascript".to_string());

    let js_content = b"function test() { return 42; }";
    processor
        .process_text_resource(&mut resource, js_content)
        .unwrap();

    assert_eq!(
        resource.content_file_path.as_deref(),
        Some("contents/get/https/example.com/script.js")
    );
    assert!(resource.minify.is_some());
    assert!(processor
        .file_system
        .path_exists("inventory/contents/get/https/example.com/script.js"));
}

#[test]
fn test_process_binary_resource() {
    let processor = processor();

    let mut resource = Resource::new(
        "GET".to_string(),
        "https://example.com/image.png".to_string(),
    );
    let binary_content = b"\x89PNG\r\n\x1a\n\x00\x00\x00\rIHDR";

    processor
        .process_binary_resource(&mut resource, binary_content)
        .unwrap();

    assert!(processor
        .file_system
        .path_exists("inventory/contents/get/https/example.com/image.png"));
    assert!(resource.content_file_path.is_some());
    let b64 = resource.content_base64.unwrap();
    assert_ne!(b64.as_bytes(), binary_content.as_slice());
    let decoded = base64::engine::general_purpose::STANDARD
        .decode(&b64)
        .unwrap();
    assert_eq!(decoded, binary_content);
}

#[test]
fn test_decompress_gzip() {
    let original = b"Hello, World!";
    let mut encoder =
        flate2::write::GzEncoder::new(Vec::new(), flate2::Compression::default());
    encoder.write_all(original).unwrap();
    let compressed = encoder.finish().unwrap();

    let result =
        decompress_body_bytes(&compressed, &Some(ContentEncodingType::Gzip)).unwrap();
    assert_eq!(result, original);
}

#[test]
fn test_decompress_rejects_garbage() {
    assert!(decompress_body_bytes(b"not gzip at all", &Some(ContentEncodingType::Gzip)).is_err());
}

#[test]
fn test_process_response_body_html() {
    let processor = processor();

    let mut resource = Resource::new(
        "GET".to_string(),
        "https://example.com/test.html".to_string(),
    );
    let html_content = b"<html><body><h1>Test</h1></body></html>";

    processor
        .process_response_body(&mut resource, html_content, Some("text/html; charset=utf-8"))
        .unwrap();

    // Verify resource was updated
    assert_eq!(resource.content_type_mime, Some("text/html".to_string()));
    assert_eq!(resource.content_charset, Some("utf-8".to_string()));
    assert!(resource.content_file_path.is_some());
    assert!(resource.minify.is_some());
}

#[test]
fn test_process_response_body_detects_charset_from_meta() {
    // Charset detected from content: no charset parameter in the header, but
    // a <meta charset> declaration inside the HTML body.
    let processor = processor();

    let mut resource = Resource::new("GET".to_string(), "https://example.com/".to_string());
    let html = b"<html><head><meta charset=\"Shift_JIS\"><title>t</title></head></html>";
    processor
        .process_response_body(&mut resource, html, Some("text/html"))
        .unwrap();

    assert_eq!(resource.content_type_mime, Some("text/html".to_string()));
    assert_eq!(resource.content_charset, Some("shift_jis".to_string()));
}

#[test]
fn test_process_response_body_throughput() {
    // Timing: 100 KiB over 1000 ms is 819 kbit/s.
    let processor = processor();
    let mut resource = Resource::new("GET".to_string(), "https://example.com/big".to_string());
    resource.ttfb_ms = 500;
    resource.download_end_ms = Some(1500);
    let body = vec![1u8; 100 * 1024];
    processor
        .process_response_body(&mut resource, &body, None)
        .unwrap();
    assert_eq!(resource.mbps_x1000, Some(8 * 100 * 1024 / 1000));
}

#[test]
fn test_original_charset_preservation() {
    let fs = MockFileSystem::new();
    let processor = RequestProcessor::new("inventory".to_string(), fs, MockTime);

    // Test with Shift_JIS charset
    let mut resource = Resource::new(
        "GET".to_string(),
        "https://example.com/index.html".to_string(),
    );
    resource.content_type_mime = Some("text/html".to_string());
    resource.content_charset = Some("Shift_JIS".to_string());

    // Create a simple HTML with Shift_JIS charset in meta
    let html = r#"<html><head><meta charset="Shift_JIS"><title>テスト</title></head><body>内容</body></html>"#;
    let body = html.as_bytes();

    processor
        .process_text_resource(&mut resource, body)
        .unwrap();

    // Verify content_charset is preserved (contains the original charset from Content-Type)
    assert_eq!(resource.content_charset, Some("Shift_JIS".to_string()));

    // Verify meta tag is PRESERVED (not modified to UTF-8)
    let file_path = format!("inventory/{}", resource.content_file_path.as_ref().unwrap());
    let saved_content =
        String::from_utf8(processor.file_system.get_file(&file_path).unwrap()).unwrap();
    assert!(
        saved_content.contains(r#"charset="Shift_JIS""#)
            || saved_content.contains(r#"charset='Shift_JIS'"#)
            || saved_content.contains(r#"charset=Shift_JIS"#),
        "Expected original charset declaration (Shift_JIS) to be preserved, but got: {}",
        saved_content
    );
}

#[test]
fn test_processor_creation() {
    let processor = RequestProcessor::new(
        "inventory".to_string(),
        MockFileSystem::new(),
        MockTime,
    );

    // The processor should be created successfully
    // (This tests the basic constructor)
    drop(processor);
}

#[test]
fn test_batch_processor_processes_stashed_bodies() {
    // Basic minified HTML, CSS and JS: all three resources end marked
    // minified, with readable multi-line files on disk.
    let fs = MockFileSystem::new();
    let batch = BatchProcessor::new("inv".to_string(), fs, MockTime);

    let mut inventory = Inventory::new();

    let html = "<html><head><title>T</title></head><body><h1>H</h1><p>text</p></body></html>";
    let css = "body{margin:0;padding:0}h1{color:red}p{font-size:12px}";
    let js = "function a(){return 1;}function b(){return 2;}function c(){return 3;}";

    for (url, mime, content) in [
        ("https://site.test/", "text/html", html),
        ("https://site.test/style.css", "text/css", css),
        ("https://site.test/script.js", "application/javascript", js),
    ] {
        let mut r = Resource::new("GET".to_string(), url.to_string());
        r.content_type_mime = Some(mime.to_string());
        let mut h = HttpHeaders::new();
        h.add_line("content-type".to_string(), mime.to_string());
        r.raw_headers = Some(h);
        r.raw_body = Some(content.as_bytes().to_vec());
        inventory.resources.push(r);
    }

    batch.process_all(&mut inventory).unwrap();

    for r in &inventory.resources {
        assert_eq!(r.minify, Some(true), "{} not marked minified", r.url);
        assert!(r.raw_body.is_none());
        let path = format!("inv/{}", r.content_file_path.as_ref().unwrap());
        let saved = batch.processor.file_system.get_file(&path).unwrap();
        let lines = String::from_utf8(saved).unwrap().lines().count();
        assert!(lines >= 2, "{} saved with {} lines", r.url, lines);
    }
}

#[test]
fn test_batch_processor_gzip_resource() {
    // Compression round-trip on the recording side: a gzip wire body is
    // decompressed before processing.
    let fs = MockFileSystem::new();
    let batch = BatchProcessor::new("inv".to_string(), fs, MockTime);

    let mut encoder =
        flate2::write::GzEncoder::new(Vec::new(), flate2::Compression::default());
    encoder.write_all(b"raw payload bytes").unwrap();
    let compressed = encoder.finish().unwrap();

    let mut inventory = Inventory::new();
    let mut r = Resource::new("GET".to_string(), "https://site.test/blob".to_string());
    r.content_encoding = Some(ContentEncodingType::Gzip);
    r.raw_body = Some(compressed);
    inventory.resources.push(r);

    batch.process_all(&mut inventory).unwrap();

    let saved = batch
        .processor
        .file_system
        .get_file("inv/contents/get/https/site.test/blob")
        .unwrap();
    assert_eq!(saved, b"raw payload bytes");
}

#[test]
fn test_record_then_playback_shift_jis_round_trip() {
    // Charset from the HTTP header: a Shift_JIS body is stored as UTF-8 on
    // disk, and the rebuilt wire body is Shift_JIS again, with the charset
    // named in the rebuilt Content-Type header.
    let fs = MockFileSystem::new();
    let processor = RequestProcessor::new("inventory".to_string(), fs, MockTime);

    let original_html =
        "<html><head><meta charset=\"Shift_JIS\"><title>題名</title></head><body>本文</body></html>";
    let (wire_in, _, _) = encoding_rs::SHIFT_JIS.encode(original_html);

    let mut resource = Resource::new("GET".to_string(), "https://example.com/".to_string());
    resource.status_code = Some(200);
    processor
        .process_response_body(
            &mut resource,
            &wire_in,
            Some("text/html; charset=Shift_JIS"),
        )
        .unwrap();
    assert_eq!(resource.content_charset.as_deref(), Some("Shift_JIS"));

    // The stored file is UTF-8 with the meta declaration intact.
    let stored_path = format!("inventory/{}", resource.content_file_path.as_ref().unwrap());
    let stored = processor.file_system.get_file(&stored_path).unwrap();
    let stored_text = String::from_utf8(stored).unwrap();
    assert!(stored_text.contains("charset=\"Shift_JIS\""));
    assert!(stored_text.contains("題名"));

    // The recorder would have kept the response headers; give the resource
    // the Content-Type line it was served with.
    let mut h = HttpHeaders::new();
    h.add_line(
        "content-type".to_string(),
        "text/html; charset=Shift_JIS".to_string(),
    );
    resource.raw_headers = Some(h);

    // Playback rebuilds a Shift_JIS wire body and names the charset.
    let tx = convert_resource_to_transaction(&resource, "inventory", &processor.file_system)
        .unwrap()
        .unwrap();
    let mut wire_out = Vec::new();
    for chunk in &tx.chunks {
        wire_out.extend_from_slice(&chunk.chunk);
    }
    let (decoded, _, _) = encoding_rs::SHIFT_JIS.decode(&wire_out);
    assert!(decoded.contains("題名"));
    assert!(decoded.contains("charset=\"Shift_JIS\""));

    let headers = tx.raw_headers.as_ref().unwrap();
    match headers.get("content-type") {
        Some(HeaderValue::Single(v)) => assert_eq!(v, "text/html; charset=Shift_JIS"),
        _ => panic!("missing content-type"),
    }
}
