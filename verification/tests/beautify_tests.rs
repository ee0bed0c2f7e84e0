use http_playback_proxy::beautify::{format_css, format_html, format_javascript};

#[test]
fn test_format_javascript_simple() {
    let minified = "function test(){return 42;}";
    let formatted = format_javascript(minified).unwrap();
    assert!(formatted.lines().count() > 1);
    assert!(formatted.contains("function test()"));
}

#[test]
fn test_format_css_simple() {
    let minified = "body{margin:0;padding:0;}";
    let formatted = format_css(minified).unwrap();
    assert!(formatted.lines().count() > 1);
    assert!(formatted.contains("body"));
}

#[test]
fn test_format_html_simple() {
    let minified = "<html><head><title>Test</title></head><body><h1>Hello</h1></body></html>";
    let formatted = format_html(minified).unwrap();
    assert!(formatted.lines().count() > 5);
    assert!(formatted.contains("  <head>"));
}

#[test]
fn test_format_javascript_complex() {
    let minified = "const x=1;if(x>0){console.log('positive');}else{console.log('negative');}";
    let formatted = format_javascript(minified).unwrap();
    assert!(formatted.lines().count() >= 3);
}

#[test]
fn test_format_css_with_media_query() {
    let minified = "@media(min-width:768px){body{font-size:16px;}}";
    let formatted = format_css(minified).unwrap();
    assert!(formatted.contains("@media"));
    assert!(formatted.contains("body"));
}

#[test]
fn test_format_html_with_attributes() {
    let minified =
        r#"<div id="test" class="container"><span data-value="123">Text</span></div>"#;
    let formatted = format_html(minified).unwrap();
    assert!(formatted.contains("id=\"test\""));
    assert!(formatted.contains("class=\"container\""));
}

#[test]
fn test_format_html_escapes_attribute_values() {
    let html = r#"<div title="a&b<c>d"></div>"#;
    let formatted = format_html(html).unwrap();
    assert!(formatted.contains("title=\"a&amp;b&lt;c&gt;d\""));
}

#[test]
fn test_format_css_preserves_charset_line() {
    let css = "@charset \"Shift_JIS\";\nbody{margin:0;}";
    let formatted = format_css(css).unwrap();
    assert!(formatted.starts_with("@charset \"Shift_JIS\";"));
    assert!(formatted.contains("body"));
}

#[test]
fn test_format_html_idempotent() {
    // Beautify idempotence for HTML: beautifying twice changes nothing more.
    let minified = "<html><head><title>T</title></head><body><p>x</p><p>y</p></body></html>";
    let once = format_html(minified).unwrap();
    let twice = format_html(&once).unwrap();
    assert_eq!(once, twice);
}

#[test]
fn test_format_css_idempotent() {
    // Beautify idempotence for CSS.
    let minified = "body{margin:0;padding:0}h1{color:red}";
    let once = format_css(minified).unwrap();
    let twice = format_css(&once).unwrap();
    assert_eq!(once, twice);
}

#[test]
fn test_format_javascript_idempotent() {
    // Beautify idempotence for JavaScript.
    let minified = "function f(){return 1;}function g(){return 2;}";
    let once = format_javascript(minified).unwrap();
    let twice = format_javascript(&once).unwrap();
    assert_eq!(once, twice);
}

#[test]
fn test_format_javascript_rejects_garbage() {
    assert!(format_javascript("function {{{{").is_err());
}
