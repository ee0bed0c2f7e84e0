//! The recording-side content pipeline: decompression, charset-aware decoding
//! to UTF-8, beautification with minification detection, and persisting
//! content files through the host file system.

use crate::beautify::{
    css_pretty_of, find_charset_line, format_css, format_html, format_javascript, html_events_of,
    js_pretty_of, spec_pretty_events,
};
use crate::bytetext::{bytes_eq, is_ascii_bytes, string_from_bytes_lossy};
use crate::codec::{
    b64_encode, b64_of, brotli_decompress, decode_with_label, decoded_as, deflate_decompress,
    gunzip_of, gzip_decompress, inflate_of, unbr_of,
};
use crate::traits::{FileSystem, TimeProvider};
use crate::transaction::{opt_str_bytes, split_on_nl};
use crate::types::{ContentEncodingType, PipelineError, Resource};
use crate::utils::{generate_file_path_from_url, host_or_default, spec_file_path, url_parts_of};
use vstd::prelude::*;
use vstd::string::StringSliceAdditionalSpecFns;
use vstd::utf8::{encode_utf8, valid_utf8};

verus! {

/// The number of lines in a text, as `str::lines` counts them: zero for an
/// empty text, and otherwise one more than the line feeds before the final
/// byte.
pub open spec fn spec_line_count(s: Seq<u8>) -> nat {
    if s.len() == 0 {
        0
    } else if s.last() == 10 {
        (split_on_nl(s).len() - 1) as nat
    } else {
        split_on_nl(s).len() as nat
    }
}

/// `split_on_nl` yields one line more than the number of line feeds.
proof fn lemma_split_on_nl_count(s: Seq<u8>)
    ensures
        split_on_nl(s).len() == 1 + Seq::new(s.len(), |i: int| s[i]).filter(
            |b: u8| b == 10,
        ).len(),
    decreases s.len(),
{
    let m = Seq::new(s.len(), |i: int| s[i]);
    reveal(Seq::filter);
    if s.len() == 0 {
        assert(m =~= Seq::<u8>::empty());
    } else {
        lemma_split_on_nl_count(s.drop_first());
        let m2 = Seq::new(s.drop_first().len(), |i: int| s.drop_first()[i]);
        assert(m.drop_first() =~= m2);
        crate::transaction::lemma_split_on_nl_len(s.drop_first());
        assert(m =~= seq![s[0]] + m2);
        lemma_filter_cons(s[0], m2);
    }
}

/// Filtering distributes over prepending one element.
proof fn lemma_filter_cons(b: u8, rest: Seq<u8>)
    ensures
        (seq![b] + rest).filter(|x: u8| x == 10) == (if b == 10 {
            seq![b] + rest.filter(|x: u8| x == 10)
        } else {
            rest.filter(|x: u8| x == 10)
        }),
    decreases rest.len(),
{
    reveal(Seq::filter);
    let whole = seq![b] + rest;
    if rest.len() == 0 {
        assert(whole.drop_last() =~= Seq::<u8>::empty());
        assert(whole.last() == b);
        assert(Seq::<u8>::empty().filter(|x: u8| x == 10) =~= Seq::<u8>::empty());
        if b == 10 {
            assert(whole.filter(|x: u8| x == 10) =~= seq![b] + rest.filter(|x: u8| x == 10));
        } else {
            assert(whole.filter(|x: u8| x == 10) =~= rest.filter(|x: u8| x == 10));
        }
    } else {
        lemma_filter_cons(b, rest.drop_last());
        assert(whole.drop_last() =~= seq![b] + rest.drop_last());
        assert(whole.last() == rest.last());
        if rest.last() == 10 {
            assert(rest.filter(|x: u8| x == 10) == rest.drop_last().filter(|x: u8| x == 10).push(
                rest.last(),
            ));
            if b == 10 {
                assert(whole.filter(|x: u8| x == 10) =~= seq![b] + rest.filter(|x: u8| x == 10));
            } else {
                assert(whole.filter(|x: u8| x == 10) =~= rest.filter(|x: u8| x == 10));
            }
        } else {
            assert(rest.filter(|x: u8| x == 10) == rest.drop_last().filter(|x: u8| x == 10));
            if b == 10 {
                assert(whole.filter(|x: u8| x == 10) =~= seq![b] + rest.filter(|x: u8| x == 10));
            } else {
                assert(whole.filter(|x: u8| x == 10) =~= rest.filter(|x: u8| x == 10));
            }
        }
    }
}

/// Count the lines of a text, as `str::lines` counts them.
#[verifier::loop_isolation(false)]
pub fn count_lines(s: &[u8]) -> (r: usize)
    ensures
        r == spec_line_count(s@),
{
    if s.len() == 0 {
        return 0;
    }
    let mut newlines: usize = 0;
    let mut i: usize = 0;
    let ghost m = Seq::new(s@.len(), |k: int| s@[k]);
    proof {
        reveal(Seq::filter);
        assert(m.subrange(0, 0) =~= Seq::<u8>::empty());
        assert(m.subrange(0, 0).filter(|x: u8| x == 10) =~= Seq::<u8>::empty());
    }
    while i < s.len()
        invariant
            i <= s.len(),
            m == Seq::new(s@.len(), |k: int| s@[k]),
            newlines == m.subrange(0, i as int).filter(|x: u8| x == 10).len(),
            newlines <= i,
            i > 0 && s@[i as int - 1] != 10 ==> newlines <= i - 1,
        decreases s.len() - i,
    {
        proof {
            reveal(Seq::filter);
            assert(m.subrange(0, i as int + 1).drop_last() =~= m.subrange(0, i as int));
            assert(m.subrange(0, i as int + 1).last() == s@[i as int]);
        }
        if s[i] == 10 {
            newlines = newlines + 1;
        }
        i = i + 1;
    }
    proof {
        assert(m.subrange(0, s@.len() as int) =~= m);
        lemma_split_on_nl_count(s@);
    }
    if s[s.len() - 1] == 10 {
        newlines
    } else {
        newlines + 1
    }
}

/// Whether a captured text counts as minified: its beautified form has at
/// least twice as many lines.
pub fn is_minified(original: &str, beautified: &str) -> (r: bool)
    ensures
        r == (spec_line_count(beautified.spec_bytes()) >= 2 * spec_line_count(
            original.spec_bytes(),
        )),
{
    let ol = count_lines(original.as_bytes()) as u64;
    let bl = count_lines(beautified.as_bytes()) as u64;
    (bl as u128) >= 2 * (ol as u128)
}

/// Decompress a wire body according to its recorded `Content-Encoding`.
/// Identity, compress, and absent encodings pass the body through; a body
/// that does not decode under its recorded codec is an error.
pub fn decompress_body_bytes(body: &[u8], encoding: &Option<ContentEncodingType>) -> (r: Result<
    Vec<u8>,
    PipelineError,
>)
    ensures
        match *encoding {
            Some(ContentEncodingType::Gzip) => match gunzip_of(body@) {
                Some(v) => r matches Ok(o) && o@ == v,
                None => r == Err::<Vec<u8>, PipelineError>(PipelineError::BadEncodedBody),
            },
            Some(ContentEncodingType::Deflate) => match inflate_of(body@) {
                Some(v) => r matches Ok(o) && o@ == v,
                None => r == Err::<Vec<u8>, PipelineError>(PipelineError::BadEncodedBody),
            },
            Some(ContentEncodingType::Br) => match unbr_of(body@) {
                Some(v) => r matches Ok(o) && o@ == v,
                None => r == Err::<Vec<u8>, PipelineError>(PipelineError::BadEncodedBody),
            },
            _ => r matches Ok(o) && o@ == body@,
        },
{
    match encoding {
        Some(ContentEncodingType::Gzip) => match gzip_decompress(body) {
            Some(v) => Ok(v),
            None => Err(PipelineError::BadEncodedBody),
        },
        Some(ContentEncodingType::Deflate) => match deflate_decompress(body) {
            Some(v) => Ok(v),
            None => Err(PipelineError::BadEncodedBody),
        },
        Some(ContentEncodingType::Br) => match brotli_decompress(body) {
            Some(v) => Ok(v),
            None => Err(PipelineError::BadEncodedBody),
        },
        _ => {
            let mut v: Vec<u8> = Vec::new();
            crate::bytetext::push_all(&mut v, body);
            proof {
                assert(v@ =~= body@);
            }
            Ok(v)
        },
    }
}

/// The label under which a stored body is decoded: the recorded charset, or
/// UTF-8 when none was recorded.
pub open spec fn spec_decode_label(charset: Option<String>) -> Seq<u8> {
    match charset {
        Some(c) => encode_utf8(c@),
        None => "utf-8".spec_bytes(),
    }
}

/// Decode a body to UTF-8 text under the recorded charset label, falling back
/// to UTF-8 for an absent or unknown label. Returns the text and the name of
/// the encoding used.
pub fn convert_to_utf8_bytes(body: &[u8], charset: &Option<String>) -> (r: (String, &'static str))
    ensures
        r.0@ == decoded_as(spec_decode_label(*charset), body@),
{
    match charset {
        Some(c) => decode_with_label(c.as_str().as_bytes(), body),
        None => decode_with_label("utf-8".as_bytes(), body),
    }
}

/// Beautify text according to its MIME type: HTML through the verified
/// pretty-printer, CSS and JavaScript through their parsers, anything else
/// unchanged.
pub fn beautify_text(content: &str, mime_type: &Option<String>) -> (r: Result<
    String,
    PipelineError,
>)
    ensures
        match r {
            Ok(out) => spec_beautified_ok(opt_str_bytes(*mime_type), content@, out@),
            Err(_) => spec_beautify_fails(opt_str_bytes(*mime_type), content@),
        },
{
    match mime_type {
        Some(m) => {
            let mb = m.as_str().as_bytes();
            if bytes_eq(mb, "text/html".as_bytes()) {
                format_html(content)
            } else if bytes_eq(mb, "text/css".as_bytes()) {
                format_css(content)
            } else if bytes_eq(mb, "application/javascript".as_bytes()) || bytes_eq(
                mb,
                "text/javascript".as_bytes(),
            ) {
                format_javascript(content)
            } else {
                Ok(content.to_owned())
            }
        },
        None => Ok(content.to_owned()),
    }
}

/// What decompressing a wire body under its recorded encoding yields, when
/// it decodes at all.
pub open spec fn spec_decompressed(enc: Option<ContentEncodingType>, body: Seq<u8>) -> Option<
    Seq<u8>,
> {
    match enc {
        Some(ContentEncodingType::Gzip) => gunzip_of(body),
        Some(ContentEncodingType::Deflate) => inflate_of(body),
        Some(ContentEncodingType::Br) => unbr_of(body),
        _ => Some(body),
    }
}

/// The MIME type of a `Content-Type` value: the part before any `;`, with
/// surrounding whitespace removed.
pub open spec fn spec_mime_of(ct: Seq<u8>) -> Seq<u8> {
    let head = match crate::bytetext::find_spec(ct, ";".spec_bytes()) {
        Some(p) => ct.subrange(0, p),
        None => ct,
    };
    crate::bytetext::trim_p(head, |x: u8| crate::bytetext::is_ws_spec(x))
}

/// Extract the MIME type from a `Content-Type` value.
pub fn mime_of(ct: &str) -> (r: String)
    ensures
        r@ == crate::bytetext::lossy_of(spec_mime_of(ct.spec_bytes())),
        valid_utf8(spec_mime_of(ct.spec_bytes())) ==> encode_utf8(r@) == spec_mime_of(
            ct.spec_bytes(),
        ),
{
    let bytes = ct.as_bytes();
    let head = match crate::bytetext::find_sub(bytes, ";".as_bytes()) {
        Some(p) => {
            proof {
                crate::bytetext::lemma_find_spec(bytes@, ";".spec_bytes());
            }
            crate::bytetext::copy_range(bytes, 0, p)
        },
        None => crate::bytetext::copy_range(bytes, 0, bytes.len()),
    };
    proof {
        assert(bytes@.subrange(0, bytes@.len() as int) =~= bytes@);
    }
    let trimmed = crate::bytetext::trim_ws_bytes(head.as_slice());
    string_from_bytes_lossy(trimmed.as_slice())
}

/// The charset recorded for a text resource: from the `Content-Type` header
/// when it names one, else detected from HTML or CSS content.
pub open spec fn spec_resolved_charset(ct: Seq<u8>, mime: Seq<u8>, body: Seq<u8>) -> Option<
    Seq<u8>,
> {
    match crate::utils::spec_charset_from_content_type(ct) {
        Some(v) => Some(v),
        None => {
            if mime == "text/html".spec_bytes() {
                crate::utils::spec_charset_from_html(body)
            } else if mime == "text/css".spec_bytes() {
                crate::utils::spec_charset_from_css(body)
            } else {
                None
            }
        },
    }
}

/// Resolve the charset of a text resource from its `Content-Type` value and
/// decompressed body.
pub fn resolve_charset(ct: &str, mime: &str, body: &[u8]) -> (r: Option<String>)
    ensures
        match r {
            Some(s) => spec_resolved_charset(ct.spec_bytes(), mime.spec_bytes(), body@) matches Some(
                v,
            ) && (valid_utf8(v) ==> encode_utf8(s@) == v),
            None => spec_resolved_charset(ct.spec_bytes(), mime.spec_bytes(), body@) is None,
        },
{
    match crate::utils::extract_charset_from_content_type(ct) {
        Some(c) => Some(c),
        None => {
            let mb = mime.as_bytes();
            if bytes_eq(mb, "text/html".as_bytes()) {
                crate::utils::extract_charset_from_html(body)
            } else if bytes_eq(mb, "text/css".as_bytes()) {
                crate::utils::extract_charset_from_css(body)
            } else {
                None
            }
        },
    }
}

/// How a returned charset relates to the resolution rule: present exactly
/// when the rule finds one, byte-exact whenever the found value is UTF-8.
pub open spec fn spec_charset_set_ok(
    csout: Option<String>,
    ct: Seq<u8>,
    mime: Seq<u8>,
    body: Seq<u8>,
) -> bool {
    match csout {
        Some(s) => spec_resolved_charset(ct, mime, body) matches Some(v) && (valid_utf8(v)
            ==> encode_utf8(s@) == v),
        None => spec_resolved_charset(ct, mime, body) is None,
    }
}

/// The generated content file path recorded on a resource: present, and for
/// ASCII methods exactly `contents/` plus the path derived from the
/// resource's URL.
pub open spec fn spec_content_path_ok(pre: Resource, path: Option<String>) -> bool {
    match path {
        Some(p) => url_parts_of(encode_utf8(pre.url@)) matches Some(up) && (is_ascii_bytes(
            encode_utf8(pre.method@),
        ) ==> encode_utf8(p@) == "contents/".spec_bytes() + spec_file_path(
            encode_utf8(pre.method@),
            up.scheme,
            host_or_default(up.host),
            up.path,
            up.query,
        )),
        None => false,
    }
}

/// What beautification yields on success for a given MIME type: the verified
/// pretty-printing for HTML, the parsers' outputs for CSS and JavaScript
/// (CSS keeps a leading `@charset` line), and the text unchanged otherwise.
pub open spec fn spec_beautified_ok(mime: Option<Seq<u8>>, text: Seq<char>, out: Seq<char>) -> bool {
    if mime == Some("text/html".spec_bytes()) {
        html_events_of(encode_utf8(text)) matches Some(evs) && out == spec_pretty_events(evs, 0, 0)
    } else if mime == Some("text/css".spec_bytes()) {
        css_pretty_of(text) matches Some(css) && (match find_charset_line(
            split_on_nl(encode_utf8(text)),
        ) {
            Some(line) => valid_utf8(line) ==> encode_utf8(out) == line + encode_utf8("
"@)
                + encode_utf8(css),
            None => out == css,
        })
    } else if mime == Some("application/javascript".spec_bytes()) || mime == Some(
        "text/javascript".spec_bytes(),
    ) {
        js_pretty_of(text) == Some(out)
    } else {
        out == text
    }
}

/// When beautification fails for a given MIME type: exactly when the
/// matching parser rejects the text; it never fails for other types.
pub open spec fn spec_beautify_fails(mime: Option<Seq<u8>>, text: Seq<char>) -> bool {
    if mime == Some("text/html".spec_bytes()) {
        html_events_of(encode_utf8(text)) is None
    } else if mime == Some("text/css".spec_bytes()) {
        css_pretty_of(text) is None
    } else if mime == Some("application/javascript".spec_bytes()) || mime == Some(
        "text/javascript".spec_bytes(),
    ) {
        js_pretty_of(text) is None
    } else {
        false
    }
}

/// Choose the text to persist for a captured body: the beautified form when
/// it at least doubles the line count (the body was minified), else the
/// decoded text unchanged. Returns the chosen text and the minified flag.
pub fn select_persisted_text(decoded: String, beautified: String) -> (r: (String, bool))
    ensures
        r.1 == (2 * spec_line_count(encode_utf8(decoded@)) <= spec_line_count(
            encode_utf8(beautified@),
        )),
        r.0@ == if r.1 {
            beautified@
        } else {
            decoded@
        },
{
    let minified = is_minified(decoded.as_str(), beautified.as_str());
    if minified {
        (beautified, true)
    } else {
        (decoded, false)
    }
}

/// The per-request content processor: runs the recording-side pipeline for
/// one response body and persists the content file under the inventory
/// directory's `contents` tree.
pub struct RequestProcessor<F: FileSystem, T: TimeProvider> {
    pub inventory_dir: String,
    pub contents_dir: String,
    pub file_system: F,
    pub time_provider: T,
}

impl<F: FileSystem, T: TimeProvider> RequestProcessor<F, T> {
    /// A processor rooted at the given inventory directory.
    pub fn new(inventory_dir: String, file_system: F, time_provider: T) -> (r: Self)
        ensures
            r.inventory_dir@ == inventory_dir@,
            r.contents_dir@ == inventory_dir@ + "/contents"@,
    {
        let mut contents_dir = String::new();
        contents_dir.append(inventory_dir.as_str());
        contents_dir.append("/contents");
        proof {
            assert(contents_dir@ =~= inventory_dir@ + "/contents"@);
        }
        RequestProcessor { inventory_dir, contents_dir, file_system, time_provider }
    }

    /// Decompress a wire body according to its recorded `Content-Encoding`.
    pub fn decompress_body(&self, body: &[u8], encoding: &Option<ContentEncodingType>) -> (r:
        Result<Vec<u8>, PipelineError>)
        ensures
            match spec_decompressed(*encoding, body@) {
                Some(v) => r matches Ok(o) && o@ == v,
                None => r == Err::<Vec<u8>, PipelineError>(PipelineError::BadEncodedBody),
            },
    {
        decompress_body_bytes(body, encoding)
    }

    /// Decode a body to UTF-8 text under the recorded charset label.
    pub fn convert_to_utf8(&self, body: &[u8], charset: &Option<String>) -> (r: (
        String,
        &'static str,
    ))
        ensures
            r.0@ == decoded_as(spec_decode_label(*charset), body@),
    {
        convert_to_utf8_bytes(body, charset)
    }

    /// Beautify text according to its MIME type.
    pub fn beautify_content(&self, content: &str, mime_type: &Option<String>) -> (r: Result<
        String,
        PipelineError,
    >)
        ensures
            match r {
                Ok(out) => spec_beautified_ok(opt_str_bytes(*mime_type), content@, out@),
                Err(_) => spec_beautify_fails(opt_str_bytes(*mime_type), content@),
            },
    {
        beautify_text(content, mime_type)
    }

    /// Process a text body: decode it to UTF-8, measure how much
    /// beautification expands it, store the beautified form when it at least
    /// doubles the line count, and record the content file path.
    pub fn process_text_resource(&self, resource: &mut Resource, body: &[u8]) -> (r: Result<
        (),
        PipelineError,
    >)
        ensures
            final(resource).method == old(resource).method,
            final(resource).url == old(resource).url,
            final(resource).ttfb_ms == old(resource).ttfb_ms,
            final(resource).download_end_ms == old(resource).download_end_ms,
            final(resource).mbps_x1000 == old(resource).mbps_x1000,
            final(resource).status_code == old(resource).status_code,
            final(resource).error_message == old(resource).error_message,
            final(resource).raw_headers == old(resource).raw_headers,
            final(resource).content_encoding == old(resource).content_encoding,
            final(resource).content_type_mime == old(resource).content_type_mime,
            final(resource).content_charset == old(resource).content_charset,
            final(resource).content_utf8 == old(resource).content_utf8,
            final(resource).content_base64 == old(resource).content_base64,
            final(resource).raw_body == old(resource).raw_body,
            match r {
                Ok(u) => ({
                    let t = decoded_as(spec_decode_label(old(resource).content_charset), body@);
                    &&& spec_content_path_ok(*old(resource), final(resource).content_file_path)
                    &&& exists|b: Seq<char>|
                        #[trigger] spec_beautified_ok(
                            opt_str_bytes(old(resource).content_type_mime),
                            t,
                            b,
                        ) && final(resource).minify == Some(
                            2 * spec_line_count(encode_utf8(t)) <= spec_line_count(
                                encode_utf8(b),
                            ),
                        )
                }),
                Err(e) => {
                    &&& (e == PipelineError::InvalidUrl || e == PipelineError::FileIo || e
                        == PipelineError::BadEncodedBody)
                    &&& (e == PipelineError::BadEncodedBody ==> spec_beautify_fails(
                        opt_str_bytes(old(resource).content_type_mime),
                        decoded_as(spec_decode_label(old(resource).content_charset), body@),
                    ))
                    &&& final(resource).content_file_path == old(resource).content_file_path
                },
            },
    {
        let (utf8_content, _used) = self.convert_to_utf8(body, &resource.content_charset);
        let ghost t = utf8_content@;
        let beautified = match self.beautify_content(
            utf8_content.as_str(),
            &resource.content_type_mime,
        ) {
            Ok(b) => b,
            Err(e) => {
                return Err(PipelineError::BadEncodedBody);
            },
        };
        let ghost b = beautified@;
        let (content_to_save, minified) = select_persisted_text(utf8_content, beautified);
        resource.minify = Some(minified);
        proof {
            assert(spec_beautified_ok(opt_str_bytes(resource.content_type_mime), t, b)
                && resource.minify == Some(
                2 * spec_line_count(encode_utf8(t)) <= spec_line_count(encode_utf8(b)),
            ));
        }
        self.write_content_file(resource, content_to_save.as_str().as_bytes())
    }

    /// Process a binary body: inline it as base64, store the raw bytes, and
    /// record the content file path.
    pub fn process_binary_resource(&self, resource: &mut Resource, body: &[u8]) -> (r: Result<
        (),
        PipelineError,
    >)
        ensures
            final(resource).method == old(resource).method,
            final(resource).url == old(resource).url,
            final(resource).ttfb_ms == old(resource).ttfb_ms,
            final(resource).download_end_ms == old(resource).download_end_ms,
            final(resource).mbps_x1000 == old(resource).mbps_x1000,
            final(resource).status_code == old(resource).status_code,
            final(resource).error_message == old(resource).error_message,
            final(resource).content_encoding == old(resource).content_encoding,
            final(resource).content_utf8 == old(resource).content_utf8,
            final(resource).raw_body == old(resource).raw_body,
            final(resource).minify == old(resource).minify,
            final(resource).content_charset == old(resource).content_charset,
            final(resource).content_type_mime == old(resource).content_type_mime,
            final(resource).raw_headers == old(resource).raw_headers,
            match r {
                Ok(u) => (match final(resource).content_base64 {
                    Some(b) => encode_utf8(b@) == b64_of(body@),
                    None => false,
                }) && spec_content_path_ok(*old(resource), final(resource).content_file_path),
                Err(e) => (e == PipelineError::InvalidUrl || e == PipelineError::FileIo) && final(resource).content_file_path == old(resource).content_file_path,
            },
    {
        let encoded = b64_encode(body);
        resource.content_base64 = Some(encoded);
        self.write_content_file(resource, body)
    }

    /// Write a content file for this resource under the `contents` tree and
    /// record its inventory-relative path.
    fn write_content_file(&self, resource: &mut Resource, data: &[u8]) -> (r: Result<
        (),
        PipelineError,
    >)
        ensures
            final(resource).method == old(resource).method,
            final(resource).url == old(resource).url,
            final(resource).ttfb_ms == old(resource).ttfb_ms,
            final(resource).download_end_ms == old(resource).download_end_ms,
            final(resource).mbps_x1000 == old(resource).mbps_x1000,
            final(resource).status_code == old(resource).status_code,
            final(resource).error_message == old(resource).error_message,
            final(resource).raw_headers == old(resource).raw_headers,
            final(resource).content_encoding == old(resource).content_encoding,
            final(resource).content_type_mime == old(resource).content_type_mime,
            final(resource).content_charset == old(resource).content_charset,
            final(resource).content_utf8 == old(resource).content_utf8,
            final(resource).content_base64 == old(resource).content_base64,
            final(resource).raw_body == old(resource).raw_body,
            final(resource).minify == old(resource).minify,
            match r {
                Ok(u) => spec_content_path_ok(*old(resource), final(resource).content_file_path),
                Err(e) => (e == PipelineError::InvalidUrl && url_parts_of(
                    encode_utf8(old(resource).url@),
                ) is None && final(resource).content_file_path == old(resource).content_file_path)
                    || (e == PipelineError::FileIo && final(resource).content_file_path == old(resource).content_file_path),
            },
    {
        let file_path = match generate_file_path_from_url(
            resource.url.as_str(),
            resource.method.as_str(),
        ) {
            Ok(p) => p,
            Err(_) => {
                return Err(PipelineError::InvalidUrl);
            },
        };
        let mut full = String::new();
        full.append(self.contents_dir.as_str());
        full.append("/");
        full.append(file_path.as_str());
        match self.file_system.write(full.as_str(), data) {
            Ok(u) => {},
            Err(_) => {
                return Err(PipelineError::FileIo);
            },
        }
        let mut rel = String::new();
        rel.append("contents/");
        rel.append(file_path.as_str());
        proof {
            assert(rel@ =~= "contents/"@ + file_path@);
            if is_ascii_bytes(encode_utf8(resource.method@)) {
                crate::beautify::lemma_encode_utf8_concat("contents/"@, file_path@);
            }
        }
        resource.content_file_path = Some(rel);
        Ok(())
    }

    /// Record a response body on its resource: decompress it, split the MIME
    /// type out of the `Content-Type` value, resolve the charset for text,
    /// store the processed content (text falls back to binary when its
    /// pipeline fails), and derive the throughput from the recorded timings.
    pub fn process_response_body(
        &self,
        resource: &mut Resource,
        body: &[u8],
        content_type: Option<&str>,
    ) -> (r: Result<(), PipelineError>)
        ensures
            final(resource).method == old(resource).method,
            final(resource).url == old(resource).url,
            final(resource).ttfb_ms == old(resource).ttfb_ms,
            final(resource).download_end_ms == old(resource).download_end_ms,
            final(resource).status_code == old(resource).status_code,
            final(resource).error_message == old(resource).error_message,
            final(resource).raw_headers == old(resource).raw_headers,
            final(resource).content_encoding == old(resource).content_encoding,
            final(resource).content_utf8 == old(resource).content_utf8,
            final(resource).raw_body == old(resource).raw_body,
            r is Ok ==> spec_decompressed(old(resource).content_encoding, body@) is Some,
            spec_decompressed(old(resource).content_encoding, body@) is None ==> r == Err::<
                (),
                PipelineError,
            >(PipelineError::BadEncodedBody) && *final(resource) == *old(resource),
            r != Err::<(), PipelineError>(PipelineError::BadEncodedBody) ==> (match content_type {
                Some(ct) => (match final(resource).content_type_mime {
                    Some(m) => valid_utf8(spec_mime_of(ct.spec_bytes())) ==> encode_utf8(m@)
                        == spec_mime_of(ct.spec_bytes()),
                    None => false,
                }),
                None => final(resource).content_type_mime == old(resource).content_type_mime,
            }),
            r != Err::<(), PipelineError>(PipelineError::BadEncodedBody) ==> (match (content_type, spec_decompressed(
                old(resource).content_encoding,
                body@,
            )) {
                (Some(ct), Some(dec)) => {
                    &&& (crate::utils::spec_is_text_resource(ct.spec_bytes())
                        ==> match final(resource).content_type_mime {
                        Some(m) => spec_charset_set_ok(
                            final(resource).content_charset,
                            ct.spec_bytes(),
                            encode_utf8(m@),
                            dec,
                        ),
                        None => false,
                    })
                    &&& (!crate::utils::spec_is_text_resource(ct.spec_bytes()) ==> final(resource).content_charset == old(resource).content_charset)
                },
                (None, Some(dec)) => final(resource).content_charset == old(resource).content_charset,
                _ => false,
            }),
            r is Ok ==> (match spec_decompressed(old(resource).content_encoding, body@) {
                Some(dec) => {
                    &&& spec_content_path_ok(*old(resource), final(resource).content_file_path)
                    &&& ((match content_type {
                        Some(ct) => !crate::utils::spec_is_text_resource(ct.spec_bytes()),
                        None => true,
                    }) ==> match final(resource).content_base64 {
                        Some(b) => encode_utf8(b@) == b64_of(dec),
                        None => false,
                    })
                    &&& ((match content_type {
                        Some(ct) => crate::utils::spec_is_text_resource(ct.spec_bytes()),
                        None => false,
                    }) ==> (final(resource).minify is Some || match final(resource).content_base64 {
                        Some(b) => encode_utf8(b@) == b64_of(dec),
                        None => false,
                    }))
                },
                None => false,
            }),
            r is Ok ==> (match (old(resource).download_end_ms, final(resource).mbps_x1000) {
                (Some(d), Some(m)) => d > old(resource).ttfb_ms && ({
                    let rate = 8 * (body@.len() as int) / (d as int - old(resource).ttfb_ms as int);
                    m as int == (if rate > u64::MAX as int {
                        u64::MAX as int
                    } else {
                        rate
                    })
                }),
                (Some(d), None) => d <= old(resource).ttfb_ms,
                (None, None) => true,
                _ => false,
            }) || old(resource).mbps_x1000 is Some,
            r matches Err(e) ==> e == PipelineError::BadEncodedBody || e == PipelineError::FileIo
                || e == PipelineError::InvalidUrl,
            r == Err::<(), PipelineError>(PipelineError::BadEncodedBody) ==> spec_decompressed(
                old(resource).content_encoding,
                body@,
            ) is None,
    {
        let decompressed = match self.decompress_body(body, &resource.content_encoding) {
            Ok(d) => d,
            Err(e) => {
                return Err(e);
            },
        };
        let ghost before_mbps = resource.mbps_x1000;
        match content_type {
            Some(ct) => {
                let mime = mime_of(ct);
                resource.content_type_mime = Some(mime);
                if crate::utils::is_text_resource(ct) {
                    let mime_ref = match &resource.content_type_mime {
                        Some(m) => m.as_str(),
                        None => "",
                    };
                    let charset = resolve_charset(ct, mime_ref, decompressed.as_slice());
                    resource.content_charset = charset;
                    match self.process_text_resource(resource, decompressed.as_slice()) {
                        Ok(u) => {},
                        Err(_) => {
                            match self.process_binary_resource(
                                resource,
                                decompressed.as_slice(),
                            ) {
                                Ok(u) => {},
                                Err(e) => {
                                    return Err(e);
                                },
                            }
                        },
                    }
                } else {
                    match self.process_binary_resource(resource, decompressed.as_slice()) {
                        Ok(u) => {},
                        Err(e) => {
                            return Err(e);
                        },
                    }
                }
            },
            None => {
                match self.process_binary_resource(resource, decompressed.as_slice()) {
                    Ok(u) => {},
                    Err(e) => {
                        return Err(e);
                    },
                }
            },
        }
        match resource.download_end_ms {
            Some(d) => {
                if d > resource.ttfb_ms {
                    let dur = d - resource.ttfb_ms;
                    let bits: u128 = 8u128 * (body.len() as u128);
                    let rate: u128 = bits / (dur as u128);
                    let capped: u64 = if rate > u64::MAX as u128 {
                        u64::MAX
                    } else {
                        rate as u64
                    };
                    resource.mbps_x1000 = Some(capped);
                }
            },
            None => {},
        }
        Ok(())
    }
}

} // verus!
