//! Beautification of recorded text bodies. CSS and JavaScript are handed to
//! their parsers whole; HTML is parsed by html5ever, flattened to a pre-order
//! event stream, and pretty-printed by a verified two-space indenter with
//! attribute-value escaping.

use crate::bytetext::{
    is_ws_spec, push_char, str_eq, string_from_bytes_lossy, trim_p, trim_ws_bytes,
};
use crate::transaction::{lemma_nl_scan, split_on_nl};
use crate::types::PipelineError;
use crate::utils::is_prefix_of;
use html5ever::parse_document;
use lightningcss::stylesheet::{ParserOptions, StyleSheet};
use html5ever::tendril::TendrilSink;
use markup5ever_rcdom::{Handle, NodeData, RcDom};
use swc_common::sync::Lrc;
use swc_common::{FileName, SourceMap, GLOBALS};
use swc_ecma_codegen::text_writer::JsWriter;
use swc_ecma_codegen::Emitter;
use swc_ecma_parser::lexer::Lexer;
use swc_ecma_parser::{Parser, StringInput, Syntax};
use vstd::prelude::*;
use vstd::string::StringSliceAdditionalSpecFns;
use vstd::utf8::{encode_utf8, valid_utf8};

verus! {

/// One node of a parsed HTML document, in pre-order: elements open and close,
/// everything else is a leaf.
#[derive(Debug, Clone)]
pub enum HtmlEvent {
    Doctype(String),
    Text(String),
    Comment(String),
    Pi(String, String),
    Open(String, Vec<(String, String)>),
    Close(String),
}

/// The view of an [`HtmlEvent`].
pub enum HtmlEventV {
    Doctype(Seq<char>),
    Text(Seq<char>),
    Comment(Seq<char>),
    Pi(Seq<char>, Seq<char>),
    Open(Seq<char>, Seq<(Seq<char>, Seq<char>)>),
    Close(Seq<char>),
}

impl View for HtmlEvent {
    type V = HtmlEventV;

    open spec fn view(&self) -> HtmlEventV {
        match self {
            HtmlEvent::Doctype(n) => HtmlEventV::Doctype(n@),
            HtmlEvent::Text(t) => HtmlEventV::Text(t@),
            HtmlEvent::Comment(c) => HtmlEventV::Comment(c@),
            HtmlEvent::Pi(t, c) => HtmlEventV::Pi(t@, c@),
            HtmlEvent::Open(n, attrs) => HtmlEventV::Open(
                n@,
                attrs@.map_values(|a: (String, String)| (a.0@, a.1@)),
            ),
            HtmlEvent::Close(n) => HtmlEventV::Close(n@),
        }
    }
}

/// The pre-order event stream that html5ever's document tree flattens to for
/// the given input, or nothing when reading the input fails.
pub uninterp spec fn html_events_of(s: Seq<u8>) -> Option<Seq<HtmlEventV>>;

/// What `str::trim` leaves: the text without leading and trailing Unicode
/// whitespace.
pub uninterp spec fn unicode_trim_of(s: Seq<char>) -> Seq<char>;

/// What lightningcss prints, unminified, for a stylesheet it can parse.
pub uninterp spec fn css_pretty_of(s: Seq<char>) -> Option<Seq<char>>;

/// What swc's codegen prints for a module its parser accepts.
pub uninterp spec fn js_pretty_of(s: Seq<char>) -> Option<Seq<char>>;

#[verifier::external_type_specification]
#[verifier::external_body]
pub struct ExRcdomNode(markup5ever_rcdom::Node);

/// Emit the event for a processing-instruction rcdom node. Trusted converter
/// for [`parse_html_events`].
#[verifier::external_body]
fn pi_event(h: &Handle, out: &mut Vec<HtmlEvent>) {
    match &h.data {
        NodeData::ProcessingInstruction { target, contents } => out.push(HtmlEvent::Pi(target.to_string(), contents.to_string())),
        _ => {},
    }
}

/// Emit the event for one non-element rcdom node. Trusted converter for
/// [`parse_html_events`]; it only moves parsed fields into plain values.
#[verifier::external_body]
fn leaf_event(h: &Handle, out: &mut Vec<HtmlEvent>) {
    match &h.data {
        NodeData::Doctype { name, .. } => out.push(HtmlEvent::Doctype(name.to_string())),
        NodeData::Text { contents } => out.push(HtmlEvent::Text(contents.borrow().to_string())),
        NodeData::Comment { contents } => out.push(HtmlEvent::Comment(contents.to_string())),
        _ => pi_event(h, out),
    }
}

/// Emit the opening event for one rcdom node. Trusted converter for
/// [`parse_html_events`]; reports whether a closing event is owed.
#[verifier::external_body]
fn node_open_event(h: &Handle, out: &mut Vec<HtmlEvent>) -> bool {
    match &h.data {
        NodeData::Element { name, attrs, .. } => { out.push(HtmlEvent::Open(name.local.to_string(), attrs.borrow().iter().map(|a| (a.name.local.to_string(), a.value.to_string())).collect())); true },
        _ => { leaf_event(h, out); false },
    }
}

/// Walk an rcdom subtree in pre-order, emitting its events. Trusted
/// converter for [`parse_html_events`].
#[verifier::external_body]
fn dom_events(h: &Handle, out: &mut Vec<HtmlEvent>) {
    let has_close = node_open_event(h, out);
    for child in h.children.borrow().iter() {
        dom_events(child, out);
    }
    if has_close {
        match &h.data {
            NodeData::Element { name, .. } => out.push(HtmlEvent::Close(name.local.to_string())),
            _ => {},
        }
    }
}

/// Relies on html5ever's `parse_document` into markup5ever_rcdom: the parsed
/// document tree, flattened here to a pre-order event stream.
#[verifier::external_body]
fn parse_html_events(src: &str) -> (r: Option<Vec<HtmlEvent>>)
    ensures
        match r {
            Some(v) => Some(v@.map_values(|e: HtmlEvent| e@)) == html_events_of(src.spec_bytes()),
            None => html_events_of(src.spec_bytes()) is None,
        },
{
    let sink = parse_document(RcDom::default(), Default::default());
    let dom: RcDom = match sink.from_utf8().read_from(&mut src.as_bytes()) {
        Ok(d) => d,
        Err(_) => {
            return None;
        },
    };
    let mut out = Vec::new();
    dom_events(&dom.document, &mut out);
    Some(out)
}

/// Relies on `str::trim`: drops leading and trailing Unicode whitespace.
#[verifier::external_body]
fn trim_str(s: &str) -> (r: &str)
    ensures
        r@ == unicode_trim_of(s@),
{
    s.trim()
}

/// Relies on lightningcss's `StyleSheet::parse` and `to_css` with default
/// printer options (no minification).
#[verifier::external_body]
fn css_pretty(src: &str) -> (r: Option<String>)
    ensures
        match r {
            Some(t) => css_pretty_of(src@) == Some(t@),
            None => css_pretty_of(src@) is None,
        },
{
    let sheet = match StyleSheet::parse(src, ParserOptions::default()) {
        Ok(s) => s,
        Err(_) => {
            return None;
        },
    };
    match sheet.to_css(lightningcss::printer::PrinterOptions::default()) {
        Ok(o) => Some(o.code),
        Err(_) => None,
    }
}

/// Relies on swc's parser and codegen: parse the input as an ECMAScript
/// module and print it one statement per line.
#[verifier::external_body]
fn js_pretty(src: &str) -> (r: Option<String>)
    ensures
        match r {
            Some(t) => js_pretty_of(src@) == Some(t@),
            None => js_pretty_of(src@) is None,
        },
{
    GLOBALS.set(&Default::default(), || -> Option<String> {
        let cm: Lrc<SourceMap> = Default::default();
        let fm = cm.new_source_file(FileName::Anon.into(), src.to_string());
        let mut parser = Parser::new_from(Lexer::new(Syntax::Es(Default::default()), Default::default(), StringInput::from(&*fm), None));
        let module = parser.parse_module().ok()?;
        let mut buf = Vec::new();
        let mut emitter = Emitter { cfg: Default::default(), comments: None, cm: cm.clone(), wr: JsWriter::new(cm.clone(), "\n", &mut buf, None) };
        emitter.emit_module(&module).ok()?;
        String::from_utf8(buf).ok()
    })
}

/// The escape of one attribute-value character: `"`, `&`, `<` and `>` become
/// entities, all else passes through.
pub open spec fn escape_char(c: char) -> Seq<char> {
    if c == '"' {
        "&quot;"@
    } else if c == '&' {
        "&amp;"@
    } else if c == '<' {
        "&lt;"@
    } else if c == '>' {
        "&gt;"@
    } else {
        seq![c]
    }
}

/// The escaped form of an attribute value.
pub open spec fn escaped(s: Seq<char>) -> Seq<char>
    decreases s.len(),
{
    if s.len() == 0 {
        Seq::empty()
    } else {
        escape_char(s[0]) + escaped(s.drop_first())
    }
}

/// Two spaces per indentation level.
pub open spec fn indent_chars(depth: nat) -> Seq<char>
    decreases depth,
{
    if depth == 0 {
        Seq::empty()
    } else {
        "  "@ + indent_chars((depth - 1) as nat)
    }
}

/// The serialized attribute list: a space, the name, `="`, the escaped
/// value, and a closing quote, for each attribute in order.
pub open spec fn attrs_chars(attrs: Seq<(Seq<char>, Seq<char>)>) -> Seq<char>
    decreases attrs.len(),
{
    if attrs.len() == 0 {
        Seq::empty()
    } else {
        " "@ + attrs[0].0 + "=\""@ + escaped(attrs[0].1) + "\""@ + attrs_chars(attrs.drop_first())
    }
}

/// Whether a tag is an HTML void element, printed without children or a
/// closing tag.
pub open spec fn is_void_name(n: Seq<char>) -> bool {
    ||| n == "area"@
    ||| n == "base"@
    ||| n == "br"@
    ||| n == "col"@
    ||| n == "embed"@
    ||| n == "hr"@
    ||| n == "img"@
    ||| n == "input"@
    ||| n == "link"@
    ||| n == "meta"@
    ||| n == "param"@
    ||| n == "source"@
    ||| n == "track"@
    ||| n == "wbr"@
}

/// The pretty-printed form of an event stream: two-space indentation, one
/// node per line, trimmed text, escaped attribute values, and void elements
/// printed without children or closing tags (`skipping` counts the depth of
/// a suppressed void subtree).
pub open spec fn spec_pretty_events(evs: Seq<HtmlEventV>, depth: nat, skipping: nat) -> Seq<char>
    decreases evs.len(),
{
    if evs.len() == 0 {
        Seq::empty()
    } else {
        let rest = evs.drop_first();
        match evs[0] {
            HtmlEventV::Doctype(n) => (if skipping == 0 {
                "<!DOCTYPE "@ + n + ">\n"@
            } else {
                Seq::empty()
            }) + spec_pretty_events(rest, depth, skipping),
            HtmlEventV::Text(t) => (if skipping == 0 && unicode_trim_of(t).len() > 0 {
                indent_chars(depth) + unicode_trim_of(t) + "\n"@
            } else {
                Seq::empty()
            }) + spec_pretty_events(rest, depth, skipping),
            HtmlEventV::Comment(c) => (if skipping == 0 {
                indent_chars(depth) + "<!--"@ + c + "-->\n"@
            } else {
                Seq::empty()
            }) + spec_pretty_events(rest, depth, skipping),
            HtmlEventV::Pi(t, c) => (if skipping == 0 {
                indent_chars(depth) + "<?"@ + t + " "@ + c + "?>\n"@
            } else {
                Seq::empty()
            }) + spec_pretty_events(rest, depth, skipping),
            HtmlEventV::Open(n, attrs) => {
                if skipping > 0 {
                    spec_pretty_events(rest, depth, skipping + 1)
                } else {
                    let line = indent_chars(depth) + "<"@ + n + attrs_chars(attrs) + ">\n"@;
                    if is_void_name(n) {
                        line + spec_pretty_events(rest, depth, 1)
                    } else {
                        line + spec_pretty_events(rest, depth + 1, 0)
                    }
                }
            },
            HtmlEventV::Close(n) => {
                if skipping > 0 {
                    spec_pretty_events(rest, depth, (skipping - 1) as nat)
                } else {
                    let d2 = if depth > 0 {
                        (depth - 1) as nat
                    } else {
                        0
                    };
                    indent_chars(d2) + "</"@ + n + ">\n"@ + spec_pretty_events(rest, d2, 0)
                }
            },
        }
    }
}

/// Append the escaped form of `value` to `out`.
#[verifier::loop_isolation(false)]
fn push_escaped(out: &mut String, value: &str)
    ensures
        final(out)@ == old(out)@ + escaped(value@),
{
    let bytes = value.as_bytes_vec();
    let whole = string_from_bytes_lossy(bytes.as_slice());
    proof {
        vstd::utf8::encode_utf8_valid_utf8(value@);
        vstd::utf8::encode_utf8_decode_utf8(value@);
        vstd::utf8::encode_utf8_decode_utf8(whole@);
        assert(whole@ == value@);
    }
    let n = whole.as_str().unicode_len();
    let mut i: usize = 0;
    proof {
        assert(value@.subrange(0, value@.len() as int) =~= value@);
        assert(old(out)@ + Seq::<char>::empty() =~= old(out)@);
        assert(escaped(value@) == Seq::<char>::empty() + escaped(
            value@.subrange(0, value@.len() as int),
        ));
    }
    while i < n
        invariant
            i <= n,
            n == value@.len(),
            whole@ == value@,
            old(out)@ + escaped(value@) == out@ + escaped(
                value@.subrange(i as int, value@.len() as int),
            ),
        decreases n - i,
    {
        let ghost restv = value@.subrange(i as int, value@.len() as int);
        proof {
            assert(restv.drop_first() =~= value@.subrange(i as int + 1, value@.len() as int));
        }
        let c = whole.as_str().get_char(i);
        if c == '"' {
            out.append("&quot;");
        } else if c == '&' {
            out.append("&amp;");
        } else if c == '<' {
            out.append("&lt;");
        } else if c == '>' {
            out.append("&gt;");
        } else {
            push_char(out, c);
        }
        proof {
            assert(out@ + escaped(value@.subrange(i as int + 1, value@.len() as int)) =~= old(
                out,
            )@ + escaped(value@));
        }
        i = i + 1;
    }
    proof {
        assert(value@.subrange(i as int, value@.len() as int) =~= Seq::<char>::empty());
        assert(out@ =~= old(out)@ + escaped(value@));
    }
}

/// Append `depth` levels of two-space indentation to `out`.
#[verifier::loop_isolation(false)]
fn push_indent(out: &mut String, depth: usize)
    ensures
        final(out)@ == old(out)@ + indent_chars(depth as nat),
{
    let mut k: usize = 0;
    proof {
        assert(out@ =~= old(out)@ + indent_chars(0));
    }
    while k < depth
        invariant
            k <= depth,
            out@ == old(out)@ + indent_chars(k as nat),
        decreases depth - k,
    {
        out.append("  ");
        proof {
            assert(indent_chars(k as nat + 1) =~= indent_chars(k as nat) + "  "@) by {
                lemma_indent_snoc(k as nat);
            }
            assert(out@ =~= old(out)@ + indent_chars(k as nat + 1));
        }
        k = k + 1;
    }
}

/// Indentation grows by one level at either end.
proof fn lemma_indent_snoc(d: nat)
    ensures
        indent_chars(d + 1) == indent_chars(d) + "  "@,
    decreases d,
{
    if d == 0 {
        assert(indent_chars(1) =~= indent_chars(0) + "  "@);
    } else {
        lemma_indent_snoc((d - 1) as nat);
        assert(indent_chars(d + 1) =~= indent_chars(d) + "  "@);
    }
}

/// Whether a tag name is a void element.
fn is_void(n: &str) -> (r: bool)
    ensures
        r == is_void_name(n@),
{
    str_eq(n, "area") || str_eq(n, "base") || str_eq(n, "br") || str_eq(n, "col") || str_eq(
        n,
        "embed",
    ) || str_eq(n, "hr") || str_eq(n, "img") || str_eq(n, "input") || str_eq(n, "link") || str_eq(
        n,
        "meta",
    ) || str_eq(n, "param") || str_eq(n, "source") || str_eq(n, "track") || str_eq(n, "wbr")
}

/// Pretty-print an HTML event stream.
#[verifier::loop_isolation(false)]
#[verifier::rlimit(60)]
fn pretty_events(events: &Vec<HtmlEvent>) -> (r: String)
    ensures
        r@ == spec_pretty_events(events@.map_values(|e: HtmlEvent| e@), 0, 0),
{
    let ghost evs = events@.map_values(|e: HtmlEvent| e@);
    let mut out = String::new();
    let mut depth: usize = 0;
    let mut skipping: usize = 0;
    let mut i: usize = 0;
    proof {
        assert(evs.subrange(0, evs.len() as int) =~= evs);
        assert(Seq::<char>::empty() + spec_pretty_events(evs, 0, 0) =~= spec_pretty_events(
            evs,
            0,
            0,
        ));
    }
    while i < events.len()
        invariant
            i <= events@.len(),
            evs == events@.map_values(|e: HtmlEvent| e@),
            depth <= i,
            skipping <= i,
            spec_pretty_events(evs, 0, 0) == out@ + spec_pretty_events(
                evs.subrange(i as int, evs.len() as int),
                depth as nat,
                skipping as nat,
            ),
        decreases events@.len() - i,
    {
        let ghost rest = evs.subrange(i as int, evs.len() as int);
        proof {
            assert(rest.drop_first() =~= evs.subrange(i as int + 1, evs.len() as int));
            assert(rest[0] == evs[i as int]);
        }
        let ev = &events[i];
        match ev {
            HtmlEvent::Doctype(n) => {
                if skipping == 0 {
                    out.append("<!DOCTYPE ");
                    out.append(n.as_str());
                    out.append(">\n");
                }
            },
            HtmlEvent::Text(t) => {
                if skipping == 0 {
                    let trimmed = trim_str(t.as_str());
                    if !trimmed.is_empty() {
                        push_indent(&mut out, depth);
                        out.append(trimmed);
                        out.append("\n");
                    }
                }
            },
            HtmlEvent::Comment(c) => {
                if skipping == 0 {
                    push_indent(&mut out, depth);
                    out.append("<!--");
                    out.append(c.as_str());
                    out.append("-->\n");
                }
            },
            HtmlEvent::Pi(t, c) => {
                if skipping == 0 {
                    push_indent(&mut out, depth);
                    out.append("<?");
                    out.append(t.as_str());
                    out.append(" ");
                    out.append(c.as_str());
                    out.append("?>\n");
                }
            },
            HtmlEvent::Open(n, attrs) => {
                if skipping > 0 {
                    skipping = skipping + 1;
                } else {
                    push_indent(&mut out, depth);
                    out.append("<");
                    out.append(n.as_str());
                    let ghost attrsv = attrs@.map_values(|a: (String, String)| (a.0@, a.1@));
                    let mut k: usize = 0;
                    proof {
                        assert(attrsv.subrange(0, attrsv.len() as int) =~= attrsv);
                    }
                    let ghost out_before = out@;
                    while k < attrs.len()
                        invariant
                            k <= attrs@.len(),
                            attrsv == attrs@.map_values(|a: (String, String)| (a.0@, a.1@)),
                            out_before + attrs_chars(attrsv) == out@ + attrs_chars(
                                attrsv.subrange(k as int, attrsv.len() as int),
                            ),
                        decreases attrs@.len() - k,
                    {
                        let ghost arest = attrsv.subrange(k as int, attrsv.len() as int);
                        proof {
                            assert(arest.drop_first() =~= attrsv.subrange(
                                k as int + 1,
                                attrsv.len() as int,
                            ));
                            assert(arest[0] == attrsv[k as int]);
                        }
                        let a = &attrs[k];
                        out.append(" ");
                        out.append(a.0.as_str());
                        out.append("=\"");
                        push_escaped(&mut out, a.1.as_str());
                        out.append("\"");
                        proof {
                            assert(out@ + attrs_chars(
                                attrsv.subrange(k as int + 1, attrsv.len() as int),
                            ) =~= out_before + attrs_chars(attrsv));
                        }
                        k = k + 1;
                    }
                    proof {
                        assert(attrsv.subrange(k as int, attrsv.len() as int)
                            =~= Seq::<(Seq<char>, Seq<char>)>::empty());
                        assert(out@ =~= out_before + attrs_chars(attrsv));
                    }
                    out.append(">\n");
                    if is_void(n.as_str()) {
                        skipping = 1;
                    } else {
                        depth = depth + 1;
                    }
                }
            },
            HtmlEvent::Close(n) => {
                if skipping > 0 {
                    skipping = skipping - 1;
                } else {
                    if depth > 0 {
                        depth = depth - 1;
                    }
                    push_indent(&mut out, depth);
                    out.append("</");
                    out.append(n.as_str());
                    out.append(">\n");
                }
            },
        }
        proof {
            assert(spec_pretty_events(evs, 0, 0) == out@ + spec_pretty_events(
                evs.subrange(i as int + 1, evs.len() as int),
                depth as nat,
                skipping as nat,
            ));
        }
        i = i + 1;
    }
    proof {
        assert(evs.subrange(i as int, evs.len() as int) =~= Seq::<HtmlEventV>::empty());
        assert(out@ =~= spec_pretty_events(evs, 0, 0));
    }
    out
}

/// Pretty-print an HTML document: parse it and render the document tree with
/// two-space indentation. Fails only when reading the input fails.
pub fn format_html(input: &str) -> (r: Result<String, PipelineError>)
    ensures
        match r {
            Ok(s) => html_events_of(input.spec_bytes()) matches Some(evs) && s@
                == spec_pretty_events(evs, 0, 0),
            Err(_) => html_events_of(input.spec_bytes()) is None,
        },
{
    match parse_html_events(input) {
        Some(events) => Ok(pretty_events(&events)),
        None => Err(PipelineError::BadEncodedBody),
    }
}

/// The first line whose whitespace-trimmed form begins a `@charset` rule.
pub open spec fn find_charset_line(lines: Seq<Seq<u8>>) -> Option<Seq<u8>>
    decreases lines.len(),
{
    if lines.len() == 0 {
        None
    } else {
        let t = trim_p(lines[0], |x: u8| is_ws_spec(x));
        if is_prefix_of("@charset".spec_bytes(), t) {
            Some(t)
        } else {
            find_charset_line(lines.drop_first())
        }
    }
}

/// Pretty-print a stylesheet, preserving any leading `@charset` rule that the
/// CSS parser would otherwise drop. Fails exactly when the stylesheet does
/// not parse.
#[verifier::loop_isolation(false)]
pub fn format_css(input: &str) -> (r: Result<String, PipelineError>)
    ensures
        match r {
            Ok(s) => css_pretty_of(input@) matches Some(css) && (match find_charset_line(
                split_on_nl(input.spec_bytes()),
            ) {
                Some(line) => valid_utf8(line) ==> encode_utf8(s@) == line + encode_utf8("\n"@)
                    + encode_utf8(css),
                None => s@ == css,
            }),
            Err(_) => css_pretty_of(input@) is None,
        },
{
    let pretty = match css_pretty(input) {
        Some(p) => p,
        None => {
            return Err(PipelineError::BadEncodedBody);
        },
    };
    let content = input.as_bytes();
    let mut i: usize = 0;
    let mut found: Option<Vec<u8>> = None;
    let mut done = false;
    proof {
        assert(content@.subrange(0, content@.len() as int) =~= content@);
    }
    while !done
        invariant
            i <= content@.len(),
            !done ==> found is None,
            !done ==> find_charset_line(split_on_nl(content@)) == find_charset_line(
                split_on_nl(content@.subrange(i as int, content@.len() as int)),
            ),
            done ==> (match found {
                Some(v) => find_charset_line(split_on_nl(content@)) == Some(v@),
                None => find_charset_line(split_on_nl(content@)) is None,
            }),
        decreases content@.len() - i + (if done { 0int } else { 1int }),
    {
        let ghost restb = content@.subrange(i as int, content@.len() as int);
        let mut j: usize = i;
        while j < content.len() && content[j] != 10
            invariant
                i <= j <= content@.len(),
                forall|m: int| i as int <= m < j as int ==> content@[m] != 10,
            decreases content@.len() - j,
        {
            j = j + 1;
        }
        let line = crate::bytetext::copy_range(content, i, j);
        let t = trim_ws_bytes(line.as_slice());
        proof {
            let k = j as int - i as int;
            assert(forall|m: int| 0 <= m < k ==> restb[m] == content@[m + i as int]);
            lemma_nl_scan(restb, k);
            assert(restb.subrange(0, k) =~= line@);
        }
        let hit = crate::bytetext::starts_with_bytes(t.as_slice(), "@charset".as_bytes());
        if hit {
            proof {
                if (j as int - i as int) < restb.len() {
                    assert(split_on_nl(restb)[0] == line@);
                } else {
                    assert(restb =~= line@);
                    assert(split_on_nl(restb)[0] == line@);
                }
                assert(split_on_nl(restb).len() >= 1) by {
                    crate::transaction::lemma_split_on_nl_len(restb);
                }
                assert(t@ == trim_p(split_on_nl(restb)[0], |x: u8| is_ws_spec(x)));
                assert(find_charset_line(split_on_nl(restb)) == Some(t@));
            }
            found = Some(t);
            done = true;
        } else if j == content.len() {
            proof {
                assert(restb =~= line@);
                assert(split_on_nl(restb) == seq![line@]);
                assert(split_on_nl(restb).drop_first() =~= Seq::<Seq<u8>>::empty());
                assert(find_charset_line(Seq::<Seq<u8>>::empty()) is None);
                assert(find_charset_line(split_on_nl(restb)) is None);
            }
            done = true;
        } else {
            proof {
                assert(restb.subrange(j as int - i as int + 1, restb.len() as int) =~= content@
                    .subrange(j as int + 1, content@.len() as int));
                assert(split_on_nl(restb) == seq![line@] + split_on_nl(
                    content@.subrange(j as int + 1, content@.len() as int),
                ));
                assert(split_on_nl(restb).drop_first() =~= split_on_nl(
                    content@.subrange(j as int + 1, content@.len() as int),
                ));
                assert(split_on_nl(restb)[0] == line@);
                assert(find_charset_line(split_on_nl(restb)) == find_charset_line(
                    split_on_nl(content@.subrange(j as int + 1, content@.len() as int)),
                ));
            }
            i = j + 1;
        }
    }
    match found {
        Some(line_bytes) => {
            let mut s = string_from_bytes_lossy(line_bytes.as_slice());
            let ghost line_view = s@;
            s.append("\n");
            s.append(pretty.as_str());
            proof {
                if valid_utf8(line_bytes@) {
                    lemma_encode_utf8_concat(line_view, "\n"@);
                    lemma_encode_utf8_concat(line_view + "\n"@, pretty@);
                    assert(s@ =~= line_view + "\n"@ + pretty@);
                    assert(encode_utf8(s@) == encode_utf8(line_view) + encode_utf8("\n"@)
                        + encode_utf8(pretty@));
                }
            }
            Ok(s)
        },
        None => Ok(pretty),
    }
}

/// UTF-8 encoding distributes over concatenation.
pub proof fn lemma_encode_utf8_concat(a: Seq<char>, b: Seq<char>)
    ensures
        encode_utf8(a + b) == encode_utf8(a) + encode_utf8(b),
    decreases a.len(),
{
    if a.len() == 0 {
        assert(a + b =~= b);
        assert(encode_utf8(a) =~= Seq::<u8>::empty());
        assert(encode_utf8(a) + encode_utf8(b) =~= encode_utf8(b));
    } else {
        lemma_encode_utf8_concat(a.drop_first(), b);
        assert((a + b).drop_first() =~= a.drop_first() + b);
        assert((a + b)[0] == a[0]);
        assert(encode_utf8(a + b) =~= encode_utf8(a) + encode_utf8(b));
    }
}

/// Pretty-print JavaScript: one statement per line, as swc's code generator
/// emits it. Fails exactly when the input does not parse as a module.
pub fn format_javascript(input: &str) -> (r: Result<String, PipelineError>)
    ensures
        match r {
            Ok(s) => js_pretty_of(input@) == Some(s@),
            Err(_) => js_pretty_of(input@) is None,
        },
{
    match js_pretty(input) {
        Some(s) => Ok(s),
        None => Err(PipelineError::BadEncodedBody),
    }
}

} // verus!
