//! Resource classification, charset discovery, and the deterministic content
//! file path derived from a request's method and URL.

use crate::bytetext::{
    copy_range, find_spec, find_sub, is_ascii_bytes, is_quote_spec, is_ws, is_ws_spec,
    lemma_find_spec, lemma_prefix_len_p, lower_bytes, prefix_len_p, starts_with_bytes,
    string_from_bytes_lossy, to_lower_bytes, trim_p, trim_quotes_bytes, trim_ws_bytes,
};
use sha1::{Digest, Sha1};
use vstd::prelude::*;
use vstd::string::StringSliceAdditionalSpecFns;
use vstd::utf8::{encode_utf8, is_ascii_chars_encode_utf8, valid_utf8};

verus! {

/// A prefix relation on byte sequences.
pub open spec fn is_prefix_of(p: Seq<u8>, s: Seq<u8>) -> bool {
    p.len() <= s.len() && s.subrange(0, p.len() as int) == p
}

/// A resource is text when its MIME type (compared case-insensitively) is
/// HTML, CSS, or JavaScript.
pub open spec fn spec_is_text_resource(b: Seq<u8>) -> bool {
    let low = lower_bytes(b);
    ||| is_prefix_of("text/html".spec_bytes(), low)
    ||| is_prefix_of("text/css".spec_bytes(), low)
    ||| is_prefix_of("application/javascript".spec_bytes(), low)
    ||| is_prefix_of("text/javascript".spec_bytes(), low)
}

/// Whether a `Content-Type` value names one of the text MIME types this
/// pipeline beautifies: HTML, CSS, or JavaScript.
pub fn is_text_resource(content_type: &str) -> (r: bool)
    ensures
        r == spec_is_text_resource(content_type.spec_bytes()),
{
    let low = to_lower_bytes(content_type.as_bytes());
    starts_with_bytes(low.as_slice(), "text/html".as_bytes())
        || starts_with_bytes(low.as_slice(), "text/css".as_bytes())
        || starts_with_bytes(low.as_slice(), "application/javascript".as_bytes())
        || starts_with_bytes(low.as_slice(), "text/javascript".as_bytes())
}

/// The charset named by a `Content-Type` value: the text after `charset=`
/// (found case-insensitively), cut at the next `;`, with surrounding
/// whitespace and double quotes removed. Case of the value is preserved.
pub open spec fn spec_charset_from_content_type(b: Seq<u8>) -> Option<Seq<u8>> {
    let cs = "charset=".spec_bytes();
    match find_spec(lower_bytes(b), cs) {
        None => None,
        Some(p) => {
            let after = b.subrange(p + cs.len(), b.len() as int);
            let val = match find_spec(after, ";".spec_bytes()) {
                Some(q) => after.subrange(0, q),
                None => after,
            };
            Some(trim_p(trim_p(val, |x: u8| is_ws_spec(x)), |x: u8| is_quote_spec(x)))
        },
    }
}

/// Extract the charset parameter from a `Content-Type` header value, if any.
pub fn extract_charset_from_content_type(content_type: &str) -> (r: Option<String>)
    ensures
        match r {
            Some(s) => spec_charset_from_content_type(content_type.spec_bytes()) matches Some(v)
                && s@ == crate::bytetext::lossy_of(v) && (valid_utf8(v) ==> encode_utf8(s@) == v),
            None => spec_charset_from_content_type(content_type.spec_bytes()) is None,
        },
{
    let bytes = content_type.as_bytes();
    let low = to_lower_bytes(bytes);
    let pat = "charset=";
    match find_sub(low.as_slice(), pat.as_bytes()) {
        None => None,
        Some(p) => {
            let total = bytes.len();
            proof {
                lemma_find_spec(lower_bytes(bytes@), pat.spec_bytes());
                assert(p as int + pat.spec_bytes().len() <= total as int);
            }
            let start = p + pat.len();
            let after = copy_range(bytes, start, bytes.len());
            let val = match find_sub(after.as_slice(), ";".as_bytes()) {
                Some(q) => {
                    proof {
                        lemma_find_spec(after@, ";".spec_bytes());
                    }
                    copy_range(after.as_slice(), 0, q)
                },
                None => after,
            };
            let trimmed = trim_quotes_bytes(trim_ws_bytes(val.as_slice()).as_slice());
            Some(string_from_bytes_lossy(trimmed.as_slice()))
        },
    }
}

/// The value of an HTML `<meta charset=...>` attribute starting at `after`:
/// a quoted value runs to the matching quote; an unquoted one runs to the
/// first whitespace, `>`, or `/`.
pub open spec fn spec_meta_value(after: Seq<u8>) -> Option<Seq<u8>> {
    if after.len() > 0 && after[0] == 34 {
        let rest = after.drop_first();
        match find_spec(rest, "\"".spec_bytes()) {
            Some(q) => Some(rest.subrange(0, q)),
            None => None,
        }
    } else if after.len() > 0 && after[0] == 39 {
        let rest = after.drop_first();
        match find_spec(rest, "'".spec_bytes()) {
            Some(q) => Some(rest.subrange(0, q)),
            None => None,
        }
    } else {
        let k = prefix_len_p(after, |x: u8| !(is_ws_spec(x) || x == 62 || x == 47));
        Some(after.subrange(0, k))
    }
}

/// The charset found in the first 8 KiB of an HTML document, searched in the
/// ASCII-lowercased bytes: a `<meta charset=...>` value, else the charset
/// parameter of a `<meta http-equiv=... content="...">` attribute.
pub open spec fn spec_charset_from_html(content: Seq<u8>) -> Option<Seq<u8>> {
    let limit = if content.len() < 8192 { content.len() as int } else { 8192 };
    let low = lower_bytes(content.subrange(0, limit));
    let meta = match find_spec(low, "<meta charset=".spec_bytes()) {
        Some(p) => spec_meta_value(low.subrange(p + "<meta charset=".spec_bytes().len(), low.len() as int)),
        None => None,
    };
    if meta is Some {
        meta
    } else {
        match find_spec(low, "http-equiv".spec_bytes()) {
            Some(p) => {
                let ae = low.subrange(p, low.len() as int);
                match find_spec(ae, "content=".spec_bytes()) {
                    Some(q) => {
                        let ac = ae.subrange(q + "content=".spec_bytes().len(), ae.len() as int);
                        spec_charset_from_content_type(spec_quoted_value(ac))
                    },
                    None => None,
                }
            },
            None => None,
        }
    }
}

/// A quoted attribute value at the start of `s`: the text to the matching
/// quote, or empty when unquoted or unterminated.
pub open spec fn spec_quoted_value(s: Seq<u8>) -> Seq<u8> {
    if s.len() > 0 && s[0] == 34 {
        let rest = s.drop_first();
        match find_spec(rest, "\"".spec_bytes()) {
            Some(q) => rest.subrange(0, q),
            None => Seq::empty(),
        }
    } else if s.len() > 0 && s[0] == 39 {
        let rest = s.drop_first();
        match find_spec(rest, "'".spec_bytes()) {
            Some(q) => rest.subrange(0, q),
            None => Seq::empty(),
        }
    } else {
        Seq::empty()
    }
}

/// Extract the value of a `<meta charset>` attribute from `after`, the bytes
/// just past `charset=`.
fn meta_value(after: &[u8]) -> (r: Option<Vec<u8>>)
    ensures
        match r {
            Some(v) => spec_meta_value(after@) == Some(v@),
            None => spec_meta_value(after@) is None,
        },
{
    if after.len() > 0 && after[0] == 34 {
        let rest = copy_range(after, 1, after.len());
        proof {
            assert(rest@ =~= after@.drop_first());
        }
        match find_sub(rest.as_slice(), "\"".as_bytes()) {
            Some(q) => {
                proof {
                    lemma_find_spec(rest@, "\"".spec_bytes());
                }
                Some(copy_range(rest.as_slice(), 0, q))
            },
            None => None,
        }
    } else if after.len() > 0 && after[0] == 39 {
        let rest = copy_range(after, 1, after.len());
        proof {
            assert(rest@ =~= after@.drop_first());
        }
        match find_sub(rest.as_slice(), "'".as_bytes()) {
            Some(q) => {
                proof {
                    lemma_find_spec(rest@, "'".spec_bytes());
                }
                Some(copy_range(rest.as_slice(), 0, q))
            },
            None => None,
        }
    } else {
        let ghost pred = |x: u8| !(is_ws_spec(x) || x == 62 || x == 47);
        proof {
            lemma_prefix_len_p(after@, pred);
        }
        let mut k: usize = 0;
        #[verifier::loop_isolation(false)]
        while k < after.len() && !(is_ws(after[k]) || after[k] == 62 || after[k] == 47)
            invariant
                k <= after.len(),
                forall|j: int| 0 <= j < k as int ==> pred(after@[j]),
            decreases after.len() - k,
        {
            k = k + 1;
        }
        proof {
            let m = prefix_len_p(after@, pred);
            assert(k as int == m) by {
                if (k as int) < m {
                    assert(pred(after@[k as int]));
                } else if m < k as int {
                    assert(pred(after@[m]));
                }
            }
        }
        Some(copy_range(after, 0, k))
    }
}

/// Extract a charset from HTML content, reading `<meta charset>` or
/// `<meta http-equiv="Content-Type">` declarations in the first 8 KiB.
/// The returned name is lower-cased by the search.
pub fn extract_charset_from_html(content: &[u8]) -> (r: Option<String>)
    ensures
        match r {
            Some(s) => spec_charset_from_html(content@) matches Some(v) && s@
                == crate::bytetext::lossy_of(v) && (valid_utf8(v) ==> encode_utf8(s@) == v),
            None => spec_charset_from_html(content@) is None,
        },
{
    let limit = if content.len() < 8192 {
        content.len()
    } else {
        8192
    };
    let search = copy_range(content, 0, limit);
    let low = to_lower_bytes(search.as_slice());
    let pat1 = "<meta charset=";
    let meta = match find_sub(low.as_slice(), pat1.as_bytes()) {
        Some(p) => {
            proof {
                lemma_find_spec(low@, pat1.spec_bytes());
            }
            let after = copy_range(low.as_slice(), p + pat1.len(), low.len());
            meta_value(after.as_slice())
        },
        None => None,
    };
    match meta {
        Some(v) => Some(string_from_bytes_lossy(v.as_slice())),
        None => {
            let pat2 = "http-equiv";
            match find_sub(low.as_slice(), pat2.as_bytes()) {
                Some(p) => {
                    proof {
                        lemma_find_spec(low@, pat2.spec_bytes());
                    }
                    let ae = copy_range(low.as_slice(), p, low.len());
                    let pat3 = "content=";
                    match find_sub(ae.as_slice(), pat3.as_bytes()) {
                        Some(q) => {
                            proof {
                                lemma_find_spec(ae@, pat3.spec_bytes());
                            }
                            let ac = copy_range(ae.as_slice(), q + pat3.len(), ae.len());
                            let cv = quoted_value(ac.as_slice());
                            charset_from_content_type_bytes(cv.as_slice())
                        },
                        None => None,
                    }
                },
                None => None,
            }
        },
    }
}

/// Extract a quoted attribute value from the start of `s`.
fn quoted_value(s: &[u8]) -> (r: Vec<u8>)
    ensures
        r@ == spec_quoted_value(s@),
{
    if s.len() > 0 && s[0] == 34 {
        let rest = copy_range(s, 1, s.len());
        proof {
            assert(rest@ =~= s@.drop_first());
        }
        match find_sub(rest.as_slice(), "\"".as_bytes()) {
            Some(q) => {
                proof {
                    lemma_find_spec(rest@, "\"".spec_bytes());
                }
                copy_range(rest.as_slice(), 0, q)
            },
            None => Vec::new(),
        }
    } else if s.len() > 0 && s[0] == 39 {
        let rest = copy_range(s, 1, s.len());
        proof {
            assert(rest@ =~= s@.drop_first());
        }
        match find_sub(rest.as_slice(), "'".as_bytes()) {
            Some(q) => {
                proof {
                    lemma_find_spec(rest@, "'".spec_bytes());
                }
                copy_range(rest.as_slice(), 0, q)
            },
            None => Vec::new(),
        }
    } else {
        Vec::new()
    }
}

/// `extract_charset_from_content_type` on raw bytes, for reuse inside the
/// HTML search.
fn charset_from_content_type_bytes(bytes: &[u8]) -> (r: Option<String>)
    ensures
        match r {
            Some(s) => spec_charset_from_content_type(bytes@) matches Some(v) && s@
                == crate::bytetext::lossy_of(v) && (valid_utf8(v) ==> encode_utf8(s@) == v),
            None => spec_charset_from_content_type(bytes@) is None,
        },
{
    let low = to_lower_bytes(bytes);
    let pat = "charset=";
    match find_sub(low.as_slice(), pat.as_bytes()) {
        None => None,
        Some(p) => {
            let total = bytes.len();
            proof {
                lemma_find_spec(lower_bytes(bytes@), pat.spec_bytes());
                assert(p as int + pat.spec_bytes().len() <= total as int);
            }
            let start = p + pat.len();
            let after = copy_range(bytes, start, bytes.len());
            let val = match find_sub(after.as_slice(), ";".as_bytes()) {
                Some(q) => {
                    proof {
                        lemma_find_spec(after@, ";".spec_bytes());
                    }
                    copy_range(after.as_slice(), 0, q)
                },
                None => after,
            };
            let trimmed = trim_quotes_bytes(trim_ws_bytes(val.as_slice()).as_slice());
            Some(string_from_bytes_lossy(trimmed.as_slice()))
        },
    }
}

/// The charset named by a CSS `@charset "..."` rule in the first 1 KiB,
/// searched in the ASCII-lowercased bytes.
pub open spec fn spec_charset_from_css(content: Seq<u8>) -> Option<Seq<u8>> {
    let limit = if content.len() < 1024 { content.len() as int } else { 1024 };
    let low = lower_bytes(content.subrange(0, limit));
    match find_spec(low, "@charset".spec_bytes()) {
        Some(p) => {
            let after = low.subrange(p + "@charset".spec_bytes().len(), low.len() as int);
            let t = after.subrange(prefix_len_p(after, |x: u8| is_ws_spec(x)) as int, after.len() as int);
            if t.len() > 0 && t[0] == 34 {
                let rest = t.drop_first();
                match find_spec(rest, "\"".spec_bytes()) {
                    Some(q) => Some(rest.subrange(0, q)),
                    None => None,
                }
            } else if t.len() > 0 && t[0] == 39 {
                let rest = t.drop_first();
                match find_spec(rest, "'".spec_bytes()) {
                    Some(q) => Some(rest.subrange(0, q)),
                    None => None,
                }
            } else {
                None
            }
        },
        None => None,
    }
}

/// Extract a charset from a CSS `@charset` rule near the start of the file.
/// The returned name is lower-cased by the search.
pub fn extract_charset_from_css(content: &[u8]) -> (r: Option<String>)
    ensures
        match r {
            Some(s) => spec_charset_from_css(content@) matches Some(v) && s@
                == crate::bytetext::lossy_of(v) && (valid_utf8(v) ==> encode_utf8(s@) == v),
            None => spec_charset_from_css(content@) is None,
        },
{
    let limit = if content.len() < 1024 {
        content.len()
    } else {
        1024
    };
    let search = copy_range(content, 0, limit);
    let low = to_lower_bytes(search.as_slice());
    let pat = "@charset";
    match find_sub(low.as_slice(), pat.as_bytes()) {
        Some(p) => {
            proof {
                lemma_find_spec(low@, pat.spec_bytes());
            }
            let after = copy_range(low.as_slice(), p + pat.len(), low.len());
            let ghost pred = |x: u8| is_ws_spec(x);
            proof {
                lemma_prefix_len_p(after@, pred);
            }
            let mut k: usize = 0;
            #[verifier::loop_isolation(false)]
            while k < after.len() && is_ws(after[k])
                invariant
                    k <= after.len(),
                    forall|j: int| 0 <= j < k as int ==> pred(after@[j]),
                decreases after.len() - k,
            {
                k = k + 1;
            }
            proof {
                let m = prefix_len_p(after@, pred);
                assert(k as int == m) by {
                    if (k as int) < m {
                        assert(pred(after@[k as int]));
                    } else if m < k as int {
                        assert(pred(after@[m]));
                    }
                }
            }
            let t = copy_range(after.as_slice(), k, after.len());
            if t.len() > 0 && (t[0] == 34 || t[0] == 39) {
                let quote = t[0];
                let rest = copy_range(t.as_slice(), 1, t.len());
                proof {
                    assert(rest@ =~= t@.drop_first());
                }
                let needle = if quote == 34 {
                    "\""
                } else {
                    "'"
                };
                match find_sub(rest.as_slice(), needle.as_bytes()) {
                    Some(q) => {
                        proof {
                            lemma_find_spec(rest@, needle.spec_bytes());
                        }
                        let v = copy_range(rest.as_slice(), 0, q);
                        Some(string_from_bytes_lossy(v.as_slice()))
                    },
                    None => None,
                }
            } else {
                None
            }
        },
        None => None,
    }
}

/// The pieces of an absolute URL that the content pipeline uses.
pub struct UrlParts {
    pub scheme: String,
    pub host: Option<String>,
    pub path: String,
    pub query: Option<String>,
}

/// The byte-level view of `UrlParts`.
pub struct UrlPartsView {
    pub scheme: Seq<u8>,
    pub host: Option<Seq<u8>>,
    pub path: Seq<u8>,
    pub query: Option<Seq<u8>>,
}

impl View for UrlParts {
    type V = UrlPartsView;

    open spec fn view(&self) -> UrlPartsView {
        UrlPartsView {
            scheme: encode_utf8(self.scheme@),
            host: match self.host {
                Some(h) => Some(encode_utf8(h@)),
                None => None,
            },
            path: encode_utf8(self.path@),
            query: match self.query {
                Some(q) => Some(encode_utf8(q@)),
                None => None,
            },
        }
    }
}

/// What `url::Url::parse` yields for the given input: its scheme, host, path
/// and query after normalization, or nothing when the input is not a valid
/// absolute URL.
pub uninterp spec fn url_parts_of(s: Seq<u8>) -> Option<UrlPartsView>;

/// Relies on `url::Url::parse` to split an absolute URL into scheme, host,
/// path, and query. The crate serializes every component to ASCII (hosts via
/// IDNA, other components via percent encoding).
#[verifier::external_body]
pub(crate) fn parse_url(s: &str) -> (r: Option<UrlParts>)
    ensures
        match r {
            Some(p) => Some(p@) == url_parts_of(s.spec_bytes()) && is_ascii_bytes(p@.scheme)
                && (p@.host matches Some(h) ==> is_ascii_bytes(h)) && is_ascii_bytes(p@.path)
                && (p@.query matches Some(q) ==> is_ascii_bytes(q)),
            None => url_parts_of(s.spec_bytes()) is None,
        },
{
    match url::Url::parse(s) {
        Ok(u) => Some(UrlParts {
            scheme: u.scheme().to_string(),
            host: u.host_str().map(|h| h.to_string()),
            path: u.path().to_string(),
            query: u.query().map(|q| q.to_string()),
        }),
        Err(_) => None,
    }
}

/// The SHA-1 digest of a byte sequence.
pub uninterp spec fn sha1_of(data: Seq<u8>) -> Seq<u8>;

/// Relies on `sha1::Sha1`: the 20-byte SHA-1 digest of the input.
#[verifier::external_body]
fn sha1_digest(data: &[u8]) -> (r: Vec<u8>)
    ensures
        r@ == sha1_of(data@),
        r@.len() == 20,
{
    let mut hasher = Sha1::new();
    hasher.update(data);
    hasher.finalize().to_vec()
}

/// The nonempty segments of `p`, split on `/`.
pub open spec fn split_segments(p: Seq<u8>) -> Seq<Seq<u8>>
    decreases p.len(),
{
    if p.len() == 0 {
        Seq::empty()
    } else {
        let rest = split_segments(p.drop_first());
        if p[0] == 47 {
            rest
        } else if p.len() == 1 || p[1] == 47 {
            seq![seq![p[0]]] + rest
        } else {
            seq![seq![p[0]] + rest[0]] + rest.drop_first()
        }
    }
}

/// Splitting a sequence that starts with a full segment of length `k` yields
/// that segment followed by the split of the remainder.
proof fn lemma_split_scan(p: Seq<u8>, k: int)
    requires
        0 < k <= p.len(),
        forall|j: int| 0 <= j < k ==> p[j] != 47,
        k < p.len() ==> p[k] == 47,
    ensures
        split_segments(p) == seq![p.subrange(0, k)] + split_segments(p.subrange(k, p.len() as int)),
    decreases k,
{
    let rest = split_segments(p.drop_first());
    if k == 1 {
        if p.len() == 1 {
            assert(p.subrange(0, 1) =~= seq![p[0]]);
            assert(p.subrange(1, p.len() as int) =~= Seq::<u8>::empty());
            assert(split_segments(p) =~= seq![p.subrange(0, 1)] + split_segments(
                p.subrange(1, p.len() as int),
            ));
        } else {
            assert(p[1] == 47);
            assert(p.subrange(0, 1) =~= seq![p[0]]);
            assert(p.drop_first() =~= p.subrange(1, p.len() as int));
            assert(split_segments(p) =~= seq![p.subrange(0, 1)] + split_segments(
                p.subrange(1, p.len() as int),
            ));
        }
    } else {
        let t = p.drop_first();
        lemma_split_scan(t, k - 1);
        assert(t.subrange(0, k - 1) =~= p.subrange(1, k));
        assert(t.subrange(k - 1, t.len() as int) =~= p.subrange(k, p.len() as int));
        assert(p[1] != 47);
        assert(rest == seq![p.subrange(1, k)] + split_segments(p.subrange(k, p.len() as int)));
        assert(rest[0] == p.subrange(1, k));
        assert(seq![p[0]] + rest[0] =~= p.subrange(0, k));
        assert(rest.drop_first() =~= split_segments(p.subrange(k, p.len() as int)));
        assert(split_segments(p) =~= seq![p.subrange(0, k)] + split_segments(
            p.subrange(k, p.len() as int),
        ));
    }
}

/// Each segment, prefixed by `/`, in order.
pub open spec fn join_segments(segs: Seq<Seq<u8>>) -> Seq<u8>
    decreases segs.len(),
{
    if segs.len() == 0 {
        Seq::empty()
    } else {
        seq![47u8] + segs[0] + join_segments(segs.drop_first())
    }
}

proof fn lemma_join_push(segs: Seq<Seq<u8>>, e: Seq<u8>)
    ensures
        join_segments(segs.push(e)) == join_segments(segs) + seq![47u8] + e,
    decreases segs.len(),
{
    let p = segs.push(e);
    if segs.len() == 0 {
        assert(p[0] == e);
        assert(p.drop_first() =~= Seq::<Seq<u8>>::empty());
        assert(join_segments(p) == seq![47u8] + p[0] + join_segments(p.drop_first()));
        assert(join_segments(Seq::<Seq<u8>>::empty()) == Seq::<u8>::empty());
        assert(join_segments(segs) == Seq::<u8>::empty());
        assert(join_segments(p) =~= join_segments(segs) + seq![47u8] + e);
    } else {
        lemma_join_push(segs.drop_first(), e);
        assert(p.drop_first() =~= segs.drop_first().push(e));
        assert(p[0] == segs[0]);
        assert(join_segments(p) == seq![47u8] + p[0] + join_segments(p.drop_first()));
        assert(join_segments(p.drop_first()) == join_segments(segs.drop_first()) + seq![47u8] + e);
        assert(join_segments(segs) == seq![47u8] + segs[0] + join_segments(segs.drop_first()));
        assert(join_segments(p) =~= join_segments(segs) + seq![47u8] + e);
    }
}

/// The suffix that records a query in a file name: `~` and the percent-encoded
/// query when it is short, else `~`, the percent-encoded first 32 bytes,
/// `.~`, and the hex SHA-1 of the remainder.
pub open spec fn spec_query_suffix(q: Seq<u8>) -> Seq<u8> {
    if q.len() <= 32 {
        seq![126u8] + crate::bytetext::pct_bytes(q)
    } else {
        seq![126u8] + crate::bytetext::pct_bytes(q.subrange(0, 32)) + seq![46u8, 126u8]
            + crate::bytetext::hex_bytes(sha1_of(q.subrange(32, q.len() as int)))
    }
}

/// Insert `ins` before the extension of `name` (the part from the last `.`),
/// or append it when there is none.
pub open spec fn spec_insert_before_ext(name: Seq<u8>, ins: Seq<u8>) -> Seq<u8> {
    match crate::bytetext::rfind_spec(name, 46) {
        Some(d) => name.subrange(0, d) + ins + name.subrange(d, name.len() as int),
        None => name + ins,
    }
}

/// The last path component of the generated file path, before any query
/// suffix: `index.html` for an empty or trailing-slash path, else the last
/// nonempty segment.
pub open spec fn spec_last_component(path: Seq<u8>) -> Seq<u8> {
    let segs = split_segments(path);
    if segs.len() == 0 || (path.len() > 0 && path.last() == 47) {
        "index.html".spec_bytes()
    } else {
        segs.last()
    }
}

/// The content file path for a recorded `(method, URL)` pair, as bytes:
/// `method/scheme/host` lower-cased on the method, then the URL's nonempty
/// path segments, `index.html` for empty or trailing-slash paths, and a query
/// suffix folded into the final file name.
pub open spec fn spec_file_path(
    method: Seq<u8>,
    scheme: Seq<u8>,
    host: Seq<u8>,
    path: Seq<u8>,
    query: Option<Seq<u8>>,
) -> Seq<u8> {
    let base = lower_bytes(method) + seq![47u8] + scheme + seq![47u8] + host;
    let segs = split_segments(path);
    if segs.len() == 0 {
        base + seq![47u8] + "index.html".spec_bytes()
    } else {
        let trail = path.len() > 0 && path.last() == 47;
        let front = if trail {
            join_segments(segs)
        } else {
            join_segments(segs.drop_last())
        };
        let lastc = spec_last_component(path);
        let suffixed = match query {
            Some(q) => if q.len() > 0 {
                spec_insert_before_ext(lastc, spec_query_suffix(q))
            } else {
                lastc
            },
            None => lastc,
        };
        base + front + seq![47u8] + suffixed
    }
}

/// The URL's host, or `localhost` when it has none.
pub open spec fn host_or_default(h: Option<Seq<u8>>) -> Seq<u8> {
    match h {
        Some(x) => x,
        None => "localhost".spec_bytes(),
    }
}

/// Why a file path could not be generated.
#[derive(Debug, Clone, PartialEq, Eq)]
pub enum UrlError {
    /// The URL did not parse as an absolute URL.
    Parse,
}

/// Collect the nonempty `/`-separated segments of `path`.
#[verifier::loop_isolation(false)]
fn split_path_segments(path: &[u8]) -> (r: Vec<Vec<u8>>)
    ensures
        r@.map_values(|v: Vec<u8>| v@) == split_segments(path@),
{
    let mut segs: Vec<Vec<u8>> = Vec::new();
    let mut i: usize = 0;
    proof {
        assert(path@.subrange(0, path@.len() as int) =~= path@);
        assert(segs@.map_values(|v: Vec<u8>| v@) =~= Seq::<Seq<u8>>::empty());
    }
    while i < path.len()
        invariant
            i <= path.len(),
            split_segments(path@) == segs@.map_values(|v: Vec<u8>| v@) + split_segments(
                path@.subrange(i as int, path@.len() as int),
            ),
        decreases path.len() - i,
    {
        let ghost rest = path@.subrange(i as int, path@.len() as int);
        if path[i] == 47 {
            proof {
                assert(rest.drop_first() =~= path@.subrange(i as int + 1, path@.len() as int));
            }
            i = i + 1;
        } else {
            let mut j: usize = i + 1;
            while j < path.len() && path[j] != 47
                invariant
                    i < j <= path.len(),
                    forall|m: int| i as int <= m < j as int ==> path@[m] != 47,
                decreases path.len() - j,
            {
                j = j + 1;
            }
            let seg = copy_range(path, i, j);
            proof {
                let k = j as int - i as int;
                assert(forall|m: int| 0 <= m < k ==> rest[m] == path@[m + i as int]);
                lemma_split_scan(rest, k);
                assert(rest.subrange(0, k) =~= seg@);
                assert(rest.subrange(k, rest.len() as int) =~= path@.subrange(
                    j as int,
                    path@.len() as int,
                ));
                assert(segs@.push(seg).map_values(|v: Vec<u8>| v@) =~= segs@.map_values(
                    |v: Vec<u8>| v@,
                ).push(seg@));
                assert(segs@.map_values(|v: Vec<u8>| v@) + seq![seg@] + split_segments(
                    path@.subrange(j as int, path@.len() as int),
                ) =~= segs@.map_values(|v: Vec<u8>| v@).push(seg@) + split_segments(
                    path@.subrange(j as int, path@.len() as int),
                ));
            }
            segs.push(seg);
            i = j;
        }
    }
    proof {
        assert(path@.subrange(i as int, path@.len() as int) =~= Seq::<u8>::empty());
        assert(segs@.map_values(|v: Vec<u8>| v@) + Seq::<Seq<u8>>::empty() =~= segs@.map_values(
            |v: Vec<u8>| v@,
        ));
    }
    segs
}

/// Append `ins` into `name` before its extension, and push the result.
#[verifier::loop_isolation(false)]
fn push_with_insert(out: &mut Vec<u8>, name: &[u8], ins: &[u8])
    ensures
        final(out)@ == old(out)@ + spec_insert_before_ext(name@, ins@),
{
    proof {
        crate::bytetext::lemma_rfind_spec(name@, 46);
    }
    match crate::bytetext::rfind_byte(name, 46) {
        Some(d) => {
            let head = copy_range(name, 0, d);
            let tail = copy_range(name, d, name.len());
            crate::bytetext::push_all(out, head.as_slice());
            crate::bytetext::push_all(out, ins);
            crate::bytetext::push_all(out, tail.as_slice());
            proof {
                assert(out@ =~= old(out)@ + spec_insert_before_ext(name@, ins@));
            }
        },
        None => {
            crate::bytetext::push_all(out, name);
            crate::bytetext::push_all(out, ins);
            proof {
                assert(out@ =~= old(out)@ + spec_insert_before_ext(name@, ins@));
            }
        },
    }
}

/// Build the query suffix bytes for `q`.
fn query_suffix(q: &[u8]) -> (r: Vec<u8>)
    ensures
        r@ == spec_query_suffix(q@),
{
    let mut out: Vec<u8> = Vec::new();
    out.push(126);
    if q.len() <= 32 {
        let enc = crate::bytetext::percent_encode(q);
        crate::bytetext::push_all(&mut out, enc.as_slice());
        proof {
            assert(out@ =~= spec_query_suffix(q@));
        }
    } else {
        let first = copy_range(q, 0, 32);
        let rest = copy_range(q, 32, q.len());
        let enc = crate::bytetext::percent_encode(first.as_slice());
        crate::bytetext::push_all(&mut out, enc.as_slice());
        out.push(46);
        out.push(126);
        let digest = sha1_digest(rest.as_slice());
        let hx = crate::bytetext::hex_encode(digest.as_slice());
        crate::bytetext::push_all(&mut out, hx.as_slice());
        proof {
            assert(out@ =~= spec_query_suffix(q@));
        }
    }
    out
}

/// Generate the content file path for a `(method, URL)` pair: a relative path
/// `method/scheme/host/...` whose shape follows the URL's path and query.
/// Fails exactly when the URL does not parse.
#[verifier::loop_isolation(false)]
pub fn generate_file_path_from_url(url: &str, method: &str) -> (r: Result<String, UrlError>)
    ensures
        match r {
            Ok(s) => url_parts_of(url.spec_bytes()) matches Some(p) && s@
                == crate::bytetext::lossy_of(
                spec_file_path(
                    method.spec_bytes(),
                    p.scheme,
                    host_or_default(p.host),
                    p.path,
                    p.query,
                ),
            ) && (is_ascii_bytes(method.spec_bytes()) ==> encode_utf8(s@) == spec_file_path(
                method.spec_bytes(),
                p.scheme,
                host_or_default(p.host),
                p.path,
                p.query,
            )),
            Err(e) => url_parts_of(url.spec_bytes()) is None && e == UrlError::Parse,
        },
{
    let parts = match parse_url(url) {
        Some(p) => p,
        None => {
            return Err(UrlError::Parse);
        },
    };
    let ghost mb = method.spec_bytes();
    let ghost hostb = host_or_default(parts@.host);
    let ghost pathb = parts@.path;
    let ghost full = spec_file_path(mb, parts@.scheme, hostb, pathb, parts@.query);

    let mut out: Vec<u8> = Vec::new();
    let lowered = to_lower_bytes(method.as_bytes());
    crate::bytetext::push_all(&mut out, lowered.as_slice());
    out.push(47);
    crate::bytetext::push_all(&mut out, parts.scheme.as_str().as_bytes());
    out.push(47);
    match &parts.host {
        Some(h) => {
            crate::bytetext::push_all(&mut out, h.as_str().as_bytes());
        },
        None => {
            crate::bytetext::push_all(&mut out, "localhost".as_bytes());
        },
    }
    let ghost base = lower_bytes(mb) + seq![47u8] + parts@.scheme + seq![47u8] + hostb;
    proof {
        assert(out@ =~= base);
    }

    let path_bytes = parts.path.as_str().as_bytes();
    let segs = split_path_segments(path_bytes);
    let ghost segviews = segs@.map_values(|v: Vec<u8>| v@);

    if segs.len() == 0 {
        out.push(47);
        crate::bytetext::push_all(&mut out, "index.html".as_bytes());
        proof {
            assert(out@ =~= base + seq![47u8] + "index.html".spec_bytes());
            assert(full == base + seq![47u8] + "index.html".spec_bytes());
        }
        let s = string_from_bytes_lossy(out.as_slice());
        proof {
            if is_ascii_bytes(mb) {
                lemma_lower_ascii(mb);
                lemma_ascii_file_path(out@, mb, parts@, hostb);
            }
        }
        return Ok(s);
    }

    let trail = path_bytes.len() > 0 && path_bytes[path_bytes.len() - 1] == 47;
    let upto = if trail {
        segs.len()
    } else {
        segs.len() - 1
    };
    let mut k: usize = 0;
    proof {
        assert(join_segments(segviews.subrange(0, 0)) =~= Seq::<u8>::empty());
        assert(out@ =~= base + join_segments(segviews.subrange(0, 0)));
    }
    while k < upto
        invariant
            upto <= segs.len(),
            k <= upto,
            segviews == segs@.map_values(|v: Vec<u8>| v@),
            out@ == base + join_segments(segviews.subrange(0, k as int)),
        decreases upto - k,
    {
        out.push(47);
        crate::bytetext::push_all(&mut out, segs[k].as_slice());
        proof {
            lemma_join_push(segviews.subrange(0, k as int), segviews[k as int]);
            assert(segviews.subrange(0, k as int).push(segviews[k as int]) =~= segviews.subrange(
                0,
                k as int + 1,
            ));
            assert(out@ =~= base + join_segments(segviews.subrange(0, k as int + 1)));
        }
        k = k + 1;
    }
    let ghost front = if trail {
        join_segments(segviews)
    } else {
        join_segments(segviews.drop_last())
    };
    proof {
        if trail {
            assert(segviews.subrange(0, upto as int) =~= segviews);
        } else {
            assert(segviews.subrange(0, upto as int) =~= segviews.drop_last());
        }
    }
    out.push(47);
    proof {
        assert(out@ =~= base + front + seq![47u8]);
    }

    let lastc: Vec<u8> = if trail {
        let mut v: Vec<u8> = Vec::new();
        crate::bytetext::push_all(&mut v, "index.html".as_bytes());
        v
    } else {
        let mut v: Vec<u8> = Vec::new();
        crate::bytetext::push_all(&mut v, segs[segs.len() - 1].as_slice());
        v
    };
    proof {
        if !trail {
            assert(segviews.last() == segs@[segs@.len() - 1]@);
        }
        assert(lastc@ == spec_last_component(pathb));
    }

    let has_query = match &parts.query {
        Some(q) => q.as_str().as_bytes().len() > 0,
        None => false,
    };
    let ghost suffixed_spec: Seq<u8> = match parts@.query {
        Some(q) => if q.len() > 0 {
            spec_insert_before_ext(lastc@, spec_query_suffix(q))
        } else {
            lastc@
        },
        None => lastc@,
    };
    if has_query {
        let q = match &parts.query {
            Some(q) => q.as_str(),
            None => "",
        };
        proof {
            assert(parts@.query matches Some(qb) && qb == q.spec_bytes());
        }
        let ins = query_suffix(q.as_bytes());
        proof {
            assert(ins@ == spec_query_suffix(q.spec_bytes()));
            assert(suffixed_spec == spec_insert_before_ext(lastc@, ins@));
        }
        push_with_insert(&mut out, lastc.as_slice(), ins.as_slice());
    } else {
        crate::bytetext::push_all(&mut out, lastc.as_slice());
    }
    proof {
        assert(out@ =~= base + front + seq![47u8] + suffixed_spec);
        assert(full == base + front + seq![47u8] + suffixed_spec);
    }
    let s = string_from_bytes_lossy(out.as_slice());
    proof {
        if is_ascii_bytes(mb) {
            lemma_lower_ascii(mb);
            lemma_ascii_file_path(out@, mb, parts@, hostb);
        }
    }
    Ok(s)
}

/// ASCII lower-casing keeps a sequence ASCII.
proof fn lemma_lower_ascii(s: Seq<u8>)
    ensures
        is_ascii_bytes(s) ==> is_ascii_bytes(lower_bytes(s)),
{
}

/// Concatenation preserves ASCII-ness.
proof fn lemma_ascii_concat(a: Seq<u8>, b: Seq<u8>)
    requires
        is_ascii_bytes(a),
        is_ascii_bytes(b),
    ensures
        is_ascii_bytes(a + b),
{
    assert forall|i: int| 0 <= i < (a + b).len() implies (a + b)[i] < 128 by {
        if i < a.len() {
            assert((a + b)[i] == a[i]);
        } else {
            assert((a + b)[i] == b[i - a.len()]);
        }
    }
}

/// A subrange of an ASCII sequence is ASCII.
proof fn lemma_ascii_subrange(s: Seq<u8>, a: int, b: int)
    requires
        is_ascii_bytes(s),
        0 <= a <= b <= s.len(),
    ensures
        is_ascii_bytes(s.subrange(a, b)),
{
}

/// The bytes of an ASCII string literal are ASCII.
proof fn lemma_strlit_ascii(s: &str)
    requires
        vstd::string::is_ascii(s),
    ensures
        is_ascii_bytes(s.spec_bytes()),
{
    is_ascii_chars_encode_utf8(s@);
    assert forall|i: int| 0 <= i < s.spec_bytes().len() implies s.spec_bytes()[i] < 128 by {
        assert(s.spec_bytes()[i] == s@[i] as u8);
        assert(s@[i] <= '\u{7f}');
    }
}

/// Splitting an ASCII path yields ASCII segments.
proof fn lemma_split_ascii(p: Seq<u8>)
    requires
        is_ascii_bytes(p),
    ensures
        forall|i: int|
            0 <= i < split_segments(p).len() ==> #[trigger] is_ascii_bytes(split_segments(p)[i]),
    decreases p.len(),
{
    if p.len() == 0 {
    } else {
        assert(is_ascii_bytes(p.drop_first()));
        lemma_split_ascii(p.drop_first());
        let rest = split_segments(p.drop_first());
        if p[0] == 47 {
        } else if p.len() == 1 || p[1] == 47 {
            assert(is_ascii_bytes(seq![p[0]]));
            assert forall|i: int| 0 <= i < split_segments(p).len() implies #[trigger]
                is_ascii_bytes(split_segments(p)[i]) by {
                if i > 0 {
                    assert(split_segments(p)[i] == rest[i - 1]);
                }
            }
        } else {
            lemma_ascii_concat(seq![p[0]], rest[0]);
            assert forall|i: int| 0 <= i < split_segments(p).len() implies #[trigger]
                is_ascii_bytes(split_segments(p)[i]) by {
                if i > 0 {
                    assert(split_segments(p)[i] == rest.drop_first()[i - 1]);
                    assert(rest.drop_first()[i - 1] == rest[i]);
                }
            }
        }
    }
}

/// Joining ASCII segments yields ASCII bytes.
proof fn lemma_join_ascii(segs: Seq<Seq<u8>>)
    requires
        forall|i: int| 0 <= i < segs.len() ==> #[trigger] is_ascii_bytes(segs[i]),
    ensures
        is_ascii_bytes(join_segments(segs)),
    decreases segs.len(),
{
    if segs.len() == 0 {
    } else {
        assert forall|i: int|
            0 <= i < segs.drop_first().len() implies #[trigger] is_ascii_bytes(
            segs.drop_first()[i],
        ) by {
            assert(segs.drop_first()[i] == segs[i + 1]);
        }
        lemma_join_ascii(segs.drop_first());
        lemma_ascii_concat(seq![47u8], segs[0]);
        lemma_ascii_concat(seq![47u8] + segs[0], join_segments(segs.drop_first()));
    }
}

/// Percent encoding yields ASCII bytes.
proof fn lemma_pct_ascii(q: Seq<u8>)
    ensures
        is_ascii_bytes(crate::bytetext::pct_bytes(q)),
    decreases q.len(),
{
    if q.len() == 0 {
    } else {
        lemma_pct_ascii(q.drop_first());
        assert(is_ascii_bytes(crate::bytetext::pct_byte(q[0])));
        lemma_ascii_concat(
            crate::bytetext::pct_byte(q[0]),
            crate::bytetext::pct_bytes(q.drop_first()),
        );
    }
}

/// Hex encoding yields ASCII bytes.
proof fn lemma_hex_ascii(s: Seq<u8>)
    ensures
        is_ascii_bytes(crate::bytetext::hex_bytes(s)),
{
}

/// The query suffix is ASCII.
proof fn lemma_query_suffix_ascii(q: Seq<u8>)
    ensures
        is_ascii_bytes(spec_query_suffix(q)),
{
    if q.len() <= 32 {
        lemma_pct_ascii(q);
        lemma_ascii_concat(seq![126u8], crate::bytetext::pct_bytes(q));
    } else {
        lemma_pct_ascii(q.subrange(0, 32));
        lemma_hex_ascii(sha1_of(q.subrange(32, q.len() as int)));
        lemma_ascii_concat(seq![126u8], crate::bytetext::pct_bytes(q.subrange(0, 32)));
        lemma_ascii_concat(
            seq![126u8] + crate::bytetext::pct_bytes(q.subrange(0, 32)),
            seq![46u8, 126u8],
        );
        lemma_ascii_concat(
            seq![126u8] + crate::bytetext::pct_bytes(q.subrange(0, 32)) + seq![46u8, 126u8],
            crate::bytetext::hex_bytes(sha1_of(q.subrange(32, q.len() as int))),
        );
    }
}

/// When the method is ASCII, the whole generated path is ASCII, so it is
/// valid UTF-8 and survives the byte-to-string conversion unchanged.
proof fn lemma_ascii_file_path(
    outb: Seq<u8>,
    mb: Seq<u8>,
    parts: UrlPartsView,
    hostb: Seq<u8>,
)
    requires
        is_ascii_bytes(mb),
        is_ascii_bytes(parts.scheme),
        parts.host matches Some(h) ==> is_ascii_bytes(h),
        is_ascii_bytes(parts.path),
        parts.query matches Some(q) ==> is_ascii_bytes(q),
        hostb == host_or_default(parts.host),
        outb == spec_file_path(mb, parts.scheme, hostb, parts.path, parts.query),
    ensures
        valid_utf8(outb),
{
    reveal_strlit("localhost");
    reveal_strlit("index.html");
    lemma_strlit_ascii("localhost");
    lemma_strlit_ascii("index.html");
    assert(is_ascii_bytes(hostb));
    lemma_lower_ascii(mb);
    let base = lower_bytes(mb) + seq![47u8] + parts.scheme + seq![47u8] + hostb;
    lemma_ascii_concat(lower_bytes(mb), seq![47u8]);
    lemma_ascii_concat(lower_bytes(mb) + seq![47u8], parts.scheme);
    lemma_ascii_concat(lower_bytes(mb) + seq![47u8] + parts.scheme, seq![47u8]);
    lemma_ascii_concat(lower_bytes(mb) + seq![47u8] + parts.scheme + seq![47u8], hostb);
    let segs = split_segments(parts.path);
    lemma_split_ascii(parts.path);
    if segs.len() == 0 {
        lemma_ascii_concat(base, seq![47u8]);
        lemma_ascii_concat(base + seq![47u8], "index.html".spec_bytes());
    } else {
        let trail = parts.path.len() > 0 && parts.path.last() == 47;
        let front = if trail {
            join_segments(segs)
        } else {
            join_segments(segs.drop_last())
        };
        if trail {
            lemma_join_ascii(segs);
        } else {
            assert forall|i: int|
                0 <= i < segs.drop_last().len() implies #[trigger] is_ascii_bytes(
                segs.drop_last()[i],
            ) by {
                assert(segs.drop_last()[i] == segs[i]);
            }
            lemma_join_ascii(segs.drop_last());
        }
        let lastc = spec_last_component(parts.path);
        assert(is_ascii_bytes(lastc));
        let suffixed = match parts.query {
            Some(q) => if q.len() > 0 {
                spec_insert_before_ext(lastc, spec_query_suffix(q))
            } else {
                lastc
            },
            None => lastc,
        };
        assert(is_ascii_bytes(suffixed)) by {
            match parts.query {
                Some(q) => {
                    if q.len() > 0 {
                        lemma_query_suffix_ascii(q);
                        crate::bytetext::lemma_rfind_spec(lastc, 46);
                        match crate::bytetext::rfind_spec(lastc, 46) {
                            Some(d) => {
                                lemma_ascii_subrange(lastc, 0, d);
                                lemma_ascii_subrange(lastc, d, lastc.len() as int);
                                lemma_ascii_concat(lastc.subrange(0, d), spec_query_suffix(q));
                                lemma_ascii_concat(
                                    lastc.subrange(0, d) + spec_query_suffix(q),
                                    lastc.subrange(d, lastc.len() as int),
                                );
                            },
                            None => {
                                lemma_ascii_concat(lastc, spec_query_suffix(q));
                            },
                        }
                    }
                },
                None => {},
            }
        }
        lemma_ascii_concat(base, front);
        lemma_ascii_concat(base + front, seq![47u8]);
        lemma_ascii_concat(base + front + seq![47u8], suffixed);
    }
    crate::bytetext::lemma_ascii_bytes_valid_utf8(outb);
}

} // verus!
