//! Playback-side materialization: minification, the chunk schedule, body
//! re-encoding and re-compression, and the assembly of a `Transaction` from a
//! recorded `Resource`.

use crate::bytetext::{
    bytes_eq, copy_range, dec_chars, is_ws_spec, push_all, trim_p, trim_ws_bytes, u64_to_string,
};
use crate::codec::{
    b64_decode, b64_decode_of, brotli_compress, deflate_compress, encode_with_label, encoded_as,
    encoding_name_for_label, encoding_name_of_label, gunzip_of, gzip_compress, inflate_of,
    str_from_utf8, unbr_of,
};
use crate::traits::FileSystem;
use crate::types::{
    BodyChunk, ContentEncodingType, HeaderValue, HttpHeaders, Inventory, PipelineError, Resource,
    Transaction,
};
use vstd::prelude::*;
use vstd::string::StringSliceAdditionalSpecFns;
use vstd::utf8::{decode_utf8, encode_utf8, valid_utf8};

verus! {

/// The whitespace-collapsing HTML minifier: whitespace inside tags is kept,
/// runs of whitespace in text collapse to one space, and everything else
/// passes through. `in_tag` and `prev_space` carry the scanner's state.
pub open spec fn spec_minify_html(s: Seq<u8>, in_tag: bool, prev_space: bool) -> Seq<u8>
    decreases s.len(),
{
    if s.len() == 0 {
        Seq::empty()
    } else {
        let b = s[0];
        if b == 60 {
            seq![b] + spec_minify_html(s.drop_first(), true, false)
        } else if b == 62 {
            seq![b] + spec_minify_html(s.drop_first(), false, false)
        } else if b == 10 || b == 13 || b == 9 || b == 32 {
            if in_tag {
                seq![b] + spec_minify_html(s.drop_first(), in_tag, prev_space)
            } else if !prev_space {
                seq![32u8] + spec_minify_html(s.drop_first(), in_tag, true)
            } else {
                spec_minify_html(s.drop_first(), in_tag, prev_space)
            }
        } else {
            seq![b] + spec_minify_html(s.drop_first(), in_tag, false)
        }
    }
}

/// The lines of `s`, split on line feeds; a sequence with no line feed is one
/// line, and every line feed starts a new line.
pub open spec fn split_on_nl(s: Seq<u8>) -> Seq<Seq<u8>>
    decreases s.len(),
{
    if s.len() == 0 {
        seq![Seq::empty()]
    } else {
        let rest = split_on_nl(s.drop_first());
        if s[0] == 10 {
            seq![Seq::empty()] + rest
        } else {
            seq![seq![s[0]] + rest[0]] + rest.drop_first()
        }
    }
}

/// Whether a trimmed line survives minification: it must be nonempty, and for
/// JavaScript it must not be a `//` comment line.
pub open spec fn spec_keep_line(t: Seq<u8>, drop_comments: bool) -> bool {
    t.len() > 0 && (!drop_comments || !(t.len() >= 2 && t[0] == 47 && t[1] == 47))
}

/// Concatenation of the trimmed lines that survive minification.
pub open spec fn spec_join_minified(lines: Seq<Seq<u8>>, drop_comments: bool) -> Seq<u8>
    decreases lines.len(),
{
    if lines.len() == 0 {
        Seq::empty()
    } else {
        let t = trim_p(lines[0], |x: u8| is_ws_spec(x));
        (if spec_keep_line(t, drop_comments) {
            t
        } else {
            Seq::empty()
        }) + spec_join_minified(lines.drop_first(), drop_comments)
    }
}

/// The bytes of an optional string.
pub open spec fn opt_str_bytes(o: Option<String>) -> Option<Seq<u8>> {
    match o {
        Some(s) => Some(encode_utf8(s@)),
        None => None,
    }
}

/// What minification produces for a body of the given MIME type: collapsed
/// whitespace for HTML, joined trimmed lines for CSS, the same without `//`
/// comment lines for JavaScript, and the body unchanged otherwise.
pub open spec fn spec_minify(content: Seq<u8>, mime: Option<Seq<u8>>) -> Seq<u8> {
    if mime == Some("text/html".spec_bytes()) {
        spec_minify_html(content, false, false)
    } else if mime == Some("text/css".spec_bytes()) {
        spec_join_minified(split_on_nl(content), false)
    } else if mime == Some("application/javascript".spec_bytes()) || mime == Some(
        "text/javascript".spec_bytes(),
    ) {
        spec_join_minified(split_on_nl(content), true)
    } else {
        content
    }
}

/// `split_on_nl` yields at least one line.
pub proof fn lemma_split_on_nl_len(s: Seq<u8>)
    ensures
        split_on_nl(s).len() >= 1,
    decreases s.len(),
{
    if s.len() > 0 {
        lemma_split_on_nl_len(s.drop_first());
    }
}

/// A sequence beginning with `k` non-line-feed bytes splits into that line
/// and the split of what follows the line feed; with no line feed at all it
/// is a single line.
pub proof fn lemma_nl_scan(s: Seq<u8>, k: int)
    requires
        0 <= k <= s.len(),
        forall|j: int| 0 <= j < k ==> s[j] != 10,
        k < s.len() ==> s[k] == 10,
    ensures
        k < s.len() ==> split_on_nl(s) == seq![s.subrange(0, k)] + split_on_nl(
            s.subrange(k + 1, s.len() as int),
        ),
        k == s.len() ==> split_on_nl(s) == seq![s],
    decreases k,
{
    lemma_split_on_nl_len(s);
    if s.len() == 0 {
        assert(s =~= Seq::<u8>::empty());
        assert(split_on_nl(s) == seq![Seq::<u8>::empty()]);
        assert(split_on_nl(s) =~= seq![s]);
    } else if k == 0 {
        if s[0] == 10 {
            assert(s.subrange(0, 0) =~= Seq::<u8>::empty());
            assert(s.drop_first() =~= s.subrange(1, s.len() as int));
        }
    } else {
        let t = s.drop_first();
        lemma_split_on_nl_len(t);
        assert(forall|j: int| 0 <= j < k - 1 ==> t[j] != 10);
        lemma_nl_scan(t, k - 1);
        let rest = split_on_nl(t);
        if k < s.len() {
            assert(t.subrange(0, k - 1) =~= s.subrange(1, k));
            assert(t.subrange(k, t.len() as int) =~= s.subrange(k + 1, s.len() as int));
            assert(rest == seq![s.subrange(1, k)] + split_on_nl(s.subrange(k + 1, s.len() as int)));
            assert(rest[0] == s.subrange(1, k));
            assert(seq![s[0]] + rest[0] =~= s.subrange(0, k));
            assert(rest.drop_first() =~= split_on_nl(s.subrange(k + 1, s.len() as int)));
            assert(split_on_nl(s) =~= seq![s.subrange(0, k)] + split_on_nl(
                s.subrange(k + 1, s.len() as int),
            ));
        } else {
            assert(rest == seq![t]);
            assert(rest[0] == t);
            assert(seq![s[0]] + t =~= s);
            assert(rest.drop_first() =~= Seq::<Seq<u8>>::empty());
            assert(split_on_nl(s) =~= seq![s]);
        }
    }
}

/// Collapse whitespace in an HTML body.
#[verifier::loop_isolation(false)]
fn minify_html(content: &[u8]) -> (r: Vec<u8>)
    ensures
        r@ == spec_minify_html(content@, false, false),
{
    let mut out: Vec<u8> = Vec::new();
    let mut in_tag = false;
    let mut prev_space = false;
    let mut i: usize = 0;
    proof {
        assert(content@.subrange(0, content@.len() as int) =~= content@);
        assert(Seq::<u8>::empty() + spec_minify_html(content@, false, false) =~= spec_minify_html(
            content@,
            false,
            false,
        ));
    }
    while i < content.len()
        invariant
            i <= content.len(),
            spec_minify_html(content@, false, false) == out@ + spec_minify_html(
                content@.subrange(i as int, content@.len() as int),
                in_tag,
                prev_space,
            ),
        decreases content.len() - i,
    {
        let ghost rest = content@.subrange(i as int, content@.len() as int);
        proof {
            assert(rest.drop_first() =~= content@.subrange(i as int + 1, content@.len() as int));
        }
        let b = content[i];
        if b == 60 {
            out.push(b);
            in_tag = true;
            prev_space = false;
        } else if b == 62 {
            out.push(b);
            in_tag = false;
            prev_space = false;
        } else if b == 10 || b == 13 || b == 9 || b == 32 {
            if in_tag {
                out.push(b);
            } else if !prev_space {
                out.push(32);
                prev_space = true;
            }
        } else {
            out.push(b);
            prev_space = false;
        }
        i = i + 1;
    }
    proof {
        assert(content@.subrange(i as int, content@.len() as int) =~= Seq::<u8>::empty());
        assert(out@ =~= spec_minify_html(content@, false, false));
    }
    out
}

/// Join the trimmed, surviving lines of a CSS or JavaScript body.
#[verifier::loop_isolation(false)]
fn minify_lines(content: &[u8], drop_comments: bool) -> (r: Vec<u8>)
    ensures
        r@ == spec_join_minified(split_on_nl(content@), drop_comments),
{
    let mut out: Vec<u8> = Vec::new();
    let mut i: usize = 0;
    let mut done = false;
    proof {
        assert(content@.subrange(0, content@.len() as int) =~= content@);
        assert(Seq::<u8>::empty() + spec_join_minified(split_on_nl(content@), drop_comments)
            =~= spec_join_minified(split_on_nl(content@), drop_comments));
    }
    while !done
        invariant
            i <= content.len(),
            !done ==> spec_join_minified(split_on_nl(content@), drop_comments) == out@
                + spec_join_minified(
                split_on_nl(content@.subrange(i as int, content@.len() as int)),
                drop_comments,
            ),
            done ==> out@ == spec_join_minified(split_on_nl(content@), drop_comments),
        decreases content.len() - i + (if done { 0int } else { 1int }),
    {
        let ghost rest = content@.subrange(i as int, content@.len() as int);
        let mut j: usize = i;
        while j < content.len() && content[j] != 10
            invariant
                i <= j <= content.len(),
                forall|m: int| i as int <= m < j as int ==> content@[m] != 10,
            decreases content.len() - j,
        {
            j = j + 1;
        }
        let line = copy_range(content, i, j);
        let t = trim_ws_bytes(line.as_slice());
        let keep = if t.len() == 0 {
            false
        } else if drop_comments && t.len() >= 2 && t[0] == 47 && t[1] == 47 {
            false
        } else {
            true
        };
        proof {
            let k = j as int - i as int;
            assert(forall|m: int| 0 <= m < k ==> rest[m] == content@[m + i as int]);
            lemma_nl_scan(rest, k);
            assert(rest.subrange(0, k) =~= line@);
            assert(keep == spec_keep_line(
                trim_p(line@, |x: u8| is_ws_spec(x)),
                drop_comments,
            ));
        }
        if keep {
            push_all(&mut out, t.as_slice());
        }
        if j == content.len() {
            proof {
                assert(rest.len() == j as int - i as int);
                assert(split_on_nl(rest) == seq![line@]);
                assert(split_on_nl(rest).drop_first() =~= Seq::<Seq<u8>>::empty());
                assert(spec_join_minified(Seq::<Seq<u8>>::empty(), drop_comments)
                    == Seq::<u8>::empty());
                assert(out@ =~= spec_join_minified(split_on_nl(content@), drop_comments));
            }
            done = true;
        } else {
            proof {
                assert(rest.subrange(j as int - i as int + 1, rest.len() as int) =~= content@
                    .subrange(j as int + 1, content@.len() as int));
                assert(split_on_nl(rest) == seq![line@] + split_on_nl(
                    content@.subrange(j as int + 1, content@.len() as int),
                ));
                assert(split_on_nl(rest).drop_first() =~= split_on_nl(
                    content@.subrange(j as int + 1, content@.len() as int),
                ));
                assert(split_on_nl(rest)[0] == line@);
            }
            i = j + 1;
        }
    }
    out
}

/// Minify a body according to its MIME type. This never fails; the `Result`
/// mirrors the pipeline's interface.
pub fn minify_content(content: &[u8], mime_type: &Option<String>) -> (r: Result<
    Vec<u8>,
    PipelineError,
>)
    ensures
        r matches Ok(v) && v@ == spec_minify(content@, opt_str_bytes(*mime_type)),
{
    match mime_type {
        Some(m) => {
            let mb = m.as_str().as_bytes();
            if bytes_eq(mb, "text/html".as_bytes()) {
                Ok(minify_html(content))
            } else if bytes_eq(mb, "text/css".as_bytes()) {
                Ok(minify_lines(content, false))
            } else if bytes_eq(mb, "application/javascript".as_bytes()) || bytes_eq(
                mb,
                "text/javascript".as_bytes(),
            ) {
                Ok(minify_lines(content, true))
            } else {
                let mut v: Vec<u8> = Vec::new();
                push_all(&mut v, content);
                proof {
                    assert(v@ =~= content@);
                }
                Ok(v)
            }
        },
        None => {
            let mut v: Vec<u8> = Vec::new();
            push_all(&mut v, content);
            proof {
                assert(v@ =~= content@);
            }
            Ok(v)
        },
    }
}

/// The transfer duration for a body of `total` bytes: the recorded
/// `downloadEndMs - ttfbMs` when present, else a duration derived from the
/// recorded throughput (defaulting to 1 Mbit/s), with a floor of 1 ms.
pub open spec fn spec_transfer_duration(r: Resource, total: nat) -> int {
    let base: int = match r.download_end_ms {
        Some(d) => if d >= r.ttfb_ms {
            d - r.ttfb_ms
        } else {
            0
        },
        None => {
            let kbps: int = match r.mbps_x1000 {
                Some(m) => m as int,
                None => 1000,
            };
            if kbps == 0 {
                u64::MAX as int
            } else {
                let t = 8 * total as int / kbps;
                if t > u64::MAX as int {
                    u64::MAX as int
                } else {
                    t
                }
            }
        },
    };
    if base < 1 {
        1
    } else {
        base
    }
}

/// Compute the transfer duration in milliseconds.
fn transfer_duration(resource: &Resource, total: usize) -> (t: u64)
    ensures
        t as int == spec_transfer_duration(*resource, total as nat),
        t >= 1,
{
    let base: u64 = match resource.download_end_ms {
        Some(d) => if d >= resource.ttfb_ms {
            d - resource.ttfb_ms
        } else {
            0
        },
        None => {
            let kbps: u64 = match resource.mbps_x1000 {
                Some(m) => m,
                None => 1000,
            };
            if kbps == 0 {
                u64::MAX
            } else {
                let t128: u128 = 8u128 * (total as u128) / (kbps as u128);
                if t128 > u64::MAX as u128 {
                    u64::MAX
                } else {
                    t128 as u64
                }
            }
        },
    };
    if base < 1 {
        1
    } else {
        base
    }
}

/// Split a wire body into 64 KiB chunks and schedule each chunk's emission
/// time in proportion to the bytes sent before it, over the recorded transfer
/// duration. Returns the chunks and the target close offset. This never
/// fails; the `Result` mirrors the pipeline's interface.
///
/// The contract carries the scheduling laws: the chunks concatenate back to
/// exactly the input body; target times start at zero, never decrease, and
/// never pass the close offset.
#[verifier::loop_isolation(false)]
pub fn create_chunks(content: &[u8], resource: &Resource) -> (r: Result<
    (Vec<BodyChunk>, u64),
    PipelineError,
>)
    ensures
        r matches Ok(p) && {
            let chunks = p.0;
            let close = p.1;
            let cs = chunks@.map_values(|c: BodyChunk| c.chunk@);
            &&& cs.flatten() == content@
            &&& (content@.len() == 0 ==> chunks@.len() == 0 && close == 0)
            &&& (content@.len() > 0 ==> close as int == spec_transfer_duration(
                *resource,
                content@.len(),
            ))
            &&& (chunks@.len() > 0 ==> chunks@[0].target_time == 0)
            &&& (forall|i: int|
                0 <= i && i + 1 < chunks@.len() ==> (#[trigger] chunks@[i]).target_time
                    <= chunks@[i + 1].target_time)
            &&& (forall|i: int| 0 <= i < chunks@.len() ==> chunks@[i].target_time <= close)
            &&& (forall|i: int|
                0 <= i < chunks@.len() ==> 0 < (#[trigger] chunks@[i]).chunk@.len() <= 65536)
            &&& (forall|i: int|
                0 <= i && i + 1 < chunks@.len() ==> (#[trigger] chunks@[i]).chunk@.len()
                    == 65536)
            &&& (content@.len() > 0 ==> forall|i: int|
                0 <= i < chunks@.len() ==> (#[trigger] chunks@[i]).target_time as int == i * ((
                65536 * spec_transfer_duration(*resource, content@.len())) / content@.len()
                    as int))
        },
{
    let total = content.len();
    let mut chunks: Vec<BodyChunk> = Vec::new();
    if total == 0 {
        proof {
            assert(chunks@.map_values(|c: BodyChunk| c.chunk@).flatten() =~= content@);
        }
        return Ok((chunks, 0));
    }
    let t = transfer_duration(resource, total);
    let mut offset: usize = 0;
    let mut current: u64 = 0;
    proof {
        assert(chunks@.map_values(|c: BodyChunk| c.chunk@).flatten() =~= content@.subrange(
            0,
            0,
        ));
    }
    while offset < total
        invariant
            offset <= total,
            total == content@.len(),
            t >= 1,
            chunks@.map_values(|c: BodyChunk| c.chunk@).flatten() == content@.subrange(
                0,
                offset as int,
            ),
            offset == 0 <==> chunks@.len() == 0,
            chunks@.len() > 0 ==> chunks@[0].target_time == 0,
            forall|i: int|
                0 <= i && i + 1 < chunks@.len() ==> (#[trigger] chunks@[i]).target_time
                    <= chunks@[i + 1].target_time,
            forall|i: int| 0 <= i < chunks@.len() ==> chunks@[i].target_time <= current,
            current as int * total as int <= offset as int * t as int,
            forall|i: int|
                0 <= i < chunks@.len() ==> (#[trigger] chunks@[i]).target_time as int == i * ((
                65536 * t as int) / total as int),
            offset < total ==> current as int == chunks@.len() * ((65536 * t as int)
                / total as int),
            forall|i: int|
                0 <= i < chunks@.len() ==> 0 < (#[trigger] chunks@[i]).chunk@.len() <= 65536,
            forall|i: int|
                0 <= i && i + 1 < chunks@.len() ==> (#[trigger] chunks@[i]).chunk@.len()
                    == 65536,
            offset < total && chunks@.len() > 0 ==> chunks@[chunks@.len() - 1].chunk@.len()
                == 65536,
        decreases total - offset,
    {
        let remaining = total - offset;
        let chunk_size = if remaining < 65536 {
            remaining
        } else {
            65536
        };
        proof {
            if offset == 0 {
                assert(current == 0) by (nonlinear_arith)
                    requires
                        current as int * total as int <= 0,
                        total as int >= 1,
                        current as int >= 0,
                ;
            }
        }
        let data = copy_range(content, offset, offset + chunk_size);
        let ghost pre = chunks@.map_values(|c: BodyChunk| c.chunk@);
        chunks.push(BodyChunk { chunk: data, target_time: current });
        proof {
            let post = chunks@.map_values(|c: BodyChunk| c.chunk@);
            assert(post =~= pre.push(content@.subrange(
                offset as int,
                offset as int + chunk_size as int,
            )));
            pre.lemma_flatten_push(content@.subrange(
                offset as int,
                offset as int + chunk_size as int,
            ));
            assert(post.flatten() =~= content@.subrange(0, offset as int + chunk_size as int));
        }
        proof {
            assert(chunk_size as int * t as int <= 65536int * (u64::MAX as int))
                by (nonlinear_arith)
                requires
                    0 < chunk_size as int <= 65536,
                    1 <= t as int <= u64::MAX as int,
            ;
        }
        let dur128: u128 = (chunk_size as u128) * (t as u128) / (total as u128);
        proof {
            assert((chunk_size as int * t as int) / (total as int) <= t as int) by (nonlinear_arith)
                requires
                    0 < chunk_size as int <= total as int,
                    t as int >= 1,
            ;
        }
        let dur = dur128 as u64;
        proof {
            assert(current as int + dur as int <= t as int) by (nonlinear_arith)
                requires
                    current as int * total as int <= offset as int * t as int,
                    dur as int == (chunk_size as int * t as int) / (total as int),
                    0 < chunk_size as int,
                    offset as int + chunk_size as int <= total as int,
                    t as int >= 1,
                    total as int > 0,
                    current as int >= 0,
            ;
            assert((current as int + dur as int) * total as int <= (offset as int
                + chunk_size as int) * t as int) by (nonlinear_arith)
                requires
                    current as int * total as int <= offset as int * t as int,
                    dur as int == (chunk_size as int * t as int) / (total as int),
                    0 < chunk_size as int,
                    t as int >= 1,
                    total as int > 0,
            ;
        }
        current = current + dur;
        offset = offset + chunk_size;
        proof {
            if offset < total {
                assert(chunk_size == 65536);
                let d = (65536 * t as int) / total as int;
                assert(chunks@.len() * d == (chunks@.len() - 1) * d + d) by (nonlinear_arith);
            }
        }
    }
    proof {
        assert(content@.subrange(0, total as int) =~= content@);
        assert(current <= t) by (nonlinear_arith)
            requires
                current as int * total as int <= total as int * t as int,
                total as int > 0,
        ;
    }
    Ok((chunks, t))
}

/// Re-compress a body for the wire with the recorded codec. Identity and
/// compress pass the body through; for gzip, deflate and brotli the contract
/// states that decompressing the result restores the input. This never
/// fails; the `Result` mirrors the pipeline's interface.
pub fn compress_content(content: &[u8], encoding: &ContentEncodingType) -> (r: Result<
    Vec<u8>,
    PipelineError,
>)
    ensures
        r matches Ok(v) && (match encoding {
            ContentEncodingType::Gzip => gunzip_of(v@) == Some(content@),
            ContentEncodingType::Deflate => inflate_of(v@) == Some(content@),
            ContentEncodingType::Br => unbr_of(v@) == Some(content@),
            ContentEncodingType::Identity | ContentEncodingType::Compress => v@ == content@,
        }),
{
    match encoding {
        ContentEncodingType::Gzip => Ok(gzip_compress(content)),
        ContentEncodingType::Deflate => Ok(deflate_compress(content)),
        ContentEncodingType::Br => Ok(brotli_compress(content)),
        ContentEncodingType::Identity | ContentEncodingType::Compress => {
            let mut v: Vec<u8> = Vec::new();
            push_all(&mut v, content);
            proof {
                assert(v@ =~= content@);
            }
            Ok(v)
        },
    }
}

/// What re-encoding a stored UTF-8 body to the recorded charset yields:
/// unchanged bytes when the charset resolves to UTF-8, else the encoding of
/// its text under that charset's label.
pub open spec fn spec_reencoded(content: Seq<u8>, label: Seq<u8>) -> Seq<u8> {
    if encoding_name_of_label(label) == Some("UTF-8".spec_bytes()) {
        content
    } else {
        encoded_as(label, decode_utf8(content))
    }
}

/// Re-encode a stored UTF-8 text body to the charset it was recorded with.
/// Fails exactly when the body is not valid UTF-8 or the charset label is
/// unknown.
pub fn re_encode_to_charset(content: &[u8], charset_name: &str) -> (r: Result<
    Vec<u8>,
    PipelineError,
>)
    ensures
        match r {
            Ok(v) => valid_utf8(content@) && encoding_name_of_label(
                charset_name.spec_bytes(),
            ) is Some && v@ == spec_reencoded(content@, charset_name.spec_bytes()),
            Err(e) => (!valid_utf8(content@) || encoding_name_of_label(
                charset_name.spec_bytes(),
            ) is None) && (e == PipelineError::InvalidUtf8 || e == PipelineError::UnknownCharset),
        },
{
    let text = match str_from_utf8(content) {
        Some(t) => t,
        None => {
            return Err(PipelineError::InvalidUtf8);
        },
    };
    let name = match encoding_name_for_label(charset_name.as_bytes()) {
        Some(n) => n,
        None => {
            return Err(PipelineError::UnknownCharset);
        },
    };
    if bytes_eq(name.as_str().as_bytes(), "UTF-8".as_bytes()) {
        let mut v: Vec<u8> = Vec::new();
        push_all(&mut v, content);
        proof {
            assert(v@ =~= content@);
        }
        Ok(v)
    } else {
        let out = encode_with_label(charset_name.as_bytes(), text);
        proof {
            vstd::utf8::encode_utf8_decode_utf8(text@);
            assert(decode_utf8(content@) == text@);
        }
        Ok(out)
    }
}

/// How a wire body relates to the bytes it was compressed from: equality for
/// identity and compress, and decodability for the real codecs.
pub open spec fn spec_compressed_rel(
    enc: Option<ContentEncodingType>,
    pre: Seq<u8>,
    wire: Seq<u8>,
) -> bool {
    match enc {
        None => wire == pre,
        Some(ContentEncodingType::Identity) => wire == pre,
        Some(ContentEncodingType::Compress) => wire == pre,
        Some(ContentEncodingType::Gzip) => gunzip_of(wire) == Some(pre),
        Some(ContentEncodingType::Deflate) => inflate_of(wire) == Some(pre),
        Some(ContentEncodingType::Br) => unbr_of(wire) == Some(pre),
    }
}

/// How a transaction's wire body relates to the stored content it was built
/// from: the content is minified when the resource was recorded as minified,
/// re-encoded to the recorded charset, and re-compressed with the recorded
/// codec.
pub open spec fn spec_pipeline_rel(r: Resource, content: Seq<u8>, wire: Seq<u8>) -> bool {
    let minified = if r.minify == Some(true) {
        spec_minify(content, opt_str_bytes(r.content_type_mime))
    } else {
        content
    };
    match r.content_charset {
        Some(cs) => {
            let csb = encode_utf8(cs@);
            &&& valid_utf8(minified)
            &&& encoding_name_of_label(csb) is Some
            &&& spec_compressed_rel(r.content_encoding, spec_reencoded(minified, csb), wire)
        },
        None => spec_compressed_rel(r.content_encoding, minified, wire),
    }
}

/// How the chosen pipeline input relates to the resource's stored body when
/// no content file was read: decoded base64 when present, else the inline
/// UTF-8 text.
pub open spec fn spec_inline_source(r: Resource, content: Seq<u8>) -> bool {
    &&& (match r.content_base64 {
        Some(b) => r.content_file_path is None ==> b64_decode_of(encode_utf8(b@)) == Some(
            content,
        ),
        None => true,
    })
    &&& (match r.content_utf8 {
        Some(u) => r.content_file_path is None && r.content_base64 is None ==> content
            == encode_utf8(u@),
        None => true,
    })
}

/// Whether the recorded response's own `Content-Type` header named a
/// charset. Only then does the rebuilt header carry a charset parameter; a
/// charset detected from content re-encodes the body but is not added to the
/// header the origin never sent.
pub open spec fn spec_header_named_charset(r: Resource) -> bool {
    match r.raw_headers {
        Some(h) => match h.spec_find(encode_utf8("content-type"@)) {
            Some(i) => {
                let vs = h.entries@[i].value.values();
                vs.len() > 0 && crate::utils::spec_charset_from_content_type(
                    encode_utf8(vs[0]),
                ) is Some
            },
            None => false,
        },
        None => false,
    }
}

/// The recorded headers have unique names (vacuously so when absent), as the
/// recorder always produces.
pub open spec fn spec_headers_wf_in(r: Resource) -> bool {
    match r.raw_headers {
        Some(h) => h.wf_names(),
        None => true,
    }
}

/// The rebuilt `Content-Type` value: the MIME type, with the resolved
/// charset appended only when the recorded header itself named one.
pub open spec fn spec_content_type_value(r: Resource, m: Seq<char>) -> Seq<char> {
    match r.content_charset {
        Some(cs) => if spec_header_named_charset(r) {
            m + "; charset="@ + cs@
        } else {
            m
        },
        None => m,
    }
}

/// In a collection with unique names, any present name is present exactly
/// once.
proof fn lemma_wf_unique_name(h: HttpHeaders, name: Seq<char>)
    requires
        h.wf_names(),
        exists|i: int|
            0 <= i < h.entries@.len() && (#[trigger] h.entries@[i]).name@ == name,
    ensures
        h.exactly_one_named(name),
{
    let i = choose|i: int| 0 <= i < h.entries@.len() && (#[trigger] h.entries@[i]).name@ == name;
    assert forall|j: int|
        0 <= j < h.entries@.len() && (#[trigger] h.entries@[j]).name@ == name implies j == i by {
        assert(h.entries@[j].name_bytes() == encode_utf8(name));
        assert(h.entries@[i].name_bytes() == encode_utf8(name));
        if j < i {
            assert(h.entries@[j].name_bytes() != h.entries@[i].name_bytes());
        } else if j > i {
            assert(h.entries@[i].name_bytes() != h.entries@[j].name_bytes());
        }
    }
    assert(h.exactly_one_named(name));
}

/// The identity, timing and header facts that hold of a built transaction.
pub open spec fn spec_transaction_ok(r: Resource, tx: Transaction) -> bool {
    &&& tx.method == r.method
    &&& tx.url == r.url
    &&& tx.ttfb == r.ttfb_ms
    &&& tx.status_code == r.status_code
    &&& (match (tx.error_message, r.error_message) {
        (Some(a), Some(b)) => a@ == b@,
        (None, None) => true,
        _ => false,
    })
    &&& tx.raw_headers is Some
    &&& (match tx.raw_headers {
        Some(h) => exists|v: String|
            #[trigger] h.has_entry("content-length"@, HeaderValue::Single(v)) && v@ == dec_chars(
                tx.body_bytes().len(),
            ),
        None => false,
    })
    &&& (match (tx.raw_headers, r.content_type_mime) {
        (Some(h), Some(m)) => exists|v: String|
            #[trigger] h.has_entry("content-type"@, HeaderValue::Single(v)) && v@
                == spec_content_type_value(r, m@),
        _ => true,
    })
    &&& (spec_headers_wf_in(r) ==> match tx.raw_headers {
        Some(h) => h.wf_names() && h.exactly_one_named("content-length"@),
        None => false,
    })
    &&& (tx.chunks@.len() > 0 ==> tx.chunks@[0].target_time == 0)
    &&& (forall|i: int|
        0 <= i && i + 1 < tx.chunks@.len() ==> (#[trigger] tx.chunks@[i]).target_time
            <= tx.chunks@[i + 1].target_time)
    &&& (forall|i: int|
        0 <= i < tx.chunks@.len() ==> (#[trigger] tx.chunks@[i]).target_time
            <= tx.target_close_time)
}

/// Build a playback transaction from a recorded resource. The body comes from
/// the content file when one exists, else from the inline base64 or UTF-8
/// body; it is run through the inverse content pipeline and scheduled into
/// chunks. A resource with no body yields no transaction.
pub fn convert_resource_to_transaction<F: FileSystem>(
    resource: &Resource,
    inventory_dir: &str,
    file_system: &F,
) -> (r: Result<Option<Transaction>, PipelineError>)
    ensures
        match r {
            Ok(Some(tx)) => spec_transaction_ok(*resource, tx) && exists|content: Seq<u8>|
                #[trigger] spec_pipeline_rel(*resource, content, tx.body_bytes())
                    && spec_inline_source(*resource, content),
            Ok(None) => resource.content_base64 is None && resource.content_utf8 is None,
            Err(e) => e == PipelineError::FileIo || e == PipelineError::BadBase64 || e
                == PipelineError::InvalidUtf8 || e == PipelineError::UnknownCharset,
        },
        resource.content_file_path is None && resource.content_base64 is None
            && resource.content_utf8 is None ==> r == Ok::<
            Option<Transaction>,
            PipelineError,
        >(None),
        resource.content_file_path is None && resource.content_base64 is None
            && resource.content_utf8 is Some && resource.content_charset is None ==> r is Ok,
{
    let content: Vec<u8> = match &resource.content_file_path {
        Some(fp) => {
            let mut full = String::new();
            full.append(inventory_dir);
            full.append("/");
            full.append(fp.as_str());
            if file_system.path_exists(full.as_str()) {
                match file_system.read(full.as_str()) {
                    Ok(v) => v,
                    Err(_) => {
                        return Err(PipelineError::FileIo);
                    },
                }
            } else {
                match &resource.content_base64 {
                    Some(b) => match b64_decode(b.as_str()) {
                        Some(v) => v,
                        None => {
                            return Err(PipelineError::BadBase64);
                        },
                    },
                    None => match &resource.content_utf8 {
                        Some(u) => u.as_str().as_bytes_vec(),
                        None => {
                            return Ok(None);
                        },
                    },
                }
            }
        },
        None => match &resource.content_base64 {
            Some(b) => match b64_decode(b.as_str()) {
                Some(v) => v,
                None => {
                    return Err(PipelineError::BadBase64);
                },
            },
            None => match &resource.content_utf8 {
                Some(u) => u.as_str().as_bytes_vec(),
                None => {
                    return Ok(None);
                },
            },
        },
    };
    proof {
        assert(spec_inline_source(*resource, content@));
    }

    let do_minify = match resource.minify {
        Some(true) => true,
        _ => false,
    };
    let minified: Vec<u8> = if do_minify {
        match minify_content(content.as_slice(), &resource.content_type_mime) {
            Ok(v) => v,
            Err(e) => {
                return Err(e);
            },
        }
    } else {
        content
    };

    let pre: Vec<u8> = match &resource.content_charset {
        Some(cs) => match re_encode_to_charset(minified.as_slice(), cs.as_str()) {
            Ok(v) => v,
            Err(e) => {
                return Err(e);
            },
        },
        None => minified,
    };

    let wire: Vec<u8> = match &resource.content_encoding {
        Some(enc) => match compress_content(pre.as_slice(), enc) {
            Ok(v) => v,
            Err(e) => {
                return Err(e);
            },
        },
        None => pre,
    };

    let (chunks, target_close_time) = match create_chunks(wire.as_slice(), resource) {
        Ok(p) => p,
        Err(e) => {
            return Err(e);
        },
    };

    // A charset parameter is added to the rebuilt Content-Type only when the
    // recorded header itself named one; a charset detected from content
    // re-encodes the body without changing the header shape.
    let header_charset: bool = match &resource.raw_headers {
        Some(h0) => match h0.get("content-type") {
            Some(v) => match crate::utils::extract_charset_from_content_type(v.first()) {
                Some(_) => true,
                None => false,
            },
            None => false,
        },
        None => false,
    };
    proof {
        assert(header_charset == spec_header_named_charset(*resource)) by {
            reveal_strlit("charset=");
            assert("charset="@.len() == 8);
            vstd::utf8::is_ascii_chars_encode_utf8("charset="@);
            assert("charset=".spec_bytes().len() == 8);
            assert(encode_utf8(Seq::<char>::empty()) =~= Seq::<u8>::empty());
            assert(crate::bytetext::lower_bytes(Seq::<u8>::empty()) =~= Seq::<u8>::empty());
        }
    }

    let mut headers = match &resource.raw_headers {
        Some(hh) => hh.duplicate(),
        None => HttpHeaders::new(),
    };
    proof {
        if spec_headers_wf_in(*resource) {
            assert(headers.wf_names());
        }
    }
    let ghost headers_wf = headers.wf_names();
    let len_string = u64_to_string(wire.len() as u64);
    headers.set(String::from_str("content-length"), HeaderValue::Single(len_string));
    proof {
        assert(headers.has_entry("content-length"@, HeaderValue::Single(len_string)));
        if headers_wf {
            assert(headers.wf_names() && headers.exactly_one_named("content-length"@));
        }
    }
    match &resource.content_type_mime {
        Some(m) => {
            let mut ct = String::new();
            ct.append(m.as_str());
            if header_charset {
                match &resource.content_charset {
                    Some(cs) => {
                        ct.append("; charset=");
                        ct.append(cs.as_str());
                    },
                    None => {},
                }
            }
            proof {
                assert(ct@ == spec_content_type_value(*resource, m@));
            }
            headers.set(String::from_str("content-type"), HeaderValue::Single(ct));
            proof {
                reveal_strlit("content-length");
                reveal_strlit("content-type");
                assert("content-length"@.len() == 14);
                assert("content-type"@.len() == 12);
                assert("content-length"@ != "content-type"@);
                assert(headers.has_entry("content-length"@, HeaderValue::Single(len_string)));
                assert(headers.has_entry("content-type"@, HeaderValue::Single(ct)));
                if headers_wf {
                    assert(headers.wf_names());
                    assert(headers.exactly_one_named("content-length"@)) by {
                        lemma_wf_unique_name(headers, "content-length"@);
                    }
                }
            }
        },
        None => {},
    }

    let error_message = match &resource.error_message {
        Some(e) => Some(e.clone()),
        None => None,
    };
    let tx = Transaction {
        method: resource.method.clone(),
        url: resource.url.clone(),
        ttfb: resource.ttfb_ms,
        status_code: resource.status_code,
        error_message,
        raw_headers: Some(headers),
        chunks,
        target_close_time,
    };
    proof {
        assert(tx.body_bytes() == wire@);
        assert(spec_pipeline_rel(*resource, content@, tx.body_bytes())
            && spec_inline_source(*resource, content@));
        assert(len_string@ == dec_chars(tx.body_bytes().len()));
        assert(match tx.raw_headers {
            Some(h) => h.has_entry("content-length"@, HeaderValue::Single(len_string)),
            None => false,
        });
        assert(spec_transaction_ok(*resource, tx));
    }
    Ok(Some(tx))
}

/// Whether `ix` maps each output transaction, in order, to a distinct source
/// resource further along the inventory: a strictly increasing index list
/// under which every transaction satisfies its source's contract.
pub open spec fn spec_tx_order(inv: Inventory, ts: Seq<Transaction>, ix: Seq<int>) -> bool {
    &&& ix.len() == ts.len()
    &&& (forall|k: int| 0 <= k < ix.len() ==> 0 <= #[trigger] ix[k] < inv.resources@.len())
    &&& (forall|k: int| 0 <= k && k + 1 < ix.len() ==> #[trigger] ix[k] < ix[k + 1])
    &&& (forall|k: int|
        0 <= k < ix.len() ==> #[trigger] spec_transaction_ok(inv.resources@[ix[k]], ts[k]))
}

/// Build transactions for every resource in the inventory that has a body,
/// keeping inventory order: the result is the `Some` outcomes in inventory
/// order (bodiless resources are skipped, not errors), and a per-resource
/// error aborts the build.
pub fn convert_resources_to_transactions<F: FileSystem>(
    inventory: &Inventory,
    inventory_dir: &str,
    file_system: &F,
) -> (r: Result<Vec<Transaction>, PipelineError>)
    ensures
        r matches Ok(ts) ==> ts@.len() <= inventory.resources@.len() && exists|ix: Seq<int>|
            #[trigger] spec_tx_order(*inventory, ts@, ix),
{
    let mut out: Vec<Transaction> = Vec::new();
    let ghost mut ix: Seq<int> = Seq::empty();
    let mut i: usize = 0;
    while i < inventory.resources.len()
        invariant
            i <= inventory.resources@.len(),
            out@.len() <= i as int,
            spec_tx_order(*inventory, out@, ix),
            forall|k: int| 0 <= k < ix.len() ==> #[trigger] ix[k] < i as int,
        decreases inventory.resources@.len() - i,
    {
        match convert_resource_to_transaction(&inventory.resources[i], inventory_dir, file_system) {
            Ok(Some(tx)) => {
                let ghost pre = out@;
                proof {
                    assert(spec_transaction_ok(inventory.resources@[i as int], tx));
                }
                out.push(tx);
                proof {
                    ix = ix.push(i as int);
                    assert forall|k: int|
                        0 <= k < ix.len() implies #[trigger] spec_transaction_ok(
                        inventory.resources@[ix[k]],
                        out@[k],
                    ) by {
                        if k < ix.len() - 1 {
                            assert(out@[k] == pre[k]);
                            assert(ix[k] == ix.drop_last()[k]);
                        } else {
                            assert(out@[k] == tx);
                            assert(ix[k] == i as int);
                        }
                    }
                }
            },
            Ok(None) => {},
            Err(e) => {
                return Err(e);
            },
        }
        i = i + 1;
    }
    Ok(out)
}

} // verus!
