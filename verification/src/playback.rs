//! Playback-side request handling: matching an incoming request to a
//! transaction, the headers emitted with a replayed response, and the waits
//! that reproduce the recorded timing.

use crate::bytetext::{bytes_eq, dec_chars, lower_bytes, to_lower_bytes, u64_to_string};
use crate::types::{HeaderEntry, HeaderValue, Transaction};
use crate::utils::url_parts_of;
use vstd::prelude::*;
use vstd::string::StringSliceAdditionalSpecFns;
use vstd::utf8::encode_utf8;

verus! {

/// Milliseconds to wait before emitting a scheduled chunk: the remaining time
/// until `target_time`, or zero when the schedule is already behind.
pub fn chunk_wait_ms(target_time: u64, elapsed: u64) -> (wait: u64)
    ensures
        elapsed < target_time ==> wait == target_time - elapsed,
        elapsed >= target_time ==> wait == 0,
{
    if elapsed < target_time {
        target_time - elapsed
    } else {
        0
    }
}

/// The bytes of an optional string.
pub open spec fn opt_string_bytes(o: Option<&String>) -> Option<Seq<u8>> {
    match o {
        Some(s) => Some(encode_utf8(s@)),
        None => None,
    }
}

/// Whether a transaction answers a request: same method, same path and
/// query under the transaction's recorded URL, and — when both the request
/// and the recorded URL carry a host — the same host.
pub open spec fn spec_tx_matches(
    t: Transaction,
    method: Seq<u8>,
    host: Option<Seq<u8>>,
    path: Seq<u8>,
    query: Option<Seq<u8>>,
) -> bool {
    &&& encode_utf8(t.method@) == method
    &&& (match url_parts_of(encode_utf8(t.url@)) {
        Some(p) => {
            &&& (match (host, p.host) {
                (Some(a), Some(b)) => a == b,
                _ => true,
            })
            &&& p.path == path
            &&& (match (query, p.query) {
                (Some(a), Some(b)) => a == b,
                (None, None) => true,
                _ => false,
            })
        },
        None => false,
    })
}

/// Find the first transaction answering the request, if any.
#[verifier::loop_isolation(false)]
pub fn match_transaction(
    transactions: &Vec<Transaction>,
    method: &str,
    host: Option<&String>,
    path: &str,
    query: Option<&String>,
) -> (r: Option<usize>)
    ensures
        match r {
            Some(i) => i < transactions@.len() && spec_tx_matches(
                transactions@[i as int],
                method.spec_bytes(),
                opt_string_bytes(host),
                path.spec_bytes(),
                opt_string_bytes(query),
            ) && forall|j: int|
                0 <= j < i as int ==> !spec_tx_matches(
                    transactions@[j],
                    method.spec_bytes(),
                    opt_string_bytes(host),
                    path.spec_bytes(),
                    opt_string_bytes(query),
                ),
            None => forall|j: int|
                0 <= j < transactions@.len() ==> !spec_tx_matches(
                    transactions@[j],
                    method.spec_bytes(),
                    opt_string_bytes(host),
                    path.spec_bytes(),
                    opt_string_bytes(query),
                ),
        },
{
    let ghost mb = method.spec_bytes();
    let ghost hb = opt_string_bytes(host);
    let ghost pb = path.spec_bytes();
    let ghost qb = opt_string_bytes(query);
    let mut i: usize = 0;
    while i < transactions.len()
        invariant
            i <= transactions@.len(),
            forall|j: int| 0 <= j < i as int ==> !spec_tx_matches(transactions@[j], mb, hb, pb, qb),
        decreases transactions@.len() - i,
    {
        let t = &transactions[i];
        let mut ok = bytes_eq(t.method.as_str().as_bytes(), method.as_bytes());
        if ok {
            match crate::utils::parse_url(t.url.as_str()) {
                Some(p) => {
                    ok = bytes_eq(p.path.as_str().as_bytes(), path.as_bytes());
                    if ok {
                        ok = match (&query, &p.query) {
                            (Some(a), Some(b)) => bytes_eq(
                                a.as_str().as_bytes(),
                                b.as_str().as_bytes(),
                            ),
                            (None, None) => true,
                            _ => false,
                        };
                    }
                    if ok {
                        ok = match (&host, &p.host) {
                            (Some(a), Some(b)) => bytes_eq(
                                a.as_str().as_bytes(),
                                b.as_str().as_bytes(),
                            ),
                            _ => true,
                        };
                    }
                    if ok {
                        proof {
                            assert(spec_tx_matches(transactions@[i as int], mb, hb, pb, qb));
                        }
                        return Some(i);
                    }
                    proof {
                        assert(!spec_tx_matches(transactions@[i as int], mb, hb, pb, qb));
                    }
                },
                None => {
                    proof {
                        assert(!spec_tx_matches(transactions@[i as int], mb, hb, pb, qb));
                    }
                },
            }
        } else {
            proof {
                assert(!spec_tx_matches(transactions@[i as int], mb, hb, pb, qb));
            }
        }
        i = i + 1;
    }
    None
}

/// The header names never emitted with a replayed response, compared on the
/// ASCII-lowercased name.
pub open spec fn spec_is_dropped_header(low: Seq<u8>) -> bool {
    ||| low == "transfer-encoding".spec_bytes()
    ||| low == "content-length".spec_bytes()
    ||| low == "connection".spec_bytes()
    ||| low == "keep-alive".spec_bytes()
    ||| low == "upgrade".spec_bytes()
    ||| low == "te".spec_bytes()
    ||| low == "trailer".spec_bytes()
    ||| low == "proxy-connection".spec_bytes()
    ||| low == "proxy-authorization".spec_bytes()
    ||| low == "proxy-authenticate".spec_bytes()
    ||| low == "host".spec_bytes()
}

/// Whether a header name is hop-by-hop or transport-level and must not be
/// replayed.
pub fn is_dropped_header(name: &str) -> (r: bool)
    ensures
        r == spec_is_dropped_header(lower_bytes(name.spec_bytes())),
{
    let low = to_lower_bytes(name.as_bytes());
    bytes_eq(low.as_slice(), "transfer-encoding".as_bytes()) || bytes_eq(
        low.as_slice(),
        "content-length".as_bytes(),
    ) || bytes_eq(low.as_slice(), "connection".as_bytes()) || bytes_eq(
        low.as_slice(),
        "keep-alive".as_bytes(),
    ) || bytes_eq(low.as_slice(), "upgrade".as_bytes()) || bytes_eq(
        low.as_slice(),
        "te".as_bytes(),
    ) || bytes_eq(low.as_slice(), "trailer".as_bytes()) || bytes_eq(
        low.as_slice(),
        "proxy-connection".as_bytes(),
    ) || bytes_eq(low.as_slice(), "proxy-authorization".as_bytes()) || bytes_eq(
        low.as_slice(),
        "proxy-authenticate".as_bytes(),
    ) || bytes_eq(low.as_slice(), "host".as_bytes())
}

/// One `(name, value)` line per value, in order.
pub open spec fn spec_value_lines(name: Seq<char>, values: Seq<Seq<char>>) -> Seq<
    (Seq<char>, Seq<char>),
> {
    values.map_values(|v: Seq<char>| (name, v))
}

/// The views of emitted header lines.
pub open spec fn spec_line_views(lines: Seq<(String, String)>) -> Seq<(Seq<char>, Seq<char>)> {
    lines.map_values(|p: (String, String)| (p.0@, p.1@))
}

/// The lines one recorded header contributes to an emitted response: none
/// when its name is hop-by-hop, else one `(name, value)` line per value, in
/// recorded order.
pub open spec fn spec_entry_lines(e: HeaderEntry) -> Seq<(Seq<char>, Seq<char>)> {
    if spec_is_dropped_header(lower_bytes(e.name_bytes())) {
        Seq::empty()
    } else {
        spec_value_lines(e.name@, e.value.values())
    }
}

/// The lines a whole header collection contributes, entry by entry.
pub open spec fn spec_emitted_lines(entries: Seq<HeaderEntry>) -> Seq<(Seq<char>, Seq<char>)>
    decreases entries.len(),
{
    if entries.len() == 0 {
        Seq::empty()
    } else {
        spec_entry_lines(entries[0]) + spec_emitted_lines(entries.drop_first())
    }
}

proof fn lemma_emitted_snoc(entries: Seq<HeaderEntry>, e: HeaderEntry)
    ensures
        spec_emitted_lines(entries.push(e)) == spec_emitted_lines(entries) + spec_entry_lines(e),
    decreases entries.len(),
{
    let p = entries.push(e);
    if entries.len() == 0 {
        assert(p[0] == e);
        assert(p.drop_first() =~= Seq::<HeaderEntry>::empty());
        assert(spec_emitted_lines(p.drop_first()) == Seq::<(Seq<char>, Seq<char>)>::empty());
        assert(spec_emitted_lines(p) =~= spec_emitted_lines(entries) + spec_entry_lines(e));
    } else {
        lemma_emitted_snoc(entries.drop_first(), e);
        assert(p.drop_first() =~= entries.drop_first().push(e));
        assert(p[0] == entries[0]);
        assert(spec_emitted_lines(p) =~= spec_emitted_lines(entries) + spec_entry_lines(e));
    }
}

/// The header lines emitted with a replayed response: every recorded header
/// that is not hop-by-hop, one line per value in recorded order, and then
/// exactly one `Content-Length` equal to the wire body's byte length.
///
/// The contract is the header-sanitation law, stated exactly: the output is
/// precisely the kept lines followed by the one `Content-Length`.
#[verifier::loop_isolation(false)]
pub fn emission_headers(tx: &Transaction) -> (r: Vec<(String, String)>)
    requires
        tx.body_bytes().len() <= u64::MAX,
    ensures
        spec_line_views(r@) == (match tx.raw_headers {
            Some(h) => spec_emitted_lines(h.entries@),
            None => Seq::<(Seq<char>, Seq<char>)>::empty(),
        }).push(("Content-Length"@, dec_chars(tx.body_bytes().len()))),
        r@.len() >= 1,
        r@.last().0@ == "Content-Length"@,
        r@.last().1@ == dec_chars(tx.body_bytes().len()),
        forall|i: int|
            0 <= i < r@.len() - 1 ==> !spec_is_dropped_header(
                lower_bytes(encode_utf8((#[trigger] r@[i]).0@)),
            ),
        forall|i: int|
            0 <= i < r@.len() - 1 ==> lower_bytes(encode_utf8((#[trigger] r@[i]).0@))
                != "content-length".spec_bytes(),
{
    let mut out: Vec<(String, String)> = Vec::new();
    match &tx.raw_headers {
        Some(h) => {
            let mut i: usize = 0;
            proof {
                assert(h.entries@.subrange(0, 0) =~= Seq::<HeaderEntry>::empty());
                assert(spec_line_views(out@) =~= spec_emitted_lines(h.entries@.subrange(0, 0)));
            }
            while i < h.len()
                invariant
                    i <= h.entries@.len(),
                    spec_line_views(out@) == spec_emitted_lines(
                        h.entries@.subrange(0, i as int),
                    ),
                    forall|k: int|
                        0 <= k < out@.len() ==> !spec_is_dropped_header(
                            lower_bytes(encode_utf8((#[trigger] out@[k]).0@)),
                        ),
                decreases h.entries@.len() - i,
            {
                let ghost pre_mapped = spec_line_views(out@);
                let entry = h.entry_at(i);
                if !is_dropped_header(entry.name.as_str()) {
                    match &entry.value {
                        HeaderValue::Single(v) => {
                            out.push((entry.name.clone(), v.clone()));
                            proof {
                                assert(spec_line_views(out@) =~= pre_mapped + spec_entry_lines(
                                    h.entries@[i as int],
                                ));
                            }
                        },
                        HeaderValue::Multiple(vs) => {
                            let mut k: usize = 0;
                            while k < vs.len()
                                invariant
                                    k <= vs@.len(),
                                    !spec_is_dropped_header(
                                        lower_bytes(encode_utf8(entry.name@)),
                                    ),
                                    spec_line_views(out@) == pre_mapped + spec_value_lines(
                                        entry.name@,
                                        entry.value.values().subrange(0, k as int),
                                    ),
                                    forall|m: int|
                                        0 <= m < out@.len() ==> !spec_is_dropped_header(
                                            lower_bytes(encode_utf8((#[trigger] out@[m]).0@)),
                                        ),
                                decreases vs@.len() - k,
                            {
                                let name_clone = entry.name.clone();
                                let value_clone = vs[k].clone();
                                let ghost before = out@;
                                out.push((name_clone, value_clone));
                                proof {
                                    let seg = entry.value.values();
                                    assert(seg[k as int] == vs@[k as int]@);
                                    assert(out@.len() == before.len() + 1);
                                    assert(out@[before.len() as int].0@ == entry.name@);
                                    assert(out@[before.len() as int].1@ == seg[k as int]);
                                    assert(forall|j: int|
                                        0 <= j < before.len() ==> out@[j] == before[j]);
                                    assert(spec_line_views(out@)[before.len() as int] == (
                                    entry.name@,
                                    seg[k as int],
                                    ));
                                    assert(spec_line_views(out@) =~= spec_line_views(
                                        before,
                                    ).push((entry.name@, seg[k as int])));
                                    assert(spec_value_lines(
                                        entry.name@,
                                        seg.subrange(0, k as int + 1),
                                    ) =~= spec_value_lines(
                                        entry.name@,
                                        seg.subrange(0, k as int),
                                    ).push((entry.name@, seg[k as int])));
                                    assert(spec_line_views(out@) =~= pre_mapped
                                        + spec_value_lines(
                                        entry.name@,
                                        seg.subrange(0, k as int),
                                    ).push((entry.name@, seg[k as int])));
                                    assert(spec_line_views(out@) =~= pre_mapped
                                        + spec_value_lines(
                                        entry.name@,
                                        seg.subrange(0, k as int + 1),
                                    ));
                                }
                                k = k + 1;
                            }
                            proof {
                                assert(entry.value.values().subrange(
                                    0,
                                    entry.value.values().len() as int,
                                ) =~= entry.value.values());
                                assert(spec_line_views(out@) =~= pre_mapped + spec_entry_lines(
                                    h.entries@[i as int],
                                ));
                            }
                        },
                    }
                } else {
                    proof {
                        assert(spec_entry_lines(h.entries@[i as int])
                            =~= Seq::<(Seq<char>, Seq<char>)>::empty());
                        assert(spec_line_views(out@) =~= pre_mapped + spec_entry_lines(
                            h.entries@[i as int],
                        ));
                    }
                }
                proof {
                    lemma_emitted_snoc(h.entries@.subrange(0, i as int), h.entries@[i as int]);
                    assert(h.entries@.subrange(0, i as int).push(h.entries@[i as int])
                        =~= h.entries@.subrange(0, i as int + 1));
                }
                i = i + 1;
            }
            proof {
                assert(h.entries@.subrange(0, h.entries@.len() as int) =~= h.entries@);
            }
        },
        None => {},
    }
    let body_len = body_length(tx);
    let ghost kept = spec_line_views(out@);
    out.push((String::from_str("Content-Length"), u64_to_string(body_len)));
    proof {
        assert(spec_line_views(out@) =~= kept.push((
            "Content-Length"@,
            dec_chars(tx.body_bytes().len()),
        )));
        assert(forall|i: int|
            0 <= i < out@.len() - 1 ==> !spec_is_dropped_header(
                lower_bytes(encode_utf8((#[trigger] out@[i]).0@)),
            ));
    }
    out
}

/// The byte length of a transaction's wire body.
#[verifier::loop_isolation(false)]
pub fn body_length(tx: &Transaction) -> (r: u64)
    requires
        tx.body_bytes().len() <= u64::MAX,
    ensures
        r == tx.body_bytes().len(),
{
    let mut sum: u128 = 0;
    let mut i: usize = 0;
    proof {
        assert(tx.chunks@.map_values(|c: crate::types::BodyChunk| c.chunk@).subrange(0, 0)
            =~= Seq::<Seq<u8>>::empty());
    }
    while i < tx.chunks.len()
        invariant
            i <= tx.chunks@.len(),
            sum == tx.chunks@.map_values(|c: crate::types::BodyChunk| c.chunk@).subrange(
                0,
                i as int,
            ).flatten().len(),
            sum <= i * 0xffff_ffff_ffff_ffff,
        decreases tx.chunks@.len() - i,
    {
        let ghost cs = tx.chunks@.map_values(|c: crate::types::BodyChunk| c.chunk@);
        let clen = tx.chunks[i].chunk.len();
        proof {
            cs.subrange(0, i as int).lemma_flatten_push(cs[i as int]);
            assert(cs.subrange(0, i as int).push(cs[i as int]) =~= cs.subrange(0, i as int + 1));
        }
        sum = sum + clen as u128;
        i = i + 1;
    }
    proof {
        let cs = tx.chunks@.map_values(|c: crate::types::BodyChunk| c.chunk@);
        assert(cs.subrange(0, cs.len() as int) =~= cs);
    }
    sum as u64
}

} // verus!
