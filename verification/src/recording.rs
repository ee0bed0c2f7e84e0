//! Recording-side bookkeeping: reconstructing request URLs, the per-connection
//! FIFO that pairs responses with requests, and the assembly of a recorded
//! `Resource` from a response's parts.

use crate::bytetext::{bytes_eq, lower_bytes, starts_with_bytes, str_eq, to_lower_bytes};
use crate::types::{ContentEncodingType, HttpHeaders, Inventory, Resource};
use crate::utils::{is_prefix_of, spec_charset_from_content_type};
use vstd::prelude::*;
use vstd::string::StringSliceAdditionalSpecFns;
use vstd::utf8::{encode_utf8, valid_utf8};

verus! {

/// A hop-by-hop or transport header name that is never persisted with a
/// recorded resource, compared on the ASCII-lowercased name: the connection
/// management headers, `Host`, and everything under `Proxy-`.
pub open spec fn spec_is_hop_by_hop(low: Seq<u8>) -> bool {
    ||| low == "transfer-encoding".spec_bytes()
    ||| low == "connection".spec_bytes()
    ||| low == "keep-alive".spec_bytes()
    ||| low == "te".spec_bytes()
    ||| low == "trailer".spec_bytes()
    ||| low == "upgrade".spec_bytes()
    ||| low == "host".spec_bytes()
    ||| is_prefix_of("proxy-".spec_bytes(), low)
}

/// Whether a header name is hop-by-hop and must not be persisted.
pub fn is_hop_by_hop(name: &str) -> (r: bool)
    ensures
        r == spec_is_hop_by_hop(lower_bytes(name.spec_bytes())),
{
    let low = to_lower_bytes(name.as_bytes());
    bytes_eq(low.as_slice(), "transfer-encoding".as_bytes()) || bytes_eq(
        low.as_slice(),
        "connection".as_bytes(),
    ) || bytes_eq(low.as_slice(), "keep-alive".as_bytes()) || bytes_eq(
        low.as_slice(),
        "te".as_bytes(),
    ) || bytes_eq(low.as_slice(), "trailer".as_bytes()) || bytes_eq(
        low.as_slice(),
        "upgrade".as_bytes(),
    ) || bytes_eq(low.as_slice(), "host".as_bytes()) || starts_with_bytes(
        low.as_slice(),
        "proxy-".as_bytes(),
    )
}

/// What the recorder remembers about an in-flight request.
#[derive(Debug, Clone)]
pub struct RequestInfo {
    pub method: String,
    pub url: String,
    /// The request's start instant, in milliseconds of the session clock.
    pub request_start_ms: u64,
    /// Milliseconds from proxy start to the request, for diagnostics.
    pub elapsed_since_start: u64,
}

/// Rebuild the full URL of a proxied request. A request line that already
/// carries a scheme is used as is; otherwise the URL is assembled from the
/// `Host` header under `https`, keeping path and query; without a host the
/// raw request target is returned unchanged.
pub fn reconstruct_url(
    has_scheme: bool,
    raw_target: &str,
    host: Option<&String>,
    path: &str,
    query: Option<&String>,
) -> (r: String)
    ensures
        has_scheme ==> r@ == raw_target@,
        !has_scheme ==> (match host {
            Some(h) => r@ == "https://"@ + h@ + path@ + (match query {
                Some(q) => "?"@ + q@,
                None => Seq::<char>::empty(),
            }),
            None => r@ == raw_target@,
        }),
{
    if has_scheme {
        let mut s = String::new();
        s.append(raw_target);
        proof {
            assert(s@ =~= raw_target@);
        }
        s
    } else {
        match host {
            Some(h) => {
                let mut s = String::new();
                s.append("https://");
                s.append(h.as_str());
                s.append(path);
                match query {
                    Some(q) => {
                        s.append("?");
                        s.append(q.as_str());
                        proof {
                            assert(s@ =~= "https://"@ + h@ + path@ + ("?"@ + q@));
                        }
                    },
                    None => {
                        proof {
                            assert(s@ =~= "https://"@ + h@ + path@ + Seq::<char>::empty());
                        }
                    },
                }
                s
            },
            None => {
                let mut s = String::new();
                s.append(raw_target);
                proof {
                    assert(s@ =~= raw_target@);
                }
                s
            },
        }
    }
}

/// One recording session: the growing inventory, and a FIFO request queue per
/// client connection, keyed by the peer's address.
pub struct RecordingSession {
    pub inventory: Inventory,
    pub queues: Vec<(String, Vec<RequestInfo>)>,
    pub request_counter: u64,
}

/// The position of the queue for `peer` in a queue table, if one exists.
pub open spec fn queue_index_in(qs: Seq<(String, Vec<RequestInfo>)>, peer: Seq<char>) -> Option<
    int,
> {
    if exists|i: int| 0 <= i < qs.len() && (#[trigger] qs[i]).0@ == peer {
        Some(choose|i: int| 0 <= i < qs.len() && (#[trigger] qs[i]).0@ == peer)
    } else {
        None
    }
}

impl RecordingSession {
    /// The position of the queue for `peer`, if one exists.
    pub open spec fn spec_queue_index(self, peer: Seq<char>) -> Option<int> {
        queue_index_in(self.queues@, peer)
    }

    /// The FIFO queue of `peer`: its recorded requests, oldest first.
    pub open spec fn queue_of(self, peer: Seq<char>) -> Seq<RequestInfo> {
        match queue_index_in(self.queues@, peer) {
            Some(i) => self.queues@[i].1@,
            None => Seq::empty(),
        }
    }

    /// No two queues share a peer; every lookup is unambiguous.
    pub open spec fn wf(self) -> bool {
        forall|i: int, j: int|
            0 <= i < j < self.queues@.len() ==> (#[trigger] self.queues@[i]).0@ != (
            #[trigger] self.queues@[j]).0@
    }

    /// A fresh session around the given inventory.
    pub fn new(inventory: Inventory) -> (r: Self)
        ensures
            r.inventory == inventory,
            r.queues@.len() == 0,
            r.request_counter == 0,
            r.wf(),
    {
        RecordingSession { inventory, queues: Vec::new(), request_counter: 0 }
    }

    /// Record an accepted request: push it to the back of its connection's
    /// FIFO, creating the queue on first use, and count it.
    #[verifier::loop_isolation(false)]
    pub fn on_request(&mut self, peer: String, info: RequestInfo)
        requires
            old(self).wf(),
        ensures
            final(self).wf(),
            final(self).inventory == old(self).inventory,
            final(self).queue_of(peer@) == old(self).queue_of(peer@).push(info),
            forall|p2: Seq<char>|
                p2 != peer@ ==> #[trigger] final(self).queue_of(p2) == old(self).queue_of(p2),
            final(self).request_counter as int == if old(self).request_counter < u64::MAX {
                old(self).request_counter + 1
            } else {
                old(self).request_counter as int
            },
    {
        if self.request_counter < u64::MAX {
            self.request_counter = self.request_counter + 1;
        }
        let n = self.queues.len();
        let mut i: usize = 0;
        while i < n
            invariant
                n == self.queues@.len(),
                i <= n,
                self.queues@ == old(self).queues@,
                self.inventory == old(self).inventory,
                self.request_counter as int == if old(self).request_counter < u64::MAX {
                    old(self).request_counter + 1
                } else {
                    old(self).request_counter as int
                },
                forall|j: int| 0 <= j < i as int ==> (#[trigger] self.queues@[j]).0@ != peer@,
            decreases n - i,
        {
            if str_eq(self.queues[i].0.as_str(), peer.as_str()) {
                proof {
                    lemma_queue_index_is(*self, peer@, i as int);
                }
                let ghost pre = *self;
                let q: &mut (String, Vec<RequestInfo>) = &mut self.queues[i];
                q.1.push(info);
                proof {
                    assert(self.queues@ =~= pre.queues@.update(
                        i as int,
                        (pre.queues@[i as int].0, self.queues@[i as int].1),
                    ));
                    lemma_update_queue(pre, *self, peer@, i as int, info);
                }
                return ;
            }
            i = i + 1;
        }
        proof {
            assert(old(self).spec_queue_index(peer@) is None) by {
                match old(self).spec_queue_index(peer@) {
                    Some(k) => {
                        assert((old(self).queues@[k]).0@ == peer@);
                    },
                    None => {},
                }
            }
        }
        let ghost pre = *self;
        let mut q: Vec<RequestInfo> = Vec::new();
        q.push(info);
        self.queues.push((peer, q));
        proof {
            lemma_push_queue(pre, *self, info);
        }
    }

    /// Pop the oldest unanswered request of this connection, pairing the
    /// response now being handled with the request that entered first.
    #[verifier::loop_isolation(false)]
    pub fn take_matching_request(&mut self, peer: &str) -> (r: Option<RequestInfo>)
        requires
            old(self).wf(),
        ensures
            final(self).wf(),
            final(self).inventory == old(self).inventory,
            final(self).request_counter == old(self).request_counter,
            match r {
                Some(info) => old(self).queue_of(peer@).len() > 0 && info == old(self).queue_of(
                    peer@,
                ).first() && final(self).queue_of(peer@) == old(self).queue_of(
                    peer@,
                ).drop_first(),
                None => old(self).queue_of(peer@).len() == 0 && final(self).queue_of(peer@)
                    == old(self).queue_of(peer@),
            },
            forall|p2: Seq<char>|
                p2 != peer@ ==> #[trigger] final(self).queue_of(p2) == old(self).queue_of(p2),
    {
        let n = self.queues.len();
        let mut i: usize = 0;
        while i < n
            invariant
                n == self.queues@.len(),
                i <= n,
                self.queues@ == old(self).queues@,
                self.inventory == old(self).inventory,
                self.request_counter == old(self).request_counter,
                forall|j: int| 0 <= j < i as int ==> (#[trigger] self.queues@[j]).0@ != peer@,
            decreases n - i,
        {
            if str_eq(self.queues[i].0.as_str(), peer) {
                proof {
                    lemma_queue_index_is(*self, peer@, i as int);
                }
                let ghost pre = *self;
                let q: &mut (String, Vec<RequestInfo>) = &mut self.queues[i];
                if q.1.len() == 0 {
                    proof {
                        assert(self.queues@ =~= pre.queues@);
                        assert(self.queues@ == pre.queues@);
                    }
                    return None;
                }
                let info = q.1.remove(0);
                proof {
                    assert(self.queues@ =~= pre.queues@.update(
                        i as int,
                        (pre.queues@[i as int].0, self.queues@[i as int].1),
                    ));
                    assert(self.queues@[i as int].1@ =~= pre.queues@[i as int].1@.drop_first());
                    lemma_pop_queue(pre, *self, peer@, i as int);
                }
                return Some(info);
            }
            i = i + 1;
        }
        proof {
            assert(self.spec_queue_index(peer@) is None) by {
                match self.spec_queue_index(peer@) {
                    Some(k) => {
                        assert((self.queues@[k]).0@ == peer@);
                    },
                    None => {},
                }
            }
        }
        None
    }

}

impl RecordingSession {
    /// Record one buffered response: pair it with the oldest request queued
    /// for its connection, or fabricate a degraded `GET unknown` record when
    /// none is queued; coalesce the response headers, dropping hop-by-hop
    /// ones; parse the `Content-Type` into MIME and provisional charset and
    /// the `Content-Encoding` into its codec; derive the throughput; stash
    /// the wire body; and append the resource to the inventory. Timings are
    /// milliseconds of the session clock; the download end is clamped to be
    /// no earlier than the first byte.
    pub fn on_response(
        &mut self,
        peer: &str,
        status: u16,
        header_lines: &Vec<(String, String)>,
        body: Vec<u8>,
        ttfb_now_ms: u64,
        download_end_now_ms: u64,
    )
        requires
            old(self).wf(),
        ensures
            final(self).wf(),
            final(self).request_counter == old(self).request_counter,
            final(self).inventory.entry_url == old(self).inventory.entry_url,
            final(self).inventory.device_type == old(self).inventory.device_type,
            final(self).inventory.resources@.len() == old(self).inventory.resources@.len() + 1,
            forall|j: int|
                0 <= j < old(self).inventory.resources@.len() ==> final(self).inventory.resources@[j]
                    == old(self).inventory.resources@[j],
            ({
                let res = final(self).inventory.resources@.last();
                &&& res.status_code == Some(status)
                &&& res.raw_body == Some(body)
                &&& (res.download_end_ms matches Some(d) && d >= res.ttfb_ms)
                &&& (if old(self).queue_of(peer@).len() > 0 {
                    let info = old(self).queue_of(peer@).first();
                    &&& res.method == info.method
                    &&& res.url == info.url
                    &&& res.ttfb_ms as int == (if ttfb_now_ms >= info.request_start_ms {
                        ttfb_now_ms - info.request_start_ms
                    } else {
                        0
                    })
                    &&& final(self).queue_of(peer@) == old(self).queue_of(peer@).drop_first()
                } else {
                    &&& res.method@ == "GET"@
                    &&& res.url@ == "unknown"@
                    &&& res.ttfb_ms == ttfb_now_ms
                    &&& final(self).queue_of(peer@) == old(self).queue_of(peer@)
                })
                &&& (match res.raw_headers {
                    Some(h) => h.wf_names() && forall|i: int|
                        0 <= i < h.entries@.len() ==> !spec_is_hop_by_hop(
                            lower_bytes((#[trigger] h.entries@[i]).name_bytes()),
                        ),
                    None => false,
                })
                &&& (match res.raw_headers {
                    Some(h) => match h.spec_find(encode_utf8("content-type"@)) {
                        Some(i) => {
                            let vs = h.entries@[i].value.values();
                            let first: Seq<char> = if vs.len() > 0 {
                                vs[0]
                            } else {
                                Seq::empty()
                            };
                            &&& (match res.content_type_mime {
                                Some(m) => valid_utf8(
                                    crate::processor::spec_mime_of(encode_utf8(first)),
                                ) ==> encode_utf8(m@) == crate::processor::spec_mime_of(
                                    encode_utf8(first),
                                ),
                                None => false,
                            })
                            &&& (match res.content_charset {
                                Some(c) => spec_charset_from_content_type(
                                    encode_utf8(first),
                                ) matches Some(v) && (valid_utf8(v) ==> encode_utf8(c@) == v),
                                None => spec_charset_from_content_type(
                                    encode_utf8(first),
                                ) is None,
                            })
                        },
                        None => res.content_type_mime is None && res.content_charset is None,
                    },
                    None => false,
                })
                &&& (match res.download_end_ms {
                    Some(d) => if d > res.ttfb_ms {
                        res.mbps_x1000 matches Some(m) && m as int == ({
                            let rate = 8 * (body@.len() as int) / (d as int - res.ttfb_ms as int);
                            if rate > u64::MAX as int {
                                u64::MAX as int
                            } else {
                                rate
                            }
                        })
                    } else {
                        res.mbps_x1000 is None
                    },
                    None => false,
                })
            }),
            forall|p2: Seq<char>|
                p2 != peer@ ==> #[trigger] final(self).queue_of(p2) == old(self).queue_of(p2),
    {
        let popped = self.take_matching_request(peer);
        let ghost mid = *self;
        let (method, url, ttfb_ms, download_end_ms) = match popped {
            Some(info) => {
                let t = if ttfb_now_ms >= info.request_start_ms {
                    ttfb_now_ms - info.request_start_ms
                } else {
                    0
                };
                let d = if download_end_now_ms >= info.request_start_ms {
                    download_end_now_ms - info.request_start_ms
                } else {
                    0
                };
                (info.method, info.url, t, d)
            },
            None => (
                String::from_str("GET"),
                String::from_str("unknown"),
                ttfb_now_ms,
                download_end_now_ms,
            ),
        };
        let mut resource = Resource::new(method, url);
        resource.status_code = Some(status);
        resource.ttfb_ms = ttfb_ms;
        let download_end_ms = if download_end_ms < ttfb_ms {
            ttfb_ms
        } else {
            download_end_ms
        };
        resource.download_end_ms = Some(download_end_ms);

        let body_len = body.len();
        if download_end_ms > ttfb_ms {
            let dur = download_end_ms - ttfb_ms;
            let rate128: u128 = 8u128 * (body_len as u128) / (dur as u128);
            resource.mbps_x1000 = Some(
                if rate128 > u64::MAX as u128 {
                    u64::MAX
                } else {
                    rate128 as u64
                },
            );
        }

        let mut headers = HttpHeaders::new();
        let mut i: usize = 0;
        while i < header_lines.len()
            invariant
                i <= header_lines@.len(),
                headers.wf_names(),
                forall|m: int|
                    0 <= m < headers.entries@.len() ==> !spec_is_hop_by_hop(
                        lower_bytes((#[trigger] headers.entries@[m]).name_bytes()),
                    ),
            decreases header_lines@.len() - i,
        {
            let line = &header_lines[i];
            if !is_hop_by_hop(line.0.as_str()) {
                let ghost pre = headers;
                let name = line.0.clone();
                headers.add_line(name, line.1.clone());
                proof {
                    lemma_add_line_keeps_shape(pre, headers, name@);
                }
            }
            i = i + 1;
        }
        match headers.get("content-type") {
            Some(v) => {
                let first_value = v.first();
                resource.content_type_mime = Some(crate::processor::mime_of(first_value));
                resource.content_charset = crate::utils::extract_charset_from_content_type(
                    first_value,
                );
            },
            None => {},
        }
        match headers.get("content-encoding") {
            Some(v) => {
                let first = v.first();
                match ContentEncodingType::from_str(first) {
                    Ok(enc) => {
                        resource.content_encoding = Some(enc);
                    },
                    Err(_) => {},
                }
            },
            None => {},
        }
        resource.raw_headers = Some(headers);
        resource.raw_body = Some(body);
        self.inventory.resources.push(resource);
        proof {
            assert(self.queues@ == mid.queues@);
            assert(self.queue_of(peer@) == mid.queue_of(peer@));
            assert forall|p2: Seq<char>|
                p2 != peer@ implies #[trigger] self.queue_of(p2) == old(self).queue_of(p2) by {
                assert(mid.queue_of(p2) == old(self).queue_of(p2));
                assert(self.queue_of(p2) == mid.queue_of(p2));
            }
        }
    }
}

/// Adding one header line preserves unique names, and any pointwise
/// predicate on names survives when the new name satisfies it: `add_line`
/// either updates an entry in place, keeping its name, or appends the new
/// name when it was absent.
proof fn lemma_add_line_keeps_shape(pre: HttpHeaders, post: HttpHeaders, name: Seq<char>)
    requires
        match pre.spec_find(encode_utf8(name)) {
            Some(i) => post.entries@.len() == pre.entries@.len() && post.entries@[i].name
                == pre.entries@[i].name && forall|j: int|
                0 <= j < pre.entries@.len() && j != i ==> post.entries@[j] == pre.entries@[j],
            None => post.entries@.len() == pre.entries@.len() + 1 && post.entries@.last().name@
                == name && forall|j: int|
                0 <= j < pre.entries@.len() ==> post.entries@[j] == pre.entries@[j],
        },
    ensures
        forall|m: int|
            0 <= m < post.entries@.len() ==> exists|j: int|
                0 <= j < pre.entries@.len() && (#[trigger] post.entries@[m]).name_bytes() == (
                #[trigger] pre.entries@[j]).name_bytes() || post.entries@[m].name_bytes()
                    == encode_utf8(name),
        pre.wf_names() ==> post.wf_names(),
{
    match pre.spec_find(encode_utf8(name)) {
        Some(i) => {
            assert forall|m: int|
                0 <= m < post.entries@.len() implies exists|j: int|
                0 <= j < pre.entries@.len() && (#[trigger] post.entries@[m]).name_bytes() == (
                #[trigger] pre.entries@[j]).name_bytes() || post.entries@[m].name_bytes()
                    == encode_utf8(name) by {
                if m == i {
                    assert(post.entries@[m].name_bytes() == pre.entries@[m].name_bytes());
                } else {
                    assert(post.entries@[m] == pre.entries@[m]);
                }
                assert(0 <= m < pre.entries@.len() && post.entries@[m].name_bytes()
                    == pre.entries@[m].name_bytes());
            }
            if pre.wf_names() {
                assert forall|a: int, b: int|
                    0 <= a < b < post.entries@.len() implies (
                #[trigger] post.entries@[a]).name_bytes() != (
                #[trigger] post.entries@[b]).name_bytes() by {
                    assert(post.entries@[a].name_bytes() == pre.entries@[a].name_bytes());
                    assert(post.entries@[b].name_bytes() == pre.entries@[b].name_bytes());
                }
            }
        },
        None => {
            let n = pre.entries@.len() as int;
            assert forall|j: int| 0 <= j < n implies pre.entries@[j].name_bytes() != encode_utf8(
                name,
            ) by {
                if pre.entries@[j].name_bytes() == encode_utf8(name) {
                    assert(pre.spec_has(encode_utf8(name)));
                }
            }
            assert forall|m: int|
                0 <= m < post.entries@.len() implies exists|j: int|
                0 <= j < pre.entries@.len() && (#[trigger] post.entries@[m]).name_bytes() == (
                #[trigger] pre.entries@[j]).name_bytes() || post.entries@[m].name_bytes()
                    == encode_utf8(name) by {
                if m < n {
                    assert(post.entries@[m] == pre.entries@[m]);
                    assert(0 <= m < pre.entries@.len() && post.entries@[m].name_bytes()
                        == pre.entries@[m].name_bytes());
                } else {
                    assert(post.entries@[m].name_bytes() == encode_utf8(name));
                }
            }
            if pre.wf_names() {
                assert forall|a: int, b: int|
                    0 <= a < b < post.entries@.len() implies (
                #[trigger] post.entries@[a]).name_bytes() != (
                #[trigger] post.entries@[b]).name_bytes() by {
                    if b < n {
                        assert(post.entries@[a] == pre.entries@[a]);
                        assert(post.entries@[b] == pre.entries@[b]);
                    } else {
                        assert(post.entries@[a] == pre.entries@[a]);
                        assert(post.entries@[b].name_bytes() == encode_utf8(name));
                    }
                }
            }
        },
    }
}

/// When slot `i` holds `peer`, the session's queue lookup resolves to `i`.
proof fn lemma_queue_index_is(s: RecordingSession, peer: Seq<char>, i: int)
    requires
        s.wf(),
        0 <= i < s.queues@.len(),
        s.queues@[i].0@ == peer,
    ensures
        s.spec_queue_index(peer) == Some(i),
{
    assert(exists|j: int| 0 <= j < s.queues@.len() && (#[trigger] s.queues@[j]).0@ == peer);
    let k = choose|j: int| 0 <= j < s.queues@.len() && (#[trigger] s.queues@[j]).0@ == peer;
    if k != i {
        if k < i {
            assert(s.queues@[k].0@ != s.queues@[i].0@);
        } else {
            assert(s.queues@[i].0@ != s.queues@[k].0@);
        }
    }
}

/// Updating slot `i` (the slot of `peer`) with one more request changes only
/// that peer's queue, appending the request.
proof fn lemma_update_queue(
    pre: RecordingSession,
    post: RecordingSession,
    peer: Seq<char>,
    i: int,
    info: RequestInfo,
)
    requires
        pre.wf(),
        0 <= i < pre.queues@.len(),
        pre.queues@[i].0@ == peer,
        post.queues@ == pre.queues@.update(i, (pre.queues@[i].0, post.queues@[i].1)),
        post.queues@[i].1@ == pre.queues@[i].1@.push(info),
        post.inventory == pre.inventory,
        post.request_counter == pre.request_counter,
    ensures
        post.wf(),
        post.queue_of(peer) == pre.queue_of(peer).push(info),
        forall|p2: Seq<char>| p2 != peer ==> #[trigger] post.queue_of(p2) == pre.queue_of(p2),
{
    assert forall|a: int, b: int|
        0 <= a < b < post.queues@.len() implies (#[trigger] post.queues@[a]).0@ != (
    #[trigger] post.queues@[b]).0@ by {
        assert(post.queues@[a].0@ == pre.queues@[a].0@);
        assert(post.queues@[b].0@ == pre.queues@[b].0@);
    }
    lemma_queue_index_is(pre, peer, i);
    lemma_queue_index_is(post, peer, i);
    assert forall|p2: Seq<char>| p2 != peer implies #[trigger] post.queue_of(p2) == pre.queue_of(
        p2,
    ) by {
        match pre.spec_queue_index(p2) {
            Some(k) => {
                assert(pre.queues@[k].0@ == p2);
                assert(k != i);
                assert(post.queues@[k].0@ == p2);
                lemma_queue_index_is(post, p2, k);
            },
            None => {
                assert(post.spec_queue_index(p2) is None) by {
                    match post.spec_queue_index(p2) {
                        Some(m) => {
                            assert(post.queues@[m].0@ == p2);
                            assert(pre.queues@[m].0@ == p2);
                        },
                        None => {},
                    }
                }
            },
        }
    }
}

/// Removing the head of slot `i` (the slot of `peer`) changes only that
/// peer's queue, dropping its first request.
proof fn lemma_pop_queue(pre: RecordingSession, post: RecordingSession, peer: Seq<char>, i: int)
    requires
        pre.wf(),
        0 <= i < pre.queues@.len(),
        pre.queues@[i].0@ == peer,
        post.queues@ == pre.queues@.update(i, (pre.queues@[i].0, post.queues@[i].1)),
        post.queues@[i].1@ == pre.queues@[i].1@.drop_first(),
        post.inventory == pre.inventory,
        post.request_counter == pre.request_counter,
    ensures
        post.wf(),
        post.queue_of(peer) == pre.queue_of(peer).drop_first(),
        forall|p2: Seq<char>| p2 != peer ==> #[trigger] post.queue_of(p2) == pre.queue_of(p2),
{
    assert forall|a: int, b: int|
        0 <= a < b < post.queues@.len() implies (#[trigger] post.queues@[a]).0@ != (
    #[trigger] post.queues@[b]).0@ by {
        assert(post.queues@[a].0@ == pre.queues@[a].0@);
        assert(post.queues@[b].0@ == pre.queues@[b].0@);
    }
    lemma_queue_index_is(pre, peer, i);
    lemma_queue_index_is(post, peer, i);
    assert forall|p2: Seq<char>| p2 != peer implies #[trigger] post.queue_of(p2) == pre.queue_of(
        p2,
    ) by {
        match pre.spec_queue_index(p2) {
            Some(k) => {
                assert(pre.queues@[k].0@ == p2);
                assert(k != i);
                assert(post.queues@[k].0@ == p2);
                lemma_queue_index_is(post, p2, k);
            },
            None => {
                assert(post.spec_queue_index(p2) is None) by {
                    match post.spec_queue_index(p2) {
                        Some(m) => {
                            assert(post.queues@[m].0@ == p2);
                            assert(pre.queues@[m].0@ == p2);
                        },
                        None => {},
                    }
                }
            },
        }
    }
}

/// Appending a fresh queue for a new peer leaves every other queue alone and
/// gives the new peer exactly the one request.
proof fn lemma_push_queue(pre: RecordingSession, post: RecordingSession, info: RequestInfo)
    requires
        pre.wf(),
        pre.spec_queue_index(post.queues@.last().0@) is None,
        post.queues@ == pre.queues@.push(post.queues@.last()),
        post.queues@.last().1@ == seq![info],
        post.inventory == pre.inventory,
    ensures
        post.wf(),
        post.queue_of(post.queues@.last().0@) == pre.queue_of(post.queues@.last().0@).push(info),
        forall|p2: Seq<char>|
            p2 != post.queues@.last().0@ ==> #[trigger] post.queue_of(p2) == pre.queue_of(p2),
{
    let peer = post.queues@.last().0@;
    let n = pre.queues@.len() as int;
    assert forall|a: int, b: int|
        0 <= a < b < post.queues@.len() implies (#[trigger] post.queues@[a]).0@ != (
    #[trigger] post.queues@[b]).0@ by {
        if b < n {
            assert(post.queues@[a].0@ == pre.queues@[a].0@);
            assert(post.queues@[b].0@ == pre.queues@[b].0@);
        } else {
            assert(post.queues@[b].0@ == peer);
            assert(post.queues@[a].0@ == pre.queues@[a].0@);
            if pre.queues@[a].0@ == peer {
                assert(pre.spec_queue_index(peer) is Some) by {
                    assert((pre.queues@[a]).0@ == peer);
                }
            }
        }
    }
    lemma_queue_index_is(post, peer, n);
    assert(pre.queue_of(peer) =~= Seq::<RequestInfo>::empty());
    assert(post.queue_of(peer) =~= pre.queue_of(peer).push(info));
    assert forall|p2: Seq<char>| p2 != peer implies #[trigger] post.queue_of(p2) == pre.queue_of(
        p2,
    ) by {
        match pre.spec_queue_index(p2) {
            Some(k) => {
                assert(pre.queues@[k].0@ == p2);
                assert(post.queues@[k].0@ == p2);
                lemma_queue_index_is(post, p2, k);
            },
            None => {
                assert(post.spec_queue_index(p2) is None) by {
                    match post.spec_queue_index(p2) {
                        Some(m) => {
                            assert(post.queues@[m].0@ == p2);
                            if m < n {
                                assert(pre.queues@[m].0@ == p2);
                            }
                        },
                        None => {},
                    }
                }
            },
        }
    }
}

/// Pairing correctness: under any schedule of requests on one connection,
/// the i-th response is paired with the i-th request. `on_request` appends
/// to the connection's FIFO and `take_matching_request` removes its head, so
/// after `k` responses the next response on a queue that held `q` is paired
/// with `q[k]`.
pub proof fn lemma_fifo_pairing(q: Seq<RequestInfo>, k: int)
    requires
        0 <= k < q.len(),
    ensures
        q.skip(k).first() == q[k],
        q.skip(k).drop_first() == q.skip(k + 1),
{
    assert(q.skip(k).first() == q[k]);
    assert(q.skip(k).drop_first() =~= q.skip(k + 1));
}

} // verus!
