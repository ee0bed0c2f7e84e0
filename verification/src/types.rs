//! Core data model: header values, content encodings, recorded resources,
//! the inventory, and playback transactions.

use crate::bytetext::{bytes_eq, lower_bytes, to_lower_bytes};
use vstd::prelude::*;
use vstd::string::StringSliceAdditionalSpecFns;
use vstd::utf8::encode_utf8;

verus! {

/// An HTTP header value: a single string, or an ordered list of strings for
/// headers that repeat (such as `Set-Cookie`).
#[derive(Debug, Clone, PartialEq, Eq)]
pub enum HeaderValue {
    Single(String),
    Multiple(Vec<String>),
}

impl HeaderValue {
    /// All values of this header, oldest first.
    pub open spec fn values(self) -> Seq<Seq<char>> {
        match self {
            HeaderValue::Single(s) => seq![s@],
            HeaderValue::Multiple(v) => v@.map_values(|s: String| s@),
        }
    }

    /// Create a single-value header.
    pub fn single(value: String) -> (r: Self)
        ensures
            r == HeaderValue::Single(value),
    {
        HeaderValue::Single(value)
    }

    /// Create a multi-value header.
    pub fn multiple(values: Vec<String>) -> (r: Self)
        ensures
            r == HeaderValue::Multiple(values),
    {
        HeaderValue::Multiple(values)
    }

    /// The first value, or the empty string for an empty multi-value header.
    pub fn first(&self) -> (r: &str)
        ensures
            self.values().len() > 0 ==> r@ == self.values()[0],
            self.values().len() == 0 ==> r@ == Seq::<char>::empty(),
    {
        match self {
            HeaderValue::Single(s) => s.as_str(),
            HeaderValue::Multiple(v) => {
                if v.len() > 0 {
                    v[0].as_str()
                } else {
                    proof {
                        reveal_strlit("");
                    }
                    ""
                }
            },
        }
    }

    /// All values as a vector of string slices.
    pub fn as_vec(&self) -> (r: Vec<&str>)
        ensures
            r@.map_values(|s: &str| s@) == self.values(),
    {
        match self {
            HeaderValue::Single(s) => {
                let mut out: Vec<&str> = Vec::new();
                out.push(s.as_str());
                proof {
                    assert(out@.map_values(|t: &str| t@) =~= self.values());
                }
                out
            },
            HeaderValue::Multiple(v) => {
                let mut out: Vec<&str> = Vec::new();
                let mut i: usize = 0;
                while i < v.len()
                    invariant
                        i <= v.len(),
                        out@.len() == i as int,
                        forall|j: int| 0 <= j < i as int ==> out@.map_values(|t: &str| t@)[j] == v@[j]@,
                    decreases v.len() - i,
                {
                    out.push(v[i].as_str());
                    i = i + 1;
                }
                proof {
                    assert(out@.map_values(|t: &str| t@) =~= self.values());
                }
                out
            },
        }
    }
}

/// One named header with its value or values.
#[derive(Debug, Clone, PartialEq, Eq)]
pub struct HeaderEntry {
    pub name: String,
    pub value: HeaderValue,
}

/// The body compression named by a `Content-Encoding` header.
#[derive(Debug, Clone, PartialEq, Eq)]
pub enum ContentEncodingType {
    Gzip,
    Compress,
    Deflate,
    Br,
    Identity,
}

/// The informational device tag recorded with an inventory.
#[derive(Debug, Clone, PartialEq, Eq)]
pub enum DeviceType {
    Desktop,
    Mobile,
}

impl HeaderEntry {
    /// The entry's name as bytes.
    pub open spec fn name_bytes(self) -> Seq<u8> {
        encode_utf8(self.name@)
    }
}

/// An ordered collection of response headers. Names keep the case they were
/// recorded with; lookups compare names exactly, as the recorder stores them.
#[derive(Debug, Clone, PartialEq, Eq)]
pub struct HttpHeaders {
    pub entries: Vec<HeaderEntry>,
}

impl HttpHeaders {
    /// The position of the first entry named `name`, if any.
    pub open spec fn spec_find(self, name: Seq<u8>) -> Option<int> {
        if exists|i: int| 0 <= i < self.entries@.len() && self.entries@[i].name_bytes() == name {
            Some(choose|i: int|
                0 <= i < self.entries@.len() && self.entries@[i].name_bytes() == name && forall|
                    j: int,
                |
                    0 <= j < i ==> self.entries@[j].name_bytes() != name)
        } else {
            None
        }
    }

    /// Whether some entry is named `name`.
    pub open spec fn spec_has(self, name: Seq<u8>) -> bool {
        exists|i: int| 0 <= i < self.entries@.len() && self.entries@[i].name_bytes() == name
    }

    /// Whether the collection holds exactly this entry.
    pub open spec fn has_entry(self, name: Seq<char>, value: HeaderValue) -> bool {
        exists|i: int|
            0 <= i < self.entries@.len() && (#[trigger] self.entries@[i]).name@ == name
                && self.entries@[i].value == value
    }

    /// No two entries share a name, as when the collection was built by
    /// [`HttpHeaders::set`] and [`HttpHeaders::add_line`] alone.
    pub open spec fn wf_names(self) -> bool {
        forall|i: int, j: int|
            0 <= i < j < self.entries@.len() ==> (#[trigger] self.entries@[i]).name_bytes() != (
            #[trigger] self.entries@[j]).name_bytes()
    }

    /// The collection holds exactly one entry named `name`.
    pub open spec fn exactly_one_named(self, name: Seq<char>) -> bool {
        exists|i: int|
            0 <= i < self.entries@.len() && (#[trigger] self.entries@[i]).name@ == name
                && forall|j: int|
                0 <= j < self.entries@.len() && (#[trigger] self.entries@[j]).name@ == name
                    ==> j == i
    }

    /// An empty header collection.
    pub fn new() -> (r: Self)
        ensures
            r.entries@.len() == 0,
    {
        HttpHeaders { entries: Vec::new() }
    }

    /// The number of entries.
    pub fn len(&self) -> (r: usize)
        ensures
            r == self.entries@.len(),
    {
        self.entries.len()
    }

    /// The entry at `i`.
    pub fn entry_at(&self, i: usize) -> (r: &HeaderEntry)
        requires
            i < self.entries@.len(),
        ensures
            *r == self.entries@[i as int],
    {
        &self.entries[i]
    }

    /// The value of the first entry named exactly `name`, if any.
    pub fn get(&self, name: &str) -> (r: Option<&HeaderValue>)
        ensures
            match r {
                Some(v) => self.spec_has(name.spec_bytes()) && (match self.spec_find(
                    name.spec_bytes(),
                ) {
                    Some(i) => *v == self.entries@[i].value,
                    None => false,
                }),
                None => !self.spec_has(name.spec_bytes()),
            },
    {
        let n = name.as_bytes();
        let mut i: usize = 0;
        while i < self.entries.len()
            invariant
                i <= self.entries@.len(),
                n@ == name.spec_bytes(),
                forall|j: int|
                    0 <= j < i as int ==> self.entries@[j].name_bytes() != name.spec_bytes(),
            decreases self.entries@.len() - i,
        {
            let e = &self.entries[i];
            let eb = e.name.as_str().as_bytes();
            if bytes_eq(eb, n) {
                proof {
                    assert(self.entries@[i as int].name_bytes() == name.spec_bytes());
                    match self.spec_find(name.spec_bytes()) {
                        Some(m) => {
                            if m < i as int {
                            } else if m > i as int {
                                assert(self.entries@[i as int].name_bytes()
                                    != name.spec_bytes());
                            }
                        },
                        None => {
                            assert(self.spec_has(name.spec_bytes()));
                        },
                    }
                }
                return Some(&self.entries[i].value);
            }
            proof {
                assert(self.entries@[i as int].name_bytes() != name.spec_bytes());
            }
            i = i + 1;
        }
        None
    }

    /// A structural copy: same entry names (as values) and the same header
    /// values (as views), without relying on the derived clone, of which
    /// nothing is known.
    pub fn duplicate(&self) -> (r: HttpHeaders)
        ensures
            r.entries@.len() == self.entries@.len(),
            forall|i: int|
                0 <= i < r.entries@.len() ==> (#[trigger] r.entries@[i]).name == self.entries@[
                    i
                ].name && r.entries@[i].value.values() == self.entries@[i].value.values(),
            self.wf_names() ==> r.wf_names(),
    {
        let mut entries: Vec<HeaderEntry> = Vec::new();
        let mut i: usize = 0;
        while i < self.entries.len()
            invariant
                i <= self.entries@.len(),
                entries@.len() == i as int,
                forall|j: int|
                    0 <= j < i as int ==> (#[trigger] entries@[j]).name == self.entries@[j].name
                        && entries@[j].value.values() == self.entries@[j].value.values(),
            decreases self.entries@.len() - i,
        {
            let e = &self.entries[i];
            let value = match &e.value {
                HeaderValue::Single(s) => HeaderValue::Single(s.clone()),
                HeaderValue::Multiple(vs) => {
                    let mut out: Vec<String> = Vec::new();
                    let mut k: usize = 0;
                    while k < vs.len()
                        invariant
                            k <= vs@.len(),
                            out@.len() == k as int,
                            forall|m: int| 0 <= m < k as int ==> out@[m] == vs@[m],
                        decreases vs@.len() - k,
                    {
                        out.push(vs[k].clone());
                        k = k + 1;
                    }
                    proof {
                        assert(out@.map_values(|s: String| s@) =~= vs@.map_values(
                            |s: String| s@,
                        ));
                    }
                    HeaderValue::Multiple(out)
                },
            };
            entries.push(HeaderEntry { name: e.name.clone(), value });
            i = i + 1;
        }
        let r = HttpHeaders { entries };
        proof {
            if self.wf_names() {
                assert forall|a: int, b: int|
                    0 <= a < b < r.entries@.len() implies (#[trigger] r.entries@[a]).name_bytes()
                    != (#[trigger] r.entries@[b]).name_bytes() by {
                    assert(r.entries@[a].name == self.entries@[a].name);
                    assert(r.entries@[b].name == self.entries@[b].name);
                }
            }
        }
        r
    }

    /// Set `name` to `value`: replace the first entry with exactly that name,
    /// or append a new entry at the end.
    pub fn set(&mut self, name: String, value: HeaderValue)
        ensures
            match old(self).spec_find(encode_utf8(name@)) {
                Some(i) => final(self).entries@ == old(self).entries@.update(
                    i,
                    HeaderEntry { name, value },
                ),
                None => final(self).entries@ == old(self).entries@.push(
                    HeaderEntry { name, value },
                ),
            },
            final(self).has_entry(name@, value),
            forall|n2: Seq<char>, v2: HeaderValue|
                n2 != name@ && old(self).has_entry(n2, v2) ==> #[trigger] final(self).has_entry(
                    n2,
                    v2,
                ),
            old(self).wf_names() ==> final(self).wf_names() && final(self).exactly_one_named(
                name@,
            ),
    {
        let n = name.as_str().as_bytes_vec();
        let mut i: usize = 0;
        while i < self.entries.len()
            invariant
                i <= self.entries@.len(),
                n@ == encode_utf8(name@),
                self == old(self),
                forall|j: int|
                    0 <= j < i as int ==> self.entries@[j].name_bytes() != encode_utf8(name@),
            decreases self.entries@.len() - i,
        {
            if bytes_eq(self.entries[i].name.as_str().as_bytes(), n.as_slice()) {
                proof {
                    let nb = encode_utf8(name@);
                    match old(self).spec_find(nb) {
                        Some(m) => {
                            if m < i as int {
                                assert(old(self).entries@[m].name_bytes() == nb);
                            } else if m > i as int {
                                assert(forall|j: int|
                                    0 <= j < m ==> old(self).entries@[j].name_bytes() != nb);
                            }
                        },
                        None => {
                            assert(old(self).spec_has(nb));
                        },
                    }
                }
                self.entries.set(i, HeaderEntry { name, value });
                proof {
                    lemma_has_entry_update(*old(self), *self, i as int, name, value);
                }
                return ;
            }
            i = i + 1;
        }
        proof {
            let nb = encode_utf8(name@);
            match old(self).spec_find(nb) {
                Some(m) => {
                    assert(old(self).entries@[m].name_bytes() == nb);
                },
                None => {},
            }
        }
        self.entries.push(HeaderEntry { name, value });
        proof {
            lemma_has_entry_push(*old(self), *self, name, value);
        }
    }

    /// Record one response header line: a repeated name grows into a
    /// multi-value entry, in arrival order.
    pub fn add_line(&mut self, name: String, value: String)
        ensures
            match old(self).spec_find(encode_utf8(name@)) {
                Some(i) => final(self).entries@.len() == old(self).entries@.len() && forall|j: int|
                    0 <= j < old(self).entries@.len() && j != i ==> final(self).entries@[j] == old(
                        self,
                    ).entries@[j],
                None => final(self).entries@ == old(self).entries@.push(
                    HeaderEntry { name, value: HeaderValue::Single(value) },
                ),
            },
            match old(self).spec_find(encode_utf8(name@)) {
                Some(i) => final(self).entries@[i].name == old(self).entries@[i].name
                    && final(self).entries@[i].value.values() == old(
                    self,
                ).entries@[i].value.values().push(value@),
                None => true,
            },
    {
        let n = name.as_str().as_bytes_vec();
        let mut i: usize = 0;
        while i < self.entries.len()
            invariant
                i <= self.entries@.len(),
                n@ == encode_utf8(name@),
                self == old(self),
                forall|j: int|
                    0 <= j < i as int ==> self.entries@[j].name_bytes() != encode_utf8(name@),
            decreases self.entries@.len() - i,
        {
            if bytes_eq(self.entries[i].name.as_str().as_bytes(), n.as_slice()) {
                proof {
                    let nb = encode_utf8(name@);
                    match old(self).spec_find(nb) {
                        Some(m) => {
                            if m < i as int {
                                assert(old(self).entries@[m].name_bytes() == nb);
                            } else if m > i as int {
                                assert(forall|j: int|
                                    0 <= j < m ==> old(self).entries@[j].name_bytes() != nb);
                            }
                        },
                        None => {
                            assert(old(self).spec_has(nb));
                        },
                    }
                }
                let entry = self.entries.remove(i);
                let new_value = match entry.value {
                    HeaderValue::Single(first) => {
                        let mut vs: Vec<String> = Vec::new();
                        let ghost firstv = first@;
                        vs.push(first);
                        vs.push(value);
                        proof {
                            assert(vs@.map_values(|s: String| s@) =~= seq![firstv].push(value@));
                        }
                        HeaderValue::Multiple(vs)
                    },
                    HeaderValue::Multiple(mut vs) => {
                        let ghost oldvs = vs@;
                        vs.push(value);
                        proof {
                            assert(vs@.map_values(|s: String| s@) =~= oldvs.map_values(
                                |s: String| s@,
                            ).push(value@));
                        }
                        HeaderValue::Multiple(vs)
                    },
                };
                self.entries.insert(i, HeaderEntry { name: entry.name, value: new_value });
                proof {
                    assert(forall|j: int|
                        0 <= j < i as int ==> final(self).entries@[j] == old(self).entries@[j]);
                    assert(forall|j: int|
                        (i as int) < j < old(self).entries@.len() ==> final(self).entries@[j]
                            == old(self).entries@[j]);
                }
                return ;
            }
            i = i + 1;
        }
        proof {
            let nb = encode_utf8(name@);
            match old(self).spec_find(nb) {
                Some(m) => {
                    assert(old(self).entries@[m].name_bytes() == nb);
                },
                None => {},
            }
        }
        self.entries.push(HeaderEntry { name, value: HeaderValue::Single(value) });
    }
}

/// Replacing the entry at the position found for a name yields the new entry
/// and keeps every entry under any other name.
proof fn lemma_has_entry_update(
    old_h: HttpHeaders,
    new_h: HttpHeaders,
    i: int,
    name: String,
    value: HeaderValue,
)
    requires
        0 <= i < old_h.entries@.len(),
        old_h.entries@[i].name_bytes() == encode_utf8(name@),
        new_h.entries@ == old_h.entries@.update(i, HeaderEntry { name, value }),
    ensures
        new_h.has_entry(name@, value),
        forall|n2: Seq<char>, v2: HeaderValue|
            n2 != name@ && old_h.has_entry(n2, v2) ==> #[trigger] new_h.has_entry(n2, v2),
        old_h.wf_names() ==> new_h.wf_names() && new_h.exactly_one_named(name@),
{
    assert(new_h.entries@[i].name@ == name@);
    assert(new_h.has_entry(name@, value));
    if old_h.wf_names() {
        assert forall|a: int, b: int|
            0 <= a < b < new_h.entries@.len() implies (#[trigger] new_h.entries@[a]).name_bytes()
            != (#[trigger] new_h.entries@[b]).name_bytes() by {
            assert(new_h.entries@[a].name_bytes() == old_h.entries@[a].name_bytes());
            assert(new_h.entries@[b].name_bytes() == old_h.entries@[b].name_bytes());
        }
        assert forall|j: int|
            0 <= j < new_h.entries@.len() && (#[trigger] new_h.entries@[j]).name@ == name@
            implies j == i by {
            assert(new_h.entries@[j].name_bytes() == encode_utf8(name@));
            assert(new_h.entries@[i].name_bytes() == encode_utf8(name@));
        }
        assert(new_h.exactly_one_named(name@));
    }
    assert forall|n2: Seq<char>, v2: HeaderValue|
        n2 != name@ && old_h.has_entry(n2, v2) implies #[trigger] new_h.has_entry(n2, v2) by {
        let j = choose|j: int|
            0 <= j < old_h.entries@.len() && (#[trigger] old_h.entries@[j]).name@ == n2
                && old_h.entries@[j].value == v2;
        if j == i {
            vstd::utf8::encode_utf8_decode_utf8(n2);
            vstd::utf8::encode_utf8_decode_utf8(name@);
            assert(encode_utf8(n2) == encode_utf8(name@));
            assert(false);
        } else {
            assert(new_h.entries@[j] == old_h.entries@[j]);
            assert(new_h.has_entry(n2, v2));
        }
    }
}

/// Appending a fresh entry yields it and keeps every existing entry.
proof fn lemma_has_entry_push(old_h: HttpHeaders, new_h: HttpHeaders, name: String, value: HeaderValue)
    requires
        new_h.entries@ == old_h.entries@.push(HeaderEntry { name, value }),
        old_h.spec_find(encode_utf8(name@)) is None,
    ensures
        new_h.has_entry(name@, value),
        forall|n2: Seq<char>, v2: HeaderValue|
            old_h.has_entry(n2, v2) ==> #[trigger] new_h.has_entry(n2, v2),
        old_h.wf_names() ==> new_h.wf_names() && new_h.exactly_one_named(name@),
{
    let n = old_h.entries@.len() as int;
    assert(new_h.entries@[n].name@ == name@);
    assert(new_h.has_entry(name@, value));
    assert forall|j: int| 0 <= j < n implies old_h.entries@[j].name_bytes() != encode_utf8(
        name@,
    ) by {
        if old_h.entries@[j].name_bytes() == encode_utf8(name@) {
            assert(old_h.spec_has(encode_utf8(name@)));
        }
    }
    if old_h.wf_names() {
        assert forall|a: int, b: int|
            0 <= a < b < new_h.entries@.len() implies (#[trigger] new_h.entries@[a]).name_bytes()
            != (#[trigger] new_h.entries@[b]).name_bytes() by {
            if b < n {
                assert(new_h.entries@[a].name_bytes() == old_h.entries@[a].name_bytes());
                assert(new_h.entries@[b].name_bytes() == old_h.entries@[b].name_bytes());
            } else {
                assert(new_h.entries@[a].name_bytes() == old_h.entries@[a].name_bytes());
                assert(new_h.entries@[b].name_bytes() == encode_utf8(name@));
            }
        }
        assert forall|j: int|
            0 <= j < new_h.entries@.len() && (#[trigger] new_h.entries@[j]).name@ == name@
            implies j == n by {
            assert(new_h.entries@[j].name_bytes() == encode_utf8(name@));
        }
        assert(new_h.exactly_one_named(name@));
    }
    assert forall|n2: Seq<char>, v2: HeaderValue|
        old_h.has_entry(n2, v2) implies #[trigger] new_h.has_entry(n2, v2) by {
        let j = choose|j: int|
            0 <= j < old_h.entries@.len() && (#[trigger] old_h.entries@[j]).name@ == n2
                && old_h.entries@[j].value == v2;
        assert(new_h.entries@[j] == old_h.entries@[j]);
        assert(new_h.has_entry(n2, v2));
    }
}

impl ContentEncodingType {
    /// The encoding named by `b`, compared case-insensitively.
    pub open spec fn spec_of_bytes(b: Seq<u8>) -> Option<ContentEncodingType> {
        let low = lower_bytes(b);
        if low == "gzip".spec_bytes() {
            Some(ContentEncodingType::Gzip)
        } else if low == "compress".spec_bytes() {
            Some(ContentEncodingType::Compress)
        } else if low == "deflate".spec_bytes() {
            Some(ContentEncodingType::Deflate)
        } else if low == "br".spec_bytes() {
            Some(ContentEncodingType::Br)
        } else if low == "identity".spec_bytes() {
            Some(ContentEncodingType::Identity)
        } else {
            None
        }
    }

    /// Parse a `Content-Encoding` token, case-insensitively. Unknown tokens
    /// are rejected.
    pub fn from_str(s: &str) -> (r: Result<ContentEncodingType, String>)
        ensures
            match r {
                Ok(e) => Self::spec_of_bytes(s.spec_bytes()) == Some(e),
                Err(_) => Self::spec_of_bytes(s.spec_bytes()) is None,
            },
    {
        let low = to_lower_bytes(s.as_bytes());
        if bytes_eq(low.as_slice(), "gzip".as_bytes()) {
            Ok(ContentEncodingType::Gzip)
        } else if bytes_eq(low.as_slice(), "compress".as_bytes()) {
            Ok(ContentEncodingType::Compress)
        } else if bytes_eq(low.as_slice(), "deflate".as_bytes()) {
            Ok(ContentEncodingType::Deflate)
        } else if bytes_eq(low.as_slice(), "br".as_bytes()) {
            Ok(ContentEncodingType::Br)
        } else if bytes_eq(low.as_slice(), "identity".as_bytes()) {
            Ok(ContentEncodingType::Identity)
        } else {
            Err(String::from_str("unknown content encoding"))
        }
    }
}

/// A recorded HTTP interaction: request identity, timings, response headers,
/// and the captured body in one of its forms. Throughput is carried as
/// `mbps_x1000`, thousandths of a megabit per second, so that timing
/// arithmetic stays in integers.
#[derive(Debug, Clone)]
pub struct Resource {
    pub method: String,
    pub url: String,
    pub ttfb_ms: u64,
    pub download_end_ms: Option<u64>,
    pub mbps_x1000: Option<u64>,
    pub status_code: Option<u16>,
    pub error_message: Option<String>,
    pub raw_headers: Option<HttpHeaders>,
    pub content_encoding: Option<ContentEncodingType>,
    pub content_type_mime: Option<String>,
    pub content_charset: Option<String>,
    pub content_file_path: Option<String>,
    pub content_utf8: Option<String>,
    pub content_base64: Option<String>,
    pub minify: Option<bool>,
    pub raw_body: Option<Vec<u8>>,
}

impl Resource {
    /// A fresh resource for `(method, url)` with no timing, headers, or body.
    pub fn new(method: String, url: String) -> (r: Self)
        ensures
            r.method == method,
            r.url == url,
            r.ttfb_ms == 0,
            r.download_end_ms is None,
            r.mbps_x1000 is None,
            r.status_code is None,
            r.error_message is None,
            r.raw_headers is None,
            r.content_encoding is None,
            r.content_type_mime is None,
            r.content_charset is None,
            r.content_file_path is None,
            r.content_utf8 is None,
            r.content_base64 is None,
            r.minify is None,
            r.raw_body is None,
    {
        Resource {
            method,
            url,
            ttfb_ms: 0,
            download_end_ms: None,
            mbps_x1000: None,
            status_code: None,
            error_message: None,
            raw_headers: None,
            content_encoding: None,
            content_type_mime: None,
            content_charset: None,
            content_file_path: None,
            content_utf8: None,
            content_base64: None,
            minify: None,
            raw_body: None,
        }
    }
}

/// The persisted root: the recorded resources with the session's entry URL
/// and device tag.
#[derive(Debug, Clone)]
pub struct Inventory {
    pub entry_url: Option<String>,
    pub device_type: Option<DeviceType>,
    pub resources: Vec<Resource>,
}

impl Inventory {
    /// An empty inventory.
    pub fn new() -> (r: Self)
        ensures
            r.entry_url is None,
            r.device_type is None,
            r.resources@.len() == 0,
    {
        Inventory { entry_url: None, device_type: None, resources: Vec::new() }
    }
}

impl Default for Inventory {
    fn default() -> (r: Self)
        ensures
            r.entry_url is None,
            r.device_type is None,
            r.resources@.len() == 0,
    {
        Inventory::new()
    }
}

/// One scheduled slice of a playback body: the bytes and their target emission
/// time in milliseconds, relative to the end of the TTFB wait.
#[derive(Debug, Clone)]
pub struct BodyChunk {
    pub chunk: Vec<u8>,
    pub target_time: u64,
}

/// A fully materialized playback response: identity, timing, sanitized
/// headers, the scheduled chunks, and the target close offset.
#[derive(Debug, Clone)]
pub struct Transaction {
    pub method: String,
    pub url: String,
    pub ttfb: u64,
    pub status_code: Option<u16>,
    pub error_message: Option<String>,
    pub raw_headers: Option<HttpHeaders>,
    pub chunks: Vec<BodyChunk>,
    pub target_close_time: u64,
}

impl Transaction {
    /// The wire body: all chunk bytes, in order.
    pub open spec fn body_bytes(self) -> Seq<u8> {
        self.chunks@.map_values(|c: BodyChunk| c.chunk@).flatten()
    }
}

/// Why the content pipeline failed for a resource.
#[derive(Debug, Clone, PartialEq, Eq)]
pub enum PipelineError {
    /// The recorded URL did not parse.
    InvalidUrl,
    /// The stored body was not valid UTF-8 where text was required.
    InvalidUtf8,
    /// The recorded charset label names no known encoding.
    UnknownCharset,
    /// The stored base64 body did not decode.
    BadBase64,
    /// The compressed wire body did not decode.
    BadEncodedBody,
    /// The host file system refused a read or write.
    FileIo,
}

} // verus!
