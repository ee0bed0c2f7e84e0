//! Byte-level text utilities: ASCII case folding, substring search, trimming,
//! hex and percent encoding, and the bridge from byte buffers back to `String`.
//!
//! All text processing in this crate works on UTF-8 byte sequences, which keeps
//! positions stable under ASCII-only case folding.

use vstd::prelude::*;
use vstd::string::StringSliceAdditionalSpecFns;
use vstd::utf8::{
    encode_utf8_valid_utf8, is_ascii_chars, is_ascii_chars_encode_utf8, valid_utf8,
};

verus! {

/// ASCII lower-casing of one byte: `A`..`Z` map to `a`..`z`, all else unchanged.
pub open spec fn lower_byte_spec(b: u8) -> u8 {
    if 65 <= b <= 90 {
        (b + 32) as u8
    } else {
        b
    }
}

/// ASCII lower-casing of a whole byte sequence.
pub open spec fn lower_bytes(s: Seq<u8>) -> Seq<u8> {
    s.map_values(|b: u8| lower_byte_spec(b))
}

/// Every byte is ASCII (below 128).
pub open spec fn is_ascii_bytes(s: Seq<u8>) -> bool {
    forall|i: int| 0 <= i < s.len() ==> s[i] < 128
}

/// The needle `n` occurs in `h` at position `i`.
pub open spec fn matches_at(h: Seq<u8>, n: Seq<u8>, i: int) -> bool {
    0 <= i && i + n.len() <= h.len() && h.subrange(i, i + n.len() as int) == n
}

/// Position of the first occurrence of `n` in `h`, if any.
pub open spec fn find_spec(h: Seq<u8>, n: Seq<u8>) -> Option<int>
    decreases h.len(),
{
    if n.len() == 0 {
        Some(0)
    } else if h.len() < n.len() {
        None
    } else if h.subrange(0, n.len() as int) == n {
        Some(0)
    } else {
        match find_spec(h.drop_first(), n) {
            Some(i) => Some(i + 1),
            None => None,
        }
    }
}

/// `find_spec` returns the first match: a match where it points, and none earlier;
/// `None` only when there is no match at all.
pub proof fn lemma_find_spec(h: Seq<u8>, n: Seq<u8>)
    ensures
        match find_spec(h, n) {
            Some(i) => matches_at(h, n, i) && forall|j: int| 0 <= j < i ==> !matches_at(h, n, j),
            None => forall|j: int| !matches_at(h, n, j),
        },
    decreases h.len(),
{
    if n.len() == 0 {
        assert(h.subrange(0, 0) =~= n);
    } else if h.len() < n.len() {
        assert forall|j: int| !matches_at(h, n, j) by {}
    } else if h.subrange(0, n.len() as int) == n {
    } else {
        lemma_find_spec(h.drop_first(), n);
        let t = h.drop_first();
        assert forall|j: int| 1 <= j && matches_at(h, n, j) implies matches_at(t, n, j - 1) by {
            assert(t.subrange(j - 1, j - 1 + n.len() as int) =~= h.subrange(j, j + n.len() as int));
        }
        assert forall|j: int| 0 <= j && matches_at(t, n, j) implies matches_at(h, n, j + 1) by {
            assert(h.subrange(j + 1, j + 1 + n.len() as int) =~= t.subrange(j, j + n.len() as int));
        }
        match find_spec(t, n) {
            Some(i) => {
                assert(matches_at(h, n, i + 1));
                assert forall|j: int| 0 <= j < i + 1 implies !matches_at(h, n, j) by {
                    if j == 0 {
                        assert(h.subrange(0, n.len() as int) != n);
                    }
                }
            },
            None => {
                assert forall|j: int| !matches_at(h, n, j) by {
                    if j == 0 {
                        assert(h.subrange(0, n.len() as int) != n);
                    }
                }
            },
        }
    }
}

/// Whether two byte slices hold the same bytes.
pub fn bytes_eq(a: &[u8], b: &[u8]) -> (r: bool)
    ensures
        r == (a@ == b@),
{
    if a.len() != b.len() {
        proof {
            assert(a@.len() != b@.len());
        }
        return false;
    }
    let mut i: usize = 0;
    while i < a.len()
        invariant
            i <= a.len(),
            a.len() == b.len(),
            forall|j: int| 0 <= j < i as int ==> a@[j] == b@[j],
        decreases a.len() - i,
    {
        if a[i] != b[i] {
            return false;
        }
        i = i + 1;
    }
    proof {
        assert(a@ =~= b@);
    }
    true
}

/// ASCII lower-casing of a byte slice into a fresh vector.
pub fn to_lower_bytes(s: &[u8]) -> (r: Vec<u8>)
    ensures
        r@ == lower_bytes(s@),
{
    let mut out: Vec<u8> = Vec::new();
    let mut i: usize = 0;
    while i < s.len()
        invariant
            i <= s.len(),
            out@.len() == i as int,
            forall|j: int| 0 <= j < i as int ==> out@[j] == lower_byte_spec(s@[j]),
        decreases s.len() - i,
    {
        let b = s[i];
        if 65 <= b && b <= 90 {
            out.push(b + 32);
        } else {
            out.push(b);
        }
        i = i + 1;
    }
    proof {
        assert(out@ =~= lower_bytes(s@));
    }
    out
}

/// Position of the first occurrence of `needle` in `haystack`, if any.
pub fn find_sub(haystack: &[u8], needle: &[u8]) -> (r: Option<usize>)
    ensures
        match r {
            Some(i) => Some(i as int) == find_spec(haystack@, needle@),
            None => find_spec(haystack@, needle@) is None,
        },
{
    proof {
        lemma_find_spec(haystack@, needle@);
    }
    if needle.len() == 0 {
        return Some(0);
    }
    if haystack.len() < needle.len() {
        return None;
    }
    let mut i: usize = 0;
    while i <= haystack.len() - needle.len()
        invariant
            1 <= needle.len() <= haystack.len(),
            i <= haystack.len() - needle.len() + 1,
            forall|j: int| 0 <= j < i as int ==> !matches_at(haystack@, needle@, j),
        decreases haystack.len() - i,
    {
        let mut k: usize = 0;
        let mut hit = true;
        while k < needle.len()
            invariant
                hit ==> forall|m: int| 0 <= m < k as int ==> haystack@[i as int + m] == needle@[m],
                i + needle.len() <= haystack.len(),
                k <= needle.len(),
                !hit ==> !matches_at(haystack@, needle@, i as int),
            decreases needle.len() - k,
        {
            if haystack[i + k] != needle[k] {
                proof {
                    assert(haystack@.subrange(i as int, i as int + needle@.len() as int)[k as int]
                        != needle@[k as int]);
                }
                hit = false;
                k = needle.len();
            } else {
                k = k + 1;
            }
        }
        if hit {
            proof {
                assert(haystack@.subrange(i as int, i as int + needle@.len() as int) =~= needle@);
                lemma_find_spec(haystack@, needle@);
                match find_spec(haystack@, needle@) {
                    Some(p) => {
                        if p < i as int {
                        } else if p > i as int {
                            assert(!matches_at(haystack@, needle@, i as int));
                        }
                    },
                    None => {
                        assert(!matches_at(haystack@, needle@, i as int));
                    },
                }
            }
            return Some(i);
        }
        i = i + 1;
    }
    proof {
        assert forall|j: int| !matches_at(haystack@, needle@, j) by {
            if 0 <= j && j + needle@.len() <= haystack@.len() {
                assert(j < i as int);
            }
        }
    }
    None
}

/// Whether `s` starts with `prefix`.
pub fn starts_with_bytes(s: &[u8], prefix: &[u8]) -> (r: bool)
    ensures
        r == (prefix@.len() <= s@.len() && s@.subrange(0, prefix@.len() as int) == prefix@),
{
    if s.len() < prefix.len() {
        return false;
    }
    let mut i: usize = 0;
    while i < prefix.len()
        invariant
            prefix.len() <= s.len(),
            i <= prefix.len(),
            forall|j: int| 0 <= j < i as int ==> s@[j] == prefix@[j],
        decreases prefix.len() - i,
    {
        if s[i] != prefix[i] {
            proof {
                assert(s@.subrange(0, prefix@.len() as int)[i as int] != prefix@[i as int]);
            }
            return false;
        }
        i = i + 1;
    }
    proof {
        assert(s@.subrange(0, prefix@.len() as int) =~= prefix@);
    }
    true
}

/// An ASCII byte sequence is valid UTF-8.
pub proof fn lemma_ascii_bytes_valid_utf8(s: Seq<u8>)
    requires
        is_ascii_bytes(s),
    ensures
        valid_utf8(s),
{
    let cs = s.map_values(|b: u8| b as char);
    assert(is_ascii_chars(cs));
    is_ascii_chars_encode_utf8(cs);
    encode_utf8_valid_utf8(cs);
    assert(vstd::utf8::encode_utf8(cs) =~= s);
}

/// Relies on `String::from_utf8`: valid UTF-8 bytes decode to the string whose
/// UTF-8 form is exactly those bytes.
#[verifier::external_body]
pub(crate) fn string_from_utf8_bytes(v: Vec<u8>) -> (r: String)
    requires
        valid_utf8(v@),
    ensures
        vstd::utf8::encode_utf8(r@) == v@,
{
    match String::from_utf8(v) {
        Ok(s) => s,
        Err(e) => String::from_utf8_lossy(e.as_bytes()).into_owned(),
    }
}

/// What `String::from_utf8_lossy` decodes the given bytes to: valid UTF-8
/// unchanged, malformed sequences replaced.
pub uninterp spec fn lossy_of(v: Seq<u8>) -> Seq<char>;

/// Relies on `String::from_utf8_lossy`: input that is already valid UTF-8
/// comes back byte-for-byte; any input decodes to its replacement-character
/// reading.
#[verifier::external_body]
pub(crate) fn string_from_bytes_lossy(v: &[u8]) -> (r: String)
    ensures
        r@ == lossy_of(v@),
        valid_utf8(v@) ==> vstd::utf8::encode_utf8(r@) == v@,
{
    String::from_utf8_lossy(v).into_owned()
}


/// An ASCII whitespace byte: space, tab, line feed, vertical tab, form feed, or
/// carriage return.
pub open spec fn is_ws_spec(b: u8) -> bool {
    b == 32 || b == 9 || b == 10 || b == 11 || b == 12 || b == 13
}

/// A double-quote byte.
pub open spec fn is_quote_spec(b: u8) -> bool {
    b == 34
}

/// Length of the longest prefix of `s` whose bytes all satisfy `p`.
pub open spec fn prefix_len_p(s: Seq<u8>, p: spec_fn(u8) -> bool) -> int
    decreases s.len(),
{
    if s.len() > 0 && p(s[0]) {
        1 + prefix_len_p(s.drop_first(), p)
    } else {
        0
    }
}

/// Length of the longest suffix of `s` whose bytes all satisfy `p`.
pub open spec fn suffix_len_p(s: Seq<u8>, p: spec_fn(u8) -> bool) -> int
    decreases s.len(),
{
    if s.len() > 0 && p(s.last()) {
        1 + suffix_len_p(s.drop_last(), p)
    } else {
        0
    }
}

/// `s` with leading and trailing bytes satisfying `p` removed.
pub open spec fn trim_p(s: Seq<u8>, p: spec_fn(u8) -> bool) -> Seq<u8> {
    let k = prefix_len_p(s, p);
    let t = s.subrange(k, s.len() as int);
    t.subrange(0, t.len() - suffix_len_p(t, p))
}

/// The longest `p`-prefix: its bytes satisfy `p`, and it ends at the first byte
/// that does not.
pub proof fn lemma_prefix_len_p(s: Seq<u8>, p: spec_fn(u8) -> bool)
    ensures
        0 <= prefix_len_p(s, p) <= s.len(),
        forall|j: int| 0 <= j < prefix_len_p(s, p) ==> p(s[j]),
        prefix_len_p(s, p) < s.len() ==> !p(s[prefix_len_p(s, p)]),
    decreases s.len(),
{
    if s.len() > 0 && p(s[0]) {
        lemma_prefix_len_p(s.drop_first(), p);
        let t = s.drop_first();
        assert forall|j: int| 0 <= j < prefix_len_p(s, p) implies p(s[j]) by {
            if j > 0 {
                assert(s[j] == t[j - 1]);
            }
        }
    }
}

/// The longest `p`-suffix: its bytes satisfy `p`, and it starts just after the
/// last byte that does not.
pub proof fn lemma_suffix_len_p(s: Seq<u8>, p: spec_fn(u8) -> bool)
    ensures
        0 <= suffix_len_p(s, p) <= s.len(),
        forall|j: int| s.len() - suffix_len_p(s, p) <= j < s.len() ==> p(s[j]),
        suffix_len_p(s, p) < s.len() ==> !p(s[s.len() - suffix_len_p(s, p) - 1]),
    decreases s.len(),
{
    if s.len() > 0 && p(s.last()) {
        lemma_suffix_len_p(s.drop_last(), p);
        let t = s.drop_last();
        assert forall|j: int| s.len() - suffix_len_p(s, p) <= j < s.len() implies p(s[j]) by {
            if j < s.len() - 1 {
                assert(s[j] == t[j]);
            }
        }
    }
}

/// Whether a byte is ASCII whitespace.
pub fn is_ws(b: u8) -> (r: bool)
    ensures
        r == is_ws_spec(b),
{
    b == 32 || b == 9 || b == 10 || b == 11 || b == 12 || b == 13
}

/// Whether a byte is a double quote.
pub fn is_quote(b: u8) -> (r: bool)
    ensures
        r == is_quote_spec(b),
{
    b == 34
}

/// `s` with leading and trailing ASCII whitespace removed.
#[verifier::loop_isolation(false)]
pub fn trim_ws_bytes(s: &[u8]) -> (r: Vec<u8>)
    ensures
        r@ == trim_p(s@, |b: u8| is_ws_spec(b)),
{
    let ghost p = |b: u8| is_ws_spec(b);
    proof {
        lemma_prefix_len_p(s@, p);
    }
    let mut a: usize = 0;
    while a < s.len() && is_ws(s[a])
        invariant
            a <= s.len(),
            forall|j: int| 0 <= j < a as int ==> p(s@[j]),
        decreases s.len() - a,
    {
        a = a + 1;
    }
    proof {
        let k = prefix_len_p(s@, p);
        assert(a as int == k) by {
            if (a as int) < k {
                assert(p(s@[a as int]));
            } else if k < a as int {
                assert(p(s@[k]));
            }
        }
    }
    let ghost t = s@.subrange(a as int, s@.len() as int);
    proof {
        lemma_suffix_len_p(t, p);
    }
    let mut b: usize = s.len();
    while b > a && is_ws(s[b - 1])
        invariant
            a <= b <= s.len(),
            forall|j: int| b as int <= j < s.len() ==> p(s@[j]),
        decreases b,
    {
        b = b - 1;
    }
    proof {
        let m = suffix_len_p(t, p);
        let c = b as int - a as int;
        assert forall|j: int| b as int - a as int <= j < t.len() implies p(t[j]) by {
            assert(t[j] == s@[j + a as int]);
        }
        assert(t.len() - c == m) by {
            if t.len() - c < m {
                assert(c - 1 >= t.len() - m);
                assert(p(t[c - 1]));
                assert(t[c - 1] == s@[b as int - 1]);
            } else if m < t.len() - c {
                assert(!p(t[t.len() - m - 1]));
                assert(t.len() - m - 1 >= c);
                assert(t[t.len() - m - 1] == s@[t.len() - m - 1 + a as int]);
                assert(t.len() - m - 1 + a as int >= b as int);
            }
        }
    }
    let mut out: Vec<u8> = Vec::new();
    let mut i: usize = a;
    while i < b
        invariant
            a <= i <= b,
            out@.len() == i - a,
            forall|j: int| 0 <= j < out@.len() ==> out@[j] == s@[j + a as int],
        decreases b - i,
    {
        out.push(s[i]);
        i = i + 1;
    }
    proof {
        assert(out@ =~= trim_p(s@, p));
    }
    out
}

/// `s` with leading and trailing double quotes removed.
#[verifier::loop_isolation(false)]
pub fn trim_quotes_bytes(s: &[u8]) -> (r: Vec<u8>)
    ensures
        r@ == trim_p(s@, |b: u8| is_quote_spec(b)),
{
    let ghost p = |b: u8| is_quote_spec(b);
    proof {
        lemma_prefix_len_p(s@, p);
    }
    let mut a: usize = 0;
    while a < s.len() && is_quote(s[a])
        invariant
            a <= s.len(),
            forall|j: int| 0 <= j < a as int ==> p(s@[j]),
        decreases s.len() - a,
    {
        a = a + 1;
    }
    proof {
        let k = prefix_len_p(s@, p);
        assert(a as int == k) by {
            if (a as int) < k {
                assert(p(s@[a as int]));
            } else if k < a as int {
                assert(p(s@[k]));
            }
        }
    }
    let ghost t = s@.subrange(a as int, s@.len() as int);
    proof {
        lemma_suffix_len_p(t, p);
    }
    let mut b: usize = s.len();
    while b > a && is_quote(s[b - 1])
        invariant
            a <= b <= s.len(),
            forall|j: int| b as int <= j < s.len() ==> p(s@[j]),
        decreases b,
    {
        b = b - 1;
    }
    proof {
        let m = suffix_len_p(t, p);
        let c = b as int - a as int;
        assert forall|j: int| b as int - a as int <= j < t.len() implies p(t[j]) by {
            assert(t[j] == s@[j + a as int]);
        }
        assert(t.len() - c == m) by {
            if t.len() - c < m {
                assert(c - 1 >= t.len() - m);
                assert(p(t[c - 1]));
                assert(t[c - 1] == s@[b as int - 1]);
            } else if m < t.len() - c {
                assert(!p(t[t.len() - m - 1]));
                assert(t.len() - m - 1 >= c);
                assert(t[t.len() - m - 1] == s@[t.len() - m - 1 + a as int]);
                assert(t.len() - m - 1 + a as int >= b as int);
            }
        }
    }
    let mut out: Vec<u8> = Vec::new();
    let mut i: usize = a;
    while i < b
        invariant
            a <= i <= b,
            out@.len() == i - a,
            forall|j: int| 0 <= j < out@.len() ==> out@[j] == s@[j + a as int],
        decreases b - i,
    {
        out.push(s[i]);
        i = i + 1;
    }
    proof {
        assert(out@ =~= trim_p(s@, p));
    }
    out
}

/// The byte for hex digit `n`, lower case: `0`..`9` then `a`..`f`.
pub open spec fn hex_digit(n: u8) -> u8 {
    if n < 10 {
        (48 + n) as u8
    } else {
        (87 + n) as u8
    }
}

/// The byte for hex digit `n`, upper case: `0`..`9` then `A`..`F`.
pub open spec fn hex_digit_upper(n: u8) -> u8 {
    if n < 10 {
        (48 + n) as u8
    } else {
        (55 + n) as u8
    }
}

/// Lower-case hex encoding: two digits per input byte, high digit first.
pub open spec fn hex_bytes(s: Seq<u8>) -> Seq<u8> {
    Seq::new(
        2 * s.len(),
        |i: int| if i % 2 == 0 {
            hex_digit(s[i / 2] / 16)
        } else {
            hex_digit(s[i / 2] % 16)
        },
    )
}

/// Hex-encode bytes with lower-case digits.
pub fn hex_encode(s: &[u8]) -> (r: Vec<u8>)
    ensures
        r@ == hex_bytes(s@),
{
    let mut out: Vec<u8> = Vec::new();
    let mut i: usize = 0;
    while i < s.len()
        invariant
            i <= s.len(),
            out@.len() == 2 * i as int,
            forall|j: int| 0 <= j < out@.len() ==> out@[j] == hex_bytes(s@)[j],
        decreases s.len() - i,
    {
        let b = s[i];
        let hi = b / 16;
        let lo = b % 16;
        out.push(if hi < 10 { 48 + hi } else { 87 + hi });
        out.push(if lo < 10 { 48 + lo } else { 87 + lo });
        i = i + 1;
    }
    proof {
        assert(out@ =~= hex_bytes(s@));
    }
    out
}

/// A byte kept as-is by percent encoding: ASCII alphanumeric, `-`, `.`, `_`, `~`.
pub open spec fn is_unreserved(b: u8) -> bool {
    (48 <= b <= 57) || (65 <= b <= 90) || (97 <= b <= 122) || b == 45 || b == 46 || b == 95
        || b == 126
}

/// Percent encoding of one byte: itself when unreserved, else `%` and two
/// upper-case hex digits.
pub open spec fn pct_byte(b: u8) -> Seq<u8> {
    if is_unreserved(b) {
        seq![b]
    } else {
        seq![37u8, hex_digit_upper(b / 16), hex_digit_upper(b % 16)]
    }
}

/// Percent encoding of a byte sequence.
pub open spec fn pct_bytes(s: Seq<u8>) -> Seq<u8>
    decreases s.len(),
{
    if s.len() == 0 {
        Seq::empty()
    } else {
        pct_byte(s[0]) + pct_bytes(s.drop_first())
    }
}

/// Percent-encode bytes, keeping unreserved bytes and expanding the rest to
/// `%XX` with upper-case hex.
#[verifier::loop_isolation(false)]
pub fn percent_encode(s: &[u8]) -> (r: Vec<u8>)
    ensures
        r@ == pct_bytes(s@),
{
    let mut out: Vec<u8> = Vec::new();
    let mut i: usize = 0;
    proof {
        assert(s@.subrange(0, s@.len() as int) =~= s@);
        assert(Seq::<u8>::empty() + pct_bytes(s@) =~= pct_bytes(s@));
    }
    while i < s.len()
        invariant
            i <= s.len(),
            pct_bytes(s@) == out@ + pct_bytes(s@.subrange(i as int, s@.len() as int)),
        decreases s.len() - i,
    {
        let ghost rest = s@.subrange(i as int, s@.len() as int);
        proof {
            assert(rest.drop_first() =~= s@.subrange(i as int + 1, s@.len() as int));
        }
        let b = s[i];
        if (48 <= b && b <= 57) || (65 <= b && b <= 90) || (97 <= b && b <= 122) || b == 45
            || b == 46 || b == 95 || b == 126 {
            out.push(b);
        } else {
            let hi = b / 16;
            let lo = b % 16;
            out.push(37);
            out.push(if hi < 10 { 48 + hi } else { 55 + hi });
            out.push(if lo < 10 { 48 + lo } else { 55 + lo });
        }
        proof {
            assert(pct_bytes(s@) == out@ + pct_bytes(s@.subrange(i as int + 1, s@.len() as int)));
        }
        i = i + 1;
    }
    proof {
        assert(s@.subrange(i as int, s@.len() as int) =~= Seq::<u8>::empty());
        assert(out@ =~= pct_bytes(s@));
    }
    out
}

/// Position of the last occurrence of `b` in `s`, if any.
pub open spec fn rfind_spec(s: Seq<u8>, b: u8) -> Option<int>
    decreases s.len(),
{
    if s.len() == 0 {
        None
    } else if s.last() == b {
        Some(s.len() - 1)
    } else {
        rfind_spec(s.drop_last(), b)
    }
}

/// `rfind_spec` points at an occurrence with none after it, and is `None` only
/// when the byte does not occur.
pub proof fn lemma_rfind_spec(s: Seq<u8>, b: u8)
    ensures
        match rfind_spec(s, b) {
            Some(i) => 0 <= i < s.len() && s[i] == b && forall|j: int| i < j < s.len() ==> s[j] != b,
            None => forall|j: int| 0 <= j < s.len() ==> s[j] != b,
        },
    decreases s.len(),
{
    if s.len() == 0 {
    } else if s.last() == b {
    } else {
        lemma_rfind_spec(s.drop_last(), b);
        let t = s.drop_last();
        assert(forall|j: int| 0 <= j < t.len() ==> s[j] == t[j]);
    }
}

/// Position of the last occurrence of byte `b` in `s`, if any.
#[verifier::loop_isolation(false)]
pub fn rfind_byte(s: &[u8], b: u8) -> (r: Option<usize>)
    ensures
        match r {
            Some(i) => Some(i as int) == rfind_spec(s@, b),
            None => rfind_spec(s@, b) is None,
        },
{
    proof {
        lemma_rfind_spec(s@, b);
    }
    let mut i: usize = s.len();
    while i > 0
        invariant
            i <= s.len(),
            forall|j: int| i as int <= j < s@.len() ==> s@[j] != b,
        decreases i,
    {
        i = i - 1;
        if s[i] == b {
            proof {
                match rfind_spec(s@, b) {
                    Some(m) => {
                        if m < i as int {
                            assert(s@[i as int] == b);
                        } else if m > i as int {
                            assert(s@[m] != b);
                        }
                    },
                    None => {
                        assert(s@[i as int] != b);
                    },
                }
            }
            return Some(i);
        }
    }
    None
}

/// The bytes of `s` from `a` (inclusive) to `b` (exclusive), copied out.
pub fn copy_range(s: &[u8], a: usize, b: usize) -> (r: Vec<u8>)
    requires
        a <= b <= s@.len(),
    ensures
        r@ == s@.subrange(a as int, b as int),
{
    let mut out: Vec<u8> = Vec::new();
    let mut i: usize = a;
    while i < b
        invariant
            a <= i <= b <= s@.len(),
            out@.len() == i - a,
            forall|j: int| 0 <= j < out@.len() ==> out@[j] == s@[j + a as int],
        decreases b - i,
    {
        out.push(s[i]);
        i = i + 1;
    }
    proof {
        assert(out@ =~= s@.subrange(a as int, b as int));
    }
    out
}

/// Append all bytes of `src` to `out`.
pub fn push_all(out: &mut Vec<u8>, src: &[u8])
    ensures
        final(out)@ == old(out)@ + src@,
{
    let mut i: usize = 0;
    while i < src.len()
        invariant
            i <= src.len(),
            out@ == old(out)@ + src@.subrange(0, i as int),
        decreases src.len() - i,
    {
        proof {
            assert(src@.subrange(0, i as int + 1) =~= src@.subrange(0, i as int).push(
                src@[i as int],
            ));
        }
        out.push(src[i]);
        i = i + 1;
    }
    proof {
        assert(src@.subrange(0, src@.len() as int) =~= src@);
    }
}


/// Relies on `String::push`: appends one character.
#[verifier::external_body]
pub(crate) fn push_char(s: &mut String, c: char)
    ensures
        final(s)@ == old(s)@.push(c),
{
    s.push(c);
}

/// The decimal digits of `n`, most significant first.
pub open spec fn dec_chars(n: nat) -> Seq<char>
    decreases n,
{
    if n < 10 {
        seq![((48 + n) as u8) as char]
    } else {
        dec_chars(n / 10).push(((48 + n % 10) as u8) as char)
    }
}

/// Append the decimal rendering of `n` to `s`.
pub fn push_decimal(s: &mut String, n: u64)
    ensures
        final(s)@ == old(s)@ + dec_chars(n as nat),
    decreases n,
{
    if n < 10 {
        push_char(s, (48 + n as u8) as char);
        proof {
            assert(s@ =~= old(s)@ + dec_chars(n as nat));
        }
    } else {
        push_decimal(s, n / 10);
        push_char(s, (48 + (n % 10) as u8) as char);
        proof {
            assert(s@ =~= old(s)@ + dec_chars(n as nat));
        }
    }
}

/// The decimal rendering of `n`.
pub fn u64_to_string(n: u64) -> (r: String)
    ensures
        r@ == dec_chars(n as nat),
{
    let mut s = String::new();
    push_decimal(&mut s, n);
    proof {
        assert(s@ =~= dec_chars(n as nat));
    }
    s
}


/// Whether two strings hold the same characters.
pub fn str_eq(a: &str, b: &str) -> (r: bool)
    ensures
        r == (a@ == b@),
{
    let r = bytes_eq(a.as_bytes(), b.as_bytes());
    proof {
        if a.spec_bytes() == b.spec_bytes() {
            vstd::utf8::encode_utf8_decode_utf8(a@);
            vstd::utf8::encode_utf8_decode_utf8(b@);
            assert(a@ == b@);
        }
    }
    r
}

} // verus!
