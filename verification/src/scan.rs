//! Locating every key and value of a blanked JSONC document by byte offset.
//!
//! The scanner walks the document once, the way a recursive-descent reader
//! does, and records for each path (object keys and array indices from the
//! root) where its key and its value begin and end.

use vstd::prelude::*;
use vstd::utf8::*;
use crate::jsonc::{
    is_space_byte, next_non_space, BACKSLASH, COMMA, LBRACE, LBRACKET, QUOTE, RBRACE, RBRACKET,
};
use crate::json::{json_string_literal, strict_json_accepts};
use crate::json::{decode_json_string, entries_view, json_model, json_view, parse_json_model, Json, JsonView};
use crate::jsonc::space_byte;
use crate::text::{decimal, decimal_string, str_from_utf8};

verus! {

/// A recorded span: the path it belongs to, its first byte and the byte after it.
pub type SpanRec = (Seq<Seq<char>>, int, int);

/// The records without the one for `path`.
pub open spec fn without(t: Seq<SpanRec>, path: Seq<Seq<char>>) -> Seq<SpanRec>
    decreases t.len(),
{
    if t.len() == 0 {
        t
    } else {
        let r = without(t.drop_last(), path);
        if t.last().0 == path {
            r
        } else {
            r.push(t.last())
        }
    }
}

/// Record a span for `path`, replacing any earlier one.
pub open spec fn put(t: Seq<SpanRec>, path: Seq<Seq<char>>, start: int, end: int) -> Seq<SpanRec> {
    without(t, path).push((path, start, end))
}

/// The span recorded last for `path`.
pub open spec fn lookup(t: Seq<SpanRec>, path: Seq<Seq<char>>) -> Option<(int, int)>
    decreases t.len(),
{
    if t.len() == 0 {
        None
    } else if t.last().0 == path {
        Some((t.last().1, t.last().2))
    } else {
        lookup(t.drop_last(), path)
    }
}

/// The key spans and the value spans of a document.
pub type Tables = (Seq<SpanRec>, Seq<SpanRec>);

/// Why the scanner stopped.
#[derive(PartialEq, Eq, Structural, Clone, Copy, Debug)]
pub enum ScanError {
    UnclosedString,
    UnexpectedEnd,
    ExpectedObjectEnd,
    ExpectedArrayEnd,
    BadUtf8,
    BadJson,
}

pub open spec fn rem(t: Seq<u8>, i: int) -> int {
    if i < t.len() {
        t.len() - i
    } else {
        0
    }
}

/// Skip whitespace from `i` (nothing to skip past the end).
pub open spec fn skip_ws(t: Seq<u8>, i: int) -> int {
    if i >= t.len() {
        i
    } else {
        next_non_space(t, i)
    }
}

/// Position after the quote that closes a string whose body starts at `k`.
pub open spec fn quoted_end(t: Seq<u8>, k: int) -> Option<int>
    decreases t.len() - k,
{
    if k < 0 || k >= t.len() {
        None
    } else if t[k] == BACKSLASH {
        if k + 2 > t.len() {
            None
        } else {
            quoted_end(t, k + 2)
        }
    } else if t[k] == QUOTE {
        Some(k + 1)
    } else {
        quoted_end(t, k + 1)
    }
}

/// A string token starting at `s` (its first byte is taken as the opening
/// quote): where it ends and what it decodes to.
pub open spec fn scan_string(t: Seq<u8>, s: int) -> Result<(int, Seq<char>), ScanError> {
    match quoted_end(t, s + 1) {
        None => Err(ScanError::UnclosedString),
        Some(e) => {
            let bytes = t.subrange(s, e);
            if !valid_utf8(bytes) {
                Err(ScanError::BadUtf8)
            } else {
                match json_string_literal(decode_utf8(bytes)) {
                    Some(v) => Ok((e, v)),
                    None => Err(ScanError::BadJson),
                }
            }
        },
    }
}

pub open spec fn ends_literal(c: u8) -> bool {
    c == COMMA || c == RBRACE || c == RBRACKET || is_space_byte(c)
}

/// End of a bare literal starting at `k`.
pub open spec fn literal_end(t: Seq<u8>, k: int) -> int
    decreases t.len() - k,
{
    if k < 0 || k >= t.len() {
        t.len() as int
    } else if ends_literal(t[k]) {
        k
    } else {
        literal_end(t, k + 1)
    }
}

pub open spec fn is_keyword(b: Seq<u8>) -> bool {
    ||| b == seq![0x74u8, 0x72u8, 0x75u8, 0x65u8]
    ||| b == seq![0x66u8, 0x61u8, 0x6cu8, 0x73u8, 0x65u8]
    ||| b == seq![0x6eu8, 0x75u8, 0x6cu8, 0x6cu8]
}

/// A bare literal starting at `s`: `true`, `false`, `null`, or anything
/// serde_json reads as a value.
pub open spec fn scan_literal(t: Seq<u8>, s: int) -> Result<int, ScanError> {
    let e = literal_end(t, s);
    let bytes = t.subrange(s, e);
    if !valid_utf8(bytes) {
        Err(ScanError::BadUtf8)
    } else if is_keyword(bytes) || strict_json_accepts(decode_utf8(bytes)) {
        Ok(e)
    } else {
        Err(ScanError::BadJson)
    }
}

pub proof fn lemma_next_non_space_bounds(t: Seq<u8>, k: int)
    requires
        0 <= k <= t.len(),
    ensures
        k <= next_non_space(t, k) <= t.len(),
        next_non_space(t, k) < t.len() ==> !is_space_byte(t[next_non_space(t, k)]),
        forall|q: int| k <= q < next_non_space(t, k) ==> is_space_byte(t[q]),
    decreases t.len() - k,
{
    if k < t.len() && is_space_byte(t[k]) {
        lemma_next_non_space_bounds(t, k + 1);
    }
}

pub proof fn lemma_skip_ws(t: Seq<u8>, i: int)
    requires
        0 <= i,
    ensures
        skip_ws(t, i) >= i,
        i <= t.len() ==> skip_ws(t, i) <= t.len(),
{
    if i < t.len() {
        lemma_next_non_space_bounds(t, i);
    }
}

pub proof fn lemma_quoted_end(t: Seq<u8>, k: int)
    requires
        0 <= k,
    ensures
        quoted_end(t, k) matches Some(e) ==> k < e <= t.len() && t[e - 1] == QUOTE,
    decreases t.len() - k,
{
    if k < t.len() && t[k] == BACKSLASH && k + 2 <= t.len() {
        lemma_quoted_end(t, k + 2);
    } else if k < t.len() && t[k] != BACKSLASH && t[k] != QUOTE {
        lemma_quoted_end(t, k + 1);
    }
}

pub proof fn lemma_literal_end(t: Seq<u8>, k: int)
    requires
        0 <= k <= t.len(),
    ensures
        k <= literal_end(t, k) <= t.len(),
        forall|q: int| k <= q < literal_end(t, k) ==> !ends_literal(t[q]),
        literal_end(t, k) < t.len() ==> ends_literal(t[literal_end(t, k)]),
    decreases t.len() - k,
{
    if k < t.len() && !ends_literal(t[k]) {
        lemma_literal_end(t, k + 1);
    }
}

/// The value a bare literal reads as: `true`, `false`, `null`, or what
/// serde_json reads the token as.
pub open spec fn literal_value(b: Seq<u8>) -> JsonView {
    if b == seq![0x74u8, 0x72u8, 0x75u8, 0x65u8] {
        JsonView::Bool(true)
    } else if b == seq![0x66u8, 0x61u8, 0x6cu8, 0x73u8, 0x65u8] {
        JsonView::Bool(false)
    } else if b == seq![0x6eu8, 0x75u8, 0x6cu8, 0x6cu8] {
        JsonView::Null
    } else {
        json_model(decode_utf8(b))->0
    }
}

/// What scanning from a position gives: where it stopped, the tables, and
/// the value it read.
pub type Scanned = (int, Tables, JsonView);

/// One value starting at (or after whitespace from) `i`, recorded under
/// `path`: where it ends, the tables, and the value read (objects keep their
/// members in document order).
pub open spec fn scan_value(t: Seq<u8>, i: int, path: Seq<Seq<char>>, tb: Tables) -> Result<Scanned, ScanError>
    decreases rem(t, i), 2int,
{
    if i < 0 {
        Err(ScanError::UnexpectedEnd)
    } else {
        let j = skip_ws(t, i);
        if j >= t.len() {
            Err(ScanError::UnexpectedEnd)
        } else {
            proof {
                lemma_skip_ws(t, i);
            }
            let inner: Result<Scanned, ScanError> = if t[j] == LBRACE {
                scan_object(t, j, path, tb)
            } else if t[j] == LBRACKET {
                scan_array(t, j, path, tb)
            } else if t[j] == QUOTE {
                match scan_string(t, j) {
                    Ok((e, v)) => Ok((e, tb, JsonView::Str(v))),
                    Err(x) => Err(x),
                }
            } else {
                match scan_literal(t, j) {
                    Ok(e) => Ok((e, tb, literal_value(t.subrange(j, e)))),
                    Err(x) => Err(x),
                }
            };
            match inner {
                Ok((e, tb2, v)) => Ok((e, (tb2.0, put(tb2.1, path, j, e)), v)),
                Err(x) => Err(x),
            }
        }
    }
}

/// An object whose `{` is at `i`.
pub open spec fn scan_object(t: Seq<u8>, i: int, path: Seq<Seq<char>>, tb: Tables) -> Result<Scanned, ScanError>
    decreases rem(t, i), 1int,
{
    if i < 0 || i >= t.len() {
        Err(ScanError::UnexpectedEnd)
    } else {
        let k = skip_ws(t, i + 1);
        if k < t.len() && t[k] == RBRACE {
            Ok((k + 1, tb, JsonView::Object(Seq::empty())))
        } else {
            scan_members(t, i + 1, path, tb, Seq::empty())
        }
    }
}

/// The members of an object after those read so far (`acc`), the next one
/// starting at (or after whitespace from) `k`.
pub open spec fn scan_members(
    t: Seq<u8>,
    k: int,
    path: Seq<Seq<char>>,
    tb: Tables,
    acc: Seq<(Seq<char>, JsonView)>,
) -> Result<Scanned, ScanError>
    decreases rem(t, k), 0int,
{
    if k < 0 {
        Err(ScanError::UnexpectedEnd)
    } else {
        let ks = skip_ws(t, k);
        match scan_string(t, ks) {
            Err(x) => Err(x),
            Ok((ke, key)) => {
                proof {
                    lemma_skip_ws(t, k);
                    lemma_quoted_end(t, ks + 1);
                    lemma_skip_ws(t, ke);
                }
                let child = path.push(key);
                let tb1 = (put(tb.0, child, ks, ke), tb.1);
                let c = skip_ws(t, ke) + 1;
                match scan_value(t, c, child, tb1) {
                    Err(x) => Err(x),
                    Ok((ve, tb2, v)) => {
                        let acc2 = acc.push((key, v));
                        let a = skip_ws(t, ve);
                        if a < t.len() && t[a] == COMMA {
                            let b = skip_ws(t, a + 1);
                            if b < t.len() && t[b] == RBRACE {
                                Ok((b + 1, tb2, JsonView::Object(acc2)))
                            } else if a + 1 <= k {
                                Err(ScanError::UnexpectedEnd)
                            } else {
                                scan_members(t, a + 1, path, tb2, acc2)
                            }
                        } else if a < t.len() && t[a] == RBRACE {
                            Ok((a + 1, tb2, JsonView::Object(acc2)))
                        } else {
                            Err(ScanError::ExpectedObjectEnd)
                        }
                    },
                }
            },
        }
    }
}

/// An array whose `[` is at `i`.
pub open spec fn scan_array(t: Seq<u8>, i: int, path: Seq<Seq<char>>, tb: Tables) -> Result<Scanned, ScanError>
    decreases rem(t, i), 1int,
{
    if i < 0 || i >= t.len() {
        Err(ScanError::UnexpectedEnd)
    } else {
        let k = skip_ws(t, i + 1);
        proof {
            lemma_skip_ws(t, i + 1);
        }
        if k < t.len() && t[k] == RBRACKET {
            Ok((k + 1, tb, JsonView::Array(Seq::empty())))
        } else {
            scan_elements(t, k, path, tb, 0, Seq::empty())
        }
    }
}

/// The elements of an array from index `idx` on, after those read so far
/// (`acc`), the next one starting at (or after whitespace from) `k`.
pub open spec fn scan_elements(
    t: Seq<u8>,
    k: int,
    path: Seq<Seq<char>>,
    tb: Tables,
    idx: nat,
    acc: Seq<JsonView>,
) -> Result<Scanned, ScanError>
    decreases rem(t, k), 3int,
{
    if k < 0 {
        Err(ScanError::UnexpectedEnd)
    } else {
        match scan_value(t, k, path.push(decimal(idx)), tb) {
            Err(x) => Err(x),
            Ok((ve, tb2, v)) => {
                let acc2 = acc.push(v);
                let a = skip_ws(t, ve);
                if a < t.len() && t[a] == COMMA {
                    let b = skip_ws(t, a + 1);
                    if b < t.len() && t[b] == RBRACKET {
                        Ok((b + 1, tb2, JsonView::Array(acc2)))
                    } else if a + 1 <= k {
                        Err(ScanError::UnexpectedEnd)
                    } else {
                        scan_elements(t, a + 1, path, tb2, idx + 1, acc2)
                    }
                } else if a < t.len() && t[a] == RBRACKET {
                    Ok((a + 1, tb2, JsonView::Array(acc2)))
                } else {
                    Err(ScanError::ExpectedArrayEnd)
                }
            },
        }
    }
}

/// Scan a whole (blanked) document from its first byte.
pub open spec fn scan_document_read(t: Seq<u8>) -> Result<Scanned, ScanError> {
    scan_value(t, 0, Seq::empty(), (Seq::empty(), Seq::empty()))
}

/// Where scanning a whole document stops, and its tables.
pub open spec fn scan_document(t: Seq<u8>) -> Result<(int, Tables), ScanError> {
    match scan_document_read(t) {
        Ok((e, tb, _)) => Ok((e, tb)),
        Err(x) => Err(x),
    }
}

/// Key starts increase along the key records.
pub open spec fn sorted_starts(k: Seq<SpanRec>) -> bool {
    forall|a: int, b: int| 0 <= a < b < k.len() ==> k[a].1 < k[b].1
}

/// Well-formed tables of a document of `n` bytes scanned up to position `p`:
/// key records in document order, all before `p`; every span within the
/// document; a value below the root never starts at the first byte.
pub open spec fn spans_ok(tb: Tables, p: int, n: int) -> bool {
    &&& sorted_starts(tb.0)
    &&& forall|a: int| 0 <= a < tb.0.len() ==> 0 <= (#[trigger] tb.0[a]).1 < tb.0[a].2 <= n && tb.0[a].1 < p
    &&& forall|a: int|
        0 <= a < tb.1.len() ==> 0 <= (#[trigger] tb.1[a]).1 <= tb.1[a].2 <= n && (tb.1[a].0.len() >= 1
            ==> tb.1[a].1 >= 1)
}

pub proof fn lemma_without_subset(t: Seq<SpanRec>, path: Seq<Seq<char>>)
    ensures
        forall|x: SpanRec| #[trigger] without(t, path).contains(x) ==> t.contains(x),
        sorted_starts(t) ==> sorted_starts(without(t, path)),
        forall|x: SpanRec| #[trigger] without(t, path).contains(x) ==> x.0 != path,
    decreases t.len(),
{
    if t.len() > 0 {
        let d = t.drop_last();
        lemma_without_subset(d, path);
        let r = without(d, path);
        assert forall|x: SpanRec| #[trigger] without(t, path).contains(x) implies t.contains(x) by {
            if r.contains(x) {
                let k = choose|k: int| 0 <= k < d.len() && d[k] == x;
                assert(t[k] == x);
            } else {
                assert(t[t.len() - 1] == x);
            }
        }
        assert forall|x: SpanRec| #[trigger] without(t, path).contains(x) implies x.0 != path by {
            if !r.contains(x) {
                let k = choose|k: int|
                    0 <= k < without(t, path).len() && without(t, path)[k] == x;
                assert(k == r.len());
            }
        }
        if sorted_starts(t) {
            assert forall|x: SpanRec| #[trigger] r.contains(x) implies x.1 < t.last().1 by {
                let k = choose|k: int| 0 <= k < d.len() && d[k] == x;
                assert(t[k] == x);
            }
            assert(sorted_starts(d));
            if t.last().0 != path {
                assert forall|a: int, b: int|
                    0 <= a < b < r.push(t.last()).len() implies r.push(t.last())[a].1 < r.push(
                    t.last(),
                )[b].1 by {
                    if b == r.len() {
                        assert(r.contains(r[a]));
                    }
                }
            }
        }
    }
}

pub proof fn lemma_put_ok(tb: Seq<SpanRec>, path: Seq<Seq<char>>, s: int, e: int)
    requires
        sorted_starts(tb),
        forall|a: int| 0 <= a < tb.len() ==> (#[trigger] tb[a]).1 < s,
    ensures
        sorted_starts(put(tb, path, s, e)),
        forall|x: SpanRec| #[trigger] put(tb, path, s, e).contains(x) ==> tb.contains(x) || x == (
            path,
            s,
            e,
        ),
{
    lemma_without_subset(tb, path);
    let r = without(tb, path);
    assert forall|x: SpanRec| #[trigger] put(tb, path, s, e).contains(x) implies tb.contains(x) || x
        == (path, s, e) by {
        let k = choose|k: int| 0 <= k < put(tb, path, s, e).len() && put(tb, path, s, e)[k] == x;
        if k < r.len() {
            assert(r.contains(r[k]));
        }
    }
    assert forall|a: int, b: int|
        0 <= a < b < put(tb, path, s, e).len() implies put(tb, path, s, e)[a].1 < put(
        tb,
        path,
        s,
        e,
    )[b].1 by {
        if b == r.len() {
            assert(r.contains(r[a]));
            let k = choose|k: int| 0 <= k < tb.len() && tb[k] == r[a];
        }
    }
}

pub proof fn lemma_put_values_ok(tb: Seq<SpanRec>, path: Seq<Seq<char>>, s: int, e: int, n: int)
    requires
        forall|a: int|
            0 <= a < tb.len() ==> 0 <= (#[trigger] tb[a]).1 <= tb[a].2 <= n && (tb[a].0.len() >= 1
                ==> tb[a].1 >= 1),
        0 <= s <= e <= n,
        path.len() >= 1 ==> s >= 1,
    ensures
        forall|a: int|
            0 <= a < put(tb, path, s, e).len() ==> 0 <= (#[trigger] put(tb, path, s, e)[a]).1 <= put(
                tb,
                path,
                s,
                e,
            )[a].2 <= n && (put(tb, path, s, e)[a].0.len() >= 1 ==> put(tb, path, s, e)[a].1 >= 1),
{
    lemma_without_subset(tb, path);
    let p = put(tb, path, s, e);
    let r = without(tb, path);
    assert forall|a: int| 0 <= a < p.len() implies 0 <= (#[trigger] p[a]).1 <= p[a].2 <= n && (
    p[a].0.len() >= 1 ==> p[a].1 >= 1) by {
        if a < r.len() {
            assert(r.contains(r[a]));
            let k = choose|k: int| 0 <= k < tb.len() && tb[k] == r[a];
            assert(tb[k] == p[a]);
        }
    }
}

pub proof fn lemma_value_ok(t: Seq<u8>, i: int, path: Seq<Seq<char>>, tb: Tables)
    requires
        0 <= i,
        spans_ok(tb, i, t.len() as int),
        path.len() >= 1 ==> i >= 1,
    ensures
        scan_value(t, i, path, tb) matches Ok((e, tb2, _)) ==> i <= e <= t.len() && spans_ok(
            tb2,
            e,
            t.len() as int,
        ),
    decreases rem(t, i), 2int,
{
    let n = t.len() as int;
    let j = skip_ws(t, i);
    lemma_skip_ws(t, i);
    if j < n {
        assert(spans_ok(tb, j, n));
        let inner: Result<Scanned, ScanError> = if t[j] == LBRACE {
            lemma_object_ok(t, j, path, tb);
            scan_object(t, j, path, tb)
        } else if t[j] == LBRACKET {
            lemma_array_ok(t, j, path, tb);
            scan_array(t, j, path, tb)
        } else if t[j] == QUOTE {
            lemma_quoted_end(t, j + 1);
            match scan_string(t, j) {
                Ok((e, v)) => Ok((e, tb, JsonView::Str(v))),
                Err(x) => Err(x),
            }
        } else {
            lemma_literal_end(t, j);
            match scan_literal(t, j) {
                Ok(e) => Ok((e, tb, literal_value(t.subrange(j, e)))),
                Err(x) => Err(x),
            }
        };
        if let Ok((e, tb2, _)) = inner {
            assert(j <= e <= n);
            assert(spans_ok(tb2, e, n));
            lemma_put_values_ok(tb2.1, path, j, e, n);
        }
    }
}

pub proof fn lemma_object_ok(t: Seq<u8>, i: int, path: Seq<Seq<char>>, tb: Tables)
    requires
        0 <= i < t.len(),
        spans_ok(tb, i, t.len() as int),
    ensures
        scan_object(t, i, path, tb) matches Ok((e, tb2, _)) ==> i < e <= t.len() && spans_ok(
            tb2,
            e,
            t.len() as int,
        ),
    decreases rem(t, i), 1int,
{
    lemma_skip_ws(t, i + 1);
    lemma_members_ok(t, i + 1, path, tb, Seq::empty());
}

pub proof fn lemma_members_ok(
    t: Seq<u8>,
    k: int,
    path: Seq<Seq<char>>,
    tb: Tables,
    acc: Seq<(Seq<char>, JsonView)>,
)
    requires
        1 <= k <= t.len(),
        spans_ok(tb, k, t.len() as int),
    ensures
        scan_members(t, k, path, tb, acc) matches Ok((e, tb2, _)) ==> k <= e <= t.len() && spans_ok(
            tb2,
            e,
            t.len() as int,
        ),
    decreases rem(t, k), 0int,
{
    let n = t.len() as int;
    let ks = skip_ws(t, k);
    lemma_skip_ws(t, k);
    lemma_quoted_end(t, ks + 1);
    if let Ok((ke, key)) = scan_string(t, ks) {
        lemma_skip_ws(t, ke);
        let child = path.push(key);
        let tb1 = (put(tb.0, child, ks, ke), tb.1);
        lemma_put_ok(tb.0, child, ks, ke);
        lemma_without_subset(tb.0, child);
        assert forall|a: int| 0 <= a < tb1.0.len() implies 0 <= (#[trigger] tb1.0[a]).1 < tb1.0[a].2
            <= n && tb1.0[a].1 < ke by {
            assert(tb1.0.contains(tb1.0[a]));
            if tb.0.contains(tb1.0[a]) {
                let q = choose|q: int| 0 <= q < tb.0.len() && tb.0[q] == tb1.0[a];
            }
        }
        let c = skip_ws(t, ke) + 1;
        assert(spans_ok(tb1, c, n));
        lemma_value_ok(t, c, child, tb1);
        if let Ok((ve, tb2, v)) = scan_value(t, c, child, tb1) {
            let a = skip_ws(t, ve);
            lemma_skip_ws(t, ve);
            if a < n && t[a] == COMMA {
                let b = skip_ws(t, a + 1);
                lemma_skip_ws(t, a + 1);
                if !(b < n && t[b] == RBRACE) && a + 1 > k {
                    assert(spans_ok(tb2, a + 1, n));
                    lemma_members_ok(t, a + 1, path, tb2, acc.push((key, v)));
                }
            }
        }
    }
}

pub proof fn lemma_array_ok(t: Seq<u8>, i: int, path: Seq<Seq<char>>, tb: Tables)
    requires
        0 <= i < t.len(),
        spans_ok(tb, i, t.len() as int),
    ensures
        scan_array(t, i, path, tb) matches Ok((e, tb2, _)) ==> i < e <= t.len() && spans_ok(
            tb2,
            e,
            t.len() as int,
        ),
    decreases rem(t, i), 1int,
{
    let k = skip_ws(t, i + 1);
    lemma_skip_ws(t, i + 1);
    if !(k < t.len() && t[k] == RBRACKET) {
        assert(spans_ok(tb, k, t.len() as int));
        lemma_elements_ok(t, k, path, tb, 0, Seq::empty());
    }
}

pub proof fn lemma_elements_ok(
    t: Seq<u8>,
    k: int,
    path: Seq<Seq<char>>,
    tb: Tables,
    idx: nat,
    acc: Seq<JsonView>,
)
    requires
        1 <= k <= t.len(),
        spans_ok(tb, k, t.len() as int),
    ensures
        scan_elements(t, k, path, tb, idx, acc) matches Ok((e, tb2, _)) ==> k <= e <= t.len() && spans_ok(
            tb2,
            e,
            t.len() as int,
        ),
    decreases rem(t, k), 3int,
{
    let n = t.len() as int;
    let child = path.push(decimal(idx));
    lemma_value_ok(t, k, child, tb);
    if let Ok((ve, tb2, v)) = scan_value(t, k, child, tb) {
        let a = skip_ws(t, ve);
        lemma_skip_ws(t, ve);
        if a < n && t[a] == COMMA {
            let b = skip_ws(t, a + 1);
            lemma_skip_ws(t, a + 1);
            if !(b < n && t[b] == RBRACKET) && a + 1 > k {
                assert(spans_ok(tb2, a + 1, n));
                lemma_elements_ok(t, a + 1, path, tb2, idx + 1, acc.push(v));
            }
        }
    }
}

/// The tables of a successfully scanned document are well formed.
pub proof fn lemma_document_ok(t: Seq<u8>)
    ensures
        scan_document(t) matches Ok((e, tb)) ==> spans_ok(tb, e, t.len() as int),
{
    let tb: Tables = (Seq::empty(), Seq::empty());
    assert(spans_ok(tb, 0, t.len() as int));
    lemma_value_ok(t, 0, Seq::empty(), tb);
}

pub open spec fn path_view(p: Seq<String>) -> Seq<Seq<char>> {
    p.map_values(|s: String| s@)
}

/// One recorded span.
pub struct SpanEntry {
    pub path: Vec<String>,
    pub start: usize,
    pub end: usize,
}

impl View for SpanEntry {
    type V = SpanRec;

    open spec fn view(&self) -> SpanRec {
        (path_view(self.path@), self.start as int, self.end as int)
    }
}

/// Spans by path; at most one per path.
pub struct SpanTable {
    pub entries: Vec<SpanEntry>,
}

impl View for SpanTable {
    type V = Seq<SpanRec>;

    open spec fn view(&self) -> Seq<SpanRec> {
        self.entries@.map_values(|e: SpanEntry| e@)
    }
}

/// Key spans and value spans.
pub struct Spans {
    pub keys: SpanTable,
    pub values: SpanTable,
}

impl View for Spans {
    type V = Tables;

    open spec fn view(&self) -> Tables {
        (self.keys@, self.values@)
    }
}

pub fn same_path(a: &Vec<String>, b: &Vec<String>) -> (r: bool)
    ensures
        r == (path_view(a@) == path_view(b@)),
{
    if a.len() != b.len() {
        proof {
            assert(path_view(a@).len() != path_view(b@).len());
        }
        return false;
    }
    let mut i: usize = 0;
    while i < a.len()
        invariant
            a.len() == b.len(),
            i <= a.len(),
            forall|k: int| 0 <= k < i ==> a@[k]@ == b@[k]@,
        decreases a.len() - i,
    {
        if a[i] != b[i] {
            proof {
                assert(path_view(a@)[i as int] != path_view(b@)[i as int]);
            }
            return false;
        }
        i = i + 1;
    }
    proof {
        assert(path_view(a@) =~= path_view(b@));
    }
    true
}

pub fn clone_path(p: &Vec<String>) -> (r: Vec<String>)
    ensures
        path_view(r@) == path_view(p@),
{
    let mut r: Vec<String> = Vec::new();
    let mut i: usize = 0;
    while i < p.len()
        invariant
            i <= p.len(),
            r@.len() == i,
            forall|k: int| 0 <= k < i ==> r@[k]@ == p@[k]@,
        decreases p.len() - i,
    {
        r.push(p[i].clone());
        i = i + 1;
    }
    proof {
        assert(path_view(r@) =~= path_view(p@));
    }
    r
}

pub fn child_path(p: &Vec<String>, last: String) -> (r: Vec<String>)
    ensures
        path_view(r@) == path_view(p@).push(last@),
{
    let mut r = clone_path(p);
    r.push(last);
    proof {
        assert(path_view(r@) =~= path_view(p@).push(last@));
    }
    r
}

impl SpanTable {
    pub fn new() -> (t: SpanTable)
        ensures
            t@ == Seq::<SpanRec>::empty(),
    {
        SpanTable { entries: Vec::new() }
    }

    /// Record a span for `path`, replacing the earlier one.
    pub fn put(&mut self, path: &Vec<String>, start: usize, end: usize)
        ensures
            final(self)@ == put(old(self)@, path_view(path@), start as int, end as int),
    {
        let ghost pv = path_view(path@);
        let mut kept: Vec<SpanEntry> = Vec::new();
        let mut old_entries: Vec<SpanEntry> = Vec::new();
        std::mem::swap(&mut old_entries, &mut self.entries);
        let ghost olds = old_entries@.map_values(|e: SpanEntry| e@);
        assert(olds == old(self)@);
        let n = old_entries.len();
        let mut i: usize = 0;
        while i < n
            invariant
                n == old_entries@.len(),
                pv == path_view(path@),
                olds == old_entries@.map_values(|e: SpanEntry| e@),
                i <= n,
                kept@.map_values(|e: SpanEntry| e@) == without(olds.subrange(0, i as int), pv),
            decreases n - i,
        {
            let entry = &old_entries[i];
            let same = same_path(&entry.path, path);
            proof {
                assert(olds.subrange(0, i + 1).drop_last() =~= olds.subrange(0, i as int));
                assert(olds.subrange(0, i + 1).last() == entry@);
                assert(olds[i as int] == entry@);
                assert(without(olds.subrange(0, i + 1), pv) == (if entry@.0 == pv {
                    without(olds.subrange(0, i as int), pv)
                } else {
                    without(olds.subrange(0, i as int), pv).push(entry@)
                }));
            }
            if !same {
                let copy = SpanEntry { path: clone_path(&entry.path), start: entry.start, end: entry.end };
                kept.push(copy);
                proof {
                    assert(kept@.map_values(|e: SpanEntry| e@) =~= without(
                        olds.subrange(0, i as int),
                        pv,
                    ).push(entry@));
                }
                assert(kept@.map_values(|e: SpanEntry| e@) == without(olds.subrange(0, i + 1), pv));
            } else {
                assert(entry@.0 == pv);
                assert(kept@.map_values(|e: SpanEntry| e@) == without(olds.subrange(0, i + 1), pv));
            }
            i = i + 1;
        }
        proof {
            assert(olds.subrange(0, n as int) =~= olds);
        }
        kept.push(SpanEntry { path: clone_path(path), start, end });
        self.entries = kept;
        proof {
            assert(self@ =~= put(old(self)@, pv, start as int, end as int));
        }
    }

    /// The span recorded for `path`.
    pub fn get(&self, path: &Vec<String>) -> (r: Option<(usize, usize)>)
        ensures
            match r {
                Some((s, e)) => lookup(self@, path_view(path@)) == Some((s as int, e as int)),
                None => lookup(self@, path_view(path@)) is None,
            },
    {
        let ghost all = self@;
        let mut i = self.entries.len();
        proof {
            assert(all.subrange(0, i as int) =~= all);
        }
        while i > 0
            invariant
                i <= self.entries@.len(),
                all == self@,
                lookup(all, path_view(path@)) == lookup(all.subrange(0, i as int), path_view(path@)),
            decreases i,
        {
            let entry = &self.entries[i - 1];
            proof {
                assert(all.subrange(0, i as int).drop_last() =~= all.subrange(0, i - 1));
                assert(all.subrange(0, i as int).last() == entry@);
            }
            if same_path(&entry.path, path) {
                return Some((entry.start, entry.end));
            }
            i = i - 1;
        }
        None
    }
}

impl Spans {
    pub fn new() -> (s: Spans)
        ensures
            s@ == (Seq::<SpanRec>::empty(), Seq::<SpanRec>::empty()),
    {
        Spans { keys: SpanTable::new(), values: SpanTable::new() }
    }
}

fn skip_ws_exec(t: &[u8], i: usize) -> (j: usize)
    ensures
        j == skip_ws(t@, i as int),
{
    if i >= t.len() {
        return i;
    }
    let mut k = i;
    while k < t.len() && space_byte(t[k])
        invariant
            i <= k <= t@.len(),
            next_non_space(t@, k as int) == next_non_space(t@, i as int),
        decreases t@.len() - k,
    {
        k = k + 1;
    }
    k
}

fn quoted_end_exec(t: &[u8], k0: usize) -> (r: Option<usize>)
    requires
        k0 <= t@.len(),
    ensures
        match r {
            Some(e) => quoted_end(t@, k0 as int) == Some(e as int),
            None => quoted_end(t@, k0 as int) is None,
        },
{
    let n = t.len();
    let mut k = k0;
    while k < n
        invariant
            n == t@.len(),
            k0 <= k <= n,
            quoted_end(t@, k as int) == quoted_end(t@, k0 as int),
        decreases n - k,
    {
        if t[k] == BACKSLASH {
            if n - k < 2 {
                return None;
            }
            k = k + 2;
        } else if t[k] == QUOTE {
            return Some(k + 1);
        } else {
            k = k + 1;
        }
    }
    None
}

fn scan_string_exec(t: &[u8], s: usize) -> (r: Result<(usize, String), ScanError>)
    ensures
        match r {
            Ok((e, v)) => scan_string(t@, s as int) == Ok::<(int, Seq<char>), ScanError>(
                (e as int, v@),
            ) && s < e <= t@.len(),
            Err(x) => scan_string(t@, s as int) == Err::<(int, Seq<char>), ScanError>(x),
        },
{
    if s >= t.len() {
        return Err(ScanError::UnclosedString);
    }
    let e = match quoted_end_exec(t, s + 1) {
        Some(e) => e,
        None => {
            return Err(ScanError::UnclosedString);
        },
    };
    proof {
        lemma_quoted_end(t@, s + 1);
    }
    let bytes = &t[s..e];
    match str_from_utf8(bytes) {
        None => Err(ScanError::BadUtf8),
        Some(st) => {
            proof {
                encode_utf8_decode_utf8(st@);
            }
            match decode_json_string(st) {
                Some(v) => Ok((e, v)),
                None => Err(ScanError::BadJson),
            }
        },
    }
}

fn is_keyword_exec(b: &[u8]) -> (r: bool)
    ensures
        r == is_keyword(b@),
{
    let n = b.len();
    let r = (n == 4 && b[0] == 0x74 && b[1] == 0x72 && b[2] == 0x75 && b[3] == 0x65) || (n == 5
        && b[0] == 0x66 && b[1] == 0x61 && b[2] == 0x6c && b[3] == 0x73 && b[4] == 0x65) || (n == 4
        && b[0] == 0x6e && b[1] == 0x75 && b[2] == 0x6c && b[3] == 0x6c);
    proof {
        let t = seq![0x74u8, 0x72u8, 0x75u8, 0x65u8];
        let f = seq![0x66u8, 0x61u8, 0x6cu8, 0x73u8, 0x65u8];
        let u = seq![0x6eu8, 0x75u8, 0x6cu8, 0x6cu8];
        assert((b@ == t) == (n == 4 && b[0] == 0x74 && b[1] == 0x72 && b[2] == 0x75 && b[3] == 0x65))
            by {
            if n == 4 && b[0] == 0x74 && b[1] == 0x72 && b[2] == 0x75 && b[3] == 0x65 {
                assert(b@ =~= t);
            }
        }
        assert((b@ == f) == (n == 5 && b[0] == 0x66 && b[1] == 0x61 && b[2] == 0x6c && b[3] == 0x73
            && b[4] == 0x65)) by {
            if n == 5 && b[0] == 0x66 && b[1] == 0x61 && b[2] == 0x6c && b[3] == 0x73 && b[4]
                == 0x65 {
                assert(b@ =~= f);
            }
        }
        assert((b@ == u) == (n == 4 && b[0] == 0x6e && b[1] == 0x75 && b[2] == 0x6c && b[3] == 0x6c))
            by {
            if n == 4 && b[0] == 0x6e && b[1] == 0x75 && b[2] == 0x6c && b[3] == 0x6c {
                assert(b@ =~= u);
            }
        }
    }
    r
}

fn scan_literal_exec(t: &[u8], s: usize) -> (r: Result<(usize, Json), ScanError>)
    requires
        s <= t@.len(),
    ensures
        match r {
            Ok((e, v)) => scan_literal(t@, s as int) == Ok::<int, ScanError>(e as int) && s <= e <= t@.len()
                && v@ == literal_value(t@.subrange(s as int, e as int)),
            Err(x) => scan_literal(t@, s as int) == Err::<int, ScanError>(x),
        },
{
    let n = t.len();
    let mut e = s;
    while e < n && !(t[e] == COMMA || t[e] == RBRACE || t[e] == RBRACKET || space_byte(t[e]))
        invariant
            n == t@.len(),
            s <= e <= n,
            literal_end(t@, e as int) == literal_end(t@, s as int),
        decreases n - e,
    {
        e = e + 1;
    }
    let bytes = &t[s..e];
    match str_from_utf8(bytes) {
        None => Err(ScanError::BadUtf8),
        Some(token) => {
            proof {
                encode_utf8_decode_utf8(token@);
            }
            if is_keyword_exec(bytes) {
                let v = if bytes[0] == 0x74 {
                    Json::Bool(true)
                } else if bytes[0] == 0x66 {
                    Json::Bool(false)
                } else {
                    Json::Null
                };
                Ok((e, v))
            } else {
                match parse_json_model(token) {
                    Some(v) => Ok((e, v)),
                    None => Err(ScanError::BadJson),
                }
            }
        },
    }
}

fn scan_value_exec(t: &[u8], i: usize, path: &Vec<String>, spans: &mut Spans) -> (r: Result<
    (usize, Json),
    ScanError,
>)
    requires
        i <= t@.len(),
    ensures
        match r {
            Ok((e, v)) => scan_value(t@, i as int, path_view(path@), old(spans)@) == Ok::<Scanned, ScanError>(
                (e as int, final(spans)@, v@),
            ) && i <= e <= t@.len(),
            Err(x) => scan_value(t@, i as int, path_view(path@), old(spans)@) == Err::<Scanned, ScanError>(x),
        },
    decreases rem(t@, i as int), 2int,
{
    let j = skip_ws_exec(t, i);
    proof {
        lemma_skip_ws(t@, i as int);
    }
    if j >= t.len() {
        return Err(ScanError::UnexpectedEnd);
    }
    let c = t[j];
    let (e, v) = if c == LBRACE {
        match scan_object_exec(t, j, path, spans) {
            Ok(x) => x,
            Err(x) => {
                return Err(x);
            },
        }
    } else if c == LBRACKET {
        match scan_array_exec(t, j, path, spans) {
            Ok(x) => x,
            Err(x) => {
                return Err(x);
            },
        }
    } else if c == QUOTE {
        match scan_string_exec(t, j) {
            Ok((x, s)) => (x, Json::Str(s)),
            Err(x) => {
                return Err(x);
            },
        }
    } else {
        match scan_literal_exec(t, j) {
            Ok(x) => x,
            Err(x) => {
                return Err(x);
            },
        }
    };
    spans.values.put(path, j, e);
    Ok((e, v))
}

fn scan_object_exec(t: &[u8], i: usize, path: &Vec<String>, spans: &mut Spans) -> (r: Result<
    (usize, Json),
    ScanError,
>)
    requires
        i < t@.len(),
    ensures
        match r {
            Ok((e, v)) => scan_object(t@, i as int, path_view(path@), old(spans)@) == Ok::<Scanned, ScanError>(
                (e as int, final(spans)@, v@),
            ) && i < e <= t@.len(),
            Err(x) => scan_object(t@, i as int, path_view(path@), old(spans)@) == Err::<Scanned, ScanError>(x),
        },
    decreases rem(t@, i as int), 1int,
{
    let n = t.len();
    let k0 = skip_ws_exec(t, i + 1);
    proof {
        lemma_skip_ws(t@, i + 1);
    }
    if k0 < n && t[k0] == RBRACE {
        let v = Json::Object(Vec::new());
        proof {
            assert(v@->Object_0 =~= Seq::<(Seq<char>, JsonView)>::empty());
        }
        return Ok((k0 + 1, v));
    }
    let ghost pv = path_view(path@);
    let ghost target = scan_members(t@, i + 1, pv, spans@, Seq::empty());
    assert(target == scan_object(t@, i as int, pv, old(spans)@));
    let mut k = i + 1;
    let mut acc: Vec<(String, Json)> = Vec::new();
    proof {
        assert(entries_view(acc@) =~= Seq::<(Seq<char>, JsonView)>::empty());
    }
    loop
        invariant
            n == t@.len(),
            i < k <= n,
            pv == path_view(path@),
            scan_members(t@, k as int, pv, spans@, entries_view(acc@)) == target,
            target == scan_object(t@, i as int, pv, old(spans)@),
        decreases n - k,
    {
        let ghost tb0 = spans@;
        let ks = skip_ws_exec(t, k);
        proof {
            lemma_skip_ws(t@, k as int);
        }
        let (ke, key) = match scan_string_exec(t, ks) {
            Ok(p) => p,
            Err(x) => {
                return Err(x);
            },
        };
        let name = key.clone();
        let child = child_path(path, key);
        spans.keys.put(&child, ks, ke);
        let sk = skip_ws_exec(t, ke);
        proof {
            lemma_skip_ws(t@, ke as int);
        }
        if sk >= n {
            return Err(ScanError::UnexpectedEnd);
        }
        let (ve, v) = match scan_value_exec(t, sk + 1, &child, spans) {
            Ok(p) => p,
            Err(x) => {
                return Err(x);
            },
        };
        let ghost before = acc@;
        acc.push((name, v));
        proof {
            assert(acc@ =~= before.push((name, v)));
            assert(entries_view(before.push((name, v))) =~= entries_view(before).push((name@, json_view(v))));
        }
        let a = skip_ws_exec(t, ve);
        proof {
            lemma_skip_ws(t@, ve as int);
        }
        if a < n && t[a] == COMMA {
            let b = skip_ws_exec(t, a + 1);
            proof {
                lemma_skip_ws(t@, a + 1);
            }
            if b < n && t[b] == RBRACE {
                let r = Json::Object(acc);
                proof {
                    assert(r@->Object_0 =~= entries_view(acc@));
                }
                return Ok((b + 1, r));
            }
            k = a + 1;
        } else if a < n && t[a] == RBRACE {
            let r = Json::Object(acc);
            proof {
                assert(r@->Object_0 =~= entries_view(acc@));
            }
            return Ok((a + 1, r));
        } else {
            return Err(ScanError::ExpectedObjectEnd);
        }
    }
}

fn scan_array_exec(t: &[u8], i: usize, path: &Vec<String>, spans: &mut Spans) -> (r: Result<
    (usize, Json),
    ScanError,
>)
    requires
        i < t@.len(),
    ensures
        match r {
            Ok((e, v)) => scan_array(t@, i as int, path_view(path@), old(spans)@) == Ok::<Scanned, ScanError>(
                (e as int, final(spans)@, v@),
            ) && i < e <= t@.len(),
            Err(x) => scan_array(t@, i as int, path_view(path@), old(spans)@) == Err::<Scanned, ScanError>(x),
        },
    decreases rem(t@, i as int), 1int,
{
    let n = t.len();
    let k0 = skip_ws_exec(t, i + 1);
    proof {
        lemma_skip_ws(t@, i + 1);
    }
    if k0 < n && t[k0] == RBRACKET {
        let v = Json::Array(Vec::new());
        proof {
            assert(v@->Array_0 =~= Seq::<JsonView>::empty());
        }
        return Ok((k0 + 1, v));
    }
    let ghost pv = path_view(path@);
    let ghost target = scan_elements(t@, k0 as int, pv, spans@, 0, Seq::empty());
    assert(target == scan_array(t@, i as int, pv, old(spans)@));
    let mut k = k0;
    let mut idx: usize = 0;
    let mut acc: Vec<Json> = Vec::new();
    proof {
        assert(acc@.map_values(|j: Json| j@) =~= Seq::<JsonView>::empty());
    }
    loop
        invariant
            n == t@.len(),
            i < k <= n,
            idx <= k,
            pv == path_view(path@),
            scan_elements(t@, k as int, pv, spans@, idx as nat, acc@.map_values(|j: Json| j@)) == target,
            target == scan_array(t@, i as int, pv, old(spans)@),
        decreases n - k,
    {
        let child = child_path(path, decimal_string(idx));
        let (ve, v) = match scan_value_exec(t, k, &child, spans) {
            Ok(p) => p,
            Err(x) => {
                return Err(x);
            },
        };
        let ghost before = acc@;
        acc.push(v);
        proof {
            assert(acc@.map_values(|j: Json| j@) =~= before.map_values(|j: Json| j@).push(v@));
        }
        let a = skip_ws_exec(t, ve);
        proof {
            lemma_skip_ws(t@, ve as int);
        }
        if a < n && t[a] == COMMA {
            let b = skip_ws_exec(t, a + 1);
            proof {
                lemma_skip_ws(t@, a + 1);
            }
            if b < n && t[b] == RBRACKET {
                let r = Json::Array(acc);
                proof {
                    assert(r@->Array_0 =~= acc@.map_values(|j: Json| j@));
                }
                return Ok((b + 1, r));
            }
            k = a + 1;
            idx = idx + 1;
        } else if a < n && t[a] == RBRACKET {
            let r = Json::Array(acc);
            proof {
                assert(r@->Array_0 =~= acc@.map_values(|j: Json| j@));
            }
            return Ok((a + 1, r));
        } else {
            return Err(ScanError::ExpectedArrayEnd);
        }
    }
}

/// Scan a whole blanked document, recording every key and value span, and
/// read its value.
pub fn scan_document_exec(t: &[u8]) -> (r: Result<(Spans, Json), ScanError>)
    ensures
        match r {
            Ok((sp, v)) => scan_document_read(t@) matches Ok((_, tb, w)) && sp@ == tb && v@ == w,
            Err(x) => scan_document_read(t@) matches Err(y) && x == y,
        },
{
    let mut spans = Spans::new();
    let root: Vec<String> = Vec::new();
    proof {
        assert(path_view(root@) =~= Seq::<Seq<char>>::empty());
    }
    match scan_value_exec(t, 0, &root, &mut spans) {
        Ok((_, v)) => Ok((spans, v)),
        Err(x) => Err(x),
    }
}

} // verus!
