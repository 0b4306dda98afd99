//! Blanking comments and trailing commas out of a JSONC document.
//!
//! Every byte keeps its offset: comment bytes and trailing commas become
//! spaces, line breaks stay where they are, and string contents are never
//! touched. Offsets found in the blanked text are therefore valid in the
//! text as the user wrote it.

use vstd::prelude::*;
use vstd::utf8::*;
use crate::text::{ascii_patch_of, string_from_utf8};

verus! {

pub const QUOTE: u8 = 0x22;
pub const BACKSLASH: u8 = 0x5c;
pub const SLASH: u8 = 0x2f;
pub const STAR: u8 = 0x2a;
pub const NEWLINE: u8 = 0x0a;
pub const SPACE: u8 = 0x20;
pub const TAB: u8 = 0x09;
pub const COMMA: u8 = 0x2c;
pub const COLON: u8 = 0x3a;
pub const LBRACE: u8 = 0x7b;
pub const RBRACE: u8 = 0x7d;
pub const LBRACKET: u8 = 0x5b;
pub const RBRACKET: u8 = 0x5d;

/// A byte that `char::is_whitespace` accepts once the byte is widened to a
/// `char` (U+0000..=U+00FF): the ASCII controls 9..=13, the space, NEL and NBSP.
pub open spec fn is_space_byte(c: u8) -> bool {
    (0x09 <= c && c <= 0x0d) || c == 0x20 || c == 0x85 || c == 0xa0
}

pub fn space_byte(c: u8) -> (r: bool)
    ensures
        r == is_space_byte(c),
{
    (0x09 <= c && c <= 0x0d) || c == 0x20 || c == 0x85 || c == 0xa0
}

/// The lexical region a byte of a JSONC document belongs to.
pub enum Region {
    Code,
    Str,
    LineComment,
    BlockComment,
}

/// Position just after a string that is open at `k`: a backslash hides the
/// byte after it, the first unescaped quote closes the string. Past the end
/// when the document ends inside the string.
pub open spec fn string_close(b: Seq<u8>, k: int) -> int
    decreases b.len() - k,
{
    if k < 0 || k >= b.len() {
        k
    } else if b[k] == BACKSLASH {
        if k + 2 > b.len() {
            k + 2
        } else {
            string_close(b, k + 2)
        }
    } else if b[k] == QUOTE {
        k + 1
    } else {
        string_close(b, k + 1)
    }
}

/// First line break at or after `k`, or the end of the document.
pub open spec fn line_end(b: Seq<u8>, k: int) -> int
    decreases b.len() - k,
{
    if k < 0 || k >= b.len() {
        b.len() as int
    } else if b[k] == NEWLINE {
        k
    } else {
        line_end(b, k + 1)
    }
}

/// Position of the `*/` that closes a block comment searched from `k`, or
/// the last position that could still start one.
pub open spec fn block_close(b: Seq<u8>, k: int) -> int
    decreases b.len() - k,
{
    if k < 0 || k + 1 >= b.len() {
        k
    } else if b[k] == STAR && b[k + 1] == SLASH {
        k
    } else {
        block_close(b, k + 1)
    }
}

pub open spec fn starts_line_comment(b: Seq<u8>, i: int) -> bool {
    b[i] == SLASH && i + 1 < b.len() && b[i + 1] == SLASH
}

pub open spec fn starts_block_comment(b: Seq<u8>, i: int) -> bool {
    b[i] == SLASH && i + 1 < b.len() && b[i + 1] == STAR
}

/// Region of the token that starts at `i`.
pub open spec fn region_at(b: Seq<u8>, i: int) -> Region {
    if b[i] == QUOTE {
        Region::Str
    } else if starts_line_comment(b, i) {
        Region::LineComment
    } else if starts_block_comment(b, i) {
        Region::BlockComment
    } else {
        Region::Code
    }
}

/// Position just after the token that starts at `i`.
pub open spec fn token_end(b: Seq<u8>, i: int) -> int {
    if b[i] == QUOTE {
        string_close(b, i + 1)
    } else if starts_line_comment(b, i) {
        line_end(b, i)
    } else if starts_block_comment(b, i) {
        block_close(b, i + 2) + 2
    } else {
        i + 1
    }
}

pub proof fn lemma_string_close_bounds(b: Seq<u8>, k: int)
    requires
        0 <= k,
    ensures
        string_close(b, k) >= k,
        k <= b.len() ==> string_close(b, k) <= b.len() + 1,
    decreases b.len() - k,
{
    if k < b.len() && b[k] == BACKSLASH && k + 2 <= b.len() {
        lemma_string_close_bounds(b, k + 2);
    } else if k < b.len() && b[k] != BACKSLASH && b[k] != QUOTE {
        lemma_string_close_bounds(b, k + 1);
    }
}

pub proof fn lemma_line_end_bounds(b: Seq<u8>, k: int)
    requires
        0 <= k <= b.len(),
    ensures
        k <= line_end(b, k) <= b.len(),
        forall|q: int| k <= q < line_end(b, k) ==> b[q] != NEWLINE,
        line_end(b, k) < b.len() ==> b[line_end(b, k)] == NEWLINE,
    decreases b.len() - k,
{
    if k < b.len() && b[k] != NEWLINE {
        lemma_line_end_bounds(b, k + 1);
    }
}

pub proof fn lemma_block_close_bounds(b: Seq<u8>, k: int)
    requires
        0 <= k,
    ensures
        block_close(b, k) >= k,
        k + 1 <= b.len() ==> block_close(b, k) + 1 <= b.len(),
        k <= b.len() ==> block_close(b, k) <= b.len(),
        block_close(b, k) + 1 < b.len() ==> b[block_close(b, k)] == STAR && b[block_close(b, k) + 1]
            == SLASH,
    decreases b.len() - k,
{
    if k + 1 < b.len() && !(b[k] == STAR && b[k + 1] == SLASH) {
        lemma_block_close_bounds(b, k + 1);
    }
}

pub proof fn lemma_token_end_advances(b: Seq<u8>, i: int)
    requires
        0 <= i < b.len(),
    ensures
        token_end(b, i) > i,
        token_end(b, i) <= b.len() + 2,
{
    lemma_string_close_bounds(b, i + 1);
    lemma_line_end_bounds(b, i + 1);
    lemma_block_close_bounds(b, i + 2);
}

/// Region of byte `p` when the document is tokenised from position `i`.
pub open spec fn region_from(b: Seq<u8>, i: int, p: int) -> Region
    decreases b.len() - i,
{
    if i < 0 || i >= b.len() || p < i {
        Region::Code
    } else if p < token_end(b, i) {
        region_at(b, i)
    } else if token_end(b, i) >= b.len() {
        Region::Code
    } else {
        proof {
            lemma_token_end_advances(b, i);
        }
        region_from(b, token_end(b, i), p)
    }
}

/// Region of byte `p` of the whole document.
pub open spec fn region_of(b: Seq<u8>, p: int) -> Region {
    region_from(b, 0, p)
}

pub open spec fn is_comment(r: Region) -> bool {
    r is LineComment || r is BlockComment
}

/// Byte `p` after the comments are blanked.
pub open spec fn uncommented_byte(b: Seq<u8>, p: int) -> u8 {
    if is_comment(region_of(b, p)) && b[p] != NEWLINE {
        SPACE
    } else {
        b[p]
    }
}

pub open spec fn uncommented(b: Seq<u8>) -> Seq<u8> {
    Seq::new(b.len(), |p: int| uncommented_byte(b, p))
}

/// First byte at or after `k` that is not whitespace, or the end.
pub open spec fn next_non_space(s: Seq<u8>, k: int) -> int
    decreases s.len() - k,
{
    if k < 0 || k >= s.len() {
        s.len() as int
    } else if is_space_byte(s[k]) {
        next_non_space(s, k + 1)
    } else {
        k
    }
}

/// A comma outside any string whose next non-blank byte closes an object or
/// an array (once comments are gone).
pub open spec fn is_trailing_comma(b: Seq<u8>, p: int) -> bool {
    let s = uncommented(b);
    let q = next_non_space(s, p + 1);
    &&& s[p] == COMMA
    &&& !(region_of(b, p) is Str)
    &&& q < s.len()
    &&& (s[q] == RBRACE || s[q] == RBRACKET)
}

/// The blanked document, byte for byte.
pub open spec fn blanked(b: Seq<u8>) -> Seq<u8> {
    Seq::new(b.len(), |p: int| if is_trailing_comma(b, p) { SPACE } else { uncommented_byte(b, p) })
}

/// The blanked form of a text: its bytes blanked, read back as UTF-8 (the
/// empty text when they are not UTF-8).
pub open spec fn blanked_text(t: Seq<char>) -> Seq<char> {
    let o = blanked(encode_utf8(t));
    if valid_utf8(o) {
        decode_utf8(o)
    } else {
        Seq::empty()
    }
}

/// Two neighbouring non-ASCII bytes are both in a comment or both outside one.
proof fn lemma_adjacent_regions(b: Seq<u8>, i: int, p: int)
    requires
        0 <= i <= p - 1,
        p < b.len(),
        b[p - 1] >= 0x80,
        b[p] >= 0x80,
    ensures
        is_comment(region_from(b, i, p)) == is_comment(region_from(b, i, p - 1)),
    decreases b.len() - i,
{
    lemma_token_end_advances(b, i);
    let e = token_end(b, i);
    if p < e {
    } else if p - 1 >= e {
        lemma_adjacent_regions(b, e, p);
    } else {
        lemma_token_end_advances(b, p);
        assert(region_from(b, p, p) == region_at(b, p));
        if b[i] != QUOTE && starts_line_comment(b, i) {
            lemma_line_end_bounds(b, i);
        }
        if b[i] != QUOTE && !starts_line_comment(b, i) && starts_block_comment(b, i) {
            lemma_block_close_bounds(b, i + 2);
        }
    }
}

/// Blanking replaces whole characters by spaces and nothing else.
pub proof fn lemma_blanked_is_ascii_patch(t: Seq<char>)
    ensures
        ascii_patch_of(encode_utf8(t), blanked(encode_utf8(t))),
{
    let b = encode_utf8(t);
    let o = blanked(b);
    assert forall|p: int|
        0 < p < b.len() && is_continuation_byte(#[trigger] b[p]) && b[p - 1] >= 0x80 implies ((o[p]
        == b[p]) == (o[p - 1] == b[p - 1])) by {
        lemma_adjacent_regions(b, 0, p);
        assert(uncommented(b)[p] == uncommented_byte(b, p));
        assert(uncommented(b)[p - 1] == uncommented_byte(b, p - 1));
    }
}

/// Blanking keeps every byte offset: the length is the same, line breaks
/// stay exactly where they were, a byte either stays or becomes a space, and
/// nothing inside a string changes.
pub proof fn lemma_blank_keeps_offsets(b: Seq<u8>)
    ensures
        blanked(b).len() == b.len(),
        forall|p: int| 0 <= p < b.len() ==> (#[trigger] blanked(b)[p] == NEWLINE <==> b[p] == NEWLINE),
        forall|p: int| 0 <= p < b.len() ==> #[trigger] blanked(b)[p] == b[p] || blanked(b)[p] == SPACE,
        forall|p: int| 0 <= p < b.len() && region_of(b, p) is Str ==> #[trigger] blanked(b)[p] == b[p],
{
    assert forall|p: int| 0 <= p < b.len() implies (#[trigger] blanked(b)[p] == NEWLINE <==> b[p] == NEWLINE) by {
        assert(uncommented(b)[p] == uncommented_byte(b, p));
    }
    assert forall|p: int| 0 <= p < b.len() && region_of(b, p) is Str implies #[trigger] blanked(b)[p] == b[p] by {
        assert(uncommented(b)[p] == uncommented_byte(b, p));
    }
}

/// The blanked bytes of a UTF-8 text are UTF-8 again.
pub proof fn lemma_blanked_valid_utf8(t: Seq<char>)
    ensures
        valid_utf8(blanked(encode_utf8(t))),
{
    lemma_blanked_is_ascii_patch(t);
    crate::text::lemma_ascii_patch_valid(t, blanked(encode_utf8(t)));
}

fn string_close_exec(b: &[u8], k0: usize) -> (e: usize)
    requires
        k0 <= b@.len(),
    ensures
        e as int == (if string_close(b@, k0 as int) <= b@.len() {
            string_close(b@, k0 as int)
        } else {
            b@.len() as int
        }),
{
    let n = b.len();
    let mut k = k0;
    while k < n
        invariant
            n == b@.len(),
            k0 <= k <= n,
            string_close(b@, k as int) == string_close(b@, k0 as int),
        decreases n - k,
    {
        if b[k] == BACKSLASH {
            if n - k < 2 {
                return n;
            }
            k = k + 2;
        } else if b[k] == QUOTE {
            return k + 1;
        } else {
            k = k + 1;
        }
    }
    k
}

fn line_end_exec(b: &[u8], k0: usize) -> (e: usize)
    requires
        k0 <= b@.len(),
    ensures
        e == line_end(b@, k0 as int),
{
    let n = b.len();
    let mut k = k0;
    while k < n && b[k] != NEWLINE
        invariant
            n == b@.len(),
            k0 <= k <= n,
            line_end(b@, k as int) == line_end(b@, k0 as int),
        decreases n - k,
    {
        k = k + 1;
    }
    k
}

fn block_close_exec(b: &[u8], k0: usize) -> (e: usize)
    requires
        k0 <= b@.len(),
    ensures
        e == block_close(b@, k0 as int),
{
    let n = b.len();
    let mut k = k0;
    while k < n && n - k > 1 && !(b[k] == STAR && b[k + 1] == SLASH)
        invariant
            n == b@.len(),
            k0 <= k <= n,
            block_close(b@, k as int) == block_close(b@, k0 as int),
        decreases n - k,
    {
        k = k + 1;
    }
    k
}

fn next_non_space_exec(s: &Vec<u8>, k0: usize) -> (e: usize)
    requires
        k0 <= s@.len(),
    ensures
        e == next_non_space(s@, k0 as int),
{
    let n = s.len();
    let mut k = k0;
    while k < n && space_byte(s[k])
        invariant
            n == s@.len(),
            k0 <= k <= n,
            next_non_space(s@, k as int) == next_non_space(s@, k0 as int),
        decreases n - k,
    {
        k = k + 1;
    }
    k
}

/// Bytes of a JSONC document with comments and trailing commas blanked.
pub fn blank_bytes(b: &[u8]) -> (out: Vec<u8>)
    ensures
        out@ == blanked(b@),
{
    let n = b.len();
    let ghost bs = b@;
    let mut out: Vec<u8> = Vec::new();
    let mut in_string: Vec<bool> = Vec::new();
    let mut c: usize = 0;
    while c < n
        invariant
            n == bs.len(),
            bs == b@,
            c <= n,
            out@ == bs.subrange(0, c as int),
            in_string@.len() == c,
            forall|p: int| 0 <= p < c ==> !in_string@[p],
        decreases n - c,
    {
        out.push(b[c]);
        in_string.push(false);
        c = c + 1;
    }
    let mut i: usize = 0;
    while i < n
        invariant
            n == bs.len(),
            bs == b@,
            i <= n,
            out@.len() == n,
            in_string@.len() == n,
            forall|p: int| 0 <= p < i ==> out@[p] == #[trigger] uncommented_byte(bs, p),
            forall|p: int| 0 <= p < i ==> in_string@[p] == (#[trigger] region_of(bs, p) is Str),
            forall|p: int| i <= p < n ==> #[trigger] out@[p] == bs[p],
            forall|p: int| i <= p < n ==> !#[trigger] in_string@[p],
            forall|p: int| i <= p < n ==> region_of(bs, p) == #[trigger] region_from(bs, i as int, p),
        decreases n - i,
    {
        proof {
            lemma_token_end_advances(bs, i as int);
        }
        let ghost r = region_at(bs, i as int);
        let ghost te = token_end(bs, i as int);
        let e: usize;
        if b[i] == QUOTE {
            e = string_close_exec(b, i + 1);
            assert(te == string_close(bs, i + 1));
        } else if b[i] == SLASH && i + 1 < n && b[i + 1] == SLASH {
            e = line_end_exec(b, i);
            assert(te == line_end(bs, i as int));
            proof {
                lemma_line_end_bounds(bs, i as int);
            }
        } else if b[i] == SLASH && i + 1 < n && b[i + 1] == STAR {
            let j = block_close_exec(b, i + 2);
            proof {
                lemma_block_close_bounds(bs, i + 2);
            }
            e = if n - j >= 2 { j + 2 } else { n };
            assert(te == j + 2);
        } else {
            e = i + 1;
            assert(te == i + 1);
        }
        assert(e as int == (if te <= n { te } else { n as int }));
        assert(e > i);
        // every byte of the token lies in region `r`
        assert forall|p: int| i <= p < e implies #[trigger] region_of(bs, p) == r by {
            assert(region_from(bs, i as int, p) == r);
        }
        let is_str = b[i] == QUOTE;
        let is_comment_token = !is_str && b[i] == SLASH && i + 1 < n && (b[i + 1] == SLASH || b[i
            + 1] == STAR);
        assert(is_str == (r is Str));
        assert(is_comment_token == is_comment(r));
        // tokenising from `e` agrees with tokenising from `i` past the token
        assert forall|p: int| e <= p < n implies region_of(bs, p) == #[trigger] region_from(
            bs,
            e as int,
            p,
        ) by {
            assert(region_of(bs, p) == region_from(bs, i as int, p));
        }
        let ghost out_before = out@;
        let ghost mask_before = in_string@;
        let mut q: usize = i;
        while q < e
            invariant
                n == bs.len(),
                bs == b@,
                i <= q <= e <= n,
                out@.len() == n,
                in_string@.len() == n,
                r == region_at(bs, i as int),
                is_str == (r is Str),
                is_comment_token == is_comment(r),
                forall|p: int| i <= p < e ==> region_of(bs, p) == r,
                forall|p: int| 0 <= p < i ==> out@[p] == out_before[p] && in_string@[p] == mask_before[p],
                forall|p: int| i <= p < q ==> out@[p] == #[trigger] uncommented_byte(bs, p),
                forall|p: int| i <= p < q ==> in_string@[p] == (r is Str),
                forall|p: int| q <= p < n ==> #[trigger] out@[p] == bs[p],
                forall|p: int| q <= p < n ==> !#[trigger] in_string@[p],
            decreases e - q,
        {
            assert(region_of(bs, q as int) == r);
            if is_str {
                in_string.set(q, true);
            } else if is_comment_token {
                if b[q] != NEWLINE {
                    out.set(q, SPACE);
                }
            }
            q = q + 1;
        }
        assert forall|p: int| 0 <= p < e implies out@[p] == #[trigger] uncommented_byte(bs, p) by {
            if p >= i {
            }
        }
        assert forall|p: int| 0 <= p < e implies in_string@[p] == (#[trigger] region_of(bs, p) is Str) by {
            if p >= i {
            }
        }
        i = e;
    }
    assert(out@ =~= uncommented(bs));
    let stage = out;
    let mut res: Vec<u8> = stage.clone();
    let mut k: usize = 0;
    while k < n
        invariant
            n == bs.len(),
            stage@ == uncommented(bs),
            in_string@.len() == n,
            forall|p: int| 0 <= p < n ==> in_string@[p] == (region_of(bs, p) is Str),
            k <= n,
            res@.len() == n,
            forall|p: int| 0 <= p < k ==> res@[p] == #[trigger] blanked(bs)[p],
            forall|p: int| k <= p < n ==> res@[p] == stage@[p],
        decreases n - k,
    {
        if stage[k] == COMMA && !in_string[k] {
            let j = next_non_space_exec(&stage, k + 1);
            if j < n && (stage[j] == RBRACE || stage[j] == RBRACKET) {
                res.set(k, SPACE);
            }
        }
        assert(res@[k as int] == blanked(bs)[k as int]);
        k = k + 1;
    }
    assert(res@ =~= blanked(bs));
    res
}

/// Replace comments and trailing commas with spaces, keeping length identical.
pub fn blank_jsonc(text: &str) -> (out: String)
    ensures
        out@ == blanked_text(text@),
        encode_utf8(out@) == blanked(encode_utf8(text@)),
{
    let bytes = text.as_bytes();
    let out = blank_bytes(bytes);
    proof {
        lemma_blanked_valid_utf8(text@);
    }
    match string_from_utf8(out) {
        Some(s) => {
            proof {
                vstd::utf8::encode_utf8_decode_utf8(s@);
            }
            s
        },
        None => String::new(),
    }
}

/// A region as blanking leaves it: strings stay strings, everything else
/// is plain code.
pub open spec fn plain(r: Region) -> Region {
    if r is Str {
        Region::Str
    } else {
        Region::Code
    }
}

proof fn lemma_string_close_same(b: Seq<u8>, o: Seq<u8>, k: int)
    requires
        0 <= k,
        o.len() == b.len(),
        forall|q: int| k <= q < b.len() && q < string_close(b, k) ==> o[q] == b[q],
    ensures
        string_close(o, k) == string_close(b, k),
    decreases b.len() - k,
{
    if k < b.len() {
        lemma_string_close_bounds(b, k + 1);
        lemma_string_close_bounds(b, k + 2);
        if b[k] == BACKSLASH {
            if k + 2 <= b.len() {
                lemma_string_close_same(b, o, k + 2);
            }
        } else if b[k] != QUOTE {
            lemma_string_close_same(b, o, k + 1);
        }
    }
}

/// A run of spaces and line breaks is plain code, one byte at a time.
proof fn lemma_blank_run_is_code(o: Seq<u8>, i: int, e: int, p: int)
    requires
        0 <= i <= e <= o.len(),
        forall|q: int| i <= q < e ==> o[q] == SPACE || o[q] == NEWLINE,
        i <= p < o.len(),
    ensures
        p < e ==> region_from(o, i, p) is Code,
        p >= e ==> region_from(o, i, p) == region_from(o, e, p),
    decreases e - i,
{
    if i < e {
        assert(o[i] == SPACE || o[i] == NEWLINE);
        assert(token_end(o, i) == i + 1);
        if p > i && i + 1 < o.len() {
            lemma_blank_run_is_code(o, i + 1, e, p);
        }
    }
}

/// Tokenising the blanked bytes from a token start of the unblanked bytes gives
/// the same strings and nothing but code elsewhere.
proof fn lemma_blanked_regions(b: Seq<u8>, i: int, p: int)
    requires
        0 <= i <= p < b.len(),
        forall|q: int| i <= q < b.len() ==> #[trigger] region_of(b, q) == region_from(b, i, q),
    ensures
        region_from(blanked(b), i, p) == plain(region_from(b, i, p)),
    decreases b.len() - i,
{
    let o = blanked(b);
    let u = uncommented(b);
    lemma_blank_keeps_offsets(b);
    lemma_token_end_advances(b, i);
    let e = token_end(b, i);
    assert forall|q: int| e <= q < b.len() implies #[trigger] region_of(b, q) == region_from(b, e, q) by {
        assert(region_of(b, q) == region_from(b, i, q));
    }
    if b[i] == QUOTE {
        assert forall|q: int| i + 1 <= q < b.len() && q < string_close(b, i + 1) implies o[q] == b[q] by {
            assert(region_of(b, q) == region_from(b, i, q));
        }
        assert(region_of(b, i) == region_from(b, i, i));
        lemma_string_close_same(b, o, i + 1);
        assert(o[i] == b[i]);
        assert(token_end(o, i) == e);
        if p >= e {
            lemma_blanked_regions(b, e, p);
        }
    } else if starts_line_comment(b, i) {
        lemma_line_end_bounds(b, i);
        assert forall|q: int| i <= q < e implies o[q] == SPACE || o[q] == NEWLINE by {
            assert(region_of(b, q) == region_from(b, i, q));
            assert(u[q] == uncommented_byte(b, q));
        }
        lemma_blank_run_is_code(o, i, e, p);
        if p >= e {
            lemma_blanked_regions(b, e, p);
        }
    } else if starts_block_comment(b, i) {
        lemma_block_close_bounds(b, i + 2);
        let e2 = if e <= b.len() {
            e
        } else {
            b.len() as int
        };
        assert forall|q: int| i <= q < e2 implies o[q] == SPACE || o[q] == NEWLINE by {
            assert(region_of(b, q) == region_from(b, i, q));
            assert(u[q] == uncommented_byte(b, q));
        }
        lemma_blank_run_is_code(o, i, e2, p);
        if p >= e2 {
            lemma_blanked_regions(b, e, p);
        }
    } else {
        assert(region_of(b, i) == region_from(b, i, i));
        if i + 1 < b.len() {
            assert(region_of(b, i + 1) == region_from(b, i, i + 1));
        }
        assert(o[i] != QUOTE);
        assert(!starts_line_comment(o, i));
        assert(!starts_block_comment(o, i));
        assert(token_end(o, i) == i + 1);
        if p > i {
            lemma_blanked_regions(b, i + 1, p);
        }
    }
}

proof fn lemma_next_non_space_agree(u: Seq<u8>, o: Seq<u8>, k: int)
    requires
        0 <= k <= u.len(),
        o.len() == u.len(),
        forall|j: int| k <= j <= next_non_space(u, k) && j < u.len() ==> o[j] == u[j],
    ensures
        next_non_space(o, k) == next_non_space(u, k),
    decreases u.len() - k,
{
    if k < u.len() {
        crate::scan::lemma_next_non_space_bounds(u, k);
        assert(o[k] == u[k]);
        if is_space_byte(u[k]) {
            lemma_next_non_space_agree(u, o, k + 1);
        }
    }
}

/// No comma outside strings is followed, past whitespace and comments, by
/// another comma.
pub open spec fn no_double_commas(b: Seq<u8>) -> bool {
    forall|p: int|
        0 <= p < b.len() && uncommented(b)[p] == COMMA && !(region_of(b, p) is Str) ==> {
            let q = next_non_space(uncommented(b), p + 1);
            q < b.len() ==> uncommented(b)[q] != COMMA
        }
}

/// Blanking twice is blanking once, unless a comma is followed only by
/// whitespace and comments and then another comma: blanking the second one
/// would leave the first trailing.
pub proof fn lemma_blanking_twice(b: Seq<u8>)
    requires
        no_double_commas(b),
    ensures
        blanked(blanked(b)) == blanked(b),
{
    let o = blanked(b);
    let u = uncommented(b);
    lemma_blank_keeps_offsets(b);
    assert forall|k: int| 0 <= k < o.len() implies #[trigger] region_of(o, k) == plain(region_of(b, k)) by {
        lemma_blanked_regions(b, 0, k);
    }
    assert forall|k: int| 0 <= k < o.len() implies #[trigger] uncommented(o)[k] == o[k] by {
        assert(region_of(o, k) == plain(region_of(b, k)));
        assert(uncommented(o)[k] == uncommented_byte(o, k));
    }
    assert(uncommented(o) =~= o);
    assert forall|p: int| 0 <= p < o.len() implies #[trigger] blanked(o)[p] == o[p] by {
        assert(uncommented(o)[p] == o[p]);
        if is_trailing_comma(o, p) {
            assert(region_of(o, p) == plain(region_of(b, p)));
            assert(u[p] == uncommented_byte(b, p));
            assert(!is_trailing_comma(b, p));
            assert(u[p] == COMMA);
            let q = next_non_space(u, p + 1);
            crate::scan::lemma_next_non_space_bounds(u, p + 1);
            assert forall|j: int| p + 1 <= j <= q && j < u.len() implies o[j] == u[j] by {
                assert(u[j] == uncommented_byte(b, j));
                if j < q {
                    assert(is_space_byte(u[j]));
                } else {
                    assert(u[q] != COMMA);
                }
            }
            lemma_next_non_space_agree(u, o, p + 1);
            assert(next_non_space(uncommented(o), p + 1) == q);
        }
    }
    assert(blanked(o) =~= o);
}

/// The same for texts: `blank_jsonc` applied to its own result changes
/// nothing, under the same condition on the text's bytes.
pub proof fn lemma_blank_text_twice(t: Seq<char>)
    requires
        no_double_commas(encode_utf8(t)),
    ensures
        blanked_text(blanked_text(t)) == blanked_text(t),
{
    let o = blanked(encode_utf8(t));
    lemma_blanked_valid_utf8(t);
    decode_utf8_encode_utf8(o);
    lemma_blanking_twice(encode_utf8(t));
}

} // verus!
