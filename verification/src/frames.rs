//! The committed frame corpus: its records, PNG sizes and file names.
//!
//! Each entry records which node was expected to match when the frame was
//! captured, so asset changes fail offline instead of mid-battle.

use vstd::prelude::*;
use crate::text::{chars_of, decimal, decimal_string, push_char};

verus! {

/// One line of the corpus index.
#[derive(Debug, Clone)]
pub struct FrameRecord {
    pub file: String,
    pub node: String,
    pub label: String,
    pub digest: String,
    pub width: u32,
    pub height: u32,
}

pub open spec fn png_signature() -> Seq<u8> {
    seq![0x89u8, 0x50u8, 0x4eu8, 0x47u8, 0x0du8, 0x0au8, 0x1au8, 0x0au8]
}

/// A PNG header: the eight signature bytes and room for the IHDR size fields.
pub open spec fn has_png_header(b: Seq<u8>) -> bool {
    b.len() >= 24 && b.subrange(0, 8) == png_signature()
}

/// The big-endian 32-bit number stored at `i`.
pub open spec fn be_u32(b: Seq<u8>, i: int) -> int {
    b[i] * 16777216 + b[i + 1] * 65536 + b[i + 2] * 256 + b[i + 3]
}

fn read_be_u32(b: &[u8], i: usize) -> (r: u32)
    requires
        i + 4 <= b@.len(),
    ensures
        r == be_u32(b@, i as int),
{
    (b[i] as u32) * 16777216 + (b[i + 1] as u32) * 65536 + (b[i + 2] as u32) * 256 + (b[i
        + 3] as u32)
}

/// PNG header carries width/height at fixed offsets; avoids an image decode.
/// Anything that is not a PNG header reads as 0x0.
pub fn png_size(png: &[u8]) -> (r: (u32, u32))
    ensures
        has_png_header(png@) ==> r.0 == be_u32(png@, 16) && r.1 == be_u32(png@, 20),
        !has_png_header(png@) ==> r == (0u32, 0u32),
{
    if png.len() < 24 {
        return (0, 0);
    }
    let sig: [u8; 8] = [0x89, 0x50, 0x4e, 0x47, 0x0d, 0x0a, 0x1a, 0x0a];
    let mut i: usize = 0;
    while i < 8
        invariant
            i <= 8,
            png@.len() >= 24,
            sig@ == png_signature(),
            forall|k: int| 0 <= k < i ==> png@[k] == png_signature()[k],
        decreases 8 - i,
    {
        if png[i] != sig[i] {
            proof {
                assert(png@.subrange(0, 8)[i as int] != png_signature()[i as int]);
            }
            return (0, 0);
        }
        i = i + 1;
    }
    proof {
        assert(png@.subrange(0, 8) =~= png_signature());
    }
    (read_be_u32(png, 16), read_be_u32(png, 20))
}

/// Where the corpus lives.
pub struct FrameStore {
    root: String,
}

impl FrameStore {
    pub closed spec fn root_view(&self) -> Seq<char> {
        self.root@
    }

    pub fn open(root: String) -> (s: FrameStore)
        ensures
            s.root_view() == root@,
    {
        FrameStore { root }
    }

    pub fn root(&self) -> (r: &str)
        ensures
            r@ == self.root_view(),
    {
        self.root.as_str()
    }
}

/// `char::is_whitespace`: the characters with the Unicode `White_Space`
/// property.
pub open spec fn unicode_space(c: char) -> bool {
    let u = c as u32;
    ||| 0x09 <= u <= 0x0d
    ||| u == 0x20
    ||| u == 0x85
    ||| u == 0xa0
    ||| u == 0x1680
    ||| 0x2000 <= u <= 0x200a
    ||| u == 0x2028
    ||| u == 0x2029
    ||| u == 0x202f
    ||| u == 0x205f
    ||| u == 0x3000
}

fn is_unicode_space(c: char) -> (r: bool)
    ensures
        r == unicode_space(c),
{
    let u = c as u32;
    (0x09 <= u && u <= 0x0d) || u == 0x20 || u == 0x85 || u == 0xa0 || u == 0x1680 || (0x2000 <= u
        && u <= 0x200a) || u == 0x2028 || u == 0x2029 || u == 0x202f || u == 0x205f || u == 0x3000
}

/// Position of the first `\n` at or after `k`, or the length.
pub open spec fn newline_at_or_after(s: Seq<char>, k: int) -> int
    decreases s.len() - k,
{
    if k < 0 || k >= s.len() {
        s.len() as int
    } else if s[k] == '\n' {
        k
    } else {
        newline_at_or_after(s, k + 1)
    }
}

pub proof fn lemma_newline_bounds(s: Seq<char>, k: int)
    requires
        0 <= k <= s.len(),
    ensures
        k <= newline_at_or_after(s, k) <= s.len(),
        newline_at_or_after(s, k) < s.len() ==> s[newline_at_or_after(s, k)] == '\n',
    decreases s.len() - k,
{
    if k < s.len() && s[k] != '\n' {
        lemma_newline_bounds(s, k + 1);
    }
}

/// Where the line starting at `k` and running to `e` ends once a `\r`
/// right before its line break is left out.
pub open spec fn text_line_end(s: Seq<char>, k: int, e: int) -> int {
    if e < s.len() && e > k && s[e - 1] == '\r' {
        e - 1
    } else {
        e
    }
}

/// The lines from `k` on, as `str::lines` gives them: split at `\n`, a
/// `\r` right before it left out, no empty line after a final `\n`.
pub open spec fn lines_from(s: Seq<char>, k: int) -> Seq<Seq<char>>
    decreases s.len() - k,
{
    if k < 0 || k >= s.len() {
        Seq::empty()
    } else {
        proof {
            lemma_newline_bounds(s, k);
        }
        let e = newline_at_or_after(s, k);
        let line = s.subrange(k, text_line_end(s, k, e));
        if e < s.len() {
            seq![line] + lines_from(s, e + 1)
        } else {
            seq![line]
        }
    }
}

/// A line that holds nothing but whitespace (`str::trim` leaves it empty).
pub open spec fn is_blank(l: Seq<char>) -> bool {
    forall|i: int| 0 <= i < l.len() ==> unicode_space(#[trigger] l[i])
}

/// The lines that are not blank, each with its 1-based line number.
pub open spec fn numbered_entries(ls: Seq<Seq<char>>) -> Seq<(int, Seq<char>)>
    decreases ls.len(),
{
    if ls.len() == 0 {
        Seq::empty()
    } else {
        let rest = numbered_entries(ls.drop_last());
        if is_blank(ls.last()) {
            rest
        } else {
            rest.push((ls.len() as int, ls.last()))
        }
    }
}

/// The entries of a corpus index: its non-blank lines, each with its
/// 1-based line number, in order.
pub fn index_lines(text: &str) -> (r: Vec<(usize, String)>)
    ensures
        r@.map_values(|p: (usize, String)| (p.0 as int, p.1@)) == numbered_entries(lines_from(text@, 0)),
{
    let cs = chars_of(text);
    let ghost s = text@;
    let ghost mut done: Seq<Seq<char>> = Seq::empty();
    let mut out: Vec<(usize, String)> = Vec::new();
    let mut n: usize = 0;
    let mut k: usize = 0;
    while k < cs.len()
        invariant
            cs@ == s,
            k <= s.len(),
            n == done.len(),
            n <= k,
            lines_from(s, 0) == done + lines_from(s, k as int),
            out@.map_values(|p: (usize, String)| (p.0 as int, p.1@)) == numbered_entries(done),
        decreases s.len() - k,
    {
        let mut e = k;
        while e < cs.len() && cs[e] != '\n'
            invariant
                cs@ == s,
                k <= e <= s.len(),
                newline_at_or_after(s, k as int) == newline_at_or_after(s, e as int),
            decreases s.len() - e,
        {
            e = e + 1;
        }
        proof {
            lemma_newline_bounds(s, k as int);
        }
        let stop = if e < cs.len() && e > k && cs[e - 1] == '\r' {
            e - 1
        } else {
            e
        };
        let mut line = String::new();
        let mut blank = true;
        let mut j = k;
        while j < stop
            invariant
                cs@ == s,
                k <= j <= stop <= s.len(),
                line@ == s.subrange(k as int, j as int),
                blank == is_blank(s.subrange(k as int, j as int)),
            decreases stop - j,
        {
            let c = cs[j];
            if !is_unicode_space(c) {
                blank = false;
            }
            push_char(&mut line, c);
            proof {
                assert(s.subrange(k as int, j + 1) =~= s.subrange(k as int, j as int).push(c));
                if !unicode_space(c) {
                    assert(s.subrange(k as int, j + 1)[j - k] == c);
                }
            }
            j = j + 1;
        }
        let ghost l = s.subrange(k as int, stop as int);
        proof {
            assert(lines_from(s, k as int) == seq![l] + lines_from(s, e + 1));
            assert(done + lines_from(s, k as int) =~= done.push(l) + lines_from(s, e + 1));
            assert(done.push(l).drop_last() =~= done);
        }
        if !blank {
            out.push((n + 1, line));
            proof {
                assert(out@.map_values(|p: (usize, String)| (p.0 as int, p.1@)) =~= numbered_entries(
                    done,
                ).push(((done.len() + 1) as int, l)));
            }
        }
        proof {
            done = done.push(l);
        }
        n = n + 1;
        k = if e < cs.len() {
            e + 1
        } else {
            e
        };
    }
    proof {
        assert(done + lines_from(s, k as int) =~= done);
    }
    out
}

/// Whether `char::is_alphanumeric` holds of `c` (Unicode alphabetic or numeric).
pub uninterp spec fn unicode_alphanumeric(c: char) -> bool;

/// `char::is_alphanumeric`. Claimed: its value is `unicode_alphanumeric`, and
/// on ASCII it holds exactly of the digits and the Latin letters, as the
/// documentation's definition (alphabetic or numeric) gives.
#[verifier::external_body]
fn is_alphanumeric(c: char) -> (r: bool)
    ensures
        r == unicode_alphanumeric(c),
        (c as u32) < 0x80 ==> (r <==> (('0' <= c && c <= '9') || ('a' <= c && c <= 'z') || ('A' <= c
            && c <= 'Z'))),
{
    c.is_alphanumeric()
}

/// A character as it may stand in a file name: letters, digits, `-`, `_`
/// and `.` stay, anything else becomes `_`.
pub open spec fn file_safe_char(c: char) -> char {
    if unicode_alphanumeric(c) || c == '-' || c == '_' || c == '.' {
        c
    } else {
        '_'
    }
}

pub open spec fn file_safe(s: Seq<char>) -> Seq<char> {
    s.map_values(|c: char| file_safe_char(c))
}

/// Zeros in front of `d` up to width 4.
pub open spec fn pad4(d: Seq<char>) -> Seq<char> {
    if d.len() < 4 {
        Seq::new((4 - d.len()) as nat, |i: int| '0') + d
    } else {
        d
    }
}

/// File name of the frame that follows `existing` ones: its 1-based number
/// zero-padded to four digits, a dash, the node name made file-safe, `.png`.
pub open spec fn frame_file_name_spec(existing: nat, node: Seq<char>) -> Seq<char> {
    pad4(decimal(existing + 1)) + seq!['-'] + file_safe(node) + seq!['.', 'p', 'n', 'g']
}

/// A frame file name is the 1-based number of the frame in decimal,
/// left-padded with `0` to at least four characters, a dash, the file-safe
/// node name and `.png`.
pub proof fn lemma_frame_name_parts(existing: nat, node: Seq<char>)
    ensures
        ({
            let s = frame_file_name_spec(existing, node);
            let d = decimal(existing + 1);
            let w: int = if d.len() < 4 {
                4
            } else {
                d.len() as int
            };
            &&& s.len() == w + 1 + node.len() + 4
            &&& forall|i: int| 0 <= i < w - d.len() ==> s[i] == '0'
            &&& s.subrange(w - d.len(), w) == d
            &&& s[w] == '-'
            &&& s.subrange(w + 1, s.len() as int) == file_safe(node) + seq!['.', 'p', 'n', 'g']
        }),
{
    let s = frame_file_name_spec(existing, node);
    let d = decimal(existing + 1);
    let p = pad4(d);
    let w: int = if d.len() < 4 {
        4
    } else {
        d.len() as int
    };
    assert(p.len() == w);
    assert(s == p + seq!['-'] + file_safe(node) + seq!['.', 'p', 'n', 'g']);
    assert forall|i: int| 0 <= i < w - d.len() implies s[i] == '0' by {
        assert(s[i] == p[i]);
    }
    assert(s.subrange(w - d.len(), w) =~= d);
    assert(s.subrange(w + 1, s.len() as int) =~= file_safe(node) + seq!['.', 'p', 'n', 'g']);
}

/// The node name with every character a file name should not hold replaced by `_`.
pub fn safe_node_name(node: &str) -> (s: String)
    ensures
        s@ == file_safe(node@),
{
    let cs = chars_of(node);
    let mut out = String::new();
    let mut i: usize = 0;
    while i < cs.len()
        invariant
            cs@ == node@,
            i <= cs@.len(),
            out@ == file_safe(node@.subrange(0, i as int)),
        decreases cs@.len() - i,
    {
        let c = cs[i];
        let keep = is_alphanumeric(c) || c == '-' || c == '_' || c == '.';
        push_char(&mut out, if keep { c } else { '_' });
        proof {
            assert(node@.subrange(0, i + 1) =~= node@.subrange(0, i as int).push(c));
            assert(out@ =~= file_safe(node@.subrange(0, i + 1)));
        }
        i = i + 1;
    }
    proof {
        assert(node@.subrange(0, cs@.len() as int) =~= node@);
    }
    out
}

/// Name for the next frame saved for `node` when `existing` are recorded.
pub fn frame_file_name(existing: usize, node: &str) -> (s: String)
    requires
        existing < usize::MAX,
    ensures
        s@ == frame_file_name_spec(existing as nat, node@),
{
    let digits = decimal_string(existing + 1);
    let mut out = String::new();
    let mut pad: usize = 0;
    let dl: usize = chars_of(digits.as_str()).len();
    while pad + dl < 4
        invariant
            pad + dl <= 4 || pad == 0,
            dl == digits@.len(),
            out@ == Seq::new(pad as nat, |i: int| '0'),
        decreases 4 - pad,
    {
        push_char(&mut out, '0');
        pad = pad + 1;
        proof {
            assert(out@ =~= Seq::new(pad as nat, |i: int| '0'));
        }
    }
    let out = out.concat(digits.as_str());
    proof {
        assert(out@ =~= pad4(decimal((existing + 1) as nat)));
    }
    let mut out = out;
    push_char(&mut out, '-');
    let out = out.concat(safe_node_name(node).as_str());
    let mut out = out;
    push_char(&mut out, '.');
    push_char(&mut out, 'p');
    push_char(&mut out, 'n');
    push_char(&mut out, 'g');
    proof {
        assert(out@ =~= frame_file_name_spec(existing as nat, node@));
    }
    out
}

} // verus!
