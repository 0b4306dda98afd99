//! Small text helpers over std strings: UTF-8 conversion and character access.

use vstd::prelude::*;
use vstd::utf8::*;

verus! {

/// `String::from_utf8`. Its documentation: the conversion succeeds exactly
/// when the bytes are well-formed UTF-8, and the string then holds those
/// bytes. Claimed here: `Some` exactly on valid UTF-8, and the result encodes
/// back to the input bytes.
#[verifier::external_body]
pub(crate) fn string_from_utf8(bytes: Vec<u8>) -> (r: Option<String>)
    ensures
        r is Some <==> valid_utf8(bytes@),
        r matches Some(s) ==> encode_utf8(s@) == bytes@,
{
    String::from_utf8(bytes).ok()
}

/// `std::str::from_utf8`. By its documentation it succeeds exactly on
/// well-formed UTF-8 and then views the same bytes.
#[verifier::external_body]
pub(crate) fn str_from_utf8(bytes: &[u8]) -> (r: Option<&str>)
    ensures
        r is Some <==> valid_utf8(bytes@),
        r matches Some(s) ==> encode_utf8(s@) == bytes@,
{
    std::str::from_utf8(bytes).ok()
}

/// `o` differs from `b` only by ASCII bytes, and never splits a multi-byte
/// character: a continuation byte changes exactly when the byte before it does.
pub open spec fn ascii_patch_of(b: Seq<u8>, o: Seq<u8>) -> bool {
    &&& o.len() == b.len()
    &&& forall|p: int| 0 <= p < b.len() && o[p] != b[p] ==> o[p] < 0x80
    &&& forall|p: int|
        0 < p < b.len() && is_continuation_byte(#[trigger] b[p]) && b[p - 1] >= 0x80 ==> ((o[p]
            == b[p]) == (o[p - 1] == b[p - 1]))
}

pub proof fn lemma_ascii_valid(s: Seq<u8>)
    requires
        forall|p: int| 0 <= p < s.len() ==> s[p] < 0x80,
    ensures
        valid_utf8(s),
    decreases s.len(),
{
    if s.len() > 0 {
        assert(is_leading_byte_width_1(s[0]));
        assert(valid_first_scalar(s));
        let rest = pop_first_scalar(s);
        assert(rest =~= s.subrange(1, s.len() as int));
        lemma_ascii_valid(rest);
    }
}

/// Replacing whole characters of a UTF-8 text by ASCII bytes keeps it UTF-8.
pub proof fn lemma_ascii_patch_valid(t: Seq<char>, o: Seq<u8>)
    requires
        ascii_patch_of(encode_utf8(t), o),
    ensures
        valid_utf8(o),
    decreases t.len(),
{
    let b = encode_utf8(t);
    if t.len() == 0 {
        assert(o.len() == 0);
    } else {
        encode_utf8_first_scalar(t);
        let c0 = encode_scalar(t[0] as u32);
        let k = length_of_first_scalar(b);
        assert(k == c0.len());
        assert(b == c0 + encode_utf8(t.drop_first()));
        assert(b.subrange(0, k) =~= c0);
        assert(b.subrange(k, b.len() as int) =~= encode_utf8(t.drop_first()));
        let o1 = o.subrange(0, k);
        let o2 = o.subrange(k, o.len() as int);
        let b2 = encode_utf8(t.drop_first());
        assert forall|p: int|
            0 < p < b2.len() && is_continuation_byte(#[trigger] b2[p]) && b2[p - 1] >= 0x80 implies ((
        o2[p] == b2[p]) == (o2[p - 1] == b2[p - 1])) by {
            assert(b2[p] == b[p + k]);
            assert(b2[p - 1] == b[p + k - 1]);
        }
        assert(ascii_patch_of(b2, o2));
        lemma_ascii_patch_valid(t.drop_first(), o2);
        // inside the first character, every byte changes or none does
        assert(valid_leading_and_continuation_bytes_first_codepoint(b));
        assert(forall|j: int| 1 <= j < k ==> is_continuation_byte(#[trigger] b[j]));
        if o[0] == b[0] {
            assert forall|j: int| 0 <= j < k implies #[trigger] o[j] == b[j] by {
                if j >= 1 {
                    assert(is_continuation_byte(b[1]));
                    assert(o[1] == b[1]);
                    if j >= 2 {
                        assert(is_continuation_byte(b[2]));
                        assert(o[2] == b[2]);
                    }
                }
            }
            assert(o1 =~= c0);
            encode_utf8_valid_utf8(seq![t[0]]);
            assert(encode_utf8(seq![t[0]]) =~= c0) by {
                let one = seq![t[0]];
                assert(one.drop_first() =~= Seq::<char>::empty());
                assert(encode_utf8(one.drop_first()) =~= Seq::<u8>::empty());
                assert(one[0] == t[0]);
                assert(encode_utf8(one) == encode_scalar(one[0] as u32) + encode_utf8(one.drop_first()));
            }
        } else {
            assert forall|j: int| 0 <= j < k implies #[trigger] o[j] != b[j] by {
                if j >= 1 {
                    assert(is_continuation_byte(b[1]));
                    assert(o[1] != b[1]);
                    if j >= 2 {
                        assert(is_continuation_byte(b[2]));
                        assert(o[2] != b[2]);
                    }
                }
            }
            lemma_ascii_valid(o1);
        }
        valid_utf8_concat(o1, o2);
        assert(o1 + o2 =~= o);
    }
}

/// Characters of an ASCII byte string.
pub open spec fn ascii_chars(b: Seq<u8>) -> Seq<char> {
    Seq::new(b.len(), |i: int| b[i] as char)
}

/// Decimal digits of `n`, most significant first, without leading zeros.
pub open spec fn decimal_bytes(n: nat) -> Seq<u8>
    decreases n,
{
    if n < 10 {
        seq![(48 + n) as u8]
    } else {
        decimal_bytes(n / 10).push((48 + n % 10) as u8)
    }
}

/// `n` written in decimal, as `usize::to_string` writes it.
pub open spec fn decimal(n: nat) -> Seq<char> {
    ascii_chars(decimal_bytes(n))
}

pub proof fn lemma_decimal_bytes_ascii(n: nat)
    ensures
        forall|i: int| 0 <= i < decimal_bytes(n).len() ==> 48 <= #[trigger] decimal_bytes(n)[i] <= 57,
        decimal_bytes(n).len() >= 1,
    decreases n,
{
    if n >= 10 {
        lemma_decimal_bytes_ascii(n / 10);
    }
}

/// A string holding exactly the given ASCII bytes.
pub fn ascii_string(b: Vec<u8>) -> (s: String)
    requires
        forall|i: int| 0 <= i < b@.len() ==> b@[i] < 0x80,
    ensures
        s@ == ascii_chars(b@),
{
    let ghost bs = b@;
    let ghost cs = ascii_chars(bs);
    proof {
        lemma_ascii_valid(bs);
        assert(is_ascii_chars(cs));
        is_ascii_chars_encode_utf8(cs);
        assert forall|i: int| 0 <= i < bs.len() implies encode_utf8(cs)[i] == bs[i] by {
            assert(cs[i] as u8 == encode_utf8(cs)[i]);
            assert((bs[i] as char) as u8 == bs[i]);
        }
        assert(encode_utf8(cs) =~= bs);
    }
    match string_from_utf8(b) {
        Some(s) => {
            proof {
                decode_utf8_encode_utf8(encode_utf8(s@));
                encode_utf8_decode_utf8(s@);
                encode_utf8_decode_utf8(cs);
            }
            s
        },
        None => {
            proof {
                assert(false);
            }
            String::new()
        },
    }
}

fn push_decimal(n: usize, out: &mut Vec<u8>)
    ensures
        final(out)@ == old(out)@ + decimal_bytes(n as nat),
    decreases n,
{
    if n >= 10 {
        push_decimal(n / 10, out);
    }
    out.push((48 + n % 10) as u8);
    proof {
        assert(final(out)@ =~= old(out)@ + decimal_bytes(n as nat));
    }
}

/// `n.to_string()`.
pub fn decimal_string(n: usize) -> (s: String)
    ensures
        s@ == decimal(n as nat),
{
    let mut digits: Vec<u8> = Vec::new();
    push_decimal(n, &mut digits);
    proof {
        lemma_decimal_bytes_ascii(n as nat);
        assert(digits@ =~= decimal_bytes(n as nat));
    }
    ascii_string(digits)
}

/// `String::push`. Its documentation: appends the given `char` to the end.
#[verifier::external_body]
pub(crate) fn push_char(s: &mut String, c: char)
    ensures
        final(s)@ == old(s)@.push(c),
{
    s.push(c);
}

/// The characters of a string.
pub fn chars_of(s: &str) -> (v: Vec<char>)
    ensures
        v@ == s@,
{
    let mut v: Vec<char> = Vec::new();
    for c in it: s.chars()
        invariant
            v@ == it.seq().subrange(0, it.index() as int),
            it.seq() == s@,
    {
        v.push(c);
    }
    v
}

/// Whether two strings hold the same characters.
pub fn str_eq(a: &str, b: &str) -> (r: bool)
    ensures
        r == (a@ == b@),
{
    let x = a.as_bytes();
    let y = b.as_bytes();
    proof {
        encode_utf8_decode_utf8(a@);
        encode_utf8_decode_utf8(b@);
    }
    if x.len() != y.len() {
        return false;
    }
    let mut i: usize = 0;
    while i < x.len()
        invariant
            x@ == encode_utf8(a@),
            y@ == encode_utf8(b@),
            x@.len() == y@.len(),
            i <= x@.len(),
            forall|k: int| 0 <= k < i ==> x@[k] == y@[k],
        decreases x@.len() - i,
    {
        if x[i] != y[i] {
            proof {
                if a@ == b@ {
                    assert(x@[i as int] == y@[i as int]);
                }
            }
            return false;
        }
        i = i + 1;
    }
    proof {
        assert(x@ =~= y@);
    }
    true
}

/// `s` begins with `p`.
pub open spec fn has_prefix(s: Seq<char>, p: Seq<char>) -> bool {
    p.len() <= s.len() && s.subrange(0, p.len() as int) == p
}

/// `needle` occurs in `hay` starting at `i`.
pub open spec fn occurs_at(hay: Seq<char>, needle: Seq<char>, i: int) -> bool {
    0 <= i && i + needle.len() <= hay.len() && hay.subrange(i, i + needle.len()) == needle
}

/// `needle` occurs somewhere in `hay` (`str::contains`).
pub open spec fn has_substring(hay: Seq<char>, needle: Seq<char>) -> bool {
    exists|i: int| occurs_at(hay, needle, i)
}

fn matches_at(hay: &Vec<char>, needle: &Vec<char>, i: usize) -> (r: bool)
    requires
        i + needle@.len() <= hay@.len(),
    ensures
        r == occurs_at(hay@, needle@, i as int),
{
    let hl = hay.len();
    let mut k: usize = 0;
    while k < needle.len()
        invariant
            hl == hay@.len(),
            i + needle@.len() <= hay@.len(),
            k <= needle@.len(),
            forall|q: int| 0 <= q < k ==> hay@[i + q] == needle@[q],
        decreases needle@.len() - k,
    {
        if hay[i + k] != needle[k] {
            proof {
                assert(hay@.subrange(i as int, i + needle@.len())[k as int] != needle@[k as int]);
            }
            return false;
        }
        k = k + 1;
    }
    proof {
        assert(hay@.subrange(i as int, i + needle@.len()) =~= needle@);
    }
    true
}

/// Whether `p` begins `s`.
pub fn starts_with(s: &Vec<char>, p: &Vec<char>) -> (r: bool)
    ensures
        r == has_prefix(s@, p@),
{
    if p.len() > s.len() {
        return false;
    }
    let r = matches_at(s, p, 0);
    proof {
        assert(s@.subrange(0, p@.len() as int) == s@.subrange(0int, 0int + p@.len()));
    }
    r
}

/// Whether `needle` occurs in `hay`.
pub fn contains_str(hay: &str, needle: &str) -> (r: bool)
    ensures
        r == has_substring(hay@, needle@),
{
    let h = chars_of(hay);
    let n = chars_of(needle);
    if n.len() > h.len() {
        proof {
            assert forall|i: int| !occurs_at(hay@, needle@, i) by {}
        }
        return false;
    }
    let last = h.len() - n.len();
    let mut i: usize = 0;
    while i <= last
        invariant
            h@ == hay@,
            n@ == needle@,
            last + n@.len() == h@.len(),
            forall|q: int| 0 <= q < i ==> !occurs_at(hay@, needle@, q),
        decreases last + 1 - i,
    {
        if matches_at(&h, &n, i) {
            return true;
        }
        if i == last {
            proof {
                assert forall|q: int| !occurs_at(hay@, needle@, q) by {
                    if 0 <= q && q <= last {
                    }
                }
            }
            return false;
        }
        i = i + 1;
    }
    false
}

} // verus!
