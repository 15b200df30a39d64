//! The web form / journal wire: `+` and `%XX` decoding, picking one
//! parameter out of `a=1&b=2`, and the FNV-1a hash that tells an
//! on-disk file from its cached parse.

use crate::text::{lossy_utf8, utf8_lossy, 
    lemma_find_char, find_first,
    chars_of, find_char, find_char_from, is_first, push_char, push_chars, slice_chars,
    starts_with, string_of,
};
use vstd::prelude::*;
use vstd::utf8::{decode_utf8, encode_scalar, encode_utf8, valid_utf8};

verus! {

// ---------------------------------------------------------------
// FNV-1a
// ---------------------------------------------------------------

pub const FNV_OFFSET: u64 = 0xcbf2_9ce4_8422_2325;

pub const FNV_PRIME: u64 = 0x0000_0100_0000_01b3;

/// FNV-1a over a byte sequence.
pub open spec fn fnv1a_bytes(b: Seq<u8>) -> u64
    decreases b.len(),
{
    if b.len() == 0 {
        FNV_OFFSET
    } else {
        (fnv1a_bytes(b.drop_last()) ^ (b.last() as u64)).wrapping_mul(FNV_PRIME)
    }
}

/// FNV-1a hash of a string's UTF-8 bytes, matching the parser's own
/// source hash so an on-disk file can be compared without re-parsing.
pub fn fnv1a(s: &str) -> (h: u64)
    ensures
        h == fnv1a_bytes(encode_utf8(s@)),
{
    let bytes = s.as_bytes();
    let mut h: u64 = FNV_OFFSET;
    let mut i: usize = 0;
    while i < bytes.len()
        invariant
            i <= bytes.len(),
            bytes@ == encode_utf8(s@),
            h == fnv1a_bytes(bytes@.take(i as int)),
        decreases bytes.len() - i,
    {
        assert(bytes@.take(i + 1).drop_last() =~= bytes@.take(i as int));
        h = h ^ (bytes[i] as u64);
        h = h.wrapping_mul(FNV_PRIME);
        i = i + 1;
    }
    assert(bytes@.take(i as int) =~= bytes@);
    h
}

/// FNV-1a carried on from the hash `h` through the bytes `b`.
pub open spec fn fnv1a_from(h: u64, b: Seq<u8>) -> u64
    decreases b.len(),
{
    if b.len() == 0 {
        h
    } else {
        (fnv1a_from(h, b.drop_last()) ^ (b.last() as u64)).wrapping_mul(FNV_PRIME)
    }
}

/// Hashing is incremental: the empty text hashes to the offset basis,
/// and the hash of `a + b` is the hash of `a` carried on through `b`, so
/// a file that only grew can be hashed from where it left off.
pub proof fn law_fnv1a_extends(a: Seq<u8>, b: Seq<u8>)
    ensures
        fnv1a_bytes(Seq::<u8>::empty()) == FNV_OFFSET,
        fnv1a_bytes(a + b) == fnv1a_from(fnv1a_bytes(a), b),
    decreases b.len(),
{
    if b.len() == 0 {
        assert(a + b =~= a);
    } else {
        law_fnv1a_extends(a, b.drop_last());
        assert((a + b).drop_last() =~= a + b.drop_last());
    }
}

proof fn lemma_encode_concat(s: Seq<char>, t: Seq<char>)
    ensures
        encode_utf8(s + t) == encode_utf8(s) + encode_utf8(t),
    decreases s.len(),
{
    if s.len() == 0 {
        assert(s + t =~= t);
        assert(encode_utf8(s) + encode_utf8(t) =~= encode_utf8(t));
    } else {
        lemma_encode_concat(s.drop_first(), t);
        assert((s + t).drop_first() =~= s.drop_first() + t);
        assert((s + t)[0] == s[0]);
        let e = encode_scalar(s[0] as u32);
        assert(e + (encode_utf8(s.drop_first()) + encode_utf8(t)) =~= (e + encode_utf8(s.drop_first())) + encode_utf8(t));
    }
}

/// The hash [`fnv1a`] gives a text that grew is the hash of what it was,
/// carried on through the UTF-8 bytes of what was added; the empty text
/// hashes to the offset basis.
pub proof fn law_fnv1a_of_grown_text(s: Seq<char>, t: Seq<char>)
    ensures
        fnv1a_bytes(encode_utf8(Seq::<char>::empty())) == FNV_OFFSET,
        fnv1a_bytes(encode_utf8(s + t)) == fnv1a_from(fnv1a_bytes(encode_utf8(s)), encode_utf8(t)),
{
    lemma_encode_concat(s, t);
    law_fnv1a_extends(encode_utf8(s), encode_utf8(t));
    assert(encode_utf8(Seq::<char>::empty()) =~= Seq::<u8>::empty());
}

// ---------------------------------------------------------------
// Form decoding
// ---------------------------------------------------------------

/// The value of one hexadecimal digit.
pub open spec fn hex_val(b: u8) -> Option<int> {
    if 48 <= b <= 57 {
        Some(b - 48)
    } else if 97 <= b <= 102 {
        Some(b - 87)
    } else if 65 <= b <= 70 {
        Some(b - 55)
    } else {
        None
    }
}

/// `u8::from_str_radix` of the two bytes after a `%`, base 16: two hex
/// digits, or `+` and one.
pub open spec fn pct_pair(b1: u8, b2: u8) -> Option<int> {
    if b1 == 43 {
        hex_val(b2)
    } else {
        match (hex_val(b1), hex_val(b2)) {
            (Some(h), Some(l)) => Some(h * 16 + l),
            _ => None,
        }
    }
}

/// The bytes `b[i..]` decode to: `+` is a space, `%XX` is the byte `XX`,
/// and anything else (a `%` without two hex digits after it included)
/// stands for itself.
pub open spec fn decode_from(b: Seq<u8>, i: int) -> Seq<u8>
    decreases b.len() - i,
{
    if i < 0 || i >= b.len() {
        Seq::empty()
    } else if b[i] == 43 {
        seq![32u8] + decode_from(b, i + 1)
    } else if b[i] == 37 && i + 2 < b.len() && pct_pair(b[i + 1], b[i + 2]) is Some {
        seq![pct_pair(b[i + 1], b[i + 2])->0 as u8] + decode_from(b, i + 3)
    } else {
        seq![b[i]] + decode_from(b, i + 1)
    }
}

/// What `form_decode` makes of a string's bytes, before they are read
/// back as UTF-8.
pub open spec fn form_bytes(s: Seq<char>) -> Seq<u8> {
    decode_from(encode_utf8(s), 0)
}

fn hex_digit(b: u8) -> (r: Option<u8>)
    ensures
        match hex_val(b) {
            Some(v) => r == Some(v as u8),
            None => r is None,
        },
{
    if 48 <= b && b <= 57 {
        Some(b - 48)
    } else if 97 <= b && b <= 102 {
        Some(b - 87)
    } else if 65 <= b && b <= 70 {
        Some(b - 55)
    } else {
        None
    }
}

fn pct_byte(b1: u8, b2: u8) -> (r: Option<u8>)
    ensures
        match pct_pair(b1, b2) {
            Some(v) => r == Some(v as u8) && 0 <= v < 256,
            None => r is None,
        },
{
    if b1 == 43 {
        hex_digit(b2)
    } else {
        match (hex_digit(b1), hex_digit(b2)) {
            (Some(h), Some(l)) => Some(h * 16 + l),
            _ => None,
        }
    }
}

/// Decode `+` and `%XX` form encoding (the web form / journal wire): the
/// decoded bytes read as UTF-8, each invalid sequence as U+FFFD.
pub fn form_decode(s: &str) -> (r: String)
    ensures
        r@ == lossy_utf8(form_bytes(s@)),
        valid_utf8(form_bytes(s@)) ==> r@ == decode_utf8(form_bytes(s@)),
        !valid_utf8(form_bytes(s@)) ==> r@.contains('\u{FFFD}'),
{
    let bytes = s.as_bytes();
    let mut out: Vec<u8> = Vec::new();
    let mut i: usize = 0;
    while i < bytes.len()
        invariant
            i <= bytes.len(),
            bytes@ == encode_utf8(s@),
            out@ + decode_from(bytes@, i as int) == decode_from(bytes@, 0),
        decreases bytes.len() - i,
    {
        let ghost before = out@;
        let ghost i0 = i;
        let b = bytes[i];
        if b == 43 {
            out.push(32u8);
            i = i + 1;
        } else if b == 37 && bytes.len() - i > 2 && pct_byte(bytes[i + 1], bytes[i + 2]).is_some() {
            let v = match pct_byte(bytes[i + 1], bytes[i + 2]) {
                Some(v) => v,
                None => 0,
            };
            out.push(v);
            i = i + 3;
        } else {
            out.push(b);
            i = i + 1;
        }
        assert(out@ + decode_from(bytes@, i as int) =~= before + decode_from(bytes@, i0 as int));
    }
    utf8_lossy(out.as_slice())
}

// ---------------------------------------------------------------
// Parameters
// ---------------------------------------------------------------

#[via_fn]
proof fn param_raw_decreases(f: Seq<char>, key: Seq<char>) {
    lemma_find_char(f, '&');
}

/// The raw value of `key` in `f`: the rest of the first `&`-separated
/// field that starts with `key=`.
pub open spec fn param_raw(f: Seq<char>, key: Seq<char>) -> Option<Seq<char>>
    decreases f.len(),
    via param_raw_decreases
{
    match find_char(f, '&') {
        Some(i) => {
            let field = f.take(i);
            if starts_with(field, key.push('=')) {
                Some(field.skip(key.len() + 1int))
            } else {
                param_raw(f.skip(i + 1), key)
            }
        },
        None => if starts_with(f, key.push('=')) {
            Some(f.skip(key.len() + 1int))
        } else {
            None
        },
    }
}

/// The value of `key` in the form `f`, decoded, or empty when absent.
pub open spec fn param_value(f: Seq<char>, key: Seq<char>) -> Seq<char> {
    match param_raw(f, key) {
        Some(raw) => lossy_utf8(form_bytes(raw)),
        None => Seq::empty(),
    }
}

/// The field `v[lo..hi]` starts with `key=`.
fn field_has_key(v: &Vec<char>, lo: usize, hi: usize, key: &Vec<char>) -> (r: bool)
    requires
        lo <= hi <= v.len(),
    ensures
        r == starts_with(v@.subrange(lo as int, hi as int), key@.push('=')),
{
    let ghost f = v@.subrange(lo as int, hi as int);
    let ghost p = key@.push('=');
    if hi - lo <= key.len() {
        return false;
    }
    let mut j: usize = 0;
    while j < key.len()
        invariant
            lo <= hi <= v.len(),
            hi - lo >= key.len() + 1,
            j <= key.len(),
            f == v@.subrange(lo as int, hi as int),
            p == key@.push('='),
            forall|k: int| 0 <= k < j ==> f[k] == p[k],
        decreases key.len() - j,
    {
        if v[lo + j] != key[j] {
            assert(f.take(p.len() as int)[j as int] != p[j as int]);
            return false;
        }
        j = j + 1;
    }
    if v[lo + j] != '=' {
        assert(f.take(p.len() as int)[j as int] != p[j as int]);
        return false;
    }
    assert(f.take(p.len() as int) =~= p);
    true
}

/// The value of `key` in a `cmd=<name>&id=<block>&arg=<value>` form,
/// decoded; empty when the form has no such field.
pub fn form_param(form: &str, key: &str) -> (r: String)
    ensures
        r@ == param_value(form@, key@),
{
    let v = chars_of(form);
    let k = chars_of(key);
    let mut i: usize = 0;
    assert(v@.skip(0) =~= v@);
    while i <= v.len()
        invariant
            i <= v.len() + 1,
            k@ == key@,
            i <= v.len() ==> param_raw(form@, key@) == param_raw(v@.skip(i as int), key@),
            i > v.len() ==> param_raw(form@, key@) is None,
            v@ == form@,
        decreases v.len() + 1 - i,
    {
        let ghost rest = v@.skip(i as int);
        let end = match find_char_from(&v, '&', i) {
            Some(e) => e,
            None => v.len(),
        };
        proof {
            lemma_find_char(rest, '&');
            if end < v.len() {
                assert(rest[end - i] == '&');
                assert forall|j: int| 0 <= j < end - i implies #[trigger] rest[j] != '&' by {
                    assert(rest[j] == v@[i + j]);
                }
                assert(is_first(rest, '&', end - i));
                crate::text::lemma_first_unique(rest, '&', end - i);
                assert(rest.take(end - i) =~= v@.subrange(i as int, end as int));
                assert(rest.skip(end - i + 1) =~= v@.skip(end + 1));
            } else {
                assert forall|j: int| 0 <= j < rest.len() implies rest[j] != '&' by {
                    assert(rest[j] == v@[i + j]);
                }
                assert(!rest.contains('&'));
                assert(rest =~= v@.subrange(i as int, end as int));
            }
        }
        if field_has_key(&v, i, end, &k) {
            let raw = slice_chars(&v, i + k.len() + 1, end);
            assert(raw@ =~= v@.subrange(i as int, end as int).skip(key@.len() + 1int));
            let raw_s = string_of(&raw);
            return form_decode(raw_s.as_str());
        }
        if end == v.len() {
            return String::new();
        }
        i = end + 1;
    }
    String::new()
}

} // verus!
