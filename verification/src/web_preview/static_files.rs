//! Media files served to the preview page: their content type and the
//! decoding of the request path.
use crate::discovery::{eq_ignore_ascii_case, eq_ignore_ascii_case_exec, path_extension, unix_extension};
use crate::text::chars_of;
use vstd::prelude::*;
use vstd::utf8::{
    decode_utf8, encode_scalar, encode_utf8, char_u32_cast, encode_utf8_decode_utf8, encode_utf8_valid_utf8,
    has_width_1_encoding, has_width_2_encoding, has_width_3_encoding, valid_utf8,
};

verus! {

/// The content type served for a file extension (ASCII case ignored).
pub open spec fn mime_of_extension(e: Seq<char>) -> Seq<char> {
    if eq_ignore_ascii_case(e, "png"@) {
        "image/png"@
    } else if eq_ignore_ascii_case(e, "jpg"@) || eq_ignore_ascii_case(e, "jpeg"@) {
        "image/jpeg"@
    } else if eq_ignore_ascii_case(e, "gif"@) {
        "image/gif"@
    } else if eq_ignore_ascii_case(e, "svg"@) {
        "image/svg+xml"@
    } else if eq_ignore_ascii_case(e, "webp"@) {
        "image/webp"@
    } else if eq_ignore_ascii_case(e, "bmp"@) {
        "image/bmp"@
    } else if eq_ignore_ascii_case(e, "ico"@) {
        "image/x-icon"@
    } else {
        "application/octet-stream"@
    }
}

/// The content type served for a path: that of its extension, and
/// `application/octet-stream` for a path without one.
pub open spec fn mime_of(p: Seq<char>) -> Seq<char> {
    match unix_extension(p) {
        Some(e) => mime_of_extension(e),
        None => mime_of_extension(seq![]),
    }
}

fn is_ext(e: &Vec<char>, name: &str) -> (r: bool)
    ensures
        r == eq_ignore_ascii_case(e@, name@),
{
    eq_ignore_ascii_case_exec(e, &chars_of(name))
}

/// The MIME type of a file, from its extension (common image formats).
pub fn mime_for_path(path: &str) -> (r: &'static str)
    ensures
        r@ == mime_of(path@),
{
    let e: Vec<char> = match path_extension(path) {
        Some(s) => chars_of(s.as_str()),
        None => Vec::new(),
    };
    if is_ext(&e, "png") {
        "image/png"
    } else if is_ext(&e, "jpg") || is_ext(&e, "jpeg") {
        "image/jpeg"
    } else if is_ext(&e, "gif") {
        "image/gif"
    } else if is_ext(&e, "svg") {
        "image/svg+xml"
    } else if is_ext(&e, "webp") {
        "image/webp"
    } else if is_ext(&e, "bmp") {
        "image/bmp"
    } else if is_ext(&e, "ico") {
        "image/x-icon"
    } else {
        "application/octet-stream"
    }
}

/// The value of an ASCII hexadecimal digit.
pub open spec fn hex_value(b: u8) -> Option<u8> {
    if 0x30 <= b <= 0x39 {
        Some((b - 0x30) as u8)
    } else if 0x61 <= b <= 0x66 {
        Some((b - 0x61 + 10) as u8)
    } else if 0x41 <= b <= 0x46 {
        Some((b - 0x41 + 10) as u8)
    } else {
        None
    }
}

fn hex_val(b: u8) -> (r: Option<u8>)
    ensures
        r == hex_value(b),
{
    if 0x30 <= b && b <= 0x39 {
        Some(b - 0x30)
    } else if 0x61 <= b && b <= 0x66 {
        Some(b - 0x61 + 10)
    } else if 0x41 <= b && b <= 0x46 {
        Some(b - 0x41 + 10)
    } else {
        None
    }
}

/// The bytes of a percent-encoded text decoded: `%` and two hex digits
/// give that byte; any other `%` is kept as it is, and the bytes after it
/// are decoded in turn.
pub open spec fn percent_decoded(bs: Seq<u8>) -> Seq<u8>
    decreases bs.len(),
{
    if bs.len() == 0 {
        seq![]
    } else if bs[0] == 0x25 && bs.len() >= 3 && hex_value(bs[1]) is Some && hex_value(bs[2]) is Some {
        seq![(hex_value(bs[1])->0 * 16 + hex_value(bs[2])->0) as u8] + percent_decoded(
            bs.subrange(3, bs.len() as int),
        )
    } else {
        seq![bs[0]] + percent_decoded(bs.subrange(1, bs.len() as int))
    }
}

/// Percent-decodes a byte string.
pub fn percent_decode_bytes(input: &[u8]) -> (r: Vec<u8>)
    ensures
        r@ == percent_decoded(input@),
{
    let mut raw: Vec<u8> = Vec::new();
    let mut i: usize = 0;
    let n = input.len();
    assert(input@.subrange(0, n as int) =~= input@);
    while i < n
        invariant
            n == input@.len(),
            0 <= i <= n,
            raw@ + percent_decoded(input@.subrange(i as int, n as int)) == percent_decoded(input@),
        decreases n - i,
    {
        let ghost rest = input@.subrange(i as int, n as int);
        let b = input[i];
        let escape = if b == 0x25 && n - i >= 3 {
            match (hex_val(input[i + 1]), hex_val(input[i + 2])) {
                (Some(h), Some(l)) => Some(h * 16 + l),
                _ => None,
            }
        } else {
            None
        };
        match escape {
            Some(v) => {
                raw.push(v);
                assert(rest.subrange(3, rest.len() as int) =~= input@.subrange(i + 3, n as int));
                i = i + 3;
            },
            None => {
                raw.push(b);
                assert(rest.subrange(1, rest.len() as int) =~= input@.subrange(i + 1, n as int));
                i = i + 1;
            },
        }
    }
    raw
}

/// What `String::from_utf8_lossy` makes of a byte string.
pub uninterp spec fn utf8_lossy(bytes: Seq<u8>) -> Seq<char>;

/// `String::from_utf8_lossy(bytes).into_owned()`: the text the bytes
/// encode, with each invalid sequence replaced by U+FFFD; on valid UTF-8
/// it is the plain decoding.
#[verifier::external_body]
fn string_from_utf8_lossy(bytes: &[u8]) -> (r: String)
    ensures
        r@ == utf8_lossy(bytes@),
        valid_utf8(bytes@) ==> r@ == decode_utf8(bytes@),
{
    String::from_utf8_lossy(bytes).into_owned()
}

/// Decodes percent-encoded URL characters (`%20` → space, etc.); bytes
/// that do not form UTF-8 become U+FFFD.
pub fn percent_decode(input: &str) -> (r: String)
    ensures
        r@ == utf8_lossy(percent_decoded(encode_utf8(input@))),
        valid_utf8(percent_decoded(encode_utf8(input@))) ==> r@ == decode_utf8(
            percent_decoded(encode_utf8(input@)),
        ),
{
    let raw = percent_decode_bytes(input.as_bytes());
    string_from_utf8_lossy(raw.as_slice())
}

proof fn lemma_scalar_has_no_percent(v: u32)
    requires
        v != 0x25,
    ensures
        forall|i: int| 0 <= i < encode_scalar(v).len() ==> encode_scalar(v)[i] != 0x25,
{
    if has_width_1_encoding(v) {
        assert((v & 0x7F) as u8 != 0x25u8) by (bit_vector)
            requires
                v <= 0x7F,
                v != 0x25,
        ;
    } else {
        assert(forall|x: u8| (0xC0u8 | x) != 0x25u8) by (bit_vector);
        assert(forall|x: u8| (0xE0u8 | x) != 0x25u8) by (bit_vector);
        assert(forall|x: u8| (0xF0u8 | x) != 0x25u8) by (bit_vector);
        assert(forall|x: u8| (0x80u8 | x) != 0x25u8) by (bit_vector);
        if has_width_2_encoding(v) {
        } else if has_width_3_encoding(v) {
        } else {
        }
    }
}

proof fn lemma_encoding_has_no_percent(s: Seq<char>)
    requires
        !s.contains('%'),
    ensures
        forall|i: int| 0 <= i < encode_utf8(s).len() ==> encode_utf8(s)[i] != 0x25,
    decreases s.len(),
{
    if s.len() > 0 {
        let c = s[0];
        assert(c != '%');
        char_u32_cast(c, c as u32);
        char_u32_cast('%', '%' as u32);
        assert(c as u32 != 0x25);
        lemma_scalar_has_no_percent(c as u32);
        assert(!s.drop_first().contains('%')) by {
            if s.drop_first().contains('%') {
                let k = choose|k: int| 0 <= k < s.drop_first().len() && s.drop_first()[k] == '%';
                assert(s[k + 1] == '%');
            }
        }
        lemma_encoding_has_no_percent(s.drop_first());
        let head = encode_scalar(c as u32);
        let tail = encode_utf8(s.drop_first());
        assert(encode_utf8(s) == head + tail);
        assert forall|i: int| 0 <= i < encode_utf8(s).len() implies encode_utf8(s)[i] != 0x25 by {
            if i < head.len() {
                assert(encode_utf8(s)[i] == head[i]);
            } else {
                assert(encode_utf8(s)[i] == tail[i - head.len()]);
            }
        }
    }
}

proof fn lemma_percent_decoded_plain(bs: Seq<u8>)
    requires
        forall|i: int| 0 <= i < bs.len() ==> bs[i] != 0x25,
    ensures
        percent_decoded(bs) == bs,
    decreases bs.len(),
{
    if bs.len() > 0 {
        let rest = bs.subrange(1, bs.len() as int);
        lemma_percent_decoded_plain(rest);
        assert(seq![bs[0]] + rest =~= bs);
    }
}

/// A text without `%` decodes to itself.
pub proof fn percent_decode_keeps_plain_text(s: Seq<char>)
    requires
        !s.contains('%'),
    ensures
        percent_decoded(encode_utf8(s)) == encode_utf8(s),
        valid_utf8(percent_decoded(encode_utf8(s))),
        decode_utf8(percent_decoded(encode_utf8(s))) == s,
{
    lemma_encoding_has_no_percent(s);
    lemma_percent_decoded_plain(encode_utf8(s));
    encode_utf8_valid_utf8(s);
    encode_utf8_decode_utf8(s);
}

} // verus!
