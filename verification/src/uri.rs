//! Turning a `file://` URI, as a file manager hands it over, into a path.
use vstd::prelude::*;
use vstd::utf8::encode_utf8;
use crate::text::{chars_of, copy_range, decode_bytes, decode_text, starts_with, starts_with_chars, string_of};

verus! {

/// What `url::Url::parse` and then `Url::path` give for a string: `None`
/// where it is no absolute URL.
pub uninterp spec fn file_url_path(uri: Seq<char>) -> Option<Seq<char>>;

/// `url::Url::parse(uri)` and, where it succeeds, `Url::path()`. The path is
/// a function of the string alone, named `file_url_path`; the crate's
/// documentation calls it a percent-encoded ASCII string, which is not
/// relied on here.
#[verifier::external_body]
fn parsed_url_path(uri: &str) -> (r: Option<String>)
    ensures
        match r {
            Some(p) => file_url_path(uri@) == Some(p@),
            None => file_url_path(uri@) is None,
        },
{
    match url::Url::parse(uri) {
        Ok(u) => Some(u.path().to_string()),
        Err(_) => None,
    }
}

pub open spec fn scheme_prefix() -> Seq<char> {
    seq!['f', 'i', 'l', 'e', ':', '/', '/']
}

pub open spec fn hex_value(b: u8) -> Option<nat> {
    if 48 <= b <= 57 {
        Some((b - 48) as nat)
    } else if 65 <= b <= 70 {
        Some((b - 55) as nat)
    } else if 97 <= b <= 102 {
        Some((b - 87) as nat)
    } else {
        None
    }
}

/// Percent-decoding of bytes: `%` and two hex digits stand for the byte they
/// spell; every other byte, a `%` without two hex digits after it included,
/// stands for itself.
pub open spec fn percent_decode(b: Seq<u8>) -> Seq<u8>
    decreases b.len(),
{
    if b.len() == 0 {
        Seq::empty()
    } else if b[0] == 37 && b.len() >= 3 && hex_value(b[1]) is Some && hex_value(b[2]) is Some {
        seq![(16 * hex_value(b[1])->0 + hex_value(b[2])->0) as u8] + percent_decode(b.skip(3))
    } else {
        seq![b[0]] + percent_decode(b.skip(1))
    }
}

/// The file path for a URI, given what the URL parser made of it: a
/// `file://` URI gives its path with percent escapes decoded (bytes that are
/// no UTF-8 decode as `from_utf8_lossy` does), or, where the parser refused
/// it, the text after `file://`; anything else is a path already.
pub open spec fn uri_path(uri: Seq<char>, parsed: Option<Seq<char>>) -> Seq<char> {
    if starts_with(uri, scheme_prefix()) {
        match parsed {
            Some(p) => decode_text(percent_decode(encode_utf8(p))),
            None => uri.skip(7),
        }
    } else {
        uri
    }
}

fn hex_of(b: u8) -> (r: Option<u8>)
    ensures
        match hex_value(b) {
            Some(v) => r == Some(v as u8),
            None => r is None,
        },
{
    if 48 <= b && b <= 57 {
        Some(b - 48)
    } else if 65 <= b && b <= 70 {
        Some(b - 55)
    } else if 97 <= b && b <= 102 {
        Some(b - 87)
    } else {
        None
    }
}

pub fn percent_decode_bytes(b: &[u8]) -> (r: Vec<u8>)
    ensures
        r@ == percent_decode(b@),
{
    let mut r: Vec<u8> = Vec::new();
    let mut i: usize = 0;
    assert(b@.skip(0) =~= b@);
    assert(r@ + percent_decode(b@) =~= percent_decode(b@));
    while i < b.len()
        invariant
            0 <= i <= b.len(),
            r@ + percent_decode(b@.skip(i as int)) == percent_decode(b@),
        decreases b.len() - i,
    {
        let ghost rest = b@.skip(i as int);
        let mut step: usize = 1;
        let mut out: u8 = b[i];
        if b[i] == 37 && b.len() - i >= 3 {
            match (hex_of(b[i + 1]), hex_of(b[i + 2])) {
                (Some(h), Some(l)) => {
                    assert(rest[1] == b@[i + 1] && rest[2] == b@[i + 2]);
                    out = h * 16 + l;
                    step = 3;
                },
                _ => {
                    assert(rest[1] == b@[i + 1] && rest[2] == b@[i + 2]);
                },
            }
        }
        proof {
            assert(rest.skip(step as int) =~= b@.skip(i + step));
            assert(rest[0] == b@[i as int]);
            assert(percent_decode(rest) == seq![out] + percent_decode(rest.skip(step as int)));
            assert(r@.push(out) + percent_decode(b@.skip(i + step)) =~= r@ + percent_decode(rest));
        }
        r.push(out);
        i = i + step;
    }
    assert(b@.skip(b.len() as int) =~= Seq::<u8>::empty());
    assert(r@ + Seq::<u8>::empty() =~= r@);
    r
}

/// The path for a URI from what the URL parser made of it (see `uri_path`).
pub fn decoded_uri_path(uri: &str, parsed: Option<String>) -> (r: String)
    ensures
        r@ == uri_path(uri@, match parsed {
            Some(p) => Some(p@),
            None => None,
        }),
{
    let u = chars_of(uri);
    let prefix = chars_of("file://");
    proof {
        reveal_strlit("file://");
        assert("file://"@ =~= scheme_prefix());
    }
    if !starts_with_chars(u.as_slice(), prefix.as_slice()) {
        return string_of(u.as_slice());
    }
    match parsed {
        Some(p) => {
            let decoded = percent_decode_bytes(p.as_str().as_bytes());
            let text = decode_bytes(decoded.as_slice());
            string_of(text.as_slice())
        },
        None => {
            let rest = copy_range(u.as_slice(), 7, u.len());
            assert(rest@ =~= uri@.skip(7));
            string_of(rest.as_slice())
        },
    }
}

/// Decodes a `file://` URI to a regular file path; percent-encoded
/// characters are decoded (`%20` is a space). Anything else is returned as
/// it is.
pub fn decode_file_uri(uri: &str) -> (r: String)
    ensures
        r@ == uri_path(uri@, file_url_path(uri@)),
{
    let u = chars_of(uri);
    let prefix = chars_of("file://");
    proof {
        reveal_strlit("file://");
        assert("file://"@ =~= scheme_prefix());
    }
    if starts_with_chars(u.as_slice(), prefix.as_slice()) {
        let parsed = parsed_url_path(uri);
        decoded_uri_path(uri, parsed)
    } else {
        decoded_uri_path(uri, None)
    }
}

} // verus!
