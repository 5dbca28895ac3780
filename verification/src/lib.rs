//! A small CGI request-handling toolkit.
//!
//! The heart of the crate is [`mpart`], a streaming `multipart/form-data`
//! decoder that turns a boundary-delimited byte stream into discrete parts.
//! Around it stand the helpers a CGI program needs: HTML/JSON/URL escaping,
//! base64, a placeholder-substitution template language, request-parameter
//! and cookie maps, and HTTP date formatting.

use vstd::prelude::*;

pub mod data;
pub mod mpart;
pub mod simweb;
pub mod strutil;
pub mod template;

pub use data::{WebData, base64_encode_with_padding, has_root, as_web_path, http_format_time,
    iso_8859_1_to_string};
pub use mpart::{MPart, Part, MPartError};
pub use simweb::WebPage;
pub use template::{Selectable, interpolate};

verus! {

/// The crate's version string.
pub fn get_version() -> (r: &'static str)
    ensures
        r@ == "0.1.0"@,
{
    "0.1.0"
}

/// The stand-in page for a request the implementation cannot serve: its
/// load always fails, so rendering it yields the internal-error response.
pub struct FiveXXError {}

impl simweb::WebPage for FiveXXError {
    open spec fn spec_main_load(&self) -> Result<Seq<char>, (Seq<char>, Option<Seq<char>>)> {
        Err(("Rust impl error"@, None))
    }

    fn main_load(&self) -> (r: Result<String, WebError>) {
        let mut reason = String::new();
        reason.append("Rust impl error");
        Err(WebError { reason, cause: None })
    }

    fn content_type(&self) -> (r: String) {
        let mut ct = String::new();
        ct.append("text/html");
        ct
    }

    fn get_extra(&self) -> (r: Option<Vec<(String, String)>>) {
        None
    }

    fn apply_specific(&self, page_map: &mut Vec<(String, String)>) -> (r: Result<(), WebError>) {
        Ok(())
    }

    fn status(&self) -> (r: Option<(u16, String)>) {
        None
    }
}

/// The response side could not produce a page.
#[derive(Debug)]
pub struct WebError {
    /// What went wrong, in words.
    pub reason: String,
    /// The underlying failure's description, when one exists.
    pub cause: Option<String>,
}

impl WebError {
    /// The error line a page renders for its maintainer.
    pub fn message(&self) -> (r: String)
        ensures
            r@ == "It's because "@ + self.reason@ + (match self.cause {
                Some(c) => ", caused by "@ + c@,
                None => Seq::<char>::empty(),
            }),
    {
        let mut r = String::new();
        r.append("It's because ");
        r.append(self.reason.as_str());
        match &self.cause {
            Some(c) => {
                r.append(", caused by ");
                r.append(c.as_str());
            },
            None => {},
        }
        r
    }
}

/// What a character becomes in HTML text: the five significant characters
/// as entities, everything else itself.
pub open spec fn html_escape_char(c: char) -> Seq<char> {
    if c == '<' {
        "&lt;"@
    } else if c == '>' {
        "&gt;"@
    } else if c == '"' {
        "&quot;"@
    } else if c == '\'' {
        "&#39;"@
    } else if c == '&' {
        "&amp;"@
    } else {
        seq![c]
    }
}

/// Every character HTML-escaped, in order.
pub open spec fn spec_html_encode(s: Seq<char>) -> Seq<char>
    decreases s.len(),
{
    if s.len() == 0 {
        Seq::empty()
    } else {
        html_escape_char(s[0]) + spec_html_encode(s.skip(1))
    }
}

/// Escapes text for HTML, per [`spec_html_encode`].
#[verifier::loop_isolation(false)]
pub fn html_encode(orig: &str) -> (r: String)
    ensures
        r@ == spec_html_encode(orig@),
{
    let n = orig.unicode_len();
    let mut r = String::new();
    let mut i: usize = 0;
    proof {
        assert(orig@.skip(0) =~= orig@);
    }
    while i < n
        invariant
            0 <= i <= n,
            n == orig@.len(),
            spec_html_encode(orig@) == r@ + spec_html_encode(orig@.skip(i as int)),
        decreases n - i,
    {
        let c = orig.get_char(i);
        assert(c == orig@.skip(i as int)[0]);
        if c == '<' {
            r.append("&lt;");
        } else if c == '>' {
            r.append("&gt;");
        } else if c == '"' {
            r.append("&quot;");
        } else if c == '\'' {
            r.append("&#39;");
        } else if c == '&' {
            r.append("&amp;");
        } else {
            crate::strutil::push_char(&mut r, c);
        }
        proof {
            assert(orig@.skip(i as int).skip(1) =~= orig@.skip(i as int + 1));
        }
        i = i + 1;
    }
    r
}

/// What a character becomes inside a JSON string literal.
pub open spec fn json_escape_char(c: char) -> Seq<char> {
    if c == '"' {
        "\\\""@
    } else if c == '\n' {
        "\\n"@
    } else if c == '\r' {
        "\\r"@
    } else if c == '\t' {
        "\\t"@
    } else if c == '\\' {
        "\\\\"@
    } else {
        seq![c]
    }
}

/// Every character JSON-escaped, in order.
pub open spec fn spec_json_encode(s: Seq<char>) -> Seq<char>
    decreases s.len(),
{
    if s.len() == 0 {
        Seq::empty()
    } else {
        json_escape_char(s[0]) + spec_json_encode(s.skip(1))
    }
}

/// The escape for a character that JSON string literals cannot carry
/// bare, or `None` exactly for one they can.
pub fn escape_char(c: char) -> (r: Option<&'static str>)
    ensures
        match r {
            Some(e) => e@ == json_escape_char(c) && json_escape_char(c) != seq![c],
            None => json_escape_char(c) == seq![c],
        },
{
    proof {
        reveal_strlit("\\\"");
        reveal_strlit("\\n");
        reveal_strlit("\\r");
        reveal_strlit("\\t");
        reveal_strlit("\\\\");
    }
    if c == '"' {
        Some("\\\"")
    } else if c == '\n' {
        Some("\\n")
    } else if c == '\r' {
        Some("\\r")
    } else if c == '\t' {
        Some("\\t")
    } else if c == '\\' {
        Some("\\\\")
    } else {
        None
    }
}

/// Escapes text for a JSON string literal, per [`spec_json_encode`].
#[verifier::loop_isolation(false)]
pub fn json_encode(orig: &str) -> (r: String)
    ensures
        r@ == spec_json_encode(orig@),
{
    let n = orig.unicode_len();
    let mut r = String::new();
    let mut i: usize = 0;
    proof {
        assert(orig@.skip(0) =~= orig@);
    }
    while i < n
        invariant
            0 <= i <= n,
            n == orig@.len(),
            spec_json_encode(orig@) == r@ + spec_json_encode(orig@.skip(i as int)),
        decreases n - i,
    {
        let c = orig.get_char(i);
        assert(c == orig@.skip(i as int)[0]);
        match escape_char(c) {
            Some(e) => {
                r.append(e);
            },
            None => {
                crate::strutil::push_char(&mut r, c);
            },
        }
        proof {
            assert(orig@.skip(i as int).skip(1) =~= orig@.skip(i as int + 1));
        }
        i = i + 1;
    }
    r
}

/// A byte that URL component encoding passes through bare.
pub open spec fn is_unreserved(b: u8) -> bool {
    (48 <= b && b <= 57) || (65 <= b && b <= 90) || (97 <= b && b <= 122) || b == 45 || b == 46
        || b == 95 || b == 126
}

/// Lower-case hexadecimal digit of a value below sixteen.
pub open spec fn hex_lower(v: u8) -> char
    recommends
        v < 16,
{
    if v < 10 {
        ((v + 48) as char)
    } else {
        ((v + 87) as char)
    }
}

/// URL component encoding of a byte sequence: unreserved bytes bare, the
/// rest as `%` and two lower-case hexadecimal digits.
pub open spec fn spec_url_encode(bytes: Seq<u8>) -> Seq<char>
    decreases bytes.len(),
{
    if bytes.len() == 0 {
        Seq::empty()
    } else {
        (if is_unreserved(bytes[0]) {
            seq![bytes[0] as char]
        } else {
            seq!['%', hex_lower(bytes[0] / 16), hex_lower(bytes[0] % 16)]
        }) + spec_url_encode(bytes.skip(1))
    }
}

/// Percent-encodes text as a URL component: the UTF-8 bytes of the text,
/// unreserved ones bare, the rest as `%xy`.
#[verifier::loop_isolation(false)]
pub fn url_encode(orig: &str) -> (r: String)
    ensures
        r@ == spec_url_encode(vstd::utf8::encode_utf8(orig@)),
{
    let b = orig.as_bytes();
    let n = b.len();
    let mut r = String::new();
    let mut i: usize = 0;
    proof {
        assert(b@.skip(0) =~= b@);
    }
    while i < n
        invariant
            0 <= i <= n,
            n == b@.len(),
            b@ == vstd::utf8::encode_utf8(orig@),
            spec_url_encode(b@) == r@ + spec_url_encode(b@.skip(i as int)),
        decreases n - i,
    {
        let c = b[i];
        assert(c == b@.skip(i as int)[0]);
        if (48 <= c && c <= 57) || (65 <= c && c <= 90) || (97 <= c && c <= 122) || c == 45 || c
            == 46 || c == 95 || c == 126 {
            crate::strutil::push_char(&mut r, c as char);
        } else {
            crate::strutil::push_char(&mut r, '%');
            let hi = c / 16;
            let lo = c % 16;
            crate::strutil::push_char(
                &mut r,
                if hi < 10 {
                    (hi + 48) as char
                } else {
                    (hi + 87) as char
                },
            );
            crate::strutil::push_char(
                &mut r,
                if lo < 10 {
                    (lo + 48) as char
                } else {
                    (lo + 87) as char
                },
            );
        }
        proof {
            assert(b@.skip(i as int).skip(1) =~= b@.skip(i as int + 1));
        }
        i = i + 1;
    }
    r
}

/// Two lower-case hexadecimal digits for each byte, in order.
pub open spec fn spec_hex(bytes: Seq<u8>) -> Seq<char>
    decreases bytes.len(),
{
    if bytes.len() == 0 {
        Seq::empty()
    } else {
        seq![hex_lower(bytes[0] / 16), hex_lower(bytes[0] % 16)] + spec_hex(bytes.skip(1))
    }
}

/// Renders bytes as lower-case hexadecimal, per [`spec_hex`].
#[verifier::loop_isolation(false)]
pub fn to_hex(line: &[u8]) -> (r: String)
    ensures
        r@ == spec_hex(line@),
{
    let n = line.len();
    let mut r = String::new();
    let mut i: usize = 0;
    proof {
        assert(line@.skip(0) =~= line@);
    }
    while i < n
        invariant
            0 <= i <= n,
            n == line@.len(),
            spec_hex(line@) == r@ + spec_hex(line@.skip(i as int)),
        decreases n - i,
    {
        let c = line[i];
        assert(c == line@.skip(i as int)[0]);
        let hi = c / 16;
        let lo = c % 16;
        crate::strutil::push_char(
            &mut r,
            if hi < 10 {
                (hi + 48) as char
            } else {
                (hi + 87) as char
            },
        );
        crate::strutil::push_char(
            &mut r,
            if lo < 10 {
                (lo + 48) as char
            } else {
                (lo + 87) as char
            },
        );
        proof {
            assert(line@.skip(i as int).skip(1) =~= line@.skip(i as int + 1));
        }
        i = i + 1;
    }
    r
}

/// The `Set-Cookie` header for a name, value and optional expiry given as
/// epoch seconds.
pub fn new_cookie_header(name: &String, value: &String, exparation: Option<u64>) -> (r: (
    String,
    String,
))
    ensures
        r.0@ == "Set-Cookie"@,
        r.1@ == name@ + "="@ + value@ + (match exparation {
            Some(t) => "; Expires="@ + crate::data::spec_http_time(t),
            None => Seq::<char>::empty(),
        }),
{
    let mut v = String::new();
    v.append(name.as_str());
    v.append("=");
    v.append(value.as_str());
    match exparation {
        Some(t) => {
            v.append("; Expires=");
            v.append(crate::data::http_format_time(t).as_str());
        },
        None => {},
    }
    let mut k = String::new();
    k.append("Set-Cookie");
    (k, v)
}

} // verus!
