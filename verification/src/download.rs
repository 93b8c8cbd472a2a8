//! Documents that are fetched from a URL.

use vstd::prelude::*;
use vstd::utf8::encode_utf8;

use crate::format::{detect_format_from_url, format_of_url, SpecFormat};
use crate::text::{after_last, chars_of, with_tail};

verus! {

/// The character that stands for six bits in base64 (RFC 4648, section 4).
pub open spec fn base64_char(v: nat) -> char {
    if v < 26 {
        ('A' as u32 + v) as char
    } else if v < 52 {
        ('a' as u32 + (v - 26)) as char
    } else if v < 62 {
        ('0' as u32 + (v - 52)) as char
    } else if v == 62 {
        '+'
    } else {
        '/'
    }
}

/// The bytes in base64, with padding (RFC 4648, section 4): each three bytes are four characters
/// of six bits.
pub open spec fn base64(bytes: Seq<u8>) -> Seq<char>
    decreases bytes.len(),
{
    if bytes.len() == 0 {
        Seq::empty()
    } else {
        let a = bytes[0] as nat;
        let b = if bytes.len() > 1 { bytes[1] as nat } else { 0 };
        let c = if bytes.len() > 2 { bytes[2] as nat } else { 0 };
        let quad = seq![
            base64_char(a / 4),
            base64_char(a % 4 * 16 + b / 16),
            if bytes.len() > 1 { base64_char(b % 16 * 4 + c / 64) } else { '=' },
            if bytes.len() > 2 { base64_char(c % 64) } else { '=' },
        ];
        if bytes.len() <= 3 {
            quad
        } else {
            quad + base64(bytes.skip(3))
        }
    }
}

/// The number of characters of so many bytes in base64.
pub open spec fn base64_len(n: nat) -> nat {
    (n + 2) / 3 * 4
}

/// `Engine::encode` of the `base64` crate with its engine `STANDARD`: the bytes in the standard
/// alphabet, with padding, as [`base64`] says. It panics where the length of the result does not
/// fit.
#[verifier::external_body]
fn encode_base64(bytes: &[u8]) -> (r: String)
    requires
        base64_len(bytes@.len()) <= isize::MAX,
    ensures
        r@ == base64(bytes@),
{
    base64::Engine::encode(&base64::engine::general_purpose::STANDARD, bytes)
}

/// A user and a password as they are sent: joined by a colon, in UTF-8.
pub open spec fn credentials(user: Seq<char>, password: Seq<char>) -> Seq<u8> {
    encode_utf8(user + ":"@ + password)
}

/// The value of the `Authorization` header for HTTP Basic Authentication.
pub fn authorization(user: &str, password: &str) -> (r: String)
    requires
        base64_len(credentials(user@, password@).len()) <= isize::MAX,
    ensures
        r@ == "Basic "@ + base64(credentials(user@, password@)),
{
    let mut text = with_tail(user, ":");
    text.append(password);
    let encoded = encode_base64(text.as_str().as_bytes());
    with_tail("Basic ", encoded.as_str())
}

/// The name under which the document of a URL is shown.
pub fn url_name(url: &str) -> (r: String)
    ensures
        r@ == after_last(url@, '/'),
{
    let chars = chars_of(url);
    let mut start: usize = chars.len();
    proof {
        assert(url@.take(chars.len() as int) =~= url@);
        assert(url@.skip(chars.len() as int) =~= Seq::empty());
        assert(after_last(url@, '/') =~= after_last(url@, '/') + Seq::<char>::empty());
    }
    while start > 0 && chars[start - 1] != '/'
        invariant
            chars@ == url@,
            start <= chars.len(),
            after_last(url@, '/') == after_last(url@.take(start as int), '/') + url@.skip(
                start as int,
            ),
        decreases start,
    {
        proof {
            let front = url@.take(start as int);
            assert(front.drop_last() =~= url@.take(start - 1));
            assert(after_last(url@.take(start - 1), '/').push(front.last()) + url@.skip(
                start as int,
            ) =~= after_last(url@.take(start - 1), '/') + url@.skip(start - 1));
        }
        start -= 1;
    }
    let name = url.substring_char(start, chars.len());
    proof {
        assert(after_last(url@.take(start as int), '/') =~= Seq::empty());
        assert(name@ =~= after_last(url@, '/'));
    }
    name.to_owned()
}

/// What a request came to: the body of the response, or why it could not be read, or why there
/// is no response.
pub enum Response {
    Body(String),
    Unreadable(String),
    Failed(String),
}

/// What a [`Response`] says.
pub enum ResponseView {
    Body(Seq<char>),
    Unreadable(Seq<char>),
    Failed(Seq<char>),
}

impl View for Response {
    type V = ResponseView;

    open spec fn view(&self) -> ResponseView {
        match self {
            Response::Body(text) => ResponseView::Body(text@),
            Response::Unreadable(error) => ResponseView::Unreadable(error@),
            Response::Failed(error) => ResponseView::Failed(error@),
        }
    }
}

/// The contents, the name and the format of the document of a URL, or what is reported.
pub open spec fn downloaded(url: Seq<char>, response: ResponseView) -> Result<
    (Seq<char>, Seq<char>, SpecFormat),
    Seq<char>,
> {
    match response {
        ResponseView::Body(text) => Ok((text, after_last(url, '/'), format_of_url(url))),
        ResponseView::Unreadable(error) => Err("Failed to read response body: "@ + error),
        ResponseView::Failed(error) => Err("HTTP request failed: "@ + error),
    }
}

/// The contents, the name and the format, or the characters of the error.
pub open spec fn download_result(r: Result<(String, String, SpecFormat), String>) -> Result<
    (Seq<char>, Seq<char>, SpecFormat),
    Seq<char>,
> {
    match r {
        Ok((contents, name, format)) => Ok((contents@, name@, format)),
        Err(error) => Err(error@),
    }
}

/// The document of a URL, from what the request for it came to: its contents, its name and its
/// format.
pub fn download_spec(url: &str, response: Response) -> (r: Result<
    (String, String, SpecFormat),
    String,
>)
    ensures
        download_result(r) == downloaded(url@, response@),
{
    match response {
        Response::Body(text) => Ok((text, url_name(url), detect_format_from_url(url))),
        Response::Unreadable(error) => Err(
            with_tail("Failed to read response body: ", error.as_str()),
        ),
        Response::Failed(error) => Err(with_tail("HTTP request failed: ", error.as_str())),
    }
}

} // verus!
