//! Preparing a Gemini request: normalising what the user typed into a URL,
//! and taking the host, the address and the request line from a URL.

use vstd::prelude::*;
use crate::gemtext::{gemini_scheme, gemini_scheme_chars};
use crate::text::{has_prefix, push_char, starts_with, str_chars, string_from_chars};

verus! {

/// Why a request could not be made.
#[derive(Debug, Clone, Copy, PartialEq, Eq, Structural)]
pub enum ReqErr {
    MalformedUrl,
    SslConnection,
    HostConnection,
    Read,
    Write,
}

/// A URL as the browser requests it: with the `gemini://` scheme in front
/// (added when missing) and a `/` appended.
pub open spec fn sanitized(url: Seq<char>) -> Seq<char> {
    let with_scheme = if has_prefix(url, gemini_scheme()) {
        url
    } else {
        gemini_scheme() + url
    };
    with_scheme.push('/')
}

/// Puts `gemini://` in front of `url` unless it is there, and appends `/`.
pub fn sanitize_url(url: String) -> (r: String)
    ensures
        r@ == sanitized(url@),
{
    let cs = str_chars(url.as_str());
    let scheme = gemini_scheme_chars();
    let mut r = if !starts_with(cs.as_slice(), scheme.as_slice()) {
        let mut s = string_from_chars(scheme.as_slice());
        s.append(url.as_str());
        s
    } else {
        url
    };
    push_char(&mut r, '/');
    r
}

/// The characters of `s` before its first `/` (all of them if it has none).
pub open spec fn before_slash(s: Seq<char>) -> Seq<char>
    decreases s.len(),
{
    if s.len() == 0 || s[0] == '/' {
        seq![]
    } else {
        seq![s[0]] + before_slash(s.drop_first())
    }
}

/// The host of a `gemini://` URL: what follows the scheme, up to the first
/// `/`.
pub open spec fn host_of(url: Seq<char>) -> Seq<char> {
    before_slash(url.skip(gemini_scheme().len() as int))
}

/// The port that Gemini servers listen on, with its colon.
pub open spec fn port_suffix() -> Seq<char> {
    seq![':', '1', '9', '6', '5']
}

/// What is needed to send a request: the host (for the TLS name), the
/// address to connect to, and the request line to write.
pub struct GeminiRequest {
    pub host: String,
    pub address: String,
    pub line: String,
}

/// Takes the host, the address (`host:1965`) and the request line (the URL
/// and CRLF) from a URL; a URL that does not start with `gemini://` is
/// malformed.
pub fn prepare_request(url: &str) -> (r: Result<GeminiRequest, ReqErr>)
    ensures
        r is Err <==> !has_prefix(url@, gemini_scheme()),
        r matches Err(e) ==> e == ReqErr::MalformedUrl,
        r matches Ok(req) ==> {
            &&& req.host@ == host_of(url@)
            &&& req.address@ == host_of(url@) + port_suffix()
            &&& req.line@ == url@ + seq!['\r', '\n']
        },
{
    let cs = str_chars(url);
    let scheme = gemini_scheme_chars();
    if !starts_with(cs.as_slice(), scheme.as_slice()) {
        return Err(ReqErr::MalformedUrl);
    }
    let n = cs.len();
    let mut host_chars: Vec<char> = Vec::new();
    let mut i: usize = 9;
    let ghost rest = url@.skip(9);
    assert(rest == cs@.skip(9));
    while i < n && cs[i] != '/'
        invariant
            9 <= i <= n,
            n == cs@.len(),
            rest == cs@.skip(9),
            before_slash(rest) == host_chars@ + before_slash(cs@.skip(i as int)),
        decreases n - i,
    {
        let ghost tail = cs@.skip(i as int);
        assert(tail.drop_first() == cs@.skip(i + 1));
        assert(tail[0] == cs@[i as int]);
        let ghost prev = host_chars@;
        host_chars.push(cs[i]);
        assert(prev + before_slash(tail) == prev + (seq![cs@[i as int]] + before_slash(
            tail.drop_first(),
        )));
        assert(host_chars@ + before_slash(cs@.skip(i + 1)) =~= prev + (seq![cs@[i as int]]
            + before_slash(tail.drop_first())));
        i = i + 1;
    }
    assert(before_slash(cs@.skip(i as int)) == Seq::<char>::empty());
    assert(host_chars@ + Seq::<char>::empty() == host_chars@);
    let host = string_from_chars(host_chars.as_slice());
    let mut address = string_from_chars(host_chars.as_slice());
    push_char(&mut address, ':');
    push_char(&mut address, '1');
    push_char(&mut address, '9');
    push_char(&mut address, '6');
    push_char(&mut address, '5');
    assert(address@ =~= host_chars@ + port_suffix());
    let mut line = string_from_chars(cs.as_slice());
    push_char(&mut line, '\r');
    push_char(&mut line, '\n');
    assert(line@ =~= url@ + seq!['\r', '\n']);
    Ok(GeminiRequest { host, address, line })
}

} // verus!
