//! The active check of a server: what is asked, and what counts as alive.

use vstd::prelude::*;
use vstd::utf8::encode_utf8;

verus! {

/// The error that the `http` crate gives for a request it cannot build.
#[verifier::external_type_specification]
#[verifier::external_body]
pub struct ExHttpError(http::Error);

/// A request with one header, in plain values.
#[derive(Debug)]
pub struct HttpRequest {
    pub method: String,
    pub uri: String,
    pub header_name: String,
    pub header_value: Vec<u8>,
    pub body: Vec<u8>,
}

/// A request could not be built: the target is no URI, or a header is not
/// valid.
#[derive(Debug, PartialEq, Eq, Structural)]
pub struct InvalidRequest;

/// Whether a byte can stand in a header's value.
pub open spec fn header_byte(byte: u8) -> bool {
    byte >= 32 && byte != 127 || byte == 9
}

/// An ASCII letter in lower case. Other characters are left as they are.
pub open spec fn lower(c: char) -> char {
    if 'A' <= c <= 'Z' {
        (c as u8 + 32) as char
    } else {
        c
    }
}

/// The method, URI, header name and header value that a request built from
/// these texts has. There is nothing where the request cannot be built.
pub uninterp spec fn built_request(
    method: Seq<char>,
    uri: Seq<char>,
    name: Seq<char>,
    value: Seq<char>,
) -> Option<(Seq<char>, Seq<char>, Seq<char>, Seq<u8>)>;

/// `http::Request::builder`, given a method, a URI, one header and a body. The
/// result is a function of the four texts. The method stays as it was given,
/// the header's name is turned to lower case, and the header's value is the
/// UTF-8 of its text, all of whose bytes must be valid. Which texts are URIs,
/// and how a URI reads once parsed, is not said here.
#[verifier::external_body]
fn build_request(method: &str, uri: &String, name: &str, value: &String, body: Vec<u8>) -> (r:
    Result<HttpRequest, http::Error>)
    ensures
        r matches Ok(request) ==> {
            &&& built_request(method@, uri@, name@, value@) == Some(
                (request.method@, request.uri@, request.header_name@, request.header_value@),
            )
            &&& request.method@ == method@
            &&& request.header_name@ == name@.map_values(|c: char| lower(c))
            &&& request.header_value@ == encode_utf8(value@)
            &&& forall|i: int|
                0 <= i < request.header_value@.len() ==> header_byte(
                    #[trigger] request.header_value@[i],
                )
            &&& request.body@ == body@
        },
        r is Err ==> built_request(method@, uri@, name@, value@) is None,
{
    let builder = http::Request::builder().method(method).uri(uri).header(name, value);
    let (parts, body) = builder.body(body)?.into_parts();
    let (header_name, header_value) = parts.headers.iter().next().unwrap();
    Ok(
        HttpRequest {
            method: parts.method.to_string(),
            uri: parts.uri.to_string(),
            header_name: header_name.to_string(),
            header_value: header_value.as_bytes().to_vec(),
            body,
        },
    )
}

/// The request that checks a server: a `GET` of the path, with the server for
/// its host and without a body.
pub fn health_check_request(ip: &String, path: &String) -> (r: Result<HttpRequest, InvalidRequest>)
    ensures
        r is Ok <==> built_request("GET"@, path@, "Host"@, ip@) is Some,
        r matches Ok(request) ==> {
            &&& request.method@ == "GET"@
            &&& request.uri@ == (built_request("GET"@, path@, "Host"@, ip@)->0).1
            &&& request.header_name@ == "host"@
            &&& request.header_value@ == encode_utf8(ip@)
            &&& request.body@.len() == 0
        },
{
    match build_request("GET", path, "Host", ip, Vec::new()) {
        Ok(request) => {
            proof {
                reveal_strlit("Host");
                reveal_strlit("host");
                assert("Host"@.map_values(|c: char| lower(c)) =~= "host"@);
            }
            Ok(request)
        },
        Err(_) => Err(InvalidRequest),
    }
}

/// How the check of a server went.
#[derive(Clone, Copy, Debug)]
pub enum CheckOutcome {
    /// It could not be reached.
    Unreachable,
    /// The request could not be sent.
    NotSent,
    /// No response could be read.
    NoResponse,
    /// It answered with this status.
    Answered(u16),
}

/// Whether a server is active: it has answered that all is well.
pub fn is_active(outcome: CheckOutcome) -> (r: bool)
    ensures
        r <==> outcome == CheckOutcome::Answered(200),
{
    match outcome {
        CheckOutcome::Answered(status) => status == 200,
        _ => false,
    }
}

/// Letters are turned to lower case one by one, and nothing else is changed.
pub proof fn lemma_lower(c: char, i: int)
    ensures
        0 <= i < 26 ==> lower("ABCDEFGHIJKLMNOPQRSTUVWXYZ"@[i])
            == "abcdefghijklmnopqrstuvwxyz"@[i],
        !"ABCDEFGHIJKLMNOPQRSTUVWXYZ"@.contains(c) ==> lower(c) == c,
{
    reveal_strlit("ABCDEFGHIJKLMNOPQRSTUVWXYZ");
    reveal_strlit("abcdefghijklmnopqrstuvwxyz");
    if 'A' <= c <= 'Z' {
        assert("ABCDEFGHIJKLMNOPQRSTUVWXYZ"@[c as u32 - 'A' as u32] == c);
    }
}

/// A server is alive exactly if it has answered, with the status that says
/// that all is well.
pub proof fn lemma_is_active(outcome: CheckOutcome, status: u16, r: bool)
    requires
        call_ensures(is_active, (outcome,), r),
    ensures
        r ==> outcome is Answered,
        outcome == CheckOutcome::Answered(status) ==> (r <==> status == 200),
{
}

/// What a check asks a server for, whatever its address and the path are.
pub proof fn lemma_health_check_request(
    ip: String,
    path: String,
    r: Result<HttpRequest, InvalidRequest>,
)
    requires
        call_ensures(health_check_request, (&ip, &path), r),
    ensures
        r matches Ok(request) ==> {
            &&& request.method@ == "GET"@
            &&& request.header_name@ == "host"@
            &&& request.header_value@ == encode_utf8(ip@)
            &&& request.body@.len() == 0
        },
{
}

} // verus!
