//! The HTTP side of the MCP server: what is read of a request, who is let
//! in, and what an answer looks like on the wire.
use crate::lists;
use crate::numeric;
use crate::numeric::{decimal_u64, parse_i64};
use crate::text;
use crate::text::{
    chars_of, find, lines, split_whitespace, str_eq, substring, to_ascii_lowercase, trim,
};
use vstd::prelude::*;
use vstd::string::*;
use vstd::utf8::*;

verus! {

/// What the server reads of a request's head.
#[derive(Debug, Clone, PartialEq, Eq)]
pub struct RequestHead {
    pub method: String,
    pub path: String,
    pub authorization: Option<String>,
    pub content_length: Option<i64>,
}

/// Whether a line is a header of a name (in lower case), and its value.
pub open spec fn header_value(line: Seq<char>, name: Seq<char>) -> Option<Seq<char>> {
    match text::found(line, seq![':']) {
        Some(i) => if text::trimmed(text::lowered(line.take(i))) == name {
            Some(text::trimmed(line.skip(i + 1)))
        } else {
            None
        },
        None => None,
    }
}

/// The condition that a line is a header of a name.
pub open spec fn is_header(name: Seq<char>) -> spec_fn(Seq<char>) -> bool {
    |line: Seq<char>| header_value(line, name) is Some
}

/// The value of the first header of a name.
pub open spec fn header(lines: Seq<Seq<char>>, name: Seq<char>) -> Option<Seq<char>> {
    match lists::first_index(lines, is_header(name)) {
        Some(i) => header_value(lines[i], name),
        None => None,
    }
}

fn value_of_header(line: &str, name: &str) -> (r: Option<String>)
    ensures
        text::opt_view(r) == header_value(line@, name@),
{
    let chars = chars_of(line);
    let colon: [char; 1] = [':'];
    proof {
        assert(colon@ =~= seq![':']);
    }
    match find(&chars, &colon) {
        Some(i) => {
            let key = substring(&chars, 0, i);
            let value = substring(&chars, i + 1, chars.len());
            proof {
                assert(line@.subrange(0, i as int) =~= line@.take(i as int));
                assert(line@.subrange(i + 1, line@.len() as int) =~= line@.skip(i + 1));
            }
            if str_eq(trim(to_ascii_lowercase(key.as_str()).as_str()).as_str(), name) {
                Some(trim(value.as_str()))
            } else {
                None
            }
        },
        None => None,
    }
}

fn find_header(lines: &Vec<String>, name: &str) -> (r: Option<String>)
    ensures
        text::opt_view(r) == header(text::views(lines@), name@),
{
    let ghost all = text::views(lines@);
    let ghost p = is_header(name@);
    let mut i: usize = 0;
    while i < lines.len()
        invariant
            i <= lines@.len(),
            all == text::views(lines@),
            p == is_header(name@),
            forall|j: int| 0 <= j < i ==> !p(#[trigger] all[j]),
        decreases lines@.len() - i,
    {
        assert(all[i as int] == lines@[i as int]@);
        match value_of_header(lines[i].as_str(), name) {
            Some(v) => {
                proof {
                    lists::lemma_is_first_index(all, p, i as int);
                }
                return Some(v);
            },
            None => {},
        }
        i = i + 1;
    }
    proof {
        lists::lemma_no_first_index(all, p);
    }
    None
}

/// Reads the head of a request; none when its first line names no method and
/// path.
pub fn parse_head(head: &str) -> (r: Option<RequestHead>)
    ensures
        ({
            let all = text::lines_of(head@);
            let first = text::words(all[0]);
            &&& r is Some <==> all.len() > 0 && first.len() >= 2
            &&& r matches Some(h) ==> {
                &&& h.method@ == first[0]
                &&& h.path@ == first[1]
                &&& text::opt_view(h.authorization) == header(all.drop_first(), "authorization"@)
                &&& h.content_length == match header(all.drop_first(), "content-length"@) {
                    Some(v) => numeric::parsed_i64(v),
                    None => None,
                }
            }
        }),
{
    let mut all = lines(head);
    let ghost shown = text::views(all@);
    if all.len() == 0 {
        return None;
    }
    proof {
        assert(shown[0] == all@[0]@);
    }
    let first = split_whitespace(all[0].as_str());
    proof {
        assert(text::views(first@).len() == first@.len());
    }
    if first.len() < 2 {
        return None;
    }
    all.remove(0);
    proof {
        assert(text::views(all@) =~= shown.drop_first());
        assert(text::views(first@)[0] == first@[0]@);
        assert(text::views(first@)[1] == first@[1]@);
    }
    let content_length = match find_header(&all, "content-length") {
        Some(v) => parse_i64(v.as_str()),
        None => None,
    };
    Some(
        RequestHead {
            method: first[0].clone(),
            path: first[1].clone(),
            authorization: find_header(&all, "authorization"),
            content_length,
        },
    )
}

/// The path that the server answers on.
pub const ENDPOINT: &'static str = "/mcp";

/// The status under which a request is turned away, if it is: without the
/// bearer token nothing else is looked at.
pub open spec fn refusal(
    token: Seq<char>,
    authorization: Option<Seq<char>>,
    path: Seq<char>,
    method: Seq<char>,
) -> Option<u16> {
    if authorization != Some("Bearer "@ + token) {
        Some(401)
    } else if path != ENDPOINT@ {
        Some(404)
    } else if method != "POST"@ {
        Some(405)
    } else {
        None
    }
}

/// The status under which a request is turned away, if it is.
pub fn refuse(head: &RequestHead, token: &str) -> (r: Option<u16>)
    ensures
        r == refusal(token@, text::opt_view(head.authorization), head.path@, head.method@),
{
    let mut expected = "Bearer ".to_owned();
    expected.append(token);
    let known = match &head.authorization {
        Some(a) => str_eq(a.as_str(), expected.as_str()),
        None => false,
    };
    if !known {
        return Some(401);
    }
    if !str_eq(head.path.as_str(), ENDPOINT) {
        return Some(404);
    }
    if !str_eq(head.method.as_str(), "POST") {
        return Some(405);
    }
    None
}

/// What a status means.
pub open spec fn reason(status: u16) -> Seq<char> {
    if status == 200 {
        "OK"@
    } else if status == 202 {
        "Accepted"@
    } else if status == 400 {
        "Bad Request"@
    } else if status == 401 {
        "Unauthorized"@
    } else if status == 404 {
        "Not Found"@
    } else if status == 405 {
        "Method Not Allowed"@
    } else {
        "Error"@
    }
}

fn reason_text(status: u16) -> (r: &'static str)
    ensures
        r@ == reason(status),
{
    if status == 200 {
        "OK"
    } else if status == 202 {
        "Accepted"
    } else if status == 400 {
        "Bad Request"
    } else if status == 401 {
        "Unauthorized"
    } else if status == 404 {
        "Not Found"
    } else if status == 405 {
        "Method Not Allowed"
    } else {
        "Error"
    }
}

/// An answer on the wire.
pub open spec fn response_of(status: u16, body: Seq<char>) -> Seq<char> {
    "HTTP/1.1 "@ + numeric::decimal(status as nat) + " "@ + reason(status)
        + "\r\nContent-Type: application/json\r\nContent-Length: "@ + numeric::decimal(
        encode_utf8(body).len(),
    ) + "\r\nConnection: close\r\n\r\n"@ + body
}

/// An answer on the wire: its status, how many bytes follow, and the body.
pub fn response(status: u16, body: &str) -> (r: String)
    ensures
        r@ == response_of(status, body@),
{
    let mut s = "HTTP/1.1 ".to_owned();
    s.append(decimal_u64(status as u64).as_str());
    s.append(" ");
    s.append(reason_text(status));
    s.append("\r\nContent-Type: application/json\r\nContent-Length: ");
    let size: usize = body.as_bytes().len();
    s.append(decimal_u64(size as u64).as_str());
    s.append("\r\nConnection: close\r\n\r\n");
    s.append(body);
    s
}

/// The status of an answer: a message that is no JSON is a bad request, one
/// that gets no answer is accepted, any other succeeds.
pub fn status_of(parsed: bool, answered: bool) -> (r: u16)
    ensures
        !parsed ==> r == 400,
        parsed && !answered ==> r == 202,
        parsed && answered ==> r == 200,
{
    if !parsed {
        400
    } else if !answered {
        202
    } else {
        200
    }
}

/// Without the bearer token a request is turned away the same, whatever else
/// it holds.
pub proof fn law_no_token_no_answer(
    token: Seq<char>,
    authorization: Option<Seq<char>>,
    path: Seq<char>,
    method: Seq<char>,
)
    ensures
        authorization != Some("Bearer "@ + token) <==> refusal(token, authorization, path, method)
            == Some(401u16),
{
}

/// Which requests are answered: those that carry the token, to `/mcp`, by `POST`.
/// Without the token nothing else is told; with it another path is not found, and
/// another method is not allowed.
pub proof fn law_which_requests_are_answered(
    token: Seq<char>,
    authorization: Option<Seq<char>>,
    path: Seq<char>,
    method: Seq<char>,
)
    ensures
        ({
            let r = refusal(token, authorization, path, method);
            let known = authorization == Some("Bearer "@ + token);
            &&& r is None <==> known && path == "/mcp"@ && method == "POST"@
            &&& r == Some(401u16) <==> !known
            &&& r == Some(404u16) <==> known && path != "/mcp"@
            &&& r == Some(405u16) <==> known && path == "/mcp"@ && method != "POST"@
        }),
{
}

/// How a header is read: its name goes up to the first colon, spaces around it and
/// the case of its letters aside; its value is the rest, without the spaces around
/// it.
pub proof fn law_how_a_header_is_read(before: Seq<char>, after: Seq<char>, name: Seq<char>)
    requires
        !before.contains(':'),
    ensures
        ({
            let read = header_value(before + seq![':'] + after, name);
            &&& read is Some <==> text::trimmed(text::lowered(before)) == name
            &&& read is Some ==> read->0 == text::trimmed(after)
        }),
{
    let line = before + seq![':'] + after;
    text::lemma_found_char(before, ':', after);
    assert(line.take(before.len() as int) =~= before);
    assert(line.skip(before.len() as int + 1) =~= after);
}

/// The value of a header is that of the first line with its name.
pub proof fn law_the_first_header_counts(lines: Seq<Seq<char>>, name: Seq<char>, i: int)
    requires
        0 <= i < lines.len(),
        header_value(lines[i], name) is Some,
        forall|j: int| 0 <= j < i ==> header_value(#[trigger] lines[j], name) is None,
    ensures
        header(lines, name) == header_value(lines[i], name),
{
    lists::lemma_is_first_index(lines, is_header(name), i);
}

/// An answer ends with its body, and says how many bytes that has.
pub proof fn law_what_an_answer_holds(status: u16, body: Seq<char>)
    ensures
        ({
            let r = response_of(status, body);
            let head = "HTTP/1.1 "@ + numeric::decimal(status as nat) + " "@ + reason(status)
                + "\r\nContent-Type: application/json\r\nContent-Length: "@ + numeric::decimal(
                encode_utf8(body).len(),
            ) + "\r\nConnection: close\r\n\r\n"@;
            &&& r.take(head.len() as int) == head
            &&& r.skip(head.len() as int) == body
        }),
{
    let head = "HTTP/1.1 "@ + numeric::decimal(status as nat) + " "@ + reason(status)
        + "\r\nContent-Type: application/json\r\nContent-Length: "@ + numeric::decimal(
        encode_utf8(body).len(),
    ) + "\r\nConnection: close\r\n\r\n"@;
    assert(response_of(status, body).take(head.len() as int) =~= head);
    assert(response_of(status, body).skip(head.len() as int) =~= body);
}

} // verus!
