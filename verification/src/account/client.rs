//! The request for an account's resources, the rows that answer it, and the
//! forms in which a row may give its time.

use vstd::prelude::*;

use crate::text;

verus! {

/// One resource row of an account.
#[derive(Debug, Clone, PartialEq, Eq)]
pub struct RawResource {
    pub name: Option<String>,
    pub client_identifier: Option<String>,
    pub product: Option<String>,
    pub owned: bool,
    pub presence: bool,
    /// Announce time, epoch seconds.
    pub last_seen_at: Option<i64>,
}

/// A request: its method, where it goes and the headers that it carries. One
/// of them holds the account token, so a request cannot be printed.
#[derive(Clone, PartialEq, Eq)]
pub struct HttpRequest {
    pub method: String,
    pub url: String,
    pub headers: Vec<(String, String)>,
}

/// What a [`HttpRequest`] says.
#[verifier::ext_equal]
pub struct Request {
    pub method: Seq<char>,
    pub url: Seq<char>,
    pub headers: Seq<(Seq<char>, Seq<char>)>,
}

impl View for HttpRequest {
    type V = Request;

    open spec fn view(&self) -> Request {
        Request {
            method: self.method@,
            url: self.url@,
            headers: self.headers@.map_values(|h: (String, String)| (h.0@, h.1@)),
        }
    }
}

/// Where the account's resources are found, and with which token.
#[derive(Clone)]
pub struct PlexTvClient {
    token: String,
    base_url: String,
}

/// `base` without the slashes at its end, followed by `path`.
pub open spec fn joined_url(base: Seq<char>, path: Seq<char>) -> Seq<char> {
    text::trim_end_by(base, |c: char| c == '/') + path
}

/// A `GET` request with the account token, a stable client identifier, and JSON
/// as the form of the answer.
pub open spec fn authed_request(
    token: Seq<char>,
    base: Seq<char>,
    path: Seq<char>,
) -> Request {
    Request {
        method: "GET"@,
        url: joined_url(base, path),
        headers: seq![
            ("x-plex-token"@, token),
            ("x-plex-client-identifier"@, "orca-plex-plugin"@),
            ("accept"@, "application/json"@),
        ],
    }
}

impl PlexTvClient {
    /// The account token.
    pub closed spec fn token_view(&self) -> Seq<char> {
        self.token@
    }

    /// The server that is asked.
    pub closed spec fn base_view(&self) -> Seq<char> {
        self.base_url@
    }

    pub fn new(token: String) -> (r: PlexTvClient)
        ensures
            r.token_view() == token@,
            r.base_view() == "https://plex.tv"@,
    {
        PlexTvClient { token, base_url: "https://plex.tv".to_owned() }
    }

    /// A client for another server than plex.tv.
    pub fn with_base(token: String, base_url: String) -> (r: PlexTvClient)
        ensures
            r.token_view() == token@,
            r.base_view() == base_url@,
    {
        PlexTvClient { token, base_url }
    }

    /// The request that enumerates the account's resources. Sending it is also
    /// what refreshes the presence of its servers.
    pub fn resources(&self) -> (r: HttpRequest)
        ensures
            r@ == authed_request(
                self.token_view(),
                self.base_view(),
                "/api/v2/resources?includeHttps=1"@,
            ),
    {
        self.authed_get("/api/v2/resources?includeHttps=1")
    }

    /// The request for a path, with the account's credentials.
    pub fn authed_get(&self, path: &str) -> (r: HttpRequest)
        ensures
            r@ == authed_request(self.token_view(), self.base_view(), path@),
    {
        let url = self.url(path);
        let mut headers: Vec<(String, String)> = Vec::new();
        headers.push(("x-plex-token".to_owned(), self.token.clone()));
        headers.push(("x-plex-client-identifier".to_owned(), "orca-plex-plugin".to_owned()));
        headers.push(("accept".to_owned(), "application/json".to_owned()));
        let r = HttpRequest { method: "GET".to_owned(), url, headers };
        assert(r@ == authed_request(self.token_view(), self.base_view(), path@));
        r
    }

    /// The address of a path.
    pub fn url(&self, path: &str) -> (r: String)
        ensures
            r@ == joined_url(self.base_view(), path@),
    {
        let mut r = text::trim_end_char(self.base_url.as_str(), '/').to_owned();
        r.append(path);
        r
    }
}

/// Slashes at the end of the base address make no difference, however many
/// there are.
pub proof fn law_trailing_slashes_are_ignored(base: Seq<char>, n: nat, path: Seq<char>)
    ensures
        joined_url(base + Seq::new(n, |i: int| '/'), path) == joined_url(base, path),
    decreases n,
{
    let all = base + Seq::new(n, |i: int| '/');
    if n == 0 {
        assert(all == base);
    } else {
        law_trailing_slashes_are_ignored(base, (n - 1) as nat, path);
        assert(all.drop_last() == base + Seq::new((n - 1) as nat, |i: int| '/'));
        assert(all.last() == '/');
    }
}

/// An address is the base without the slashes at its end, followed by the path:
/// nothing else of the base is lost, and nothing of the path.
pub proof fn law_address(base: Seq<char>, n: nat, path: Seq<char>)
    requires
        base.len() > 0 ==> base.last() != '/',
    ensures
        joined_url(base + Seq::new(n, |i: int| '/'), path) == base + path,
{
    law_trailing_slashes_are_ignored(base, n, path);
}

/// Every request asks with `GET` and carries the token as it is, the name of
/// this client, and JSON as the form of the answer, and no other header.
pub proof fn law_request_is_authed(token: Seq<char>, base: Seq<char>, path: Seq<char>)
    ensures
        ({
            let r = authed_request(token, base, path);
            &&& r.method == "GET"@
            &&& r.headers.len() == 3
            &&& r.headers[0] == ("x-plex-token"@, token)
            &&& r.headers[1] == ("x-plex-client-identifier"@, "orca-plex-plugin"@)
            &&& r.headers[2] == ("accept"@, "application/json"@)
            &&& (base.len() > 0 ==> base.last() != '/') ==> r.url == base + path
        }),
{
    if base.len() > 0 ==> base.last() != '/' {
        law_address(base, 0, path);
        assert(base + Seq::new(0, |i: int| '/') == base);
    }
}

/// What a request shows of itself is its own method, address and headers.
pub proof fn law_request_view(r: HttpRequest)
    ensures
        r@.method == r.method@,
        r@.url == r.url@,
        r@.headers.len() == r.headers@.len(),
        forall|i: int|
            0 <= i < r.headers@.len() ==> (#[trigger] r@.headers[i]).0 == r.headers@[i].0@
                && r@.headers[i].1 == r.headers@[i].1@,
{
}

/// A number as JSON gives it: as an integer of 64 bits where it is one, and as
/// a float cut down to such an integer.
#[derive(Debug, Clone, Copy, PartialEq, Eq)]
pub struct JsonNumber {
    pub integer: Option<i64>,
    pub truncated: Option<i64>,
}

/// A JSON value, as far as a time can be read from it.
#[derive(Debug, Clone, PartialEq, Eq)]
pub enum JsonValue {
    Number(JsonNumber),
    String(String),
    /// Null, a boolean, an array or an object.
    Other,
}

/// The epoch seconds that a value stands for: an integer, else a float cut
/// down; a decimal string, else what its text means as an RFC 3339 time.
pub open spec fn epoch(v: JsonValue, rfc3339: Option<i64>) -> Option<i64> {
    match v {
        JsonValue::Number(n) => match n.integer {
            Some(i) => Some(i),
            None => n.truncated,
        },
        JsonValue::String(s) => match text::integer_of(s@) {
            Some(i) => Some(i),
            None => rfc3339,
        },
        JsonValue::Other => None,
    }
}

/// Whether a value has to be read as an RFC 3339 time: it is a string, and not
/// a decimal one.
pub fn needs_rfc3339(v: &JsonValue) -> (r: bool)
    ensures
        r == (v matches JsonValue::String(s) && text::integer_of(s@) is None),
{
    match v {
        JsonValue::String(s) => text::parse_integer(s.as_str()).is_none(),
        _ => false,
    }
}

/// Normalizes a time to epoch seconds. plex.tv has given it as an integer, as a
/// decimal string and as an RFC 3339 time; `rfc3339` is what a string means as
/// the last of these, where it means anything.
pub fn epoch_from_value(v: JsonValue, rfc3339: Option<i64>) -> (r: Option<i64>)
    ensures
        r == epoch(v, rfc3339),
{
    match v {
        JsonValue::Number(n) => match n.integer {
            Some(i) => Some(i),
            None => n.truncated,
        },
        JsonValue::String(s) => match text::parse_integer(s.as_str()) {
            Some(i) => Some(i),
            None => rfc3339,
        },
        JsonValue::Other => None,
    }
}

/// Which form decides: an integer wins over the float that was cut down, decimal
/// text over a date, and what is neither number nor text stands for no time.
pub proof fn law_epoch_forms(
    integer: Option<i64>,
    truncated: Option<i64>,
    s: String,
    rfc3339: Option<i64>,
)
    ensures
        integer is Some ==> epoch(
            JsonValue::Number(JsonNumber { integer, truncated }),
            rfc3339,
        ) == integer,
        integer is None ==> epoch(
            JsonValue::Number(JsonNumber { integer, truncated }),
            rfc3339,
        ) == truncated,
        text::integer_of(s@) is Some ==> epoch(JsonValue::String(s), rfc3339) == text::integer_of(
            s@,
        ),
        text::integer_of(s@) is None ==> epoch(JsonValue::String(s), rfc3339) == rfc3339,
        epoch(JsonValue::Other, rfc3339) is None,
{
}

/// An integer and its decimal text stand for the same time.
pub proof fn law_epoch_forms_agree(n: i64, s: String, truncated: Option<i64>, rfc3339: Option<i64>)
    requires
        s@ == text::signed_decimal(n as int),
    ensures
        epoch(JsonValue::String(s), rfc3339) == Some(n),
        epoch(JsonValue::Number(JsonNumber { integer: Some(n), truncated }), rfc3339) == Some(n),
{
    text::law_decimal_round_trip(n);
}

} // verus!
