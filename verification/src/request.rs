//! The request model: protocol methods, header mappings, and the parser that
//! turns one connection's raw text into a structured [`Request`].

use vstd::prelude::*;

use crate::text::find_char;
use crate::text::find_header_sep;
use crate::text::join_crlf;
use crate::text::lines_of;
use crate::text::strip_cr;
use crate::text::views_of;
use crate::text::find_char_in;
use crate::text::find_header_sep_in;
use crate::text::join_crlf_from;
use crate::text::split_lines;
use crate::text::str_eq;
use crate::text::strip_cr_str;

verus! {

/// The closed set of protocol methods the router understands.
///
/// A method is constructed from the exact uppercase token of the wire format;
/// any other token is rejected by [`Method::from_token`].  Equality is by
/// variant.
#[derive(Clone, Copy, Debug, PartialEq, Eq, Structural)]
pub enum Method {
    Get,
    Post,
    Put,
    Delete,
}

/// The canonical uppercase wire token of a method.
pub open spec fn method_token(m: Method) -> Seq<char> {
    match m {
        Method::Get => "GET"@,
        Method::Post => "POST"@,
        Method::Put => "PUT"@,
        Method::Delete => "DELETE"@,
    }
}

/// The method named by a wire token, if it is one of the supported tokens.
pub open spec fn method_of_token(s: Seq<char>) -> Option<Method> {
    if s == method_token(Method::Get) {
        Some(Method::Get)
    } else if s == method_token(Method::Post) {
        Some(Method::Post)
    } else if s == method_token(Method::Put) {
        Some(Method::Put)
    } else if s == method_token(Method::Delete) {
        Some(Method::Delete)
    } else {
        None
    }
}

impl Method {
    /// Serializes the method back to its canonical uppercase token.
    pub fn to_string(&self) -> (r: String)
        ensures
            r@ == method_token(*self),
    {
        match self {
            Method::Get => String::from_str("GET"),
            Method::Post => String::from_str("POST"),
            Method::Put => String::from_str("PUT"),
            Method::Delete => String::from_str("DELETE"),
        }
    }

    /// The method named by `tok`, or `None` for any token outside the
    /// supported set.  Unknown methods are thereby folded into the same
    /// rejection path as any other malformed request line.
    pub fn from_token(tok: &str) -> (r: Option<Method>)
        ensures
            r == method_of_token(tok@),
    {
        if str_eq(tok, "GET") {
            Some(Method::Get)
        } else if str_eq(tok, "POST") {
            Some(Method::Post)
        } else if str_eq(tok, "PUT") {
            Some(Method::Put)
        } else if str_eq(tok, "DELETE") {
            Some(Method::Delete)
        } else {
            None
        }
    }
}

/// The identifier string `"<METHOD> <path>"` that keys route matching.
pub open spec fn identifier_of(m: Method, path: Seq<char>) -> Seq<char> {
    method_token(m) + " "@ + path
}

/// The mapping described by an association list, later entries overriding
/// earlier ones with the same key.
pub open spec fn map_of(es: Seq<(String, String)>) -> Map<Seq<char>, Seq<char>>
    decreases es.len(),
{
    if es.len() == 0 {
        Map::empty()
    } else {
        map_of(es.drop_last()).insert(es.last().0@, es.last().1@)
    }
}

/// A name-to-value mapping with last-write-wins insertion, as used for a
/// request's headers.
#[derive(Debug, Clone)]
pub struct HeaderMap {
    entries: Vec<(String, String)>,
}

impl View for HeaderMap {
    type V = Map<Seq<char>, Seq<char>>;

    closed spec fn view(&self) -> Map<Seq<char>, Seq<char>> {
        map_of(self.entries@)
    }
}

proof fn lemma_map_of_get(es: Seq<(String, String)>, k: Seq<char>, i: int)
    requires
        0 <= i < es.len(),
        es[i].0@ == k,
        forall|j: int| i < j < es.len() ==> es[j].0@ != k,
    ensures
        map_of(es).contains_key(k),
        map_of(es)[k] == es[i].1@,
    decreases es.len(),
{
    if i == es.len() - 1 {
    } else {
        assert(es.drop_last()[i] == es[i]);
        assert(forall|j: int| i < j < es.drop_last().len() ==> es.drop_last()[j] == es[j]);
        lemma_map_of_get(es.drop_last(), k, i);
        assert(es.last().0@ != k);
    }
}

proof fn lemma_map_of_absent(es: Seq<(String, String)>, k: Seq<char>)
    requires
        forall|j: int| 0 <= j < es.len() ==> es[j].0@ != k,
    ensures
        !map_of(es).contains_key(k),
    decreases es.len(),
{
    if es.len() > 0 {
        assert(forall|j: int| 0 <= j < es.drop_last().len() ==> es.drop_last()[j] == es[j]);
        lemma_map_of_absent(es.drop_last(), k);
        assert(es.last().0@ != k);
    }
}

impl HeaderMap {
    /// An empty mapping.
    pub fn new() -> (r: HeaderMap)
        ensures
            r@ == Map::<Seq<char>, Seq<char>>::empty(),
    {
        HeaderMap { entries: Vec::new() }
    }

    /// Binds `key` to `value`, overriding any earlier binding of `key`.
    pub fn insert(&mut self, key: String, value: String)
        ensures
            final(self)@ == old(self)@.insert(key@, value@),
    {
        let ghost es = self.entries@;
        self.entries.push((key, value));
        proof {
            assert(self.entries@.drop_last() =~= es);
        }
    }

    /// The value bound to `key`, if any.
    pub fn get(&self, key: &str) -> (r: Option<String>)
        ensures
            match r {
                Some(v) => self@.contains_key(key@) && v@ == self@[key@],
                None => !self@.contains_key(key@),
            },
    {
        let n = self.entries.len();
        let mut i: usize = n;
        while i > 0
            invariant
                i <= n,
                n == self.entries@.len(),
                forall|j: int| i <= j < n ==> self.entries@[j].0@ != key@,
            decreases i,
    {
            i -= 1;
            if str_eq(self.entries[i].0.as_str(), key) {
                proof {
                    lemma_map_of_get(self.entries@, key@, i as int);
                }
                return Some(self.entries[i].1.clone());
            }
        }
        proof {
            lemma_map_of_absent(self.entries@, key@);
        }
        None
    }
}

/// The mathematical content of a parsed request.
pub struct ReqView {
    pub method: Method,
    pub path: Seq<char>,
    pub headers: Map<Seq<char>, Seq<char>>,
    pub parameters: Map<Seq<char>, Seq<char>>,
    pub body: Seq<char>,
}

/// Whether a line belongs to the header section, i.e. holds a `": "`
/// separator.
pub open spec fn is_header_line(l: Seq<char>) -> bool {
    find_header_sep(l) is Some
}

/// The header name of a header line: everything before its first `": "`.
pub open spec fn header_key(l: Seq<char>) -> Seq<char> {
    l.subrange(0, find_header_sep(l).unwrap())
}

/// The header value of a header line: everything after its first `": "`,
/// with carriage returns removed.
pub open spec fn header_val(l: Seq<char>) -> Seq<char> {
    strip_cr(l.subrange(find_header_sep(l).unwrap() + 2, l.len() as int))
}

/// How many lines at the front of `ls` belong to the header section.
pub open spec fn count_header_lines(ls: Seq<Seq<char>>) -> int
    decreases ls.len(),
{
    if ls.len() == 0 {
        0
    } else if is_header_line(ls[0]) {
        1 + count_header_lines(ls.drop_first())
    } else {
        0
    }
}

/// The mapping collected from the first `n` lines of `ls`, later lines
/// overriding earlier ones with the same name.
pub open spec fn headers_upto(ls: Seq<Seq<char>>, n: int) -> Map<Seq<char>, Seq<char>>
    decreases n,
{
    if n <= 0 {
        Map::empty()
    } else {
        headers_upto(ls, n - 1).insert(header_key(ls[n - 1]), header_val(ls[n - 1]))
    }
}

/// The header mapping of the lines after the request line.
pub open spec fn headers_of(tail: Seq<Seq<char>>) -> Map<Seq<char>, Seq<char>> {
    headers_upto(tail, count_header_lines(tail))
}

/// The body of the lines after the request line: every line after the first
/// non-header line, joined with `"\r\n"`.  The non-header line itself only
/// terminates the header section and is discarded.
pub open spec fn body_of(tail: Seq<Seq<char>>) -> Seq<char> {
    let h = count_header_lines(tail);
    if h >= tail.len() {
        Seq::empty()
    } else {
        join_crlf(tail.subrange(h + 1, tail.len() as int))
    }
}

/// What parsing one connection's raw text yields, if anything: the request
/// line must carry at least a method token and a path token, and the method
/// token must be a supported method.
pub open spec fn parse_request(s: Seq<char>) -> Option<ReqView> {
    if s.len() == 0 {
        None
    } else {
        let ls = lines_of(s);
        let first = ls[0];
        match find_char(first, ' ') {
            None => None,
            Some(i) => {
                let mtok = first.subrange(0, i);
                let rest = first.subrange(i + 1, first.len() as int);
                let ptok = match find_char(rest, ' ') {
                    None => rest,
                    Some(j) => rest.subrange(0, j),
                };
                match method_of_token(mtok) {
                    None => None,
                    Some(m) => Some(
                        ReqView {
                            method: m,
                            path: ptok,
                            headers: headers_of(ls.drop_first()),
                            parameters: Map::empty(),
                            body: body_of(ls.drop_first()),
                        },
                    ),
                }
            },
        }
    }
}

proof fn lemma_count_header_lines(ls: Seq<Seq<char>>, i: int)
    requires
        0 <= i <= ls.len(),
        forall|j: int| 0 <= j < i ==> is_header_line(ls[j]),
        i == ls.len() || !is_header_line(ls[i]),
    ensures
        count_header_lines(ls) == i,
    decreases ls.len(),
{
    if ls.len() == 0 {
    } else if i == 0 {
    } else {
        assert(is_header_line(ls[0]));
        assert(forall|j: int| 0 <= j < i - 1 ==> ls.drop_first()[j] == ls[j + 1]);
        assert(i - 1 == ls.drop_first().len() || !is_header_line(ls.drop_first()[i - 1]));
        lemma_count_header_lines(ls.drop_first(), i - 1);
    }
}

/// A structured, immutable request: method, path, headers and body, parsed
/// once per connection.  The `parameters` mapping is reserved for future
/// path-parameter extraction and stays empty.
#[derive(Debug, Clone)]
pub struct Request {
    method: Method,
    path: String,
    headers: HeaderMap,
    parameters: HeaderMap,
    body: String,
}

impl View for Request {
    type V = ReqView;

    closed spec fn view(&self) -> ReqView {
        ReqView {
            method: self.method,
            path: self.path@,
            headers: self.headers@,
            parameters: self.parameters@,
            body: self.body@,
        }
    }
}

impl Request {
    /// Parses one connection's raw text.  `None` means the text is not a
    /// request: empty input, a request line without a path token, or an
    /// unsupported method token.
    pub fn from_raw(data: String) -> (r: Option<Request>)
        ensures
            match r {
                Some(req) => parse_request(data@) == Some(req@),
                None => parse_request(data@) is None,
            },
    {
        let s = data.as_str();
        if s.unicode_len() == 0 {
            return None;
        }
        let lines = split_lines(s);
        let ghost ls = lines_of(data@);
        proof {
            assert(views_of(lines@) == ls);
            assert(lines@.len() == ls.len());
            assert(lines@[0]@ == ls[0]);
        }
        let first = lines[0].as_str();
        let n0 = first.unicode_len();
        let i = match find_char_in(first, 0, ' ') {
            None => {
                proof {
                    crate::text::lemma_find_char_absent(ls[0], ' ');
                }
                return None;
            },
            Some(i) => i,
        };
        proof {
            crate::text::lemma_find_char_unique(ls[0], ' ', i as int);
        }
        let mtok = first.substring_char(0, i);
        let method = match Method::from_token(mtok) {
            None => {
                return None;
            },
            Some(m) => m,
        };
        let rest = first.substring_char(i + 1, n0);
        let ghost rest_v = ls[0].subrange(i + 1, ls[0].len() as int);
        let path: String = match find_char_in(rest, 0, ' ') {
            None => {
                proof {
                    crate::text::lemma_find_char_absent(rest_v, ' ');
                }
                String::from_str(rest)
            },
            Some(j) => {
                proof {
                    crate::text::lemma_find_char_unique(rest_v, ' ', j as int);
                }
                String::from_str(rest.substring_char(0, j))
            },
        };
        let ghost tail = ls.drop_first();
        let mut headers = HeaderMap::new();
        let mut idx: usize = 1;
        proof {
            assert(forall|j: int| 0 <= j < tail.len() ==> tail[j] == ls[j + 1]);
        }
        loop
            invariant
                1 <= idx <= lines@.len(),
                views_of(lines@) == ls,
                tail == ls.drop_first(),
                lines@.len() == ls.len(),
                forall|j: int| 0 <= j < idx - 1 ==> is_header_line(tail[j]),
                headers@ == headers_upto(tail, idx - 1),
            ensures
                1 <= idx <= lines@.len(),
                forall|j: int| 0 <= j < idx - 1 ==> is_header_line(tail[j]),
                headers@ == headers_upto(tail, idx - 1),
                idx == lines@.len() || !is_header_line(tail[idx - 1]),
            decreases lines@.len() - idx,
        {
            if idx >= lines.len() {
                break;
            }
            let line = lines[idx].as_str();
            proof {
                assert(line@ == tail[idx - 1]);
            }
            match find_header_sep_in(line) {
                None => {
                    break;
                },
                Some(p) => {
                    proof {
                        crate::text::lemma_find_header_sep(line@);
                        assert(crate::text::sep_at(line@, p as int));
                    }
                    let np = line.unicode_len();
                    let key = String::from_str(line.substring_char(0, p));
                    let value = strip_cr_str(line.substring_char(p + 2, np));
                    proof {
                        assert(key@ == header_key(tail[idx - 1]));
                        assert(value@ == header_val(tail[idx - 1]));
                    }
                    headers.insert(key, value);
                    idx += 1;
                },
            }
        }
        proof {
            lemma_count_header_lines(tail, idx - 1);
        }
        let start = if idx < lines.len() {
            idx + 1
        } else {
            idx
        };
        let body = join_crlf_from(&lines, start);
        proof {
            let h = count_header_lines(tail);
            if idx < lines@.len() {
                assert(views_of(lines@).subrange(start as int, lines@.len() as int)
                    =~= tail.subrange(h + 1, tail.len() as int));
            } else {
                assert(views_of(lines@).subrange(start as int, lines@.len() as int) =~= Seq::<
                    Seq<char>,
                >::empty());
                assert(body@ =~= Seq::<char>::empty());
            }
        }
        let parameters = HeaderMap::new();
        let req = Request { method, path, headers, parameters, body };
        proof {
            assert(req@ == parse_request(data@).unwrap());
        }
        Some(req)
    }

    /// The identifier `"<METHOD> <path>"` this request asks for.
    pub fn identifier(&self) -> (r: String)
        ensures
            r@ == identifier_of(self@.method, self@.path),
    {
        self.method.to_string().concat(" ").concat(self.path.as_str())
    }

    /// The request's method.
    pub fn method(&self) -> (r: &Method)
        ensures
            *r == self@.method,
    {
        &self.method
    }

    /// The request's path, exactly as it stood on the request line.
    pub fn path(&self) -> (r: &String)
        ensures
            r@ == self@.path,
    {
        &self.path
    }

    /// The request's header mapping.
    pub fn headers(&self) -> (r: &HeaderMap)
        ensures
            r@ == self@.headers,
    {
        &self.headers
    }

    /// The request's body.
    pub fn body(&self) -> (r: &String)
        ensures
            r@ == self@.body,
    {
        &self.body
    }
}

/// Parsing of empty input always yields no request.
pub proof fn lemma_empty_input_rejected(s: Seq<char>)
    requires
        s.len() == 0,
    ensures
        parse_request(s) is None,
{
}

/// Whatever parses parses to the tokens of its own request line: the
/// request's identifier is exactly the method token and the path token of
/// the first line, joined by one space.
pub proof fn lemma_parsed_identifier(s: Seq<char>)
    requires
        parse_request(s) is Some,
    ensures
        ({
            let rv = parse_request(s).unwrap();
            let first = lines_of(s)[0];
            let i = find_char(first, ' ').unwrap();
            let mtok = first.subrange(0, i);
            let rest = first.subrange(i + 1, first.len() as int);
            let ptok = match find_char(rest, ' ') {
                None => rest,
                Some(j) => rest.subrange(0, j),
            };
            method_token(rv.method) == mtok && rv.path == ptok && identifier_of(
                rv.method,
                rv.path,
            ) == mtok + " "@ + ptok
        }),
{
}

} // verus!
