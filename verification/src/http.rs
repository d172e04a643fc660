//! Reading an HTTP/1.1 message: the start line, the header lines and the
//! body, as a small state machine over `HTTPReadState`.
use vstd::prelude::*;
use vstd::utf8::{decode_utf8, encode_utf8, is_ascii_chars, is_char_boundary};

use crate::error::CuziError;
use crate::headers::{first_match, has_match, header_lookup, insert_field, HeaderMap};
use crate::text::{
    char_is_whitespace, find_char, find_char_in, is_whitespace, join, join_from,
    lemma_split_nonempty, parse_usize, parse_usize_str, split_char, split_on, str_eq, trim,
    trim_str,
};

verus! {

/// Which part of a message the reader expects next.
#[derive(PartialEq, Eq, Debug, Structural)]
pub enum HTTPReadState {
    Info,
    Headers,
    Body,
}

/// The only protocol version the reader accepts.
pub open spec fn http_1_1() -> Seq<char> {
    seq!['H', 'T', 'T', 'P', '/', '1', '.', '1']
}

/// Carriage return and line feed.
pub open spec fn crlf() -> Seq<char> {
    seq!['\r', '\n']
}

/// Why a start line was refused.
pub enum LineFault {
    /// Not the number of space-separated elements a start line has.
    Malformed,
    /// The version element, trimmed, is not `HTTP/1.1`.
    Version(Seq<char>),
}

/// A status line `version code status...`: at least three elements
/// separated by single spaces, the version `HTTP/1.1` up to surrounding
/// whitespace. Yields the trimmed code and the trimmed rest of the line.
pub open spec fn parse_response_line(line: Seq<char>) -> Result<(Seq<char>, Seq<char>), LineFault> {
    let items = split_on(line, ' ');
    if items.len() < 3 {
        Err(LineFault::Malformed)
    } else if trim(items[0]) != http_1_1() {
        Err(LineFault::Version(trim(items[0])))
    } else {
        Ok((trim(items[1]), trim(join(items.subrange(2, items.len() as int), seq![' ']))))
    }
}

/// A request line `method uri version`: exactly three elements separated by
/// single spaces, the version `HTTP/1.1` up to surrounding whitespace. Yields
/// the trimmed method and URI.
pub open spec fn parse_request_line(line: Seq<char>) -> Result<(Seq<char>, Seq<char>), LineFault> {
    let items = split_on(line, ' ');
    if items.len() != 3 {
        Err(LineFault::Malformed)
    } else if trim(items[2]) != http_1_1() {
        Err(LineFault::Version(trim(items[2])))
    } else {
        Ok((trim(items[0]), trim(items[1])))
    }
}

/// `e` is the error reported for start line `line` refused for `f`.
pub open spec fn line_error(e: CuziError, f: LineFault, line: Seq<char>, response: bool) -> bool {
    match f {
        LineFault::Malformed => if response {
            e matches CuziError::MalformedResponse(l) && l@ == line
        } else {
            e matches CuziError::MalformedRequest(l) && l@ == line
        },
        LineFault::Version(v) => e matches CuziError::UnsupportedVersion(x) && x@ == v,
    }
}

/// A line that the reader takes for a status line rather than a request
/// line.
pub open spec fn looks_like_response(line: Seq<char>) -> bool {
    line.len() >= 4 && line.take(4) == seq!['H', 'T', 'T', 'P']
}

/// A character skipped between a header name and its value.
pub open spec fn is_separator(c: char) -> bool {
    c == ':' || is_whitespace(c)
}

/// The number of separators at the start of `s`.
pub open spec fn leading_separators(s: Seq<char>) -> nat
    decreases s.len(),
{
    if s.len() > 0 && is_separator(s[0]) {
        1 + leading_separators(s.drop_first())
    } else {
        0
    }
}

/// The value kept from `rest`, the part of a header line from its first `:`
/// on. Let `k` count the leading separators (characters) and `b` be the
/// UTF-8 bytes of `rest`. When `k` equals the byte length, `rest` is kept
/// whole; otherwise the bytes from `k` up to the last two bytes (the line
/// end) are kept.
pub open spec fn header_value(rest: Seq<char>) -> Seq<char> {
    let b = encode_utf8(rest);
    let k = leading_separators(rest);
    if k == b.len() {
        rest
    } else {
        decode_utf8(b.subrange(k as int, b.len() - 2))
    }
}

/// The byte range that `header_value` keeps exists: it is ordered and both
/// ends fall on character boundaries.
pub open spec fn header_value_in_range(rest: Seq<char>) -> bool {
    let b = encode_utf8(rest);
    let k = leading_separators(rest);
    k == b.len() || (k + 2 <= b.len() && is_char_boundary(b, k as int) && is_char_boundary(
        b,
        b.len() - 2,
    ))
}

/// What a header line holds.
pub enum HeaderLine {
    /// The end of the header section: an empty line (the peer closed) or a
    /// bare line end.
    End,
    /// A field: the text before the first `:` and the value kept after it.
    Field(Seq<char>, Seq<char>),
    /// A line without `:`.
    NoColon,
}

/// Reads one header line.
pub open spec fn parse_header_line(line: Seq<char>) -> HeaderLine {
    if line.len() == 0 || line == crlf() {
        HeaderLine::End
    } else {
        match find_char(line, ':') {
            None => HeaderLine::NoColon,
            Some(k) => HeaderLine::Field(line.take(k), header_value(line.skip(k))),
        }
    }
}

/// A header line that can be read without going outside its own text.
pub open spec fn header_line_readable(line: Seq<char>) -> bool {
    line.len() == 0 || line == crlf() || match find_char(line, ':') {
        None => true,
        Some(k) => header_value_in_range(line.skip(k)),
    }
}

/// The header name `content-length`.
pub open spec fn content_length_name() -> Seq<char> {
    seq!['c', 'o', 'n', 't', 'e', 'n', 't', '-', 'l', 'e', 'n', 'g', 't', 'h']
}

/// An HTTP request or response as it is being read.
#[derive(Debug)]
pub struct HTTPObject {
    pub method: String,
    pub uri: String,
    pub headers: HeaderMap,
    pub body: Vec<u8>,
    pub state: HTTPReadState,
    pub status_code: String,
    pub status: String,
}

/// `new` is `old` after reading status line `line` with result `r`.
pub open spec fn after_response_line(
    old: HTTPObject,
    new: HTTPObject,
    line: Seq<char>,
    r: Result<(), CuziError>,
) -> bool {
    match parse_response_line(line) {
        Ok((code, status)) => {
            &&& r is Ok
            &&& new.status_code@ == code
            &&& new.status@ == status
            &&& new.state == HTTPReadState::Headers
            &&& new.method == old.method
            &&& new.uri == old.uri
            &&& new.headers == old.headers
            &&& new.body == old.body
        },
        Err(f) => r matches Err(e) && line_error(e, f, line, true) && new == old,
    }
}

/// `new` is `old` after reading request line `line` with result `r`.
pub open spec fn after_request_line(
    old: HTTPObject,
    new: HTTPObject,
    line: Seq<char>,
    r: Result<(), CuziError>,
) -> bool {
    match parse_request_line(line) {
        Ok((method, uri)) => {
            &&& r is Ok
            &&& new.method@ == method
            &&& new.uri@ == uri
            &&& new.state == HTTPReadState::Headers
            &&& new.status_code == old.status_code
            &&& new.status == old.status
            &&& new.headers == old.headers
            &&& new.body == old.body
        },
        Err(f) => r matches Err(e) && line_error(e, f, line, false) && new == old,
    }
}

/// `new` is `old` after reading start line `line` with result `r`: an empty
/// line means the peer closed, a line starting with `HTTP` is a status
/// line, any other a request line.
pub open spec fn after_start_line(
    old: HTTPObject,
    new: HTTPObject,
    line: Seq<char>,
    r: Result<(), CuziError>,
) -> bool {
    if line.len() == 0 {
        r matches Err(CuziError::ConnectionClosed) && new == old
    } else if looks_like_response(line) {
        after_response_line(old, new, line, r)
    } else {
        after_request_line(old, new, line, r)
    }
}

/// `new` is `old` after taking header line `line` with result `r`.
pub open spec fn after_header_line(
    old: HTTPObject,
    new: HTTPObject,
    line: Seq<char>,
    r: Result<bool, CuziError>,
) -> bool {
    &&& new.wf()
    &&& new.method == old.method
    &&& new.uri == old.uri
    &&& new.body == old.body
    &&& new.status == old.status
    &&& new.status_code == old.status_code
    &&& match parse_header_line(line) {
        HeaderLine::End => {
            &&& r == Ok::<bool, CuziError>(false)
            &&& new.state == HTTPReadState::Body
            &&& new.headers == old.headers
        },
        HeaderLine::NoColon => {
            &&& r matches Err(CuziError::MissingColon)
            &&& new.state == old.state
            &&& new.headers == old.headers
        },
        HeaderLine::Field(k, v) => {
            &&& r == Ok::<bool, CuziError>(true)
            &&& new.state == old.state
            &&& new.headers@ == insert_field(old.headers@, k, v)
        },
    }
}

/// `new` is `old` after taking body bytes `data` with result `r`.
pub open spec fn after_body(
    old: HTTPObject,
    new: HTTPObject,
    data: Seq<u8>,
    r: Result<(), CuziError>,
) -> bool {
    &&& old.state != HTTPReadState::Body ==> (r matches Err(CuziError::NotAtBody) && new == old)
    &&& old.state == HTTPReadState::Body ==> {
        &&& r is Ok
        &&& new.wf()
        &&& new.body@ == old.body@ + data
        &&& new.headers@ == Seq::<(Seq<char>, Seq<char>)>::empty()
        &&& new.method@ == Seq::<char>::empty()
        &&& new.uri@ == Seq::<char>::empty()
        &&& new.state == HTTPReadState::Info
        &&& new.status == old.status
        &&& new.status_code == old.status_code
    }
}

/// The reader's states move `Info -> Headers -> Body -> Info`: reading a
/// start line moves to `Headers`, the header line that ends the section
/// moves to `Body`, taking the body moves back to `Info` with the headers,
/// method and URI forgotten; a header field keeps the state at `Headers`;
/// and every error leaves the state as it was.
pub proof fn lemma_read_state_machine(
    a0: HTTPObject,
    a1: HTTPObject,
    start: Seq<char>,
    ra: Result<(), CuziError>,
    b0: HTTPObject,
    b1: HTTPObject,
    line: Seq<char>,
    rb: Result<bool, CuziError>,
    c0: HTTPObject,
    c1: HTTPObject,
    data: Seq<u8>,
    rc: Result<(), CuziError>,
)
    requires
        after_start_line(a0, a1, start, ra),
        b0.state == HTTPReadState::Headers,
        after_header_line(b0, b1, line, rb),
        after_body(c0, c1, data, rc),
    ensures
        ra is Ok ==> a1.state == HTTPReadState::Headers,
        ra is Err ==> a1.state == a0.state,
        rb == Ok::<bool, CuziError>(false) ==> b1.state == HTTPReadState::Body,
        rb == Ok::<bool, CuziError>(true) ==> b1.state == HTTPReadState::Headers,
        rb is Err ==> b1.state == b0.state,
        rc is Ok ==> c0.state == HTTPReadState::Body && c1.state == HTTPReadState::Info
            && c1.headers@.len() == 0 && c1.method@.len() == 0 && c1.uri@.len() == 0,
        rc is Err ==> c1.state == c0.state,
{
}

/// A header section read line by line: `objs[i + 1]` is `objs[i]` after
/// header line `lines[i]` with result `rs[i]`.
pub open spec fn header_section(
    objs: Seq<HTTPObject>,
    lines: Seq<Seq<char>>,
    rs: Seq<Result<bool, CuziError>>,
) -> bool {
    &&& objs.len() == lines.len() + 1
    &&& rs.len() == lines.len()
    &&& forall|i: int|
        #![trigger lines[i]]
        0 <= i < lines.len() ==> after_header_line(objs[i], objs[i + 1], lines[i], rs[i])
}

/// The reader went on after each of the first `n - 1` lines of a section.
pub open spec fn continued(rs: Seq<Result<bool, CuziError>>, n: int) -> bool {
    forall|i: int| 0 <= i < n - 1 ==> #[trigger] rs[i] == Ok::<bool, CuziError>(true)
}

/// Over a whole header section, taken line by line while the reader goes
/// on: the state stays at `Headers` up to the last line; the line that ends
/// the section moves it to `Body`, an error leaves it at `Headers`; the
/// method, URI, body and status stay as they were.
pub proof fn lemma_header_section(
    objs: Seq<HTTPObject>,
    lines: Seq<Seq<char>>,
    rs: Seq<Result<bool, CuziError>>,
)
    requires
        header_section(objs, lines, rs),
        objs[0].state == HTTPReadState::Headers,
        continued(rs, lines.len() as int),
    ensures
        forall|i: int| 0 <= i < lines.len() ==> (#[trigger] objs[i]).state == HTTPReadState::Headers,
        lines.len() > 0 && rs.last() == Ok::<bool, CuziError>(false) ==> objs.last().state
            == HTTPReadState::Body,
        lines.len() > 0 && rs.last() is Err ==> objs.last().state == HTTPReadState::Headers,
        objs.last().method == objs[0].method,
        objs.last().uri == objs[0].uri,
        objs.last().body == objs[0].body,
        objs.last().status == objs[0].status,
        objs.last().status_code == objs[0].status_code,
    decreases lines.len(),
{
    let n = lines.len() as int;
    if n > 0 {
        let objs1 = objs.drop_last();
        let lines1 = lines.drop_last();
        let rs1 = rs.drop_last();
        assert(header_section(objs1, lines1, rs1)) by {
            assert forall|i: int| 0 <= i < lines1.len() implies after_header_line(
                objs1[i],
                objs1[i + 1],
                #[trigger] lines1[i],
                rs1[i],
            ) by {
                assert(lines1[i] == lines[i]);
                assert(after_header_line(objs[i], objs[i + 1], lines[i], rs[i]));
            };
        };
        assert(continued(rs1, n - 1)) by {
            assert forall|i: int| 0 <= i < n - 2 implies #[trigger] rs1[i] == Ok::<
                bool,
                CuziError,
            >(true) by {
                assert(rs1[i] == rs[i]);
            };
        };
        lemma_header_section(objs1, lines1, rs1);
        assert(lines[n - 1] == lines[n - 1]);
        assert(after_header_line(objs[n - 1], objs[n], lines[n - 1], rs[n - 1]));
        if n > 1 {
            assert(rs[n - 2] == Ok::<bool, CuziError>(true));
            assert(lines[n - 2] == lines[n - 2]);
            assert(after_header_line(objs[n - 2], objs[n - 1], lines[n - 2], rs[n - 2]));
            assert(objs1.last() == objs[n - 1]);
            assert(objs1[n - 2] == objs[n - 2]);
            assert(objs[n - 2].state == HTTPReadState::Headers);
            assert(objs[n - 1].state == HTTPReadState::Headers);
        }
        assert forall|i: int| 0 <= i < n implies (#[trigger] objs[i]).state
            == HTTPReadState::Headers by {
            if i < n - 1 {
                assert(objs[i] == objs1[i]);
            } else if n > 1 {
                assert(objs1.last() == objs[n - 1]);
            }
        };
    }
}

/// A whole message: a start line accepted from `Info`, then a header section
/// taken line by line until the line that ends it, then the body, brings
/// the reader back to `Info` with no headers, method or URI, and the body
/// bytes added to the body.
pub proof fn lemma_read_cycle(
    o0: HTTPObject,
    start: Seq<char>,
    r1: Result<(), CuziError>,
    objs: Seq<HTTPObject>,
    lines: Seq<Seq<char>>,
    rs: Seq<Result<bool, CuziError>>,
    data: Seq<u8>,
    r3: Result<(), CuziError>,
    o_end: HTTPObject,
)
    requires
        o0.state == HTTPReadState::Info,
        after_start_line(o0, objs[0], start, r1),
        r1 is Ok,
        header_section(objs, lines, rs),
        lines.len() > 0,
        continued(rs, lines.len() as int),
        rs.last() == Ok::<bool, CuziError>(false),
        after_body(objs.last(), o_end, data, r3),
    ensures
        objs[0].state == HTTPReadState::Headers,
        objs.last().state == HTTPReadState::Body,
        r3 is Ok,
        o_end.state == HTTPReadState::Info,
        o_end.headers@.len() == 0,
        o_end.method@.len() == 0,
        o_end.uri@.len() == 0,
        o_end.body@ == o0.body@ + data,
{
    lemma_header_section(objs, lines, rs);
}

/// The separators counted at the start of `s` are all separators, and the
/// character after them is not one.
proof fn lemma_leading_separators(s: Seq<char>)
    ensures
        leading_separators(s) <= s.len(),
        forall|j: int| 0 <= j < leading_separators(s) ==> is_separator(#[trigger] s[j]),
        leading_separators(s) < s.len() ==> !is_separator(s[leading_separators(s) as int]),
    decreases s.len(),
{
    if s.len() > 0 && is_separator(s[0]) {
        lemma_leading_separators(s.drop_first());
        assert forall|j: int| 0 <= j < leading_separators(s) implies is_separator(#[trigger] s[j]) by {
            if j > 0 {
                assert(s[j] == s.drop_first()[j - 1]);
            }
        };
    }
}

/// The first `c` found lies inside the text and is a `c`.
proof fn lemma_find_char_found(s: Seq<char>, c: char)
    ensures
        find_char(s, c) matches Some(i) ==> 0 <= i < s.len() && s[i] == c,
    decreases s.len(),
{
    if s.len() > 0 && s[0] != c {
        lemma_find_char_found(s.drop_first(), c);
    }
}

/// Every header line made of ASCII characters that ends with a line end can
/// be read without going outside its own text.
pub proof fn lemma_ascii_line_readable(line: Seq<char>)
    requires
        is_ascii_chars(line),
        line.len() >= 2,
        line[line.len() - 2] == '\r',
        line[line.len() - 1] == '\n',
    ensures
        header_line_readable(line),
{
    if line.len() == 0 || line == crlf() {
        return;
    }
    lemma_find_char_found(line, ':');
    if let Some(k) = find_char(line, ':') {
        let rest = line.skip(k);
        let n = rest.len() as int;
        assert(line[k] == ':');
        assert(k < line.len() - 2);
        assert(n >= 3);
        assert(rest[n - 1] == '\n' && rest[n - 2] == '\r');
        assert(is_whitespace('\r') && is_whitespace('\n'));
        assert(is_ascii_chars(rest)) by {
            assert forall|i: int| 0 <= i < rest.len() implies '\0' <= #[trigger] rest[i] <= '\u{7f}' by {
                assert(rest[i] == line[k + i]);
            };
        };
        let b = encode_utf8(rest);
        vstd::utf8::is_ascii_chars_encode_utf8(rest);
        vstd::utf8::encode_utf8_valid_utf8(rest);
        lemma_leading_separators(rest);
        let m = leading_separators(rest) as int;
        if m != n {
            assert(m <= n - 3) by {
                if m == n - 1 || m == n - 2 {
                    assert(!is_separator(rest[m]));
                }
            };
            vstd::utf8::is_char_boundary_iff_not_is_continuation_byte(b, m);
            vstd::utf8::is_char_boundary_iff_not_is_continuation_byte(b, n - 2);
            vstd::utf8::is_ascii_chars_nat_bound(rest);
            assert(rest[m] as u8 == b[m]);
            assert(rest[n - 2] as u8 == b[n - 2]);
            assert(b[m] < 0x80);
            assert(b[n - 2] < 0x80);
        }
    }
}

proof fn lemma_version_literal()
    ensures
        "HTTP/1.1"@ == http_1_1(),
        " "@ == seq![' '],
{
    reveal_strlit("HTTP/1.1");
    reveal_strlit(" ");
    assert("HTTP/1.1"@ =~= http_1_1());
    assert(" "@ =~= seq![' ']);
}

impl HTTPObject {
    /// Well-formed: no header name occurs twice.
    pub open spec fn wf(&self) -> bool {
        self.headers.wf()
    }

    /// An empty message, waiting for its start line.
    pub fn new() -> (r: HTTPObject)
        ensures
            r.wf(),
            r.method@ == Seq::<char>::empty(),
            r.uri@ == Seq::<char>::empty(),
            r.headers@ == Seq::<(Seq<char>, Seq<char>)>::empty(),
            r.body@ == Seq::<u8>::empty(),
            r.state == HTTPReadState::Info,
            r.status@ == Seq::<char>::empty(),
            r.status_code@ == Seq::<char>::empty(),
    {
        HTTPObject {
            method: String::new(),
            uri: String::new(),
            headers: HeaderMap::new(),
            body: Vec::new(),
            state: HTTPReadState::Info,
            status: String::new(),
            status_code: String::new(),
        }
    }

    /// Reads the first line of an HTTP response (`HTTP/1.1 200 OK`): keeps
    /// the status code and status and moves on to the headers.
    pub fn read_response(&mut self, line: &str) -> (r: Result<(), CuziError>)
        ensures
            after_response_line(*old(self), *final(self), line@, r),
    {
        let items = split_char(line, ' ');
        proof {
            lemma_split_nonempty(line@, ' ');
            lemma_version_literal();
        }
        if items.len() < 3 {
            return Err(CuziError::MalformedResponse(line.to_owned()));
        }
        let version = trim_str(items[0]);
        let status_code = trim_str(items[1]);
        let rest = join_from(&items, 2, " ");
        let status = trim_str(rest.as_str());
        if !str_eq(version, "HTTP/1.1") {
            return Err(CuziError::UnsupportedVersion(version.to_owned()));
        }
        self.status = status.to_owned();
        self.status_code = status_code.to_owned();
        self.state = HTTPReadState::Headers;
        Ok(())
    }

    /// Reads the first line of an HTTP request (`GET / HTTP/1.1`): keeps the
    /// method and URI and moves on to the headers.
    pub fn read_method(&mut self, line: &str) -> (r: Result<(), CuziError>)
        ensures
            after_request_line(*old(self), *final(self), line@, r),
    {
        let items = split_char(line, ' ');
        proof {
            lemma_version_literal();
        }
        if items.len() != 3 {
            return Err(CuziError::MalformedRequest(line.to_owned()));
        }
        let method = trim_str(items[0]);
        let uri = trim_str(items[1]);
        let version = trim_str(items[2]);
        if !str_eq(version, "HTTP/1.1") {
            return Err(CuziError::UnsupportedVersion(version.to_owned()));
        }
        self.method = method.to_owned();
        self.uri = uri.to_owned();
        self.state = HTTPReadState::Headers;
        Ok(())
    }

    /// Reads the first line of a request or response, as read from the peer
    /// (an empty line: the peer closed the connection).
    pub fn read_info(&mut self, line: &str) -> (r: Result<(), CuziError>)
        ensures
            after_start_line(*old(self), *final(self), line@, r),
    {
        if line.unicode_len() == 0 {
            return Err(CuziError::ConnectionClosed);
        }
        let is_response = crate::text::starts_with(line, "HTTP");
        proof {
            reveal_strlit("HTTP");
            assert("HTTP"@ =~= seq!['H', 'T', 'T', 'P']);
        }
        if is_response {
            self.read_response(line)
        } else {
            self.read_method(line)
        }
    }
}

/// Counts the separators at the start of `rest`.
fn leading_separator_count(rest: &str) -> (k: usize)
    ensures
        k == leading_separators(rest@),
{
    let m = rest.unicode_len();
    let mut k: usize = 0;
    assert(rest@.skip(0) =~= rest@);
    while k < m
        invariant
            m == rest@.len(),
            k <= m,
            leading_separators(rest@) == k + leading_separators(rest@.skip(k as int)),
        ensures
            leading_separators(rest@) == k,
        decreases m - k,
    {
        let c = rest.get_char(k);
        if c != ':' && !char_is_whitespace(c) {
            assert(rest@.skip(k as int)[0] == c);
            break;
        }
        assert(rest@.skip(k as int).drop_first() =~= rest@.skip(k + 1));
        k = k + 1;
    }
    proof {
        if k == m {
            assert(rest@.skip(m as int) =~= Seq::<char>::empty());
        }
    }
    k
}

/// Whether the range that `header_value` keeps of `rest` exists.
fn value_in_range(rest: &str) -> (r: bool)
    ensures
        r == header_value_in_range(rest@),
{
    let k = leading_separator_count(rest);
    let len = rest.as_bytes().len();
    if k == len {
        return true;
    }
    if k > len || len - k < 2 {
        return false;
    }
    rest.is_char_boundary(k) && rest.is_char_boundary(len - 2)
}

/// The value of `rest` as `header_value` keeps it, when that range exists.
fn header_value_of(rest: &str) -> (r: &str)
    requires
        header_value_in_range(rest@),
    ensures
        r@ == header_value(rest@),
{
    let k = leading_separator_count(rest);
    let len = rest.as_bytes().len();
    proof {
        vstd::utf8::encode_utf8_valid_utf8(rest@);
        vstd::utf8::encode_utf8_decode_utf8(rest@);
    }
    if k == len {
        return rest;
    }
    let ghost b = encode_utf8(rest@);
    let (_, tail) = rest.split_at(k);
    let ghost tb = encode_utf8(tail@);
    proof {
        assert(tb =~= b.subrange(k as int, b.len() as int));
        vstd::utf8::valid_utf8_split(b, k as int);
        let j = len - 2 - k;
        if j > 0 {
            vstd::utf8::is_char_boundary_iff_not_is_continuation_byte(b, len - 2);
            vstd::utf8::is_char_boundary_iff_not_is_continuation_byte(tb, j);
            assert(tb[j] == b[len - 2]);
        }
    }
    let (mid, _) = tail.split_at(len - 2 - k);
    proof {
        assert(encode_utf8(mid@) =~= b.subrange(k as int, len - 2));
        vstd::utf8::encode_utf8_decode_utf8(mid@);
    }
    mid
}

/// Whether `line` is a bare line end.
fn is_crlf(line: &str) -> (r: bool)
    ensures
        r == (line@ == crlf()),
{
    if line.unicode_len() != 2 {
        return false;
    }
    let r = line.get_char(0) == '\r' && line.get_char(1) == '\n';
    proof {
        if r {
            assert(line@ =~= crlf());
        }
    }
    r
}

/// Whether reading `line` as a header line stays inside its own text (the
/// reader slices the value by byte positions).
pub fn header_line_is_readable(line: &str) -> (r: bool)
    ensures
        r == header_line_readable(line@),
{
    if line.unicode_len() == 0 || is_crlf(line) {
        return true;
    }
    match find_char_in(line, ':') {
        None => true,
        Some(k) => {
            let rest = line.substring_char(k, line.unicode_len());
            assert(rest@ =~= line@.skip(k as int));
            value_in_range(rest)
        },
    }
}

impl HTTPObject {
    /// Parses a header line: `Ok(None)` at the end of the header section,
    /// otherwise the name and the value of the field.
    pub fn read_header(&self, line: &str) -> (r: Result<Option<(String, String)>, CuziError>)
        requires
            header_line_readable(line@),
        ensures
            match parse_header_line(line@) {
                HeaderLine::End => r matches Ok(None),
                HeaderLine::NoColon => r matches Err(CuziError::MissingColon),
                HeaderLine::Field(k, v) => r matches Ok(Some((a, b))) && a@ == k && b@ == v,
            },
    {
        if line.unicode_len() == 0 || is_crlf(line) {
            return Ok(None);
        }
        match find_char_in(line, ':') {
            None => Err(CuziError::MissingColon),
            Some(k) => {
                let n = line.unicode_len();
                let key = line.substring_char(0, k);
                let rest = line.substring_char(k, n);
                assert(rest@ =~= line@.skip(k as int));
                assert(key@ =~= line@.take(k as int));
                let value = header_value_of(rest);
                Ok(Some((key.to_owned(), value.to_owned())))
            },
        }
    }

    /// Whether the reader waits for the start line of the next message.
    pub fn needs_start_line(&self) -> (r: bool)
        ensures
            r == (self.state == HTTPReadState::Info),
    {
        self.state == HTTPReadState::Info
    }

    /// Checks that the message is at its headers, as reading them requires.
    pub fn read_headers_start(&self) -> (r: Result<(), CuziError>)
        ensures
            r is Ok <==> self.state == HTTPReadState::Headers,
            r matches Err(e) ==> e matches CuziError::NotAtHeaders,
    {
        if self.state != HTTPReadState::Headers {
            return Err(CuziError::NotAtHeaders);
        }
        Ok(())
    }

    /// Takes one header line of the header section: stores a field and
    /// returns `Ok(true)`, or at the end of the section moves on to the body
    /// and returns `Ok(false)`.
    pub fn read_headers_step(&mut self, line: &str) -> (r: Result<bool, CuziError>)
        requires
            old(self).wf(),
            old(self).state == HTTPReadState::Headers,
            header_line_readable(line@),
        ensures
            after_header_line(*old(self), *final(self), line@, r),
    {
        match self.read_header(line) {
            Err(e) => Err(e),
            Ok(None) => {
                self.state = HTTPReadState::Body;
                Ok(false)
            },
            Ok(Some((key, value))) => {
                self.headers.insert(key, value);
                Ok(true)
            },
        }
    }
}

impl HTTPObject {
    /// Returns the value of the HTTP header named `header_name`: the first
    /// field whose name, lowercased, equals `header_name` (so give it in
    /// lowercase).
    pub fn get_header(&self, header_name: &str) -> (r: Option<&str>)
        ensures
            match r {
                Some(v) => header_lookup(self.headers@, header_name@) == Some(v@),
                None => header_lookup(self.headers@, header_name@) is None,
            },
    {
        match self.headers.find_lowercase(header_name) {
            Some(i) => Some(self.headers.value(i).as_str()),
            None => None,
        }
    }

    /// Returns a mutable borrow of the value of the HTTP header named
    /// `header_name` (matched as in `get_header`).
    pub fn get_header_mul(&mut self, header_name: &str) -> (r: Option<&mut String>)
        requires
            old(self).wf(),
        ensures
            final(self).wf(),
            final(self).method == old(self).method,
            final(self).uri == old(self).uri,
            final(self).body == old(self).body,
            final(self).state == old(self).state,
            final(self).status == old(self).status,
            final(self).status_code == old(self).status_code,
            match r {
                Some(v) => {
                    let i = first_match(old(self).headers@, header_name@);
                    &&& has_match(old(self).headers@, header_name@)
                    &&& (*v)@ == old(self).headers@[i].1
                    &&& final(self).headers@ == old(self).headers@.update(
                        i,
                        (old(self).headers@[i].0, (*final(v))@),
                    )
                },
                None => {
                    &&& !has_match(old(self).headers@, header_name@)
                    &&& final(self).headers == old(self).headers
                },
            },
    {
        match self.headers.find_lowercase(header_name) {
            Some(i) => Some(self.headers.value_mut(i)),
            None => None,
        }
    }

    /// Checks that the message is at its body and returns how many body
    /// bytes to read: the `content-length` value, or 0 without one.
    pub fn body_length(&self) -> (r: Result<usize, CuziError>)
        ensures
            self.state != HTTPReadState::Body ==> r matches Err(CuziError::NotAtBody),
            self.state == HTTPReadState::Body ==> match header_lookup(
                self.headers@,
                content_length_name(),
            ) {
                None => r == Ok::<usize, CuziError>(0),
                Some(v) => match parse_usize(v) {
                    Some(n) => r == Ok::<usize, CuziError>(n),
                    None => r matches Err(CuziError::InvalidContentLength(x)) && x@ == v,
                },
            },
    {
        if self.state != HTTPReadState::Body {
            return Err(CuziError::NotAtBody);
        }
        proof {
            reveal_strlit("content-length");
            assert("content-length"@ =~= content_length_name());
        }
        match self.get_header("content-length") {
            None => Ok(0),
            Some(v) => match parse_usize_str(v) {
                Some(n) => Ok(n),
                None => Err(CuziError::InvalidContentLength(v.to_owned())),
            },
        }
    }

    /// Takes the body bytes read from the peer: appends them to the body,
    /// forgets the headers, method and URI, and waits for the next start
    /// line.
    pub fn read_body(&mut self, data: Vec<u8>) -> (r: Result<(), CuziError>)
        ensures
            after_body(*old(self), *final(self), data@, r),
    {
        if self.state != HTTPReadState::Body {
            return Err(CuziError::NotAtBody);
        }
        let mut data = data;
        self.body.append(&mut data);
        self.headers.clear();
        self.method = String::new();
        self.uri = String::new();
        self.state = HTTPReadState::Info;
        Ok(())
    }
}

} // verus!
