//! What the proxy writes to the other side for a message it has read: the
//! start line and the header section, with the `host` header pointed at the
//! proxy's target for requests.
use vstd::prelude::*;
use vstd::utf8::{
    decode_utf8, encode_scalar, encode_utf8, is_ascii_chars, is_char_boundary, length_of_first_scalar,
    pop_first_scalar,
};

use crate::config::ProxyConfig;
use crate::headers::{
    first_match, has_match, header_lookup, is_first_match, lemma_first_match_exists,
    lemma_first_match_unique, Field,
};
use crate::http::{
    crlf, header_value, leading_separators, header_line_readable, http_1_1, is_separator, parse_header_line, parse_request_line,
    parse_response_line, HTTPObject, HeaderLine, LineFault,
};
use crate::text::{
    find_char, is_trimmed, is_whitespace, join, lemma_find_char_skip, lemma_join_split, lemma_split_concat, lemma_split_nonempty,
    lemma_split_pieces, lemma_split_without_sep, lemma_trim_line_end, lemma_trim_result,
    lemma_trim_trimmed, split_on, str_eq, trim,
};

verus! {

/// The name of the side whose messages are requests.
pub open spec fn client_name() -> Seq<char> {
    seq!['c', 'l', 'i', 'e', 'n', 't']
}

/// The header naming the server a request is for.
pub open spec fn host_name() -> Seq<char> {
    seq!['h', 'o', 's', 't']
}

/// A request line: `method uri HTTP/1.1`, then a line end.
pub open spec fn request_text(method: Seq<char>, uri: Seq<char>) -> Seq<char> {
    method + seq![' '] + uri + seq![' '] + http_1_1() + crlf()
}

/// A status line: `HTTP/1.1 code status`, then a line end.
pub open spec fn status_text(code: Seq<char>, status: Seq<char>) -> Seq<char> {
    http_1_1() + seq![' '] + code + seq![' '] + status + crlf()
}

/// One `name: value` line per field, in order.
pub open spec fn fields_text(s: Seq<Field>) -> Seq<char>
    decreases s.len(),
{
    if s.len() == 0 {
        Seq::empty()
    } else {
        fields_text(s.drop_last()) + s.last().0 + seq![':', ' '] + s.last().1 + crlf()
    }
}

/// The fields with the value of the first `host` field (matched
/// case-insensitively) replaced by `target`.
pub open spec fn with_host(s: Seq<Field>, target: Seq<char>) -> Seq<Field> {
    if has_match(s, host_name()) {
        let i = first_match(s, host_name());
        s.update(i, (s[i].0, target))
    } else {
        s
    }
}

proof fn lemma_literals()
    ensures
        "client"@ == client_name(),
        "host"@ == host_name(),
        " "@ == seq![' '],
        ": "@ == seq![':', ' '],
        "\r\n"@ == crlf(),
        " HTTP/1.1\r\n"@ == seq![' '] + http_1_1() + crlf(),
        "HTTP/1.1 "@ == http_1_1() + seq![' '],
{
    reveal_strlit("client");
    reveal_strlit("host");
    reveal_strlit(" ");
    reveal_strlit(": ");
    reveal_strlit("\r\n");
    reveal_strlit(" HTTP/1.1\r\n");
    reveal_strlit("HTTP/1.1 ");
    assert("client"@ =~= client_name());
    assert("host"@ =~= host_name());
    assert(" "@ =~= seq![' ']);
    assert(": "@ =~= seq![':', ' ']);
    assert("\r\n"@ =~= crlf());
    assert(" HTTP/1.1\r\n"@ =~= seq![' '] + http_1_1() + crlf());
    assert("HTTP/1.1 "@ =~= http_1_1() + seq![' ']);
}

impl HTTPObject {
    /// The start line to send on: the request line for messages from the
    /// side named `client`, the status line otherwise.
    pub fn start_line(&self, name: &str) -> (r: String)
        ensures
            r@ == if name@ == client_name() {
                request_text(self.method@, self.uri@)
            } else {
                status_text(self.status_code@, self.status@)
            },
    {
        proof {
            lemma_literals();
        }
        let mut out = String::new();
        if str_eq(name, "client") {
            out.append(self.method.as_str());
            out.append(" ");
            out.append(self.uri.as_str());
            out.append(" HTTP/1.1\r\n");
            assert(out@ =~= request_text(self.method@, self.uri@));
        } else {
            out.append("HTTP/1.1 ");
            out.append(self.status_code.as_str());
            out.append(" ");
            out.append(self.status.as_str());
            out.append("\r\n");
            assert(out@ =~= status_text(self.status_code@, self.status@));
        }
        out
    }

    /// Prepares the header section to send on: for messages from the side
    /// named `client` the `host` header is set to the proxy's target; then
    /// every field as a `name: value` line, and an empty line.
    pub fn forward_headers(&mut self, name: &str, proxy: &ProxyConfig) -> (r: String)
        requires
            old(self).wf(),
        ensures
            final(self).wf(),
            final(self).method == old(self).method,
            final(self).uri == old(self).uri,
            final(self).body == old(self).body,
            final(self).state == old(self).state,
            final(self).status == old(self).status,
            final(self).status_code == old(self).status_code,
            final(self).headers@ == if name@ == client_name() {
                with_host(old(self).headers@, proxy.target@)
            } else {
                old(self).headers@
            },
            r@ == fields_text(final(self).headers@) + crlf(),
    {
        proof {
            lemma_literals();
        }
        if str_eq(name, "client") {
            if let Some(x) = self.get_header_mul("host") {
                *x = proxy.target.clone();
            }
        }
        let mut out = String::new();
        let n = self.headers.len();
        let mut i: usize = 0;
        assert(self.headers@.take(0) =~= Seq::<Field>::empty());
        while i < n
            invariant
                n == self.headers@.len(),
                i <= n,
                out@ == fields_text(self.headers@.take(i as int)),
            decreases n - i,
        {
            proof {
                lemma_literals();
            }
            out.append(self.headers.name(i).as_str());
            out.append(": ");
            out.append(self.headers.value(i).as_str());
            out.append("\r\n");
            let ghost t = self.headers@.take(i + 1);
            assert(t.drop_last() =~= self.headers@.take(i as int));
            assert(t.last() == self.headers@[i as int]);
            assert(out@ =~= fields_text(self.headers@.take(i as int)) + t.last().0 + seq![':', ' ']
                + t.last().1 + crlf());
            i = i + 1;
        }
        assert(self.headers@.take(n as int) =~= self.headers@);
        out.append("\r\n");
        out
    }
}

/// The protocol version holds no space and no whitespace at its ends.
proof fn lemma_version_text()
    ensures
        is_trimmed(http_1_1()),
        !(http_1_1() + crlf()).contains(' '),
        !http_1_1().contains(' '),
{
    let v = http_1_1();
    let w = http_1_1() + crlf();
    assert(v[0] == 'H' && v.last() == '1');
    assert(w.len() == 10);
    assert forall|j: int| 0 <= j < w.len() implies w[j] != ' ' by {
        assert(w[0] == 'H' && w[1] == 'T' && w[2] == 'T' && w[3] == 'P' && w[4] == '/' && w[5]
            == '1' && w[6] == '.' && w[7] == '1' && w[8] == '\r' && w[9] == '\n');
    };
    assert forall|j: int| 0 <= j < v.len() implies v[j] != ' ' by {
        assert(v[j] == w[j]);
    };
}

/// A piece of a split line, trimmed, holds no space and no whitespace at its
/// ends.
proof fn lemma_trimmed_piece(line: Seq<char>, i: int)
    requires
        0 <= i < split_on(line, ' ').len(),
    ensures
        is_trimmed(trim(split_on(line, ' ')[i])),
        !trim(split_on(line, ' ')[i]).contains(' '),
{
    lemma_split_pieces(line, ' ');
    lemma_trim_result(split_on(line, ' ')[i]);
}

/// Text without any whitespace holds no space and has no whitespace at its
/// ends.
proof fn lemma_no_whitespace(x: Seq<char>)
    requires
        forall|i: int| 0 <= i < x.len() ==> !is_whitespace(#[trigger] x[i]),
    ensures
        !x.contains(' '),
        is_trimmed(x),
{
    assert(is_whitespace(' '));
    if x.len() > 0 {
        assert(!is_whitespace(x[x.len() - 1]));
    }
}

/// The request line `m u HTTP/1.1` with its line end, for a method `m` and a
/// URI `u` without whitespace, reads as exactly that method and that URI:
/// every character of `u` is kept, `?` and query included.
pub proof fn lemma_request_line_fields(m: Seq<char>, u: Seq<char>)
    requires
        forall|i: int| 0 <= i < m.len() ==> !is_whitespace(#[trigger] m[i]),
        forall|i: int| 0 <= i < u.len() ==> !is_whitespace(#[trigger] u[i]),
    ensures
        parse_request_line(
            m + seq![' '] + u + seq![' ', 'H', 'T', 'T', 'P', '/', '1', '.', '1', '\r', '\n'],
        ) == Ok::<(Seq<char>, Seq<char>), LineFault>((m, u)),
{
    lemma_no_whitespace(m);
    lemma_no_whitespace(u);
    lemma_request_text_reads_back(m, u);
    assert(request_text(m, u) =~= m + seq![' '] + u + seq![
        ' ',
        'H',
        'T',
        'T',
        'P',
        '/',
        '1',
        '.',
        '1',
        '\r',
        '\n',
    ]);
}

/// A request line written for a method and a URI that hold no space and no
/// whitespace at their ends reads back to that method and URI.
proof fn lemma_request_text_reads_back(m: Seq<char>, u: Seq<char>)
    requires
        !m.contains(' '),
        !u.contains(' '),
        is_trimmed(m),
        is_trimmed(u),
    ensures
        parse_request_line(request_text(m, u)) == Ok::<(Seq<char>, Seq<char>), LineFault>((m, u)),
{
    lemma_version_text();
    let tail = http_1_1() + crlf();
    let text = request_text(m, u);
    assert(text =~= m + seq![' '] + (u + seq![' '] + tail));
    lemma_split_concat(m, u + seq![' '] + tail, ' ');
    lemma_split_concat(u, tail, ' ');
    lemma_split_without_sep(m, ' ');
    lemma_split_without_sep(u, ' ');
    lemma_split_without_sep(tail, ' ');
    let items = split_on(text, ' ');
    assert(items =~= seq![m, u, tail]);
    lemma_trim_trimmed(m);
    lemma_trim_trimmed(u);
    lemma_trim_line_end(http_1_1());
}

/// A request line that the reader accepts, written out again as
/// `start_line` writes it for the client side, reads back to the same
/// method and URI.
pub proof fn lemma_request_line_roundtrip(line: Seq<char>)
    ensures
        match parse_request_line(line) {
            Ok((m, u)) => parse_request_line(request_text(m, u)) == Ok::<
                (Seq<char>, Seq<char>),
                LineFault,
            >((m, u)),
            Err(_) => true,
        },
{
    if let Ok((m, u)) = parse_request_line(line) {
        lemma_trimmed_piece(line, 0);
        lemma_trimmed_piece(line, 1);
        lemma_request_text_reads_back(m, u);
    }
}

/// The status line `HTTP/1.1 c s` with its line end, for a code `c` without
/// whitespace and a status `s` without whitespace at its ends (spaces inside
/// allowed), reads as exactly that code and that whole status, whatever its
/// length.
pub proof fn lemma_status_line_fields(c: Seq<char>, s: Seq<char>)
    requires
        forall|i: int| 0 <= i < c.len() ==> !is_whitespace(#[trigger] c[i]),
        s.len() == 0 || (!is_whitespace(s[0]) && !is_whitespace(s[s.len() - 1])),
    ensures
        parse_response_line(
            seq!['H', 'T', 'T', 'P', '/', '1', '.', '1', ' '] + c + seq![' '] + s + seq!['\r', '\n'],
        ) == Ok::<(Seq<char>, Seq<char>), LineFault>((c, s)),
{
    lemma_no_whitespace(c);
    assert(is_trimmed(s));
    lemma_status_text_reads_back(c, s);
    assert(status_text(c, s) =~= seq!['H', 'T', 'T', 'P', '/', '1', '.', '1', ' '] + c + seq![' ']
        + s + seq!['\r', '\n']);
}

/// A status line written for a code without space and whitespace at its
/// ends and a status without whitespace at its ends reads back to them.
proof fn lemma_status_text_reads_back(c: Seq<char>, st: Seq<char>)
    requires
        !c.contains(' '),
        is_trimmed(c),
        is_trimmed(st),
    ensures
        parse_response_line(status_text(c, st)) == Ok::<(Seq<char>, Seq<char>), LineFault>((c, st)),
{
    lemma_version_text();
    let last = st + crlf();
    let text = status_text(c, st);
    assert(text =~= http_1_1() + seq![' '] + (c + seq![' '] + last));
    lemma_split_concat(http_1_1(), c + seq![' '] + last, ' ');
    lemma_split_concat(c, last, ' ');
    lemma_split_without_sep(http_1_1(), ' ');
    lemma_split_without_sep(c, ' ');
    lemma_split_nonempty(last, ' ');
    let items = split_on(text, ' ');
    assert(items =~= seq![http_1_1(), c] + split_on(last, ' '));
    assert(items.subrange(2, items.len() as int) =~= split_on(last, ' '));
    lemma_join_split(last, ' ');
    lemma_trim_trimmed(http_1_1());
    lemma_trim_trimmed(c);
    lemma_trim_line_end(st);
}

/// A status line that the reader accepts, written out again as `start_line`
/// writes it for the server side, reads back to the same status code and
/// status.
pub proof fn lemma_status_line_roundtrip(line: Seq<char>)
    ensures
        match parse_response_line(line) {
            Ok((c, st)) => parse_response_line(status_text(c, st)) == Ok::<
                (Seq<char>, Seq<char>),
                LineFault,
            >((c, st)),
            Err(_) => true,
        },
{
    if let Ok((c, st)) = parse_response_line(line) {
        let items0 = split_on(line, ' ');
        lemma_trimmed_piece(line, 1);
        lemma_trim_result(join(items0.subrange(2, items0.len() as int), seq![' ']));
        lemma_status_text_reads_back(c, st);
    }
}

/// Encoding two texts one after the other gives the two encodings one after
/// the other.
proof fn lemma_encode_concat(a: Seq<char>, b: Seq<char>)
    ensures
        encode_utf8(a + b) == encode_utf8(a) + encode_utf8(b),
    decreases a.len(),
{
    if a.len() == 0 {
        assert(a + b =~= b);
        assert(encode_utf8(a) =~= Seq::<u8>::empty());
        assert(encode_utf8(a) + encode_utf8(b) =~= encode_utf8(b));
    } else {
        lemma_encode_concat(a.drop_first(), b);
        assert((a + b).drop_first() =~= a.drop_first() + b);
        assert((a + b)[0] == a[0]);
        assert(encode_utf8(a + b) =~= encode_scalar(a[0] as u32) + (encode_utf8(a.drop_first())
            + encode_utf8(b)));
    }
}

/// The end of the encoding of `a` is a character boundary of the encoding of
/// `a` followed by `c`.
proof fn lemma_boundary_concat(a: Seq<char>, c: Seq<char>)
    ensures
        is_char_boundary(encode_utf8(a + c), encode_utf8(a).len() as int),
    decreases a.len(),
{
    let bytes = encode_utf8(a + c);
    vstd::utf8::encode_utf8_valid_utf8(a + c);
    if a.len() == 0 {
        assert(encode_utf8(a).len() == 0);
    } else {
        lemma_boundary_concat(a.drop_first(), c);
        vstd::utf8::encode_utf8_first_scalar(a + c);
        assert((a + c).drop_first() =~= a.drop_first() + c);
        assert((a + c)[0] == a[0]);
        let first = encode_scalar(a[0] as u32);
        assert(first.len() >= 1);
        assert(bytes == first + encode_utf8(a.drop_first() + c));
        assert(length_of_first_scalar(bytes) == first.len());
        assert(pop_first_scalar(bytes) =~= encode_utf8(a.drop_first() + c));
        assert(encode_utf8(a) == first + encode_utf8(a.drop_first()));
        lemma_encode_concat(a, c);
    }
}

/// ASCII text encodes to one byte per character.
proof fn lemma_ascii_len(s: Seq<char>)
    requires
        is_ascii_chars(s),
    ensures
        encode_utf8(s).len() == s.len(),
{
    vstd::utf8::is_ascii_chars_encode_utf8(s);
}

/// A header field written out as `forward_headers` writes it reads back to
/// the same name and value, when the name holds no `:` and the value is
/// not empty and starts with neither `:` nor whitespace.
pub proof fn lemma_header_line_roundtrip(k: Seq<char>, v: Seq<char>)
    requires
        !k.contains(':'),
        v.len() > 0,
        !is_separator(v[0]),
    ensures
        header_line_readable(k + seq![':', ' '] + v + crlf()),
        parse_header_line(k + seq![':', ' '] + v + crlf()) == HeaderLine::Field(k, v),
{
    let sep = seq![':', ' '];
    let line = k + sep + v + crlf();
    let rest = sep + v + crlf();
    assert(line.len() > 2);
    assert(line != crlf());
    assert forall|j: int| 0 <= j < k.len() implies line[j] != ':' by {
        assert(line[j] == k[j]);
    };
    lemma_find_char_skip(line, ':', k.len() as int);
    assert(line.skip(k.len() as int) =~= rest);
    assert(rest[0] == ':');
    assert(find_char(line, ':') == Some(k.len() as int));
    assert(line.take(k.len() as int) =~= k);
    assert(is_whitespace(' '));
    assert(rest.drop_first().drop_first() =~= v + crlf());
    assert(rest.drop_first()[0] == ' ');
    assert((v + crlf())[0] == v[0]);
    assert(leading_separators(v + crlf()) == 0);
    assert(is_separator(rest.drop_first()[0]));
    assert(leading_separators(rest.drop_first()) == 1);
    assert(is_separator(rest[0]));
    assert(leading_separators(rest) == 2);
    assert(is_ascii_chars(sep));
    assert(is_ascii_chars(crlf()));
    lemma_ascii_len(sep);
    lemma_ascii_len(crlf());
    lemma_encode_concat(sep, v);
    lemma_encode_concat(sep + v, crlf());
    let b = encode_utf8(rest);
    let ev = encode_utf8(v);
    assert(b == encode_utf8(sep) + ev + encode_utf8(crlf()));
    vstd::utf8::encode_utf8_first_scalar(v);
    assert(ev.len() >= 1) by {
        assert(ev == encode_scalar(v[0] as u32) + encode_utf8(v.drop_first()));
    };
    assert(rest =~= sep + (v + crlf()));
    lemma_boundary_concat(sep, v + crlf());
    lemma_boundary_concat(sep + v, crlf());
    assert(b.subrange(2, b.len() - 2) =~= ev);
    vstd::utf8::encode_utf8_decode_utf8(v);
    assert(header_value(rest) == v);
}

/// Once `forward_headers` has pointed a request's `host` header at the
/// proxy's target, looking up `host` gives the target; the names and the
/// number of fields stay as they were.
pub proof fn lemma_host_points_at_target(s: Seq<Field>, target: Seq<char>)
    requires
        has_match(s, host_name()),
    ensures
        header_lookup(with_host(s, target), host_name()) == Some(target),
        with_host(s, target).len() == s.len(),
        forall|j: int| 0 <= j < s.len() ==> (#[trigger] with_host(s, target)[j]).0 == s[j].0,
{
    lemma_with_host_changes_one(s, target);
    lemma_first_match_exists(s, host_name());
    let i = first_match(s, host_name());
    let t = with_host(s, target);
    assert(forall|j: int| 0 <= j < s.len() ==> (#[trigger] t[j]).0 == s[j].0);
    assert(is_first_match(t, host_name(), i)) by {
        assert forall|m: int| 0 <= m < i implies crate::text::lowercase(#[trigger] t[m].0)
            != host_name() by {
            assert(t[m].0 == s[m].0);
        };
    };
    lemma_first_match_unique(t, host_name(), i);
}

/// Pointing `host` at the target changes one field only: the first whose
/// lowercased name is `host` gets the target as its value and keeps its
/// name; every other field stays exactly as it was, and without a `host`
/// field nothing changes.
pub proof fn lemma_with_host_changes_one(s: Seq<Field>, target: Seq<char>)
    ensures
        with_host(s, target).len() == s.len(),
        forall|j: int|
            0 <= j < s.len() && !is_first_match(s, seq!['h', 'o', 's', 't'], j) ==> (
            #[trigger] with_host(s, target)[j]) == s[j],
        forall|j: int|
            0 <= j < s.len() && is_first_match(s, seq!['h', 'o', 's', 't'], j) ==> (
            #[trigger] with_host(s, target)[j]) == (s[j].0, target),
        !has_match(s, seq!['h', 'o', 's', 't']) ==> with_host(s, target) == s,
{
    assert(host_name() =~= seq!['h', 'o', 's', 't']);
    if has_match(s, host_name()) {
        lemma_first_match_exists(s, host_name());
        let i = first_match(s, host_name());
        assert forall|j: int| 0 <= j < s.len() && is_first_match(s, host_name(), j) implies j == i by {
            lemma_first_match_unique(s, host_name(), j);
        };
    }
}

} // verus!
