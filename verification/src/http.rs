//! HTTP requests: the method, the request line and the header block.
use vstd::prelude::*;
use vstd::slice::{slice_subrange, slice_to_vec};
use crate::headers::{entries_map, keys_distinct, Headers};
use vstd::string::StringExecFns;
use vstd::utf8::encode_utf8;
use crate::text::{chars_eq, chars_of, decimal, find, find_chars, find_from, lemma_find_bounds, lemma_find_from_first, matches_at, push_decimal, string_from_chars};

verus! {

/// The request methods of HTTP/1.1.
#[derive(Debug, Clone, Copy, PartialEq, Eq, Structural)]
#[allow(non_camel_case_types, clippy::upper_case_acronyms)]
pub enum Method {
    GET,
    HEAD,
    POST,
    PUT,
    DELETE,
    CONNECT,
    OPTIONS,
    TRACE,
}

/// The method with the given (case-sensitive) name.
pub open spec fn method_from_name(s: Seq<char>) -> Option<Method> {
    if s == seq!['G', 'E', 'T'] {
        Some(Method::GET)
    } else if s == seq!['H', 'E', 'A', 'D'] {
        Some(Method::HEAD)
    } else if s == seq!['P', 'O', 'S', 'T'] {
        Some(Method::POST)
    } else if s == seq!['P', 'U', 'T'] {
        Some(Method::PUT)
    } else if s == seq!['D', 'E', 'L', 'E', 'T', 'E'] {
        Some(Method::DELETE)
    } else if s == seq!['C', 'O', 'N', 'N', 'E', 'C', 'T'] {
        Some(Method::CONNECT)
    } else if s == seq!['O', 'P', 'T', 'I', 'O', 'N', 'S'] {
        Some(Method::OPTIONS)
    } else if s == seq!['T', 'R', 'A', 'C', 'E'] {
        Some(Method::TRACE)
    } else {
        None
    }
}

/// The method named by the characters `s`, if any.
pub fn method_from_chars(s: &[char]) -> (r: Option<Method>)
    ensures
        r == method_from_name(s@),
{
    let get = vec!['G', 'E', 'T'];
    let head = vec!['H', 'E', 'A', 'D'];
    let post = vec!['P', 'O', 'S', 'T'];
    let put = vec!['P', 'U', 'T'];
    let delete = vec!['D', 'E', 'L', 'E', 'T', 'E'];
    let connect = vec!['C', 'O', 'N', 'N', 'E', 'C', 'T'];
    let options = vec!['O', 'P', 'T', 'I', 'O', 'N', 'S'];
    let trace = vec!['T', 'R', 'A', 'C', 'E'];
    if chars_eq(s, get.as_slice()) {
        Some(Method::GET)
    } else if chars_eq(s, head.as_slice()) {
        Some(Method::HEAD)
    } else if chars_eq(s, post.as_slice()) {
        Some(Method::POST)
    } else if chars_eq(s, put.as_slice()) {
        Some(Method::PUT)
    } else if chars_eq(s, delete.as_slice()) {
        Some(Method::DELETE)
    } else if chars_eq(s, connect.as_slice()) {
        Some(Method::CONNECT)
    } else if chars_eq(s, options.as_slice()) {
        Some(Method::OPTIONS)
    } else if chars_eq(s, trace.as_slice()) {
        Some(Method::TRACE)
    } else {
        None
    }
}

impl Method {
    /// The method named `s`, or the error "Failed to parse method".
    pub fn from_name(s: &str) -> (r: Result<Method, &'static str>)
        ensures
            r matches Ok(m) ==> method_from_name(s@) == Some(m),
            r is Err ==> method_from_name(s@) is None,
            r matches Err(e) ==> e@ == "Failed to parse method"@,
    {
        let cs = chars_of(s);
        match method_from_chars(cs.as_slice()) {
            Some(m) => Ok(m),
            None => Err("Failed to parse method"),
        }
    }
}

impl std::str::FromStr for Method {
    type Err = &'static str;

    fn from_str(s: &str) -> (r: Result<Self, Self::Err>)
        ensures
            r matches Ok(m) ==> method_from_name(s@) == Some(m),
            r is Err ==> method_from_name(s@) is None,
            r matches Err(e) ==> e@ == "Failed to parse method"@,
    {
        Method::from_name(s)
    }
}

/// A line break: carriage return, line feed.
pub open spec fn crlf() -> Seq<char> {
    seq!['\r', '\n']
}

/// The end of a header block: two line breaks.
pub open spec fn blank_line() -> Seq<char> {
    seq!['\r', '\n', '\r', '\n']
}

/// What separates a header's name from its value.
pub open spec fn colon_space() -> Seq<char> {
    seq![':', ' ']
}

/// Space, tab, carriage return or line feed.
pub open spec fn is_space_char(c: char) -> bool {
    c == ' ' || c == '\t' || c == '\r' || c == '\n'
}

/// The number of leading space characters of `s`.
pub open spec fn leading_spaces(s: Seq<char>) -> nat
    decreases s.len(),
{
    if s.len() > 0 && is_space_char(s[0]) {
        1 + leading_spaces(s.drop_first())
    } else {
        0
    }
}

/// The header lines after the first: while a run of spaces follows, skip it
/// and take the text up to the next CRLF; stop at a line with no CRLF after
/// it (that last line is not taken).
pub open spec fn more_header_lines(acc: Seq<Seq<char>>, t: Seq<char>) -> Seq<Seq<char>>
    decreases t.len(),
{
    let w = leading_spaces(t);
    if w == 0 || w > t.len() {
        acc
    } else {
        let t1 = t.skip(w as int);
        match find(t1, crlf()) {
            None => acc,
            Some(k) => if 0 <= k <= t1.len() {
                more_header_lines(acc.push(t1.take(k)), t1.skip(k))
            } else {
                acc
            },
        }
    }
}

/// The lines of a header block: the text up to the first CRLF, then the
/// further lines; no lines at all when the block has no CRLF.
pub open spec fn header_lines(t: Seq<char>) -> Option<Seq<Seq<char>>> {
    match find(t, crlf()) {
        None => None,
        Some(k) => Some(more_header_lines(seq![t.take(k)], t.skip(k))),
    }
}

/// Lines each written after a CRLF: CRLF, the first line, CRLF, the
/// second line, and so on.
pub open spec fn crlf_lines(ls: Seq<Seq<char>>) -> Seq<char>
    decreases ls.len(),
{
    if ls.len() == 0 {
        Seq::empty()
    } else {
        crlf() + ls[0] + crlf_lines(ls.drop_first())
    }
}

/// A header line as it is written: not empty, not starting with a space
/// character, and without a line feed.
pub open spec fn plain_line(l: Seq<char>) -> bool {
    l.len() > 0 && !is_space_char(l[0]) && !l.contains('\n')
}

/// Text without a line feed has no CRLF.
proof fn lemma_no_crlf(s: Seq<char>)
    requires
        !s.contains('\n'),
    ensures
        find(s, crlf()) is None,
{
    lemma_find_bounds(s, crlf(), 0);
    if let Some(k) = find(s, crlf()) {
        assert(s.subrange(k, k + 2)[1] == s[k + 1]);
        assert(s[k + 1] == '\n');
    }
}

/// The first CRLF of a line without a line feed followed by a CRLF is right
/// after the line.
proof fn lemma_find_crlf_after_line(l: Seq<char>, rest: Seq<char>)
    requires
        !l.contains('\n'),
        rest.len() >= 2,
        rest.take(2) == crlf(),
    ensures
        find(l + rest, crlf()) == Some(l.len() as int),
{
    let u = l + rest;
    let k = l.len() as int;
    assert(u.subrange(k, k + 2) =~= rest.take(2));
    assert forall|m: int| 0 <= m < k implies !matches_at(u, crlf(), m) by {
        if matches_at(u, crlf(), m) {
            assert(u.subrange(m, m + 2)[1] == u[m + 1]);
            if m + 1 < k {
                assert(u[m + 1] == l[m + 1]);
            } else {
                assert(u[m + 1] == rest[0]);
                assert(rest.take(2)[0] == rest[0]);
            }
        }
    }
    lemma_find_from_first(u, crlf(), 0, k);
}

/// A run of leading space characters is no longer than the text.
proof fn lemma_leading_spaces_bound(s: Seq<char>)
    ensures
        leading_spaces(s) <= s.len(),
    decreases s.len(),
{
    if s.len() > 0 && is_space_char(s[0]) {
        lemma_leading_spaces_bound(s.drop_first());
    }
}

/// A CRLF adds two to the leading space characters.
proof fn lemma_leading_spaces_crlf(x: Seq<char>)
    ensures
        leading_spaces(crlf() + x) == 2 + leading_spaces(x),
        (crlf() + x).skip(2) == x,
{
    let a = crlf() + x;
    assert(a[0] == '\r');
    assert(a.drop_first() =~= seq!['\n'] + x);
    assert((seq!['\n'] + x)[0] == '\n');
    assert((seq!['\n'] + x).drop_first() =~= x);
    assert(is_space_char(a[0]));
    assert(leading_spaces(a) == 1 + leading_spaces(a.drop_first()));
    let b = seq!['\n'] + x;
    assert(is_space_char(b[0]));
    assert(leading_spaces(b) == 1 + leading_spaces(b.drop_first()));
    assert(a.skip(2) =~= x);
}

/// What follows the leading spaces of text without a line feed has none either.
proof fn lemma_skip_leading_no_lf(x: Seq<char>)
    requires
        !x.contains('\n'),
    ensures
        !x.skip(leading_spaces(x) as int).contains('\n'),
{
    lemma_leading_spaces_bound(x);
    let w = leading_spaces(x) as int;
    if x.skip(w).contains('\n') {
        let i = choose|i: int| 0 <= i < x.skip(w).len() && x.skip(w)[i] == '\n';
        assert(x[w + i] == '\n');
    }
}

/// The text that `crlf_lines` writes, then a CRLF and a last line without a
/// line feed.
pub open spec fn header_block_tail(ls: Seq<Seq<char>>, last: Seq<char>) -> Seq<char> {
    crlf_lines(ls) + crlf() + last
}

/// Such a tail starts with a CRLF.
proof fn lemma_tail_starts_with_crlf(ls: Seq<Seq<char>>, last: Seq<char>)
    ensures
        header_block_tail(ls, last).len() >= 2,
        header_block_tail(ls, last).take(2) == crlf(),
{
    let t = header_block_tail(ls, last);
    if ls.len() == 0 {
        assert(t =~= crlf() + last);
    } else {
        assert(t =~= crlf() + (ls[0] + crlf_lines(ls.drop_first()) + crlf() + last));
    }
    assert(t.take(2) =~= crlf());
}

/// `more_header_lines` takes one line per CRLF-terminated plain line.
proof fn lemma_more_header_lines(acc: Seq<Seq<char>>, ls: Seq<Seq<char>>, last: Seq<char>)
    requires
        forall|i: int| 0 <= i < ls.len() ==> #[trigger] plain_line(ls[i]),
        !last.contains('\n'),
    ensures
        more_header_lines(acc, header_block_tail(ls, last)) == acc + ls,
    decreases ls.len(),
{
    let t = header_block_tail(ls, last);
    if ls.len() == 0 {
        assert(t =~= crlf() + last);
        lemma_leading_spaces_crlf(last);
        lemma_leading_spaces_bound(last);
        let w = leading_spaces(t);
        assert(t.skip(w as int) =~= last.skip(leading_spaces(last) as int));
        lemma_skip_leading_no_lf(last);
        lemma_no_crlf(t.skip(w as int));
        assert(acc + ls =~= acc);
    } else {
        let l = ls[0];
        let rest = ls.drop_first();
        let tail = header_block_tail(rest, last);
        let u = l + tail;
        assert(plain_line(ls[0]));
        assert(t =~= crlf() + u);
        lemma_leading_spaces_crlf(u);
        assert(u[0] == l[0]);
        assert(leading_spaces(u) == 0);
        lemma_tail_starts_with_crlf(rest, last);
        lemma_find_crlf_after_line(l, tail);
        assert(u.take(l.len() as int) =~= l);
        assert(u.skip(l.len() as int) =~= tail);
        assert forall|i: int| 0 <= i < rest.len() implies #[trigger] plain_line(rest[i]) by {
            assert(rest[i] == ls[i + 1]);
        }
        lemma_more_header_lines(acc.push(l), rest, last);
        assert(acc.push(l) + rest =~= acc + ls);
    }
}

/// Every line of a header block is read, however many there are: for a block
/// CRLF, l1, CRLF, ..., ln, CRLF, last (each li not empty, not starting with
/// a space character and without a line feed; `last` without a line feed),
/// the lines are the empty text before the first CRLF, then l1 to ln. Only
/// `last`, which no CRLF ends, is not read.
pub proof fn law_header_lines_reads_every_line(ls: Seq<Seq<char>>, last: Seq<char>)
    requires
        forall|i: int| 0 <= i < ls.len() ==> #[trigger] plain_line(ls[i]),
        !last.contains('\n'),
    ensures
        header_lines(header_block_tail(ls, last)) == Some(seq![Seq::<char>::empty()] + ls),
{
    let t = header_block_tail(ls, last);
    lemma_tail_starts_with_crlf(ls, last);
    assert(t.subrange(0, 2) =~= t.take(2));
    lemma_find_from_first(t, crlf(), 0, 0);
    assert(t.take(0) =~= Seq::<char>::empty());
    assert(t.skip(0) =~= t);
    lemma_more_header_lines(seq![Seq::<char>::empty()], ls, last);
}

/// A header line as a name and a value. A line without ':' is a name with an
/// empty value; otherwise the name is the text before the first ": " and the
/// value the text after it, up to the next ": ". A line with ':' but no ": "
/// has no reading.
pub open spec fn header_pair(h: Seq<char>) -> Option<(Seq<char>, Seq<char>)> {
    if !h.contains(':') {
        Some((h, Seq::empty()))
    } else {
        match find(h, colon_space()) {
            None => None,
            Some(i) => {
                let rest = h.skip(i + 2);
                Some(
                    (
                        h.take(i),
                        match find(rest, colon_space()) {
                            Some(j) => rest.take(j),
                            None => rest,
                        },
                    ),
                )
            },
        }
    }
}

/// The headers named by the lines, later lines winning; none when a line has
/// no reading.
pub open spec fn headers_map(lines: Seq<Seq<char>>) -> Option<Map<Seq<char>, Seq<char>>>
    decreases lines.len(),
{
    if lines.len() == 0 {
        Some(Map::empty())
    } else {
        match (headers_map(lines.drop_last()), header_pair(lines.last())) {
            (Some(m), Some(p)) => Some(m.insert(p.0, p.1)),
            _ => None,
        }
    }
}

/// A request, as plain values.
pub struct RequestView {
    pub method: Method,
    pub path: Seq<char>,
    pub headers: Map<Seq<char>, Seq<char>>,
    pub body: Seq<char>,
}

/// The request that `parse` reads from `s`:
/// the method is the text before the first space; the path is the text after
/// that space up to the next space on the same line (the line ends at the first
/// CRLF after the method); the header block runs from that CRLF to the first
/// blank line (CRLF CRLF) after it; the body is what follows the blank line,
/// or the blank line itself when nothing follows it.
pub open spec fn parse_request_spec(s: Seq<char>) -> Option<RequestView> {
    match find(s, seq![' ']) {
        None => None,
        Some(a) => match method_from_name(s.take(a)) {
            None => None,
            Some(method) => {
                let r1 = s.skip(a + 1);
                match find(r1, crlf()) {
                    None => None,
                    Some(b) => {
                        let line = r1.take(b);
                        let r2 = r1.skip(b);
                        match find(line, seq![' ']) {
                            None => None,
                            Some(c) => match find(r2, blank_line()) {
                                None => None,
                                Some(d) => {
                                    let r3 = r2.skip(d);
                                    match header_lines(r2.take(d)) {
                                        None => None,
                                        Some(lines) => match headers_map(lines) {
                                            None => None,
                                            Some(h) => Some(
                                                RequestView {
                                                    method,
                                                    path: line.take(c),
                                                    headers: h,
                                                    body: if r3.len() > 4 { r3.skip(4) } else { r3 },
                                                },
                                            ),
                                        },
                                    }
                                },
                            },
                        }
                    },
                }
            },
        },
    }
}

/// The number of leading space characters of `s`.
fn count_leading_spaces(s: &[char]) -> (r: usize)
    ensures
        r == leading_spaces(s@),
        r <= s@.len(),
{
    let mut i: usize = 0;
    assert(s@.skip(0) =~= s@);
    while i < s.len() && (s[i] == ' ' || s[i] == '\t' || s[i] == '\r' || s[i] == '\n')
        invariant
            i <= s@.len(),
            leading_spaces(s@) == i + leading_spaces(s@.skip(i as int)),
        decreases s@.len() - i,
    {
        assert(s@.skip(i as int).drop_first() =~= s@.skip(i + 1));
        i = i + 1;
    }
    if i < s.len() {
        assert(s@.skip(i as int)[0] == s@[i as int]);
    }
    i
}

/// The header lines of the block `t`, or `None` when it has no CRLF.
fn split_header_lines(t: &[char]) -> (r: Option<Vec<Vec<char>>>)
    ensures
        r matches Some(v) ==> header_lines(t@) == Some(v@.map_values(|l: Vec<char>| l@)),
        r is None ==> header_lines(t@) is None,
{
    let crlf_chars = vec!['\r', '\n'];
    let k = match find_chars(t, crlf_chars.as_slice()) {
        None => {
            return None;
        },
        Some(k) => k,
    };
    proof {
        lemma_find_bounds(t@, crlf(), 0);
    }
    let mut acc: Vec<Vec<char>> = Vec::new();
    acc.push(slice_to_vec(slice_subrange(t, 0, k)));
    let mut rest = slice_subrange(t, k, t.len());
    assert(acc@.map_values(|l: Vec<char>| l@) =~= seq![t@.take(k as int)]);
    loop
        invariant
            crlf_chars@ == crlf(),
            header_lines(t@) == Some(more_header_lines(acc@.map_values(|l: Vec<char>| l@), rest@)),
        decreases rest@.len(),
    {
        let w = count_leading_spaces(rest);
        if w == 0 {
            return Some(acc);
        }
        let t1 = slice_subrange(rest, w, rest.len());
        assert(t1@ =~= rest@.skip(w as int));
        match find_chars(t1, crlf_chars.as_slice()) {
            None => {
                return Some(acc);
            },
            Some(k) => {
                proof {
                    lemma_find_bounds(t1@, crlf(), 0);
                }
                let ghost before = acc@.map_values(|l: Vec<char>| l@);
                acc.push(slice_to_vec(slice_subrange(t1, 0, k)));
                assert(acc@.map_values(|l: Vec<char>| l@) =~= before.push(t1@.take(k as int)));
                rest = slice_subrange(t1, k, t1.len());
                assert(rest@ =~= t1@.skip(k as int));
            },
        }
    }
}


/// Whether `c` occurs in `s`.
fn contains_char(s: &[char], c: char) -> (r: bool)
    ensures
        r == s@.contains(c),
{
    let mut i: usize = 0;
    while i < s.len()
        invariant
            i <= s@.len(),
            forall|j: int| 0 <= j < i ==> s@[j] != c,
        decreases s@.len() - i,
    {
        if s[i] == c {
            return true;
        }
        i = i + 1;
    }
    false
}

/// The name and value of a header line, as `header_pair` reads it.
fn split_header(h: &[char]) -> (r: Option<(String, String)>)
    ensures
        r matches Some(p) ==> header_pair(h@) == Some((p.0@, p.1@)),
        r is None ==> header_pair(h@) is None,
{
    if !contains_char(h, ':') {
        let name = string_from_chars(h);
        let value = String::new();
        return Some((name, value));
    }
    let sep = vec![':', ' '];
    assert(sep@ =~= colon_space());
    match find_chars(h, sep.as_slice()) {
        None => None,
        Some(i) => {
            proof {
                lemma_find_bounds(h@, colon_space(), 0);
            }
            assert(i + 2 <= h.len());
            let name = string_from_chars(slice_subrange(h, 0, i));
            let rest = slice_subrange(h, i + 2, h.len());
            assert(rest@ =~= h@.skip(i + 2));
            let value = match find_chars(rest, sep.as_slice()) {
                Some(j) => {
                    proof {
                        lemma_find_bounds(rest@, colon_space(), 0);
                    }
                    string_from_chars(slice_subrange(rest, 0, j))
                },
                None => string_from_chars(rest),
            };
            Some((name, value))
        },
    }
}

/// When a prefix of the lines has no reading, neither have the lines.
proof fn lemma_headers_map_prefix(ls: Seq<Seq<char>>, j: int)
    requires
        0 <= j <= ls.len(),
        headers_map(ls.take(j)) is None,
    ensures
        headers_map(ls) is None,
    decreases ls.len(),
{
    if j == ls.len() {
        assert(ls.take(j) =~= ls);
    } else {
        assert(ls.drop_last().take(j) =~= ls.take(j));
        lemma_headers_map_prefix(ls.drop_last(), j);
    }
}

/// The headers named by the lines, or `None` when a line has no reading.
fn collect_headers(lines: &Vec<Vec<char>>) -> (r: Option<Headers>)
    ensures
        r matches Some(h) ==> headers_map(lines@.map_values(|l: Vec<char>| l@)) == Some(h@),
        r is None ==> headers_map(lines@.map_values(|l: Vec<char>| l@)) is None,
{
    let ghost ls = lines@.map_values(|l: Vec<char>| l@);
    let mut headers = Headers::new();
    let mut i: usize = 0;
    assert(ls.take(0) =~= Seq::<Seq<char>>::empty());
    while i < lines.len()
        invariant
            ls == lines@.map_values(|l: Vec<char>| l@),
            i <= lines@.len(),
            headers_map(ls.take(i as int)) == Some(headers@),
        decreases lines@.len() - i,
    {
        assert(ls.take(i + 1).drop_last() =~= ls.take(i as int));
        assert(ls.take(i + 1).last() == lines@[i as int]@);
        match split_header(lines[i].as_slice()) {
            None => {
                proof {
                    lemma_headers_map_prefix(ls, i + 1);
                }
                return None;
            },
            Some(p) => {
                let (k, v) = p;
                headers.insert(k, v);
            },
        }
        i = i + 1;
    }
    assert(ls.take(i as int) =~= ls);
    Some(headers)
}

/// An HTTP request.
#[derive(Debug)]
pub struct Request {
    pub method: Method,
    pub path: String,
    pub headers: Headers,
    pub body: String,
}

impl View for Request {
    type V = RequestView;

    open spec fn view(&self) -> RequestView {
        RequestView { method: self.method, path: self.path@, headers: self.headers@, body: self.body@ }
    }
}

impl Request {
    /// Reads a request from its text, as `parse_request_spec` describes; `None`
    /// when the text does not have that shape or names an unknown method.
    pub fn parse(input: &str) -> (r: Option<Request>)
        ensures
            r matches Some(req) ==> parse_request_spec(input@) == Some(req@),
            r is None ==> parse_request_spec(input@) is None,
    {
        let chars = chars_of(input);
        let s = chars.as_slice();
        let space = vec![' '];
        let crlf_chars = vec!['\r', '\n'];
        let blank = vec!['\r', '\n', '\r', '\n'];
        assert(space@ =~= seq![' ']);
        assert(crlf_chars@ =~= crlf());
        assert(blank@ =~= blank_line());
        assert(s@ == input@);
        proof {
            lemma_find_bounds(s@, seq![' '], 0);
        }
        let a = match find_chars(s, space.as_slice()) {
            None => {
                return None;
            },
            Some(a) => a,
        };
        let method = match method_from_chars(slice_subrange(s, 0, a)) {
            None => {
                return None;
            },
            Some(m) => m,
        };
        assert(a + 1 <= s.len());
        let r1 = slice_subrange(s, a + 1, s.len());
        assert(r1@ =~= s@.skip(a + 1));
        proof {
            lemma_find_bounds(r1@, crlf(), 0);
        }
        let b = match find_chars(r1, crlf_chars.as_slice()) {
            None => {
                return None;
            },
            Some(b) => b,
        };
        let line = slice_subrange(r1, 0, b);
        let r2 = slice_subrange(r1, b, r1.len());
        assert(r2@ =~= r1@.skip(b as int));
        proof {
            lemma_find_bounds(line@, seq![' '], 0);
            lemma_find_bounds(r2@, blank_line(), 0);
        }
        let c = match find_chars(line, space.as_slice()) {
            None => {
                return None;
            },
            Some(c) => c,
        };
        let d = match find_chars(r2, blank.as_slice()) {
            None => {
                return None;
            },
            Some(d) => d,
        };
        let r3 = slice_subrange(r2, d, r2.len());
        assert(r3@ =~= r2@.skip(d as int));
        let lines = match split_header_lines(slice_subrange(r2, 0, d)) {
            None => {
                return None;
            },
            Some(lines) => lines,
        };
        let headers = match collect_headers(&lines) {
            None => {
                return None;
            },
            Some(h) => h,
        };
        let path = string_from_chars(slice_subrange(line, 0, c));
        let body = if r3.len() > 4 {
            let rest = slice_subrange(r3, 4, r3.len());
            assert(rest@ =~= r3@.skip(4));
            string_from_chars(rest)
        } else {
            string_from_chars(r3)
        };
        Some(Request { method, path, headers, body })
    }
}


/// The status codes that the servers send.
#[derive(Debug, Clone, Copy)]
pub enum StatusCode {
    OK,
    BadRequest,
    NotFound,
    InternalServerError,
}

/// The number of a status code.
pub open spec fn status_number(s: StatusCode) -> u16 {
    match s {
        StatusCode::OK => 200,
        StatusCode::BadRequest => 400,
        StatusCode::NotFound => 404,
        StatusCode::InternalServerError => 500,
    }
}

/// The reason phrase of a status code.
pub open spec fn reason_phrase(s: StatusCode) -> Seq<char> {
    match s {
        StatusCode::OK => "OK"@,
        StatusCode::BadRequest => "Bad Request"@,
        StatusCode::NotFound => "Not Found"@,
        StatusCode::InternalServerError => "Internal Server Error"@,
    }
}

impl StatusCode {
    /// The number of the status code.
    pub fn code(&self) -> (r: u16)
        ensures
            r == status_number(*self),
    {
        match self {
            StatusCode::OK => 200,
            StatusCode::BadRequest => 400,
            StatusCode::NotFound => 404,
            StatusCode::InternalServerError => 500,
        }
    }

    /// The status as text: the number, a space and the reason phrase
    /// (for example "404 Not Found").
    pub fn to_string(&self) -> (r: String)
        ensures
            r@ == decimal(status_number(*self) as nat) + seq![' '] + reason_phrase(*self),
    {
        let mut r = String::new();
        push_decimal(&mut r, self.code() as u64);
        r.push(' ');
        match self {
            StatusCode::OK => r.append("OK"),
            StatusCode::BadRequest => r.append("Bad Request"),
            StatusCode::NotFound => r.append("Not Found"),
            StatusCode::InternalServerError => r.append("Internal Server Error"),
        }
        assert(r@ =~= decimal(status_number(*self) as nat) + seq![' '] + reason_phrase(*self));
        r
    }
}

/// The header lines of a response: each entry as name, ": ", value, CRLF.
pub open spec fn header_text(es: Seq<(Seq<char>, Seq<char>)>) -> Seq<char>
    decreases es.len(),
{
    if es.len() == 0 {
        Seq::empty()
    } else {
        header_text(es.drop_last()) + es.last().0 + colon_space() + es.last().1 + crlf()
    }
}

/// The text of a response: the version, a space, the status number and CRLF;
/// the header lines; then CRLF CRLF and the body.
pub open spec fn response_text(version: Seq<char>, status: u16, es: Seq<(Seq<char>, Seq<char>)>, body: Seq<char>) -> Seq<char> {
    version + seq![' '] + decimal(status as nat) + crlf() + header_text(es) + blank_line() + body
}

/// The line that writes one header: name, ": ", value, CRLF.
pub open spec fn header_line(e: (Seq<char>, Seq<char>)) -> Seq<char> {
    e.0 + colon_space() + e.1 + crlf()
}

/// `x` occurs in `t` somewhere between the indices `lo` and `hi`.
pub open spec fn occurs_within(t: Seq<char>, lo: int, hi: int, x: Seq<char>) -> bool {
    exists|p: int| lo <= p && p + x.len() <= hi && #[trigger] t.subrange(p, p + x.len()) == x
}

/// The header lines of consecutive entry lists follow each other.
pub proof fn lemma_header_text_concat(a: Seq<(Seq<char>, Seq<char>)>, b: Seq<(Seq<char>, Seq<char>)>)
    ensures
        header_text(a + b) == header_text(a) + header_text(b),
    decreases b.len(),
{
    if b.len() == 0 {
        assert(a + b =~= a);
        assert(header_text(a) + header_text(b) =~= header_text(a));
    } else {
        lemma_header_text_concat(a, b.drop_last());
        assert((a + b).drop_last() =~= a + b.drop_last());
        assert((a + b).last() == b.last());
        assert(header_text(a + b) =~= header_text(a) + header_text(b));
    }
}

/// Every header is written: the text of a response starts with the status
/// line, ends with the blank line and the body, and between them holds the
/// line of each of the entries, one after another.
pub proof fn law_response_writes_every_header(
    version: Seq<char>,
    status: u16,
    es: Seq<(Seq<char>, Seq<char>)>,
    body: Seq<char>,
)
    ensures
        ({
            let t = response_text(version, status, es, body);
            let sl = version + seq![' '] + decimal(status as nat) + crlf();
            &&& t.len() >= sl.len() + 4 + body.len()
            &&& t.take(sl.len() as int) == sl
            &&& t.skip(t.len() - 4 - body.len()) == blank_line() + body
            &&& forall|i: int| #![trigger es[i]] 0 <= i < es.len()
                ==> occurs_within(t, sl.len() as int, t.len() - 4 - body.len(), header_line(es[i]))
        }),
{
    let t = response_text(version, status, es, body);
    let sl = version + seq![' '] + decimal(status as nat) + crlf();
    let h = header_text(es);
    assert(t =~= sl + h + blank_line() + body);
    assert(t.take(sl.len() as int) =~= sl);
    assert(t.skip(t.len() - 4 - body.len()) =~= blank_line() + body);
    assert forall|i: int| #![trigger es[i]] 0 <= i < es.len()
        implies occurs_within(t, sl.len() as int, t.len() - 4 - body.len(), header_line(es[i])) by {
        let a = es.take(i);
        let b = es.skip(i + 1);
        let l = header_line(es[i]);
        assert(es =~= a + seq![es[i]] + b);
        lemma_header_text_concat(a + seq![es[i]], b);
        lemma_header_text_concat(a, seq![es[i]]);
        assert(seq![es[i]].drop_last() =~= Seq::<(Seq<char>, Seq<char>)>::empty());
        assert(header_text(Seq::<(Seq<char>, Seq<char>)>::empty()) =~= Seq::<char>::empty());
        assert(seq![es[i]].last() == es[i]);
        assert(header_text(seq![es[i]]) == header_text(seq![es[i]].drop_last()) + es[i].0 + colon_space() + es[i].1 + crlf());
        assert(header_text(seq![es[i]]) =~= l);
        assert(h == header_text(a) + l + header_text(b));
        let p: int = (sl.len() + header_text(a).len()) as int;
        assert(t =~= sl + header_text(a) + l + (header_text(b) + blank_line() + body));
        assert(t.subrange(p, p + l.len() as int) =~= l);
    }
}

/// An HTTP response.
#[derive(Debug)]
pub struct Response {
    pub http_version: String,
    pub status: u16,
    pub headers: Headers,
    pub body: String,
}

impl Response {
    /// The default response: "HTTP/1.1", status 200, no headers, no body.
    pub fn new() -> (r: Self)
        ensures
            r.http_version@ == "HTTP/1.1"@,
            r.status == 200,
            r.headers.entries_view() == Seq::<(Seq<char>, Seq<char>)>::empty(),
            r.body@ == Seq::<char>::empty(),
    {
        Self::default()
    }

    /// The response as text, the header lines in the order of the entries.
    pub fn as_string(&self) -> (r: String)
        ensures
            r@ == response_text(self.http_version@, self.status, self.headers.entries_view(), self.body@),
            keys_distinct(self.headers.entries_view()),
            entries_map(self.headers.entries_view()) == self.headers@,
    {
        let mut response = String::new();
        response.append(self.http_version.as_str());
        response.push(' ');
        push_decimal(&mut response, self.status as u64);
        response.push('\r');
        response.push('\n');
        let ghost es = self.headers.entries_view();
        let ghost start = response@;
        let n = self.headers.len();
        let mut i: usize = 0;
        assert(es.take(0) =~= Seq::<(Seq<char>, Seq<char>)>::empty());
        assert(start + header_text(es.take(0)) =~= start);
        while i < n
            invariant
                es == self.headers.entries_view(),
                n == es.len(),
                i <= n,
                response@ == start + header_text(es.take(i as int)),
            decreases n - i,
        {
            let (key, value) = self.headers.entry(i);
            response.append(key.as_str());
            response.push(':');
            response.push(' ');
            response.append(value.as_str());
            response.push('\r');
            response.push('\n');
            assert(es.take(i + 1).drop_last() =~= es.take(i as int));
            i = i + 1;
            assert(response@ =~= start + header_text(es.take(i as int)));
        }
        assert(es.take(n as int) =~= es);
        response.push('\r');
        response.push('\n');
        response.push('\r');
        response.push('\n');
        response.append(self.body.as_str());
        assert(response@ =~= response_text(self.http_version@, self.status, es, self.body@));
        response
    }

    /// The UTF-8 bytes of `as_string`.
    pub fn as_bytes(&self) -> (r: Vec<u8>)
        ensures
            r@ == encode_utf8(response_text(self.http_version@, self.status, self.headers.entries_view(), self.body@)),
    {
        let text = self.as_string();
        slice_to_vec(text.as_str().as_bytes())
    }
}

impl Default for Response {
    fn default() -> (r: Self)
        ensures
            r.http_version@ == "HTTP/1.1"@,
            r.status == 200,
            r.headers.entries_view() == Seq::<(Seq<char>, Seq<char>)>::empty(),
            r.body@ == Seq::<char>::empty(),
    {
        Response {
            http_version: String::from_str("HTTP/1.1"),
            status: StatusCode::OK.code(),
            headers: Headers::new(),
            body: String::new(),
        }
    }
}

} // verus!
