use vstd::prelude::*;
use crate::util::{decimal_text, push_decimal};
use crate::text::{
    chars_of, find_char, lemma_count_before_bound, lemma_split_first, lines, next_line, split,
    substring, trim, trim_range,
};

verus! {

/// Carriage return.
pub const CR: u8 = 13;

/// Line feed.
pub const LF: u8 = 10;

/// Whether the four bytes ending at position `k` of `s` are `\r\n\r\n`.
pub open spec fn is_mark_end(s: Seq<u8>, k: int) -> bool {
    4 <= k <= s.len() && s[k - 4] == CR && s[k - 3] == LF && s[k - 2] == CR && s[k - 1] == LF
}

/// No end-of-header mark ends at any position up to and including `k`.
pub open spec fn no_mark_through(s: Seq<u8>, k: int) -> bool {
    forall|j: int| 0 <= j <= k ==> !#[trigger] is_mark_end(s, j)
}

/// `k` is the length of the header block of `s`: the first mark ends there.
pub open spec fn is_header_len(s: Seq<u8>, k: int) -> bool {
    is_mark_end(s, k) && no_mark_through(s, k - 1)
}

/// How much of the mark the tail of `s` already matches (a mark not yet complete).
pub open spec fn partial_match(s: Seq<u8>) -> nat {
    let n = s.len();
    if n >= 3 && s[n - 3] == CR && s[n - 2] == LF && s[n - 1] == CR {
        3
    } else if n >= 2 && s[n - 2] == CR && s[n - 1] == LF {
        2
    } else if n >= 1 && s[n - 1] == CR {
        1
    } else {
        0
    }
}

/// Incremental scanner that finds the end of a request header in a byte
/// stream read in arbitrary chunks, consuming nothing past the mark.
pub struct HeaderScanner {
    progress: usize,
    header: Vec<u8>,
    complete: bool,
}

impl HeaderScanner {
    /// The bytes consumed so far.
    pub closed spec fn consumed(&self) -> Seq<u8> {
        self.header@
    }

    /// Whether the end-of-header mark has been consumed.
    pub closed spec fn done(&self) -> bool {
        self.complete
    }

    pub closed spec fn wf(&self) -> bool {
        &&& no_mark_through(self.header@, self.header@.len() - 1)
        &&& self.complete == is_mark_end(self.header@, self.header@.len() as int)
        &&& !self.complete ==> self.progress == partial_match(self.header@)
    }

    pub fn new() -> (r: Self)
        ensures
            r.wf(),
            r.consumed() == Seq::<u8>::empty(),
            !r.done(),
    {
        HeaderScanner { progress: 0, header: Vec::new(), complete: false }
    }

    /// Consumes bytes of `chunk` up to and including the end-of-header mark,
    /// or all of it when the mark is not reached; returns how many were consumed.
    pub fn feed(&mut self, chunk: &[u8]) -> (n: usize)
        requires
            old(self).wf(),
            !old(self).done(),
        ensures
            final(self).wf(),
            n <= chunk@.len(),
            final(self).consumed() == old(self).consumed() + chunk@.take(n as int),
            !final(self).done() ==> n == chunk@.len(),
            final(self).done() ==> n > 0,
            final(self).done() == is_header_len(
                final(self).consumed(),
                final(self).consumed().len() as int,
            ),
            no_mark_through(final(self).consumed(), final(self).consumed().len() - 1),
    {
        let ghost h0 = self.header@;
        let mut i: usize = 0;
        while i < chunk.len()
            invariant
                i <= chunk@.len(),
                h0 == old(self).header@,
                self.header@ == h0 + chunk@.take(i as int),
                !self.complete,
                no_mark_through(self.header@, self.header@.len() as int),
                self.progress == partial_match(self.header@),
            decreases chunk@.len() - i,
        {
            let b = chunk[i];
            let ghost h = self.header@;
            let expected: u8 = if self.progress == 0 || self.progress == 2 { CR } else { LF };
            if b == expected {
                self.progress = self.progress + 1;
            } else if b == CR {
                self.progress = 1;
            } else {
                self.progress = 0;
            }
            self.header.push(b);
            i = i + 1;
            proof {
                let h2 = self.header@;
                assert(h2 == h.push(b));
                assert(chunk@.take(i as int) == chunk@.take(i - 1).push(b));
                assert(h2 == h0 + chunk@.take(i as int));
                assert(h2[h2.len() - 1] == b);
                assert forall|j: int| 0 <= j < h.len() implies h2[j] == h[j] by {}
                assert forall|j: int| 0 <= j <= h.len() implies !#[trigger] is_mark_end(h2, j) by {
                    assert(!is_mark_end(h, j));
                }
            }
            if self.progress == 4 {
                self.complete = true;
                return i;
            }
        }
        assert(chunk@.take(i as int) == chunk@);
        i
    }

    /// Whether the end-of-header mark has been consumed.
    pub fn is_done(&self) -> (r: bool)
        ensures
            r == self.done(),
    {
        self.complete
    }

    /// The consumed bytes: the whole header block once the scan is done.
    pub fn into_header(self) -> (r: Vec<u8>)
        ensures
            r@ == self.consumed(),
    {
        self.header
    }
}

/// Every scan of one stream that completes yields the same header block:
/// the bytes up to and including the first end-of-header mark, however the
/// stream was split into chunks.
pub proof fn lemma_header_independent_of_split(s: Seq<u8>, a: Seq<u8>, b: Seq<u8>)
    requires
        a.len() <= s.len(),
        b.len() <= s.len(),
        a == s.take(a.len() as int),
        b == s.take(b.len() as int),
        is_header_len(a, a.len() as int),
        is_header_len(b, b.len() as int),
    ensures
        a == b,
        is_header_len(s, a.len() as int),
{
    if a.len() < b.len() {
        assert(is_mark_end(b, a.len() as int));
    } else if b.len() < a.len() {
        assert(is_mark_end(a, b.len() as int));
    }
    assert forall|j: int| 0 <= j <= a.len() - 1 implies !#[trigger] is_mark_end(s, j) by {
        if is_mark_end(s, j) {
            assert(is_mark_end(a, j));
        }
    }
}

/// The lines of a request head: those before the first empty line.
pub open spec fn head_lines(ls: Seq<Seq<char>>) -> Seq<Seq<char>>
    decreases ls.len(),
{
    if ls.len() == 0 || ls[0].len() == 0 {
        seq![]
    } else {
        seq![ls[0]] + head_lines(ls.drop_first())
    }
}

/// A header line `name: value`, both trimmed; the value ends at a second colon.
pub open spec fn parse_header_line(l: Seq<char>) -> Option<(Seq<char>, Seq<char>)> {
    let ps = split(l, ':');
    if ps.len() < 2 {
        None
    } else {
        Some((trim(ps[0]), trim(ps[1])))
    }
}

/// The headers of the given lines in order, or the first line that is not a header.
pub open spec fn parse_headers(ls: Seq<Seq<char>>) -> Result<
    Seq<(Seq<char>, Seq<char>)>,
    Seq<char>,
>
    decreases ls.len(),
{
    if ls.len() == 0 {
        Ok(seq![])
    } else {
        match parse_headers(ls.drop_last()) {
            Err(e) => Err(e),
            Ok(v) => match parse_header_line(ls.last()) {
                None => Err(ls.last()),
                Some(h) => Ok(v.push(h)),
            },
        }
    }
}

/// Why a request head was rejected.
#[derive(Debug, Clone, PartialEq, Eq)]
pub enum ParseHttpError {
    /// There is no start line.
    EmptyStartLine,
    /// The start line has no path.
    MissingPath,
    /// The start line has no protocol version.
    MissingVersion,
    /// This line of the head is not `name: value`.
    InvalidHeader(String),
}

/// The value of an error, as `parse_request` states it.
pub enum HttpErrorView {
    EmptyStartLine,
    MissingPath,
    MissingVersion,
    InvalidHeader(Seq<char>),
}

impl ParseHttpError {
    pub open spec fn view(&self) -> HttpErrorView {
        match self {
            ParseHttpError::EmptyStartLine => HttpErrorView::EmptyStartLine,
            ParseHttpError::MissingPath => HttpErrorView::MissingPath,
            ParseHttpError::MissingVersion => HttpErrorView::MissingVersion,
            ParseHttpError::InvalidHeader(l) => HttpErrorView::InvalidHeader(l@),
        }
    }
}

/// A request head: the start line's first three space-separated words and
/// the headers in order; nothing after the first empty line is read.
pub open spec fn parse_request(raw: Seq<char>) -> Result<
    (Seq<char>, Seq<char>, Seq<char>, Seq<(Seq<char>, Seq<char>)>),
    HttpErrorView,
> {
    let hl = head_lines(lines(raw));
    if hl.len() == 0 {
        Err(HttpErrorView::EmptyStartLine)
    } else {
        let sl = split(hl[0], ' ');
        if sl.len() < 2 {
            Err(HttpErrorView::MissingPath)
        } else if sl.len() < 3 {
            Err(HttpErrorView::MissingVersion)
        } else {
            match parse_headers(hl.drop_first()) {
                Err(l) => Err(HttpErrorView::InvalidHeader(l)),
                Ok(h) => Ok((sl[0], sl[1], sl[2], h)),
            }
        }
    }
}

proof fn lemma_head_lines_cons(x: Seq<char>, rest: Seq<Seq<char>>)
    ensures
        head_lines(seq![x] + rest) == if x.len() == 0 {
            Seq::<Seq<char>>::empty()
        } else {
            seq![x] + head_lines(rest)
        },
{
    let l = seq![x] + rest;
    assert(l[0] == x);
    assert(l.drop_first() == rest);
}

proof fn lemma_headers_err_prefix(ls: Seq<Seq<char>>, n: int)
    requires
        0 <= n <= ls.len(),
        parse_headers(ls.take(n)) is Err,
    ensures
        parse_headers(ls) == parse_headers(ls.take(n)),
    decreases ls.len() - n,
{
    if n < ls.len() {
        assert(ls.take(n + 1).drop_last() == ls.take(n));
        lemma_headers_err_prefix(ls, n + 1);
    } else {
        assert(ls.take(n) == ls);
    }
}

/// A parsed request head.
pub struct HttpRequest {
    pub method: String,
    pub path: String,
    pub protocol: String,
    pub headers: Vec<(String, String)>,
}

pub open spec fn headers_view(hs: Seq<(String, String)>) -> Seq<(Seq<char>, Seq<char>)> {
    hs.map_values(|h: (String, String)| (h.0@, h.1@))
}

/// Parses the header line in characters `a..b` of `s`.
fn parse_header_at(s: &str, cs: &Vec<char>, a: usize, b: usize) -> (r: Option<(String, String)>)
    requires
        cs@ == s@,
        a <= b <= cs@.len(),
    ensures
        parse_header_line(cs@.subrange(a as int, b as int)) == match r {
            Some(h) => Some((h.0@, h.1@)),
            None => None::<(Seq<char>, Seq<char>)>,
        },
{
    let ghost l = cs@.subrange(a as int, b as int);
    let c1 = find_char(cs, ':', a, b);
    proof {
        lemma_count_before_bound(l, ':');
    }
    if c1 == b {
        return None;
    }
    let c2 = find_char(cs, ':', c1 + 1, b);
    proof {
        let t = l.skip(c1 - a + 1);
        assert(t == cs@.subrange(c1 + 1, b as int));
        lemma_count_before_bound(t, ':');
        assert(l.take(c1 - a) == cs@.subrange(a as int, c1 as int));
        if c2 < b {
            assert(t.take(c2 - c1 - 1) == cs@.subrange(c1 + 1, c2 as int));
        } else {
            assert(t == cs@.subrange(c1 + 1, c2 as int));
        }
        lemma_split_first(l, ':');
        lemma_split_first(t, ':');
        assert(split(l, ':')[1] == split(t, ':')[0]);
    }
    let (ka, kb) = trim_range(cs, a, c1);
    let (va, vb) = trim_range(cs, c1 + 1, c2);
    Some((substring(s, ka, kb), substring(s, va, vb)))
}

/// Parses the start line in characters `0..le` of `s` into its first three
/// space-separated words.
fn parse_start_line(s: &str, cs: &Vec<char>, le: usize) -> (r: Result<
    (String, String, String),
    ParseHttpError,
>)
    requires
        cs@ == s@,
        le <= cs@.len(),
    ensures
        ({
            let sl = split(cs@.subrange(0, le as int), ' ');
            match r {
                Ok((m, p, v)) => sl.len() >= 3 && sl[0] == m@ && sl[1] == p@ && sl[2] == v@,
                Err(e) => (sl.len() < 2 && e == ParseHttpError::MissingPath) || (sl.len() == 2
                    && e == ParseHttpError::MissingVersion),
            }
        }),
{
    let ghost first = cs@.subrange(0, le as int);
    let e1 = find_char(cs, ' ', 0, le);
    proof {
        lemma_split_first(first, ' ');
        lemma_count_before_bound(first, ' ');
    }
    if e1 == le {
        return Err(ParseHttpError::MissingPath);
    }
    let ghost t1 = first.skip(e1 + 1 as int);
    assert(t1 == cs@.subrange(e1 + 1, le as int));
    let e2 = find_char(cs, ' ', e1 + 1, le);
    proof {
        lemma_split_first(t1, ' ');
        lemma_count_before_bound(t1, ' ');
    }
    if e2 == le {
        return Err(ParseHttpError::MissingVersion);
    }
    let ghost t2 = t1.skip(e2 - e1);
    assert(t2 == cs@.subrange(e2 + 1, le as int));
    let e3 = find_char(cs, ' ', e1 + 1 + (e2 - e1), le);
    proof {
        lemma_split_first(t2, ' ');
        lemma_count_before_bound(t2, ' ');
        lemma_split_first(t2.skip(e3 - e2), ' ');
        let sl = split(first, ' ');
        assert(first.take(e1 as int) == cs@.subrange(0, e1 as int));
        assert(t1.take(e2 - e1 - 1) == cs@.subrange(e1 + 1, e2 as int));
        assert(t2.take(e3 - e2 - 1) == cs@.subrange(e2 + 1, e3 as int));
        assert(sl[1] == split(t1, ' ')[0]);
        assert(sl[2] == split(t1, ' ').drop_first()[0]);
        assert(sl[2] == split(t2, ' ')[0]);
    }
    Ok((substring(s, 0, e1), substring(s, e1 + 1, e2), substring(s, e2 + 1, e3)))
}

/// The value of the last header named `k`, if any.
pub open spec fn header_value(hs: Seq<(Seq<char>, Seq<char>)>, k: Seq<char>) -> Option<Seq<char>>
    decreases hs.len(),
{
    if hs.len() == 0 {
        None
    } else if hs.last().0 == k {
        Some(hs.last().1)
    } else {
        header_value(hs.drop_last(), k)
    }
}

impl HttpRequest {
    /// The value of header `name`; the last one when it is repeated.
    pub fn header(&self, name: &str) -> (r: Option<&str>)
        ensures
            header_value(headers_view(self.headers@), name@) == match r {
                Some(v) => Some(v@),
                None => None::<Seq<char>>,
            },
    {
        let key = String::from_str(name);
        let ghost hs = headers_view(self.headers@);
        let mut i = self.headers.len();
        assert(hs.take(i as int) == hs);
        while i > 0
            invariant
                hs == headers_view(self.headers@),
                i <= self.headers@.len(),
                key@ == name@,
                header_value(hs, name@) == header_value(hs.take(i as int), name@),
            decreases i,
        {
            assert(hs.take(i as int).drop_last() == hs.take(i - 1));
            assert(hs.take(i as int).last() == hs[i - 1]);
            if self.headers[i - 1].0 == key {
                return Some(self.headers[i - 1].1.as_str());
            }
            i = i - 1;
        }
        None
    }

    /// Parses a request head; see `parse_request` for what is accepted.
    pub fn parse(raw: &str) -> (r: Result<HttpRequest, ParseHttpError>)
        ensures
            r matches Ok(q) ==> parse_request(raw@) == Ok::<
                (Seq<char>, Seq<char>, Seq<char>, Seq<(Seq<char>, Seq<char>)>),
                HttpErrorView,
            >((q.method@, q.path@, q.protocol@, headers_view(q.headers@))),
            r matches Err(e) ==> parse_request(raw@) == Err::<
                (Seq<char>, Seq<char>, Seq<char>, Seq<(Seq<char>, Seq<char>)>),
                HttpErrorView,
            >(e.view()),
    {
        let cs = chars_of(raw);
        let n = cs.len();
        assert(cs@.subrange(0, n as int) == cs@);
        if n == 0 {
            return Err(ParseHttpError::EmptyStartLine);
        }
        let (le, next) = next_line(&cs, 0, n);
        if le == 0 {
            return Err(ParseHttpError::EmptyStartLine);
        }
        let ghost first = cs@.subrange(0, le as int);
        let ghost hl = head_lines(lines(raw@));
        proof {
            lemma_head_lines_cons(first, lines(cs@.subrange(next as int, n as int)));
            assert(hl.drop_first() == head_lines(lines(cs@.subrange(next as int, n as int))));
        }
        let (method, path, protocol) = match parse_start_line(raw, &cs, le) {
            Ok(t) => t,
            Err(e) => return Err(e),
        };
        // headers, up to the first empty line
        let mut headers: Vec<(String, String)> = Vec::new();
        let mut pos = next;
        let mut finished = false;
        let ghost mut done: Seq<Seq<char>> = seq![];
        assert(headers_view(headers@) == Seq::<(Seq<char>, Seq<char>)>::empty());
        assert(parse_request(raw@) == match parse_headers(hl.drop_first()) {
            Err(l) => Err(HttpErrorView::InvalidHeader(l)),
            Ok(h) => Ok((method@, path@, protocol@, h)),
        });
        while pos < n && !finished
            invariant
                parse_request(raw@) == match parse_headers(hl.drop_first()) {
                    Err(l) => Err(HttpErrorView::InvalidHeader(l)),
                    Ok(h) => Ok((method@, path@, protocol@, h)),
                },
                cs@ == raw@,
                n == cs@.len(),
                pos <= n,
                hl == head_lines(lines(raw@)),
                hl.len() >= 1,
                !finished ==> hl.drop_first() == done + head_lines(
                    lines(cs@.subrange(pos as int, n as int)),
                ),
                finished ==> hl.drop_first() == done,
                parse_headers(done) == Ok::<Seq<(Seq<char>, Seq<char>)>, Seq<char>>(
                    headers_view(headers@),
                ),
            decreases n - pos + (if finished { 0int } else { 1int }),
        {
            let (hle, hnext) = next_line(&cs, pos, n);
            let ghost line = cs@.subrange(pos as int, hle as int);
            proof {
                lemma_head_lines_cons(line, lines(cs@.subrange(hnext as int, n as int)));
            }
            if hle == pos {
                assert(line.len() == 0);
                finished = true;
            } else {
                proof {
                    assert(hl.drop_first().take(done.len() + 1 as int) == done.push(line));
                    assert(done.push(line).drop_last() == done);
                }
                match parse_header_at(raw, &cs, pos, hle) {
                    None => {
                        proof {
                            lemma_headers_err_prefix(hl.drop_first(), done.len() + 1 as int);
                        }
                        return Err(ParseHttpError::InvalidHeader(substring(raw, pos, hle)));
                    },
                    Some(h) => {
                        let ghost before = headers@;
                        headers.push(h);
                        proof {
                            assert(headers@.drop_last() == before);
                            assert(headers_view(headers@) == headers_view(before).push(
                                (h.0@, h.1@),
                            ));
                            done = done.push(line);
                            assert(hl.drop_first() == done + head_lines(
                                lines(cs@.subrange(hnext as int, n as int)),
                            ));
                        }
                    },
                }
                pos = hnext;
            }
        }
        if !finished {
            assert(lines(cs@.subrange(pos as int, n as int)) == Seq::<Seq<char>>::empty());
            assert(done + Seq::<Seq<char>>::empty() == done);
        }
        Ok(HttpRequest { method, path, protocol, headers })
    }
}

/// The body sent when a resource is absent.
pub fn not_found_body() -> (r: &'static str)
    ensures
        r@ == "NOT FOUND"@,
        r@.len() == 9,
{
    proof {
        reveal_strlit("NOT FOUND");
    }
    "NOT FOUND"
}

/// The path a request names, relative to the resource root: the request
/// path without its leading slash, if it has one.
pub fn relative_path(req_path: &str) -> (r: &str)
    ensures
        r@ == if req_path@.len() > 0 && req_path@[0] == '/' {
            req_path@.drop_first()
        } else {
            req_path@
        },
{
    let n = req_path.unicode_len();
    if n > 0 && req_path.get_char(0) == '/' {
        let r = req_path.substring_char(1, n);
        assert(req_path@.subrange(1, n as int) == req_path@.drop_first());
        r
    } else {
        req_path
    }
}

/// The status line and headers of a response, up to the empty line that ends them.
pub open spec fn response_head_text(found: bool, len: nat) -> Seq<char> {
    (if found {
        "HTTP/1.1 200 OK\r\n"@
    } else {
        "HTTP/1.1 404 Not Found\r\n"@
    }) + "Content-Length: "@ + decimal_text(len) + "\r\n\r\n"@
}

/// The head of the response to a request: `200 OK` with the resource's
/// length when it was found, else `404 Not Found` with the length of the
/// fixed body.
pub fn response_head(found: bool, len: usize) -> (r: String)
    ensures
        r@ == response_head_text(found, if found { len as nat } else { 9 }),
{
    let mut s = if found {
        String::from_str("HTTP/1.1 200 OK\r\n")
    } else {
        String::from_str("HTTP/1.1 404 Not Found\r\n")
    };
    s.append("Content-Length: ");
    let n: u64 = if found { len as u64 } else { not_found_body().unicode_len() as u64 };
    push_decimal(&mut s, n);
    s.append("\r\n\r\n");
    s
}

} // verus!
