//! HTTP: the head of a request and the course of a connection.

use vstd::prelude::*;
#[allow(unused_imports)]
use vstd::utf8::encode_utf8;

#[allow(unused_imports)]
use crate::text::trimmed;
use crate::text::trim;
#[allow(unused_imports)]
use crate::vectorizer::{decimal_value, is_digit};

verus! {

/// How many headers a request may have.
pub const MAX_HEADERS: usize = 24;

/// How many bytes of requests a connection holds.
pub const READ_BUF_SIZE: usize = 4096;

// ── The head of a request ────────────────────────────────────────────────────

/// What the crate `httparse` finds at the start of a buffer, with room for `MAX_HEADERS` headers:
/// the length of a complete request head and its headers by name and value, or nothing where the
/// head is incomplete or malformed.
pub uninterp spec fn request_head(buf: Seq<u8>) -> Option<(nat, Seq<(Seq<u8>, Seq<u8>)>)>;

/// Headers by name and value.
pub open spec fn fields(headers: Seq<(Vec<u8>, Vec<u8>)>) -> Seq<(Seq<u8>, Seq<u8>)> {
    headers.map_values(|h: (Vec<u8>, Vec<u8>)| (h.0@, h.1@))
}

/// Parses the head of a request by `Request::parse` of the crate `httparse`: the result is the
/// length of the head, which is at least one byte and within the buffer, and the headers in
/// order, or nothing where the parser reports an incomplete head or an error. The parser reads
/// from the first byte on and stops behind the empty line that ends a head, so that a head that
/// it finds stays the same whatever bytes follow.
#[verifier::external_body]
fn parse_request(buf: &[u8]) -> (r: Option<(usize, Vec<(Vec<u8>, Vec<u8>)>)>)
    ensures
        match r {
            Some(head) => request_head(buf@) == Some((head.0 as nat, fields(head.1@))),
            None => request_head(buf@) is None,
        },
        r matches Some(head) ==> 0 < head.0 <= buf@.len(),
        r is Some ==> forall|more: Seq<u8>| #[trigger]
            request_head(buf@ + more) == request_head(buf@),
{
    let mut headers = [httparse::EMPTY_HEADER; MAX_HEADERS];
    let mut req = httparse::Request::new(&mut headers);
    match req.parse(buf) {
        Ok(httparse::Status::Complete(end)) => Some(
            (end, req.headers.iter().map(|h| (h.name.as_bytes().to_vec(), h.value.to_vec())).collect()),
        ),
        Ok(httparse::Status::Partial) => None,
        Err(_) => None,
    }
}

pub open spec fn lower(b: u8) -> u8 {
    if 0x41 <= b <= 0x5A {
        (b + 0x20) as u8
    } else {
        b
    }
}

/// Equal but for the case of ASCII letters.
pub open spec fn same_ignoring_case(a: Seq<u8>, b: Seq<u8>) -> bool {
    a.len() == b.len() && forall|i: int| 0 <= i < a.len() ==> lower(#[trigger] a[i]) == lower(b[i])
}

fn eq_ignore_case(a: &[u8], b: &[u8]) -> (r: bool)
    ensures
        r == same_ignoring_case(a@, b@),
{
    if a.len() != b.len() {
        return false;
    }
    let mut i: usize = 0;
    while i < a.len()
        invariant
            i <= a.len(),
            a.len() == b.len(),
            forall|j: int| 0 <= j < i ==> lower(#[trigger] a@[j]) == lower(b@[j]),
        decreases a.len() - i,
    {
        if to_lower(a[i]) != to_lower(b[i]) {
            return false;
        }
        i = i + 1;
    }
    true
}

fn to_lower(b: u8) -> (r: u8)
    ensures
        r == lower(b),
{
    if 0x41 <= b && b <= 0x5A {
        b + 0x20
    } else {
        b
    }
}

// ── Content-Length ───────────────────────────────────────────────────────────

/// The digits behind a plus sign that may stand before them.
pub open spec fn without_plus(b: Seq<u8>) -> Seq<u8> {
    if b.len() > 0 && b[0] == 0x2B {
        b.skip(1)
    } else {
        b
    }
}

pub open spec fn all_digits(b: Seq<u8>) -> bool {
    b.len() > 0 && forall|i: int| 0 <= i < b.len() ==> is_digit(#[trigger] b[i])
}

/// The length that a header states: decimal digits, behind a plus sign or not, within white
/// space. Zero where it states something else, or a number too large for `usize`.
pub open spec fn stated_length(value: Seq<u8>) -> nat {
    let digits = without_plus(trimmed(value));
    if all_digits(digits) && decimal_value(digits) <= usize::MAX {
        decimal_value(digits)
    } else {
        0
    }
}

/// The length that the first header of that name states; zero where there is none.
pub open spec fn content_length(headers: Seq<(Seq<u8>, Seq<u8>)>) -> nat
    decreases headers.len(),
{
    if headers.len() == 0 {
        0
    } else if same_ignoring_case(headers[0].0, encode_utf8("content-length"@)) {
        stated_length(headers[0].1)
    } else {
        content_length(headers.skip(1))
    }
}

/// A header asks to close the connection after the response.
pub open spec fn asks_to_close(headers: Seq<(Seq<u8>, Seq<u8>)>) -> bool {
    exists|i: int|
        0 <= i < headers.len() && same_ignoring_case(
            (#[trigger] headers[i]).0,
            encode_utf8("connection"@),
        ) && same_ignoring_case(headers[i].1, encode_utf8("close"@))
}

/// The length that a header value states.
pub fn parse_length(value: &[u8]) -> (r: usize)
    ensures
        r == stated_length(value@),
{
    let (start, end) = trim(value);
    let ghost core = value@.subrange(start as int, end as int);
    let mut at: usize = start;
    if start < end && value[start] == 0x2B {
        at = start + 1;
    }
    assert(value@.subrange(at as int, end as int) =~= without_plus(core));
    number(value, at, end)
}

/// The number that digits stand for; zero where there are none, something else is among them, or
/// it is too large.
fn number(b: &[u8], start: usize, end: usize) -> (r: usize)
    requires
        start <= end <= b.len(),
    ensures
        ({
            let digits = b@.subrange(start as int, end as int);
            r == if all_digits(digits) && decimal_value(digits) <= usize::MAX {
                decimal_value(digits)
            } else {
                0
            }
        }),
{
    let ghost digits = b@.subrange(start as int, end as int);
    if start == end {
        return 0;
    }
    let mut acc: usize = 0;
    let mut i: usize = start;
    while i < end
        invariant
            start <= i <= end <= b.len(),
            start < end,
            digits == b@.subrange(start as int, end as int),
            forall|j: int| 0 <= j < i - start ==> is_digit(#[trigger] digits[j]),
            acc == decimal_value(digits.take(i - start)),
        decreases end - i,
    {
        let d = b[i];
        assert(digits[i - start] == d);
        if d < 0x30 || d > 0x39 {
            assert(!is_digit(digits[i - start]));
            return 0;
        }
        proof {
            assert(digits.take(i - start + 1).drop_last() =~= digits.take(i - start));
            assert(digits.take(i - start + 1).last() == d);
        }
        let wide: u128 = acc as u128 * 10 + (d - 0x30) as u128;
        if wide > usize::MAX as u128 {
            proof {
                lemma_more_digits(digits, i - start + 1);
            }
            return 0;
        }
        acc = wide as usize;
        i = i + 1;
    }
    assert(digits.take(digits.len() as int) =~= digits);
    acc
}

/// More digits make no smaller number.
proof fn lemma_more_digits(digits: Seq<u8>, n: int)
    requires
        0 <= n <= digits.len(),
    ensures
        all_digits(digits) ==> decimal_value(digits.take(n)) <= decimal_value(digits),
    decreases digits.len() - n,
{
    if all_digits(digits) {
        if n < digits.len() {
            lemma_more_digits(digits, n + 1);
            assert(digits.take(n + 1).drop_last() =~= digits.take(n));
            assert(is_digit(digits[n]));
            assert(digits.take(n + 1).last() == digits[n]);
        } else {
            assert(digits.take(n) =~= digits);
        }
    }
}

/// The length that the headers state and whether they ask to close the connection.
pub fn head_facts(headers: &Vec<(Vec<u8>, Vec<u8>)>) -> (r: (usize, bool))
    ensures
        r.0 == content_length(fields(headers@)),
        r.1 == asks_to_close(fields(headers@)),
{
    (first_length(headers), wants_close(headers))
}

fn first_length(headers: &Vec<(Vec<u8>, Vec<u8>)>) -> (r: usize)
    ensures
        r == content_length(fields(headers@)),
{
    let ghost all = fields(headers@);
    let name = "content-length".as_bytes();
    let mut i: usize = 0;
    assert(all.skip(0) =~= all);
    while i < headers.len()
        invariant
            i <= headers@.len(),
            all == fields(headers@),
            name@ == encode_utf8("content-length"@),
            content_length(all) == content_length(all.skip(i as int)),
        decreases headers.len() - i,
    {
        let header = &headers[i];
        assert(all.skip(i as int)[0] == all[i as int]);
        if eq_ignore_case(header.0.as_slice(), name) {
            return parse_length(header.1.as_slice());
        }
        assert(all.skip(i as int).skip(1) =~= all.skip(i + 1));
        i = i + 1;
    }
    0
}

fn wants_close(headers: &Vec<(Vec<u8>, Vec<u8>)>) -> (r: bool)
    ensures
        r == asks_to_close(fields(headers@)),
{
    let ghost all = fields(headers@);
    let connection = "connection".as_bytes();
    let close = "close".as_bytes();
    let mut i: usize = 0;
    while i < headers.len()
        invariant
            i <= headers@.len(),
            all == fields(headers@),
            connection@ == encode_utf8("connection"@),
            close@ == encode_utf8("close"@),
            forall|j: int|
                0 <= j < i ==> !(same_ignoring_case(
                    (#[trigger] all[j]).0,
                    encode_utf8("connection"@),
                ) && same_ignoring_case(all[j].1, encode_utf8("close"@))),
        decreases headers.len() - i,
    {
        let header = &headers[i];
        assert(all[i as int] == (header.0@, header.1@));
        if eq_ignore_case(header.0.as_slice(), connection) && eq_ignore_case(
            header.1.as_slice(),
            close,
        ) {
            return true;
        }
        i = i + 1;
    }
    false
}

/// The head at the start of a buffer: its length, the length of the body, and whether the
/// connection is to be closed.
pub open spec fn head_of(buf: Seq<u8>) -> Option<(nat, nat, bool)> {
    match request_head(buf) {
        Some(head) => Some((head.0, content_length(head.1), asks_to_close(head.1))),
        None => None,
    }
}

/// A head with its numbers as mathematical integers.
pub open spec fn head_view(head: Option<(usize, usize, bool)>) -> Option<(nat, nat, bool)> {
    match head {
        Some(h) => Some((h.0 as nat, h.1 as nat, h.2)),
        None => None,
    }
}

/// A buffer starts with a head: it lies within the buffer, and whatever bytes follow leave it the
/// same.
pub open spec fn starts_with_head(buf: Seq<u8>) -> bool {
    &&& head_of(buf) matches Some(h) && 0 < h.0 <= buf.len()
    &&& forall|more: Seq<u8>| #[trigger] head_of(buf + more) == head_of(buf)
}

/// Parses the head of a request. Returns the length of the head, the length of the body, and
/// whether the connection is to be closed.
pub fn parse_head(buf: &[u8]) -> (r: Option<(usize, usize, bool)>)
    ensures
        head_view(r) == head_of(buf@),
        r matches Some(head) ==> 0 < head.0 <= buf@.len(),
        r is Some ==> starts_with_head(buf@),
{
    match parse_request(buf) {
        Some((end, headers)) => {
            let (content_length, is_close) = head_facts(&headers);
            assert forall|more: Seq<u8>| #[trigger] head_of(buf@ + more) == head_of(buf@) by {
                assert(request_head(buf@ + more) == request_head(buf@));
            }
            Some((end, content_length, is_close))
        },
        None => None,
    }
}

// ── The course of a connection ───────────────────────────────────────────────

/// What a connection waits for or does next.
#[derive(Clone, Copy, Debug, PartialEq, Eq, Structural)]
pub enum Action {
    /// Read up to `limit` more bytes. An interrupted read is tried again only between requests.
    Read { limit: usize, in_body: bool },
    /// Answer the request that takes the first `body_end` bytes, with the body from `header_end`.
    Serve { header_end: usize, body_end: usize, close: bool },
    /// Drop the connection.
    Close,
}

/// A request whose head is complete.
#[derive(Clone, Copy, Debug, PartialEq, Eq, Structural)]
pub struct Pending {
    pub header_end: usize,
    pub body_end: usize,
    pub close: bool,
}

/// What to do with `len` bytes that start with this head: a head that fills the buffer without
/// an end and a request larger than the buffer are dropped.
pub open spec fn planned(len: nat, head: Option<(nat, nat, bool)>) -> Action {
    match head {
        None => if len >= READ_BUF_SIZE {
            Action::Close
        } else {
            Action::Read { limit: (READ_BUF_SIZE - len) as usize, in_body: false }
        },
        Some(h) => {
            let body_end = h.0 + h.1;
            if len >= body_end {
                Action::Serve {
                    header_end: h.0 as usize,
                    body_end: body_end as usize,
                    close: h.2,
                }
            } else if body_end > READ_BUF_SIZE {
                Action::Close
            } else {
                Action::Read { limit: (body_end - len) as usize, in_body: true }
            }
        },
    }
}

/// Decides what to do with `len` bytes that start with this head.
pub fn plan(len: usize, head: Option<(usize, usize, bool)>) -> (r: Action)
    ensures
        r == planned(len as nat, head_view(head)),
{
    match head {
        None => if len >= READ_BUF_SIZE {
            Action::Close
        } else {
            Action::Read { limit: READ_BUF_SIZE - len, in_body: false }
        },
        Some((header_end, content_length, close)) => {
            if len >= header_end && len - header_end >= content_length {
                Action::Serve { header_end, body_end: header_end + content_length, close }
            } else if header_end > READ_BUF_SIZE || content_length > READ_BUF_SIZE - header_end {
                Action::Close
            } else {
                Action::Read { limit: header_end + content_length - len, in_body: true }
            }
        },
    }
}

/// The bytes that a connection has received and not yet answered.
pub struct Connection {
    pub buffer: Vec<u8>,
    pub pending: Option<Pending>,
}

impl Connection {
    /// The buffer is within its size, and a request that is waited for fits into it.
    pub open spec fn well_formed(&self) -> bool {
        &&& self.buffer@.len() <= READ_BUF_SIZE
        &&& self.pending matches Some(p) ==> p.header_end <= p.body_end <= READ_BUF_SIZE
    }

    pub fn new() -> (r: Self)
        ensures
            r.well_formed(),
            r.buffer@ == Seq::<u8>::empty(),
            r.pending is None,
    {
        Self { buffer: Vec::new(), pending: None }
    }

    /// What to do next: a request whose head is known waits for its body or is served; otherwise
    /// the bytes decide.
    pub open spec fn next_spec(&self) -> Action {
        match self.pending {
            Some(p) => if self.buffer@.len() < p.body_end {
                Action::Read {
                    limit: (p.body_end - self.buffer@.len()) as usize,
                    in_body: true,
                }
            } else {
                Action::Serve { header_end: p.header_end, body_end: p.body_end, close: p.close }
            },
            None => planned(self.buffer@.len(), head_of(self.buffer@)),
        }
    }

    /// `after` is the connection after `action` was decided on: a head that waits for its body is
    /// remembered, and nothing else changes. A head that was found stays the same whatever bytes
    /// follow.
    pub open spec fn decides(&self, action: Action, after: Connection) -> bool {
        &&& action == self.next_spec()
        &&& after.buffer@ == self.buffer@
        &&& match self.pending {
            Some(p) => after.pending == Some(p),
            None => {
                &&& head_of(self.buffer@) is Some ==> starts_with_head(self.buffer@)
                &&& after.pending == match (head_of(self.buffer@), action) {
                    (Some(h), Action::Read { .. }) => Some(
                        Pending {
                            header_end: h.0 as usize,
                            body_end: (h.0 + h.1) as usize,
                            close: h.2,
                        },
                    ),
                    _ => None,
                }
            },
        }
    }

    /// Decides what to do next, and remembers a head that waits for its body.
    pub fn next_action(&mut self) -> (r: Action)
        requires
            old(self).well_formed(),
        ensures
            old(self).decides(r, *final(self)),
            final(self).well_formed(),
            r matches Action::Read { limit, in_body } ==> 0 < limit && final(self).buffer@.len()
                + limit <= READ_BUF_SIZE && in_body == final(self).pending is Some,
            r matches Action::Serve { header_end, body_end, close } ==> header_end <= body_end
                <= final(self).buffer@.len(),
    {
        let len = self.buffer.len();
        match self.pending {
            Some(p) => {
                if len < p.body_end {
                    Action::Read { limit: p.body_end - len, in_body: true }
                } else {
                    Action::Serve {
                        header_end: p.header_end,
                        body_end: p.body_end,
                        close: p.close,
                    }
                }
            },
            None => {
                let head = parse_head(self.buffer.as_slice());
                let action = plan(len, head);
                match (head, action) {
                    (Some((header_end, content_length, close)), Action::Read { .. }) => {
                        let body_end: usize = header_end + content_length;
                        self.pending = Some(Pending { header_end, body_end, close });
                    },
                    _ => {},
                }
                action
            },
        }
    }

    /// Takes in bytes that were read.
    pub fn received(&mut self, bytes: &[u8])
        requires
            old(self).well_formed(),
            old(self).buffer@.len() + bytes.len() <= READ_BUF_SIZE,
        ensures
            final(self).well_formed(),
            final(self).buffer@ == old(self).buffer@ + bytes@,
            final(self).pending == old(self).pending,
    {
        self.buffer.extend_from_slice(bytes);
    }

    /// Drops the request that was answered; what follows it stays.
    pub fn served(&mut self, body_end: usize)
        requires
            old(self).well_formed(),
            body_end <= old(self).buffer@.len(),
        ensures
            final(self).well_formed(),
            final(self).buffer@ == old(self).buffer@.skip(body_end as int),
            final(self).pending is None,
    {
        let mut rest: Vec<u8> = Vec::new();
        let mut i: usize = body_end;
        while i < self.buffer.len()
            invariant
                body_end <= i <= self.buffer@.len(),
                rest@ == self.buffer@.subrange(body_end as int, i as int),
                self.buffer@ == old(self).buffer@,
            decreases self.buffer.len() - i,
        {
            rest.push(self.buffer[i]);
            assert(self.buffer@.subrange(body_end as int, i + 1) =~= self.buffer@.subrange(
                body_end as int,
                i as int,
            ).push(self.buffer@[i as int]));
            i = i + 1;
        }
        assert(rest@ =~= self.buffer@.skip(body_end as int));
        self.buffer = rest;
        self.pending = None;
    }
}

/// Bytes that arrive while a body is awaited do not change the head, and once the body is there
/// the request is served: its bytes and what follows make up all that was received.
pub proof fn law_body_completes_request(c: Connection, arrived: Seq<u8>)
    requires
        c.well_formed(),
        c.pending is Some,
        c.buffer@.len() + arrived.len() >= c.pending->0.body_end,
        c.buffer@.len() + arrived.len() <= READ_BUF_SIZE,
    ensures
        forall|after: Connection|
            after.buffer@ == c.buffer@ + arrived && after.pending == c.pending ==> {
                let p = c.pending->0;
                &&& #[trigger] after.next_spec() == (Action::Serve {
                    header_end: p.header_end,
                    body_end: p.body_end,
                    close: p.close,
                })
                &&& after.buffer@.take(p.body_end as int) + after.buffer@.skip(p.body_end as int)
                    == c.buffer@ + arrived
            },
{
    assert forall|after: Connection|
        after.buffer@ == c.buffer@ + arrived && after.pending == c.pending implies {
        let p = c.pending->0;
        &&& #[trigger] after.next_spec() == (Action::Serve {
            header_end: p.header_end,
            body_end: p.body_end,
            close: p.close,
        })
        &&& after.buffer@.take(p.body_end as int) + after.buffer@.skip(p.body_end as int)
            == c.buffer@ + arrived
    } by {
        let p = c.pending->0;
        assert(after.buffer@.take(p.body_end as int) + after.buffer@.skip(p.body_end as int)
            =~= after.buffer@);
    }
}

} // verus!
