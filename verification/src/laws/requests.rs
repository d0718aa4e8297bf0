//! What the bytes of a request say.

use vstd::prelude::*;
#[allow(unused_imports)]
use vstd::utf8::encode_utf8;

#[allow(unused_imports)]
use crate::http::{
    all_digits, asks_to_close, content_length, fields, head_of, head_view, lower, planned, request_head,
    same_ignoring_case, stated_length, without_plus, Action, Connection, Pending, MAX_HEADERS,
    READ_BUF_SIZE,
};
#[allow(unused_imports)]
use crate::responses::{has_prefix, routed, Response, Route};
#[allow(unused_imports)]
use crate::text::{blank_at_end, blank_at_start, is_blank_char, trimmed, trimmed_end, trimmed_start};
#[allow(unused_imports)]
use crate::vectorizer::{decimal_value, is_digit};

verus! {

// ── Names ────────────────────────────────────────────────────────────────────

/// The bytes are those of a word in lower case, but that a letter may be in upper case.
pub open spec fn spells(b: Seq<u8>, word: Seq<u8>) -> bool {
    &&& b.len() == word.len()
    &&& forall|i: int|
        0 <= i < b.len() ==> (#[trigger] b[i]) == word[i] || (0x61 <= word[i] <= 0x7A && b[i]
            == word[i] - 0x20)
}

/// The bytes are `content-length`, in either case.
pub open spec fn is_content_length(name: Seq<u8>) -> bool {
    spells(
        name,
        seq![
            0x63u8, 0x6F, 0x6E, 0x74, 0x65, 0x6E, 0x74, 0x2D, 0x6C, 0x65, 0x6E, 0x67, 0x74, 0x68,
        ],
    )
}

/// The bytes are `connection`, in either case.
pub open spec fn is_connection(name: Seq<u8>) -> bool {
    spells(name, seq![0x63u8, 0x6F, 0x6E, 0x6E, 0x65, 0x63, 0x74, 0x69, 0x6F, 0x6E])
}

/// The bytes are `close`, in either case.
pub open spec fn is_close(value: Seq<u8>) -> bool {
    spells(value, seq![0x63u8, 0x6C, 0x6F, 0x73, 0x65])
}

/// A word in lower case is spelled by what is the same but for case.
proof fn lemma_spells(b: Seq<u8>, word: Seq<u8>)
    requires
        forall|i: int|
            0 <= i < word.len() ==> (0x61 <= #[trigger] word[i] <= 0x7A || word[i] == 0x2D),
    ensures
        same_ignoring_case(b, word) == spells(b, word),
{
    if same_ignoring_case(b, word) {
        assert forall|i: int| 0 <= i < b.len() implies (#[trigger] b[i]) == word[i] || (0x61
            <= word[i] <= 0x7A && b[i] == word[i] - 0x20) by {
            assert(lower(b[i]) == lower(word[i]));
        }
    }
    if spells(b, word) {
        assert forall|i: int| 0 <= i < b.len() implies lower(#[trigger] b[i]) == lower(
            word[i],
        ) by {
            assert(0x61 <= word[i] <= 0x7A || word[i] == 0x2D);
        }
    }
}

proof fn lemma_words(b: Seq<u8>)
    ensures
        same_ignoring_case(b, encode_utf8("content-length"@)) == is_content_length(b),
        same_ignoring_case(b, encode_utf8("connection"@)) == is_connection(b),
        same_ignoring_case(b, encode_utf8("close"@)) == is_close(b),
{
    reveal_strlit("content-length");
    reveal_strlit("connection");
    reveal_strlit("close");
    vstd::utf8::is_ascii_chars_encode_utf8("content-length"@);
    vstd::utf8::is_ascii_chars_encode_utf8("connection"@);
    vstd::utf8::is_ascii_chars_encode_utf8("close"@);
    let a = seq![
        0x63u8, 0x6F, 0x6E, 0x74, 0x65, 0x6E, 0x74, 0x2D, 0x6C, 0x65, 0x6E, 0x67, 0x74, 0x68,
    ];
    let c = seq![0x63u8, 0x6F, 0x6E, 0x6E, 0x65, 0x63, 0x74, 0x69, 0x6F, 0x6E];
    let d = seq![0x63u8, 0x6C, 0x6F, 0x73, 0x65];
    assert(encode_utf8("content-length"@) =~= a);
    assert(encode_utf8("connection"@) =~= c);
    assert(encode_utf8("close"@) =~= d);
    lemma_spells(b, a);
    lemma_spells(b, c);
    lemma_spells(b, d);
}

// ── White space ──────────────────────────────────────────────────────────────

/// The white space among characters: in UTF-8 a character of one byte is a tab, the end of a line
/// or a page, or a space; one of two bytes is the next line or the space without a break; one of
/// three bytes is one of the other spaces and line ends of Unicode.
pub proof fn law_white_space_characters(c: nat)
    ensures
        c < 0x80 ==> (is_blank_char(seq![c as u8]) <==> 0x09 <= c <= 0x0D || c == 0x20),
        0x80 <= c < 0x800 ==> (is_blank_char(seq![(0xC0 + c / 64) as u8, (0x80 + c % 64) as u8])
            <==> c == 0x85 || c == 0xA0),
        0x800 <= c < 0x1_0000 ==> (is_blank_char(
            seq![(0xE0 + c / 4096) as u8, (0x80 + c / 64 % 64) as u8, (0x80 + c % 64) as u8],
        ) <==> c == 0x1680 || 0x2000 <= c <= 0x200A || c == 0x2028 || c == 0x2029 || c == 0x202F || c
            == 0x205F || c == 0x3000),
{
    if 0x80 <= c < 0x800 {
        let b = seq![(0xC0 + c / 64) as u8, (0x80 + c % 64) as u8];
        assert(b[0] == 0xC0 + c / 64 && b[1] == 0x80 + c % 64);
    } else if 0x800 <= c < 0x1_0000 {
        let b = seq![(0xE0 + c / 4096) as u8, (0x80 + c / 64 % 64) as u8, (0x80 + c % 64) as u8];
        assert(b[0] == 0xE0 + c / 4096 && b[1] == 0x80 + c / 64 % 64 && b[2] == 0x80 + c % 64);
        assert(c == 4096 * (c / 4096) + 64 * (c / 64 % 64) + c % 64);
    }
}

/// A white-space character before or behind a text is dropped.
pub proof fn law_blank_characters_are_dropped(w: Seq<u8>, b: Seq<u8>)
    requires
        is_blank_char(w),
    ensures
        trimmed(w + b) == trimmed(b),
        trimmed(b + w) == trimmed(b),
{
    let front = w + b;
    assert(front.take(w.len() as int) =~= w);
    assert(front.take(1)[0] == w[0]);
    if w.len() >= 2 {
        assert(front.take(2)[0] == w[0] && front.take(2)[1] == w[1]);
    }
    assert(blank_at_start(front) == w.len());
    assert(front.skip(w.len() as int) =~= b);
    lemma_start_before_blank(w, b);
    let x = trimmed_start(b);
    let y = x + w;
    assert(y.skip(y.len() - w.len()) =~= w);
    assert(y.skip(y.len() - 1)[0] == w.last());
    if w.len() >= 2 {
        assert(y.skip(y.len() - 2)[0] == w[w.len() - 2]);
        assert(y.skip(y.len() - 2)[1] == w.last());
    }
    assert(blank_at_end(y) == w.len());
    assert(y.take(y.len() - w.len()) =~= x);
    if x.len() == 0 {
        assert(trimmed_start(b + w) =~= x);
    }
}

/// A space, a tab or the end of a line before or behind a text is dropped.
pub proof fn law_white_space_is_dropped(c: u8, b: Seq<u8>)
    requires
        0x09 <= c <= 0x0D || c == 0x20,
    ensures
        trimmed(seq![c] + b) == trimmed(b),
        trimmed(b.push(c)) == trimmed(b),
{
    law_blank_characters_are_dropped(seq![c], b);
    assert(b + seq![c] =~= b.push(c));
}

proof fn lemma_start_before_blank(w: Seq<u8>, b: Seq<u8>)
    requires
        is_blank_char(w),
    ensures
        trimmed_start(b).len() > 0 ==> trimmed_start(b + w) == trimmed_start(b) + w,
        trimmed_start(b).len() == 0 ==> trimmed_start(b + w).len() == 0,
    decreases b.len(),
{
    let p = b + w;
    if b.len() == 0 {
        assert(p =~= w);
        assert(w.take(w.len() as int) =~= w);
        assert(w.take(1)[0] == w[0]);
        if w.len() >= 2 {
            assert(w.take(2)[0] == w[0]);
        }
        assert(blank_at_start(w) == w.len());
        let rest = w.skip(w.len() as int);
        assert(rest.len() == 0);
        assert(blank_at_start(rest) == 0);
        assert(trimmed_start(rest) == rest);
    } else {
        assert(p.take(1) =~= b.take(1));
        if b.len() >= 2 {
            assert(p.take(2) =~= b.take(2));
        } else {
            assert(p.take(2)[1] == w[0]);
            if p.len() >= 3 {
                assert(p.take(3)[1] == w[0]);
            }
        }
        if b.len() >= 3 {
            assert(p.take(3) =~= b.take(3));
        } else if b.len() == 2 {
            assert(p.take(3)[2] == w[0]);
        }
        assert(blank_at_start(p) == blank_at_start(b));
        let k = blank_at_start(b);
        if k > 0 {
            assert(p.skip(k) =~= b.skip(k) + w);
            lemma_start_before_blank(w, b.skip(k));
        }
    }
}

/// A text that starts and ends with a visible ASCII character stays as it is.
pub proof fn law_visible_text_stays(b: Seq<u8>)
    requires
        b.len() > 0,
        0x21 <= b[0] <= 0x7F,
        0x21 <= b.last() <= 0x7F,
    ensures
        trimmed(b) == b,
{
    assert(b.take(1)[0] == b[0]);
    assert(b.skip(b.len() - 1)[0] == b.last());
    if b.len() >= 2 {
        assert(b.take(2)[0] == b[0]);
        assert(b.skip(b.len() - 2)[1] == b.last());
    }
    if b.len() >= 3 {
        assert(b.take(3)[0] == b[0]);
        assert(b.skip(b.len() - 3)[2] == b.last());
    }
    assert(blank_at_start(b) == 0 && blank_at_end(b) == 0);
}

/// What is left without white space at its ends has none: there is nothing more to drop.
pub proof fn law_trimming_leaves_nothing_to_drop(b: Seq<u8>)
    ensures
        trimmed(trimmed(b)) == trimmed(b),
        trimmed(b).len() <= b.len(),
{
    lemma_trimmed_start_stops(b);
    lemma_trimmed_end_stops(trimmed_start(b));
}

proof fn lemma_trimmed_start_stops(b: Seq<u8>)
    ensures
        blank_at_start(trimmed_start(b)) == 0,
        trimmed_start(b).len() <= b.len(),
    decreases b.len(),
{
    if blank_at_start(b) != 0 {
        lemma_trimmed_start_stops(b.skip(blank_at_start(b)));
    }
}

proof fn lemma_trimmed_end_stops(b: Seq<u8>)
    ensures
        blank_at_end(trimmed_end(b)) == 0,
        trimmed_end(b).len() <= b.len(),
        blank_at_start(b) == 0 ==> blank_at_start(trimmed_end(b)) == 0,
    decreases b.len(),
{
    let k = blank_at_end(b);
    if k != 0 {
        let h = b.take(b.len() - k);
        if h.len() >= 1 {
            assert(h.take(1) =~= b.take(1));
        }
        if h.len() >= 2 {
            assert(h.take(2) =~= b.take(2));
        }
        if h.len() >= 3 {
            assert(h.take(3) =~= b.take(3));
        }
        lemma_trimmed_end_stops(h);
    }
}

// ── Lengths ──────────────────────────────────────────────────────────────────

/// The number that decimal digits stand for.
pub open spec fn number_of(digits: Seq<u8>) -> int {
    digits.fold_left(0int, |n: int, b: u8| 10 * n + (b - 0x30))
}

proof fn lemma_number_of(digits: Seq<u8>)
    requires
        forall|i: int| 0 <= i < digits.len() ==> 0x30 <= #[trigger] digits[i] <= 0x39,
    ensures
        number_of(digits) == decimal_value(digits),
    decreases digits.len(),
{
    if digits.len() > 0 {
        let h = digits.drop_last();
        assert forall|i: int| 0 <= i < h.len() implies 0x30 <= #[trigger] h[i] <= 0x39 by {
            assert(h[i] == digits[i]);
        }
        lemma_number_of(h);
        assert(0x30 <= digits[digits.len() - 1] <= 0x39);
    }
}

/// A value of digits, with or without a plus sign before them, states their number, or nothing
/// where it is too large.
pub proof fn law_digits_state_their_number(digits: Seq<u8>)
    requires
        digits.len() > 0,
        forall|i: int| 0 <= i < digits.len() ==> 0x30 <= #[trigger] digits[i] <= 0x39,
    ensures
        number_of(digits) <= usize::MAX ==> stated_length(digits) == number_of(digits),
        number_of(digits) > usize::MAX ==> stated_length(digits) == 0,
        stated_length(seq![0x2Bu8] + digits) == stated_length(digits),
{
    lemma_number_of(digits);
    assert(0x30 <= digits[0] <= 0x39 && 0x30 <= digits[digits.len() - 1] <= 0x39);
    law_visible_text_stays(digits);
    assert(all_digits(digits));
    let plus = seq![0x2Bu8] + digits;
    law_visible_text_stays(plus);
    assert(plus.skip(1) =~= digits);
}

/// A value states what it states without the white space around it.
pub proof fn law_length_is_that_of_trimmed_value(value: Seq<u8>)
    ensures
        stated_length(trimmed(value)) == stated_length(value),
{
    law_trimming_leaves_nothing_to_drop(value);
}

/// White space around a value does not matter.
pub proof fn law_lengths_ignore_white_space(c: u8, value: Seq<u8>)
    requires
        0x09 <= c <= 0x0D || c == 0x20,
    ensures
        stated_length(seq![c] + value) == stated_length(value),
        stated_length(value.push(c)) == stated_length(value),
{
    law_white_space_is_dropped(c, value);
}

/// A value without white space at its ends that holds anything but digits behind its first
/// character, or that starts with neither a digit nor a plus sign, states nothing; nor does an
/// empty value or a plus sign alone.
pub proof fn law_other_values_state_nothing(value: Seq<u8>, i: int)
    requires
        trimmed(value) == value,
        value.len() == 0 || value == seq![0x2Bu8] || (0 <= i < value.len() && !(0x30 <= value[i]
            <= 0x39) && (i > 0 || value[i] != 0x2B)),
    ensures
        stated_length(value) == 0,
{
    if value.len() > 0 {
        let digits = without_plus(value);
        if value[0] == 0x2B {
            if value.len() > 1 {
                assert(digits[i - 1] == value[i]);
                assert(!is_digit(digits[i - 1]));
            } else {
                assert(value.skip(1).len() == 0);
            }
        } else {
            assert(!is_digit(digits[i]));
        }
    }
}

/// The first header of the name `content-length`, in either case, states the length of the body,
/// whatever the other headers are; without one there is no body.
pub proof fn law_first_content_length_counts(headers: Seq<(Seq<u8>, Seq<u8>)>, i: int)
    requires
        0 <= i <= headers.len(),
        i < headers.len() ==> is_content_length(headers[i].0),
        forall|j: int| 0 <= j < i ==> !is_content_length((#[trigger] headers[j]).0),
    ensures
        i < headers.len() ==> content_length(headers) == stated_length(headers[i].1),
        i == headers.len() ==> content_length(headers) == 0,
    decreases headers.len(),
{
    if headers.len() > 0 {
        lemma_words(headers[0].0);
        if i > 0 {
            let rest = headers.skip(1);
            assert(!is_content_length(headers[0].0));
            assert forall|j: int| 0 <= j < i - 1 implies !is_content_length(
                (#[trigger] rest[j]).0,
            ) by {
                assert(!is_content_length(headers[j + 1].0));
            }
            law_first_content_length_counts(rest, i - 1);
        }
    }
}

/// If one header is named `content-length` and its value is the decimal digits of a number, that
/// number is the length of the body, whatever the other headers are and wherever they stand.
pub proof fn law_content_length_is_the_number(headers: Seq<(Seq<u8>, Seq<u8>)>, i: int)
    requires
        0 <= i < headers.len(),
        is_content_length(headers[i].0),
        forall|j: int|
            0 <= j < headers.len() && j != i ==> !is_content_length((#[trigger] headers[j]).0),
        headers[i].1.len() > 0,
        forall|k: int|
            0 <= k < headers[i].1.len() ==> 0x30 <= (#[trigger] headers[i].1[k]) <= 0x39,
        headers[i].1.fold_left(0int, |n: int, b: u8| 10 * n + (b - 0x30)) <= usize::MAX,
    ensures
        content_length(headers) == headers[i].1.fold_left(
            0int,
            |n: int, b: u8| 10 * n + (b - 0x30),
        ),
{
    law_first_content_length_counts(headers, i);
    law_digits_state_their_number(headers[i].1);
    assert(number_of(headers[i].1) == headers[i].1.fold_left(
        0int,
        |n: int, b: u8| 10 * n + (b - 0x30),
    ));
}

/// A header of another name changes nothing, wherever it is put in.
pub proof fn law_other_headers_change_nothing(
    headers: Seq<(Seq<u8>, Seq<u8>)>,
    at: int,
    other: (Seq<u8>, Seq<u8>),
)
    requires
        0 <= at <= headers.len(),
    ensures
        !is_content_length(other.0) ==> content_length(headers.insert(at, other))
            == content_length(headers),
        !(is_connection(other.0) && is_close(other.1)) ==> asks_to_close(headers.insert(at, other))
            == asks_to_close(headers),
    decreases headers.len(),
{
    let more = headers.insert(at, other);
    lemma_words(other.0);
    lemma_words(other.1);
    if at == 0 {
        assert(more[0] == other);
        assert(more.skip(1) =~= headers);
    } else {
        let rest = headers.skip(1);
        assert(more[0] == headers[0]);
        assert(more.skip(1) =~= rest.insert(at - 1, other));
        law_other_headers_change_nothing(rest, at - 1, other);
    }
    if !(is_connection(other.0) && is_close(other.1)) {
        law_close_is_asked_by_a_header(headers);
        law_close_is_asked_by_a_header(more);
        if asks_to_close(headers) {
            let i = choose|i: int|
                0 <= i < headers.len() && is_connection((#[trigger] headers[i]).0) && is_close(
                    headers[i].1,
                );
            if i < at {
                assert(more[i] == headers[i]);
            } else {
                assert(more[i + 1] == headers[i]);
            }
        }
        if asks_to_close(more) {
            let i = choose|i: int|
                0 <= i < more.len() && is_connection((#[trigger] more[i]).0) && is_close(more[i].1);
            if i < at {
                assert(more[i] == headers[i]);
            } else if i > at {
                assert(more[i] == headers[i - 1]);
            }
        }
    }
}

/// The connection is to be closed exactly if a header is named `connection` and its value is
/// `close`, both in either case.
pub proof fn law_close_is_asked_by_a_header(headers: Seq<(Seq<u8>, Seq<u8>)>)
    ensures
        asks_to_close(headers) <==> exists|i: int|
            0 <= i < headers.len() && is_connection((#[trigger] headers[i]).0) && is_close(
                headers[i].1,
            ),
{
    assert forall|i: int| 0 <= i < headers.len() implies same_ignoring_case(
        (#[trigger] headers[i]).0,
        encode_utf8("connection"@),
    ) == is_connection(headers[i].0) && same_ignoring_case(headers[i].1, encode_utf8("close"@))
        == is_close(headers[i].1) by {
        lemma_words(headers[i].0);
        lemma_words(headers[i].1);
    }
}

/// The head of a buffer is told by the headers that are found in it.
pub proof fn law_head_is_told_by_its_headers(buf: Seq<u8>)
    ensures
        request_head(buf) is None <==> head_of(buf) is None,
        request_head(buf) matches Some(found) ==> (head_of(buf) matches Some(head) && head.0
            == found.0 && head.1 == content_length(found.1) && head.2 == asks_to_close(found.1)),
{
}

// ── Plans ────────────────────────────────────────────────────────────────────

/// A request is answered as soon as its head and body are there, and not before. Until then as
/// many bytes are read as are missing, or as fit into 4096 where the head is not complete; what
/// does not fit is dropped.
pub proof fn law_request_is_answered_when_complete(len: nat, head: nat, body: nat, close: bool)
    requires
        head + body <= usize::MAX,
    ensures
        planned(len, Some((head, body, close))) is Serve <==> len >= head + body,
        planned(len, Some((head, body, close))) is Close <==> len < head + body && head + body
            > 4096,
        len >= head + body ==> planned(len, Some((head, body, close))) == (Action::Serve {
            header_end: head as usize,
            body_end: (head + body) as usize,
            close,
        }),
        planned(len, Some((head, body, close))) matches Action::Read { limit, in_body } ==> in_body
            && limit > 0 && len + limit == head + body,
        planned(len, None) is Close <==> len >= 4096,
        len < 4096 ==> planned(len, None) == (Action::Read {
            limit: (4096 - len) as usize,
            in_body: false,
        }),
{
}

/// A connection goes by the head that it remembers, and else by the head in its buffer.
pub proof fn law_connection_goes_by_its_head(c: Connection)
    ensures
        c.pending is None ==> c.next_spec() == planned(c.buffer@.len(), head_of(c.buffer@)),
        c.pending matches Some(p) ==> p.header_end <= p.body_end <= 4096 ==> c.next_spec()
            == planned(
            c.buffer@.len(),
            Some((p.header_end as nat, (p.body_end - p.header_end) as nat, p.close)),
        ),
{
}

/// A decision leaves the bytes as they are. It remembers where the body of a request starts and
/// ends, and whether it asks to close, exactly if it waits for that body.
pub proof fn law_decision_remembers_the_request(c: Connection, action: Action, after: Connection)
    requires
        c.decides(action, after),
    ensures
        action == c.next_spec(),
        after.buffer@ == c.buffer@,
        c.pending is Some ==> after.pending == c.pending,
        c.pending is None ==> match (head_of(c.buffer@), action) {
            (Some(h), Action::Read { limit, in_body }) => after.pending == Some(
                Pending {
                    header_end: h.0 as usize,
                    body_end: (h.0 + h.1) as usize,
                    close: h.2,
                },
            ),
            _ => after.pending is None,
        },
        MAX_HEADERS == 24,
        READ_BUF_SIZE == 4096,
{
}

// ── Routes ───────────────────────────────────────────────────────────────────

/// The buffer starts with the bytes.
pub open spec fn begins(buf: Seq<u8>, bytes: Seq<u8>) -> bool {
    &&& bytes.len() <= buf.len()
    &&& forall|i: int| 0 <= i < bytes.len() ==> #[trigger] buf[i] == bytes[i]
}

/// A request that starts with `GET /ready` is told whether the service is ready. One that starts
/// with `POST /fraud-score` and has a body is scored. Everything else is not found.
pub proof fn law_requests_are_routed_by_their_start(
    buf: Seq<u8>,
    body_start: int,
    body_end: int,
    ready: bool,
)
    ensures
        ({
            let ask = begins(
                buf,
                seq![0x47u8, 0x45, 0x54, 0x20, 0x2F, 0x72, 0x65, 0x61, 0x64, 0x79],
            );
            let post = begins(
                buf,
                seq![
                    0x50u8,
                    0x4F,
                    0x53,
                    0x54,
                    0x20,
                    0x2F,
                    0x66,
                    0x72,
                    0x61,
                    0x75,
                    0x64,
                    0x2D,
                    0x73,
                    0x63,
                    0x6F,
                    0x72,
                    0x65,
                ],
            );
            let route = routed(buf, body_start, body_end, ready);
            &&& ask && ready ==> route == Route::Fixed(Response::ReadyOk)
            &&& ask && !ready ==> route == Route::Fixed(Response::NotReady)
            &&& route is Score <==> post && body_end > body_start
            &&& !ask && !(post && body_end > body_start) ==> route == Route::Fixed(
                Response::NotFound,
            )
        }),
{
    let (ask, post) = ("GET /ready"@, "POST /fraud-score"@);
    reveal_strlit("GET /ready");
    reveal_strlit("POST /fraud-score");
    vstd::utf8::is_ascii_chars_encode_utf8(ask);
    vstd::utf8::is_ascii_chars_encode_utf8(post);
    lemma_begins(buf, encode_utf8(ask));
    lemma_begins(buf, encode_utf8(post));
    assert(encode_utf8(ask) =~= seq![
        0x47u8, 0x45, 0x54, 0x20, 0x2F, 0x72, 0x65, 0x61, 0x64, 0x79,
    ]);
    assert(encode_utf8(post) =~= seq![
        0x50u8,
        0x4F,
        0x53,
        0x54,
        0x20,
        0x2F,
        0x66,
        0x72,
        0x61,
        0x75,
        0x64,
        0x2D,
        0x73,
        0x63,
        0x6F,
        0x72,
        0x65,
    ]);
    if begins(buf, encode_utf8(ask)) && begins(buf, encode_utf8(post)) {
        assert(buf[0] == encode_utf8(ask)[0] && buf[0] == encode_utf8(post)[0]);
    }
}

proof fn lemma_begins(buf: Seq<u8>, bytes: Seq<u8>)
    ensures
        has_prefix(buf, bytes) == begins(buf, bytes),
{
    if has_prefix(buf, bytes) {
        assert forall|i: int| 0 <= i < bytes.len() implies #[trigger] buf[i] == bytes[i] by {
            assert(buf.take(bytes.len() as int)[i] == bytes[i]);
        }
    }
    if begins(buf, bytes) {
        assert(buf.take(bytes.len() as int) =~= bytes);
    }
}

/// Headers and heads are told by their bytes and numbers as they are.
pub proof fn law_headers_are_told_as_they_are(
    headers: Seq<(Vec<u8>, Vec<u8>)>,
    i: int,
    head: (usize, usize, bool),
)
    ensures
        fields(headers).len() == headers.len(),
        0 <= i < headers.len() ==> fields(headers)[i].0 == headers[i].0@ && fields(headers)[i].1
            == headers[i].1@,
        head_view(Some(head)) == Some((head.0 as nat, head.1 as nat, head.2)),
        head_view(None) is None,
{
}

} // verus!
