//! What a connection answers to a stream of bytes, however the stream is cut into reads.

use vstd::prelude::*;
#[allow(unused_imports)]
use vstd::utf8::encode_utf8;

use crate::http::{Action, Connection};
#[allow(unused_imports)]
use crate::http::{head_of, starts_with_head, READ_BUF_SIZE};
#[allow(unused_imports)]
use crate::responses::{routed, Response, Route};

verus! {

// ── What is answered ─────────────────────────────────────────────────────────

/// The part of a stream that fits into the buffer of a connection.
pub open spec fn in_reach(s: Seq<u8>) -> Seq<u8> {
    if s.len() <= READ_BUF_SIZE {
        s
    } else {
        s.take(READ_BUF_SIZE as int)
    }
}

/// The requests of a stream that are answered, in order, each with the place at which its body
/// starts: from the front, as long as a request is complete and fits into the buffer, up to and
/// with the first that asks to close.
pub open spec fn answers(s: Seq<u8>) -> Seq<(Seq<u8>, nat)>
    decreases s.len(),
{
    match head_of(in_reach(s)) {
        None => seq![],
        Some(h) => {
            let end = h.0 + h.1;
            if end == 0 || end > s.len() || end > READ_BUF_SIZE {
                seq![]
            } else {
                seq![(s.take(end as int), h.0)] + if h.2 {
                    seq![]
                } else {
                    answers(s.skip(end as int))
                }
            }
        },
    }
}

/// The bytes that are written for answered requests, if each gets what `respond` gives for it.
pub open spec fn written(
    answered: Seq<(Seq<u8>, nat)>,
    respond: spec_fn(Seq<u8>, nat) -> Seq<u8>,
) -> Seq<u8>
    decreases answered.len(),
{
    if answered.len() == 0 {
        seq![]
    } else {
        written(answered.drop_last(), respond) + respond(answered.last().0, answered.last().1)
    }
}

// ── The course of a connection ───────────────────────────────────────────────

/// One turn of a connection: what was decided, the connection then, and the connection after the
/// bytes of a read were taken in or a request was answered and dropped.
pub struct Turn {
    pub action: Action,
    pub decided: Connection,
    pub after: Connection,
}

impl Turn {
    /// The bytes that the turn read.
    pub open spec fn arrived(self) -> Seq<u8> {
        match self.action {
            Action::Read { .. } => self.after.buffer@.skip(self.decided.buffer@.len() as int),
            _ => seq![],
        }
    }

    /// The turn follows the connection `before`, and the connection goes on after it: it read at
    /// least one byte and at most as many as it asked for, or it answered a request that does
    /// not ask to close.
    pub open spec fn follows(self, before: Connection) -> bool {
        &&& before.decides(self.action, self.decided)
        &&& match self.action {
            Action::Read { limit, .. } => {
                &&& self.after.buffer@ == self.decided.buffer@ + self.arrived()
                &&& 0 < self.arrived().len() <= limit
                &&& self.after.pending == self.decided.pending
            },
            Action::Serve { body_end, close, .. } => {
                &&& !close
                &&& self.after.buffer@ == self.decided.buffer@.skip(body_end as int)
                &&& self.after.pending is None
            },
            Action::Close => false,
        }
    }
}

/// The connection after some turns.
pub open spec fn state_after(start: Connection, turns: Seq<Turn>) -> Connection {
    if turns.len() == 0 {
        start
    } else {
        turns.last().after
    }
}

/// Each turn follows the one before.
pub open spec fn is_course(start: Connection, turns: Seq<Turn>) -> bool
    decreases turns.len(),
{
    turns.len() == 0 || (is_course(start, turns.drop_last()) && turns.last().follows(
        state_after(start, turns.drop_last()),
    ))
}

/// All bytes that the turns read.
pub open spec fn arrived(turns: Seq<Turn>) -> Seq<u8>
    decreases turns.len(),
{
    if turns.len() == 0 {
        seq![]
    } else {
        arrived(turns.drop_last()) + turns.last().arrived()
    }
}

/// The request that an action answers, if any.
pub open spec fn answer_of(action: Action, c: Connection) -> Seq<(Seq<u8>, nat)> {
    match action {
        Action::Serve { header_end, body_end, .. } => seq![
            (c.buffer@.take(body_end as int), header_end as nat),
        ],
        _ => seq![],
    }
}

/// The requests that the turns answer.
pub open spec fn answered(turns: Seq<Turn>) -> Seq<(Seq<u8>, nat)>
    decreases turns.len(),
{
    if turns.len() == 0 {
        seq![]
    } else {
        answered(turns.drop_last()) + answer_of(turns.last().action, turns.last().decided)
    }
}

/// The course ends with the decision `last`: to read where the stream has ended, to answer a
/// request that asks to close, or to close.
pub open spec fn ends(
    start: Connection,
    turns: Seq<Turn>,
    last: Action,
    end: Connection,
    stream: Seq<u8>,
) -> bool {
    &&& state_after(start, turns).decides(last, end)
    &&& match last {
        Action::Read { .. } => arrived(turns) == stream,
        Action::Serve { close, .. } => close && arrived(turns).is_prefix_of(stream),
        Action::Close => arrived(turns).is_prefix_of(stream),
    }
}

/// A head that is waited for is the one at the start of the buffer, whatever bytes follow.
spec fn pending_is_head(c: Connection) -> bool {
    c.pending matches Some(p) ==> {
        &&& 0 < p.header_end <= p.body_end <= READ_BUF_SIZE
        &&& forall|more: Seq<u8>| #[trigger]
            head_of(c.buffer@ + more) == Some(
                (p.header_end as nat, (p.body_end - p.header_end) as nat, p.close),
            )
    }
}

/// The bytes in reach of a longer stream start with the buffer.
proof fn lemma_in_reach(b: Seq<u8>, left: Seq<u8>) -> (more: Seq<u8>)
    requires
        b.len() <= READ_BUF_SIZE,
    ensures
        in_reach(b + left) == b + more,
        left.len() == 0 ==> more.len() == 0,
{
    let s = b + left;
    let more = in_reach(s).skip(b.len() as int);
    assert(in_reach(s) =~= b + more);
    more
}

/// What a decision says about the stream that starts with the buffer.
proof fn lemma_decision(before: Connection, action: Action, after: Connection, left: Seq<u8>)
    requires
        before.well_formed(),
        pending_is_head(before),
        before.decides(action, after),
    ensures
        pending_is_head(after),
        match action {
            Action::Read { .. } => left.len() == 0 ==> answers(before.buffer@ + left) == Seq::<
                (Seq<u8>, nat),
            >::empty(),
            Action::Serve { header_end, body_end, close } => {
                &&& header_end <= body_end <= before.buffer@.len()
                &&& answers(before.buffer@ + left) == answer_of(action, after) + if close {
                    seq![]
                } else {
                    answers(before.buffer@.skip(body_end as int) + left)
                }
            },
            Action::Close => answers(before.buffer@ + left) == Seq::<(Seq<u8>, nat)>::empty(),
        },
{
    let b = before.buffer@;
    let s = b + left;
    let more = lemma_in_reach(b, left);
    assert(b + Seq::<u8>::empty() =~= b);
    match before.pending {
        Some(p) => {
            assert(head_of(b + more) == Some(
                (p.header_end as nat, (p.body_end - p.header_end) as nat, p.close),
            ));
        },
        None => {
            if head_of(b) is Some {
                assert(head_of(b + more) == head_of(b));
            } else if left.len() == 0 {
                assert(more =~= Seq::<u8>::empty());
            } else if b.len() >= READ_BUF_SIZE {
                assert(in_reach(s) =~= b);
            }
        },
    }
    if let Action::Serve { body_end, .. } = action {
        assert(s.take(body_end as int) =~= b.take(body_end as int));
        assert(s.skip(body_end as int) =~= b.skip(body_end as int) + left);
    }
}

/// What was answered and what is left to answer are the answers to the whole stream.
proof fn lemma_course(start: Connection, turns: Seq<Turn>, stream: Seq<u8>)
    requires
        start.buffer@.len() == 0,
        start.pending is None,
        is_course(start, turns),
        arrived(turns).is_prefix_of(stream),
    ensures
        ({
            let c = state_after(start, turns);
            let left = stream.skip(arrived(turns).len() as int);
            &&& c.well_formed()
            &&& pending_is_head(c)
            &&& answered(turns) + answers(c.buffer@ + left) == answers(stream)
        }),
    decreases turns.len(),
{
    let c = state_after(start, turns);
    let left = stream.skip(arrived(turns).len() as int);
    if turns.len() == 0 {
        assert(c.buffer@ + left =~= stream);
        assert(answered(turns) + answers(stream) =~= answers(stream));
    } else {
        let t0 = turns.drop_last();
        let turn = turns.last();
        assert(arrived(t0).is_prefix_of(stream)) by {
            assert(arrived(turns).take(arrived(t0).len() as int) =~= arrived(t0));
            assert(stream.take(arrived(t0).len() as int) =~= arrived(t0));
        }
        lemma_course(start, t0, stream);
        let before = state_after(start, t0);
        let left0 = stream.skip(arrived(t0).len() as int);
        lemma_decision(before, turn.action, turn.decided, left0);
        match turn.action {
            Action::Read { limit, .. } => {
                let n0 = arrived(t0).len();
                assert(arrived(turns) == arrived(t0) + turn.arrived());
                assert forall|i: int| 0 <= i < turn.arrived().len() implies left0[i]
                    == turn.arrived()[i] by {
                    assert(stream[n0 + i] == arrived(turns)[n0 + i]);
                }
                assert(left0 =~= turn.arrived() + left);
                assert(before.buffer@ + left0 =~= c.buffer@ + left);
                assert(answered(turns) =~= answered(t0));
                if let Some(p) = c.pending {
                    assert forall|more: Seq<u8>| #[trigger]
                        head_of(c.buffer@ + more) == Some(
                            (p.header_end as nat, (p.body_end - p.header_end) as nat, p.close),
                        ) by {
                        assert(c.buffer@ + more =~= turn.decided.buffer@ + (turn.arrived()
                            + more));
                    }
                }
            },
            Action::Serve { body_end, .. } => {
                assert(left0 =~= left);
                let rest = answers(before.buffer@.skip(body_end as int) + left);
                let one = answer_of(turn.action, turn.decided);
                assert(answered(t0) + (one + rest) =~= (answered(t0) + one) + rest);
            },
            Action::Close => {},
        }
    }
}

/// However a stream is cut into reads, a connection answers the same requests in the same order:
/// those that the stream itself determines. The course ends where the stream does, where a
/// request asks to close, or where something does not fit into the buffer.
pub proof fn law_answers_do_not_depend_on_reads(
    start: Connection,
    turns: Seq<Turn>,
    last: Action,
    end: Connection,
    stream: Seq<u8>,
    respond: spec_fn(Seq<u8>, nat) -> Seq<u8>,
)
    requires
        start.buffer@.len() == 0,
        start.pending is None,
        is_course(start, turns),
        ends(start, turns, last, end, stream),
    ensures
        answered(turns) + answer_of(last, end) == answers(stream),
        written(answered(turns) + answer_of(last, end), respond) == written(
            answers(stream),
            respond,
        ),
{
    assert(stream.take(stream.len() as int) =~= stream);
    lemma_course(start, turns, stream);
    let c = state_after(start, turns);
    let left = stream.skip(arrived(turns).len() as int);
    lemma_decision(c, last, end, left);
    let done = answered(turns);
    assert(done + answer_of(last, end) =~= answers(stream)) by {
        let tail = answers(c.buffer@ + left);
        match last {
            Action::Serve { .. } => {
                assert(answer_of(last, end) + Seq::<(Seq<u8>, nat)>::empty() =~= answer_of(
                    last,
                    end,
                ));
            },
            _ => {
                assert(tail =~= answer_of(last, end));
            },
        }
    }
}

// ── Streams of requests ──────────────────────────────────────────────────────

/// The bytes are one complete request that fits into the buffer.
pub open spec fn is_request(r: Seq<u8>) -> bool {
    &&& starts_with_head(r)
    &&& head_of(r) matches Some(h) && h.0 + h.1 == r.len() && r.len() <= READ_BUF_SIZE
}

pub open spec fn all_requests(requests: Seq<Seq<u8>>) -> bool {
    forall|i: int| 0 <= i < requests.len() ==> is_request(#[trigger] requests[i])
}

/// The requests one after the other.
pub open spec fn joined(requests: Seq<Seq<u8>>) -> Seq<u8>
    decreases requests.len(),
{
    if requests.len() == 0 {
        seq![]
    } else {
        requests[0] + joined(requests.skip(1))
    }
}

/// The requests up to and with the first that asks to close.
pub open spec fn up_to_close(requests: Seq<Seq<u8>>) -> Seq<(Seq<u8>, nat)>
    decreases requests.len(),
{
    if requests.len() == 0 {
        seq![]
    } else {
        match head_of(requests[0]) {
            Some(h) => seq![(requests[0], h.0)] + if h.2 {
                seq![]
            } else {
                up_to_close(requests.skip(1))
            },
            None => seq![],
        }
    }
}

/// To a stream of complete requests, each request is answered, in order, up to and with the first
/// that asks to close.
pub proof fn law_requests_are_answered_in_order(requests: Seq<Seq<u8>>)
    requires
        all_requests(requests),
    ensures
        answers(joined(requests)) == up_to_close(requests),
    decreases requests.len(),
{
    let s = joined(requests);
    if requests.len() > 0 {
        let r = requests[0];
        let rest = requests.skip(1);
        assert(is_request(r));
        assert(all_requests(rest)) by {
            assert forall|i: int| 0 <= i < rest.len() implies is_request(#[trigger] rest[i]) by {
                assert(is_request(requests[i + 1]));
            }
        }
        law_requests_are_answered_in_order(rest);
        let more = lemma_in_reach(r, joined(rest));
        assert(head_of(r + more) == head_of(r));
        assert(s.take(r.len() as int) =~= r);
        assert(s.skip(r.len() as int) =~= joined(rest));
    }
}

/// The bytes that a request gets whose body starts at `body_start`, if `score` gives the response
/// for the body of a transaction.
pub open spec fn reply(
    request: Seq<u8>,
    body_start: nat,
    ready: bool,
    score: spec_fn(Seq<u8>) -> Response,
) -> Seq<u8> {
    match routed(request, body_start as int, request.len() as int, ready) {
        Route::Fixed(response) => encode_utf8(response.text()),
        Route::Score => encode_utf8(score(request.skip(body_start as int)).text()),
    }
}

/// A connection that receives a stream of complete requests, cut into reads in any way, writes
/// the replies to the requests in their order, up to and with the reply to the first that asks to
/// close.
pub proof fn law_replies_to_requests(
    start: Connection,
    turns: Seq<Turn>,
    last: Action,
    end: Connection,
    requests: Seq<Seq<u8>>,
    ready: bool,
    score: spec_fn(Seq<u8>) -> Response,
)
    requires
        start.buffer@.len() == 0,
        start.pending is None,
        all_requests(requests),
        is_course(start, turns),
        ends(start, turns, last, end, joined(requests)),
    ensures
        written(
            answered(turns) + answer_of(last, end),
            |r: Seq<u8>, h: nat| reply(r, h, ready, score),
        ) == written(up_to_close(requests), |r: Seq<u8>, h: nat| reply(r, h, ready, score)),
{
    let respond = |r: Seq<u8>, h: nat| reply(r, h, ready, score);
    law_answers_do_not_depend_on_reads(start, turns, last, end, joined(requests), respond);
    law_requests_are_answered_in_order(requests);
}

} // verus!
