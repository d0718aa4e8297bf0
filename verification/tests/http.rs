//! Requests and the course of a connection.

use fraud_api::http::{
    head_facts, parse_head, parse_length, plan, Action, Connection, Pending, READ_BUF_SIZE,
};

const POST: &[u8] = b"POST /fraud-score HTTP/1.1\r\nHost: x\r\nContent-Length: 5\r\n\r\nhello";

#[test]
fn heads_are_parsed() {
    let head_len = POST.len() - 5;
    assert_eq!(parse_head(POST), Some((head_len, 5, false)));
    assert_eq!(parse_head(&POST[..head_len - 1]), None);
    assert_eq!(parse_head(b""), None);
    assert_eq!(parse_head(b"\x00\x01 nonsense\r\n\r\n"), None);
    let get = b"GET /ready HTTP/1.1\r\nCONNECTION: Close\r\n\r\n";
    assert_eq!(parse_head(get), Some((get.len(), 0, true)));
}

#[test]
fn too_many_headers_are_no_head() {
    let mut ok = b"GET / HTTP/1.1\r\n".to_vec();
    for i in 0..24 {
        ok.extend_from_slice(format!("h{i}: v\r\n").as_bytes());
    }
    let mut over = ok.clone();
    ok.extend_from_slice(b"\r\n");
    over.extend_from_slice(b"one-more: v\r\n\r\n");
    assert_eq!(parse_head(&ok), Some((ok.len(), 0, false)));
    assert_eq!(parse_head(&over), None);
}

#[test]
fn lengths_are_read_leniently() {
    assert_eq!(parse_length(b"5"), 5);
    assert_eq!(parse_length(b"  42 "), 42);
    assert_eq!(parse_length("\u{a0}42\u{3000}".as_bytes()), 42);
    assert_eq!(parse_length(b"+7"), 7);
    assert_eq!(parse_length(b"-7"), 0);
    assert_eq!(parse_length(b""), 0);
    assert_eq!(parse_length(b"+"), 0);
    assert_eq!(parse_length(b"4 2"), 0);
    assert_eq!(parse_length(b"\xff5"), 0);
    assert_eq!(parse_length(b"99999999999999999999999999"), 0);
    assert_eq!(parse_length(usize::MAX.to_string().as_bytes()), usize::MAX);
}

fn headers(pairs: &[(&str, &str)]) -> Vec<(Vec<u8>, Vec<u8>)> {
    pairs.iter().map(|(n, v)| (n.as_bytes().to_vec(), v.as_bytes().to_vec())).collect()
}

#[test]
fn first_length_and_any_close_count() {
    let h = headers(&[("X", "1"), ("content-LENGTH", "10"), ("Content-Length", "20")]);
    assert_eq!(head_facts(&h), (10, false));
    // A length that states nothing is not made up for by another.
    let h = headers(&[("Content-Length", "x"), ("Content-Length", "20")]);
    assert_eq!(head_facts(&h), (0, false));
    let h = headers(&[("Connection", "keep-alive"), ("connection", "CLOSE")]);
    assert_eq!(head_facts(&h), (0, true));
    let h = headers(&[("Connection", " close")]);
    assert_eq!(head_facts(&h), (0, false));
    assert_eq!(head_facts(&headers(&[])), (0, false));
}

#[test]
fn bytes_decide_what_to_do() {
    assert_eq!(plan(10, None), Action::Read { limit: READ_BUF_SIZE - 10, in_body: false });
    assert_eq!(plan(READ_BUF_SIZE, None), Action::Close);
    assert_eq!(
        plan(70, Some((50, 20, true))),
        Action::Serve { header_end: 50, body_end: 70, close: true }
    );
    assert_eq!(plan(60, Some((50, 20, false))), Action::Read { limit: 10, in_body: true });
    assert_eq!(plan(60, Some((50, READ_BUF_SIZE - 50, false))), Action::Read {
        limit: READ_BUF_SIZE - 60,
        in_body: true,
    });
    assert_eq!(plan(60, Some((50, READ_BUF_SIZE - 49, false))), Action::Close);
    assert_eq!(plan(60, Some((50, usize::MAX, false))), Action::Close);
}

#[test]
fn requests_in_a_row_are_served_in_order() {
    let get = b"GET /ready HTTP/1.1\r\n\r\n";
    let mut c = Connection::new();
    assert_eq!(c.next_action(), Action::Read { limit: READ_BUF_SIZE, in_body: false });
    c.received(get);
    c.received(POST);
    c.received(b"GET /re");
    assert_eq!(
        c.next_action(),
        Action::Serve { header_end: get.len(), body_end: get.len(), close: false }
    );
    c.served(get.len());
    assert_eq!(
        c.next_action(),
        Action::Serve { header_end: POST.len() - 5, body_end: POST.len(), close: false }
    );
    c.served(POST.len());
    assert_eq!(c.buffer, b"GET /re");
    assert_eq!(c.next_action(), Action::Read { limit: READ_BUF_SIZE - 7, in_body: false });
}

#[test]
fn a_body_in_pieces_completes_its_request() {
    let head_len = POST.len() - 5;
    let mut c = Connection::new();
    c.received(&POST[..head_len + 2]);
    assert_eq!(c.next_action(), Action::Read { limit: 3, in_body: true });
    let pending = Pending { header_end: head_len, body_end: POST.len(), close: false };
    assert_eq!(c.pending, Some(pending));
    c.received(&POST[head_len + 2..head_len + 3]);
    assert_eq!(c.next_action(), Action::Read { limit: 2, in_body: true });
    c.received(&POST[head_len + 3..]);
    let serve = Action::Serve { header_end: head_len, body_end: POST.len(), close: false };
    assert_eq!(c.next_action(), serve);
    assert_eq!(c.buffer, POST);
    c.served(POST.len());
    assert!(c.buffer.is_empty() && c.pending.is_none());
}

#[test]
fn what_does_not_fit_is_dropped() {
    let mut c = Connection::new();
    c.received(&[b'a'; READ_BUF_SIZE]);
    assert_eq!(c.next_action(), Action::Close);
    let mut c = Connection::new();
    c.received(b"POST /fraud-score HTTP/1.1\r\nContent-Length: 5000\r\n\r\n");
    assert_eq!(c.next_action(), Action::Close);
}

/// The requests that a connection answers to a stream that arrives in the given reads.
fn answered(stream: &[u8], cuts: &[usize]) -> Vec<(Vec<u8>, usize)> {
    let mut c = Connection::new();
    let mut out = Vec::new();
    let mut at = 0;
    let mut reads = cuts.iter().cycle();
    loop {
        match c.next_action() {
            Action::Read { limit, .. } => {
                let n = (*reads.next().unwrap()).min(limit).min(stream.len() - at);
                if n == 0 {
                    return out;
                }
                c.received(&stream[at..at + n]);
                at += n;
            }
            Action::Serve { header_end, body_end, close } => {
                out.push((c.buffer[..body_end].to_vec(), header_end));
                if close {
                    return out;
                }
                c.served(body_end);
            }
            Action::Close => return out,
        }
    }
}

#[test]
fn answers_do_not_depend_on_the_reads() {
    let get: &[u8] = b"GET /ready HTTP/1.1\r\n\r\n";
    let last: &[u8] = b"POST /fraud-score HTTP/1.1\r\nConnection: close\r\nContent-Length: 2\r\n\r\nok";
    let requests = [POST, get, get, POST, last, get];
    let stream = requests.concat();
    let whole = answered(&stream, &[READ_BUF_SIZE]);
    let got: Vec<&[u8]> = whole.iter().map(|(r, _)| r.as_slice()).collect();
    assert_eq!(got, requests[..5]);
    assert_eq!(whole[0].1, POST.len() - 5);
    for n in 1..120 {
        assert_eq!(answered(&stream, &[n]), whole, "reads of {n}");
        assert_eq!(answered(&stream, &[n, 1, 57]), whole, "reads of {n}, 1 and 57");
    }
}

#[test]
fn a_head_stays_whatever_follows() {
    let head_len = POST.len() - 5;
    for more in ["", "hello", "\r\n\r\n", " x: y\r\n\r\n", "GET / HTTP/1.1\r\n\r\n", "\u{0}\u{1}"] {
        let mut buf = POST[..head_len].to_vec();
        buf.extend_from_slice(more.as_bytes());
        assert_eq!(parse_head(&buf), Some((head_len, 5, false)), "{more:?}");
    }
    for n in 0..head_len {
        assert_eq!(parse_head(&POST[..n]), None, "{n}");
    }
}
