//! The wire side of the HTTP transport: heads, framing, connections, budgets.

use std::collections::HashMap;

use rustkv::raft::transport::http::{
    after_attempt, find_header_end, parse_response_head, request_head, rpc_status, AfterAttempt,
    HttpTransport, Progress, Reading, MAX_IDLE_PER_PEER, MAX_RESPONSE_HEAD,
};
use rustkv::raft::transport::TransportError;

#[test]
fn parse_response_head_extracts_length_and_rejects_errors() {
    let ok = parse_response_head(b"HTTP/1.1 200 OK\r\ncontent-length: 5").unwrap();
    assert_eq!(ok.content_length, Some(5));
    assert!(ok.keep_alive);

    let no_length = parse_response_head(b"HTTP/1.1 200 OK\r\nx: y").unwrap();
    assert_eq!(no_length.content_length, None);

    let close = parse_response_head(b"HTTP/1.1 200 OK\r\nConnection: close").unwrap();
    assert!(!close.keep_alive, "server keep-alive opt-out honored");

    assert!(parse_response_head(b"HTTP/1.1 503 Service Unavailable").is_err());
    assert!(parse_response_head(b"HTTP/1.1 200 OK\r\nTransfer-Encoding: chunked").is_err());
    assert!(parse_response_head(b"HTTP/1.1 200 OK\r\nContent-Length: nope").is_err());
    assert!(parse_response_head(b"garbage").is_err());
}

#[test]
fn find_header_end_scans_incremental_buffers() {
    assert_eq!(find_header_end(b"HTTP/1.1 200 OK\r\ncont"), None);
    assert_eq!(find_header_end(b"HTTP/1.1 200 OK\r\n\r\n"), Some(15));
    // Body bytes already buffered past the terminator are fine.
    assert_eq!(find_header_end(b"HTTP/1.1 200 OK\r\n\r\nhello"), Some(15));
}

#[test]
fn head_errors_say_what_is_wrong() {
    let err = |raw: &[u8]| parse_response_head(raw).unwrap_err();
    assert_eq!(err(b"\xff\xfe"), "non-utf8 response head");
    assert_eq!(err(b"garbage"), "malformed status line: garbage");
    assert_eq!(err(b"HTTP/1.1 99999 x"), "malformed status line: HTTP/1.1 99999 x");
    assert_eq!(err(b"HTTP/1.1 503 x"), "raft rpc returned status 503");
    assert_eq!(
        err(b"HTTP/1.1 200 OK\r\nTransfer-Encoding: chunked"),
        "chunked responses are not supported"
    );
    assert_eq!(
        err(b"HTTP/1.1 200 OK\r\nContent-Length: nope\r\nx: y"),
        "bad content-length: content-length: nope"
    );
    let long = format!("x{}", "y".repeat(100));
    assert_eq!(
        err(long.as_bytes()),
        format!("malformed status line: x{}", "y".repeat(79))
    );
}

#[test]
fn the_last_content_length_counts_and_case_does_not() {
    let head =
        parse_response_head(b"HTTP/1.1 200 OK\r\nCONTENT-LENGTH: 5\r\ncontent-length:\t7 ").unwrap();
    assert_eq!(head.content_length, Some(7));
}

#[test]
fn request_heads_are_persistent_posts() {
    assert_eq!(
        request_head("/raft", "n1:9080", 12),
        "POST /raft HTTP/1.1\r\nHost: n1:9080\r\nContent-Type: application/json\r\n\
         Content-Length: 12\r\n\r\n"
    );
}

fn read_all(chunks: &[&[u8]]) -> Progress {
    let mut reading = Reading::start();
    for chunk in chunks {
        assert!(chunk.len() <= reading.wanted());
        match reading.on_bytes(chunk) {
            Progress::More(next) => reading = next,
            done => return done,
        }
    }
    reading.on_close()
}

#[test]
fn a_sized_body_is_read_exactly() {
    let done = read_all(&[
        b"HTTP/1.1 200 OK\r\ncontent-le",
        b"ngth: 5\r\n\r\nhe",
        b"llo",
    ]);
    match done {
        Progress::Done { body, reusable } => {
            assert_eq!(body, b"hello");
            assert!(reusable);
        }
        other => panic!("{other:?}"),
    }
}

#[test]
fn excess_body_bytes_poison_the_connection() {
    match read_all(&[b"HTTP/1.1 200 OK\r\ncontent-length: 2\r\n\r\nhello"]) {
        Progress::Done { body, reusable } => {
            assert_eq!(body, b"he");
            assert!(!reusable, "bytes beyond the declared body: never repool");
        }
        other => panic!("{other:?}"),
    }
}

#[test]
fn connection_close_and_missing_length_are_never_reusable() {
    match read_all(&[b"HTTP/1.1 200 OK\r\nconnection: close\r\ncontent-length: 2\r\n\r\nhe"]) {
        Progress::Done { body, reusable } => {
            assert_eq!(body, b"he");
            assert!(!reusable);
        }
        other => panic!("{other:?}"),
    }
    match read_all(&[b"HTTP/1.1 200 OK\r\n\r\nhe", b"llo"]) {
        Progress::Done { body, reusable } => {
            assert_eq!(body, b"hello");
            assert!(!reusable);
        }
        other => panic!("{other:?}"),
    }
}

#[test]
fn early_closes_and_endless_heads_fail() {
    let failure = |chunks: &[&[u8]]| match read_all(chunks) {
        Progress::Failed(text) => text,
        other => panic!("{other:?}"),
    };
    assert_eq!(failure(&[]), "connection closed before response head");
    assert_eq!(
        failure(&[b"HTTP/1.1 200 OK\r\ncontent-length: 5\r\n\r\nhe"]),
        "early eof"
    );
    let chunk = [b'x'; 4096];
    assert!(MAX_RESPONSE_HEAD == 4 * 4096);
    assert_eq!(
        failure(&[&chunk, &chunk, &chunk, &chunk, &chunk]),
        "response head too large"
    );
}

fn book(pairs: &[(u64, &str)]) -> HashMap<u64, String> {
    pairs.iter().map(|(id, a)| (*id, a.to_string())).collect()
}

#[test]
fn unknown_peers_are_unreachable() {
    let transport: HttpTransport<u32> = HttpTransport::new(1, book(&[(2, "a:1")]), 150);
    assert_eq!(transport.id(), 1);
    assert_eq!(transport.address_of(2), Ok("a:1".to_string()));
    assert_eq!(transport.address_of(3), Err(TransportError::Unreachable(3)));
}

#[test]
fn checkout_is_exclusive_and_capped() {
    let mut transport: HttpTransport<u32> = HttpTransport::new(1, book(&[(2, "a:1")]), 150);
    assert_eq!(transport.checkout("a:1"), None);
    for stream in 0..MAX_IDLE_PER_PEER as u32 {
        assert_eq!(transport.checkin("a:1", stream), None);
    }
    assert_eq!(transport.checkin("a:1", 99), Some(99), "beyond the cap: dropped");
    assert_eq!(transport.checkin("b:1", 7), None, "the cap is per address");
    assert_eq!(transport.checkout("a:1"), Some(3));
    assert_eq!(transport.checkout("a:1"), Some(2));
    assert_eq!(transport.checkout("b:1"), Some(7));
    assert_eq!(transport.checkout("b:1"), None);
}

#[test]
fn set_peers_prunes_departed_addresses() {
    let mut transport: HttpTransport<u32> =
        HttpTransport::new(1, book(&[(2, "a:1"), (3, "b:1"), (4, "c:1")]), 150);
    for (addr, stream) in [("a:1", 1), ("b:1", 2), ("c:1", 3)] {
        assert_eq!(transport.checkin(addr, stream), None);
    }
    transport.set_peers(book(&[(2, "a:2"), (5, "b:1")]));
    assert_eq!(transport.checkout("a:1"), None, "re-addressed");
    assert_eq!(transport.checkout("b:1"), Some(2), "still someone's address");
    assert_eq!(transport.checkout("c:1"), None, "removed");
    assert_eq!(transport.address_of(2), Ok("a:2".to_string()));
    assert_eq!(transport.address_of(4), Err(TransportError::Unreachable(4)));
}

#[test]
fn only_pooled_failures_are_retried() {
    assert_eq!(after_attempt(true, None), AfterAttempt::RetryFresh);
    assert_eq!(after_attempt(false, None), AfterAttempt::GiveUp);
    assert_eq!(after_attempt(true, Some(true)), AfterAttempt::Answer { keep: true });
    assert_eq!(after_attempt(false, Some(false)), AfterAttempt::Answer { keep: false });
}

#[test]
fn big_bodies_earn_transfer_time() {
    let flat: HttpTransport<u32> = HttpTransport::new(1, book(&[]), 50);
    assert_eq!(flat.budget_us(10 << 20), 50_000);
    let aware = flat.with_assumed_bandwidth(Some(1 << 20));
    assert_eq!(aware.budget_us(65_536), 50_000, "small bodies keep the tight budget");
    assert_eq!(aware.budget_us(1 << 20), 1_050_000);
    assert_eq!(aware.budget_us(u64::MAX), 50_000 + 17_592_186_044_415_999_999);
    let slow: HttpTransport<u32> = HttpTransport::new(1, book(&[]), 50);
    let slow = slow.with_assumed_bandwidth(Some(1));
    assert_eq!(slow.budget_us(u64::MAX), u64::MAX, "as far as 64 bits hold it");
}

#[test]
fn inbound_statuses() {
    assert_eq!(rpc_status(false, false), 400);
    assert_eq!(rpc_status(true, false), 503);
    assert_eq!(rpc_status(true, true), 200);
    assert_eq!(TransportError::Timeout.message(), "rpc timed out");
    assert_eq!(
        TransportError::Unreachable(9).message(),
        "node 9 is not a cluster member"
    );
}

#[test]
fn chunked_responses_are_errors_however_they_are_spelled() {
    for head in [
        "HTTP/1.1 200 OK\r\nTransfer-Encoding:chunked",
        "HTTP/1.1 200 OK\r\nTransfer-Encoding:  chunked  ",
        "HTTP/1.1 200 OK\r\nx: y\r\nTRANSFER-ENCODING: gzip, Chunked\r\nz: 1",
    ] {
        assert_eq!(
            parse_response_head(head.as_bytes()),
            Err("chunked responses are not supported".to_string()),
            "{head}"
        );
    }
    // Named otherwise, or in the status line, it says nothing of the body.
    let other = parse_response_head(b"HTTP/1.1 200 transfer-encoding:chunked\r\nx: y").unwrap();
    assert_eq!(other.content_length, None);
    let close = parse_response_head(b"HTTP/1.1 200 OK\r\nConnection:close").unwrap();
    assert!(!close.keep_alive);
    let listed = parse_response_head(b"HTTP/1.1 200 OK\r\nConnection: upgrade ,Close").unwrap();
    assert!(!listed.keep_alive);
}

#[test]
fn header_words_count_as_whole_words() {
    for head in [
        "HTTP/1.1 200 OK\r\nTransfer-Encoding: unchunked",
        "HTTP/1.1 200 OK\r\nTransfer-Encoding:gzip, chunkedly",
        "HTTP/1.1 200 OK\r\nx-transfer-encoding:chunked",
    ] {
        assert!(parse_response_head(head.as_bytes()).is_ok(), "{head}");
    }
    for head in [
        "HTTP/1.1 200 OK\r\nConnection: disclose",
        "HTTP/1.1 200 OK\r\nConnection:closed, keep-alive",
    ] {
        assert!(parse_response_head(head.as_bytes()).unwrap().keep_alive, "{head}");
    }
}

#[test]
fn heads_are_read_without_regard_to_case() {
    for head in [
        "HTTP/1.1 200 OK\r\nContent-Length: 5\r\nConnection: Close",
        "HTTP/1.1 200 OK\r\nTransfer-Encoding: Chunked",
        "HTTP/1.1 +200 \u{c9}T\u{c9}\r\nContent-Length: 7",
        "garbage",
    ] {
        let low = head.to_ascii_lowercase();
        assert_eq!(
            parse_response_head(head.as_bytes()).ok(),
            parse_response_head(low.as_bytes()).ok()
        );
    }
}
