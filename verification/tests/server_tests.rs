use respkv::session::{Conn, handle_input};
use respkv::store::Store;

fn feed(conn: &mut Conn, store: &mut Store, input: &[u8], now: u64) -> (Vec<u8>, bool) {
    handle_input(conn, store, input, now)
}

#[test]
fn ping_scenario() {
    let mut conn = Conn::new();
    let mut store = Store::new();
    let (replies, close) = feed(&mut conn, &mut store, b"*1\r\n$4\r\nPING\r\n", 0);
    assert_eq!(replies, b"+PONG\r\n".to_vec());
    assert!(!close);
}

#[test]
fn ping_idempotent_in_order() {
    let mut conn = Conn::new();
    let mut store = Store::new();
    let mut input = Vec::new();
    for _ in 0..5 {
        input.extend_from_slice(b"*1\r\n$4\r\nPING\r\n");
    }
    let (replies, close) = feed(&mut conn, &mut store, &input, 0);
    assert_eq!(replies, b"+PONG\r\n+PONG\r\n+PONG\r\n+PONG\r\n+PONG\r\n".to_vec());
    assert!(!close);
}

#[test]
fn echo_scenario() {
    let mut conn = Conn::new();
    let mut store = Store::new();
    let (replies, close) = feed(&mut conn, &mut store, b"*2\r\n$4\r\nECHO\r\n$5\r\nhello\r\n", 0);
    assert_eq!(replies, b"$5\r\nhello\r\n".to_vec());
    assert!(!close);
}

#[test]
fn echo_binary_round_trip() {
    let mut conn = Conn::new();
    let mut store = Store::new();
    let payload = vec![13u8, 10, 0, 200];
    let mut input = b"*2\r\n$4\r\nECHO\r\n$4\r\n".to_vec();
    input.extend_from_slice(&payload);
    input.extend_from_slice(b"\r\n");
    let (replies, close) = feed(&mut conn, &mut store, &input, 0);
    let mut expected = b"$4\r\n".to_vec();
    expected.extend_from_slice(&payload);
    expected.extend_from_slice(b"\r\n");
    assert_eq!(replies, expected);
    assert!(!close);
}

#[test]
fn set_get_scenario() {
    let mut conn = Conn::new();
    let mut store = Store::new();
    let (replies, close) = feed(
        &mut conn,
        &mut store,
        b"*3\r\n$3\r\nSET\r\n$3\r\nfoo\r\n$3\r\nbar\r\n",
        1000,
    );
    assert_eq!(replies, b"+OK\r\n".to_vec());
    assert!(!close);
    let (replies, close) = feed(&mut conn, &mut store, b"*2\r\n$3\r\nGET\r\n$3\r\nfoo\r\n", 1001);
    assert_eq!(replies, b"$3\r\nbar\r\n".to_vec());
    assert!(!close);
}

#[test]
fn get_miss_scenario() {
    let mut conn = Conn::new();
    let mut store = Store::new();
    let (replies, close) = feed(&mut conn, &mut store, b"*2\r\n$3\r\nGET\r\n$6\r\nabsent\r\n", 0);
    assert_eq!(replies, b"$-1\r\n".to_vec());
    assert!(!close);
}

#[test]
fn set_px_expired_scenario() {
    let mut conn = Conn::new();
    let mut store = Store::new();
    let (replies, _) = feed(
        &mut conn,
        &mut store,
        b"*5\r\n$3\r\nSET\r\n$1\r\nk\r\n$1\r\nv\r\n$2\r\nPX\r\n$2\r\n50\r\n",
        1000,
    );
    assert_eq!(replies, b"+OK\r\n".to_vec());
    let (replies, _) = feed(&mut conn, &mut store, b"*2\r\n$3\r\nGET\r\n$1\r\nk\r\n", 1100);
    assert_eq!(replies, b"$-1\r\n".to_vec());
}

#[test]
fn set_px_before_deadline() {
    let mut conn = Conn::new();
    let mut store = Store::new();
    feed(
        &mut conn,
        &mut store,
        b"*5\r\n$3\r\nSET\r\n$1\r\nk\r\n$1\r\nv\r\n$2\r\nPX\r\n$2\r\n50\r\n",
        1000,
    );
    let (replies, _) = feed(&mut conn, &mut store, b"*2\r\n$3\r\nGET\r\n$1\r\nk\r\n", 1049);
    assert_eq!(replies, b"$1\r\nv\r\n".to_vec());
}

#[test]
fn px_deadline_is_inclusive() {
    let mut conn = Conn::new();
    let mut store = Store::new();
    feed(
        &mut conn,
        &mut store,
        b"*5\r\n$3\r\nSET\r\n$1\r\nk\r\n$1\r\nv\r\n$2\r\nPX\r\n$2\r\n50\r\n",
        1000,
    );
    let (replies, _) = feed(&mut conn, &mut store, b"*2\r\n$3\r\nGET\r\n$1\r\nk\r\n", 1050);
    assert_eq!(replies, b"$1\r\nv\r\n".to_vec());
    let (replies, _) = feed(&mut conn, &mut store, b"*2\r\n$3\r\nGET\r\n$1\r\nk\r\n", 1051);
    assert_eq!(replies, b"$-1\r\n".to_vec());
}

#[test]
fn px_zero_boundary() {
    let mut conn = Conn::new();
    let mut store = Store::new();
    feed(
        &mut conn,
        &mut store,
        b"*5\r\n$3\r\nSET\r\n$1\r\nk\r\n$1\r\nv\r\n$2\r\nPX\r\n$1\r\n0\r\n",
        1000,
    );
    let (replies, _) = feed(&mut conn, &mut store, b"*2\r\n$3\r\nGET\r\n$1\r\nk\r\n", 1000);
    assert_eq!(replies, b"$1\r\nv\r\n".to_vec());
    let (replies, _) = feed(&mut conn, &mut store, b"*2\r\n$3\r\nGET\r\n$1\r\nk\r\n", 1001);
    assert_eq!(replies, b"$-1\r\n".to_vec());
}

#[test]
fn overwrite_clears_expiry() {
    let mut conn = Conn::new();
    let mut store = Store::new();
    feed(
        &mut conn,
        &mut store,
        b"*5\r\n$3\r\nSET\r\n$1\r\nk\r\n$2\r\nv1\r\n$2\r\nPX\r\n$2\r\n10\r\n",
        1000,
    );
    feed(&mut conn, &mut store, b"*3\r\n$3\r\nSET\r\n$1\r\nk\r\n$2\r\nv2\r\n", 1005);
    let (replies, _) = feed(&mut conn, &mut store, b"*2\r\n$3\r\nGET\r\n$1\r\nk\r\n", 999999999);
    assert_eq!(replies, b"$2\r\nv2\r\n".to_vec());
}

#[test]
fn empty_bulk_value() {
    let mut conn = Conn::new();
    let mut store = Store::new();
    let (replies, _) = feed(&mut conn, &mut store, b"*3\r\n$3\r\nSET\r\n$1\r\nk\r\n$0\r\n\r\n", 0);
    assert_eq!(replies, b"+OK\r\n".to_vec());
    let (replies, _) = feed(&mut conn, &mut store, b"*2\r\n$3\r\nGET\r\n$1\r\nk\r\n", 1);
    assert_eq!(replies, b"$0\r\n\r\n".to_vec());
}

#[test]
fn binary_safe_values() {
    let mut conn = Conn::new();
    let mut store = Store::new();
    let value: Vec<u8> = (0..=255u8).collect();
    let mut input = b"*3\r\n$3\r\nSET\r\n$1\r\nk\r\n$256\r\n".to_vec();
    input.extend_from_slice(&value);
    input.extend_from_slice(b"\r\n");
    let (replies, _) = feed(&mut conn, &mut store, &input, 0);
    assert_eq!(replies, b"+OK\r\n".to_vec());
    let (replies, _) = feed(&mut conn, &mut store, b"*2\r\n$3\r\nGET\r\n$1\r\nk\r\n", 1);
    let mut expected = b"$256\r\n".to_vec();
    expected.extend_from_slice(&value);
    expected.extend_from_slice(b"\r\n");
    assert_eq!(replies, expected);
}

#[test]
fn pipelined_ping_and_get_miss() {
    let mut conn = Conn::new();
    let mut store = Store::new();
    let (replies, close) = feed(
        &mut conn,
        &mut store,
        b"*1\r\n$4\r\nPING\r\n*2\r\n$3\r\nGET\r\n$6\r\nabsent\r\n",
        0,
    );
    assert_eq!(replies, b"+PONG\r\n$-1\r\n".to_vec());
    assert!(!close);
}

#[test]
fn framing_split_byte_by_byte() {
    let request = b"*3\r\n$3\r\nSET\r\n$3\r\nfoo\r\n$3\r\nbar\r\n".to_vec();
    let mut conn = Conn::new();
    let mut store = Store::new();
    let mut collected = Vec::new();
    for b in &request {
        let (replies, close) = feed(&mut conn, &mut store, &[*b], 7);
        assert!(!close);
        collected.extend_from_slice(&replies);
    }
    assert_eq!(collected, b"+OK\r\n".to_vec());

    let mut whole_conn = Conn::new();
    let mut whole_store = Store::new();
    let (whole_replies, _) = feed(&mut whole_conn, &mut whole_store, &request, 7);
    assert_eq!(collected, whole_replies);
}

#[test]
fn framing_split_across_two_requests() {
    let mut conn = Conn::new();
    let mut store = Store::new();
    let (replies, close) = feed(&mut conn, &mut store, b"*1\r\n$4\r\nPI", 0);
    assert_eq!(replies, Vec::<u8>::new());
    assert!(!close);
    let (replies, close) = feed(&mut conn, &mut store, b"NG\r\n*1\r\n$4\r\nPING\r\n", 0);
    assert_eq!(replies, b"+PONG\r\n+PONG\r\n".to_vec());
    assert!(!close);
}

#[test]
fn cross_connection_visibility() {
    let mut store = Store::new();
    let mut conn_a = Conn::new();
    let (replies, _) = feed(
        &mut conn_a,
        &mut store,
        b"*3\r\n$3\r\nSET\r\n$1\r\nk\r\n$1\r\nv\r\n",
        100,
    );
    assert_eq!(replies, b"+OK\r\n".to_vec());
    let mut conn_b = Conn::new();
    let (replies, _) = feed(&mut conn_b, &mut store, b"*2\r\n$3\r\nGET\r\n$1\r\nk\r\n", 101);
    assert_eq!(replies, b"$1\r\nv\r\n".to_vec());
}

#[test]
fn unknown_command_closes_connection() {
    let mut conn = Conn::new();
    let mut store = Store::new();
    let (replies, close) = feed(&mut conn, &mut store, b"*1\r\n$4\r\nQUIT\r\n", 0);
    assert_eq!(replies, Vec::<u8>::new());
    assert!(close);
}

#[test]
fn malformed_frame_closes_after_earlier_replies() {
    let mut conn = Conn::new();
    let mut store = Store::new();
    let (replies, close) = feed(&mut conn, &mut store, b"*1\r\n$4\r\nPING\r\nnonsense", 0);
    assert_eq!(replies, b"+PONG\r\n".to_vec());
    assert!(close);
}

#[test]
fn store_direct_operations() {
    let mut store = Store::new();
    assert_eq!(store.get(b"k", 0), None);
    store.set(b"k".to_vec(), b"v".to_vec(), None);
    assert_eq!(store.get(b"k", 0), Some(b"v".to_vec()));
    store.set(b"k".to_vec(), b"w".to_vec(), Some(10));
    assert_eq!(store.get(b"k", 10), Some(b"w".to_vec()));
    assert_eq!(store.get(b"k", 11), None);
    assert_eq!(store.get(b"k", 5), None);
}

#[test]
fn expiry_saturates_instead_of_overflowing() {
    let mut conn = Conn::new();
    let mut store = Store::new();
    let mut input = b"*5\r\n$3\r\nSET\r\n$1\r\nk\r\n$1\r\nv\r\n$2\r\nPX\r\n$20\r\n".to_vec();
    input.extend_from_slice(b"99999999999999999999\r\n");
    assert!(matches!(
        respkv::command::parse_redis_command(&input),
        respkv::command::CommandParse::Error
    ));
    let mut req = b"*5\r\n$3\r\nSET\r\n$1\r\nk\r\n$1\r\nv\r\n$2\r\nPX\r\n$19\r\n".to_vec();
    req.extend_from_slice(b"9999999999999999999\r\n");
    let (replies, _) = feed(&mut conn, &mut store, &req, u64::MAX - 5);
    assert_eq!(replies, b"+OK\r\n".to_vec());
    let (replies, _) = feed(&mut conn, &mut store, b"*2\r\n$3\r\nGET\r\n$1\r\nk\r\n", u64::MAX);
    assert_eq!(replies, b"$1\r\nv\r\n".to_vec());
}
