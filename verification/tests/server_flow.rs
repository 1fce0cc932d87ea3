//! End-to-end wire scenarios: decoded request bytes through the
//! transaction state machine to serialized reply bytes.

use tiny_redis::cmd::tx::Transaction;
use tiny_redis::handler::handle_frame;
use tiny_redis::resp::frame::RespCommandFrame;
use tiny_redis::storage::db::DB;

struct Conn {
    codec: RespCommandFrame,
    tx: Transaction,
    db: DB,
    buf: Vec<u8>,
}

impl Conn {
    fn new() -> Conn {
        Conn {
            codec: RespCommandFrame::new(),
            tx: Transaction::new(),
            db: DB::new(),
            buf: Vec::new(),
        }
    }

    fn request(&mut self, wire: &[u8]) -> Vec<u8> {
        self.buf.extend_from_slice(wire);
        let frame = self
            .codec
            .decode(&mut self.buf)
            .expect("well-formed request")
            .expect("complete request");
        handle_frame(&mut self.tx, &mut self.db, frame).to_bytes()
    }
}

#[test]
fn ping_with_argument() {
    let mut c = Conn::new();
    let reply = c.request(b"*2\r\n$4\r\nPING\r\n$5\r\nhello\r\n");
    assert_eq!(reply, b"$5\r\nhello\r\n".to_vec());
}

#[test]
fn set_then_get_on_wire() {
    let mut c = Conn::new();
    assert_eq!(c.request(b"*3\r\n$3\r\nSET\r\n$3\r\nfoo\r\n$3\r\nbar\r\n"), b"$2\r\nOK\r\n".to_vec());
    assert_eq!(c.request(b"*2\r\n$3\r\nGET\r\n$3\r\nfoo\r\n"), b"$3\r\nbar\r\n".to_vec());
}

#[test]
fn lpush_then_lrange() {
    let mut c = Conn::new();
    assert_eq!(
        c.request(b"*5\r\n$5\r\nLPUSH\r\n$1\r\nk\r\n$1\r\na\r\n$1\r\nb\r\n$1\r\nc\r\n"),
        b":3\r\n".to_vec()
    );
    assert_eq!(
        c.request(b"*4\r\n$6\r\nLRANGE\r\n$1\r\nk\r\n$1\r\n0\r\n$2\r\n-1\r\n"),
        b"*3\r\n$1\r\nc\r\n$1\r\nb\r\n$1\r\na\r\n".to_vec()
    );
}

#[test]
fn wrong_type_keeps_value() {
    let mut c = Conn::new();
    c.request(b"*3\r\n$3\r\nSET\r\n$3\r\nfoo\r\n$3\r\nbar\r\n");
    let reply = c.request(b"*3\r\n$5\r\nLPUSH\r\n$3\r\nfoo\r\n$1\r\nz\r\n");
    assert_eq!(reply[0], b'-');
    assert_eq!(c.request(b"*2\r\n$3\r\nGET\r\n$3\r\nfoo\r\n"), b"$3\r\nbar\r\n".to_vec());
}

#[test]
fn transaction_queues_then_executes() {
    let mut c = Conn::new();
    assert_eq!(c.request(b"*1\r\n$5\r\nMULTI\r\n"), b"+OK\r\n".to_vec());
    assert_eq!(
        c.request(b"*3\r\n$3\r\nSET\r\n$1\r\nk\r\n$1\r\n1\r\n"),
        b"+QUEUED\r\n".to_vec()
    );
    assert_eq!(
        c.request(b"*3\r\n$5\r\nRPUSH\r\n$1\r\nL\r\n$1\r\nx\r\n"),
        b"+QUEUED\r\n".to_vec()
    );
    assert_eq!(
        c.request(b"*1\r\n$4\r\nEXEC\r\n"),
        b"*2\r\n$2\r\nOK\r\n:1\r\n".to_vec()
    );
}

#[test]
fn discarded_transaction_leaves_no_trace() {
    let mut c = Conn::new();
    assert_eq!(c.request(b"*1\r\n$5\r\nMULTI\r\n"), b"+OK\r\n".to_vec());
    assert_eq!(
        c.request(b"*3\r\n$3\r\nSET\r\n$1\r\nk\r\n$1\r\nv\r\n"),
        b"+QUEUED\r\n".to_vec()
    );
    assert_eq!(c.request(b"*1\r\n$7\r\nDISCARD\r\n"), b"+OK\r\n".to_vec());
    assert_eq!(c.request(b"*2\r\n$3\r\nGET\r\n$1\r\nk\r\n"), b"$-1\r\n".to_vec());
}

#[test]
fn nested_multi_stays_queueing() {
    let mut c = Conn::new();
    assert_eq!(c.request(b"*1\r\n$5\r\nMULTI\r\n"), b"+OK\r\n".to_vec());
    assert_eq!(
        c.request(b"*1\r\n$5\r\nMULTI\r\n"),
        b"-MULTI calls cannot be nested\r\n".to_vec()
    );
    // still queueing: a data command is buffered, not applied
    assert_eq!(
        c.request(b"*3\r\n$3\r\nSET\r\n$1\r\nk\r\n$1\r\nv\r\n"),
        b"+QUEUED\r\n".to_vec()
    );
    assert_eq!(c.request(b"*1\r\n$4\r\nEXEC\r\n"), b"*1\r\n$2\r\nOK\r\n".to_vec());
}

#[test]
fn exec_and_discard_without_multi() {
    let mut c = Conn::new();
    assert_eq!(
        c.request(b"*1\r\n$4\r\nEXEC\r\n"),
        b"-EXEC without MULTI\r\n".to_vec()
    );
    assert_eq!(
        c.request(b"*1\r\n$7\r\nDISCARD\r\n"),
        b"-DISCARD without MULTI\r\n".to_vec()
    );
}

#[test]
fn exec_after_exec_is_idle() {
    let mut c = Conn::new();
    c.request(b"*1\r\n$5\r\nMULTI\r\n");
    c.request(b"*3\r\n$3\r\nSET\r\n$1\r\nk\r\n$1\r\nv\r\n");
    assert_eq!(c.request(b"*1\r\n$4\r\nEXEC\r\n"), b"*1\r\n$2\r\nOK\r\n".to_vec());
    assert_eq!(
        c.request(b"*1\r\n$4\r\nEXEC\r\n"),
        b"-EXEC without MULTI\r\n".to_vec()
    );
}

#[test]
fn wrong_type_inside_exec_does_not_abort() {
    let mut c = Conn::new();
    c.request(b"*3\r\n$3\r\nSET\r\n$1\r\ns\r\n$1\r\nv\r\n");
    c.request(b"*1\r\n$5\r\nMULTI\r\n");
    c.request(b"*3\r\n$5\r\nLPUSH\r\n$1\r\ns\r\n$1\r\nx\r\n");
    c.request(b"*3\r\n$3\r\nSET\r\n$1\r\nt\r\n$1\r\nw\r\n");
    let reply = c.request(b"*1\r\n$4\r\nEXEC\r\n");
    // two sub-replies: an error for the push, then OK for the set
    assert_eq!(reply[0], b'*');
    assert!(reply.windows(2).any(|w| w == b"-W"));
    assert_eq!(c.request(b"*2\r\n$3\r\nGET\r\n$1\r\nt\r\n"), b"$1\r\nw\r\n".to_vec());
}

#[test]
fn parse_error_while_queueing_discards() {
    let mut c = Conn::new();
    c.request(b"*1\r\n$5\r\nMULTI\r\n");
    c.request(b"*3\r\n$3\r\nSET\r\n$1\r\nk\r\n$1\r\nv\r\n");
    // a frame that parses as no known command clears the queue
    let reply = c.request(b"*1\r\n$4\r\nNOPE\r\n");
    assert_eq!(reply, b"-Unknown command: NOPE\r\n".to_vec());
    assert_eq!(c.request(b"*2\r\n$3\r\nGET\r\n$1\r\nk\r\n"), b"$-1\r\n".to_vec());
    assert_eq!(
        c.request(b"*1\r\n$4\r\nEXEC\r\n"),
        b"-EXEC without MULTI\r\n".to_vec()
    );
}

#[test]
fn multi_with_argument_does_not_open_a_transaction() {
    let mut c = Conn::new();
    assert_eq!(
        c.request(b"*2\r\n$5\r\nMULTI\r\n$1\r\nx\r\n"),
        b"-Wrong number of arguments specified for 'MULTI' command\r\n".to_vec()
    );
    // the connection stayed idle: a data command applies immediately
    assert_eq!(
        c.request(b"*3\r\n$3\r\nSET\r\n$1\r\nk\r\n$1\r\nv\r\n"),
        b"$2\r\nOK\r\n".to_vec()
    );
}

#[test]
fn empty_frame_reports_invalid_format() {
    let mut c = Conn::new();
    let reply = c.request(b"*0\r\n");
    assert_eq!(reply, b"-Invalid command format\r\n".to_vec());
}

#[test]
fn pipelined_requests_each_get_a_reply() {
    let mut c = Conn::new();
    let mut replies: Vec<Vec<u8>> = Vec::new();
    c.buf.extend_from_slice(b"*1\r\n$4\r\nPING\r\n*2\r\n$4\r\nPING\r\n$2\r\nhi\r\n");
    loop {
        match c.codec.decode(&mut c.buf) {
            Ok(Some(frame)) => {
                replies.push(handle_frame(&mut c.tx, &mut c.db, frame).to_bytes());
            },
            Ok(None) => break,
            Err(_) => panic!("unexpected protocol error"),
        }
    }
    assert_eq!(replies, vec![b"+PONG\r\n".to_vec(), b"$2\r\nhi\r\n".to_vec()]);
}
