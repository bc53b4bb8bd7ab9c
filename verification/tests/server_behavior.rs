use redis_rs::cmd::Cmd;
use redis_rs::engine::ExecOutcome;
use redis_rs::engine::Role;
use redis_rs::engine::ServerState;
use redis_rs::engine::execute;
use redis_rs::protocol::Protocol;
use redis_rs::storage::Storage;
use redis_rs::streams::StreamSet;

type Buffer = Option<Vec<(Cmd, Protocol)>>;

fn new_state(role: Role) -> ServerState {
    ServerState {
        storage: Storage::new(),
        streams: StreamSet::new(),
        offset: 0,
        dir: String::from("/tmp"),
        db_file_name: String::from("dump.rdb"),
        role,
        master_replid: String::from("8371b4fb1155b71f4a04d3e1bc3e18c4a990aeea"),
        master_repl_offset: 0,
    }
}

fn run_at(state: &mut ServerState, queued: &mut Buffer, wire: &str, now: u128) -> ExecOutcome {
    let (cmd, frame) = Cmd::from(wire).unwrap();
    execute(state, cmd, frame, false, queued, now).unwrap()
}

fn reply(state: &mut ServerState, queued: &mut Buffer, wire: &str, now: u128) -> String {
    run_at(state, queued, wire, now).resp.encode()
}

#[test]
fn ping_pongs() {
    let mut s = new_state(Role::Master);
    let mut q: Buffer = None;
    assert_eq!(reply(&mut s, &mut q, "*1\r\n$4\r\nPING\r\n", 0), "+PONG\r\n");
}

#[test]
fn set_then_get() {
    let mut s = new_state(Role::Master);
    let mut q: Buffer = None;
    assert_eq!(
        reply(&mut s, &mut q, "*3\r\n$3\r\nSET\r\n$3\r\nfoo\r\n$3\r\nbar\r\n", 0),
        "+ok\r\n"
    );
    assert_eq!(
        reply(&mut s, &mut q, "*2\r\n$3\r\nGET\r\n$3\r\nfoo\r\n", 0),
        "+bar\r\n"
    );
}

#[test]
fn get_missing_is_null() {
    let mut s = new_state(Role::Master);
    let mut q: Buffer = None;
    assert_eq!(
        reply(&mut s, &mut q, "*2\r\n$3\r\nGET\r\n$2\r\nno\r\n", 0),
        "$-1\r\n"
    );
}

#[test]
fn set_px_expires() {
    let mut s = new_state(Role::Master);
    let mut q: Buffer = None;
    let set = "*5\r\n$3\r\nSET\r\n$1\r\nk\r\n$1\r\nv\r\n$2\r\nPX\r\n$3\r\n100\r\n";
    assert_eq!(reply(&mut s, &mut q, set, 1_000), "+ok\r\n");
    // still there before the deadline
    assert_eq!(
        reply(&mut s, &mut q, "*2\r\n$3\r\nGET\r\n$1\r\nk\r\n", 1_050),
        "+v\r\n"
    );
    // absent 150 ms after the write
    assert_eq!(
        reply(&mut s, &mut q, "*2\r\n$3\r\nGET\r\n$1\r\nk\r\n", 1_150),
        "$-1\r\n"
    );
}

#[test]
fn set_ex_counts_seconds() {
    let mut s = new_state(Role::Master);
    let mut q: Buffer = None;
    let set = "*5\r\n$3\r\nSET\r\n$1\r\nk\r\n$1\r\nv\r\n$2\r\nEX\r\n$1\r\n2\r\n";
    assert_eq!(reply(&mut s, &mut q, set, 0), "+ok\r\n");
    assert_eq!(
        reply(&mut s, &mut q, "*2\r\n$3\r\nGET\r\n$1\r\nk\r\n", 1_999),
        "+v\r\n"
    );
    assert_eq!(
        reply(&mut s, &mut q, "*2\r\n$3\r\nGET\r\n$1\r\nk\r\n", 2_001),
        "$-1\r\n"
    );
}

#[test]
fn del_removes() {
    let mut s = new_state(Role::Master);
    let mut q: Buffer = None;
    reply(&mut s, &mut q, "*3\r\n$3\r\nSET\r\n$1\r\na\r\n$1\r\n1\r\n", 0);
    assert_eq!(
        reply(&mut s, &mut q, "*2\r\n$3\r\nDEL\r\n$1\r\na\r\n", 0),
        "+ok\r\n"
    );
    assert_eq!(
        reply(&mut s, &mut q, "*2\r\n$3\r\nGET\r\n$1\r\na\r\n", 0),
        "$-1\r\n"
    );
}

#[test]
fn keys_lists_current_keys() {
    let mut s = new_state(Role::Master);
    let mut q: Buffer = None;
    reply(&mut s, &mut q, "*3\r\n$3\r\nSET\r\n$1\r\na\r\n$1\r\n1\r\n", 0);
    let out = reply(&mut s, &mut q, "*2\r\n$4\r\nKEYS\r\n$1\r\n*\r\n", 0);
    assert_eq!(out, "*1\r\n$1\r\na\r\n");
}

#[test]
fn type_reports_kind() {
    let mut s = new_state(Role::Master);
    let mut q: Buffer = None;
    reply(&mut s, &mut q, "*3\r\n$3\r\nSET\r\n$1\r\na\r\n$1\r\n1\r\n", 0);
    reply(
        &mut s,
        &mut q,
        "*5\r\n$4\r\nXADD\r\n$2\r\nst\r\n$3\r\n1-1\r\n$1\r\nf\r\n$1\r\nv\r\n",
        0,
    );
    assert_eq!(
        reply(&mut s, &mut q, "*2\r\n$4\r\nTYPE\r\n$1\r\na\r\n", 0),
        "+string\r\n"
    );
    assert_eq!(
        reply(&mut s, &mut q, "*2\r\n$4\r\nTYPE\r\n$2\r\nst\r\n", 0),
        "+stream\r\n"
    );
    assert_eq!(
        reply(&mut s, &mut q, "*2\r\n$4\r\nTYPE\r\n$2\r\nzz\r\n", 0),
        "+none\r\n"
    );
}

#[test]
fn incr_counts_up() {
    let mut s = new_state(Role::Master);
    let mut q: Buffer = None;
    reply(&mut s, &mut q, "*3\r\n$3\r\nSET\r\n$1\r\na\r\n$1\r\n1\r\n", 0);
    assert_eq!(
        reply(&mut s, &mut q, "*2\r\n$4\r\nINCR\r\n$1\r\na\r\n", 0),
        "+2\r\n"
    );
    assert_eq!(
        reply(&mut s, &mut q, "*2\r\n$4\r\nINCR\r\n$1\r\na\r\n", 0),
        "+3\r\n"
    );
}

#[test]
fn incr_rejects_non_integer() {
    let mut s = new_state(Role::Master);
    let mut q: Buffer = None;
    reply(&mut s, &mut q, "*3\r\n$3\r\nSET\r\n$1\r\na\r\n$2\r\nxy\r\n", 0);
    assert_eq!(
        reply(&mut s, &mut q, "*2\r\n$4\r\nINCR\r\n$1\r\na\r\n", 0),
        "+ERR value is not an integer or out of range\r\n"
    );
}

#[test]
fn xadd_then_regressing_id_is_refused() {
    let mut s = new_state(Role::Master);
    let mut q: Buffer = None;
    let xadd = "*5\r\n$4\r\nXADD\r\n$1\r\ns\r\n$3\r\n1-1\r\n$1\r\nf\r\n$1\r\nv\r\n";
    assert_eq!(reply(&mut s, &mut q, xadd, 0), "$3\r\n1-1\r\n");
    assert_eq!(
        reply(&mut s, &mut q, xadd, 0),
        "+ERR The ID specified in XADD is equal or smaller than the target stream top item\r\n"
    );
}

#[test]
fn xadd_zero_id_is_refused() {
    let mut s = new_state(Role::Master);
    let mut q: Buffer = None;
    let xadd = "*5\r\n$4\r\nXADD\r\n$1\r\ns\r\n$3\r\n0-0\r\n$1\r\nf\r\n$1\r\nv\r\n";
    assert_eq!(
        reply(&mut s, &mut q, xadd, 0),
        "+ERR The ID specified in XADD must be greater than 0-0\r\n"
    );
}

#[test]
fn xadd_wildcard_seq_counts_up() {
    let mut s = new_state(Role::Master);
    let mut q: Buffer = None;
    let a = "*5\r\n$4\r\nXADD\r\n$1\r\ns\r\n$3\r\n5-*\r\n$1\r\nf\r\n$1\r\nv\r\n";
    assert_eq!(reply(&mut s, &mut q, a, 0), "$3\r\n5-0\r\n");
    assert_eq!(reply(&mut s, &mut q, a, 0), "$3\r\n5-1\r\n");
    let out = run_at(&mut s, &mut q, a, 0);
    assert!(out.wake_blockers);
}

#[test]
fn xadd_ids_strictly_increase() {
    let mut s = new_state(Role::Master);
    let mut q: Buffer = None;
    reply(
        &mut s,
        &mut q,
        "*5\r\n$4\r\nXADD\r\n$1\r\ns\r\n$3\r\n1-1\r\n$1\r\nf\r\n$1\r\nv\r\n",
        0,
    );
    reply(
        &mut s,
        &mut q,
        "*5\r\n$4\r\nXADD\r\n$1\r\ns\r\n$3\r\n2-1\r\n$1\r\nf\r\n$1\r\nw\r\n",
        0,
    );
    let out = reply(
        &mut s,
        &mut q,
        "*4\r\n$6\r\nXRANGE\r\n$1\r\ns\r\n$1\r\n-\r\n$1\r\n+\r\n",
        0,
    );
    assert_eq!(
        out,
        "*4\r\n$3\r\n1-1\r\n*2\r\n$1\r\nf\r\n$1\r\nv\r\n$3\r\n2-1\r\n*2\r\n$1\r\nf\r\n$1\r\nw\r\n"
    );
}

#[test]
fn xrange_bounds_are_inclusive() {
    let mut s = new_state(Role::Master);
    let mut q: Buffer = None;
    for id in ["1-1", "2-1", "3-1"] {
        let wire = format!(
            "*5\r\n$4\r\nXADD\r\n$1\r\ns\r\n$3\r\n{}\r\n$1\r\nf\r\n$1\r\nv\r\n",
            id
        );
        reply(&mut s, &mut q, wire.as_str(), 0);
    }
    let out = reply(
        &mut s,
        &mut q,
        "*4\r\n$6\r\nXRANGE\r\n$1\r\ns\r\n$3\r\n2-1\r\n$3\r\n3-1\r\n",
        0,
    );
    assert_eq!(
        out,
        "*4\r\n$3\r\n2-1\r\n*2\r\n$1\r\nf\r\n$1\r\nv\r\n$3\r\n3-1\r\n*2\r\n$1\r\nf\r\n$1\r\nv\r\n"
    );
    let none = reply(
        &mut s,
        &mut q,
        "*4\r\n$6\r\nXRANGE\r\n$2\r\nzz\r\n$1\r\n-\r\n$1\r\n+\r\n",
        0,
    );
    assert_eq!(none, "+none\r\n");
}

#[test]
fn xread_returns_entries_after_id() {
    let mut s = new_state(Role::Master);
    let mut q: Buffer = None;
    reply(
        &mut s,
        &mut q,
        "*5\r\n$4\r\nXADD\r\n$1\r\ns\r\n$3\r\n1-1\r\n$1\r\nf\r\n$1\r\nv\r\n",
        0,
    );
    reply(
        &mut s,
        &mut q,
        "*5\r\n$4\r\nXADD\r\n$1\r\ns\r\n$3\r\n2-1\r\n$1\r\nf\r\n$1\r\nw\r\n",
        0,
    );
    let out = reply(
        &mut s,
        &mut q,
        "*4\r\n$5\r\nXREAD\r\n$7\r\nSTREAMS\r\n$1\r\ns\r\n$3\r\n1-1\r\n",
        0,
    );
    assert_eq!(
        out,
        "*2\r\n$1\r\ns\r\n*2\r\n$3\r\n2-1\r\n*2\r\n$1\r\nf\r\n$1\r\nw\r\n"
    );
}

#[test]
fn multi_queues_and_exec_replays() {
    let mut s = new_state(Role::Master);
    let mut q: Buffer = None;
    assert_eq!(reply(&mut s, &mut q, "*1\r\n$5\r\nMULTI\r\n", 0), "+ok\r\n");
    assert_eq!(
        reply(&mut s, &mut q, "*3\r\n$3\r\nSET\r\n$1\r\na\r\n$1\r\n1\r\n", 0),
        "+QUEUED\r\n"
    );
    assert_eq!(
        reply(&mut s, &mut q, "*2\r\n$4\r\nINCR\r\n$1\r\na\r\n", 0),
        "+QUEUED\r\n"
    );
    // nothing has touched the store while the transaction is open
    let probe = s.storage.get_at("a", 0);
    assert!(probe.is_none());
    assert_eq!(
        reply(&mut s, &mut q, "*1\r\n$4\r\nEXEC\r\n", 0),
        "*2\r\n+ok\r\n+2\r\n"
    );
    assert_eq!(
        reply(&mut s, &mut q, "*2\r\n$3\r\nGET\r\n$1\r\na\r\n", 0),
        "+2\r\n"
    );
}

#[test]
fn discard_drops_the_buffer() {
    let mut s = new_state(Role::Master);
    let mut q: Buffer = None;
    reply(&mut s, &mut q, "*1\r\n$5\r\nMULTI\r\n", 0);
    reply(&mut s, &mut q, "*3\r\n$3\r\nSET\r\n$1\r\na\r\n$1\r\n1\r\n", 0);
    assert_eq!(reply(&mut s, &mut q, "*1\r\n$7\r\nDISCARD\r\n", 0), "+ok\r\n");
    assert_eq!(
        reply(&mut s, &mut q, "*2\r\n$3\r\nGET\r\n$1\r\na\r\n", 0),
        "$-1\r\n"
    );
    assert_eq!(
        reply(&mut s, &mut q, "*1\r\n$7\r\nDISCARD\r\n", 0),
        "+ERR Discard without MULTI\r\n"
    );
    assert_eq!(
        reply(&mut s, &mut q, "*1\r\n$4\r\nEXEC\r\n", 0),
        "+ERR EXEC without MULTI\r\n"
    );
}

#[test]
fn offset_advances_by_encoded_frame_length() {
    let mut s = new_state(Role::Master);
    let mut q: Buffer = None;
    let ping = "*1\r\n$4\r\nPING\r\n";
    reply(&mut s, &mut q, ping, 0);
    assert_eq!(s.offset as usize, ping.len());
    let set = "*3\r\n$3\r\nSET\r\n$1\r\na\r\n$1\r\n1\r\n";
    reply(&mut s, &mut q, set, 0);
    assert_eq!(s.offset as usize, ping.len() + set.len());
}

#[test]
fn replconf_getack_reports_offset() {
    let mut s = new_state(Role::Master);
    let mut q: Buffer = None;
    let ping = "*1\r\n$4\r\nPING\r\n";
    reply(&mut s, &mut q, ping, 0);
    let out = reply(
        &mut s,
        &mut q,
        "*3\r\n$8\r\nREPLCONF\r\n$6\r\nGETACK\r\n$1\r\n*\r\n",
        0,
    );
    assert_eq!(out, "*3\r\n$8\r\nREPLCONF\r\n$3\r\nACK\r\n$2\r\n14\r\n");
    let ok = reply(
        &mut s,
        &mut q,
        "*3\r\n$8\r\nREPLCONF\r\n$14\r\nlistening-port\r\n$4\r\n6380\r\n",
        0,
    );
    assert_eq!(ok, "+OK\r\n");
}

#[test]
fn info_and_config() {
    let mut s = new_state(Role::Master);
    let mut q: Buffer = None;
    let info = reply(
        &mut s,
        &mut q,
        "*2\r\n$4\r\nINFO\r\n$11\r\nreplication\r\n",
        0,
    );
    let body = "role:master\nmaster_replid:8371b4fb1155b71f4a04d3e1bc3e18c4a990aeea\nmaster_repl_offset:0\n";
    assert_eq!(info, format!("${}\r\n{}\r\n", body.len(), body));
    let dir = reply(
        &mut s,
        &mut q,
        "*3\r\n$6\r\nCONFIG\r\n$3\r\nGET\r\n$3\r\ndir\r\n",
        0,
    );
    assert_eq!(dir, "*2\r\n$3\r\ndir\r\n$4\r\n/tmp\r\n");
}

#[test]
fn leader_forwards_writes_in_order() {
    let mut leader = new_state(Role::Master);
    let mut q: Buffer = None;
    let set1 = "*3\r\n$3\r\nSET\r\n$1\r\na\r\n$1\r\n1\r\n";
    let set2 = "*3\r\n$3\r\nSET\r\n$1\r\nb\r\n$1\r\n2\r\n";
    let out1 = run_at(&mut leader, &mut q, set1, 0);
    assert_eq!(out1.to_replicate.len(), 1);
    // the forwarded frame is the parsed one, its bulk strings lowercased
    assert_eq!(
        out1.to_replicate[0].encode(),
        "*3\r\n$3\r\nset\r\n$1\r\na\r\n$1\r\n1\r\n"
    );
    let out2 = run_at(&mut leader, &mut q, set2, 0);
    assert_eq!(out2.to_replicate.len(), 1);
    assert_eq!(
        out2.to_replicate[0].encode(),
        "*3\r\n$3\r\nset\r\n$1\r\nb\r\n$1\r\n2\r\n"
    );
    // reads do not replicate
    let out3 = run_at(&mut leader, &mut q, "*2\r\n$3\r\nGET\r\n$1\r\na\r\n", 0);
    assert_eq!(out3.to_replicate.len(), 0);
}

#[test]
fn follower_applies_replicated_writes() {
    let mut follower = new_state(Role::Slave);
    let mut q: Buffer = None;
    let set = "*3\r\n$3\r\nSET\r\n$1\r\na\r\n$1\r\n1\r\n";
    let (cmd, frame) = Cmd::from(set).unwrap();
    // the replication link may write
    let out = execute(&mut follower, cmd, frame, true, &mut q, 0).unwrap();
    assert_eq!(out.resp.encode(), "+ok\r\n");
    assert_eq!(
        reply(&mut follower, &mut q, "*2\r\n$3\r\nGET\r\n$1\r\na\r\n", 0),
        "+1\r\n"
    );
}

#[test]
fn client_writes_on_follower_are_refused() {
    let mut follower = new_state(Role::Slave);
    let mut q: Buffer = None;
    let set = "*3\r\n$3\r\nSET\r\n$1\r\na\r\n$1\r\n1\r\n";
    assert_eq!(
        reply(&mut follower, &mut q, set, 0),
        "+DISALLOW WRITE ON SLAVE\r\n"
    );
    // and the store was not touched
    assert_eq!(
        reply(&mut follower, &mut q, "*2\r\n$3\r\nGET\r\n$1\r\na\r\n", 0),
        "$-1\r\n"
    );
}

#[test]
fn psync_on_leader_starts_fullresync() {
    let mut leader = new_state(Role::Master);
    let mut q: Buffer = None;
    let psync = "*3\r\n$5\r\nPSYNC\r\n$1\r\n?\r\n$2\r\n-1\r\n";
    let out = run_at(&mut leader, &mut q, psync, 0);
    assert!(out.fullresync);
    assert_eq!(
        out.resp.encode(),
        "+FULLRESYNC 8371b4fb1155b71f4a04d3e1bc3e18c4a990aeea 0\r\n"
    );
    let mut follower = new_state(Role::Slave);
    let out2 = run_at(&mut follower, &mut q, psync, 0);
    assert!(!out2.fullresync);
    assert_eq!(out2.resp.encode(), "+PSYNC ON SLAVE IS NOT ALLOWED\r\n");
}

#[test]
fn echo_replies_the_lowercased_payload() {
    // the decoder lowercases bulk strings, so the echoed text is
    // normalized too
    let mut s = new_state(Role::Master);
    let mut q: Buffer = None;
    assert_eq!(
        reply(&mut s, &mut q, "*2\r\n$4\r\nECHO\r\n$5\r\nHeLLo\r\n", 0),
        "+hello\r\n"
    );
}

#[test]
fn state_from_options() {
    let option = redis_rs::options::DBOption {
        dir: String::from("/tmp"),
        db_file_name: String::from("dump.rdb"),
        port: 6379,
        replication: redis_rs::options::ReplicationOption {
            role: String::from("slave"),
            master_replid: String::from("id"),
            master_repl_offset: 0,
            replica_of: Some(String::from("localhost 6379")),
        },
    };
    let s = redis_rs::engine::ServerState::new(option);
    assert!(matches!(s.role, Role::Slave));
    assert_eq!(s.offset, 0);
    assert_eq!(s.dir, "/tmp");
}

#[test]
fn key_kinds_are_exclusive() {
    let mut s = new_state(Role::Master);
    let mut q: Buffer = None;
    // the first write wins the key's kind
    reply(&mut s, &mut q, "*3\r\n$3\r\nSET\r\n$1\r\nk\r\n$1\r\nv\r\n", 0);
    let xadd = "*5\r\n$4\r\nXADD\r\n$1\r\nk\r\n$3\r\n1-1\r\n$1\r\nf\r\n$1\r\nv\r\n";
    assert_eq!(
        reply(&mut s, &mut q, xadd, 0),
        "+ERR Operation against a key holding the wrong kind of value\r\n"
    );
    // and the stream side was not touched
    assert_eq!(
        reply(&mut s, &mut q, "*2\r\n$4\r\nTYPE\r\n$1\r\nk\r\n", 0),
        "+string\r\n"
    );
    // the other way round
    let xadd2 = "*5\r\n$4\r\nXADD\r\n$1\r\ns\r\n$3\r\n1-1\r\n$1\r\nf\r\n$1\r\nv\r\n";
    reply(&mut s, &mut q, xadd2, 0);
    assert_eq!(
        reply(&mut s, &mut q, "*3\r\n$3\r\nSET\r\n$1\r\ns\r\n$1\r\nv\r\n", 0),
        "+ERR Operation against a key holding the wrong kind of value\r\n"
    );
    assert_eq!(
        reply(&mut s, &mut q, "*2\r\n$4\r\nINCR\r\n$1\r\ns\r\n", 0),
        "+ERR Operation against a key holding the wrong kind of value\r\n"
    );
    assert_eq!(
        reply(&mut s, &mut q, "*2\r\n$4\r\nTYPE\r\n$1\r\ns\r\n", 0),
        "+stream\r\n"
    );
}

#[test]
fn del_frees_the_keys_kind() {
    let mut s = new_state(Role::Master);
    let mut q: Buffer = None;
    reply(&mut s, &mut q, "*3\r\n$3\r\nSET\r\n$1\r\nk\r\n$1\r\nv\r\n", 0);
    reply(&mut s, &mut q, "*2\r\n$3\r\nDEL\r\n$1\r\nk\r\n", 0);
    let xadd = "*5\r\n$4\r\nXADD\r\n$1\r\nk\r\n$3\r\n1-1\r\n$1\r\nf\r\n$1\r\nv\r\n";
    assert_eq!(reply(&mut s, &mut q, xadd, 0), "$3\r\n1-1\r\n");
}

#[test]
fn expired_string_frees_the_keys_kind() {
    let mut s = new_state(Role::Master);
    let mut q: Buffer = None;
    let set = "*5\r\n$3\r\nSET\r\n$1\r\nk\r\n$1\r\nv\r\n$2\r\nPX\r\n$3\r\n100\r\n";
    reply(&mut s, &mut q, set, 1_000);
    let xadd = "*5\r\n$4\r\nXADD\r\n$1\r\nk\r\n$3\r\n1-1\r\n$1\r\nf\r\n$1\r\nv\r\n";
    // before the deadline the key is still a string
    assert_eq!(
        reply(&mut s, &mut q, xadd, 1_050),
        "+ERR Operation against a key holding the wrong kind of value\r\n"
    );
    // past the deadline the string lapses and the append wins the key
    assert_eq!(reply(&mut s, &mut q, xadd, 1_200), "$3\r\n1-1\r\n");
    assert_eq!(
        reply(&mut s, &mut q, "*2\r\n$4\r\nTYPE\r\n$1\r\nk\r\n", 1_200),
        "+stream\r\n"
    );
}

#[test]
fn wrongtype_writes_are_not_replicated() {
    let mut s = new_state(Role::Master);
    let mut q: Buffer = None;
    let xadd = "*5\r\n$4\r\nXADD\r\n$1\r\ns\r\n$3\r\n1-1\r\n$1\r\nf\r\n$1\r\nv\r\n";
    reply(&mut s, &mut q, xadd, 0);
    let out = run_at(&mut s, &mut q, "*3\r\n$3\r\nSET\r\n$1\r\ns\r\n$1\r\nv\r\n", 0);
    assert_eq!(out.to_replicate.len(), 0);
    assert!(!out.wake_blockers);
}

#[test]
fn replies_owed_to_clients_and_for_getack() {
    let mut s = new_state(Role::Slave);
    let mut q: Buffer = None;
    let set = "*3\r\n$3\r\nSET\r\n$1\r\na\r\n$1\r\n1\r\n";
    let getack = "*3\r\n$8\r\nREPLCONF\r\n$6\r\nGETACK\r\n$1\r\n*\r\n";
    // on the replication link, only a getack is answered
    let (cmd, frame) = Cmd::from(set).unwrap();
    let out = execute(&mut s, cmd, frame, true, &mut q, 0).unwrap();
    assert!(!out.reply_owed);
    let (cmd, frame) = Cmd::from(getack).unwrap();
    let out = execute(&mut s, cmd, frame, true, &mut q, 0).unwrap();
    assert!(out.reply_owed);
    assert_eq!(out.resp.encode(), "*3\r\n$8\r\nREPLCONF\r\n$3\r\nACK\r\n$2\r\n27\r\n");
    // on a client connection every reply is owed
    let out = run_at(&mut s, &mut q, "*1\r\n$4\r\nPING\r\n", 0);
    assert!(out.reply_owed);
}
