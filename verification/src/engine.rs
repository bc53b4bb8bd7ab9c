//! The command engine: what each command does to the server's state and
//! what it replies.
//!
//! The engine is pure with respect to the outside world: the wall clock
//! comes in as an argument, and everything the caller must do afterwards
//! (reply, fan writes out to followers, wake blocked stream readers,
//! start a snapshot transfer) is returned as data.
use vstd::prelude::*;
use vstd::string::StrSliceExecFns;
use vstd::string::StringExecFns;
use vstd::map::*;
use crate::cmd::Cmd;
use crate::cmd::CmdModel;
use crate::cmd::split_offset_spec;
use crate::cmd::try_split_offset;
use crate::error::DBError;
use crate::protocol::FrameModel;
use crate::protocol::Protocol;
use crate::protocol::dec_digits;
use crate::protocol::encode_spec;
use crate::protocol::parse_dec;
use crate::storage::Storage;
use crate::storage::after_get;
use crate::storage::get_result;
use crate::storage::sat_add_u128;
use crate::streams::EntryView;
use crate::streams::StreamEntry;
use crate::streams::StreamId;
use crate::streams::StreamSet;
use crate::streams::XaddError;
use crate::streams::after_of;
use crate::streams::last_id_of;
use crate::streams::range_of;
use crate::streams::resolve_id;
use crate::streams::stream_of;

verus! {

/// Whether this server accepts writes from clients or replays a leader.
#[derive(PartialEq, Eq, Structural, Clone, Copy, Debug)]
pub enum Role {
    Master,
    Slave,
}

/// The server's whole mutable state, plus its fixed configuration.
pub struct ServerState {
    pub storage: Storage,
    pub streams: StreamSet,
    pub offset: u64,
    pub dir: String,
    pub db_file_name: String,
    pub role: Role,
    pub master_replid: String,
    pub master_repl_offset: u64,
}

/// The model of the server's state.
pub struct StateModel {
    pub storage: Map<Seq<char>, (Seq<char>, Option<u128>)>,
    pub streams: Map<Seq<char>, Seq<EntryView>>,
    pub offset: u64,
    pub dir: Seq<char>,
    pub db_file_name: Seq<char>,
    pub role: Role,
    pub master_replid: Seq<char>,
    pub master_repl_offset: u64,
}

impl View for ServerState {
    type V = StateModel;

    open spec fn view(&self) -> StateModel {
        StateModel {
            storage: self.storage@,
            streams: self.streams@,
            offset: self.offset,
            dir: self.dir@,
            db_file_name: self.db_file_name@,
            role: self.role,
            master_replid: self.master_replid@,
            master_repl_offset: self.master_repl_offset,
        }
    }
}

impl ServerState {
    pub open spec fn wf(&self) -> bool {
        self.storage.wf() && self.streams.wf()
    }

    /// A fresh server from its configuration: an empty keyspace, no
    /// streams, a zero offset, and the follower role exactly when the
    /// role is configured as `slave`.
    pub fn new(option: crate::options::DBOption) -> (r: ServerState)
        ensures
            r.wf(),
            r@.storage == Map::<Seq<char>, (Seq<char>, Option<u128>)>::empty(),
            r@.streams == Map::<Seq<char>, Seq<EntryView>>::empty(),
            r@.offset == 0,
            r@.dir == option.dir@,
            r@.db_file_name == option.db_file_name@,
            r@.role == (if option.replication.role@ == "slave"@ {
                Role::Slave
            } else {
                Role::Master
            }),
            r@.master_replid == option.replication.master_replid@,
            r@.master_repl_offset == option.replication.master_repl_offset,
            disjoint_kinds(r@),
    {
        let role = if crate::cmd::word_is(&option.replication.role, "slave") {
            Role::Slave
        } else {
            Role::Master
        };
        ServerState {
            storage: Storage::new(),
            streams: StreamSet::new(),
            offset: 0,
            dir: option.dir,
            db_file_name: option.db_file_name,
            role,
            master_replid: option.replication.master_replid,
            master_repl_offset: option.replication.master_repl_offset,
        }
    }
}

/// What the caller does after a command: reply with the frame, forward
/// the original frame to every follower, wake blocked stream readers,
/// and, for a sync request on the leader, send the snapshot and attach
/// the connection to the fan-out set.
pub struct ExecOutcome {
    pub resp: Protocol,
    pub to_replicate: Vec<Protocol>,
    pub wake_blockers: bool,
    pub fullresync: bool,
    pub reply_owed: bool,
}

/// The saturating sum, for the replication offset.
pub open spec fn sat_add_u64(a: u64, b: int) -> u64 {
    if a + b > u64::MAX {
        u64::MAX
    } else {
        (a + b) as u64
    }
}

/// The saturating product, for second-to-millisecond expiry conversion.
pub open spec fn sat_mul_1000(x: u128) -> u128 {
    if x * 1000 > u128::MAX {
        u128::MAX
    } else {
        (x * 1000) as u128
    }
}

/// Whether a command arriving on this kind of connection may mutate the
/// store: every write on the leader, and only replicated writes on a
/// follower.
pub open spec fn write_allowed(role: Role, is_rep_con: bool) -> bool {
    role == Role::Master || is_rep_con
}

/// The key a write command touches.
pub open spec fn write_key(c: CmdModel) -> Seq<char> {
    match c {
        CmdModel::SetVal(k, _) => k,
        CmdModel::SetPx(k, _, _) => k,
        CmdModel::SetEx(k, _, _) => k,
        CmdModel::Del(k) => k,
        CmdModel::Xadd(k, _, _) => k,
        _ => Seq::empty(),
    }
}

/// A key names a string or a stream, never both at once: the first
/// write wins the key's kind until DEL removes it.
pub open spec fn disjoint_kinds(m: StateModel) -> bool {
    forall|k: Seq<char>|
        !(#[trigger] m.storage.contains_key(k) && #[trigger] m.streams.contains_key(k))
}

/// What a string-keyspace write does to the keyspace, at one instant.
pub open spec fn apply_write(
    m: Map<Seq<char>, (Seq<char>, Option<u128>)>,
    c: CmdModel,
    now: u128,
) -> Map<Seq<char>, (Seq<char>, Option<u128>)> {
    match c {
        CmdModel::SetVal(k, v) => m.insert(k, (v, None)),
        CmdModel::SetPx(k, v, x) => m.insert(k, (v, Some(sat_add_u128(x, now)))),
        CmdModel::SetEx(k, v, x) => m.insert(k, (v, Some(sat_add_u128(sat_mul_1000(x), now)))),
        CmdModel::Del(k) => m.remove(k),
        _ => m,
    }
}

/// The text `ms-seq` of a stream id.
pub open spec fn id_text(id: StreamId) -> Seq<char> {
    dec_digits(id.ms as int) + seq!['-'] + dec_digits(id.seq as int)
}

/// The reply listing a range of stream entries: for each entry its id,
/// then its fields and values as one flat array.
pub open spec fn entry_frames(es: Seq<EntryView>) -> Seq<FrameModel>
    decreases es.len(),
{
    if es.len() == 0 {
        Seq::empty()
    } else {
        seq![
            FrameModel::BulkString(id_text(es[0].0)),
            FrameModel::Array(field_frames(es[0].1)),
        ] + entry_frames(es.drop_first())
    }
}

/// A flat array of field and value texts, in order.
pub open spec fn field_frames(ps: Seq<(Seq<char>, Seq<char>)>) -> Seq<FrameModel>
    decreases ps.len(),
{
    if ps.len() == 0 {
        Seq::empty()
    } else {
        seq![FrameModel::BulkString(ps[0].0), FrameModel::BulkString(ps[0].1)] + field_frames(
            ps.drop_first(),
        )
    }
}

/// The role's name as reported by INFO.
pub open spec fn role_text(r: Role) -> Seq<char> {
    match r {
        Role::Master => "master"@,
        Role::Slave => "slave"@,
    }
}

/// The INFO replication section.
pub open spec fn info_text(m: StateModel) -> Seq<char> {
    "role:"@ + role_text(m.role) + "\nmaster_replid:"@ + m.master_replid
        + "\nmaster_repl_offset:"@ + dec_digits(m.master_repl_offset as int) + "\n"@
}

/// The streams a read crosses and what it returns from each: for each
/// requested key that names a stream, the key and then the entries
/// strictly after the requested id.  A key whose id request is malformed
/// poisons the whole read.
pub open spec fn xread_frames_at(
    m: Map<Seq<char>, Seq<EntryView>>,
    keys: Seq<Seq<char>>,
    ids: Seq<Seq<char>>,
    i: int,
) -> Option<Seq<FrameModel>>
    decreases keys.len() - i,
{
    if i >= keys.len() {
        Some(Seq::empty())
    } else {
        let rest = xread_frames_at(m, keys, ids, i + 1);
        if m.contains_key(keys[i]) {
            if i >= ids.len() {
                None
            } else {
                match split_offset_spec(ids[i]) {
                    None => None,
                    Some((ms, seq0, _)) => match rest {
                        None => None,
                        Some(fs) => Some(
                            seq![
                                FrameModel::BulkString(keys[i]),
                                FrameModel::Array(
                                    entry_frames(after_of(m[keys[i]], StreamId { ms, seq: seq0 })),
                                ),
                            ] + fs,
                        ),
                    },
                }
            }
        } else {
            rest
        }
    }
}

pub open spec fn xread_frames(
    m: Map<Seq<char>, Seq<EntryView>>,
    keys: Seq<Seq<char>>,
    ids: Seq<Seq<char>>,
) -> Option<Seq<FrameModel>> {
    xread_frames_at(m, keys, ids, 0)
}

/// The wall clock truncated to the 64 bits a stream id's millisecond
/// part holds.
pub open spec fn now_ms_of(now: u128) -> u64 {
    (now % 0x1_0000_0000_0000_0000) as u64
}

/// The id an append request text asks for: `*` is the current time with
/// an open sequence part, anything else is split at its dashes.
pub open spec fn xadd_request(off: Seq<char>, now: u128) -> Option<(u64, u64, bool)> {
    if off == "*"@ {
        let ms = now_ms_of(now);
        Some(
            (
                ms,
                if ms == 0 {
                    1u64
                } else {
                    0u64
                },
                true,
            ),
        )
    } else {
        split_offset_spec(off)
    }
}

/// A range bound: `-` is the least id, `+` the greatest, and a bare
/// millisecond part covers the whole millisecond.
pub open spec fn xrange_bound(t: Seq<char>, is_end: bool) -> Option<StreamId> {
    if !is_end && t == "-"@ {
        Some(StreamId { ms: 0, seq: 0 })
    } else if is_end && t == "+"@ {
        Some(StreamId { ms: u64::MAX, seq: u64::MAX })
    } else {
        match split_offset_spec(t) {
            Some((ms, seq0, wild)) => Some(
                StreamId {
                    ms,
                    seq: if wild {
                        if is_end {
                            u64::MAX
                        } else {
                            0u64
                        }
                    } else {
                        seq0
                    },
                },
            ),
            None => None,
        }
    }
}

/// What INCR parses: a missing key counts as holding 1, per the
/// increment-from-one behavior of this server.
pub open spec fn incr_parsed(v: Option<Seq<char>>) -> Option<int> {
    match v {
        None => Some(1),
        Some(t) => parse_dec(t, u64::MAX as int),
    }
}

/// A command the engine cannot answer inline: the connection is torn
/// down.  Only an unsupported CONFIG name or INFO section does this.
pub open spec fn step_fatal(c: CmdModel) -> bool {
    match c {
        CmdModel::ConfigGet(name) => name != "dir"@ && name != "dbfilename"@,
        CmdModel::Info(o) => match o {
            Some(s) => s != "replication"@,
            None => false,
        },
        _ => false,
    }
}

/// The state a command leaves behind, before the offset advances.
#[verifier::opaque]
pub open spec fn step_state(m: StateModel, c: CmdModel, is_rep: bool, now: u128) -> StateModel {
    let allowed = write_allowed(m.role, is_rep);
    match c {
        CmdModel::SetVal(_, _) | CmdModel::SetPx(_, _, _) | CmdModel::SetEx(_, _, _) => if
        m.streams.contains_key(write_key(c)) {
            m
        } else if allowed {
            StateModel { storage: apply_write(m.storage, c, now), ..m }
        } else {
            m
        },
        CmdModel::Del(k) => if allowed {
            StateModel { storage: m.storage.remove(k), streams: m.streams.remove(k), ..m }
        } else {
            m
        },
        CmdModel::Get(k) => StateModel { storage: after_get(m.storage, k, now), ..m },
        CmdModel::Type(k) => StateModel { storage: after_get(m.storage, k, now), ..m },
        CmdModel::Incr(k) => if m.streams.contains_key(k) {
            m
        } else {
            let read = get_result(m.storage, k, now);
            let cleaned = after_get(m.storage, k, now);
            match incr_parsed(read) {
                Some(x) => if x + 1 <= u64::MAX {
                    StateModel {
                        storage: cleaned.insert(k, (dec_digits(x + 1), None)),
                        ..m
                    }
                } else {
                    StateModel { storage: cleaned, ..m }
                },
                None => StateModel { storage: cleaned, ..m },
            }
        },
        CmdModel::Xadd(key, off, pairs) => match xadd_request(off, now) {
            None => m,
            Some((ms, seq0, wild)) => {
                let cleaned = StateModel { storage: after_get(m.storage, key, now), ..m };
                if get_result(m.storage, key, now) is Some {
                    cleaned
                } else {
                    match resolve_id(last_id_of(stream_of(m.streams, key)), ms, seq0, wild) {
                        Ok(id) => if allowed {
                            StateModel {
                                streams: m.streams.insert(
                                    key,
                                    stream_of(m.streams, key).push((id, pairs)),
                                ),
                                ..cleaned
                            }
                        } else {
                            cleaned
                        },
                        Err(_) => cleaned,
                    }
                }
            },
        },
        _ => m,
    }
}

/// Whether the reply frame is the one the command owes, given the state
/// it ran against.  Exact for every command; the key listing alone is
/// pinned up to its unspecified order.
#[verifier::opaque]
pub open spec fn resp_ok(m: StateModel, c: CmdModel, is_rep: bool, now: u128, r: FrameModel) -> bool {
    let allowed = write_allowed(m.role, is_rep);
    match c {
        CmdModel::Ping => r == FrameModel::SimpleString("PONG"@),
        CmdModel::Echo(s) => r == FrameModel::SimpleString(s),
        CmdModel::Get(k) => match get_result(m.storage, k, now) {
            Some(v) => r == FrameModel::SimpleString(v),
            None => r == FrameModel::Null,
        },
        CmdModel::SetVal(_, _) | CmdModel::SetPx(_, _, _) | CmdModel::SetEx(_, _, _) => if
        m.streams.contains_key(write_key(c)) {
            r == FrameModel::SimpleString("ERR Operation against a key holding the wrong kind of value"@)
        } else if allowed {
            r == FrameModel::SimpleString("ok"@)
        } else {
            r == FrameModel::SimpleString("DISALLOW WRITE ON SLAVE"@)
        },
        CmdModel::Del(_) => if allowed {
            r == FrameModel::SimpleString("ok"@)
        } else {
            r == FrameModel::SimpleString("DISALLOW WRITE ON SLAVE"@)
        },
        CmdModel::Keys => r matches FrameModel::Array(v) && keys_listing_ok(m.storage, v),
        CmdModel::ConfigGet(name) => if name == "dir"@ {
            r == FrameModel::Array(
                seq![FrameModel::BulkString(name), FrameModel::BulkString(m.dir)],
            )
        } else if name == "dbfilename"@ {
            r == FrameModel::Array(
                seq![FrameModel::BulkString(name), FrameModel::BulkString(m.db_file_name)],
            )
        } else {
            false
        },
        CmdModel::Info(o) => match o {
            Some(s) => s == "replication"@ && r == FrameModel::BulkString(info_text(m)),
            None => r == FrameModel::BulkString("default"@),
        },
        CmdModel::Replconf(sub) => if sub == "getack"@ {
            r == FrameModel::Array(
                seq![
                    FrameModel::BulkString("REPLCONF"@),
                    FrameModel::BulkString("ACK"@),
                    FrameModel::BulkString(dec_digits(m.offset as int)),
                ],
            )
        } else {
            r == FrameModel::SimpleString("OK"@)
        },
        CmdModel::Psync => if m.role == Role::Master {
            r == FrameModel::SimpleString("FULLRESYNC "@ + m.master_replid + " 0"@)
        } else {
            r == FrameModel::SimpleString("PSYNC ON SLAVE IS NOT ALLOWED"@)
        },
        CmdModel::Type(k) => match get_result(m.storage, k, now) {
            Some(_) => r == FrameModel::SimpleString("string"@),
            None => if m.streams.contains_key(k) {
                r == FrameModel::SimpleString("stream"@)
            } else {
                r == FrameModel::SimpleString("none"@)
            },
        },
        CmdModel::Xadd(key, off, _) => match xadd_request(off, now) {
            None => r == FrameModel::SimpleString("ERR The ID specified in XADD must be a number"@),
            Some((ms, seq0, wild)) => if get_result(m.storage, key, now) is Some {
                r == FrameModel::SimpleString("ERR Operation against a key holding the wrong kind of value"@)
            } else {
                match resolve_id(
                last_id_of(stream_of(m.streams, key)),
                ms,
                seq0,
                wild,
            ) {
                Ok(id) => if allowed {
                    r == FrameModel::BulkString(id_text(id))
                } else {
                    r == FrameModel::SimpleString("DISALLOW WRITE ON SLAVE"@)
                },
                Err(XaddError::ZeroId) => r == FrameModel::SimpleString(
                    "ERR The ID specified in XADD must be greater than 0-0"@,
                ),
                Err(XaddError::NotGreater) => r == FrameModel::SimpleString(
                    "ERR The ID specified in XADD is equal or smaller than the target stream top item"@,
                ),
            }
            },
        },
        CmdModel::Xrange(key, s, e) => match (xrange_bound(s, false), xrange_bound(e, true)) {
            (Some(lo), Some(hi)) => if m.streams.contains_key(key) {
                r == FrameModel::Array(entry_frames(range_of(m.streams[key], lo, hi)))
            } else {
                r == FrameModel::SimpleString("none"@)
            },
            _ => r == FrameModel::SimpleString(
                "ERR Invalid stream ID specified as stream command argument"@,
            ),
        },
        CmdModel::Xread(keys, ids, _) => match xread_frames(m.streams, keys, ids) {
            Some(fs) => r == FrameModel::Array(fs),
            None => r == FrameModel::SimpleString(
                "ERR Invalid stream ID specified as stream command argument"@,
            ),
        },
        CmdModel::Incr(k) => if m.streams.contains_key(k) {
            r == FrameModel::SimpleString("ERR Operation against a key holding the wrong kind of value"@)
        } else {
            match incr_parsed(get_result(m.storage, k, now)) {
                Some(x) => if x + 1 <= u64::MAX {
                    r == FrameModel::SimpleString(dec_digits(x + 1))
                } else {
                    r == FrameModel::SimpleString("ERR value is not an integer or out of range"@)
                },
                None => r == FrameModel::SimpleString(
                    "ERR value is not an integer or out of range"@,
                ),
            }
        },
        CmdModel::Multi => r == FrameModel::SimpleString("ok"@),
        CmdModel::Exec => r == FrameModel::SimpleString("ERR EXEC without MULTI"@),
        CmdModel::Discard => r == FrameModel::SimpleString("ERR Discard without MULTI"@),
        CmdModel::Unknow => r == FrameModel::SimpleString("unknow cmd"@),
    }
}

/// The key listing: every listed key is a current key, every current key
/// is listed once, in whatever order.
pub open spec fn keys_listing_ok(
    sm: Map<Seq<char>, (Seq<char>, Option<u128>)>,
    v: Seq<FrameModel>,
) -> bool {
    &&& forall|i: int|
        0 <= i < v.len() ==> ((#[trigger] v[i]) matches FrameModel::BulkString(k)
            && sm.contains_key(k))
    &&& forall|k: Seq<char>|
        sm.contains_key(k) ==> exists|i: int|
            0 <= i < v.len() && #[trigger] v[i] == FrameModel::BulkString(k)
    &&& forall|i: int, j: int| 0 <= i < j < v.len() ==> #[trigger] v[i] != #[trigger] v[j]
}

/// Whether the leader forwards this command's frame to its followers:
/// every keyspace write, and a stream append that was accepted.
#[verifier::opaque]
pub open spec fn step_replicates(m: StateModel, c: CmdModel, now: u128) -> bool {
    m.role == Role::Master && match c {
        CmdModel::SetVal(_, _) | CmdModel::SetPx(_, _, _) | CmdModel::SetEx(_, _, _) =>
            !m.streams.contains_key(write_key(c)),
        CmdModel::Del(_) => true,
        CmdModel::Xadd(key, off, _) => match xadd_request(off, now) {
            Some((ms, seq0, wild)) => get_result(m.storage, key, now) is None && resolve_id(
                last_id_of(stream_of(m.streams, key)),
                ms,
                seq0,
                wild,
            ) is Ok,
            None => false,
        },
        _ => false,
    }
}

/// Whether blocked stream readers are woken: exactly when an append was
/// applied.
#[verifier::opaque]
pub open spec fn step_wakes(m: StateModel, c: CmdModel, is_rep: bool, now: u128) -> bool {
    write_allowed(m.role, is_rep) && match c {
        CmdModel::Xadd(key, off, _) => match xadd_request(off, now) {
            Some((ms, seq0, wild)) => get_result(m.storage, key, now) is None && resolve_id(
                last_id_of(stream_of(m.streams, key)),
                ms,
                seq0,
                wild,
            ) is Ok,
            None => false,
        },
        _ => false,
    }
}

/// Whether a snapshot transfer follows: a sync request on the leader.
pub open spec fn step_fullresync(m: StateModel, c: CmdModel) -> bool {
    m.role == Role::Master && c is Psync
}

/// Whether the connection is owed the reply: a client always, the
/// replication link only for an offset acknowledgement request, which a
/// follower must answer with its offset.
pub open spec fn step_replies(c: CmdModel, is_rep: bool) -> bool {
    !is_rep || (c matches CmdModel::Replconf(sub) && sub == "getack"@)
}

/// The state with its offset advanced by an encoded frame's length,
/// saturating.
#[verifier::opaque]
pub open spec fn bump(m: StateModel, f: FrameModel) -> StateModel {
    StateModel { offset: sat_add_u64(m.offset, encode_spec(f).len() as int), ..m }
}

/// Whether this connection's writes may touch the store.
fn allowed_here(state: &ServerState, is_rep_con: bool) -> (r: bool)
    ensures
        r == write_allowed(state@.role, is_rep_con),
{
    match state.role {
        Role::Master => true,
        Role::Slave => is_rep_con,
    }
}

/// Reads a key; an expired entry is removed and reads as absent.
fn get_cmd(state: &mut ServerState, k: &String, is_rep: bool, now: u128) -> (r: Protocol)
    requires
        old(state).wf(),
    ensures
        final(state).wf(),
        final(state)@ == step_state(old(state)@, CmdModel::Get(k@), is_rep, now),
        resp_ok(old(state)@, CmdModel::Get(k@), is_rep, now, r@),
{
    proof {
        reveal(step_state);
        reveal(resp_ok);
    }
    match state.storage.get_at(k.as_str(), now) {
        Some(v) => Protocol::SimpleString(v),
        None => Protocol::Null,
    }
}

/// Writes a key, under the write policy of this server's role.
fn set_cmd(state: &mut ServerState, k: &String, v: &String, is_rep: bool, now: u128) -> (r:
    Protocol)
    requires
        old(state).wf(),
    ensures
        final(state).wf(),
        final(state)@ == step_state(old(state)@, CmdModel::SetVal(k@, v@), is_rep, now),
        resp_ok(old(state)@, CmdModel::SetVal(k@, v@), is_rep, now, r@),
{
    proof {
        reveal(step_state);
        reveal(resp_ok);
    }
    if state.streams.contains(k.as_str()) {
        return Protocol::err("ERR Operation against a key holding the wrong kind of value");
    }
    if allowed_here(state, is_rep) {
        state.storage.set(k.clone(), v.clone());
        Protocol::ok()
    } else {
        Protocol::write_on_slave_err()
    }
}

/// Writes a key with a millisecond time-to-live.
fn set_px_cmd(state: &mut ServerState, k: &String, v: &String, x: u128, is_rep: bool, now: u128)
    -> (r: Protocol)
    requires
        old(state).wf(),
    ensures
        final(state).wf(),
        final(state)@ == step_state(old(state)@, CmdModel::SetPx(k@, v@, x), is_rep, now),
        resp_ok(old(state)@, CmdModel::SetPx(k@, v@, x), is_rep, now, r@),
{
    proof {
        reveal(step_state);
        reveal(resp_ok);
    }
    if state.streams.contains(k.as_str()) {
        return Protocol::err("ERR Operation against a key holding the wrong kind of value");
    }
    if allowed_here(state, is_rep) {
        state.storage.setx_at(k.clone(), v.clone(), x, now);
        Protocol::ok()
    } else {
        Protocol::write_on_slave_err()
    }
}

/// Writes a key with a time-to-live given in seconds.
fn set_ex_cmd(state: &mut ServerState, k: &String, v: &String, x: u128, is_rep: bool, now: u128)
    -> (r: Protocol)
    requires
        old(state).wf(),
    ensures
        final(state).wf(),
        final(state)@ == step_state(old(state)@, CmdModel::SetEx(k@, v@, x), is_rep, now),
        resp_ok(old(state)@, CmdModel::SetEx(k@, v@, x), is_rep, now, r@),
{
    proof {
        reveal(step_state);
        reveal(resp_ok);
    }
    if state.streams.contains(k.as_str()) {
        return Protocol::err("ERR Operation against a key holding the wrong kind of value");
    }
    if allowed_here(state, is_rep) {
        let ms = match x.checked_mul(1000) {
            Some(m) => m,
            None => u128::MAX,
        };
        state.storage.setx_at(k.clone(), v.clone(), ms, now);
        Protocol::ok()
    } else {
        Protocol::write_on_slave_err()
    }
}

/// Removes a key from the string keyspace and from the streams.
fn del_cmd(state: &mut ServerState, k: &String, is_rep: bool, now: u128) -> (r: Protocol)
    requires
        old(state).wf(),
    ensures
        final(state).wf(),
        final(state)@ == step_state(old(state)@, CmdModel::Del(k@), is_rep, now),
        resp_ok(old(state)@, CmdModel::Del(k@), is_rep, now, r@),
{
    proof {
        reveal(step_state);
        reveal(resp_ok);
    }
    if allowed_here(state, is_rep) {
        state.storage.del(k.clone());
        state.streams.remove(k.as_str());
        Protocol::ok()
    } else {
        Protocol::write_on_slave_err()
    }
}

/// Lists the current keys.
fn keys_cmd(state: &mut ServerState) -> (r: Protocol)
    requires
        old(state).wf(),
    ensures
        final(state).wf(),
        *final(state) == *old(state),
        resp_ok(old(state)@, CmdModel::Keys, false, 0, r@),
{
    proof {
        reveal(step_state);
        reveal(resp_ok);
    }
    let ks = state.storage.keys();
    let mut arr: Vec<Protocol> = Vec::new();
    let n = ks.len();
    let mut i: usize = 0;
    while i < n
        invariant
            i <= n,
            n == ks@.len(),
            arr@.len() == i,
            forall|j: int|
                0 <= j < i ==> crate::protocol::frame_views(arr@)[j] == FrameModel::BulkString(
                    (#[trigger] ks@[j])@,
                ),
            crate::protocol::frame_views(arr@).len() == i,
        decreases n - i,
    {
        let b = Protocol::BulkString(ks[i].clone());
        let ghost prev = arr@;
        let ghost gb = b;
        arr.push(b);
        proof {
            crate::protocol::lemma_frame_views_push(prev, gb);
        }
        i += 1;
    }
    proof {
        let v = crate::protocol::frame_views(arr@);
        assert forall|jj: int| 0 <= jj < v.len() implies ((#[trigger] v[jj])
            matches FrameModel::BulkString(k) && state@.storage.contains_key(k)) by {
            assert(v[jj] == FrameModel::BulkString(ks@[jj]@));
        }
        assert forall|k: Seq<char>| state@.storage.contains_key(k) implies exists|jj: int|
            0 <= jj < v.len() && #[trigger] v[jj] == FrameModel::BulkString(k) by {
            let jj = choose|jj: int| 0 <= jj < ks@.len() && (#[trigger] ks@[jj])@ == k;
            assert(v[jj] == FrameModel::BulkString(k));
        }
        assert forall|a: int, b: int| 0 <= a < b < v.len() implies #[trigger] v[a] != #[trigger] v[b] by {
            assert(v[a] == FrameModel::BulkString(ks@[a]@));
            assert(v[b] == FrameModel::BulkString(ks@[b]@));
            assert(ks@[a]@ != ks@[b]@);
        }
    }
    Protocol::Array(arr)
}

/// Reports a configuration entry by name.
fn config_get_cmd(name: &String, state: &ServerState) -> (r: Result<Protocol, DBError>)
    ensures
        match r {
            Ok(p) => !step_fatal(CmdModel::ConfigGet(name@)) && resp_ok(
                state@,
                CmdModel::ConfigGet(name@),
                false,
                0,
                p@,
            ),
            Err(_) => step_fatal(CmdModel::ConfigGet(name@)),
        },
{
    proof {
        reveal(step_state);
        reveal(resp_ok);
    }
    if crate::cmd::word_is(name, "dir") {
        let mut arr: Vec<Protocol> = Vec::new();
        let b0 = Protocol::BulkString(name.clone());
        let ghost g0 = b0;
        arr.push(b0);
        let b1 = Protocol::BulkString(state.dir.clone());
        let ghost g1 = b1;
        arr.push(b1);
        proof {
            crate::protocol::lemma_frame_views(arr@);
            assert(arr@[0] == g0);
            assert(arr@[1] == g1);
            assert(crate::protocol::frame_views(arr@) =~= seq![
                FrameModel::BulkString(name@),
                FrameModel::BulkString(state@.dir),
            ]);
        }
        Ok(Protocol::Array(arr))
    } else if crate::cmd::word_is(name, "dbfilename") {
        let mut arr: Vec<Protocol> = Vec::new();
        let b0 = Protocol::BulkString(name.clone());
        let ghost g0 = b0;
        arr.push(b0);
        let b1 = Protocol::BulkString(state.db_file_name.clone());
        let ghost g1 = b1;
        arr.push(b1);
        proof {
            crate::protocol::lemma_frame_views(arr@);
            assert(arr@[0] == g0);
            assert(arr@[1] == g1);
            assert(crate::protocol::frame_views(arr@) =~= seq![
                FrameModel::BulkString(name@),
                FrameModel::BulkString(state@.db_file_name),
            ]);
        }
        Ok(Protocol::Array(arr))
    } else {
        Err(DBError::msg("unsupported config"))
    }
}

/// Reports the replication section, or the default placeholder.
fn info_cmd(section: &Option<String>, state: &ServerState) -> (r: Result<Protocol, DBError>)
    ensures
        match r {
            Ok(p) => !step_fatal(CmdModel::Info(section.deep_view())) && resp_ok(
                state@,
                CmdModel::Info(section.deep_view()),
                false,
                0,
                p@,
            ),
            Err(_) => step_fatal(CmdModel::Info(section.deep_view())),
        },
{
    proof {
        reveal(step_state);
        reveal(resp_ok);
    }
    match section {
        Some(s) => {
            if crate::cmd::word_is(s, "replication") {
                let mut out = String::new();
                out.append("role:");
                match state.role {
                    Role::Master => out.append("master"),
                    Role::Slave => out.append("slave"),
                }
                out.append("\nmaster_replid:");
                out.append(state.master_replid.as_str());
                out.append("\nmaster_repl_offset:");
                let off = crate::protocol::u64_to_string(state.master_repl_offset);
                out.append(off.as_str());
                out.append("\n");
                proof {
                    assert(out@ =~= info_text(state@));
                }
                Ok(Protocol::BulkString(out))
            } else {
                Err(DBError::msg("unsupported section"))
            }
        },
        None => Ok(Protocol::BulkString(String::from_str("default"))),
    }
}

/// Acknowledges a replication sub-command; a getack reports the offset.
fn replconf_cmd(sub_cmd: &String, state: &ServerState) -> (r: Protocol)
    ensures
        resp_ok(state@, CmdModel::Replconf(sub_cmd@), false, 0, r@),
{
    proof {
        reveal(step_state);
        reveal(resp_ok);
    }
    if crate::cmd::word_is(sub_cmd, "getack") {
        let off = crate::protocol::u64_to_string(state.offset);
        let mut arr: Vec<Protocol> = Vec::new();
        let b0 = Protocol::BulkString(String::from_str("REPLCONF"));
        let ghost g0 = b0;
        arr.push(b0);
        let b1 = Protocol::BulkString(String::from_str("ACK"));
        let ghost g1 = b1;
        arr.push(b1);
        let b2 = Protocol::BulkString(off);
        let ghost g2 = b2;
        arr.push(b2);
        proof {
            crate::protocol::lemma_frame_views(arr@);
            assert(arr@[0] == g0);
            assert(arr@[1] == g1);
            assert(arr@[2] == g2);
            assert(crate::protocol::frame_views(arr@) =~= seq![
                FrameModel::BulkString("REPLCONF"@),
                FrameModel::BulkString("ACK"@),
                FrameModel::BulkString(dec_digits(state@.offset as int)),
            ]);
        }
        Protocol::Array(arr)
    } else {
        Protocol::SimpleString(String::from_str("OK"))
    }
}

/// Answers a sync request: the leader announces a full resync, a
/// follower refuses.
fn psync_cmd(state: &ServerState) -> (r: Protocol)
    ensures
        resp_ok(state@, CmdModel::Psync, false, 0, r@),
{
    proof {
        reveal(step_state);
        reveal(resp_ok);
    }
    match state.role {
        Role::Master => {
            let mut out = String::new();
            out.append("FULLRESYNC ");
            out.append(state.master_replid.as_str());
            out.append(" 0");
            proof {
                assert(out@ =~= "FULLRESYNC "@ + state@.master_replid + " 0"@);
            }
            Protocol::SimpleString(out)
        },
        Role::Slave => Protocol::psync_on_slave_err(),
    }
}

/// Reports a key's kind; an expired string reads as no key at all.
fn type_cmd(state: &mut ServerState, k: &String, now: u128) -> (r: Protocol)
    requires
        old(state).wf(),
    ensures
        final(state).wf(),
        final(state)@ == step_state(old(state)@, CmdModel::Type(k@), false, now),
        resp_ok(old(state)@, CmdModel::Type(k@), false, now, r@),
{
    proof {
        reveal(step_state);
        reveal(resp_ok);
    }
    let v = state.storage.get_at(k.as_str(), now);
    if v.is_some() {
        return Protocol::SimpleString(String::from_str("string"));
    }
    if state.streams.contains(k.as_str()) {
        Protocol::SimpleString(String::from_str("stream"))
    } else {
        Protocol::none()
    }
}

/// Adds one to a key's integer value; a missing key counts as holding 1.
fn incr_cmd(state: &mut ServerState, key: &String, now: u128) -> (r: Protocol)
    requires
        old(state).wf(),
    ensures
        final(state).wf(),
        final(state)@ == step_state(old(state)@, CmdModel::Incr(key@), false, now),
        resp_ok(old(state)@, CmdModel::Incr(key@), false, now, r@),
{
    proof {
        reveal(step_state);
        reveal(resp_ok);
    }
    if state.streams.contains(key.as_str()) {
        return Protocol::err("ERR Operation against a key holding the wrong kind of value");
    }
    let v = state.storage.get_at(key.as_str(), now);
    let parsed: Option<u64> = match &v {
        None => Some(1),
        Some(t) => match crate::protocol::parse_u64(t.as_str()) {
            Ok(x) => Some(x),
            Err(_) => None,
        },
    };
    match parsed {
        Some(x) => {
            if x == u64::MAX {
                return Protocol::err("ERR value is not an integer or out of range");
            }
            let nv = crate::protocol::u64_to_string(x + 1);
            state.storage.set(key.clone(), nv.clone());
            Protocol::SimpleString(nv)
        },
        None => Protocol::err("ERR value is not an integer or out of range"),
    }
}

/// The text `ms-seq` of a stream id.
fn id_string(id: StreamId) -> (r: String)
    ensures
        r@ == id_text(id),
{
    let mut out = crate::protocol::u64_to_string(id.ms);
    out.append("-");
    let seq_s = crate::protocol::u64_to_string(id.seq);
    out.append(seq_s.as_str());
    proof {
        reveal_strlit("-");
        assert(out@ =~= id_text(id));
    }
    out
}

/// A flat array of a list of fields and values.
fn field_frames_exec(ps: &Vec<(String, String)>) -> (r: Vec<Protocol>)
    ensures
        crate::protocol::frame_views(r@) == field_frames(crate::cmd::pair_views(ps@)),
{
    let ghost pv = crate::cmd::pair_views(ps@);
    let mut out: Vec<Protocol> = Vec::new();
    proof {
        assert(crate::protocol::frame_views(out@) =~= Seq::<FrameModel>::empty());
        assert(pv.skip(0) =~= pv);
        assert(Seq::<FrameModel>::empty() + field_frames(pv) =~= field_frames(pv));
    }
    let n = ps.len();
    let mut i: usize = 0;
    while i < n
        invariant
            i <= n,
            n == ps@.len(),
            pv == crate::cmd::pair_views(ps@),
            pv.len() == n,
            crate::protocol::frame_views(out@) + field_frames(pv.skip(i as int)) == field_frames(
                pv,
            ),
        decreases n - i,
    {
        proof {
            assert(pv.skip(i as int)[0] == pv[i as int]);
            assert(pv.skip(i as int).drop_first() =~= pv.skip(i + 1));
        }
        let b0 = Protocol::BulkString(ps[i].0.clone());
        let ghost g0 = b0;
        let ghost prev0 = out@;
        out.push(b0);
        let b1 = Protocol::BulkString(ps[i].1.clone());
        let ghost g1 = b1;
        out.push(b1);
        proof {
            crate::protocol::lemma_frame_views_push(prev0, g0);
            crate::protocol::lemma_frame_views_push(prev0.push(g0), g1);
            assert(crate::protocol::frame_views(out@) + field_frames(pv.skip(i + 1))
                =~= crate::protocol::frame_views(prev0) + (seq![
                FrameModel::BulkString(pv[i as int].0),
                FrameModel::BulkString(pv[i as int].1),
            ] + field_frames(pv.skip(i + 1))));
        }
        i += 1;
    }
    proof {
        assert(pv.skip(n as int) =~= Seq::<(Seq<char>, Seq<char>)>::empty());
        assert(crate::protocol::frame_views(out@) + Seq::<FrameModel>::empty()
            =~= crate::protocol::frame_views(out@));
    }
    out
}

/// The reply frames for a list of stream entries: each id, then its
/// fields as one flat array.
fn entry_frames_exec(es: &Vec<StreamEntry>) -> (r: Vec<Protocol>)
    ensures
        crate::protocol::frame_views(r@) == entry_frames(crate::streams::entry_views(es@)),
{
    let ghost ev = crate::streams::entry_views(es@);
    let mut out: Vec<Protocol> = Vec::new();
    proof {
        assert(crate::protocol::frame_views(out@) =~= Seq::<FrameModel>::empty());
        assert(ev.skip(0) =~= ev);
        assert(Seq::<FrameModel>::empty() + entry_frames(ev) =~= entry_frames(ev));
    }
    let n = es.len();
    let mut i: usize = 0;
    while i < n
        invariant
            i <= n,
            n == es@.len(),
            ev == crate::streams::entry_views(es@),
            ev.len() == n,
            crate::protocol::frame_views(out@) + entry_frames(ev.skip(i as int)) == entry_frames(
                ev,
            ),
        decreases n - i,
    {
        proof {
            assert(ev.skip(i as int)[0] == ev[i as int]);
            assert(ev.skip(i as int).drop_first() =~= ev.skip(i + 1));
            assert(ev[i as int] == es@[i as int]@);
        }
        let b0 = Protocol::BulkString(id_string(es[i].id));
        let ghost g0 = b0;
        let ghost prev0 = out@;
        out.push(b0);
        let b1 = Protocol::Array(field_frames_exec(&es[i].fields));
        let ghost g1 = b1;
        out.push(b1);
        proof {
            crate::protocol::lemma_frame_views_push(prev0, g0);
            crate::protocol::lemma_frame_views_push(prev0.push(g0), g1);
            assert(crate::protocol::frame_views(out@) + entry_frames(ev.skip(i + 1))
                =~= crate::protocol::frame_views(prev0) + (seq![
                FrameModel::BulkString(id_text(ev[i as int].0)),
                FrameModel::Array(field_frames(ev[i as int].1)),
            ] + entry_frames(ev.skip(i + 1))));
        }
        i += 1;
    }
    proof {
        assert(ev.skip(n as int) =~= Seq::<EntryView>::empty());
        assert(crate::protocol::frame_views(out@) + Seq::<FrameModel>::empty()
            =~= crate::protocol::frame_views(out@));
    }
    out
}

/// Resolves an append request against a stream's last id.
fn resolve_id_exec(last: Option<StreamId>, ms: u64, seq0: u64, wild: bool) -> (r: Result<
    StreamId,
    XaddError,
>)
    ensures
        r == resolve_id(last, ms, seq0, wild),
{
    if ms == 0 && seq0 == 0 && !wild {
        return Err(XaddError::ZeroId);
    }
    match last {
        None => Ok(StreamId { ms, seq: seq0 }),
        Some(l) => {
            if l.ms > ms || (l.ms == ms && l.seq >= seq0 && !wild) {
                Err(XaddError::NotGreater)
            } else if l.ms == ms && l.seq >= seq0 {
                if l.seq == u64::MAX {
                    Err(XaddError::NotGreater)
                } else {
                    Ok(StreamId { ms, seq: l.seq + 1 })
                }
            } else {
                Ok(StreamId { ms, seq: seq0 })
            }
        },
    }
}

/// Appends to a stream.  The second result says whether the request
/// resolved to an id; the append itself also obeys the write policy.
fn xadd_cmd(
    state: &mut ServerState,
    stream_key: &String,
    offset_str: &String,
    kvps: &Vec<(String, String)>,
    is_rep: bool,
    now: u128,
) -> (r: (Protocol, bool))
    requires
        old(state).wf(),
    ensures
        final(state).wf(),
        final(state)@ == step_state(
            old(state)@,
            CmdModel::Xadd(stream_key@, offset_str@, crate::cmd::pair_views(kvps@)),
            is_rep,
            now,
        ),
        resp_ok(
            old(state)@,
            CmdModel::Xadd(stream_key@, offset_str@, crate::cmd::pair_views(kvps@)),
            is_rep,
            now,
            r.0@,
        ),
        r.1 == (match xadd_request(offset_str@, now) {
            Some((ms, seq0, wild)) => get_result(old(state)@.storage, stream_key@, now) is None
                && resolve_id(
                last_id_of(stream_of(old(state)@.streams, stream_key@)),
                ms,
                seq0,
                wild,
            ) is Ok,
            None => false,
        }),
{
    proof {
        reveal(step_state);
        reveal(resp_ok);
    }
    let (ms, seq0, wild) = if crate::cmd::word_is(offset_str, "*") {
        let ms: u64 = (now % 0x1_0000_0000_0000_0000u128) as u64;
        (
            ms,
            if ms == 0 {
                1u64
            } else {
                0u64
            },
            true,
        )
    } else {
        match try_split_offset(offset_str.as_str()) {
            Ok(t) => t,
            Err(_) => {
                return (Protocol::err("ERR The ID specified in XADD must be a number"), false);
            },
        }
    };
    if state.storage.get_at(stream_key.as_str(), now).is_some() {
        return (
            Protocol::err("ERR Operation against a key holding the wrong kind of value"),
            false,
        );
    }
    let last = state.streams.last_id_for(stream_key.as_str());
    match resolve_id_exec(last, ms, seq0, wild) {
        Err(XaddError::ZeroId) => (
            Protocol::err("ERR The ID specified in XADD must be greater than 0-0"),
            false,
        ),
        Err(XaddError::NotGreater) => (
            Protocol::err(
                "ERR The ID specified in XADD is equal or smaller than the target stream top item",
            ),
            false,
        ),
        Ok(id) => {
            if allowed_here(state, is_rep) {
                let fields = crate::streams::clone_pairs(kvps);
                let res = state.streams.xadd(stream_key.as_str(), ms, seq0, wild, fields);
                match res {
                    Ok(got) => (Protocol::BulkString(id_string(got)), true),
                    Err(_) => {
                        proof {
                            assert(false);
                        }
                        (Protocol::Null, false)
                    },
                }
            } else {
                (Protocol::write_on_slave_err(), true)
            }
        },
    }
}

/// Parses one range bound.
fn xrange_bound_exec(t: &String, is_end: bool) -> (r: Option<StreamId>)
    ensures
        r == xrange_bound(t@, is_end),
{
    if !is_end && crate::cmd::word_is(t, "-") {
        Some(StreamId { ms: 0, seq: 0 })
    } else if is_end && crate::cmd::word_is(t, "+") {
        Some(StreamId { ms: u64::MAX, seq: u64::MAX })
    } else {
        match try_split_offset(t.as_str()) {
            Ok((ms, seq0, wild)) => Some(
                StreamId {
                    ms,
                    seq: if wild {
                        if is_end {
                            u64::MAX
                        } else {
                            0
                        }
                    } else {
                        seq0
                    },
                },
            ),
            Err(_) => None,
        }
    }
}

/// Lists a stream's entries between two bounds, inclusive.
fn xrange_cmd(state: &ServerState, stream_key: &String, start: &String, end: &String) -> (r:
    Protocol)
    requires
        state.wf(),
    ensures
        resp_ok(state@, CmdModel::Xrange(stream_key@, start@, end@), false, 0, r@),
{
    proof {
        reveal(step_state);
        reveal(resp_ok);
    }
    let lo = match xrange_bound_exec(start, false) {
        Some(b) => b,
        None => {
            return Protocol::err("ERR Invalid stream ID specified as stream command argument");
        },
    };
    let hi = match xrange_bound_exec(end, true) {
        Some(b) => b,
        None => {
            return Protocol::err("ERR Invalid stream ID specified as stream command argument");
        },
    };
    match state.streams.range(stream_key.as_str(), lo, hi) {
        Some(es) => Protocol::Array(entry_frames_exec(&es)),
        None => Protocol::none(),
    }
}

/// Reads, from each requested stream that exists, the entries strictly
/// after the requested id.
fn xread_cmd(state: &ServerState, keys: &Vec<String>, ids: &Vec<String>, block: Option<u64>) -> (r:
    Protocol)
    requires
        state.wf(),
    ensures
        resp_ok(
            state@,
            CmdModel::Xread(crate::cmd::word_views(keys@), crate::cmd::word_views(ids@), block),
            false,
            0,
            r@,
        ),
{
    proof {
        reveal(step_state);
        reveal(resp_ok);
    }
    let ghost kv = crate::cmd::word_views(keys@);
    let ghost iv = crate::cmd::word_views(ids@);
    let ghost m = state@.streams;
    let mut out: Vec<Protocol> = Vec::new();
    proof {
        assert(crate::protocol::frame_views(out@) =~= Seq::<FrameModel>::empty());
        if let Some(fs) = xread_frames_at(m, kv, iv, 0) {
            assert(Seq::<FrameModel>::empty() + fs =~= fs);
        }
    }
    let n = keys.len();
    let mut i: usize = 0;
    while i < n
        invariant
            i <= n,
            n == keys@.len(),
            kv == crate::cmd::word_views(keys@),
            iv == crate::cmd::word_views(ids@),
            m == state@.streams,
            state.wf(),
            kv.len() == n,
            iv.len() == ids@.len(),
            xread_frames_at(m, kv, iv, 0) == (match xread_frames_at(m, kv, iv, i as int) {
                Some(fs) => Some::<Seq<FrameModel>>(crate::protocol::frame_views(out@) + fs),
                None => None::<Seq<FrameModel>>,
            }),
        decreases n - i,
    {
        proof {
            reveal(resp_ok);
        }
        if state.streams.contains(keys[i].as_str()) {
            if i >= ids.len() {
                return Protocol::err("ERR Invalid stream ID specified as stream command argument");
            }
            let (ms, seq0, _wild) = match try_split_offset(ids[i].as_str()) {
                Ok(t) => t,
                Err(_) => {
                    return Protocol::err(
                        "ERR Invalid stream ID specified as stream command argument",
                    );
                },
            };
            let es = match state.streams.range_after(keys[i].as_str(), StreamId { ms, seq: seq0 }) {
                Some(es) => es,
                None => {
                    proof {
                        assert(false);
                    }
                    Vec::new()
                },
            };
            let b0 = Protocol::BulkString(keys[i].clone());
            let ghost g0 = b0;
            let ghost prev0 = out@;
            out.push(b0);
            let b1 = Protocol::Array(entry_frames_exec(&es));
            let ghost g1 = b1;
            out.push(b1);
            proof {
                crate::protocol::lemma_frame_views_push(prev0, g0);
                crate::protocol::lemma_frame_views_push(prev0.push(g0), g1);
                if let Some(fs) = xread_frames_at(m, kv, iv, i + 1) {
                    assert(crate::protocol::frame_views(out@) + fs
                        =~= crate::protocol::frame_views(prev0) + (seq![
                        FrameModel::BulkString(kv[i as int]),
                        FrameModel::Array(
                            entry_frames(after_of(m[kv[i as int]], StreamId { ms, seq: seq0 })),
                        ),
                    ] + fs));
                }
            }
        }
        i += 1;
    }
    proof {
        assert(xread_frames_at(m, kv, iv, n as int) == Some(Seq::<FrameModel>::empty()));
        assert(crate::protocol::frame_views(out@) + Seq::<FrameModel>::empty()
            =~= crate::protocol::frame_views(out@));
    }
    Protocol::Array(out)
}

/// Advances the offset by the encoded length of the command's frame,
/// saturating.
fn bump_offset(state: &mut ServerState, frame: &Protocol)
    requires
        old(state).wf(),
    ensures
        final(state).wf(),
        final(state)@ == bump(old(state)@, frame@),
{
    proof {
        reveal(bump);
    }
    let enc = frame.encode();
    let len = enc.as_str().unicode_len();
    state.offset = match state.offset.checked_add(len as u64) {
        Some(x) => x,
        None => u64::MAX,
    };
}

/// Runs one command outside any transaction: the state moves as `step_to`
/// says, the reply is owed back, writes to forward and wakes to deliver
/// are returned, and only an unsupported CONFIG or INFO argument fails.
pub fn execute_single(
    state: &mut ServerState,
    cmd: &Cmd,
    frame: &Protocol,
    is_rep_con: bool,
    now: u128,
) -> (r: Result<ExecOutcome, DBError>)
    requires
        old(state).wf(),
    ensures
        final(state).wf(),
        match r {
            Ok(out) => step_to(
                old(state)@,
                cmd@,
                frame@,
                is_rep_con,
                now,
                final(state)@,
                out.resp@,
            ) && (if step_replicates(old(state)@, cmd@, now) {
                out.to_replicate@.len() == 1 && out.to_replicate@[0]@ == frame@
            } else {
                out.to_replicate@.len() == 0
            }) && out.wake_blockers == step_wakes(old(state)@, cmd@, is_rep_con, now)
                && out.fullresync == step_fullresync(old(state)@, cmd@),
            Err(_) => step_fatal(cmd@) && *final(state) == *old(state),
        },
        disjoint_kinds(old(state)@) ==> disjoint_kinds(final(state)@),
        r matches Ok(out) ==> out.reply_owed == step_replies(cmd@, is_rep_con),
{
    proof {
        reveal(step_state);
        reveal(resp_ok);
        reveal(step_replicates);
        reveal(step_wakes);
    }
    let reply_owed = !is_rep_con || (match cmd {
        Cmd::Replconf(sub) => crate::cmd::word_is(sub, "getack"),
        _ => false,
    });
    let is_master = match state.role {
        Role::Master => true,
        Role::Slave => false,
    };
    let mut wake = false;
    let mut replicate = false;
    let resp: Protocol = match cmd {
        Cmd::Ping => Protocol::SimpleString(String::from_str("PONG")),
        Cmd::Echo(s) => Protocol::SimpleString(s.clone()),
        Cmd::Get(k) => get_cmd(state, k, is_rep_con, now),
        Cmd::SetVal(k, v) => {
            replicate = is_master && !state.streams.contains(k.as_str());
            set_cmd(state, k, v, is_rep_con, now)
        },
        Cmd::SetPx(k, v, x) => {
            replicate = is_master && !state.streams.contains(k.as_str());
            set_px_cmd(state, k, v, *x, is_rep_con, now)
        },
        Cmd::SetEx(k, v, x) => {
            replicate = is_master && !state.streams.contains(k.as_str());
            set_ex_cmd(state, k, v, *x, is_rep_con, now)
        },
        Cmd::Del(k) => {
            replicate = is_master;
            del_cmd(state, k, is_rep_con, now)
        },
        Cmd::ConfigGet(name) => match config_get_cmd(name, state) {
            Ok(p) => p,
            Err(e) => {
                return Err(e);
            },
        },
        Cmd::Keys => keys_cmd(state),
        Cmd::Info(section) => match info_cmd(section, state) {
            Ok(p) => p,
            Err(e) => {
                return Err(e);
            },
        },
        Cmd::Replconf(sub) => replconf_cmd(sub, state),
        Cmd::Psync => psync_cmd(state),
        Cmd::Type(k) => type_cmd(state, k, now),
        Cmd::Xadd(stream_key, offset_str, kvps) => {
            let (p, resolved) = xadd_cmd(state, stream_key, offset_str, kvps, is_rep_con, now);
            replicate = is_master && resolved;
            wake = resolved && allowed_here(state, is_rep_con);
            p
        },
        Cmd::Xrange(stream_key, start, end) => xrange_cmd(state, stream_key, start, end),
        Cmd::Xread(ks, ids, block) => xread_cmd(state, ks, ids, *block),
        Cmd::Incr(key) => incr_cmd(state, key, now),
        Cmd::Multi => Protocol::ok(),
        Cmd::Exec => Protocol::err("ERR EXEC without MULTI"),
        Cmd::Discard => Protocol::err("ERR Discard without MULTI"),
        Cmd::Unknow => Protocol::err("unknow cmd"),
    };
    bump_offset(state, frame);
    proof {
        if disjoint_kinds(old(state)@) {
            lemma_step_preserves_disjoint(old(state)@, cmd@, is_rep_con, now);
            reveal(bump);
        }
    }
    let mut to_replicate: Vec<Protocol> = Vec::new();
    if replicate {
        to_replicate.push(frame.clone());
    }
    let fullresync = match cmd {
        Cmd::Psync => is_master,
        _ => false,
    };
    Ok(ExecOutcome { resp, to_replicate, wake_blockers: wake, fullresync, reply_owed })
}

/// The models of a transaction buffer's queued commands and frames.
pub open spec fn queued_views(q: Seq<(Cmd, Protocol)>) -> Seq<(CmdModel, FrameModel)> {
    Seq::new(q.len(), |i: int| (q[i].0@, q[i].1@))
}

/// The commands a transaction replays in order: the state after the
/// first `i` of them, each bumping the offset by its own frame.
pub open spec fn replay_state(
    m0: StateModel,
    list: Seq<(CmdModel, FrameModel)>,
    i: int,
    is_rep: bool,
    now: u128,
) -> StateModel
    decreases i,
{
    if i <= 0 {
        m0
    } else {
        bump(
            step_state(replay_state(m0, list, i - 1, is_rep, now), list[i - 1].0, is_rep, now),
            list[i - 1].1,
        )
    }
}

/// The frames a replay forwards to followers, in order.
pub open spec fn replay_reps(
    m0: StateModel,
    list: Seq<(CmdModel, FrameModel)>,
    i: int,
    is_rep: bool,
    now: u128,
) -> Seq<FrameModel>
    decreases i,
{
    if i <= 0 {
        Seq::empty()
    } else {
        replay_reps(m0, list, i - 1, is_rep, now) + (if step_replicates(
            replay_state(m0, list, i - 1, is_rep, now),
            list[i - 1].0,
            now,
        ) {
            seq![list[i - 1].1]
        } else {
            Seq::empty()
        })
    }
}

/// Whether a replay wakes blocked stream readers at any point.
pub open spec fn replay_wakes(
    m0: StateModel,
    list: Seq<(CmdModel, FrameModel)>,
    i: int,
    is_rep: bool,
    now: u128,
) -> bool
    decreases i,
{
    if i <= 0 {
        false
    } else {
        replay_wakes(m0, list, i - 1, is_rep, now) || step_wakes(
            replay_state(m0, list, i - 1, is_rep, now),
            list[i - 1].0,
            is_rep,
            now,
        )
    }
}

/// The transaction-control commands, the only ones that act while a
/// transaction buffer is open.
pub open spec fn is_txn_control(c: CmdModel) -> bool {
    c is Multi || c is Exec || c is Discard
}

/// The model of a transaction buffer.
pub open spec fn qmodel(q: Option<Vec<(Cmd, Protocol)>>) -> Option<Seq<(CmdModel, FrameModel)>> {
    match q {
        Some(v) => Some(queued_views(v@)),
        None => None,
    }
}

/// Replays a transaction buffer in order on this connection: each
/// queued command runs as a plain command, its reply is collected, and
/// each accepted write's frame is returned for fan-out.  A fatal queued
/// command stops the replay and tears the connection down.
#[verifier::rlimit(100)]
#[verifier::spinoff_prover]
fn exec_cmd(
    state: &mut ServerState,
    list: &Vec<(Cmd, Protocol)>,
    is_rep_con: bool,
    now: u128,
) -> (r: Result<(Protocol, Vec<Protocol>, bool), DBError>)
    requires
        old(state).wf(),
    ensures
        final(state).wf(),
        match r {
            Ok(out) => {
                let l = queued_views(list@);
                &&& final(state)@ == replay_state(old(state)@, l, l.len() as int, is_rep_con, now)
                &&& (out.0@ matches FrameModel::Array(rv) && rv.len() == l.len() && (forall|j: int|
                    0 <= j < l.len() ==> !step_fatal((#[trigger] l[j]).0) && resp_ok(
                        replay_state(old(state)@, l, j, is_rep_con, now),
                        l[j].0,
                        is_rep_con,
                        now,
                        rv[j],
                    )))
                &&& crate::protocol::frame_views(out.1@) == replay_reps(
                    old(state)@,
                    l,
                    l.len() as int,
                    is_rep_con,
                    now,
                )
                &&& out.2 == replay_wakes(old(state)@, l, l.len() as int, is_rep_con, now)
            },
            Err(_) => {
                let l = queued_views(list@);
                exists|k: int|
                    0 <= k < l.len() && step_fatal((#[trigger] l[k]).0) && final(state)@
                        == replay_state(old(state)@, l, k, is_rep_con, now)
            },
        },
        disjoint_kinds(old(state)@) ==> disjoint_kinds(final(state)@),
{
    let ghost m0 = state@;
    let ghost l = queued_views(list@);
    let mut resps: Vec<Protocol> = Vec::new();
    let mut reps: Vec<Protocol> = Vec::new();
    let mut wake = false;
    let n = list.len();
    let mut i: usize = 0;
    proof {
        assert(crate::protocol::frame_views(reps@) =~= Seq::<FrameModel>::empty());
    }
    while i < n
        invariant
            i <= n,
            n == list@.len(),
            l == queued_views(list@),
            l.len() == n,
            m0 == old(state)@,
            state.wf(),
            state@ == replay_state(m0, l, i as int, is_rep_con, now),
            resps@.len() == i,
            crate::protocol::frame_views(resps@).len() == i,
            forall|j: int|
                0 <= j < i ==> !step_fatal((#[trigger] l[j]).0) && resp_ok(
                    replay_state(m0, l, j, is_rep_con, now),
                    l[j].0,
                    is_rep_con,
                    now,
                    crate::protocol::frame_views(resps@)[j],
                ),
            crate::protocol::frame_views(reps@) == replay_reps(m0, l, i as int, is_rep_con, now),
            wake == replay_wakes(m0, l, i as int, is_rep_con, now),
        decreases n - i,
    {
        let pair = &list[i];
        proof {
            assert(l[i as int] == (pair.0@, pair.1@));
        }
        match execute_single(state, &pair.0, &pair.1, is_rep_con, now) {
            Ok(out) => {
                let ghost prev_r = resps@;
                let ghost g_resp = out.resp;
                resps.push(out.resp);
                proof {
                    crate::protocol::lemma_frame_views_push(prev_r, g_resp);
                }
                let mut tr = out.to_replicate;
                match tr.pop() {
                    Some(p) => {
                        let ghost prev_p = reps@;
                        let ghost gp = p;
                        reps.push(p);
                        proof {
                            crate::protocol::lemma_frame_views_push(prev_p, gp);
                            assert(crate::protocol::frame_views(reps@)
                                =~= crate::protocol::frame_views(prev_p) + seq![gp@]);
                        }
                    },
                    None => {
                        proof {
                            assert(crate::protocol::frame_views(reps@) + Seq::<
                                FrameModel,
                            >::empty() =~= crate::protocol::frame_views(reps@));
                        }
                    },
                }
                if out.wake_blockers {
                    wake = true;
                }
            },
            Err(e) => {
                proof {
                    assert(step_fatal(l[i as int].0));
                    assert(state@ == replay_state(m0, l, i as int, is_rep_con, now));
                    assert(exists|k: int|
                        0 <= k < l.len() && step_fatal((#[trigger] l[k]).0) && state@
                            == replay_state(m0, l, k, is_rep_con, now));
                    if disjoint_kinds(m0) {
                        lemma_replay_preserves_disjoint(m0, l, i as int, is_rep_con, now);
                    }
                }
                return Err(e);
            },
        }
        i += 1;
    }
    proof {
        if disjoint_kinds(m0) {
            lemma_replay_preserves_disjoint(m0, l, n as int, is_rep_con, now);
        }
    }
    Ok((Protocol::Array(resps), reps, wake))
}

/// Runs one command against the server, honoring an open transaction:
/// with a buffer open, anything but its control commands is queued
/// untouched and answered `QUEUED`; MULTI opens a buffer, DISCARD drops
/// it, and EXEC replays it in order and answers with the replies.
#[verifier::rlimit(100)]
#[verifier::spinoff_prover]
pub fn execute(
    state: &mut ServerState,
    cmd: Cmd,
    frame: Protocol,
    is_rep_con: bool,
    queued: &mut Option<Vec<(Cmd, Protocol)>>,
    now: u128,
) -> (r: Result<ExecOutcome, DBError>)
    requires
        old(state).wf(),
    ensures
        final(state).wf(),
        // While a transaction is open, no other command touches the state:
        // it is queued and answered QUEUED.
        ((*old(queued)) is Some && !is_txn_control(cmd@)) ==> {
            &&& final(state)@ == old(state)@
            &&& qmodel(*final(queued)) == (match qmodel(*old(queued)) {
                Some(l) => Some(l.push((cmd@, frame@))),
                None => None::<Seq<(CmdModel, FrameModel)>>,
            })
            &&& (r matches Ok(out) && out.resp@ == FrameModel::SimpleString("QUEUED"@)
                && out.to_replicate@.len() == 0 && !out.wake_blockers && !out.fullresync)
        },
        // MULTI opens a fresh buffer.
        cmd@ is Multi ==> {
            &&& final(state)@ == bump(old(state)@, frame@)
            &&& qmodel(*final(queued)) == Some(Seq::<(CmdModel, FrameModel)>::empty())
            &&& (r matches Ok(out) && out.resp@ == FrameModel::SimpleString("ok"@)
                && out.to_replicate@.len() == 0 && !out.wake_blockers && !out.fullresync)
        },
        // DISCARD drops any open buffer without running it.
        cmd@ is Discard ==> {
            &&& final(state)@ == bump(old(state)@, frame@)
            &&& *final(queued) is None
            &&& (r matches Ok(out) && out.resp@ == (if (*old(queued)) is Some {
                FrameModel::SimpleString("ok"@)
            } else {
                FrameModel::SimpleString("ERR Discard without MULTI"@)
            }) && out.to_replicate@.len() == 0 && !out.wake_blockers && !out.fullresync)
        },
        // EXEC without a buffer is refused inline.
        (cmd@ is Exec && (*old(queued)) is None) ==> {
            &&& final(state)@ == bump(old(state)@, frame@)
            &&& *final(queued) is None
            &&& (r matches Ok(out) && out.resp@ == FrameModel::SimpleString(
                "ERR EXEC without MULTI"@,
            ) && out.to_replicate@.len() == 0 && !out.wake_blockers && !out.fullresync)
        },
        // EXEC replays the buffer in order on this connection, collects
        // each reply, forwards each accepted write, then drops the
        // buffer and advances the offset by its own frame too.
        (cmd@ is Exec && (*old(queued)) is Some) ==> (match qmodel(*old(queued)) {
            Some(l) => match r {
                Ok(out) => {
                    &&& final(state)@ == bump(
                        replay_state(old(state)@, l, l.len() as int, is_rep_con, now),
                        frame@,
                    )
                    &&& *final(queued) is None
                    &&& (out.resp@ matches FrameModel::Array(rv) && rv.len() == l.len() && (forall|
                        j: int,
                    |
                        0 <= j < l.len() ==> !step_fatal((#[trigger] l[j]).0) && resp_ok(
                            replay_state(old(state)@, l, j, is_rep_con, now),
                            l[j].0,
                            is_rep_con,
                            now,
                            rv[j],
                        )))
                    &&& crate::protocol::frame_views(out.to_replicate@) == replay_reps(
                        old(state)@,
                        l,
                        l.len() as int,
                        is_rep_con,
                        now,
                    )
                    &&& out.wake_blockers == replay_wakes(
                        old(state)@,
                        l,
                        l.len() as int,
                        is_rep_con,
                        now,
                    )
                    &&& !out.fullresync
                },
                Err(_) => {
                    &&& *final(queued) == *old(queued)
                    &&& exists|k: int|
                        0 <= k < l.len() && step_fatal((#[trigger] l[k]).0) && final(state)@
                            == replay_state(old(state)@, l, k, is_rep_con, now)
                },
            },
            None => false,
        }),
        // Anything else, with no transaction open, is one plain command.
        ((*old(queued)) is None && !is_txn_control(cmd@)) ==> {
            &&& *final(queued) is None
            &&& (match r {
                Ok(out) => step_to(
                    old(state)@,
                    cmd@,
                    frame@,
                    is_rep_con,
                    now,
                    final(state)@,
                    out.resp@,
                ) && (if step_replicates(old(state)@, cmd@, now) {
                    out.to_replicate@.len() == 1 && out.to_replicate@[0]@ == frame@
                } else {
                    out.to_replicate@.len() == 0
                }) && out.wake_blockers == step_wakes(old(state)@, cmd@, is_rep_con, now)
                    && out.fullresync == step_fullresync(old(state)@, cmd@),
                Err(_) => step_fatal(cmd@) && final(state)@ == old(state)@,
            })
        },
        // String and stream keys stay disjoint under every command.
        disjoint_kinds(old(state)@) ==> disjoint_kinds(final(state)@),
        r matches Ok(out) ==> out.reply_owed == step_replies(cmd@, is_rep_con),
{
    let reply_owed = !is_rep_con || (match &cmd {
        Cmd::Replconf(sub) => crate::cmd::word_is(sub, "getack"),
        _ => false,
    });
    let is_control = match &cmd {
        Cmd::Multi => true,
        Cmd::Exec => true,
        Cmd::Discard => true,
        _ => false,
    };
    if queued.is_some() && !is_control {
        match queued {
            Some(list) => {
                let ghost prev = list@;
                list.push((cmd, frame));
                proof {
                    assert(queued_views(list@) =~= queued_views(prev).push(
                        (list@.last().0@, list@.last().1@),
                    ));
                }
            },
            None => {},
        }
        return Ok(
            ExecOutcome {
                resp: Protocol::SimpleString(String::from_str("QUEUED")),
                to_replicate: Vec::new(),
                wake_blockers: false,
                fullresync: false,
                reply_owed,
            },
        );
    }
    match &cmd {
        Cmd::Multi => {
            *queued = Some(Vec::new());
            bump_offset(state, &frame);
            proof {
                reveal(bump);
            }
            proof {
                assert(queued_views(Seq::<(Cmd, Protocol)>::empty()) =~= Seq::<
                    (CmdModel, FrameModel),
                >::empty());
            }
            Ok(
                ExecOutcome {
                    resp: Protocol::ok(),
                    to_replicate: Vec::new(),
                    wake_blockers: false,
                    fullresync: false,
                    reply_owed,
                },
            )
        },
        Cmd::Discard => {
            let had = queued.is_some();
            *queued = None;
            bump_offset(state, &frame);
            proof {
                reveal(bump);
            }
            let resp = if had {
                Protocol::ok()
            } else {
                Protocol::err("ERR Discard without MULTI")
            };
            Ok(
                ExecOutcome {
                    resp,
                    to_replicate: Vec::new(),
                    wake_blockers: false,
                    fullresync: false,
                    reply_owed,
                },
            )
        },
        Cmd::Exec => {
            if queued.is_none() {
                bump_offset(state, &frame);
            proof {
                reveal(bump);
            }
                return Ok(
                    ExecOutcome {
                        resp: Protocol::err("ERR EXEC without MULTI"),
                        to_replicate: Vec::new(),
                        wake_blockers: false,
                        fullresync: false,
                        reply_owed,
                    },
                );
            }
            let res = match queued {
                Some(list) => exec_cmd(state, list, is_rep_con, now),
                None => {
                    proof {
                        assert(false);
                    }
                    Err(DBError::msg("no transaction"))
                },
            };
            match res {
                Ok((resp, reps, wake)) => {
                    *queued = None;
                    bump_offset(state, &frame);
            proof {
                reveal(bump);
            }
                    Ok(
                        ExecOutcome {
                            resp,
                            to_replicate: reps,
                            wake_blockers: wake,
                            fullresync: false,
                            reply_owed,
                        },
                    )
                },
                Err(e) => Err(e),
            }
        },
        _ => execute_single(state, &cmd, &frame, is_rep_con, now),
    }
}

/// The commands that write the string keyspace, the ones replication
/// preservation speaks of.
pub open spec fn is_string_write(c: CmdModel) -> bool {
    match c {
        CmdModel::SetVal(_, _) => true,
        CmdModel::SetPx(_, _, _) => true,
        CmdModel::SetEx(_, _, _) => true,
        CmdModel::Del(_) => true,
        _ => false,
    }
}

/// The string-keyspace writes applied in order, each at its own instant.
pub open spec fn apply_writes(
    m: Map<Seq<char>, (Seq<char>, Option<u128>)>,
    s: Seq<CmdModel>,
    nows: Seq<u128>,
) -> Map<Seq<char>, (Seq<char>, Option<u128>)>
    decreases s.len(),
{
    if s.len() == 0 {
        m
    } else {
        apply_writes(
            apply_write(
                m,
                s[0],
                if nows.len() > 0 {
                    nows[0]
                } else {
                    0
                },
            ),
            s.drop_first(),
            nows.drop_first(),
        )
    }
}

/// The keys a write sequence touches.
pub open spec fn written_keys(s: Seq<CmdModel>) -> Set<Seq<char>>
    decreases s.len(),
{
    if s.len() == 0 {
        Set::empty()
    } else {
        written_keys(s.drop_first()).insert(write_key(s[0]))
    }
}

/// The values a keyspace holds, with the expiry deadlines stripped: the
/// deadlines follow each server's own clock, the values do not.
pub open spec fn values_of(m: Map<Seq<char>, (Seq<char>, Option<u128>)>) -> Map<
    Seq<char>,
    Seq<char>,
> {
    Map::new(|k: Seq<char>| m.contains_key(k), |k: Seq<char>| m[k].0)
}

proof fn lemma_rep_preserve_rec(
    s: Seq<CmdModel>,
    l: Map<Seq<char>, (Seq<char>, Option<u128>)>,
    f: Map<Seq<char>, (Seq<char>, Option<u128>)>,
    nl: Seq<u128>,
    nf: Seq<u128>,
    w: Set<Seq<char>>,
)
    requires
        forall|i: int| 0 <= i < s.len() ==> is_string_write(#[trigger] s[i]),
        values_of(f) == values_of(l).restrict(w),
    ensures
        values_of(apply_writes(f, s, nf)) == values_of(apply_writes(l, s, nl)).restrict(
            w.union(written_keys(s)),
        ),
    decreases s.len(),
{
    if s.len() == 0 {
        assert(w.union(written_keys(s)) =~= w);
        assert(values_of(apply_writes(l, s, nl)).restrict(w.union(written_keys(s)))
            =~= values_of(l).restrict(w));
    } else {
        let c = s[0];
        let k = write_key(c);
        let tl = if nl.len() > 0 {
            nl[0]
        } else {
            0
        };
        let tf = if nf.len() > 0 {
            nf[0]
        } else {
            0
        };
        let l2 = apply_write(l, c, tl);
        let f2 = apply_write(f, c, tf);
        let w2 = w.insert(k);
        assert(is_string_write(c));
        match c {
            CmdModel::SetVal(k0, v0) => {
                lemma_values_insert_step(l, f, w, k0, v0, None, None);
            },
            CmdModel::SetPx(k0, v0, x0) => {
                lemma_values_insert_step(
                    l,
                    f,
                    w,
                    k0,
                    v0,
                    Some(sat_add_u128(x0, tl)),
                    Some(sat_add_u128(x0, tf)),
                );
            },
            CmdModel::SetEx(k0, v0, x0) => {
                lemma_values_insert_step(
                    l,
                    f,
                    w,
                    k0,
                    v0,
                    Some(sat_add_u128(sat_mul_1000(x0), tl)),
                    Some(sat_add_u128(sat_mul_1000(x0), tf)),
                );
            },
            CmdModel::Del(k0) => {
                lemma_values_remove_step(l, f, w, k0);
            },
            _ => {
                assert(false);
            },
        }
        lemma_rep_preserve_rec(s.drop_first(), l2, f2, nl.drop_first(), nf.drop_first(), w2);
        assert(w2.union(written_keys(s.drop_first())) =~= w.union(written_keys(s)));
    }
}

/// Writing the same key and value on both sides keeps the follower equal
/// to the leader's written keys, whatever each side's deadline is.
proof fn lemma_values_insert_step(
    l: Map<Seq<char>, (Seq<char>, Option<u128>)>,
    f: Map<Seq<char>, (Seq<char>, Option<u128>)>,
    w: Set<Seq<char>>,
    k: Seq<char>,
    v: Seq<char>,
    dl: Option<u128>,
    df: Option<u128>,
)
    requires
        values_of(f) == values_of(l).restrict(w),
    ensures
        values_of(f.insert(k, (v, df))) == values_of(l.insert(k, (v, dl))).restrict(w.insert(k)),
{
    let f2 = f.insert(k, (v, df));
    let l2 = l.insert(k, (v, dl));
    let w2 = w.insert(k);
    assert_maps_equal!(values_of(f2), values_of(l2).restrict(w2), x => {
        if x != k {
            assert(values_of(f).contains_key(x) == values_of(l).restrict(w).contains_key(x));
            if values_of(f).contains_key(x) {
                assert(values_of(f)[x] == values_of(l).restrict(w)[x]);
            }
        }
    });
}

/// Removing the same key on both sides keeps the follower equal to the
/// leader's written keys.
proof fn lemma_values_remove_step(
    l: Map<Seq<char>, (Seq<char>, Option<u128>)>,
    f: Map<Seq<char>, (Seq<char>, Option<u128>)>,
    w: Set<Seq<char>>,
    k: Seq<char>,
)
    requires
        values_of(f) == values_of(l).restrict(w),
    ensures
        values_of(f.remove(k)) == values_of(l.remove(k)).restrict(w.insert(k)),
{
    let f2 = f.remove(k);
    let l2 = l.remove(k);
    let w2 = w.insert(k);
    assert_maps_equal!(values_of(f2), values_of(l2).restrict(w2), x => {
        if x != k {
            assert(values_of(f).contains_key(x) == values_of(l).restrict(w).contains_key(x));
            if values_of(f).contains_key(x) {
                assert(values_of(f)[x] == values_of(l).restrict(w)[x]);
            }
        }
    });
}

/// Replication preserves the store: a follower that starts empty and
/// applies the same string-keyspace writes the leader accepted, in the
/// leader's order, each server reading its own clock, holds exactly the
/// leader's store restricted to the keys those writes touched.  The
/// comparison strips expiry deadlines, which each server computes from
/// its own clock.
pub proof fn lemma_replication_preservation(
    s: Seq<CmdModel>,
    l0: Map<Seq<char>, (Seq<char>, Option<u128>)>,
    nl: Seq<u128>,
    nf: Seq<u128>,
)
    requires
        forall|i: int| 0 <= i < s.len() ==> is_string_write(#[trigger] s[i]),
    ensures
        values_of(
            apply_writes(Map::<Seq<char>, (Seq<char>, Option<u128>)>::empty(), s, nf),
        ) == values_of(apply_writes(l0, s, nl)).restrict(written_keys(s)),
{
    let e = Map::<Seq<char>, (Seq<char>, Option<u128>)>::empty();
    assert(values_of(e) =~= values_of(l0).restrict(Set::empty()));
    lemma_rep_preserve_rec(s, l0, e, nl, nf, Set::empty());
    assert(Set::empty().union(written_keys(s)) =~= written_keys(s));
    assert(values_of(apply_writes(l0, s, nl)).restrict(Set::empty().union(written_keys(s)))
        =~= values_of(apply_writes(l0, s, nl)).restrict(written_keys(s)));
}

/// Every command keeps string and stream keys disjoint: writes to one
/// keyspace are refused while the key names the other kind.
pub proof fn lemma_step_preserves_disjoint(m: StateModel, c: CmdModel, is_rep: bool, now: u128)
    requires
        disjoint_kinds(m),
    ensures
        disjoint_kinds(step_state(m, c, is_rep, now)),
{
    reveal(step_state);
    let m2 = step_state(m, c, is_rep, now);
    match c {
        CmdModel::SetVal(_, _) | CmdModel::SetPx(_, _, _) | CmdModel::SetEx(_, _, _) => {
            let k = write_key(c);
            assert forall|x: Seq<char>|
                !(#[trigger] m2.storage.contains_key(x) && #[trigger] m2.streams.contains_key(
                    x,
                )) by {
                if x != k {
                    assert(!(m.storage.contains_key(x) && m.streams.contains_key(x)));
                }
            }
        },
        CmdModel::Incr(k) => {
            assert forall|x: Seq<char>|
                !(#[trigger] m2.storage.contains_key(x) && #[trigger] m2.streams.contains_key(
                    x,
                )) by {
                if x != k {
                    assert(!(m.storage.contains_key(x) && m.streams.contains_key(x)));
                }
            }
        },
        CmdModel::Xadd(key, _, _) => {
            assert forall|x: Seq<char>|
                !(#[trigger] m2.storage.contains_key(x) && #[trigger] m2.streams.contains_key(
                    x,
                )) by {
                assert(!(m.storage.contains_key(x) && m.streams.contains_key(x)));
            }
        },
        _ => {
            assert forall|x: Seq<char>|
                !(#[trigger] m2.storage.contains_key(x) && #[trigger] m2.streams.contains_key(
                    x,
                )) by {
                assert(!(m.storage.contains_key(x) && m.streams.contains_key(x)));
            }
        },
    }
}

/// A whole transaction replay keeps string and stream keys disjoint.
pub proof fn lemma_replay_preserves_disjoint(
    m0: StateModel,
    list: Seq<(CmdModel, FrameModel)>,
    i: int,
    is_rep: bool,
    now: u128,
)
    requires
        disjoint_kinds(m0),
    ensures
        disjoint_kinds(replay_state(m0, list, i, is_rep, now)),
    decreases i,
{
    if i > 0 {
        lemma_replay_preserves_disjoint(m0, list, i - 1, is_rep, now);
        lemma_step_preserves_disjoint(
            replay_state(m0, list, i - 1, is_rep, now),
            list[i - 1].0,
            is_rep,
            now,
        );
        reveal(bump);
    }
}

/// One command's full effect: the state it leaves (offset included), and
/// the reply it owes.
pub open spec fn step_to(
    m: StateModel,
    c: CmdModel,
    f: FrameModel,
    is_rep: bool,
    now: u128,
    m2: StateModel,
    r: FrameModel,
) -> bool {
    &&& !step_fatal(c)
    &&& m2 == bump(step_state(m, c, is_rep, now), f)
    &&& resp_ok(m, c, is_rep, now, r)
}

} // verus!
