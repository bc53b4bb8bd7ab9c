//! The command model: what a decoded frame asks the server to do.
//!
//! Parsing is total and never consults server state: a frame either maps
//! to a command or is rejected, and the same text always maps the same
//! way.
use vstd::prelude::*;
use vstd::string::StrSliceExecFns;
use vstd::string::StringExecFns;
use crate::error::DBError;
use crate::protocol::FrameModel;
use crate::protocol::Protocol;
use crate::protocol::cmd_text;
use crate::protocol::decode_frame;
use crate::protocol::flat_of;
use crate::protocol::parse_dec;

verus! {

/// A recognized command with its arguments.
#[derive(Debug)]
pub enum Cmd {
    Ping,
    Echo(String),
    Get(String),
    SetVal(String, String),
    SetPx(String, String, u128),
    SetEx(String, String, u128),
    Keys,
    ConfigGet(String),
    Info(Option<String>),
    Del(String),
    Replconf(String),
    Psync,
    Type(String),
    Xadd(String, String, Vec<(String, String)>),
    Xrange(String, String, String),
    Xread(Vec<String>, Vec<String>, Option<u64>),
    Incr(String),
    Multi,
    Exec,
    Unknow,
    Discard,
}

/// The mathematical model of a command.
pub enum CmdModel {
    Ping,
    Echo(Seq<char>),
    Get(Seq<char>),
    SetVal(Seq<char>, Seq<char>),
    SetPx(Seq<char>, Seq<char>, u128),
    SetEx(Seq<char>, Seq<char>, u128),
    Keys,
    ConfigGet(Seq<char>),
    Info(Option<Seq<char>>),
    Del(Seq<char>),
    Replconf(Seq<char>),
    Psync,
    Type(Seq<char>),
    Xadd(Seq<char>, Seq<char>, Seq<(Seq<char>, Seq<char>)>),
    Xrange(Seq<char>, Seq<char>, Seq<char>),
    Xread(Seq<Seq<char>>, Seq<Seq<char>>, Option<u64>),
    Incr(Seq<char>),
    Multi,
    Exec,
    Unknow,
    Discard,
}

/// The views of a list of texts.
pub open spec fn word_views(v: Seq<String>) -> Seq<Seq<char>> {
    Seq::new(v.len(), |i: int| v[i]@)
}

/// The views of a list of field-value pairs.
pub open spec fn pair_views(v: Seq<(String, String)>) -> Seq<(Seq<char>, Seq<char>)> {
    Seq::new(v.len(), |i: int| (v[i].0@, v[i].1@))
}

impl View for Cmd {
    type V = CmdModel;

    open spec fn view(&self) -> CmdModel {
        match self {
            Cmd::Ping => CmdModel::Ping,
            Cmd::Echo(a) => CmdModel::Echo(a@),
            Cmd::Get(a) => CmdModel::Get(a@),
            Cmd::SetVal(a, b) => CmdModel::SetVal(a@, b@),
            Cmd::SetPx(a, b, x) => CmdModel::SetPx(a@, b@, *x),
            Cmd::SetEx(a, b, x) => CmdModel::SetEx(a@, b@, *x),
            Cmd::Keys => CmdModel::Keys,
            Cmd::ConfigGet(a) => CmdModel::ConfigGet(a@),
            Cmd::Info(o) => CmdModel::Info(
                match o {
                    Some(a) => Some(a@),
                    None => None,
                },
            ),
            Cmd::Del(a) => CmdModel::Del(a@),
            Cmd::Replconf(a) => CmdModel::Replconf(a@),
            Cmd::Psync => CmdModel::Psync,
            Cmd::Type(a) => CmdModel::Type(a@),
            Cmd::Xadd(a, b, kv) => CmdModel::Xadd(a@, b@, pair_views(kv@)),
            Cmd::Xrange(a, b, c) => CmdModel::Xrange(a@, b@, c@),
            Cmd::Xread(ks, is, blk) => CmdModel::Xread(word_views(ks@), word_views(is@), *blk),
            Cmd::Incr(a) => CmdModel::Incr(a@),
            Cmd::Multi => CmdModel::Multi,
            Cmd::Exec => CmdModel::Exec,
            Cmd::Unknow => CmdModel::Unknow,
            Cmd::Discard => CmdModel::Discard,
        }
    }
}

/// The field-value pairs a stream append names, read two words at a time
/// from position `i`; a trailing odd word is ignored.
pub open spec fn xadd_pairs(ws: Seq<Seq<char>>, i: int) -> Seq<(Seq<char>, Seq<char>)>
    decreases ws.len() - i,
{
    if i < ws.len() - 1 {
        seq![(ws[i], ws[i + 1])] + xadd_pairs(ws, i + 2)
    } else {
        Seq::empty()
    }
}

/// The words of a SET command: plain, or with a millisecond or second
/// expiry suffix.
pub open spec fn set_of_words(ws: Seq<Seq<char>>) -> Option<CmdModel> {
    if ws.len() == 5 && ws[3] == "px"@ {
        match parse_dec(ws[4], u128::MAX as int) {
            Some(x) => Some(CmdModel::SetPx(ws[1], ws[2], x as u128)),
            None => None,
        }
    } else if ws.len() == 5 && ws[3] == "ex"@ {
        match parse_dec(ws[4], u128::MAX as int) {
            Some(x) => Some(CmdModel::SetEx(ws[1], ws[2], x as u128)),
            None => None,
        }
    } else if ws.len() == 3 {
        Some(CmdModel::SetVal(ws[1], ws[2]))
    } else {
        None
    }
}

/// The words of an XREAD command: an optional block time, then stream
/// keys and start ids in two equal halves.
pub open spec fn xread_of_words(ws: Seq<Seq<char>>) -> Option<CmdModel> {
    if ws.len() < 4 || ws.len() % 2 != 0 {
        None
    } else if ws[1] == "block"@ {
        match parse_dec(ws[2], u64::MAX as int) {
            Some(t) => Some(xread_split(ws, 4, Some(t as u64))),
            None => None,
        }
    } else {
        Some(xread_split(ws, 2, None))
    }
}

pub open spec fn xread_split(ws: Seq<Seq<char>>, off: int, block: Option<u64>) -> CmdModel {
    let half = (ws.len() - off) / 2;
    CmdModel::Xread(
        ws.subrange(off, off + half),
        ws.subrange(off + half, ws.len() as int),
        block,
    )
}

/// The command a list of words names, or nothing where the verb's shape
/// is wrong.  An unrecognized verb is the explicit unknown command.
pub open spec fn cmd_of_words(ws: Seq<Seq<char>>) -> Option<CmdModel> {
    if ws.len() == 0 {
        None
    } else {
        let w0 = ws[0];
        if w0 == "echo"@ {
            if ws.len() >= 2 {
                Some(CmdModel::Echo(ws[1]))
            } else {
                None
            }
        } else if w0 == "ping"@ {
            Some(CmdModel::Ping)
        } else if w0 == "get"@ {
            if ws.len() >= 2 {
                Some(CmdModel::Get(ws[1]))
            } else {
                None
            }
        } else if w0 == "set"@ {
            set_of_words(ws)
        } else if w0 == "config"@ {
            if ws.len() == 3 && ws[1] == "get"@ {
                Some(CmdModel::ConfigGet(ws[2]))
            } else {
                None
            }
        } else if w0 == "keys"@ {
            if ws.len() == 2 && ws[1] == "*"@ {
                Some(CmdModel::Keys)
            } else {
                None
            }
        } else if w0 == "info"@ {
            Some(
                CmdModel::Info(
                    if ws.len() == 2 {
                        Some(ws[1])
                    } else {
                        None
                    },
                ),
            )
        } else if w0 == "replconf"@ {
            if ws.len() >= 3 {
                Some(CmdModel::Replconf(ws[1]))
            } else {
                None
            }
        } else if w0 == "psync"@ {
            if ws.len() == 3 {
                Some(CmdModel::Psync)
            } else {
                None
            }
        } else if w0 == "del"@ {
            if ws.len() == 2 {
                Some(CmdModel::Del(ws[1]))
            } else {
                None
            }
        } else if w0 == "type"@ {
            if ws.len() == 2 {
                Some(CmdModel::Type(ws[1]))
            } else {
                None
            }
        } else if w0 == "xadd"@ {
            if ws.len() >= 5 {
                Some(CmdModel::Xadd(ws[1], ws[2], xadd_pairs(ws, 3)))
            } else {
                None
            }
        } else if w0 == "xrange"@ {
            if ws.len() == 4 {
                Some(CmdModel::Xrange(ws[1], ws[2], ws[3]))
            } else {
                None
            }
        } else if w0 == "xread"@ {
            xread_of_words(ws)
        } else if w0 == "incr"@ {
            if ws.len() == 2 {
                Some(CmdModel::Incr(ws[1]))
            } else {
                None
            }
        } else if w0 == "multi"@ {
            if ws.len() == 1 {
                Some(CmdModel::Multi)
            } else {
                None
            }
        } else if w0 == "exec"@ {
            if ws.len() == 1 {
                Some(CmdModel::Exec)
            } else {
                None
            }
        } else if w0 == "discard"@ {
            Some(CmdModel::Discard)
        } else {
            Some(CmdModel::Unknow)
        }
    }
}

/// What a whole request text parses to: the frame it decodes to, and the
/// command the frame's words name.
pub open spec fn cmd_parse(s: Seq<char>) -> Option<(CmdModel, FrameModel)> {
    match decode_frame(s) {
        Some((f, n)) => match f {
            FrameModel::Array(v) => match cmd_of_words(cmd_text(v)) {
                Some(c) => Some((c, f)),
                None => None,
            },
            _ => None,
        },
        None => None,
    }
}

/// Parsing is a function of the request text alone: any two parses of the
/// same text that both succeed agree on the command and the frame.
pub proof fn lemma_dispatch_pure(
    s: Seq<char>,
    c1: CmdModel,
    f1: FrameModel,
    c2: CmdModel,
    f2: FrameModel,
)
    requires
        cmd_parse(s) == Some((c1, f1)),
        cmd_parse(s) == Some((c2, f2)),
    ensures
        c1 == c2,
        f1 == f2,
{
}

/// The position of the first dash at or after `i`, if any.
pub open spec fn find_dash(s: Seq<char>, i: int) -> Option<int>
    decreases s.len() - i,
{
    if i >= s.len() {
        None
    } else if s[i] == '-' {
        Some(i)
    } else {
        find_dash(s, i + 1)
    }
}

/// A stream id request split at its dashes: the numeric part before the
/// first dash, then the sequence part up to a second dash or the end.  A
/// missing or `*` sequence part is the wildcard, resolved to 0 (or to 1
/// when the first part is 0, since the id 0-0 is never allowed).  Texts
/// whose numeric parts do not parse are rejected.
pub open spec fn split_offset_spec(s: Seq<char>) -> Option<(u64, u64, bool)> {
    match find_dash(s, 0) {
        None => match parse_dec(s, u64::MAX as int) {
            Some(id) => Some(
                (
                    id as u64,
                    if id == 0 {
                        1u64
                    } else {
                        0u64
                    },
                    true,
                ),
            ),
            None => None,
        },
        Some(d) => match parse_dec(s.take(d), u64::MAX as int) {
            None => None,
            Some(id) => {
                let seq_part = match find_dash(s, d + 1) {
                    None => s.skip(d + 1),
                    Some(d2) => s.subrange(d + 1, d2),
                };
                if seq_part == "*"@ {
                    Some(
                        (
                            id as u64,
                            if id == 0 {
                                1u64
                            } else {
                                0u64
                            },
                            true,
                        ),
                    )
                } else {
                    match parse_dec(seq_part, u64::MAX as int) {
                        Some(q) => Some((id as u64, q as u64, false)),
                        None => None,
                    }
                }
            },
        },
    }
}

/// The first dash at or after `from`, scanning left to right.
fn find_dash_from(s: &str, from: usize) -> (r: Option<usize>)
    ensures
        match r {
            Some(x) => Some(x as int) == find_dash(s@, from as int) && from <= x && x < s@.len(),
            None => find_dash(s@, from as int) is None,
        },
{
    let n = s.unicode_len();
    let mut i: usize = from;
    loop
        invariant
            from <= i,
            n == s@.len(),
            find_dash(s@, from as int) == find_dash(s@, i as int),
        decreases n - i,
    {
        if i >= n {
            return None;
        }
        if s.get_char(i) == '-' {
            return Some(i);
        }
        i = i + 1;
    }
}

/// Splits a stream id request, rejecting texts whose parts are not
/// numbers.
pub fn try_split_offset(offset: &str) -> (r: Result<(u64, u64, bool), DBError>)
    ensures
        match split_offset_spec(offset@) {
            Some(v) => r matches Ok(u) && u == v,
            None => r is Err,
        },
{
    let n = offset.unicode_len();
    match find_dash_from(offset, 0) {
        None => {
            match crate::protocol::parse_u64(offset) {
                Ok(id) => Ok((id, if id == 0 { 1 } else { 0 }, true)),
                Err(e) => Err(e),
            }
        },
        Some(d) => {
            let head = offset.substring_char(0, d);
            proof {
                assert(head@ =~= offset@.take(d as int));
            }
            let id = match crate::protocol::parse_u64(head) {
                Ok(id) => id,
                Err(e) => {
                    return Err(e);
                },
            };
            let seq_part = match find_dash_from(offset, d + 1) {
                None => offset.substring_char(d + 1, n),
                Some(d2) => offset.substring_char(d + 1, d2),
            };
            proof {
                assert(seq_part@ =~= (match find_dash(offset@, d + 1) {
                    None => offset@.skip(d + 1),
                    Some(d2) => offset@.subrange(d + 1, d2),
                }));
            }
            let star = String::from_str("*");
            if seq_part.to_owned() == star {
                Ok((id, if id == 0 { 1 } else { 0 }, true))
            } else {
                match crate::protocol::parse_u64(seq_part) {
                    Ok(q) => Ok((id, q, false)),
                    Err(e) => Err(e),
                }
            }
        },
    }
}

/// Splits a stream id request known to be well formed.
pub fn split_offset(offset: &str) -> (r: (u64, u64, bool))
    requires
        split_offset_spec(offset@) is Some,
    ensures
        Some(r) == split_offset_spec(offset@),
{
    match try_split_offset(offset) {
        Ok(v) => v,
        Err(_) => {
            proof {
                assert(false);
            }
            (0, 0, false)
        },
    }
}

/// Whether a text equals a given literal.
pub(crate) fn word_is(w: &String, lit: &str) -> (b: bool)
    ensures
        b == (w@ == lit@),
{
    let l = String::from_str(lit);
    *w == l
}

impl Cmd {
    /// Parses a request text into the command it names, returning the
    /// decoded frame alongside it, since replication forwards the frame
    /// as it arrived.
    #[verifier::loop_isolation(false)]
    #[verifier::rlimit(60)]
    pub fn from(s: &str) -> (r: Result<(Cmd, Protocol), DBError>)
        ensures
            match cmd_parse(s@) {
                Some((c, f)) => r matches Ok(p) && p.0@ == c && p.1@ == f,
                None => r is Err,
            },
    {
        let (protocol, _consumed) = match Protocol::from(s) {
            Ok(x) => x,
            Err(e) => {
                return Err(e);
            },
        };
        let ghost fm = protocol@;
        let mut words: Vec<String> = Vec::new();
        match &protocol {
            Protocol::Array(items) => {
                proof {
                    crate::protocol::lemma_frame_views(items@);
                    assert(fm matches FrameModel::Array(v) && v == crate::protocol::frame_views(
                        items@,
                    ));
                }
                let ghost v = crate::protocol::frame_views(items@);
                let n = items.len();
                let mut i: usize = 0;
                while i < n
                    invariant
                        i <= n,
                        words@.len() == i,
                        forall|j: int| 0 <= j < i ==> words@[j]@ == flat_of(#[trigger] v[j]),
                    decreases n - i,
                {
                    let w = items[i].decode();
                    words.push(w);
                    i += 1;
                }
                proof {
                    assert(word_views(words@) =~= cmd_text(v));
                }
            },
            _ => {
                return Err(DBError::msg("fail to parse as cmd"));
            },
        }
        if words.len() == 0 {
            return Err(DBError::msg("cmd length is 0"));
        }
        let ghost ws = cmd_text(fm->Array_0);
        proof {
            assert(ws == word_views(words@));
            assert(forall|j: int| 0 <= j < words@.len() ==> ws[j] == #[trigger] words@[j]@);
        }
        let cmd: Cmd = if word_is(&words[0], "echo") {
            if words.len() >= 2 {
                Cmd::Echo(words[1].clone())
            } else {
                return Err(DBError::msg("unsupported cmd"));
            }
        } else if word_is(&words[0], "ping") {
            Cmd::Ping
        } else if word_is(&words[0], "get") {
            if words.len() >= 2 {
                Cmd::Get(words[1].clone())
            } else {
                return Err(DBError::msg("unsupported cmd"));
            }
        } else if word_is(&words[0], "set") {
            if words.len() == 5 && word_is(&words[3], "px") {
                match crate::protocol::parse_u128(words[4].as_str()) {
                    Ok(x) => Cmd::SetPx(words[1].clone(), words[2].clone(), x),
                    Err(e) => {
                        return Err(e);
                    },
                }
            } else if words.len() == 5 && word_is(&words[3], "ex") {
                match crate::protocol::parse_u128(words[4].as_str()) {
                    Ok(x) => Cmd::SetEx(words[1].clone(), words[2].clone(), x),
                    Err(e) => {
                        return Err(e);
                    },
                }
            } else if words.len() == 3 {
                Cmd::SetVal(words[1].clone(), words[2].clone())
            } else {
                return Err(DBError::msg("unsupported cmd"));
            }
        } else if word_is(&words[0], "config") {
            if words.len() == 3 && word_is(&words[1], "get") {
                Cmd::ConfigGet(words[2].clone())
            } else {
                return Err(DBError::msg("unsupported cmd"));
            }
        } else if word_is(&words[0], "keys") {
            if words.len() == 2 && word_is(&words[1], "*") {
                Cmd::Keys
            } else {
                return Err(DBError::msg("unsupported cmd"));
            }
        } else if word_is(&words[0], "info") {
            Cmd::Info(
                if words.len() == 2 {
                    Some(words[1].clone())
                } else {
                    None
                },
            )
        } else if word_is(&words[0], "replconf") {
            if words.len() >= 3 {
                Cmd::Replconf(words[1].clone())
            } else {
                return Err(DBError::msg("unsupported cmd"));
            }
        } else if word_is(&words[0], "psync") {
            if words.len() == 3 {
                Cmd::Psync
            } else {
                return Err(DBError::msg("unsupported cmd"));
            }
        } else if word_is(&words[0], "del") {
            if words.len() == 2 {
                Cmd::Del(words[1].clone())
            } else {
                return Err(DBError::msg("unsupported cmd"));
            }
        } else if word_is(&words[0], "type") {
            if words.len() == 2 {
                Cmd::Type(words[1].clone())
            } else {
                return Err(DBError::msg("unsupported cmd"));
            }
        } else if word_is(&words[0], "xadd") {
            if words.len() < 5 {
                return Err(DBError::msg("unsupported cmd"));
            }
            let mut kv: Vec<(String, String)> = Vec::new();
            proof {
                assert(pair_views(kv@) =~= Seq::<(Seq<char>, Seq<char>)>::empty());
                if xadd_pairs(ws, 3).len() >= 0 {
                    assert(Seq::<(Seq<char>, Seq<char>)>::empty() + xadd_pairs(ws, 3) =~= xadd_pairs(
                        ws,
                        3,
                    ));
                }
            }
            let mut i: usize = 3;
            while i < words.len() - 1
                invariant
                    3 <= i,
                    i <= words@.len() + 1,
                    pair_views(kv@) + xadd_pairs(ws, i as int) == xadd_pairs(ws, 3),
                decreases words@.len() - i,
            {
                let pair = (words[i].clone(), words[i + 1].clone());
                let ghost prev = kv@;
                let ghost gp = pair;
                kv.push(pair);
                proof {
                    assert(pair_views(kv@) =~= pair_views(prev).push((ws[i as int], ws[i + 1])));
                    assert(xadd_pairs(ws, i as int) == seq![(ws[i as int], ws[i + 1])] + xadd_pairs(
                        ws,
                        i + 2,
                    ));
                    assert(pair_views(prev).push((ws[i as int], ws[i + 1])) + xadd_pairs(ws, i + 2)
                        =~= pair_views(prev) + (seq![(ws[i as int], ws[i + 1])] + xadd_pairs(
                        ws,
                        i + 2,
                    )));
                }
                i += 2;
            }
            proof {
                assert(xadd_pairs(ws, i as int) =~= Seq::<(Seq<char>, Seq<char>)>::empty());
                assert(pair_views(kv@) + Seq::<(Seq<char>, Seq<char>)>::empty() =~= pair_views(
                    kv@,
                ));
            }
            Cmd::Xadd(words[1].clone(), words[2].clone(), kv)
        } else if word_is(&words[0], "xrange") {
            if words.len() == 4 {
                Cmd::Xrange(words[1].clone(), words[2].clone(), words[3].clone())
            } else {
                return Err(DBError::msg("unsupported cmd"));
            }
        } else if word_is(&words[0], "xread") {
            if words.len() < 4 || words.len() % 2 != 0 {
                return Err(DBError::msg("unsupported cmd"));
            }
            let mut offset: usize = 2;
            let mut block: Option<u64> = None;
            if word_is(&words[1], "block") {
                match crate::protocol::parse_u64(words[2].as_str()) {
                    Ok(t) => {
                        block = Some(t);
                        offset = 4;
                    },
                    Err(e) => {
                        return Err(e);
                    },
                }
            }
            let half = (words.len() - offset) / 2;
            proof {
                assert((words@.len() - offset) % 2 == 0);
                assert(half * 2 == words@.len() - offset);
            }
            let mut keys: Vec<String> = Vec::new();
            let mut j: usize = 0;
            while j < half
                invariant
                    j <= half,
                    keys@.len() == j,
                    forall|t: int| 0 <= t < j ==> keys@[t]@ == ws[offset + t],
                decreases half - j,
            {
                keys.push(words[offset + j].clone());
                j += 1;
            }
            let mut ids: Vec<String> = Vec::new();
            let mut k: usize = 0;
            while k < half
                invariant
                    k <= half,
                    ids@.len() == k,
                    forall|t: int| 0 <= t < k ==> ids@[t]@ == ws[offset + half + t],
                decreases half - k,
            {
                ids.push(words[offset + half + k].clone());
                k += 1;
            }
            proof {
                assert(word_views(keys@) =~= ws.subrange(
                    offset as int,
                    offset as int + half as int,
                ));
                assert(word_views(ids@) =~= ws.subrange(offset as int + half as int, ws.len() as int));
            }
            Cmd::Xread(keys, ids, block)
        } else if word_is(&words[0], "incr") {
            if words.len() == 2 {
                Cmd::Incr(words[1].clone())
            } else {
                return Err(DBError::msg("unsupported cmd"));
            }
        } else if word_is(&words[0], "multi") {
            if words.len() == 1 {
                Cmd::Multi
            } else {
                return Err(DBError::msg("unsupported cmd"));
            }
        } else if word_is(&words[0], "exec") {
            if words.len() == 1 {
                Cmd::Exec
            } else {
                return Err(DBError::msg("unsupported cmd"));
            }
        } else if word_is(&words[0], "discard") {
            Cmd::Discard
        } else {
            Cmd::Unknow
        };
        Ok((cmd, protocol))
    }
}

} // verus!
