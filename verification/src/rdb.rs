//! The on-disk snapshot format: a magic header, then sections of
//! metadata, database selectors and hash-table records, ended by an
//! end-of-file marker.
//!
//! Parsing is a pure function of the bytes: it yields the key/value
//! records to load, each with an optional absolute-millisecond expiry
//! deadline.
use vstd::prelude::*;
use vstd::utf8::decode_utf8;
use vstd::utf8::valid_utf8;
use crate::error::DBError;
use crate::protocol::dec_digits;

verus! {

/// One record to load: key text, value text, optional deadline.
pub type RecordView = (Seq<char>, Seq<char>, Option<u128>);

/// What a length marker encodes: a plain byte count, or one of the
/// fixed-width integer encodings.
pub enum LenCodeModel {
    Plain(int),
    I8,
    I16,
    I32,
}

/// A length marker as read.
pub enum LenCode {
    Plain(usize),
    I8,
    I16,
    I32,
}

impl View for LenCode {
    type V = LenCodeModel;

    open spec fn view(&self) -> LenCodeModel {
        match self {
            LenCode::Plain(n) => LenCodeModel::Plain(*n as int),
            LenCode::I8 => LenCodeModel::I8,
            LenCode::I16 => LenCodeModel::I16,
            LenCode::I32 => LenCodeModel::I32,
        }
    }
}

pub open spec fn le16_at(b: Seq<u8>, j: int) -> int {
    b[j] + 256 * b[j + 1]
}

pub open spec fn le32_at(b: Seq<u8>, j: int) -> int {
    b[j] + 256 * b[j + 1] + 65536 * b[j + 2] + 16777216 * b[j + 3]
}

pub open spec fn le64_at(b: Seq<u8>, j: int) -> int {
    b[j] + 256 * b[j + 1] + 65536 * b[j + 2] + 16777216 * b[j + 3] + 4294967296 * b[j + 4]
        + 1099511627776 * b[j + 5] + 281474976710656 * b[j + 6] + 72057594037927936 * b[j + 7]
}

pub open spec fn be32_at(b: Seq<u8>, j: int) -> int {
    16777216 * b[j] + 65536 * b[j + 1] + 256 * b[j + 2] + b[j + 3]
}

/// The length marker at position `i`: the first byte's top two bits pick
/// the mode (6-bit, 14-bit, 32-bit big-endian, or a special integer
/// encoding; compressed strings are not supported).
pub open spec fn parse_len_at(b: Seq<u8>, i: int) -> Option<(LenCodeModel, int)> {
    if i >= b.len() || i < 0 {
        None
    } else {
        let first = b[i] as int;
        if first < 64 {
            Some((LenCodeModel::Plain(first), i + 1))
        } else if first < 128 {
            if i + 2 <= b.len() {
                Some((LenCodeModel::Plain((first - 64) * 256 + b[i + 1]), i + 2))
            } else {
                None
            }
        } else if first < 192 {
            if i + 5 <= b.len() {
                Some((LenCodeModel::Plain(be32_at(b, i + 1)), i + 5))
            } else {
                None
            }
        } else if first == 192 {
            Some((LenCodeModel::I8, i + 1))
        } else if first == 193 {
            Some((LenCodeModel::I16, i + 1))
        } else if first == 194 {
            Some((LenCodeModel::I32, i + 1))
        } else {
            None
        }
    }
}

/// The string at position `i`: a length marker, then that many bytes of
/// UTF-8 text, or an integer rendered as decimal text.
pub open spec fn parse_string_at(b: Seq<u8>, i: int) -> Option<(Seq<char>, int)> {
    match parse_len_at(b, i) {
        None => None,
        Some((code, j)) => match code {
            LenCodeModel::Plain(n) => if j + n <= b.len() && valid_utf8(b.subrange(j, j + n)) {
                Some((decode_utf8(b.subrange(j, j + n)), j + n))
            } else {
                None
            },
            LenCodeModel::I8 => if j + 1 <= b.len() {
                Some((dec_digits(b[j] as int), j + 1))
            } else {
                None
            },
            LenCodeModel::I16 => if j + 2 <= b.len() {
                Some((dec_digits(le16_at(b, j)), j + 2))
            } else {
                None
            },
            LenCodeModel::I32 => if j + 4 <= b.len() {
                Some((dec_digits(le32_at(b, j)), j + 4))
            } else {
                None
            },
        },
    }
}

/// A record without expiry: the string type byte, a key, a value.
pub open spec fn parse_plain_entry_at(b: Seq<u8>, i: int) -> Option<(RecordView, int)> {
    if 0 <= i < b.len() && b[i] == 0 {
        match parse_string_at(b, i + 1) {
            None => None,
            Some((k, j)) => match parse_string_at(b, j) {
                None => None,
                Some((v, j2)) => Some(((k, v, None), j2)),
            },
        }
    } else {
        None
    }
}

/// A record with expiry: a millisecond or second deadline, then a plain
/// record.
pub open spec fn parse_expire_entry_at(b: Seq<u8>, i: int) -> Option<(RecordView, int)> {
    if i >= b.len() || i < 0 {
        None
    } else if b[i] == 0xFC {
        if i + 9 <= b.len() {
            match parse_plain_entry_at(b, i + 9) {
                Some(((k, v, _), j)) => Some(((k, v, Some(le64_at(b, i + 1) as u128)), j)),
                None => None,
            }
        } else {
            None
        }
    } else if b[i] == 0xFD {
        if i + 5 <= b.len() {
            match parse_plain_entry_at(b, i + 5) {
                Some(((k, v, _), j)) => Some(((k, v, Some((le32_at(b, i + 1) * 1000) as u128)), j)),
                None => None,
            }
        } else {
            None
        }
    } else {
        None
    }
}

/// `k` consecutive plain records.
pub open spec fn parse_plain_n(b: Seq<u8>, i: int, k: int) -> Option<(Seq<RecordView>, int)>
    decreases k,
{
    if k <= 0 {
        Some((Seq::empty(), i))
    } else {
        match parse_plain_entry_at(b, i) {
            None => None,
            Some((r, j)) => match parse_plain_n(b, j, k - 1) {
                None => None,
                Some((rs, j2)) => Some((seq![r] + rs, j2)),
            },
        }
    }
}

/// `k` consecutive expiring records.
pub open spec fn parse_expire_n(b: Seq<u8>, i: int, k: int) -> Option<(Seq<RecordView>, int)>
    decreases k,
{
    if k <= 0 {
        Some((Seq::empty(), i))
    } else {
        match parse_expire_entry_at(b, i) {
            None => None,
            Some((r, j)) => match parse_expire_n(b, j, k - 1) {
                None => None,
                Some((rs, j2)) => Some((seq![r] + rs, j2)),
            },
        }
    }
}

/// One hash-table section after its op byte: the two counts, then that
/// many plain records, then that many expiring records.
pub open spec fn parse_table_at(b: Seq<u8>, i: int) -> Option<(Seq<RecordView>, int)> {
    match parse_len_at(b, i + 1) {
        Some((LenCodeModel::Plain(n1), j)) => match parse_len_at(b, j) {
            Some((LenCodeModel::Plain(n2), j2)) => match parse_plain_n(b, j2, n1) {
                Some((rs1, j3)) => match parse_expire_n(b, j3, n2) {
                    Some((rs2, j4)) => Some((rs1 + rs2, j4)),
                    None => None,
                },
                None => None,
            },
            _ => None,
        },
        _ => None,
    }
}

/// The sections from position `i` to the end-of-file marker: metadata
/// and database selectors are consumed and ignored, hash-table sections
/// contribute their records in order, and the end-of-file marker must
/// be followed by its eight checksum bytes (unchecked).
pub open spec fn parse_sections_at(b: Seq<u8>, i: int) -> Option<Seq<RecordView>>
    decreases b.len() - i,
{
    if i >= b.len() || i < 0 {
        None
    } else {
        let op = b[i];
        if op == 0xFA {
            match parse_string_at(b, i + 1) {
                None => None,
                Some((_, j)) => match parse_string_at(b, j) {
                    None => None,
                    Some((_, j2)) => if i < j2 <= b.len() {
                        parse_sections_at(b, j2)
                    } else {
                        None
                    },
                },
            }
        } else if op == 0xFE {
            match parse_len_at(b, i + 1) {
                None => None,
                Some((_, j)) => if i < j <= b.len() {
                    parse_sections_at(b, j)
                } else {
                    None
                },
            }
        } else if op == 0xFB {
            match parse_table_at(b, i) {
                Some((rs, j4)) => if i < j4 <= b.len() {
                    match parse_sections_at(b, j4) {
                        Some(rest) => Some(rs + rest),
                        None => None,
                    }
                } else {
                    None
                },
                None => None,
            }
        } else if op == 0xFF {
            if i + 9 <= b.len() {
                Some(Seq::empty())
            } else {
                None
            }
        } else {
            None
        }
    }
}

/// The whole snapshot: the `REDIS` magic, four version bytes, then the
/// sections.
pub open spec fn parse_rdb_spec(b: Seq<u8>) -> Option<Seq<RecordView>> {
    if b.len() >= 9 && b.subrange(0, 5) == seq![82u8, 69u8, 68u8, 73u8, 83u8] {
        parse_sections_at(b, 9)
    } else {
        None
    }
}

/// The models of a list of records as read.
pub open spec fn record_views(v: Seq<(String, String, Option<u128>)>) -> Seq<RecordView> {
    Seq::new(v.len(), |i: int| (v[i].0@, v[i].1@, v[i].2))
}

/// Relies on String::from_utf8: the UTF-8 decoding of the bytes, or an
/// error exactly when they are not valid UTF-8.
#[verifier::external_body]
fn bytes_to_string(v: Vec<u8>) -> (r: Result<String, DBError>)
    ensures
        r matches Ok(s) ==> valid_utf8(v@) && s@ == decode_utf8(v@),
        r is Err <==> !valid_utf8(v@),
{
    match String::from_utf8(v) {
        Ok(s) => Ok(s),
        Err(_) => Err(DBError::msg("invalid utf-8 in snapshot string")),
    }
}

/// Reads the length marker at position `i`.
pub fn parse_len(data: &[u8], i: usize) -> (r: Result<(LenCode, usize), DBError>)
    ensures
        match parse_len_at(data@, i as int) {
            Some((code, j)) => r matches Ok(p) && p.0@ == code && p.1 == j && i < j <= data@.len(),
            None => r is Err,
        },
{
    let n = data.len();
    if i >= n {
        return Err(DBError::msg("unexpected end of snapshot"));
    }
    let first = data[i];
    if first < 64 {
        Ok((LenCode::Plain(first as usize), i + 1))
    } else if first < 128 {
        if n - i >= 2 {
            let second = data[i + 1];
            let v: usize = ((first - 64) as usize) * 256 + (second as usize);
            Ok((LenCode::Plain(v), i + 2))
        } else {
            Err(DBError::msg("unexpected end of snapshot"))
        }
    } else if first < 192 {
        if n - i >= 5 {
            let v: u64 = 16777216u64 * (data[i + 1] as u64) + 65536u64 * (data[i + 2] as u64)
                + 256u64 * (data[i + 3] as u64) + (data[i + 4] as u64);
            Ok((LenCode::Plain(v as usize), i + 5))
        } else {
            Err(DBError::msg("unexpected end of snapshot"))
        }
    } else if first == 192 {
        Ok((LenCode::I8, i + 1))
    } else if first == 193 {
        Ok((LenCode::I16, i + 1))
    } else if first == 194 {
        Ok((LenCode::I32, i + 1))
    } else {
        Err(DBError::msg("unsupported string encoding in snapshot"))
    }
}

/// Reads the string at position `i`.
pub fn parse_string(data: &[u8], i: usize) -> (r: Result<(String, usize), DBError>)
    ensures
        match parse_string_at(data@, i as int) {
            Some((s, j)) => r matches Ok(p) && p.0@ == s && p.1 == j && i < j <= data@.len(),
            None => r is Err,
        },
{
    let n = data.len();
    let (code, j) = match parse_len(data, i) {
        Ok(p) => p,
        Err(e) => {
            return Err(e);
        },
    };
    match code {
        LenCode::Plain(len) => {
            if len > n - j {
                return Err(DBError::msg("truncated snapshot string"));
            }
            let raw = vstd::slice::slice_subrange(data, j, j + len);
            let bytes = vstd::slice::slice_to_vec(raw);
            match bytes_to_string(bytes) {
                Ok(s) => Ok((s, j + len)),
                Err(e) => Err(e),
            }
        },
        LenCode::I8 => {
            if n - j >= 1 {
                let v = data[j] as u64;
                Ok((crate::protocol::u64_to_string(v), j + 1))
            } else {
                Err(DBError::msg("unexpected end of snapshot"))
            }
        },
        LenCode::I16 => {
            if n - j >= 2 {
                let v = (data[j] as u64) + 256u64 * (data[j + 1] as u64);
                Ok((crate::protocol::u64_to_string(v), j + 2))
            } else {
                Err(DBError::msg("unexpected end of snapshot"))
            }
        },
        LenCode::I32 => {
            if n - j >= 4 {
                let v = (data[j] as u64) + 256u64 * (data[j + 1] as u64) + 65536u64 * (data[j + 2]
                    as u64) + 16777216u64 * (data[j + 3] as u64);
                Ok((crate::protocol::u64_to_string(v), j + 4))
            } else {
                Err(DBError::msg("unexpected end of snapshot"))
            }
        },
    }
}

/// Reads a record without expiry at position `i`.
pub fn parse_no_expire_entry(data: &[u8], i: usize) -> (r: Result<(String, String, usize), DBError>)
    ensures
        match parse_plain_entry_at(data@, i as int) {
            Some(((k, v, _), j)) => r matches Ok(p) && p.0@ == k && p.1@ == v && p.2 == j && i < j
                <= data@.len(),
            None => r is Err,
        },
{
    let n = data.len();
    if i >= n || data[i] != 0 {
        return Err(DBError::msg("unexpected key type in snapshot"));
    }
    let (k, j) = match parse_string(data, i + 1) {
        Ok(p) => p,
        Err(e) => {
            return Err(e);
        },
    };
    let (v, j2) = match parse_string(data, j) {
        Ok(p) => p,
        Err(e) => {
            return Err(e);
        },
    };
    Ok((k, v, j2))
}

/// Reads a record with its expiry deadline at position `i`.
pub fn parse_expire_entry(data: &[u8], i: usize) -> (r: Result<
    (String, String, u128, usize),
    DBError,
>)
    ensures
        match parse_expire_entry_at(data@, i as int) {
            Some(((k, v, dl), j)) => r matches Ok(p) && p.0@ == k && p.1@ == v && Some(p.2) == dl
                && p.3 == j && i < j <= data@.len(),
            None => r is Err,
        },
{
    let n = data.len();
    if i >= n {
        return Err(DBError::msg("unexpected end of snapshot"));
    }
    let op = data[i];
    if op == 0xFC {
        if n - i < 9 {
            return Err(DBError::msg("unexpected end of snapshot"));
        }
        let dl: u64 = (data[i + 1] as u64) + 256u64 * (data[i + 2] as u64) + 65536u64 * (data[i + 3]
            as u64) + 16777216u64 * (data[i + 4] as u64) + 4294967296u64 * (data[i + 5] as u64)
            + 1099511627776u64 * (data[i + 6] as u64) + 281474976710656u64 * (data[i + 7] as u64)
            + 72057594037927936u64 * (data[i + 8] as u64);
        let (k, v, j) = match parse_no_expire_entry(data, i + 9) {
            Ok(p) => p,
            Err(e) => {
                return Err(e);
            },
        };
        Ok((k, v, dl as u128, j))
    } else if op == 0xFD {
        if n - i < 5 {
            return Err(DBError::msg("unexpected end of snapshot"));
        }
        let secs: u64 = (data[i + 1] as u64) + 256u64 * (data[i + 2] as u64) + 65536u64 * (data[i
            + 3] as u64) + 16777216u64 * (data[i + 4] as u64);
        let dl: u128 = (secs as u128) * 1000;
        let (k, v, j) = match parse_no_expire_entry(data, i + 5) {
            Ok(p) => p,
            Err(e) => {
                return Err(e);
            },
        };
        Ok((k, v, dl, j))
    } else {
        Err(DBError::msg("unexpected expire type in snapshot"))
    }
}

/// Reads one hash-table section, appending its records in order.
#[verifier::loop_isolation(false)]
#[verifier::rlimit(100)]
#[verifier::spinoff_prover]
fn parse_table(data: &[u8], i: usize, out: &mut Vec<(String, String, Option<u128>)>) -> (r: Result<
    usize,
    DBError,
>)
    requires
        i < data@.len(),
    ensures
        match parse_table_at(data@, i as int) {
            Some((rs, j)) => r matches Ok(jj) && jj == j && i < j <= data@.len() && record_views(
                final(out)@,
            ) == record_views(old(out)@) + rs,
            None => r is Err,
        },
{
    let n = data.len();
    let (c1, j) = match parse_len(data, i + 1) {
        Ok(p) => p,
        Err(e) => {
            return Err(e);
        },
    };
    let n1 = match c1 {
        LenCode::Plain(x) => x,
        _ => {
            return Err(DBError::msg("snapshot table size is not a plain length"));
        },
    };
    let (c2, j2) = match parse_len(data, j) {
        Ok(p) => p,
        Err(e) => {
            return Err(e);
        },
    };
    let n2 = match c2 {
        LenCode::Plain(x) => x,
        _ => {
            return Err(DBError::msg("snapshot table size is not a plain length"));
        },
    };
    let ghost out0 = record_views(out@);
    let mut cur = j2;
    let mut k: usize = 0;
    while k < n1
        invariant
            i < cur && cur <= n,
            k <= n1,
            record_views(out@).len() == out0.len() + k,
            record_views(out@).take(out0.len() as int) == out0,
            parse_plain_n(data@, j2 as int, n1 as int) == (match parse_plain_n(
                data@,
                cur as int,
                n1 - k,
            ) {
                Some((rs, jj)) => Some::<(Seq<RecordView>, int)>(
                    (record_views(out@).skip(out0.len() as int) + rs, jj),
                ),
                None => None::<(Seq<RecordView>, int)>,
            }),
        decreases n1 - k,
    {
        let (key, val, jn) = match parse_no_expire_entry(data, cur) {
            Ok(p) => p,
            Err(e) => {
                return Err(e);
            },
        };
        let ghost prev = out@;
        out.push((key, val, None));
        proof {
            assert(record_views(out@) =~= record_views(prev).push(
                (out@.last().0@, out@.last().1@, out@.last().2),
            ));
            assert(record_views(out@).take(out0.len() as int) =~= out0);
            if let Some((rs, jj)) = parse_plain_n(data@, jn as int, n1 - k - 1) {
                assert(record_views(out@).skip(out0.len() as int) + rs =~= record_views(
                    prev,
                ).skip(out0.len() as int) + (seq![
                    (out@.last().0@, out@.last().1@, out@.last().2),
                ] + rs));
            }
        }
        cur = jn;
        k += 1;
    }
    let ghost mid = record_views(out@);
    let ghost rs1 = mid.skip(out0.len() as int);
    let ghost cur_mid = cur as int;
    proof {
        assert(parse_plain_n(data@, cur as int, 0) == Some::<(Seq<RecordView>, int)>(
            (Seq::empty(), cur as int),
        ));
        assert(rs1 + Seq::<RecordView>::empty() =~= rs1);
        assert(parse_plain_n(data@, j2 as int, n1 as int) == Some::<
            (Seq<RecordView>, int),
        >((rs1, cur_mid)));
    }
    let mut k2: usize = 0;
    while k2 < n2
        invariant
            i < cur && cur <= n,
            k2 <= n2,
            record_views(out@).len() == mid.len() + k2,
            record_views(out@).take(mid.len() as int) == mid,
            parse_expire_n(data@, cur_mid, n2 as int) == (match parse_expire_n(
                data@,
                cur as int,
                n2 - k2,
            ) {
                Some((rs, jj)) => Some::<(Seq<RecordView>, int)>(
                    (record_views(out@).skip(mid.len() as int) + rs, jj),
                ),
                None => None::<(Seq<RecordView>, int)>,
            }),
        decreases n2 - k2,
    {
        let (key, val, dl, jn) = match parse_expire_entry(data, cur) {
            Ok(p) => p,
            Err(e) => {
                return Err(e);
            },
        };
        let ghost prev = out@;
        out.push((key, val, Some(dl)));
        proof {
            assert(record_views(out@) =~= record_views(prev).push(
                (out@.last().0@, out@.last().1@, out@.last().2),
            ));
            assert(record_views(out@).take(mid.len() as int) =~= mid);
            if let Some((rs, jj)) = parse_expire_n(data@, jn as int, n2 - k2 - 1) {
                assert(record_views(out@).skip(mid.len() as int) + rs =~= record_views(
                    prev,
                ).skip(mid.len() as int) + (seq![
                    (out@.last().0@, out@.last().1@, out@.last().2),
                ] + rs));
            }
        }
        cur = jn;
        k2 += 1;
    }
    let ghost rs2 = record_views(out@).skip(mid.len() as int);
    proof {
        assert(parse_expire_n(data@, cur as int, 0) == Some::<(Seq<RecordView>, int)>(
            (Seq::empty(), cur as int),
        ));
        assert(rs2 + Seq::<RecordView>::empty() =~= rs2);
        assert(parse_expire_n(data@, cur_mid, n2 as int) == Some::<
            (Seq<RecordView>, int),
        >((rs2, cur as int)));
    }
    if !(i < cur && cur <= n) {
        return Err(DBError::msg("snapshot section out of order"));
    }
    proof {
        assert(mid =~= mid.take(out0.len() as int) + mid.skip(out0.len() as int));
        assert(record_views(out@) =~= record_views(out@).take(mid.len() as int) + record_views(
            out@,
        ).skip(mid.len() as int));
        assert(record_views(out@) =~= out0 + (rs1 + rs2));
    }
    Ok(cur)
}

/// Reads one section at position `i`: metadata and selectors are
/// skipped, a hash table appends its records, and the end-of-file
/// marker (with its eight unchecked checksum bytes) finishes the parse.
#[verifier::rlimit(100)]
#[verifier::spinoff_prover]
fn parse_section(data: &[u8], i: usize, out: &mut Vec<(String, String, Option<u128>)>) -> (r:
    Result<(usize, bool), DBError>)
    requires
        i < data@.len(),
    ensures
        match r {
            Ok((j, done)) => if done {
                parse_sections_at(data@, i as int) == Some(Seq::<RecordView>::empty())
                    && record_views(final(out)@) == record_views(old(out)@)
            } else {
                &&& i < j <= data@.len()
                &&& record_views(final(out)@).len() >= record_views(old(out)@).len()
                &&& record_views(final(out)@).take(record_views(old(out)@).len() as int)
                    == record_views(old(out)@)
                &&& parse_sections_at(data@, i as int) == (match parse_sections_at(
                    data@,
                    j as int,
                ) {
                    Some(rest) => Some::<Seq<RecordView>>(
                        record_views(final(out)@).skip(record_views(old(out)@).len() as int)
                            + rest,
                    ),
                    None => None::<Seq<RecordView>>,
                })
            },
            Err(_) => parse_sections_at(data@, i as int) is None,
        },
{
    let n = data.len();
    let op = data[i];
    if op == 0xFA {
        let (_k, j) = match parse_string(data, i + 1) {
            Ok(p) => p,
            Err(e) => {
                return Err(e);
            },
        };
        let (_v, j2) = match parse_string(data, j) {
            Ok(p) => p,
            Err(e) => {
                return Err(e);
            },
        };
        proof {
            assert(record_views(out@).take(record_views(out@).len() as int) =~= record_views(
                out@,
            ));
            assert(record_views(out@).skip(record_views(out@).len() as int) =~= Seq::<
                RecordView,
            >::empty());
            if let Some(rest) = parse_sections_at(data@, j2 as int) {
                assert(Seq::<RecordView>::empty() + rest =~= rest);
            }
        }
        Ok((j2, false))
    } else if op == 0xFE {
        let (_c, j) = match parse_len(data, i + 1) {
            Ok(p) => p,
            Err(e) => {
                return Err(e);
            },
        };
        proof {
            assert(record_views(out@).take(record_views(out@).len() as int) =~= record_views(
                out@,
            ));
            assert(record_views(out@).skip(record_views(out@).len() as int) =~= Seq::<
                RecordView,
            >::empty());
            if let Some(rest) = parse_sections_at(data@, j as int) {
                assert(Seq::<RecordView>::empty() + rest =~= rest);
            }
        }
        Ok((j, false))
    } else if op == 0xFB {
        let ghost before = record_views(out@);
        let j4 = match parse_table(data, i, out) {
            Ok(j) => j,
            Err(e) => {
                return Err(e);
            },
        };
        proof {
            if let Some((rs, _jj)) = parse_table_at(data@, i as int) {
                assert(record_views(out@).take(before.len() as int) =~= before);
                assert(record_views(out@).skip(before.len() as int) =~= rs);
            }
        }
        Ok((j4, false))
    } else if op == 0xFF {
        if n - i >= 9 {
            Ok((i, true))
        } else {
            Err(DBError::msg("snapshot checksum truncated"))
        }
    } else {
        Err(DBError::msg("unexpected op in snapshot"))
    }
}

/// Parses a whole snapshot into its records, in order.
#[verifier::loop_isolation(false)]
#[verifier::rlimit(100)]
#[verifier::spinoff_prover]
pub fn parse_rdb(data: &[u8]) -> (r: Result<Vec<(String, String, Option<u128>)>, DBError>)
    ensures
        match parse_rdb_spec(data@) {
            Some(recs) => r matches Ok(v) && record_views(v@) == recs,
            None => r is Err,
        },
{
    let n = data.len();
    if n < 9 {
        return Err(DBError::msg("snapshot too short"));
    }
    if !(data[0] == 82 && data[1] == 69 && data[2] == 68 && data[3] == 73 && data[4] == 83) {
        proof {
            assert(data@.subrange(0, 5) != seq![82u8, 69u8, 68u8, 73u8, 83u8]) by {
                if data@.subrange(0, 5) == seq![82u8, 69u8, 68u8, 73u8, 83u8] {
                    assert(data@.subrange(0, 5)[0] == 82u8);
                    assert(data@.subrange(0, 5)[1] == 69u8);
                    assert(data@.subrange(0, 5)[2] == 68u8);
                    assert(data@.subrange(0, 5)[3] == 73u8);
                    assert(data@.subrange(0, 5)[4] == 83u8);
                }
            }
        }
        return Err(DBError::msg("snapshot magic mismatch"));
    }
    proof {
        assert(data@.subrange(0, 5) =~= seq![82u8, 69u8, 68u8, 73u8, 83u8]);
    }
    let mut out: Vec<(String, String, Option<u128>)> = Vec::new();
    let mut i: usize = 9;
    proof {
        assert(record_views(out@) =~= Seq::<RecordView>::empty());
        if let Some(rest) = parse_sections_at(data@, 9) {
            assert(Seq::<RecordView>::empty() + rest =~= rest);
        }
    }
    loop
        invariant
            9 <= i,
            parse_sections_at(data@, 9) == (match parse_sections_at(data@, i as int) {
                Some(rest) => Some::<Seq<RecordView>>(record_views(out@) + rest),
                None => None::<Seq<RecordView>>,
            }),
        decreases data@.len() - i,
    {
        if i >= n {
            return Err(DBError::msg("snapshot ended before its end marker"));
        }
        let ghost before = record_views(out@);
        match parse_section(data, i, &mut out) {
            Err(e) => {
                return Err(e);
            },
            Ok((j, done)) => {
                if done {
                    proof {
                        assert(record_views(out@) + Seq::<RecordView>::empty() =~= record_views(
                            out@,
                        ));
                    }
                    return Ok(out);
                }
                proof {
                    let added = record_views(out@).skip(before.len() as int);
                    if let Some(rest) = parse_sections_at(data@, j as int) {
                        assert(before + (added + rest) =~= record_views(out@) + rest) by {
                            assert(record_views(out@) =~= before + added);
                        }
                    }
                }
                i = j;
            },
        }
    }
}

} // verus!
