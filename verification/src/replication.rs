//! The snapshot image a leader sends to a freshly attached follower.
//!
//! The leader keeps no snapshot file of its own state: it sends a fixed
//! empty snapshot, stored here as hex text, and streams every later
//! write after it.
use vstd::prelude::*;
use vstd::string::StrSliceExecFns;
use crate::error::DBError;

verus! {

/// The value of one hex digit, or -1 for any other character.
pub open spec fn hex_val(c: char) -> int {
    if '0' <= c && c <= '9' {
        c as int - '0' as int
    } else if 'a' <= c && c <= 'f' {
        c as int - 'a' as int + 10
    } else if 'A' <= c && c <= 'F' {
        c as int - 'A' as int + 10
    } else {
        -1
    }
}

/// The bytes hex text from position `i` stands for: two digits each, or
/// nothing when a non-digit appears or one digit is left over.
pub open spec fn hex_bytes_at(s: Seq<char>, i: int) -> Option<Seq<u8>>
    decreases s.len() - i,
{
    if i >= s.len() {
        Some(Seq::empty())
    } else if i + 2 > s.len() {
        None
    } else if hex_val(s[i]) < 0 || hex_val(s[i + 1]) < 0 {
        None
    } else {
        match hex_bytes_at(s, i + 2) {
            Some(bs) => Some(seq![(hex_val(s[i]) * 16 + hex_val(s[i + 1])) as u8] + bs),
            None => None,
        }
    }
}

/// The value of one hex digit.
fn hex_digit(c: char) -> (r: Option<u8>)
    ensures
        match r {
            Some(v) => hex_val(c) == v as int,
            None => hex_val(c) < 0,
        },
{
    if '0' <= c && c <= '9' {
        Some((c as u8) - ('0' as u8))
    } else if 'a' <= c && c <= 'f' {
        Some((c as u8) - ('a' as u8) + 10)
    } else if 'A' <= c && c <= 'F' {
        Some((c as u8) - ('A' as u8) + 10)
    } else {
        None
    }
}

/// Decodes hex text, two digits to a byte, rejecting any other
/// character and an odd number of digits.
#[verifier::loop_isolation(false)]
pub fn decode_hex(s: &str) -> (r: Result<Vec<u8>, DBError>)
    ensures
        match hex_bytes_at(s@, 0) {
            Some(bs) => r matches Ok(v) && v@ == bs,
            None => r is Err,
        },
{
    let n = s.unicode_len();
    let mut out: Vec<u8> = Vec::new();
    let mut i: usize = 0;
    proof {
        if let Some(bs) = hex_bytes_at(s@, 0) {
            assert(Seq::<u8>::empty() + bs =~= bs);
        }
    }
    while i < n
        invariant
            i <= n,
            n == s@.len(),
            hex_bytes_at(s@, 0) == (match hex_bytes_at(s@, i as int) {
                Some(bs) => Some::<Seq<u8>>(out@ + bs),
                None => None::<Seq<u8>>,
            }),
        decreases n - i,
    {
        if n - i < 2 {
            return Err(DBError::msg("odd number of hex digits"));
        }
        let hi = match hex_digit(s.get_char(i)) {
            Some(v) => v,
            None => {
                return Err(DBError::msg("not a hex digit"));
            },
        };
        let lo = match hex_digit(s.get_char(i + 1)) {
            Some(v) => v,
            None => {
                return Err(DBError::msg("not a hex digit"));
            },
        };
        let b: u8 = hi * 16 + lo;
        let ghost prev = out@;
        out.push(b);
        proof {
            if let Some(bs) = hex_bytes_at(s@, i + 2) {
                assert(out@ + bs =~= prev + (seq![b] + bs));
            }
        }
        i += 2;
    }
    Ok(out)
}

/// The empty snapshot image as raw bytes; the image text is fixed, so a
/// failed decode (which the text never triggers) gives no bytes.
pub fn empty_rdb_payload() -> (r: Vec<u8>)
    ensures
        match hex_bytes_at(
            "524544495330303131fa0972656469732d76657205372e322e30fa0a72656469732d62697473c040fa056374696d65c26d08bc65fa08757365642d6d656dc2b0c41000fa08616f662d62617365c000fff06e3bfec0ff5aa2"@,
            0,
        ) {
            Some(bs) => r@ == bs,
            None => r@.len() == 0,
        },
{
    match decode_hex(
        "524544495330303131fa0972656469732d76657205372e322e30fa0a72656469732d62697473c040fa056374696d65c26d08bc65fa08757365642d6d656dc2b0c41000fa08616f662d62617365c000fff06e3bfec0ff5aa2",
    ) {
        Ok(v) => v,
        Err(_) => Vec::new(),
    }
}

} // verus!
