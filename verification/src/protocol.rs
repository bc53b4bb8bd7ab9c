//! The wire codec: framed messages, their encoding and their decoding.
//!
//! A frame is one of a simple string (`+text`), a bulk string (`$len` then
//! the payload), the null marker (`$-1`), or an array of frames (`*count`
//! then the encoded elements), each header line terminated by CR-LF.
use vstd::prelude::*;
use vstd::string::StrSliceExecFns;
use vstd::string::StringExecFns;
use crate::error::DBError;

verus! {

/// The mathematical model of a wire frame.
pub enum FrameModel {
    SimpleString(Seq<char>),
    BulkString(Seq<char>),
    Null,
    Array(Seq<FrameModel>),
}

/// A wire frame as held in memory.
#[derive(Debug)]
pub enum Protocol {
    SimpleString(String),
    BulkString(String),
    Null,
    Array(Vec<Protocol>),
}

/// The model that a frame in memory stands for.
pub open spec fn frame_view(p: Protocol) -> FrameModel
    decreases p,
{
    match p {
        Protocol::SimpleString(s) => FrameModel::SimpleString(s@),
        Protocol::BulkString(s) => FrameModel::BulkString(s@),
        Protocol::Null => FrameModel::Null,
        Protocol::Array(ps) => FrameModel::Array(frame_views(ps@)),
    }
}

pub open spec fn frame_views(ps: Seq<Protocol>) -> Seq<FrameModel>
    decreases ps,
{
    if ps.len() == 0 {
        Seq::empty()
    } else {
        seq![frame_view(ps[0])] + frame_views(ps.drop_first())
    }
}

/// The views of a sequence of frames, one by one.
pub proof fn lemma_frame_views(ps: Seq<Protocol>)
    ensures
        frame_views(ps).len() == ps.len(),
        forall|i: int| 0 <= i < ps.len() ==> frame_views(ps)[i] == frame_view(#[trigger] ps[i]),
    decreases ps.len(),
{
    if ps.len() > 0 {
        lemma_frame_views(ps.drop_first());
        assert forall|i: int| 0 <= i < ps.len() implies frame_views(ps)[i] == frame_view(
            #[trigger] ps[i],
        ) by {
            if i > 0 {
                assert(frame_views(ps)[i] == frame_views(ps.drop_first())[i - 1]);
                assert(ps.drop_first()[i - 1] == ps[i]);
            }
        }
    }
}

/// The views of a sequence with one frame appended.
pub proof fn lemma_frame_views_push(v: Seq<Protocol>, p: Protocol)
    ensures
        frame_views(v.push(p)) == frame_views(v).push(frame_view(p)),
    decreases v.len(),
{
    lemma_frame_views(v.push(p));
    lemma_frame_views(v);
    assert forall|i: int| 0 <= i < frame_views(v.push(p)).len() implies frame_views(v.push(p))[i]
        == frame_views(v).push(frame_view(p))[i] by {
        if i < v.len() {
            assert(v.push(p)[i] == v[i]);
        } else {
            assert(v.push(p)[i] == p);
        }
    }
    assert(frame_views(v.push(p)) =~= frame_views(v).push(frame_view(p)));
}

impl View for Protocol {
    type V = FrameModel;

    open spec fn view(&self) -> FrameModel {
        frame_view(*self)
    }
}

impl Clone for Protocol {
    /// A clone stands for the same frame.
    #[verifier::loop_isolation(false)]
    fn clone(&self) -> (r: Self)
        ensures
            r@ == self@,
        decreases self,
    {
        match self {
            Protocol::SimpleString(s) => Protocol::SimpleString(s.clone()),
            Protocol::BulkString(s) => Protocol::BulkString(s.clone()),
            Protocol::Null => Protocol::Null,
            Protocol::Array(ps) => {
                let mut out: Vec<Protocol> = Vec::new();
                let n = ps.len();
                let mut i: usize = 0;
                while i < n
                    invariant
                        i <= n,
                        out@.len() == i,
                        frame_views(out@) == frame_views(ps@).take(i as int),
                    decreases n - i,
                {
                    proof {
                        broadcast use vstd::std_specs::vec::axiom_vec_decreases_to_view;
                        broadcast use vstd::seq::axiom_seq_index_decreases;

                        assert(decreases_to!(*self => *ps));
                        assert(decreases_to!(*ps => ps@));
                        assert(decreases_to!(ps@ => ps@[i as int]));
                        assert(decreases_to!(*self => ps@[i as int]));
                    }
                    let c = ps[i].clone();
                    let ghost prev = out@;
                    let ghost gc = c;
                    out.push(c);
                    proof {
                        lemma_frame_views(ps@);
                        lemma_frame_views_push(prev, gc);
                        assert(frame_views(out@) =~= frame_views(ps@).take(i + 1));
                    }
                    i += 1;
                }
                proof {
                    lemma_frame_views(ps@);
                    assert(frame_views(ps@).take(n as int) =~= frame_views(ps@));
                }
                Protocol::Array(out)
            },
        }
    }
}

/// The two-character line terminator.
pub open spec fn crlf() -> Seq<char> {
    seq!['\r', '\n']
}

/// Holds when no CR-LF pair occurs anywhere in `s`.
pub open spec fn no_crlf(s: Seq<char>) -> bool {
    forall|i: int| 0 <= i < s.len() - 1 ==> !(#[trigger] s[i] == '\r' && s[i + 1] == '\n')
}

/// The decimal digit characters.
pub open spec fn is_digit(c: char) -> bool {
    '0' <= c && c <= '9'
}

pub open spec fn digit_val(c: char) -> int {
    c as int - '0' as int
}

pub open spec fn digit_char(d: int) -> char {
    (('0' as u8) + d) as char
}

pub open spec fn all_digits(s: Seq<char>) -> bool {
    forall|i: int| 0 <= i < s.len() ==> is_digit(#[trigger] s[i])
}

/// The numeric value of a digit string, most significant digit first.
pub open spec fn dec_val(s: Seq<char>) -> int
    decreases s.len(),
{
    if s.len() == 0 {
        0
    } else {
        dec_val(s.drop_last()) * 10 + digit_val(s.last())
    }
}

/// The canonical decimal rendering of a non-negative number.
pub open spec fn dec_digits(n: int) -> Seq<char>
    decreases n,
{
    if n < 10 {
        seq![digit_char(if n < 0 { 0 } else { n })]
    } else {
        dec_digits(n / 10).push(digit_char(n % 10))
    }
}

/// A digit string parses when it is non-empty, all digits, and its value
/// is at most `max`.
pub open spec fn parse_dec(s: Seq<char>, max: int) -> Option<int> {
    if s.len() > 0 && all_digits(s) && dec_val(s) <= max {
        Some(dec_val(s))
    } else {
        None
    }
}

/// ASCII lowercasing of one character; other characters are unchanged.
pub open spec fn lower_char(c: char) -> char {
    if 'A' <= c && c <= 'Z' {
        ((c as u8) + 32) as char
    } else {
        c
    }
}

pub open spec fn lower_seq(s: Seq<char>) -> Seq<char> {
    Seq::new(s.len(), |i: int| lower_char(s[i]))
}

/// The encoding of a frame, per the wire rules.
pub open spec fn encode_spec(f: FrameModel) -> Seq<char>
    decreases f,
{
    match f {
        FrameModel::SimpleString(s) => seq!['+'] + s + crlf(),
        FrameModel::BulkString(s) => seq!['$'] + dec_digits(s.len() as int) + crlf() + s + crlf(),
        FrameModel::Null => seq!['$', '-', '1', '\r', '\n'],
        FrameModel::Array(v) => seq!['*'] + dec_digits(v.len() as int) + crlf() + encode_list(v),
    }
}

/// The concatenated encodings of a list of frames.
pub open spec fn encode_list(v: Seq<FrameModel>) -> Seq<char>
    decreases v,
{
    if v.len() == 0 {
        Seq::<char>::empty()
    } else {
        encode_spec(v[0]) + encode_list(v.drop_first())
    }
}

/// The flattening used when a frame's text is read back out: arrays are
/// joined with single spaces, null reads as the empty text.
pub open spec fn flat_of(f: FrameModel) -> Seq<char>
    decreases f,
{
    match f {
        FrameModel::SimpleString(s) => s,
        FrameModel::BulkString(s) => s,
        FrameModel::Null => Seq::<char>::empty(),
        FrameModel::Array(v) => flat_list(v),
    }
}

pub open spec fn flat_list(v: Seq<FrameModel>) -> Seq<char>
    decreases v,
{
    if v.len() == 0 {
        Seq::<char>::empty()
    } else if v.len() == 1 {
        flat_of(v[0])
    } else {
        flat_of(v[0]) + seq![' '] + flat_list(v.drop_first())
    }
}

/// The words of an array frame, each element read back as text.
pub open spec fn cmd_text(v: Seq<FrameModel>) -> Seq<Seq<char>> {
    Seq::new(v.len(), |i: int| flat_of(v[i]))
}

/// Taking one more element extends the flattened text by a space and that
/// element's text (no space before the first element).
pub proof fn lemma_flat_list_snoc(v: Seq<FrameModel>, i: int)
    requires
        0 <= i < v.len(),
    ensures
        flat_list(v.take(i + 1)) == if i == 0 {
            flat_of(v[0])
        } else {
            flat_list(v.take(i)) + seq![' '] + flat_of(v[i])
        },
    decreases i,
{
    if i == 0 {
        assert(v.take(1)[0] == v[0]);
        assert(flat_list(v.take(1)) == flat_of(v[0]));
    } else {
        let d = v.drop_first();
        lemma_flat_list_snoc(d, i - 1);
        assert(v.take(i + 1).drop_first() =~= d.take(i));
        assert(v.take(i).drop_first() =~= d.take(i - 1));
        assert(v.take(i + 1)[0] == v[0]);
        assert(v.take(i)[0] == v[0]);
        assert(d[i - 1] == v[i]);
        if i == 1 {
            assert(flat_list(v.take(2)) == flat_of(v[0]) + seq![' '] + flat_list(d.take(1)));
            assert(flat_list(d.take(1)) == flat_of(d.take(1)[0]));
            assert(d.take(1)[0] == d[0]);
            assert(flat_list(v.take(1)) == flat_of(v.take(1)[0]));
            assert(v.take(1)[0] == v[0]);
        } else {
            assert(flat_list(v.take(i + 1)) == flat_of(v[0]) + seq![' '] + flat_list(d.take(i)));
            assert(flat_list(d.take(i)) == flat_list(d.take(i - 1)) + seq![' '] + flat_of(d[i - 1]));
            assert(flat_list(v.take(i)) == flat_of(v[0]) + seq![' '] + flat_list(d.take(i - 1)));
            assert(flat_of(v[0]) + seq![' '] + (flat_list(d.take(i - 1)) + seq![' '] + flat_of(
                v[i],
            )) =~= (flat_of(v[0]) + seq![' '] + flat_list(d.take(i - 1))) + seq![' '] + flat_of(
                v[i],
            ));
        }
    }
}

/// Taking one more element extends the concatenated encoding by that
/// element's encoding.
pub proof fn lemma_encode_list_snoc(v: Seq<FrameModel>, i: int)
    requires
        0 <= i < v.len(),
    ensures
        encode_list(v.take(i + 1)) == encode_list(v.take(i)) + encode_spec(v[i]),
    decreases i,
{
    if i == 0 {
        assert(v.take(0) =~= Seq::<FrameModel>::empty());
        assert(v.take(1).drop_first() =~= v.take(0));
        assert(v.take(1)[0] == v[0]);
        assert(encode_list(v.take(0)) == Seq::<char>::empty());
        assert(encode_list(v.take(1)) == encode_spec(v[0]) + encode_list(v.take(0)));
        assert(encode_spec(v[0]) + Seq::<char>::empty() =~= encode_spec(v[0]));
        assert(Seq::<char>::empty() + encode_spec(v[0]) =~= encode_spec(v[0]));
    } else {
        lemma_encode_list_snoc(v.drop_first(), i - 1);
        assert(v.take(i + 1).drop_first() =~= v.drop_first().take(i));
        assert(v.take(i).drop_first() =~= v.drop_first().take(i - 1));
        assert(v.drop_first()[i - 1] == v[i]);
        assert(v.take(i + 1)[0] == v[0]);
        assert(v.take(i)[0] == v[0]);
        assert(encode_spec(v[0]) + (encode_list(v.drop_first().take(i - 1)) + encode_spec(v[i]))
            =~= (encode_spec(v[0]) + encode_list(v.drop_first().take(i - 1))) + encode_spec(v[i]));
    }
}

/// The position of the first CR-LF pair at or after `i`, if any.
pub open spec fn find_crlf(s: Seq<char>, i: int) -> Option<int>
    decreases s.len() - i,
{
    if i + 2 > s.len() {
        None
    } else if s[i] == '\r' && s[i + 1] == '\n' {
        Some(i)
    } else {
        find_crlf(s, i + 1)
    }
}

/// What a found CR-LF position means: in bounds, a match, and the first one.
pub proof fn lemma_find_crlf(s: Seq<char>, i: int)
    requires
        0 <= i,
    ensures
        match find_crlf(s, i) {
            Some(x) => i <= x && x + 2 <= s.len() && s[x] == '\r' && s[x + 1] == '\n' && (forall|
                j: int,
            |
                i <= j < x ==> !(#[trigger] s[j] == '\r' && s[j + 1] == '\n')),
            None => forall|j: int|
                i <= j < s.len() - 1 ==> !(#[trigger] s[j] == '\r' && s[j + 1] == '\n'),
        },
    decreases s.len() - i,
{
    if i + 2 > s.len() {
    } else if s[i] == '\r' && s[i + 1] == '\n' {
    } else {
        lemma_find_crlf(s, i + 1);
    }
}

/// The decoding of a simple string after its `+` prefix.
pub open spec fn decode_simple(t: Seq<char>) -> Option<(FrameModel, int)> {
    match find_crlf(t, 0) {
        Some(x) => Some((FrameModel::SimpleString(t.take(x)), x + 2)),
        None => None,
    }
}

/// The decoding of a bulk string after its `$` prefix.  The declared
/// length must match the payload found before the next CR-LF, and the
/// payload is lowercased.
pub open spec fn decode_bulk(t: Seq<char>) -> Option<(FrameModel, int)> {
    match find_crlf(t, 0) {
        Some(x) => match parse_dec(t.take(x), usize::MAX as int) {
            Some(size) => {
                let rest = t.skip(x + 2);
                match find_crlf(rest, 0) {
                    Some(dl) => {
                        let payload = rest.take(dl);
                        if size != payload.len() {
                            None
                        } else {
                            Some((FrameModel::BulkString(lower_seq(payload)), x + 2 + dl + 2))
                        }
                    },
                    None => None,
                }
            },
            None => None,
        },
        None => None,
    }
}

/// The decoding of an array after its `*` prefix: a count line, then that
/// many encoded elements.
pub open spec fn decode_array(t: Seq<char>) -> Option<(FrameModel, int)>
    decreases t.len(), 1int,
{
    match find_crlf(t, 0) {
        Some(x) => if x < 0 || x + 2 > t.len() {
            None
        } else {
            match parse_dec(t.take(x), usize::MAX as int) {
                Some(count) => match decode_elems(t.skip(x + 2), count) {
                    Some((fs, m)) => Some((FrameModel::Array(fs), x + 2 + m)),
                    None => None,
                },
                None => None,
            }
        },
        None => None,
    }
}

/// The decoding of `k` consecutive frames, with the total length consumed.
pub open spec fn decode_elems(s: Seq<char>, k: int) -> Option<(Seq<FrameModel>, int)>
    decreases s.len(), k,
{
    if k <= 0 {
        Some((Seq::empty(), 0))
    } else {
        match decode_frame(s) {
            Some((f, n)) => if n < 1 || n > s.len() {
                None
            } else {
                match decode_elems(s.skip(n), k - 1) {
                    Some((fs, m)) => Some((seq![f] + fs, n + m)),
                    None => None,
                }
            },
            None => None,
        }
    }
}

/// The decoding of one frame from the start of `s`: the frame and the
/// number of characters it occupied.  `None` is a malformed frame.
pub open spec fn decode_frame(s: Seq<char>) -> Option<(FrameModel, int)>
    decreases s.len(), 0int,
{
    if s.len() == 0 {
        None
    } else if s[0] == '+' {
        match decode_simple(s.skip(1)) {
            Some((f, n)) => Some((f, n + 1)),
            None => None,
        }
    } else if s[0] == '$' {
        match decode_bulk(s.skip(1)) {
            Some((f, n)) => Some((f, n + 1)),
            None => None,
        }
    } else if s[0] == '*' {
        match decode_array(s.skip(1)) {
            Some((f, n)) => Some((f, n + 1)),
            None => None,
        }
    } else {
        None
    }
}

/// A decoded frame occupies at least one and at most all of the input's
/// characters.
pub proof fn lemma_decode_frame_bounds(s: Seq<char>)
    ensures
        decode_frame(s) matches Some((f, n)) ==> 1 <= n <= s.len(),
    decreases s.len(), 0int,
{
    if s.len() == 0 {
    } else if s[0] == '+' {
        if let Some(x) = find_crlf(s.skip(1), 0) {
            lemma_find_crlf(s.skip(1), 0);
        }
    } else if s[0] == '$' {
        let t = s.skip(1);
        if let Some(x) = find_crlf(t, 0) {
            lemma_find_crlf(t, 0);
            if let Some(dl) = find_crlf(t.skip(x + 2), 0) {
                lemma_find_crlf(t.skip(x + 2), 0);
            }
        }
    } else if s[0] == '*' {
        lemma_decode_array_bounds(s.skip(1));
    }
}

pub proof fn lemma_decode_array_bounds(t: Seq<char>)
    ensures
        decode_array(t) matches Some((f, n)) ==> 1 <= n <= t.len(),
    decreases t.len(), 1int,
{
    if let Some(x) = find_crlf(t, 0) {
        lemma_find_crlf(t, 0);
        if 0 <= x && x + 2 <= t.len() {
            lemma_decode_elems_bounds(t.skip(x + 2), dec_val(t.take(x)));
        }
    }
}

pub proof fn lemma_decode_elems_bounds(s: Seq<char>, k: int)
    ensures
        decode_elems(s, k) matches Some((fs, m)) ==> 0 <= m <= s.len() && fs.len() == (if k <= 0 {
            0int
        } else {
            k
        }),
    decreases s.len(), k,
{
    if k <= 0 {
    } else {
        lemma_decode_frame_bounds(s);
        if let Some((f, n)) = decode_frame(s) {
            if 1 <= n <= s.len() {
                lemma_decode_elems_bounds(s.skip(n), k - 1);
            }
        }
    }
}

/// Renders one decimal digit.
fn digit_str(d: usize) -> (r: &'static str)
    requires
        d < 10,
    ensures
        r@ == seq![digit_char(d as int)],
{
    let r = match d {
        0 => "0",
        1 => "1",
        2 => "2",
        3 => "3",
        4 => "4",
        5 => "5",
        6 => "6",
        7 => "7",
        8 => "8",
        _ => "9",
    };
    proof {
        reveal_strlit("0");
        reveal_strlit("1");
        reveal_strlit("2");
        reveal_strlit("3");
        reveal_strlit("4");
        reveal_strlit("5");
        reveal_strlit("6");
        reveal_strlit("7");
        reveal_strlit("8");
        reveal_strlit("9");
        assert(r@ =~= seq![digit_char(d as int)]);
    }
    r
}

/// Renders a number in decimal.
pub fn usize_to_string(n: usize) -> (r: String)
    ensures
        r@ == dec_digits(n as int),
    decreases n,
{
    if n < 10 {
        let mut s = String::new();
        s.append(digit_str(n));
        proof {
            assert(s@ =~= dec_digits(n as int));
        }
        s
    } else {
        let mut s = usize_to_string(n / 10);
        s.append(digit_str(n % 10));
        proof {
            assert(s@ =~= dec_digits(n as int));
        }
        s
    }
}

/// The frames whose encoding decodes back to themselves: payloads free of
/// CR-LF pairs, bulk payloads already lowercase (the decoder lowercases
/// them), no null marker (its encoding `$-1` does not parse as a length),
/// and machine-size lengths.
pub open spec fn wf_frame(f: FrameModel) -> bool
    decreases f,
{
    match f {
        FrameModel::SimpleString(s) => no_crlf(s),
        FrameModel::BulkString(s) => s.len() <= usize::MAX && no_crlf(s) && lower_seq(s) == s,
        FrameModel::Null => false,
        FrameModel::Array(v) => v.len() <= usize::MAX && wf_list(v),
    }
}

pub open spec fn wf_list(v: Seq<FrameModel>) -> bool
    decreases v,
{
    if v.len() == 0 {
        true
    } else {
        wf_frame(v[0]) && wf_list(v.drop_first())
    }
}

/// The canonical decimal rendering is made of digits.
proof fn lemma_dec_digits_digits(n: int)
    requires
        n >= 0,
    ensures
        all_digits(dec_digits(n)),
        dec_digits(n).len() >= 1,
    decreases n,
{
    if n < 10 {
    } else {
        lemma_dec_digits_digits(n / 10);
        assert forall|i: int| 0 <= i < dec_digits(n).len() implies is_digit(
            #[trigger] dec_digits(n)[i],
        ) by {
            if i < dec_digits(n / 10).len() {
                assert(dec_digits(n)[i] == dec_digits(n / 10)[i]);
            } else {
                assert(dec_digits(n)[i] == digit_char(n % 10));
            }
        }
    }
}

/// One digit renders and reads back as itself.
proof fn lemma_digit_char_val(d: int)
    requires
        0 <= d <= 9,
    ensures
        digit_val(digit_char(d)) == d,
        is_digit(digit_char(d)),
{
    assert((((('0' as u8) + d) as u8) as char) as int == ('0' as u8) + d);
}

/// Parsing the canonical rendering gives the number back.
proof fn lemma_dec_digits_val(n: int)
    requires
        n >= 0,
    ensures
        dec_val(dec_digits(n)) == n,
    decreases n,
{
    if n < 10 {
        lemma_digit_char_val(n);
        assert(dec_digits(n) == seq![digit_char(n)]);
        assert(dec_digits(n).drop_last() =~= Seq::<char>::empty());
        assert(dec_val(Seq::<char>::empty()) == 0);
        assert(dec_digits(n).last() == digit_char(n));
        assert(dec_val(dec_digits(n)) == dec_val(dec_digits(n).drop_last()) * 10 + digit_val(
            dec_digits(n).last(),
        ));
    } else {
        lemma_digit_char_val(n % 10);
        lemma_dec_digits_val(n / 10);
        assert(dec_digits(n).drop_last() =~= dec_digits(n / 10));
        assert(dec_digits(n).last() == digit_char(n % 10));
        assert(dec_val(dec_digits(n)) == (n / 10) * 10 + (n % 10));
        assert((n / 10) * 10 + (n % 10) == n) by (nonlinear_arith)
            requires
                n >= 10,
        ;
    }
}

/// Digits contain no CR-LF pair.
proof fn lemma_digits_no_crlf(s: Seq<char>)
    requires
        all_digits(s),
    ensures
        no_crlf(s),
{
    assert forall|i: int| 0 <= i < s.len() - 1 implies !(#[trigger] s[i] == '\r' && s[i + 1]
        == '\n') by {
        assert(is_digit(s[i]));
    }
}

/// A CR-LF found right where one stands, with none earlier.
proof fn lemma_find_crlf_at(s: Seq<char>, i: int, p: int)
    requires
        0 <= i <= p,
        p + 2 <= s.len(),
        s[p] == '\r',
        s[p + 1] == '\n',
        forall|j: int| i <= j < p ==> !(#[trigger] s[j] == '\r' && s[j + 1] == '\n'),
    ensures
        find_crlf(s, i) == Some(p),
    decreases p - i,
{
    if i == p {
    } else {
        lemma_find_crlf_at(s, i + 1, p);
    }
}

/// In `a` then CR-LF then `b`, with `a` free of CR-LF pairs, the first
/// CR-LF stands exactly after `a`.
proof fn lemma_find_crlf_concat(a: Seq<char>, b: Seq<char>)
    requires
        no_crlf(a),
    ensures
        find_crlf(a + crlf() + b, 0) == Some(a.len() as int),
{
    let s = a + crlf() + b;
    let p = a.len() as int;
    assert(s[p] == '\r');
    assert(s[p + 1] == '\n');
    assert forall|j: int| 0 <= j < p implies !(#[trigger] s[j] == '\r' && s[j + 1] == '\n') by {
        if j < p - 1 {
            assert(s[j] == a[j]);
            assert(s[j + 1] == a[j + 1]);
        } else {
            assert(s[j + 1] == '\r');
        }
    }
    lemma_find_crlf_at(s, 0, p);
}

/// The codec round trip: decoding the encoding of any well-formed frame,
/// with anything pipelined after it, gives the frame back and consumes
/// exactly the encoding.
#[verifier::rlimit(60)]
pub proof fn lemma_codec_round_trip(f: FrameModel, rest: Seq<char>)
    requires
        wf_frame(f),
    ensures
        decode_frame(encode_spec(f) + rest) == Some((f, encode_spec(f).len() as int)),
    decreases f,
{
    let e = encode_spec(f);
    let s = e + rest;
    match f {
        FrameModel::SimpleString(str0) => {
            assert(s[0] == '+');
            let t = s.skip(1);
            assert(t =~= str0 + crlf() + rest);
            lemma_find_crlf_concat(str0, rest);
            let x = str0.len() as int;
            assert(t.take(x) =~= str0);
            assert(decode_simple(t) == Some((FrameModel::SimpleString(str0), x + 2)));
            assert(e.len() == x + 3);
        },
        FrameModel::BulkString(str0) => {
            let dd = dec_digits(str0.len() as int);
            lemma_dec_digits_digits(str0.len() as int);
            lemma_dec_digits_val(str0.len() as int);
            lemma_digits_no_crlf(dd);
            assert(s[0] == '$');
            let t = s.skip(1);
            let tail = str0 + crlf() + rest;
            assert(t =~= dd + crlf() + tail);
            lemma_find_crlf_concat(dd, tail);
            let x = dd.len() as int;
            assert(t.take(x) =~= dd);
            assert(parse_dec(t.take(x), usize::MAX as int) == Some(str0.len() as int));
            let rest2 = t.skip(x + 2);
            assert(rest2 =~= tail);
            lemma_find_crlf_concat(str0, rest);
            assert(find_crlf(rest2, 0) == Some(str0.len() as int));
            let dl = str0.len() as int;
            assert(rest2.take(dl) =~= str0);
            assert(decode_bulk(t) == Some(
                (FrameModel::BulkString(lower_seq(str0)), x + 2 + dl + 2),
            ));
            assert(e.len() == 1 + x + 2 + dl + 2);
        },
        FrameModel::Null => {
        },
        FrameModel::Array(v) => {
            let dd = dec_digits(v.len() as int);
            lemma_dec_digits_digits(v.len() as int);
            lemma_dec_digits_val(v.len() as int);
            lemma_digits_no_crlf(dd);
            assert(s[0] == '*');
            let t = s.skip(1);
            let tail = encode_list(v) + rest;
            assert(t =~= dd + crlf() + tail);
            lemma_find_crlf_concat(dd, tail);
            let x = dd.len() as int;
            assert(t.take(x) =~= dd);
            assert(parse_dec(t.take(x), usize::MAX as int) == Some(v.len() as int));
            assert(t.skip(x + 2) =~= tail);
            lemma_codec_round_trip_list(v, rest);
            assert(decode_array(t) == Some(
                (FrameModel::Array(v), x + 2 + encode_list(v).len()),
            ));
            assert(e.len() == 1 + x + 2 + encode_list(v).len());
        },
    }
}

/// The round trip for a list of frames read back one after the other.
pub proof fn lemma_codec_round_trip_list(fs: Seq<FrameModel>, rest: Seq<char>)
    requires
        wf_list(fs),
    ensures
        decode_elems(encode_list(fs) + rest, fs.len() as int) == Some(
            (fs, encode_list(fs).len() as int),
        ),
    decreases fs,
{
    if fs.len() == 0 {
        assert(encode_list(fs) =~= Seq::<char>::empty());
        assert(encode_list(fs) + rest =~= rest);
        assert(fs =~= Seq::<FrameModel>::empty());
    } else {
        let f0 = fs[0];
        let d = fs.drop_first();
        let e0 = encode_spec(f0);
        let s = encode_list(fs) + rest;
        assert(s =~= e0 + (encode_list(d) + rest));
        lemma_codec_round_trip(f0, encode_list(d) + rest);
        lemma_decode_frame_bounds(s);
        assert(decode_frame(s) == Some((f0, e0.len() as int)));
        assert(s.skip(e0.len() as int) =~= encode_list(d) + rest);
        lemma_codec_round_trip_list(d, rest);
        assert(seq![f0] + d =~= fs);
        assert(encode_list(fs).len() == e0.len() + encode_list(d).len());
    }
}

/// A found CR-LF survives truncating the input anywhere past it.
proof fn lemma_find_crlf_truncate(s: Seq<char>, i: int, m: int)
    requires
        0 <= i,
        find_crlf(s, i) is Some,
        find_crlf(s, i)->Some_0 + 2 <= m <= s.len(),
    ensures
        find_crlf(s.take(m), i) == find_crlf(s, i),
{
    let x = find_crlf(s, i)->Some_0;
    lemma_find_crlf(s, i);
    let t = s.take(m);
    assert(t[x] == '\r');
    assert(t[x + 1] == '\n');
    assert forall|j: int| i <= j < x implies !(#[trigger] t[j] == '\r' && t[j + 1] == '\n') by {
        assert(t[j] == s[j]);
        assert(t[j + 1] == s[j + 1]);
    }
    lemma_find_crlf_at(t, i, x);
}

/// A decoded simple string survives truncating the input anywhere past
/// the characters it consumed.
proof fn lemma_decode_simple_truncate(t: Seq<char>, m: int)
    requires
        decode_simple(t) is Some,
        (decode_simple(t)->Some_0).1 <= m <= t.len(),
    ensures
        decode_simple(t.take(m)) == decode_simple(t),
{
    let x = find_crlf(t, 0)->Some_0;
    lemma_find_crlf(t, 0);
    assert((decode_simple(t)->Some_0).1 == x + 2);
    lemma_find_crlf_truncate(t, 0, m);
    assert(t.take(m).take(x) =~= t.take(x));
}

/// A decoded bulk string survives truncating the input anywhere past the
/// characters it consumed.
proof fn lemma_decode_bulk_truncate(t: Seq<char>, m: int)
    requires
        decode_bulk(t) is Some,
        (decode_bulk(t)->Some_0).1 <= m <= t.len(),
    ensures
        decode_bulk(t.take(m)) == decode_bulk(t),
{
    let x = find_crlf(t, 0)->Some_0;
    lemma_find_crlf(t, 0);
    let rest = t.skip(x + 2);
    let dl = find_crlf(rest, 0)->Some_0;
    lemma_find_crlf(rest, 0);
    assert((decode_bulk(t)->Some_0).1 == x + 2 + dl + 2);
    lemma_find_crlf_truncate(t, 0, m);
    assert(t.take(m).take(x) =~= t.take(x));
    assert(t.take(m).skip(x + 2) =~= rest.take(m - x - 2));
    lemma_find_crlf_truncate(rest, 0, m - x - 2);
    assert(rest.take(m - x - 2).take(dl) =~= rest.take(dl));
}

/// A decoded frame survives truncating the input anywhere past the
/// characters it consumed: the decoder reads nothing beyond them.
pub proof fn lemma_decode_frame_truncate(s: Seq<char>, m: int)
    requires
        decode_frame(s) is Some,
        (decode_frame(s)->Some_0).1 <= m <= s.len(),
    ensures
        decode_frame(s.take(m)) == decode_frame(s),
    decreases s.len(), 0int,
{
    lemma_decode_frame_bounds(s);
    let t = s.skip(1);
    assert(s.take(m)[0] == s[0]);
    assert(s.take(m).skip(1) =~= t.take(m - 1));
    if s[0] == '+' {
        lemma_decode_simple_truncate(t, m - 1);
    } else if s[0] == '$' {
        lemma_decode_bulk_truncate(t, m - 1);
    } else if s[0] == '*' {
        lemma_decode_array_truncate(t, m - 1);
    }
}

proof fn lemma_decode_array_truncate(t: Seq<char>, m: int)
    requires
        decode_array(t) is Some,
        (decode_array(t)->Some_0).1 <= m <= t.len(),
    ensures
        decode_array(t.take(m)) == decode_array(t),
    decreases t.len(), 1int,
{
    let x = find_crlf(t, 0)->Some_0;
    lemma_find_crlf(t, 0);
    let count = parse_dec(t.take(x), usize::MAX as int)->Some_0;
    let body = t.skip(x + 2);
    lemma_decode_elems_bounds(body, count);
    assert((decode_array(t)->Some_0).1 == x + 2 + (decode_elems(body, count)->Some_0).1);
    lemma_find_crlf_truncate(t, 0, m);
    assert(t.take(m).take(x) =~= t.take(x));
    assert(t.take(m).skip(x + 2) =~= body.take(m - x - 2));
    lemma_decode_elems_truncate(body, count, m - x - 2);
}

proof fn lemma_decode_elems_truncate(s: Seq<char>, k: int, m: int)
    requires
        decode_elems(s, k) is Some,
        (decode_elems(s, k)->Some_0).1 <= m <= s.len(),
    ensures
        decode_elems(s.take(m), k) == decode_elems(s, k),
    decreases s.len(), k,
{
    if k <= 0 {
    } else {
        let (f, n) = decode_frame(s)->Some_0;
        lemma_decode_frame_bounds(s);
        lemma_decode_elems_bounds(s.skip(n), k - 1);
        lemma_decode_frame_truncate(s, m);
        assert(s.take(m).skip(n) =~= s.skip(n).take(m - n));
        lemma_decode_elems_truncate(s.skip(n), k - 1, m - n);
    }
}

/// Re-parsing exactly the characters a decoded frame consumed gives the
/// same frame and the same count, so a pipelined caller may split its
/// buffer at the consumed count and treat the prefix as one request.
pub proof fn lemma_decode_prefix(s: Seq<char>)
    ensures
        decode_frame(s) matches Some((f, n)) ==> decode_frame(s.take(n)) == decode_frame(s),
{
    if let Some((f, n)) = decode_frame(s) {
        lemma_decode_frame_bounds(s);
        lemma_decode_frame_truncate(s, n);
    }
}

/// Relies on String::push: it appends the one given character.
#[verifier::external_body]
fn push_char(s: &mut String, c: char)
    ensures
        final(s)@ == old(s)@.push(c),
{
    s.push(c);
}

/// The first CR-LF pair at or after `from`, scanning left to right.
pub fn find_crlf_from(s: &str, from: usize) -> (r: Option<usize>)
    ensures
        match r {
            Some(x) => Some(x as int) == find_crlf(s@, from as int) && from <= x && x + 2
                <= s@.len(),
            None => find_crlf(s@, from as int) is None,
        },
{
    let n = s.unicode_len();
    let mut i: usize = from;
    loop
        invariant
            from <= i,
            n == s@.len(),
            find_crlf(s@, from as int) == find_crlf(s@, i as int),
        decreases n - i,
    {
        if n < 2 || i > n - 2 {
            return None;
        }
        let c0 = s.get_char(i);
        let c1 = s.get_char(i + 1);
        if c0 == '\r' && c1 == '\n' {
            return Some(i);
        }
        i = i + 1;
    }
}

/// ASCII lowercasing of a text, other characters unchanged.
pub fn lowercase_ascii(s: &str) -> (r: String)
    ensures
        r@ == lower_seq(s@),
{
    let n = s.unicode_len();
    let mut out = String::new();
    let mut i: usize = 0;
    while i < n
        invariant
            i <= n,
            n == s@.len(),
            out@ == lower_seq(s@).take(i as int),
        decreases n - i,
    {
        let c = s.get_char(i);
        let lc = if 'A' <= c && c <= 'Z' {
            ((c as u8) + 32) as char
        } else {
            c
        };
        push_char(&mut out, lc);
        proof {
            assert(out@ =~= lower_seq(s@).take(i + 1));
        }
        i += 1;
    }
    proof {
        assert(lower_seq(s@).take(n as int) =~= lower_seq(s@));
    }
    out
}

/// The value of a digit string never shrinks as more digits follow.
proof fn lemma_dec_val_nonneg(s: Seq<char>)
    requires
        all_digits(s),
    ensures
        dec_val(s) >= 0,
    decreases s.len(),
{
    if s.len() > 0 {
        assert(all_digits(s.drop_last())) by {
            assert(forall|i: int|
                0 <= i < s.len() - 1 ==> s.drop_last()[i] == #[trigger] s[i]);
        }
        lemma_dec_val_nonneg(s.drop_last());
    }
}

proof fn lemma_dec_val_prefix(s: Seq<char>, i: int)
    requires
        all_digits(s),
        0 <= i <= s.len(),
    ensures
        dec_val(s.take(i)) <= dec_val(s),
    decreases s.len() - i,
{
    if i < s.len() {
        lemma_dec_val_prefix(s, i + 1);
        assert(s.take(i + 1).drop_last() =~= s.take(i));
        assert(s.take(i + 1).last() == s[i]);
        assert(all_digits(s.take(i))) by {
            assert(forall|j: int| 0 <= j < i ==> s.take(i)[j] == #[trigger] s[j]);
        }
        lemma_dec_val_nonneg(s.take(i));
        assert(dec_val(s.take(i + 1)) == dec_val(s.take(i)) * 10 + digit_val(s[i]));
        assert(dec_val(s.take(i)) * 10 >= dec_val(s.take(i)));
    } else {
        assert(s.take(i) =~= s);
    }
}

impl Protocol {
    /// Parses a decimal number, rejecting the empty text, any non-digit, and
    /// any value that does not fit.
    pub fn parse_usize(protocol: &str) -> (r: Result<usize, DBError>)
        ensures
            match parse_dec(protocol@, usize::MAX as int) {
                Some(v) => r matches Ok(u) && u == v,
                None => r is Err,
            },
    {
        let n = protocol.unicode_len();
        if n == 0 {
            return Err(DBError::msg("parse usize error: empty"));
        }
        let mut acc: usize = 0;
        let mut i: usize = 0;
        while i < n
            invariant
                i <= n,
                n == protocol@.len(),
                n > 0,
                all_digits(protocol@.take(i as int)),
                acc == dec_val(protocol@.take(i as int)),
            decreases n - i,
        {
            let c = protocol.get_char(i);
            if !('0' <= c && c <= '9') {
                return Err(DBError::msg("parse usize error: not a digit"));
            }
            let d: usize = ((c as u8) - ('0' as u8)) as usize;
            proof {
                assert(protocol@.take(i + 1).drop_last() =~= protocol@.take(i as int));
                assert(protocol@.take(i + 1).last() == protocol@[i as int]);
                assert(all_digits(protocol@.take(i + 1))) by {
                    assert(forall|j: int|
                        0 <= j < i + 1 ==> protocol@.take(i + 1)[j] == #[trigger] protocol@[j]);
                }
            }
            let shifted = match acc.checked_mul(10) {
                Some(x) => x,
                None => {
                    proof {
                        if all_digits(protocol@) {
                            lemma_dec_val_prefix(protocol@, i + 1);
                        }
                    }
                    return Err(DBError::msg("parse usize error: out of range"));
                },
            };
            let next = match shifted.checked_add(d) {
                Some(x) => x,
                None => {
                    proof {
                        if all_digits(protocol@) {
                            lemma_dec_val_prefix(protocol@, i + 1);
                        }
                    }
                    return Err(DBError::msg("parse usize error: out of range"));
                },
            };
            acc = next;
            i += 1;
        }
        proof {
            assert(protocol@.take(n as int) =~= protocol@);
        }
        Ok(acc)
    }

    /// Accepts any non-empty text, as the payload of a bulk string.
    pub fn parse_string(protocol: &str) -> (r: Result<String, DBError>)
        ensures
            protocol@.len() == 0 <==> r is Err,
            r matches Ok(s) ==> s@ == protocol@,
    {
        if protocol.unicode_len() == 0 {
            Err(DBError::msg("parse string error: empty"))
        } else {
            Ok(protocol.to_owned())
        }
    }


    /// Parses one frame from the start of the text, returning it with the
    /// number of characters consumed, so a caller can locate the next
    /// frame of a pipelined buffer.
    pub fn from(protocol: &str) -> (r: Result<(Protocol, usize), DBError>)
        ensures
            match decode_frame(protocol@) {
                Some((f, n)) => r matches Ok(p) && p.0@ == f && p.1 == n && 1 <= n
                    <= protocol@.len(),
                None => r is Err,
            },
        decreases protocol@.len(),
    {
        let n = protocol.unicode_len();
        if n == 0 {
            return Err(DBError::msg("unsupported protocol: empty input"));
        }
        let c = protocol.get_char(0);
        let rest = protocol.substring_char(1, n);
        proof {
            assert(rest@ =~= protocol@.skip(1));
        }
        if c == '+' {
            match Self::parse_simple_string_sfx(rest) {
                Ok((p, sz)) => Ok((p, sz + 1)),
                Err(e) => Err(e),
            }
        } else if c == '$' {
            match Self::parse_bulk_string_sfx(rest) {
                Ok((p, sz)) => Ok((p, sz + 1)),
                Err(e) => Err(e),
            }
        } else if c == '*' {
            match Self::parse_array_sfx(rest) {
                Ok((p, sz)) => Ok((p, sz + 1)),
                Err(e) => Err(e),
            }
        } else {
            Err(DBError::msg("unsupported protocol: unknown prefix"))
        }
    }

    /// Parses a simple string after its `+` prefix.
    pub fn parse_simple_string_sfx(protocol: &str) -> (r: Result<(Protocol, usize), DBError>)
        ensures
            match decode_simple(protocol@) {
                Some((f, n)) => r matches Ok(p) && p.0@ == f && p.1 == n && 1 <= n
                    <= protocol@.len(),
                None => r is Err,
            },
    {
        let n = protocol.unicode_len();
        match find_crlf_from(protocol, 0) {
            Some(x) => {
                let body = protocol.substring_char(0, x);
                proof {
                    assert(body@ =~= protocol@.take(x as int));
                }
                Ok((Protocol::SimpleString(body.to_owned()), x + 2))
            },
            None => Err(DBError::msg("unsupported protocol: unterminated simple string")),
        }
    }

    /// Parses a bulk string after its `$` prefix.  The payload is
    /// lowercased, so dispatch on it is case-insensitive.
    pub fn parse_bulk_string_sfx(protocol: &str) -> (r: Result<(Protocol, usize), DBError>)
        ensures
            match decode_bulk(protocol@) {
                Some((f, n)) => r matches Ok(p) && p.0@ == f && p.1 == n && 1 <= n
                    <= protocol@.len(),
                None => r is Err,
            },
    {
        let n = protocol.unicode_len();
        let x = match find_crlf_from(protocol, 0) {
            Some(x) => x,
            None => {
                return Err(DBError::msg("unsupported protocol: unterminated bulk length"));
            },
        };
        let head = protocol.substring_char(0, x);
        proof {
            assert(head@ =~= protocol@.take(x as int));
        }
        let size = match Self::parse_usize(head) {
            Ok(sz) => sz,
            Err(e) => {
                return Err(e);
            },
        };
        let rest = protocol.substring_char(x + 2, n);
        proof {
            assert(rest@ =~= protocol@.skip(x + 2));
        }
        let dl = match find_crlf_from(rest, 0) {
            Some(dl) => dl,
            None => {
                return Err(DBError::msg("unsupported protocol: unterminated bulk payload"));
            },
        };
        let payload = rest.substring_char(0, dl);
        proof {
            assert(payload@ =~= rest@.take(dl as int));
        }
        if size != dl {
            return Err(DBError::msg("unmatched string length in protocol"));
        }
        let lowered = lowercase_ascii(payload);
        Ok((Protocol::BulkString(lowered), x + 2 + dl + 2))
    }

    /// Parses an array after its `*` prefix: a count line, then that many
    /// encoded elements.
    #[verifier::loop_isolation(false)]
    pub fn parse_array_sfx(s: &str) -> (r: Result<(Protocol, usize), DBError>)
        ensures
            match decode_array(s@) {
                Some((f, n)) => r matches Ok(p) && p.0@ == f && p.1 == n && 1 <= n <= s@.len(),
                None => r is Err,
            },
        decreases s@.len(),
    {
        let n = s.unicode_len();
        let x = match find_crlf_from(s, 0) {
            Some(x) => x,
            None => {
                return Err(DBError::msg("unsupported protocol: unterminated array count"));
            },
        };
        let head = s.substring_char(0, x);
        proof {
            assert(head@ =~= s@.take(x as int));
        }
        let count = match Self::parse_usize(head) {
            Ok(c) => c,
            Err(e) => {
                return Err(e);
            },
        };
        let off0 = x + 2;
        let ghost k0 = count as int;
        let mut off = off0;
        let mut vec: Vec<Protocol> = Vec::new();
        let mut i: usize = 0;
        proof {
            if let Some((fs, m)) = decode_elems(s@.skip(off0 as int), k0) {
                assert(frame_views(vec@) =~= Seq::<FrameModel>::empty());
                assert(Seq::<FrameModel>::empty() + fs =~= fs);
            }
        }
        while i < count
            invariant
                n == s@.len(),
                off0 == x + 2,
                off0 <= off <= n,
                i <= count,
                vec@.len() == i,
                decode_elems(s@.skip(off0 as int), k0) == (match decode_elems(
                    s@.skip(off as int),
                    k0 - i,
                ) {
                    Some((fs, m)) => Some::<(Seq<FrameModel>, int)>(
                        (frame_views(vec@) + fs, (off - off0) + m),
                    ),
                    None => None::<(Seq<FrameModel>, int)>,
                }),
            decreases count - i,
        {
            let sub = s.substring_char(off, n);
            proof {
                assert(sub@ =~= s@.skip(off as int));
            }
            match Self::from(sub) {
                Err(e) => {
                    return Err(e);
                },
                Ok((p, len)) => {
                    proof {
                        let tail = s@.skip(off as int);
                        assert(tail.skip(len as int) =~= s@.skip(off + len));
                        lemma_frame_views_push(vec@, p);
                        if let Some((fs2, m2)) = decode_elems(s@.skip(off + len), k0 - i - 1) {
                            assert((frame_views(vec@) + (seq![frame_view(p)] + fs2)) =~= (
                            frame_views(vec@).push(frame_view(p)) + fs2));
                        }
                    }
                    vec.push(p);
                    off = off + len;
                    i = i + 1;
                },
            }
        }
        proof {
            assert(decode_elems(s@.skip(off as int), 0) == Some::<(Seq<FrameModel>, int)>(
                (Seq::empty(), 0),
            ));
            if let Some((fs, m)) = decode_elems(s@.skip(off0 as int), k0) {
                assert(frame_views(vec@) + Seq::<FrameModel>::empty() =~= frame_views(vec@));
            }
        }
        Ok((Protocol::Array(vec), off))
    }

    /// Builds an array of bulk strings, the shape of every client command.
    pub fn form_vec(array: Vec<&str>) -> (r: Self)
        ensures
            r@ matches FrameModel::Array(v) && v.len() == array@.len() && forall|i: int|
                0 <= i < array@.len() ==> v[i] == FrameModel::BulkString(#[trigger] array@[i]@),
    {
        let mut out: Vec<Protocol> = Vec::new();
        let n = array.len();
        let mut i: usize = 0;
        while i < n
            invariant
                i <= n,
                n == array@.len(),
                out@.len() == i,
                forall|j: int|
                    0 <= j < i ==> frame_views(out@)[j] == FrameModel::BulkString(
                        #[trigger] array@[j]@,
                    ),
                frame_views(out@).len() == i,
            decreases n - i,
        {
            let s: &str = array[i];
            let b = Protocol::BulkString(s.to_owned());
            let ghost prev = out@;
            let ghost gb = b;
            out.push(b);
            proof {
                lemma_frame_views_push(prev, gb);
                assert(forall|j: int|
                    0 <= j < prev.len() ==> frame_views(out@)[j] == frame_views(prev)[j]);
                assert(frame_views(out@)[i as int] == frame_view(gb));
            }
            i += 1;
        }
        Protocol::Array(out)
    }

    /// The fixed `ok` reply.
    pub fn ok() -> (r: Self)
        ensures
            r@ == FrameModel::SimpleString("ok"@),
    {
        Protocol::SimpleString("ok".to_owned())
    }

    /// An inline error reply carrying the given message.
    pub fn err(msg: &str) -> (r: Self)
        ensures
            r@ == FrameModel::SimpleString(msg@),
    {
        Protocol::SimpleString(msg.to_owned())
    }

    /// The reply to a client write reaching a follower.
    pub fn write_on_slave_err() -> (r: Self)
        ensures
            r@ == FrameModel::SimpleString("DISALLOW WRITE ON SLAVE"@),
    {
        Self::err("DISALLOW WRITE ON SLAVE")
    }

    /// The reply to a sync request reaching a follower.
    pub fn psync_on_slave_err() -> (r: Self)
        ensures
            r@ == FrameModel::SimpleString("PSYNC ON SLAVE IS NOT ALLOWED"@),
    {
        Self::err("PSYNC ON SLAVE IS NOT ALLOWED")
    }

    /// The reply naming the absent key kind.
    pub fn none() -> (r: Self)
        ensures
            r@ == FrameModel::SimpleString("none"@),
    {
        Self::SimpleString("none".to_owned())
    }

    /// Reads the frame's text back out: arrays are joined with single
    /// spaces, null reads as the empty text.
    #[verifier::loop_isolation(false)]
    pub fn decode(self: &Self) -> (r: String)
        ensures
            r@ == flat_of(self@),
        decreases self,
    {
        match self {
            Protocol::SimpleString(s) => s.clone(),
            Protocol::BulkString(s) => s.clone(),
            Protocol::Null => String::new(),
            Protocol::Array(ps) => {
                let mut out = String::new();
                proof {
                    lemma_frame_views(ps@);
                    assert(frame_views(ps@).take(0) =~= Seq::<FrameModel>::empty());
                }
                let n = ps.len();
                let mut i: usize = 0;
                while i < n
                    invariant
                        i <= n,
                        out@ == flat_list(frame_views(ps@).take(i as int)),
                    decreases n - i,
                {
                    if i > 0 {
                        out.append(" ");
                    }
                    proof {
                        broadcast use vstd::std_specs::vec::axiom_vec_decreases_to_view;
                        broadcast use vstd::seq::axiom_seq_index_decreases;

                        assert(decreases_to!(*self => *ps));
                        assert(decreases_to!(*ps => ps@));
                        assert(decreases_to!(ps@ => ps@[i as int]));
                        assert(decreases_to!(*self => ps@[i as int]));
                    }
                    let e = ps[i].decode();
                    out.append(e.as_str());
                    proof {
                        reveal_strlit(" ");
                        lemma_flat_list_snoc(frame_views(ps@), i as int);
                        assert(out@ =~= flat_list(frame_views(ps@).take(i + 1)));
                    }
                    i += 1;
                }
                proof {
                    assert(frame_views(ps@).take(n as int) =~= frame_views(ps@));
                }
                out
            },
        }
    }

    /// The frame's text, as `decode` reads it.
    pub fn to_string(self: &Self) -> (r: String)
        ensures
            r@ == flat_of(self@),
    {
        self.decode()
    }

    /// Encodes the frame for the wire.
    #[verifier::loop_isolation(false)]
    pub fn encode(self: &Self) -> (r: String)
        ensures
            r@ == encode_spec(self@),
        decreases self,
    {
        match self {
            Protocol::SimpleString(s) => {
                let mut out = String::new();
                out.append("+");
                out.append(s.as_str());
                out.append("\r\n");
                proof {
                    reveal_strlit("+");
                    reveal_strlit("\r\n");
                    assert(out@ =~= encode_spec(self@));
                }
                out
            }
            Protocol::BulkString(s) => {
                let mut out = String::new();
                out.append("$");
                let len_s = usize_to_string(s.as_str().unicode_len());
                out.append(len_s.as_str());
                out.append("\r\n");
                out.append(s.as_str());
                out.append("\r\n");
                proof {
                    reveal_strlit("$");
                    reveal_strlit("\r\n");
                    assert(out@ =~= encode_spec(self@));
                }
                out
            }
            Protocol::Null => {
                let mut out = String::new();
                out.append("$-1\r\n");
                proof {
                    reveal_strlit("$-1\r\n");
                    assert(out@ =~= encode_spec(self@));
                }
                out
            }
            Protocol::Array(ps) => {
                let mut out = String::new();
                out.append("*");
                let len_s = usize_to_string(ps.len());
                out.append(len_s.as_str());
                out.append("\r\n");
                proof {
                    reveal_strlit("*");
                    reveal_strlit("\r\n");
                    lemma_frame_views(ps@);
                    assert(frame_views(ps@).take(0) =~= Seq::<FrameModel>::empty());
                    assert(out@ =~= seq!['*'] + dec_digits(ps@.len() as int) + crlf()
                        + encode_list(frame_views(ps@).take(0)));
                }
                let n = ps.len();
                let mut i: usize = 0;
                while i < n
                    invariant
                        n == ps@.len(),
                        i <= n,
                        frame_views(ps@).len() == ps@.len(),
                        forall|j: int|
                            0 <= j < ps@.len() ==> frame_views(ps@)[j] == frame_view(
                                #[trigger] ps@[j],
                            ),
                        out@ == seq!['*'] + dec_digits(ps@.len() as int) + crlf() + encode_list(
                            frame_views(ps@).take(i as int),
                        ),
                    decreases n - i,
                {
                    proof {
                        broadcast use vstd::std_specs::vec::axiom_vec_decreases_to_view;
                        broadcast use vstd::seq::axiom_seq_index_decreases;

                        assert(*ps == self->Array_0);
                        assert(decreases_to!(*self => self->Array_0));
                        assert(decreases_to!(*ps => ps@));
                        assert(decreases_to!(ps@ => ps@[i as int]));
                        assert(decreases_to!(*self => ps@[i as int]));
                    }
                    let e = ps[i].encode();
                    out.append(e.as_str());
                    proof {
                        lemma_encode_list_snoc(frame_views(ps@), i as int);
                        assert(out@ =~= seq!['*'] + dec_digits(ps@.len() as int) + crlf()
                            + encode_list(frame_views(ps@).take(i + 1)));
                    }
                    i += 1;
                }
                proof {
                    assert(frame_views(ps@).take(n as int) =~= frame_views(ps@));
                }
                out
            }
        }
    }
}

/// Parses a decimal number into 64 bits, rejecting the empty text, any
/// non-digit, and any value that does not fit.
pub fn parse_u64(s: &str) -> (r: Result<u64, DBError>)
    ensures
        match parse_dec(s@, u64::MAX as int) {
            Some(v) => r matches Ok(u) && u == v,
            None => r is Err,
        },
{
    let n = s.unicode_len();
    if n == 0 {
        return Err(DBError::msg("parse number error: empty"));
    }
    let mut acc: u64 = 0;
    let mut i: usize = 0;
    while i < n
        invariant
            i <= n,
            n == s@.len(),
            all_digits(s@.take(i as int)),
            acc == dec_val(s@.take(i as int)),
        decreases n - i,
    {
        let c = s.get_char(i);
        if !('0' <= c && c <= '9') {
            return Err(DBError::msg("parse number error: not a digit"));
        }
        let d: u64 = ((c as u8) - ('0' as u8)) as u64;
        proof {
            assert(s@.take(i + 1).drop_last() =~= s@.take(i as int));
            assert(s@.take(i + 1).last() == s@[i as int]);
            assert(all_digits(s@.take(i + 1))) by {
                assert(forall|j: int| 0 <= j < i + 1 ==> s@.take(i + 1)[j] == #[trigger] s@[j]);
            }
        }
        let shifted = match acc.checked_mul(10) {
            Some(x) => x,
            None => {
                proof {
                    if all_digits(s@) {
                        lemma_dec_val_prefix(s@, i + 1);
                    }
                }
                return Err(DBError::msg("parse number error: out of range"));
            },
        };
        let next = match shifted.checked_add(d) {
            Some(x) => x,
            None => {
                proof {
                    if all_digits(s@) {
                        lemma_dec_val_prefix(s@, i + 1);
                    }
                }
                return Err(DBError::msg("parse number error: out of range"));
            },
        };
        acc = next;
        i += 1;
    }
    proof {
        assert(s@.take(n as int) =~= s@);
    }
    Ok(acc)
}

/// Parses a decimal number into 128 bits, rejecting the empty text, any
/// non-digit, and any value that does not fit.
pub fn parse_u128(s: &str) -> (r: Result<u128, DBError>)
    ensures
        match parse_dec(s@, u128::MAX as int) {
            Some(v) => r matches Ok(u) && u == v,
            None => r is Err,
        },
{
    let n = s.unicode_len();
    if n == 0 {
        return Err(DBError::msg("parse number error: empty"));
    }
    let mut acc: u128 = 0;
    let mut i: usize = 0;
    while i < n
        invariant
            i <= n,
            n == s@.len(),
            all_digits(s@.take(i as int)),
            acc == dec_val(s@.take(i as int)),
        decreases n - i,
    {
        let c = s.get_char(i);
        if !('0' <= c && c <= '9') {
            return Err(DBError::msg("parse number error: not a digit"));
        }
        let d: u128 = ((c as u8) - ('0' as u8)) as u128;
        proof {
            assert(s@.take(i + 1).drop_last() =~= s@.take(i as int));
            assert(s@.take(i + 1).last() == s@[i as int]);
            assert(all_digits(s@.take(i + 1))) by {
                assert(forall|j: int| 0 <= j < i + 1 ==> s@.take(i + 1)[j] == #[trigger] s@[j]);
            }
        }
        let shifted = match acc.checked_mul(10) {
            Some(x) => x,
            None => {
                proof {
                    if all_digits(s@) {
                        lemma_dec_val_prefix(s@, i + 1);
                    }
                }
                return Err(DBError::msg("parse number error: out of range"));
            },
        };
        let next = match shifted.checked_add(d) {
            Some(x) => x,
            None => {
                proof {
                    if all_digits(s@) {
                        lemma_dec_val_prefix(s@, i + 1);
                    }
                }
                return Err(DBError::msg("parse number error: out of range"));
            },
        };
        acc = next;
        i += 1;
    }
    proof {
        assert(s@.take(n as int) =~= s@);
    }
    Ok(acc)
}


/// Renders a 64-bit number in decimal.
pub fn u64_to_string(n: u64) -> (r: String)
    ensures
        r@ == dec_digits(n as int),
    decreases n,
{
    if n < 10 {
        let mut s = String::new();
        s.append(digit_str((n % 10) as usize));
        proof {
            assert(s@ =~= dec_digits(n as int));
        }
        s
    } else {
        let mut s = u64_to_string(n / 10);
        s.append(digit_str((n % 10) as usize));
        proof {
            assert(s@ =~= dec_digits(n as int));
        }
        s
    }
}

} // verus!
