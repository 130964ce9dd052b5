//! The wire-protocol frame codec: the `Frame` message tree, its exact byte
//! encoding as a specification-level function, a specification-level scanner
//! that classifies any byte sequence as a complete frame, an incomplete
//! prefix, or a protocol violation, and the executable `encode` / `check` /
//! `decode` operations proved against those models.

use vstd::prelude::*;
use vstd::utf8::{decode_utf8, encode_utf8, valid_utf8};

verus! {

broadcast use {
    vstd::seq::axiom_seq_index_decreases,
    vstd::std_specs::vec::axiom_vec_index_decreases,
    vstd::std_specs::vec::axiom_vec_decreases_to_view,
};

/// One protocol message.
///
/// Wire layout, always terminated by CR LF where line-delimited:
/// `+text`, `-text`, `:digits`, `$len` + payload, `$-1` for `Null`,
/// `*count` + nested frames.
#[derive(Debug, PartialEq)]
pub enum Frame {
    Simple(String),
    Error(String),
    Integer(u64),
    Bulk(Vec<u8>),
    Null,
    Array(Vec<Frame>),
}

/// The mathematical shape of a [`Frame`]: text as character sequences,
/// payloads as byte sequences, elements as a `Seq`.
#[verifier::ext_equal]
pub enum FrameView {
    Simple(Seq<char>),
    Error(Seq<char>),
    Integer(u64),
    Bulk(Seq<u8>),
    Null,
    Array(Seq<FrameView>),
}

impl View for Frame {
    type V = FrameView;

    open spec fn view(&self) -> FrameView
        decreases self, 0nat,
    {
        match self {
            Frame::Simple(s) => FrameView::Simple(s@),
            Frame::Error(s) => FrameView::Error(s@),
            Frame::Integer(n) => FrameView::Integer(*n),
            Frame::Bulk(b) => FrameView::Bulk(b@),
            Frame::Null => FrameView::Null,
            Frame::Array(items) => FrameView::Array(frames_view(items, 0)),
        }
    }
}

/// The views of the elements of `items` from index `k` on.
pub open spec fn frames_view(items: &Vec<Frame>, k: int) -> Seq<FrameView>
    decreases *items, items@.len() - k + 1,
{
    if k < 0 || k >= items@.len() {
        Seq::empty()
    } else {
        seq![items[k]@] + frames_view(items, k + 1)
    }
}

/// `frames_view` is the element-wise view of the vector's tail from `k`.
pub proof fn lemma_frames_view(items: &Vec<Frame>, k: int)
    requires
        0 <= k <= items@.len(),
    ensures
        frames_view(items, k).len() == items@.len() - k,
        forall|i: int|
            0 <= i < items@.len() - k ==> frames_view(items, k)[i] == #[trigger] items@[k + i]@,
    decreases items@.len() - k,
{
    if k < items@.len() {
        lemma_frames_view(items, k + 1);
        assert(frames_view(items, k) == seq![items[k]@] + frames_view(items, k + 1));
        assert forall|i: int| 0 <= i < items@.len() - k implies frames_view(items, k)[i]
            == items@[k + i]@ by {
            if i == 0 {
                assert(frames_view(items, k)[0] == items[k]@);
            } else {
                assert(frames_view(items, k)[i] == frames_view(items, k + 1)[i - 1]);
                assert(frames_view(items, k + 1)[i - 1] == items@[(k + 1) + (i - 1)]@);
            }
        }
    }
}

/// Codec failure: either the buffer ends before the frame does, or the
/// bytes cannot be a frame at all (a corrupt stream).
#[derive(Debug)]
pub enum Error {
    Incomplete,
    Other(String),
}

/// Failure of the parse cursor: the element run is used up, the next
/// element has the wrong kind, or its bytes are not text.
#[derive(Debug, PartialEq, Eq, Structural)]
pub enum ParseError {
    Exhausted,
    WrongKind,
    BadText,
}

pub const FLAG_SIMPLE: u8 = 43;

pub const FLAG_ERROR: u8 = 45;

pub const FLAG_INTEGER: u8 = 58;

pub const FLAG_BULK: u8 = 36;

pub const FLAG_ARRAY: u8 = 42;

pub const FLAG_NULL: u8 = 45;

pub const CR: u8 = 13;

pub const LF: u8 = 10;

pub open spec fn crlf() -> Seq<u8> {
    seq![CR, LF]
}

/// Decimal digit characters of `n`, most significant first, no sign and no
/// leading zeros.
pub open spec fn digits(n: nat) -> Seq<u8>
    decreases n,
{
    if n < 10 {
        seq![(48 + n) as u8]
    } else {
        digits(n / 10) + seq![(48 + n % 10) as u8]
    }
}

/// The exact byte encoding of a frame.
pub open spec fn enc(v: FrameView) -> Seq<u8>
    decreases v, 0nat,
{
    match v {
        FrameView::Simple(t) => seq![FLAG_SIMPLE] + encode_utf8(t) + crlf(),
        FrameView::Error(t) => seq![FLAG_ERROR] + encode_utf8(t) + crlf(),
        FrameView::Integer(n) => seq![FLAG_INTEGER] + digits(n as nat) + crlf(),
        FrameView::Bulk(b) => seq![FLAG_BULK] + digits(b.len()) + crlf() + b + crlf(),
        FrameView::Null => seq![FLAG_BULK, 45u8, 49u8, CR, LF],
        FrameView::Array(a) => seq![FLAG_ARRAY] + digits(a.len()) + crlf() + enc_items(a, 0),
    }
}

/// The concatenated encodings of the elements of `a` from index `k` on.
pub open spec fn enc_items(a: Seq<FrameView>, k: int) -> Seq<u8>
    decreases a, a.len() - k,
{
    if k < 0 || k >= a.len() {
        Seq::empty()
    } else {
        enc(a[k]) + enc_items(a, k + 1)
    }
}

/// A CR LF pair sits at position `j` of `s`.
pub open spec fn crlf_at(s: Seq<u8>, j: int) -> bool {
    &&& 0 <= j
    &&& j + 2 <= s.len()
    &&& s[j] == CR
    &&& s[j + 1] == LF
}

/// `j` is the first CR LF pair at or after position `i`.
pub open spec fn first_crlf(s: Seq<u8>, i: int, j: int) -> bool {
    &&& i <= j
    &&& crlf_at(s, j)
    &&& forall|k: int| i <= k < j ==> !crlf_at(s, k)
}

/// Position of the first CR LF pair at or after `i`, if any.
pub open spec fn line_end(s: Seq<u8>, i: int) -> Option<int> {
    if exists|j: int| first_crlf(s, i, j) {
        Some(choose|j: int| first_crlf(s, i, j))
    } else {
        None
    }
}

/// At most one position is the first CR LF pair.
pub proof fn lemma_first_crlf_unique(s: Seq<u8>, i: int, j1: int, j2: int)
    requires
        first_crlf(s, i, j1),
        first_crlf(s, i, j2),
    ensures
        j1 == j2,
{
    if j1 < j2 {
        assert(!crlf_at(s, j1));
    }
    if j2 < j1 {
        assert(!crlf_at(s, j2));
    }
}

pub open spec fn is_digit(b: u8) -> bool {
    48 <= b <= 57
}

pub open spec fn all_digits(s: Seq<u8>) -> bool {
    forall|i: int| 0 <= i < s.len() ==> is_digit(#[trigger] s[i])
}

/// The number denoted by a sequence of decimal digit characters,
/// most significant first.
pub open spec fn digits_val(s: Seq<u8>) -> nat
    decreases s.len(),
{
    if s.len() == 0 {
        0
    } else {
        (digits_val(s.drop_last()) * 10 + (s.last() - 48)) as nat
    }
}

/// The unsigned 64-bit number a line denotes: the line must be nonempty,
/// all decimal digits, and in range.
pub open spec fn parse_num(s: Seq<u8>) -> Option<u64> {
    if s.len() >= 1 && all_digits(s) && digits_val(s) <= u64::MAX {
        Some(digits_val(s) as u64)
    } else {
        None
    }
}

/// Outcome of scanning one frame: a complete frame ending (exclusively) at
/// the given position, too few bytes so far, or a protocol violation.
pub enum Scan {
    Done(FrameView, int),
    Short,
    Bad,
}

/// Outcome of scanning a run of consecutive frames.
pub enum ScanItems {
    Done(Seq<FrameView>, int),
    Short,
    Bad,
}

/// Scans one frame starting at position `i` of `s`: the specification-level
/// byte walk that `check` and `decode` are proved to follow.
pub open spec fn dec(s: Seq<u8>, i: int) -> Scan
    decreases s.len() - i, 0nat,
{
    if !(0 <= i < s.len()) {
        Scan::Short
    } else if s[i] == FLAG_SIMPLE || s[i] == FLAG_ERROR {
        match line_end(s, i + 1) {
            None => Scan::Short,
            Some(j) => {
                let line = s.subrange(i + 1, j);
                if valid_utf8(line) {
                    if s[i] == FLAG_SIMPLE {
                        Scan::Done(FrameView::Simple(decode_utf8(line)), j + 2)
                    } else {
                        Scan::Done(FrameView::Error(decode_utf8(line)), j + 2)
                    }
                } else {
                    Scan::Bad
                }
            },
        }
    } else if s[i] == FLAG_INTEGER {
        match line_end(s, i + 1) {
            None => Scan::Short,
            Some(j) => match parse_num(s.subrange(i + 1, j)) {
                None => Scan::Bad,
                Some(n) => Scan::Done(FrameView::Integer(n), j + 2),
            },
        }
    } else if s[i] == FLAG_BULK {
        if i + 1 >= s.len() {
            Scan::Short
        } else if s[i + 1] == FLAG_NULL {
            match line_end(s, i + 1) {
                None => Scan::Short,
                Some(j) => {
                    if s.subrange(i + 1, j) == seq![45u8, 49u8] {
                        Scan::Done(FrameView::Null, j + 2)
                    } else {
                        Scan::Bad
                    }
                },
            }
        } else {
            match line_end(s, i + 1) {
                None => Scan::Short,
                Some(j) => match parse_num(s.subrange(i + 1, j)) {
                    None => Scan::Bad,
                    Some(n) => {
                        if s.len() < j + 2 + n + 2 {
                            Scan::Short
                        } else {
                            Scan::Done(FrameView::Bulk(s.subrange(j + 2, j + 2 + n)), j + 2 + n + 2)
                        }
                    },
                },
            }
        }
    } else if s[i] == FLAG_ARRAY {
        if i + 1 >= s.len() {
            Scan::Short
        } else if s[i + 1] == FLAG_NULL {
            match line_end(s, i + 1) {
                None => Scan::Short,
                Some(j) => {
                    if s.subrange(i + 1, j) == seq![45u8, 49u8] {
                        Scan::Done(FrameView::Null, j + 2)
                    } else {
                        Scan::Bad
                    }
                },
            }
        } else {
            match line_end(s, i + 1) {
                None => Scan::Short,
                Some(j) => match parse_num(s.subrange(i + 1, j)) {
                    None => Scan::Bad,
                    Some(n) => match dec_items(s, j + 2, n as nat) {
                        ScanItems::Short => Scan::Short,
                        ScanItems::Bad => Scan::Bad,
                        ScanItems::Done(items, end) => Scan::Done(FrameView::Array(items), end),
                    },
                },
            }
        }
    } else {
        Scan::Bad
    }
}

/// Scans `n` consecutive frames starting at position `i` of `s`.
pub open spec fn dec_items(s: Seq<u8>, i: int, n: nat) -> ScanItems
    decreases s.len() - i, n,
{
    if n == 0 {
        ScanItems::Done(Seq::empty(), i)
    } else {
        match dec(s, i) {
            Scan::Short => ScanItems::Short,
            Scan::Bad => ScanItems::Bad,
            Scan::Done(v, end) => {
                if !(i < end <= s.len()) {
                    // a scanned frame always advances; this branch never holds
                    ScanItems::Bad
                } else {
                    match dec_items(s, end, (n - 1) as nat) {
                        ScanItems::Short => ScanItems::Short,
                        ScanItems::Bad => ScanItems::Bad,
                        ScanItems::Done(rest, end2) => ScanItems::Done(seq![v] + rest, end2),
                    }
                }
            },
        }
    }
}

/// Relies on `str::from_utf8`: it returns `Ok` exactly when the bytes are
/// valid UTF-8, the same notion vstd's `valid_utf8` describes.
#[verifier::external_body]
fn bytes_valid_utf8(bs: &[u8]) -> (r: bool)
    ensures
        r == valid_utf8(bs@),
{
    core::str::from_utf8(bs).is_ok()
}

/// Relies on `String::from_utf8`: it succeeds exactly on valid UTF-8 and
/// returns the string those bytes encode, the same decoding vstd's
/// `decode_utf8` describes.
#[verifier::external_body]
fn string_from_utf8(v: Vec<u8>) -> (r: Option<String>)
    ensures
        match r {
            Some(s) => valid_utf8(v@) && s@ == decode_utf8(v@),
            None => !valid_utf8(v@),
        },
{
    String::from_utf8(v).ok()
}

/// Copies `buf[a..b]` into a fresh vector.
pub(crate) fn copy_range(buf: &[u8], a: usize, b: usize) -> (v: Vec<u8>)
    requires
        a <= b <= buf@.len(),
    ensures
        v@ == buf@.subrange(a as int, b as int),
{
    vstd::slice::slice_to_vec(vstd::slice::slice_subrange(buf, a, b))
}

/// Reads the byte at the cursor and advances past it.
fn get_u8(buf: &[u8], pos: &mut usize) -> (r: Result<u8, Error>)
    requires
        *old(pos) <= buf@.len(),
    ensures
        match r {
            Ok(b) => {
                &&& *old(pos) < buf@.len()
                &&& b == buf@[*old(pos) as int]
                &&& *final(pos) == *old(pos) + 1
            },
            Err(e) => {
                &&& e is Incomplete
                &&& *old(pos) == buf@.len()
                &&& *final(pos) == *old(pos)
            },
        },
{
    if *pos < buf.len() {
        let b = buf[*pos];
        *pos = *pos + 1;
        Ok(b)
    } else {
        Err(Error::Incomplete)
    }
}

/// Reads the byte at the cursor without advancing.
fn peek_u8(buf: &[u8], pos: &mut usize) -> (r: Result<u8, Error>)
    requires
        *old(pos) <= buf@.len(),
    ensures
        *final(pos) == *old(pos),
        match r {
            Ok(b) => *old(pos) < buf@.len() && b == buf@[*old(pos) as int],
            Err(e) => e is Incomplete && *old(pos) == buf@.len(),
        },
{
    if *pos < buf.len() {
        Ok(buf[*pos])
    } else {
        Err(Error::Incomplete)
    }
}

/// Scans for the line terminator: on success the line runs from the old
/// cursor up to the returned index, and the cursor lands just past CR LF.
fn get_line(buf: &[u8], pos: &mut usize) -> (r: Result<usize, Error>)
    requires
        *old(pos) <= buf@.len(),
    ensures
        match r {
            Ok(j) => {
                &&& line_end(buf@, *old(pos) as int) == Some(j as int)
                &&& first_crlf(buf@, *old(pos) as int, j as int)
                &&& *old(pos) <= j
                &&& j + 2 <= buf@.len()
                &&& *final(pos) == j + 2
            },
            Err(e) => {
                &&& e is Incomplete
                &&& line_end(buf@, *old(pos) as int) is None
                &&& *final(pos) == *old(pos)
            },
        },
{
    let mut i: usize = *pos;
    loop
        invariant
            *pos == *old(pos),
            *pos <= i <= buf@.len(),
            forall|k: int| *pos <= k < i ==> !crlf_at(buf@, k),
        decreases buf@.len() - i,
    {
        if i >= buf.len() || buf.len() - i < 2 {
            proof {
                assert forall|k: int| *pos <= k implies !crlf_at(buf@, k) by {
                    if k < i {
                    } else {
                        assert(k + 2 > buf@.len());
                    }
                }
            }
            return Err(Error::Incomplete);
        }
        if buf[i] == CR && buf[i + 1] == LF {
            proof {
                let start = *pos as int;
                assert(first_crlf(buf@, start, i as int));
                let w = choose|j: int| first_crlf(buf@, start, j);
                lemma_first_crlf_unique(buf@, start, w, i as int);
            }
            let j = i;
            *pos = i + 2;
            return Ok(j);
        }
        i = i + 1;
    }
}

/// Advances the cursor by `n` bytes if that many remain.
fn skip(buf: &[u8], pos: &mut usize, n: usize) -> (r: Result<(), Error>)
    requires
        *old(pos) <= buf@.len(),
    ensures
        match r {
            Ok(_) => *old(pos) + n <= buf@.len() && *final(pos) == *old(pos) + n,
            Err(e) => {
                &&& e is Incomplete
                &&& *old(pos) + n > buf@.len()
                &&& *final(pos) == *old(pos)
            },
        },
{
    if buf.len() - *pos < n {
        return Err(Error::Incomplete);
    }
    *pos = *pos + n;
    Ok(())
}

/// Prefixes of a digit run denote no more than the whole run.
proof fn lemma_digits_val_prefix_le(s: Seq<u8>, j: int)
    requires
        0 <= j <= s.len(),
        all_digits(s),
    ensures
        digits_val(s.take(j)) <= digits_val(s),
    decreases s.len() - j,
{
    if j < s.len() {
        lemma_digits_val_prefix_le(s, j + 1);
        assert(s.take(j + 1).drop_last() =~= s.take(j));
        assert(s.take(j + 1).last() == s[j]);
        assert(digits_val(s.take(j)) <= digits_val(s.take(j + 1)));
    } else {
        assert(s.take(j) =~= s);
    }
}

/// Parses the digit run `buf[a..b]` as an unsigned 64-bit decimal,
/// exactly as the specification-level `parse_num` does.
fn parse_decimal(buf: &[u8], a: usize, b: usize) -> (r: Option<u64>)
    requires
        a <= b <= buf@.len(),
    ensures
        r == parse_num(buf@.subrange(a as int, b as int)),
{
    let ghost line = buf@.subrange(a as int, b as int);
    if a == b {
        return None;
    }
    let mut acc: u64 = 0;
    let mut i: usize = a;
    while i < b
        invariant
            a <= i <= b <= buf@.len(),
            line == buf@.subrange(a as int, b as int),
            all_digits(line.take(i - a)),
            acc == digits_val(line.take(i - a)),
        decreases b - i,
    {
        let c = buf[i];
        if c < 48 || c > 57 {
            assert(!is_digit(line[i - a]));
            return None;
        }
        let shifted = match acc.checked_mul(10) {
            Some(x) => x,
            None => {
                proof {
                    assert(line.take(i - a + 1).drop_last() =~= line.take(i - a));
                    assert(line.take(i - a + 1).last() == line[i - a]);
                    if all_digits(line) {
                        assert(digits_val(line.take(i - a + 1)) > u64::MAX);
                        lemma_digits_val_prefix_le(line, i - a + 1);
                    }
                }
                return None;
            },
        };
        let next = match shifted.checked_add((c - 48) as u64) {
            Some(x) => x,
            None => {
                proof {
                    assert(line.take(i - a + 1).drop_last() =~= line.take(i - a));
                    assert(line.take(i - a + 1).last() == line[i - a]);
                    if all_digits(line) {
                        assert(digits_val(line.take(i - a + 1)) > u64::MAX);
                        lemma_digits_val_prefix_le(line, i - a + 1);
                    }
                }
                return None;
            },
        };
        proof {
            assert(line.take(i - a + 1).drop_last() =~= line.take(i - a));
            assert(line.take(i - a + 1).last() == line[i - a]);
        }
        acc = next;
        i = i + 1;
    }
    proof {
        assert(line.take(b - a) =~= line);
    }
    Some(acc)
}

/// No CR LF pair occurs anywhere inside `b`.
pub open spec fn no_crlf(b: Seq<u8>) -> bool {
    forall|k: int| 0 <= k && k + 1 < b.len() ==> !(b[k] == CR && #[trigger] b[k + 1] == LF)
}

/// A frame whose encoding decodes back to itself: line-delimited text may
/// not contain the terminator, and declared lengths must fit the wire's
/// unsigned 64-bit decimals.
pub open spec fn wf(v: FrameView) -> bool
    decreases v, 0nat,
{
    match v {
        FrameView::Simple(t) => no_crlf(encode_utf8(t)),
        FrameView::Error(t) => no_crlf(encode_utf8(t)),
        FrameView::Integer(_) => true,
        FrameView::Bulk(b) => b.len() <= u64::MAX,
        FrameView::Null => true,
        FrameView::Array(a) => a.len() <= u64::MAX && wf_items(a, 0),
    }
}

/// All elements of `a` from index `k` on are well formed.
pub open spec fn wf_items(a: Seq<FrameView>, k: int) -> bool
    decreases a, a.len() - k,
{
    if k < 0 || k >= a.len() {
        true
    } else {
        wf(a[k]) && wf_items(a, k + 1)
    }
}

/// Every encoding is at least three bytes long.
proof fn lemma_enc_len(v: FrameView)
    ensures
        enc(v).len() >= 3,
{
    match v {
        FrameView::Simple(t) => {},
        FrameView::Error(t) => {},
        FrameView::Integer(n) => {},
        FrameView::Bulk(b) => {},
        FrameView::Null => {},
        FrameView::Array(a) => {
            assert(enc_items(a, 0).len() >= 0);
        },
    }
}

/// The digit characters of `n` are decimal digits denoting `n`.
proof fn lemma_digits(n: nat)
    ensures
        digits(n).len() >= 1,
        all_digits(digits(n)),
        digits_val(digits(n)) == n,
    decreases n,
{
    if n < 10 {
        assert(digits(n) =~= seq![(48 + n) as u8]);
        assert(digits_val(digits(n).drop_last()) == 0);
    } else {
        lemma_digits(n / 10);
        let d = (48 + n % 10) as u8;
        assert(digits(n) == digits(n / 10) + seq![d]);
        assert(digits(n).drop_last() =~= digits(n / 10));
        assert(digits(n).last() == d);
        assert forall|i: int| 0 <= i < digits(n).len() implies is_digit(#[trigger] digits(n)[i]) by {
            if i < digits(n / 10).len() {
                assert(digits(n)[i] == digits(n / 10)[i]);
            }
        }
        assert(digits_val(digits(n)) == digits_val(digits(n / 10)) * 10 + (d - 48));
    }
}

/// If the bytes of `l` sit at position `i` of `s`, followed by CR LF, and
/// `l` itself holds no CR LF pair, then that CR LF is the first one.
proof fn lemma_line_at(s: Seq<u8>, i: int, l: Seq<u8>)
    requires
        0 <= i,
        i + l.len() + 2 <= s.len(),
        forall|k: int| 0 <= k < l.len() ==> s[i + k] == #[trigger] l[k],
        s[i + l.len()] == CR,
        s[i + l.len() + 1] == LF,
        no_crlf(l),
    ensures
        line_end(s, i) == Some(i + l.len()),
        first_crlf(s, i, i + l.len()),
{
    let j = i + l.len();
    assert(crlf_at(s, j));
    assert forall|k: int| i <= k < j implies !crlf_at(s, k) by {
        if k < j - 1 {
            assert(s[k] == l[k - i]);
            assert(s[k + 1] == l[(k - i) + 1]);
            assert(!(l[k - i] == CR && l[(k - i) + 1] == LF));
        } else {
            assert(s[k + 1] == CR);
        }
    }
    assert(first_crlf(s, i, j));
    let w = choose|j2: int| first_crlf(s, i, j2);
    lemma_first_crlf_unique(s, i, w, j);
}

/// Round trip, one frame: if the exact encoding of a well-formed frame sits
/// at position `i` of `s` (whatever bytes follow it), the scanner accepts
/// precisely that frame and consumes precisely its encoding.
pub proof fn lemma_round_trip(v: FrameView, s: Seq<u8>, i: int)
    requires
        wf(v),
        0 <= i,
        i + enc(v).len() <= s.len(),
        s.subrange(i, i + enc(v).len()) == enc(v),
    ensures
        dec(s, i) == Scan::Done(v, i + enc(v).len()),
    decreases v, 0nat,
{
    let e = enc(v);
    assert forall|k: int| 0 <= k < e.len() implies s[i + k] == #[trigger] e[k] by {
        assert(s.subrange(i, i + e.len() as int)[k] == s[i + k]);
    }
    lemma_enc_len(v);
    assert(s[i + 0] == e[0]);
    match v {
        FrameView::Simple(t) => {
            let eu = encode_utf8(t);
            assert(s[i] == FLAG_SIMPLE);
            assert forall|k: int| 0 <= k < eu.len() implies s[i + 1 + k] == #[trigger] eu[k] by {
                assert(e[1 + k] == eu[k]);
                assert(s[i + (1 + k)] == e[1 + k]);
            }
            assert(s[i + 1 + eu.len()] == CR) by {
                assert(e[1 + eu.len() as int] == CR);
            }
            assert(s[i + 1 + eu.len() + 1] == LF) by {
                assert(e[1 + eu.len() as int + 1] == LF);
            }
            lemma_line_at(s, i + 1, eu);
            let j = i + 1 + eu.len();
            assert(s.subrange(i + 1, j) =~= eu);
            vstd::utf8::encode_utf8_valid_utf8(t);
            vstd::utf8::encode_utf8_decode_utf8(t);
            assert(dec(s, i) == Scan::Done(FrameView::Simple(t), j + 2));
        },
        FrameView::Error(t) => {
            let eu = encode_utf8(t);
            assert(s[i] == FLAG_ERROR);
            assert forall|k: int| 0 <= k < eu.len() implies s[i + 1 + k] == #[trigger] eu[k] by {
                assert(e[1 + k] == eu[k]);
                assert(s[i + (1 + k)] == e[1 + k]);
            }
            assert(s[i + 1 + eu.len()] == CR) by {
                assert(e[1 + eu.len() as int] == CR);
            }
            assert(s[i + 1 + eu.len() + 1] == LF) by {
                assert(e[1 + eu.len() as int + 1] == LF);
            }
            lemma_line_at(s, i + 1, eu);
            let j = i + 1 + eu.len();
            assert(s.subrange(i + 1, j) =~= eu);
            vstd::utf8::encode_utf8_valid_utf8(t);
            vstd::utf8::encode_utf8_decode_utf8(t);
            assert(dec(s, i) == Scan::Done(FrameView::Error(t), j + 2));
        },
        FrameView::Integer(n) => {
            let ds = digits(n as nat);
            lemma_digits(n as nat);
            assert(s[i] == FLAG_INTEGER);
            assert forall|k: int| 0 <= k < ds.len() implies s[i + 1 + k] == #[trigger] ds[k] by {
                assert(e[1 + k] == ds[k]);
                assert(s[i + (1 + k)] == e[1 + k]);
            }
            assert(no_crlf(ds)) by {
                assert forall|k: int| 0 <= k && k + 1 < ds.len() implies !(ds[k] == CR && #[trigger] ds[k
                    + 1] == LF) by {
                    assert(is_digit(ds[k]));
                }
            }
            assert(s[i + 1 + ds.len()] == CR) by {
                assert(e[1 + ds.len() as int] == CR);
            }
            assert(s[i + 1 + ds.len() + 1] == LF) by {
                assert(e[1 + ds.len() as int + 1] == LF);
            }
            lemma_line_at(s, i + 1, ds);
            let j = i + 1 + ds.len();
            assert(s.subrange(i + 1, j) =~= ds);
            assert(parse_num(ds) == Some(n));
            assert(dec(s, i) == Scan::Done(FrameView::Integer(n), j + 2));
        },
        FrameView::Null => {
            assert(s[i] == FLAG_BULK);
            assert(s[i + 1] == 45);
            assert(s[i + 2] == 49);
            assert(s[i + 3] == CR);
            assert(s[i + 4] == LF);
            let l = seq![45u8, 49u8];
            assert forall|k: int| 0 <= k < l.len() implies s[i + 1 + k] == #[trigger] l[k] by {}
            lemma_line_at(s, i + 1, l);
            let j = i + 3;
            assert(s.subrange(i + 1, j) =~= l);
            assert(dec(s, i) == Scan::Done(FrameView::Null, j + 2));
        },
        FrameView::Bulk(b) => {
            let ds = digits(b.len());
            lemma_digits(b.len());
            assert(s[i] == FLAG_BULK);
            assert forall|k: int| 0 <= k < ds.len() implies s[i + 1 + k] == #[trigger] ds[k] by {
                assert(e[1 + k] == ds[k]);
                assert(s[i + (1 + k)] == e[1 + k]);
            }
            assert(is_digit(ds[0]));
            assert(s[i + 1] != FLAG_NULL);
            assert(no_crlf(ds)) by {
                assert forall|k: int| 0 <= k && k + 1 < ds.len() implies !(ds[k] == CR && #[trigger] ds[k
                    + 1] == LF) by {
                    assert(is_digit(ds[k]));
                }
            }
            assert(s[i + 1 + ds.len()] == CR) by {
                assert(e[1 + ds.len() as int] == CR);
            }
            assert(s[i + 1 + ds.len() + 1] == LF) by {
                assert(e[1 + ds.len() as int + 1] == LF);
            }
            lemma_line_at(s, i + 1, ds);
            let j = i + 1 + ds.len();
            assert(s.subrange(i + 1, j) =~= ds);
            assert(parse_num(ds) == Some(b.len() as u64));
            assert(s.len() >= j + 2 + b.len() + 2);
            assert forall|k: int| 0 <= k < b.len() implies s[j + 2 + k] == #[trigger] b[k] by {
                assert(e[1 + ds.len() + 2 + k] == b[k]);
                assert(s[i + (1 + ds.len() + 2 + k)] == e[1 + ds.len() + 2 + k]);
            }
            assert(s.subrange(j + 2, j + 2 + b.len()) =~= b);
            assert(dec(s, i) == Scan::Done(FrameView::Bulk(b), j + 2 + b.len() + 2));
        },
        FrameView::Array(a) => {
            let ds = digits(a.len());
            lemma_digits(a.len());
            assert(s[i] == FLAG_ARRAY);
            assert forall|k: int| 0 <= k < ds.len() implies s[i + 1 + k] == #[trigger] ds[k] by {
                assert(e[1 + k] == ds[k]);
                assert(s[i + (1 + k)] == e[1 + k]);
            }
            assert(is_digit(ds[0]));
            assert(s[i + 1] != FLAG_NULL);
            assert(no_crlf(ds)) by {
                assert forall|k: int| 0 <= k && k + 1 < ds.len() implies !(ds[k] == CR && #[trigger] ds[k
                    + 1] == LF) by {
                    assert(is_digit(ds[k]));
                }
            }
            assert(s[i + 1 + ds.len()] == CR) by {
                assert(e[1 + ds.len() as int] == CR);
            }
            assert(s[i + 1 + ds.len() + 1] == LF) by {
                assert(e[1 + ds.len() as int + 1] == LF);
            }
            lemma_line_at(s, i + 1, ds);
            let j = i + 1 + ds.len();
            assert(s.subrange(i + 1, j) =~= ds);
            assert(parse_num(ds) == Some(a.len() as u64));
            let body = enc_items(a, 0);
            assert forall|k: int| 0 <= k < body.len() implies s[j + 2 + k] == #[trigger] body[k] by {
                assert(e[1 + ds.len() + 2 + k] == body[k]);
                assert(s[i + (1 + ds.len() + 2 + k)] == e[1 + ds.len() + 2 + k]);
            }
            lemma_round_trip_items(a, 0, s, j + 2);
            assert(a.skip(0) =~= a);
            assert(dec(s, i) == Scan::Done(FrameView::Array(a), j + 2 + body.len()));
        },
    }
}

/// Round trip, a run of elements: the concatenated encodings of the tail of
/// `a` from `k` scan back to exactly those elements.
proof fn lemma_round_trip_items(a: Seq<FrameView>, k: int, s: Seq<u8>, i: int)
    requires
        0 <= k <= a.len(),
        wf_items(a, k),
        0 <= i,
        i + enc_items(a, k).len() <= s.len(),
        forall|m: int| 0 <= m < enc_items(a, k).len() ==> s[i + m] == #[trigger] enc_items(a, k)[m],
    ensures
        dec_items(s, i, (a.len() - k) as nat) == ScanItems::Done(
            a.skip(k),
            i + enc_items(a, k).len(),
        ),
    decreases a, a.len() - k,
{
    if k == a.len() {
        assert(a.skip(k) =~= Seq::<FrameView>::empty());
    } else {
        let e0 = enc(a[k]);
        let tail = enc_items(a, k + 1);
        assert(enc_items(a, k) == e0 + tail);
        assert(s.subrange(i, i + e0.len()) =~= e0) by {
            assert forall|m: int| 0 <= m < e0.len() implies s.subrange(i, i + e0.len() as int)[m]
                == e0[m] by {
                assert(s[i + m] == enc_items(a, k)[m]);
                assert(enc_items(a, k)[m] == e0[m]);
            }
        }
        lemma_round_trip(a[k], s, i);
        lemma_enc_len(a[k]);
        let end1 = i + e0.len();
        assert forall|m: int| 0 <= m < tail.len() implies s[end1 + m] == #[trigger] tail[m] by {
            assert(enc_items(a, k)[e0.len() + m] == tail[m]);
            assert(s[i + (e0.len() + m)] == enc_items(a, k)[e0.len() + m]);
        }
        lemma_round_trip_items(a, k + 1, s, end1);
        assert(a.skip(k) =~= seq![a[k]] + a.skip(k + 1));
        assert(dec_items(s, i, (a.len() - k) as nat) == ScanItems::Done(
            seq![a[k]] + a.skip(k + 1),
            end1 + tail.len(),
        ));
    }
}

/// If the bytes of `s` from `i` on are a proper prefix of a terminator-free
/// line followed by CR LF, no line terminator can be found yet.
proof fn lemma_partial_line_short(s: Seq<u8>, i: int, l: Seq<u8>)
    requires
        0 <= i <= s.len(),
        s.len() - i < l.len() + 2,
        forall|k: int| 0 <= k < s.len() - i ==> s[i + k] == #[trigger] (l + crlf())[k],
        no_crlf(l),
    ensures
        line_end(s, i) is None,
{
    assert forall|k: int| i <= k implies !crlf_at(s, k) by {
        if k + 2 <= s.len() {
            let q = k - i;
            assert(s[i + q] == (l + crlf())[q]);
            assert(s[i + (q + 1)] == (l + crlf())[q + 1]);
            if q + 1 < l.len() {
                assert(!(l[q] == CR && l[q + 1] == LF));
            } else {
                assert((l + crlf())[q + 1] == CR);
            }
        }
    }
    assert forall|j: int| !first_crlf(s, i, j) by {
        if i <= j {
            assert(!crlf_at(s, j));
        }
    }
}

/// One byte at a time: while the bytes of a well-formed frame's encoding
/// have only partly arrived, the scanner reports `Short`, never success and
/// never a protocol violation.
pub proof fn lemma_prefix_incomplete(v: FrameView, s: Seq<u8>, i: int)
    requires
        wf(v),
        0 <= i <= s.len(),
        s.len() - i < enc(v).len(),
        forall|k: int| 0 <= k < s.len() - i ==> s[i + k] == #[trigger] enc(v)[k],
    ensures
        dec(s, i) is Short,
    decreases v, 0nat,
{
    let e = enc(v);
    let m = s.len() - i;
    if m == 0 {
        return ;
    }
    assert(s[i + 0] == e[0]);
    match v {
        FrameView::Simple(t) => {
            let eu = encode_utf8(t);
            assert forall|k: int| 0 <= k < m - 1 implies s[i + 1 + k] == #[trigger] (eu
                + crlf())[k] by {
                assert(s[i + (1 + k)] == e[1 + k]);
                assert(e[1 + k] == (eu + crlf())[k]);
            }
            lemma_partial_line_short(s, i + 1, eu);
        },
        FrameView::Error(t) => {
            let eu = encode_utf8(t);
            assert forall|k: int| 0 <= k < m - 1 implies s[i + 1 + k] == #[trigger] (eu
                + crlf())[k] by {
                assert(s[i + (1 + k)] == e[1 + k]);
                assert(e[1 + k] == (eu + crlf())[k]);
            }
            lemma_partial_line_short(s, i + 1, eu);
        },
        FrameView::Integer(n) => {
            let ds = digits(n as nat);
            lemma_digits(n as nat);
            assert(no_crlf(ds)) by {
                assert forall|k: int| 0 <= k && k + 1 < ds.len() implies !(ds[k] == CR && #[trigger] ds[k
                    + 1] == LF) by {
                    assert(is_digit(ds[k]));
                }
            }
            assert forall|k: int| 0 <= k < m - 1 implies s[i + 1 + k] == #[trigger] (ds
                + crlf())[k] by {
                assert(s[i + (1 + k)] == e[1 + k]);
                assert(e[1 + k] == (ds + crlf())[k]);
            }
            lemma_partial_line_short(s, i + 1, ds);
        },
        FrameView::Null => {
            if m >= 2 {
                assert(s[i + 1] == e[1]);
                let l = seq![45u8, 49u8];
                assert forall|k: int| 0 <= k < m - 1 implies s[i + 1 + k] == #[trigger] (l
                    + crlf())[k] by {
                    assert(s[i + (1 + k)] == e[1 + k]);
                    assert(e[1 + k] == (l + crlf())[k]);
                }
                lemma_partial_line_short(s, i + 1, l);
            }
        },
        FrameView::Bulk(b) => {
            let ds = digits(b.len());
            lemma_digits(b.len());
            assert(no_crlf(ds)) by {
                assert forall|k: int| 0 <= k && k + 1 < ds.len() implies !(ds[k] == CR && #[trigger] ds[k
                    + 1] == LF) by {
                    assert(is_digit(ds[k]));
                }
            }
            if m >= 2 {
                assert(s[i + 1] == e[1]);
                assert(e[1] == ds[0]);
                assert(is_digit(ds[0]));
                if m < 1 + ds.len() + 2 {
                    assert forall|k: int| 0 <= k < m - 1 implies s[i + 1 + k] == #[trigger] (ds
                        + crlf())[k] by {
                        assert(s[i + (1 + k)] == e[1 + k]);
                        assert(e[1 + k] == (ds + crlf())[k]);
                    }
                    lemma_partial_line_short(s, i + 1, ds);
                } else {
                    assert forall|k: int| 0 <= k < ds.len() implies s[i + 1 + k]
                        == #[trigger] ds[k] by {
                        assert(s[i + (1 + k)] == e[1 + k]);
                        assert(e[1 + k] == ds[k]);
                    }
                    assert(s[i + 1 + ds.len()] == CR) by {
                        assert(s[i + (1 + ds.len() as int)] == e[1 + ds.len() as int]);
                    }
                    assert(s[i + 1 + ds.len() + 1] == LF) by {
                        assert(s[i + (1 + ds.len() as int + 1)] == e[1 + ds.len() as int + 1]);
                    }
                    lemma_line_at(s, i + 1, ds);
                    let j = i + 1 + ds.len();
                    assert(s.subrange(i + 1, j) =~= ds);
                    assert(parse_num(ds) == Some(b.len() as u64));
                    assert(s.len() < j + 2 + b.len() + 2);
                }
            }
        },
        FrameView::Array(a) => {
            let ds = digits(a.len());
            lemma_digits(a.len());
            assert(no_crlf(ds)) by {
                assert forall|k: int| 0 <= k && k + 1 < ds.len() implies !(ds[k] == CR && #[trigger] ds[k
                    + 1] == LF) by {
                    assert(is_digit(ds[k]));
                }
            }
            if m >= 2 {
                assert(s[i + 1] == e[1]);
                assert(e[1] == ds[0]);
                assert(is_digit(ds[0]));
                if m < 1 + ds.len() + 2 {
                    assert forall|k: int| 0 <= k < m - 1 implies s[i + 1 + k] == #[trigger] (ds
                        + crlf())[k] by {
                        assert(s[i + (1 + k)] == e[1 + k]);
                        assert(e[1 + k] == (ds + crlf())[k]);
                    }
                    lemma_partial_line_short(s, i + 1, ds);
                } else {
                    assert forall|k: int| 0 <= k < ds.len() implies s[i + 1 + k]
                        == #[trigger] ds[k] by {
                        assert(s[i + (1 + k)] == e[1 + k]);
                        assert(e[1 + k] == ds[k]);
                    }
                    assert(s[i + 1 + ds.len()] == CR) by {
                        assert(s[i + (1 + ds.len() as int)] == e[1 + ds.len() as int]);
                    }
                    assert(s[i + 1 + ds.len() + 1] == LF) by {
                        assert(s[i + (1 + ds.len() as int + 1)] == e[1 + ds.len() as int + 1]);
                    }
                    lemma_line_at(s, i + 1, ds);
                    let j = i + 1 + ds.len();
                    assert(s.subrange(i + 1, j) =~= ds);
                    assert(parse_num(ds) == Some(a.len() as u64));
                    let body = enc_items(a, 0);
                    assert forall|k: int| 0 <= k < s.len() - (j + 2) implies s[j + 2 + k]
                        == #[trigger] body[k] by {
                        assert(s[i + (1 + ds.len() as int + 2 + k)] == e[1 + ds.len() as int + 2
                            + k]);
                        assert(e[1 + ds.len() as int + 2 + k] == body[k]);
                    }
                    lemma_prefix_incomplete_items(a, 0, s, j + 2);
                }
            }
        },
    }
}

/// The round-trip law in its plainest form: decoding the encoding of a
/// well-formed frame yields that frame back, whatever bytes follow it on
/// the stream.
pub proof fn lemma_encode_then_decode(v: FrameView, rest: Seq<u8>)
    requires
        wf(v),
    ensures
        dec(enc(v) + rest, 0) == Scan::Done(v, enc(v).len() as int),
{
    let s = enc(v) + rest;
    assert(s.subrange(0, enc(v).len() as int) =~= enc(v));
    lemma_round_trip(v, s, 0);
}

/// Byte-at-a-time delivery in its plainest form: every proper prefix of a
/// well-formed frame's encoding scans as incomplete, never as success and
/// never as a protocol violation.
pub proof fn lemma_encoding_prefix_incomplete(v: FrameView, n: int)
    requires
        wf(v),
        0 <= n < enc(v).len(),
    ensures
        dec(enc(v).take(n), 0) is Short,
{
    let s = enc(v).take(n);
    assert forall|k: int| 0 <= k < s.len() - 0 implies s[0 + k] == #[trigger] enc(v)[k] by {}
    lemma_prefix_incomplete(v, s, 0);
}

/// A run of elements delivered only in part scans as `Short`.
proof fn lemma_prefix_incomplete_items(a: Seq<FrameView>, k: int, s: Seq<u8>, i: int)
    requires
        0 <= k <= a.len(),
        wf_items(a, k),
        0 <= i <= s.len(),
        s.len() - i < enc_items(a, k).len(),
        forall|m: int| 0 <= m < s.len() - i ==> s[i + m] == #[trigger] enc_items(a, k)[m],
    ensures
        dec_items(s, i, (a.len() - k) as nat) is Short,
    decreases a, a.len() - k,
{
    let avail = s.len() - i;
    let e0 = enc(a[k]);
    let tail = enc_items(a, k + 1);
    assert(enc_items(a, k) == e0 + tail);
    if avail < e0.len() {
        assert forall|m: int| 0 <= m < avail implies s[i + m] == #[trigger] e0[m] by {
            assert(s[i + m] == enc_items(a, k)[m]);
        }
        lemma_prefix_incomplete(a[k], s, i);
    } else {
        assert(s.subrange(i, i + e0.len()) =~= e0) by {
            assert forall|m: int| 0 <= m < e0.len() implies s.subrange(i, i + e0.len() as int)[m]
                == e0[m] by {
                assert(s[i + m] == enc_items(a, k)[m]);
                assert(enc_items(a, k)[m] == e0[m]);
            }
        }
        lemma_round_trip(a[k], s, i);
        lemma_enc_len(a[k]);
        let end1 = i + e0.len();
        assert forall|m: int| 0 <= m < s.len() - end1 implies s[end1 + m] == #[trigger] tail[m] by {
            assert(s[i + (e0.len() + m)] == enc_items(a, k)[e0.len() + m]);
            assert(enc_items(a, k)[e0.len() + m] == tail[m]);
        }
        lemma_prefix_incomplete_items(a, k + 1, s, end1);
    }
}

/// Appends all of `bs` to `out`.
fn push_bytes(out: &mut Vec<u8>, bs: &[u8])
    ensures
        final(out)@ == old(out)@ + bs@,
{
    let mut i: usize = 0;
    while i < bs.len()
        invariant
            i <= bs@.len(),
            out@ == old(out)@ + bs@.take(i as int),
        decreases bs@.len() - i,
    {
        let b = bs[i];
        out.push(b);
        proof {
            assert(old(out)@ + bs@.take(i + 1) =~= (old(out)@ + bs@.take(i as int)).push(b));
        }
        i = i + 1;
    }
    proof {
        assert(bs@.take(bs@.len() as int) =~= bs@);
    }
}

/// The decimal digit characters of `n`, most significant first.
fn u64_digits(n: u64) -> (v: Vec<u8>)
    ensures
        v@ == digits(n as nat),
    decreases n,
{
    if n < 10 {
        let mut v: Vec<u8> = Vec::new();
        v.push(48 + n as u8);
        proof {
            assert(v@ =~= digits(n as nat));
        }
        v
    } else {
        let mut v = u64_digits(n / 10);
        let d = 48 + (n % 10) as u8;
        v.push(d);
        proof {
            assert(digits((n / 10) as nat).push(d) =~= digits((n / 10) as nat) + seq![d]);
        }
        v
    }
}

impl Frame {
    /// Writes the exact byte encoding of this frame to the end of `buf` and
    /// returns how many bytes were written; encoding never fails.
    #[verifier::rlimit(30)]
    #[verifier::loop_isolation(false)]
    pub fn encode(&self, buf: &mut Vec<u8>) -> (n: usize)
        ensures
            final(buf)@ == old(buf)@ + enc(self@),
            n == enc(self@).len(),
        decreases self,
    {
        let start_len = buf.len();
        match self {
            Frame::Simple(s) => {
                buf.push(FLAG_SIMPLE);
                push_bytes(buf, s.as_str().as_bytes());
                buf.push(CR);
                buf.push(LF);
                proof {
                    assert(buf@ =~= old(buf)@ + (seq![FLAG_SIMPLE] + encode_utf8(s@) + crlf()));
                }
            },
            Frame::Error(s) => {
                buf.push(FLAG_ERROR);
                push_bytes(buf, s.as_str().as_bytes());
                buf.push(CR);
                buf.push(LF);
                proof {
                    assert(buf@ =~= old(buf)@ + (seq![FLAG_ERROR] + encode_utf8(s@) + crlf()));
                }
            },
            Frame::Integer(x) => {
                buf.push(FLAG_INTEGER);
                let ds = u64_digits(*x);
                push_bytes(buf, ds.as_slice());
                buf.push(CR);
                buf.push(LF);
                proof {
                    assert(buf@ =~= old(buf)@ + (seq![FLAG_INTEGER] + digits(*x as nat) + crlf()));
                }
            },
            Frame::Bulk(b) => {
                buf.push(FLAG_BULK);
                let ds = u64_digits(b.len() as u64);
                push_bytes(buf, ds.as_slice());
                buf.push(CR);
                buf.push(LF);
                push_bytes(buf, b.as_slice());
                buf.push(CR);
                buf.push(LF);
                proof {
                    assert(buf@ =~= old(buf)@ + (seq![FLAG_BULK] + digits(b@.len()) + crlf() + b@
                        + crlf()));
                }
            },
            Frame::Null => {
                buf.push(FLAG_BULK);
                buf.push(45);
                buf.push(49);
                buf.push(CR);
                buf.push(LF);
                proof {
                    assert(buf@ =~= old(buf)@ + seq![FLAG_BULK, 45u8, 49u8, CR, LF]);
                }
            },
            Frame::Array(items) => {
                let ghost va = frames_view(items, 0);
                buf.push(FLAG_ARRAY);
                let ds = u64_digits(items.len() as u64);
                push_bytes(buf, ds.as_slice());
                buf.push(CR);
                buf.push(LF);
                proof {
                    lemma_frames_view(items, 0);
                    assert forall|k: int| 0 <= k < items@.len() implies va[k] == #[trigger] items@[k]@ by {
                        assert(va[k] == items@[0 + k]@);
                    }
                    assert(buf@ + enc_items(va, 0) =~= old(buf)@ + (seq![FLAG_ARRAY] + digits(
                        va.len(),
                    ) + crlf() + enc_items(va, 0)));
                }
                let mut i: usize = 0;
                while i < items.len()
                    invariant
                        i <= items@.len(),
                        va == frames_view(items, 0),
                        va.len() == items@.len(),
                        forall|k: int| 0 <= k < items@.len() ==> va[k] == #[trigger] items@[k]@,
                        buf@ + enc_items(va, i as int) == old(buf)@ + enc(
                            FrameView::Array(frames_view(items, 0)),
                        ),
                    decreases items@.len() - i,
                {
                    let ghost buf_pre = buf@;
                    let elem = &items[i];
                    proof {
                        assert(decreases_to!(self => self->Array_0));
                        assert(self->Array_0 == *items);
                        assert(decreases_to!(items => items@));
                        assert(decreases_to!(items@ => items@[i as int]));
                        assert(*elem == items@[i as int]);
                        assert(decreases_to!(self => elem));
                    }
                    let _ = elem.encode(buf);
                    proof {
                        assert(items@[i as int]@ == va[i as int]);
                        assert(buf@ + enc_items(va, i + 1) =~= buf_pre + (enc(va[i as int])
                            + enc_items(va, i + 1)));
                    }
                    i = i + 1;
                }
                proof {
                    assert(buf@ + enc_items(va, items@.len() as int) =~= buf@);
                }
            },
        }
        let n = buf.len() - start_len;
        n
    }

    /// Scans whether a complete frame begins at the cursor, advancing the
    /// cursor past it on success; decides `Incomplete` against a hard
    /// protocol violation exactly as the specification scanner `dec` does.
    pub fn check(buf: &[u8], pos: &mut usize) -> (r: Result<(), Error>)
        requires
            *old(pos) <= buf@.len(),
        ensures
            match r {
                Ok(_) => {
                    &&& dec(buf@, *old(pos) as int) matches Scan::Done(_, end) && *final(pos)
                        == end
                    &&& *old(pos) < *final(pos) <= buf@.len()
                },
                Err(Error::Incomplete) => dec(buf@, *old(pos) as int) is Short,
                Err(Error::Other(_)) => dec(buf@, *old(pos) as int) is Bad,
            },
        decreases buf@.len() - *old(pos),
    {
        let ghost start = *pos as int;
        let flag = match get_u8(buf, pos) {
            Ok(b) => b,
            Err(e) => {
                return Err(e);
            },
        };
        if flag == FLAG_SIMPLE || flag == FLAG_ERROR {
            let line_start = *pos;
            let j = match get_line(buf, pos) {
                Ok(j) => j,
                Err(e) => {
                    return Err(e);
                },
            };
            let line = vstd::slice::slice_subrange(buf, line_start, j);
            if bytes_valid_utf8(line) {
                Ok(())
            } else {
                Err(Error::Other("protocol error; invalid text frame".to_owned()))
            }
        } else if flag == FLAG_INTEGER {
            let line_start = *pos;
            let j = match get_line(buf, pos) {
                Ok(j) => j,
                Err(e) => {
                    return Err(e);
                },
            };
            match parse_decimal(buf, line_start, j) {
                Some(_) => Ok(()),
                None => Err(Error::Other("protocol error; invalid frame format".to_owned())),
            }
        } else if flag == FLAG_BULK {
            let b = match peek_u8(buf, pos) {
                Ok(b) => b,
                Err(e) => {
                    return Err(e);
                },
            };
            if b == FLAG_NULL {
                Self::check_null_line(buf, pos)
            } else {
                let line_start = *pos;
                let j = match get_line(buf, pos) {
                    Ok(j) => j,
                    Err(e) => {
                        return Err(e);
                    },
                };
                let n = match parse_decimal(buf, line_start, j) {
                    Some(n) => n,
                    None => {
                        return Err(
                            Error::Other("protocol error; invalid frame format".to_owned()),
                        );
                    },
                };
                let rem = (buf.len() - *pos) as u64;
                if rem < 2 || n > rem - 2 {
                    return Err(Error::Incomplete);
                }
                let payload = n as usize;
                match skip(buf, pos, payload + 2) {
                    Ok(_) => Ok(()),
                    Err(e) => Err(e),
                }
            }
        } else if flag == FLAG_ARRAY {
            let b = match peek_u8(buf, pos) {
                Ok(b) => b,
                Err(e) => {
                    return Err(e);
                },
            };
            if b == FLAG_NULL {
                Self::check_null_line(buf, pos)
            } else {
                let line_start = *pos;
                let j = match get_line(buf, pos) {
                    Ok(j) => j,
                    Err(e) => {
                        return Err(e);
                    },
                };
                let n = match parse_decimal(buf, line_start, j) {
                    Some(n) => n,
                    None => {
                        return Err(
                            Error::Other("protocol error; invalid frame format".to_owned()),
                        );
                    },
                };
                let ghost p0 = *pos as int;
                let mut rem: u64 = n;
                loop
                    invariant
                        rem <= n,
                        *old(pos) < *pos <= buf@.len(),
                        start == *old(pos),
                        dec(buf@, start) matches Scan::Short <==> dec_items(
                            buf@,
                            p0,
                            n as nat,
                        ) is Short,
                        dec(buf@, start) matches Scan::Bad <==> dec_items(
                            buf@,
                            p0,
                            n as nat,
                        ) is Bad,
                        forall|its: Seq<FrameView>, e: int|
                            dec_items(buf@, p0, n as nat) == ScanItems::Done(its, e) ==> dec(
                                buf@,
                                start,
                            ) == Scan::Done(FrameView::Array(its), e),
                        match dec_items(buf@, p0, n as nat) {
                            ScanItems::Done(_, e) => dec_items(buf@, *pos as int, rem as nat)
                                matches ScanItems::Done(_, e2) && e2 == e,
                            ScanItems::Short => dec_items(buf@, *pos as int, rem as nat) is Short,
                            ScanItems::Bad => dec_items(buf@, *pos as int, rem as nat) is Bad,
                        },
                    decreases rem,
                {
                    if rem == 0 {
                        return Ok(());
                    }
                    match Self::check(buf, pos) {
                        Ok(_) => (),
                        Err(e) => {
                            return Err(e);
                        },
                    }
                    rem = rem - 1;
                }
            }
        } else {
            Err(Error::Other("protocol error; invalid frame type byte".to_owned()))
        }
    }

    /// Parses the complete frame beginning at the cursor into a `Frame`
    /// tree, advancing the cursor past it; agrees with the specification
    /// scanner `dec` on the result, the bytes consumed, and the
    /// `Incomplete` / protocol-violation distinction.
    pub fn decode(buf: &[u8], pos: &mut usize) -> (r: Result<Frame, Error>)
        requires
            *old(pos) <= buf@.len(),
        ensures
            match r {
                Ok(f) => {
                    &&& dec(buf@, *old(pos) as int) == Scan::Done(f@, *final(pos) as int)
                    &&& *old(pos) < *final(pos) <= buf@.len()
                },
                Err(Error::Incomplete) => dec(buf@, *old(pos) as int) is Short,
                Err(Error::Other(_)) => dec(buf@, *old(pos) as int) is Bad,
            },
        decreases buf@.len() - *old(pos),
    {
        let ghost start = *pos as int;
        let flag = match get_u8(buf, pos) {
            Ok(b) => b,
            Err(e) => {
                return Err(e);
            },
        };
        if flag == FLAG_SIMPLE || flag == FLAG_ERROR {
            let line_start = *pos;
            let j = match get_line(buf, pos) {
                Ok(j) => j,
                Err(e) => {
                    return Err(e);
                },
            };
            let line = copy_range(buf, line_start, j);
            match string_from_utf8(line) {
                Some(text) => {
                    if flag == FLAG_SIMPLE {
                        Ok(Frame::Simple(text))
                    } else {
                        Ok(Frame::Error(text))
                    }
                },
                None => Err(Error::Other("protocol error; invalid text frame".to_owned())),
            }
        } else if flag == FLAG_INTEGER {
            let line_start = *pos;
            let j = match get_line(buf, pos) {
                Ok(j) => j,
                Err(e) => {
                    return Err(e);
                },
            };
            match parse_decimal(buf, line_start, j) {
                Some(n) => Ok(Frame::Integer(n)),
                None => Err(Error::Other("protocol error; invalid frame format".to_owned())),
            }
        } else if flag == FLAG_BULK {
            let b = match peek_u8(buf, pos) {
                Ok(b) => b,
                Err(e) => {
                    return Err(e);
                },
            };
            if b == FLAG_NULL {
                match Self::check_null_line(buf, pos) {
                    Ok(_) => Ok(Frame::Null),
                    Err(e) => Err(e),
                }
            } else {
                let line_start = *pos;
                let j = match get_line(buf, pos) {
                    Ok(j) => j,
                    Err(e) => {
                        return Err(e);
                    },
                };
                let n = match parse_decimal(buf, line_start, j) {
                    Some(n) => n,
                    None => {
                        return Err(
                            Error::Other("protocol error; invalid frame format".to_owned()),
                        );
                    },
                };
                let rem = (buf.len() - *pos) as u64;
                if rem < 2 || n > rem - 2 {
                    return Err(Error::Incomplete);
                }
                let payload = n as usize;
                let data = copy_range(buf, *pos, *pos + payload);
                match skip(buf, pos, payload + 2) {
                    Ok(_) => Ok(Frame::Bulk(data)),
                    Err(e) => Err(e),
                }
            }
        } else if flag == FLAG_ARRAY {
            let b = match peek_u8(buf, pos) {
                Ok(b) => b,
                Err(e) => {
                    return Err(e);
                },
            };
            if b == FLAG_NULL {
                match Self::check_null_line(buf, pos) {
                    Ok(_) => Ok(Frame::Null),
                    Err(e) => Err(e),
                }
            } else {
                let line_start = *pos;
                let j = match get_line(buf, pos) {
                    Ok(j) => j,
                    Err(e) => {
                        return Err(e);
                    },
                };
                let n = match parse_decimal(buf, line_start, j) {
                    Some(n) => n,
                    None => {
                        return Err(
                            Error::Other("protocol error; invalid frame format".to_owned()),
                        );
                    },
                };
                let ghost p0 = *pos as int;
                let mut out: Vec<Frame> = Vec::new();
                let mut rem: u64 = n;
                loop
                    invariant
                        rem <= n,
                        *old(pos) < *pos <= buf@.len(),
                        start == *old(pos),
                        dec(buf@, start) matches Scan::Short <==> dec_items(
                            buf@,
                            p0,
                            n as nat,
                        ) is Short,
                        dec(buf@, start) matches Scan::Bad <==> dec_items(
                            buf@,
                            p0,
                            n as nat,
                        ) is Bad,
                        forall|its: Seq<FrameView>, e: int|
                            dec_items(buf@, p0, n as nat) == ScanItems::Done(its, e) ==> dec(
                                buf@,
                                start,
                            ) == Scan::Done(FrameView::Array(its), e),
                        match dec_items(buf@, p0, n as nat) {
                            ScanItems::Done(its, e) => dec_items(buf@, *pos as int, rem as nat)
                                matches ScanItems::Done(its2, e2) && e2 == e && its == frames_view(
                                &out,
                                0,
                            ) + its2,
                            ScanItems::Short => dec_items(buf@, *pos as int, rem as nat) is Short,
                            ScanItems::Bad => dec_items(buf@, *pos as int, rem as nat) is Bad,
                        },
                    decreases rem,
                {
                    if rem == 0 {
                        proof {
                            lemma_frames_view(&out, 0);
                            assert(frames_view(&out, 0) + Seq::<FrameView>::empty() =~= frames_view(
                                &out,
                                0,
                            ));
                        }
                        return Ok(Frame::Array(out));
                    }
                    let ghost cur = *pos as int;
                    let ghost old_out = out;
                    let f = match Self::decode(buf, pos) {
                        Ok(f) => f,
                        Err(e) => {
                            return Err(e);
                        },
                    };
                    let ghost fv = f@;
                    out.push(f);
                    proof {
                        lemma_frames_view(&old_out, 0);
                        lemma_frames_view(&out, 0);
                        let pre = frames_view(&old_out, 0);
                        let post = frames_view(&out, 0);
                        assert forall|i: int| 0 <= i < post.len() implies post[i] == (pre
                            + seq![fv])[i] by {
                            assert(post[i] == out@[0 + i]@);
                            if i < pre.len() {
                                assert(pre[i] == old_out@[0 + i]@);
                            }
                        }
                        assert(frames_view(&out, 0) =~= frames_view(&old_out, 0) + seq![fv]);
                        if let ScanItems::Done(its, e) = dec_items(buf@, p0, n as nat) {
                            if let ScanItems::Done(its2, e2) = dec_items(buf@, cur, rem as nat) {
                                assert(its2 =~= seq![fv] + dec_items(
                                    buf@,
                                    *pos as int,
                                    (rem - 1) as nat,
                                )->Done_0);
                                assert(its =~= frames_view(&out, 0) + dec_items(
                                    buf@,
                                    *pos as int,
                                    (rem - 1) as nat,
                                )->Done_0);
                            }
                        }
                    }
                    rem = rem - 1;
                }
            }
        } else {
            Err(Error::Other("protocol error; invalid frame type byte".to_owned()))
        }
    }

    /// Returns an empty array frame.
    pub fn new_array_frame() -> (f: Frame)
        ensures
            f@ == FrameView::Array(Seq::<FrameView>::empty()),
    {
        Frame::Array(Vec::new())
    }

    /// Appends a bulk frame to this array frame's elements.
    pub fn push_bulk(&mut self, bytes: Vec<u8>)
        requires
            old(self)@ is Array,
        ensures
            final(self)@ == FrameView::Array(
                old(self)@->Array_0.push(FrameView::Bulk(bytes@)),
            ),
    {
        let ghost bv = bytes@;
        if let Frame::Array(items) = self {
            let ghost pre = *items;
            items.push(Frame::Bulk(bytes));
            proof {
                lemma_frames_view(&pre, 0);
                lemma_frames_view(items, 0);
                assert forall|i: int| 0 <= i < frames_view(items, 0).len() implies frames_view(
                    items,
                    0,
                )[i] == frames_view(&pre, 0).push(FrameView::Bulk(bv))[i] by {
                    assert(frames_view(items, 0)[i] == items@[0 + i]@);
                    if i < pre@.len() {
                        assert(frames_view(&pre, 0)[i] == pre@[0 + i]@);
                    }
                }
                assert(frames_view(items, 0) =~= frames_view(&pre, 0).push(FrameView::Bulk(bv)));
            }
        }
    }

    /// Appends an integer frame to this array frame's elements.
    pub fn push_int(&mut self, value: u64)
        requires
            old(self)@ is Array,
        ensures
            final(self)@ == FrameView::Array(
                old(self)@->Array_0.push(FrameView::Integer(value)),
            ),
    {
        if let Frame::Array(items) = self {
            let ghost pre = *items;
            items.push(Frame::Integer(value));
            proof {
                lemma_frames_view(&pre, 0);
                lemma_frames_view(items, 0);
                assert forall|i: int| 0 <= i < frames_view(items, 0).len() implies frames_view(
                    items,
                    0,
                )[i] == frames_view(&pre, 0).push(FrameView::Integer(value))[i] by {
                    assert(frames_view(items, 0)[i] == items@[0 + i]@);
                    if i < pre@.len() {
                        assert(frames_view(&pre, 0)[i] == pre@[0 + i]@);
                    }
                }
                assert(frames_view(items, 0) =~= frames_view(&pre, 0).push(
                    FrameView::Integer(value),
                ));
            }
        }
    }

    /// Turns an array frame into a forward-only cursor over its elements.
    pub fn into_iterator(self) -> (it: Parse)
        requires
            self@ is Array,
        ensures
            it@ == self@->Array_0,
    {
        match self {
            Frame::Array(items) => Parse { items },
            _ => {
                // excluded by the caller's obligation that self is an array
                proof {
                    assert(false);
                }
                Parse { items: Vec::new() }
            },
        }
    }

    /// Consumes a `-1` line standing for a Null frame, as the scanner does.
    fn check_null_line(buf: &[u8], pos: &mut usize) -> (r: Result<(), Error>)
        requires
            1 <= *old(pos) < buf@.len(),
            buf@[*old(pos) as int] == FLAG_NULL,
            buf@[*old(pos) as int - 1] == FLAG_BULK || buf@[*old(pos) as int - 1] == FLAG_ARRAY,
        ensures
            match r {
                Ok(_) => {
                    &&& dec(buf@, *old(pos) as int - 1) matches Scan::Done(_, end) && *final(pos)
                        == end
                    &&& *old(pos) - 1 < *final(pos) <= buf@.len()
                },
                Err(Error::Incomplete) => dec(buf@, *old(pos) as int - 1) is Short,
                Err(Error::Other(_)) => dec(buf@, *old(pos) as int - 1) is Bad,
            },
    {
        let line_start = *pos;
        let j = match get_line(buf, pos) {
            Ok(j) => j,
            Err(e) => {
                return Err(e);
            },
        };
        let ghost s = buf@;
        let ghost line = s.subrange(line_start as int, j as int);
        if j - line_start == 2 && buf[line_start] == 45 && buf[line_start + 1] == 49 {
            proof {
                assert(line =~= seq![45u8, 49u8]);
            }
            Ok(())
        } else {
            proof {
                if line == seq![45u8, 49u8] {
                    assert(j - line_start == 2);
                    assert(s[line_start as int] == 45);
                    assert(s[line_start as int + 1] == 49);
                }
            }
            Err(Error::Other("protocol error; invalid null frame".to_owned()))
        }
    }
}


/// A sequential, forward-only reader over a decoded array frame's
/// elements, used to extract typed command arguments.
pub struct Parse {
    items: Vec<Frame>,
}

impl View for Parse {
    type V = Seq<FrameView>;

    closed spec fn view(&self) -> Seq<FrameView> {
        frames_view(&self.items, 0)
    }
}

impl Parse {
    /// Takes the next element off the cursor, whatever it is.
    fn next_frame(&mut self) -> (r: Result<Frame, ParseError>)
        ensures
            match r {
                Ok(f) => {
                    &&& old(self)@.len() > 0
                    &&& f@ == old(self)@[0]
                    &&& final(self)@ == old(self)@.drop_first()
                },
                Err(e) => {
                    &&& e == ParseError::Exhausted
                    &&& old(self)@.len() == 0
                    &&& final(self)@ == old(self)@
                },
            },
    {
        proof {
            lemma_frames_view(&self.items, 0);
        }
        if self.items.is_empty() {
            return Err(ParseError::Exhausted);
        }
        let ghost pre = self.items;
        let f = self.items.remove(0);
        proof {
            lemma_frames_view(&pre, 0);
            lemma_frames_view(&self.items, 0);
            assert(f@ == pre@[0int + 0]@);
            assert forall|i: int|
                0 <= i < frames_view(&self.items, 0).len() implies frames_view(&self.items, 0)[i]
                == frames_view(&pre, 0).drop_first()[i] by {
                assert(frames_view(&self.items, 0)[i] == self.items@[0 + i]@);
                assert(frames_view(&pre, 0)[i + 1] == pre@[0 + (i + 1)]@);
            }
            assert(frames_view(&self.items, 0) =~= frames_view(&pre, 0).drop_first());
        }
        Ok(f)
    }

    /// Extracts the next element as text: a bulk frame's bytes read as
    /// UTF-8, or a simple frame's text as it stands.
    pub fn next_string(&mut self) -> (r: Result<String, ParseError>)
        ensures
            match r {
                Ok(text) => {
                    &&& old(self)@.len() > 0
                    &&& final(self)@ == old(self)@.drop_first()
                    &&& match old(self)@[0] {
                        FrameView::Bulk(b) => valid_utf8(b) && text@ == decode_utf8(b),
                        FrameView::Simple(t) => text@ == t,
                        _ => false,
                    }
                },
                Err(ParseError::Exhausted) => old(self)@.len() == 0 && final(self)@ == old(self)@,
                Err(ParseError::WrongKind) => {
                    &&& old(self)@.len() > 0
                    &&& !(old(self)@[0] is Bulk || old(self)@[0] is Simple)
                    &&& final(self)@ == old(self)@.drop_first()
                },
                Err(ParseError::BadText) => {
                    &&& old(self)@.len() > 0
                    &&& old(self)@[0] matches FrameView::Bulk(b) && !valid_utf8(b)
                    &&& final(self)@ == old(self)@.drop_first()
                },
            },
    {
        let f = match self.next_frame() {
            Ok(f) => f,
            Err(e) => {
                return Err(e);
            },
        };
        match f {
            Frame::Bulk(bs) => match string_from_utf8(bs) {
                Some(text) => Ok(text),
                None => Err(ParseError::BadText),
            },
            Frame::Simple(text) => Ok(text),
            _ => Err(ParseError::WrongKind),
        }
    }

    /// Extracts the next element as raw bytes; only a bulk frame qualifies.
    pub fn next_bytes(&mut self) -> (r: Result<Vec<u8>, ParseError>)
        ensures
            match r {
                Ok(bs) => {
                    &&& old(self)@.len() > 0
                    &&& final(self)@ == old(self)@.drop_first()
                    &&& old(self)@[0] == FrameView::Bulk(bs@)
                },
                Err(ParseError::Exhausted) => old(self)@.len() == 0 && final(self)@ == old(self)@,
                Err(ParseError::WrongKind) => {
                    &&& old(self)@.len() > 0
                    &&& !(old(self)@[0] is Bulk)
                    &&& final(self)@ == old(self)@.drop_first()
                },
                Err(ParseError::BadText) => false,
            },
    {
        let f = match self.next_frame() {
            Ok(f) => f,
            Err(e) => {
                return Err(e);
            },
        };
        match f {
            Frame::Bulk(bs) => Ok(bs),
            _ => Err(ParseError::WrongKind),
        }
    }

    /// Extracts the next element as an unsigned 64-bit integer; only an
    /// integer frame qualifies.
    pub fn next_int(&mut self) -> (r: Result<u64, ParseError>)
        ensures
            match r {
                Ok(n) => {
                    &&& old(self)@.len() > 0
                    &&& final(self)@ == old(self)@.drop_first()
                    &&& old(self)@[0] == FrameView::Integer(n)
                },
                Err(ParseError::Exhausted) => old(self)@.len() == 0 && final(self)@ == old(self)@,
                Err(ParseError::WrongKind) => {
                    &&& old(self)@.len() > 0
                    &&& !(old(self)@[0] is Integer)
                    &&& final(self)@ == old(self)@.drop_first()
                },
                Err(ParseError::BadText) => false,
            },
    {
        let f = match self.next_frame() {
            Ok(f) => f,
            Err(e) => {
                return Err(e);
            },
        };
        match f {
            Frame::Integer(n) => Ok(n),
            _ => Err(ParseError::WrongKind),
        }
    }
}

} // verus!
