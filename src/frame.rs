//! Frames of the wire protocol: data model, encoding and decoding.
use bytes::Bytes;
use vstd::prelude::*;
use vstd::utf8::*;

verus! {

#[verifier::external_type_specification]
#[verifier::external_body]
pub struct ExBytes(Bytes);

/// The bytes that a `Bytes` holds.
pub uninterp spec fn bytes_contents(b: Bytes) -> Seq<u8>;

/// Relies on `From<Vec<u8>> for Bytes`: the result holds the vector's bytes.
#[verifier::external_body]
pub(crate) fn bytes_from_vec(v: Vec<u8>) -> (r: Bytes)
    ensures
        bytes_contents(r) == v@,
{
    Bytes::from(v)
}

/// Relies on `Bytes`'s `Deref` to `[u8]`: the slice is the bytes it holds.
#[verifier::external_body]
pub(crate) fn bytes_slice(b: &Bytes) -> (r: &[u8])
    ensures
        r@ == bytes_contents(*b),
{
    &b[..]
}

/// Relies on `Bytes::clone`: a new handle to the same bytes.
pub assume_specification[ <Bytes as Clone>::clone ](b: &Bytes) -> (r: Bytes)
    ensures
        bytes_contents(r) == bytes_contents(*b),
;

/// One self-delimited unit of the wire protocol.
#[derive(Debug, PartialEq, Eq)]
pub enum Frame {
    Simple(String),
    Error(String),
    Integer(u64),
    Null,
    Bulk(Bytes),
    /// A sequence of frames. The codec does not support arrays: it refuses
    /// to encode one and reports a received one as unsupported.
    Array(Vec<Frame>),
}

/// What a frame holds, as mathematical values.
pub enum FrameView {
    Simple(Seq<char>),
    Error(Seq<char>),
    Integer(u64),
    Null,
    Bulk(Seq<u8>),
    /// An array; its items are outside what the codec handles.
    Array,
}

impl View for Frame {
    type V = FrameView;

    open spec fn view(&self) -> FrameView {
        match self {
            Frame::Simple(s) => FrameView::Simple(s@),
            Frame::Error(s) => FrameView::Error(s@),
            Frame::Integer(n) => FrameView::Integer(*n),
            Frame::Null => FrameView::Null,
            Frame::Bulk(b) => FrameView::Bulk(bytes_contents(*b)),
            Frame::Array(_) => FrameView::Array,
        }
    }
}

/// Why a frame could not be decoded or encoded, or why a connection ended.
#[derive(Debug, Clone, Copy, PartialEq, Eq, Structural)]
pub enum FrameError {
    /// Not enough bytes are buffered yet to decode a frame.
    Incomplete,
    /// A malformed frame: a bad length, a bad digit, a bad terminator,
    /// text that is not UTF-8, or a line break inside a line payload.
    InvalidFormat,
    /// The leading byte names no frame type.
    InvalidType,
    /// Arrays are not supported.
    Unsupported,
    /// The peer closed the stream in the middle of a frame.
    ConnectionReset,
}

impl FrameError {
    /// Whether the error is a protocol violation by the peer.
    pub fn is_protocol(&self) -> (r: bool)
        ensures
            r == (*self == FrameError::InvalidFormat || *self == FrameError::InvalidType
                || *self == FrameError::Unsupported),
    {
        match self {
            FrameError::InvalidFormat | FrameError::InvalidType | FrameError::Unsupported => true,
            _ => false,
        }
    }
}

pub const CR: u8 = 13;
pub const LF: u8 = 10;

pub open spec fn crlf() -> Seq<u8> {
    seq![CR, LF]
}

pub open spec fn is_digit(b: u8) -> bool {
    48 <= b <= 57
}

pub open spec fn all_digits(t: Seq<u8>) -> bool {
    forall|i: int| 0 <= i < t.len() ==> is_digit(#[trigger] t[i])
}

/// The value of a string of decimal digits.
pub open spec fn digits_value(t: Seq<u8>) -> nat
    decreases t.len(),
{
    if t.len() == 0 {
        0
    } else {
        (digits_value(t.drop_last()) * 10 + (t.last() - 48)) as nat
    }
}

/// The shortest decimal writing of `n`.
pub open spec fn decimal(n: nat) -> Seq<u8>
    decreases n,
{
    if n < 10 {
        seq![(48 + n) as u8]
    } else {
        decimal(n / 10).push((48 + n % 10) as u8)
    }
}

/// Bytes without CR or LF.
pub open spec fn no_line_break(b: Seq<u8>) -> bool {
    forall|i: int| 0 <= i < b.len() ==> #[trigger] b[i] != CR && b[i] != LF
}

/// The frames that have an encoding.
pub open spec fn encodable(f: FrameView) -> bool {
    match f {
        FrameView::Simple(s) => no_line_break(encode_utf8(s)),
        FrameView::Error(s) => no_line_break(encode_utf8(s)),
        FrameView::Bulk(b) => b.len() <= u64::MAX,
        FrameView::Array => false,
        _ => true,
    }
}

/// The wire form of a frame.
pub open spec fn encoding(f: FrameView) -> Seq<u8> {
    match f {
        FrameView::Simple(s) => seq![43u8] + encode_utf8(s) + crlf(),
        FrameView::Error(s) => seq![45u8] + encode_utf8(s) + crlf(),
        FrameView::Integer(n) => seq![58u8] + decimal(n as nat) + crlf(),
        FrameView::Null => seq![36u8, 45u8, 49u8, CR, LF],
        FrameView::Bulk(b) => seq![36u8] + decimal(b.len()) + crlf() + b + crlf(),
        FrameView::Array => Seq::empty(),
    }
}

/// The error that encoding reports for a frame without an encoding.
pub open spec fn encode_error(f: FrameView) -> FrameError {
    match f {
        FrameView::Array => FrameError::Unsupported,
        _ => FrameError::InvalidFormat,
    }
}

proof fn lemma_decimal(n: nat)
    ensures
        decimal(n).len() >= 1,
        all_digits(decimal(n)),
        no_line_break(decimal(n)),
        digits_value(decimal(n)) == n,
    decreases n,
{
    let d = decimal(n);
    if n >= 10 {
        lemma_decimal(n / 10);
        assert(d.drop_last() =~= decimal(n / 10));
        assert(n % 10 < 10);
        assert(d.last() - 48 == n % 10);
        assert((n / 10) * 10 + n % 10 == n);
        assert(digits_value(d) == digits_value(d.drop_last()) * 10 + (d.last() - 48));
        assert(all_digits(d)) by {
            assert forall|i: int| 0 <= i < d.len() implies is_digit(#[trigger] d[i]) by {
                if i < d.len() - 1 {
                    assert(d[i] == decimal(n / 10)[i]);
                }
            }
        }
    } else {
        assert(d.drop_last() =~= Seq::<u8>::empty());
        assert(digits_value(d.drop_last()) == 0);
        assert(d.last() - 48 == n);
    }
}

fn push_decimal(out: &mut Vec<u8>, n: u64)
    ensures
        final(out)@ == old(out)@ + decimal(n as nat),
    decreases n,
{
    if n >= 10 {
        push_decimal(out, n / 10);
    }
    out.push((48 + n % 10) as u8);
    proof {
        if n >= 10 {
            assert(final(out)@ =~= old(out)@ + decimal(n as nat));
        } else {
            assert(final(out)@ =~= old(out)@ + decimal(n as nat));
        }
    }
}

/// Appends the decimal writing of `val` and a CR LF.
pub fn write_decimal(out: &mut Vec<u8>, val: u64)
    ensures
        final(out)@ == old(out)@ + decimal(val as nat) + crlf(),
{
    push_decimal(out, val);
    out.push(CR);
    out.push(LF);
    assert(final(out)@ =~= old(out)@ + decimal(val as nat) + crlf());
}

fn push_bytes(out: &mut Vec<u8>, b: &[u8])
    ensures
        final(out)@ == old(out)@ + b@,
{
    let mut i: usize = 0;
    while i < b.len()
        invariant
            i <= b@.len(),
            out@ == old(out)@ + b@.subrange(0, i as int),
        decreases b@.len() - i,
    {
        out.push(b[i]);
        i = i + 1;
        assert(out@ =~= old(out)@ + b@.subrange(0, i as int));
    }
    assert(b@.subrange(0, i as int) =~= b@);
}

fn push_line(out: &mut Vec<u8>, tag: u8, text: &String) -> (r: bool)
    ensures
        r == no_line_break(encode_utf8(text@)),
        r ==> final(out)@ == old(out)@ + (seq![tag] + encode_utf8(text@) + crlf()),
{
    let b = text.as_str().as_bytes();
    let mut i: usize = 0;
    while i < b.len()
        invariant
            i <= b@.len(),
            b@ == encode_utf8(text@),
            forall|j: int| 0 <= j < i ==> #[trigger] b@[j] != CR && b@[j] != LF,
        decreases b@.len() - i,
    {
        if b[i] == CR || b[i] == LF {
            return false;
        }
        i = i + 1;
    }
    out.push(tag);
    push_bytes(out, b);
    out.push(CR);
    out.push(LF);
    assert(final(out)@ =~= old(out)@ + (seq![tag] + encode_utf8(text@) + crlf()));
    true
}

/// Serialises a frame to its wire form. Arrays are refused as unsupported,
/// and a Simple or Error text holding CR or LF as malformed.
pub fn encode(frame: &Frame) -> (r: Result<Vec<u8>, FrameError>)
    ensures
        match r {
            Ok(b) => encodable(frame@) && b@ == encoding(frame@),
            Err(e) => !encodable(frame@) && e == encode_error(frame@),
        },
{
    let mut out: Vec<u8> = Vec::new();
    match frame {
        Frame::Simple(s) => {
            if !push_line(&mut out, 43, s) {
                return Err(FrameError::InvalidFormat);
            }
        },
        Frame::Error(s) => {
            if !push_line(&mut out, 45, s) {
                return Err(FrameError::InvalidFormat);
            }
        },
        Frame::Integer(n) => {
            out.push(58);
            write_decimal(&mut out, *n);
        },
        Frame::Null => {
            out.push(36);
            out.push(45);
            out.push(49);
            out.push(CR);
            out.push(LF);
        },
        Frame::Bulk(b) => {
            let payload = bytes_slice(b);
            out.push(36);
            write_decimal(&mut out, payload.len() as u64);
            push_bytes(&mut out, payload);
            out.push(CR);
            out.push(LF);
        },
        Frame::Array(_) => {
            return Err(FrameError::Unsupported);
        },
    }
    assert(out@ =~= encoding(frame@));
    Ok(out)
}

/// CR LF starts at index `i`.
pub open spec fn crlf_at(s: Seq<u8>, i: int) -> bool {
    0 <= i && i + 1 < s.len() && s[i] == CR && s[i + 1] == LF
}

/// The index of the first CR LF at or after `i`.
pub open spec fn line_end(s: Seq<u8>, i: int) -> Option<int>
    decreases s.len() - i,
{
    if i < 0 || i + 1 >= s.len() {
        None
    } else if crlf_at(s, i) {
        Some(i)
    } else {
        line_end(s, i + 1)
    }
}

/// A decimal line starting at `i`: its value and the index after its CR LF.
pub open spec fn decimal_line(s: Seq<u8>, i: int) -> Result<(u64, int), FrameError> {
    match line_end(s, i) {
        None => Err(FrameError::Incomplete),
        Some(e) => {
            let t = s.subrange(i, e);
            if t.len() > 0 && all_digits(t) && digits_value(t) <= u64::MAX {
                Ok((digits_value(t) as u64, e + 2))
            } else {
                Err(FrameError::InvalidFormat)
            }
        },
    }
}

/// How many bytes the frame at the start of `s` takes, or why there is none.
pub open spec fn check_spec(s: Seq<u8>) -> Result<int, FrameError> {
    if s.len() == 0 {
        Err(FrameError::Incomplete)
    } else if s[0] == 43 || s[0] == 45 {
        match line_end(s, 1) {
            Some(e) => Ok(e + 2),
            None => Err(FrameError::Incomplete),
        }
    } else if s[0] == 58 {
        match decimal_line(s, 1) {
            Ok((v, n)) => Ok(n),
            Err(e) => Err(e),
        }
    } else if s[0] == 36 {
        if s.len() < 2 {
            Err(FrameError::Incomplete)
        } else if s[1] == 45 {
            match line_end(s, 1) {
                None => Err(FrameError::Incomplete),
                Some(e) => if s.subrange(1, e) == seq![45u8, 49u8] {
                    Ok(e + 2)
                } else {
                    Err(FrameError::InvalidFormat)
                },
            }
        } else {
            match decimal_line(s, 1) {
                Err(e) => Err(e),
                Ok((n, p)) => if p + n + 2 > s.len() {
                    Err(FrameError::Incomplete)
                } else if crlf_at(s, p + n) {
                    Ok(p + n + 2)
                } else {
                    Err(FrameError::InvalidFormat)
                },
            }
        }
    } else if s[0] == 42 {
        Err(FrameError::Unsupported)
    } else {
        Err(FrameError::InvalidType)
    }
}

/// The frame at the start of `s` and the bytes it takes, or why there is none.
pub open spec fn decode_spec(s: Seq<u8>) -> Result<(FrameView, int), FrameError> {
    match check_spec(s) {
        Err(e) => Err(e),
        Ok(n) => if s[0] == 43 || s[0] == 45 {
            let text = s.subrange(1, n - 2);
            if !valid_utf8(text) {
                Err(FrameError::InvalidFormat)
            } else if s[0] == 43 {
                Ok((FrameView::Simple(decode_utf8(text)), n))
            } else {
                Ok((FrameView::Error(decode_utf8(text)), n))
            }
        } else if s[0] == 58 {
            Ok((FrameView::Integer(decimal_line(s, 1)->Ok_0.0), n))
        } else if s[1] == 45 {
            Ok((FrameView::Null, n))
        } else {
            let p = decimal_line(s, 1)->Ok_0.1;
            Ok((FrameView::Bulk(s.subrange(p, n - 2)), n))
        },
    }
}

proof fn lemma_line_end(s: Seq<u8>, i: int)
    requires
        0 <= i,
    ensures
        match line_end(s, i) {
            Some(e) => i <= e && crlf_at(s, e) && forall|j: int| i <= j < e ==> !crlf_at(s, j),
            None => forall|j: int| i <= j ==> !crlf_at(s, j),
        },
    decreases s.len() - i,
{
    if !(i < 0 || i + 1 >= s.len()) && !crlf_at(s, i) {
        lemma_line_end(s, i + 1);
    }
}

fn find_line_end(buf: &[u8], start: usize) -> (r: Option<usize>)
    ensures
        match r {
            Some(e) => line_end(buf@, start as int) == Some(e as int) && start <= e && e + 1
                < buf@.len(),
            None => line_end(buf@, start as int) is None,
        },
{
    proof {
        lemma_line_end(buf@, start as int);
    }
    let mut i = start;
    while buf.len() > 1 && i < buf.len() - 1
        invariant
            start <= i,
            line_end(buf@, start as int) == line_end(buf@, i as int),
        decreases buf@.len() - i,
    {
        if buf[i] == CR && buf[i + 1] == LF {
            return Some(i);
        }
        i = i + 1;
    }
    None
}

proof fn lemma_digits_prefix(t: Seq<u8>, i: int)
    requires
        0 <= i <= t.len(),
        all_digits(t),
    ensures
        digits_value(t.subrange(0, i)) <= digits_value(t),
    decreases t.len() - i,
{
    if i < t.len() {
        lemma_digits_prefix(t, i + 1);
        let u = t.subrange(0, i + 1);
        assert(u.drop_last() =~= t.subrange(0, i));
        assert(is_digit(u.last()));
        assert(digits_value(u) == digits_value(u.drop_last()) * 10 + (u.last() - 48));
    } else {
        assert(t.subrange(0, i) =~= t);
    }
}

/// Reads the decimal line starting at `start`.
fn read_decimal_line(buf: &[u8], start: usize) -> (r: Result<(u64, usize), FrameError>)
    ensures
        match decimal_line(buf@, start as int) {
            Ok((v, n)) => r is Ok && r->Ok_0.0 == v && r->Ok_0.1 == n,
            Err(e) => r == Err::<(u64, usize), FrameError>(e),
        },
        r is Ok ==> r->Ok_0.1 <= buf@.len(),
{
    let e = match find_line_end(buf, start) {
        None => return Err(FrameError::Incomplete),
        Some(e) => e,
    };
    let ghost t = buf@.subrange(start as int, e as int);
    if e == start {
        return Err(FrameError::InvalidFormat);
    }
    let mut acc: u64 = 0;
    let mut i = start;
    while i < e
        invariant
            start <= i <= e,
            e + 1 < buf@.len(),
            line_end(buf@, start as int) == Some(e as int),
            t == buf@.subrange(start as int, e as int),
            all_digits(t.subrange(0, i - start)),
            acc as nat == digits_value(t.subrange(0, i - start)),
        decreases e - i,
    {
        let b = buf[i];
        let ghost u = t.subrange(0, i + 1 - start);
        assert(t[i - start] == b);
        if b < 48 || b > 57 {
            assert(!is_digit(t[i - start]));
            assert(!all_digits(t));
            return Err(FrameError::InvalidFormat);
        }
        assert(u.last() == b);
        assert(u.drop_last() =~= t.subrange(0, i - start));
        assert(digits_value(u) == digits_value(u.drop_last()) * 10 + (u.last() - 48));
        match acc.checked_mul(10) {
            None => {
                proof {
                    if all_digits(t) {
                            lemma_digits_prefix(t, i + 1 - start);
                        }
                }
                return Err(FrameError::InvalidFormat);
            },
            Some(m) => match m.checked_add((b - 48) as u64) {
                None => {
                    proof {
                        if all_digits(t) {
                            lemma_digits_prefix(t, i + 1 - start);
                        }
                    }
                    return Err(FrameError::InvalidFormat);
                },
                Some(v) => {
                    assert(v == digits_value(u));
                    acc = v;
                },
            },
        }
        i = i + 1;
        assert(all_digits(t.subrange(0, i - start))) by {
            assert forall|j: int| 0 <= j < i - start implies is_digit(
                #[trigger] t.subrange(0, i - start)[j],
            ) by {
                if j < i - 1 - start {
                    assert(t.subrange(0, i - start)[j] == t.subrange(0, i - 1 - start)[j]);
                }
            }
        }
    }
    assert(t.subrange(0, e - start) =~= t);
    assert(e + 2 <= buf@.len());
    assert(buf@.len() == buf.len());
    Ok((acc, e + 2))
}

/// Checks that a complete frame starts at the beginning of `buf` and says
/// how many bytes it takes, without building it.
pub fn check(buf: &[u8]) -> (r: Result<usize, FrameError>)
    ensures
        match check_spec(buf@) {
            Ok(n) => r is Ok && r->Ok_0 == n,
            Err(e) => r == Err::<usize, FrameError>(e),
        },
        r is Ok ==> r->Ok_0 <= buf@.len(),
{
    if buf.len() == 0 {
        return Err(FrameError::Incomplete);
    }
    let tag = buf[0];
    if tag == 43 || tag == 45 {
        match find_line_end(buf, 1) {
            Some(e) => Ok(e + 2),
            None => Err(FrameError::Incomplete),
        }
    } else if tag == 58 {
        match read_decimal_line(buf, 1) {
            Ok((_, n)) => Ok(n),
            Err(e) => Err(e),
        }
    } else if tag == 36 {
        if buf.len() < 2 {
            Err(FrameError::Incomplete)
        } else if buf[1] == 45 {
            match find_line_end(buf, 1) {
                None => Err(FrameError::Incomplete),
                Some(e) => {
                    if e == 3 && buf[2] == 49 {
                        assert(buf@.subrange(1, e as int) =~= seq![45u8, 49u8]);
                        Ok(e + 2)
                    } else {
                        assert(e != 3 ==> buf@.subrange(1, e as int).len() != 2);
                        assert(e == 3 ==> buf@.subrange(1, e as int)[1] != 49u8);
                        Err(FrameError::InvalidFormat)
                    }
                },
            }
        } else {
            match read_decimal_line(buf, 1) {
                Err(e) => Err(e),
                Ok((n, p)) => {
                    let room = buf.len() - p;
                    if room < 2 || n > (room - 2) as u64 {
                        Err(FrameError::Incomplete)
                    } else {
                        let q = p + n as usize;
                        if buf[q] == CR && buf[q + 1] == LF {
                            Ok(q + 2)
                        } else {
                            Err(FrameError::InvalidFormat)
                        }
                    }
                },
            }
        }
    } else if tag == 42 {
        Err(FrameError::Unsupported)
    } else {
        Err(FrameError::InvalidType)
    }
}

/// Relies on `String::from_utf8`: it accepts exactly the byte strings that
/// are valid UTF-8, and the string it returns holds the characters they encode.
#[verifier::external_body]
pub(crate) fn string_from_utf8(bytes: Vec<u8>) -> (r: Option<String>)
    ensures
        r is Some <==> valid_utf8(bytes@),
        r is Some ==> r->Some_0@ == decode_utf8(bytes@),
{
    String::from_utf8(bytes).ok()
}

pub(crate) fn copy_range(buf: &[u8], from: usize, to: usize) -> (r: Vec<u8>)
    requires
        from <= to <= buf@.len(),
    ensures
        r@ == buf@.subrange(from as int, to as int),
{
    let mut out: Vec<u8> = Vec::new();
    let mut i = from;
    while i < to
        invariant
            from <= i <= to <= buf@.len(),
            out@ == buf@.subrange(from as int, i as int),
        decreases to - i,
    {
        out.push(buf[i]);
        i = i + 1;
        assert(out@ =~= buf@.subrange(from as int, i as int));
    }
    out
}

/// Builds the frame at the beginning of `buf`, which `check` has accepted.
/// Fails only on Simple or Error text that is not UTF-8.
pub fn parse(buf: &[u8]) -> (r: Result<Frame, FrameError>)
    requires
        check_spec(buf@) is Ok,
    ensures
        match decode_spec(buf@) {
            Ok((f, n)) => r is Ok && r->Ok_0@ == f,
            Err(e) => r == Err::<Frame, FrameError>(e),
        },
{
    proof {
        lemma_line_end(buf@, 1);
    }
    let n = match check(buf) {
        Ok(n) => n,
        Err(e) => return Err(e),
    };
    let tag = buf[0];
    if tag == 43 || tag == 45 {
        let text = copy_range(buf, 1, n - 2);
        match string_from_utf8(text) {
            Some(s) => if tag == 43 {
                Ok(Frame::Simple(s))
            } else {
                Ok(Frame::Error(s))
            },
            None => Err(FrameError::InvalidFormat),
        }
    } else if tag == 58 {
        match read_decimal_line(buf, 1) {
            Ok((v, _)) => Ok(Frame::Integer(v)),
            Err(e) => Err(e),
        }
    } else if buf[1] == 45 {
        Ok(Frame::Null)
    } else {
        match read_decimal_line(buf, 1) {
            Ok((_, p)) => Ok(Frame::Bulk(bytes_from_vec(copy_range(buf, p, n - 2)))),
            Err(e) => Err(e),
        }
    }
}

proof fn lemma_line_end_at(s: Seq<u8>, i: int, e: int)
    requires
        0 <= i <= e,
        crlf_at(s, e),
        forall|j: int| i <= j < e ==> s[j] != CR,
    ensures
        line_end(s, i) == Some(e),
    decreases e - i,
{
    if i < e {
        lemma_line_end_at(s, i + 1, e);
    }
}

proof fn lemma_line_end_none(s: Seq<u8>, i: int)
    requires
        0 <= i,
        forall|j: int| i <= j && j + 1 < s.len() ==> s[j] != CR,
    ensures
        line_end(s, i) is None,
    decreases s.len() - i,
{
    if i + 1 < s.len() {
        lemma_line_end_none(s, i + 1);
    }
}

/// Decoding the encoding of a frame, whatever bytes follow it, gives back
/// the frame and consumes exactly its encoding.
pub proof fn lemma_round_trip(f: FrameView, rest: Seq<u8>)
    requires
        encodable(f),
    ensures
        decode_spec(encoding(f) + rest) == Ok::<(FrameView, int), FrameError>(
            (f, encoding(f).len() as int),
        ),
{
    broadcast use encode_utf8_valid_utf8, encode_utf8_decode_utf8;

    let s = encoding(f) + rest;
    match f {
        FrameView::Simple(c) => {
            let u = encode_utf8(c);
            let e = u.len() as int + 1;
            assert(s[0] == 43u8);
            assert forall|j: int| 1 <= j < e implies s[j] != CR by {
                assert(s[j] == u[j - 1]);
            }
            assert(s[e] == CR && s[e + 1] == LF);
            lemma_line_end_at(s, 1, e);
            assert(s.subrange(1, e) =~= u);
        },
        FrameView::Error(c) => {
            let u = encode_utf8(c);
            let e = u.len() as int + 1;
            assert(s[0] == 45u8);
            assert forall|j: int| 1 <= j < e implies s[j] != CR by {
                assert(s[j] == u[j - 1]);
            }
            assert(s[e] == CR && s[e + 1] == LF);
            lemma_line_end_at(s, 1, e);
            assert(s.subrange(1, e) =~= u);
        },
        FrameView::Integer(v) => {
            let d = decimal(v as nat);
            lemma_decimal(v as nat);
            let e = d.len() as int + 1;
            assert(s[0] == 58u8);
            assert forall|j: int| 1 <= j < e implies s[j] != CR by {
                assert(s[j] == d[j - 1]);
            }
            assert(s[e] == CR && s[e + 1] == LF);
            lemma_line_end_at(s, 1, e);
            assert(s.subrange(1, e) =~= d);
        },
        FrameView::Null => {
            assert(s[0] == 36u8 && s[1] == 45u8 && s[2] == 49u8);
            assert(s[3] == CR && s[4] == LF);
            lemma_line_end_at(s, 1, 3);
            assert(s.subrange(1, 3) =~= seq![45u8, 49u8]);
        },
        FrameView::Bulk(b) => {
            let d = decimal(b.len());
            lemma_decimal(b.len());
            let e = d.len() as int + 1;
            let p = e + 2;
            assert(s[0] == 36u8);
            assert(s[1] == d[0]);
            assert forall|j: int| 1 <= j < e implies s[j] != CR by {
                assert(s[j] == d[j - 1]);
            }
            assert(s[e] == CR && s[e + 1] == LF);
            lemma_line_end_at(s, 1, e);
            assert(s.subrange(1, e) =~= d);
            assert(s[p + b.len()] == CR && s[p + b.len() + 1] == LF);
            assert(s.subrange(p, p + b.len()) =~= b);
        },
        FrameView::Array => {},
    }
}

/// No proper prefix of an encoded frame holds a frame: decoding it asks for
/// more bytes. So however the bytes of a frame arrive, nothing is decoded
/// before the last of them, and then the whole frame is.
pub proof fn lemma_prefix_incomplete(f: FrameView, k: int)
    requires
        encodable(f),
        0 <= k < encoding(f).len(),
    ensures
        check_spec(encoding(f).subrange(0, k)) == Err::<int, FrameError>(FrameError::Incomplete),
{
    let full = encoding(f);
    let s = full.subrange(0, k);
    if k == 0 {
        return;
    }
    match f {
        FrameView::Simple(c) => {
            let u = encode_utf8(c);
            assert forall|j: int| 1 <= j && j + 1 < s.len() implies s[j] != CR by {
                assert(s[j] == u[j - 1]);
            }
            lemma_line_end_none(s, 1);
        },
        FrameView::Error(c) => {
            let u = encode_utf8(c);
            assert forall|j: int| 1 <= j && j + 1 < s.len() implies s[j] != CR by {
                assert(s[j] == u[j - 1]);
            }
            lemma_line_end_none(s, 1);
        },
        FrameView::Integer(v) => {
            let d = decimal(v as nat);
            lemma_decimal(v as nat);
            assert forall|j: int| 1 <= j && j + 1 < s.len() implies s[j] != CR by {
                assert(s[j] == d[j - 1]);
            }
            lemma_line_end_none(s, 1);
        },
        FrameView::Null => {
            assert forall|j: int| 1 <= j && j + 1 < s.len() implies s[j] != CR by {
                assert(s[j] == full[j]);
            }
            lemma_line_end_none(s, 1);
        },
        FrameView::Bulk(b) => {
            let d = decimal(b.len());
            lemma_decimal(b.len());
            let e = d.len() as int + 1;
            if k >= 2 {
                assert(s[1] == d[0]);
            }
            if k <= e + 1 {
                assert forall|j: int| 1 <= j && j + 1 < s.len() implies s[j] != CR by {
                    assert(s[j] == d[j - 1]);
                }
                lemma_line_end_none(s, 1);
            } else {
                assert forall|j: int| 1 <= j < e implies s[j] != CR by {
                    assert(s[j] == d[j - 1]);
                }
                assert(s[e] == CR && s[e + 1] == LF);
                lemma_line_end_at(s, 1, e);
                assert(s.subrange(1, e) =~= d);
            }
        },
        FrameView::Array => {},
    }
}

} // verus!
