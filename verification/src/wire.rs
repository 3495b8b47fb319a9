//! Little-endian numbers and length-prefixed frames.

use vstd::prelude::*;
use vstd::slice::slice_subrange;

verus! {

pub const MAX_PATH_BYTES: usize = 1048576;

/// What kind of failure an I/O layer would report.
#[derive(Clone, Copy, PartialEq, Eq, Structural, Debug)]
pub enum ErrorKind {
    InvalidInput,
    InvalidData,
    UnexpectedEof,
}

/// What is wrong with a message.
#[derive(Clone, Copy, PartialEq, Eq, Structural, Debug)]
pub enum ErrorReason {
    EndOfInput,
    FrameTooLarge,
    InvalidResponse,
    NameNotUtf8,
    NameTooLarge,
    NamesTooLarge,
    PathTooLarge,
    TooManyNames,
    TooManyPaths,
    UnknownRequest,
    UnsupportedProtocol,
    ValueTooLarge,
}

/// Why a message could not be written or read.
#[derive(Clone, Copy, PartialEq, Eq, Structural, Debug)]
pub struct ProtocolError {
    pub kind: ErrorKind,
    pub reason: ErrorReason,
}

pub open spec fn invalid_input(reason: ErrorReason) -> ProtocolError {
    ProtocolError { kind: ErrorKind::InvalidInput, reason }
}

pub open spec fn invalid_data(reason: ErrorReason) -> ProtocolError {
    ProtocolError { kind: ErrorKind::InvalidData, reason }
}

pub open spec fn end_of_input() -> ProtocolError {
    ProtocolError { kind: ErrorKind::UnexpectedEof, reason: ErrorReason::EndOfInput }
}

/// The text that describes a fault.
pub open spec fn reason_text(reason: ErrorReason) -> Seq<char> {
    match reason {
        ErrorReason::EndOfInput => "failed to fill whole buffer"@,
        ErrorReason::FrameTooLarge => "frame too large"@,
        ErrorReason::InvalidResponse => "invalid response"@,
        ErrorReason::NameNotUtf8 => "name is not UTF-8"@,
        ErrorReason::NameTooLarge => "name too large"@,
        ErrorReason::NamesTooLarge => "names are too large"@,
        ErrorReason::PathTooLarge => "path too large"@,
        ErrorReason::TooManyNames => "too many names"@,
        ErrorReason::TooManyPaths => "too many paths"@,
        ErrorReason::UnknownRequest => "unknown request"@,
        ErrorReason::UnsupportedProtocol => "unsupported helper protocol"@,
        ErrorReason::ValueTooLarge => "value too large"@,
    }
}

impl ProtocolError {
    pub fn input(reason: ErrorReason) -> (r: ProtocolError)
        ensures
            r == invalid_input(reason),
    {
        ProtocolError { kind: ErrorKind::InvalidInput, reason }
    }

    pub fn data(reason: ErrorReason) -> (r: ProtocolError)
        ensures
            r == invalid_data(reason),
    {
        ProtocolError { kind: ErrorKind::InvalidData, reason }
    }

    pub fn kind(&self) -> (r: ErrorKind)
        ensures
            r == self.kind,
    {
        self.kind
    }

    /// The text that describes the fault.
    pub fn message(&self) -> (r: &'static str)
        ensures
            r@ == reason_text(self.reason),
    {
        match self.reason {
            ErrorReason::EndOfInput => "failed to fill whole buffer",
            ErrorReason::FrameTooLarge => "frame too large",
            ErrorReason::InvalidResponse => "invalid response",
            ErrorReason::NameNotUtf8 => "name is not UTF-8",
            ErrorReason::NameTooLarge => "name too large",
            ErrorReason::NamesTooLarge => "names are too large",
            ErrorReason::PathTooLarge => "path too large",
            ErrorReason::TooManyNames => "too many names",
            ErrorReason::TooManyPaths => "too many paths",
            ErrorReason::UnknownRequest => "unknown request",
            ErrorReason::UnsupportedProtocol => "unsupported helper protocol",
            ErrorReason::ValueTooLarge => "value too large",
        }
    }
}

/// The `width` low bytes of a number, the least significant first.
pub open spec fn le_bytes(n: nat, width: nat) -> Seq<u8>
    decreases width,
{
    if width == 0 {
        Seq::empty()
    } else {
        seq![(n % 256) as u8] + le_bytes(n / 256, (width - 1) as nat)
    }
}

/// The number that bytes denote, the least significant first.
pub open spec fn le_value(s: Seq<u8>) -> nat
    decreases s.len(),
{
    if s.len() == 0 {
        0
    } else {
        s[0] as nat + 256 * le_value(s.drop_first())
    }
}

/// 256 to the power of `width`.
pub open spec fn le_limit(width: nat) -> nat
    decreases width,
{
    if width == 0 {
        1
    } else {
        256 * le_limit((width - 1) as nat)
    }
}

/// Bytes behind their length.
pub open spec fn frame(bytes: Seq<u8>) -> Seq<u8> {
    le_bytes(bytes.len(), 4) + bytes
}

/// One frame behind the other.
pub open spec fn frames(all: Seq<Seq<u8>>) -> Seq<u8>
    decreases all.len(),
{
    if all.len() == 0 {
        Seq::empty()
    } else {
        frame(all[0]) + frames(all.drop_first())
    }
}

/// The first `n` bytes of the input and what follows them.
pub open spec fn split_input(s: Seq<u8>, n: nat) -> Result<(Seq<u8>, Seq<u8>), ProtocolError> {
    if s.len() < n {
        Err(end_of_input())
    } else {
        Ok((s.take(n as int), s.skip(n as int)))
    }
}

/// A 32-bit number at the start of the input, and what follows it.
pub open spec fn split_u32(s: Seq<u8>) -> Result<(nat, Seq<u8>), ProtocolError> {
    match split_input(s, 4) {
        Err(e) => Err(e),
        Ok((head, rest)) => Ok((le_value(head), rest)),
    }
}

/// A frame at the start of the input, and what follows it.
pub open spec fn split_frame(s: Seq<u8>) -> Result<(Seq<u8>, Seq<u8>), ProtocolError> {
    match split_u32(s) {
        Err(e) => Err(e),
        Ok((len, rest)) => if len > MAX_PATH_BYTES {
            Err(invalid_data(ErrorReason::FrameTooLarge))
        } else {
            split_input(rest, len)
        },
    }
}

/// `n` frames at the start of the input, and what follows them.
pub open spec fn split_frames(s: Seq<u8>, n: nat) -> Result<
    (Seq<Seq<u8>>, Seq<u8>),
    ProtocolError,
>
    decreases n,
{
    if n == 0 {
        Ok((Seq::empty(), s))
    } else {
        match split_frame(s) {
            Err(e) => Err(e),
            Ok((first, rest)) => match split_frames(rest, (n - 1) as nat) {
                Err(e) => Err(e),
                Ok((others, end)) => Ok((seq![first] + others, end)),
            },
        }
    }
}

pub proof fn lemma_le_bytes(n: nat, width: nat)
    ensures
        le_bytes(n, width).len() == width,
        n < le_limit(width) ==> le_value(le_bytes(n, width)) == n,
    decreases width,
{
    if width > 0 {
        let w = (width - 1) as nat;
        lemma_le_bytes(n / 256, w);
        let b = le_bytes(n, width);
        assert(b[0] == (n % 256) as u8);
        assert(b.drop_first() =~= le_bytes(n / 256, w));
    }
}

pub proof fn lemma_le_value(s: Seq<u8>)
    ensures
        le_value(s) < le_limit(s.len()),
        le_bytes(le_value(s), s.len()) == s,
    decreases s.len(),
{
    if s.len() > 0 {
        lemma_le_value(s.drop_first());
        let rest = le_value(s.drop_first());
        let v = le_value(s);
        assert(v == s[0] as nat + 256 * rest);
        assert(v % 256 == s[0] as nat && v / 256 == rest) by (nonlinear_arith)
            requires
                v == s[0] as nat + 256 * rest,
        ;
        assert(le_bytes(v, s.len()) =~= s);
    } else {
        assert(le_bytes(0, 0) =~= s);
    }
}

pub proof fn lemma_le_limits()
    ensures
        le_limit(4) == 0x1_0000_0000,
        le_limit(8) == 0x1_0000_0000_0000_0000,
{
    assert(le_limit(0) == 1);
    assert(le_limit(1) == 256);
    assert(le_limit(2) == 65536);
    assert(le_limit(3) == 16777216);
    assert(le_limit(4) == 0x1_0000_0000);
    assert(le_limit(5) == 0x100_0000_0000);
    assert(le_limit(6) == 0x1_0000_0000_0000);
    assert(le_limit(7) == 0x100_0000_0000_0000);
    assert(le_limit(8) == 0x1_0000_0000_0000_0000);
}

/// A frame that is no larger than allowed is read back, whatever follows it.
pub proof fn lemma_frame_round_trip(bytes: Seq<u8>, rest: Seq<u8>)
    requires
        bytes.len() <= MAX_PATH_BYTES,
    ensures
        split_frame(frame(bytes) + rest) == Ok::<(Seq<u8>, Seq<u8>), ProtocolError>((bytes, rest)),
{
    lemma_le_bytes(bytes.len(), 4);
    lemma_le_limits();
    let s = frame(bytes) + rest;
    assert(s.take(4) =~= le_bytes(bytes.len(), 4));
    assert(s.skip(4) =~= bytes + rest);
    assert((bytes + rest).take(bytes.len() as int) =~= bytes);
    assert((bytes + rest).skip(bytes.len() as int) =~= rest);
}

/// Frames that are no larger than allowed are read back, whatever follows them.
pub proof fn lemma_frames_round_trip(all: Seq<Seq<u8>>, rest: Seq<u8>)
    requires
        forall|i: int| 0 <= i < all.len() ==> (#[trigger] all[i]).len() <= MAX_PATH_BYTES,
    ensures
        split_frames(frames(all) + rest, all.len()) == Ok::<
            (Seq<Seq<u8>>, Seq<u8>),
            ProtocolError,
        >((all, rest)),
    decreases all.len(),
{
    if all.len() == 0 {
        assert(frames(all) + rest =~= rest);
        assert(all =~= Seq::<Seq<u8>>::empty());
    } else {
        let others = all.drop_first();
        assert forall|i: int| 0 <= i < others.len() implies (#[trigger] others[i]).len()
            <= MAX_PATH_BYTES by {
            assert(others[i] == all[i + 1]);
        }
        lemma_frames_round_trip(others, rest);
        lemma_frame_round_trip(all[0], frames(others) + rest);
        assert(frames(all) + rest =~= frame(all[0]) + (frames(others) + rest));
        assert(seq![all[0]] + others =~= all);
    }
}

/// A frame of which the end is missing is not read.
pub proof fn lemma_cut_frame(bytes: Seq<u8>, n: int)
    requires
        bytes.len() <= MAX_PATH_BYTES,
        0 <= n < frame(bytes).len(),
    ensures
        split_frame(frame(bytes).take(n)) == Err::<(Seq<u8>, Seq<u8>), ProtocolError>(
            end_of_input(),
        ),
{
    lemma_le_bytes(bytes.len(), 4);
    lemma_le_limits();
    let s = frame(bytes).take(n);
    if n >= 4 {
        assert(s.take(4) =~= le_bytes(bytes.len(), 4));
    }
}

/// Frames of which the end is missing are not read.
pub proof fn lemma_cut_frames(all: Seq<Seq<u8>>, n: int)
    requires
        forall|i: int| 0 <= i < all.len() ==> (#[trigger] all[i]).len() <= MAX_PATH_BYTES,
        0 <= n < frames(all).len(),
    ensures
        split_frames(frames(all).take(n), all.len()) == Err::<
            (Seq<Seq<u8>>, Seq<u8>),
            ProtocolError,
        >(end_of_input()),
    decreases all.len(),
{
    let others = all.drop_first();
    let first = frame(all[0]);
    let s = frames(all).take(n);
    assert forall|i: int| 0 <= i < others.len() implies (#[trigger] others[i]).len()
        <= MAX_PATH_BYTES by {
        assert(others[i] == all[i + 1]);
    }
    if n < first.len() {
        assert(s =~= first.take(n));
        lemma_cut_frame(all[0], n);
    } else {
        let rest = frames(others).take(n - first.len());
        assert(s =~= first + rest);
        lemma_frame_round_trip(all[0], rest);
        lemma_cut_frames(others, n - first.len());
    }
}

/// A frame that was read is what its bytes encode.
pub proof fn lemma_split_frame_is_frame(s: Seq<u8>)
    ensures
        split_frame(s) matches Ok((bytes, rest)) ==> s == frame(bytes) + rest && bytes.len()
            <= MAX_PATH_BYTES,
{
    if s.len() >= 4 {
        lemma_le_value(s.take(4));
        let len = le_value(s.take(4));
        let after = s.skip(4);
        if len <= MAX_PATH_BYTES && after.len() >= len {
            assert(s =~= frame(after.take(len as int)) + after.skip(len as int));
        }
    }
}

/// Frames that were read are what their bytes encode.
pub proof fn lemma_split_frames_is_frames(s: Seq<u8>, n: nat)
    ensures
        split_frames(s, n) matches Ok((all, rest)) ==> s == frames(all) + rest && all.len() == n
            && (forall|i: int| 0 <= i < all.len() ==> (#[trigger] all[i]).len() <= MAX_PATH_BYTES),
    decreases n,
{
    if n == 0 {
        assert(s =~= frames(Seq::empty()) + s);
    } else {
        lemma_split_frame_is_frame(s);
        if let Ok((first, after)) = split_frame(s) {
            lemma_split_frames_is_frames(after, (n - 1) as nat);
            if let Ok((others, rest)) = split_frames(after, (n - 1) as nat) {
                let all = seq![first] + others;
                assert(all.drop_first() =~= others);
                assert(s =~= frames(all) + rest);
                assert forall|i: int| 0 <= i < all.len() implies (#[trigger] all[i]).len()
                    <= MAX_PATH_BYTES by {
                    if i > 0 {
                        assert(all[i] == others[i - 1]);
                    }
                }
            }
        }
    }
}

/// Appends the four bytes of a number that 32 bits can hold.
pub fn write_u32(writer: &mut Vec<u8>, value: usize) -> (r: Result<(), ProtocolError>)
    ensures
        value <= u32::MAX ==> r is Ok && final(writer)@ == old(writer)@ + le_bytes(value as nat, 4),
        value > u32::MAX ==> r == Err::<(), ProtocolError>(
            invalid_input(ErrorReason::ValueTooLarge),
        ) && final(writer)@ == old(writer)@,
{
    if value as u64 > u32::MAX as u64 {
        return Err(ProtocolError::input(ErrorReason::ValueTooLarge));
    }
    write_low_bytes(writer, value as u64, 4);
    Ok(())
}

/// Appends the `width` low bytes of a number.
pub fn write_low_bytes(writer: &mut Vec<u8>, value: u64, width: usize)
    ensures
        final(writer)@ == old(writer)@ + le_bytes(value as nat, width as nat),
{
    let ghost before = writer@;
    let mut rest: u64 = value;
    let mut left: usize = width;
    while left > 0
        invariant
            writer@ + le_bytes(rest as nat, left as nat) =~= before + le_bytes(
                value as nat,
                width as nat,
            ),
        decreases left,
    {
        let ghost now = writer@;
        let ghost n = rest as nat;
        let byte: u8 = (rest % 256) as u8;
        writer.push(byte);
        rest = rest / 256;
        left = left - 1;
        assert(le_bytes(n, (left + 1) as nat) =~= seq![byte] + le_bytes(rest as nat, left as nat));
        assert(writer@ =~= now + seq![byte]);
    }
}

/// Appends bytes behind their length.
pub fn write_bytes(writer: &mut Vec<u8>, bytes: &[u8]) -> (r: Result<(), ProtocolError>)
    ensures
        bytes@.len() <= MAX_PATH_BYTES ==> r is Ok && final(writer)@ == old(writer)@ + frame(bytes@),
        bytes@.len() > MAX_PATH_BYTES ==> r == Err::<(), ProtocolError>(
            invalid_input(ErrorReason::FrameTooLarge),
        ) && final(writer)@ == old(writer)@,
{
    if bytes.len() > MAX_PATH_BYTES {
        return Err(ProtocolError::input(ErrorReason::FrameTooLarge));
    }
    let ghost before = writer@;
    let length: Result<(), ProtocolError> = write_u32(writer, bytes.len());
    if length.is_err() {
        return length;
    }
    push_all(writer, bytes);
    assert(writer@ =~= before + frame(bytes@));
    Ok(())
}

/// Appends bytes as they are.
pub fn push_all(writer: &mut Vec<u8>, bytes: &[u8])
    ensures
        final(writer)@ == old(writer)@ + bytes@,
{
    let ghost before = writer@;
    let mut i: usize = 0;
    while i < bytes.len()
        invariant
            i <= bytes@.len(),
            writer@ == before + bytes@.take(i as int),
        decreases bytes@.len() - i,
    {
        writer.push(bytes[i]);
        i = i + 1;
        assert(writer@ =~= before + bytes@.take(i as int));
    }
    assert(bytes@.take(bytes@.len() as int) =~= bytes@);
}

/// Input that is read from the front.
pub struct ByteReader<'a> {
    pub input: &'a [u8],
    pub position: usize,
}

impl<'a> ByteReader<'a> {
    /// What has not been read yet.
    pub open spec fn rest(&self) -> Seq<u8> {
        self.input@.skip(self.position as int)
    }

    pub open spec fn wf(&self) -> bool {
        self.position <= self.input@.len()
    }

    pub fn new(input: &'a [u8]) -> (r: ByteReader<'a>)
        ensures
            r.wf(),
            r.rest() == input@,
    {
        assert(input@.skip(0) =~= input@);
        ByteReader { input, position: 0 }
    }

    /// Reads exactly `n` bytes.
    pub fn read_exact(&mut self, n: usize) -> (r: Result<&'a [u8], ProtocolError>)
        requires
            old(self).wf(),
        ensures
            final(self).wf(),
            match split_input(old(self).rest(), n as nat) {
                Ok((head, rest)) => r is Ok && r->Ok_0@ == head && final(self).rest() == rest,
                Err(e) => r == Err::<&'a [u8], ProtocolError>(e),
            },
    {
        if self.input.len() - self.position < n {
            return Err(
                ProtocolError { kind: ErrorKind::UnexpectedEof, reason: ErrorReason::EndOfInput },
            );
        }
        let start: usize = self.position;
        let end: usize = start + n;
        let head: &'a [u8] = slice_subrange(self.input, start, end);
        assert(head@ =~= self.rest().take(n as int));
        let ghost before = self.rest();
        self.position = end;
        assert(self.rest() =~= before.skip(n as int));
        Ok(head)
    }

    /// Reads a 32-bit number.
    pub fn read_u32(&mut self) -> (r: Result<usize, ProtocolError>)
        requires
            old(self).wf(),
        ensures
            final(self).wf(),
            match split_u32(old(self).rest()) {
                Ok((n, rest)) => r == Ok::<usize, ProtocolError>(n as usize) && r->Ok_0 == n
                    && final(self).rest() == rest,
                Err(e) => r == Err::<usize, ProtocolError>(e),
            },
    {
        match self.read_exact(4) {
            Ok(bytes) => {
                proof {
                    lemma_le_value(bytes@);
                    lemma_le_limits();
                }
                let value: u64 = low_value(bytes);
                Ok(value as usize)
            },
            Err(e) => Err(e),
        }
    }

    /// Reads a frame.
    pub fn read_bytes(&mut self) -> (r: Result<&'a [u8], ProtocolError>)
        requires
            old(self).wf(),
        ensures
            final(self).wf(),
            match split_frame(old(self).rest()) {
                Ok((bytes, rest)) => r is Ok && r->Ok_0@ == bytes && final(self).rest() == rest,
                Err(e) => r == Err::<&'a [u8], ProtocolError>(e),
            },
    {
        match self.read_u32() {
            Ok(len) => {
                if len > MAX_PATH_BYTES {
                    return Err(ProtocolError::data(ErrorReason::FrameTooLarge));
                }
                self.read_exact(len)
            },
            Err(e) => Err(e),
        }
    }
}

/// The number that at most eight bytes denote.
pub fn low_value(bytes: &[u8]) -> (r: u64)
    requires
        bytes@.len() <= 8,
    ensures
        r == le_value(bytes@),
{
    let mut i: usize = bytes.len();
    let mut value: u64 = 0;
    assert(bytes@.skip(i as int) =~= Seq::<u8>::empty());
    proof {
        lemma_le_limits();
    }
    while i > 0
        invariant
            i <= bytes@.len() <= 8,
            value == le_value(bytes@.skip(i as int)),
        decreases i,
    {
        i = i - 1;
        proof {
            let tail = bytes@.skip(i as int);
            assert(tail[0] == bytes@[i as int]);
            assert(tail.drop_first() =~= bytes@.skip(i + 1));
            lemma_le_value(tail);
            lemma_limit_grows(tail.len(), 8);
            lemma_le_limits();
        }
        value = bytes[i] as u64 + 256 * value;
    }
    assert(bytes@.skip(0) =~= bytes@);
    value
}

proof fn lemma_limit_grows(a: nat, b: nat)
    requires
        a <= b,
    ensures
        le_limit(a) <= le_limit(b),
    decreases b,
{
    if a < b {
        lemma_limit_grows(a, (b - 1) as nat);
    }
}

} // verus!
