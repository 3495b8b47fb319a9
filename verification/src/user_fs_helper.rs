//! The helper that acts on files as the invoking user: its requests, its
//! responses, and who may run it.

use crate::helper_credentials::{
    credential_fault, refusal_text, validate_credentials, CredentialError, HelperEnvironment,
    ProcessCredentials,
};
use crate::path::{path_bytes, FilePath};
use crate::platform::Platform;
use crate::text::{concat, lossy_text, utf8_lossy, utf8_text};
use crate::wire::{
    frame, frames, invalid_data, invalid_input, le_bytes, le_value, lemma_split_frame_is_frame,
    low_value, push_all, split_frame, split_frames, split_input, split_u32, write_bytes,
    write_low_bytes, write_u32, ByteReader, ErrorReason, ProtocolError, MAX_PATH_BYTES, reason_text,
};
use vstd::prelude::*;
use vstd::slice::slice_subrange;
use vstd::string::StringExecFns;
use vstd::utf8::{decode_utf8, encode_utf8, valid_utf8};

verus! {

pub const MAX_ITEMS: usize = 16384;

pub const MAX_ERROR_BYTES: usize = 16384;

pub const MAX_TOTAL_NAME_BYTES: usize = 16777216;

/// What the helper is asked to do.
#[derive(Debug)]
pub enum Request {
    Trash(Vec<FilePath>),
    Restore(FilePath),
    /// Only known on macOS.
    RemoveRestoreOrigins(Vec<String>),
}

/// A request by the bytes and texts in it.
pub ghost enum RequestView {
    Trash(Seq<Seq<u8>>),
    Restore(Seq<u8>),
    RemoveRestoreOrigins(Seq<Seq<char>>),
}

pub open spec fn text_chars(texts: Seq<String>) -> Seq<Seq<char>> {
    texts.map_values(|t: String| t@)
}

impl View for Request {
    type V = RequestView;

    open spec fn view(&self) -> RequestView {
        match *self {
            Request::Trash(paths) => RequestView::Trash(path_bytes(paths@)),
            Request::Restore(path) => RequestView::Restore(path@),
            Request::RemoveRestoreOrigins(names) => RequestView::RemoveRestoreOrigins(
                text_chars(names@),
            ),
        }
    }
}

/// What the helper answers.
#[derive(Debug)]
pub struct Response {
    pub completed: usize,
    pub error: Option<String>,
}

pub ghost struct ResponseView {
    pub completed: usize,
    pub error: Option<Seq<char>>,
}

pub open spec fn optional_text(t: Option<String>) -> Option<Seq<char>> {
    match t {
        Some(text) => Some(text@),
        None => None,
    }
}

impl View for Response {
    type V = ResponseView;

    open spec fn view(&self) -> ResponseView {
        ResponseView { completed: self.completed, error: optional_text(self.error) }
    }
}

/// The number of bytes in the first names.
pub open spec fn names_size(names: Seq<Seq<char>>) -> nat
    decreases names.len(),
{
    if names.len() == 0 {
        0
    } else {
        names_size(names.drop_last()) + encode_utf8(names.last()).len()
    }
}

/// What stands in the way of sending these names. A name that is too large
/// is found before the names behind it are counted.
pub open spec fn names_fault(names: Seq<Seq<char>>) -> Option<ProtocolError> {
    if names.len() > MAX_ITEMS {
        Some(invalid_input(ErrorReason::TooManyNames))
    } else {
        match counting_fault(names) {
            Some(e) => Some(e),
            None => if names_size(names) > MAX_TOTAL_NAME_BYTES {
                Some(invalid_input(ErrorReason::NamesTooLarge))
            } else {
                None
            },
        }
    }
}

/// The first fault met while the names' sizes are added up in a `usize`.
pub open spec fn counting_fault(names: Seq<Seq<char>>) -> Option<ProtocolError>
    decreases names.len(),
{
    if names.len() == 0 {
        None
    } else {
        match counting_fault(names.drop_last()) {
            Some(e) => Some(e),
            None => if encode_utf8(names.last()).len() > MAX_PATH_BYTES {
                Some(invalid_input(ErrorReason::NameTooLarge))
            } else if names_size(names) > usize::MAX {
                Some(invalid_input(ErrorReason::NamesTooLarge))
            } else {
                None
            },
        }
    }
}

/// What stands in the way of sending a path.
pub open spec fn path_fault(path: Seq<u8>) -> Option<ProtocolError> {
    if path.len() > MAX_PATH_BYTES {
        Some(invalid_input(ErrorReason::PathTooLarge))
    } else {
        None
    }
}

/// What stands in the way of sending a request.
pub open spec fn request_fault(request: RequestView) -> Option<ProtocolError> {
    match request {
        RequestView::Trash(paths) => if paths.len() > MAX_ITEMS {
            Some(invalid_input(ErrorReason::TooManyPaths))
        } else if exists|i: int| 0 <= i < paths.len() && path_fault(#[trigger] paths[i]) is Some {
            Some(invalid_input(ErrorReason::PathTooLarge))
        } else {
            None
        },
        RequestView::Restore(path) => path_fault(path),
        RequestView::RemoveRestoreOrigins(names) => names_fault(names),
    }
}

/// `EU` and the protocol version.
pub open spec fn request_header() -> Seq<u8> {
    seq![69u8, 85u8, 1u8]
}

pub open spec fn name_bytes(names: Seq<Seq<char>>) -> Seq<Seq<u8>> {
    names.map_values(|n: Seq<char>| encode_utf8(n))
}

/// A request as it is sent.
pub open spec fn encoded_request(request: RequestView) -> Seq<u8> {
    request_header() + match request {
        RequestView::Trash(paths) => seq![1u8] + le_bytes(paths.len(), 4) + frames(paths),
        RequestView::Restore(path) => seq![2u8] + frame(path),
        RequestView::RemoveRestoreOrigins(names) => seq![3u8] + le_bytes(names.len(), 4) + frames(
            name_bytes(names),
        ),
    }
}

/// What was read, without what follows it.
pub open spec fn without_rest<T>(r: Result<(T, Seq<u8>), ProtocolError>) -> Result<
    T,
    ProtocolError,
> {
    match r {
        Ok((item, _)) => Ok(item),
        Err(e) => Err(e),
    }
}

/// `n` names at the start of the input, where those before them took `total`
/// bytes, and what follows them.
pub open spec fn split_names(s: Seq<u8>, n: nat, total: nat) -> Result<
    (Seq<Seq<char>>, Seq<u8>),
    ProtocolError,
>
    decreases n,
{
    if n == 0 {
        Ok((Seq::empty(), s))
    } else {
        match split_frame(s) {
            Err(e) => Err(e),
            Ok((bytes, rest)) => if total + bytes.len() > MAX_TOTAL_NAME_BYTES {
                Err(invalid_data(ErrorReason::NamesTooLarge))
            } else if !valid_utf8(bytes) {
                Err(invalid_data(ErrorReason::NameNotUtf8))
            } else {
                match split_names(rest, (n - 1) as nat, total + bytes.len()) {
                    Err(e) => Err(e),
                    Ok((others, end)) => Ok((seq![decode_utf8(bytes)] + others, end)),
                }
            },
        }
    }
}

/// The request behind the header, and what follows it.
pub open spec fn split_body(opcode: u8, s: Seq<u8>, platform: Platform) -> Result<
    (RequestView, Seq<u8>),
    ProtocolError,
> {
    if opcode == 1 {
        match split_u32(s) {
            Err(e) => Err(e),
            Ok((count, rest)) => if count > MAX_ITEMS {
                Err(invalid_data(ErrorReason::TooManyPaths))
            } else {
                match split_frames(rest, count) {
                    Err(e) => Err(e),
                    Ok((paths, end)) => Ok((RequestView::Trash(paths), end)),
                }
            },
        }
    } else if opcode == 2 {
        match split_frame(s) {
            Err(e) => Err(e),
            Ok((path, end)) => Ok((RequestView::Restore(path), end)),
        }
    } else if opcode == 3 && platform == Platform::MacOs {
        match split_u32(s) {
            Err(e) => Err(e),
            Ok((count, rest)) => if count > MAX_ITEMS {
                Err(invalid_data(ErrorReason::TooManyNames))
            } else {
                match split_names(rest, count, 0) {
                    Err(e) => Err(e),
                    Ok((names, end)) => Ok((RequestView::RemoveRestoreOrigins(names), end)),
                }
            },
        }
    } else {
        Err(invalid_data(ErrorReason::UnknownRequest))
    }
}

/// The request that the input starts with, and what follows it.
pub open spec fn split_request(s: Seq<u8>, platform: Platform) -> Result<
    (RequestView, Seq<u8>),
    ProtocolError,
> {
    match split_input(s, 3) {
        Err(e) => Err(e),
        Ok((header, rest)) => if header != request_header() {
            Err(invalid_data(ErrorReason::UnsupportedProtocol))
        } else {
            match split_input(rest, 1) {
                Err(e) => Err(e),
                Ok((opcode, body)) => split_body(opcode[0], body, platform),
            }
        },
    }
}

/// The request that the input starts with.
pub open spec fn decoded_request(s: Seq<u8>, platform: Platform) -> Result<
    RequestView,
    ProtocolError,
> {
    without_rest(split_request(s, platform))
}

/// The part of an error text that is sent.
pub open spec fn sent_error(error: Seq<char>) -> Seq<u8> {
    let bytes = encode_utf8(error);
    if bytes.len() > MAX_ERROR_BYTES {
        bytes.take(MAX_ERROR_BYTES as int)
    } else {
        bytes
    }
}

/// A response as it is sent.
pub open spec fn encoded_response(response: ResponseView) -> Seq<u8> {
    le_bytes(response.completed as nat, 8) + match response.error {
        Some(error) => seq![1u8] + frame(sent_error(error)),
        None => seq![0u8],
    }
}

/// What the input says of a response, how much was completed and the bytes of the
/// error text where there is one, and what follows it.
pub open spec fn split_response(s: Seq<u8>) -> Result<
    ((nat, Option<Seq<u8>>), Seq<u8>),
    ProtocolError,
> {
    match split_input(s, 8) {
        Err(e) => Err(e),
        Ok((completed, rest)) => match split_input(rest, 1) {
            Err(e) => Err(e),
            Ok((failed, after)) => if failed[0] == 0 {
                Ok(((le_value(completed), None), after))
            } else if failed[0] == 1 {
                match split_frame(after) {
                    Err(e) => Err(e),
                    Ok((bytes, end)) => Ok(((le_value(completed), Some(bytes)), end)),
                }
            } else {
                Err(invalid_data(ErrorReason::InvalidResponse))
            },
        },
    }
}

/// What the input says of a response.
pub open spec fn decoded_response(s: Seq<u8>) -> Result<(nat, Option<Seq<u8>>), ProtocolError> {
    without_rest(split_response(s))
}

/// Whether a path may be sent.
pub fn validate_path(path: &FilePath) -> (r: Result<(), ProtocolError>)
    ensures
        match path_fault(path@) {
            Some(e) => r == Err::<(), ProtocolError>(e),
            None => r is Ok,
        },
{
    if path.bytes.len() > MAX_PATH_BYTES {
        return Err(ProtocolError::input(ErrorReason::PathTooLarge));
    }
    Ok(())
}

proof fn lemma_counting_prefix(names: Seq<Seq<char>>, n: int)
    requires
        0 <= n <= names.len(),
        counting_fault(names.take(n)) is Some,
    ensures
        counting_fault(names) == counting_fault(names.take(n)),
    decreases names.len() - n,
{
    if n < names.len() {
        assert(names.take(n + 1).drop_last() =~= names.take(n));
        lemma_counting_prefix(names, n + 1);
    } else {
        assert(names.take(n) =~= names);
    }
}

/// Whether names of restore origins may be sent.
pub fn validate_restore_origin_names(names: &[String]) -> (r: Result<(), ProtocolError>)
    ensures
        match names_fault(text_chars(names@)) {
            Some(e) => r == Err::<(), ProtocolError>(e),
            None => r is Ok,
        },
{
    if names.len() > MAX_ITEMS {
        return Err(ProtocolError::input(ErrorReason::TooManyNames));
    }
    let ghost all = text_chars(names@);
    let mut total: usize = 0;
    let mut i: usize = 0;
    assert(all.take(0) =~= Seq::<Seq<char>>::empty());
    while i < names.len()
        invariant
            i <= names@.len() <= MAX_ITEMS,
            all == text_chars(names@),
            all.len() == names@.len(),
            counting_fault(all.take(i as int)) is None,
            total == names_size(all.take(i as int)),
        decreases names@.len() - i,
    {
        let size: usize = names[i].as_str().as_bytes().len();
        proof {
            assert(all[i as int] == names@[i as int]@);
            assert(all.take(i + 1).drop_last() =~= all.take(i as int));
            assert(all.take(i + 1).last() == all[i as int]);
            if counting_fault(all.take(i + 1)) is Some {
                lemma_counting_prefix(all, i + 1);
            }
        }
        if size > MAX_PATH_BYTES {
            return Err(ProtocolError::input(ErrorReason::NameTooLarge));
        }
        match total.checked_add(size) {
            Some(sum) => {
                total = sum;
            },
            None => {
                return Err(ProtocolError::input(ErrorReason::NamesTooLarge));
            },
        }
        i = i + 1;
    }
    assert(all.take(all.len() as int) =~= all);
    if total > MAX_TOTAL_NAME_BYTES {
        return Err(ProtocolError::input(ErrorReason::NamesTooLarge));
    }
    Ok(())
}

/// Whether a request may be sent.
pub fn validate_request(request: &Request) -> (r: Result<(), ProtocolError>)
    ensures
        match request_fault(request@) {
            Some(e) => r == Err::<(), ProtocolError>(e),
            None => r is Ok,
        },
{
    match request {
        Request::Trash(paths) => {
            let ghost all = path_bytes(paths@);
            if paths.len() > MAX_ITEMS {
                return Err(ProtocolError::input(ErrorReason::TooManyPaths));
            }
            let mut i: usize = 0;
            while i < paths.len()
                invariant
                    i <= paths@.len() <= MAX_ITEMS,
                    all == path_bytes(paths@),
                    request@ == RequestView::Trash(all),
                    forall|j: int| 0 <= j < i ==> path_fault(#[trigger] all[j]) is None,
                decreases paths@.len() - i,
            {
                assert(all[i as int] == paths@[i as int]@);
                let checked: Result<(), ProtocolError> = validate_path(&paths[i]);
                if checked.is_err() {
                    assert(path_fault(all[i as int]) is Some);
                    return checked;
                }
                i = i + 1;
            }
            Ok(())
        },
        Request::Restore(path) => validate_path(path),
        Request::RemoveRestoreOrigins(names) => validate_restore_origin_names(names.as_slice()),
    }
}

/// Appends a path as a frame.
pub fn write_path(writer: &mut Vec<u8>, path: &FilePath) -> (r: Result<(), ProtocolError>)
    ensures
        path@.len() <= MAX_PATH_BYTES ==> r is Ok && final(writer)@ == old(writer)@ + frame(path@),
        path@.len() > MAX_PATH_BYTES ==> r == Err::<(), ProtocolError>(
            invalid_input(ErrorReason::FrameTooLarge),
        ) && final(writer)@ == old(writer)@,
{
    write_bytes(writer, path.bytes.as_slice())
}

proof fn lemma_frames_snoc(all: Seq<Seq<u8>>, n: int)
    requires
        0 <= n < all.len(),
    ensures
        frames(all.take(n + 1)) == frames(all.take(n)) + frame(all[n]),
    decreases n,
{
    if n == 0 {
        assert(all.take(0) =~= Seq::<Seq<u8>>::empty());
        assert(all.take(1).drop_first() =~= Seq::<Seq<u8>>::empty());
        assert(frames(all.take(1)) =~= frames(all.take(0)) + frame(all[0]));
    } else {
        let rest = all.drop_first();
        lemma_frames_snoc(rest, n - 1);
        assert(all.take(n + 1).drop_first() =~= rest.take(n));
        assert(all.take(n).drop_first() =~= rest.take(n - 1));
        assert(frames(all.take(n + 1)) =~= frames(all.take(n)) + frame(all[n]));
    }
}

proof fn lemma_small_names(names: Seq<Seq<char>>, n: int)
    requires
        0 <= n <= names.len(),
        counting_fault(names) is None,
    ensures
        counting_fault(names.take(n)) is None,
        forall|i: int| 0 <= i < n ==> encode_utf8(#[trigger] names[i]).len() <= MAX_PATH_BYTES,
        names_size(names.take(n)) <= names_size(names),
    decreases names.len(),
{
    if names.len() > 0 {
        let front = names.drop_last();
        if n == names.len() {
            lemma_small_names(front, n - 1);
            assert(names.take(n) =~= names);
            assert forall|i: int| 0 <= i < n implies encode_utf8(#[trigger] names[i]).len()
                <= MAX_PATH_BYTES by {
                if i < n - 1 {
                    assert(names[i] == front[i]);
                }
            }
        } else {
            lemma_small_names(front, n);
            assert(names.take(n) =~= front.take(n));
            assert forall|i: int| 0 <= i < n implies encode_utf8(#[trigger] names[i]).len()
                <= MAX_PATH_BYTES by {
                assert(names[i] == front[i]);
            }
        }
    } else {
        assert(names.take(n) =~= names);
    }
}

/// Appends a request. A request that may not be sent leaves the output as it
/// was.
pub fn write_request(writer: &mut Vec<u8>, request: &Request) -> (r: Result<(), ProtocolError>)
    ensures
        match request_fault(request@) {
            Some(e) => r == Err::<(), ProtocolError>(e) && final(writer)@ == old(writer)@,
            None => r is Ok && final(writer)@ == old(writer)@ + encoded_request(request@),
        },
{
    let ghost before = writer@;
    let checked: Result<(), ProtocolError> = validate_request(request);
    if checked.is_err() {
        return checked;
    }
    writer.push(69);
    writer.push(85);
    writer.push(1);
    let ghost head = before + request_header();
    assert(writer@ =~= head);
    match request {
        Request::Trash(paths) => {
            let ghost all = path_bytes(paths@);
            writer.push(1);
            let counted: Result<(), ProtocolError> = write_u32(writer, paths.len());
            if counted.is_err() {
                return counted;
            }
            let ghost start = head + seq![1u8] + le_bytes(all.len(), 4);
            assert(writer@ =~= start);
            let mut i: usize = 0;
            assert(all.take(0) =~= Seq::<Seq<u8>>::empty());
            assert(writer@ =~= start + frames(all.take(0)));
            while i < paths.len()
                invariant
                    i <= paths@.len(),
                    all == path_bytes(paths@),
                    all.len() == paths@.len(),
                    forall|j: int| 0 <= j < all.len() ==> path_fault(#[trigger] all[j]) is None,
                    writer@ == start + frames(all.take(i as int)),
                decreases paths@.len() - i,
            {
                assert(all[i as int] == paths@[i as int]@);
                let written: Result<(), ProtocolError> = write_path(writer, &paths[i]);
                if written.is_err() {
                    assert(path_fault(all[i as int]) is None);
                    assert(false);
                    return written;
                }
                proof {
                    lemma_frames_snoc(all, i as int);
                    assert(writer@ =~= start + frames(all.take(i + 1)));
                }
                i = i + 1;
            }
            assert(all.take(all.len() as int) =~= all);
            assert(writer@ =~= before + encoded_request(request@));
            Ok(())
        },
        Request::Restore(path) => {
            writer.push(2);
            let written: Result<(), ProtocolError> = write_path(writer, path);
            assert(writer@ =~= before + encoded_request(request@));
            written
        },
        Request::RemoveRestoreOrigins(names) => {
            let ghost chars = text_chars(names@);
            let ghost all = name_bytes(chars);
            proof {
                lemma_small_names(chars, chars.len() as int);
            }
            writer.push(3);
            let counted: Result<(), ProtocolError> = write_u32(writer, names.len());
            if counted.is_err() {
                return counted;
            }
            let ghost start = head + seq![3u8] + le_bytes(all.len(), 4);
            assert(writer@ =~= start);
            let mut i: usize = 0;
            assert(all.take(0) =~= Seq::<Seq<u8>>::empty());
            assert(writer@ =~= start + frames(all.take(0)));
            while i < names.len()
                invariant
                    i <= names@.len(),
                    chars == text_chars(names@),
                    all == name_bytes(chars),
                    all.len() == names@.len(),
                    forall|j: int|
                        0 <= j < chars.len() ==> encode_utf8(#[trigger] chars[j]).len()
                            <= MAX_PATH_BYTES,
                    writer@ == start + frames(all.take(i as int)),
                decreases names@.len() - i,
            {
                assert(chars[i as int] == names@[i as int]@);
                assert(all[i as int] == encode_utf8(chars[i as int]));
                let written: Result<(), ProtocolError> = write_bytes(
                    writer,
                    names[i].as_str().as_bytes(),
                );
                if written.is_err() {
                    assert(false);
                    return written;
                }
                proof {
                    lemma_frames_snoc(all, i as int);
                    assert(writer@ =~= start + frames(all.take(i + 1)));
                }
                i = i + 1;
            }
            assert(all.take(all.len() as int) =~= all);
            assert(writer@ =~= before + encoded_request(request@));
            Ok(())
        },
    }
}

fn copy_to_vec(bytes: &[u8]) -> (r: Vec<u8>)
    ensures
        r@ == bytes@,
{
    let mut out: Vec<u8> = Vec::new();
    push_all(&mut out, bytes);
    assert(out@ =~= bytes@);
    out
}

/// Reads a path.
pub fn read_path<'a>(reader: &mut ByteReader<'a>) -> (r: Result<FilePath, ProtocolError>)
    requires
        old(reader).wf(),
    ensures
        final(reader).wf(),
        match split_frame(old(reader).rest()) {
            Ok((bytes, rest)) => r is Ok && r->Ok_0@ == bytes && final(reader).rest() == rest,
            Err(e) => r == Err::<FilePath, ProtocolError>(e),
        },
{
    match reader.read_bytes() {
        Ok(bytes) => Ok(FilePath::from_bytes(copy_to_vec(bytes))),
        Err(e) => Err(e),
    }
}

/// Extends a list of decoded items by the outcome of decoding the rest.
pub open spec fn prepend<T>(
    done: Seq<T>,
    rest: Result<(Seq<T>, Seq<u8>), ProtocolError>,
) -> Result<(Seq<T>, Seq<u8>), ProtocolError> {
    match rest {
        Ok((items, end)) => Ok((done + items, end)),
        Err(e) => Err(e),
    }
}

fn read_paths<'a>(reader: &mut ByteReader<'a>, count: usize) -> (r: Result<
    Vec<FilePath>,
    ProtocolError,
>)
    requires
        old(reader).wf(),
    ensures
        final(reader).wf(),
        match split_frames(old(reader).rest(), count as nat) {
            Ok((paths, rest)) => r is Ok && path_bytes(r->Ok_0@) == paths && final(reader).rest()
                == rest,
            Err(e) => r == Err::<Vec<FilePath>, ProtocolError>(e),
        },
{
    let ghost goal = split_frames(reader.rest(), count as nat);
    let mut paths: Vec<FilePath> = Vec::new();
    let mut left: usize = count;
    proof {
        if let Ok((items, _)) = goal {
            assert(path_bytes(paths@) + items =~= items);
        }
    }
    while left > 0
        invariant
            reader.wf(),
            goal == split_frames(old(reader).rest(), count as nat),
            goal == prepend(path_bytes(paths@), split_frames(reader.rest(), left as nat)),
        decreases left,
    {
        let ghost before = reader.rest();
        let ghost done = path_bytes(paths@);
        match read_path(reader) {
            Ok(path) => {
                let ghost first = path@;
                paths.push(path);
                left = left - 1;
                proof {
                    assert(path_bytes(paths@) =~= done.push(first));
                    if let Ok((others, _)) = split_frames(reader.rest(), left as nat) {
                        assert(done + (seq![first] + others) =~= done.push(first) + others);
                    }
                }
            },
            Err(e) => {
                return Err(e);
            },
        }
    }
    assert(path_bytes(paths@) + Seq::<Seq<u8>>::empty() =~= path_bytes(paths@));
    Ok(paths)
}

fn read_names<'a>(reader: &mut ByteReader<'a>, count: usize) -> (r: Result<
    Vec<String>,
    ProtocolError,
>)
    requires
        old(reader).wf(),
    ensures
        final(reader).wf(),
        match split_names(old(reader).rest(), count as nat, 0) {
            Ok((names, rest)) => r is Ok && text_chars(r->Ok_0@) == names && final(reader).rest()
                == rest,
            Err(e) => r == Err::<Vec<String>, ProtocolError>(e),
        },
{
    let ghost goal = split_names(reader.rest(), count as nat, 0);
    let mut names: Vec<String> = Vec::new();
    let mut left: usize = count;
    let mut total: usize = 0;
    proof {
        if let Ok((items, _)) = goal {
            assert(text_chars(names@) + items =~= items);
        }
    }
    while left > 0
        invariant
            reader.wf(),
            total <= MAX_TOTAL_NAME_BYTES,
            goal == split_names(old(reader).rest(), count as nat, 0),
            goal == prepend(
                text_chars(names@),
                split_names(reader.rest(), left as nat, total as nat),
            ),
        decreases left,
    {
        let ghost before = reader.rest();
        let ghost done = text_chars(names@);
        proof {
            lemma_split_frame_is_frame(before);
        }
        match reader.read_bytes() {
            Ok(bytes) => {
                total = total + bytes.len();
                if total > MAX_TOTAL_NAME_BYTES {
                    return Err(ProtocolError::data(ErrorReason::NamesTooLarge));
                }
                match utf8_text(bytes) {
                    Some(text) => {
                        let ghost first = text@;
                        names.push(text.to_owned());
                        left = left - 1;
                        proof {
                            assert(text_chars(names@) =~= done.push(first));
                            if let Ok((others, _)) = split_names(
                                reader.rest(),
                                left as nat,
                                total as nat,
                            ) {
                                assert(done + (seq![first] + others) =~= done.push(first) + others);
                            }
                        }
                    },
                    None => {
                        return Err(ProtocolError::data(ErrorReason::NameNotUtf8));
                    },
                }
            },
            Err(e) => {
                return Err(e);
            },
        }
    }
    assert(text_chars(names@) + Seq::<Seq<char>>::empty() =~= text_chars(names@));
    Ok(names)
}

fn is_request_header(header: &[u8]) -> (r: bool)
    requires
        header@.len() == 3,
    ensures
        r == (header@ == request_header()),
{
    let r: bool = header[0] == 69 && header[1] == 85 && header[2] == 1;
    proof {
        if r {
            assert(header@ =~= request_header());
        } else {
            assert(request_header()[0] == 69 && request_header()[1] == 85 && request_header()[2]
                == 1);
        }
    }
    r
}

/// Reads the request that the input starts with. What follows it is left
/// unread.
pub fn read_request<'a>(reader: &mut ByteReader<'a>, platform: Platform) -> (r: Result<
    Request,
    ProtocolError,
>)
    requires
        old(reader).wf(),
    ensures
        final(reader).wf(),
        match split_request(old(reader).rest(), platform) {
            Ok((request, rest)) => r is Ok && r->Ok_0@ == request && final(reader).rest() == rest,
            Err(e) => r == Err::<Request, ProtocolError>(e),
        },
{
    let header: &[u8] = match reader.read_exact(3) {
        Ok(bytes) => bytes,
        Err(e) => {
            return Err(e);
        },
    };
    if !is_request_header(header) {
        return Err(ProtocolError::data(ErrorReason::UnsupportedProtocol));
    }
    let opcode: u8 = match reader.read_exact(1) {
        Ok(bytes) => bytes[0],
        Err(e) => {
            return Err(e);
        },
    };
    if opcode == 1 {
        let count: usize = match reader.read_u32() {
            Ok(count) => count,
            Err(e) => {
                return Err(e);
            },
        };
        if count > MAX_ITEMS {
            return Err(ProtocolError::data(ErrorReason::TooManyPaths));
        }
        match read_paths(reader, count) {
            Ok(paths) => Ok(Request::Trash(paths)),
            Err(e) => Err(e),
        }
    } else if opcode == 2 {
        match read_path(reader) {
            Ok(path) => Ok(Request::Restore(path)),
            Err(e) => Err(e),
        }
    } else if opcode == 3 && platform == Platform::MacOs {
        let count: usize = match reader.read_u32() {
            Ok(count) => count,
            Err(e) => {
                return Err(e);
            },
        };
        if count > MAX_ITEMS {
            return Err(ProtocolError::data(ErrorReason::TooManyNames));
        }
        match read_names(reader, count) {
            Ok(names) => Ok(Request::RemoveRestoreOrigins(names)),
            Err(e) => Err(e),
        }
    } else {
        Err(ProtocolError::data(ErrorReason::UnknownRequest))
    }
}

/// Appends a response. Only the first bytes of a long error text are sent.
pub fn write_response(writer: &mut Vec<u8>, response: &Response) -> (r: Result<(), ProtocolError>)
    ensures
        r is Ok,
        final(writer)@ == old(writer)@ + encoded_response(response@),
{
    let ghost before = writer@;
    write_low_bytes(writer, response.completed as u64, 8);
    match &response.error {
        Some(error) => {
            writer.push(1);
            let bytes: &[u8] = error.as_str().as_bytes();
            let sent: &[u8] = if bytes.len() > MAX_ERROR_BYTES {
                slice_subrange(bytes, 0, MAX_ERROR_BYTES)
            } else {
                bytes
            };
            assert(sent@ =~= sent_error(error@));
            let written: Result<(), ProtocolError> = write_bytes(writer, sent);
            assert(writer@ =~= before + encoded_response(response@));
            written
        },
        None => {
            writer.push(0);
            assert(writer@ =~= before + encoded_response(response@));
            Ok(())
        },
    }
}

/// Reads the response that the input starts with. Ill-formed parts of the
/// error text are replaced. What follows the response is left unread.
pub fn read_response<'a>(reader: &mut ByteReader<'a>) -> (r: Result<Response, ProtocolError>)
    requires
        old(reader).wf(),
    ensures
        final(reader).wf(),
        match split_response(old(reader).rest()) {
            Ok(((completed, error), rest)) => r is Ok && final(reader).rest() == rest
                && r->Ok_0.completed == completed as usize && (match error {
                Some(bytes) => r->Ok_0.error is Some && r->Ok_0.error->0@ == utf8_lossy(bytes) && (
                valid_utf8(bytes) ==> r->Ok_0.error->0@ == decode_utf8(bytes)),
                None => r->Ok_0.error is None,
            }),
            Err(e) => r == Err::<Response, ProtocolError>(e),
        },
{
    let completed: u64 = match reader.read_exact(8) {
        Ok(bytes) => low_value(bytes),
        Err(e) => {
            return Err(e);
        },
    };
    let failed: u8 = match reader.read_exact(1) {
        Ok(bytes) => bytes[0],
        Err(e) => {
            return Err(e);
        },
    };
    if failed == 0 {
        Ok(Response { completed: completed as usize, error: None })
    } else if failed == 1 {
        match reader.read_bytes() {
            Ok(bytes) => Ok(
                Response { completed: completed as usize, error: Some(lossy_text(bytes)) },
            ),
            Err(e) => Err(e),
        }
    } else {
        Err(ProtocolError::data(ErrorReason::InvalidResponse))
    }
}

/// The answer to a restore request.
pub fn restore_response(result: Result<(), String>) -> (r: Response)
    ensures
        match result {
            Ok(_) => r.completed == 1 && r.error is None,
            Err(text) => r.completed == 0 && r.error is Some && r.error->0@ == text@,
        },
{
    match result {
        Ok(_) => Response { completed: 1, error: None },
        Err(text) => Response { completed: 0, error: Some(text) },
    }
}

/// The answer to a restore request whose bookkeeping may fail on its own: such
/// a failure is reported, and the restore still counts as done.
pub fn checked_restore_response(result: Result<Option<String>, String>) -> (r: Response)
    ensures
        match result {
            Ok(None) => r.completed == 1 && r.error is None,
            Ok(Some(text)) => r.completed == 1 && r.error is Some && r.error->0@
                == "could not update Trash restore metadata: "@ + text@,
            Err(text) => r.completed == 0 && r.error is Some && r.error->0@ == text@,
        },
{
    match result {
        Ok(None) => Response { completed: 1, error: None },
        Ok(Some(text)) => Response {
            completed: 1,
            error: Some(concat("could not update Trash restore metadata: ", text.as_str())),
        },
        Err(text) => Response { completed: 0, error: Some(text) },
    }
}

/// The answer to a request to forget restore origins.
pub fn remove_origins_response(count: usize, result: Result<(), String>) -> (r: Response)
    ensures
        match result {
            Ok(_) => r.completed == count && r.error is None,
            Err(text) => r.completed == 0 && r.error is Some && r.error->0@ == text@,
        },
{
    match result {
        Ok(_) => Response { completed: count, error: None },
        Err(text) => Response { completed: 0, error: Some(text) },
    }
}

/// Why the helper gives up before it acts.
#[derive(PartialEq, Eq, Debug)]
pub enum HelperFailure {
    Unsupported,
    Credentials(CredentialError),
    Protocol(ProtocolError),
}

/// The text that describes a failure.
pub open spec fn failure_text(failure: HelperFailure) -> Seq<char> {
    match failure {
        HelperFailure::Unsupported =>
            "user filesystem helper is unsupported on this platform"@,
        HelperFailure::Credentials(error) => refusal_text(error),
        HelperFailure::Protocol(error) => reason_text(error.reason),
    }
}

impl HelperFailure {
    pub fn message(&self) -> (r: String)
        ensures
            r@ == failure_text(*self),
    {
        match self {
            HelperFailure::Unsupported => String::from_str(
                "user filesystem helper is unsupported on this platform",
            ),
            HelperFailure::Credentials(error) => error.message(),
            HelperFailure::Protocol(error) => String::from_str(error.message()),
        }
    }
}

/// Decides what a started helper does: which request it carries out, or why it
/// carries out none. The request is looked at only once the credentials hold.
pub fn run(
    platform: Platform,
    environment: &HelperEnvironment,
    process: &ProcessCredentials,
    input: &[u8],
) -> (r: Result<Request, HelperFailure>)
    ensures
        match r {
            Ok(request) => {
                &&& platform.unix()
                &&& credential_fault(*environment, *process, platform) is None
                &&& decoded_request(input@, platform) == Ok::<RequestView, ProtocolError>(
                    request@,
                )
            },
            Err(HelperFailure::Unsupported) => !platform.unix(),
            Err(HelperFailure::Credentials(error)) => {
                &&& platform.unix()
                &&& credential_fault(*environment, *process, platform) == Some(error)
            },
            Err(HelperFailure::Protocol(error)) => {
                &&& platform.unix()
                &&& credential_fault(*environment, *process, platform) is None
                &&& decoded_request(input@, platform) == Err::<RequestView, ProtocolError>(error)
            },
        },
{
    if !platform.is_unix() {
        return Err(HelperFailure::Unsupported);
    }
    match validate_credentials(environment, process, platform) {
        Ok(()) => {},
        Err(error) => return Err(HelperFailure::Credentials(error)),
    }
    let mut reader: ByteReader = ByteReader::new(input);
    match read_request(&mut reader, platform) {
        Ok(request) => Ok(request),
        Err(error) => Err(HelperFailure::Protocol(error)),
    }
}

} // verus!
