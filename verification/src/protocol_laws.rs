//! What goes to the helper and what comes back.

use crate::environment::EnvName;
use crate::helper_credentials::{refusal_text, CredentialError};
use crate::ids::listed_ids;
use crate::invoking_user::InvokingUserView;
use crate::invoking_user_command::SessionPaths;
use crate::invoking_user_fs::{
    bad_request_text, failed_helper_text, helper_environment, helper_result, received_response,
    HelperOutcome,
};
use crate::platform::Platform;
use crate::text::{decimal, trimmed_back, trimmed_front, trimmed_text, utf8_lossy};
use crate::user_fs_helper::{
    counting_fault, decoded_response, encoded_request, encoded_response, failure_text, names_size,
    path_fault, request_fault, sent_error, split_body, split_names, split_request,
    split_response, HelperFailure, RequestView, ResponseView,
};
use crate::wire::{
    frame, frames, le_bytes, le_value, lemma_frame_round_trip, lemma_le_bytes, lemma_le_limits,
    reason_text, split_frame, split_u32, ErrorKind, ErrorReason, ProtocolError,
};
use vstd::prelude::*;
use vstd::utf8::{decode_utf8, encode_utf8, valid_utf8};

verus! {

/// Numbers go from the lowest byte on, four or eight of them.
pub proof fn lemma_numbers_go_low_byte_first(n: nat, s: Seq<u8>)
    ensures
        le_bytes(n, 4) == seq![
            (n % 256) as u8,
            (n / 256 % 256) as u8,
            (n / 256 / 256 % 256) as u8,
            (n / 256 / 256 / 256 % 256) as u8,
        ],
        le_bytes(n, 8).len() == 8,
        forall|i: int|
            0 <= i < 4 ==> #[trigger] le_bytes(n, 8)[i] == le_bytes(n, 4)[i],
        le_bytes(n, 8).skip(4) == le_bytes(n / 256 / 256 / 256 / 256, 4),
        s.len() == 4 ==> le_value(s) == s[0] + 256 * s[1] + 65536 * s[2] + 16777216 * s[3],
{
    reveal_with_fuel(le_bytes, 9);
    reveal_with_fuel(le_value, 5);
    lemma_le_bytes(n, 8);
    lemma_le_bytes(n, 4);
    let high = n / 256 / 256 / 256 / 256;
    lemma_le_bytes(high, 4);
    assert(le_bytes(n, 4) =~= seq![
        (n % 256) as u8,
        (n / 256 % 256) as u8,
        (n / 256 / 256 % 256) as u8,
        (n / 256 / 256 / 256 % 256) as u8,
    ]);
    assert(le_bytes(n, 8) =~= le_bytes(n, 4) + le_bytes(high, 4));
    assert(le_bytes(n, 8).skip(4) =~= le_bytes(high, 4));
    if s.len() == 4 {
        let a = s.drop_first();
        let b = a.drop_first();
        let c = b.drop_first();
        assert(a[0] == s[1] && b[0] == s[2] && c[0] == s[3]);
        assert(c.drop_first().len() == 0);
    }
}

/// Bytes go behind their number, in four bytes; several go one behind the other.
pub proof fn lemma_frames_follow_each_other(bytes: Seq<u8>, more: Seq<Seq<u8>>)
    ensures
        frame(bytes) == le_bytes(bytes.len(), 4) + bytes,
        frames(Seq::empty()) == Seq::<u8>::empty(),
        frames(seq![bytes] + more) == le_bytes(bytes.len(), 4) + bytes + frames(more),
{
    let all = seq![bytes] + more;
    assert(all[0] == bytes);
    assert(all.drop_first() =~= more);
}

/// A request begins with `EU` and the version, one, then what is asked for: one for
/// trashing, two for restoring, three for forgetting where things came from.
pub proof fn lemma_requests_are_written(
    paths: Seq<Seq<u8>>,
    path: Seq<u8>,
    names: Seq<Seq<char>>,
)
    ensures
        encoded_request(RequestView::Trash(paths)) == seq![69u8, 85u8, 1u8, 1u8] + le_bytes(
            paths.len(),
            4,
        ) + frames(paths),
        encoded_request(RequestView::Restore(path)) == seq![69u8, 85u8, 1u8, 2u8] + le_bytes(
            path.len(),
            4,
        ) + path,
        encoded_request(RequestView::RemoveRestoreOrigins(names)) == seq![69u8, 85u8, 1u8, 3u8]
            + le_bytes(names.len(), 4) + frames(
            names.map_values(|n: Seq<char>| encode_utf8(n)),
        ),
{
    assert(encoded_request(RequestView::Trash(paths)) =~= seq![69u8, 85u8, 1u8, 1u8] + le_bytes(
        paths.len(),
        4,
    ) + frames(paths));
    assert(encoded_request(RequestView::Restore(path)) =~= seq![69u8, 85u8, 1u8, 2u8] + le_bytes(
        path.len(),
        4,
    ) + path);
    assert(encoded_request(RequestView::RemoveRestoreOrigins(names)) =~= seq![
        69u8,
        85u8,
        1u8,
        3u8,
    ] + le_bytes(names.len(), 4) + frames(names.map_values(|n: Seq<char>| encode_utf8(n))));
}

/// A request for trashing is in order exactly where it has at most 16384 paths, each of
/// at most a MiB; one for restoring where its path has at most a MiB.
pub proof fn lemma_paths_have_limits(paths: Seq<Seq<u8>>, path: Seq<u8>)
    ensures
        request_fault(RequestView::Trash(paths)) is None <==> paths.len() <= 16384 && forall|i: int|
            0 <= i < paths.len() ==> (#[trigger] paths[i]).len() <= 1048576,
        paths.len() > 16384 ==> request_fault(RequestView::Trash(paths)) == Some(
            ProtocolError { kind: ErrorKind::InvalidInput, reason: ErrorReason::TooManyPaths },
        ),
        paths.len() <= 16384 && request_fault(RequestView::Trash(paths)) is Some
            ==> request_fault(RequestView::Trash(paths)) == Some(
            ProtocolError { kind: ErrorKind::InvalidInput, reason: ErrorReason::PathTooLarge },
        ),
        path.len() <= 1048576 ==> request_fault(RequestView::Restore(path)) is None,
        path.len() > 1048576 ==> request_fault(RequestView::Restore(path)) == Some(
            ProtocolError { kind: ErrorKind::InvalidInput, reason: ErrorReason::PathTooLarge },
        ),
{
    if request_fault(RequestView::Trash(paths)) is None {
        assert forall|i: int| 0 <= i < paths.len() implies (#[trigger] paths[i]).len()
            <= 1048576 by {
            assert(path_fault(paths[i]) is None);
        }
    }
}

proof fn lemma_counted_names(names: Seq<Seq<char>>)
    ensures
        counting_fault(names) is None <==> (forall|i: int|
            0 <= i < names.len() ==> encode_utf8(#[trigger] names[i]).len() <= 1048576)
            && names_size(names) <= usize::MAX,
    decreases names.len(),
{
    if names.len() > 0 {
        let fewer = names.drop_last();
        lemma_counted_names(fewer);
        assert(names[names.len() - 1] == names.last());
        if counting_fault(names) is None {
            assert forall|i: int| 0 <= i < names.len() implies encode_utf8(
                #[trigger] names[i],
            ).len() <= 1048576 by {
                if i < fewer.len() {
                    assert(fewer[i] == names[i]);
                }
            }
        } else if forall|i: int|
            0 <= i < names.len() ==> encode_utf8(#[trigger] names[i]).len() <= 1048576 {
            assert forall|i: int| 0 <= i < fewer.len() implies encode_utf8(
                #[trigger] fewer[i],
            ).len() <= 1048576 by {
                assert(fewer[i] == names[i]);
            }
        }
    }
}

/// A request for forgetting is in order exactly where it has at most 16384 names, each of
/// at most a MiB and all of at most 16 MiB together.
pub proof fn lemma_names_have_limits(names: Seq<Seq<char>>)
    ensures
        request_fault(RequestView::RemoveRestoreOrigins(names)) is None <==> names.len() <= 16384
            && names_size(names) <= 16777216 && forall|i: int|
            0 <= i < names.len() ==> encode_utf8(#[trigger] names[i]).len() <= 1048576,
        names.len() > 16384 ==> request_fault(RequestView::RemoveRestoreOrigins(names)) == Some(
            ProtocolError { kind: ErrorKind::InvalidInput, reason: ErrorReason::TooManyNames },
        ),
{
    lemma_counted_names(names);
}

/// The size of names is the sum of their bytes.
pub proof fn lemma_names_are_added_up(names: Seq<Seq<char>>, name: Seq<char>)
    ensures
        names_size(Seq::empty()) == 0,
        names_size(names.push(name)) == names_size(names) + encode_utf8(name).len(),
{
    assert(names.push(name).drop_last() =~= names);
}

/// What does not begin with `EU` and the version is refused, and so is what asks for
/// something unknown; forgetting is known on macOS only.
pub proof fn lemma_unknown_requests_are_refused(s: Seq<u8>, platform: Platform)
    requires
        s.len() >= 4,
    ensures
        s.take(3) != seq![69u8, 85u8, 1u8] ==> split_request(s, platform) == Err::<
            (RequestView, Seq<u8>),
            ProtocolError,
        >(
            ProtocolError {
                kind: ErrorKind::InvalidData,
                reason: ErrorReason::UnsupportedProtocol,
            },
        ),
        s.take(3) == seq![69u8, 85u8, 1u8] && s[3] != 1 && s[3] != 2 && (s[3] != 3 || platform
            != Platform::MacOs) ==> split_request(s, platform) == Err::<
            (RequestView, Seq<u8>),
            ProtocolError,
        >(ProtocolError { kind: ErrorKind::InvalidData, reason: ErrorReason::UnknownRequest }),
{
    assert(s.skip(3).take(1)[0] == s[3]);
}

/// A request for more than 16384 things is refused before any of them is read.
pub proof fn lemma_long_requests_are_refused(count: nat, rest: Seq<u8>)
    requires
        16384 < count < 0x1_0000_0000,
    ensures
        split_body(1, le_bytes(count, 4) + rest, Platform::Linux) == Err::<
            (RequestView, Seq<u8>),
            ProtocolError,
        >(ProtocolError { kind: ErrorKind::InvalidData, reason: ErrorReason::TooManyPaths }),
        split_body(3, le_bytes(count, 4) + rest, Platform::MacOs) == Err::<
            (RequestView, Seq<u8>),
            ProtocolError,
        >(ProtocolError { kind: ErrorKind::InvalidData, reason: ErrorReason::TooManyNames }),
{
    lemma_count_is_read(count, rest);
}

proof fn lemma_count_is_read(count: nat, rest: Seq<u8>)
    requires
        count < 0x1_0000_0000,
    ensures
        split_u32(le_bytes(count, 4) + rest) == Ok::<(nat, Seq<u8>), ProtocolError>((count, rest)),
{
    lemma_le_bytes(count, 4);
    lemma_le_limits();
    let s = le_bytes(count, 4) + rest;
    assert(s.take(4) =~= le_bytes(count, 4));
    assert(s.skip(4) =~= rest);
}

/// Bytes that are said to be more than a MiB are refused before they are read.
pub proof fn lemma_long_frames_are_refused(count: nat, rest: Seq<u8>)
    requires
        count < 0x1_0000_0000,
    ensures
        count > 1048576 ==> split_frame(le_bytes(count, 4) + rest) == Err::<
            (Seq<u8>, Seq<u8>),
            ProtocolError,
        >(ProtocolError { kind: ErrorKind::InvalidData, reason: ErrorReason::FrameTooLarge }),
        count <= 1048576 && rest.len() < count ==> split_frame(le_bytes(count, 4) + rest) == Err::<
            (Seq<u8>, Seq<u8>),
            ProtocolError,
        >(ProtocolError { kind: ErrorKind::UnexpectedEof, reason: ErrorReason::EndOfInput }),
        count <= 1048576 && rest.len() >= count ==> split_frame(le_bytes(count, 4) + rest) == Ok::<
            (Seq<u8>, Seq<u8>),
            ProtocolError,
        >((rest.subrange(0, count as int), rest.subrange(count as int, rest.len() as int))),
{
    lemma_count_is_read(count, rest);
    if rest.len() >= count {
        assert(rest.take(count as int) =~= rest.subrange(0, count as int));
        assert(rest.skip(count as int) =~= rest.subrange(count as int, rest.len() as int));
    }
}

/// A response is how much was done, in eight bytes, then a zero where nothing went wrong,
/// else a one and the error, of which 16384 bytes are sent at most.
pub proof fn lemma_responses_are_written(completed: usize, error: Seq<char>)
    ensures
        encoded_response(ResponseView { completed, error: None }) == le_bytes(completed as nat, 8)
            + seq![0u8],
        encoded_response(ResponseView { completed, error: Some(error) }) == le_bytes(
            completed as nat,
            8,
        ) + seq![1u8] + le_bytes(sent_error(error).len(), 4) + sent_error(error),
        encode_utf8(error).len() <= 16384 ==> sent_error(error) == encode_utf8(error),
        encode_utf8(error).len() > 16384 ==> sent_error(error) == encode_utf8(error).subrange(
            0,
            16384,
        ),
{
    let response = ResponseView { completed, error: Some(error) };
    assert(encoded_response(response) =~= le_bytes(completed as nat, 8) + seq![1u8] + le_bytes(
        sent_error(error).len(),
        4,
    ) + sent_error(error));
    if encode_utf8(error).len() > 16384 {
        assert(encode_utf8(error).take(16384) =~= encode_utf8(error).subrange(0, 16384));
    }
}

/// A response that says neither that it went well nor that it did not is refused.
pub proof fn lemma_unknown_responses_are_refused(s: Seq<u8>)
    requires
        s.len() >= 9,
        s[8] > 1,
    ensures
        split_response(s) == Err::<((nat, Option<Seq<u8>>), Seq<u8>), ProtocolError>(
            ProtocolError { kind: ErrorKind::InvalidData, reason: ErrorReason::InvalidResponse },
        ),
{
    assert(s.skip(8).take(1)[0] == s[8]);
}

/// What is said of each fault.
pub proof fn lemma_faults_are_told(error: ProtocolError)
    ensures
        reason_text(ErrorReason::EndOfInput) == "failed to fill whole buffer"@,
        reason_text(ErrorReason::FrameTooLarge) == "frame too large"@,
        reason_text(ErrorReason::InvalidResponse) == "invalid response"@,
        reason_text(ErrorReason::NameNotUtf8) == "name is not UTF-8"@,
        reason_text(ErrorReason::NameTooLarge) == "name too large"@,
        reason_text(ErrorReason::NamesTooLarge) == "names are too large"@,
        reason_text(ErrorReason::PathTooLarge) == "path too large"@,
        reason_text(ErrorReason::TooManyNames) == "too many names"@,
        reason_text(ErrorReason::TooManyPaths) == "too many paths"@,
        reason_text(ErrorReason::UnknownRequest) == "unknown request"@,
        reason_text(ErrorReason::UnsupportedProtocol) == "unsupported helper protocol"@,
        reason_text(ErrorReason::ValueTooLarge) == "value too large"@,
        failure_text(HelperFailure::Unsupported)
            == "user filesystem helper is unsupported on this platform"@,
        failure_text(HelperFailure::Protocol(error)) == reason_text(error.reason),
        bad_request_text(error) == "invalid invoking-user request: "@ + reason_text(error.reason),
{
}

/// The helper is told for whom it runs, runs at home, and sees the user's own environment.
pub proof fn lemma_helper_is_told_for_whom(user: InvokingUserView, session: SessionPaths)
    ensures
        ({
            let env = helper_environment(user, session);
            &&& env.contains_pair(
                EnvName::HelperUid,
                Some(encode_utf8(decimal(user.uid as nat))),
            )
            &&& env.contains_pair(
                EnvName::HelperGid,
                Some(encode_utf8(decimal(user.gid as nat))),
            )
            &&& env.contains_pair(
                EnvName::HelperGroups,
                Some(encode_utf8(listed_ids(user.groups))),
            )
            &&& env.contains_pair(EnvName::Pwd, Some(user.home))
            &&& env.contains_pair(EnvName::Home, Some(user.home))
            &&& env.contains_pair(EnvName::User, Some(user.name))
            &&& env.contains_pair(EnvName::Logname, Some(user.name))
            &&& env.contains_pair(EnvName::SudoUid, None)
            &&& env.contains_pair(EnvName::DoasUser, None)
        }),
{
}

/// What became of a helper: it did not start, could not be told or awaited, failed with
/// what it said, or answered.
pub proof fn lemma_outcomes_are_told(error: String, stdout: Vec<u8>, stderr: Vec<u8>)
    ensures
        helper_result(HelperOutcome::NotStarted(error)) == Err::<ResponseView, Seq<char>>(
            "could not start invoking-user helper: "@ + error@,
        ),
        helper_result(HelperOutcome::WithoutInput) == Err::<ResponseView, Seq<char>>(
            "could not send invoking-user request: "@ + "invoking-user helper has no stdin"@,
        ),
        helper_result(HelperOutcome::NotSent(error)) == Err::<ResponseView, Seq<char>>(
            "could not send invoking-user request: "@ + error@,
        ),
        helper_result(HelperOutcome::NotAwaited(error)) == Err::<ResponseView, Seq<char>>(
            "could not wait for invoking-user helper: "@ + error@,
        ),
        helper_result(HelperOutcome::Exited { success: false, stdout, stderr }) == Err::<
            ResponseView,
            Seq<char>,
        >(failed_helper_text(stderr@)),
        received_response(stdout@) is Ok ==> helper_result(
            HelperOutcome::Exited { success: true, stdout, stderr },
        ) == Ok::<ResponseView, Seq<char>>(received_response(stdout@)->Ok_0),
        received_response(stdout@) is Err ==> helper_result(
            HelperOutcome::Exited { success: true, stdout, stderr },
        ) == Err::<ResponseView, Seq<char>>(
            "invalid invoking-user helper response: "@ + reason_text(
                received_response(stdout@)->Err_0.reason,
            ),
        ),
{
}

/// A response that is read says how much was done, and the error as text.
pub proof fn lemma_responses_are_received(bytes: Seq<u8>)
    ensures
        decoded_response(bytes) matches Ok((completed, error)) ==> received_response(bytes) is Ok
            && received_response(bytes)->Ok_0.completed == completed as usize && (error is None
            ==> received_response(bytes)->Ok_0.error is None) && (error is Some
            ==> received_response(bytes)->Ok_0.error == Some(utf8_lossy(error->0))),
        decoded_response(bytes) is Err ==> received_response(bytes) == Err::<
            ResponseView,
            ProtocolError,
        >(decoded_response(bytes)->Err_0),
{
}

/// Whether a character is white space.
pub open spec fn is_blank(c: char) -> bool {
    let n = c as int;
    (9 <= n <= 13) || n == 32 || n == 133 || n == 160 || n == 5760 || (8192 <= n <= 8202) || n
        == 8232 || n == 8233 || n == 8239 || n == 8287 || n == 12288
}

proof fn lemma_front_is_blank(text: Seq<char>) -> (n: int)
    ensures
        0 <= n <= text.len(),
        trimmed_front(text) == text.skip(n),
        forall|i: int| 0 <= i < n ==> is_blank(#[trigger] text[i]),
        n < text.len() ==> !is_blank(text[n]),
    decreases text.len(),
{
    if text.len() > 0 && is_blank(text[0]) {
        let rest = text.drop_first();
        let m = lemma_front_is_blank(rest);
        assert(rest.skip(m) =~= text.skip(m + 1));
        assert forall|i: int| 0 <= i < m + 1 implies is_blank(#[trigger] text[i]) by {
            if i > 0 {
                assert(rest[i - 1] == text[i]);
            }
        }
        if m < rest.len() {
            assert(rest[m] == text[m + 1]);
        }
        m + 1
    } else {
        assert(text.skip(0) =~= text);
        0
    }
}

proof fn lemma_back_is_blank(text: Seq<char>) -> (n: int)
    ensures
        0 <= n <= text.len(),
        trimmed_back(text) == text.take(n),
        forall|i: int| n <= i < text.len() ==> is_blank(#[trigger] text[i]),
        n > 0 ==> !is_blank(text[n - 1]),
    decreases text.len(),
{
    if text.len() > 0 && is_blank(text.last()) {
        let rest = text.drop_last();
        let m = lemma_back_is_blank(rest);
        assert(rest.take(m) =~= text.take(m));
        assert forall|i: int| m <= i < text.len() implies is_blank(#[trigger] text[i]) by {
            if i < rest.len() {
                assert(rest[i] == text[i]);
            }
        }
        if m > 0 {
            assert(rest[m - 1] == text[m - 1]);
        }
        m
    } else {
        assert(text.take(text.len() as int) =~= text);
        text.len() as int
    }
}

/// Trimming takes away exactly the white space at both ends.
pub proof fn lemma_trimming_takes_white_space(text: Seq<char>) -> (ends: (int, int))
    ensures
        0 <= ends.0 <= ends.1 <= text.len(),
        trimmed_text(text) == text.subrange(ends.0, ends.1),
        forall|i: int| 0 <= i < ends.0 ==> is_blank(#[trigger] text[i]),
        forall|i: int| ends.1 <= i < text.len() ==> is_blank(#[trigger] text[i]),
        ends.0 < ends.1 ==> !is_blank(text[ends.0]) && !is_blank(text[ends.1 - 1]),
{
    let n = lemma_front_is_blank(text);
    let rest = text.skip(n);
    let m = lemma_back_is_blank(rest);
    assert(rest.take(m) =~= text.subrange(n, n + m));
    assert forall|i: int| n + m <= i < text.len() implies is_blank(#[trigger] text[i]) by {
        assert(rest[i - n] == text[i]);
    }
    if m > 0 {
        assert(rest[m - 1] == text[n + m - 1]);
        assert(rest[0] == text[n]);
    }
    (n, n + m)
}

/// A helper that failed is told of with what it said, without the white space around it,
/// where it said anything.
pub proof fn lemma_failed_helper_is_told(stderr: Seq<u8>)
    ensures
        trimmed_text(utf8_lossy(stderr)).len() == 0 ==> failed_helper_text(stderr)
            == "invoking-user helper failed"@,
        trimmed_text(utf8_lossy(stderr)).len() > 0 ==> failed_helper_text(stderr)
            == "invoking-user helper failed: "@ + trimmed_text(utf8_lossy(stderr)),
{
}

/// Names are read one after the other. A name that is no text is refused, and so is one
/// with which all together come to more than 16 MiB.
pub proof fn lemma_names_are_read(bytes: Seq<u8>, rest: Seq<u8>, n: nat, total: nat)
    requires
        bytes.len() <= 1048576,
        n > 0,
    ensures
        ({
            let read = split_names(le_bytes(bytes.len(), 4) + bytes + rest, n, total);
            let others = split_names(rest, (n - 1) as nat, total + bytes.len());
            &&& total + bytes.len() > 16777216 ==> read == Err::<
                (Seq<Seq<char>>, Seq<u8>),
                ProtocolError,
            >(ProtocolError { kind: ErrorKind::InvalidData, reason: ErrorReason::NamesTooLarge })
            &&& total + bytes.len() <= 16777216 && !valid_utf8(bytes) ==> read == Err::<
                (Seq<Seq<char>>, Seq<u8>),
                ProtocolError,
            >(ProtocolError { kind: ErrorKind::InvalidData, reason: ErrorReason::NameNotUtf8 })
            &&& total + bytes.len() <= 16777216 && valid_utf8(bytes) && others is Err ==> read
                == others
            &&& total + bytes.len() <= 16777216 && valid_utf8(bytes) && others is Ok ==> read
                == Ok::<(Seq<Seq<char>>, Seq<u8>), ProtocolError>(
                (seq![decode_utf8(bytes)] + others->Ok_0.0, others->Ok_0.1),
            )
        }),
        split_names(rest, 0, total) == Ok::<(Seq<Seq<char>>, Seq<u8>), ProtocolError>(
            (Seq::empty(), rest),
        ),
{
    lemma_frame_round_trip(bytes, rest);
    assert(frame(bytes) + rest =~= le_bytes(bytes.len(), 4) + bytes + rest);
}

/// A helper that refuses to run says why.
pub proof fn lemma_refusals_are_passed_on(error: CredentialError)
    ensures
        failure_text(HelperFailure::Credentials(error)) == refusal_text(error),
{
}

} // verus!
