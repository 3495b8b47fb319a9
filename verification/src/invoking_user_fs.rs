//! Asking the helper to act as the invoking user.

use crate::environment::{EnvChanges, EnvName};
use crate::helper_credentials::{
    credential_fault, lemma_announced_user_is_judged, process_fault, EnvText, HelperEnvironment,
    ProcessCredentials,
};
use crate::helper_laws::lemma_request_round_trip;
use crate::ids::{list_ids, listed_ids};
use crate::invoking_user::{InvokingUser, InvokingUserView};
use crate::invoking_user_command::{prepare, user_environment, Preparation, SessionPaths};
use crate::platform::Platform;
use crate::text::{concat, decimal, lossy_text, push_decimal, trimmed, trimmed_text, utf8_lossy};
use crate::user_fs_helper::{
    decoded_request, decoded_response, encoded_request, read_response, request_fault,
    validate_request, write_request, Request, RequestView, Response, ResponseView,
};
use crate::user_groups::holds_nul;
use crate::wire::{reason_text, ByteReader, ProtocolError};
use vstd::prelude::*;
use vstd::string::StringExecFns;
use vstd::utf8::{encode_utf8, encode_utf8_decode_utf8};

verus! {

/// How the helper is to be started.
#[derive(Debug)]
pub struct Launch {
    pub environment: EnvChanges,
    pub preparation: Preparation,
    /// What to send it.
    pub input: Vec<u8>,
}

pub open spec fn bad_request_text(error: ProtocolError) -> Seq<char> {
    "invalid invoking-user request: "@ + reason_text(error.reason)
}

/// Refuses a request that the helper would not take.
pub fn check_request(request: &Request) -> (r: Result<(), String>)
    ensures
        match request_fault(request@) {
            Some(error) => r is Err && r->Err_0@ == bad_request_text(error),
            None => r is Ok,
        },
{
    match validate_request(request) {
        Ok(()) => Ok(()),
        Err(error) => Err(concat("invalid invoking-user request: ", error.message())),
    }
}

/// The variables that tell the helper whom it stands for.
pub open spec fn helper_variables(user: InvokingUserView) -> Map<EnvName, Option<Seq<u8>>> {
    Map::<EnvName, Option<Seq<u8>>>::empty().insert(EnvName::Home, Some(user.home)).insert(
        EnvName::User,
        Some(user.name),
    ).insert(EnvName::Logname, Some(user.name)).insert(
        EnvName::HelperUid,
        Some(encode_utf8(decimal(user.uid as nat))),
    ).insert(EnvName::HelperGid, Some(encode_utf8(decimal(user.gid as nat)))).insert(
        EnvName::HelperGroups,
        Some(encode_utf8(listed_ids(user.groups))),
    )
}

fn announce(user: &InvokingUser) -> (r: EnvChanges)
    ensures
        r@ == helper_variables(user@),
{
    let mut changes: EnvChanges = EnvChanges::new();
    changes.set(EnvName::Home, user.home.bytes.as_slice());
    changes.set(EnvName::User, user.name.as_slice());
    changes.set(EnvName::Logname, user.name.as_slice());
    let mut uid: String = String::new();
    push_decimal(&mut uid, user.uid);
    assert(uid@ =~= decimal(user.uid as nat));
    changes.set(EnvName::HelperUid, uid.as_str().as_bytes());
    let mut gid: String = String::new();
    push_decimal(&mut gid, user.gid);
    assert(gid@ =~= decimal(user.gid as nat));
    changes.set(EnvName::HelperGid, gid.as_str().as_bytes());
    let groups: String = list_ids(&user.groups);
    changes.set(EnvName::HelperGroups, groups.as_str().as_bytes());
    changes
}

/// The whole environment that the helper gets.
pub open spec fn helper_environment(
    user: InvokingUserView,
    session: SessionPaths,
) -> Map<EnvName, Option<Seq<u8>>> {
    user_environment(helper_variables(user), user, session).insert(EnvName::Pwd, Some(user.home))
}

/// Prepares the helper to carry out a request as the user, in the user's home
/// directory.
pub fn launch(user: &InvokingUser, request: &Request, session: &SessionPaths) -> (r: Result<
    Launch,
    String,
>)
    ensures
        match request_fault(request@) {
            Some(error) => r is Err && r->Err_0@ == bad_request_text(error),
            None => if holds_nul(user.home@) {
                &&& r is Err
                &&& r->Err_0@ == "could not prepare invoking-user helper: "@
                    + "working directory contains NUL"@
            } else {
                &&& r is Ok
                &&& r->Ok_0.input@ == encoded_request(request@)
                &&& r->Ok_0.environment@ == helper_environment(user@, *session)
                &&& r->Ok_0.preparation.uid == user.uid
                &&& r->Ok_0.preparation.gid == user.gid
                &&& r->Ok_0.preparation.groups@ == user.groups@
                &&& r->Ok_0.preparation.cwd is Some
                &&& r->Ok_0.preparation.cwd->0@ == user.home@
            },
        },
{
    let mut input: Vec<u8> = Vec::new();
    if let Err(error) = write_request(&mut input, request) {
        return Err(concat("invalid invoking-user request: ", error.message()));
    }
    assert(input@ =~= encoded_request(request@));
    let mut environment: EnvChanges = announce(user);
    match prepare(&mut environment, user, Some(&user.home), session) {
        Ok(preparation) => Ok(Launch { environment, preparation, input }),
        Err(error) => Err(concat("could not prepare invoking-user helper: ", error.message())),
    }
}

/// How an attempt to use the helper went.
#[derive(Debug)]
pub enum HelperOutcome {
    NotStarted(String),
    WithoutInput,
    NotSent(String),
    NotAwaited(String),
    Exited { success: bool, stdout: Vec<u8>, stderr: Vec<u8> },
}

/// The response that bytes hold.
pub open spec fn received_response(bytes: Seq<u8>) -> Result<ResponseView, ProtocolError> {
    match decoded_response(bytes) {
        Ok((completed, error)) => Ok(
            ResponseView {
                completed: completed as usize,
                error: match error {
                    Some(text) => Some(utf8_lossy(text)),
                    None => None,
                },
            },
        ),
        Err(error) => Err(error),
    }
}

/// What a helper that failed has to say.
pub open spec fn failed_helper_text(stderr: Seq<u8>) -> Seq<char> {
    let detail = trimmed_text(utf8_lossy(stderr));
    if detail.len() == 0 {
        "invoking-user helper failed"@
    } else {
        "invoking-user helper failed: "@ + detail
    }
}

/// What the helper answered, or why there is no answer.
pub open spec fn helper_result(outcome: HelperOutcome) -> Result<ResponseView, Seq<char>> {
    match outcome {
        HelperOutcome::NotStarted(error) => Err(
            "could not start invoking-user helper: "@ + error@,
        ),
        HelperOutcome::WithoutInput => Err(
            "could not send invoking-user request: "@ + "invoking-user helper has no stdin"@,
        ),
        HelperOutcome::NotSent(error) => Err("could not send invoking-user request: "@ + error@),
        HelperOutcome::NotAwaited(error) => Err(
            "could not wait for invoking-user helper: "@ + error@,
        ),
        HelperOutcome::Exited { success, stdout, stderr } => if !success {
            Err(failed_helper_text(stderr@))
        } else {
            match received_response(stdout@) {
                Ok(response) => Ok(response),
                Err(error) => Err(
                    "invalid invoking-user helper response: "@ + reason_text(error.reason),
                ),
            }
        },
    }
}

/// Reads what came of an attempt to use the helper.
pub fn run(outcome: &HelperOutcome) -> (r: Result<Response, String>)
    ensures
        match helper_result(*outcome) {
            Ok(response) => r is Ok && r->Ok_0@ == response,
            Err(text) => r is Err && r->Err_0@ == text,
        },
{
    match outcome {
        HelperOutcome::NotStarted(error) => Err(
            concat("could not start invoking-user helper: ", error.as_str()),
        ),
        HelperOutcome::WithoutInput => Err(
            concat("could not send invoking-user request: ", "invoking-user helper has no stdin"),
        ),
        HelperOutcome::NotSent(error) => Err(
            concat("could not send invoking-user request: ", error.as_str()),
        ),
        HelperOutcome::NotAwaited(error) => Err(
            concat("could not wait for invoking-user helper: ", error.as_str()),
        ),
        HelperOutcome::Exited { success, stdout, stderr } => {
            if !*success {
                return Err(failed_helper_message(stderr.as_slice()));
            }
            let mut reader: ByteReader = ByteReader::new(stdout.as_slice());
            match read_response(&mut reader) {
                Ok(response) => Ok(response),
                Err(error) => Err(
                    concat("invalid invoking-user helper response: ", error.message()),
                ),
            }
        },
    }
}

/// The message for a helper that failed with this on its standard error.
pub fn failed_helper_message(stderr: &[u8]) -> (r: String)
    ensures
        r@ == failed_helper_text(stderr@),
{
    let text: String = lossy_text(stderr);
    failure_message(trimmed(text.as_str()))
}

/// The message for a failed helper with this to say.
pub fn failure_message(detail: &str) -> (r: String)
    ensures
        r@ == if detail@.len() == 0 {
            "invoking-user helper failed"@
        } else {
            "invoking-user helper failed: "@ + detail@
        },
{
    if detail.is_empty() {
        String::from_str("invoking-user helper failed")
    } else {
        concat("invoking-user helper failed: ", detail)
    }
}

/// Whether a process sees the value that a change gives a variable.
pub open spec fn sees(
    value: EnvText,
    changes: Map<EnvName, Option<Seq<u8>>>,
    name: EnvName,
) -> bool {
    changes.dom().contains(name) && match (value, changes[name]) {
        (EnvText::Text(text), Some(bytes)) => encode_utf8(text@) == bytes,
        _ => false,
    }
}

/// A helper that was started for a user with what `launch` prepares is judged by
/// that user's ids, and reads the very request that was sent.
pub proof fn lemma_helper_gets_user_and_request(
    user: InvokingUserView,
    request: RequestView,
    session: SessionPaths,
    environment: HelperEnvironment,
    process: ProcessCredentials,
    platform: Platform,
)
    requires
        user.groups.len() > 0,
        request_fault(request) is None,
        request is RemoveRestoreOrigins ==> platform == Platform::MacOs,
        sees(environment.uid, helper_environment(user, session), EnvName::HelperUid),
        sees(environment.gid, helper_environment(user, session), EnvName::HelperGid),
        sees(environment.groups, helper_environment(user, session), EnvName::HelperGroups),
    ensures
        credential_fault(environment, process, platform) == process_fault(
            process,
            platform,
            user.uid,
            user.gid,
            user.groups,
        ),
        decoded_request(encoded_request(request), platform) == Ok::<RequestView, ProtocolError>(
            request,
        ),
{
    encode_utf8_decode_utf8(environment.uid->Text_0@);
    encode_utf8_decode_utf8(decimal(user.uid as nat));
    encode_utf8_decode_utf8(environment.gid->Text_0@);
    encode_utf8_decode_utf8(decimal(user.gid as nat));
    encode_utf8_decode_utf8(environment.groups->Text_0@);
    encode_utf8_decode_utf8(listed_ids(user.groups));
    lemma_announced_user_is_judged(
        environment,
        process,
        platform,
        user.uid,
        user.gid,
        user.groups,
    );
    lemma_request_round_trip(request, Seq::empty(), platform);
    assert(encoded_request(request) + Seq::<u8>::empty() =~= encoded_request(request));
}

} // verus!
