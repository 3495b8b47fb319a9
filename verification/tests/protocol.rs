use elio::helper_credentials::{
    read_id, read_ids, validate_credentials, CredentialError, EnvText, GroupReading,
    HelperEnvironment, HelperVariable, IdTriple, ProcessCredentials,
};
use elio::path::FilePath;
use elio::platform::Platform;
use elio::text::NumberFault;
use elio::user_fs_helper::{
    checked_restore_response, read_request, read_response, remove_origins_response,
    restore_response, run, validate_path, validate_request, validate_restore_origin_names,
    write_request, write_response, HelperFailure, Request, Response, MAX_ERROR_BYTES, MAX_ITEMS,
    MAX_TOTAL_NAME_BYTES,
};
use elio::wire::{ByteReader, ErrorKind, ErrorReason, MAX_PATH_BYTES};

fn path(text: &str) -> FilePath {
    FilePath::from_text(text)
}

#[test]
fn protocol_round_trips_non_utf8_paths() {
    let raw = b"/tmp/a\xffb".to_vec();
    let request = Request::Trash(vec![FilePath::from_bytes(raw.clone())]);
    let mut bytes = Vec::new();
    write_request(&mut bytes, &request).unwrap();
    let Request::Trash(paths) = read_request(&mut ByteReader::new(bytes.as_slice()), Platform::Linux).unwrap() else {
        panic!("wrong request type");
    };
    assert_eq!(paths[0].bytes, raw);
}

#[test]
fn protocol_rejects_oversized_frame() {
    let mut bytes = b"EU\x01".to_vec();
    bytes.push(2);
    bytes.extend_from_slice(&((MAX_PATH_BYTES as u32) + 1).to_le_bytes());
    assert_eq!(
        read_request(&mut ByteReader::new(bytes.as_slice()), Platform::Linux)
            .unwrap_err()
            .kind(),
        ErrorKind::InvalidData
    );
}

#[test]
fn protocol_rejects_unknown_version() {
    let bytes = b"EU\x02\x02";
    assert_eq!(
        read_request(&mut ByteReader::new(bytes.as_slice()), Platform::Linux)
            .unwrap_err()
            .kind(),
        ErrorKind::InvalidData
    );
}

#[test]
fn request_rejects_too_many_items_before_writing() {
    let mut paths = Vec::new();
    for _ in 0..MAX_ITEMS + 1 {
        paths.push(path("/tmp/a"));
    }
    let request = Request::Trash(paths);
    let mut bytes = Vec::new();
    assert_eq!(
        write_request(&mut bytes, &request).unwrap_err().kind(),
        ErrorKind::InvalidInput
    );
    assert!(bytes.is_empty());
}

#[test]
fn response_truncates_error_without_losing_completion() {
    let response = Response {
        completed: 7,
        error: Some("x".repeat(MAX_PATH_BYTES + 1)),
    };
    let mut bytes = Vec::new();
    write_response(&mut bytes, &response).unwrap();
    let decoded = read_response(&mut ByteReader::new(bytes.as_slice())).unwrap();
    assert_eq!(decoded.completed, 7);
    assert_eq!(decoded.error.unwrap().len(), MAX_ERROR_BYTES);
}

#[test]
fn restore_origin_names_are_bounded() {
    assert!(validate_restore_origin_names(&["report.pdf".to_string()]).is_ok());
    assert_eq!(
        validate_restore_origin_names(&vec!["name".to_string(); MAX_ITEMS + 1])
            .unwrap_err()
            .kind(),
        ErrorKind::InvalidInput
    );
    assert_eq!(
        validate_restore_origin_names(&["x".repeat(MAX_PATH_BYTES + 1)])
            .unwrap_err()
            .kind(),
        ErrorKind::InvalidInput
    );
}

#[test]
fn checked_restore_distinguishes_metadata_warning_from_restore_failure() {
    let warning = checked_restore_response(Ok(Some("store is read-only".to_string())));
    assert_eq!(warning.completed, 1);
    assert_eq!(
        warning.error.as_deref(),
        Some("could not update Trash restore metadata: store is read-only")
    );

    let failure = checked_restore_response(Err("permission denied".to_string()));
    assert_eq!(failure.completed, 0);
    assert_eq!(failure.error.as_deref(), Some("permission denied"));
}

#[test]
fn remove_restore_origins_round_trips_names() {
    let request =
        Request::RemoveRestoreOrigins(vec!["report.pdf".to_string(), "report 2.pdf".to_string()]);
    let mut bytes = Vec::new();
    write_request(&mut bytes, &request).unwrap();
    let Request::RemoveRestoreOrigins(names) =
        read_request(&mut ByteReader::new(bytes.as_slice()), Platform::MacOs).unwrap()
    else {
        panic!("wrong request type");
    };
    assert_eq!(
        names,
        vec!["report.pdf".to_string(), "report 2.pdf".to_string()]
    );
}

#[test]
fn names_to_forget_are_unknown_off_macos() {
    let request = Request::RemoveRestoreOrigins(vec!["report.pdf".to_string()]);
    let mut bytes = Vec::new();
    write_request(&mut bytes, &request).unwrap();
    let error = read_request(&mut ByteReader::new(bytes.as_slice()), Platform::Linux).unwrap_err();
    assert_eq!(error.reason, ErrorReason::UnknownRequest);
}

#[test]
fn trash_request_has_this_frame() {
    let request = Request::Trash(vec![path("/a"), path("/bc")]);
    let mut bytes = Vec::new();
    write_request(&mut bytes, &request).unwrap();
    assert_eq!(
        bytes,
        b"EU\x01\x01\x02\x00\x00\x00\x02\x00\x00\x00/a\x03\x00\x00\x00/bc".to_vec()
    );
}

#[test]
fn restore_request_has_this_frame() {
    let mut bytes = Vec::new();
    write_request(&mut bytes, &Request::Restore(path("/a"))).unwrap();
    assert_eq!(bytes, b"EU\x01\x02\x02\x00\x00\x00/a".to_vec());
    let Request::Restore(read) = read_request(&mut ByteReader::new(bytes.as_slice()), Platform::Linux).unwrap() else {
        panic!("wrong request type");
    };
    assert_eq!(read.bytes, b"/a".to_vec());
}

#[test]
fn empty_trash_request_round_trips() {
    let mut bytes = Vec::new();
    write_request(&mut bytes, &Request::Trash(Vec::new())).unwrap();
    let Request::Trash(paths) = read_request(&mut ByteReader::new(bytes.as_slice()), Platform::Linux).unwrap() else {
        panic!("wrong request type");
    };
    assert!(paths.is_empty());
}

#[test]
fn bytes_behind_a_request_are_left_alone() {
    for request in [
        Request::Restore(path("/abc")),
        Request::Trash(vec![path("/a"), path("/bc")]),
        Request::RemoveRestoreOrigins(vec!["a".to_string()]),
    ] {
        let mut bytes = Vec::new();
        write_request(&mut bytes, &request).unwrap();
        let length = bytes.len();
        bytes.extend_from_slice(b"rest");
        let mut reader = ByteReader::new(bytes.as_slice());
        assert!(read_request(&mut reader, Platform::MacOs).is_ok());
        assert_eq!(reader.position, length);
        assert_eq!(reader.read_exact(4), Ok(b"rest".as_slice()));
    }
}

#[test]
fn bytes_behind_a_response_are_left_alone() {
    for error in [None, Some("no".to_string())] {
        let mut bytes = Vec::new();
        let response = Response {
            completed: 2,
            error,
        };
        write_response(&mut bytes, &response).unwrap();
        let length = bytes.len();
        bytes.push(9);
        let mut reader = ByteReader::new(bytes.as_slice());
        assert!(read_response(&mut reader).is_ok());
        assert_eq!(reader.position, length);
    }
}

#[test]
fn what_follows_changes_no_decision() {
    let refused = b"EU\x01\x09".to_vec();
    let mut longer = refused.clone();
    longer.extend_from_slice(b"more");
    let first = read_request(&mut ByteReader::new(&refused), Platform::Linux).unwrap_err();
    let second = read_request(&mut ByteReader::new(&longer), Platform::Linux).unwrap_err();
    assert_eq!(first, second);
    assert_eq!(first.reason, ErrorReason::UnknownRequest);
}

#[test]
fn cut_off_requests_end_too_early() {
    for request in [
        Request::Restore(path("/abc")),
        Request::Trash(vec![path("/a"), path("/bc")]),
        Request::RemoveRestoreOrigins(vec!["a".to_string(), "b".to_string()]),
    ] {
        let mut bytes = Vec::new();
        write_request(&mut bytes, &request).unwrap();
        for n in 0..bytes.len() {
            let error = read_request(&mut ByteReader::new(&bytes[..n]), Platform::MacOs).unwrap_err();
            assert_eq!(error.kind(), ErrorKind::UnexpectedEof);
            assert_eq!(error.reason, ErrorReason::EndOfInput);
        }
    }
}

#[test]
fn cut_off_responses_end_too_early() {
    let response = Response {
        completed: 3,
        error: Some("no".to_string()),
    };
    let mut bytes = Vec::new();
    write_response(&mut bytes, &response).unwrap();
    for n in 0..bytes.len() {
        let error = read_response(&mut ByteReader::new(&bytes[..n])).unwrap_err();
        assert_eq!(error.kind(), ErrorKind::UnexpectedEof);
    }
}

#[test]
fn unknown_request_kind_is_refused() {
    let error = read_request(&mut ByteReader::new(b"EU\x01\x09"), Platform::MacOs).unwrap_err();
    assert_eq!(error.reason, ErrorReason::UnknownRequest);
    assert_eq!(error.kind(), ErrorKind::InvalidData);
}

#[test]
fn wrong_magic_is_refused() {
    let error = read_request(&mut ByteReader::new(b"XX\x01\x01\x00\x00\x00\x00"), Platform::Linux).unwrap_err();
    assert_eq!(error.reason, ErrorReason::UnsupportedProtocol);
}

#[test]
fn too_many_paths_are_not_read() {
    let mut bytes = b"EU\x01\x01".to_vec();
    bytes.extend_from_slice(&((MAX_ITEMS as u32) + 1).to_le_bytes());
    let error = read_request(&mut ByteReader::new(bytes.as_slice()), Platform::Linux).unwrap_err();
    assert_eq!(error.reason, ErrorReason::TooManyPaths);
    assert_eq!(error.kind(), ErrorKind::InvalidData);
}

#[test]
fn names_that_are_not_utf8_are_not_read() {
    let mut bytes = b"EU\x01\x03\x01\x00\x00\x00".to_vec();
    bytes.extend_from_slice(b"\x02\x00\x00\x00\xff\xfe");
    let error = read_request(&mut ByteReader::new(bytes.as_slice()), Platform::MacOs).unwrap_err();
    assert_eq!(error.reason, ErrorReason::NameNotUtf8);
}

#[test]
fn long_paths_are_refused() {
    let long = FilePath::from_bytes(vec![b'x'; MAX_PATH_BYTES + 1]);
    let error = validate_path(&long).unwrap_err();
    assert_eq!(error.reason, ErrorReason::PathTooLarge);
    assert!(validate_path(&FilePath::from_bytes(vec![b'x'; MAX_PATH_BYTES])).is_ok());
    let error = validate_request(&Request::Restore(long)).unwrap_err();
    assert_eq!(error.kind(), ErrorKind::InvalidInput);
}

#[test]
fn names_are_bounded_together() {
    let name = "x".repeat(MAX_PATH_BYTES);
    let fitting = MAX_TOTAL_NAME_BYTES / MAX_PATH_BYTES;
    let mut names = vec![name; fitting];
    assert!(validate_restore_origin_names(&names).is_ok());
    names.push("y".to_string());
    let error = validate_restore_origin_names(&names).unwrap_err();
    assert_eq!(error.reason, ErrorReason::NamesTooLarge);
}

#[test]
fn responses_round_trip() {
    for (completed, error) in [
        (0usize, None),
        (3, None),
        (2, Some("disk full".to_string())),
        (1, Some("d\u{e9}j\u{e0}".to_string())),
    ] {
        let mut bytes = Vec::new();
        let response = Response {
            completed,
            error: error.clone(),
        };
        write_response(&mut bytes, &response).unwrap();
        let decoded = read_response(&mut ByteReader::new(bytes.as_slice())).unwrap();
        assert_eq!(decoded.completed, completed);
        assert_eq!(decoded.error, error);
    }
}

#[test]
fn response_has_this_frame() {
    let mut bytes = Vec::new();
    let response = Response {
        completed: 258,
        error: Some("no".to_string()),
    };
    write_response(&mut bytes, &response).unwrap();
    assert_eq!(
        bytes,
        b"\x02\x01\x00\x00\x00\x00\x00\x00\x01\x02\x00\x00\x00no".to_vec()
    );
}

#[test]
fn cut_character_is_replaced_when_read() {
    let mut text = "x".repeat(MAX_ERROR_BYTES - 1);
    text.push('\u{e9}');
    let mut bytes = Vec::new();
    let response = Response {
        completed: 0,
        error: Some(text),
    };
    write_response(&mut bytes, &response).unwrap();
    let decoded = read_response(&mut ByteReader::new(bytes.as_slice())).unwrap();
    let mut expected = "x".repeat(MAX_ERROR_BYTES - 1);
    expected.push('\u{fffd}');
    assert_eq!(decoded.error, Some(expected));
}

#[test]
fn malformed_responses_are_refused() {
    let error = read_response(&mut ByteReader::new(b"\x01\x00\x00\x00\x00\x00\x00\x00\x07")).unwrap_err();
    assert_eq!(error.reason, ErrorReason::InvalidResponse);
    assert_eq!(error.kind(), ErrorKind::InvalidData);
    let error = read_response(&mut ByteReader::new(b"\x01\x00")).unwrap_err();
    assert_eq!(error.kind(), ErrorKind::UnexpectedEof);
}

#[test]
fn outcomes_become_responses() {
    let fine = restore_response(Ok(()));
    assert_eq!((fine.completed, fine.error), (1, None));
    let failed = restore_response(Err("gone".to_string()));
    assert_eq!((failed.completed, failed.error), (0, Some("gone".to_string())));
    let fine = checked_restore_response(Ok(None));
    assert_eq!((fine.completed, fine.error), (1, None));
    let fine = remove_origins_response(4, Ok(()));
    assert_eq!((fine.completed, fine.error), (4, None));
    let failed = remove_origins_response(4, Err("no".to_string()));
    assert_eq!((failed.completed, failed.error), (0, Some("no".to_string())));
}

fn told(uid: &str, gid: &str, groups: &str) -> HelperEnvironment {
    HelperEnvironment {
        uid: EnvText::Text(uid.to_string()),
        gid: EnvText::Text(gid.to_string()),
        groups: EnvText::Text(groups.to_string()),
    }
}

fn process(uid: u32, gid: u32, groups: Vec<u32>) -> ProcessCredentials {
    ProcessCredentials {
        uid,
        euid: uid,
        gid,
        egid: gid,
        groups: GroupReading {
            announced: groups.len() as i32,
            written: groups.len() as i32,
            buffer: groups,
        },
        uids: Some(IdTriple {
            real: uid,
            effective: uid,
            saved: uid,
        }),
        gids: Some(IdTriple {
            real: gid,
            effective: gid,
            saved: gid,
        }),
    }
}

#[test]
fn helper_runs_as_the_user_it_was_told() {
    let env = told("1000", "100", "27,100");
    let mut bytes = Vec::new();
    write_request(&mut bytes, &Request::Restore(path("/a"))).unwrap();
    let request = run(
        Platform::Linux,
        &env,
        &process(1000, 100, vec![100, 27]),
        bytes.as_slice(),
    );
    assert!(matches!(request, Ok(Request::Restore(_))));
}

#[test]
fn helper_needs_unix() {
    let env = told("1000", "100", "100");
    let refused = run(Platform::Windows, &env, &process(1000, 100, vec![100]), b"");
    let Err(failure) = refused else {
        panic!("should be refused");
    };
    assert!(matches!(failure, HelperFailure::Unsupported));
    assert_eq!(
        failure.message(),
        "user filesystem helper is unsupported on this platform"
    );
}

#[test]
fn helper_passes_on_what_is_wrong_with_a_request() {
    let env = told("1000", "100", "100");
    let refused = run(Platform::Linux, &env, &process(1000, 100, vec![100]), b"EU");
    assert!(matches!(
        refused,
        Err(HelperFailure::Protocol(error)) if error.kind() == ErrorKind::UnexpectedEof
    ));
}

fn fault(env: &HelperEnvironment, process: &ProcessCredentials) -> CredentialError {
    validate_credentials(env, process, Platform::Linux).unwrap_err()
}

#[test]
fn every_credential_fault_is_found() {
    let env = told("1000", "100", "100");
    assert!(validate_credentials(&env, &process(1000, 100, vec![100]), Platform::Linux).is_ok());

    assert_eq!(
        fault(&env, &process(0, 100, vec![100])),
        CredentialError::InvalidUid
    );
    assert_eq!(
        fault(&env, &process(1000, 0, vec![100])),
        CredentialError::InvalidGid
    );
    assert_eq!(
        fault(&env, &process(1000, 100, vec![100, 0])),
        CredentialError::InvalidGroups
    );

    let mut effective = process(1000, 100, vec![100]);
    effective.euid = 0;
    assert_eq!(fault(&env, &effective), CredentialError::InvalidUid);

    let mut unreadable = process(1000, 100, vec![100]);
    unreadable.groups.announced = -1;
    assert_eq!(fault(&env, &unreadable), CredentialError::UnreadableGroups);

    let mut saved = process(1000, 100, vec![100]);
    saved.uids = Some(IdTriple {
        real: 1000,
        effective: 1000,
        saved: 0,
    });
    assert_eq!(fault(&env, &saved), CredentialError::InvalidSavedUid);
    saved.uids = None;
    assert_eq!(fault(&env, &saved), CredentialError::UnreadableUids);

    let mut saved = process(1000, 100, vec![100]);
    saved.gids = Some(IdTriple {
        real: 100,
        effective: 100,
        saved: 0,
    });
    assert_eq!(fault(&env, &saved), CredentialError::InvalidSavedGid);
    saved.gids = None;
    assert_eq!(fault(&env, &saved), CredentialError::UnreadableGids);
    assert!(validate_credentials(&env, &saved, Platform::MacOs).is_ok());
}

#[test]
fn root_is_never_stood_for() {
    let env = told("0", "0", "0");
    assert_eq!(
        fault(&env, &process(0, 0, vec![0])),
        CredentialError::InvalidUid
    );
}

#[test]
fn refusals_are_told_as_std_tells_them() {
    let odd = EnvText::NotUnicode("\"1\\xFF\"".to_string());
    assert_eq!(
        read_id(&odd, HelperVariable::Uid).unwrap_err().message(),
        "environment variable was not valid unicode: \"1\\xFF\""
    );
    assert_eq!(
        read_id(&EnvText::Missing, HelperVariable::Uid)
            .unwrap_err()
            .message(),
        "environment variable not found"
    );
    assert_eq!(
        CredentialError::InvalidGroups.message(),
        "invalid helper groups"
    );
}

#[test]
fn announced_ids_are_read() {
    let text = |t: &str| EnvText::Text(t.to_string());
    assert_eq!(read_id(&text("1000"), HelperVariable::Uid), Ok(1000));
    assert_eq!(read_id(&text("+7"), HelperVariable::Uid), Ok(7));
    assert_eq!(
        read_id(&text("x"), HelperVariable::Uid),
        Err(CredentialError::NotANumber(
            HelperVariable::Uid,
            NumberFault::InvalidDigit
        ))
    );
    assert_eq!(
        read_id(&EnvText::Missing, HelperVariable::Gid),
        Err(CredentialError::Missing(HelperVariable::Gid))
    );
    assert_eq!(
        read_id(&EnvText::NotUnicode("\"1\\xFF\"".to_string()), HelperVariable::Gid),
        Err(CredentialError::NotUnicode(
            HelperVariable::Gid,
            "\"1\\xFF\"".to_string()
        ))
    );
    assert_eq!(
        read_ids(&text("1,2,30"), HelperVariable::Groups),
        Ok(vec![1, 2, 30])
    );
    for (odd, fault) in [
        ("1,,2", NumberFault::Empty),
        ("", NumberFault::Empty),
        ("1,", NumberFault::Empty),
        ("1, 2", NumberFault::InvalidDigit),
        ("-1", NumberFault::InvalidDigit),
        ("1,4294967296,x", NumberFault::TooLarge),
    ] {
        assert_eq!(
            read_ids(&text(odd), HelperVariable::Groups),
            Err(CredentialError::NotANumber(HelperVariable::Groups, fault))
        );
    }
}
