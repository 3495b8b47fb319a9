use elio::environment::{EnvChanges, EnvName};
use elio::helper_credentials::IdTriple;
use elio::invoking_user::{
    home_dir, invocation_context, is_usable_name, parse_non_root_uid, passwd, passwd_buffer_size,
    trash_data_dir, trash_home_dir, trash_home_for_context, InvocationContext, InvocationFacts,
    InvokingUser, PasswdAnswer, PasswdStatus, PasswdStep,
};
use elio::invoking_user_command::{
    apply_user_environment, credentials_match, drop_privileges, group_count_fits, prepare,
    DropStep, ProcessIds, SessionPaths,
};
use elio::invoking_user_fs::{
    check_request, failed_helper_message, failure_message, launch, run, HelperOutcome,
};
use elio::loading::{
    config_dir, config_home, config_home_for_context, config_path, config_rejected, load_config,
    platform_config_home, xdg_config_files, ConfigChoice, ConfigRead, ProcessPaths,
};
use elio::ownership::{
    keep_owned_path, valid_owned_absolute_path, valid_runtime_dir, validated_xdg_data_home,
    KeptPath, Ownership, Probe,
};
use elio::path::FilePath;
use elio::platform::Platform;
use elio::user_fs_helper::{read_request, Request, Response};
use elio::wire::ByteReader;
use elio::user_groups::{
    group_capacity, signed_groups, signed_primary, supplementary_groups, GroupStep,
};

fn path(text: &str) -> FilePath {
    FilePath::from_text(text)
}

fn shown(path: Option<FilePath>) -> Option<String> {
    path.map(|path| path.display(Platform::Linux))
}

fn test_user() -> InvokingUser {
    InvokingUser {
        uid: 1000,
        gid: 1000,
        name: b"paco".to_vec(),
        home: path("/home/paco"),
        shell: b"/bin/fish".to_vec(),
        groups: vec![1000],
        xdg_config_home: None,
        xdg_data_home: Some(path("/home/paco/.local/share")),
    }
}

fn config_user(xdg_config_home: Option<&str>) -> InvokingUser {
    InvokingUser {
        shell: b"/bin/sh".to_vec(),
        xdg_config_home: xdg_config_home.map(path),
        xdg_data_home: None,
        ..test_user()
    }
}

fn no_session() -> SessionPaths {
    SessionPaths {
        config_home: None,
        cache_home: None,
        runtime_dir_is_valid: false,
    }
}

fn no_facts() -> InvocationFacts {
    InvocationFacts {
        by_uid: None,
        by_name: None,
        groups: None,
        data_home: None,
    }
}

fn set(value: &str) -> Option<Option<Vec<u8>>> {
    Some(Some(value.as_bytes().to_vec()))
}

#[test]
fn sudo_uid_accepts_only_non_root_numeric_ids() {
    assert_eq!(parse_non_root_uid(Some(b"1000")), Some(1000));
    assert_eq!(parse_non_root_uid(Some(b"0")), None);
    assert_eq!(parse_non_root_uid(Some(b"paco")), None);
    assert_eq!(parse_non_root_uid(None), None);
}

#[test]
fn uids_are_read_like_numbers() {
    assert_eq!(parse_non_root_uid(Some(b"+7")), Some(7));
    assert_eq!(parse_non_root_uid(Some(b"4294967295")), Some(u32::MAX));
    assert_eq!(parse_non_root_uid(Some(b"4294967296")), None);
    assert_eq!(parse_non_root_uid(Some(b"")), None);
    assert_eq!(parse_non_root_uid(Some(b"\xff")), None);
    assert_eq!(parse_non_root_uid(Some(b"-1")), None);
}

#[test]
fn non_root_process_ignores_elevation_metadata() {
    assert!(matches!(
        invocation_context(1000, Some(b"1001"), Some(b"paco"), no_facts()),
        InvocationContext::Normal
    ));
}

#[test]
fn elevated_process_resolves_sudo_uid() {
    let facts = InvocationFacts {
        by_uid: Some(test_user()),
        by_name: None,
        groups: Some(vec![27, 1000]),
        data_home: Some(path("/home/paco/data")),
    };
    let InvocationContext::Elevated(actual) = invocation_context(0, Some(b"1000"), None, facts)
    else {
        panic!("current user should resolve as invoking user");
    };
    let expected = test_user();
    assert_eq!(actual.uid, expected.uid);
    assert_eq!(actual.gid, expected.gid);
    assert_eq!(actual.home.bytes, expected.home.bytes);
    assert_eq!(actual.shell, expected.shell);
    assert!(actual.groups.contains(&actual.gid));
    assert_eq!(shown(actual.xdg_data_home), Some("/home/paco/data".to_string()));
}

#[test]
fn doas_user_stands_in_for_a_missing_sudo_uid() {
    let facts = InvocationFacts {
        by_name: Some(test_user()),
        groups: Some(vec![1000]),
        ..no_facts()
    };
    assert!(matches!(
        invocation_context(0, None, Some(b"paco"), facts),
        InvocationContext::Elevated(_)
    ));
    let facts = InvocationFacts {
        by_name: Some(test_user()),
        groups: None,
        ..no_facts()
    };
    assert!(matches!(
        invocation_context(0, None, Some(b"paco"), facts),
        InvocationContext::ElevatedUnresolved
    ));
}

#[test]
fn unresolved_elevated_context_does_not_become_normal() {
    assert!(matches!(
        invocation_context(0, Some(b"invalid"), Some(b"root"), no_facts()),
        InvocationContext::ElevatedUnresolved
    ));
}

#[test]
fn unresolved_elevated_context_has_no_trash_home() {
    assert!(trash_home_for_context(
        &InvocationContext::ElevatedUnresolved,
        Some(&path("/root"))
    )
    .is_none());
}

#[test]
fn trash_follows_the_user() {
    let root = path("/root");
    let elevated = InvocationContext::Elevated(test_user());
    assert_eq!(
        shown(trash_home_dir(Platform::Linux, &elevated, Some(&root))),
        Some("/home/paco".to_string())
    );
    assert_eq!(
        shown(trash_home_dir(Platform::MacOs, &elevated, Some(&root))),
        Some("/root".to_string())
    );
    assert_eq!(
        shown(trash_data_dir(&elevated, Some(&root))),
        Some("/home/paco/.local/share".to_string())
    );
    let mut user = test_user();
    user.xdg_data_home = None;
    user.home = path("/h");
    assert_eq!(
        shown(trash_data_dir(&InvocationContext::Elevated(user), None)),
        Some("/h/.local/share".to_string())
    );
    assert!(trash_data_dir(&InvocationContext::ElevatedUnresolved, Some(&root)).is_none());
    assert_eq!(
        shown(home_dir(
            Platform::Linux,
            &InvocationContext::ElevatedUnresolved,
            Some(&root)
        )),
        Some("/root".to_string())
    );
    assert_eq!(
        shown(home_dir(Platform::Linux, &elevated, Some(&root))),
        Some("/home/paco".to_string())
    );
}

fn answer() -> PasswdAnswer {
    PasswdAnswer {
        status: PasswdStatus::Success,
        found: true,
        uid: 1000,
        gid: 100,
        name: Some(b"paco".to_vec()),
        home: Some(b"/home/paco".to_vec()),
        shell: Some(b"/bin/fish".to_vec()),
    }
}

fn looked_up(answer: PasswdAnswer) -> Option<InvokingUser> {
    match passwd(1024, answer) {
        PasswdStep::Done(user) => user,
        PasswdStep::Retry(_) => panic!("should be done"),
    }
}

#[test]
fn passwd_records_become_users() {
    let user = looked_up(answer()).unwrap();
    assert_eq!((user.uid, user.gid), (1000, 100));
    assert_eq!(user.name, b"paco".to_vec());
    assert_eq!(user.home.display(Platform::Linux), "/home/paco");
    assert_eq!(user.shell, b"/bin/fish".to_vec());
    assert_eq!(user.groups, vec![100]);

    let mut shellless = answer();
    shellless.shell = None;
    assert_eq!(looked_up(shellless).unwrap().shell, b"/bin/sh".to_vec());
    let mut shellless = answer();
    shellless.shell = Some(Vec::new());
    assert_eq!(looked_up(shellless).unwrap().shell, b"/bin/sh".to_vec());

    let mut root = answer();
    root.uid = 0;
    assert!(looked_up(root).is_none());
    let mut homeless = answer();
    homeless.home = Some(Vec::new());
    assert!(looked_up(homeless).is_none());
    let mut nameless = answer();
    nameless.name = None;
    assert!(looked_up(nameless).is_none());
    let mut missing = answer();
    missing.found = false;
    assert!(looked_up(missing).is_none());
    let mut failed = answer();
    failed.status = PasswdStatus::Failed;
    assert!(looked_up(failed).is_none());
}

#[test]
fn passwd_buffers_grow() {
    let mut small = answer();
    small.status = PasswdStatus::BufferTooSmall;
    assert!(matches!(passwd(1024, small), PasswdStep::Retry(2048)));
    let mut small = answer();
    small.status = PasswdStatus::BufferTooSmall;
    assert!(matches!(passwd(1048576, small), PasswdStep::Done(None)));
    assert_eq!(passwd_buffer_size(4096), 4096);
    assert_eq!(passwd_buffer_size(-1), 16384);
    assert_eq!(passwd_buffer_size(0), 16384);
}

#[test]
fn names_of_root_and_nobody_are_not_looked_up() {
    assert!(is_usable_name(b"paco"));
    assert!(!is_usable_name(b""));
    assert!(!is_usable_name(b"root"));
    assert!(!is_usable_name(b"a\0b"));
}

#[test]
fn groups_are_sorted_and_hold_the_primary() {
    assert_eq!(
        supplementary_groups(5, 0, 3, vec![9, 2, 9]),
        Some(vec![2, 5, 9])
    );
    assert_eq!(supplementary_groups(5, 0, 1, vec![9, 2]), Some(vec![5, 9]));
    assert_eq!(supplementary_groups(5, -1, 2, vec![9, 2]), None);
    assert_eq!(supplementary_groups(5, 0, 0, vec![9]), None);
    assert_eq!(group_capacity(b"paco", 3), Some(3));
    assert_eq!(group_capacity(b"paco", 0), None);
    assert_eq!(group_capacity(b"a\0b", 3), None);
}

#[test]
fn signed_groups_grow_and_convert() {
    assert_eq!(signed_primary(b"paco", 5), Some(5));
    assert_eq!(signed_primary(b"paco", u32::MAX), None);
    let GroupStep::Done(groups) = signed_groups(5, 16, 0, 2, &[7, 3, 5, 5, 5, 5, 5, 5, 5, 5, 5, 5, 5, 5, 5, 5]) else {
        panic!("should be done");
    };
    assert_eq!(groups, Some(vec![3, 5, 7]));
    assert!(matches!(signed_groups(5, 16, -1, 2, &[0; 16]), GroupStep::Retry(32)));
    assert!(matches!(
        signed_groups(5, 16384, -1, 2, &[0; 16384]),
        GroupStep::Done(None)
    ));
    assert!(matches!(
        signed_groups(5, 16, 0, 17, &[0; 16]),
        GroupStep::Done(None)
    ));
    let mut negative = [0i32; 16];
    negative[0] = -2;
    assert!(matches!(
        signed_groups(5, 16, 0, 1, &negative),
        GroupStep::Done(None)
    ));
}

#[test]
fn config_home_follows_invocation_context() {
    for (platform, root_default, user_default) in [
        (Platform::Linux, "/root/.config", "/home/paco/.config"),
        (
            Platform::MacOs,
            "/root/Library/Application Support",
            "/home/paco/Library/Application Support",
        ),
    ] {
        let process_xdg = Some("/root/custom");
        let cases = [
            (
                InvocationContext::Normal,
                process_xdg,
                Some("/root/custom"),
            ),
            (
                InvocationContext::RootSession,
                process_xdg,
                Some("/root/custom"),
            ),
            (InvocationContext::Normal, None, Some(root_default)),
            (InvocationContext::RootSession, None, Some(root_default)),
            (
                InvocationContext::Elevated(config_user(Some("/home/paco/custom-config"))),
                process_xdg,
                Some("/home/paco/custom-config"),
            ),
            (
                InvocationContext::Elevated(config_user(None)),
                process_xdg,
                Some(user_default),
            ),
            (InvocationContext::ElevatedUnresolved, process_xdg, None),
        ];

        for (context, process_xdg, expected) in cases {
            let process_xdg = process_xdg.map(path);
            let actual = config_home_for_context(
                platform,
                &context,
                process_xdg.as_ref(),
                Some(&path("/root")),
                false,
            );
            assert_eq!(
                shown(actual).as_deref(),
                expected,
                "context: {context:?}"
            );
        }
    }
}

#[test]
fn macos_prefers_existing_xdg_config() {
    let home = path("/Users/paco");
    assert_eq!(
        shown(platform_config_home(Platform::MacOs, None, Some(&home), true)),
        Some("/Users/paco/.config".to_string())
    );
    assert!(platform_config_home(Platform::MacOs, None, None, true).is_none());
    let (config, theme) = xdg_config_files(&home);
    assert_eq!(config.display(Platform::Linux), "/Users/paco/.config/elio/config.toml");
    assert_eq!(theme.display(Platform::Linux), "/Users/paco/.config/elio/theme.toml");
}

#[test]
fn config_files_lie_below_the_config_home() {
    let process = ProcessPaths {
        xdg_config_home: None,
        home: None,
        config_dir: Some(path("/appdata")),
    };
    let home = config_home(Platform::Windows, &InvocationContext::Normal, &process, false);
    assert_eq!(home.as_ref().map(|home| home.display(Platform::Linux)), Some("/appdata".to_string()));
    assert_eq!(
        shown(config_dir(home.as_ref())),
        Some("/appdata/elio".to_string())
    );
    assert_eq!(
        shown(config_path(home.as_ref())),
        Some("/appdata/elio/config.toml".to_string())
    );
    assert!(config_path(None).is_none());
}

#[test]
fn config_is_read_or_built_in() {
    let place = path("/c/config.toml");
    assert!(matches!(
        load_config(&place, Platform::Linux, ConfigRead::NotFound),
        ConfigChoice::BuiltIn
    ));
    let ConfigChoice::Warn(text) = load_config(&place, Platform::Linux, ConfigRead::Failed("denied".to_string()))
    else {
        panic!("a failure should be told");
    };
    assert_eq!(text, "elio: failed to read config from /c/config.toml: denied");
    let ConfigChoice::Parse(text) = load_config(&place, Platform::Linux, ConfigRead::Contents("a = 1".to_string()))
    else {
        panic!("contents should be parsed");
    };
    assert_eq!(text, "a = 1");
    assert_eq!(
        config_rejected(&place, Platform::Linux, "bad key"),
        "elio: failed to load config from /c/config.toml: bad key"
    );
    assert_eq!(
        config_rejected(&FilePath::from_text("C:/x/config.toml"), Platform::Windows, "bad key"),
        "elio: failed to load config from C:\\x\\config.toml: bad key"
    );
}

#[test]
fn user_environment_replaces_identity_and_removes_elevation_metadata() {
    let mut command = EnvChanges::new();
    apply_user_environment(&mut command, &test_user(), &no_session());

    assert_eq!(command.get(EnvName::Home), set("/home/paco"));
    assert_eq!(command.get(EnvName::User), set("paco"));
    assert_eq!(command.get(EnvName::Username), set("paco"));
    assert_eq!(command.get(EnvName::Logname), set("paco"));
    assert_eq!(command.get(EnvName::Shell), set("/bin/fish"));
    assert_eq!(command.get(EnvName::SudoUid), Some(None));
    assert_eq!(command.get(EnvName::SudoUser), Some(None));
    assert_eq!(command.get(EnvName::DoasUser), Some(None));
    assert_eq!(command.get(EnvName::Mail), Some(None));
    assert_eq!(command.get(EnvName::Oldpwd), Some(None));
    assert_eq!(
        command.get(EnvName::XdgDataHome),
        set("/home/paco/.local/share")
    );
    assert_eq!(command.get(EnvName::XdgRuntimeDir), Some(None));
    assert_eq!(command.get(EnvName::Pwd), None);
    assert_eq!(EnvName::SudoUid.as_str(), "SUDO_UID");
}

#[test]
fn owned_session_paths_are_kept() {
    let mut command = EnvChanges::new();
    let session = SessionPaths {
        config_home: Some(path("/home/paco/conf")),
        cache_home: None,
        runtime_dir_is_valid: true,
    };
    apply_user_environment(&mut command, &test_user(), &session);
    assert_eq!(command.get(EnvName::XdgConfigHome), set("/home/paco/conf"));
    assert_eq!(command.get(EnvName::XdgCacheHome), Some(None));
    assert_eq!(command.get(EnvName::XdgRuntimeDir), None);
}

#[test]
fn prepare_rejects_nul_in_working_directory_before_spawn() {
    let mut command = EnvChanges::new();
    let cwd = FilePath::from_bytes(b"/tmp/a\0b".to_vec());
    let error = prepare(&mut command, &test_user(), Some(&cwd), &no_session()).unwrap_err();

    assert_eq!(error.message(), "working directory contains NUL");
    assert_eq!(command.get(EnvName::Home), None);
}

#[test]
fn prepare_sets_pwd_to_requested_working_directory() {
    let mut command = EnvChanges::new();
    let prepared = prepare(
        &mut command,
        &test_user(),
        Some(&path("/home/paco/Documents")),
        &no_session(),
    )
    .unwrap();

    assert_eq!(command.get(EnvName::Pwd), set("/home/paco/Documents"));
    assert_eq!((prepared.uid, prepared.gid), (1000, 1000));
    assert_eq!(prepared.groups, vec![1000]);
}

#[test]
fn runtime_dir_must_be_absolute_existing_and_user_owned() {
    let mine = Probe::Found {
        is_dir: true,
        uid: 1000,
    };
    assert!(!valid_runtime_dir(Some(&path("relative")), mine, 1000));
    assert!(!valid_runtime_dir(
        Some(&path("/missing")),
        Probe::NotFound,
        1000
    ));
    assert!(valid_runtime_dir(Some(&path("/tmp/run")), mine, 1000));
    assert!(!valid_runtime_dir(Some(&path("/tmp/run")), mine, 1001));
    assert!(!valid_runtime_dir(None, mine, 1000));
}

/// Asks for ownership and answers each probe.
fn owns(path: &FilePath, uid: u32, answer: impl Fn(&str) -> Probe) -> bool {
    let mut probes = Vec::new();
    loop {
        match valid_owned_absolute_path(path, &probes, uid) {
            Ownership::Decided(owned) => return owned,
            Ownership::Probe(place) => probes.push(answer(&place.display(Platform::Linux))),
        }
    }
}

#[test]
fn owned_absolute_path_accepts_missing_leaf_under_user_directory() {
    let answer = |place: &str| {
        if place == "/tmp/mine" {
            Probe::Found {
                is_dir: true,
                uid: 1000,
            }
        } else if place.len() < 5 {
            Probe::Found {
                is_dir: true,
                uid: 0,
            }
        } else {
            Probe::NotFound
        }
    };
    assert!(owns(&path("/tmp/mine/missing"), 1000, answer));
    assert!(!owns(&path("relative"), 1000, answer));
    assert!(!owns(&path("/tmp/missing"), 1000, answer));
    assert!(!owns(&path("/tmp/mine"), 1000, |_| Probe::Failed));
    assert!(!owns(&path("/x"), 1000, |_| Probe::NotFound));
}

#[test]
fn data_home_is_kept_where_owned() {
    let mine = [Probe::Found {
        is_dir: true,
        uid: 1000,
    }];
    let home = path("/home/paco/data");
    assert!(matches!(
        keep_owned_path(Some(&home), &mine, 1000),
        KeptPath::Decided(Some(_))
    ));
    assert!(matches!(
        keep_owned_path(Some(&home), &mine, 7),
        KeptPath::Decided(None)
    ));
    assert!(matches!(
        keep_owned_path(Some(&home), &[], 1000),
        KeptPath::Probe(_)
    ));
    assert!(matches!(
        validated_xdg_data_home(Platform::MacOs, Some(&home), &mine, 1000),
        KeptPath::Decided(None)
    ));
    assert!(matches!(
        validated_xdg_data_home(Platform::Linux, None, &[], 1000),
        KeptPath::Decided(None)
    ));
}

#[test]
fn privileges_are_dropped_in_order() {
    let mut step = DropStep::SetGroups;
    let mut seen = Vec::new();
    while step != DropStep::Done {
        seen.push(step);
        step = drop_privileges(step, true, true);
    }
    assert_eq!(
        seen,
        vec![
            DropStep::SetGroups,
            DropStep::SetGid,
            DropStep::SetUid,
            DropStep::CheckCredentials,
            DropStep::ChangeDirectory,
        ]
    );
    assert_eq!(
        drop_privileges(DropStep::CheckCredentials, false, true),
        DropStep::FailNotPermitted
    );
    assert_eq!(
        drop_privileges(DropStep::SetGid, false, true),
        DropStep::FailWithLastError
    );
    assert_eq!(
        drop_privileges(DropStep::CheckCredentials, true, false),
        DropStep::Done
    );
}

#[test]
fn credentials_must_all_match() {
    let all = |id: u32| {
        Some(IdTriple {
            real: id,
            effective: id,
            saved: id,
        })
    };
    let ids = ProcessIds {
        uid: 1000,
        euid: 1000,
        gid: 100,
        egid: 100,
        uids: all(1000),
        gids: all(100),
    };
    assert!(credentials_match(ids, Platform::Linux, 1000, 100));
    assert!(!credentials_match(ids, Platform::Linux, 1000, 101));
    let kept = ProcessIds {
        uids: Some(IdTriple {
            real: 1000,
            effective: 1000,
            saved: 0,
        }),
        ..ids
    };
    assert!(!credentials_match(kept, Platform::Linux, 1000, 100));
    assert!(credentials_match(kept, Platform::MacOs, 1000, 100));
    let unread = ProcessIds { gids: None, ..ids };
    assert!(!credentials_match(unread, Platform::FreeBsd, 1000, 100));
    assert!(group_count_fits(Platform::Linux, usize::MAX));
    assert!(group_count_fits(Platform::MacOs, 16));
    assert!(!group_count_fits(Platform::MacOs, 2147483648));
}

#[test]
fn helper_is_launched_as_the_user() {
    let mut user = test_user();
    user.groups = vec![27, 1000];
    let request = Request::Restore(path("/trash/a"));
    let started = launch(&user, &request, &no_session()).unwrap();
    assert_eq!(started.environment.get(EnvName::HelperUid), set("1000"));
    assert_eq!(started.environment.get(EnvName::HelperGid), set("1000"));
    assert_eq!(
        started.environment.get(EnvName::HelperGroups),
        set("27,1000")
    );
    assert_eq!(started.environment.get(EnvName::Pwd), set("/home/paco"));
    assert_eq!(started.preparation.groups, vec![27, 1000]);
    let Request::Restore(read) = read_request(&mut ByteReader::new(&started.input), Platform::Linux).unwrap() else {
        panic!("wrong request type");
    };
    assert_eq!(read.display(Platform::Linux), "/trash/a");

    user.home = FilePath::from_bytes(b"/a\0b".to_vec());
    let error = launch(&user, &request, &no_session()).unwrap_err();
    assert_eq!(
        error,
        "could not prepare invoking-user helper: working directory contains NUL"
    );
}

#[test]
fn bad_requests_are_not_sent() {
    let long = Request::Restore(FilePath::from_bytes(vec![b'x'; 1048577]));
    let error = check_request(&long).unwrap_err();
    assert!(error.starts_with("invalid invoking-user request: "));
}

#[test]
fn helper_outcomes_become_responses_or_errors() {
    let exited = |success: bool, stdout: &[u8], stderr: &[u8]| HelperOutcome::Exited {
        success,
        stdout: stdout.to_vec(),
        stderr: stderr.to_vec(),
    };
    let Response { completed, error } =
        run(&exited(true, b"\x02\0\0\0\0\0\0\0\x00", b"")).unwrap();
    assert_eq!((completed, error), (2, None));
    assert_eq!(
        run(&exited(false, b"", b" \n")).unwrap_err(),
        "invoking-user helper failed"
    );
    assert_eq!(
        run(&exited(false, b"", b"  no way \n")).unwrap_err(),
        "invoking-user helper failed: no way"
    );
    assert!(run(&exited(true, b"", b""))
        .unwrap_err()
        .starts_with("invalid invoking-user helper response: "));
    assert_eq!(
        run(&HelperOutcome::NotStarted("gone".to_string())).unwrap_err(),
        "could not start invoking-user helper: gone"
    );
    assert_eq!(
        run(&HelperOutcome::WithoutInput).unwrap_err(),
        "could not send invoking-user request: invoking-user helper has no stdin"
    );
    assert_eq!(
        run(&HelperOutcome::NotSent("pipe".to_string())).unwrap_err(),
        "could not send invoking-user request: pipe"
    );
    assert_eq!(
        run(&HelperOutcome::NotAwaited("odd".to_string())).unwrap_err(),
        "could not wait for invoking-user helper: odd"
    );
    assert_eq!(
        failed_helper_message(b"\xff"),
        "invoking-user helper failed: \u{fffd}"
    );
    assert_eq!(
        failed_helper_message(" \t\u{3000}two words\u{85}\n".as_bytes()),
        "invoking-user helper failed: two words"
    );
    assert_eq!(failed_helper_message(b" \r\n"), "invoking-user helper failed");
    assert_eq!(failure_message(""), "invoking-user helper failed");
}
