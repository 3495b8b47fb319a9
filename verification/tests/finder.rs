use elio::batches::DuplicateScanBatch;
use elio::duplicate_pool::{DirectoryFingerprint, DuplicateState, PopOutcome};
use elio::duplicates::{DuplicateFile, DuplicateGroup, DuplicateScanStats};
use elio::finder::{
    Action, App, DuplicateHit, Effect, Entry, FrameState, Input, Jobs, Navigation, Overlays, Rect,
};
use elio::finder_actions::RenameOutcome;
use elio::finder_input::{
    is_duplicate_help_shortcut, KeyCode, KeyEvent, KeyModifiers, MouseEvent, MouseKind,
};
use elio::finder_model::{
    duplicate_file_at, duplicate_group_file_count, duplicate_parent_label, label_below,
    name_to_show, DuplicateFinderOverlay,
};
use elio::path::FilePath;
use elio::platform::Platform;
use elio::path_set::PathSet;
use elio::scan::DuplicateScanResult;

const PLAIN: KeyModifiers = KeyModifiers {
    shift: false,
    control: false,
    alt: false,
    other: false,
};

fn path(text: &str) -> FilePath {
    FilePath::from_text(text)
}

fn new_app() -> App {
    App {
        overlays: Overlays {
            duplicates: None,
            help: false,
            help_scroll: 0,
            search: false,
            rename: None,
            bulk_rename: None,
        },
        navigation: Navigation {
            cwd: path("/home/paco"),
            platform: Platform::Linux,
            fingerprint: DirectoryFingerprint { value: 11 },
            show_hidden: false,
            selected_paths: PathSet::new(),
            selected_entry: None,
        },
        jobs: Jobs {
            duplicate_token: 0,
            clipboard: true,
        },
        input: Input {
            frame_state: FrameState {
                duplicate_rows_visible: 10,
                duplicate_hits: Vec::new(),
                duplicate_panel: None,
                preview_panel: None,
            },
        },
        status: String::new(),
        effects: Vec::new(),
    }
}

fn opened() -> (App, DuplicateState) {
    let mut app = new_app();
    let mut pool = DuplicateState::new();
    app.open_duplicate_finder(&mut pool);
    (app, pool)
}

fn with_groups(groups: Vec<DuplicateGroup>) -> (App, DuplicateState) {
    let (mut app, pool) = opened();
    let overlay = finder(&mut app);
    overlay.groups = groups;
    overlay.loading = false;
    (app, pool)
}

fn finder(app: &mut App) -> &mut DuplicateFinderOverlay {
    app.overlays
        .duplicates
        .as_mut()
        .expect("duplicate overlay should be open")
}

fn duplicate_group(id: u64, size: u64, names: &[&str]) -> DuplicateGroup {
    DuplicateGroup {
        id,
        size,
        files: names
            .iter()
            .map(|name| DuplicateFile {
                path: path(name),
                name: name.to_string(),
                relative: name.to_string(),
                size,
                modified: None,
            })
            .collect(),
    }
}

fn four_files() -> Vec<DuplicateGroup> {
    vec![
        duplicate_group(42, 10, &["alpha.txt", "beta.txt"]),
        duplicate_group(7, 5, &["gamma.txt", "delta.txt"]),
    ]
}

fn chosen(app: &App) -> usize {
    app.overlays
        .duplicates
        .as_ref()
        .unwrap()
        .selected_paths
        .len()
}

fn texts(paths: &[FilePath]) -> Vec<String> {
    paths.iter().map(|path| path.display(Platform::Linux)).collect()
}

fn focus(app: &App) -> Option<String> {
    app.duplicate_focused_path().map(|path| path.display(Platform::Linux))
}

fn asks_for_trash(app: &App) -> bool {
    app.effects
        .iter()
        .any(|effect| matches!(effect, Effect::PromptTrash(_)))
}

fn press(app: &mut App, pool: &mut DuplicateState, code: KeyCode, modifiers: KeyModifiers, action: Option<Action>) {
    app.handle_duplicate_key(pool, KeyEvent { code, modifiers }, action);
}

#[test]
fn opening_duplicate_finder_clears_browser_selection() {
    let mut app = new_app();
    let mut pool = DuplicateState::new();
    app.navigation
        .selected_paths
        .insert(&path("/home/paco/alpha.txt"));
    assert_eq!(app.navigation.selected_paths.len(), 1);

    app.open_duplicate_finder(&mut pool);

    assert!(app.duplicates_is_open());
    assert_eq!(app.navigation.selected_paths.len(), 0);

    app.close_duplicate_finder(&mut pool);
    assert!(!app.duplicates_is_open());
}

#[test]
fn duplicate_finder_binding_closes_duplicate_overlay() {
    let (mut app, mut pool) = opened();

    assert!(app.duplicates_is_open());
    let alt = KeyModifiers { alt: true, ..PLAIN };
    press(
        &mut app,
        &mut pool,
        KeyCode::Char('d'),
        alt,
        Some(Action::FindDuplicates),
    );

    assert!(!app.duplicates_is_open());
    assert!(!asks_for_trash(&app));
}

#[test]
fn duplicate_finder_help_shortcut_opens_help_overlay_on_top() {
    let (mut app, mut pool) = opened();

    let shift = KeyModifiers {
        shift: true,
        ..PLAIN
    };
    press(&mut app, &mut pool, KeyCode::Char('?'), shift, None);

    assert!(app.duplicates_is_open());
    assert!(app.overlays.help);
}

#[test]
fn duplicate_rows_render_display_rank_not_stable_group_id() {
    let (app, _) = with_groups(vec![
        duplicate_group(42, 10, &["big-a.txt", "big-b.txt", "big-c.txt"]),
        duplicate_group(7, 5, &["small-a.txt", "small-b.txt"]),
    ]);

    let rows = app.duplicate_rows(10);

    assert_eq!(rows[0].group_rank, 1);
    assert!(rows[0].group_first);
    assert_eq!(rows[1].group_rank, 1);
    assert!(!rows[1].group_first);
    assert_eq!(rows[2].group_rank, 1);
    assert!(!rows[2].group_first);
    assert_eq!(rows[3].group_rank, 2);
    assert!(rows[3].group_first);
    assert_eq!(rows[4].group_rank, 2);
    assert!(!rows[4].group_first);
}

#[test]
fn duplicate_rows_can_start_inside_group_without_losing_group_context() {
    let (mut app, _) = with_groups(vec![
        duplicate_group(1, 10, &["a.txt", "b.txt", "c.txt"]),
        duplicate_group(2, 20, &["d.txt", "e.txt"]),
    ]);
    finder(&mut app).scroll = 1;
    finder(&mut app).selected = 3;

    let rows = app.duplicate_rows(3);

    assert_eq!(
        rows.iter().map(|row| row.name.as_str()).collect::<Vec<_>>(),
        vec!["b.txt", "c.txt", "d.txt"]
    );
    assert_eq!(rows[0].index, 1);
    assert_eq!(rows[0].group_rank, 1);
    assert!(!rows[0].group_first);
    assert_eq!(rows[2].group_rank, 2);
    assert!(rows[2].group_first);
    assert!(rows[2].focused);
}

fn summary(app: &App) -> String {
    let focused = app.overlays.duplicates.as_ref().unwrap().selected;
    format!(
        "{}/{}  {}",
        focused + 1,
        app.duplicate_file_count(),
        app.duplicate_focused_entry().unwrap().name
    )
}

#[test]
fn selection_summary_tracks_duplicate_focus() {
    let (mut app, _) = with_groups(four_files());

    assert_eq!(summary(&app), "1/4  alpha.txt");
    assert_eq!(chosen(&app), 0);
    app.toggle_duplicate_selection();
    assert_eq!(chosen(&app), 1);
    app.set_duplicate_selection(2);
    assert_eq!(summary(&app), "3/4  gamma.txt");
}

#[test]
fn duplicate_trash_prompt_opens_on_top_of_duplicate_overlay() {
    let (mut app, _) = with_groups(vec![duplicate_group(42, 10, &["alpha.txt", "beta.txt"])]);

    app.open_duplicate_trash_prompt();

    assert!(app.duplicates_is_open());
    assert!(asks_for_trash(&app));
}

#[test]
fn duplicate_select_all_selects_every_duplicate_row() {
    let (mut app, mut pool) = with_groups(four_files());

    let control = KeyModifiers {
        control: true,
        ..PLAIN
    };
    press(
        &mut app,
        &mut pool,
        KeyCode::Char('a'),
        control,
        Some(Action::SelectAll),
    );

    assert_eq!(chosen(&app), 4);
}

#[test]
fn duplicate_batch_append_keeps_existing_focus_stable() {
    let (mut app, _) = opened();

    app.apply_duplicate_batch(DuplicateScanBatch {
        groups: vec![duplicate_group(1, 10, &["small-a.txt", "small-b.txt"])],
        stats: DuplicateScanStats::default(),
    });
    assert_eq!(focus(&app), Some("small-a.txt".to_string()));

    app.apply_duplicate_batch(DuplicateScanBatch {
        groups: vec![duplicate_group(2, 10_000, &["large-a.txt", "large-b.txt"])],
        stats: DuplicateScanStats::default(),
    });

    assert_eq!(
        focus(&app),
        Some("small-a.txt".to_string()),
        "streamed batches should not resort the list and steal preview focus"
    );
}

#[test]
fn duplicate_final_result_resets_focus_to_top_after_reorder() {
    let (mut app, _) = opened();
    let overlay = finder(&mut app);
    overlay.groups = vec![duplicate_group(
        1,
        10,
        &["small-a.txt", "small-b.txt", "small-c.txt"],
    )];
    overlay.selected = 2;
    overlay.scroll = 2;
    overlay.selected_paths.insert(&path("small-c.txt"));
    overlay.preview_path = Some(path("small-c.txt"));

    app.apply_duplicate_result(Ok(DuplicateScanResult {
        groups: vec![
            duplicate_group(2, 10_000, &["large-a.txt", "large-b.txt"]),
            duplicate_group(1, 10, &["small-a.txt", "small-b.txt", "small-c.txt"]),
        ],
        stats: DuplicateScanStats::default(),
    }));

    assert_eq!(app.duplicate_scroll_top(), 0);
    assert_eq!(focus(&app), Some("large-a.txt".to_string()));
    let overlay = finder(&mut app);
    assert_eq!(overlay.selected, 0);
    assert_eq!(overlay.scroll, 0);
    assert_eq!(
        overlay.preview_path.as_ref().map(|path| path.display(Platform::Linux)),
        Some("large-a.txt".to_string())
    );
    assert!(overlay.selected_paths.contains(&path("small-c.txt")));
}

#[test]
fn duplicate_actions_use_selected_rows_before_focus() {
    let (mut app, _) = with_groups(four_files());
    finder(&mut app).selected_paths.insert(&path("beta.txt"));
    finder(&mut app).selected_paths.insert(&path("delta.txt"));

    let paths = app.duplicate_action_paths();

    assert_eq!(texts(&paths), vec!["beta.txt", "delta.txt"]);
}

#[test]
fn duplicate_rename_while_loading_patches_paths_without_restarting_scan() {
    let (mut app, _) = opened();
    let old_token = app.jobs.duplicate_token;
    let overlay = finder(&mut app);
    overlay.groups = vec![duplicate_group(42, 10, &["alpha.txt", "beta.txt"])];
    overlay.loading = true;
    overlay.preview_path = Some(path("alpha.txt"));
    overlay.selected_paths.insert(&path("beta.txt"));

    app.apply_duplicate_rename_pairs(vec![
        (path("alpha.txt"), path("renamed-alpha.txt")),
        (path("beta.txt"), path("renamed-beta.txt")),
    ]);

    assert_eq!(app.jobs.duplicate_token, old_token);
    let overlay = finder(&mut app);
    assert!(overlay.loading);
    assert_eq!(
        overlay.groups[0].files[0].path.display(Platform::Linux),
        "renamed-alpha.txt"
    );
    assert_eq!(overlay.groups[0].files[0].name, "renamed-alpha.txt");
    assert!(overlay.selected_paths.contains(&path("renamed-beta.txt")));
    assert!(!overlay.selected_paths.contains(&path("beta.txt")));
}

#[test]
fn missing_preview_panel_keeps_the_previewed_file() {
    let (mut app, _) = with_groups(vec![duplicate_group(42, 10, &["alpha.webp", "beta.webp"])]);
    finder(&mut app).preview_visible = true;

    app.input.frame_state.preview_panel = None;
    assert_eq!(
        app.active_preview_entry().map(|entry| entry.name),
        Some("alpha.webp".to_string())
    );
    assert!(!app.duplicate_preview_rendered());

    app.input.frame_state.preview_panel = Some(Rect {
        x: 40,
        y: 0,
        width: 20,
        height: 10,
    });
    assert!(app.duplicate_preview_rendered());
    assert_eq!(
        app.active_preview_entry().map(|entry| entry.name),
        Some("alpha.webp".to_string())
    );
}

#[test]
fn duplicate_scroll_clamps_when_visible_rows_increase() {
    let names = (0..84)
        .map(|index| format!("file-{index:02}.txt"))
        .collect::<Vec<_>>();
    let refs = names.iter().map(String::as_str).collect::<Vec<_>>();
    let (mut app, _) = with_groups(vec![duplicate_group(1, 10, &refs)]);
    finder(&mut app).selected = 83;
    finder(&mut app).scroll = 73;

    app.input.frame_state.duplicate_rows_visible = 30;

    assert!(app.sync_duplicate_scroll());
    assert_eq!(app.duplicate_scroll_top(), 54);
    assert_eq!(app.duplicate_rows(30).len(), 30);
    assert!(!app.sync_duplicate_scroll());
}

#[test]
fn duplicate_finder_shift_nav_does_not_move_file_focus() {
    let (mut app, mut pool) =
        with_groups(vec![duplicate_group(1, 10, &["alpha.webp", "beta.webp"])]);
    finder(&mut app).selected = 0;

    let shift = KeyModifiers {
        shift: true,
        ..PLAIN
    };
    press(
        &mut app,
        &mut pool,
        KeyCode::Other,
        shift,
        Some(Action::ScrollPreviewDown),
    );

    assert_eq!(finder(&mut app).selected, 0);
}

#[test]
fn duplicate_finder_shift_v_toggles_preview_without_moving_focus() {
    let (mut app, mut pool) =
        with_groups(vec![duplicate_group(1, 10, &["alpha.webp", "beta.webp"])]);
    finder(&mut app).selected = 0;
    finder(&mut app).preview_visible = true;

    let shift = KeyModifiers {
        shift: true,
        ..PLAIN
    };
    press(
        &mut app,
        &mut pool,
        KeyCode::Char('V'),
        shift,
        Some(Action::TogglePreview),
    );

    assert_eq!(finder(&mut app).selected, 0);
    assert!(!finder(&mut app).preview_visible);
}

#[test]
fn opening_asks_the_pool_for_a_search() {
    let (app, mut pool) = opened();
    assert!(app.duplicate_loading());
    assert_eq!(app.duplicate_error(), None);
    assert_eq!(app.duplicate_cwd().unwrap().display(Platform::Linux), "/home/paco");
    let PopOutcome::Job(request) = pool.pop() else {
        panic!("a request should wait");
    };
    assert_eq!(request.token, app.jobs.duplicate_token);
    assert_eq!(request.cwd.display(Platform::Linux), "/home/paco");
    assert!(!request.show_hidden);
    assert_eq!(request.fingerprint, DirectoryFingerprint { value: 11 });
}

#[test]
fn closed_pool_makes_the_finder_fail() {
    let mut app = new_app();
    let mut pool = DuplicateState::new();
    pool.close();
    app.open_duplicate_finder(&mut pool);
    assert!(!app.duplicate_loading());
    assert_eq!(app.duplicate_error(), Some("Duplicate worker unavailable"));
}

#[test]
fn closing_gives_up_the_search() {
    let (mut app, mut pool) = opened();
    assert!(pool.has_pending_work());
    let token = app.jobs.duplicate_token;
    app.close_duplicate_finder(&mut pool);
    assert!(!pool.has_pending_work());
    assert!(app.jobs.duplicate_token != token);
}

#[test]
fn failed_search_shows_its_error() {
    let (mut app, _) = opened();
    app.apply_duplicate_result(Err("failed to read /home/paco".to_string()));
    assert!(!app.duplicate_loading());
    assert_eq!(app.duplicate_error(), Some("failed to read /home/paco"));
    assert_eq!(app.duplicate_group_count(), 0);
    assert_eq!(app.duplicate_file_count(), 0);
    assert!(app.duplicate_rows(10).is_empty());
}

#[test]
fn error_is_shown_alone() {
    let (mut app, mut pool) = with_groups(four_files());
    app.apply_duplicate_result(Err("gone".to_string()));
    press(&mut app, &mut pool, KeyCode::Other, PLAIN, Some(Action::NavDown));
    assert_eq!(app.duplicate_error(), Some("gone"));
    assert!(!app.duplicate_loading());
    assert_eq!(app.duplicate_file_count(), 0);
    app.apply_duplicate_batch(DuplicateScanBatch {
        groups: four_files(),
        stats: DuplicateScanStats::default(),
    });
    assert_eq!(app.duplicate_error(), None);
    assert_eq!(app.duplicate_file_count(), 4);
}

#[test]
fn focus_moves_within_the_list() {
    let (mut app, mut pool) = with_groups(four_files());
    app.move_duplicate_selection(1);
    assert_eq!(focus(&app), Some("beta.txt".to_string()));
    app.move_duplicate_selection(-5);
    assert_eq!(focus(&app), Some("alpha.txt".to_string()));
    app.set_duplicate_selection(99);
    assert_eq!(focus(&app), Some("delta.txt".to_string()));
    app.input.frame_state.duplicate_rows_visible = 2;
    app.page_duplicate_selection(-1);
    assert_eq!(focus(&app), Some("beta.txt".to_string()));
    press(
        &mut app,
        &mut pool,
        KeyCode::Other,
        PLAIN,
        Some(Action::JumpLast),
    );
    assert_eq!(focus(&app), Some("delta.txt".to_string()));
    press(
        &mut app,
        &mut pool,
        KeyCode::Other,
        PLAIN,
        Some(Action::JumpFirst),
    );
    assert_eq!(focus(&app), Some("alpha.txt".to_string()));
}

#[test]
fn choosing_twice_undoes() {
    let (mut app, _) = with_groups(four_files());
    app.toggle_duplicate_selection();
    assert_eq!(chosen(&app), 1);
    assert_eq!(focus(&app), Some("beta.txt".to_string()));
    app.set_duplicate_selection(0);
    app.toggle_duplicate_selection();
    assert_eq!(chosen(&app), 0);
}

#[test]
fn giving_up_twice_closes() {
    let (mut app, mut pool) = with_groups(four_files());
    app.select_all_duplicates();
    press(&mut app, &mut pool, KeyCode::Esc, PLAIN, None);
    assert!(app.duplicates_is_open());
    assert_eq!(chosen(&app), 0);
    press(&mut app, &mut pool, KeyCode::Esc, PLAIN, None);
    assert!(!app.duplicates_is_open());
}

#[test]
fn help_is_asked_for_by_two_keys() {
    let key = |code: KeyCode, modifiers: KeyModifiers| KeyEvent { code, modifiers };
    let shift = KeyModifiers {
        shift: true,
        ..PLAIN
    };
    let alt = KeyModifiers { alt: true, ..PLAIN };
    assert!(is_duplicate_help_shortcut(key(KeyCode::Char('?'), PLAIN)));
    assert!(is_duplicate_help_shortcut(key(KeyCode::Char('/'), shift)));
    assert!(!is_duplicate_help_shortcut(key(KeyCode::Char('/'), PLAIN)));
    assert!(!is_duplicate_help_shortcut(key(KeyCode::Char('?'), alt)));
}

#[test]
fn mouse_chooses_lines_and_closes() {
    let (mut app, mut pool) = with_groups(four_files());
    app.input.frame_state.duplicate_panel = Some(Rect {
        x: 0,
        y: 0,
        width: 20,
        height: 10,
    });
    app.input.frame_state.duplicate_hits = vec![DuplicateHit {
        rect: Rect {
            x: 1,
            y: 3,
            width: 10,
            height: 1,
        },
        index: 2,
    }];
    let at = |kind: MouseKind, column: u16, row: u16| MouseEvent { kind, column, row };
    app.handle_duplicate_mouse(&mut pool, at(MouseKind::LeftDown, 1, 3));
    assert_eq!(focus(&app), Some("gamma.txt".to_string()));
    app.handle_duplicate_mouse(&mut pool, at(MouseKind::ScrollUp, 1, 3));
    assert_eq!(focus(&app), Some("beta.txt".to_string()));
    app.handle_duplicate_mouse(&mut pool, at(MouseKind::LeftDown, 15, 5));
    assert!(app.duplicates_is_open());
    app.handle_duplicate_mouse(&mut pool, at(MouseKind::LeftDown, 20, 5));
    assert!(!app.duplicates_is_open());
}

#[test]
fn revealing_closes_and_shows_the_file() {
    let (mut app, mut pool) = with_groups(four_files());
    app.reveal_duplicate_focus(&mut pool);
    assert!(!app.duplicates_is_open());
    assert!(app.effects.iter().any(
        |effect| matches!(effect, Effect::Reveal(path) if path.display(Platform::Linux) == "alpha.txt")
    ));
}

#[test]
fn opening_targets_opens_what_was_chosen() {
    let (mut app, _) = with_groups(four_files());
    finder(&mut app).selected_paths.insert(&path("delta.txt"));
    app.open_duplicate_targets();
    let Some(Effect::OpenPaths(paths)) = app.effects.last() else {
        panic!("files should be opened");
    };
    assert_eq!(texts(paths), vec!["delta.txt"]);
}

#[test]
fn one_file_is_renamed_in_place() {
    let (mut app, _) = with_groups(vec![duplicate_group(1, 4, &["/d/alpha.txt", "/d/beta.txt"])]);
    finder(&mut app).groups[0].files[0].name = "alpha.txt".to_string();
    app.open_duplicate_rename();
    let rename = app.overlays.rename.as_ref().expect("rename should open");
    assert_eq!(rename.original_name, "alpha.txt");
    assert_eq!(rename.input, "alpha.txt");

    let plan = app
        .confirm_duplicate_rename("alpha.txt", "new.txt")
        .expect("a rename should be planned");
    assert_eq!(plan.old_path.display(Platform::Linux), "/d/alpha.txt");
    assert_eq!(plan.new_path.display(Platform::Linux), "/d/new.txt");
    app.finish_duplicate_rename("alpha.txt", "new.txt", plan, RenameOutcome::Renamed);
    assert_eq!(focus(&app), Some("/d/new.txt".to_string()));
    assert!(app.overlays.rename.is_none());
}

#[test]
fn failed_rename_says_why() {
    for outcome in [
        RenameOutcome::Exists,
        RenameOutcome::Denied,
        RenameOutcome::Failed("disk full".to_string()),
    ] {
        let (mut app, _) = with_groups(vec![duplicate_group(1, 4, &["/d/alpha.txt", "/d/b.txt"])]);
        finder(&mut app).groups[0].files[0].name = "alpha.txt".to_string();
        app.open_duplicate_rename();
        let plan = app.confirm_duplicate_rename("alpha.txt", "b.txt").unwrap();
        app.finish_duplicate_rename("alpha.txt", "b.txt", plan, outcome);
        assert_eq!(focus(&app), Some("/d/alpha.txt".to_string()));
        let told = app
            .overlays
            .rename
            .as_ref()
            .and_then(|rename| rename.error.clone());
        assert!(told.is_some());
    }
}

#[test]
fn several_files_are_renamed_together() {
    let (mut app, _) = with_groups(four_files());
    finder(&mut app).selected_paths.insert(&path("beta.txt"));
    finder(&mut app).selected_paths.insert(&path("alpha.txt"));
    app.open_duplicate_rename();
    assert!(app.overlays.rename.is_none());
    let bulk = app
        .overlays
        .bulk_rename
        .as_ref()
        .expect("bulk rename should open");
    assert_eq!(bulk.new_names, vec!["alpha.txt", "beta.txt"]);
    assert_eq!(bulk.items.len(), 2);
}

#[test]
fn parents_are_shown_below_the_searched_directory() {
    let cwd = path("/home/paco");
    assert_eq!(duplicate_parent_label(&path("/home/paco/a.txt"), &cwd, Platform::Linux), ".");
    assert_eq!(
        duplicate_parent_label(&path("/home/paco/x/y/a.txt"), &cwd, Platform::Linux),
        "x/y"
    );
    assert_eq!(
        duplicate_parent_label(&path("/elsewhere/a.txt"), &cwd, Platform::Linux),
        "/elsewhere"
    );
    assert_eq!(
        duplicate_parent_label(&path("/home/paco/x\\y/a.txt"), &cwd, Platform::Linux),
        "x/y"
    );
}

#[test]
fn windows_paths_are_shown_with_backslashes() {
    let cwd = path("C:/Users/paco");
    assert_eq!(
        duplicate_parent_label(&path("D:/photos/2020/a.jpg"), &cwd, Platform::Windows),
        "D:\\photos\\2020"
    );
    assert_eq!(
        duplicate_parent_label(&path("C:/Users/paco/x/y/a.txt"), &cwd, Platform::Windows),
        "x/y"
    );
    assert_eq!(name_to_show(&path("C:/a/.."), Platform::Windows), "C:\\a\\..");
    assert_eq!(name_to_show(&path("C:/a/b"), Platform::Windows), "b");
    assert_eq!(label_below(&path("D:/a/b"), &cwd, Platform::Windows), "D:/a/b");
}

#[test]
fn files_are_counted_through_all_groups() {
    let groups = four_files();
    assert_eq!(duplicate_group_file_count(&groups), 4);
    assert_eq!(duplicate_file_at(&groups, 2).unwrap().name, "gamma.txt");
    assert!(duplicate_file_at(&groups, 4).is_none());
}

#[test]
fn previewed_entry_is_the_browsers_without_a_finder() {
    let mut app = new_app();
    assert!(app.active_preview_entry().is_none());
    app.navigation.selected_entry = Some(Entry {
        path: path("/home/paco/Q.TXT"),
        name: "Q.TXT".to_string(),
        name_key: "q.txt".to_string(),
        kind: elio::walk::EntryKind::File,
        symlink: None,
        size: 3,
        modified: None,
        readonly: true,
    });
    assert_eq!(app.active_preview_entry().unwrap().name, "Q.TXT");
    let (app, _) = with_groups(vec![duplicate_group(1, 4, &["\u{c9}A.TXT", "b"])]);
    let entry = app.active_preview_entry().unwrap();
    assert_eq!(entry.name_key, "\u{e9}a.txt");
    assert!(!entry.readonly);
}
