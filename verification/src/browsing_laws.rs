//! What each key and each use of the mouse is for in the duplicate finder.


use crate::duplicate_pool::PoolView;
use crate::finder::{Action, AppView, DuplicateHit, EffectView, Rect};
use crate::finder_input::{
    after_key, after_mouse, hit_under, key_cancels, mouse_cancels, pool_after, KeyCode, KeyEvent,
    MouseEvent, MouseKind,
};
use crate::finder_model::FinderView;
use crate::path::components;
use vstd::prelude::*;

verus! {

/// Whether a key is neither control with `c` nor, without control and alt, a question
/// mark or a slash with shift. Such a key does what it is bound to.
pub open spec fn is_ordinary(key: KeyEvent) -> bool {
    &&& !(key.modifiers.control && key.code == KeyCode::Char('c'))
    &&& !(!key.modifiers.control && !key.modifiers.alt && key.code == KeyCode::Char('?'))
    &&& !(!key.modifiers.control && !key.modifiers.alt && key.modifiers.shift && key.code
        == KeyCode::Char('/'))
}

/// With the focus on a file, a key that is bound to moving down brings it to the
/// next file and one that is bound to moving up to the one before, as far as there
/// are files. A page is as many files as are in sight, but one at least. Jumping
/// goes to the first and to the last file. None of these changes what is listed,
/// chosen or loading.
pub proof fn lemma_keys_move_the_focus(v: AppView, key: KeyEvent)
    requires
        v.finder is Some,
        0 <= v.finder->0.selected < v.finder->0.files().len(),
        is_ordinary(key),
    ensures
        ({
            let i = v.finder->0.selected;
            let last = v.finder->0.files().len() - 1;
            let page = if v.rows_visible < 1 {
                1
            } else {
                v.rows_visible
            };
            let down = after_key(v, key, Some(Action::NavDown));
            let up = after_key(v, key, Some(Action::NavUp));
            let page_down = after_key(v, key, Some(Action::PageDown));
            let page_up = after_key(v, key, Some(Action::PageUp));
            let first = after_key(v, key, Some(Action::JumpFirst));
            let end = after_key(v, key, Some(Action::JumpLast));
            &&& i < last ==> focus_moved(v, down, i + 1)
            &&& i == last ==> focus_moved(v, down, i)
            &&& i > 0 ==> focus_moved(v, up, i - 1)
            &&& i == 0 ==> focus_moved(v, up, 0)
            &&& i + page <= last ==> focus_moved(v, page_down, i + page)
            &&& i + page > last ==> focus_moved(v, page_down, last)
            &&& i - page >= 0 ==> focus_moved(v, page_up, i - page)
            &&& i - page < 0 ==> focus_moved(v, page_up, 0)
            &&& focus_moved(v, first, 0)
            &&& focus_moved(v, end, last)
        }),
{
    assert(only_focus_moves(v, after_key(v, key, Some(Action::NavDown))));
    assert(only_focus_moves(v, after_key(v, key, Some(Action::NavUp))));
    assert(only_focus_moves(v, after_key(v, key, Some(Action::PageDown))));
    assert(only_focus_moves(v, after_key(v, key, Some(Action::PageUp))));
    assert(only_focus_moves(v, after_key(v, key, Some(Action::JumpFirst))));
    assert(only_focus_moves(v, after_key(v, key, Some(Action::JumpLast))));
}

/// Whether nothing but the focus, the lines in sight and the preview is another.
pub open spec fn only_focus_moves(before: AppView, after: AppView) -> bool {
    &&& after.finder is Some
    &&& after == (AppView { finder: after.finder, effects: after.effects, ..before })
    &&& after.finder->0 == (FinderView {
        selected: after.finder->0.selected,
        scroll: after.finder->0.scroll,
        preview_path: after.finder->0.preview_path,
        ..before.finder->0
    })
    &&& after.effects == before.effects || after.effects == before.effects.push(
        EffectView::RefreshPreview,
    )
}

/// Whether the focus has come to a file, and nothing else has changed but the
/// lines in sight and the preview, which is that of the file where it is shown.
pub open spec fn focus_moved(before: AppView, after: AppView, to: int) -> bool {
    let path = before.finder->0.files()[to].path;
    let was = before.finder->0.preview_path;
    let known = was is Some && components(was->0) == components(path);
    &&& only_focus_moves(before, after)
    &&& after.finder->0.selected == to
    &&& if before.finder->0.preview_visible && !known {
        &&& after.finder->0.preview_path == Some(path)
        &&& after.effects == before.effects.push(EffectView::RefreshPreview)
    } else {
        &&& after.finder->0.preview_path == was
        &&& after.effects == before.effects
    }
}

/// Whether the finder is gone and nothing else has changed but the token, so that what a
/// running search sends is not taken. The images are forgotten, the browser's preview
/// is asked for, and the wheel starts anew.
pub open spec fn finder_gone(before: AppView, after: AppView) -> bool {
    &&& after == (AppView {
        finder: None,
        token: after.token,
        effects: before.effects + seq![
            EffectView::ClearImageGeometry,
            EffectView::RefreshPreview,
            EffectView::ClearWheelScroll,
        ],
        ..before
    })
    &&& before.token < u64::MAX ==> after.token == before.token + 1
    &&& before.token == u64::MAX ==> after.token == 0
}

/// Control with `c`, whatever it is bound to, and escape on its own, where it is bound
/// to nothing that the finder knows, give up what is chosen; where nothing is, they
/// close the finder and give up the search.
pub proof fn lemma_interrupting_gives_up(v: AppView, key: KeyEvent, action: Option<Action>)
    requires
        v.finder is Some,
        (key.modifiers.control && key.code == KeyCode::Char('c')) || (key.code == KeyCode::Esc
            && !key.modifiers.control && !key.modifiers.shift && !key.modifiers.alt
            && !key.modifiers.other && (action is None || action->0 == Action::Other)),
    ensures
        v.finder->0.selected_paths == Map::<Seq<Seq<u8>>, Seq<u8>>::empty() ==> finder_gone(
            v,
            after_key(v, key, action),
        ) && key_cancels(v, key, action),
        v.finder->0.selected_paths != Map::<Seq<Seq<u8>>, Seq<u8>>::empty() ==> after_key(
            v,
            key,
            action,
        ) == (AppView {
            status: Seq::empty(),
            finder: Some(FinderView { selected_paths: Map::empty(), ..v.finder->0 }),
            ..v
        }) && !key_cancels(v, key, action),
{
    let after = after_key(v, key, action);
    if v.finder->0.selected_paths == Map::<Seq<Seq<u8>>, Seq<u8>>::empty() {
        assert(after.effects =~= v.effects + seq![
            EffectView::ClearImageGeometry,
            EffectView::RefreshPreview,
            EffectView::ClearWheelScroll,
        ]);
    }
}

/// A question mark, or a slash with shift, opens the help at its top, whatever it is
/// bound to, as long as neither control nor alt is held.
pub proof fn lemma_question_mark_opens_help(v: AppView, key: KeyEvent, action: Option<Action>)
    requires
        !key.modifiers.control,
        !key.modifiers.alt,
        key.code == KeyCode::Char('?') || (key.code == KeyCode::Char('/') && key.modifiers.shift),
    ensures
        after_key(v, key, action) == (AppView {
            help: true,
            help_scroll: 0,
            effects: v.effects.push(EffectView::ClearWheelScroll),
            ..v
        }),
        !key_cancels(v, key, action),
{
}

/// A key that is bound to nothing that the finder knows changes nothing, unless it is
/// escape on its own.
pub proof fn lemma_unknown_keys_change_nothing(v: AppView, key: KeyEvent, action: Option<Action>)
    requires
        is_ordinary(key),
        action is None || action->0 == Action::Other,
        key.code != KeyCode::Esc || key.modifiers.control || key.modifiers.shift
            || key.modifiers.alt || key.modifiers.other,
    ensures
        after_key(v, key, action) == v,
        !key_cancels(v, key, action),
{
}

/// The key that opens the finder closes it again and gives up the search. Quitting is
/// left to the browser. Scrolling moves the preview by one line or column, down and to
/// the right where the number is positive.
pub proof fn lemma_keys_leave_and_scroll(v: AppView, key: KeyEvent)
    requires
        v.finder is Some,
        is_ordinary(key),
    ensures
        finder_gone(v, after_key(v, key, Some(Action::FindDuplicates))),
        key_cancels(v, key, Some(Action::FindDuplicates)),
        only_asks(v, after_key(v, key, Some(Action::Quit)), EffectView::Dispatch(Action::Quit)),
        only_asks(
            v,
            after_key(v, key, Some(Action::QuitWithoutCd)),
            EffectView::Dispatch(Action::QuitWithoutCd),
        ),
        only_asks(
            v,
            after_key(v, key, Some(Action::ScrollPreviewUp)),
            EffectView::ScrollPreviewLines(-1),
        ),
        only_asks(
            v,
            after_key(v, key, Some(Action::ScrollPreviewDown)),
            EffectView::ScrollPreviewLines(1),
        ),
        only_asks(
            v,
            after_key(v, key, Some(Action::ScrollPreviewLeft)),
            EffectView::ScrollPreviewColumns(-1),
        ),
        only_asks(
            v,
            after_key(v, key, Some(Action::ScrollPreviewRight)),
            EffectView::ScrollPreviewColumns(1),
        ),
{
    assert(after_key(v, key, Some(Action::FindDuplicates)).effects =~= v.effects + seq![
        EffectView::ClearImageGeometry,
        EffectView::RefreshPreview,
        EffectView::ClearWheelScroll,
    ]);
}

/// Whether something more is to be done, and nothing else has changed.
pub open spec fn only_asks(before: AppView, after: AppView, effect: EffectView) -> bool {
    after == (AppView { effects: before.effects.push(effect), ..before })
}

/// Going to the file with the focus closes the finder, gives up the search and then
/// has the browser show that very file.
pub proof fn lemma_entering_reveals_the_focus(v: AppView, key: KeyEvent)
    requires
        v.finder is Some,
        0 <= v.finder->0.selected < v.finder->0.files().len(),
        is_ordinary(key),
    ensures
        ({
            let after = after_key(v, key, Some(Action::OpenOrEnter));
            let path = v.finder->0.files()[v.finder->0.selected].path;
            &&& after.effects.len() == v.effects.len() + 4
            &&& after.effects.last() == EffectView::Reveal(path)
            &&& finder_gone(v, AppView { effects: after.effects.drop_last(), ..after })
        }),
        key_cancels(v, key, Some(Action::OpenOrEnter)),
{
    let after = after_key(v, key, Some(Action::OpenOrEnter));
    assert(after.effects.drop_last() =~= v.effects + seq![
        EffectView::ClearImageGeometry,
        EffectView::RefreshPreview,
        EffectView::ClearWheelScroll,
    ]);
}

/// Where no file has the focus, there is none to go to.
pub proof fn lemma_entering_needs_a_focus(v: AppView, key: KeyEvent)
    requires
        v.finder is Some,
        v.finder->0.files().len() == 0,
        is_ordinary(key),
    ensures
        after_key(v, key, Some(Action::OpenOrEnter)) == v,
        !key_cancels(v, key, Some(Action::OpenOrEnter)),
{
}

/// No key gives up the search and leaves the finder open, or closes the finder and
/// leaves the search.
pub proof fn lemma_search_ends_with_the_finder(v: AppView, key: KeyEvent, action: Option<Action>)
    requires
        v.finder is Some,
    ensures
        key_cancels(v, key, action) <==> after_key(v, key, action).finder is None,
{
}

/// The preview is shown or taken away in turn. Where it is taken away, it is forgotten
/// for which file it was; where it comes back, it is that of the file with the focus.
pub proof fn lemma_preview_comes_and_goes(v: AppView, key: KeyEvent)
    requires
        v.finder is Some,
        0 <= v.finder->0.selected < v.finder->0.files().len(),
        is_ordinary(key),
    ensures
        ({
            let finder = v.finder->0;
            let path = finder.files()[finder.selected].path;
            let known = finder.preview_path is Some && components(finder.preview_path->0)
                == components(path);
            let cleared = v.effects.push(EffectView::ClearImageGeometry);
            after_key(v, key, Some(Action::TogglePreview)) == if finder.preview_visible {
                AppView {
                    finder: Some(
                        FinderView { preview_visible: false, preview_path: None, ..finder },
                    ),
                    effects: cleared.push(EffectView::ClearImageActivation),
                    ..v
                }
            } else if known {
                AppView {
                    finder: Some(FinderView { preview_visible: true, ..finder }),
                    effects: cleared,
                    ..v
                }
            } else {
                AppView {
                    finder: Some(
                        FinderView { preview_visible: true, preview_path: Some(path), ..finder },
                    ),
                    effects: cleared.push(EffectView::RefreshPreview),
                    ..v
                }
            }
        }),
{
    let before = v.finder->0;
    let after = after_key(v, key, Some(Action::TogglePreview));
    assert(after.finder->0.files() == before.files());
}

/// Whether a place on the screen lies in a part of it.
pub open spec fn is_within(rect: Rect, column: u16, row: u16) -> bool {
    rect.x <= column && column < rect.x + rect.width && rect.y <= row && row < rect.y + rect.height
}

/// A click on lines of the finder brings the focus to the file of the first of them
/// that was drawn.
pub proof fn lemma_click_brings_the_focus(v: AppView, mouse: MouseEvent, k: int)
    requires
        v.finder is Some,
        mouse.kind == MouseKind::LeftDown,
        0 <= k < v.hits.len(),
        is_within(v.hits[k].rect, mouse.column, mouse.row),
        forall|i: int|
            0 <= i < k ==> !is_within((#[trigger] v.hits[i]).rect, mouse.column, mouse.row),
        v.hits[k].index < v.finder->0.files().len(),
    ensures
        focus_moved(v, after_mouse(v, mouse), v.hits[k].index as int),
        !mouse_cancels(v, mouse),
{
    lemma_first_hit(v.hits, mouse, k);
    let after = after_mouse(v, mouse);
    assert(only_focus_moves(v, after));
}

proof fn lemma_first_hit(hits: Seq<DuplicateHit>, mouse: MouseEvent, k: int)
    requires
        0 <= k < hits.len(),
        is_within(hits[k].rect, mouse.column, mouse.row),
        forall|i: int| 0 <= i < k ==> !is_within((#[trigger] hits[i]).rect, mouse.column, mouse.row),
    ensures
        hit_under(hits, mouse) == Some(hits[k].index),
    decreases hits.len(),
{
    if k > 0 {
        let rest = hits.drop_first();
        assert(rest[k - 1] == hits[k]);
        assert forall|i: int| 0 <= i < k - 1 implies !is_within(
            (#[trigger] rest[i]).rect,
            mouse.column,
            mouse.row,
        ) by {
            assert(rest[i] == hits[i + 1]);
        }
        assert(!is_within(hits[0].rect, mouse.column, mouse.row));
        lemma_first_hit(rest, mouse, k - 1);
    }
}

proof fn lemma_no_hit(hits: Seq<DuplicateHit>, mouse: MouseEvent)
    requires
        forall|i: int|
            0 <= i < hits.len() ==> !is_within(
                (#[trigger] hits[i]).rect,
                mouse.column,
                mouse.row,
            ),
    ensures
        hit_under(hits, mouse) is None,
    decreases hits.len(),
{
    if hits.len() > 0 {
        let rest = hits.drop_first();
        assert forall|i: int| 0 <= i < rest.len() implies !is_within(
            (#[trigger] rest[i]).rect,
            mouse.column,
            mouse.row,
        ) by {
            assert(rest[i] == hits[i + 1]);
        }
        assert(!is_within(hits[0].rect, mouse.column, mouse.row));
        lemma_no_hit(rest, mouse);
    }
}

/// A click on no line changes nothing where it is within the finder's panel; anywhere
/// else it closes the finder and gives up the search.
pub proof fn lemma_click_beside_closes(v: AppView, mouse: MouseEvent)
    requires
        v.finder is Some,
        mouse.kind == MouseKind::LeftDown,
        forall|i: int|
            0 <= i < v.hits.len() ==> !is_within(
                (#[trigger] v.hits[i]).rect,
                mouse.column,
                mouse.row,
            ),
    ensures
        ({
            let inside = v.panel is Some && is_within(v.panel->0, mouse.column, mouse.row);
            &&& inside ==> after_mouse(v, mouse) == v && !mouse_cancels(v, mouse)
            &&& !inside ==> finder_gone(v, after_mouse(v, mouse)) && mouse_cancels(v, mouse)
        }),
{
    lemma_no_hit(v.hits, mouse);
    let inside = v.panel is Some && is_within(v.panel->0, mouse.column, mouse.row);
    if !inside {
        assert(after_mouse(v, mouse).effects =~= v.effects + seq![
            EffectView::ClearImageGeometry,
            EffectView::RefreshPreview,
            EffectView::ClearWheelScroll,
        ]);
    }
}

/// The wheel moves the preview by a line where the mouse is over it, else the focus by
/// a file, as far as there are files.
pub proof fn lemma_wheel_scrolls(v: AppView, mouse: MouseEvent)
    requires
        v.finder is Some,
        0 <= v.finder->0.selected < v.finder->0.files().len(),
        mouse.kind == MouseKind::ScrollDown || mouse.kind == MouseKind::ScrollUp,
    ensures
        ({
            let over = v.preview_panel is Some && is_within(
                v.preview_panel->0,
                mouse.column,
                mouse.row,
            );
            let i = v.finder->0.selected;
            let last = v.finder->0.files().len() - 1;
            let down = mouse.kind == MouseKind::ScrollDown;
            let after = after_mouse(v, mouse);
            &&& over ==> only_asks(
                v,
                after,
                EffectView::ScrollPreviewLines(
                    if down {
                        1
                    } else {
                        -1
                    },
                ),
            )
            &&& !over && down && i < last ==> focus_moved(v, after, i + 1)
            &&& !over && down && i == last ==> focus_moved(v, after, i)
            &&& !over && !down && i > 0 ==> focus_moved(v, after, i - 1)
            &&& !over && !down && i == 0 ==> focus_moved(v, after, 0)
        }),
        !mouse_cancels(v, mouse),
{
    let over = v.preview_panel is Some && is_within(v.preview_panel->0, mouse.column, mouse.row);
    if !over {
        assert(only_focus_moves(v, after_mouse(v, mouse)));
    }
}

/// Anything else that the mouse does changes nothing.
pub proof fn lemma_other_uses_of_the_mouse_change_nothing(v: AppView, mouse: MouseEvent)
    requires
        mouse.kind == MouseKind::Other,
    ensures
        after_mouse(v, mouse) == v,
        !mouse_cancels(v, mouse),
{
}

/// Giving up a search empties the pool of what waits and cancels what runs; otherwise the
/// pool stays as it is.
pub proof fn lemma_pool_is_emptied_when_given_up(pool: PoolView)
    ensures
        pool_after(pool, false) == pool,
        pool_after(pool, true).pending is None,
        pool_after(pool, true).closed == pool.closed,
        pool.active is None ==> pool_after(pool, true).active is None,
        pool.active is Some ==> pool_after(pool, true).active is Some && pool_after(
            pool,
            true,
        ).active->0.canceled && pool_after(pool, true).active->0.key == pool.active->0.key,
{
}

/// Without files there is nothing to move to, and without a finder nothing to move in.
pub proof fn lemma_nothing_moves_without_files(v: AppView, key: KeyEvent, action: Action)
    requires
        is_ordinary(key),
        v.finder is None || (v.finder->0.files().len() == 0 && v.finder->0.selected == 0
            && v.finder->0.scroll == 0),
        action == Action::NavDown || action == Action::NavUp || action == Action::PageDown || action
            == Action::PageUp || action == Action::JumpFirst || action == Action::JumpLast || action
            == Action::ToggleSelection,
    ensures
        after_key(v, key, Some(action)) == v,
{
}

} // verus!
