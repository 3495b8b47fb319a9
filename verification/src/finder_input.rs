//! What keys and the mouse do in the duplicate finder.

use crate::duplicate_pool::{all_canceled, DuplicateState, PoolView};
use crate::finder::{
    closed, file_count, focused_path, larger, rect_contains, with_effect, with_focus,
    with_focus_moved, with_preview_toggled, Action, App, AppView, DuplicateHit, Effect, EffectView,
    Rect,
};
use crate::finder_actions::{
    action_paths, editor_rename_opened, has_choice, rename_opened, revealed, targets_opened,
    trash_prompted, unchosen_or_closed, with_all_chosen, with_choice_toggled,
};
use crate::path::FilePath;
use vstd::prelude::*;

verus! {

/// A key, as far as the finder tells keys apart.
#[derive(Clone, Copy, PartialEq, Eq, Structural, Debug)]
pub enum KeyCode {
    Char(char),
    Esc,
    Other,
}

/// The keys that are held down with another.
#[derive(Clone, Copy, PartialEq, Eq, Structural, Debug)]
pub struct KeyModifiers {
    pub shift: bool,
    pub control: bool,
    pub alt: bool,
    /// Any other one.
    pub other: bool,
}

#[derive(Clone, Copy, PartialEq, Eq, Structural, Debug)]
pub struct KeyEvent {
    pub code: KeyCode,
    pub modifiers: KeyModifiers,
}

/// Whether a key asks for help: a question mark, or a slash with shift.
pub open spec fn asks_for_help(key: KeyEvent) -> bool {
    &&& !key.modifiers.control && !key.modifiers.alt
    &&& key.code == KeyCode::Char('?') || (key.code == KeyCode::Char('/') && key.modifiers.shift)
}

pub fn is_duplicate_help_shortcut(key: KeyEvent) -> (r: bool)
    ensures
        r == asks_for_help(key),
        r <==> !key.modifiers.control && !key.modifiers.alt && (key.code == KeyCode::Char('?') || (
        key.modifiers.shift && key.code == KeyCode::Char('/'))),
{
    if key.modifiers.control || key.modifiers.alt {
        return false;
    }
    match key.code {
        KeyCode::Char('?') => true,
        KeyCode::Char('/') => key.modifiers.shift,
        _ => false,
    }
}

/// Whether a key interrupts, whatever it is bound to.
pub open spec fn interrupts(key: KeyEvent) -> bool {
    key.modifiers.control && key.code == KeyCode::Char('c')
}

/// Whether a key is escape on its own.
pub open spec fn is_plain_escape(key: KeyEvent) -> bool {
    key.code == KeyCode::Esc && !key.modifiers.shift && !key.modifiers.control
        && !key.modifiers.alt && !key.modifiers.other
}

/// After what a key is bound to was done, where the finder knows it.
pub open spec fn after_action(v: AppView, action: Action) -> Option<AppView> {
    match action {
        Action::Quit | Action::QuitWithoutCd => Some(
            with_effect(v, EffectView::Dispatch(action)),
        ),
        Action::Open => Some(targets_opened(v)),
        Action::OpenOrEnter => Some(revealed(v)),
        Action::CopyPath => Some(with_effect(v, EffectView::CopyPaths(action_paths(v)))),
        Action::Rename => Some(rename_opened(v)),
        Action::RenameInEditor => Some(editor_rename_opened(v)),
        Action::Trash => Some(trash_prompted(v)),
        Action::SelectAll => Some(with_all_chosen(v)),
        Action::ToggleSelection => Some(with_choice_toggled(v)),
        Action::FindDuplicates => Some(closed(v)),
        Action::NavUp => Some(with_focus_moved(v, -1)),
        Action::NavDown => Some(with_focus_moved(v, 1)),
        Action::PageUp => Some(with_focus_moved(v, -larger(v.rows_visible, 1))),
        Action::PageDown => Some(with_focus_moved(v, larger(v.rows_visible, 1))),
        Action::JumpFirst => Some(with_focus(v, 0)),
        Action::JumpLast => Some(with_focus(v, larger(file_count(v) - 1, 0))),
        Action::TogglePreview => Some(with_preview_toggled(v)),
        Action::ScrollPreviewUp => Some(with_effect(v, EffectView::ScrollPreviewLines(-1))),
        Action::ScrollPreviewDown => Some(with_effect(v, EffectView::ScrollPreviewLines(1))),
        Action::ScrollPreviewLeft => Some(with_effect(v, EffectView::ScrollPreviewColumns(-1))),
        Action::ScrollPreviewRight => Some(with_effect(v, EffectView::ScrollPreviewColumns(1))),
        Action::Other => None,
    }
}

/// Whether what a key is bound to gives up the search.
pub open spec fn action_cancels(v: AppView, action: Action) -> bool {
    action == Action::FindDuplicates || (action == Action::OpenOrEnter && focused_path(v) is Some)
}

/// After the help was opened on top of the finder.
pub open spec fn help_opened(v: AppView) -> AppView {
    AppView { help: true, help_scroll: 0, ..with_effect(v, EffectView::ClearWheelScroll) }
}

/// After a key. `action` is what the key is bound to.
pub open spec fn after_key(v: AppView, key: KeyEvent, action: Option<Action>) -> AppView {
    if interrupts(key) {
        unchosen_or_closed(v)
    } else if asks_for_help(key) {
        help_opened(v)
    } else if action is Some && after_action(v, action->0) is Some {
        after_action(v, action->0)->0
    } else if is_plain_escape(key) {
        unchosen_or_closed(v)
    } else {
        v
    }
}

/// Whether a key gives up the search.
pub open spec fn key_cancels(v: AppView, key: KeyEvent, action: Option<Action>) -> bool {
    if interrupts(key) {
        !has_choice(v)
    } else if asks_for_help(key) {
        false
    } else if action is Some && after_action(v, action->0) is Some {
        action_cancels(v, action->0)
    } else {
        is_plain_escape(key) && !has_choice(v)
    }
}

/// A pool after a key or a click, canceled or not.
pub open spec fn pool_after(pool: PoolView, cancels: bool) -> PoolView {
    if cancels {
        all_canceled(pool)
    } else {
        pool
    }
}

/// What the mouse does, as far as the finder tells it apart.
#[derive(Clone, Copy, PartialEq, Eq, Structural, Debug)]
pub enum MouseKind {
    LeftDown,
    ScrollDown,
    ScrollUp,
    Other,
}

#[derive(Clone, Copy, PartialEq, Eq, Structural, Debug)]
pub struct MouseEvent {
    pub kind: MouseKind,
    pub column: u16,
    pub row: u16,
}

/// Whether the mouse is over a part of the screen that was drawn.
pub open spec fn over(rect: Option<Rect>, mouse: MouseEvent) -> bool {
    rect is Some && rect->0.covers(mouse.column, mouse.row)
}

/// The first line under the mouse, if there is one.
pub open spec fn hit_under(hits: Seq<DuplicateHit>, mouse: MouseEvent) -> Option<usize>
    decreases hits.len(),
{
    if hits.len() == 0 {
        None
    } else if hits[0].rect.covers(mouse.column, mouse.row) {
        Some(hits[0].index)
    } else {
        hit_under(hits.drop_first(), mouse)
    }
}

/// After the mouse was used: a click on a line moves the focus there, one beside
/// the finder closes it, and the wheel moves the preview or the focus.
pub open spec fn after_mouse(v: AppView, mouse: MouseEvent) -> AppView {
    match mouse.kind {
        MouseKind::LeftDown => match hit_under(v.hits, mouse) {
            Some(index) => with_focus(v, index as int),
            None => if over(v.panel, mouse) {
                v
            } else {
                closed(v)
            },
        },
        MouseKind::ScrollDown => if over(v.preview_panel, mouse) {
            with_effect(v, EffectView::ScrollPreviewLines(1))
        } else {
            with_focus_moved(v, 1)
        },
        MouseKind::ScrollUp => if over(v.preview_panel, mouse) {
            with_effect(v, EffectView::ScrollPreviewLines(-1))
        } else {
            with_focus_moved(v, -1)
        },
        MouseKind::Other => v,
    }
}

/// Whether the mouse gives up the search.
pub open spec fn mouse_cancels(v: AppView, mouse: MouseEvent) -> bool {
    mouse.kind == MouseKind::LeftDown && hit_under(v.hits, mouse) is None && !over(v.panel, mouse)
}

fn is_over(rect: Option<Rect>, mouse: MouseEvent) -> (r: bool)
    ensures
        r == over(rect, mouse),
{
    match rect {
        Some(rect) => rect_contains(rect, mouse.column, mouse.row),
        None => false,
    }
}

fn find_hit(hits: &Vec<DuplicateHit>, mouse: MouseEvent) -> (r: Option<usize>)
    ensures
        r == hit_under(hits@, mouse),
{
    let mut i: usize = 0;
    assert(hits@.skip(0) =~= hits@);
    while i < hits.len()
        invariant
            i <= hits@.len(),
            hit_under(hits@, mouse) == hit_under(hits@.skip(i as int), mouse),
        decreases hits@.len() - i,
    {
        let hit: DuplicateHit = hits[i];
        proof {
            assert(hits@.skip(i as int)[0] == hit);
            assert(hits@.skip(i as int).drop_first() =~= hits@.skip(i + 1));
        }
        if rect_contains(hit.rect, mouse.column, mouse.row) {
            return Some(hit.index);
        }
        i = i + 1;
    }
    None
}

impl App {
    /// Does what a key is bound to, where the finder knows it; says whether it
    /// does.
    fn perform(&mut self, pool: &mut DuplicateState, action: Action) -> (r: bool)
        requires
            old(self).wf(),
            old(pool).wf(),
        ensures
            final(self).wf(),
            final(pool).wf(),
            r == after_action(old(self)@, action) is Some,
            r ==> final(self)@ == after_action(old(self)@, action)->0,
            !r ==> *final(self) == *old(self),
            final(pool)@ == pool_after(old(pool)@, action_cancels(old(self)@, action)),
    {
        match action {
            Action::Quit | Action::QuitWithoutCd => self.request(Effect::Dispatch(action)),
            Action::Open => self.open_duplicate_targets(),
            Action::OpenOrEnter => self.reveal_duplicate_focus(pool),
            Action::CopyPath => {
                let paths: Vec<FilePath> = self.duplicate_action_paths();
                self.request(Effect::CopyPaths(paths));
            },
            Action::Rename => self.open_duplicate_rename(),
            Action::RenameInEditor => self.open_duplicate_editor_bulk_rename(),
            Action::Trash => self.open_duplicate_trash_prompt(),
            Action::SelectAll => self.select_all_duplicates(),
            Action::ToggleSelection => self.toggle_duplicate_selection(),
            Action::FindDuplicates => self.close_duplicate_finder(pool),
            Action::NavUp => self.move_duplicate_selection(-1),
            Action::NavDown => self.move_duplicate_selection(1),
            Action::PageUp => {
                self.page_duplicate_selection(-1);
                assert(self@ == after_action(old(self)@, action)->0);
            },
            Action::PageDown => {
                self.page_duplicate_selection(1);
                assert(self@ == after_action(old(self)@, action)->0);
            },
            Action::JumpFirst => self.set_duplicate_selection(0),
            Action::JumpLast => {
                let count: usize = self.duplicate_file_count();
                let last: usize = if count > 0 {
                    count - 1
                } else {
                    0
                };
                self.set_duplicate_selection(last);
            },
            Action::TogglePreview => self.toggle_duplicate_preview(),
            Action::ScrollPreviewUp => self.request(Effect::ScrollPreviewLines(-1)),
            Action::ScrollPreviewDown => self.request(Effect::ScrollPreviewLines(1)),
            Action::ScrollPreviewLeft => self.request(Effect::ScrollPreviewColumns(-1)),
            Action::ScrollPreviewRight => self.request(Effect::ScrollPreviewColumns(1)),
            Action::Other => return false,
        }
        true
    }

    /// Handles a key while the finder is open. `action` is what the key is bound
    /// to.
    pub fn handle_duplicate_key(
        &mut self,
        pool: &mut DuplicateState,
        key: KeyEvent,
        action: Option<Action>,
    )
        requires
            old(self).wf(),
            old(pool).wf(),
        ensures
            final(self).wf(),
            final(pool).wf(),
            final(self)@ == after_key(old(self)@, key, action),
            final(pool)@ == pool_after(old(pool)@, key_cancels(old(self)@, key, action)),
    {
        if key.modifiers.control && key.code == KeyCode::Char('c') {
            self.clear_duplicate_selection_or_close(pool);
            return;
        }
        if is_duplicate_help_shortcut(key) {
            self.request(Effect::ClearWheelScroll);
            self.overlays.help_scroll = 0;
            self.overlays.help = true;
            return;
        }
        if let Some(action) = action {
            if self.perform(pool, action) {
                return;
            }
        }
        if key.code == KeyCode::Esc && !key.modifiers.shift && !key.modifiers.control
            && !key.modifiers.alt && !key.modifiers.other {
            self.clear_duplicate_selection_or_close(pool);
        }
    }

    /// Handles the mouse while the finder is open.
    pub fn handle_duplicate_mouse(&mut self, pool: &mut DuplicateState, mouse: MouseEvent)
        requires
            old(self).wf(),
            old(pool).wf(),
        ensures
            final(self).wf(),
            final(pool).wf(),
            final(self)@ == after_mouse(old(self)@, mouse),
            final(pool)@ == pool_after(old(pool)@, mouse_cancels(old(self)@, mouse)),
    {
        match mouse.kind {
            MouseKind::LeftDown => {
                match find_hit(&self.input.frame_state.duplicate_hits, mouse) {
                    Some(index) => self.set_duplicate_selection(index),
                    None => {
                        if !is_over(self.input.frame_state.duplicate_panel, mouse) {
                            self.close_duplicate_finder(pool);
                        }
                    },
                }
            },
            MouseKind::ScrollDown => {
                if is_over(self.input.frame_state.preview_panel, mouse) {
                    self.request(Effect::ScrollPreviewLines(1));
                } else {
                    self.move_duplicate_selection(1);
                }
            },
            MouseKind::ScrollUp => {
                if is_over(self.input.frame_state.preview_panel, mouse) {
                    self.request(Effect::ScrollPreviewLines(-1));
                } else {
                    self.move_duplicate_selection(-1);
                }
            },
            MouseKind::Other => {},
        }
    }
}

} // verus!
