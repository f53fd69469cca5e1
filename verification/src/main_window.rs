//! Whether the main window is hidden while popped-out tiles stay on screen.
//!
//! Hiding differs per platform (a private Hyprland workspace, minimizing, or a plain
//! hide); this keeps what the app knows of the window's state whichever way it was
//! done, including the user bringing it back themselves.
use vstd::prelude::*;

verus! {

/// App id of the main window.
pub const APP_ID: &'static str = "hyperion";

/// App id (Wayland) / class (X11, Hyprland) of popped-out tile windows.
pub const DETACHED_APP_ID: &'static str = "hyperion-tile";

pub struct MainWindow {
    hidden: bool,
    /// Focus has been lost since hiding; only focus *returning* after that means the
    /// user brought the window back themselves.
    lost_focus_since_hide: bool,
}

/// The state after a focus report (`None`: no news).
pub open spec fn after_focus(hidden: bool, lost: bool, focused: Option<bool>) -> (bool, bool) {
    match focused {
        Some(false) => (hidden, true),
        Some(true) => if hidden && lost { (false, lost) } else { (hidden, lost) },
        None => (hidden, lost),
    }
}

impl MainWindow {
    pub closed spec fn state(&self) -> (bool, bool) {
        (self.hidden, self.lost_focus_since_hide)
    }

    pub fn new() -> (w: Self)
        ensures
            w.state() == (false, false),
    {
        MainWindow { hidden: false, lost_focus_since_hide: false }
    }

    pub fn is_hidden(&self) -> (b: bool)
        ensures
            b == self.state().0,
    {
        self.hidden
    }

    /// Records that the window was just hidden.
    pub fn note_hidden(&mut self)
        ensures
            final(self).state() == (true, false),
    {
        self.hidden = true;
        self.lost_focus_since_hide = false;
    }

    /// Notices the user bringing the window back themselves (taskbar, a compositor
    /// keybind), so pop-outs stop offering to restore it.
    pub fn observe_focus(&mut self, focused: Option<bool>)
        ensures
            final(self).state() == after_focus(old(self).state().0, old(self).state().1, focused),
    {
        match focused {
            Some(false) => self.lost_focus_since_hide = true,
            Some(true) => {
                if self.hidden && self.lost_focus_since_hide {
                    self.hidden = false;
                }
            },
            None => {},
        }
    }

    /// Records that the window was just shown again.
    pub fn note_shown(&mut self)
        ensures
            final(self).state().0 == false,
            final(self).state().1 == old(self).state().1,
    {
        self.hidden = false;
    }
}

/// The state after a run of focus reports.
pub open spec fn after_reports(hidden: bool, lost: bool, reports: Seq<Option<bool>>) -> (bool, bool)
    decreases reports.len(),
{
    if reports.len() == 0 {
        (hidden, lost)
    } else {
        let (h, l) = after_reports(hidden, lost, reports.drop_last());
        after_focus(h, l, reports.last())
    }
}

/// After hiding, the window counts as hidden until focus has been lost and then come
/// back: focus that merely stays, or returns without having left, changes nothing.
pub proof fn lemma_hidden_until_focus_returns(reports: Seq<Option<bool>>)
    ensures
        after_reports(true, false, reports).0 == !exists|i: int, j: int|
            0 <= i < j < reports.len() && reports[i] == Some(false) && reports[j] == Some(true),
        after_reports(true, false, reports).1 == exists|i: int| 0 <= i < reports.len() && reports[i] == Some(false),
    decreases reports.len(),
{
    if reports.len() > 0 {
        let prev = reports.drop_last();
        lemma_hidden_until_focus_returns(prev);
        let n = reports.len() - 1;
        let lost_before = exists|i: int| 0 <= i < prev.len() && prev[i] == Some(false);
        let back_before = exists|i: int, j: int| 0 <= i < j < prev.len() && prev[i] == Some(false) && prev[j] == Some(true);
        assert(forall|i: int| 0 <= i < prev.len() ==> prev[i] == reports[i]);
        if back_before {
            let (i, j) = choose|i: int, j: int| 0 <= i < j < prev.len() && prev[i] == Some(false) && prev[j] == Some(true);
            assert(reports[i] == Some(false) && reports[j] == Some(true));
        }
        if lost_before {
            let i = choose|i: int| 0 <= i < prev.len() && prev[i] == Some(false);
            assert(reports[i] == Some(false));
        }
        if exists|i: int, j: int| 0 <= i < j < reports.len() && reports[i] == Some(false) && reports[j] == Some(true) {
            let (i, j) = choose|i: int, j: int| 0 <= i < j < reports.len() && reports[i] == Some(false) && reports[j] == Some(true);
            if j < n {
                assert(prev[i] == Some(false) && prev[j] == Some(true));
            } else {
                assert(prev[i] == Some(false));
            }
        }
        if exists|i: int| 0 <= i < reports.len() && reports[i] == Some(false) {
            let i = choose|i: int| 0 <= i < reports.len() && reports[i] == Some(false);
            if i < n {
                assert(prev[i] == Some(false));
            }
        }
        if reports[n] == Some(false) {
            assert(reports[n] == Some(false));
        }
    }
}

} // verus!
