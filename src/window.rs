//! The bookkeeping behind the presentation layer's windows: a title, whether
//! the window is shown, and whether the user asked to close it.
use vstd::prelude::*;

verus! {

/// A window hosted in the main window body.
pub struct SubWindow {
    pub title: String,
    pub is_open: bool,
}

impl SubWindow {
    /// A window with the given title, shown.
    pub fn new(title: String) -> (r: SubWindow)
        ensures
            r.title@ == title@,
            r.is_open,
    {
        SubWindow { title, is_open: true }
    }
}

/// A window of the viewport, keyed by a stable id.
pub struct Window {
    pub id: u64,
    pub title: String,
    pub is_open: bool,
    pub is_exit: bool,
}

impl Window {
    /// A window that is not yet asked to close.
    pub fn new(id: u64, title: String, default_open: bool) -> (r: Window)
        ensures
            r.id == id,
            r.title@ == title@,
            r.is_open == default_open,
            !r.is_exit,
    {
        Window { id, title, is_open: default_open, is_exit: false }
    }
}

/// The windows not asked to close, in order.
pub open spec fn kept_windows(ws: Seq<Window>) -> Seq<Window>
    decreases ws.len(),
{
    if ws.len() == 0 {
        Seq::empty()
    } else if ws.last().is_exit {
        kept_windows(ws.drop_last())
    } else {
        kept_windows(ws.drop_last()).push(ws.last())
    }
}

/// Drops the windows asked to close, keeping the others in order.
pub fn remove_exited(windows: &mut Vec<Window>)
    ensures
        final(windows)@ == kept_windows(old(windows)@),
{
    let ghost all = windows@;
    let mut kept: Vec<Window> = Vec::new();
    assert(kept_windows(all) =~= kept_windows(windows@) + kept@);
    while windows.len() > 0
        invariant
            kept_windows(all) == kept_windows(windows@) + kept@,
        decreases windows@.len(),
    {
        let ghost before = windows@;
        let ghost kept_before = kept@;
        let w = windows.pop().unwrap();
        proof {
            assert(before.drop_last() =~= windows@);
            assert(before.last() == w);
        }
        if !w.is_exit {
            kept.insert(0, w);
            assert(kept_windows(windows@) + kept@ =~= kept_windows(windows@).push(w) + kept_before);
        }
    }
    assert(kept_windows(windows@) + kept@ =~= kept@);
    *windows = kept;
}

} // verus!
