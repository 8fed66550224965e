//! The decisions of the window around the library: what it says while work is
//! under way, and what keys and the pointer ask for.

use crate::number::binary64::Binary64;
use crate::text::copy_text;
use vstd::prelude::*;

verus! {

/// Which way to move through a track.
#[derive(Debug, Clone, Copy, PartialEq, Eq, Structural)]
pub enum Direction {
    Backward,
    Forward,
}

/// What the user asked for.
#[derive(Debug, Clone, Copy, PartialEq)]
pub enum Action {
    TogglePlay,
    SeekBar(Direction),
    ZoomIn,
    ZoomOut,
    /// Move the playhead to a time in seconds.
    Seek(Binary64),
    /// Start a selection at a time in seconds.
    SelectFrom(Binary64),
    /// Extend the selection to a time in seconds.
    SelectTo(Binary64),
}

/// The keys pressed since the last frame.
#[derive(Debug, Clone, Copy, PartialEq, Eq, Structural)]
pub struct Keys {
    pub space: bool,
    pub left: bool,
    pub right: bool,
    pub minus: bool,
    pub plus: bool,
    pub equals: bool,
}

/// What the pressed keys ask for. The transport comes first.
pub fn keyboard(keys: Keys) -> (r: Option<Action>)
    ensures
        r == if keys.space {
            Some(Action::TogglePlay)
        } else if keys.left {
            Some(Action::SeekBar(Direction::Backward))
        } else if keys.right {
            Some(Action::SeekBar(Direction::Forward))
        } else if keys.minus {
            Some(Action::ZoomOut)
        } else if keys.plus || keys.equals {
            Some(Action::ZoomIn)
        } else {
            None
        },
{
    if keys.space {
        return Some(Action::TogglePlay);
    }
    if keys.left {
        return Some(Action::SeekBar(Direction::Backward));
    }
    if keys.right {
        return Some(Action::SeekBar(Direction::Forward));
    }
    if keys.minus {
        return Some(Action::ZoomOut);
    }
    if keys.plus || keys.equals {
        return Some(Action::ZoomIn);
    }
    None
}

/// What the pointer did over the track.
#[derive(Debug, Clone, Copy, PartialEq, Eq, Structural)]
pub struct Pointer {
    pub drag_started: bool,
    pub dragged: bool,
    pub clicked: bool,
}

/// What the pointer asks for at a time: dragging selects a range, and a plain
/// click seeks to the beat that the time snaps to.
pub fn pointer_action(pointer: Pointer, time: Binary64, snapped: Binary64) -> (r: Option<Action>)
    ensures
        r == if pointer.drag_started {
            Some(Action::SelectFrom(time))
        } else if pointer.dragged {
            Some(Action::SelectTo(time))
        } else if pointer.clicked {
            Some(Action::Seek(snapped))
        } else {
            None
        },
{
    if pointer.drag_started {
        Some(Action::SelectFrom(time))
    } else if pointer.dragged {
        Some(Action::SelectTo(time))
    } else if pointer.clicked {
        Some(Action::Seek(snapped))
    } else {
        None
    }
}

/// What the window shows of the work in the background.
#[derive(Debug, Clone)]
pub struct Shell {
    /// Set when something went wrong that the user should see.
    pub status: Option<String>,
    /// The file being analysed.
    pub analysing: Option<String>,
}

/// What a window says.
pub open spec fn said(text: Option<String>) -> Option<Seq<char>> {
    match text {
        Some(t) => Some(t@),
        None => None,
    }
}

impl Shell {
    /// A window with nothing to say.
    pub fn new() -> (r: Self)
        ensures
            r.status is None,
            r.analysing is None,
    {
        Shell { status: None, analysing: None }
    }

    /// A file went to the worker, which took it if it still runs.
    pub fn request_sent(&mut self, path: &str, taken: bool)
        ensures
            taken ==> final(self).status is None && said(final(self).analysing) == Some(path@),
            !taken ==> final(self).analysing is None && said(final(self).status) == Some(
                "The analysis worker has stopped."@,
            ),
    {
        if taken {
            self.status = None;
            self.analysing = Some(copy_text(path));
        } else {
            self.status = Some(copy_text("The analysis worker has stopped."));
            self.analysing = None;
        }
    }

    /// The worker finished a file.
    pub fn analysis_ready(&mut self)
        ensures
            final(self).analysing is None,
            final(self).status == old(self).status,
    {
        self.analysing = None;
    }

    /// The worker gave a file up.
    pub fn analysis_failed(&mut self, path: &str, message: &str)
        ensures
            final(self).analysing is None,
            said(final(self).status) == Some(path@ + ": "@ + message@),
    {
        self.analysing = None;
        let mut text: String = copy_text(path);
        text.push_str(": ");
        text.push_str(message);
        self.status = Some(text);
    }

    /// The library could not be read.
    pub fn library_failed(&mut self, message: &str)
        ensures
            final(self).analysing == old(self).analysing,
            said(final(self).status) == Some("Could not open the library: "@ + message@),
    {
        let mut text: String = copy_text("Could not open the library: ");
        text.push_str(message);
        self.status = Some(text);
    }
}

} // verus!
