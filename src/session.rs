use vstd::prelude::*;

verus! {

/// Which of the two endpoints is under edit.
#[derive(Clone, Copy, Debug, PartialEq, Eq, Structural)]
pub enum Slot {
    A,
    B,
}

/// An input that the interactive shell hands to the session, already
/// stripped of its windowing-system details.
#[derive(Clone, Copy, Debug, PartialEq, Eq, Structural)]
pub enum InputEvent {
    /// The window was closed.
    Quit,
    /// The escape key went down.
    Escape,
    /// The `1` key went down: select the first endpoint.
    SelectFirst,
    /// The `2` key went down: select the second endpoint.
    SelectSecond,
    /// The `X` key went down: recompute the full distance scan.
    Scan,
    /// The `D` key went down: print a debug line.
    Debug,
    /// Anything else.
    Other,
}

/// What the shell must do after an event.
#[derive(Clone, Copy, Debug, PartialEq, Eq, Structural)]
pub enum Action {
    /// Leave the main loop.
    Stop,
    /// Run the full-grid scan against snapshots of both endpoints.
    FullScan,
    /// Print the debug line.
    DebugLine,
    /// Nothing beyond the state change, if any.
    Nothing,
}

/// The frame number after which the shell reports the elapsed time once.
pub const REPORT_FRAME: u64 = 10000;

/// State of the interactive loop: the endpoint under edit and the number of
/// frames drawn so far.
#[derive(Clone, Copy, Debug, PartialEq, Eq, Structural)]
pub struct Session {
    pub selection: Slot,
    pub frames: u64,
}

/// The slot selected after `ev`, starting from `cur`.
pub open spec fn selection_after(cur: Slot, ev: InputEvent) -> Slot {
    match ev {
        InputEvent::SelectFirst => Slot::A,
        InputEvent::SelectSecond => Slot::B,
        _ => cur,
    }
}

/// The action that `ev` asks of the shell.
pub open spec fn action_for(ev: InputEvent) -> Action {
    match ev {
        InputEvent::Quit | InputEvent::Escape => Action::Stop,
        InputEvent::Scan => Action::FullScan,
        InputEvent::Debug => Action::DebugLine,
        _ => Action::Nothing,
    }
}

/// The frame count after one more frame; it stays put at `u64::MAX`.
pub open spec fn frames_after(n: u64) -> u64 {
    if n < u64::MAX {
        (n + 1) as u64
    } else {
        n
    }
}

impl Session {
    /// A fresh session: the first endpoint is selected and no frame is drawn.
    pub fn new() -> (r: Session)
        ensures
            r.selection == Slot::A,
            r.frames == 0,
    {
        Session { selection: Slot::A, frames: 0 }
    }

    /// Applies one input event and returns what the shell must do about it.
    pub fn handle(&mut self, ev: InputEvent) -> (r: Action)
        ensures
            final(self).selection == selection_after(old(self).selection, ev),
            final(self).frames == old(self).frames,
            r == action_for(ev),
    {
        match ev {
            InputEvent::Quit | InputEvent::Escape => Action::Stop,
            InputEvent::SelectFirst => {
                self.selection = Slot::A;
                Action::Nothing
            },
            InputEvent::SelectSecond => {
                self.selection = Slot::B;
                Action::Nothing
            },
            InputEvent::Scan => Action::FullScan,
            InputEvent::Debug => Action::DebugLine,
            InputEvent::Other => Action::Nothing,
        }
    }

    /// Counts one drawn frame. Returns `true` exactly when the count has just
    /// reached `REPORT_FRAME`, the moment at which the shell reports timing.
    pub fn end_frame(&mut self) -> (report: bool)
        ensures
            final(self).selection == old(self).selection,
            final(self).frames == frames_after(old(self).frames),
            report == (old(self).frames + 1 == REPORT_FRAME),
    {
        if self.frames < u64::MAX {
            self.frames = self.frames + 1;
        }
        self.frames == REPORT_FRAME
    }
}

} // verus!
