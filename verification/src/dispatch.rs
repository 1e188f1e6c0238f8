//! The event-dispatch state machine: one session holds the registered
//! shortcuts and a running flag; each incoming event is turned into the
//! decision to execute an action, to stop, or to do nothing. The caller
//! runs the surrounding event loop, performs the decided action, and
//! hands the next event back.

use vstd::prelude::*;

use crate::config::{Action, ActionV};
use crate::hotkeys::{RegisteredHotkey, RegisteredHotkeyV};

verus! {

/// An event of the surrounding loop, as plain data: a menu choice or a
/// tray choice by index into the menu labels, a fired hotkey by its id,
/// or anything else.
#[derive(Clone, Copy, Debug, PartialEq, Eq, Structural)]
pub enum UiEvent {
    /// A context-menu entry was chosen; the `Quit` entry has the index
    /// one past the last shortcut.
    MenuSelected { index: usize },
    /// A tray entry matching the shortcut at this index was activated.
    TraySelected { index: usize },
    /// The system reported a fired hotkey with this id.
    HotkeyFired { id: u32 },
    /// Any other event of the loop.
    Other,
}

/// What the caller must do next.
#[derive(Debug)]
pub enum Outcome {
    /// Run this action.
    Execute(Action),
    /// Leave the event loop; nothing runs any more.
    Exit,
    /// Nothing to do.
    Nothing,
}

/// Mathematical view of an outcome.
#[verifier::ext_equal]
pub enum OutcomeV {
    Execute(ActionV),
    Exit,
    Nothing,
}

impl View for Outcome {
    type V = OutcomeV;

    open spec fn view(&self) -> OutcomeV {
        match self {
            Outcome::Execute(a) => OutcomeV::Execute(a@),
            Outcome::Exit => OutcomeV::Exit,
            Outcome::Nothing => OutcomeV::Nothing,
        }
    }
}

/// A dispatch session: the registered shortcuts and whether the loop is
/// still running.
pub struct Session {
    pub entries: Vec<RegisteredHotkey>,
    pub running: bool,
}

/// Mathematical view of a session.
#[verifier::ext_equal]
pub struct SessionV {
    pub entries: Seq<RegisteredHotkeyV>,
    pub running: bool,
}

impl View for Session {
    type V = SessionV;

    open spec fn view(&self) -> SessionV {
        SessionV {
            entries: Seq::new(self.entries@.len(), |i: int| self.entries@[i]@),
            running: self.running,
        }
    }
}

/// The first registered entry with this hotkey id, if any.
pub open spec fn match_index(es: Seq<RegisteredHotkeyV>, id: u32) -> Option<int>
    decreases es.len(),
{
    if es.len() == 0 {
        None
    } else if es[0].hotkey_id == id {
        Some(0)
    } else {
        match match_index(es.skip(1), id) {
            Some(i) => Some(i + 1),
            None => None,
        }
    }
}

pub proof fn lemma_match_index(es: Seq<RegisteredHotkeyV>, id: u32)
    ensures
        match match_index(es, id) {
            Some(i) => 0 <= i < es.len() && es[i].hotkey_id == id && forall|j: int|
                0 <= j < i ==> (#[trigger] es[j]).hotkey_id != id,
            None => forall|j: int| 0 <= j < es.len() ==> (#[trigger] es[j]).hotkey_id != id,
        },
    decreases es.len(),
{
    if es.len() > 0 && es[0].hotkey_id != id {
        lemma_match_index(es.skip(1), id);
        match match_index(es.skip(1), id) {
            Some(i) => {
                assert(es[i + 1] == es.skip(1)[i]);
                assert forall|j: int| 0 <= j < i + 1 implies (#[trigger] es[j]).hotkey_id
                    != id by {
                    if j > 0 {
                        assert(es.skip(1)[j - 1] == es[j]);
                    }
                }
            },
            None => {
                assert forall|j: int| 0 <= j < es.len() implies (#[trigger] es[j]).hotkey_id
                    != id by {
                    if j > 0 {
                        assert(es.skip(1)[j - 1] == es[j]);
                    }
                }
            },
        }
    }
}

/// What one step of the loop decides: a stopped session ignores every
/// event; choosing `Quit` stops the session; a tray choice runs the
/// chosen entry's action; a fired hotkey runs the first entry carrying
/// its id; anything else does nothing.
pub open spec fn step_spec(s: SessionV, e: UiEvent) -> (SessionV, OutcomeV) {
    if !s.running {
        (s, OutcomeV::Nothing)
    } else {
        match e {
            UiEvent::MenuSelected { index } => if index == s.entries.len() {
                (SessionV { entries: s.entries, running: false }, OutcomeV::Exit)
            } else {
                (s, OutcomeV::Nothing)
            },
            UiEvent::TraySelected { index } => if index < s.entries.len() {
                (s, OutcomeV::Execute(s.entries[index as int].action))
            } else {
                (s, OutcomeV::Nothing)
            },
            UiEvent::HotkeyFired { id } => match match_index(s.entries, id) {
                Some(i) => (s, OutcomeV::Execute(s.entries[i].action)),
                None => (s, OutcomeV::Nothing),
            },
            UiEvent::Other => (s, OutcomeV::Nothing),
        }
    }
}

impl Session {
    /// Opens a session over these registered shortcuts.
    pub fn new(entries: Vec<RegisteredHotkey>) -> (r: Session)
        ensures
            r@.entries.len() == entries@.len(),
            forall|i: int| 0 <= i < entries@.len() ==> r@.entries[i] == (#[trigger] entries@[i])@,
            r@.running,
    {
        Session { entries, running: true }
    }

    /// The menu index of the `Quit` entry: one past the last shortcut.
    pub fn quit_index(&self) -> (r: usize)
        ensures
            r as int == self@.entries.len(),
    {
        self.entries.len()
    }

    /// Takes one event and decides what the loop does next, as
    /// `step_spec` says.
    #[verifier::loop_isolation(false)]
    pub fn step(&mut self, e: &UiEvent) -> (r: Outcome)
        ensures
            (final(self)@, r@) == step_spec(old(self)@, *e),
    {
        if !self.running {
            return Outcome::Nothing;
        }
        match e {
            UiEvent::MenuSelected { index } => {
                if *index == self.entries.len() {
                    self.running = false;
                    proof {
                        assert(final(self)@ =~= step_spec(old(self)@, *e).0);
                    }
                    Outcome::Exit
                } else {
                    Outcome::Nothing
                }
            },
            UiEvent::TraySelected { index } => {
                if *index < self.entries.len() {
                    let a = self.entries[*index].action.clone();
                    proof {
                        assert(self@.entries[*index as int] == self.entries@[*index as int]@);
                    }
                    Outcome::Execute(a)
                } else {
                    Outcome::Nothing
                }
            },
            UiEvent::HotkeyFired { id } => {
                let mut i: usize = 0;
                while i < self.entries.len()
                    invariant
                        i <= self.entries@.len(),
                        *self == *old(self),
                        forall|j: int|
                            0 <= j < i ==> (#[trigger] self@.entries[j]).hotkey_id != id,
                    decreases self.entries@.len() - i,
                {
                    proof {
                        assert(self@.entries[i as int] == self.entries@[i as int]@);
                    }
                    if self.entries[i].hotkey_id == *id {
                        let a = self.entries[i].action.clone();
                        proof {
                            lemma_match_index(self@.entries, *id);
                            match match_index(self@.entries, *id) {
                                Some(k) => {
                                    assert(k == i as int);
                                },
                                None => {
                                    assert(false);
                                },
                            }
                            assert(self@ == step_spec(old(self)@, *e).0);
                            assert(a@ == self@.entries[i as int].action);
                            assert(OutcomeV::Execute(a@) == step_spec(old(self)@, *e).1);
                        }
                        return Outcome::Execute(a);
                    }
                    i = i + 1;
                }
                proof {
                    lemma_match_index(self@.entries, *id);
                    match match_index(self@.entries, *id) {
                        Some(k) => {
                            assert((#[trigger] self@.entries[k]).hotkey_id == *id);
                            assert(false);
                        },
                        None => {},
                    }
                }
                Outcome::Nothing
            },
            UiEvent::Other => Outcome::Nothing,
        }
    }
}

/// Choosing `Quit` stops the loop, and after that no event makes any
/// action run: every later step decides nothing and changes nothing.
pub proof fn theorem_quit_stops_dispatch(s: SessionV, quit_index: usize, e2: UiEvent)
    requires
        s.running,
        quit_index as int == s.entries.len(),
    ensures
        step_spec(s, UiEvent::MenuSelected { index: quit_index }).1 == OutcomeV::Exit,
        !step_spec(s, UiEvent::MenuSelected { index: quit_index }).0.running,
        step_spec(step_spec(s, UiEvent::MenuSelected { index: quit_index }).0, e2).1
            == OutcomeV::Nothing,
        step_spec(step_spec(s, UiEvent::MenuSelected { index: quit_index }).0, e2).0 == step_spec(
            s,
            UiEvent::MenuSelected { index: quit_index },
        ).0,
{
}

} // verus!
