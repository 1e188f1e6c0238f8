//! The registrar: turning configured entries into registered hotkeys
//! with their numeric ids, and building the tray-menu labels.

use vstd::prelude::*;
use vstd::string::StringExecFns;

use crate::config::{ActionV, Config, HotkeyEntryV};

verus! {

/// The id `global_hotkey` computes for a key-combination string, when
/// the string parses; a function of the string alone within one build.
/// (The `CmdOrCtrl` family of modifier tokens maps to a different
/// modifier per compile target, so the function differs between
/// targets; on any one machine it is fixed.)
pub uninterp spec fn hotkey_id_of(s: Seq<char>) -> Option<u32>;

/// Relies on `global_hotkey::hotkey::HotKey::from_str` and
/// `HotKey::id`: the string is parsed into modifiers and a key code by
/// the string's content alone, and the id is computed from those parts,
/// so the result is a function of the string.
#[verifier::external_body]
fn hotkey_id_from_str(s: &str) -> (r: Option<u32>)
    ensures
        r == hotkey_id_of(s@),
{
    match s.parse::<global_hotkey::hotkey::HotKey>() {
        Ok(h) => Some(h.id()),
        Err(_) => None,
    }
}

/// One shortcut ready for registration: the id of its key combination
/// and the action it triggers.
#[derive(Debug)]
pub struct RegisteredHotkey {
    pub hotkey_id: u32,
    pub action: crate::config::Action,
}

/// Mathematical view of a registered hotkey.
#[verifier::ext_equal]
pub struct RegisteredHotkeyV {
    pub hotkey_id: u32,
    pub action: ActionV,
}

impl View for RegisteredHotkey {
    type V = RegisteredHotkeyV;

    open spec fn view(&self) -> RegisteredHotkeyV {
        RegisteredHotkeyV { hotkey_id: self.hotkey_id, action: self.action@ }
    }
}

/// Why a configuration cannot be registered.
#[derive(Clone, Copy, Debug, PartialEq, Eq, Structural)]
pub enum RegisterError {
    /// The entry's key string does not parse as a key combination.
    BadKey { index: usize },
    /// The entry's key combination carries the same id as an earlier one.
    DuplicateKey { index: usize },
}

/// All key strings parse and their ids are pairwise distinct.
pub open spec fn registrable(c: crate::config::ConfigV) -> bool {
    (forall|i: int|
        0 <= i < c.hotkeys.len() ==> hotkey_id_of(#[trigger] c.hotkeys[i].key) is Some) && (forall|
        i: int,
        j: int,
    |
        0 <= i < j < c.hotkeys.len() ==> hotkey_id_of(#[trigger] c.hotkeys[i].key) != hotkey_id_of(
            #[trigger] c.hotkeys[j].key,
        ))
}

/// Parses every entry's key combination and pairs it with its action,
/// rejecting an unparseable key and a key already taken, as registration
/// with the system would.
pub fn prepare_hotkeys(c: &Config) -> (r: Result<Vec<RegisteredHotkey>, RegisterError>)
    ensures
        r is Ok <==> registrable(c@),
        r matches Ok(v) ==> v@.len() == c.hotkeys@.len() && forall|i: int|
            0 <= i < v@.len() ==> (#[trigger] v@[i]@).action == c@.hotkeys[i].action && Some(
                v@[i]@.hotkey_id,
            ) == hotkey_id_of(c@.hotkeys[i].key),
        r matches Err(RegisterError::BadKey { index }) ==> index < c.hotkeys@.len()
            && hotkey_id_of(c@.hotkeys[index as int].key) is None && (forall|k: int|
            0 <= k < index ==> hotkey_id_of(#[trigger] c@.hotkeys[k].key) is Some) && (forall|
            k: int,
            l: int,
        |
            0 <= k < l < index ==> hotkey_id_of(#[trigger] c@.hotkeys[k].key) != hotkey_id_of(
                #[trigger] c@.hotkeys[l].key,
            )),
        r matches Err(RegisterError::DuplicateKey { index }) ==> index < c.hotkeys@.len() && (
        forall|k: int|
            0 <= k <= index ==> hotkey_id_of(#[trigger] c@.hotkeys[k].key) is Some) && (exists|
            j: int,
        |
            0 <= j < index && hotkey_id_of(#[trigger] c@.hotkeys[j].key) == hotkey_id_of(
                c@.hotkeys[index as int].key,
            )) && (forall|k: int, l: int|
            0 <= k < l < index ==> hotkey_id_of(#[trigger] c@.hotkeys[k].key) != hotkey_id_of(
                #[trigger] c@.hotkeys[l].key,
            )),
{
    let mut out: Vec<RegisteredHotkey> = Vec::new();
    let mut i: usize = 0;
    while i < c.hotkeys.len()
        invariant
            i <= c.hotkeys@.len(),
            out@.len() == i,
            forall|k: int|
                0 <= k < i ==> hotkey_id_of(#[trigger] c@.hotkeys[k].key) is Some,
            forall|k: int|
                0 <= k < i ==> (#[trigger] out@[k]@).action == c@.hotkeys[k].action && Some(
                    out@[k]@.hotkey_id,
                ) == hotkey_id_of(c@.hotkeys[k].key),
            forall|k: int, l: int|
                0 <= k < l < i ==> hotkey_id_of(#[trigger] c@.hotkeys[k].key) != hotkey_id_of(
                    #[trigger] c@.hotkeys[l].key,
                ),
        decreases c.hotkeys@.len() - i,
    {
        proof {
            assert(c@.hotkeys[i as int] == c.hotkeys@[i as int]@);
        }
        let id = match hotkey_id_from_str(c.hotkeys[i].key.as_str()) {
            Some(id) => id,
            None => {
                proof {
                    assert(hotkey_id_of(c@.hotkeys[i as int].key) is None);
                    assert(!registrable(c@));
                }
                return Err(RegisterError::BadKey { index: i });
            },
        };
        let mut j: usize = 0;
        while j < out.len()
            invariant
                j <= out@.len(),
                out@.len() == i,
                i < c.hotkeys@.len(),
                Some(id) == hotkey_id_of(c@.hotkeys[i as int].key),
                forall|k: int|
                    0 <= k < i ==> (#[trigger] out@[k]@).action == c@.hotkeys[k].action && Some(
                        out@[k]@.hotkey_id,
                    ) == hotkey_id_of(c@.hotkeys[k].key),
                forall|k: int| 0 <= k < j ==> (#[trigger] out@[k]@).hotkey_id != id,
                forall|k: int, l: int|
                    0 <= k < l < i ==> hotkey_id_of(#[trigger] c@.hotkeys[k].key) != hotkey_id_of(
                        #[trigger] c@.hotkeys[l].key,
                    ),
            decreases out@.len() - j,
        {
            if out[j].hotkey_id == id {
                proof {
                    assert(out@[j as int]@.hotkey_id == id);
                    assert forall|k: int| 0 <= k <= i as int implies hotkey_id_of(
                        #[trigger] c@.hotkeys[k].key,
                    ) is Some by {
                        if k < i as int {
                            assert(Some(out@[k]@.hotkey_id) == hotkey_id_of(c@.hotkeys[k].key));
                        }
                    }
                    assert(hotkey_id_of(c@.hotkeys[j as int].key) == hotkey_id_of(
                        c@.hotkeys[i as int].key,
                    ));
                    assert(!registrable(c@));
                }
                return Err(RegisterError::DuplicateKey { index: i });
            }
            j = j + 1;
        }
        out.push(RegisteredHotkey { hotkey_id: id, action: c.hotkeys[i].action.clone() });
        proof {
            assert(out@[i as int]@.action == c@.hotkeys[i as int].action);
            assert(Some(out@[i as int]@.hotkey_id) == hotkey_id_of(c@.hotkeys[i as int].key));
            assert forall|k: int, l: int| 0 <= k < l < i + 1 implies hotkey_id_of(
                #[trigger] c@.hotkeys[k].key,
            ) != hotkey_id_of(#[trigger] c@.hotkeys[l].key) by {
                if l == i as int {
                    assert(out@[k]@.hotkey_id != id);
                }
            }
        }
        i = i + 1;
    }
    proof {
        assert(registrable(c@));
    }
    Ok(out)
}

/// The tray-menu label of one entry: its name, then its key in
/// parentheses.
pub open spec fn label_of(e: HotkeyEntryV) -> Seq<char> {
    e.name + " ("@ + e.key + ")"@
}

/// Builds the tray-menu labels: one labelled entry per shortcut, in
/// configuration order, and one final `Quit` entry.
pub fn menu_labels(c: &Config) -> (r: Vec<String>)
    ensures
        r@.len() == c.hotkeys@.len() + 1,
        forall|i: int| 0 <= i < c.hotkeys@.len() ==> (#[trigger] r@[i])@ == label_of(c@.hotkeys[i]),
        r@[c.hotkeys@.len() as int]@ == "Quit"@,
{
    let mut r: Vec<String> = Vec::new();
    let mut i: usize = 0;
    while i < c.hotkeys.len()
        invariant
            i <= c.hotkeys@.len(),
            r@.len() == i,
            forall|k: int| 0 <= k < i ==> (#[trigger] r@[k])@ == label_of(c@.hotkeys[k]),
        decreases c.hotkeys@.len() - i,
    {
        let mut s = String::new();
        s.append(c.hotkeys[i].name.as_str());
        s.append(" (");
        s.append(c.hotkeys[i].key.as_str());
        s.append(")");
        proof {
            assert(c@.hotkeys[i as int] == c.hotkeys@[i as int]@);
            assert(s@ == label_of(c@.hotkeys[i as int]));
        }
        r.push(s);
        i = i + 1;
    }
    r.push(String::from_str("Quit"));
    r
}

} // verus!
