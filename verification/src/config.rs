//! The configuration model: the action a hotkey triggers, one hotkey
//! entry, and the whole configuration, together with their mathematical
//! views, well-formedness, and the version check.

use vstd::prelude::*;

use crate::text::{str_is_yaml_safe, yaml_safe};

verus! {

/// The version the loader accepts.
pub const SUPPORTED_VERSION: u8 = 1;

/// The effect a hotkey or its menu entry triggers. A closed sum so more
/// kinds of effect can be added later; today a command is spawned.
#[derive(Debug, PartialEq)]
pub enum Action {
    ActionOpen { command: String, args: Vec<String> },
}

/// One configured shortcut: the key combination, the display label, and
/// the action it triggers.
#[derive(Debug, PartialEq)]
pub struct HotkeyEntry {
    pub key: String,
    pub name: String,
    pub action: Action,
}

/// A whole configuration file: a version and the shortcut list, in
/// display order.
#[derive(Debug, PartialEq)]
pub struct Config {
    pub version: u8,
    pub hotkeys: Vec<HotkeyEntry>,
}

/// Mathematical view of an action.
#[verifier::ext_equal]
pub enum ActionV {
    Open { command: Seq<char>, args: Seq<Seq<char>> },
}

/// Mathematical view of one entry.
#[verifier::ext_equal]
pub struct HotkeyEntryV {
    pub key: Seq<char>,
    pub name: Seq<char>,
    pub action: ActionV,
}

/// Mathematical view of a configuration.
#[verifier::ext_equal]
pub struct ConfigV {
    pub version: u8,
    pub hotkeys: Seq<HotkeyEntryV>,
}

impl View for Action {
    type V = ActionV;

    open spec fn view(&self) -> ActionV {
        match self {
            Action::ActionOpen { command, args } => ActionV::Open {
                command: command@,
                args: args.deep_view(),
            },
        }
    }
}

impl View for HotkeyEntry {
    type V = HotkeyEntryV;

    open spec fn view(&self) -> HotkeyEntryV {
        HotkeyEntryV { key: self.key@, name: self.name@, action: self.action@ }
    }
}

impl View for Config {
    type V = ConfigV;

    open spec fn view(&self) -> ConfigV {
        ConfigV {
            version: self.version,
            hotkeys: Seq::new(self.hotkeys@.len(), |i: int| self.hotkeys@[i]@),
        }
    }
}

impl ActionV {
    /// Every string of the action can be serialized.
    pub open spec fn wf(self) -> bool {
        match self {
            ActionV::Open { command, args } => yaml_safe(command) && forall|i: int|
                0 <= i < args.len() ==> yaml_safe(#[trigger] args[i]),
        }
    }
}

impl HotkeyEntryV {
    /// Every string of the entry can be serialized.
    pub open spec fn wf(self) -> bool {
        yaml_safe(self.key) && yaml_safe(self.name) && self.action.wf()
    }
}

impl ConfigV {
    /// Every string of the configuration can be serialized.
    pub open spec fn wf(self) -> bool {
        forall|i: int| 0 <= i < self.hotkeys.len() ==> (#[trigger] self.hotkeys[i]).wf()
    }
}

impl Clone for Action {
    fn clone(&self) -> (r: Self)
        ensures
            r@ == self@,
    {
        match self {
            Action::ActionOpen { command, args } => {
                let c = command.clone();
                let a = args.clone();
                proof {
                    assert forall|i: int| 0 <= i < a@.len() implies a@[i]@ == args@[i]@ by {
                        assert(cloned::<String>(args@[i], a@[i]));
                    }
                    assert(a.deep_view() =~= args.deep_view());
                }
                Action::ActionOpen { command: c, args: a }
            },
        }
    }
}

impl Clone for HotkeyEntry {
    fn clone(&self) -> (r: Self)
        ensures
            r@ == self@,
    {
        HotkeyEntry { key: self.key.clone(), name: self.name.clone(), action: self.action.clone() }
    }
}

impl Action {
    /// Tests that every string of the action can be serialized.
    #[verifier::loop_isolation(false)]
    pub fn is_wf(&self) -> (r: bool)
        ensures
            r == self@.wf(),
    {
        match self {
            Action::ActionOpen { command, args } => {
                if !str_is_yaml_safe(command.as_str()) {
                    return false;
                }
                let mut i: usize = 0;
                while i < args.len()
                    invariant
                        i <= args@.len(),
                        forall|j: int| 0 <= j < i ==> yaml_safe(#[trigger] args.deep_view()[j]),
                    decreases args@.len() - i,
                {
                    if !str_is_yaml_safe(args[i].as_str()) {
                        proof {
                            assert(args.deep_view()[i as int] == args@[i as int]@);
                            assert(self@->Open_args == args.deep_view());
                            assert(!self@.wf());
                        }
                        return false;
                    }
                    i = i + 1;
                }
                true
            },
        }
    }
}

impl HotkeyEntry {
    /// Tests that every string of the entry can be serialized.
    pub fn is_wf(&self) -> (r: bool)
        ensures
            r == self@.wf(),
    {
        str_is_yaml_safe(self.key.as_str()) && str_is_yaml_safe(self.name.as_str())
            && self.action.is_wf()
    }
}

impl Config {
    /// Tests that every string of the configuration can be serialized.
    pub fn is_wf(&self) -> (r: bool)
        ensures
            r == self@.wf(),
    {
        let mut i: usize = 0;
        while i < self.hotkeys.len()
            invariant
                i <= self.hotkeys@.len(),
                forall|j: int| 0 <= j < i ==> (#[trigger] self@.hotkeys[j]).wf(),
            decreases self.hotkeys@.len() - i,
        {
            if !self.hotkeys[i].is_wf() {
                proof {
                    assert(self@.hotkeys[i as int] == self.hotkeys@[i as int]@);
                }
                return false;
            }
            i = i + 1;
        }
        true
    }

    /// The version gate of the loader: exactly version 1 is accepted, any
    /// other version is rejected.
    pub fn check_version(&self) -> (r: Result<(), VersionError>)
        ensures
            r is Ok <==> self.version == SUPPORTED_VERSION,
            r matches Err(e) ==> e.found == self.version && self.version != SUPPORTED_VERSION,
    {
        if self.version == SUPPORTED_VERSION {
            Ok(())
        } else {
            Err(VersionError { found: self.version })
        }
    }
}

/// The configuration named a version this library does not understand.
#[derive(Clone, Copy, Debug, PartialEq, Eq, Structural)]
pub struct VersionError {
    pub found: u8,
}

} // verus!
