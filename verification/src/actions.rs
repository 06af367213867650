//! The closed set of user-interface commands: simple actions, composed
//! actions that expand to a fixed sequence of simple ones, and the global
//! shortcuts that trigger them.  Executing an action against a window is
//! the surrounding application's business; the command set and its
//! expansion are plain data.

use vstd::prelude::*;

verus! {

/// One indivisible command.
#[derive(Copy, Clone, Debug, PartialEq, Eq, Structural)]
pub enum SimpleAction {
    ShowFilesWindow,
    NewInputQuery,
    ExitApp,
    MinimizeToTray,
    DoNothing,
    FocusOnInputField,
    SaveWindowPosition,
    RestoreWindowPosition,
    SaveColumnsPosition,
    RestoreColumnsPosition,
    NewPluginState,
    NewSettings,
}

/// A command that expands to a fixed sequence of simple commands.
#[derive(Copy, Clone, Debug, PartialEq, Eq, Structural)]
pub enum ComposedAction {
    RestoreWindow,
    ResizeWindowFromSettings,
}

impl ComposedAction {
    /// The simple commands a composed command expands to, in order.
    pub fn simple_actions(self) -> (r: [SimpleAction; 2])
        ensures
            match self {
                ComposedAction::RestoreWindow => r@ == seq![
                    SimpleAction::ShowFilesWindow,
                    SimpleAction::FocusOnInputField,
                ],
                ComposedAction::ResizeWindowFromSettings => r@ == seq![
                    SimpleAction::RestoreWindowPosition,
                    SimpleAction::RestoreColumnsPosition,
                ],
            },
    {
        match self {
            ComposedAction::RestoreWindow => [
                SimpleAction::ShowFilesWindow,
                SimpleAction::FocusOnInputField,
            ],
            ComposedAction::ResizeWindowFromSettings => [
                SimpleAction::RestoreWindowPosition,
                SimpleAction::RestoreColumnsPosition,
            ],
        }
    }
}

/// Any command: simple or composed.
#[derive(Copy, Clone, Debug, PartialEq, Eq, Structural)]
pub enum Action {
    Simple(SimpleAction),
    Composed(ComposedAction),
}

/// A registered global shortcut.
#[derive(Copy, Clone, Debug, PartialEq, Eq, Structural)]
pub enum Shortcut {
    RestoreWindow,
}

impl Shortcut {
    /// The shortcut that a hotkey message parameter names, if any: the
    /// parameter carries the registration index, and only one shortcut is
    /// registered.
    pub fn from_wparam(w_param: usize) -> (r: Option<Shortcut>)
        ensures
            r == (if w_param == 0 {
                Some(Shortcut::RestoreWindow)
            } else {
                None::<Shortcut>
            }),
    {
        if w_param == 0 {
            Some(Shortcut::RestoreWindow)
        } else {
            None
        }
    }
}

impl From<Shortcut> for Action {
    /// The command a shortcut triggers.
    fn from(shortcut: Shortcut) -> (r: Self) {
        match shortcut {
            Shortcut::RestoreWindow => Action::Composed(ComposedAction::RestoreWindow),
        }
    }
}

impl vstd::std_specs::convert::FromSpecImpl<Shortcut> for Action {
    open spec fn obeys_from_spec() -> bool {
        true
    }

    open spec fn from_spec(shortcut: Shortcut) -> Action {
        Action::Composed(ComposedAction::RestoreWindow)
    }
}

impl From<SimpleAction> for Action {
    /// The simple command as a command.
    fn from(action: SimpleAction) -> (r: Self) {
        Action::Simple(action)
    }
}

impl vstd::std_specs::convert::FromSpecImpl<SimpleAction> for Action {
    open spec fn obeys_from_spec() -> bool {
        true
    }

    open spec fn from_spec(action: SimpleAction) -> Action {
        Action::Simple(action)
    }
}

impl From<ComposedAction> for Action {
    /// The composed command as a command.
    fn from(action: ComposedAction) -> (r: Self) {
        Action::Composed(action)
    }
}

impl vstd::std_specs::convert::FromSpecImpl<ComposedAction> for Action {
    open spec fn obeys_from_spec() -> bool {
        true
    }

    open spec fn from_spec(action: ComposedAction) -> Action {
        Action::Composed(action)
    }
}

} // verus!
