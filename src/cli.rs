//! The choice between the two operations offered to a command line.
use vstd::prelude::*;

verus! {

/// What a command line asks of an archive.
#[derive(Debug, Clone, Copy, PartialEq, Eq)]
pub enum CliAction {
    Extract,
    List,
}

/// Why the requested operation is not one of the two offered.
#[derive(Debug, Clone, Copy, PartialEq, Eq)]
pub enum ActionError {
    /// Both extracting and listing were asked for.
    Both,
    /// Neither was asked for.
    Neither,
}

/// The one operation asked for by the extract and list switches.
pub fn select_action(extract: bool, list: bool) -> (r: Result<CliAction, ActionError>)
    ensures
        extract && list ==> r == Err::<CliAction, ActionError>(ActionError::Both),
        extract && !list ==> r == Ok::<CliAction, ActionError>(CliAction::Extract),
        !extract && list ==> r == Ok::<CliAction, ActionError>(CliAction::List),
        !extract && !list ==> r == Err::<CliAction, ActionError>(ActionError::Neither),
{
    if extract && list {
        Err(ActionError::Both)
    } else if list {
        Ok(CliAction::List)
    } else if extract {
        Ok(CliAction::Extract)
    } else {
        Err(ActionError::Neither)
    }
}

} // verus!
