//! The main-menu selections an interactive caller can make. The caller reads
//! and tokenizes the input line; mapping the numeric selection to an option
//! lives here.

use vstd::prelude::*;

verus! {

/// What one line of menu input asks for.
#[derive(Clone, Copy, Debug, PartialEq, Eq, Structural)]
pub enum MainMenuUserOptions {
    ListBankAccounts,
    OpenbankAccount,
    Deposit,
    Withdraw,
    CloseAccount,
    Exit,
    InputError,
    InvalidInput,
}

impl MainMenuUserOptions {
    /// The option a parsed menu number selects; anything outside 1 through 6
    /// is an invalid selection.
    pub fn from_selection(selection: u8) -> (r: Self)
        ensures
            selection == 1 ==> r == MainMenuUserOptions::ListBankAccounts,
            selection == 2 ==> r == MainMenuUserOptions::OpenbankAccount,
            selection == 3 ==> r == MainMenuUserOptions::Deposit,
            selection == 4 ==> r == MainMenuUserOptions::Withdraw,
            selection == 5 ==> r == MainMenuUserOptions::CloseAccount,
            selection == 6 ==> r == MainMenuUserOptions::Exit,
            (selection == 0 || selection > 6) ==> r == MainMenuUserOptions::InvalidInput,
    {
        match selection {
            1 => MainMenuUserOptions::ListBankAccounts,
            2 => MainMenuUserOptions::OpenbankAccount,
            3 => MainMenuUserOptions::Deposit,
            4 => MainMenuUserOptions::Withdraw,
            5 => MainMenuUserOptions::CloseAccount,
            6 => MainMenuUserOptions::Exit,
            _ => MainMenuUserOptions::InvalidInput,
        }
    }
}

} // verus!
