use ledger::bank::{Bank, BankError};
use ledger::menu::MainMenuUserOptions;

fn balances(bank: &Bank) -> Vec<(String, u32)> {
    bank.list_accounts()
}

#[test]
fn init_without_file_is_empty() {
    let bank = Bank::init(None);
    assert!(balances(&bank).is_empty());
}

#[test]
fn init_empty_text_is_empty() {
    let bank = Bank::init(Some(""));
    assert!(balances(&bank).is_empty());
}

#[test]
fn init_loads_records() {
    let bank = Bank::init(Some("alice,100,150\nbob,5,7\n"));
    assert_eq!(
        balances(&bank),
        vec![("alice".to_string(), 150), ("bob".to_string(), 7)]
    );
}

#[test]
fn init_skips_malformed_lines() {
    let bank = Bank::init(Some("alice,100,150\nabc\n"));
    assert_eq!(balances(&bank), vec![("alice".to_string(), 150)]);
}

#[test]
fn init_last_duplicate_wins() {
    let bank = Bank::init(Some("a,1,1\nb,3,3\na,2,2\n"));
    assert_eq!(
        balances(&bank),
        vec![("a".to_string(), 2), ("b".to_string(), 3)]
    );
}

#[test]
fn open_appends_account() {
    let mut bank = Bank::init(None);
    assert_eq!(bank.open_account("alice".to_string(), 100), Ok(()));
    assert_eq!(balances(&bank), vec![("alice".to_string(), 100)]);
}

#[test]
fn open_duplicate_rejected_balance_unchanged() {
    let mut bank = Bank::init(None);
    assert_eq!(bank.open_account("bob".to_string(), 10), Ok(()));
    assert_eq!(
        bank.open_account("bob".to_string(), 99),
        Err(BankError::DuplicateId)
    );
    assert_eq!(balances(&bank), vec![("bob".to_string(), 10)]);
}

#[test]
fn deposit_grows_balance() {
    let mut bank = Bank::init(None);
    bank.open_account("alice".to_string(), 100).unwrap();
    assert_eq!(bank.deposit(&"alice".to_string(), 50), Ok(()));
    assert_eq!(balances(&bank), vec![("alice".to_string(), 150)]);
}

#[test]
fn deposit_unknown_id_rejected() {
    let mut bank = Bank::init(None);
    assert_eq!(
        bank.deposit(&"nobody".to_string(), 1),
        Err(BankError::NotFound)
    );
}

#[test]
fn deposit_overflow_rejected_balance_unchanged() {
    let mut bank = Bank::init(None);
    bank.open_account("rich".to_string(), u32::MAX).unwrap();
    assert_eq!(
        bank.deposit(&"rich".to_string(), 1),
        Err(BankError::Overflow)
    );
    assert_eq!(balances(&bank), vec![("rich".to_string(), u32::MAX)]);
}

#[test]
fn withdraw_exact_balance_leaves_zero() {
    let mut bank = Bank::init(None);
    bank.open_account("alice".to_string(), 150).unwrap();
    assert_eq!(bank.withdraw(&"alice".to_string(), 150), Ok(()));
    assert_eq!(balances(&bank), vec![("alice".to_string(), 0)]);
}

#[test]
fn withdraw_over_balance_rejected_balance_unchanged() {
    let mut bank = Bank::init(None);
    bank.open_account("alice".to_string(), 150).unwrap();
    assert_eq!(
        bank.withdraw(&"alice".to_string(), 151),
        Err(BankError::InsufficientFunds)
    );
    assert_eq!(balances(&bank), vec![("alice".to_string(), 150)]);
}

#[test]
fn withdraw_unknown_id_rejected() {
    let mut bank = Bank::init(None);
    assert_eq!(
        bank.withdraw(&"nobody".to_string(), 1),
        Err(BankError::NotFound)
    );
}

#[test]
fn close_removes_account() {
    let mut bank = Bank::init(None);
    bank.open_account("a".to_string(), 1).unwrap();
    bank.open_account("b".to_string(), 2).unwrap();
    assert_eq!(bank.close_account(&"a".to_string()), Ok(()));
    assert_eq!(balances(&bank), vec![("b".to_string(), 2)]);
}

#[test]
fn close_with_nonzero_balance_is_permitted() {
    let mut bank = Bank::init(None);
    bank.open_account("a".to_string(), 37).unwrap();
    assert_eq!(bank.close_account(&"a".to_string()), Ok(()));
    assert!(balances(&bank).is_empty());
}

#[test]
fn close_unknown_id_rejected() {
    let mut bank = Bank::init(None);
    assert_eq!(
        bank.close_account(&"nobody".to_string()),
        Err(BankError::NotFound)
    );
}

#[test]
fn persist_renders_every_record() {
    let mut bank = Bank::init(None);
    bank.open_account("a".to_string(), 1).unwrap();
    bank.open_account("b".to_string(), 2).unwrap();
    assert_eq!(bank.to_file_content(), "a,1,1\nb,2,2\n");
}

#[test]
fn persist_twice_is_identical() {
    let mut bank = Bank::init(None);
    bank.open_account("a".to_string(), 1).unwrap();
    bank.deposit(&"a".to_string(), 5).unwrap();
    let first = bank.to_file_content();
    let second = bank.to_file_content();
    assert_eq!(first, second);
}

#[test]
fn persist_then_load_restores_state() {
    let mut bank = Bank::init(None);
    bank.open_account("alice".to_string(), 100).unwrap();
    bank.open_account("bob".to_string(), 5).unwrap();
    bank.deposit(&"bob".to_string(), 2).unwrap();
    let content = bank.to_file_content();
    let reloaded = Bank::init(Some(&content));
    assert_eq!(balances(&reloaded), balances(&bank));
}

#[test]
fn full_session_scenario() {
    let mut bank = Bank::init(None);
    assert_eq!(bank.open_account("alice".to_string(), 100), Ok(()));
    assert_eq!(balances(&bank), vec![("alice".to_string(), 100)]);
    assert_eq!(bank.deposit(&"alice".to_string(), 50), Ok(()));
    assert_eq!(balances(&bank), vec![("alice".to_string(), 150)]);
    assert_eq!(
        bank.withdraw(&"alice".to_string(), 200),
        Err(BankError::InsufficientFunds)
    );
    assert_eq!(balances(&bank), vec![("alice".to_string(), 150)]);
    assert_eq!(bank.close_account(&"alice".to_string()), Ok(()));
    assert!(balances(&bank).is_empty());
    let content = bank.to_file_content();
    assert_eq!(content, "");
    let reloaded = Bank::init(Some(&content));
    assert!(balances(&reloaded).is_empty());
}

#[test]
fn menu_selection_mapping() {
    assert_eq!(
        MainMenuUserOptions::from_selection(1),
        MainMenuUserOptions::ListBankAccounts
    );
    assert_eq!(
        MainMenuUserOptions::from_selection(2),
        MainMenuUserOptions::OpenbankAccount
    );
    assert_eq!(
        MainMenuUserOptions::from_selection(3),
        MainMenuUserOptions::Deposit
    );
    assert_eq!(
        MainMenuUserOptions::from_selection(4),
        MainMenuUserOptions::Withdraw
    );
    assert_eq!(
        MainMenuUserOptions::from_selection(5),
        MainMenuUserOptions::CloseAccount
    );
    assert_eq!(
        MainMenuUserOptions::from_selection(6),
        MainMenuUserOptions::Exit
    );
    assert_eq!(
        MainMenuUserOptions::from_selection(0),
        MainMenuUserOptions::InvalidInput
    );
    assert_eq!(
        MainMenuUserOptions::from_selection(7),
        MainMenuUserOptions::InvalidInput
    );
}
