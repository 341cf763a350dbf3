use ledger::account::Account;
use ledger::text::{parse_u32, split_on, u32_to_string};

#[test]
fn to_csv_basic() {
    let a = Account::new("alice".to_string(), 100);
    assert_eq!(a.to_csv(), "alice,100,100");
}

#[test]
fn to_csv_differing_balances() {
    let a = Account {
        id: "bob".to_string(),
        opening_balance: 5,
        current_balance: 7,
    };
    assert_eq!(a.to_csv(), "bob,5,7");
}

#[test]
fn round_trip_identical_record() {
    let a = Account {
        id: "carol".to_string(),
        opening_balance: 100,
        current_balance: 150,
    };
    let line = a.to_csv();
    let back = Account::from_csv(&line).expect("a well-formed line decodes");
    assert_eq!(back.id, "carol");
    assert_eq!(back.opening_balance, 100);
    assert_eq!(back.current_balance, 150);
}

#[test]
fn round_trip_extreme_balances() {
    let a = Account {
        id: "d".to_string(),
        opening_balance: 0,
        current_balance: u32::MAX,
    };
    let back = Account::from_csv(&a.to_csv()).expect("a well-formed line decodes");
    assert_eq!(back.id, "d");
    assert_eq!(back.opening_balance, 0);
    assert_eq!(back.current_balance, u32::MAX);
}

#[test]
fn from_csv_well_formed() {
    let a = Account::from_csv("alice,100,150").expect("three fields decode");
    assert_eq!(a.id, "alice");
    assert_eq!(a.opening_balance, 100);
    assert_eq!(a.current_balance, 150);
}

#[test]
fn from_csv_no_commas_is_no_record() {
    assert!(Account::from_csv("abc").is_none());
}

#[test]
fn from_csv_empty_line_is_no_record() {
    assert!(Account::from_csv("").is_none());
}

#[test]
fn from_csv_two_fields_is_no_record() {
    assert!(Account::from_csv("alice,100").is_none());
}

#[test]
fn from_csv_non_numeric_balance_is_no_record() {
    assert!(Account::from_csv("alice,x,150").is_none());
    assert!(Account::from_csv("alice,100,x").is_none());
    assert!(Account::from_csv("alice, 100,150").is_none());
}

#[test]
fn from_csv_extra_fields_are_ignored() {
    let a = Account::from_csv("alice,1,2,junk").expect("the first three fields decode");
    assert_eq!(a.id, "alice");
    assert_eq!(a.opening_balance, 1);
    assert_eq!(a.current_balance, 2);
}

#[test]
fn from_csv_empty_id_decodes() {
    let a = Account::from_csv(",3,4").expect("an empty identifier is a field");
    assert_eq!(a.id, "");
    assert_eq!(a.opening_balance, 3);
    assert_eq!(a.current_balance, 4);
}

#[test]
fn parse_u32_accepts_digits() {
    assert_eq!(parse_u32("0"), Some(0));
    assert_eq!(parse_u32("150"), Some(150));
    assert_eq!(parse_u32("007"), Some(7));
    assert_eq!(parse_u32("4294967295"), Some(u32::MAX));
}

#[test]
fn parse_u32_accepts_leading_plus() {
    assert_eq!(parse_u32("+41"), Some(41));
    assert_eq!(parse_u32("+0"), Some(0));
}

#[test]
fn parse_u32_rejects_everything_else() {
    assert_eq!(parse_u32(""), None);
    assert_eq!(parse_u32("+"), None);
    assert_eq!(parse_u32("-1"), None);
    assert_eq!(parse_u32("abc"), None);
    assert_eq!(parse_u32("1 0"), None);
    assert_eq!(parse_u32(" 1"), None);
    assert_eq!(parse_u32("4294967296"), None);
    assert_eq!(parse_u32("99999999999999999999"), None);
}

#[test]
fn u32_to_string_canonical() {
    assert_eq!(u32_to_string(0), "0");
    assert_eq!(u32_to_string(9), "9");
    assert_eq!(u32_to_string(10), "10");
    assert_eq!(u32_to_string(150), "150");
    assert_eq!(u32_to_string(u32::MAX), "4294967295");
}

#[test]
fn split_on_keeps_empty_chunks() {
    let parts = split_on("a,b,,c", ',');
    assert_eq!(parts, vec!["a", "b", "", "c"]);
}

#[test]
fn split_on_empty_string() {
    assert_eq!(split_on("", ','), vec![""]);
}

#[test]
fn split_on_trailing_separator() {
    assert_eq!(split_on("x\n", '\n'), vec!["x", ""]);
}
