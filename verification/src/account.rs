//! The account record: identity and balance state, together with its
//! single-line text encoding `id,opening_balance,current_balance`.

use vstd::prelude::*;
use crate::text::{
    dec_digits,
    digit_value,
    is_digit,
    lemma_dec_digits_all_digits,
    lemma_parse_dec,
    lemma_split_no_sep,
    lemma_split_prefix,
    parse_u32,
    parse_u32_spec,
    split_on,
    split_spec,
    u32_to_string,
};

verus! {

/// The mathematical content of an account record.
pub ghost struct AccountV {
    pub id: Seq<char>,
    pub opening_balance: u32,
    pub current_balance: u32,
}

/// A named account: the identifier is fixed at creation, the opening balance
/// is kept for the historical record, and only the current balance moves.
pub struct Account {
    pub id: String,
    pub opening_balance: u32,
    pub current_balance: u32,
}

impl View for Account {
    type V = AccountV;

    open spec fn view(&self) -> AccountV {
        AccountV {
            id: self.id@,
            opening_balance: self.opening_balance,
            current_balance: self.current_balance,
        }
    }
}

/// The one-line encoding of a record: the three fields comma-separated, the
/// balances in canonical decimal.
pub open spec fn csv_line(v: AccountV) -> Seq<char> {
    v.id + seq![','] + dec_digits(v.opening_balance as int) + seq![','] + dec_digits(
        v.current_balance as int,
    )
}

/// What decoding one line yields: split on commas, the first field is the
/// identifier and the next two must parse as `u32` balances; any further
/// fields are ignored. A line with fewer than three fields, or whose numeric
/// fields fail to parse, is no record.
pub open spec fn csv_record(line: Seq<char>) -> Option<AccountV> {
    let fields = split_spec(line, ',');
    if fields.len() >= 3 {
        match (parse_u32_spec(fields[1]), parse_u32_spec(fields[2])) {
            (Some(ob), Some(cb)) => Some(
                AccountV { id: fields[0], opening_balance: ob, current_balance: cb },
            ),
            _ => None,
        }
    } else {
        None
    }
}

impl Account {
    /// A fresh record: the current balance starts at the opening balance.
    /// Uniqueness of `id` is the caller's concern.
    pub fn new(id: String, opening_balance: u32) -> (r: Self)
        ensures
            r@ == (AccountV { id: id@, opening_balance, current_balance: opening_balance }),
    {
        Self { id, opening_balance, current_balance: opening_balance }
    }

    /// Encodes the record as one line, without the terminating newline.
    pub fn to_csv(&self) -> (r: String)
        ensures
            r@ == csv_line(self@),
    {
        let mut s = String::new();
        s.append(self.id.as_str());
        s.append(",");
        let ob = u32_to_string(self.opening_balance);
        s.append(ob.as_str());
        s.append(",");
        let cb = u32_to_string(self.current_balance);
        s.append(cb.as_str());
        proof {
            reveal_strlit(",");
            assert((",")@ =~= seq![',']);
            assert(s@ =~= csv_line(self@));
        }
        s
    }

    /// Decodes one line; `None` marks a malformed line, never an error.
    pub fn from_csv(csv: &str) -> (r: Option<Self>)
        ensures
            match r {
                Some(a) => csv_record(csv@) == Some(a@),
                None => csv_record(csv@) is None,
            },
    {
        let fields = split_on(csv, ',');
        if fields.len() < 3 {
            return None;
        }
        let opening_balance = match parse_u32(fields[1].as_str()) {
            Some(v) => v,
            None => {
                return None;
            },
        };
        let current_balance = match parse_u32(fields[2].as_str()) {
            Some(v) => v,
            None => {
                return None;
            },
        };
        let id = fields[0].clone();
        Some(Self { id, opening_balance, current_balance })
    }
}

/// An identifier the flat-file format can carry faithfully: free of the
/// field separator and of the line separator.
pub open spec fn clean_id(id: Seq<char>) -> bool {
    forall|i: int| 0 <= i < id.len() ==> id[i] != ',' && id[i] != '\n'
}

/// The encoded line of a record with a clean identifier contains no newline,
/// so it stays one line of the backing file.
pub proof fn lemma_csv_line_no_newline(v: AccountV)
    requires
        clean_id(v.id),
    ensures
        forall|i: int| 0 <= i < csv_line(v).len() ==> csv_line(v)[i] != '\n',
{
    let d1 = dec_digits(v.opening_balance as int);
    let d2 = dec_digits(v.current_balance as int);
    lemma_dec_digits_all_digits(v.opening_balance as int);
    lemma_dec_digits_all_digits(v.current_balance as int);
    let line = csv_line(v);
    assert forall|i: int| 0 <= i < line.len() implies line[i] != '\n' by {
        let a = v.id.len() as int;
        if i < a {
            assert(line[i] == v.id[i]);
        } else if i == a {
            assert(line[i] == ',');
        } else if i < a + 1 + d1.len() {
            assert(line[i] == d1[i - a - 1]);
            assert(is_digit(d1[i - a - 1]));
        } else if i == a + 1 + d1.len() {
            assert(line[i] == ',');
        } else {
            assert(line[i] == d2[i - a - 2 - d1.len()]);
            assert(is_digit(d2[i - a - 2 - d1.len()]));
        }
    }
}

/// Encoding a record and decoding the line yields the identical record, for
/// any identifier free of commas.
pub proof fn lemma_csv_round_trip(v: AccountV)
    requires
        forall|i: int| 0 <= i < v.id.len() ==> v.id[i] != ',',
    ensures
        csv_record(csv_line(v)) == Some(v),
{
    let d1 = dec_digits(v.opening_balance as int);
    let d2 = dec_digits(v.current_balance as int);
    lemma_dec_digits_all_digits(v.opening_balance as int);
    lemma_dec_digits_all_digits(v.current_balance as int);
    assert(digit_value(',') < 0);
    assert(forall|i: int| 0 <= i < d1.len() ==> #[trigger] d1[i] != ',') by {
        assert(forall|i: int| 0 <= i < d1.len() ==> is_digit(#[trigger] d1[i]));
    }
    assert(forall|i: int| 0 <= i < d2.len() ==> #[trigger] d2[i] != ',') by {
        assert(forall|i: int| 0 <= i < d2.len() ==> is_digit(#[trigger] d2[i]));
    }
    let tail = d1 + seq![','] + d2;
    assert(csv_line(v) =~= v.id + seq![','] + tail);
    lemma_split_prefix(v.id, tail, ',');
    lemma_split_prefix(d1, d2, ',');
    lemma_split_no_sep(d2, ',');
    let fields = split_spec(csv_line(v), ',');
    assert(fields =~~= seq![v.id] + (seq![d1] + seq![d2]));
    assert(fields.len() == 3);
    assert(fields[0] == v.id);
    assert(fields[1] == d1);
    assert(fields[2] == d2);
    lemma_parse_dec(v.opening_balance as int);
    lemma_parse_dec(v.current_balance as int);
}

} // verus!
