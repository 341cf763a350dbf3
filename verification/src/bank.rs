//! The ledger: owns the account records, keyed by identifier and unique by
//! construction, with the operations open, deposit, withdraw, close and list,
//! and the text form that is written after every mutation and parsed back on
//! start-up.

use vstd::prelude::*;
use crate::account::{
    Account,
    AccountV,
    clean_id,
    csv_line,
    csv_record,
    lemma_csv_line_no_newline,
    lemma_csv_round_trip,
};
use crate::text::{lemma_split_prefix, split_on, split_spec, views_of};

verus! {

/// Why a ledger operation was rejected. Every rejection leaves the ledger
/// unchanged.
#[derive(Clone, Copy, Debug, PartialEq, Eq, Structural)]
pub enum BankError {
    /// An account with the requested identifier already exists.
    DuplicateId,
    /// No account has the requested identifier.
    NotFound,
    /// The withdrawal asks for more than the current balance holds.
    InsufficientFunds,
    /// The deposit would push the balance past the integer range.
    Overflow,
}

/// The ledger of accounts. Identifiers are unique by construction: insertion
/// only happens after a uniqueness check.
pub struct Bank {
    pub accounts: Vec<Account>,
}

impl View for Bank {
    type V = Seq<AccountV>;

    open spec fn view(&self) -> Seq<AccountV> {
        Seq::new(self.accounts@.len(), |i: int| self.accounts@[i]@)
    }
}

/// A decoded record entering the index: a record with the same identifier is
/// overwritten in place, a new identifier is appended.
pub open spec fn insert_record(s: Seq<AccountV>, v: AccountV) -> Seq<AccountV> {
    if exists|i: int| 0 <= i < s.len() && s[i].id == v.id {
        s.update(choose|i: int| 0 <= i < s.len() && s[i].id == v.id, v)
    } else {
        s.push(v)
    }
}

/// Loading a sequence of lines into an index: each line that decodes to a
/// record is inserted (so a later duplicate identifier wins), every other
/// line is skipped silently.
pub open spec fn load_records(lines: Seq<Seq<char>>, acc: Seq<AccountV>) -> Seq<AccountV>
    decreases lines.len(),
{
    if lines.len() == 0 {
        acc
    } else {
        let step = match csv_record(lines[0]) {
            Some(v) => insert_record(acc, v),
            None => acc,
        };
        load_records(lines.drop_first(), step)
    }
}

/// The index that a backing file's whole text loads to.
pub open spec fn loaded(content: Seq<char>) -> Seq<AccountV> {
    load_records(split_spec(content, '\n'), Seq::empty())
}

/// The text that persists an index: every record's line, newline-terminated,
/// in index order.
pub open spec fn file_content(s: Seq<AccountV>) -> Seq<char>
    decreases s.len(),
{
    if s.len() == 0 {
        Seq::empty()
    } else {
        file_content(s.drop_last()) + csv_line(s.last()) + seq!['\n']
    }
}

/// Under well-formedness the matching index is unique, so it is the chosen
/// one.
pub proof fn lemma_idx_unique(b: Bank, id: Seq<char>, i: int)
    requires
        b.wf(),
        0 <= i < b@.len(),
        b@[i].id == id,
    ensures
        b.has(id),
        b.idx_of(id) == i,
{
    assert(b.has(id));
    let j = b.idx_of(id);
    assert(0 <= j < b@.len() && b@[j].id == id);
    if i < j {
        assert(b@[i].id != b@[j].id);
    } else if j < i {
        assert(b@[j].id != b@[i].id);
    }
}

impl Bank {
    /// Well-formed: account identifiers are pairwise distinct.
    pub open spec fn wf(self) -> bool {
        forall|i: int, j: int| 0 <= i < j < self@.len() ==> self@[i].id != self@[j].id
    }

    /// Whether some account carries this identifier.
    pub open spec fn has(self, id: Seq<char>) -> bool {
        exists|i: int| 0 <= i < self@.len() && self@[i].id == id
    }

    /// The position of the account with this identifier; meaningful only
    /// when `has(id)` holds, and then unique under `wf`.
    pub open spec fn idx_of(self, id: Seq<char>) -> int {
        choose|i: int| 0 <= i < self@.len() && self@[i].id == id
    }

    fn find_index(&self, id: &String) -> (r: Option<usize>)
        ensures
            match r {
                Some(i) => i < self@.len() && self@[i as int].id == id@,
                None => !self.has(id@),
            },
    {
        let n = self.accounts.len();
        let mut k: usize = 0;
        while k < n
            invariant
                k <= n,
                n == self.accounts@.len(),
                forall|j: int| 0 <= j < k ==> self@[j].id != id@,
            decreases n - k,
        {
            if self.accounts[k].id == *id {
                return Some(k);
            }
            k = k + 1;
        }
        None
    }

    /// The empty ledger when no backing file exists, else the ledger its
    /// text loads to: well-formed records inserted in line order with a
    /// later duplicate identifier winning, malformed lines skipped.
    pub fn init(content: Option<&str>) -> (b: Bank)
        ensures
            b.wf(),
            b@ == match content {
                Some(c) => loaded(c@),
                None => Seq::<AccountV>::empty(),
            },
    {
        let text = match content {
            Some(c) => c,
            None => {
                let b = Bank { accounts: Vec::new() };
                proof {
                    assert(b@ =~= Seq::<AccountV>::empty());
                }
                return b;
            },
        };
        let lines = split_on(text, '\n');
        let ghost all = views_of(lines@);
        let mut b = Bank { accounts: Vec::new() };
        proof {
            assert(b@ =~= Seq::<AccountV>::empty());
            assert(all.skip(0) =~~= all);
        }
        let n = lines.len();
        let mut k: usize = 0;
        while k < n
            invariant
                k <= n,
                n == lines@.len(),
                all == split_spec(text@, '\n'),
                all.len() == lines@.len(),
                forall|j: int| 0 <= j < lines@.len() ==> all[j] == #[trigger] lines@[j]@,
                b.wf(),
                loaded(text@) == load_records(all.skip(k as int), b@),
            decreases n - k,
        {
            let ghost before = b@;
            match Account::from_csv(lines[k].as_str()) {
                Some(a) => {
                    match b.find_index(&a.id) {
                        Some(i) => {
                            proof {
                                lemma_idx_unique(b, a.id@, i as int);
                            }
                            b.accounts.set(i, a);
                            proof {
                                assert(b@ =~= before.update(
                                    choose|p: int|
                                        0 <= p < before.len() && before[p].id == a@.id,
                                    a@,
                                ));
                                assert(b@ == insert_record(before, a@));
                                assert(forall|p: int|
                                    0 <= p < b@.len() ==> b@[p].id == #[trigger] before[p].id);
                            }
                        },
                        None => {
                            b.accounts.push(a);
                            proof {
                                assert(b@ =~= before.push(a@));
                                assert(b@ == insert_record(before, a@));
                                assert(forall|p: int|
                                    0 <= p < before.len() ==> before[p].id != a@.id);
                            }
                        },
                    }
                },
                None => {},
            }
            proof {
                assert(all.skip(k as int).drop_first() =~~= all.skip(k as int + 1));
                assert(all.skip(k as int)[0] == all[k as int]);
            }
            k = k + 1;
        }
        proof {
            assert(all.skip(n as int) =~~= Seq::<Seq<char>>::empty());
        }
        b
    }

    /// Renders the whole index as the backing file's text. A pure function
    /// of the ledger state: persisting twice without an intervening mutation
    /// writes byte-identical contents.
    pub fn to_file_content(&self) -> (r: String)
        ensures
            r@ == file_content(self@),
    {
        let mut data = String::new();
        let n = self.accounts.len();
        let mut k: usize = 0;
        while k < n
            invariant
                k <= n,
                n == self.accounts@.len(),
                data@ == file_content(self@.take(k as int)),
            decreases n - k,
        {
            let line = self.accounts[k].to_csv();
            data.append(line.as_str());
            data.append("\n");
            proof {
                reveal_strlit("\n");
                assert(("\n")@ =~= seq!['\n']);
                assert(self@.take(k as int + 1).drop_last() =~= self@.take(k as int));
                assert(self@.take(k as int + 1).last() == self@[k as int]);
            }
            k = k + 1;
        }
        proof {
            assert(self@.take(n as int) =~= self@);
        }
        data
    }

    /// The `(id, current_balance)` pairs of every account, in index order;
    /// read-only. Display numbering is the caller's concern.
    pub fn list_accounts(&self) -> (r: Vec<(String, u32)>)
        ensures
            r@.len() == self@.len(),
            forall|i: int|
                0 <= i < r@.len() ==> #[trigger] r@[i].0@ == self@[i].id && r@[i].1
                    == self@[i].current_balance,
    {
        let mut out: Vec<(String, u32)> = Vec::new();
        let n = self.accounts.len();
        let mut k: usize = 0;
        while k < n
            invariant
                k <= n,
                n == self.accounts@.len(),
                out@.len() == k,
                forall|i: int|
                    0 <= i < k ==> #[trigger] out@[i].0@ == self@[i].id && out@[i].1
                        == self@[i].current_balance,
            decreases n - k,
        {
            let entry = (self.accounts[k].id.clone(), self.accounts[k].current_balance);
            out.push(entry);
            k = k + 1;
        }
        out
    }

    /// Opens an account: rejected when the identifier is already taken, and
    /// then nothing changes; otherwise the new record is appended with its
    /// current balance at the opening balance.
    pub fn open_account(&mut self, id: String, opening_balance: u32) -> (r: Result<(), BankError>)
        requires
            old(self).wf(),
        ensures
            final(self).wf(),
            old(self).has(id@) ==> r == Err::<(), BankError>(BankError::DuplicateId)
                && final(self)@ == old(self)@,
            !old(self).has(id@) ==> r == Ok::<(), BankError>(()) && final(self)@ == old(self)@.push(
                (AccountV { id: id@, opening_balance, current_balance: opening_balance }),
            ),
    {
        match self.find_index(&id) {
            Some(i) => {
                proof {
                    lemma_idx_unique(*self, id@, i as int);
                }
                Err(BankError::DuplicateId)
            },
            None => {
                let ghost before = self@;
                let a = Account::new(id, opening_balance);
                self.accounts.push(a);
                proof {
                    assert(self@ =~= before.push(a@));
                    assert(forall|p: int| 0 <= p < before.len() ==> before[p].id != a@.id);
                }
                Ok(())
            },
        }
    }

    /// Deposits into an account: rejected when the identifier is unknown or
    /// the sum would leave the integer range, and then nothing changes;
    /// otherwise exactly that account's current balance grows by `amount`.
    pub fn deposit(&mut self, id: &String, amount: u32) -> (r: Result<(), BankError>)
        requires
            old(self).wf(),
        ensures
            final(self).wf(),
            !old(self).has(id@) ==> r == Err::<(), BankError>(BankError::NotFound) && final(self)@
                == old(self)@,
            old(self).has(id@) ==> ({
                let i = old(self).idx_of(id@);
                let a = old(self)@[i];
                if a.current_balance + amount > u32::MAX {
                    r == Err::<(), BankError>(BankError::Overflow) && final(self)@ == old(self)@
                } else {
                    r == Ok::<(), BankError>(()) && final(self)@ == old(self)@.update(
                        i,
                        (AccountV {
                            id: a.id,
                            opening_balance: a.opening_balance,
                            current_balance: (a.current_balance + amount) as u32,
                        }),
                    )
                }
            }),
    {
        let i = match self.find_index(id) {
            Some(i) => i,
            None => {
                return Err(BankError::NotFound);
            },
        };
        proof {
            lemma_idx_unique(*self, id@, i as int);
        }
        let ghost before = self@;
        let bal = self.accounts[i].current_balance;
        if amount > u32::MAX - bal {
            return Err(BankError::Overflow);
        }
        let a = &self.accounts[i];
        let updated = Account {
            id: a.id.clone(),
            opening_balance: a.opening_balance,
            current_balance: bal + amount,
        };
        self.accounts.set(i, updated);
        proof {
            assert(self@ =~= before.update(i as int, updated@));
            assert(forall|p: int| 0 <= p < self@.len() ==> self@[p].id == #[trigger] before[p].id);
        }
        Ok(())
    }

    /// Withdraws from an account: rejected when the identifier is unknown or
    /// the amount exceeds the current balance (no overdraft), and then
    /// nothing changes; otherwise exactly that account's current balance
    /// shrinks by `amount`, so it never goes below zero.
    pub fn withdraw(&mut self, id: &String, amount: u32) -> (r: Result<(), BankError>)
        requires
            old(self).wf(),
        ensures
            final(self).wf(),
            !old(self).has(id@) ==> r == Err::<(), BankError>(BankError::NotFound) && final(self)@
                == old(self)@,
            old(self).has(id@) ==> ({
                let i = old(self).idx_of(id@);
                let a = old(self)@[i];
                if amount > a.current_balance {
                    r == Err::<(), BankError>(BankError::InsufficientFunds)
                        && final(self)@ == old(self)@
                } else {
                    r == Ok::<(), BankError>(()) && final(self)@ == old(self)@.update(
                        i,
                        (AccountV {
                            id: a.id,
                            opening_balance: a.opening_balance,
                            current_balance: (a.current_balance - amount) as u32,
                        }),
                    )
                }
            }),
    {
        let i = match self.find_index(id) {
            Some(i) => i,
            None => {
                return Err(BankError::NotFound);
            },
        };
        proof {
            lemma_idx_unique(*self, id@, i as int);
        }
        let ghost before = self@;
        let bal = self.accounts[i].current_balance;
        if amount > bal {
            return Err(BankError::InsufficientFunds);
        }
        let a = &self.accounts[i];
        let updated = Account {
            id: a.id.clone(),
            opening_balance: a.opening_balance,
            current_balance: bal - amount,
        };
        self.accounts.set(i, updated);
        proof {
            assert(self@ =~= before.update(i as int, updated@));
            assert(forall|p: int| 0 <= p < self@.len() ==> self@[p].id == #[trigger] before[p].id);
        }
        Ok(())
    }

    /// Closes an account: rejected when the identifier is unknown, and then
    /// nothing changes; otherwise exactly that record leaves the index. A
    /// non-zero remaining balance is deliberately no obstacle.
    pub fn close_account(&mut self, id: &String) -> (r: Result<(), BankError>)
        requires
            old(self).wf(),
        ensures
            final(self).wf(),
            !old(self).has(id@) ==> r == Err::<(), BankError>(BankError::NotFound) && final(self)@
                == old(self)@,
            old(self).has(id@) ==> r == Ok::<(), BankError>(()) && final(self)@ == old(
                self)@.remove(old(self).idx_of(id@)),
    {
        let i = match self.find_index(id) {
            Some(i) => i,
            None => {
                return Err(BankError::NotFound);
            },
        };
        proof {
            lemma_idx_unique(*self, id@, i as int);
        }
        let ghost before = self@;
        self.accounts.remove(i);
        proof {
            assert(self@ =~= before.remove(i as int));
            assert(forall|p: int|
                0 <= p < i ==> #[trigger] before.remove(i as int)[p] == before[p]);
            assert(forall|p: int|
                i <= p < before.len() - 1 ==> #[trigger] before.remove(i as int)[p] == before[p
                    + 1]);
        }
        Ok(())
    }
}

proof fn lemma_file_content_cons(s: Seq<AccountV>)
    requires
        s.len() > 0,
    ensures
        file_content(s) == csv_line(s[0]) + seq!['\n'] + file_content(s.drop_first()),
    decreases s.len(),
{
    if s.len() == 1 {
        assert(s.drop_last() =~= Seq::<AccountV>::empty());
        assert(s.drop_first() =~= Seq::<AccountV>::empty());
        assert(file_content(s) =~= csv_line(s[0]) + seq!['\n'] + file_content(s.drop_first()));
    } else {
        lemma_file_content_cons(s.drop_last());
        assert(s.drop_last()[0] == s[0]);
        assert(s.drop_last().drop_first() =~= s.drop_first().drop_last());
        assert(s.drop_first().last() == s.last());
        assert(s.drop_first().len() > 0);
        assert(file_content(s) =~= csv_line(s[0]) + seq!['\n'] + file_content(s.drop_first()));
    }
}

proof fn lemma_load_all(s: Seq<AccountV>, acc: Seq<AccountV>)
    requires
        forall|i: int, j: int| 0 <= i < j < s.len() ==> s[i].id != s[j].id,
        forall|k: int| 0 <= k < s.len() ==> clean_id(#[trigger] s[k].id),
        forall|i: int, j: int|
            0 <= i < acc.len() && 0 <= j < s.len() ==> acc[i].id != s[j].id,
    ensures
        load_records(split_spec(file_content(s), '\n'), acc) == acc + s,
    decreases s.len(),
{
    if s.len() == 0 {
        let lines = split_spec(file_content(s), '\n');
        assert(file_content(s) == Seq::<char>::empty());
        assert(lines =~~= seq![Seq::<char>::empty()]);
        assert(csv_record(Seq::<char>::empty()) is None) by {
            assert(split_spec(Seq::<char>::empty(), ',') =~~= seq![Seq::<char>::empty()]);
        }
        assert(lines.drop_first() =~~= Seq::<Seq<char>>::empty());
        reveal_with_fuel(load_records, 2);
        assert(acc + s =~= acc);
    } else {
        let v = s[0];
        let line = csv_line(v);
        let rest = file_content(s.drop_first());
        lemma_file_content_cons(s);
        lemma_csv_line_no_newline(v);
        lemma_split_prefix(line, rest, '\n');
        let lines = split_spec(file_content(s), '\n');
        assert(lines == seq![line] + split_spec(rest, '\n'));
        assert(lines.len() > 0);
        assert(lines[0] == line);
        assert(lines.drop_first() =~~= split_spec(rest, '\n'));
        lemma_csv_round_trip(v);
        assert(csv_record(line) == Some(v));
        assert(forall|i: int| 0 <= i < acc.len() ==> acc[i].id != v.id);
        assert(insert_record(acc, v) == acc.push(v));
        assert(forall|i: int, j: int|
            0 <= i < acc.push(v).len() && 0 <= j < s.drop_first().len() ==> acc.push(v)[i].id
                != s.drop_first()[j].id);
        lemma_load_all(s.drop_first(), acc.push(v));
        assert(acc.push(v) + s.drop_first() =~= acc + s);
    }
}

/// A well-formed ledger whose identifiers are free of commas and newlines is
/// restored exactly by loading the text that persisting it writes.
pub proof fn lemma_persist_load_round_trip(b: Bank)
    requires
        b.wf(),
        forall|k: int| 0 <= k < b@.len() ==> clean_id(#[trigger] b@[k].id),
    ensures
        loaded(file_content(b@)) == b@,
{
    lemma_load_all(b@, Seq::<AccountV>::empty());
    assert(Seq::<AccountV>::empty() + b@ =~= b@);
}

/// Persisting twice in a row without an intervening mutation produces
/// identical file contents: the rendering is a pure function of the state.
pub proof fn lemma_persist_idempotent(b: Bank, first: Seq<char>, second: Seq<char>)
    requires
        first == file_content(b@),
        second == file_content(b@),
    ensures
        first == second,
{
}

} // verus!
