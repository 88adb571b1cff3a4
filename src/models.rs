//! The data an account is made of.
use vstd::prelude::*;

verus! {

/// A participant, with the income (in cents) that weighs their fair share.
pub struct Person {
    pub name: String,
    pub income: u64,
}

impl Clone for Person {
    fn clone(&self) -> (r: Self)
        ensures
            r == *self,
    {
        Person { name: self.name.clone(), income: self.income }
    }
}

/// One dated expense, paid by `person`.
pub struct Expense {
    pub amount: u64,
    pub description: String,
    pub date: String,
    pub person: Person,
    pub monthly: bool,
}

impl Clone for Expense {
    fn clone(&self) -> (r: Self)
        ensures
            r == *self,
    {
        Expense {
            amount: self.amount,
            description: self.description.clone(),
            date: self.date.clone(),
            person: self.person.clone(),
            monthly: self.monthly,
        }
    }
}

/// The root aggregate: its persons and expenses, both in insertion order.
#[derive(Clone)]
pub struct Account {
    pub name: String,
    pub persons: Vec<Person>,
    pub expenses: Vec<Expense>,
}

/// Why an operation on an account was refused.
#[derive(Debug, Clone, Copy, PartialEq, Eq, Structural)]
pub enum LedgerError {
    /// An expense names a payer that the account does not hold.
    UnknownPerson,
    /// A person of that name is already in the account.
    DuplicatePerson,
    /// Fair shares are undefined: the incomes sum to zero.
    ZeroIncome,
    /// A total is beyond what the engine computes exactly.
    TooLarge,
}

/// `name` is the name of some person of `ps`.
pub open spec fn has_person(ps: Seq<Person>, name: Seq<char>) -> bool {
    exists|i: int| 0 <= i < ps.len() && #[trigger] ps[i].name@ == name
}

/// No two persons of `ps` share a name.
pub open spec fn names_distinct(ps: Seq<Person>) -> bool {
    forall|i: int, j: int|
        0 <= i < j < ps.len() ==> #[trigger] ps[i].name@ != #[trigger] ps[j].name@
}

/// Every expense of `es` is paid by a person of `ps`.
pub open spec fn payers_known(ps: Seq<Person>, es: Seq<Expense>) -> bool {
    forall|k: int| 0 <= k < es.len() ==> has_person(ps, #[trigger] es[k].person.name@)
}

impl Account {
    /// Names are unique, and every expense names a person of the account.
    pub open spec fn wf(&self) -> bool {
        names_distinct(self.persons@) && payers_known(self.persons@, self.expenses@)
    }

    /// The empty account: no name, no persons, no expenses.
    pub fn empty() -> (r: Account)
        ensures
            r.name@.len() == 0,
            r.persons@.len() == 0,
            r.expenses@.len() == 0,
            r.wf(),
    {
        Account { name: String::new(), persons: Vec::new(), expenses: Vec::new() }
    }
}

impl Person {
    /// A person known by name only; the income is resolved later from an account.
    pub fn from_str(s: &str) -> (r: Person)
        ensures
            r.name@ == s@,
            r.income == 0,
    {
        Person { name: String::from_str(s), income: 0 }
    }

    /// Takes the income of the first person of `account` with this name.
    pub fn load_income_from_account(&mut self, account: &Account) -> (r: Result<(), LedgerError>)
        ensures
            final(self).name == old(self).name,
            match r {
                Ok(()) => exists|i: int|
                    0 <= i < account.persons@.len() && account.persons@[i].name@ == old(self).name@
                        && (forall|j: int|
                        0 <= j < i ==> #[trigger] account.persons@[j].name@ != old(self).name@)
                        && final(self).income == account.persons@[i].income,
                Err(e) => e == LedgerError::UnknownPerson && !has_person(
                    account.persons@,
                    old(self).name@,
                ) && *final(self) == *old(self),
            },
    {
        let mut i: usize = 0;
        while i < account.persons.len()
            invariant
                i <= account.persons@.len(),
                *self == *old(self),
                forall|j: int| 0 <= j < i ==> #[trigger] account.persons@[j].name@ != self.name@,
            decreases account.persons@.len() - i,
        {
            if account.persons[i].name == self.name {
                self.income = account.persons[i].income;
                return Ok(());
            }
            i = i + 1;
        }
        Err(LedgerError::UnknownPerson)
    }
}

} // verus!
