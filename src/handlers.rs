//! What each command does to an account, or computes from it. Storing the
//! account and showing results are left to the caller.
use vstd::prelude::*;
use crate::models::{has_person, names_distinct, payers_known, Account, Expense, LedgerError, Person};
use crate::period::{expenses_in, expenses_in_period};
use crate::settlement::{settle, settles, Settlement};

verus! {

/// Whether a person called `name` is among `persons`.
fn find_person(persons: &Vec<Person>, name: &String) -> (r: bool)
    ensures
        r == has_person(persons@, name@),
{
    let mut i: usize = 0;
    while i < persons.len()
        invariant
            i <= persons@.len(),
            forall|j: int| 0 <= j < i ==> #[trigger] persons@[j].name@ != name@,
        decreases persons@.len() - i,
    {
        if persons[i].name == *name {
            return true;
        }
        i = i + 1;
    }
    false
}

/// Names the account.
pub fn handle_account_add(account: Account, name: &String) -> (r: Account)
    ensures
        r.name@ == name@,
        r.persons == account.persons,
        r.expenses == account.expenses,
{
    let mut account = account;
    account.name = name.clone();
    account
}

/// Adds a person with the given income (in cents), after the others.
pub fn handle_person_add(account: Account, name: &String, income: &u64) -> (r: Result<
    Account,
    LedgerError,
>)
    ensures
        match r {
            Ok(a) => !has_person(account.persons@, name@) && a.name == account.name
                && a.persons@ == account.persons@.push(Person { name: *name, income: *income })
                && a.expenses == account.expenses && (account.wf() ==> a.wf()),
            Err(e) => e == LedgerError::DuplicatePerson && has_person(account.persons@, name@),
        },
{
    if find_person(&account.persons, name) {
        return Err(LedgerError::DuplicatePerson);
    }
    let mut account = account;
    let ghost old_persons = account.persons@;
    account.persons.push(Person { name: name.clone(), income: *income });
    proof {
        let ps = account.persons@;
        assert forall|i: int, j: int| 0 <= i < j < ps.len() && names_distinct(old_persons) implies
            #[trigger] ps[i].name@ != #[trigger] ps[j].name@ by {
            assert(ps[i] == old_persons[i]);
            if j < old_persons.len() {
                assert(ps[j] == old_persons[j]);
            }
        }
        assert forall|n: Seq<char>| has_person(old_persons, n) implies has_person(ps, n) by {
            let i = choose|i: int| 0 <= i < old_persons.len() && #[trigger] old_persons[i].name@ == n;
            assert(ps[i] == old_persons[i]);
        }
    }
    Ok(account)
}

/// Adds an expense paid by `person`, whose income is taken from the account.
pub fn handle_expense_add(
    account: Account,
    description: &String,
    amount: &u64,
    date: &String,
    monthly: &bool,
    person: &Person,
) -> (r: Result<Account, LedgerError>)
    ensures
        match r {
            Ok(a) => {
                let e = a.expenses@.last();
                &&& a.name == account.name
                &&& a.persons == account.persons
                &&& a.expenses@.drop_last() == account.expenses@
                &&& a.expenses@.len() == account.expenses@.len() + 1
                &&& e.amount == *amount && e.description == *description && e.date == *date
                &&& e.monthly == *monthly && e.person.name == person.name
                &&& exists|i: int|
                    0 <= i < account.persons@.len() && account.persons@[i].name@ == person.name@
                        && (forall|j: int|
                        0 <= j < i ==> #[trigger] account.persons@[j].name@ != person.name@)
                        && e.person.income == account.persons@[i].income
                &&& account.wf() ==> a.wf()
            },
            Err(err) => err == LedgerError::UnknownPerson && !has_person(
                account.persons@,
                person.name@,
            ),
        },
{
    let mut p = person.clone();
    match p.load_income_from_account(&account) {
        Ok(()) => {},
        Err(err) => return Err(err),
    }
    let expense = Expense {
        amount: *amount,
        description: description.clone(),
        date: date.clone(),
        person: p,
        monthly: *monthly,
    };
    let mut account = account;
    let ghost old_expenses = account.expenses@;
    account.expenses.push(expense);
    proof {
        let es = account.expenses@;
        assert(es.drop_last() =~= old_expenses);
        let i = choose|i: int|
            0 <= i < account.persons@.len() && account.persons@[i].name@ == person.name@;
        assert(has_person(account.persons@, es[es.len() - 1].person.name@));
        assert forall|k: int| 0 <= k < es.len() && payers_known(account.persons@, old_expenses) implies has_person(
            account.persons@,
            #[trigger] es[k].person.name@,
        ) by {
            if k < old_expenses.len() {
                assert(es[k] == old_expenses[k]);
            }
        }
    }
    Ok(account)
}

/// Settles the account over the expenses dated within `date` (a month or a day).
pub fn handle_balance_show(account: Account, date: &String) -> (r: Result<Settlement, LedgerError>)
    ensures
        settles(account.persons@, expenses_in(account.expenses@, date@), r),
{
    let expenses = expenses_in_period(&account.expenses, date.as_str());
    settle(&account.persons, &expenses)
}

} // verus!
