use accounting_rs::handlers::{handle_account_add, handle_expense_add, handle_person_add};
use accounting_rs::models::{Account, LedgerError, Person};

fn with_people() -> Account {
    let a = Account::empty();
    let a = handle_person_add(a, &"Alice".to_string(), &300000).unwrap();
    handle_person_add(a, &"Bob".to_string(), &100000).unwrap()
}

#[test]
fn account_is_named() {
    let a = handle_account_add(with_people(), &"home".to_string());
    assert_eq!(a.name, "home");
    assert_eq!(a.persons.len(), 2);
}

#[test]
fn persons_are_appended_in_order() {
    let a = with_people();
    assert_eq!(a.persons[0].name, "Alice");
    assert_eq!(a.persons[0].income, 300000);
    assert_eq!(a.persons[1].name, "Bob");
    assert_eq!(a.persons[1].income, 100000);
}

#[test]
fn duplicate_person_is_refused() {
    let r = handle_person_add(with_people(), &"Bob".to_string(), &5);
    assert_eq!(r.err(), Some(LedgerError::DuplicatePerson));
}

#[test]
fn expense_takes_the_payer_income_from_the_account() {
    let payer = Person::from_str("Bob");
    assert_eq!(payer.income, 0);
    let a = handle_expense_add(
        with_people(),
        &"groceries".to_string(),
        &10000,
        &"2023-01-15".to_string(),
        &true,
        &payer,
    )
    .unwrap();
    assert_eq!(a.expenses.len(), 1);
    let e = &a.expenses[0];
    assert_eq!(e.person.name, "Bob");
    assert_eq!(e.person.income, 100000);
    assert_eq!(e.amount, 10000);
    assert_eq!(e.date, "2023-01-15");
    assert!(e.monthly);
}

#[test]
fn expense_by_unknown_person_is_refused() {
    let r = handle_expense_add(
        with_people(),
        &"rent".to_string(),
        &1,
        &"2023-01-01".to_string(),
        &false,
        &Person::from_str("Zoe"),
    );
    assert_eq!(r.err(), Some(LedgerError::UnknownPerson));
}

#[test]
fn load_income_reads_the_account() {
    let a = with_people();
    let mut p = Person::from_str("Alice");
    assert_eq!(p.load_income_from_account(&a), Ok(()));
    assert_eq!(p.income, 300000);
    let mut q = Person::from_str("Nobody");
    assert_eq!(q.load_income_from_account(&a), Err(LedgerError::UnknownPerson));
    assert_eq!(q.income, 0);
}
