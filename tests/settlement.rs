use accounting_rs::handlers::{handle_balance_show, handle_expense_add, handle_person_add};
use accounting_rs::matching::{creditors, debtors};
use accounting_rs::models::{Account, Expense, LedgerError, Person};
use accounting_rs::period::{expenses_in_period, starts_with};
use accounting_rs::settlement::{rounded_cents, Settlement};
use accounting_rs::shares::{total_expenses, total_income, MAX_TOTAL};

fn account(people: &[(&str, u64)], spent: &[(&str, u64, &str)]) -> Account {
    let mut a = Account::empty();
    for (name, income) in people {
        a = handle_person_add(a, &name.to_string(), income).unwrap();
    }
    for (name, amount, date) in spent {
        a = handle_expense_add(
            a,
            &"item".to_string(),
            amount,
            &date.to_string(),
            &false,
            &Person::from_str(name),
        )
        .unwrap();
    }
    a
}

fn lines_in_cents(s: &Settlement) -> Vec<(String, String, i128)> {
    s.lines
        .iter()
        .map(|l| {
            (
                l.debtor.clone(),
                l.creditor.clone(),
                rounded_cents(l.amount as i128, s.total_income),
            )
        })
        .collect()
}

fn cents(s: &Settlement, v: &[i128]) -> Vec<i128> {
    v.iter().map(|x| rounded_cents(*x, s.total_income)).collect()
}

#[test]
fn two_persons_one_expense() {
    let a = account(
        &[("Alice", 300000), ("Bob", 100000)],
        &[("Alice", 10000, "2023-01-10")],
    );
    let s = handle_balance_show(a, &"2023-01".to_string()).unwrap();
    assert_eq!(s.total_income, 400000);
    assert_eq!(s.total_expenses, 10000);
    let shares: Vec<i128> = s.fair_shares.iter().map(|x| *x as i128).collect();
    assert_eq!(cents(&s, &shares), vec![7500, 2500]);
    assert_eq!(s.paid, vec![10000, 0]);
    assert_eq!(cents(&s, &s.balances), vec![-2500, 2500]);
    assert_eq!(s.debtors, vec![1]);
    assert_eq!(s.creditors, vec![0]);
    assert_eq!(
        lines_in_cents(&s),
        vec![("Bob".to_string(), "Alice".to_string(), 2500)]
    );
}

#[test]
fn two_debtors_against_one_creditor() {
    let a = account(
        &[("Alice", 0), ("Bob", 100000), ("Carol", 100000)],
        &[("Alice", 10000, "2023-03-02")],
    );
    let s = handle_balance_show(a, &"2023-03".to_string()).unwrap();
    assert_eq!(cents(&s, &s.balances), vec![-10000, 5000, 5000]);
    assert_eq!(s.debtors, vec![1, 2]);
    assert_eq!(s.creditors, vec![0]);
    assert_eq!(
        lines_in_cents(&s),
        vec![
            ("Bob".to_string(), "Alice".to_string(), 5000),
            ("Carol".to_string(), "Alice".to_string(), 5000),
        ]
    );
}

#[test]
fn credit_is_not_used_up_between_debtors() {
    let a = account(
        &[("Alice", 0), ("Bob", 50000), ("Carol", 10000), ("Dave", 0)],
        &[("Alice", 4000, "2023-05-01"), ("Dave", 2000, "2023-05-09")],
    );
    let s = handle_balance_show(a, &"2023-05".to_string()).unwrap();
    assert_eq!(cents(&s, &s.balances), vec![-4000, 5000, 1000, -2000]);
    assert_eq!(s.debtors, vec![1, 2]);
    assert_eq!(s.creditors, vec![0, 3]);
    assert_eq!(
        lines_in_cents(&s),
        vec![
            ("Bob".to_string(), "Alice".to_string(), 4000),
            ("Bob".to_string(), "Dave".to_string(), 2000),
            ("Carol".to_string(), "Alice".to_string(), 1000),
            ("Carol".to_string(), "Dave".to_string(), 1000),
        ]
    );
}

#[test]
fn period_filter_is_a_prefix_match() {
    let a = account(&[("Alice", 1)], &[("Alice", 700, "2023-01-15")]);
    assert_eq!(expenses_in_period(&a.expenses, "2023-01").len(), 1);
    assert_eq!(expenses_in_period(&a.expenses, "2023-01-15").len(), 1);
    assert_eq!(expenses_in_period(&a.expenses, "2023-02").len(), 0);
    assert!(starts_with("2023-01-15", ""));
    assert!(!starts_with("2023-01", "2023-01-15"));
}

#[test]
fn only_expenses_of_the_period_count() {
    let a = account(
        &[("Alice", 100), ("Bob", 100)],
        &[
            ("Alice", 1000, "2023-01-15"),
            ("Bob", 3000, "2023-02-01"),
            ("Bob", 500, "2023-01-31"),
        ],
    );
    let e = expenses_in_period(&a.expenses, "2023-01");
    assert_eq!(e.len(), 2);
    assert_eq!(e[0].amount, 1000);
    assert_eq!(e[1].amount, 500);
    let s = handle_balance_show(a, &"2023-01".to_string()).unwrap();
    assert_eq!(s.total_expenses, 1500);
    assert_eq!(s.paid, vec![1000, 500]);
}

#[test]
fn settling_twice_gives_the_same_result() {
    let a = account(
        &[("Alice", 120000), ("Bob", 80000), ("Carol", 50000)],
        &[
            ("Alice", 3333, "2023-04-01"),
            ("Carol", 12000, "2023-04-20"),
            ("Bob", 100, "2023-04-21"),
        ],
    );
    let s1 = handle_balance_show(a.clone(), &"2023-04".to_string()).unwrap();
    let s2 = handle_balance_show(a, &"2023-04".to_string()).unwrap();
    assert_eq!(s1.total_income, s2.total_income);
    assert_eq!(s1.total_expenses, s2.total_expenses);
    assert_eq!(s1.fair_shares, s2.fair_shares);
    assert_eq!(s1.balances, s2.balances);
    assert_eq!(s1.debtors, s2.debtors);
    assert_eq!(s1.creditors, s2.creditors);
    assert_eq!(lines_in_cents(&s1), lines_in_cents(&s2));
}

#[test]
fn debtors_and_creditors_are_ranked() {
    let b: Vec<i128> = vec![5, -3, 9, -7, 5, 0, -3];
    assert_eq!(debtors(&b), vec![2, 0, 4]);
    assert_eq!(creditors(&b), vec![3, 1, 6]);
    assert_eq!(debtors(&vec![]), Vec::<usize>::new());
}

#[test]
fn quiet_period_has_no_lines() {
    let a = account(
        &[("Alice", 300000), ("Bob", 100000)],
        &[("Alice", 10000, "2023-01-10")],
    );
    let s = handle_balance_show(a, &"2023-06".to_string()).unwrap();
    assert_eq!(s.total_expenses, 0);
    assert_eq!(s.fair_shares, vec![0, 0]);
    assert_eq!(s.paid, vec![0, 0]);
    assert_eq!(s.balances, vec![0, 0]);
    assert!(s.debtors.is_empty());
    assert!(s.creditors.is_empty());
    assert!(s.lines.is_empty());
}

#[test]
fn person_without_expenses_owes_their_share() {
    let a = account(
        &[("Alice", 100000), ("Bob", 300000), ("Carol", 0)],
        &[("Alice", 8000, "2023-07-07")],
    );
    let s = handle_balance_show(a, &"2023-07".to_string()).unwrap();
    assert_eq!(s.paid, vec![8000, 0, 0]);
    assert_eq!(cents(&s, &s.balances), vec![-6000, 6000, 0]);
    assert_eq!(s.balances[1], s.fair_shares[1] as i128);
    assert_eq!(s.debtors, vec![1]);
    assert_eq!(s.creditors, vec![0]);
}

#[test]
fn zero_total_income_is_refused() {
    let a = account(&[("Alice", 0), ("Bob", 0)], &[("Alice", 500, "2023-01-01")]);
    let r = handle_balance_show(a, &"2023-01".to_string());
    assert_eq!(r.err(), Some(LedgerError::ZeroIncome));
    let empty = Account::empty();
    let r = handle_balance_show(empty, &"2023-01".to_string());
    assert_eq!(r.err(), Some(LedgerError::ZeroIncome));
}

#[test]
fn totals_beyond_the_limit_are_refused() {
    let a = account(&[("Alice", MAX_TOTAL), ("Bob", 1)], &[]);
    assert_eq!(total_income(&a.persons), None);
    let r = handle_balance_show(a, &"2023".to_string());
    assert_eq!(r.err(), Some(LedgerError::TooLarge));

    let b = account(
        &[("Alice", 1)],
        &[("Alice", MAX_TOTAL, "2023-01-01"), ("Alice", 1, "2023-01-02")],
    );
    assert_eq!(total_expenses(&b.expenses), None);
    let r = handle_balance_show(b, &"2023-01".to_string());
    assert_eq!(r.err(), Some(LedgerError::TooLarge));
}

#[test]
fn largest_totals_are_settled_exactly() {
    let a = account(
        &[("Alice", MAX_TOTAL - 1), ("Bob", 1)],
        &[("Bob", MAX_TOTAL, "2023-01-01")],
    );
    let s = handle_balance_show(a, &"2023-01".to_string()).unwrap();
    assert_eq!(s.total_income, MAX_TOTAL);
    assert_eq!(s.debtors, vec![0]);
    assert_eq!(s.creditors, vec![1]);
    assert_eq!(s.balances.iter().sum::<i128>(), 0);
}

#[test]
fn shares_add_up_and_balances_net_to_zero() {
    let a = account(
        &[("Alice", 123457), ("Bob", 98765), ("Carol", 5)],
        &[
            ("Alice", 1001, "2023-09-01"),
            ("Carol", 777, "2023-09-03"),
            ("Bob", 31, "2023-09-30"),
        ],
    );
    let s = handle_balance_show(a, &"2023-09".to_string()).unwrap();
    let shares: u128 = s.fair_shares.iter().sum();
    assert_eq!(shares, s.total_expenses as u128 * s.total_income as u128);
    assert_eq!(s.balances.iter().sum::<i128>(), 0);
    assert_eq!(s.total_expenses, 1809);
}

#[test]
fn amounts_round_to_the_nearest_cent() {
    assert_eq!(rounded_cents(100000, 4000), 25);
    assert_eq!(rounded_cents(10, 4), 3);
    assert_eq!(rounded_cents(-10, 4), -3);
    assert_eq!(rounded_cents(9, 4), 2);
    assert_eq!(rounded_cents(-9, 4), -2);
    assert_eq!(rounded_cents(0, 7), 0);
}

#[test]
fn expense_struct_keeps_its_fields() {
    let e = Expense {
        amount: 5,
        description: "x".to_string(),
        date: "2023-01-01".to_string(),
        person: Person::from_str("A"),
        monthly: false,
    };
    let c = e.clone();
    assert_eq!(c.amount, 5);
    assert_eq!(c.date, "2023-01-01");
    assert_eq!(c.person.name, "A");
}
