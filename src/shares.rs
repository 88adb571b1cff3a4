//! Totals, fair shares and balances.
//!
//! A person's fair share of the period's spend is `income / total_income *
//! total_expenses`. To keep it exact, the engine holds every share and balance
//! multiplied by `total_income`: the scaled share is `income * total_expenses`,
//! and the scaled balance is that minus `paid * total_income`.
use vstd::prelude::*;
use crate::models::{Expense, Person};

verus! {

/// The largest total (of incomes, or of expenses) that the engine accepts.
/// Below it every scaled share and balance fits in an `i128`.
pub const MAX_TOTAL: u64 = 9223372036854775807;

/// The sum of the incomes of `ps`.
pub open spec fn income_total(ps: Seq<Person>) -> int
    decreases ps.len(),
{
    if ps.len() == 0 {
        0
    } else {
        income_total(ps.drop_last()) + ps.last().income
    }
}

/// The sum of the amounts of `es`.
pub open spec fn amount_total(es: Seq<Expense>) -> int
    decreases es.len(),
{
    if es.len() == 0 {
        0
    } else {
        amount_total(es.drop_last()) + es.last().amount
    }
}

/// What the person called `name` paid among `es`.
pub open spec fn paid_by(es: Seq<Expense>, name: Seq<char>) -> int
    decreases es.len(),
{
    if es.len() == 0 {
        0
    } else {
        paid_by(es.drop_last(), name) + if es.last().person.name@ == name {
            es.last().amount as int
        } else {
            0
        }
    }
}

/// The fair share of `p` in a spend of `total_expenses`, times the total income.
pub open spec fn scaled_share(p: Person, total_expenses: int) -> int {
    p.income * total_expenses
}

/// Fair share minus what `p` paid among `es`, times the total income.
/// Positive: `p` owes; negative: `p` is owed.
pub open spec fn scaled_balance(
    p: Person,
    es: Seq<Expense>,
    total_income: int,
    total_expenses: int,
) -> int {
    scaled_share(p, total_expenses) - paid_by(es, p.name@) * total_income
}

proof fn lemma_income_prefix(ps: Seq<Person>, i: int)
    requires
        0 <= i <= ps.len(),
    ensures
        0 <= income_total(ps.take(i)) <= income_total(ps),
    decreases ps.len(),
{
    if i < ps.len() {
        assert(ps.drop_last().take(i) =~= ps.take(i));
        lemma_income_prefix(ps.drop_last(), i);
    } else {
        assert(ps.take(i) =~= ps);
        if ps.len() > 0 {
            lemma_income_prefix(ps.drop_last(), i - 1);
            assert(ps.drop_last().take(i - 1) =~= ps.drop_last());
        }
    }
}

/// A single income never exceeds the total.
pub proof fn lemma_income_le_total(ps: Seq<Person>, i: int)
    requires
        0 <= i < ps.len(),
    ensures
        ps[i].income <= income_total(ps),
    decreases ps.len(),
{
    lemma_income_prefix(ps, ps.len() - 1);
    assert(ps.take(ps.len() - 1) =~= ps.drop_last());
    if i < ps.len() - 1 {
        lemma_income_le_total(ps.drop_last(), i);
    }
}

proof fn lemma_amount_prefix(es: Seq<Expense>, i: int)
    requires
        0 <= i <= es.len(),
    ensures
        0 <= amount_total(es.take(i)) <= amount_total(es),
    decreases es.len(),
{
    if i < es.len() {
        assert(es.drop_last().take(i) =~= es.take(i));
        lemma_amount_prefix(es.drop_last(), i);
    } else {
        assert(es.take(i) =~= es);
        if es.len() > 0 {
            lemma_amount_prefix(es.drop_last(), i - 1);
            assert(es.drop_last().take(i - 1) =~= es.drop_last());
        }
    }
}

/// What one person paid never exceeds the total spend.
pub proof fn lemma_paid_le_total(es: Seq<Expense>, name: Seq<char>)
    ensures
        0 <= paid_by(es, name) <= amount_total(es),
    decreases es.len(),
{
    if es.len() > 0 {
        lemma_paid_le_total(es.drop_last(), name);
    }
}

proof fn lemma_product_bound(a: int, b: int)
    requires
        0 <= a <= MAX_TOTAL,
        0 <= b <= MAX_TOTAL,
    ensures
        0 <= a * b <= MAX_TOTAL * MAX_TOTAL,
{
    assert(0 <= a * b <= MAX_TOTAL * MAX_TOTAL) by (nonlinear_arith)
        requires
            0 <= a <= MAX_TOTAL,
            0 <= b <= MAX_TOTAL,
    ;
}

/// The total income of `persons`, or `None` where it exceeds `MAX_TOTAL`.
pub fn total_income(persons: &Vec<Person>) -> (r: Option<u64>)
    ensures
        match r {
            Some(t) => t == income_total(persons@) && t <= MAX_TOTAL,
            None => income_total(persons@) > MAX_TOTAL,
        },
{
    let mut acc: u64 = 0;
    let mut i: usize = 0;
    while i < persons.len()
        invariant
            i <= persons@.len(),
            acc == income_total(persons@.take(i as int)),
            acc <= MAX_TOTAL,
        decreases persons@.len() - i,
    {
        assert(persons@.take(i as int + 1).drop_last() =~= persons@.take(i as int));
        let next: u128 = acc as u128 + persons[i].income as u128;
        if next > MAX_TOTAL as u128 {
            proof {
                lemma_income_prefix(persons@, i as int + 1);
            }
            return None;
        }
        acc = next as u64;
        i = i + 1;
    }
    assert(persons@.take(i as int) =~= persons@);
    Some(acc)
}

/// The total spend of `expenses`, or `None` where it exceeds `MAX_TOTAL`.
pub fn total_expenses(expenses: &Vec<Expense>) -> (r: Option<u64>)
    ensures
        match r {
            Some(t) => t == amount_total(expenses@) && t <= MAX_TOTAL,
            None => amount_total(expenses@) > MAX_TOTAL,
        },
{
    let mut acc: u64 = 0;
    let mut i: usize = 0;
    while i < expenses.len()
        invariant
            i <= expenses@.len(),
            acc == amount_total(expenses@.take(i as int)),
            acc <= MAX_TOTAL,
        decreases expenses@.len() - i,
    {
        assert(expenses@.take(i as int + 1).drop_last() =~= expenses@.take(i as int));
        let next: u128 = acc as u128 + expenses[i].amount as u128;
        if next > MAX_TOTAL as u128 {
            proof {
                lemma_amount_prefix(expenses@, i as int + 1);
            }
            return None;
        }
        acc = next as u64;
        i = i + 1;
    }
    assert(expenses@.take(i as int) =~= expenses@);
    Some(acc)
}

/// What the person called `name` paid among `expenses`.
pub fn paid_by_name(expenses: &Vec<Expense>, name: &String) -> (r: u64)
    requires
        amount_total(expenses@) <= MAX_TOTAL,
    ensures
        r == paid_by(expenses@, name@),
{
    let mut acc: u64 = 0;
    let mut i: usize = 0;
    while i < expenses.len()
        invariant
            i <= expenses@.len(),
            amount_total(expenses@) <= MAX_TOTAL,
            acc == paid_by(expenses@.take(i as int), name@),
        decreases expenses@.len() - i,
    {
        let ghost next_prefix = expenses@.take(i as int + 1);
        assert(next_prefix.drop_last() =~= expenses@.take(i as int));
        proof {
            lemma_paid_le_total(next_prefix, name@);
            lemma_amount_prefix(expenses@, i as int + 1);
        }
        if expenses[i].person.name == *name {
            acc = acc + expenses[i].amount;
        }
        i = i + 1;
    }
    assert(expenses@.take(i as int) =~= expenses@);
    acc
}

/// What each person of `persons` paid among `expenses`, in person order.
pub fn paid_amounts(persons: &Vec<Person>, expenses: &Vec<Expense>) -> (r: Vec<u64>)
    requires
        amount_total(expenses@) <= MAX_TOTAL,
    ensures
        r@.len() == persons@.len(),
        forall|i: int| 0 <= i < persons@.len() ==> r@[i] == paid_by(expenses@, #[trigger] persons@[i].name@),
{
    let mut r: Vec<u64> = Vec::new();
    let mut i: usize = 0;
    while i < persons.len()
        invariant
            i <= persons@.len(),
            amount_total(expenses@) <= MAX_TOTAL,
            r@.len() == i,
            forall|j: int| 0 <= j < i ==> r@[j] == paid_by(expenses@, #[trigger] persons@[j].name@),
        decreases persons@.len() - i,
    {
        let paid = paid_by_name(expenses, &persons[i].name);
        r.push(paid);
        i = i + 1;
    }
    r
}

/// The fair share of each person in a spend of `total_expenses`, times the total
/// income of `persons`, in person order.
pub fn fair_shares(persons: &Vec<Person>, total_expenses: u64) -> (r: Vec<u128>)
    requires
        income_total(persons@) <= MAX_TOTAL,
        total_expenses <= MAX_TOTAL,
    ensures
        r@.len() == persons@.len(),
        forall|i: int|
            0 <= i < persons@.len() ==> r@[i] == scaled_share(#[trigger] persons@[i], total_expenses as int),
{
    let mut r: Vec<u128> = Vec::new();
    let mut i: usize = 0;
    while i < persons.len()
        invariant
            i <= persons@.len(),
            income_total(persons@) <= MAX_TOTAL,
            total_expenses <= MAX_TOTAL,
            r@.len() == i,
            forall|j: int|
                0 <= j < i ==> r@[j] == scaled_share(#[trigger] persons@[j], total_expenses as int),
        decreases persons@.len() - i,
    {
        proof {
            lemma_income_le_total(persons@, i as int);
            lemma_product_bound(persons@[i as int].income as int, total_expenses as int);
        }
        r.push(persons[i].income as u128 * total_expenses as u128);
        i = i + 1;
    }
    r
}

/// Each share minus what was paid times `total_income`: the scaled balances.
pub fn balances(shares: &Vec<u128>, paid: &Vec<u64>, total_income: u64) -> (r: Vec<i128>)
    requires
        shares@.len() == paid@.len(),
        total_income <= MAX_TOTAL,
        forall|i: int| 0 <= i < shares@.len() ==> #[trigger] shares@[i] <= MAX_TOTAL * MAX_TOTAL,
        forall|i: int| 0 <= i < paid@.len() ==> #[trigger] paid@[i] <= MAX_TOTAL,
    ensures
        r@.len() == shares@.len(),
        forall|i: int|
            0 <= i < shares@.len() ==> #[trigger] r@[i] == shares@[i] - paid@[i] * total_income,
{
    let mut r: Vec<i128> = Vec::new();
    let mut i: usize = 0;
    while i < shares.len()
        invariant
            i <= shares@.len(),
            shares@.len() == paid@.len(),
            total_income <= MAX_TOTAL,
            forall|j: int| 0 <= j < shares@.len() ==> #[trigger] shares@[j] <= MAX_TOTAL * MAX_TOTAL,
            forall|j: int| 0 <= j < paid@.len() ==> #[trigger] paid@[j] <= MAX_TOTAL,
            r@.len() == i,
            forall|j: int| 0 <= j < i ==> #[trigger] r@[j] == shares@[j] - paid@[j] * total_income,
        decreases shares@.len() - i,
    {
        proof {
            lemma_product_bound(paid@[i as int] as int, total_income as int);
        }
        let owed = paid[i] as i128 * total_income as i128;
        r.push(shares[i] as i128 - owed);
        i = i + 1;
    }
    r
}

} // verus!
