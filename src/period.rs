//! Selecting the expenses of a reporting period.
//!
//! A period is a prefix of an ISO date: `2023-01` is a month, `2023-01-15`
//! a single day. An expense belongs to a period when its date starts with it.
use vstd::prelude::*;
use crate::models::Expense;

verus! {

/// `p` is a prefix of `s`.
pub open spec fn has_prefix(s: Seq<char>, p: Seq<char>) -> bool {
    p.len() <= s.len() && s.subrange(0, p.len() as int) == p
}

/// The expenses of `es` dated within `period`, in their order.
pub open spec fn expenses_in(es: Seq<Expense>, period: Seq<char>) -> Seq<Expense>
    decreases es.len(),
{
    if es.len() == 0 {
        Seq::empty()
    } else {
        let rest = expenses_in(es.drop_last(), period);
        if has_prefix(es.last().date@, period) {
            rest.push(es.last())
        } else {
            rest
        }
    }
}

/// Whether `s` starts with `prefix`.
pub fn starts_with(s: &str, prefix: &str) -> (r: bool)
    ensures
        r == has_prefix(s@, prefix@),
{
    let n = prefix.unicode_len();
    let m = s.unicode_len();
    if n > m {
        return false;
    }
    let mut i: usize = 0;
    while i < n
        invariant
            i <= n,
            n == prefix@.len(),
            n <= m,
            m == s@.len(),
            forall|j: int| 0 <= j < i ==> s@[j] == prefix@[j],
        decreases n - i,
    {
        if s.get_char(i) != prefix.get_char(i) {
            assert(s@.subrange(0, n as int)[i as int] != prefix@[i as int]);
            return false;
        }
        i = i + 1;
    }
    assert(s@.subrange(0, n as int) =~= prefix@);
    true
}

/// Every expense of `es` that `expenses_in` keeps is one of `es`.
pub proof fn lemma_expenses_in_from(es: Seq<Expense>, period: Seq<char>)
    ensures
        forall|k: int|
            0 <= k < expenses_in(es, period).len() ==> #[trigger] es.contains(
                expenses_in(es, period)[k],
            ),
    decreases es.len(),
{
    if es.len() > 0 {
        lemma_expenses_in_from(es.drop_last(), period);
        let rest = expenses_in(es.drop_last(), period);
        assert forall|k: int| 0 <= k < rest.len() implies #[trigger] es.contains(rest[k]) by {
            assert(es.drop_last().contains(rest[k]));
            let j = choose|j: int| 0 <= j < es.drop_last().len() && es.drop_last()[j] == rest[k];
            assert(es[j] == rest[k]);
        }
        assert(es[es.len() - 1] == es.last());
    }
}

/// The expenses of `expenses` dated within `period`, in their order.
pub fn expenses_in_period(expenses: &Vec<Expense>, period: &str) -> (r: Vec<Expense>)
    ensures
        r@ == expenses_in(expenses@, period@),
{
    let mut r: Vec<Expense> = Vec::new();
    let mut i: usize = 0;
    while i < expenses.len()
        invariant
            i <= expenses@.len(),
            r@ == expenses_in(expenses@.take(i as int), period@),
        decreases expenses@.len() - i,
    {
        assert(expenses@.take(i as int + 1).drop_last() =~= expenses@.take(i as int));
        let e = &expenses[i];
        if starts_with(e.date.as_str(), period) {
            r.push(e.clone());
        }
        i = i + 1;
    }
    assert(expenses@.take(i as int) =~= expenses@);
    r
}

} // verus!
