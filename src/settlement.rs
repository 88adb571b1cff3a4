//! One settlement run over the persons of an account and the expenses of a
//! period, and the laws it obeys.
use vstd::prelude::*;
use crate::matching::{
    creditors, lemma_ranking_unique, debtors, is_ranking, lines_view, pay_lines, settlement_lines, SettlementLine,
};
use crate::models::{names_distinct, has_person, payers_known, Account, Expense, LedgerError, Person};
use crate::period::{expenses_in, lemma_expenses_in_from};
use crate::shares::{
    amount_total, balances, fair_shares, income_total, paid_amounts, paid_by, scaled_balance,
    scaled_share, total_expenses, total_income, MAX_TOTAL,
};

verus! {

/// The outcome of a settlement run. Shares, balances and line amounts are
/// scaled: each is the amount in cents times `total_income`.
pub struct Settlement {
    pub total_income: u64,
    pub total_expenses: u64,
    /// Per person, in person order: the fair share, scaled.
    pub fair_shares: Vec<u128>,
    /// Per person, in person order: what they paid in the period, in cents.
    pub paid: Vec<u64>,
    /// Per person, in person order: fair share minus paid, scaled.
    pub balances: Vec<i128>,
    /// Indices of the persons who owe, largest debt first.
    pub debtors: Vec<usize>,
    /// Indices of the persons who are owed, largest credit first.
    pub creditors: Vec<usize>,
    pub lines: Vec<SettlementLine>,
}

/// A settlement as mathematical values.
pub struct SettlementView {
    pub total_income: int,
    pub total_expenses: int,
    pub fair_shares: Seq<u128>,
    pub paid: Seq<u64>,
    pub balances: Seq<i128>,
    pub debtors: Seq<usize>,
    pub creditors: Seq<usize>,
    pub lines: Seq<(Seq<char>, Seq<char>, int)>,
}

impl View for Settlement {
    type V = SettlementView;

    open spec fn view(&self) -> SettlementView {
        SettlementView {
            total_income: self.total_income as int,
            total_expenses: self.total_expenses as int,
            fair_shares: self.fair_shares@,
            paid: self.paid@,
            balances: self.balances@,
            debtors: self.debtors@,
            creditors: self.creditors@,
            lines: lines_view(self.lines@),
        }
    }
}

/// `s` is the settlement of the persons `ps` over the period's expenses `es`.
pub open spec fn is_settlement_of(ps: Seq<Person>, es: Seq<Expense>, s: SettlementView) -> bool {
    let ti = income_total(ps);
    let te = amount_total(es);
    &&& s.total_income == ti
    &&& s.total_expenses == te
    &&& s.fair_shares.len() == ps.len()
    &&& s.paid.len() == ps.len()
    &&& s.balances.len() == ps.len()
    &&& forall|i: int| 0 <= i < ps.len() ==> #[trigger] s.fair_shares[i] == scaled_share(ps[i], te)
    &&& forall|i: int| 0 <= i < ps.len() ==> #[trigger] s.paid[i] == paid_by(es, ps[i].name@)
    &&& forall|i: int| 0 <= i < ps.len() ==> #[trigger] s.balances[i] == scaled_balance(ps[i], es, ti, te)
    &&& is_ranking(s.balances, true, s.debtors)
    &&& is_ranking(s.balances, false, s.creditors)
    &&& s.lines == pay_lines(ps, s.balances, s.debtors, s.creditors)
}

/// Why no settlement of `ps` over `es` exists, if none does.
pub open spec fn refusal(ps: Seq<Person>, es: Seq<Expense>) -> Option<LedgerError> {
    if income_total(ps) == 0 {
        Some(LedgerError::ZeroIncome)
    } else if income_total(ps) > MAX_TOTAL || amount_total(es) > MAX_TOTAL {
        Some(LedgerError::TooLarge)
    } else {
        None
    }
}

/// `r` is what settling `ps` over `es` gives: the settlement, or the refusal.
pub open spec fn settles(ps: Seq<Person>, es: Seq<Expense>, r: Result<Settlement, LedgerError>) -> bool {
    match r {
        Ok(s) => refusal(ps, es) is None && is_settlement_of(ps, es, s@),
        Err(e) => refusal(ps, es) == Some(e),
    }
}

/// Settles `persons` over `expenses`, the expenses of one period.
pub fn settle(persons: &Vec<Person>, expenses: &Vec<Expense>) -> (r: Result<Settlement, LedgerError>)
    ensures
        settles(persons@, expenses@, r),
{
    let ti = match total_income(persons) {
        Some(t) => t,
        None => return Err(LedgerError::TooLarge),
    };
    if ti == 0 {
        return Err(LedgerError::ZeroIncome);
    }
    let te = match total_expenses(expenses) {
        Some(t) => t,
        None => return Err(LedgerError::TooLarge),
    };
    let shares = fair_shares(persons, te);
    let paid = paid_amounts(persons, expenses);
    proof {
        assert forall|i: int| 0 <= i < shares@.len() implies #[trigger] shares@[i] <= MAX_TOTAL * MAX_TOTAL by {
            crate::shares::lemma_income_le_total(persons@, i);
            assert(persons@[i].income * te <= MAX_TOTAL * MAX_TOTAL) by (nonlinear_arith)
                requires
                    persons@[i].income <= MAX_TOTAL,
                    te <= MAX_TOTAL,
            ;
        }
        assert forall|i: int| 0 <= i < paid@.len() implies #[trigger] paid@[i] <= MAX_TOTAL by {
            crate::shares::lemma_paid_le_total(expenses@, persons@[i].name@);
        }
    }
    let b = balances(&shares, &paid, ti);
    proof {
        assert forall|i: int| 0 <= i < b@.len() implies #[trigger] b@[i] > i128::MIN by {
            assert(paid@[i] * ti <= MAX_TOTAL * MAX_TOTAL) by (nonlinear_arith)
                requires
                    paid@[i] <= MAX_TOTAL,
                    ti <= MAX_TOTAL,
            ;
        }
    }
    let d = debtors(&b);
    let c = creditors(&b);
    let lines = settlement_lines(persons, &b, &d, &c);
    Ok(
        Settlement {
            total_income: ti,
            total_expenses: te,
            fair_shares: shares,
            paid,
            balances: b,
            debtors: d,
            creditors: c,
            lines,
        },
    )
}

/// `num / den` rounded to the nearest integer, halves away from zero.
pub open spec fn rounded_div(num: int, den: int) -> int {
    if num >= 0 {
        (2 * num + den) / (2 * den)
    } else {
        -((-2 * num + den) / (2 * den))
    }
}

/// A scaled amount of a settlement with this total income, in whole cents:
/// what is shown of an amount.
pub fn rounded_cents(scaled: i128, total_income: u64) -> (r: i128)
    requires
        0 < total_income,
        -(MAX_TOTAL * MAX_TOTAL) <= scaled <= MAX_TOTAL * MAX_TOTAL,
    ensures
        r == rounded_div(scaled as int, total_income as int),
{
    let den = 2 * (total_income as i128);
    if scaled >= 0 {
        (2 * scaled + total_income as i128) / den
    } else {
        let magnitude: i128 = -scaled;
        -((2 * magnitude + total_income as i128) / den)
    }
}

/// The sum of a list of scaled shares.
pub open spec fn shares_sum(v: Seq<u128>) -> int
    decreases v.len(),
{
    if v.len() == 0 {
        0
    } else {
        shares_sum(v.drop_last()) + v.last()
    }
}

/// The sum of a list of scaled balances.
pub open spec fn balances_sum(v: Seq<i128>) -> int
    decreases v.len(),
{
    if v.len() == 0 {
        0
    } else {
        balances_sum(v.drop_last()) + v.last()
    }
}

/// What the persons of `ps` paid among `es`, added up person by person.
pub open spec fn paid_total(ps: Seq<Person>, es: Seq<Expense>) -> int
    decreases ps.len(),
{
    if ps.len() == 0 {
        0
    } else {
        paid_total(ps.drop_last(), es) + paid_by(es, ps.last().name@)
    }
}

/// How many persons of `ps` are called `name`.
pub open spec fn name_count(ps: Seq<Person>, name: Seq<char>) -> int
    decreases ps.len(),
{
    if ps.len() == 0 {
        0
    } else {
        name_count(ps.drop_last(), name) + if ps.last().name@ == name {
            1int
        } else {
            0
        }
    }
}

proof fn lemma_shares_sum(ps: Seq<Person>, v: Seq<u128>, te: int)
    requires
        v.len() == ps.len(),
        forall|i: int| 0 <= i < ps.len() ==> #[trigger] v[i] == scaled_share(ps[i], te),
    ensures
        shares_sum(v) == income_total(ps) * te,
    decreases ps.len(),
{
    if ps.len() > 0 {
        let (ps0, v0) = (ps.drop_last(), v.drop_last());
        assert forall|i: int| 0 <= i < ps0.len() implies #[trigger] v0[i] == scaled_share(ps0[i], te) by {
            assert(v0[i] == v[i] && ps0[i] == ps[i]);
        }
        lemma_shares_sum(ps0, v0, te);
        assert(v.last() == v[ps.len() - 1]);
        let (a, x) = (income_total(ps0), ps.last().income as int);
        assert((a + x) * te == a * te + x * te) by (nonlinear_arith);
    }
}

proof fn lemma_balances_sum(ps: Seq<Person>, v: Seq<i128>, es: Seq<Expense>, ti: int, te: int)
    requires
        v.len() == ps.len(),
        forall|i: int| 0 <= i < ps.len() ==> #[trigger] v[i] == scaled_balance(ps[i], es, ti, te),
    ensures
        balances_sum(v) == income_total(ps) * te - paid_total(ps, es) * ti,
    decreases ps.len(),
{
    if ps.len() > 0 {
        let (ps0, v0) = (ps.drop_last(), v.drop_last());
        assert forall|i: int| 0 <= i < ps0.len() implies #[trigger] v0[i] == scaled_balance(ps0[i], es, ti, te) by {
            assert(v0[i] == v[i] && ps0[i] == ps[i]);
        }
        lemma_balances_sum(ps0, v0, es, ti, te);
        assert(v.last() == v[ps.len() - 1]);
        let (a, x) = (income_total(ps0), ps.last().income as int);
        let (p, y) = (paid_total(ps0, es), paid_by(es, ps.last().name@));
        assert((a + x) * te == a * te + x * te) by (nonlinear_arith);
        assert((p + y) * ti == p * ti + y * ti) by (nonlinear_arith);
    }
}

proof fn lemma_paid_total_step(ps: Seq<Person>, es: Seq<Expense>)
    requires
        es.len() > 0,
    ensures
        paid_total(ps, es) == paid_total(ps, es.drop_last()) + es.last().amount * name_count(
            ps,
            es.last().person.name@,
        ),
    decreases ps.len(),
{
    if ps.len() > 0 {
        lemma_paid_total_step(ps.drop_last(), es);
        let (m, c) = (es.last().amount as int, name_count(ps.drop_last(), es.last().person.name@));
        assert(m * (c + 1) == m * c + m) by (nonlinear_arith);
    }
}

proof fn lemma_name_count(ps: Seq<Person>, name: Seq<char>)
    requires
        names_distinct(ps),
    ensures
        name_count(ps, name) == if has_person(ps, name) {
            1int
        } else {
            0
        },
    decreases ps.len(),
{
    if ps.len() > 0 {
        let ps0 = ps.drop_last();
        assert(names_distinct(ps0)) by {
            assert forall|i: int, j: int| 0 <= i < j < ps0.len() implies #[trigger] ps0[i].name@
                != #[trigger] ps0[j].name@ by {
                assert(ps0[i] == ps[i] && ps0[j] == ps[j]);
            }
        }
        lemma_name_count(ps0, name);
        if has_person(ps0, name) {
            let i = choose|i: int| 0 <= i < ps0.len() && #[trigger] ps0[i].name@ == name;
            assert(ps[i] == ps0[i]);
            assert(ps.last() == ps[ps.len() - 1]);
            assert(has_person(ps, name));
        } else if ps.last().name@ == name {
            assert(ps[ps.len() - 1].name@ == name);
        } else {
            assert forall|i: int| 0 <= i < ps.len() implies #[trigger] ps[i].name@ != name by {
                if i < ps.len() - 1 {
                    assert(ps[i] == ps0[i]);
                }
            }
        }
    }
}

proof fn lemma_paid_total(ps: Seq<Person>, es: Seq<Expense>)
    requires
        names_distinct(ps),
        payers_known(ps, es),
    ensures
        paid_total(ps, es) == amount_total(es),
    decreases es.len(),
{
    if es.len() == 0 {
        lemma_paid_total_empty(ps, es);
    } else {
        let es0 = es.drop_last();
        assert(payers_known(ps, es0)) by {
            assert forall|k: int| 0 <= k < es0.len() implies has_person(ps, #[trigger] es0[k].person.name@) by {
                assert(es0[k] == es[k]);
            }
        }
        lemma_paid_total(ps, es0);
        lemma_paid_total_step(ps, es);
        assert(es.last() == es[es.len() - 1]);
        lemma_name_count(ps, es.last().person.name@);
    }
}

proof fn lemma_paid_total_empty(ps: Seq<Person>, es: Seq<Expense>)
    requires
        es.len() == 0,
    ensures
        paid_total(ps, es) == 0,
    decreases ps.len(),
{
    if ps.len() > 0 {
        lemma_paid_total_empty(ps.drop_last(), es);
    }
}

proof fn lemma_paid_by_absent(es: Seq<Expense>, name: Seq<char>)
    requires
        forall|k: int| 0 <= k < es.len() ==> #[trigger] es[k].person.name@ != name,
    ensures
        paid_by(es, name) == 0,
    decreases es.len(),
{
    if es.len() > 0 {
        let es0 = es.drop_last();
        assert forall|k: int| 0 <= k < es0.len() implies #[trigger] es0[k].person.name@ != name by {
            assert(es0[k] == es[k]);
        }
        lemma_paid_by_absent(es0, name);
        assert(es.last() == es[es.len() - 1]);
    }
}

/// Fair shares add up to the spend: the scaled shares sum to the total
/// expenses times the total income.
pub proof fn lemma_fair_shares_sum_to_spend(ps: Seq<Person>, es: Seq<Expense>, s: Settlement)
    requires
        is_settlement_of(ps, es, s@),
    ensures
        shares_sum(s.fair_shares@) == s.total_expenses * s.total_income,
{
    lemma_shares_sum(ps, s.fair_shares@, amount_total(es));
}

/// In an account whose names are unique and whose expenses are paid by its
/// own persons, the balances of any period's settlement net to zero.
pub proof fn lemma_balances_net_to_zero(account: Account, period: Seq<char>, s: Settlement)
    requires
        account.wf(),
        is_settlement_of(account.persons@, expenses_in(account.expenses@, period), s@),
    ensures
        balances_sum(s.balances@) == 0,
{
    let ps = account.persons@;
    let es = expenses_in(account.expenses@, period);
    lemma_expenses_in_from(account.expenses@, period);
    assert forall|k: int| 0 <= k < es.len() implies has_person(ps, #[trigger] es[k].person.name@) by {
        assert(account.expenses@.contains(es[k]));
        let j = choose|j: int| 0 <= j < account.expenses@.len() && account.expenses@[j] == es[k];
        assert(has_person(ps, account.expenses@[j].person.name@));
    }
    lemma_balances_sum(ps, s.balances@, es, income_total(ps), amount_total(es));
    lemma_paid_total(ps, es);
    let (ti, te) = (income_total(ps), amount_total(es));
    assert(ti * te == te * ti) by (nonlinear_arith);
}

/// Settling is deterministic: two runs on the same persons and expenses give
/// the same refusal, or the same settlement, ordering included.
pub proof fn lemma_settlement_determined(
    ps: Seq<Person>,
    es: Seq<Expense>,
    r1: Result<Settlement, LedgerError>,
    r2: Result<Settlement, LedgerError>,
)
    requires
        settles(ps, es, r1),
        settles(ps, es, r2),
    ensures
        match (r1, r2) {
            (Ok(a), Ok(b)) => a@ == b@,
            (Err(e1), Err(e2)) => e1 == e2,
            _ => false,
        },
{
    if let (Ok(a), Ok(b)) = (r1, r2) {
        assert(a.fair_shares@ =~= b.fair_shares@);
        assert(a.paid@ =~= b.paid@);
        assert(a.balances@ =~= b.balances@);
        lemma_ranking_unique(a.balances@, true, a.debtors@, b.debtors@);
        lemma_ranking_unique(a.balances@, false, a.creditors@, b.creditors@);
    }
}

/// A period without expenses: nothing spent, every share, payment and balance
/// zero, nobody owes, and no line is emitted.
pub proof fn lemma_quiet_period(ps: Seq<Person>, es: Seq<Expense>, s: Settlement)
    requires
        es.len() == 0,
        is_settlement_of(ps, es, s@),
    ensures
        s.total_expenses == 0,
        forall|i: int| 0 <= i < ps.len() ==> #[trigger] s.fair_shares@[i] == 0 && s.paid@[i] == 0 && s.balances@[i] == 0,
        s.debtors@.len() == 0,
        s.lines@.len() == 0,
{
    if s.debtors@.len() > 0 {
        assert(s.balances@[s.debtors@[0] as int] > 0);
    }
    assert(lines_view(s.lines@).len() == s.lines@.len());
}

/// A person who paid nothing in the period: paid is zero and the balance is
/// the whole fair share, computed from their income.
pub proof fn lemma_absent_payer(ps: Seq<Person>, es: Seq<Expense>, s: Settlement, i: int)
    requires
        is_settlement_of(ps, es, s@),
        0 <= i < ps.len(),
        forall|k: int| 0 <= k < es.len() ==> #[trigger] es[k].person.name@ != ps[i].name@,
    ensures
        s.paid@[i] == 0,
        s.fair_shares@[i] == ps[i].income * s.total_expenses,
        s.balances@[i] == s.fair_shares@[i],
{
    lemma_paid_by_absent(es, ps[i].name@);
}

} // verus!
