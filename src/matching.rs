//! Ranking debtors and creditors, and pairing them into payment lines.
//!
//! Debtors (positive balance) come largest debt first, creditors (negative
//! balance) largest credit first; equal balances keep the order of the
//! persons. Every debtor is matched against every creditor's full credit:
//! the credit is not used up along the way, so there is one line per pair.
use vstd::prelude::*;
use crate::models::Person;

verus! {

/// Person `x` is on the owing side (`owing`) or on the owed side.
pub open spec fn on_side(b: Seq<i128>, owing: bool, x: int) -> bool {
    if owing {
        b[x] > 0
    } else {
        b[x] < 0
    }
}

/// Within one side, `x` is ranked before `y`: the larger debt (or credit)
/// first, and on equal balances the earlier person first.
pub open spec fn ranks_before(b: Seq<i128>, owing: bool, x: int, y: int) -> bool {
    if owing {
        b[x] > b[y] || (b[x] == b[y] && x < y)
    } else {
        b[x] < b[y] || (b[x] == b[y] && x < y)
    }
}

/// `d` lists exactly the persons on one side of the balances `b`, ranked.
pub open spec fn is_ranking(b: Seq<i128>, owing: bool, d: Seq<usize>) -> bool {
    &&& forall|k: int| 0 <= k < d.len() ==> #[trigger] d[k] < b.len() && on_side(b, owing, d[k] as int)
    &&& forall|x: int| 0 <= x < b.len() && on_side(b, owing, x) ==> #[trigger] d.contains(x as usize)
    &&& forall|k1: int, k2: int|
        0 <= k1 < k2 < d.len() ==> ranks_before(b, owing, #[trigger] d[k1] as int, #[trigger] d[k2] as int)
}

/// A ranking is determined by the balances: two rankings of one side agree.
pub proof fn lemma_ranking_unique(b: Seq<i128>, owing: bool, d1: Seq<usize>, d2: Seq<usize>)
    requires
        is_ranking(b, owing, d1),
        is_ranking(b, owing, d2),
    ensures
        d1 == d2,
{
    assert forall|x: usize| #[trigger] d1.contains(x) <==> d2.contains(x) by {
        if d1.contains(x) {
            let k = choose|k: int| 0 <= k < d1.len() && d1[k] == x;
            assert(on_side(b, owing, d1[k] as int));
            assert(d2.contains((d1[k] as int) as usize));
        }
        if d2.contains(x) {
            let k = choose|k: int| 0 <= k < d2.len() && d2[k] == x;
            assert(on_side(b, owing, d2[k] as int));
            assert(d1.contains((d2[k] as int) as usize));
        }
    }
    lemma_ranked_lists_equal(b, owing, d1, d2);
}

proof fn lemma_ranked_lists_equal(b: Seq<i128>, owing: bool, d1: Seq<usize>, d2: Seq<usize>)
    requires
        forall|k: int| 0 <= k < d1.len() ==> #[trigger] d1[k] < b.len(),
        forall|k: int| 0 <= k < d2.len() ==> #[trigger] d2[k] < b.len(),
        forall|x: usize| #[trigger] d1.contains(x) <==> d2.contains(x),
        forall|k1: int, k2: int|
            0 <= k1 < k2 < d1.len() ==> ranks_before(b, owing, #[trigger] d1[k1] as int, #[trigger] d1[k2] as int),
        forall|k1: int, k2: int|
            0 <= k1 < k2 < d2.len() ==> ranks_before(b, owing, #[trigger] d2[k1] as int, #[trigger] d2[k2] as int),
    ensures
        d1 == d2,
    decreases d1.len(),
{
    if d1.len() == 0 {
        if d2.len() > 0 {
            assert(d2.contains(d2[0]));
            assert(d1.contains(d2[0]));
        }
        assert(d1 =~= d2);
    } else {
        assert(d1.contains(d1[0]));
        assert(d2.len() > 0);
        assert(d2.contains(d2[0]));
        let a = d1[0];
        let c = d2[0];
        assert(d2.contains(a));
        assert(d1.contains(c));
        if a != c {
            let ka = choose|k: int| 0 <= k < d2.len() && d2[k] == a;
            let kc = choose|k: int| 0 <= k < d1.len() && d1[k] == c;
            assert(ranks_before(b, owing, d2[0] as int, d2[ka] as int));
            assert(ranks_before(b, owing, d1[0] as int, d1[kc] as int));
            assert(false);
        }
        let r1 = d1.drop_first();
        let r2 = d2.drop_first();
        assert forall|x: usize| #[trigger] r1.contains(x) implies r2.contains(x) by {
            let k = choose|k: int| 0 <= k < r1.len() && r1[k] == x;
            assert(d1[k + 1] == x);
            assert(ranks_before(b, owing, d1[0] as int, d1[k + 1] as int));
            assert(d1.contains(x));
            let j = choose|j: int| 0 <= j < d2.len() && d2[j] == x;
            assert(j != 0);
            assert(r2[j - 1] == x);
        }
        assert forall|x: usize| #[trigger] r2.contains(x) implies r1.contains(x) by {
            let k = choose|k: int| 0 <= k < r2.len() && r2[k] == x;
            assert(d2[k + 1] == x);
            assert(ranks_before(b, owing, d2[0] as int, d2[k + 1] as int));
            assert(d2.contains(x));
            assert(d1.contains(x));
            let j = choose|j: int| 0 <= j < d1.len() && d1[j] == x;
            assert(j != 0);
            assert(r1[j - 1] == x);
        }
        assert forall|k1: int, k2: int| 0 <= k1 < k2 < r1.len() implies ranks_before(
            b,
            owing,
            #[trigger] r1[k1] as int,
            #[trigger] r1[k2] as int,
        ) by {
            assert(r1[k1] == d1[k1 + 1] && r1[k2] == d1[k2 + 1]);
        }
        assert forall|k1: int, k2: int| 0 <= k1 < k2 < r2.len() implies ranks_before(
            b,
            owing,
            #[trigger] r2[k1] as int,
            #[trigger] r2[k2] as int,
        ) by {
            assert(r2[k1] == d2[k1 + 1] && r2[k2] == d2[k2 + 1]);
        }
        lemma_ranked_lists_equal(b, owing, r1, r2);
        assert(d1 =~= seq![a].add(r1));
        assert(d2 =~= seq![c].add(r2));
    }
}

fn rank(b: &Vec<i128>, owing: bool) -> (d: Vec<usize>)
    ensures
        is_ranking(b@, owing, d@),
{
    let mut d: Vec<usize> = Vec::new();
    let mut i: usize = 0;
    while i < b.len()
        invariant
            i <= b@.len(),
            forall|k: int| 0 <= k < d@.len() ==> #[trigger] d@[k] < i && on_side(b@, owing, d@[k] as int),
            forall|x: int| 0 <= x < i && on_side(b@, owing, x) ==> #[trigger] d@.contains(x as usize),
            forall|k1: int, k2: int|
                0 <= k1 < k2 < d@.len() ==> ranks_before(b@, owing, #[trigger] d@[k1] as int, #[trigger] d@[k2] as int),
        decreases b@.len() - i,
    {
        let bi = b[i];
        if (owing && bi > 0) || (!owing && bi < 0) {
            let mut pos: usize = 0;
            while pos < d.len() && ((owing && b[d[pos]] >= bi) || (!owing && b[d[pos]] <= bi))
                invariant
                    pos <= d@.len(),
                    i < b@.len(),
                    bi == b@[i as int],
                    on_side(b@, owing, i as int),
                    forall|k: int| 0 <= k < d@.len() ==> #[trigger] d@[k] < i && on_side(b@, owing, d@[k] as int),
                    forall|k: int| 0 <= k < pos ==> ranks_before(b@, owing, #[trigger] d@[k] as int, i as int),
                decreases d@.len() - pos,
            {
                pos = pos + 1;
            }
            let ghost old_d = d@;
            assert forall|k: int| pos <= k < old_d.len() implies ranks_before(b@, owing, i as int, #[trigger] old_d[k] as int) by {
                if k > pos {
                    assert(ranks_before(b@, owing, old_d[pos as int] as int, old_d[k] as int));
                }
            }
            d.insert(pos, i);
            assert(d@ == old_d.insert(pos as int, i));
            assert forall|k1: int, k2: int| 0 <= k1 < k2 < d@.len() implies ranks_before(
                b@,
                owing,
                #[trigger] d@[k1] as int,
                #[trigger] d@[k2] as int,
            ) by {
                if k2 < pos {
                } else if k2 == pos {
                } else if k1 < pos {
                    assert(d@[k2] == old_d[k2 - 1]);
                } else if k1 == pos {
                    assert(d@[k2] == old_d[k2 - 1]);
                } else {
                    assert(d@[k1] == old_d[k1 - 1] && d@[k2] == old_d[k2 - 1]);
                }
            }
            assert forall|x: int| 0 <= x < i + 1 && on_side(b@, owing, x) implies #[trigger] d@.contains(x as usize) by {
                if x == i {
                    assert(d@[pos as int] == i);
                } else {
                    assert(old_d.contains(x as usize));
                    let j = choose|j: int| 0 <= j < old_d.len() && old_d[j] == x as usize;
                    if j < pos {
                        assert(d@[j] == x as usize);
                    } else {
                        assert(d@[j + 1] == x as usize);
                    }
                }
            }
        }
        i = i + 1;
    }
    d
}

/// The persons who owe (positive balance), largest debt first.
pub fn debtors(balances: &Vec<i128>) -> (d: Vec<usize>)
    ensures
        is_ranking(balances@, true, d@),
{
    rank(balances, true)
}

/// The persons who are owed (negative balance), largest credit first.
pub fn creditors(balances: &Vec<i128>) -> (c: Vec<usize>)
    ensures
        is_ranking(balances@, false, c@),
{
    rank(balances, false)
}

/// One payment instruction: `debtor` owes `creditor` the scaled `amount`
/// (the amount times the total income).
pub struct SettlementLine {
    pub debtor: String,
    pub creditor: String,
    pub amount: u128,
}

impl View for SettlementLine {
    type V = (Seq<char>, Seq<char>, int);

    open spec fn view(&self) -> (Seq<char>, Seq<char>, int) {
        (self.debtor@, self.creditor@, self.amount as int)
    }
}

/// The views of a list of lines.
pub open spec fn lines_view(lines: Seq<SettlementLine>) -> Seq<(Seq<char>, Seq<char>, int)> {
    lines.map_values(|l: SettlementLine| l@)
}

/// What debtor `x` pays creditor `y`: the smaller of the debt and the full credit.
pub open spec fn payment(b: Seq<i128>, x: int, y: int) -> int {
    if b[x] < -b[y] {
        b[x] as int
    } else {
        -b[y]
    }
}

/// The lines of debtor `x`, one per creditor of `c`, in creditor order.
pub open spec fn pay_row(ps: Seq<Person>, b: Seq<i128>, x: usize, c: Seq<usize>) -> Seq<
    (Seq<char>, Seq<char>, int),
>
    decreases c.len(),
{
    if c.len() == 0 {
        Seq::empty()
    } else {
        pay_row(ps, b, x, c.drop_last()).push(
            (ps[x as int].name@, ps[c.last() as int].name@, payment(b, x as int, c.last() as int)),
        )
    }
}

/// All lines: debtors in rank order, and for each the creditors in rank order.
pub open spec fn pay_lines(ps: Seq<Person>, b: Seq<i128>, d: Seq<usize>, c: Seq<usize>) -> Seq<
    (Seq<char>, Seq<char>, int),
>
    decreases d.len(),
{
    if d.len() == 0 {
        Seq::empty()
    } else {
        pay_lines(ps, b, d.drop_last(), c) + pay_row(ps, b, d.last(), c)
    }
}

proof fn lemma_lines_view_push(lines: Seq<SettlementLine>, l: SettlementLine)
    ensures
        lines_view(lines.push(l)) == lines_view(lines).push(l@),
{
    assert(lines_view(lines.push(l)) =~= lines_view(lines).push(l@));
}

proof fn lemma_row(ps: Seq<Person>, b: Seq<i128>, x: usize, c: Seq<usize>)
    requires
        x < b.len(),
        b[x as int] > 0,
        forall|k: int| 0 <= k < c.len() ==> #[trigger] c[k] < b.len() && b[c[k] as int] < 0,
    ensures
        pay_row(ps, b, x, c).len() == c.len(),
        forall|k: int| 0 <= k < c.len() ==> (#[trigger] pay_row(ps, b, x, c)[k]).2 > 0,
    decreases c.len(),
{
    if c.len() > 0 {
        let c0 = c.drop_last();
        assert forall|k: int| 0 <= k < c0.len() implies #[trigger] c0[k] < b.len() && b[c0[k] as int] < 0 by {
            assert(c0[k] == c[k]);
        }
        lemma_row(ps, b, x, c0);
        assert(c.last() == c[c.len() - 1]);
    }
}

/// The matcher emits exactly one line per (debtor, creditor) pair, and every
/// line carries a positive amount.
pub proof fn lemma_one_line_per_pair(ps: Seq<Person>, b: Seq<i128>, d: Seq<usize>, c: Seq<usize>)
    requires
        is_ranking(b, true, d),
        is_ranking(b, false, c),
    ensures
        pay_lines(ps, b, d, c).len() == d.len() * c.len(),
        forall|k: int| 0 <= k < pay_lines(ps, b, d, c).len() ==> (#[trigger] pay_lines(ps, b, d, c)[k]).2 > 0,
{
    lemma_lines_of_prefix(ps, b, d, c);
}

proof fn lemma_lines_of_prefix(ps: Seq<Person>, b: Seq<i128>, d: Seq<usize>, c: Seq<usize>)
    requires
        forall|k: int| 0 <= k < d.len() ==> #[trigger] d[k] < b.len() && on_side(b, true, d[k] as int),
        is_ranking(b, false, c),
    ensures
        pay_lines(ps, b, d, c).len() == d.len() * c.len(),
        forall|k: int| 0 <= k < pay_lines(ps, b, d, c).len() ==> (#[trigger] pay_lines(ps, b, d, c)[k]).2 > 0,
    decreases d.len(),
{
    if d.len() > 0 {
        let d0 = d.drop_last();
        assert forall|k: int| 0 <= k < d0.len() implies #[trigger] d0[k] < b.len() && on_side(b, true, d0[k] as int) by {
            assert(d0[k] == d[k]);
        }
        lemma_lines_of_prefix(ps, b, d0, c);
        assert(d.last() == d[d.len() - 1]);
        lemma_row(ps, b, d.last(), c);
        let (n, m) = (d0.len() as int, c.len() as int);
        assert((n + 1) * m == n * m + m) by (nonlinear_arith);
        let l0 = pay_lines(ps, b, d0, c);
        let row = pay_row(ps, b, d.last(), c);
        assert forall|k: int| 0 <= k < (l0 + row).len() implies (#[trigger] (l0 + row)[k]).2 > 0 by {
            if k >= l0.len() {
                assert((l0 + row)[k] == row[k - l0.len()]);
            }
        }
    }
}

/// Pairs every debtor with every creditor, with the creditor's full credit.
pub fn settlement_lines(
    persons: &Vec<Person>,
    balances: &Vec<i128>,
    debtors: &Vec<usize>,
    creditors: &Vec<usize>,
) -> (r: Vec<SettlementLine>)
    requires
        balances@.len() == persons@.len(),
        forall|i: int| 0 <= i < balances@.len() ==> #[trigger] balances@[i] > i128::MIN,
        is_ranking(balances@, true, debtors@),
        is_ranking(balances@, false, creditors@),
    ensures
        lines_view(r@) == pay_lines(persons@, balances@, debtors@, creditors@),
{
    let ghost ps = persons@;
    let ghost b = balances@;
    let ghost d = debtors@;
    let ghost c = creditors@;
    let mut r: Vec<SettlementLine> = Vec::new();
    let mut j: usize = 0;
    while j < debtors.len()
        invariant
            j <= d.len(),
            ps == persons@, b == balances@, d == debtors@, c == creditors@,
            b.len() == ps.len(),
            forall|i: int| 0 <= i < b.len() ==> #[trigger] b[i] > i128::MIN,
            is_ranking(b, true, d),
            is_ranking(b, false, c),
            lines_view(r@) == pay_lines(ps, b, d.take(j as int), c),
        decreases d.len() - j,
    {
        let x = debtors[j];
        assert(d[j as int] < b.len() && on_side(b, true, d[j as int] as int));
        let ghost before = lines_view(r@);
        let mut k: usize = 0;
        while k < creditors.len()
            invariant
                j < d.len(),
                k <= c.len(),
                ps == persons@, b == balances@, d == debtors@, c == creditors@,
                b.len() == ps.len(),
                forall|i: int| 0 <= i < b.len() ==> #[trigger] b[i] > i128::MIN,
                is_ranking(b, false, c),
                x == d[j as int],
                x < b.len(),
                b[x as int] > 0,
                before == pay_lines(ps, b, d.take(j as int), c),
                lines_view(r@) == before + pay_row(ps, b, x, c.take(k as int)),
            decreases c.len() - k,
        {
            let y = creditors[k];
            assert(c[k as int] < b.len() && on_side(b, false, c[k as int] as int));
            let owed = balances[x];
            let credit = -balances[y];
            let amount: u128 = if owed < credit {
                owed as u128
            } else {
                credit as u128
            };
            let line = SettlementLine {
                debtor: persons[x].name.clone(),
                creditor: persons[y].name.clone(),
                amount,
            };
            proof {
                lemma_lines_view_push(r@, line);
                assert(c.take(k as int + 1).drop_last() =~= c.take(k as int));
                assert(pay_row(ps, b, x, c.take(k as int + 1)) == pay_row(ps, b, x, c.take(k as int)).push(line@));
                assert(before + pay_row(ps, b, x, c.take(k as int + 1)) =~= (before + pay_row(ps, b, x, c.take(k as int))).push(line@));
            }
            r.push(line);
            k = k + 1;
        }
        proof {
            assert(c.take(k as int) =~= c);
            assert(d.take(j as int + 1).drop_last() =~= d.take(j as int));
        }
        j = j + 1;
    }
    assert(d.take(j as int) =~= d);
    r
}

} // verus!
