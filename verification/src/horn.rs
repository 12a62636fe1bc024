//! Satisfiability of Horn formulas by unit propagation.

use crate::vectors::filled;
use vstd::prelude::*;

verus! {

/// How a variable occurs in a clause: not at all, as it is, or negated.
#[derive(Clone, Copy, Debug, PartialEq, Eq, Structural)]
pub enum VarState {
    Nothing,
    Direct,
    Inverted,
}

/// A literal of state `s` is true where its variable has the value `b`.
pub open spec fn lit_true(s: VarState, b: bool) -> bool {
    (s == VarState::Direct && b) || (s == VarState::Inverted && !b)
}

/// Some literal of the clause is true under the assignment `a`.
pub open spec fn clause_holds(c: Seq<VarState>, a: Seq<bool>) -> bool {
    exists|i: int| 0 <= i < c.len() && lit_true(#[trigger] c[i], a[i])
}

/// Every clause of the formula holds under the assignment `a`.
pub open spec fn formula_holds(f: Seq<Seq<VarState>>, a: Seq<bool>) -> bool {
    forall|k: int| 0 <= k < f.len() ==> clause_holds(#[trigger] f[k], a)
}

/// Some assignment of `n` variables makes the formula hold.
pub open spec fn satisfiable(f: Seq<Seq<VarState>>, n: int) -> bool {
    exists|a: Seq<bool>| a.len() == n && #[trigger] formula_holds(f, a)
}

/// The clause has at most one literal that is not negated.
pub open spec fn is_horn_clause(c: Seq<VarState>) -> bool {
    forall|i: int, j: int|
        0 <= i < c.len() && 0 <= j < c.len() && #[trigger] c[i] == VarState::Direct && #[trigger] c[j]
            == VarState::Direct ==> i == j
}

/// Every clause is a Horn clause with at least one literal.
pub open spec fn is_horn_form(f: Seq<Seq<VarState>>) -> bool {
    forall|k: int| 0 <= k < f.len() ==> is_horn_clause(#[trigger] f[k]) && literal_count(f[k], f[k].len() as int) > 0
}

/// The number of literals among the first `m` entries of the clause.
pub open spec fn literal_count(c: Seq<VarState>, m: int) -> int
    decreases m,
{
    if m <= 0 {
        0
    } else {
        literal_count(c, m - 1) + if c[m - 1] == VarState::Nothing {
            0int
        } else {
            1int
        }
    }
}

/// The rows of a formula as sequences.
pub open spec fn grid(rows: Seq<Vec<VarState>>) -> Seq<Seq<VarState>> {
    Seq::new(rows.len(), |k: int| rows[k]@)
}

/// A clause without literals has count zero, and the other way round; a
/// literal among the first `m` entries makes the count positive.
pub proof fn lemma_literal_count(c: Seq<VarState>, m: int)
    requires
        0 <= m <= c.len(),
    ensures
        0 <= literal_count(c, m) <= m,
        literal_count(c, m) == 0 <==> forall|j: int| 0 <= j < m ==> c[j] == VarState::Nothing,
    decreases m,
{
    if m > 0 {
        lemma_literal_count(c, m - 1);
    }
}

/// In a clause with one literal, every entry but that one is empty.
pub proof fn lemma_single_literal(c: Seq<VarState>, m: int, x: int)
    requires
        0 <= x < m <= c.len(),
        literal_count(c, m) == 1,
        c[x] != VarState::Nothing,
    ensures
        forall|j: int| 0 <= j < m && j != x ==> c[j] == VarState::Nothing,
    decreases m,
{
    lemma_literal_count(c, m - 1);
    if x < m - 1 {
        if c[m - 1] == VarState::Nothing {
            lemma_single_literal(c, m - 1, x);
        } else {
            assert(literal_count(c, m - 1) == 0);
        }
    }
}

/// A clause with two literals or more has literals at two places.
pub proof fn lemma_two_literals(c: Seq<VarState>, m: int) -> (at: (int, int))
    requires
        0 <= m <= c.len(),
        literal_count(c, m) >= 2,
    ensures
        0 <= at.0 < at.1 < m,
        c[at.0] != VarState::Nothing,
        c[at.1] != VarState::Nothing,
    decreases m,
{
    lemma_literal_count(c, m);
    lemma_literal_count(c, m - 1);
    if c[m - 1] == VarState::Nothing {
        lemma_two_literals(c, m - 1)
    } else {
        let x = choose|x: int| 0 <= x < m - 1 && c[x] != VarState::Nothing;
        (x, m - 1)
    }
}

/// The number of literals of a clause.
pub fn count_literals(clause: &Vec<VarState>) -> (count: usize)
    ensures
        count == literal_count(clause@, clause@.len() as int),
{
    let size: usize = clause.len();
    let mut count: usize = 0;
    let mut i: usize = 0;
    while i < size
        invariant
            i <= size,
            size == clause@.len(),
            count == literal_count(clause@, i as int),
            count <= i,
        decreases size - i,
    {
        if clause[i] != VarState::Nothing {
            count += 1;
        }
        i += 1;
    }
    count
}

/// The place of the first literal of a clause that has one.
pub fn first_literal(clause: &Vec<VarState>) -> (at: usize)
    requires
        literal_count(clause@, clause@.len() as int) > 0,
    ensures
        at < clause@.len(),
        clause@[at as int] != VarState::Nothing,
        forall|j: int| 0 <= j < at ==> clause@[j] == VarState::Nothing,
{
    proof {
        lemma_literal_count(clause@, clause@.len() as int);
    }
    let size: usize = clause.len();
    let mut at: usize = 0;
    while at < size && clause[at] == VarState::Nothing
        invariant
            at <= size,
            size == clause@.len(),
            forall|j: int| 0 <= j < at ==> clause@[j] == VarState::Nothing,
            exists|j: int| 0 <= j < size && clause@[j] != VarState::Nothing,
        decreases size - at,
    {
        at += 1;
    }
    at
}

/// The assignment gives every variable that has a value that value.
pub open spec fn agrees(values: Seq<Option<bool>>, a: Seq<bool>) -> bool {
    forall|i: int| 0 <= i < values.len() ==> (#[trigger] values[i] matches Some(v) ==> a[i] == v)
}

/// Every clause that is still open holds under the assignment.
pub open spec fn rest_holds(cur: Seq<Seq<VarState>>, open: Seq<bool>, a: Seq<bool>) -> bool {
    forall|k: int| 0 <= k < cur.len() && #[trigger] open[k] ==> clause_holds(cur[k], a)
}

/// The clauses at hand have the shape of the formula, and an open clause
/// holds no literal but those of its clause in the formula.
pub open spec fn shaped(
    f0: Seq<Seq<VarState>>,
    cur: Seq<Seq<VarState>>,
    open: Seq<bool>,
    values: Seq<Option<bool>>,
) -> bool {
    &&& cur.len() == f0.len()
    &&& open.len() == f0.len()
    &&& forall|k: int| 0 <= k < f0.len() ==> (#[trigger] f0[k]).len() == values.len()
    &&& forall|k: int| 0 <= k < f0.len() ==> (#[trigger] cur[k]).len() == values.len()
    &&& forall|k: int, j: int|
        0 <= k < f0.len() && 0 <= j < values.len() && open[k] && #[trigger] cur[k][j] != VarState::Nothing
            ==> cur[k][j] == f0[k][j]
}

/// Under the assignments that agree with the values found, the formula is
/// worth what the open clauses are worth.
pub open spec fn same_worth(
    f0: Seq<Seq<VarState>>,
    cur: Seq<Seq<VarState>>,
    open: Seq<bool>,
    values: Seq<Option<bool>>,
) -> bool {
    forall|a: Seq<bool>|
        a.len() == values.len() && #[trigger] agrees(values, a) ==> (formula_holds(f0, a) <==> rest_holds(
            cur,
            open,
            a,
        ))
}

/// Every assignment under which the formula holds agrees with the values
/// found.
pub open spec fn forced(f0: Seq<Seq<VarState>>, values: Seq<Option<bool>>) -> bool {
    forall|a: Seq<bool>| a.len() == values.len() && #[trigger] formula_holds(f0, a) ==> agrees(values, a)
}

/// No assignment makes the formula hold.
pub open spec fn hopeless(f0: Seq<Seq<VarState>>, n: int) -> bool {
    !satisfiable(f0, n)
}

/// The one literal of an open clause gives its variable a value.
pub proof fn lemma_unit_forces(
    f0: Seq<Seq<VarState>>,
    cur: Seq<Seq<VarState>>,
    open: Seq<bool>,
    values: Seq<Option<bool>>,
    k: int,
    x: int,
)
    requires
        shaped(f0, cur, open, values),
        same_worth(f0, cur, open, values),
        forced(f0, values),
        0 <= k < cur.len(),
        open[k],
        0 <= x < values.len(),
        literal_count(cur[k], cur[k].len() as int) == 1,
        cur[k][x] != VarState::Nothing,
    ensures
        values[x] is None ==> same_worth(f0, cur, open, values.update(x, Some(cur[k][x] == VarState::Direct)))
            && forced(f0, values.update(x, Some(cur[k][x] == VarState::Direct))),
        values[x] == Some(cur[k][x] != VarState::Direct) ==> hopeless(f0, values.len() as int),
{
    let v = cur[k][x] == VarState::Direct;
    let n = values.len() as int;
    lemma_single_literal(cur[k], n, x);
    assert forall|a: Seq<bool>| a.len() == n && #[trigger] formula_holds(f0, a) implies a[x] == v by {
        assert(agrees(values, a));
        assert(rest_holds(cur, open, a));
        assert(clause_holds(cur[k], a));
        let i = choose|i: int| 0 <= i < cur[k].len() && lit_true(#[trigger] cur[k][i], a[i]);
        assert(i == x);
    }
    if values[x] is None {
        let next = values.update(x, Some(v));
        assert forall|a: Seq<bool>| a.len() == n && #[trigger] formula_holds(f0, a) implies agrees(next, a) by {
            assert(agrees(values, a));
            assert(a[x] == v);
        }
        assert forall|a: Seq<bool>| a.len() == n && #[trigger] agrees(next, a) implies (formula_holds(f0, a)
            <==> rest_holds(cur, open, a)) by {
            assert forall|i: int| 0 <= i < n implies (#[trigger] values[i] matches Some(w) ==> a[i] == w) by {
                assert(next[i] == values[i] || i == x);
            }
            assert(agrees(values, a));
        }
    }
    if values[x] == Some(!v) {
        assert forall|a: Seq<bool>| a.len() == n implies !#[trigger] formula_holds(f0, a) by {
            if formula_holds(f0, a) {
                assert(agrees(values, a));
                assert(a[x] == v);
            }
        }
    }
}

/// An open clause with a literal that the values found make true can be
/// closed.
pub proof fn lemma_close_clause(
    f0: Seq<Seq<VarState>>,
    cur: Seq<Seq<VarState>>,
    open: Seq<bool>,
    values: Seq<Option<bool>>,
    k: int,
    j: int,
)
    requires
        shaped(f0, cur, open, values),
        same_worth(f0, cur, open, values),
        0 <= k < cur.len(),
        0 <= j < values.len(),
        open[k],
        values[j] matches Some(b) && lit_true(cur[k][j], b),
    ensures
        same_worth(f0, cur, open.update(k, false), values),
        shaped(f0, cur, open.update(k, false), values),
{
    let n = values.len() as int;
    let next = open.update(k, false);
    assert forall|a: Seq<bool>| a.len() == n && #[trigger] agrees(values, a) implies (formula_holds(f0, a)
        <==> rest_holds(cur, next, a)) by {
        assert(values[j] is Some);
        assert(lit_true(cur[k][j], a[j]));
        assert(clause_holds(cur[k], a));
        if rest_holds(cur, next, a) {
            assert forall|q: int| 0 <= q < cur.len() && #[trigger] open[q] implies clause_holds(cur[q], a) by {
                if q != k {
                    assert(next[q]);
                }
            }
        }
        if rest_holds(cur, open, a) {
            assert forall|q: int| 0 <= q < cur.len() && #[trigger] next[q] implies clause_holds(cur[q], a) by {
                assert(open[q]);
            }
        }
    }
}

/// A literal that the values found make false can be struck out.
pub proof fn lemma_strike_literal(
    f0: Seq<Seq<VarState>>,
    cur: Seq<Seq<VarState>>,
    open: Seq<bool>,
    values: Seq<Option<bool>>,
    k: int,
    j: int,
)
    requires
        shaped(f0, cur, open, values),
        same_worth(f0, cur, open, values),
        0 <= k < cur.len(),
        0 <= j < values.len(),
        open[k],
        values[j] matches Some(b) && !lit_true(cur[k][j], b),
    ensures
        same_worth(f0, cur.update(k, cur[k].update(j, VarState::Nothing)), open, values),
        shaped(f0, cur.update(k, cur[k].update(j, VarState::Nothing)), open, values),
{
    let n = values.len() as int;
    let row = cur[k].update(j, VarState::Nothing);
    let next = cur.update(k, row);
    assert forall|a: Seq<bool>| a.len() == n && #[trigger] agrees(values, a) implies (formula_holds(f0, a)
        <==> rest_holds(next, open, a)) by {
        assert(values[j] is Some);
        assert(!lit_true(cur[k][j], a[j]));
        if clause_holds(cur[k], a) {
            let i = choose|i: int| 0 <= i < cur[k].len() && lit_true(#[trigger] cur[k][i], a[i]);
            assert(lit_true(row[i], a[i]));
        }
        if clause_holds(row, a) {
            let i = choose|i: int| 0 <= i < row.len() && lit_true(#[trigger] row[i], a[i]);
            assert(lit_true(cur[k][i], a[i]));
        }
        if rest_holds(next, open, a) {
            assert forall|q: int| 0 <= q < cur.len() && #[trigger] open[q] implies clause_holds(cur[q], a) by {
                assert(clause_holds(next[q], a));
            }
        }
        if rest_holds(cur, open, a) {
            assert forall|q: int| 0 <= q < next.len() && #[trigger] open[q] implies clause_holds(next[q], a) by {
                assert(clause_holds(cur[q], a));
            }
        }
    }
    assert forall|q: int, i: int|
        0 <= q < f0.len() && 0 <= i < values.len() && open[q] && #[trigger] next[q][i] != VarState::Nothing
        implies next[q][i] == f0[q][i] by {
        assert(next[q][i] == cur[q][i]);
    }
    assert forall|q: int| 0 <= q < f0.len() implies (#[trigger] next[q]).len() == values.len() by {
        assert(cur[q].len() == values.len());
    }
}

/// An open clause without literals leaves no hope.
pub proof fn lemma_empty_clause(
    f0: Seq<Seq<VarState>>,
    cur: Seq<Seq<VarState>>,
    open: Seq<bool>,
    values: Seq<Option<bool>>,
    k: int,
)
    requires
        shaped(f0, cur, open, values),
        same_worth(f0, cur, open, values),
        forced(f0, values),
        0 <= k < cur.len(),
        open[k],
        forall|j: int| 0 <= j < cur[k].len() ==> cur[k][j] == VarState::Nothing,
    ensures
        hopeless(f0, values.len() as int),
{
    let n = values.len() as int;
    assert forall|a: Seq<bool>| a.len() == n implies !#[trigger] formula_holds(f0, a) by {
        if formula_holds(f0, a) {
            assert(agrees(values, a));
            assert(rest_holds(cur, open, a));
            assert(clause_holds(cur[k], a));
        }
    }
}

/// Where every open clause has two literals or more, all of variables
/// without a value, a Horn formula holds under the values found, with
/// every other variable false.
pub proof fn lemma_rest_is_free(
    f0: Seq<Seq<VarState>>,
    cur: Seq<Seq<VarState>>,
    open: Seq<bool>,
    values: Seq<Option<bool>>,
)
    requires
        shaped(f0, cur, open, values),
        same_worth(f0, cur, open, values),
        is_horn_form(f0),
        forall|k: int| 0 <= k < cur.len() && #[trigger] open[k] ==> literal_count(cur[k], cur[k].len() as int) >= 2,
        forall|k: int, j: int|
            0 <= k < cur.len() && 0 <= j < values.len() && open[k] && #[trigger] cur[k][j] != VarState::Nothing
                ==> values[j] is None,
    ensures
        satisfiable(f0, values.len() as int),
{
    let n = values.len() as int;
    let a = Seq::new(n as nat, |i: int| values[i] == Some(true));
    assert(agrees(values, a));
    assert forall|k: int| 0 <= k < cur.len() && #[trigger] open[k] implies clause_holds(cur[k], a) by {
        let at = lemma_two_literals(cur[k], cur[k].len() as int);
        assert(cur[k][at.0] == f0[k][at.0]);
        assert(cur[k][at.1] == f0[k][at.1]);
        assert(is_horn_clause(f0[k]));
        if cur[k][at.0] == VarState::Inverted {
            assert(values[at.0] is None);
            assert(lit_true(cur[k][at.0], a[at.0]));
        } else {
            assert(f0[k][at.0] == VarState::Direct);
            assert(cur[k][at.1] == VarState::Inverted);
            assert(values[at.1] is None);
            assert(lit_true(cur[k][at.1], a[at.1]));
        }
    }
    assert(rest_holds(cur, open, a));
    assert(formula_holds(f0, a));
}

/// The number of clauses that are still open.
pub open spec fn open_count(open: Seq<bool>) -> nat
    decreases open.len(),
{
    if open.len() == 0 {
        0
    } else {
        open_count(open.drop_last()) + if open.last() {
            1nat
        } else {
            0nat
        }
    }
}

/// Where clauses are only closed, fewer are open than before.
pub proof fn lemma_open_count_falls(before: Seq<bool>, after: Seq<bool>, k: int)
    requires
        before.len() == after.len(),
        forall|q: int| 0 <= q < after.len() && after[q] ==> before[q],
        k < 0 || (k < before.len() && before[k] && !after[k]),
    ensures
        open_count(after) <= open_count(before),
        k >= 0 ==> open_count(after) < open_count(before),
    decreases before.len(),
{
    if before.len() > 0 {
        let last = before.len() - 1;
        if k == last {
            lemma_open_count_falls(before.drop_last(), after.drop_last(), -1);
        } else {
            lemma_open_count_falls(before.drop_last(), after.drop_last(), k);
        }
    }
}

/// Some literal of the clause is true under the values found.
pub open spec fn served(c: Seq<VarState>, values: Seq<Option<bool>>) -> bool {
    exists|x: int|
        0 <= x < c.len() && x < values.len() && (#[trigger] values[x] matches Some(b) && lit_true(c[x], b))
}

/// What holds of an open clause after the values found were applied to it:
/// its literals are of variables without a value, it has a literal left,
/// and none of the literals that it had was true.
pub open spec fn settled(start: Seq<VarState>, now: Seq<VarState>, values: Seq<Option<bool>>) -> bool {
    &&& forall|j: int| 0 <= j < now.len() && #[trigger] now[j] != VarState::Nothing ==> values[j] is None
    &&& literal_count(now, now.len() as int) > 0
    &&& !served(start, values)
}

/// Tells whether some assignment may satisfy the formula, by unit
/// propagation: as long as some clause has a single literal, the variables
/// of such clauses get the values that these literals ask for, the clauses
/// that hold under the values found are closed, and the literals that are
/// false are struck out. A clash of two values or an open clause without
/// literals ends the search with `false`; where no clause with a single
/// literal is left, it ends with `true`. For a Horn formula the answer is
/// exact.
#[verifier::loop_isolation(false)]
pub fn has_resolutions(horn_form: Vec<Vec<VarState>>) -> (passes: bool)
    requires
        horn_form@.len() >= 1,
        forall|k: int| 0 <= k < horn_form@.len() ==> (#[trigger] horn_form@[k])@.len() == horn_form@[0]@.len(),
    ensures
        !passes ==> !satisfiable(grid(horn_form@), horn_form@[0]@.len() as int),
        passes && is_horn_form(grid(horn_form@)) ==> satisfiable(grid(horn_form@), horn_form@[0]@.len() as int),
{
    let ghost f0 = grid(horn_form@);
    let clauses_n: usize = horn_form.len();
    let var_n: usize = horn_form[0].len();
    let mut clauses = horn_form;
    let mut open: Vec<bool> = filled(true, clauses_n);
    let mut var_values: Vec<Option<bool>> = filled(None, var_n);
    proof {
        assert(grid(clauses@) =~= f0);
        assert forall|a: Seq<bool>| a.len() == var_n && #[trigger] agrees(var_values@, a) implies (formula_holds(
            f0,
            a,
        ) <==> rest_holds(f0, open@, a)) by {
            if rest_holds(f0, open@, a) {
                assert forall|k: int| 0 <= k < f0.len() implies clause_holds(#[trigger] f0[k], a) by {
                    assert(open@[k]);
                }
            }
        }
        assert forall|k: int| 0 <= k < f0.len() implies (#[trigger] f0[k]).len() == var_n by {
            assert(f0[k] == horn_form@[k]@);
        }
    }
    loop
        invariant
            clauses@.len() == clauses_n,
            open@.len() == clauses_n,
            var_values@.len() == var_n,
            shaped(f0, grid(clauses@), open@, var_values@),
            same_worth(f0, grid(clauses@), open@, var_values@),
            forced(f0, var_values@),
            forall|k: int, j: int|
                0 <= k < clauses_n && 0 <= j < var_n && open@[k] && #[trigger] grid(clauses@)[k][j]
                    != VarState::Nothing ==> var_values@[j] is None,
            is_horn_form(f0) ==> forall|k: int|
                0 <= k < clauses_n && #[trigger] open@[k] ==> literal_count(grid(clauses@)[k], var_n as int) > 0,
        decreases open_count(open@),
    {
        let ghost cur = grid(clauses@);
        let ghost open1 = open@;
        let mut lonely: Vec<usize> = Vec::new();
        let mut k: usize = 0;
        while k < clauses_n
            invariant
                k <= clauses_n,
                forall|t: int|
                    0 <= t < lonely@.len() ==> (#[trigger] lonely@[t]) < clauses_n && open1[lonely@[t] as int]
                        && literal_count(cur[lonely@[t] as int], var_n as int) == 1,
                forall|q: int|
                    0 <= q < k && #[trigger] open1[q] && literal_count(cur[q], var_n as int) == 1 ==> lonely@.len()
                        > 0,
            decreases clauses_n - k,
        {
            if open[k] {
                assert(cur[k as int] == clauses@[k as int]@);
                let count = count_literals(&clauses[k]);
                if count == 1 {
                    lonely.push(k);
                }
            }
            k += 1;
        }
        if lonely.len() == 0 {
            proof {
                if is_horn_form(f0) {
                    lemma_rest_is_free(f0, cur, open1, var_values@);
                }
            }
            return true;
        }
        let ghost values0 = var_values@;
        let lonely_n: usize = lonely.len();
        let mut t: usize = 0;
        while t < lonely_n
            invariant
                t <= lonely_n,
                var_values@.len() == var_n,
                shaped(f0, cur, open1, var_values@),
                same_worth(f0, cur, open1, var_values@),
                forced(f0, var_values@),
                forall|i: int| 0 <= i < var_n && #[trigger] var_values@[i] is None ==> values0[i] is None,
                forall|i: int| 0 <= i < var_n && #[trigger] values0[i] is Some ==> var_values@[i] == values0[i],
                forall|s: int| 0 <= s < t ==> served(cur[#[trigger] lonely@[s] as int], var_values@),
            decreases lonely_n - t,
        {
            let k: usize = lonely[t];
            assert(cur[k as int] == clauses@[k as int]@);
            let var_index = first_literal(&clauses[k]);
            let required = clauses[k][var_index] == VarState::Direct;
            let ghost before = var_values@;
            proof {
                lemma_unit_forces(f0, cur, open1, before, k as int, var_index as int);
            }
            match var_values[var_index] {
                Some(v) => {
                    if v != required {
                        return false;
                    }
                },
                None => {
                    var_values[var_index] = Some(required);
                },
            }
            proof {
                assert(var_values@[var_index as int] == Some(required));
                assert(lit_true(cur[k as int][var_index as int], required));
                assert(served(cur[k as int], var_values@));
                assert forall|s: int| 0 <= s < t + 1 implies served(cur[#[trigger] lonely@[s] as int], var_values@) by {
                    if s < t {
                        let c = cur[lonely@[s] as int];
                        let x = choose|x: int|
                            0 <= x < c.len() && x < before.len() && (#[trigger] before[x] matches Some(b) && lit_true(
                                c[x],
                                b,
                            ));
                        assert(var_values@[x] == before[x]);
                    }
                }
            }
            t += 1;
        }
        let mut i: usize = 0;
        while i < clauses_n
            invariant
                i <= clauses_n,
                clauses@.len() == clauses_n,
                open@.len() == clauses_n,
                shaped(f0, grid(clauses@), open@, var_values@),
                same_worth(f0, grid(clauses@), open@, var_values@),
                forall|q: int| i <= q < clauses_n ==> #[trigger] grid(clauses@)[q] == cur[q],
                forall|q: int| i <= q < clauses_n ==> #[trigger] open@[q] == open1[q],
                forall|q: int| 0 <= q < clauses_n && #[trigger] open@[q] ==> open1[q],
                forall|q: int|
                    0 <= q < i && #[trigger] open@[q] ==> settled(cur[q], grid(clauses@)[q], var_values@),
            decreases clauses_n - i,
        {
            if open[i] {
                let mut var_index: usize = 0;
                let ghost rows0 = grid(clauses@);
                let ghost open2 = open@;
                while var_index < var_n && open[i]
                    invariant
                        var_index <= var_n,
                        clauses@.len() == clauses_n,
                        open@.len() == clauses_n,
                        shaped(f0, grid(clauses@), open@, var_values@),
                        same_worth(f0, grid(clauses@), open@, var_values@),
                        forall|q: int| 0 <= q < clauses_n && q != i ==> #[trigger] grid(clauses@)[q] == rows0[q],
                        forall|q: int| 0 <= q < clauses_n && q != i ==> #[trigger] open@[q] == open2[q],
                        open@[i as int] ==> forall|j: int|
                            0 <= j < var_index && #[trigger] grid(clauses@)[i as int][j] != VarState::Nothing
                                ==> var_values@[j] is None,
                        open@[i as int] ==> forall|j: int|
                            var_index <= j < var_n ==> #[trigger] grid(clauses@)[i as int][j] == cur[i as int][j],
                        open@[i as int] ==> forall|j: int|
                            0 <= j < var_index ==> !(#[trigger] var_values@[j] matches Some(b) && lit_true(
                                cur[i as int][j],
                                b,
                            )),
                    decreases var_n - var_index,
                {
                    let ghost rows = grid(clauses@);
                    let ghost flags = open@;
                    assert(rows[i as int] == clauses@[i as int]@);
                    let var_state = clauses[i][var_index];
                    if var_state != VarState::Nothing {
                        match var_values[var_index] {
                            Some(value) => {
                                if (value && var_state == VarState::Direct) || (!value && var_state
                                    == VarState::Inverted) {
                                    proof {
                                        lemma_close_clause(f0, rows, flags, var_values@, i as int, var_index as int);
                                    }
                                    open[i] = false;
                                } else {
                                    proof {
                                        lemma_strike_literal(f0, rows, flags, var_values@, i as int, var_index as int);
                                    }
                                    clauses[i][var_index] = VarState::Nothing;
                                    proof {
                                        assert(grid(clauses@) =~= rows.update(
                                            i as int,
                                            rows[i as int].update(var_index as int, VarState::Nothing),
                                        ));
                                    }
                                }
                            },
                            None => {},
                        }
                    }
                    var_index += 1;
                }
                proof {
                    assert forall|q: int| i + 1 <= q < clauses_n implies #[trigger] grid(clauses@)[q] == cur[q] by {
                        assert(rows0[q] == cur[q]);
                    }
                    assert forall|q: int| i + 1 <= q < clauses_n implies #[trigger] open@[q] == open1[q] by {
                        assert(open2[q] == open1[q]);
                    }
                    assert forall|q: int| 0 <= q < clauses_n && #[trigger] open@[q] implies open1[q] by {
                        if q != i {
                            assert(open2[q]);
                        } else {
                            assert(open2[i as int] == open1[i as int]);
                        }
                    }
                    assert forall|q: int| 0 <= q < i && #[trigger] open@[q] implies settled(
                        cur[q],
                        grid(clauses@)[q],
                        var_values@,
                    ) by {
                        assert(open2[q]);
                        assert(grid(clauses@)[q] == rows0[q]);
                    }
                }
                if open[i] {
                    assert(grid(clauses@)[i as int] == clauses@[i as int]@);
                    let left = count_literals(&clauses[i]);
                    if left == 0 {
                        proof {
                            lemma_literal_count(grid(clauses@)[i as int], var_n as int);
                            // the values found are still forced
                            lemma_empty_clause(f0, grid(clauses@), open@, var_values@, i as int);
                        }
                        return false;
                    }
                    proof {
                        assert(!served(cur[i as int], var_values@));
                    }
                }
            }
            i += 1;
        }
        proof {
            let first = lonely@[0] as int;
            assert(served(cur[first], var_values@));
            assert(!open@[first]);
            lemma_open_count_falls(open1, open@, first);
            assert forall|k: int|
                0 <= k < clauses_n && #[trigger] open@[k] implies literal_count(grid(clauses@)[k], var_n as int)
                > 0 by {
                assert(settled(cur[k], grid(clauses@)[k], var_values@));
            }
            assert forall|k: int, j: int|
                0 <= k < clauses_n && 0 <= j < var_n && open@[k] && #[trigger] grid(clauses@)[k][j]
                    != VarState::Nothing implies var_values@[j] is None by {
                assert(settled(cur[k], grid(clauses@)[k], var_values@));
            }
        }
    }
}

} // verus!
