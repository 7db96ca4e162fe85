//! Grouped aggregation. Opening drains the child into one group per distinct
//! group key, each holding one state per aggregate; the operator then yields
//! one tuple per group: the key's fields, then each aggregate's result.

use vstd::prelude::*;
use crate::tuple::{Field, FieldView, Tuple, Expr, TableSchema, eval_spec, canon, field_lt, add_spec, field_less, add_fields, fields_view};
use crate::op_iterator::{OpIterator, ExecError};

verus! {

/// An aggregate operation.
#[derive(Clone, Copy, Debug, PartialEq, Eq, Structural)]
pub enum AggOp {
    Min,
    Max,
    Sum,
    Count,
    Avg,
}

/// The running state of one aggregate over a group's values.
#[derive(Debug)]
pub enum AggState {
    Min(Field),
    Max(Field),
    Sum(Field),
    Count(i64),
    /// Count and integer sum.
    Avg(i64, i64),
}

pub enum AggStateView {
    Min(FieldView),
    Max(FieldView),
    Sum(FieldView),
    Count(i64),
    Avg(i64, i64),
}

impl View for AggState {
    type V = AggStateView;

    open spec fn view(&self) -> AggStateView {
        match self {
            AggState::Min(f) => AggStateView::Min(f@),
            AggState::Max(f) => AggStateView::Max(f@),
            AggState::Sum(f) => AggStateView::Sum(f@),
            AggState::Count(c) => AggStateView::Count(*c),
            AggState::Avg(c, s) => AggStateView::Avg(*c, *s),
        }
    }
}

/// The state of `op` after its first value `v`; none when `v` cannot start it.
pub open spec fn init_state(op: AggOp, v: FieldView) -> Option<AggStateView> {
    match op {
        AggOp::Min => Some(AggStateView::Min(v)),
        AggOp::Max => Some(AggStateView::Max(v)),
        AggOp::Sum => Some(AggStateView::Sum(v)),
        AggOp::Count => Some(AggStateView::Count(1)),
        AggOp::Avg => match v {
            FieldView::Int(x) => Some(AggStateView::Avg(1, x)),
            _ => None,
        },
    }
}

/// The state after one more value `v`; none when `v` cannot be added or a
/// count or sum leaves the `i64` range.
pub open spec fn step_state(s: AggStateView, v: FieldView) -> Option<AggStateView> {
    match s {
        AggStateView::Min(m) => Some(AggStateView::Min(if field_lt(v, m) { v } else { m })),
        AggStateView::Max(m) => Some(AggStateView::Max(if field_lt(m, v) { v } else { m })),
        AggStateView::Sum(t) => match add_spec(t, v) {
            Some(u) => Some(AggStateView::Sum(u)),
            None => None,
        },
        AggStateView::Count(c) => if c < i64::MAX {
            Some(AggStateView::Count((c + 1) as i64))
        } else {
            None
        },
        AggStateView::Avg(c, t) => match v {
            FieldView::Int(x) => if c < i64::MAX && i64::MIN <= t + x <= i64::MAX {
                Some(AggStateView::Avg((c + 1) as i64, (t + x) as i64))
            } else {
                None
            },
            _ => None,
        },
    }
}

/// The state of `op` over the values `vals`, taken in order.
pub open spec fn fold_bag(op: AggOp, vals: Seq<FieldView>) -> Option<AggStateView>
    decreases vals.len(),
{
    if vals.len() == 0 {
        None
    } else if vals.len() == 1 {
        init_state(op, vals[0])
    } else {
        match fold_bag(op, vals.drop_last()) {
            Some(s) => step_state(s, vals.last()),
            None => None,
        }
    }
}

/// The field an aggregate state yields: the value kept, the count, or the
/// average as the fraction sum / count.
pub open spec fn result_of(s: AggStateView) -> FieldView {
    match s {
        AggStateView::Min(v) => v,
        AggStateView::Max(v) => v,
        AggStateView::Sum(v) => v,
        AggStateView::Count(c) => FieldView::Int(c),
        AggStateView::Avg(c, t) => FieldView::Decimal(t, c),
    }
}

/// The group key of a row: the values of the group-by expressions, in
/// canonical form, so that decimals of equal value fall in one group.
pub open spec fn group_key(gb: Seq<Expr>, row: Seq<FieldView>) -> Seq<FieldView> {
    gb.map_values(|e: Expr| canon(eval_spec(e, row)))
}

/// The distinct group keys of `rows`, in order of first appearance.
pub open spec fn distinct_keys(gb: Seq<Expr>, rows: Seq<Seq<FieldView>>) -> Seq<Seq<FieldView>>
    decreases rows.len(),
{
    if rows.len() == 0 {
        Seq::empty()
    } else {
        let prev = distinct_keys(gb, rows.drop_last());
        let k = group_key(gb, rows.last());
        if prev.contains(k) {
            prev
        } else {
            prev.push(k)
        }
    }
}

/// The values of `e` on the rows of `rows` whose group key is `k`, in order.
pub open spec fn group_values(gb: Seq<Expr>, e: Expr, rows: Seq<Seq<FieldView>>, k: Seq<FieldView>) -> Seq<FieldView>
    decreases rows.len(),
{
    if rows.len() == 0 {
        Seq::empty()
    } else {
        let prev = group_values(gb, e, rows.drop_last(), k);
        if group_key(gb, rows.last()) == k {
            prev.push(eval_spec(e, rows.last()))
        } else {
            prev
        }
    }
}

/// Every aggregate of group `k` has a state.
pub open spec fn group_ok(gb: Seq<Expr>, aggs: Seq<Expr>, ops: Seq<AggOp>, rows: Seq<Seq<FieldView>>, k: Seq<FieldView>) -> bool {
    forall|j: int| 0 <= j < aggs.len() ==> (#[trigger] fold_bag(ops[j], group_values(gb, aggs[j], rows, k))) is Some
}

pub open spec fn group_states(gb: Seq<Expr>, aggs: Seq<Expr>, ops: Seq<AggOp>, rows: Seq<Seq<FieldView>>, k: Seq<FieldView>) -> Seq<AggStateView> {
    Seq::new(aggs.len(), |j: int| fold_bag(ops[j], group_values(gb, aggs[j], rows, k))->0)
}

/// Aggregation over `rows` succeeds: every aggregate of every group has a state.
pub open spec fn aggregate_ok(gb: Seq<Expr>, aggs: Seq<Expr>, ops: Seq<AggOp>, rows: Seq<Seq<FieldView>>) -> bool {
    forall|g: int| 0 <= g < distinct_keys(gb, rows).len() ==> group_ok(gb, aggs, ops, rows, #[trigger] distinct_keys(gb, rows)[g])
}

/// The groups of `rows`: each distinct key with its aggregate states.
pub open spec fn groups_of(gb: Seq<Expr>, aggs: Seq<Expr>, ops: Seq<AggOp>, rows: Seq<Seq<FieldView>>) -> Seq<(Seq<FieldView>, Seq<AggStateView>)> {
    distinct_keys(gb, rows).map_values(|k: Seq<FieldView>| (k, group_states(gb, aggs, ops, rows, k)))
}

/// The tuple yielded for group `k`: its key, then each aggregate's result.
pub open spec fn output_row(k: Seq<FieldView>, states: Seq<AggStateView>) -> Seq<FieldView> {
    k + states.map_values(|s: AggStateView| result_of(s))
}

/// What the aggregate yields over `rows`: one tuple per distinct group key, in
/// order of first appearance; nothing when the aggregation fails.
pub open spec fn aggregate_rows(gb: Seq<Expr>, aggs: Seq<Expr>, ops: Seq<AggOp>, rows: Seq<Seq<FieldView>>) -> Seq<Seq<FieldView>> {
    if aggregate_ok(gb, aggs, ops, rows) {
        groups_of(gb, aggs, ops, rows).map_values(|g: (Seq<FieldView>, Seq<AggStateView>)| output_row(g.0, g.1))
    } else {
        Seq::empty()
    }
}

/// What merging one row does to a list of groups: the row's values join the
/// group of its key, or start a new group at the end.
pub open spec fn merge_spec(
    gb: Seq<Expr>,
    aggs: Seq<Expr>,
    ops: Seq<AggOp>,
    groups: Seq<(Seq<FieldView>, Seq<AggStateView>)>,
    row: Seq<FieldView>,
) -> Option<Seq<(Seq<FieldView>, Seq<AggStateView>)>> {
    let k = group_key(gb, row);
    if exists|g: int| 0 <= g < groups.len() && (#[trigger] groups[g]).0 == k {
        let g = choose|g: int| 0 <= g < groups.len() && (#[trigger] groups[g]).0 == k;
        if forall|j: int| 0 <= j < aggs.len() ==> (#[trigger] step_state(groups[g].1[j], eval_spec(aggs[j], row))) is Some {
            Some(groups.update(g, (k, Seq::new(aggs.len(), |j: int| step_state(groups[g].1[j], eval_spec(aggs[j], row))->0))))
        } else {
            None
        }
    } else {
        if forall|j: int| 0 <= j < aggs.len() ==> (#[trigger] init_state(ops[j], eval_spec(aggs[j], row))) is Some {
            Some(groups.push((k, Seq::new(aggs.len(), |j: int| init_state(ops[j], eval_spec(aggs[j], row))->0))))
        } else {
            None
        }
    }
}

proof fn lemma_keys_values(gb: Seq<Expr>, e: Expr, rows: Seq<Seq<FieldView>>, k: Seq<FieldView>)
    ensures
        distinct_keys(gb, rows).contains(k) <==> group_values(gb, e, rows, k).len() > 0,
    decreases rows.len(),
{
    if rows.len() > 0 {
        lemma_keys_values(gb, e, rows.drop_last(), k);
        let prev = distinct_keys(gb, rows.drop_last());
        let kl = group_key(gb, rows.last());
        if !prev.contains(kl) {
            if prev.push(kl).contains(k) && kl != k {
                let i = choose|i: int| 0 <= i < prev.push(kl).len() && prev.push(kl)[i] == k;
                assert(prev[i] == k);
            }
            if prev.contains(k) {
                let i = choose|i: int| 0 <= i < prev.len() && prev[i] == k;
                assert(prev.push(kl)[i] == k);
            }
            if kl == k {
                assert(prev.push(kl)[prev.len() as int] == k);
            }
        }
    }
}

proof fn lemma_keys_distinct(gb: Seq<Expr>, rows: Seq<Seq<FieldView>>)
    ensures
        distinct_keys(gb, rows).no_duplicates(),
    decreases rows.len(),
{
    if rows.len() > 0 {
        lemma_keys_distinct(gb, rows.drop_last());
        let prev = distinct_keys(gb, rows.drop_last());
        let kl = group_key(gb, rows.last());
        if !prev.contains(kl) {
            let ks = prev.push(kl);
            assert forall|i: int, j: int| 0 <= i < ks.len() && 0 <= j < ks.len() && i != j implies ks[i] != ks[j] by {
                if i == prev.len() && j < prev.len() {
                    assert(prev[j] == ks[j]);
                } else if j == prev.len() && i < prev.len() {
                    assert(prev[i] == ks[i]);
                }
            }
        }
    }
}

/// A state that has failed stays failed as values are added.
proof fn lemma_failure_sticks(gb: Seq<Expr>, aggs: Seq<Expr>, ops: Seq<AggOp>, rows: Seq<Seq<FieldView>>, m: int, k: Seq<FieldView>, j: int)
    requires
        0 <= m <= rows.len(),
        0 <= j < aggs.len(),
        ops.len() == aggs.len(),
        group_values(gb, aggs[j], rows.take(m), k).len() > 0,
        fold_bag(ops[j], group_values(gb, aggs[j], rows.take(m), k)) is None,
    ensures
        fold_bag(ops[j], group_values(gb, aggs[j], rows, k)) is None,
    decreases rows.len() - m,
{
    if m < rows.len() {
        let r2 = rows.take(m + 1);
        assert(r2.drop_last() =~= rows.take(m));
        let vals = group_values(gb, aggs[j], rows.take(m), k);
        if group_key(gb, r2.last()) == k {
            assert(group_values(gb, aggs[j], r2, k) == vals.push(eval_spec(aggs[j], r2.last())));
            assert(vals.push(eval_spec(aggs[j], r2.last())).drop_last() =~= vals);
        }
        lemma_failure_sticks(gb, aggs, ops, rows, m + 1, k, j);
    } else {
        assert(rows.take(m) =~= rows);
    }
}

/// Merging a row into the groups of `rows` gives the groups of `rows` with the
/// row appended; a failed aggregation stays failed.
proof fn lemma_merge_step(gb: Seq<Expr>, aggs: Seq<Expr>, ops: Seq<AggOp>, rows: Seq<Seq<FieldView>>, row: Seq<FieldView>)
    requires
        ops.len() == aggs.len(),
    ensures
        aggregate_ok(gb, aggs, ops, rows) ==> match merge_spec(gb, aggs, ops, groups_of(gb, aggs, ops, rows), row) {
            Some(g2) => aggregate_ok(gb, aggs, ops, rows.push(row)) && g2 == groups_of(gb, aggs, ops, rows.push(row)),
            None => !aggregate_ok(gb, aggs, ops, rows.push(row)),
        },
        !aggregate_ok(gb, aggs, ops, rows) ==> !aggregate_ok(gb, aggs, ops, rows.push(row)),
{
    let r2 = rows.push(row);
    assert(r2.drop_last() =~= rows);
    assert(r2.last() == row);
    let ks = distinct_keys(gb, rows);
    let ks2 = distinct_keys(gb, r2);
    let k = group_key(gb, row);
    let gs = groups_of(gb, aggs, ops, rows);
    lemma_keys_distinct(gb, rows);
    lemma_keys_distinct(gb, r2);
    assert forall|k2: Seq<FieldView>| ks.contains(k2) implies ks2.contains(k2) by {
        let i = choose|i: int| 0 <= i < ks.len() && ks[i] == k2;
        if !ks.contains(k) {
            assert(ks2[i] == k2);
        }
    }
    // a group that failed before still fails
    if !aggregate_ok(gb, aggs, ops, rows) {
        let g = choose|g: int| 0 <= g < ks.len() && !group_ok(gb, aggs, ops, rows, #[trigger] ks[g]);
        let k0 = ks[g];
        let j = choose|j: int| 0 <= j < aggs.len() && !(#[trigger] fold_bag(ops[j], group_values(gb, aggs[j], rows, k0)) is Some);
        lemma_keys_values(gb, aggs[j], rows, k0);
        assert(rows.push(row).take(rows.len() as int) =~= rows);
        lemma_failure_sticks(gb, aggs, ops, r2, rows.len() as int, k0, j);
        assert(ks2.contains(k0));
        let g2 = choose|g2: int| 0 <= g2 < ks2.len() && ks2[g2] == k0;
        assert(!group_ok(gb, aggs, ops, r2, ks2[g2]));
    }
    if aggregate_ok(gb, aggs, ops, rows) {
        // values of other keys are unchanged; those of `k` gain the row's value
        assert forall|j: int, k2: Seq<FieldView>| 0 <= j < aggs.len() && k2 != k implies #[trigger] group_values(gb, aggs[j], r2, k2)
            == group_values(gb, aggs[j], rows, k2) by {
        }
        if exists|g: int| 0 <= g < gs.len() && (#[trigger] gs[g]).0 == k {
            let g = choose|g: int| 0 <= g < gs.len() && (#[trigger] gs[g]).0 == k;
            assert(ks[g] == k);
            assert(ks.contains(k));
            assert(ks2 == ks);
            assert forall|j: int| 0 <= j < aggs.len() implies #[trigger] fold_bag(ops[j], group_values(gb, aggs[j], r2, k))
                == step_state(gs[g].1[j], eval_spec(aggs[j], row)) by {
                lemma_keys_values(gb, aggs[j], rows, k);
                let vals = group_values(gb, aggs[j], rows, k);
                assert(group_values(gb, aggs[j], r2, k) == vals.push(eval_spec(aggs[j], row)));
                assert(vals.push(eval_spec(aggs[j], row)).drop_last() =~= vals);
                assert(group_ok(gb, aggs, ops, rows, ks[g]));
            }
            match merge_spec(gb, aggs, ops, gs, row) {
                Some(g2) => {
                    let gs2 = groups_of(gb, aggs, ops, r2);
                    assert forall|h: int| 0 <= h < ks2.len() implies group_ok(gb, aggs, ops, r2, #[trigger] ks2[h]) by {
                        if ks2[h] != k {
                            assert(group_ok(gb, aggs, ops, rows, ks[h]));
                            assert forall|j: int| 0 <= j < aggs.len() implies (#[trigger] fold_bag(ops[j], group_values(gb, aggs[j], r2, ks2[h]))) is Some by {
                                assert(group_values(gb, aggs[j], r2, ks2[h]) == group_values(gb, aggs[j], rows, ks2[h]));
                            }
                        }
                    }
                    assert(g2.len() == gs2.len());
                    assert forall|h: int| 0 <= h < g2.len() implies g2[h] == gs2[h] by {
                        if h == g {
                            assert(g2[h].1 =~= gs2[h].1);
                        } else {
                            assert(ks[h] != k);
                            assert(gs2[h].1 =~= gs[h].1);
                        }
                    }
                    assert(g2 =~= gs2);
                },
                None => {
                    let j = choose|j: int| 0 <= j < aggs.len() && !(#[trigger] step_state(gs[g].1[j], eval_spec(aggs[j], row)) is Some);
                    assert(!(fold_bag(ops[j], group_values(gb, aggs[j], r2, k)) is Some));
                    assert(!group_ok(gb, aggs, ops, r2, ks2[g]));
                },
            }
        } else {
            if ks.contains(k) {
                let g = choose|g: int| 0 <= g < ks.len() && ks[g] == k;
                assert(gs[g].0 == k);
            }
            assert(ks2 == ks.push(k));
            assert forall|j: int| 0 <= j < aggs.len() implies #[trigger] fold_bag(ops[j], group_values(gb, aggs[j], r2, k))
                == init_state(ops[j], eval_spec(aggs[j], row)) by {
                lemma_keys_values(gb, aggs[j], rows, k);
                assert(group_values(gb, aggs[j], r2, k) =~= seq![eval_spec(aggs[j], row)]);
            }
            match merge_spec(gb, aggs, ops, gs, row) {
                Some(g2) => {
                    let gs2 = groups_of(gb, aggs, ops, r2);
                    assert forall|h: int| 0 <= h < ks2.len() implies group_ok(gb, aggs, ops, r2, #[trigger] ks2[h]) by {
                        if h < ks.len() {
                            assert(ks2[h] == ks[h]);
                            assert(group_ok(gb, aggs, ops, rows, ks[h]));
                            assert(ks[h] != k);
                            assert forall|j: int| 0 <= j < aggs.len() implies (#[trigger] fold_bag(ops[j], group_values(gb, aggs[j], r2, ks2[h]))) is Some by {
                                assert(group_values(gb, aggs[j], r2, ks2[h]) == group_values(gb, aggs[j], rows, ks2[h]));
                            }
                        }
                    }
                    assert(g2.len() == gs2.len());
                    assert forall|h: int| 0 <= h < g2.len() implies g2[h] == gs2[h] by {
                        if h == ks.len() {
                            assert(g2[h].1 =~= gs2[h].1);
                        } else {
                            assert(ks2[h] == ks[h]);
                            assert(ks[h] != k);
                            assert(gs2[h].1 =~= gs[h].1);
                        }
                    }
                    assert(g2 =~= gs2);
                },
                None => {
                    let j = choose|j: int| 0 <= j < aggs.len() && !(#[trigger] init_state(ops[j], eval_spec(aggs[j], row)) is Some);
                    assert(!(fold_bag(ops[j], group_values(gb, aggs[j], r2, k)) is Some));
                    assert(ks2[ks.len() as int] == k);
                    assert(!group_ok(gb, aggs, ops, r2, ks2[ks.len() as int]));
                },
            }
        }
    }
}


/// Once aggregation has failed on a prefix of the rows, it fails on all of them.
proof fn lemma_not_ok_sticks(gb: Seq<Expr>, aggs: Seq<Expr>, ops: Seq<AggOp>, rows: Seq<Seq<FieldView>>, m: int)
    requires
        ops.len() == aggs.len(),
        0 <= m <= rows.len(),
        !aggregate_ok(gb, aggs, ops, rows.take(m)),
    ensures
        !aggregate_ok(gb, aggs, ops, rows),
    decreases rows.len() - m,
{
    if m < rows.len() {
        assert(rows.take(m + 1) =~= rows.take(m).push(rows[m]));
        lemma_merge_step(gb, aggs, ops, rows.take(m), rows[m]);
        lemma_not_ok_sticks(gb, aggs, ops, rows, m + 1);
    } else {
        assert(rows.take(m) =~= rows);
    }
}

/// One group: its key and one state per aggregate.
#[derive(Debug)]
pub struct Group {
    key: Vec<Field>,
    states: Vec<AggState>,
}

pub open spec fn states_view(ss: Seq<AggState>) -> Seq<AggStateView> {
    ss.map_values(|s: AggState| s@)
}

impl Group {
    pub closed spec fn view(self) -> (Seq<FieldView>, Seq<AggStateView>) {
        (fields_view(self.key@), states_view(self.states@))
    }
}

pub open spec fn groups_view(gs: Seq<Group>) -> Seq<(Seq<FieldView>, Seq<AggStateView>)> {
    gs.map_values(|g: Group| g.view())
}

/// Group keys are distinct and each group has `n` states.
pub open spec fn groups_wf(gs: Seq<(Seq<FieldView>, Seq<AggStateView>)>, n: int) -> bool {
    &&& forall|g: int| 0 <= g < gs.len() ==> (#[trigger] gs[g]).1.len() == n
    &&& forall|g: int, h: int| 0 <= g < gs.len() && 0 <= h < gs.len() && g != h ==> (#[trigger] gs[g]).0 != (#[trigger] gs[h]).0
}

proof fn lemma_groups_of_wf(gb: Seq<Expr>, aggs: Seq<Expr>, ops: Seq<AggOp>, rows: Seq<Seq<FieldView>>)
    ensures
        groups_wf(groups_of(gb, aggs, ops, rows), aggs.len() as int),
{
    lemma_keys_distinct(gb, rows);
}

fn init_agg(op: AggOp, v: Field) -> (r: Option<AggState>)
    ensures
        r matches Some(s) ==> init_state(op, v@) == Some(s@),
        r is None ==> init_state(op, v@) is None,
{
    match op {
        AggOp::Min => Some(AggState::Min(v)),
        AggOp::Max => Some(AggState::Max(v)),
        AggOp::Sum => Some(AggState::Sum(v)),
        AggOp::Count => Some(AggState::Count(1)),
        AggOp::Avg => match v {
            Field::Int(x) => Some(AggState::Avg(1, x)),
            _ => None,
        },
    }
}

fn step_agg(s: &AggState, v: Field) -> (r: Option<AggState>)
    ensures
        r matches Some(t) ==> step_state(s@, v@) == Some(t@),
        r is None ==> step_state(s@, v@) is None,
{
    match s {
        AggState::Min(m) => if field_less(&v, m) {
            Some(AggState::Min(v))
        } else {
            Some(AggState::Min(m.copy_field()))
        },
        AggState::Max(m) => if field_less(m, &v) {
            Some(AggState::Max(v))
        } else {
            Some(AggState::Max(m.copy_field()))
        },
        AggState::Sum(t) => match add_fields(t, &v) {
            Some(u) => Some(AggState::Sum(u)),
            None => None,
        },
        AggState::Count(c) => if *c < i64::MAX {
            Some(AggState::Count(*c + 1))
        } else {
            None
        },
        AggState::Avg(c, t) => match v {
            Field::Int(x) => if *c < i64::MAX {
                match t.checked_add(x) {
                    Some(u) => Some(AggState::Avg(*c + 1, u)),
                    None => None,
                }
            } else {
                None
            },
            _ => None,
        },
    }
}

fn result_field(s: &AggState) -> (r: Field)
    ensures
        r@ == result_of(s@),
{
    match s {
        AggState::Min(v) => v.copy_field(),
        AggState::Max(v) => v.copy_field(),
        AggState::Sum(v) => v.copy_field(),
        AggState::Count(c) => Field::Int(*c),
        AggState::Avg(c, t) => Field::Decimal(*t, *c),
    }
}

fn keys_equal(a: &Vec<Field>, b: &Vec<Field>) -> (r: bool)
    ensures
        r == (fields_view(a@) == fields_view(b@)),
{
    if a.len() != b.len() {
        proof {
            assert(fields_view(a@).len() != fields_view(b@).len());
        }
        return false;
    }
    let mut i: usize = 0;
    while i < a.len()
        invariant
            a@.len() == b@.len(),
            i <= a@.len(),
            forall|j: int| 0 <= j < i ==> (#[trigger] a@[j])@ == b@[j]@,
        decreases a@.len() - i,
    {
        if !a[i].identical(&b[i]) {
            proof {
                assert(fields_view(a@)[i as int] != fields_view(b@)[i as int]);
            }
            return false;
        }
        i += 1;
    }
    assert(fields_view(a@) =~= fields_view(b@));
    true
}

fn eval_all(exprs: &Vec<Expr>, t: &Tuple) -> (r: Vec<Field>)
    ensures
        fields_view(r@) == exprs@.map_values(|e: Expr| canon(eval_spec(e, t@))),
{
    let mut out: Vec<Field> = Vec::new();
    let mut i: usize = 0;
    while i < exprs.len()
        invariant
            i <= exprs@.len(),
            out@.len() == i,
            forall|j: int| 0 <= j < i ==> (#[trigger] out@[j])@ == canon(eval_spec(exprs@[j], t@)),
        decreases exprs@.len() - i,
    {
        let v = exprs[i].eval(t).canonical();
        out.push(v);
        i += 1;
    }
    assert(fields_view(out@) =~= exprs@.map_values(|e: Expr| canon(eval_spec(e, t@))));
    out
}

/// Grouped aggregation over the tuples of a child operator.
pub struct Aggregate<C: OpIterator> {
    schema: TableSchema,
    groupby_expr: Vec<Expr>,
    agg_expr: Vec<Expr>,
    ops: Vec<AggOp>,
    child: C,
    will_rewind: bool,
    groups: Vec<Group>,
    open: bool,
    current_index: usize,
}

impl<C: OpIterator> Aggregate<C> {
    pub closed spec fn group_exprs(&self) -> Seq<Expr> {
        self.groupby_expr@
    }

    pub closed spec fn agg_exprs(&self) -> Seq<Expr> {
        self.agg_expr@
    }

    pub closed spec fn agg_ops(&self) -> Seq<AggOp> {
        self.ops@
    }

    pub closed spec fn child_op(&self) -> C {
        self.child
    }

    /// The groups gathered so far.
    pub closed spec fn current_groups(&self) -> Seq<(Seq<FieldView>, Seq<AggStateView>)> {
        groups_view(self.groups@)
    }

    pub closed spec fn open_flag(&self) -> bool {
        self.open
    }

    pub closed spec fn cursor(&self) -> int {
        self.current_index as int
    }

    /// An aggregate over `child`: group by the values of `groupby_expr`, and
    /// aggregate the value of `agg_expr[i]` with `ops[i]`.
    pub fn new(groupby_expr: Vec<Expr>, agg_expr: Vec<Expr>, ops: Vec<AggOp>, schema: TableSchema, child: C) -> (a: Aggregate<C>)
        requires
            ops@.len() == agg_expr@.len(),
            child.inv(),
            !child.is_open(),
        ensures
            a.inv(),
            !a.is_open(),
            a.stream() == aggregate_rows(groupby_expr@, agg_expr@, ops@, child.stream()),
            a.opens_ok() == (child.opens_ok() && aggregate_ok(groupby_expr@, agg_expr@, ops@, child.stream())),
    {
        Aggregate {
            schema,
            groupby_expr,
            agg_expr,
            ops,
            child,
            will_rewind: true,
            groups: Vec::new(),
            open: false,
            current_index: 0,
        }
    }

    /// Adds one tuple to the group of its key, creating the group if needed.
    /// Fails when an aggregate cannot take the tuple's value.
    pub fn merge_tuple_into_group(&mut self, tuple: &Tuple) -> (r: Result<(), ExecError>)
        requires
            old(self).agg_ops().len() == old(self).agg_exprs().len(),
            groups_wf(old(self).current_groups(), old(self).agg_exprs().len() as int),
        ensures
            final(self).group_exprs() == old(self).group_exprs(),
            final(self).agg_exprs() == old(self).agg_exprs(),
            final(self).agg_ops() == old(self).agg_ops(),
            final(self).child_op() == old(self).child_op(),
            final(self).open_flag() == old(self).open_flag(),
            final(self).cursor() == old(self).cursor(),
            match merge_spec(old(self).group_exprs(), old(self).agg_exprs(), old(self).agg_ops(), old(self).current_groups(), tuple@) {
                Some(g2) => r is Ok && final(self).current_groups() == g2 && groups_wf(g2, old(self).agg_exprs().len() as int),
                None => r is Err,
            },
    {
        let ghost gs = groups_view(self.groups@);
        let ghost aggs = self.agg_expr@;
        let ghost k = group_key(self.groupby_expr@, tuple@);
        let key = eval_all(&self.groupby_expr, tuple);
        assert(fields_view(key@) == k);
        let mut g: usize = 0;
        while g < self.groups.len()
            invariant
                gs == groups_view(self.groups@),
                fields_view(key@) == k,
                g <= self.groups@.len(),
                forall|h: int| 0 <= h < g ==> (#[trigger] gs[h]).0 != k,
            ensures
                g <= self.groups@.len(),
                g < self.groups@.len() ==> gs[g as int].0 == k,
                forall|h: int| 0 <= h < g ==> (#[trigger] gs[h]).0 != k,
            decreases self.groups@.len() - g,
        {
            proof {
                assert(gs[g as int] == self.groups@[g as int].view());
            }
            if keys_equal(&self.groups[g].key, &key) {
                break;
            }
            g += 1;
        }
        let found = g < self.groups.len();
        let n = self.agg_expr.len();
        let mut states: Vec<AggState> = Vec::new();
        let mut j: usize = 0;
        while j < n
            invariant
                n == aggs.len(),
                aggs == self.agg_expr@,
                self.ops@.len() == n,
                gs == groups_view(self.groups@),
                k == group_key(self.groupby_expr@, tuple@),
                groups_wf(gs, n as int),
                found ==> g < self.groups@.len() && gs[g as int].0 == k,
                !found ==> forall|h: int| 0 <= h < gs.len() ==> (#[trigger] gs[h]).0 != k,
                j <= n,
                states@.len() == j,
                forall|i: int| 0 <= i < j ==> found ==> step_state(gs[g as int].1[i], eval_spec(aggs[i], tuple@)) == Some(
                    (#[trigger] states@[i])@),
                forall|i: int| 0 <= i < j ==> !found ==> init_state(self.ops@[i], eval_spec(aggs[i], tuple@)) == Some(
                    (#[trigger] states@[i])@),
            decreases n - j,
        {
            let v = self.agg_expr[j].eval(tuple);
            let next = if found {
                proof {
                    assert(self.groups@[g as int].view() == gs[g as int]);
                    assert(gs[g as int].1.len() == n);
                }
                step_agg(&self.groups[g].states[j], v)
            } else {
                init_agg(self.ops[j], v)
            };
            match next {
                Some(s) => {
                    states.push(s);
                },
                None => {
                    proof {
                        if found {
                            lemma_merge_step_fails(self.groupby_expr@, aggs, self.ops@, gs, tuple@, g as int, j as int);
                        } else {
                            lemma_merge_init_fails(self.groupby_expr@, aggs, self.ops@, gs, tuple@, j as int);
                        }
                    }
                    return Err(ExecError::Arithmetic);
                },
            }
            j += 1;
        }
        let ghost ops = self.ops@;
        let ghost st = states_view(states@);
        let group = Group { key, states };
        proof {
            assert(group.view() == (k, st));
        }
        if found {
            self.groups.set(g, group);
            proof {
                lemma_merge_found(self.groupby_expr@, aggs, ops, gs, tuple@, g as int, st);
                assert(groups_view(self.groups@) =~= gs.update(g as int, (k, st)));
            }
        } else {
            self.groups.push(group);
            proof {
                lemma_merge_new(self.groupby_expr@, aggs, ops, gs, tuple@, st);
                assert(groups_view(self.groups@) =~= gs.push((k, st)));
            }
        }
        Ok(())
    }
}

impl<C: OpIterator> OpIterator for Aggregate<C> {
    closed spec fn stream(&self) -> Seq<Seq<FieldView>> {
        aggregate_rows(self.groupby_expr@, self.agg_expr@, self.ops@, self.child.stream())
    }

    closed spec fn position(&self) -> int {
        self.current_index as int
    }

    closed spec fn is_open(&self) -> bool {
        self.open
    }

    closed spec fn inv(&self) -> bool {
        &&& self.child.inv()
        &&& self.ops@.len() == self.agg_expr@.len()
        &&& !self.open ==> !self.child.is_open()
        &&& self.open ==> {
            &&& aggregate_ok(self.groupby_expr@, self.agg_expr@, self.ops@, self.child.stream())
            &&& groups_view(self.groups@) == groups_of(self.groupby_expr@, self.agg_expr@, self.ops@, self.child.stream())
            &&& self.current_index <= self.groups@.len()
        }
    }

    closed spec fn opens_ok(&self) -> bool {
        self.child.opens_ok() && aggregate_ok(self.groupby_expr@, self.agg_expr@, self.ops@, self.child.stream())
    }

    fn configure(&mut self, will_rewind: bool) {
        self.will_rewind = will_rewind;
        self.child.configure(false);
    }

    fn open(&mut self) -> (r: Result<(), ExecError>) {
        if self.open {
            return Ok(());
        }
        self.groups = Vec::new();
        match self.child.open() {
            Ok(()) => {},
            Err(e) => {
                return Err(e);
            },
        }
        let ghost gb = self.groupby_expr@;
        let ghost aggs = self.agg_expr@;
        let ghost ops = self.ops@;
        let ghost rows = self.child.stream();
        proof {
            assert(rows.take(0) =~= Seq::<Seq<FieldView>>::empty());
            assert(groups_view(self.groups@) =~= groups_of(gb, aggs, ops, rows.take(0)));
        }
        loop
            invariant
                self.child.inv(),
                self.child.is_open(),
                !self.open,
                self.child.stream() == rows,
                rows == old(self).child.stream(),
                !old(self).open,
                self.child.opens_ok(),
                self.child.opens_ok() == old(self).child.opens_ok(),
                gb == self.groupby_expr@,
                aggs == self.agg_expr@,
                ops == self.ops@,
                gb == old(self).groupby_expr@,
                aggs == old(self).agg_expr@,
                ops == old(self).ops@,
                ops.len() == aggs.len(),
                0 <= self.child.position() <= rows.len(),
                aggregate_ok(gb, aggs, ops, rows.take(self.child.position())),
                groups_view(self.groups@) == groups_of(gb, aggs, ops, rows.take(self.child.position())),
            ensures
                self.child.inv(),
                self.child.is_open(),
                !self.open,
                self.child.stream() == rows,
                self.child.opens_ok(),
                gb == self.groupby_expr@,
                aggs == self.agg_expr@,
                ops == self.ops@,
                aggregate_ok(gb, aggs, ops, rows),
                groups_view(self.groups@) == groups_of(gb, aggs, ops, rows),
            decreases rows.len() - self.child.position(),
        {
            let ghost pos = self.child.position();
            match self.child.next() {
                Ok(Some(t)) => {
                    proof {
                        assert(rows.take(pos + 1) =~= rows.take(pos).push(t@));
                        lemma_merge_step(gb, aggs, ops, rows.take(pos), t@);
                        lemma_groups_of_wf(gb, aggs, ops, rows.take(pos));
                    }
                    match self.merge_tuple_into_group(&t) {
                        Ok(()) => {},
                        Err(e) => {
                            proof {
                                lemma_not_ok_sticks(gb, aggs, ops, rows, pos + 1);
                            }
                            let _ = self.child.close();
                            return Err(e);
                        },
                    }
                },
                Ok(None) => {
                    proof {
                        assert(rows.take(pos) =~= rows);
                    }
                    break;
                },
                Err(e) => {
                    let _ = self.child.close();
                    return Err(e);
                },
            }
        }
        self.current_index = 0;
        self.open = true;
        Ok(())
    }

    fn next(&mut self) -> (r: Result<Option<Tuple>, ExecError>) {
        if self.current_index >= self.groups.len() {
            return Ok(None);
        }
        let ghost gs = groups_view(self.groups@);
        let i = self.current_index;
        let g = &self.groups[i];
        proof {
            lemma_groups_of_wf(self.groupby_expr@, self.agg_expr@, self.ops@, self.child.stream());
            assert(g.view() == gs[i as int]);
        }
        let mut out: Vec<Field> = Vec::new();
        let mut a: usize = 0;
        while a < g.key.len()
            invariant
                a <= g.key@.len(),
                out@.len() == a,
                forall|q: int| 0 <= q < a ==> (#[trigger] out@[q])@ == g.key@[q]@,
            decreases g.key@.len() - a,
        {
            out.push(g.key[a].copy_field());
            a += 1;
        }
        let mut b: usize = 0;
        while b < g.states.len()
            invariant
                a == g.key@.len(),
                b <= g.states@.len(),
                out@.len() == a + b,
                forall|q: int| 0 <= q < a ==> (#[trigger] out@[q])@ == g.key@[q]@,
                forall|q: int| 0 <= q < b ==> (#[trigger] out@[a + q])@ == result_of(g.states@[q]@),
            decreases g.states@.len() - b,
        {
            out.push(result_field(&g.states[b]));
            b += 1;
        }
        let t = Tuple::new(out);
        proof {
            let kv = g.view().0;
            let st = g.view().1;
            let row = output_row(kv, st);
            assert(row.len() == a + b);
            assert forall|q: int| 0 <= q < a + b implies #[trigger] fields_view(out@)[q] == row[q] by {
                if q < a {
                    assert(kv[q] == g.key@[q]@);
                } else {
                    assert(st[q - a] == g.states@[q - a]@);
                    assert(out@[a + (q - a)]@ == result_of(g.states@[q - a]@));
                }
            }
            assert(fields_view(out@) =~= row);
        }
        self.current_index = i + 1;
        Ok(Some(t))
    }

    fn close(&mut self) -> (r: Result<(), ExecError>) {
        let _ = self.child.close();
        self.open = false;
        self.groups = Vec::new();
        self.current_index = 0;
        Ok(())
    }

    fn rewind(&mut self) -> (r: Result<(), ExecError>) {
        self.current_index = 0;
        Ok(())
    }

    fn get_schema(&self) -> &TableSchema {
        &self.schema
    }
}


proof fn lemma_merge_step_fails(gb: Seq<Expr>, aggs: Seq<Expr>, ops: Seq<AggOp>, gs: Seq<(Seq<FieldView>, Seq<AggStateView>)>, row: Seq<FieldView>, g: int, j: int)
    requires
        0 <= g < gs.len(),
        gs[g].0 == group_key(gb, row),
        groups_wf(gs, aggs.len() as int),
        0 <= j < aggs.len(),
        step_state(gs[g].1[j], eval_spec(aggs[j], row)) is None,
    ensures
        merge_spec(gb, aggs, ops, gs, row) is None,
{
    let k = group_key(gb, row);
    assert(exists|h: int| 0 <= h < gs.len() && (#[trigger] gs[h]).0 == k);
    let g0 = choose|h: int| 0 <= h < gs.len() && (#[trigger] gs[h]).0 == k;
    assert(g0 == g);
    assert(!(step_state(gs[g0].1[j], eval_spec(aggs[j], row)) is Some));
}

proof fn lemma_merge_init_fails(gb: Seq<Expr>, aggs: Seq<Expr>, ops: Seq<AggOp>, gs: Seq<(Seq<FieldView>, Seq<AggStateView>)>, row: Seq<FieldView>, j: int)
    requires
        forall|h: int| 0 <= h < gs.len() ==> (#[trigger] gs[h]).0 != group_key(gb, row),
        0 <= j < aggs.len(),
        init_state(ops[j], eval_spec(aggs[j], row)) is None,
    ensures
        merge_spec(gb, aggs, ops, gs, row) is None,
{
}

proof fn lemma_merge_found(gb: Seq<Expr>, aggs: Seq<Expr>, ops: Seq<AggOp>, gs: Seq<(Seq<FieldView>, Seq<AggStateView>)>, row: Seq<FieldView>, g: int, ns: Seq<AggStateView>)
    requires
        0 <= g < gs.len(),
        gs[g].0 == group_key(gb, row),
        groups_wf(gs, aggs.len() as int),
        ns.len() == aggs.len(),
        forall|j: int| 0 <= j < aggs.len() ==> step_state(gs[g].1[j], eval_spec(aggs[j], row)) == Some(#[trigger] ns[j]),
    ensures
        merge_spec(gb, aggs, ops, gs, row) == Some(gs.update(g, (group_key(gb, row), ns))),
        groups_wf(gs.update(g, (group_key(gb, row), ns)), aggs.len() as int),
{
    let k = group_key(gb, row);
    assert(exists|h: int| 0 <= h < gs.len() && (#[trigger] gs[h]).0 == k);
    let g0 = choose|h: int| 0 <= h < gs.len() && (#[trigger] gs[h]).0 == k;
    assert(g0 == g);
    assert forall|j: int| 0 <= j < aggs.len() implies (#[trigger] step_state(gs[g0].1[j], eval_spec(aggs[j], row))) is Some by {
        assert(step_state(gs[g].1[j], eval_spec(aggs[j], row)) == Some(ns[j]));
    }
    let ns2 = Seq::new(aggs.len(), |j: int| step_state(gs[g0].1[j], eval_spec(aggs[j], row))->0);
    assert(ns2 =~= ns) by {
        assert forall|j: int| 0 <= j < aggs.len() implies ns2[j] == ns[j] by {
            assert(step_state(gs[g].1[j], eval_spec(aggs[j], row)) == Some(ns[j]));
        }
    }
    let g2 = gs.update(g, (k, ns));
    assert forall|a: int, b: int| 0 <= a < g2.len() && 0 <= b < g2.len() && a != b implies (#[trigger] g2[a]).0 != (#[trigger] g2[b]).0 by {
        assert(g2[a].0 == gs[a].0);
        assert(g2[b].0 == gs[b].0);
    }
}

proof fn lemma_merge_new(gb: Seq<Expr>, aggs: Seq<Expr>, ops: Seq<AggOp>, gs: Seq<(Seq<FieldView>, Seq<AggStateView>)>, row: Seq<FieldView>, ns: Seq<AggStateView>)
    requires
        forall|h: int| 0 <= h < gs.len() ==> (#[trigger] gs[h]).0 != group_key(gb, row),
        groups_wf(gs, aggs.len() as int),
        ns.len() == aggs.len(),
        forall|j: int| 0 <= j < aggs.len() ==> init_state(ops[j], eval_spec(aggs[j], row)) == Some(#[trigger] ns[j]),
    ensures
        merge_spec(gb, aggs, ops, gs, row) == Some(gs.push((group_key(gb, row), ns))),
        groups_wf(gs.push((group_key(gb, row), ns)), aggs.len() as int),
{
    let k = group_key(gb, row);
    assert forall|j: int| 0 <= j < aggs.len() implies (#[trigger] init_state(ops[j], eval_spec(aggs[j], row))) is Some by {
        assert(init_state(ops[j], eval_spec(aggs[j], row)) == Some(ns[j]));
    }
    let ns2 = Seq::new(aggs.len(), |j: int| init_state(ops[j], eval_spec(aggs[j], row))->0);
    assert(ns2 =~= ns) by {
        assert forall|j: int| 0 <= j < aggs.len() implies ns2[j] == ns[j] by {
            assert(init_state(ops[j], eval_spec(aggs[j], row)) == Some(ns[j]));
        }
    }
    let g2 = gs.push((k, ns));
    assert forall|a: int, b: int| 0 <= a < g2.len() && 0 <= b < g2.len() && a != b implies (#[trigger] g2[a]).0 != (#[trigger] g2[b]).0 by {
        if a < gs.len() {
            assert(g2[a].0 == gs[a].0);
        }
        if b < gs.len() {
            assert(g2[b].0 == gs[b].0);
        }
    }
}


/// Every value is an integer.
pub open spec fn all_ints(vals: Seq<FieldView>) -> bool {
    forall|i: int| 0 <= i < vals.len() ==> (#[trigger] vals[i]) is Int
}

/// The sum of the integer values.
pub open spec fn int_sum(vals: Seq<FieldView>) -> int
    decreases vals.len(),
{
    if vals.len() == 0 {
        0
    } else {
        int_sum(vals.drop_last()) + match vals.last() {
            FieldView::Int(x) => x as int,
            _ => 0,
        }
    }
}

/// Every running sum of the values fits in an `i64`.
pub open spec fn sums_fit(vals: Seq<FieldView>) -> bool {
    forall|i: int| 1 <= i <= vals.len() ==> i64::MIN <= #[trigger] int_sum(vals.take(i)) <= i64::MAX
}

proof fn lemma_prefix_facts(vals: Seq<FieldView>)
    requires
        vals.len() > 1,
    ensures
        all_ints(vals) ==> all_ints(vals.drop_last()),
        sums_fit(vals) ==> sums_fit(vals.drop_last()),
        int_sum(vals) == int_sum(vals.drop_last()) + match vals.last() {
            FieldView::Int(x) => x as int,
            _ => 0,
        },
        vals.take(vals.len() as int) == vals,
        forall|i: int| 0 <= i < vals.len() - 1 ==> #[trigger] vals.drop_last()[i] == vals[i],
{
    let prev = vals.drop_last();
    assert(vals.take(vals.len() as int) =~= vals);
    if all_ints(vals) {
        assert forall|i: int| 0 <= i < prev.len() implies (#[trigger] prev[i]) is Int by {
            assert(prev[i] == vals[i]);
        }
    }
    if sums_fit(vals) {
        assert forall|i: int| 1 <= i <= prev.len() implies i64::MIN <= #[trigger] int_sum(prev.take(i)) <= i64::MAX by {
            assert(prev.take(i) =~= vals.take(i));
        }
    }
}

proof fn lemma_single(vals: Seq<FieldView>)
    requires
        vals.len() == 1,
    ensures
        vals[0] is Int ==> all_ints(vals),
        vals[0] matches FieldView::Int(x) ==> int_sum(vals) == x,
        vals.contains(vals[0]),
        !field_lt(vals[0], vals[0]),
{
    assert(vals.drop_last() =~= Seq::<FieldView>::empty());
    assert(int_sum(vals.drop_last()) == 0);
    lemma_field_order(vals[0], vals[0], vals[0]);
    assert(vals[0] == vals[0]);
}

proof fn lemma_fold_count(vals: Seq<FieldView>)
    requires
        vals.len() > 0,
    ensures
        vals.len() <= i64::MAX ==> fold_bag(AggOp::Count, vals) == Some(AggStateView::Count(vals.len() as i64)),
        fold_bag(AggOp::Count, vals) matches Some(s) ==> s matches AggStateView::Count(c) && c == vals.len(),
    decreases vals.len(),
{
    if vals.len() > 1 {
        lemma_fold_count(vals.drop_last());
    }
}

proof fn lemma_fold_min(vals: Seq<FieldView>)
    requires
        vals.len() > 0,
    ensures
        fold_bag(AggOp::Min, vals) matches Some(AggStateView::Min(m)) && vals.contains(m) && forall|i: int|
            0 <= i < vals.len() ==> !field_lt(#[trigger] vals[i], m),
    decreases vals.len(),
{
    if vals.len() == 1 {
        lemma_single(vals);
    } else {
        let prev = vals.drop_last();
        let v = vals.last();
        lemma_fold_min(prev);
        lemma_prefix_facts(vals);
        let m = fold_bag(AggOp::Min, prev)->0->Min_0;
        let p = choose|p: int| 0 <= p < prev.len() && prev[p] == m;
        assert(vals[p] == m);
        assert(vals[vals.len() - 1] == v);
        if field_lt(v, m) {
            assert forall|i: int| 0 <= i < vals.len() implies !field_lt(#[trigger] vals[i], v) by {
                lemma_field_order(vals[i], v, m);
                if i < prev.len() {
                    assert(vals[i] == prev[i]);
                }
            }
        } else {
            assert forall|i: int| 0 <= i < vals.len() implies !field_lt(#[trigger] vals[i], m) by {
                if i < prev.len() {
                    assert(vals[i] == prev[i]);
                }
            }
        }
    }
}

proof fn lemma_fold_max(vals: Seq<FieldView>)
    requires
        vals.len() > 0,
    ensures
        fold_bag(AggOp::Max, vals) matches Some(AggStateView::Max(m)) && vals.contains(m) && forall|i: int|
            0 <= i < vals.len() ==> !field_lt(m, #[trigger] vals[i]),
    decreases vals.len(),
{
    if vals.len() == 1 {
        lemma_single(vals);
    } else {
        let prev = vals.drop_last();
        let v = vals.last();
        lemma_fold_max(prev);
        lemma_prefix_facts(vals);
        let m = fold_bag(AggOp::Max, prev)->0->Max_0;
        let p = choose|p: int| 0 <= p < prev.len() && prev[p] == m;
        assert(vals[p] == m);
        assert(vals[vals.len() - 1] == v);
        if field_lt(m, v) {
            assert forall|i: int| 0 <= i < vals.len() implies !field_lt(v, #[trigger] vals[i]) by {
                lemma_field_order(m, v, vals[i]);
                lemma_field_order(v, v, v);
                if i < prev.len() {
                    assert(vals[i] == prev[i]);
                }
            }
        } else {
            assert forall|i: int| 0 <= i < vals.len() implies !field_lt(m, #[trigger] vals[i]) by {
                if i < prev.len() {
                    assert(vals[i] == prev[i]);
                }
            }
        }
    }
}

proof fn lemma_fold_sum(vals: Seq<FieldView>)
    requires
        vals.len() > 0,
    ensures
        all_ints(vals) && sums_fit(vals) ==> fold_bag(AggOp::Sum, vals) is Some,
        fold_bag(AggOp::Sum, vals) matches Some(s) ==> s matches AggStateView::Sum(t) && ((vals.len() == 1 && t
            == vals[0]) || (all_ints(vals) && t == FieldView::Int(int_sum(vals) as i64) && i64::MIN <= int_sum(vals) <= i64::MAX)),
    decreases vals.len(),
{
    if vals.len() == 1 {
        lemma_single(vals);
    } else {
        let prev = vals.drop_last();
        let v = vals.last();
        lemma_fold_sum(prev);
        lemma_prefix_facts(vals);
        if prev.len() == 1 {
            lemma_single(prev);
        }
        if all_ints(vals) {
            assert(vals[vals.len() - 1] is Int);
            assert(prev[0] == vals[0]);
        }
        if let Some(s) = fold_bag(AggOp::Sum, vals) {
            assert forall|i: int| 0 <= i < vals.len() implies (#[trigger] vals[i]) is Int by {
                if i < prev.len() {
                    assert(vals[i] == prev[i]);
                    if prev.len() == 1 {
                        assert(prev[0] == vals[0]);
                    }
                }
            }
        }
    }
}

proof fn lemma_fold_avg(vals: Seq<FieldView>)
    requires
        vals.len() > 0,
    ensures
        all_ints(vals) && sums_fit(vals) && vals.len() <= i64::MAX ==> fold_bag(AggOp::Avg, vals) is Some,
        !all_ints(vals) ==> fold_bag(AggOp::Avg, vals) is None,
        fold_bag(AggOp::Avg, vals) matches Some(s) ==> s matches AggStateView::Avg(c, t) && all_ints(vals) && c
            == vals.len() && t == int_sum(vals),
    decreases vals.len(),
{
    if vals.len() == 1 {
        lemma_single(vals);
        if !all_ints(vals) {
            let i = choose|i: int| 0 <= i < vals.len() && !(#[trigger] vals[i] is Int);
            assert(i == 0);
        }
    } else {
        let prev = vals.drop_last();
        let v = vals.last();
        lemma_fold_avg(prev);
        lemma_prefix_facts(vals);
        assert(vals[vals.len() - 1] == v);
        if let Some(s) = fold_bag(AggOp::Avg, vals) {
            assert forall|i: int| 0 <= i < vals.len() implies (#[trigger] vals[i]) is Int by {
                if i < prev.len() {
                    assert(vals[i] == prev[i]);
                }
            }
        }
        if !all_ints(vals) {
            let i = choose|i: int| 0 <= i < vals.len() && !(#[trigger] vals[i] is Int);
            if i < prev.len() {
                assert(vals[i] == prev[i]);
            }
        }
    }
}

/// Each aggregate over a group's values is its mathematical definition over
/// that bag of values: Count is their number, Sum their sum, Min and Max a
/// value with none below (above) it, and Avg the fraction sum / count. Count,
/// Min and Max always succeed; Sum and Avg succeed on integers whose running
/// sums fit in an `i64`, and Avg fails on any other value.
pub proof fn law_aggregates_match_definitions(vals: Seq<FieldView>)
    requires
        vals.len() > 0,
    ensures
        vals.len() <= i64::MAX ==> fold_bag(AggOp::Count, vals) == Some(AggStateView::Count(vals.len() as i64)),
        fold_bag(AggOp::Min, vals) matches Some(AggStateView::Min(m)) && vals.contains(m) && forall|i: int|
            0 <= i < vals.len() ==> !field_lt(#[trigger] vals[i], m),
        fold_bag(AggOp::Max, vals) matches Some(AggStateView::Max(m)) && vals.contains(m) && forall|i: int|
            0 <= i < vals.len() ==> !field_lt(m, #[trigger] vals[i]),
        all_ints(vals) && sums_fit(vals) ==> fold_bag(AggOp::Sum, vals) == Some(
            AggStateView::Sum(FieldView::Int(int_sum(vals) as i64)),
        ),
        all_ints(vals) && sums_fit(vals) && vals.len() <= i64::MAX ==> fold_bag(AggOp::Avg, vals) == Some(
            AggStateView::Avg(vals.len() as i64, int_sum(vals) as i64),
        ),
        !all_ints(vals) ==> fold_bag(AggOp::Avg, vals) is None,
{
    lemma_fold_count(vals);
    lemma_fold_min(vals);
    lemma_fold_max(vals);
    lemma_fold_sum(vals);
    lemma_fold_avg(vals);
    if vals.len() == 1 {
        lemma_single(vals);
    }
}

/// The order on fields is transitive and irreflexive (restated for the laws above).
proof fn lemma_field_order(a: FieldView, b: FieldView, c: FieldView)
    ensures
        !field_lt(a, a),
        field_lt(a, b) && field_lt(b, c) ==> field_lt(a, c),
{
    crate::tuple::lemma_field_lt_order(a, b, c);
    crate::tuple::lemma_field_lt_order(b, b, b);
}

/// `r` is what aggregate `op` is by definition over the bag `vals`: its size,
/// its sum, a least or greatest element, or the fraction sum / size.
pub open spec fn defined_result(op: AggOp, vals: Seq<FieldView>, r: FieldView) -> bool {
    match op {
        AggOp::Count => r == FieldView::Int(vals.len() as i64),
        AggOp::Sum => (vals.len() == 1 && r == vals[0]) || (all_ints(vals) && (r matches FieldView::Int(x) && x == int_sum(vals))),
        AggOp::Avg => all_ints(vals) && (r matches FieldView::Decimal(t, c) && t == int_sum(vals) && c == vals.len()),
        AggOp::Min => vals.contains(r) && forall|i: int| 0 <= i < vals.len() ==> !field_lt(#[trigger] vals[i], r),
        AggOp::Max => vals.contains(r) && forall|i: int| 0 <= i < vals.len() ==> !field_lt(r, #[trigger] vals[i]),
    }
}

/// What the aggregate yields, stated over the bag of inputs: one tuple per
/// distinct group key, and tuple `i` is the `i`-th key followed, for each
/// aggregate `j`, by the value of `ops[j]` by definition over the bag of
/// `aggs[j]`'s values on the rows with that key (a bag that is never empty).
pub proof fn law_aggregate_output(gb: Seq<Expr>, aggs: Seq<Expr>, ops: Seq<AggOp>, rows: Seq<Seq<FieldView>>, i: int, j: int)
    requires
        ops.len() == aggs.len(),
        aggregate_ok(gb, aggs, ops, rows),
        0 <= i < distinct_keys(gb, rows).len(),
        0 <= j < aggs.len(),
    ensures
        aggregate_rows(gb, aggs, ops, rows).len() == distinct_keys(gb, rows).len(),
        group_values(gb, aggs[j], rows, distinct_keys(gb, rows)[i]).len() > 0,
        aggregate_rows(gb, aggs, ops, rows)[i].len() == distinct_keys(gb, rows)[i].len() + aggs.len(),
        aggregate_rows(gb, aggs, ops, rows)[i].subrange(0, distinct_keys(gb, rows)[i].len() as int) == distinct_keys(gb, rows)[i],
        defined_result(
            ops[j],
            group_values(gb, aggs[j], rows, distinct_keys(gb, rows)[i]),
            aggregate_rows(gb, aggs, ops, rows)[i][distinct_keys(gb, rows)[i].len() + j],
        ),
{
    let ks = distinct_keys(gb, rows);
    let k = ks[i];
    let vals = group_values(gb, aggs[j], rows, k);
    assert(ks.contains(k));
    lemma_keys_values(gb, aggs[j], rows, k);
    assert(group_ok(gb, aggs, ops, rows, ks[i]));
    assert(fold_bag(ops[j], vals) is Some);
    let out = aggregate_rows(gb, aggs, ops, rows);
    let st = group_states(gb, aggs, ops, rows, k);
    assert(out[i] == output_row(k, st));
    assert(out[i].subrange(0, k.len() as int) =~= k);
    assert(out[i][k.len() + j] == result_of(fold_bag(ops[j], vals)->0));
    lemma_fold_count(vals);
    lemma_fold_min(vals);
    lemma_fold_max(vals);
    lemma_fold_sum(vals);
    lemma_fold_avg(vals);
}
} // verus!
