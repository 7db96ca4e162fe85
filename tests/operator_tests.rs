use heapstore::aggregate::{AggOp, Aggregate};
use heapstore::hash_join::HashEqJoin;
use heapstore::nested_loop_join::NestedLoopJoin;
use heapstore::op_iterator::{OpIterator, TupleIterator};
use heapstore::tuple::{compare_fields, BooleanOp, Expr, Field, TableSchema, Tuple};

// Input relation [id, a, b, c]:
// 1 1 3 E
// 2 1 3 G
// 3 1 4 A
// 4 2 4 G
// 5 2 5 G
// 6 2 5 G
fn test_tuples() -> Vec<Tuple> {
    let rows: [(i64, i64, i64, &str); 6] =
        [(1, 1, 3, "E"), (2, 1, 3, "G"), (3, 1, 4, "A"), (4, 2, 4, "G"), (5, 2, 5, "G"), (6, 2, 5, "G")];
    rows.iter()
        .map(|(id, a, b, c)| Tuple::new(vec![Field::Int(*id), Field::Int(*a), Field::Int(*b), Field::Str(c.to_string())]))
        .collect()
}

fn schema() -> TableSchema {
    TableSchema { columns: vec!["id".to_string(), "a".to_string(), "b".to_string(), "c".to_string()] }
}

fn source() -> TupleIterator {
    TupleIterator::new(test_tuples(), schema())
}

fn col(i: usize) -> Expr {
    Expr::Column(i)
}

fn f_int(i: i64) -> Field {
    Field::Int(i)
}

fn f_str(s: &str) -> Field {
    Field::Str(s.to_string())
}

/// A row of fields in a comparable form; decimals become their `f64` value.
#[derive(Debug, PartialEq, PartialOrd, Clone)]
enum V {
    I(i64),
    S(String),
    D(f64),
    N,
}

fn row(t: &Tuple) -> Vec<V> {
    t.field_vals
        .iter()
        .map(|f| match f {
            Field::Int(i) => V::I(*i),
            Field::Str(s) => V::S(s.clone()),
            Field::Decimal(n, d) => V::D(*n as f64 / *d as f64),
            Field::Null => V::N,
        })
        .collect()
}

fn rows_of(fields: Vec<Vec<Field>>) -> Vec<Vec<V>> {
    fields.into_iter().map(|fs| row(&Tuple::new(fs))).collect()
}

fn execute_iter<O: OpIterator>(iter: &mut O, close: bool) -> Vec<Vec<V>> {
    iter.open().unwrap();
    let mut out = Vec::new();
    while let Some(t) = iter.next().unwrap() {
        out.push(row(&t));
    }
    if close {
        iter.close().unwrap();
    }
    out
}

fn get_agg(groupby: Vec<Expr>, agg: Vec<Expr>, ops: Vec<AggOp>) -> Aggregate<TupleIterator> {
    let mut iter = Aggregate::new(groupby, agg, ops, TableSchema { columns: vec![] }, source());
    iter.configure(false);
    iter
}

fn run_aggregate(groupby: Vec<Expr>, agg: Vec<Expr>, ops: Vec<AggOp>) -> Vec<Vec<V>> {
    let mut iter = get_agg(groupby, agg, ops);
    let mut t = execute_iter(&mut iter, true);
    t.sort_by(|a, b| a.partial_cmp(b).unwrap());
    t
}

// left(col(0) + col(1)) OP right(col(2))
fn get_join_predicate() -> (Expr, Expr) {
    (Expr::Add(Box::new(col(0)), Box::new(col(1))), col(2))
}

fn get_hash_join(left: Expr, right: Expr) -> HashEqJoin<TupleIterator, TupleIterator> {
    let mut iter = HashEqJoin::new(schema(), left, right, source(), source());
    iter.configure(false);
    iter
}

fn get_nl_join(op: BooleanOp, left: Expr, right: Expr) -> NestedLoopJoin<TupleIterator, TupleIterator> {
    let mut iter = NestedLoopJoin::new(op, left, right, source(), source(), schema());
    iter.configure(false);
    iter
}

fn join_expected() -> Vec<Vec<V>> {
    rows_of(vec![
        vec![f_int(2), f_int(1), f_int(3), f_str("G"), f_int(1), f_int(1), f_int(3), f_str("E")],
        vec![f_int(2), f_int(1), f_int(3), f_str("G"), f_int(2), f_int(1), f_int(3), f_str("G")],
        vec![f_int(3), f_int(1), f_int(4), f_str("A"), f_int(3), f_int(1), f_int(4), f_str("A")],
        vec![f_int(3), f_int(1), f_int(4), f_str("A"), f_int(4), f_int(2), f_int(4), f_str("G")],
    ])
}

#[test]
fn test_empty_group() {
    let t = run_aggregate(vec![], vec![col(0), col(1), col(2)], vec![AggOp::Count, AggOp::Max, AggOp::Avg]);
    assert_eq!(t.len(), 1);
    assert_eq!(t[0], vec![V::I(6), V::I(2), V::D(4.0)]);
}

#[test]
fn test_empty_aggregation() {
    let t = run_aggregate(vec![col(2)], vec![], vec![]);
    assert_eq!(t.len(), 3);
    assert_eq!(t[0], vec![V::I(3)]);
    assert_eq!(t[1], vec![V::I(4)]);
    assert_eq!(t[2], vec![V::I(5)]);
}

#[test]
fn test_count() {
    let t = run_aggregate(vec![col(1), col(2)], vec![col(0)], vec![AggOp::Count]);
    assert_eq!(t.len(), 4);
    assert_eq!(t[0], vec![V::I(1), V::I(3), V::I(2)]);
    assert_eq!(t[1], vec![V::I(1), V::I(4), V::I(1)]);
    assert_eq!(t[2], vec![V::I(2), V::I(4), V::I(1)]);
    assert_eq!(t[3], vec![V::I(2), V::I(5), V::I(2)]);
}

#[test]
fn test_sum() {
    let tuples = run_aggregate(vec![col(1), col(2)], vec![col(0)], vec![AggOp::Sum]);
    assert_eq!(tuples.len(), 4);
    assert_eq!(tuples[0], vec![V::I(1), V::I(3), V::I(3)]);
    assert_eq!(tuples[1], vec![V::I(1), V::I(4), V::I(3)]);
    assert_eq!(tuples[2], vec![V::I(2), V::I(4), V::I(4)]);
    assert_eq!(tuples[3], vec![V::I(2), V::I(5), V::I(11)]);
}

#[test]
fn test_max() {
    let t = run_aggregate(vec![col(1), col(2)], vec![col(3)], vec![AggOp::Max]);
    assert_eq!(t.len(), 4);
    assert_eq!(t[0], rows_of(vec![vec![f_int(1), f_int(3), f_str("G")]])[0]);
    assert_eq!(t[1], rows_of(vec![vec![f_int(1), f_int(4), f_str("A")]])[0]);
    assert_eq!(t[2], rows_of(vec![vec![f_int(2), f_int(4), f_str("G")]])[0]);
    assert_eq!(t[3], rows_of(vec![vec![f_int(2), f_int(5), f_str("G")]])[0]);
}

#[test]
fn test_min() {
    let t = run_aggregate(vec![col(1), col(2)], vec![col(3)], vec![AggOp::Min]);
    assert!(t.len() == 4);
    assert_eq!(t[0], rows_of(vec![vec![f_int(1), f_int(3), f_str("E")]])[0]);
    assert_eq!(t[1], rows_of(vec![vec![f_int(1), f_int(4), f_str("A")]])[0]);
    assert_eq!(t[2], rows_of(vec![vec![f_int(2), f_int(4), f_str("G")]])[0]);
    assert_eq!(t[3], rows_of(vec![vec![f_int(2), f_int(5), f_str("G")]])[0]);
}

#[test]
fn test_avg() {
    let t = run_aggregate(vec![col(1), col(2)], vec![col(0)], vec![AggOp::Avg]);
    assert_eq!(t.len(), 4);
    assert_eq!(t[0], vec![V::I(1), V::I(3), V::D(1.5)]);
    assert_eq!(t[1], vec![V::I(1), V::I(4), V::D(3.0)]);
    assert_eq!(t[2], vec![V::I(2), V::I(4), V::D(4.0)]);
    assert_eq!(t[3], vec![V::I(2), V::I(5), V::D(5.5)]);
}

#[test]
fn test_multi_column_aggregation() {
    let t = run_aggregate(vec![col(3)], vec![col(0), col(1), col(2)], vec![AggOp::Count, AggOp::Max, AggOp::Avg]);
    assert_eq!(t.len(), 3);
    assert_eq!(t[0], vec![V::S("A".to_string()), V::I(1), V::I(1), V::D(4.0)]);
    assert_eq!(t[1], vec![V::S("E".to_string()), V::I(1), V::I(1), V::D(3.0)]);
    assert_eq!(t[2], vec![V::S("G".to_string()), V::I(4), V::I(2), V::D(4.25)]);
}

#[test]
fn avg_over_strings_fails_to_open() {
    let mut iter = get_agg(vec![], vec![col(3)], vec![AggOp::Avg]);
    assert!(iter.open().is_err());
}

#[test]
fn sum_overflow_fails_to_open() {
    let tuples = vec![Tuple::new(vec![f_int(i64::MAX)]), Tuple::new(vec![f_int(1)])];
    let mut iter = Aggregate::new(vec![], vec![col(0)], vec![AggOp::Sum], TableSchema { columns: vec![] }, TupleIterator::new(tuples, TableSchema { columns: vec![] }));
    assert!(iter.open().is_err());
}

#[test]
fn aggregate_over_empty_input_yields_nothing() {
    let mut iter = Aggregate::new(vec![], vec![col(0)], vec![AggOp::Count], TableSchema { columns: vec![] }, TupleIterator::new(vec![], schema()));
    assert!(execute_iter(&mut iter, true).is_empty());
}

#[test]
fn aggregate_test_open() {
    let mut iter = get_agg(vec![], vec![], vec![]);
    iter.open().unwrap();
}

#[test]
fn aggregate_test_close() {
    let mut iter = get_agg(vec![], vec![], vec![]);
    iter.open().unwrap();
    iter.close().unwrap();
}

#[test]
fn aggregate_test_rewind() {
    let mut iter = get_agg(vec![col(2)], vec![col(0)], vec![AggOp::Max]);
    iter.configure(true);
    let t_before = execute_iter(&mut iter, false);
    iter.rewind().unwrap();
    let mut t_after = Vec::new();
    while let Some(t) = iter.next().unwrap() {
        t_after.push(row(&t));
    }
    assert_eq!(t_before, t_after);
}

#[test]
fn test_join() {
    let (left_expr, right_expr) = get_join_predicate();
    let mut iter = get_hash_join(left_expr, right_expr);
    let t = execute_iter(&mut iter, true);
    assert_eq!(t.len(), 4);
    assert_eq!(t, join_expected());
}

#[test]
fn hash_join_test_open() {
    let (left_expr, right_expr) = get_join_predicate();
    let mut iter = get_hash_join(left_expr, right_expr);
    iter.open().unwrap();
}

#[test]
fn hash_join_test_close() {
    let (left_expr, right_expr) = get_join_predicate();
    let mut iter = get_hash_join(left_expr, right_expr);
    iter.open().unwrap();
    iter.close().unwrap();
}

#[test]
fn hash_join_test_rewind() {
    let (left_expr, right_expr) = get_join_predicate();
    let mut iter = get_hash_join(left_expr, right_expr);
    iter.configure(true);
    let t_before = execute_iter(&mut iter, false);
    iter.rewind().unwrap();
    let t_after = execute_iter(&mut iter, false);
    assert_eq!(t_before, t_after);
}

#[test]
fn test_eq_join() {
    let (left_expr, right_expr) = get_join_predicate();
    let mut iter = get_nl_join(BooleanOp::Eq, left_expr, right_expr);
    let t = execute_iter(&mut iter, true);
    assert_eq!(t.len(), 4);
    assert_eq!(t, join_expected());
}

#[test]
fn nested_loop_join_test_open() {
    let (left_expr, right_expr) = get_join_predicate();
    let mut iter = get_nl_join(BooleanOp::Eq, left_expr, right_expr);
    iter.open().unwrap();
}

#[test]
fn nested_loop_join_test_close() {
    let (left_expr, right_expr) = get_join_predicate();
    let mut iter = get_nl_join(BooleanOp::Eq, left_expr, right_expr);
    iter.open().unwrap();
    iter.close().unwrap();
}

#[test]
fn nested_loop_join_test_rewind() {
    let (left_expr, right_expr) = get_join_predicate();
    let mut iter = get_nl_join(BooleanOp::Eq, left_expr, right_expr);
    iter.configure(true);
    let t_before = execute_iter(&mut iter, false);
    iter.rewind().unwrap();
    let t_after = execute_iter(&mut iter, false);
    assert_eq!(t_before, t_after);
}

#[test]
fn hash_and_nested_loop_equi_joins_agree_as_multisets() {
    // join on a == b, which has many matches per key
    let mut hj = get_hash_join(col(1), col(0));
    let mut nl = get_nl_join(BooleanOp::Eq, col(1), col(0));
    let mut a = execute_iter(&mut hj, true);
    let mut b = execute_iter(&mut nl, true);
    assert_eq!(a.len(), 6);
    a.sort_by(|x, y| x.partial_cmp(y).unwrap());
    b.sort_by(|x, y| x.partial_cmp(y).unwrap());
    assert_eq!(a, b);
}

#[test]
fn nested_loop_less_than_join() {
    // a < id
    let mut nl = get_nl_join(BooleanOp::Lt, col(1), col(0));
    let t = execute_iter(&mut nl, true);
    // each left row pairs with every right row whose id exceeds its a
    // a = 1 (3 rows) x ids 2..6 (5 rows) + a = 2 (3 rows) x ids 3..6 (4 rows)
    assert_eq!(t.len(), 3 * 5 + 3 * 4);
}

#[test]
fn field_comparisons() {
    assert!(compare_fields(BooleanOp::Lt, &f_int(1), &f_int(2)));
    assert!(compare_fields(BooleanOp::Ge, &f_int(2), &f_int(2)));
    assert!(compare_fields(BooleanOp::Lt, &f_str("A"), &f_str("B")));
    assert!(compare_fields(BooleanOp::Lt, &f_str("A"), &f_str("AB")));
    assert!(compare_fields(BooleanOp::Ne, &f_str("A"), &f_int(1)));
    assert!(compare_fields(BooleanOp::Lt, &Field::Decimal(1, 3), &Field::Decimal(1, 2)));
    assert!(compare_fields(BooleanOp::Gt, &f_str("a"), &f_int(100)));
}

#[test]
fn expression_evaluation() {
    let t = Tuple::new(vec![f_int(4), f_int(5), f_str("x")]);
    let e = Expr::Add(Box::new(col(0)), Box::new(Expr::Literal(f_int(10))));
    assert_eq!(row(&Tuple::new(vec![e.eval(&t)])), vec![V::I(14)]);
    assert_eq!(row(&Tuple::new(vec![col(7).eval(&t)])), vec![V::N]);
    let bad = Expr::Add(Box::new(col(0)), Box::new(col(2)));
    assert_eq!(row(&Tuple::new(vec![bad.eval(&t)])), vec![V::N]);
    let m = t.merge(&Tuple::new(vec![f_int(1)]));
    assert_eq!(m.size(), 4);
}

#[test]
fn decimals_compare_by_value() {
    assert!(Field::Decimal(3, 2).same_as(&Field::Decimal(6, 4)));
    assert!(compare_fields(BooleanOp::Eq, &Field::Decimal(-3, 2), &Field::Decimal(-6, 4)));
    assert!(compare_fields(BooleanOp::Le, &Field::Decimal(1, 2), &Field::Decimal(2, 4)));
    assert!(!Field::Decimal(3, 2).same_as(&Field::Decimal(3, 4)));
    assert!(!Field::Decimal(3, 2).identical(&Field::Decimal(6, 4)));
    assert!(Field::Decimal(6, 4).canonical().identical(&Field::Decimal(3, 2)));
    assert!(Field::Decimal(0, 5).canonical().identical(&Field::Decimal(0, 1)));
}

#[test]
fn equal_decimals_group_and_join_together() {
    let rows = vec![
        Tuple::new(vec![Field::Decimal(3, 2), f_int(1)]),
        Tuple::new(vec![Field::Decimal(6, 4), f_int(2)]),
        Tuple::new(vec![Field::Decimal(1, 2), f_int(3)]),
    ];
    let s = || TableSchema { columns: vec![] };
    let copy = |ts: &Vec<Tuple>| ts.iter().map(|t| t.copy_tuple()).collect::<Vec<Tuple>>();
    let mut agg = Aggregate::new(vec![col(0)], vec![col(1)], vec![AggOp::Sum], s(), TupleIterator::new(copy(&rows), s()));
    let mut t = execute_iter(&mut agg, true);
    t.sort_by(|a, b| a.partial_cmp(b).unwrap());
    assert_eq!(t, vec![vec![V::D(0.5), V::I(3)], vec![V::D(1.5), V::I(3)]]);

    let mut hj = HashEqJoin::new(s(), col(0), col(0), TupleIterator::new(copy(&rows), s()), TupleIterator::new(copy(&rows), s()));
    let mut nl = NestedLoopJoin::new(BooleanOp::Eq, col(0), col(0), TupleIterator::new(copy(&rows), s()), TupleIterator::new(copy(&rows), s()), s());
    let mut a = execute_iter(&mut hj, true);
    let mut b = execute_iter(&mut nl, true);
    assert_eq!(a.len(), 5);
    a.sort_by(|x, y| x.partial_cmp(y).unwrap());
    b.sort_by(|x, y| x.partial_cmp(y).unwrap());
    assert_eq!(a, b);
}
