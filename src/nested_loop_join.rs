//! Nested-loop join: for each left tuple, the right child is scanned from its
//! start and every right tuple satisfying the comparison is joined to it.

use vstd::prelude::*;
use vstd::seq_lib::lemma_multiset_commutative;
use vstd::multiset::Multiset;
use crate::tuple::{FieldView, Tuple, Expr, TableSchema, BooleanOp, eval_spec, compare_spec, compare_fields};
use crate::op_iterator::{OpIterator, ExecError};
use crate::hash_join::{hash_join_rows, join_matches};

verus! {

/// The joined rows for the left row `l`: each right row of `rs` that satisfies
/// the comparison, in right order, after `l`'s fields.
pub open spec fn row_matches(op: BooleanOp, le: Expr, re: Expr, l: Seq<FieldView>, rs: Seq<Seq<FieldView>>) -> Seq<Seq<FieldView>>
    decreases rs.len(),
{
    if rs.len() == 0 {
        Seq::empty()
    } else {
        row_matches(op, le, re, l, rs.drop_last()) + if compare_spec(op, eval_spec(le, l), eval_spec(re, rs.last())) {
            seq![l + rs.last()]
        } else {
            Seq::empty()
        }
    }
}

/// What the nested-loop join yields: for each left row in order, its matches.
pub open spec fn nested_loop_rows(op: BooleanOp, le: Expr, re: Expr, ls: Seq<Seq<FieldView>>, rs: Seq<Seq<FieldView>>) -> Seq<Seq<FieldView>>
    decreases ls.len(),
{
    if ls.len() == 0 {
        Seq::empty()
    } else {
        nested_loop_rows(op, le, re, ls.drop_last(), rs) + row_matches(op, le, re, ls.last(), rs)
    }
}

proof fn lemma_row_prefix(op: BooleanOp, le: Expr, re: Expr, l: Seq<FieldView>, rs: Seq<Seq<FieldView>>, j: int)
    requires
        0 <= j <= rs.len(),
    ensures
        row_matches(op, le, re, l, rs.take(j)).len() <= row_matches(op, le, re, l, rs).len(),
        row_matches(op, le, re, l, rs.take(j)) == row_matches(op, le, re, l, rs).take(row_matches(op, le, re, l, rs.take(j)).len() as int),
    decreases rs.len() - j,
{
    if j == rs.len() {
        assert(rs.take(j) =~= rs);
    } else {
        lemma_row_prefix(op, le, re, l, rs, j + 1);
        assert(rs.take(j + 1).drop_last() =~= rs.take(j));
        let a = row_matches(op, le, re, l, rs.take(j));
        let all = row_matches(op, le, re, l, rs);
        assert(a =~= all.take(a.len() as int));
    }
}

proof fn lemma_nested_prefix(op: BooleanOp, le: Expr, re: Expr, ls: Seq<Seq<FieldView>>, rs: Seq<Seq<FieldView>>, i: int)
    requires
        0 <= i <= ls.len(),
    ensures
        nested_loop_rows(op, le, re, ls.take(i), rs).len() <= nested_loop_rows(op, le, re, ls, rs).len(),
        nested_loop_rows(op, le, re, ls.take(i), rs) == nested_loop_rows(op, le, re, ls, rs).take(
            nested_loop_rows(op, le, re, ls.take(i), rs).len() as int,
        ),
    decreases ls.len() - i,
{
    if i == ls.len() {
        assert(ls.take(i) =~= ls);
    } else {
        lemma_nested_prefix(op, le, re, ls, rs, i + 1);
        assert(ls.take(i + 1).drop_last() =~= ls.take(i));
        let a = nested_loop_rows(op, le, re, ls.take(i), rs);
        let all = nested_loop_rows(op, le, re, ls, rs);
        assert(a =~= all.take(a.len() as int));
    }
}

proof fn lemma_hash_join_empty_left(le: Expr, re: Expr, rs: Seq<Seq<FieldView>>)
    ensures
        hash_join_rows(le, re, Seq::empty(), rs) == Seq::<Seq<FieldView>>::empty(),
    decreases rs.len(),
{
    if rs.len() > 0 {
        lemma_hash_join_empty_left(le, re, rs.drop_last());
        assert(join_matches(le, re, Seq::empty(), rs.last()) =~= Seq::<Seq<FieldView>>::empty());
    }
}

/// Adding a left row `l` adds, to the hash join's rows, exactly `l`'s
/// equality matches.
proof fn lemma_hash_join_add_left(le: Expr, re: Expr, ls: Seq<Seq<FieldView>>, l: Seq<FieldView>, rs: Seq<Seq<FieldView>>)
    ensures
        hash_join_rows(le, re, ls.push(l), rs).to_multiset() == hash_join_rows(le, re, ls, rs).to_multiset().add(
            row_matches(BooleanOp::Eq, le, re, l, rs).to_multiset(),
        ),
    decreases rs.len(),
{
    broadcast use lemma_multiset_commutative;
    let ls2 = ls.push(l);
    if rs.len() == 0 {
        broadcast use vstd::seq_lib::group_to_multiset_ensures;
        let e = Seq::<Seq<FieldView>>::empty();
        assert(hash_join_rows(le, re, ls2, rs) == e);
        assert(hash_join_rows(le, re, ls, rs) == e);
        assert(row_matches(BooleanOp::Eq, le, re, l, rs) == e);
        assert(e.to_multiset() =~= Multiset::empty());
    } else {
        let r = rs.last();
        let rest = rs.drop_last();
        lemma_hash_join_add_left(le, re, ls, l, rest);
        assert(ls2.drop_last() =~= ls);
        let extra: Seq<Seq<FieldView>> = if compare_spec(BooleanOp::Eq, eval_spec(le, l), eval_spec(re, r)) {
            seq![l + r]
        } else {
            Seq::empty()
        };
        assert(join_matches(le, re, ls2, r) =~= join_matches(le, re, ls, r) + extra);
        let a = hash_join_rows(le, re, ls, rest);
        let b = row_matches(BooleanOp::Eq, le, re, l, rest);
        let m = join_matches(le, re, ls, r);
        assert(hash_join_rows(le, re, ls2, rs) == hash_join_rows(le, re, ls2, rest) + (m + extra));
        assert(hash_join_rows(le, re, ls, rs) == a + m);
        assert(row_matches(BooleanOp::Eq, le, re, l, rs) == b + extra);
        assert(hash_join_rows(le, re, ls2, rs).to_multiset() =~= a.to_multiset().add(b.to_multiset()).add(
            m.to_multiset().add(extra.to_multiset()),
        ));
        assert(hash_join_rows(le, re, ls, rs).to_multiset().add(row_matches(BooleanOp::Eq, le, re, l, rs).to_multiset())
            =~= a.to_multiset().add(m.to_multiset()).add(b.to_multiset().add(extra.to_multiset())));
    }
}

/// The hash equi-join and the nested-loop join with `==`, on the same inputs
/// and key expressions, yield the same multiset of tuples.
pub proof fn law_hash_join_matches_nested_loop(le: Expr, re: Expr, ls: Seq<Seq<FieldView>>, rs: Seq<Seq<FieldView>>)
    ensures
        hash_join_rows(le, re, ls, rs).to_multiset() == nested_loop_rows(BooleanOp::Eq, le, re, ls, rs).to_multiset(),
    decreases ls.len(),
{
    broadcast use lemma_multiset_commutative;
    if ls.len() == 0 {
        lemma_hash_join_empty_left(le, re, rs);
        assert(ls =~= Seq::<Seq<FieldView>>::empty());
    } else {
        let l = ls.last();
        let rest = ls.drop_last();
        law_hash_join_matches_nested_loop(le, re, rest, rs);
        assert(rest.push(l) =~= ls);
        lemma_hash_join_add_left(le, re, rest, l, rs);
    }
}

/// Nested-loop join of two child operators on `left_expr op right_expr`.
pub struct NestedLoopJoin<L: OpIterator, R: OpIterator> {
    schema: TableSchema,
    op: BooleanOp,
    left_expr: Expr,
    right_expr: Expr,
    left_child: L,
    right_child: R,
    open: bool,
    current_tuple: Option<Tuple>,
}

impl<L: OpIterator, R: OpIterator> NestedLoopJoin<L, R> {
    /// A join yielding, for each left tuple in order, each right tuple `r` in
    /// order with `left_expr(l) op right_expr(r)`, merged after `l`.
    pub fn new(op: BooleanOp, left_expr: Expr, right_expr: Expr, left_child: L, right_child: R, schema: TableSchema) -> (j: NestedLoopJoin<L, R>)
        requires
            left_child.inv(),
            right_child.inv(),
            !left_child.is_open(),
            !right_child.is_open(),
        ensures
            j.inv(),
            !j.is_open(),
            j.stream() == nested_loop_rows(op, left_expr, right_expr, left_child.stream(), right_child.stream()),
            j.opens_ok() == (left_child.opens_ok() && right_child.opens_ok()),
    {
        NestedLoopJoin { schema, op, left_expr, right_expr, left_child, right_child, open: false, current_tuple: None }
    }

    /// The rows already yielded.
    pub closed spec fn done(&self) -> int {
        let ls = self.left_child.stream();
        let rs = self.right_child.stream();
        let lp = self.left_child.position();
        let rp = self.right_child.position();
        match self.current_tuple {
            Some(l) => nested_loop_rows(self.op, self.left_expr, self.right_expr, ls.take(lp - 1), rs).len() as int
                + row_matches(self.op, self.left_expr, self.right_expr, l@, rs.take(rp)).len() as int,
            None => nested_loop_rows(self.op, self.left_expr, self.right_expr, ls.take(lp), rs).len() as int,
        }
    }

    pub closed spec fn position_ok(&self) -> bool {
        let ls = self.left_child.stream();
        let rs = self.right_child.stream();
        let lp = self.left_child.position();
        let rp = self.right_child.position();
        &&& 0 <= lp <= ls.len()
        &&& 0 <= rp <= rs.len()
        &&& match self.current_tuple {
            Some(l) => lp >= 1 && l@ == ls[lp - 1],
            None => lp == ls.len(),
        }
    }

    proof fn lemma_done_bound(&self)
        requires
            self.position_ok(),
        ensures
            0 <= self.done() <= nested_loop_rows(self.op, self.left_expr, self.right_expr, self.left_child.stream(), self.right_child.stream()).len(),
    {
        let ls = self.left_child.stream();
        let rs = self.right_child.stream();
        let lp = self.left_child.position();
        let rp = self.right_child.position();
        lemma_nested_prefix(self.op, self.left_expr, self.right_expr, ls, rs, lp);
        if let Some(l) = self.current_tuple {
            lemma_nested_prefix(self.op, self.left_expr, self.right_expr, ls, rs, lp - 1);
            assert(ls.take(lp).drop_last() =~= ls.take(lp - 1));
            lemma_row_prefix(self.op, self.left_expr, self.right_expr, l@, rs, rp);
        } else {
            assert(ls.take(lp) =~= ls);
        }
    }
}

impl<L: OpIterator, R: OpIterator> OpIterator for NestedLoopJoin<L, R> {
    closed spec fn stream(&self) -> Seq<Seq<FieldView>> {
        nested_loop_rows(self.op, self.left_expr, self.right_expr, self.left_child.stream(), self.right_child.stream())
    }

    closed spec fn position(&self) -> int {
        self.done()
    }

    closed spec fn is_open(&self) -> bool {
        self.open
    }

    closed spec fn inv(&self) -> bool {
        &&& self.left_child.inv()
        &&& self.right_child.inv()
        &&& !self.open ==> !self.left_child.is_open() && !self.right_child.is_open()
        &&& self.open ==> self.left_child.is_open() && self.right_child.is_open() && self.position_ok()
    }

    closed spec fn opens_ok(&self) -> bool {
        self.left_child.opens_ok() && self.right_child.opens_ok()
    }

    fn configure(&mut self, will_rewind: bool) {
        self.left_child.configure(will_rewind);
        self.right_child.configure(true);
    }

    fn open(&mut self) -> (r: Result<(), ExecError>) {
        if self.open {
            proof {
                self.lemma_done_bound();
            }
            return Ok(());
        }
        match self.left_child.open() {
            Ok(()) => {},
            Err(e) => {
                return Err(e);
            },
        }
        match self.right_child.open() {
            Ok(()) => {},
            Err(e) => {
                let _ = self.left_child.close();
                return Err(e);
            },
        }
        match self.left_child.next() {
            Ok(t) => {
                self.current_tuple = t;
            },
            Err(e) => {
                let _ = self.left_child.close();
                let _ = self.right_child.close();
                return Err(e);
            },
        }
        self.open = true;
        proof {
            let ls = self.left_child.stream();
            let rs = self.right_child.stream();
            assert(ls.take(0) =~= Seq::<Seq<FieldView>>::empty());
            assert(rs.take(0) =~= Seq::<Seq<FieldView>>::empty());
            if self.current_tuple is Some {
                assert(ls.take(1).drop_last() =~= ls.take(0));
            } else {
                assert(ls.take(0) =~= ls);
            }
            self.lemma_done_bound();
        }
        Ok(())
    }

    fn next(&mut self) -> (r: Result<Option<Tuple>, ExecError>) {
        let ghost op = self.op;
        let ghost le = self.left_expr;
        let ghost re = self.right_expr;
        let ghost ls = self.left_child.stream();
        let ghost rs = self.right_child.stream();
        let ghost all = nested_loop_rows(op, le, re, ls, rs);
        loop
            invariant
                self.inv(),
                self.open,
                op == self.op,
                le == self.left_expr,
                re == self.right_expr,
                ls == self.left_child.stream(),
                rs == self.right_child.stream(),
                all == nested_loop_rows(op, le, re, ls, rs),
                self.done() == old(self).done(),
                self.left_child.opens_ok() == old(self).left_child.opens_ok(),
                self.right_child.opens_ok() == old(self).right_child.opens_ok(),
                old(self).left_child.stream() == ls,
                old(self).right_child.stream() == rs,
                old(self).op == op,
                old(self).left_expr == le,
                old(self).right_expr == re,
            decreases ls.len() - self.left_child.position(), rs.len() - self.right_child.position(),
        {
            let ghost lp = self.left_child.position();
            let ghost rp = self.right_child.position();
            let l = match &self.current_tuple {
                None => {
                    proof {
                        assert(ls.take(lp) =~= ls);
                    }
                    return Ok(None);
                },
                Some(l) => l,
            };
            let lf = self.left_expr.eval(l);
            match self.right_child.next() {
                Ok(Some(r)) => {
                    let rf = self.right_expr.eval(&r);
                    proof {
                        assert(rs.take(rp + 1).drop_last() =~= rs.take(rp));
                        assert(rs.take(rp + 1).last() == r@);
                    }
                    if compare_fields(self.op, &lf, &rf) {
                        let t = l.merge(&r);
                        proof {
                            let lv = l@;
                            let n0 = nested_loop_rows(op, le, re, ls.take(lp - 1), rs);
                            let m0 = row_matches(op, le, re, lv, rs.take(rp));
                            let m1 = row_matches(op, le, re, lv, rs.take(rp + 1));
                            let full = row_matches(op, le, re, lv, rs);
                            assert(m1 == m0 + seq![lv + r@]);
                            lemma_row_prefix(op, le, re, lv, rs, rp + 1);
                            lemma_nested_prefix(op, le, re, ls, rs, lp);
                            assert(ls.take(lp).drop_last() =~= ls.take(lp - 1));
                            assert(ls.take(lp).last() == lv);
                            let nl = nested_loop_rows(op, le, re, ls.take(lp), rs);
                            assert(nl == n0 + full);
                            assert(full[m0.len() as int] == m1[m0.len() as int]);
                            assert(nl[n0.len() + m0.len() as int] == full[m0.len() as int]);
                            assert(all[n0.len() + m0.len() as int] == nl[n0.len() + m0.len() as int]);
                        }
                        return Ok(Some(t));
                    }
                    proof {
                        assert(row_matches(op, le, re, l@, rs.take(rp + 1)) =~= row_matches(op, le, re, l@, rs.take(rp)));
                    }
                },
                Ok(None) => {
                    proof {
                        assert(rs.take(rp) =~= rs);
                        assert(ls.take(lp).drop_last() =~= ls.take(lp - 1));
                    }
                    let _ = self.right_child.rewind();
                    match self.left_child.next() {
                        Ok(t) => {
                            self.current_tuple = t;
                            proof {
                                assert(rs.take(0) =~= Seq::<Seq<FieldView>>::empty());
                                if self.current_tuple is Some {
                                    assert(ls.take(lp + 1).drop_last() =~= ls.take(lp));
                                }
                            }
                            if self.current_tuple.is_none() {
                                return Ok(None);
                            }
                        },
                        Err(e) => {
                            return Err(e);
                        },
                    }
                },
                Err(e) => {
                    return Err(e);
                },
            }
        }
    }

    fn close(&mut self) -> (r: Result<(), ExecError>) {
        let _ = self.left_child.close();
        let _ = self.right_child.close();
        self.open = false;
        Ok(())
    }

    fn rewind(&mut self) -> (r: Result<(), ExecError>) {
        let _ = self.left_child.rewind();
        let _ = self.right_child.rewind();
        match self.left_child.next() {
            Ok(t) => {
                self.current_tuple = t;
            },
            Err(_) => {
                self.current_tuple = None;
            },
        }
        proof {
            let ls = self.left_child.stream();
            let rs = self.right_child.stream();
            assert(ls.take(0) =~= Seq::<Seq<FieldView>>::empty());
            assert(rs.take(0) =~= Seq::<Seq<FieldView>>::empty());
            if self.current_tuple is Some {
                assert(ls.take(1).drop_last() =~= ls.take(0));
            } else {
                assert(ls.take(0) =~= ls);
            }
        }
        Ok(())
    }

    fn get_schema(&self) -> &TableSchema {
        &self.schema
    }
}

} // verus!
