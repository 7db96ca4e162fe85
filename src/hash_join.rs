//! Hash equi-join. Opening drains the left child into a table of buckets, one
//! per distinct join key; each right tuple is then joined with the left
//! tuples of its key's bucket, in left order.

use vstd::prelude::*;
use crate::tuple::{Field, FieldView, Tuple, Expr, TableSchema, eval_spec, canon};
use crate::op_iterator::{OpIterator, ExecError};

verus! {

/// The left rows whose join key, in canonical form, is `k`, in order.
pub open spec fn left_with_key(le: Expr, ls: Seq<Seq<FieldView>>, k: FieldView) -> Seq<Seq<FieldView>>
    decreases ls.len(),
{
    if ls.len() == 0 {
        Seq::empty()
    } else {
        let prev = left_with_key(le, ls.drop_last(), k);
        if canon(eval_spec(le, ls.last())) == k {
            prev.push(ls.last())
        } else {
            prev
        }
    }
}

/// The joined rows for the right row `r`: each left row with its key, in
/// left order, followed by `r`'s fields.
pub open spec fn join_matches(le: Expr, re: Expr, ls: Seq<Seq<FieldView>>, r: Seq<FieldView>) -> Seq<Seq<FieldView>> {
    left_with_key(le, ls, canon(eval_spec(re, r))).map_values(|l: Seq<FieldView>| l + r)
}

/// What the hash equi-join yields: for each right row in order, its matches.
pub open spec fn hash_join_rows(le: Expr, re: Expr, ls: Seq<Seq<FieldView>>, rs: Seq<Seq<FieldView>>) -> Seq<Seq<FieldView>>
    decreases rs.len(),
{
    if rs.len() == 0 {
        Seq::empty()
    } else {
        hash_join_rows(le, re, ls, rs.drop_last()) + join_matches(le, re, ls, rs.last())
    }
}

/// The rows for a prefix of the right rows begin the rows for all of them.
pub proof fn lemma_hash_join_prefix(le: Expr, re: Expr, ls: Seq<Seq<FieldView>>, rs: Seq<Seq<FieldView>>, j: int)
    requires
        0 <= j <= rs.len(),
    ensures
        hash_join_rows(le, re, ls, rs.take(j)).len() <= hash_join_rows(le, re, ls, rs).len(),
        hash_join_rows(le, re, ls, rs.take(j)) == hash_join_rows(le, re, ls, rs).take(hash_join_rows(le, re, ls, rs.take(j)).len() as int),
    decreases rs.len() - j,
{
    if j == rs.len() {
        assert(rs.take(j) =~= rs);
    } else {
        lemma_hash_join_prefix(le, re, ls, rs, j + 1);
        assert(rs.take(j + 1).drop_last() =~= rs.take(j));
        let a = hash_join_rows(le, re, ls, rs.take(j));
        let b = hash_join_rows(le, re, ls, rs.take(j + 1));
        assert(b == a + join_matches(le, re, ls, rs[j]));
        let all = hash_join_rows(le, re, ls, rs);
        assert(a =~= all.take(a.len() as int));
    }
}

/// A bucket of the join table: a join key and the left tuples with that key.
#[derive(Debug)]
pub struct Bucket {
    key: Field,
    tuples: Vec<Tuple>,
}

impl Bucket {
    pub closed spec fn key_view(self) -> FieldView {
        self.key@
    }

    pub closed spec fn rows(self) -> Seq<Seq<FieldView>> {
        self.tuples@.map_values(|t: Tuple| t@)
    }
}

/// The table holds one bucket per distinct join key of `ls`, with that key's
/// left rows in order.
pub open spec fn table_models(table: Seq<Bucket>, le: Expr, ls: Seq<Seq<FieldView>>) -> bool {
    &&& forall|b: int, c: int|
        0 <= b < table.len() && 0 <= c < table.len() && b != c ==> (#[trigger] table[b]).key_view() != (#[trigger] table[c]).key_view()
    &&& forall|b: int| 0 <= b < table.len() ==> (#[trigger] table[b]).rows() == left_with_key(le, ls, table[b].key_view())
    &&& forall|b: int| 0 <= b < table.len() ==> (#[trigger] table[b]).rows().len() > 0
    &&& forall|k: FieldView|
        (#[trigger] left_with_key(le, ls, k)).len() > 0 ==> exists|b: int| 0 <= b < table.len() && (#[trigger] table[b]).key_view() == k
}

/// Hash equi-join of two child operators on `left_expr == right_expr`.
pub struct HashEqJoin<L: OpIterator, R: OpIterator> {
    schema: TableSchema,
    left_expr: Expr,
    right_expr: Expr,
    left_child: L,
    right_child: R,
    open: bool,
    current: Option<(Tuple, usize, usize)>,
    table: Vec<Bucket>,
}

fn find_bucket(table: &Vec<Bucket>, k: &Field) -> (r: Option<usize>)
    ensures
        r matches Some(b) ==> b < table@.len() && table@[b as int].key_view() == k@,
        r is None ==> forall|b: int| 0 <= b < table@.len() ==> (#[trigger] table@[b]).key_view() != k@,
{
    let mut b: usize = 0;
    while b < table.len()
        invariant
            b <= table@.len(),
            forall|c: int| 0 <= c < b ==> (#[trigger] table@[c]).key_view() != k@,
        decreases table@.len() - b,
    {
        if table[b].key.identical(k) {
            return Some(b);
        }
        b += 1;
    }
    None
}

impl<L: OpIterator, R: OpIterator> HashEqJoin<L, R> {
    /// A join of `left_child` and `right_child` yielding, for each right tuple,
    /// every left tuple with `left_expr` equal to the right tuple's
    /// `right_expr`, merged with it.
    pub fn new(schema: TableSchema, left_expr: Expr, right_expr: Expr, left_child: L, right_child: R) -> (j: HashEqJoin<L, R>)
        requires
            left_child.inv(),
            right_child.inv(),
            !left_child.is_open(),
            !right_child.is_open(),
        ensures
            j.inv(),
            !j.is_open(),
            j.stream() == hash_join_rows(left_expr, right_expr, left_child.stream(), right_child.stream()),
            j.opens_ok() == (left_child.opens_ok() && right_child.opens_ok()),
    {
        HashEqJoin {
            schema,
            left_expr,
            right_expr,
            left_child,
            right_child,
            open: false,
            current: None,
            table: Vec::new(),
        }
    }

    /// Adds a left tuple to the bucket of its key.
    fn add_to_table(&mut self, t: Tuple, ls: Ghost<Seq<Seq<FieldView>>>)
        requires
            table_models(old(self).table@, old(self).left_expr, ls@),
        ensures
            table_models(final(self).table@, final(self).left_expr, ls@.push(t@)),
            final(self).left_expr == old(self).left_expr,
            final(self).right_expr == old(self).right_expr,
            final(self).left_child == old(self).left_child,
            final(self).right_child == old(self).right_child,
            final(self).open == old(self).open,
            final(self).current == old(self).current,
    {
        let ghost le = self.left_expr;
        let ghost ls2 = ls@.push(t@);
        let ghost tb = self.table@;
        let k = self.left_expr.eval(&t).canonical();
        proof {
            assert(ls2.drop_last() =~= ls@);
            assert(ls2.last() == t@);
        }
        match find_bucket(&self.table, &k) {
            Some(b) => {
                let mut bucket = self.table.remove(b);
                let ghost before = bucket.rows();
                bucket.tuples.push(t);
                proof {
                    assert(bucket.rows() =~= before.push(t@));
                }
                self.table.insert(b, bucket);
                proof {
                    let tb2 = self.table@;
                    assert forall|c: int| 0 <= c < tb2.len() implies (#[trigger] tb2[c]).rows() == left_with_key(le, ls2, tb2[c].key_view()) by {
                        if c != b {
                            assert(tb2[c] == tb[c]);
                        }
                    }
                    assert forall|c: int| 0 <= c < tb2.len() implies (#[trigger] tb2[c]).rows().len() > 0 by {
                        if c != b {
                            assert(tb2[c] == tb[c]);
                        }
                    }
                    assert forall|kk: FieldView| (#[trigger] left_with_key(le, ls2, kk)).len() > 0 implies exists|c: int|
                        0 <= c < tb2.len() && (#[trigger] tb2[c]).key_view() == kk by {
                        if kk == k@ {
                            assert(tb2[b as int].key_view() == kk);
                        } else {
                            assert(left_with_key(le, ls2, kk) == left_with_key(le, ls@, kk));
                            let c = choose|c: int| 0 <= c < tb.len() && (#[trigger] tb[c]).key_view() == kk;
                            assert(tb2[c] == tb[c]);
                        }
                    }
                    assert forall|c: int, d: int|
                        0 <= c < tb2.len() && 0 <= d < tb2.len() && c != d implies (#[trigger] tb2[c]).key_view() != (#[trigger] tb2[d]).key_view() by {
                        assert(tb2[c].key_view() == tb[c].key_view());
                        assert(tb2[d].key_view() == tb[d].key_view());
                    }
                }
            },
            None => {
                let ghost kv = k@;
                let mut tuples: Vec<Tuple> = Vec::new();
                tuples.push(t);
                let bucket = Bucket { key: k, tuples };
                proof {
                    assert(left_with_key(le, ls@, kv).len() == 0) by {
                        if left_with_key(le, ls@, kv).len() > 0 {
                            let c = choose|c: int| 0 <= c < tb.len() && (#[trigger] tb[c]).key_view() == kv;
                        }
                    }
                    assert(bucket.rows() =~= left_with_key(le, ls2, kv));
                }
                self.table.push(bucket);
                proof {
                    let tb2 = self.table@;
                    assert forall|c: int| 0 <= c < tb2.len() implies (#[trigger] tb2[c]).rows() == left_with_key(le, ls2, tb2[c].key_view()) by {
                        if c < tb.len() {
                            assert(tb2[c] == tb[c]);
                            assert(tb[c].key_view() != kv);
                        }
                    }
                    assert forall|c: int| 0 <= c < tb2.len() implies (#[trigger] tb2[c]).rows().len() > 0 by {
                        if c < tb.len() {
                            assert(tb2[c] == tb[c]);
                        }
                    }
                    assert forall|kk: FieldView| (#[trigger] left_with_key(le, ls2, kk)).len() > 0 implies exists|c: int|
                        0 <= c < tb2.len() && (#[trigger] tb2[c]).key_view() == kk by {
                        if kk == kv {
                            assert(tb2[tb.len() as int].key_view() == kk);
                        } else {
                            assert(left_with_key(le, ls2, kk) == left_with_key(le, ls@, kk));
                            let c = choose|c: int| 0 <= c < tb.len() && (#[trigger] tb[c]).key_view() == kk;
                            assert(tb2[c] == tb[c]);
                        }
                    }
                    assert forall|c: int, d: int|
                        0 <= c < tb2.len() && 0 <= d < tb2.len() && c != d implies (#[trigger] tb2[c]).key_view() != (#[trigger] tb2[d]).key_view() by {
                        if c < tb.len() {
                            assert(tb2[c] == tb[c]);
                        }
                        if d < tb.len() {
                            assert(tb2[d] == tb[d]);
                        }
                    }
                }
            },
        }
    }
}


/// The rows for the first `j + 1` right rows are those for the first `j`,
/// followed by the matches of right row `j`.
proof fn lemma_hash_join_step(le: Expr, re: Expr, ls: Seq<Seq<FieldView>>, rs: Seq<Seq<FieldView>>, j: int)
    requires
        0 <= j < rs.len(),
    ensures
        hash_join_rows(le, re, ls, rs.take(j + 1)) == hash_join_rows(le, re, ls, rs.take(j)) + join_matches(le, re, ls, rs[j]),
{
    assert(rs.take(j + 1).drop_last() =~= rs.take(j));
}

impl<L: OpIterator, R: OpIterator> HashEqJoin<L, R> {
    /// The rows already yielded.
    pub closed spec fn done(&self) -> int {
        let ls = self.left_child.stream();
        let rs = self.right_child.stream();
        let rp = self.right_child.position();
        match self.current {
            Some((_, _, idx)) => hash_join_rows(self.left_expr, self.right_expr, ls, rs.take(rp - 1)).len() + idx,
            None => hash_join_rows(self.left_expr, self.right_expr, ls, rs.take(rp)).len() as int,
        }
    }
}

impl<L: OpIterator, R: OpIterator> OpIterator for HashEqJoin<L, R> {
    closed spec fn stream(&self) -> Seq<Seq<FieldView>> {
        hash_join_rows(self.left_expr, self.right_expr, self.left_child.stream(), self.right_child.stream())
    }

    closed spec fn position(&self) -> int {
        self.done()
    }

    closed spec fn is_open(&self) -> bool {
        self.open
    }

    closed spec fn inv(&self) -> bool {
        let ls = self.left_child.stream();
        let rs = self.right_child.stream();
        let rp = self.right_child.position();
        &&& self.left_child.inv()
        &&& self.right_child.inv()
        &&& !self.open ==> !self.left_child.is_open() && !self.right_child.is_open()
        &&& self.open ==> {
            &&& self.left_child.is_open()
            &&& self.right_child.is_open()
            &&& table_models(self.table@, self.left_expr, ls)
            &&& 0 <= rp <= rs.len()
            &&& self.current matches Some((r, b, idx)) ==> {
                &&& rp >= 1
                &&& r@ == rs[rp - 1]
                &&& b < self.table@.len()
                &&& self.table@[b as int].key_view() == canon(eval_spec(self.right_expr, r@))
                &&& 1 <= idx <= self.table@[b as int].rows().len()
            }
        }
    }

    closed spec fn opens_ok(&self) -> bool {
        self.left_child.opens_ok() && self.right_child.opens_ok()
    }

    fn configure(&mut self, will_rewind: bool) {
        self.left_child.configure(will_rewind);
        self.right_child.configure(will_rewind);
    }

    fn open(&mut self) -> (r: Result<(), ExecError>) {
        if self.open {
            proof {
                let ls = self.left_child.stream();
                let rs = self.right_child.stream();
                let rp = self.right_child.position();
                lemma_hash_join_prefix(self.left_expr, self.right_expr, ls, rs, rp);
                if let Some((_, b, idx)) = self.current {
                    lemma_hash_join_prefix(self.left_expr, self.right_expr, ls, rs, rp - 1);
                    lemma_hash_join_step(self.left_expr, self.right_expr, ls, rs, rp - 1);
                }
            }
            return Ok(());
        }
        self.table = Vec::new();
        self.current = None;
        match self.left_child.open() {
            Ok(()) => {},
            Err(e) => {
                return Err(e);
            },
        }
        match self.right_child.open() {
            Ok(()) => {},
            Err(e) => {
                let _ = self.left_child.close();
                return Err(e);
            },
        }
        let ghost ls = self.left_child.stream();
        proof {
            assert(ls.take(0) =~= Seq::<Seq<FieldView>>::empty());
        }
        loop
            invariant
                self.left_child.inv(),
                self.right_child.inv(),
                self.left_child.is_open(),
                self.right_child.is_open(),
                !self.open,
                self.current is None,
                ls == self.left_child.stream(),
                ls == old(self).left_child.stream(),
                self.right_child.stream() == old(self).right_child.stream(),
                self.left_child.opens_ok() && self.right_child.opens_ok(),
                self.left_child.opens_ok() == old(self).left_child.opens_ok(),
                self.right_child.opens_ok() == old(self).right_child.opens_ok(),
                self.left_expr == old(self).left_expr,
                self.right_expr == old(self).right_expr,
                !old(self).open,
                self.right_child.position() == 0,
                0 <= self.left_child.position() <= ls.len(),
                table_models(self.table@, self.left_expr, ls.take(self.left_child.position())),
            ensures
                self.left_child.inv(),
                self.right_child.inv(),
                self.left_child.is_open(),
                self.right_child.is_open(),
                !self.open,
                self.current is None,
                ls == self.left_child.stream(),
                self.right_child.stream() == old(self).right_child.stream(),
                self.left_child.opens_ok() && self.right_child.opens_ok(),
                self.left_child.opens_ok() == old(self).left_child.opens_ok(),
                self.right_child.opens_ok() == old(self).right_child.opens_ok(),
                self.left_expr == old(self).left_expr,
                self.right_expr == old(self).right_expr,
                self.right_child.position() == 0,
                table_models(self.table@, self.left_expr, ls),
            decreases ls.len() - self.left_child.position(),
        {
            let ghost lp = self.left_child.position();
            match self.left_child.next() {
                Ok(Some(t)) => {
                    proof {
                        assert(ls.take(lp + 1) =~= ls.take(lp).push(t@));
                    }
                    self.add_to_table(t, Ghost(ls.take(lp)));
                },
                Ok(None) => {
                    proof {
                        assert(ls.take(lp) =~= ls);
                    }
                    break;
                },
                Err(e) => {
                    let _ = self.left_child.close();
                    let _ = self.right_child.close();
                    return Err(e);
                },
            }
        }
        self.open = true;
        proof {
            assert(self.right_child.stream().take(0) =~= Seq::<Seq<FieldView>>::empty());
        }
        Ok(())
    }

    fn next(&mut self) -> (r: Result<Option<Tuple>, ExecError>) {
        let ghost le = self.left_expr;
        let ghost re = self.right_expr;
        let ghost ls = self.left_child.stream();
        let ghost rs = self.right_child.stream();
        let ghost all = hash_join_rows(le, re, ls, rs);
        proof {
            assert(rs.take(rs.len() as int) =~= rs);
        }
        match &self.current {
            Some((r, b, idx)) => {
                let b = *b;
                let idx = *idx;
                let ghost rp = self.right_child.position();
                proof {
                    lemma_hash_join_step(le, re, ls, rs, rp - 1);
                    lemma_hash_join_prefix(le, re, ls, rs, rp);
                    lemma_hash_join_prefix(le, re, ls, rs, rp - 1);
                }
                if idx < self.table[b].tuples.len() {
                    let t = self.table[b].tuples[idx].merge(r);
                    let rr = r.copy_tuple();
                    proof {
                        let h = hash_join_rows(le, re, ls, rs.take(rp - 1));
                        let jm = join_matches(le, re, ls, rs[rp - 1]);
                        assert(jm[idx as int] == self.table@[b as int].rows()[idx as int] + r@);
                        assert(self.table@[b as int].rows()[idx as int] == self.table@[b as int].tuples@[idx as int]@);
                        assert((h + jm)[h.len() + idx] == jm[idx as int]);
                        assert(all[h.len() + idx] == jm[idx as int]);
                    }
                    self.current = Some((rr, b, idx + 1));
                    return Ok(Some(t));
                }
            },
            None => {},
        }
        self.current = None;
        loop
            invariant
                self.inv(),
                self.open,
                self.current is None,
                le == self.left_expr,
                re == self.right_expr,
                ls == self.left_child.stream(),
                rs == self.right_child.stream(),
                all == hash_join_rows(le, re, ls, rs),
                rs.take(rs.len() as int) == rs,
                self.done() == old(self).done(),
                self.left_child.opens_ok() == old(self).left_child.opens_ok(),
                self.right_child.opens_ok() == old(self).right_child.opens_ok(),
                old(self).left_child.stream() == ls,
                old(self).right_child.stream() == rs,
                old(self).left_expr == le,
                old(self).right_expr == re,
                old(self).done() <= all.len(),
            decreases rs.len() - self.right_child.position(),
        {
            let ghost rp = self.right_child.position();
            match self.right_child.next() {
                Ok(Some(r)) => {
                    proof {
                        lemma_hash_join_step(le, re, ls, rs, rp);
                        lemma_hash_join_prefix(le, re, ls, rs, rp + 1);
                    }
                    let k = self.right_expr.eval(&r).canonical();
                    match find_bucket(&self.table, &k) {
                        Some(b) => {
                            let t = self.table[b].tuples[0].merge(&r);
                            proof {
                                let h = hash_join_rows(le, re, ls, rs.take(rp));
                                let jm = join_matches(le, re, ls, rs[rp]);
                                assert(self.table@[b as int].rows().len() > 0);
                                assert(jm[0] == self.table@[b as int].rows()[0] + r@);
                                assert(self.table@[b as int].rows()[0] == self.table@[b as int].tuples@[0]@);
                                assert((h + jm)[h.len() as int] == jm[0]);
                                assert(all[h.len() as int] == jm[0]);
                            }
                            if self.table[b].tuples.len() > 1 {
                                self.current = Some((r, b, 1));
                            }
                            return Ok(Some(t));
                        },
                        None => {
                            proof {
                                let kv = canon(eval_spec(re, rs[rp]));
                                if left_with_key(le, ls, kv).len() > 0 {
                                    let c = choose|c: int| 0 <= c < self.table@.len() && (#[trigger] self.table@[c]).key_view() == kv;
                                }
                                assert(join_matches(le, re, ls, rs[rp]) =~= Seq::<Seq<FieldView>>::empty());
                                assert(hash_join_rows(le, re, ls, rs.take(rp + 1)) =~= hash_join_rows(le, re, ls, rs.take(rp)));
                            }
                        },
                    }
                },
                Ok(None) => {
                    return Ok(None);
                },
                Err(e) => {
                    return Err(e);
                },
            }
        }
    }

    fn close(&mut self) -> (r: Result<(), ExecError>) {
        let _ = self.left_child.close();
        let _ = self.right_child.close();
        self.open = false;
        self.current = None;
        self.table = Vec::new();
        Ok(())
    }

    fn rewind(&mut self) -> (r: Result<(), ExecError>) {
        let _ = self.left_child.rewind();
        let _ = self.right_child.rewind();
        self.current = None;
        proof {
            assert(self.right_child.stream().take(0) =~= Seq::<Seq<FieldView>>::empty());
        }
        Ok(())
    }

    fn get_schema(&self) -> &TableSchema {
        &self.schema
    }
}

} // verus!
