//! The protocol shared by all physical operators (configure, open, next, close,
//! rewind), stated over the sequence of tuples an operator yields, and the
//! in-memory source operator.

use vstd::prelude::*;
use crate::tuple::{FieldView, TableSchema, Tuple};

verus! {

/// An error raised while running an operator.
#[derive(Debug)]
pub enum ExecError {
    /// An aggregate met a value it cannot add, or a sum or count overflowed.
    Arithmetic,
}

pub open spec fn tuples_view(ts: Seq<Tuple>) -> Seq<Seq<FieldView>> {
    ts.map_values(|t: Tuple| t@)
}

/// A pull-based physical operator. Once open, it yields `stream()` one tuple
/// per `next`, from `position()` on; `rewind` returns to the start.
pub trait OpIterator {
    /// Every tuple the operator yields after `open`, in order.
    spec fn stream(&self) -> Seq<Seq<FieldView>>;

    /// How many tuples of the stream have been yielded since the last open or rewind.
    spec fn position(&self) -> int;

    spec fn is_open(&self) -> bool;

    /// The operator's internal invariant.
    spec fn inv(&self) -> bool;

    /// Whether opening succeeds.
    spec fn opens_ok(&self) -> bool;

    /// Tells the operator, before it is opened, whether it may be rewound later.
    fn configure(&mut self, will_rewind: bool)
        requires
            old(self).inv(),
        ensures
            final(self).inv(),
            final(self).stream() == old(self).stream(),
            final(self).opens_ok() == old(self).opens_ok(),
            final(self).is_open() == old(self).is_open(),
            final(self).position() == old(self).position(),
    ;

    /// Opens the operator; does nothing if it is open already.
    fn open(&mut self) -> (r: Result<(), ExecError>)
        requires
            old(self).inv(),
        ensures
            final(self).inv(),
            final(self).stream() == old(self).stream(),
            final(self).opens_ok() == old(self).opens_ok(),
            old(self).is_open() ==> r is Ok && final(self).is_open() && final(self).position() == old(self).position(),
            !old(self).is_open() ==> (r is Ok <==> old(self).opens_ok()),
            !old(self).is_open() && r is Ok ==> final(self).is_open() && final(self).position() == 0,
            r is Ok ==> 0 <= final(self).position() <= final(self).stream().len(),
            r is Err ==> !final(self).is_open(),
    ;

    /// The next tuple of the stream, or none at its end.
    fn next(&mut self) -> (r: Result<Option<Tuple>, ExecError>)
        requires
            old(self).inv(),
            old(self).is_open(),
            0 <= old(self).position() <= old(self).stream().len(),
        ensures
            final(self).inv(),
            final(self).is_open(),
            final(self).stream() == old(self).stream(),
            final(self).opens_ok() == old(self).opens_ok(),
            0 <= final(self).position() <= final(self).stream().len(),
            old(self).position() < old(self).stream().len() ==> (r matches Ok(Some(t)) && t@ == old(
                self,
            ).stream()[old(self).position()] && final(self).position() == old(self).position() + 1),
            old(self).position() >= old(self).stream().len() ==> (r matches Ok(None) && final(self).position()
                == old(self).position()),
    ;

    /// Releases the operator's state and closes its children.
    fn close(&mut self) -> (r: Result<(), ExecError>)
        requires
            old(self).inv(),
        ensures
            final(self).inv(),
            !final(self).is_open(),
            final(self).stream() == old(self).stream(),
            final(self).opens_ok() == old(self).opens_ok(),
            r is Ok,
    ;

    /// Returns to the start of the stream without closing.
    fn rewind(&mut self) -> (r: Result<(), ExecError>)
        requires
            old(self).inv(),
            old(self).is_open(),
        ensures
            final(self).inv(),
            final(self).is_open(),
            final(self).position() == 0,
            final(self).stream() == old(self).stream(),
            final(self).opens_ok() == old(self).opens_ok(),
            r is Ok,
    ;

    fn get_schema(&self) -> &TableSchema;
}

/// An operator over tuples held in memory.
pub struct TupleIterator {
    tuples: Vec<Tuple>,
    schema: TableSchema,
    index: usize,
    open: bool,
}

impl TupleIterator {
    pub fn new(tuples: Vec<Tuple>, schema: TableSchema) -> (it: TupleIterator)
        ensures
            it.inv(),
            !it.is_open(),
            it.opens_ok(),
            it.stream() == tuples_view(tuples@),
    {
        TupleIterator { tuples, schema, index: 0, open: false }
    }
}

impl OpIterator for TupleIterator {
    closed spec fn stream(&self) -> Seq<Seq<FieldView>> {
        tuples_view(self.tuples@)
    }

    closed spec fn position(&self) -> int {
        self.index as int
    }

    closed spec fn is_open(&self) -> bool {
        self.open
    }

    closed spec fn inv(&self) -> bool {
        self.index <= self.tuples@.len()
    }

    closed spec fn opens_ok(&self) -> bool {
        true
    }

    fn configure(&mut self, will_rewind: bool) {
    }

    fn open(&mut self) -> (r: Result<(), ExecError>) {
        if !self.open {
            self.open = true;
            self.index = 0;
        }
        Ok(())
    }

    fn next(&mut self) -> (r: Result<Option<Tuple>, ExecError>) {
        if self.index < self.tuples.len() {
            let t = self.tuples[self.index].copy_tuple();
            self.index = self.index + 1;
            Ok(Some(t))
        } else {
            Ok(None)
        }
    }

    fn close(&mut self) -> (r: Result<(), ExecError>) {
        self.open = false;
        Ok(())
    }

    fn rewind(&mut self) -> (r: Result<(), ExecError>) {
        self.index = 0;
        Ok(())
    }

    fn get_schema(&self) -> &TableSchema {
        &self.schema
    }
}

} // verus!
