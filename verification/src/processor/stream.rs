//! Streams of rows between the steps of a plan.
use vstd::prelude::*;
use vstd::slice::slice_to_vec;

use crate::catalog::schema::{Schema, SchemaView};
use crate::catalog::value::Value;
use crate::catalog::CatalogError;
use crate::errors::{index_name, name_index};
use crate::index::IndexError;
use crate::processor::expression::{computes, eval, results, ExecutorError, Expression, FloatOp};
use crate::table_heap::{RecordId, TableHeapError, Tuple};
use crate::text::joined;

verus! {

/// The rows that a step produces one after the other, and the error with which it ends.
pub struct RowStream {
    pub rows: Vec<(Tuple, RecordId)>,
    pub error: Option<ExecutorError>,
}

pub type RowView = (Seq<u8>, RecordId);

#[verifier::ext_equal]
pub struct StreamView {
    pub rows: Seq<RowView>,
    pub error: Option<Seq<char>>,
}

pub open spec fn row_view(row: (Tuple, RecordId)) -> RowView {
    (row.0.data@, row.1)
}

pub open spec fn row_views(rows: Seq<(Tuple, RecordId)>) -> Seq<RowView> {
    Seq::new(rows.len(), |i: int| row_view(rows[i]))
}

pub open spec fn error_view(e: Option<ExecutorError>) -> Option<Seq<char>> {
    match e {
        Some(x) => Some(x.0@),
        None => None,
    }
}

impl View for RowStream {
    type V = StreamView;

    open spec fn view(&self) -> StreamView {
        StreamView { rows: row_views(self.rows@), error: error_view(self.error) }
    }
}

/// A stream of some rows without an error.
pub open spec fn rows_only(rows: Seq<RowView>) -> StreamView {
    StreamView { rows, error: None }
}

/// A stream that fails at once.
pub open spec fn fails(message: Seq<char>) -> StreamView {
    StreamView { rows: Seq::empty(), error: Some(message) }
}

/// The streams `f(0)` to `f(n - 1)` one after the other, up to the first error.
pub open spec fn flat(f: spec_fn(int) -> StreamView, n: int) -> StreamView
    decreases n,
{
    if n <= 0 {
        rows_only(Seq::empty())
    } else {
        let before = flat(f, n - 1);
        if before.error is Some {
            before
        } else {
            StreamView { rows: before.rows + f(n - 1).rows, error: f(n - 1).error }
        }
    }
}

/// A stream that goes on, where it did not fail, with the error of the stream it came from.
pub open spec fn ending(s: StreamView, error: Option<Seq<char>>) -> StreamView {
    StreamView { rows: s.rows, error: if s.error is Some { s.error } else { error } }
}

/// Once a part has failed, what would come after it does not matter.
pub proof fn lemma_flat_stops(f: spec_fn(int) -> StreamView, m: int, n: int)
    requires
        0 <= m <= n,
        flat(f, m).error is Some,
    ensures
        flat(f, n) == flat(f, m),
    decreases n,
{
    if m < n {
        lemma_flat_stops(f, m, n - 1);
    }
}

/// A row that no table stores.
pub open spec fn unstored(data: Seq<u8>) -> RowView {
    (data, RecordId::no_record())
}

/// One row without a place in a table, or the error that kept it from being made.
pub open spec fn one_row(r: Result<Seq<u8>, Seq<char>>) -> StreamView {
    match r {
        Ok(data) => rows_only(seq![unstored(data)]),
        Err(e) => fails(e),
    }
}

pub fn clone_tuple(t: &Tuple) -> (res: Tuple)
    ensures
        res.data@ == t.data@,
{
    Tuple { data: slice_to_vec(t.data.as_slice()) }
}

impl RowStream {
    pub fn empty() -> (res: Self)
        ensures
            res@ == rows_only(Seq::empty()),
    {
        let res = RowStream { rows: Vec::new(), error: None };
        assert(res@.rows =~= Seq::empty());
        res
    }

    pub fn failed(e: ExecutorError) -> (res: Self)
        ensures
            res@ == fails(e.0@),
    {
        let res = RowStream { rows: Vec::new(), error: Some(e) };
        assert(res@.rows =~= Seq::empty());
        res
    }

    /// Appends a row.
    pub fn add(&mut self, tuple: Tuple, rid: RecordId)
        ensures
            final(self)@ == (StreamView {
                rows: old(self)@.rows.push((tuple.data@, rid)),
                error: old(self)@.error,
            }),
    {
        self.rows.push((tuple, rid));
        assert(self@.rows =~= old(self)@.rows.push((tuple.data@, rid)));
    }

    /// Takes the next row: `Ok(None)` once all rows were taken, and the error in place of it
    /// where there is one. A stream that failed fails again.
    pub fn next(&mut self) -> (res: Result<Option<(Tuple, RecordId)>, ExecutorError>)
        ensures
            old(self)@.rows.len() > 0 ==> {
                &&& res matches Ok(Some(row)) && row_view(row) == old(self)@.rows[0]
                &&& final(self)@ == (StreamView {
                    rows: old(self)@.rows.drop_first(),
                    error: old(self)@.error,
                })
            },
            old(self)@.rows.len() == 0 ==> {
                &&& match old(self)@.error {
                    Some(m) => res matches Err(e) && e.0@ == m,
                    None => res matches Ok(None),
                }
                &&& final(self)@ == old(self)@
            },
    {
        if self.rows.len() > 0 {
            let row = self.rows.remove(0);
            assert(self@.rows =~= old(self)@.rows.drop_first());
            Ok(Some(row))
        } else {
            match &self.error {
                Some(x) => Err(ExecutorError(x.0.clone())),
                None => Ok(None),
            }
        }
    }
}

/// The text of a catalog error.
pub open spec fn catalog_text(e: CatalogError) -> Seq<char> {
    match e {
        CatalogError::TupleSchemaMismatch => "TupleSchemaMismatch"@,
        CatalogError::ColumnOutOfBounds => "ColumnOutOfBounds"@,
        CatalogError::ColumnNotFound => "ColumnNotFound"@,
        CatalogError::TableExists => "TableExists"@,
        CatalogError::TableDoesNotExist => "TableDoesNotExist"@,
        CatalogError::IndexExists => "IndexExists"@,
        CatalogError::IndexDoesNotExist => "IndexDoesNotExist"@,
        CatalogError::IndexCreationError(m) => "IndexCreationError(\""@ + m@ + "\")"@,
    }
}

pub open spec fn catalog_message(e: CatalogError) -> Seq<char> {
    "catalog error: "@ + catalog_text(e)
}

pub fn catalog_failure(e: CatalogError) -> (res: ExecutorError)
    ensures
        res.0@ == catalog_message(e),
{
    let text = match e {
        CatalogError::TupleSchemaMismatch => "TupleSchemaMismatch".to_owned(),
        CatalogError::ColumnOutOfBounds => "ColumnOutOfBounds".to_owned(),
        CatalogError::ColumnNotFound => "ColumnNotFound".to_owned(),
        CatalogError::TableExists => "TableExists".to_owned(),
        CatalogError::TableDoesNotExist => "TableDoesNotExist".to_owned(),
        CatalogError::IndexExists => "IndexExists".to_owned(),
        CatalogError::IndexDoesNotExist => "IndexDoesNotExist".to_owned(),
        CatalogError::IndexCreationError(m) => {
            let mut s = joined("IndexCreationError(\"", m.as_str());
            s.append("\")");
            s
        },
    };
    ExecutorError(joined("catalog error: ", text.as_str()))
}

pub open spec fn heap_message(e: Seq<char>) -> Seq<char> {
    "table heap error: TableHeapError(\""@ + e + "\")"@
}

pub fn heap_failure(e: TableHeapError) -> (res: ExecutorError)
    ensures
        res.0@ == heap_message(e.0@),
{
    let mut s = joined("table heap error: TableHeapError(\"", e.0.as_str());
    s.append("\")");
    ExecutorError(s)
}

pub open spec fn index_message(e: IndexError) -> Seq<char> {
    "index error: "@ + index_name(e)
}

pub fn index_failure(e: IndexError) -> (res: ExecutorError)
    ensures
        res.0@ == index_message(e),
{
    ExecutorError(joined("index error: ", name_index(&e).as_str()))
}

/// The values of several expressions on one tuple, or the first error.
pub open spec fn eval_all(
    fl: spec_fn(FloatOp, u32, u32) -> u32,
    exprs: Seq<Expression>,
    data: Seq<u8>,
    s: SchemaView,
) -> Result<Seq<Option<Value>>, Seq<char>>
    decreases exprs.len(),
{
    if exprs.len() == 0 {
        Ok(Seq::empty())
    } else {
        match eval_all(fl, exprs.drop_last(), data, s) {
            Err(e) => Err(e),
            Ok(vs) => match eval(fl, exprs.last(), data, s) {
                Err(e) => Err(e),
                Ok(v) => Ok(vs.push(v)),
            },
        }
    }
}

/// A vector of values stands for what several expressions give.
pub open spec fn gives_all(
    res: Result<Vec<Option<Value>>, ExecutorError>,
    e: Result<Seq<Option<Value>>, Seq<char>>,
) -> bool {
    match res {
        Ok(v) => e == Ok::<Seq<Option<Value>>, Seq<char>>(v@),
        Err(x) => e == Err::<Seq<Option<Value>>, Seq<char>>(x.0@),
    }
}

pub proof fn lemma_eval_all_fails(
    fl: spec_fn(FloatOp, u32, u32) -> u32,
    exprs: Seq<Expression>,
    data: Seq<u8>,
    s: SchemaView,
    m: int,
)
    requires
        0 <= m <= exprs.len(),
        eval_all(fl, exprs.subrange(0, m), data, s) is Err,
    ensures
        eval_all(fl, exprs, data, s) == eval_all(fl, exprs.subrange(0, m), data, s),
    decreases exprs.len(),
{
    if m < exprs.len() {
        assert(exprs.drop_last().subrange(0, m) =~= exprs.subrange(0, m));
        lemma_eval_all_fails(fl, exprs.drop_last(), data, s, m);
    } else {
        assert(exprs.subrange(0, m) =~= exprs);
    }
}

/// Evaluates several expressions on one tuple.
pub fn evaluate_all<F: Fn(FloatOp, u32, u32) -> u32>(
    exprs: &Vec<Expression>,
    tuple: &Tuple,
    schema: &Schema,
    fl: &F,
) -> (res: Result<Vec<Option<Value>>, ExecutorError>)
    requires
        computes(*fl),
    ensures
        gives_all(res, eval_all(results(*fl), exprs@, tuple.data@, schema@)),
        res matches Ok(v) ==> v@.len() == exprs@.len(),
{
    let mut vals: Vec<Option<Value>> = Vec::new();
    let mut i: usize = 0;
    assert(exprs@.subrange(0, 0) =~= Seq::empty());
    while i < exprs.len()
        invariant
            i <= exprs@.len(),
            computes(*fl),
            vals@.len() == i,
            eval_all(results(*fl), exprs@.subrange(0, i as int), tuple.data@, schema@) == Ok::<
                Seq<Option<Value>>,
                Seq<char>,
            >(vals@),
        decreases exprs@.len() - i,
    {
        proof {
            assert(exprs@.subrange(0, i + 1).drop_last() =~= exprs@.subrange(0, i as int));
            assert(exprs@.subrange(0, i + 1).last() == exprs@[i as int]);
        }
        match exprs[i].evaluate(tuple, schema, fl) {
            Ok(v) => vals.push(v),
            Err(e) => {
                proof {
                    lemma_eval_all_fails(results(*fl), exprs@, tuple.data@, schema@, i + 1);
                }
                return Err(e);
            },
        }
        i += 1;
    }
    assert(exprs@.subrange(0, i as int) =~= exprs@);
    Ok(vals)
}

/// The bytes of a tuple with these values, or the error where they do not fit the schema.
pub open spec fn encoded(s: SchemaView, values: Seq<Option<Value>>) -> Result<Seq<u8>, Seq<char>> {
    if s.accepts(values) {
        Ok(s.row(values))
    } else {
        Err(catalog_message(CatalogError::TupleSchemaMismatch))
    }
}

/// A tuple stands for what encoding gives.
pub open spec fn gives_tuple(
    res: Result<Tuple, ExecutorError>,
    e: Result<Seq<u8>, Seq<char>>,
) -> bool {
    match res {
        Ok(t) => e == Ok::<Seq<u8>, Seq<char>>(t.data@),
        Err(x) => e == Err::<Seq<u8>, Seq<char>>(x.0@),
    }
}

pub fn encode(schema: &Schema, values: &Vec<Option<Value>>) -> (res: Result<Tuple, ExecutorError>)
    requires
        schema@.wf(),
    ensures
        gives_tuple(res, encoded(schema@, values@)),
{
    match schema.encode_tuple(values.as_slice()) {
        Ok(t) => Ok(t),
        Err(e) => Err(catalog_failure(e)),
    }
}

/// The values of the first `n` columns of a tuple, or the error of the first one that cannot
/// be read.
pub open spec fn fields(s: SchemaView, data: Seq<u8>, n: int) -> Result<
    Seq<Option<Value>>,
    Seq<char>,
>
    decreases n,
{
    if n <= 0 {
        Ok(Seq::empty())
    } else {
        match fields(s, data, n - 1) {
            Err(e) => Err(e),
            Ok(vs) => match s.field(data, n - 1) {
                Err(e) => Err(catalog_message(e)),
                Ok(v) => Ok(vs.push(v)),
            },
        }
    }
}

pub open spec fn all_fields(s: SchemaView, data: Seq<u8>) -> Result<
    Seq<Option<Value>>,
    Seq<char>,
> {
    fields(s, data, s.cols.len() as int)
}

pub proof fn lemma_fields_fail(s: SchemaView, data: Seq<u8>, m: int, n: int)
    requires
        0 <= m <= n,
        fields(s, data, m) is Err,
    ensures
        fields(s, data, n) == fields(s, data, m),
    decreases n,
{
    if m < n {
        lemma_fields_fail(s, data, m, n - 1);
    }
}

/// Appends the values of all columns of a tuple to `out`.
pub fn read_fields(schema: &Schema, tuple: &Tuple, out: &mut Vec<Option<Value>>) -> (res: Result<
    (),
    ExecutorError,
>)
    ensures
        match res {
            Ok(_) => all_fields(schema@, tuple.data@) matches Ok(vs) && final(out)@ == old(out)@
                + vs && vs.len() == schema@.cols.len(),
            Err(e) => all_fields(schema@, tuple.data@) == Err::<Seq<Option<Value>>, Seq<char>>(
                e.0@,
            ),
        },
{
    let mut i: usize = 0;
    let ghost mut vs: Seq<Option<Value>> = Seq::empty();
    assert(out@ =~= old(out)@ + vs);
    while i < schema.cols.len()
        invariant
            i <= schema.cols@.len(),
            vs.len() == i,
            fields(schema@, tuple.data@, i as int) == Ok::<Seq<Option<Value>>, Seq<char>>(vs),
            out@ == old(out)@ + vs,
        decreases schema.cols@.len() - i,
    {
        match schema.get_value(tuple, i) {
            Ok(v) => {
                out.push(v);
                proof {
                    assert(out@ =~= old(out)@ + vs.push(v));
                    vs = vs.push(v);
                }
            },
            Err(e) => {
                proof {
                    lemma_fields_fail(
                        schema@,
                        tuple.data@,
                        i + 1,
                        schema@.cols.len() as int,
                    );
                }
                return Err(catalog_failure(e));
            },
        }
        i += 1;
    }
    Ok(())
}

} // verus!
