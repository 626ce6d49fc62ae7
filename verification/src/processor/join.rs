//! Joins.
use vstd::prelude::*;

use crate::catalog::schema::{Schema, SchemaView};
use crate::catalog::value::Value;
use crate::processor::executor::Executor;
use crate::processor::expression::{
    boolean, computes, eval_join, results, ExecutorError, Expression, FloatOp,
};
use crate::processor::plan::{JoinType, NestedLoopJoinPlanNode};
use crate::processor::stream::{
    all_fields, encode, encoded, ending, fails, flat, gives_tuple, lemma_flat_stops, one_row,
    read_fields, rows_only, unstored, RowStream, RowView, StreamView,
};
use crate::table_heap::{RecordId, Tuple};

verus! {

pub open spec fn nulls(n: nat) -> Seq<Option<Value>> {
    Seq::new(n, |i: int| None)
}

/// The values of the right side of a joined row: those of a tuple, or NULLs where no tuple
/// matched.
pub open spec fn right_fields(r: SchemaView, rdata: Option<Seq<u8>>) -> Result<
    Seq<Option<Value>>,
    Seq<char>,
> {
    match rdata {
        Some(d) => all_fields(r, d),
        None => Ok(nulls(r.cols.len())),
    }
}

/// The tuple that joins a left tuple with a right one, or with NULLs.
pub open spec fn joined_tuple(
    out: SchemaView,
    l: SchemaView,
    ldata: Seq<u8>,
    r: SchemaView,
    rdata: Option<Seq<u8>>,
) -> Result<Seq<u8>, Seq<char>> {
    match (all_fields(l, ldata), right_fields(r, rdata)) {
        (Err(e), _) => Err(e),
        (_, Err(e)) => Err(e),
        (Ok(a), Ok(b)) => encoded(out, a + b),
    }
}

/// Joins a left tuple with a right one, or with NULLs.
pub fn join_tuples(
    out: &Schema,
    left_schema: &Schema,
    left: &Tuple,
    right_schema: &Schema,
    right: Option<&Tuple>,
) -> (res: Result<Tuple, ExecutorError>)
    requires
        out@.wf(),
    ensures
        gives_tuple(
            res,
            joined_tuple(
                out@,
                left_schema@,
                left.data@,
                right_schema@,
                match right {
                    Some(t) => Some(t.data@),
                    None => None,
                },
            ),
        ),
{
    let mut combined: Vec<Option<Value>> = Vec::new();
    match read_fields(left_schema, left, &mut combined) {
        Ok(_) => {},
        Err(e) => { return Err(e); },
    }
    let ghost a = combined@;
    assert(all_fields(left_schema@, left.data@)->Ok_0 =~= a);
    match right {
        Some(t) => {
            match read_fields(right_schema, t, &mut combined) {
                Ok(_) => {},
                Err(e) => { return Err(e); },
            }
        },
        None => {
            let mut i: usize = 0;
            assert(combined@ =~= a + nulls(0));
            while i < right_schema.cols.len()
                invariant
                    i <= right_schema.cols@.len(),
                    combined@ == a + nulls(i as nat),
                decreases right_schema.cols@.len() - i,
            {
                combined.push(None);
                i += 1;
                assert(combined@ =~= a + nulls(i as nat));
            }
        },
    }
    encode(out, &combined)
}

/// Joins each left row with the right rows on which the predicate is true.
pub struct NestedLoopJoinExecutor<'a> {
    pub plan: &'a NestedLoopJoinPlanNode,
    pub left: RowStream,
    pub left_schema: &'a Schema,
    pub right: RowStream,
    pub right_schema: &'a Schema,
    /// What is still to come. Before the step is opened it knows of no right rows.
    pub output: RowStream,
    pub opened: bool,
}

/// What a join is made of.
pub struct JoinView {
    pub predicate: Expression,
    pub join_type: JoinType,
    pub out: SchemaView,
    pub left: SchemaView,
    pub right: SchemaView,
}

/// The joined row of a left and a right row, where the predicate is true on them.
pub open spec fn pair_part(
    fl: spec_fn(FloatOp, u32, u32) -> u32,
    j: JoinView,
    ldata: Seq<u8>,
    rights: Seq<RowView>,
) -> spec_fn(int) -> StreamView {
    |k: int|
        match eval_join(fl, j.predicate, ldata, j.left, rights[k].0, j.right) {
            Err(e) => fails(e),
            Ok(v) => if v == boolean(true) {
                one_row(joined_tuple(j.out, j.left, ldata, j.right, Some(rights[k].0)))
            } else {
                rows_only(Seq::empty())
            },
        }
}

/// The matches of a left row; for a left join a row with NULLs where there are none.
pub open spec fn left_matches(
    fl: spec_fn(FloatOp, u32, u32) -> u32,
    j: JoinView,
    ldata: Seq<u8>,
    rights: Seq<RowView>,
) -> StreamView {
    let matches = flat(pair_part(fl, j, ldata, rights), rights.len() as int);
    if j.join_type == JoinType::Left && matches == rows_only(Seq::empty()) {
        one_row(joined_tuple(j.out, j.left, ldata, j.right, None))
    } else {
        matches
    }
}

pub open spec fn lefts_part(
    fl: spec_fn(FloatOp, u32, u32) -> u32,
    j: JoinView,
    lefts: Seq<RowView>,
    rights: Seq<RowView>,
) -> spec_fn(int) -> StreamView {
    |i: int| left_matches(fl, j, lefts[i].0, rights)
}

pub open spec fn unmatched_part(j: JoinView, lefts: Seq<RowView>) -> spec_fn(int) -> StreamView {
    |i: int|
        if j.join_type == JoinType::Left {
            one_row(joined_tuple(j.out, j.left, lefts[i].0, j.right, None))
        } else {
            rows_only(Seq::empty())
        }
}

/// What a join gives that knows of no right rows.
pub open spec fn unmatched_stream(j: JoinView, left: StreamView) -> StreamView {
    ending(flat(unmatched_part(j, left.rows), left.rows.len() as int), left.error)
}

/// All joined rows, ordered by the left row and then by the right one. The right rows are read
/// before the first left one, so an error among them comes first.
pub open spec fn loop_join_stream(
    fl: spec_fn(FloatOp, u32, u32) -> u32,
    j: JoinView,
    left: StreamView,
    right: StreamView,
) -> StreamView {
    match right.error {
        Some(e) => fails(e),
        None => ending(
            flat(lefts_part(fl, j, left.rows, right.rows), left.rows.len() as int),
            left.error,
        ),
    }
}

pub open spec fn loop_join_of(
    plan: NestedLoopJoinPlanNode,
    left: SchemaView,
    right: SchemaView,
) -> JoinView {
    JoinView {
        predicate: plan.predicate,
        join_type: plan.join_type,
        out: plan.schema@,
        left,
        right,
    }
}

impl<'a> NestedLoopJoinExecutor<'a> {
    pub fn new(
        plan: &'a NestedLoopJoinPlanNode,
        left: RowStream,
        left_schema: &'a Schema,
        right: RowStream,
        right_schema: &'a Schema,
    ) -> (res: Self)
        requires
            plan.schema@.wf(),
        ensures
            res.plan == plan,
            res.left == left,
            res.left_schema == left_schema,
            res.right == right,
            res.right_schema == right_schema,
            !res.opened,
            res.output@ == unmatched_stream(res.join(), left@),
    {
        let ghost j = loop_join_of(*plan, left_schema@, right_schema@);
        let ghost f = unmatched_part(j, left@.rows);
        let mut out = RowStream::empty();
        let mut i: usize = 0;
        while out.error.is_none() && i < left.rows.len()
            invariant
                i <= left.rows@.len(),
                plan.schema@.wf(),
                j == loop_join_of(*plan, left_schema@, right_schema@),
                f == unmatched_part(j, left@.rows),
                out@ == flat(f, i as int),
            decreases left.rows@.len() - i,
        {
            let ghost before = out@;
            let lt = &left.rows[i].0;
            assert(left@.rows[i as int].0 == lt.data@);
            if plan.join_type == JoinType::Left {
                match join_tuples(&plan.schema, left_schema, lt, right_schema, None) {
                    Ok(t) => {
                        out.add(t, RecordId::reserved());
                        assert(out@.rows =~= before.rows + seq![unstored(t.data@)]);
                    },
                    Err(e) => {
                        out.error = Some(e);
                        assert(out@.rows =~= before.rows + Seq::empty());
                    },
                }
            } else {
                assert(out@.rows =~= before.rows + Seq::empty());
            }
            i += 1;
            assert(out@ == flat(f, i as int));
        }
        proof {
            if out@.error is Some {
                lemma_flat_stops(f, i as int, left@.rows.len() as int);
            }
        }
        if out.error.is_none() {
            if let Some(e) = &left.error {
                out.error = Some(ExecutorError(e.0.clone()));
            }
        }
        NestedLoopJoinExecutor {
            plan,
            left,
            left_schema,
            right,
            right_schema,
            output: out,
            opened: false,
        }
    }

    pub open spec fn join(&self) -> JoinView {
        loop_join_of(*self.plan, self.left_schema@, self.right_schema@)
    }

    /// Takes the left rows that the next row is made from: one for a left join, else all of them.
    fn pass_left(&mut self)
        ensures
            *final(self) == (Self { left: final(self).left, ..*old(self) }),
            final(self).left@.error == old(self).left@.error,
            final(self).left@.rows == if old(self).plan.join_type != JoinType::Left || old(
                self,
            ).left@.rows.len() == 0 {
                Seq::empty()
            } else {
                old(self).left@.rows.drop_first()
            },
    {
        if self.plan.join_type == JoinType::Left {
            let _row = self.left.next();
        } else {
            self.left.rows = Vec::new();
            assert(self.left@.rows =~= Seq::empty());
        }
        proof {
            if old(self).left@.rows.len() == 0 {
                assert(self.left@.rows =~= Seq::empty());
            }
        }
    }

    /// Appends what one left row gives.
    fn match_left<F: Fn(FloatOp, u32, u32) -> u32>(&self, lt: &Tuple, out: &mut RowStream, fl: &F)
        requires
            computes(*fl),
            self.plan.schema@.wf(),
            old(out)@.error is None,
        ensures
            ({
                let part = left_matches(results(*fl), self.join(), lt.data@, self.right@.rows);
                final(out)@ == (StreamView { rows: old(out)@.rows + part.rows, error: part.error })
            }),
    {
        let ghost f = pair_part(results(*fl), self.join(), lt.data@, self.right@.rows);
        let ghost start = out@.rows;
        let mut left_matched: bool = false;
        let mut k: usize = 0;
        assert(out@.rows =~= start + flat(f, 0).rows);
        while out.error.is_none() && k < self.right.rows.len()
            invariant
                k <= self.right.rows@.len(),
                computes(*fl),
                self.plan.schema@.wf(),
                f == pair_part(results(*fl), self.join(), lt.data@, self.right@.rows),
                out@ == (StreamView {
                    rows: start + flat(f, k as int).rows,
                    error: flat(f, k as int).error,
                }),
                left_matched == (flat(f, k as int) != rows_only(Seq::empty())),
            decreases self.right.rows@.len() - k,
        {
            let rt = &self.right.rows[k].0;
            assert(self.right@.rows[k as int].0 == rt.data@);
            let ghost before = flat(f, k as int);
            match self.plan.predicate.evaluate_join(
                lt,
                self.left_schema,
                rt,
                self.right_schema,
                fl,
            ) {
                Ok(Some(Value::BOOLEAN(true))) => {
                    left_matched = true;
                    match join_tuples(
                        &self.plan.schema,
                        self.left_schema,
                        lt,
                        self.right_schema,
                        Some(rt),
                    ) {
                        Ok(t) => {
                            out.add(t, RecordId::reserved());
                            proof {
                                assert(flat(f, k + 1).rows == before.rows + seq![
                                    unstored(t.data@),
                                ]);
                                assert(flat(f, k + 1).rows.len() > 0);
                                assert(out@.rows =~= start + flat(f, k + 1).rows);
                            }
                        },
                        Err(e) => {
                            out.error = Some(e);
                            assert(flat(f, k + 1).rows =~= before.rows);
                            assert(flat(f, k + 1).error is Some);
                        },
                    }
                },
                Ok(_) => {
                    assert(flat(f, k + 1).rows =~= before.rows);
                    assert(flat(f, k + 1) =~= before);
                },
                Err(e) => {
                    left_matched = true;
                    out.error = Some(e);
                    assert(flat(f, k + 1).rows =~= before.rows);
                    assert(flat(f, k + 1).error is Some);
                },
            }
            k += 1;
        }
        proof {
            if out@.error is Some {
                lemma_flat_stops(f, k as int, self.right@.rows.len() as int);
            }
        }
        if out.error.is_none() && !left_matched && self.plan.join_type == JoinType::Left {
            match join_tuples(
                &self.plan.schema,
                self.left_schema,
                lt,
                self.right_schema,
                None,
            ) {
                Ok(t) => {
                    out.add(t, RecordId::reserved());
                    assert(out@.rows =~= start + seq![unstored(t.data@)]);
                },
                Err(e) => {
                    out.error = Some(e);
                    assert(out@.rows =~= start + Seq::empty());
                },
            }
        }
    }

    pub fn open<F: Fn(FloatOp, u32, u32) -> u32>(&mut self, fl: &F) -> (res: Result<
        (),
        ExecutorError,
    >)
        requires
            computes(*fl),
            old(self).plan.schema@.wf(),
        ensures
            final(self).plan == old(self).plan,
            ({
                let all = loop_join_stream(
                    results(*fl),
                    old(self).join(),
                    old(self).left@,
                    old(self).right@,
                );
                match res {
                    Ok(_) => old(self).right@.error is None && final(self).opened
                        && final(self).output@ == all,
                    Err(e) => old(self).right@.error == Some(e.0@),
                }
            }),
    {
        if let Some(e) = self.right.error.take() {
            return Err(e);
        }
        let ghost lefts = self.left@.rows;
        let ghost f = lefts_part(results(*fl), self.join(), lefts, self.right@.rows);
        let ghost start = *self;
        let mut out = RowStream::empty();
        let mut i: usize = 0;
        while out.error.is_none() && i < self.left.rows.len()
            invariant
                i <= self.left.rows@.len(),
                computes(*fl),
                *self == start,
                self.plan.schema@.wf(),
                lefts == self.left@.rows,
                f == lefts_part(results(*fl), self.join(), lefts, self.right@.rows),
                out@ == flat(f, i as int),
            decreases self.left.rows@.len() - i,
        {
            let lt = &self.left.rows[i].0;
            assert(lefts[i as int].0 == lt.data@);
            self.match_left(lt, &mut out, fl);
            i += 1;
            assert(out@ == flat(f, i as int));
        }
        proof {
            if out@.error is Some {
                lemma_flat_stops(f, i as int, lefts.len() as int);
            }
        }
        if out.error.is_none() {
            out.error = self.left.error.take();
        }
        self.output = out;
        self.opened = true;
        Ok(())
    }
}

impl<'a> Executor for NestedLoopJoinExecutor<'a> {
    open spec fn output(&self) -> Option<StreamView> {
        Some(self.output@)
    }

    open spec fn out_schema(&self) -> SchemaView {
        self.plan.schema@
    }

    open spec fn unopened(&self) -> Seq<char> {
        ""@
    }

    fn next(&mut self) -> (res: Result<Option<(Tuple, RecordId)>, ExecutorError>) {
        if !self.opened {
            self.pass_left();
        }
        self.output.next()
    }

    fn schema(&self) -> (res: &Schema) {
        &self.plan.schema
    }

    fn close(&mut self) -> (res: Result<(), ExecutorError>) {
        Ok(())
    }
}

} // verus!
