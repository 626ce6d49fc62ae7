//! Plans and the steps that run them.
use cmudb::buffer_pool::BufferPoolManager;
use cmudb::catalog::table_index::ValueBound;
use cmudb::catalog::{Catalog, DataType, FloatBits, IndexType, Schema, Value};
use cmudb::create_buffer_pool_manager;
use cmudb::disk::DiskManager;
use cmudb::processor::executor::{
    AggState, AggregationExecutor, Executor, HashJoinExecutor, InsertExecutor, LimitExecutor,
    NestedLoopJoinExecutor,
    SeqScanExecutor, SortExecutor, ValuesExecutor, WindowFunctionExecutor,
};
use cmudb::processor::executor_factory::{create_executor, run_query, run_statement};
use cmudb::processor::expression::{eval_binary, FloatOp};
use cmudb::processor::hash_join::hash_key;
use cmudb::processor::plan::{
    AggType, AggregationPlanNode, CreateIndexPlanNode, DeletePlanNode, DropIndexPlanNode,
    DropTablePlanNode, Expression, ExternalMergeSortPlanNode, FilterPlanNode, HashJoinPlanNode,
    IndexScanPlanNode, InsertPlanNode, JoinType, LimitPlanNode, NestedIndexJoinPlanNode,
    NestedLoopJoinPlanNode, Op, Plan, SeqScanPlanNode, SortPlanNode, UpdatePlanNode,
    ValuesPlanNode, WindowFunctionPlanNode,
};
use cmudb::processor::stream::RowStream;
use cmudb::replacer::ArcReplacer;
use cmudb::table_heap::Tuple;

fn float_unit(op: FloatOp, a: u32, b: u32) -> u32 {
    let (x, y) = (f32::from_bits(a), f32::from_bits(b));
    let z = match op {
        FloatOp::Add => x + y,
        FloatOp::Sub => x - y,
        FloatOp::Mul => x * y,
        FloatOp::Div => x / y,
    };
    if z.is_nan() {
        f32::NAN.to_bits()
    } else {
        z.to_bits()
    }
}

fn make_catalog(num_frames: usize) -> (Catalog, BufferPoolManager) {
    let bpm = create_buffer_pool_manager(
        num_frames,
        ArcReplacer::new(num_frames),
        DiskManager::new(Vec::new()),
    );
    (Catalog::new(), bpm)
}

fn make_schema() -> Schema {
    Schema::new(vec![
        (DataType::INT, "id".to_string()),
        (DataType::BOOLEAN, "active".to_string()),
    ])
}

fn read_row(schema: &Schema, tuple: &Tuple) -> Vec<Option<Value>> {
    (0..schema.cols.len())
        .map(|i| schema.get_value(tuple, i).expect("decode"))
        .collect()
}

fn same_rows(got: &Vec<Vec<Option<Value>>>, expected: &Vec<Vec<Option<Value>>>) -> bool {
    format!("{:?}", got) == format!("{:?}", expected)
}

#[test]
fn insert_then_seq_scan_returns_inserted_rows() {
    let (mut catalog, mut bpm) = make_catalog(16);
    let table_oid = catalog
        .create_table(&mut bpm, "t".to_string(), make_schema())
        .expect("create table");

    let expected: Vec<Vec<Option<Value>>> = vec![
        vec![Some(Value::INT(1)), Some(Value::BOOLEAN(true))],
        vec![Some(Value::INT(2)), Some(Value::BOOLEAN(false))],
        vec![Some(Value::INT(42)), Some(Value::BOOLEAN(true))],
    ];

    let rows: Vec<Vec<Expression>> = expected
        .iter()
        .map(|row| row.iter().cloned().map(Expression::Constant).collect())
        .collect();

    let insert_plan = Plan::Insert(InsertPlanNode {
        schema: make_schema(),
        child: Box::new(Plan::Values(ValuesPlanNode {
            schema: make_schema(),
            rows,
        })),
        table_oid,
    });

    let mut insert_exec = create_executor(&insert_plan);
    insert_exec
        .open(&catalog, &mut bpm, &float_unit)
        .expect("open insert");
    let (count_tuple, _) = insert_exec
        .next(&mut catalog, &mut bpm, &float_unit)
        .expect("insert next")
        .expect("insert produces a count tuple");
    let count = i32::from_ne_bytes(count_tuple.data.as_slice().try_into().unwrap());
    assert_eq!(count, 3, "insert should report 3 rows");

    let scan_plan = Plan::SeqScan(SeqScanPlanNode {
        table_oid,
        schema: make_schema(),
    });
    let mut scan_exec = create_executor(&scan_plan);
    scan_exec
        .open(&catalog, &mut bpm, &float_unit)
        .expect("open scan");

    let mut got = Vec::new();
    while let Some((tuple, _rid)) = scan_exec
        .next(&mut catalog, &mut bpm, &float_unit)
        .expect("scan next")
    {
        got.push(read_row(&make_schema(), &tuple));
    }

    assert_eq!(got.len(), 3, "scan should yield all inserted rows");
    assert!(same_rows(&got, &expected));
}

fn ints(names: &[&str]) -> Schema {
    Schema::new(
        names
            .iter()
            .map(|n| (DataType::INT, n.to_string()))
            .collect(),
    )
}

/// A schema whose first `left` columns are those of the left table.
fn joined_ints(names: &[&str], left: usize) -> Schema {
    let mut s = ints(names);
    s.join_offset = Some(left);
    s
}

fn col(tuple_idx: u8, col_idx: u32) -> Expression {
    Expression::Column {
        tuple_idx,
        col_idx,
        dtype: DataType::INT,
    }
}

fn number(i: i32) -> Expression {
    Expression::Constant(Some(Value::INT(i)))
}

fn binary(left: Expression, op: Op, right: Expression) -> Expression {
    Expression::Binary {
        left: Box::new(left),
        right: Box::new(right),
        op,
    }
}

/// Rows of integers; `None` stands for NULL.
fn values(names: &[&str], rows: &[&[Option<i32>]]) -> Plan {
    Plan::Values(ValuesPlanNode {
        schema: ints(names),
        rows: rows
            .iter()
            .map(|r| {
                r.iter()
                    .map(|v| Expression::Constant(v.map(Value::INT)))
                    .collect()
            })
            .collect(),
    })
}

fn as_ints(schema: &Schema, out: &RowStream) -> Vec<Vec<Option<i32>>> {
    out.rows
        .iter()
        .map(|(t, _)| {
            read_row(schema, t)
                .into_iter()
                .map(|v| match v {
                    Some(Value::INT(i)) => Some(i),
                    None => None,
                    Some(other) => panic!("{:?}", other),
                })
                .collect()
        })
        .collect()
}

fn answer(plan: &Plan) -> Vec<Vec<Option<i32>>> {
    let (catalog, mut bpm) = make_catalog(16);
    let out = run_query(&catalog, &mut bpm, plan, &float_unit);
    assert!(out.error.is_none(), "{:?}", out.error);
    as_ints(plan.schema(), &out)
}

fn failing(plan: &Plan) -> (usize, String) {
    let (catalog, mut bpm) = make_catalog(16);
    let out = run_query(&catalog, &mut bpm, plan, &float_unit);
    (out.rows.len(), out.error.unwrap().0)
}

fn left_side() -> Plan {
    values(
        &["a", "b"],
        &[
            &[Some(1), Some(10)],
            &[Some(2), Some(20)],
            &[None, Some(30)],
            &[Some(1), Some(40)],
        ],
    )
}

fn right_side() -> Plan {
    values(
        &["c", "d"],
        &[
            &[Some(1), Some(100)],
            &[Some(3), Some(300)],
            &[None, Some(400)],
            &[Some(1), Some(500)],
        ],
    )
}

fn hash_join(join_type: JoinType) -> Plan {
    Plan::HashJoin(HashJoinPlanNode {
        schema: joined_ints(&["a", "b", "c", "d"], 2),
        left: Box::new(left_side()),
        right: Box::new(right_side()),
        left_exprs: vec![col(0, 0)],
        right_exprs: vec![col(0, 0)],
        join_type,
    })
}

fn loop_join(join_type: JoinType) -> Plan {
    Plan::NestedLoopJoin(NestedLoopJoinPlanNode {
        schema: joined_ints(&["a", "b", "c", "d"], 2),
        left: Box::new(left_side()),
        right: Box::new(right_side()),
        predicate: binary(col(0, 0), Op::Eq, col(1, 0)),
        join_type,
    })
}

#[test]
fn a_loop_join_pairs_rows_in_order() {
    let matches = vec![
        vec![Some(1), Some(10), Some(1), Some(100)],
        vec![Some(1), Some(10), Some(1), Some(500)],
        vec![Some(1), Some(40), Some(1), Some(100)],
        vec![Some(1), Some(40), Some(1), Some(500)],
    ];
    assert_eq!(answer(&loop_join(JoinType::Inner)), matches);
    assert_eq!(
        answer(&loop_join(JoinType::Left)),
        vec![
            matches[0].clone(),
            matches[1].clone(),
            vec![Some(2), Some(20), None, None],
            vec![None, Some(30), None, None],
            matches[2].clone(),
            matches[3].clone(),
        ]
    );
}

#[test]
fn a_hash_join_also_pairs_rows_without_a_key() {
    for join_type in [JoinType::Inner, JoinType::Left] {
        let mut by_hash = answer(&hash_join(join_type));
        let mut by_loop = answer(&loop_join(join_type));
        by_loop.retain(|r| r[0].is_some());
        by_loop.push(vec![None, Some(30), None, Some(400)]);
        by_hash.sort();
        by_loop.sort();
        assert_eq!(by_hash, by_loop);
    }
}

#[test]
fn equal_keys_have_equal_hashes() {
    let zero = vec![Some(Value::FLOAT(FloatBits(0.0f32.to_bits())))];
    let minus_zero = vec![Some(Value::FLOAT(FloatBits((-0.0f32).to_bits())))];
    assert_eq!(hash_key(&zero), hash_key(&minus_zero));
    let one = vec![Some(Value::INT(1)), None];
    assert_eq!(hash_key(&one), hash_key(&vec![Some(Value::INT(1)), None]));
    assert_ne!(hash_key(&one), hash_key(&vec![Some(Value::INT(2)), None]));
}

#[test]
fn an_expression_sees_both_sides_of_a_join() {
    // c + b, on the joined rows and on the two rows
    let plan = Plan::Filter(FilterPlanNode {
        schema: joined_ints(&["a", "b", "c", "d"], 2),
        predicate: binary(
            binary(col(1, 0), Op::Add, col(0, 1)),
            Op::Eq,
            number(41),
        ),
        child: Box::new(loop_join(JoinType::Inner)),
    });
    assert_eq!(
        answer(&plan),
        vec![
            vec![Some(1), Some(40), Some(1), Some(100)],
            vec![Some(1), Some(40), Some(1), Some(500)],
        ]
    );
    let s = ints(&["x", "y"]);
    let l = s
        .encode_tuple(&[Some(Value::INT(1)), Some(Value::INT(40))])
        .unwrap();
    let r = s
        .encode_tuple(&[Some(Value::INT(2)), Some(Value::INT(500))])
        .unwrap();
    let e = binary(col(1, 0), Op::Add, col(0, 1));
    assert!(matches!(
        e.evaluate_join(&l, &s, &r, &s, &float_unit),
        Ok(Some(Value::INT(42)))
    ));
    let off = col(2, 0).evaluate_join(&l, &s, &r, &s, &float_unit);
    assert_eq!(off.unwrap_err().0, "tuple_idx must be 0 or 1");
    let beyond = col(0, 2).evaluate_join(&l, &s, &r, &s, &float_unit);
    assert_eq!(beyond.unwrap_err().0, "error when evaluating");
}

#[test]
fn operators_on_null() {
    let t = Some(Value::BOOLEAN(true));
    let f = Some(Value::BOOLEAN(false));
    let one = Some(Value::INT(1));
    let eval = |op: Op, l: Option<Value>, r: Option<Value>| {
        format!("{:?}", eval_binary(&op, l, r, &float_unit).map_err(|e| e.0))
    };
    assert_eq!(eval(Op::And, f, None), eval(Op::And, f, t));
    assert_eq!(eval(Op::And, None, f), "Ok(Some(BOOLEAN(false)))");
    assert_eq!(eval(Op::And, t, None), "Ok(None)");
    assert_eq!(eval(Op::And, None, None), "Ok(None)");
    assert_eq!(eval(Op::Or, t, None), "Ok(Some(BOOLEAN(true)))");
    assert_eq!(eval(Op::Or, None, t), "Ok(Some(BOOLEAN(true)))");
    assert_eq!(eval(Op::Or, f, None), "Ok(None)");
    assert_eq!(eval(Op::Or, f, t), "Ok(Some(BOOLEAN(true)))");
    for op in [Op::Add, Op::Sub, Op::Mul, Op::Div, Op::Eq, Op::NEq, Op::Lt, Op::Gte] {
        assert_eq!(eval(op, one, None), "Ok(None)");
        assert_eq!(eval(op, None, one), "Ok(None)");
    }
    assert_eq!(eval(Op::And, one, one), "Err(\"type-checked at plan time\")");
    assert_eq!(eval(Op::Like, one, one), "Err(\"operator not supported\")");
    assert_eq!(eval(Op::In, one, one), "Err(\"operator not supported\")");
}

#[test]
fn integer_arithmetic_is_exact_or_refused() {
    let eval = |op: Op, a: i32, b: i32| {
        let res = eval_binary(&op, Some(Value::INT(a)), Some(Value::INT(b)), &float_unit);
        match res {
            Ok(Some(Value::INT(i))) => Ok(i),
            Err(e) => Err(e.0),
            other => panic!("{:?}", other),
        }
    };
    assert_eq!(eval(Op::Add, i32::MAX, 0), Ok(i32::MAX));
    assert_eq!(eval(Op::Add, i32::MAX, 1), Err("integer overflow".to_string()));
    assert_eq!(eval(Op::Sub, i32::MIN, 1), Err("integer overflow".to_string()));
    assert_eq!(eval(Op::Mul, 65536, 32768), Err("integer overflow".to_string()));
    assert_eq!(eval(Op::Mul, -65536, 32768), Ok(i32::MIN));
    assert_eq!(eval(Op::Div, 7, 2), Ok(3));
    assert_eq!(eval(Op::Div, -7, 2), Ok(-3));
    assert_eq!(eval(Op::Div, 7, -2), Ok(-3));
    assert_eq!(eval(Op::Div, -7, -2), Ok(3));
    assert_eq!(eval(Op::Div, i32::MIN, -1), Err("integer overflow".to_string()));
    assert_eq!(eval(Op::Div, 1, 0), Err("division by zero".to_string()));
}

#[test]
fn sorts_are_stable_and_agree() {
    let rows: Vec<Vec<Option<i32>>> = (0..150)
        .map(|i| vec![if i % 11 == 0 { None } else { Some((i * 7) % 13) }, Some(i)])
        .collect();
    let slices: Vec<&[Option<i32>]> = rows.iter().map(|r| r.as_slice()).collect();
    let mut expected = rows.clone();
    expected.sort_by(|a, b| a[0].cmp(&b[0]));
    let in_memory = Plan::Sort(SortPlanNode {
        schema: ints(&["k", "v"]),
        child: Box::new(values(&["k", "v"], &slices)),
        order_by_exprs: vec![col(0, 0)],
    });
    assert_eq!(answer(&in_memory), expected);
    let external = Plan::ExternalMergeSort(ExternalMergeSortPlanNode {
        schema: ints(&["k", "v"]),
        child: Box::new(values(&["k", "v"], &slices)),
        order_by_exprs: vec![col(0, 0)],
    });
    assert_eq!(answer(&external), expected);
}

#[test]
fn rows_that_do_not_fit_on_a_page_cannot_be_put_aside() {
    let rows: Vec<Vec<Option<i32>>> = (0..500).map(|i| vec![Some(7), Some(i)]).collect();
    let slices: Vec<&[Option<i32>]> = rows.iter().map(|r| r.as_slice()).collect();
    let text = "table heap error: TableHeapError(\"slot directory ends at 4107 but tuple area starts at 4097\")";
    let sort = Plan::ExternalMergeSort(ExternalMergeSortPlanNode {
        schema: ints(&["k", "v"]),
        child: Box::new(values(&["k", "v"], &slices)),
        order_by_exprs: vec![col(0, 1)],
    });
    let (count, error) = failing(&sort);
    assert_eq!(count, 0);
    // all rows have the same key, so they all go to one partition
    let join = Plan::HashJoin(HashJoinPlanNode {
        schema: joined_ints(&["a", "b", "c", "d"], 2),
        left: Box::new(values(&["k", "v"], &slices)),
        right: Box::new(values(&["k", "v"], &[])),
        left_exprs: vec![col(0, 0)],
        right_exprs: vec![col(0, 0)],
        join_type: JoinType::Inner,
    });
    assert_eq!(failing(&join), (0, error.clone()));
    assert_eq!(error, text);
}

fn aggregation(group_bys: Vec<Expression>, aggregates: Vec<(Expression, AggType)>) -> Plan {
    let names: Vec<String> = (0..group_bys.len() + aggregates.len())
        .map(|i| format!("x{}", i))
        .collect();
    let names: Vec<&str> = names.iter().map(|n| n.as_str()).collect();
    Plan::Aggregation(AggregationPlanNode {
        schema: ints(&names),
        child: Box::new(values(
            &["k", "v"],
            &[
                &[Some(2), Some(5)],
                &[Some(1), Some(4)],
                &[Some(2), None],
                &[Some(2), Some(8)],
                &[Some(1), None],
                &[None, None],
            ],
        )),
        group_bys,
        aggregates,
    })
}

#[test]
fn aggregates_skip_nulls_but_count_them() {
    let plan = aggregation(
        vec![col(0, 0)],
        vec![
            (col(0, 1), AggType::SUM),
            (col(0, 1), AggType::MIN),
            (col(0, 1), AggType::MAX),
            (col(0, 1), AggType::AVG),
            (col(0, 1), AggType::COUNT),
        ],
    );
    assert_eq!(
        answer(&plan),
        vec![
            vec![Some(2), Some(13), Some(5), Some(8), Some(6), Some(3)],
            vec![Some(1), Some(4), Some(4), Some(4), Some(4), Some(2)],
            vec![None, None, None, None, None, Some(1)],
        ]
    );
    // one group without a key
    let all = aggregation(vec![], vec![(col(0, 1), AggType::SUM)]);
    assert_eq!(answer(&all), vec![vec![Some(17)]]);
    let sums = aggregation(
        vec![],
        vec![(binary(col(0, 1), Op::Mul, number(i32::MAX)), AggType::SUM)],
    );
    assert_eq!(failing(&sums), (0, "integer overflow".to_string()));
}

#[test]
fn aggregate_states() {
    let mut s = AggState::new(&AggType::MAX);
    assert!(matches!(s.peek(&float_unit), Ok(None)));
    s.update(Some(Value::INT(3)), &float_unit).unwrap();
    s.update(None, &float_unit).unwrap();
    s.update(Some(Value::INT(2)), &float_unit).unwrap();
    assert!(matches!(s.peek(&float_unit), Ok(Some(Value::INT(3)))));
    assert!(matches!(s.consume(&float_unit), Ok(Some(Value::INT(3)))));
}

fn window(
    partition_by_exprs: Option<Vec<Expression>>,
    order_by_exprs: Option<Vec<Expression>>,
) -> Plan {
    Plan::WindowFunction(WindowFunctionPlanNode {
        schema: ints(&["k", "v", "sum", "rank"]),
        child: Box::new(values(
            &["k", "v"],
            &[
                &[Some(2), Some(5)],
                &[Some(1), Some(4)],
                &[Some(2), Some(3)],
                &[Some(2), Some(5)],
                &[Some(1), Some(6)],
                &[Some(2), Some(9)],
            ],
        )),
        order_by_exprs,
        partition_by_exprs,
        aggregates: vec![(col(0, 1), AggType::SUM), (col(0, 1), AggType::RANK)],
        columns: vec![],
    })
}

fn quads(rows: &[[i32; 4]]) -> Vec<Vec<Option<i32>>> {
    rows.iter()
        .map(|r| r.iter().map(|v| Some(*v)).collect())
        .collect()
}

#[test]
fn ordered_windows_run_and_rank() {
    assert_eq!(
        answer(&window(Some(vec![col(0, 0)]), Some(vec![col(0, 1)]))),
        quads(&[
            [1, 4, 4, 1],
            [1, 6, 10, 2],
            [2, 3, 3, 1],
            [2, 5, 13, 2],
            [2, 5, 13, 2],
            [2, 9, 22, 4],
        ])
    );
}

#[test]
fn windows_without_an_order_cover_their_partition() {
    assert_eq!(
        answer(&window(Some(vec![col(0, 0)]), None)),
        quads(&[
            [1, 4, 10, 1],
            [1, 6, 10, 1],
            [2, 5, 22, 1],
            [2, 3, 22, 1],
            [2, 5, 22, 1],
            [2, 9, 22, 1],
        ])
    );
    assert_eq!(
        answer(&window(None, None)),
        quads(&[
            [2, 5, 32, 1],
            [1, 4, 32, 1],
            [2, 3, 32, 1],
            [2, 5, 32, 1],
            [1, 6, 32, 1],
            [2, 9, 32, 1],
        ])
    );
}

/// A table of two columns with an index on the first, and rows from 0 to 29.
fn indexed_table() -> (Catalog, BufferPoolManager, u32, u32) {
    let (mut catalog, mut bpm) = make_catalog(32);
    let table_oid = catalog
        .create_table(&mut bpm, "t".to_string(), ints(&["k", "v"]))
        .unwrap();
    let plan = Plan::CreateIndex(CreateIndexPlanNode {
        schema: ints(&[]),
        index_name: "by_k".to_string(),
        table_oid,
        key_columns: vec![0],
    });
    assert!(run_statement(&mut catalog, &mut bpm, &plan, &float_unit)
        .error
        .is_none());
    let index_oid = catalog.index_oid("t", "by_k").unwrap();
    let rows: Vec<Vec<Option<i32>>> = (0..30).map(|i| vec![Some((i * 7) % 30), Some(i)]).collect();
    let slices: Vec<&[Option<i32>]> = rows.iter().map(|r| r.as_slice()).collect();
    let insert = Plan::Insert(InsertPlanNode {
        schema: ints(&["k", "v"]),
        child: Box::new(values(&["k", "v"], &slices)),
        table_oid,
    });
    let done = run_statement(&mut catalog, &mut bpm, &insert, &float_unit);
    assert!(done.error.is_none());
    (catalog, bpm, table_oid, index_oid)
}

fn range(index_oid: u32, start: ValueBound, end: ValueBound) -> Plan {
    Plan::IndexScan(IndexScanPlanNode {
        schema: ints(&["k", "v"]),
        start,
        end,
        index_oid,
    })
}

#[test]
fn an_index_scan_gives_a_range_in_key_order() {
    let (catalog, mut bpm, _, oid) = indexed_table();
    let mut keys = |start: ValueBound, end: ValueBound| -> Vec<i32> {
        let plan = range(oid, start, end);
        let out = run_query(&catalog, &mut bpm, &plan, &float_unit);
        assert!(out.error.is_none());
        as_ints(plan.schema(), &out).iter().map(|r| r[0].unwrap()).collect()
    };
    let at = |i: i32| vec![Value::INT(i)];
    let all: Vec<i32> = (0..30).collect();
    assert_eq!(keys(ValueBound::Unbounded, ValueBound::Unbounded), all);
    assert_eq!(
        keys(ValueBound::Included(at(5)), ValueBound::Excluded(at(9))),
        vec![5, 6, 7, 8]
    );
    assert_eq!(
        keys(ValueBound::Excluded(at(5)), ValueBound::Included(at(9))),
        vec![6, 7, 8, 9]
    );
    assert!(keys(ValueBound::Included(at(30)), ValueBound::Unbounded).is_empty());
}

#[test]
fn an_index_join_looks_rows_up() {
    let (catalog, mut bpm, table_oid, index_oid) = indexed_table();
    let mut join = |join_type: JoinType| {
        let plan = Plan::NestedIndexJoin(NestedIndexJoinPlanNode {
            schema: joined_ints(&["a", "k", "v"], 1),
            child: Box::new(values(&["a"], &[&[Some(7)], &[Some(77)], &[None], &[Some(14)]])),
            key_predicate: col(0, 0),
            table_oid,
            table_schema: ints(&["k", "v"]),
            index_oid,
            join_type,
        });
        let out = run_query(&catalog, &mut bpm, &plan, &float_unit);
        assert!(out.error.is_none());
        as_ints(plan.schema(), &out)
    };
    assert_eq!(
        join(JoinType::Inner),
        vec![vec![Some(7), Some(7), Some(1)], vec![Some(14), Some(14), Some(2)]]
    );
    assert_eq!(
        join(JoinType::Left),
        vec![
            vec![Some(7), Some(7), Some(1)],
            vec![Some(77), None, None],
            vec![None, None, None],
            vec![Some(14), Some(14), Some(2)],
        ]
    );
}

fn scan(table_oid: u32) -> Plan {
    Plan::SeqScan(SeqScanPlanNode {
        table_oid,
        schema: ints(&["k", "v"]),
    })
}

fn under(limit: i32, table_oid: u32) -> Plan {
    Plan::Filter(FilterPlanNode {
        schema: ints(&["k", "v"]),
        predicate: binary(col(0, 0), Op::Lt, number(limit)),
        child: Box::new(scan(table_oid)),
    })
}

#[test]
fn updates_and_deletes_keep_the_index() {
    let (mut catalog, mut bpm, table_oid, index_oid) = indexed_table();
    let update = Plan::Update(UpdatePlanNode {
        schema: ints(&["k", "v"]),
        target_exprs: vec![(0, binary(col(0, 0), Op::Add, number(100)))],
        child: Box::new(under(3, table_oid)),
        table_oid,
    });
    let out = run_statement(&mut catalog, &mut bpm, &update, &float_unit);
    assert!(out.error.is_none());
    assert_eq!(out.rows.len(), 3);
    let delete = Plan::Delete(DeletePlanNode {
        schema: ints(&["k", "v"]),
        child: Box::new(under(28, table_oid)),
        table_oid,
    });
    let out = run_statement(&mut catalog, &mut bpm, &delete, &float_unit);
    assert!(out.error.is_none());
    assert_eq!(out.rows.len(), 25);
    let rest = range(index_oid, ValueBound::Unbounded, ValueBound::Unbounded);
    let out = run_query(&catalog, &mut bpm, &rest, &float_unit);
    let keys: Vec<i32> = as_ints(rest.schema(), &out)
        .iter()
        .map(|r| r[0].unwrap())
        .collect();
    assert_eq!(keys, vec![28, 29, 100, 101, 102]);
    // a key that is taken stops the update, and the rows before it stay changed
    let clash = Plan::Update(UpdatePlanNode {
        schema: ints(&["k", "v"]),
        target_exprs: vec![(0, number(7))],
        child: Box::new(scan(table_oid)),
        table_oid,
    });
    let out = run_statement(&mut catalog, &mut bpm, &clash, &float_unit);
    assert_eq!(out.rows.len(), 1);
    assert_eq!(out.error.unwrap().0, "index error: Insert(DuplicateKey)");
    let beyond = Plan::Update(UpdatePlanNode {
        schema: ints(&["k", "v"]),
        target_exprs: vec![(2, number(7))],
        child: Box::new(scan(table_oid)),
        table_oid,
    });
    let out = run_statement(&mut catalog, &mut bpm, &beyond, &float_unit);
    assert_eq!(out.error.unwrap().0, "column index out of range");
}

#[test]
fn dropped_tables_and_indexes_are_gone() {
    let (mut catalog, mut bpm, table_oid, index_oid) = indexed_table();
    let drop_index = Plan::DropIndex(DropIndexPlanNode {
        schema: ints(&[]),
        index_oid,
    });
    assert!(run_statement(&mut catalog, &mut bpm, &drop_index, &float_unit)
        .error
        .is_none());
    let by_index = range(index_oid, ValueBound::Unbounded, ValueBound::Unbounded);
    let out = run_statement(&mut catalog, &mut bpm, &by_index, &float_unit);
    assert_eq!(out.error.unwrap().0, "catalog error: IndexDoesNotExist");
    let drop_table = Plan::DropTable(DropTablePlanNode {
        schema: ints(&[]),
        table_oid,
    });
    assert!(run_statement(&mut catalog, &mut bpm, &drop_table, &float_unit)
        .error
        .is_none());
    let out = run_statement(&mut catalog, &mut bpm, &scan(table_oid), &float_unit);
    assert_eq!(out.error.unwrap().0, "catalog error: TableDoesNotExist");
}

#[test]
fn a_change_below_a_query_is_refused() {
    let (mut catalog, mut bpm, table_oid, _) = indexed_table();
    let plan = Plan::Limit(LimitPlanNode {
        schema: ints(&["k", "v"]),
        child: Box::new(Plan::DropTable(DropTablePlanNode {
            schema: ints(&[]),
            table_oid,
        })),
        limit: 1,
    });
    let out = run_statement(&mut catalog, &mut bpm, &plan, &float_unit);
    assert_eq!(out.error.unwrap().0, "the plan gives no rows");
    assert!(catalog.get_table(table_oid).is_ok());
    let plan = Plan::Limit(LimitPlanNode {
        schema: ints(&["k", "v"]),
        child: Box::new(Plan::Delete(DeletePlanNode {
            schema: ints(&["k", "v"]),
            child: Box::new(scan(table_oid)),
            table_oid,
        })),
        limit: 1,
    });
    let out = run_statement(&mut catalog, &mut bpm, &plan, &float_unit);
    assert_eq!(
        out.error.unwrap().0,
        "DeleteExecutor::next called before open"
    );
}

fn drain<E: Executor>(e: &mut E) -> Vec<Vec<Option<i32>>> {
    let mut out = RowStream::empty();
    while let Some((t, rid)) = e.next().unwrap() {
        out.add(t, rid);
    }
    assert!(e.close().is_ok());
    as_ints(e.schema(), &out)
}

#[test]
fn steps_are_opened_before_they_give_rows() {
    let (mut catalog, mut bpm, table_oid, _) = indexed_table();
    let node = SeqScanPlanNode {
        table_oid,
        schema: ints(&["k", "v"]),
    };
    let mut e = SeqScanExecutor::new(&node);
    assert_eq!(
        e.next().unwrap_err().0,
        "SeqScanExecutor::next called before open"
    );
    e.open(&catalog, &mut bpm).unwrap();
    assert_eq!(drain(&mut e).len(), 30);
    assert!(e.next().unwrap().is_none());

    let node = SeqScanPlanNode {
        table_oid: 99,
        schema: ints(&[]),
    };
    let mut e = SeqScanExecutor::new(&node);
    assert_eq!(
        e.open(&catalog, &mut bpm).unwrap_err().0,
        "catalog error: TableDoesNotExist"
    );

    let node = InsertPlanNode {
        schema: ints(&["k", "v"]),
        child: Box::new(scan(table_oid)),
        table_oid,
    };
    let mut e = InsertExecutor::new(&node, RowStream::empty());
    assert_eq!(
        e.next(&catalog, &mut bpm).unwrap_err().0,
        "InsertExecutor::next called before open"
    );
    e.open(&catalog).unwrap();
    let (count, _) = e.next(&catalog, &mut bpm).unwrap().unwrap();
    assert_eq!(count.data, vec![0, 0, 0, 0]);
    assert_eq!(
        e.next(&catalog, &mut bpm).unwrap_err().0,
        "already executed"
    );
    let created = catalog.create_index(
        &mut bpm,
        table_oid,
        "by_v".to_string(),
        &["v"],
        IndexType::BPlusTree,
    );
    assert!(created.is_ok());
}

fn filled(rows: &[[i32; 2]]) -> (Schema, RowStream) {
    let s = ints(&["k", "v"]);
    let slices: Vec<Vec<Option<i32>>> = rows
        .iter()
        .map(|r| vec![Some(r[0]), Some(r[1])])
        .collect();
    let slices: Vec<&[Option<i32>]> = slices.iter().map(|r| r.as_slice()).collect();
    let Plan::Values(node) = values(&["k", "v"], &slices) else {
        unreachable!();
    };
    let mut e = ValuesExecutor::new(&node, &float_unit);
    e.open().unwrap();
    (s, e.rows)
}

#[test]
fn steps_work_on_the_rows_of_their_child() {
    let rows = [[3, 1], [1, 2], [2, 3], [1, 4]];
    let child = || Box::new(values(&["k", "v"], &[]));

    let (_, input) = filled(&rows);
    let node = LimitPlanNode {
        schema: ints(&["k", "v"]),
        child: child(),
        limit: 3,
    };
    assert_eq!(LimitExecutor::new(&node, input).drain().rows.len(), 3);

    let (_, input) = filled(&rows);
    let node = SortPlanNode {
        schema: ints(&["k", "v"]),
        child: child(),
        order_by_exprs: vec![col(0, 0)],
    };
    let mut e = SortExecutor::new(&node, input);
    e.open(&float_unit).unwrap();
    let sorted: Vec<Option<i32>> = drain(&mut e).iter().map(|r| r[1]).collect();
    assert_eq!(sorted, vec![Some(2), Some(4), Some(3), Some(1)]);

    let (s, input) = filled(&rows);
    let node = AggregationPlanNode {
        schema: ints(&["n"]),
        child: child(),
        group_bys: vec![],
        aggregates: vec![(number(1), AggType::COUNT)],
    };
    let mut e = AggregationExecutor::new(&node, input, &s);
    e.open(&float_unit).unwrap();
    assert_eq!(drain(&mut e), vec![vec![Some(4)]]);

    let (s, input) = filled(&rows);
    let node = WindowFunctionPlanNode {
        schema: ints(&["k", "v", "n"]),
        child: child(),
        order_by_exprs: None,
        partition_by_exprs: Some(vec![col(0, 0)]),
        aggregates: vec![(number(1), AggType::COUNT)],
        columns: vec![],
    };
    let mut e = WindowFunctionExecutor::new(&node, input, &s);
    e.open(&float_unit).unwrap();
    let counts: Vec<Option<i32>> = drain(&mut e).iter().map(|r| r[2]).collect();
    assert_eq!(counts, vec![Some(2), Some(2), Some(1), Some(1)]);

    let (ls, left) = filled(&rows);
    let (rs, right) = filled(&[[1, 9]]);
    let node = HashJoinPlanNode {
        schema: joined_ints(&["a", "b", "c", "d"], 2),
        left: child(),
        right: child(),
        left_exprs: vec![col(0, 0)],
        right_exprs: vec![col(0, 0)],
        join_type: JoinType::Inner,
    };
    let (_, mut bpm) = make_catalog(16);
    let mut e = HashJoinExecutor::new(&node, left, &ls, right, &rs);
    e.open(&mut bpm, &float_unit).unwrap();
    let mut joined = drain(&mut e);
    joined.sort();
    assert_eq!(joined, quads(&[[1, 2, 1, 9], [1, 4, 1, 9]]));
}

#[test]
fn a_plan_runs_step_by_step() {
    let (mut catalog, mut bpm, table_oid, _) = indexed_table();
    let plan = Plan::Delete(DeletePlanNode {
        schema: ints(&["k", "v"]),
        child: Box::new(scan(table_oid)),
        table_oid,
    });
    let mut e = create_executor(&plan);
    assert_eq!(
        e.next(&mut catalog, &mut bpm, &float_unit).unwrap_err().0,
        "DeleteExecutor::next called before open"
    );
    e.open(&catalog, &mut bpm, &float_unit).unwrap();
    let all = |catalog: &Catalog, bpm: &mut BufferPoolManager| {
        run_query(catalog, bpm, &scan(table_oid), &float_unit).rows.len()
    };
    assert_eq!(all(&catalog, &mut bpm), 30);
    for left in (0..30).rev() {
        assert!(e
            .next(&mut catalog, &mut bpm, &float_unit)
            .unwrap()
            .is_some());
        assert_eq!(all(&catalog, &mut bpm), left);
    }
    assert!(e
        .next(&mut catalog, &mut bpm, &float_unit)
        .unwrap()
        .is_none());
    assert!(e.close().is_ok());

    let missing = scan(99);
    let mut e = create_executor(&missing);
    assert_eq!(
        e.open(&catalog, &mut bpm, &float_unit).unwrap_err().0,
        "catalog error: TableDoesNotExist"
    );
}

#[test]
fn some_steps_need_not_be_opened() {
    let (mut catalog, mut bpm) = make_catalog(8);
    let plan = Plan::Limit(LimitPlanNode {
        schema: ints(&["k"]),
        child: Box::new(values(&["k"], &[&[Some(4)], &[Some(5)], &[Some(6)]])),
        limit: 2,
    });
    let mut e = create_executor(&plan);
    let mut count = 0;
    while e
        .next(&mut catalog, &mut bpm, &float_unit)
        .unwrap()
        .is_some()
    {
        count += 1;
    }
    assert_eq!(count, 2);

    let (ls, left) = filled(&[[1, 2], [3, 4]]);
    let (rs, right) = filled(&[[1, 9]]);
    let node = NestedLoopJoinPlanNode {
        schema: joined_ints(&["a", "b", "c", "d"], 2),
        left: Box::new(values(&["k", "v"], &[])),
        right: Box::new(values(&["k", "v"], &[])),
        predicate: Expression::Constant(Some(Value::BOOLEAN(true))),
        join_type: JoinType::Left,
    };
    let mut e = NestedLoopJoinExecutor::new(&node, left, &ls, right, &rs);
    // without the right rows, no left row has a match
    let (t, _) = e.next().unwrap().unwrap();
    assert!(read_row(&node.schema, &t)[2].is_none());
    // the left rows that are left are joined with the right ones
    e.open(&float_unit).unwrap();
    assert_eq!(
        drain(&mut e),
        vec![vec![Some(3), Some(4), Some(1), Some(9)]]
    );

    let (_, input) = filled(&[[1, 2]]);
    let node = SortPlanNode {
        schema: ints(&["k", "v"]),
        child: Box::new(values(&["k", "v"], &[])),
        order_by_exprs: vec![col(0, 0)],
    };
    assert!(SortExecutor::new(&node, input).next().unwrap().is_none());
}
