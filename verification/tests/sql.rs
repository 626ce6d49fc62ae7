//! Statements as text, from the parser to the rows.
use cmudb::ast;
use cmudb::buffer_pool::BufferPoolManager;
use cmudb::catalog::{Catalog, Schema, Value};
use cmudb::create_buffer_pool_manager;
use cmudb::disk::DiskManager;
use cmudb::parser::Binder;
use cmudb::planner::Planner;
use cmudb::processor::executor_factory::run_statement;
use cmudb::processor::expression::FloatOp;
use cmudb::processor::plan::Plan;
use cmudb::processor::stream::RowStream;
use cmudb::replacer::ArcReplacer;
use sqlparser::ast as sql;
use sqlparser::dialect::GenericDialect;
use sqlparser::parser::Parser;

fn ident(id: &sql::Ident) -> ast::Ident {
    ast::Ident {
        value: id.value.clone(),
        quote_style: id.quote_style,
    }
}

fn object_name(name: &sql::ObjectName) -> ast::ObjectName {
    let parts = name
        .0
        .iter()
        .map(|p| match p {
            sql::ObjectNamePart::Identifier(id) => ast::NamePart::Identifier(ident(id)),
            sql::ObjectNamePart::Function(_) => ast::NamePart::Function,
        })
        .collect();
    ast::ObjectName {
        parts,
        text: name.to_string(),
    }
}

fn operator(op: &sql::BinaryOperator) -> ast::BinaryOperator {
    match op {
        sql::BinaryOperator::Plus => ast::BinaryOperator::Plus,
        sql::BinaryOperator::Minus => ast::BinaryOperator::Minus,
        sql::BinaryOperator::Multiply => ast::BinaryOperator::Multiply,
        sql::BinaryOperator::Divide => ast::BinaryOperator::Divide,
        sql::BinaryOperator::Eq => ast::BinaryOperator::Eq,
        sql::BinaryOperator::NotEq => ast::BinaryOperator::NotEq,
        sql::BinaryOperator::Lt => ast::BinaryOperator::Lt,
        sql::BinaryOperator::Gt => ast::BinaryOperator::Gt,
        sql::BinaryOperator::LtEq => ast::BinaryOperator::LtEq,
        sql::BinaryOperator::GtEq => ast::BinaryOperator::GtEq,
        sql::BinaryOperator::And => ast::BinaryOperator::And,
        sql::BinaryOperator::Or => ast::BinaryOperator::Or,
        other => ast::BinaryOperator::Other(other.to_string()),
    }
}

fn literal(v: &sql::Value) -> ast::Literal {
    match v {
        sql::Value::Null => ast::Literal::Null,
        sql::Value::Boolean(b) => ast::Literal::Boolean(*b),
        sql::Value::Number(s, long) => ast::Literal::Number {
            text: s.clone(),
            long: *long,
            float: s.parse::<f32>().ok().map(|f| f.to_bits()),
        },
        other => ast::Literal::Other(other.to_string()),
    }
}

fn function_arg(arg: &sql::FunctionArg) -> ast::FunctionArg {
    match arg {
        sql::FunctionArg::Unnamed(sql::FunctionArgExpr::Expr(e)) => ast::FunctionArg::Expr(expr(e)),
        sql::FunctionArg::Unnamed(sql::FunctionArgExpr::Wildcard) => ast::FunctionArg::Wildcard,
        sql::FunctionArg::Unnamed(_) => ast::FunctionArg::QualifiedWildcard,
        _ => ast::FunctionArg::Named,
    }
}

fn function(f: &sql::Function) -> ast::Function {
    let args = match &f.args {
        sql::FunctionArguments::List(list) => {
            ast::FunctionArguments::List(ast::FunctionArgumentList {
                duplicate_treatment: list.duplicate_treatment.is_some(),
                clauses: !list.clauses.is_empty(),
                args: list.args.iter().map(function_arg).collect(),
            })
        }
        _ => ast::FunctionArguments::Other,
    };
    ast::Function {
        name: object_name(&f.name),
        args,
        text: f.to_string(),
    }
}

fn expr(e: &sql::Expr) -> ast::Expr {
    match e {
        sql::Expr::Nested(inner) => ast::Expr::Nested(Box::new(expr(inner))),
        sql::Expr::Identifier(id) => ast::Expr::Identifier(ident(id)),
        sql::Expr::CompoundIdentifier(parts) => {
            ast::Expr::CompoundIdentifier(parts.iter().map(ident).collect())
        }
        sql::Expr::BinaryOp { left, op, right } => ast::Expr::BinaryOp {
            left: Box::new(expr(left)),
            op: operator(op),
            right: Box::new(expr(right)),
        },
        sql::Expr::Value(v) => ast::Expr::Value(literal(&v.value)),
        sql::Expr::Function(f) => ast::Expr::Function(Box::new(function(f))),
        other => ast::Expr::Other(other.to_string()),
    }
}

fn table_factor(t: &sql::TableFactor) -> ast::TableFactor {
    match t {
        sql::TableFactor::Table { name, alias, .. } => ast::TableFactor::Table {
            name: object_name(name),
            alias: alias.as_ref().map(|a| a.name.value.clone()),
        },
        _ => ast::TableFactor::Other,
    }
}

fn constraint(c: &sql::JoinConstraint) -> ast::JoinConstraint {
    match c {
        sql::JoinConstraint::On(e) => ast::JoinConstraint::On(expr(e)),
        _ => ast::JoinConstraint::Other,
    }
}

fn join(j: &sql::Join) -> ast::Join {
    let join_operator = match &j.join_operator {
        sql::JoinOperator::Join(c) => ast::JoinOperator::Join(constraint(c)),
        sql::JoinOperator::Inner(c) => ast::JoinOperator::Inner(constraint(c)),
        sql::JoinOperator::Left(c) => ast::JoinOperator::Left(constraint(c)),
        sql::JoinOperator::LeftOuter(c) => ast::JoinOperator::LeftOuter(constraint(c)),
        _ => ast::JoinOperator::Other,
    };
    ast::Join {
        relation: table_factor(&j.relation),
        join_operator,
    }
}

fn table(t: &sql::TableWithJoins) -> ast::TableWithJoins {
    ast::TableWithJoins {
        relation: table_factor(&t.relation),
        joins: t.joins.iter().map(join).collect(),
    }
}

fn select_item(item: &sql::SelectItem) -> ast::SelectItem {
    match item {
        sql::SelectItem::UnnamedExpr(e) => ast::SelectItem::UnnamedExpr(expr(e)),
        sql::SelectItem::ExprWithAlias { expr: e, .. } => ast::SelectItem::ExprWithAlias(expr(e)),
        sql::SelectItem::Wildcard(_) => ast::SelectItem::Wildcard,
        _ => ast::SelectItem::Other,
    }
}

fn select(s: &sql::Select) -> ast::Select {
    let group_by = match &s.group_by {
        sql::GroupByExpr::Expressions(exprs, modifiers) => ast::GroupBy::Expressions {
            exprs: exprs.iter().map(expr).collect(),
            modifiers: !modifiers.is_empty(),
        },
        sql::GroupByExpr::All(_) => ast::GroupBy::All,
    };
    ast::Select {
        projection: s.projection.iter().map(select_item).collect(),
        from: s.from.iter().map(table).collect(),
        selection: s.selection.as_ref().map(expr),
        group_by,
    }
}

fn set_expr(body: &sql::SetExpr) -> ast::SetExpr {
    match body {
        sql::SetExpr::Query(q) => ast::SetExpr::Query(Box::new(query(q))),
        sql::SetExpr::Values(values) => ast::SetExpr::Values(
            values
                .rows
                .iter()
                .map(|row| row.content.iter().map(expr).collect())
                .collect(),
        ),
        sql::SetExpr::Select(s) => ast::SetExpr::Select(select(s)),
        _ => ast::SetExpr::Other,
    }
}

fn limit_clause(clause: &sql::LimitClause) -> ast::LimitClause {
    match clause {
        sql::LimitClause::LimitOffset {
            limit,
            offset,
            limit_by,
        } => ast::LimitClause::LimitOffset {
            limit: limit.as_ref().map(expr),
            offset: offset.is_some(),
            limit_by: !limit_by.is_empty(),
        },
        sql::LimitClause::OffsetCommaLimit { .. } => ast::LimitClause::OffsetCommaLimit,
    }
}

fn query(q: &sql::Query) -> ast::Query {
    let order_by = q.order_by.as_ref().map(|o| match &o.kind {
        sql::OrderByKind::Expressions(exprs) => {
            ast::OrderBy::Expressions(exprs.iter().map(|o| expr(&o.expr)).collect())
        }
        sql::OrderByKind::All(_) => ast::OrderBy::All,
    });
    ast::Query {
        body: set_expr(&q.body),
        order_by,
        limit_clause: q.limit_clause.as_ref().map(limit_clause),
    }
}

fn data_type(t: &sql::DataType) -> ast::SqlDataType {
    match t {
        sql::DataType::Int(_) => ast::SqlDataType::Int,
        sql::DataType::Integer(_) => ast::SqlDataType::Integer,
        sql::DataType::Int4(_) => ast::SqlDataType::Int4,
        sql::DataType::Float(_) => ast::SqlDataType::Float,
        sql::DataType::Float4 => ast::SqlDataType::Float4,
        sql::DataType::Real => ast::SqlDataType::Real,
        sql::DataType::Bool => ast::SqlDataType::Bool,
        sql::DataType::Boolean => ast::SqlDataType::Boolean,
        sql::DataType::Timestamp(_, _) => ast::SqlDataType::Timestamp,
        other => ast::SqlDataType::Other(other.to_string()),
    }
}

fn assignment(a: &sql::Assignment) -> ast::Assignment {
    let target = match &a.target {
        sql::AssignmentTarget::ColumnName(name) => Some(object_name(name)),
        sql::AssignmentTarget::Tuple(_) => None,
    };
    ast::Assignment {
        target,
        value: expr(&a.value),
    }
}

fn statement(stmt: &sql::Statement) -> ast::Statement {
    match stmt {
        sql::Statement::Query(q) => ast::Statement::Query(query(q)),
        sql::Statement::Insert(i) => {
            let table = match &i.table {
                sql::TableObject::TableName(name) => Some(object_name(name)),
                _ => None,
            };
            ast::Statement::Insert(ast::Insert {
                table,
                source: i.source.as_ref().map(|q| query(q)),
            })
        }
        sql::Statement::Delete(d) => {
            let (sql::FromTable::WithFromKeyword(from) | sql::FromTable::WithoutKeyword(from)) =
                &d.from;
            ast::Statement::Delete(ast::Delete {
                from: from.iter().map(table).collect(),
                selection: d.selection.as_ref().map(expr),
            })
        }
        sql::Statement::Update(u) => ast::Statement::Update(ast::Update {
            table: table(&u.table),
            assignments: u.assignments.iter().map(assignment).collect(),
            selection: u.selection.as_ref().map(expr),
        }),
        sql::Statement::CreateTable(c) => ast::Statement::CreateTable(ast::CreateTable {
            name: object_name(&c.name),
            columns: c
                .columns
                .iter()
                .map(|c| ast::ColumnDef {
                    name: c.name.value.clone(),
                    data_type: data_type(&c.data_type),
                })
                .collect(),
        }),
        sql::Statement::CreateIndex(c) => ast::Statement::CreateIndex(ast::CreateIndex {
            name: c.name.as_ref().map(object_name),
            table_name: object_name(&c.table_name),
            columns: c.columns.iter().map(|c| expr(&c.column.expr)).collect(),
        }),
        _ => ast::Statement::Other,
    }
}

fn float_unit(op: FloatOp, a: u32, b: u32) -> u32 {
    let (x, y) = (f32::from_bits(a), f32::from_bits(b));
    let z = match op {
        FloatOp::Add => x + y,
        FloatOp::Sub => x - y,
        FloatOp::Mul => x * y,
        FloatOp::Div => x / y,
    };
    if z.is_nan() {
        f32::NAN.to_bits()
    } else {
        z.to_bits()
    }
}

struct Db {
    catalog: Catalog,
    bpm: BufferPoolManager,
}

fn db() -> Db {
    let num_frames = 64;
    let bpm = create_buffer_pool_manager(num_frames, ArcReplacer::new(num_frames), DiskManager::new(Vec::new()));
    Db {
        catalog: Catalog::new(),
        bpm,
    }
}

fn parse(text: &str) -> Vec<ast::Statement> {
    let parsed = Parser::parse_sql(&GenericDialect {}, text).unwrap();
    parsed.iter().map(statement).collect()
}

fn cell(v: &Value) -> String {
    match v {
        Value::BOOLEAN(b) => b.to_string(),
        Value::INT(i) => i.to_string(),
        Value::FLOAT(f) => f32::from_bits(f.0).to_string(),
        Value::TIMESTAMP(t) => t.to_string(),
    }
}

fn cells(schema: &Schema, rows: &RowStream) -> Vec<String> {
    rows.rows
        .iter()
        .map(|(tuple, _)| {
            (0..schema.cols.len())
                .map(|i| match schema.get_value(tuple, i) {
                    Ok(Some(v)) => cell(&v),
                    Ok(None) => "NULL".to_string(),
                    Err(e) => panic!("{:?}", e),
                })
                .collect::<Vec<_>>()
                .join(",")
        })
        .collect()
}

impl Db {
    fn plan(&self, text: &str) -> Result<Plan, String> {
        let mut bound = Binder::new(&self.catalog)
            .bind(parse(text))
            .map_err(|e| format!("bind: {}", e.0))?;
        assert_eq!(bound.len(), 1);
        Planner::new(&self.catalog)
            .plan(bound.remove(0))
            .map_err(|e| format!("plan: {}", e.0))
    }

    fn run_plan(&mut self, plan: &Plan) -> Result<Vec<String>, String> {
        let out = run_statement(&mut self.catalog, &mut self.bpm, plan, &float_unit);
        let rows = match plan {
            // the row of an insert is the number of rows, and no more
            Plan::Insert(_) => out
                .rows
                .iter()
                .map(|(t, _)| {
                    i32::from_le_bytes(t.data.as_slice().try_into().unwrap()).to_string()
                })
                .collect(),
            _ => cells(plan.schema(), &out),
        };
        match out.error {
            None => Ok(rows),
            Some(e) => Err(format!("exec: {}", e.0)),
        }
    }

    fn run(&mut self, text: &str) -> Result<Vec<String>, String> {
        let plan = self.plan(text)?;
        self.run_plan(&plan)
    }

    fn ok(&mut self, text: &str) -> Vec<String> {
        self.run(text).unwrap()
    }

    fn err(&mut self, text: &str) -> String {
        self.run(text).unwrap_err()
    }
}

#[test]
fn test_ast() {
    let text = "SELECT a, b, 123, myfunc(b) \
           FROM table_1 t1 \
           LEFT JOIN table_2 t2
           ON t1.a = t2.a
           WHERE a > b AND b < 100 \
           ORDER BY a DESC, b";
    let stmts = parse(text);
    println!("AST: {:?}", stmts);
    assert_eq!(stmts.len(), 1);
    assert!(matches!(stmts[0], ast::Statement::Query(_)));
}

#[test]
fn test_e2e_flow() {
    let mut db = db();
    let created = db.ok(
        "CREATE TABLE users ( \
        id INTEGER PRIMARY KEY, \
        age INTEGER \
    );",
    );
    assert!(created.is_empty());
    assert_eq!(
        db.ok("INSERT INTO users (id, age) VALUES (1, 25), (2, 50);"),
        vec!["2"]
    );
    assert_eq!(db.ok("SELECT * FROM users;"), vec!["1,25", "2,50"]);
}

fn people() -> Db {
    let mut db = db();
    db.ok("CREATE TABLE people (id INT, age INT, score REAL, active BOOLEAN)");
    db.ok(
        "INSERT INTO people VALUES (1, 30, 1.5, true), (2, 20, 2.5, false), \
         (3, 30, NULL, true), (4, NULL, 4.0, NULL)",
    );
    db
}

#[test]
fn rows_are_filtered_by_where() {
    let mut db = people();
    assert_eq!(db.ok("SELECT id FROM people WHERE age = 30"), vec!["1", "3"]);
    assert_eq!(db.ok("SELECT id FROM people WHERE age <> 30"), vec!["2"]);
    assert_eq!(db.ok("SELECT id FROM people WHERE age < 30"), vec!["2"]);
    assert_eq!(db.ok("SELECT id FROM people WHERE age <= 30"), vec!["1", "2", "3"]);
    assert_eq!(db.ok("SELECT id FROM people WHERE 20 < age"), vec!["1", "3"]);
    assert_eq!(db.ok("SELECT id FROM people WHERE id >= 3"), vec!["3", "4"]);
    assert_eq!(db.ok("SELECT id FROM people WHERE active"), vec!["1", "3"]);
    assert_eq!(db.ok("SELECT id FROM people WHERE score > 2.0"), vec!["2", "4"]);
    assert!(db.ok("SELECT id FROM people WHERE NULL").is_empty());
}

#[test]
fn null_is_neither_true_nor_false() {
    let mut db = people();
    // the fourth row has no age and no flag
    assert_eq!(
        db.ok("SELECT id FROM people WHERE active OR age < 100"),
        vec!["1", "2", "3"]
    );
    assert_eq!(db.ok("SELECT id FROM people WHERE active OR id = 4"), vec!["1", "3", "4"]);
    assert_eq!(db.ok("SELECT id FROM people WHERE active AND id > 0"), vec!["1", "3"]);
    assert_eq!(
        db.ok("SELECT id, active AND id < 0, active OR id < 0, age + 1 FROM people WHERE id >= 3"),
        vec!["3,false,true,31", "4,false,NULL,NULL"]
    );
}

#[test]
fn projections_compute() {
    let mut db = people();
    assert_eq!(
        db.ok("SELECT id * 2 + 1, (age - 5) / 4, score / 2.0, people.active FROM people WHERE id < 3"),
        vec!["3,6,0.75,true", "5,3,1.25,false"]
    );
    assert_eq!(db.ok("SELECT 1 + 2, true, 7 - 10"), vec!["3,true,-3"]);
    let plan = db.plan("SELECT age, id + 1 FROM people").unwrap();
    let names: Vec<&str> = plan.schema().cols.iter().map(|c| c.name.as_str()).collect();
    assert_eq!(names, vec!["age", "col1"]);
}

#[test]
fn rows_are_sorted_and_cut_off() {
    let mut db = people();
    // no value comes before every value, and equal rows keep their order
    assert_eq!(db.ok("SELECT id FROM people ORDER BY age"), vec!["4", "2", "1", "3"]);
    assert_eq!(
        db.ok("SELECT id FROM people ORDER BY age, score"),
        vec!["4", "2", "3", "1"]
    );
    assert_eq!(db.ok("SELECT id FROM people ORDER BY 0 - id LIMIT 2"), vec!["4", "3"]);
    assert!(db.ok("SELECT id FROM people LIMIT 0").is_empty());
    assert_eq!(db.ok("SELECT id FROM people LIMIT 9").len(), 4);
}

#[test]
fn a_limit_stops_before_an_error() {
    let mut db = people();
    assert_eq!(db.ok("SELECT 10 / (id - 3) FROM people LIMIT 1"), vec!["-5"]);
    // the row behind the last one is still computed
    assert_eq!(
        db.err("SELECT 10 / (id - 3) FROM people LIMIT 2"),
        "exec: division by zero"
    );
}

#[test]
fn rows_are_grouped() {
    let mut db = people();
    assert_eq!(
        db.ok("SELECT COUNT(*), COUNT(age), SUM(age), MIN(age), MAX(score), AVG(age) FROM people"),
        vec!["4,4,80,20,4,26"]
    );
    assert_eq!(
        db.ok("SELECT age, COUNT(*), SUM(id) FROM people GROUP BY age ORDER BY age"),
        vec!["NULL,1,4", "20,1,2", "30,2,4"]
    );
    assert_eq!(
        db.ok("SELECT SUM(id) + 1, age FROM people WHERE id <> 4 GROUP BY age ORDER BY SUM(id)"),
        vec!["3,20", "5,30"]
    );
    // no row, no group
    assert!(db.ok("SELECT COUNT(*) FROM people WHERE id > 9").is_empty());
    let plan = db.plan("SELECT age, sum(id), age + 1 FROM people GROUP BY age, age + 1").unwrap();
    let names: Vec<&str> = plan.schema().cols.iter().map(|c| c.name.as_str()).collect();
    assert_eq!(names, vec!["age", "sum_0", "g1"]);
}

#[test]
fn averages_of_floats_fail_in_the_division() {
    let mut db = people();
    // the sum is a float and the count an integer
    assert_eq!(
        db.err("SELECT AVG(score) FROM people"),
        "exec: type-checked at plan time"
    );
}

fn orders() -> Db {
    let mut db = people();
    db.ok("CREATE TABLE orders (person INT, price INT)");
    db.ok("INSERT INTO orders VALUES (1, 10), (3, 30), (1, 11), (9, 90)");
    db
}

#[test]
fn tables_are_joined() {
    let mut db = orders();
    assert_eq!(
        db.ok("SELECT p.id, o.price FROM people p JOIN orders o ON p.id = o.person"),
        vec!["1,10", "1,11", "3,30"]
    );
    assert_eq!(
        db.ok("SELECT id, price FROM people LEFT JOIN orders ON id = person"),
        vec!["1,10", "1,11", "2,NULL", "3,30", "4,NULL"]
    );
    assert_eq!(
        db.ok(
            "SELECT price + age FROM people INNER JOIN orders ON people.id = orders.person \
             WHERE price > 10 ORDER BY price"
        ),
        vec!["41", "60"]
    );
    assert_eq!(
        db.ok(
            "SELECT id, SUM(price) FROM people JOIN orders ON id = person GROUP BY id ORDER BY id"
        ),
        vec!["1,21", "3,30"]
    );
    assert_eq!(
        db.ok("SELECT * FROM orders a LEFT OUTER JOIN orders b ON a.price + 1 = b.price WHERE a.person = 1"),
        vec!["1,10,1,11", "1,11,NULL,NULL"]
    );
}

#[test]
fn an_index_is_used_for_lookups() {
    let mut db = db();
    db.ok("CREATE TABLE t (k INT, v INT)");
    db.ok("CREATE INDEX by_k ON t (k)");
    for i in 0..40 {
        db.ok(&format!("INSERT INTO t VALUES ({}, {})", (i * 7) % 40, i));
    }
    let plan = db.plan("SELECT v FROM t WHERE k = 21").unwrap();
    let Plan::Projection(p) = &plan else {
        panic!("a projection");
    };
    assert!(matches!(*p.child, Plan::IndexScan(_)));
    assert_eq!(db.run_plan(&plan).unwrap(), vec!["3"]);
    assert_eq!(db.ok("SELECT v FROM t WHERE 39 = k"), vec!["17"]);
    assert!(db.ok("SELECT v FROM t WHERE k = 40").is_empty());
    // without a constant on one side, or on another column, the table is read
    assert!(matches!(db.plan("DELETE FROM t WHERE v = 3"), Ok(Plan::Delete(d))
        if matches!(*d.child, Plan::Filter(_))));
    assert_eq!(db.ok("SELECT k FROM t WHERE v = 3"), vec!["21"]);
}

#[test]
fn an_index_is_used_for_inner_joins() {
    let mut db = people();
    db.ok("CREATE TABLE pets (owner INT, age INT)");
    db.ok("CREATE INDEX by_owner ON pets (owner)");
    db.ok("INSERT INTO pets VALUES (3, 5), (1, 2), (NULL, 9)");
    let text = "SELECT id, pets.age FROM people JOIN pets ON pets.owner = people.id";
    let plan = db.plan(text).unwrap();
    let Plan::Projection(p) = &plan else {
        panic!("a projection");
    };
    assert!(matches!(*p.child, Plan::NestedIndexJoin(_)));
    assert_eq!(db.run_plan(&plan).unwrap(), vec!["1,2", "3,5"]);
    let left = "SELECT id, pets.age FROM people LEFT JOIN pets ON owner = id";
    let Ok(Plan::Projection(p)) = db.plan(left) else {
        panic!("a projection");
    };
    assert!(matches!(*p.child, Plan::NestedLoopJoin(_)));
    assert_eq!(db.ok(left), vec!["1,2", "2,NULL", "3,5", "4,NULL"]);
}

#[test]
fn rows_are_updated() {
    let mut db = people();
    assert_eq!(
        db.ok("UPDATE people SET age = age + 1, score = 0.5 WHERE age = 30").len(),
        2
    );
    let mut rows = db.ok("SELECT id, age, score FROM people");
    rows.sort();
    assert_eq!(rows, vec!["1,31,0.5", "2,20,2.5", "3,31,0.5", "4,NULL,4"]);
    assert_eq!(db.ok("UPDATE people SET active = NULL").len(), 4);
    assert!(db.ok("SELECT id FROM people WHERE active OR id < 0").is_empty());
}

#[test]
fn rows_are_deleted() {
    let mut db = people();
    assert_eq!(db.ok("DELETE FROM people WHERE age = 30").len(), 2);
    assert_eq!(db.ok("SELECT id FROM people"), vec!["2", "4"]);
    assert_eq!(db.ok("DELETE FROM people").len(), 2);
    assert!(db.ok("SELECT * FROM people").is_empty());
    assert_eq!(db.ok("INSERT INTO people VALUES (5, 1, 1.0, true)"), vec!["1"]);
    assert_eq!(db.ok("SELECT id FROM people"), vec!["5"]);
}

#[test]
fn indexes_follow_the_rows() {
    let mut db = db();
    db.ok("CREATE TABLE t (k INT, v INT)");
    db.ok("CREATE INDEX by_k ON t (k)");
    db.ok("INSERT INTO t VALUES (1, 10), (2, 20), (3, 30)");
    assert_eq!(
        db.err("INSERT INTO t VALUES (2, 21)"),
        "exec: index error: Insert(DuplicateKey)"
    );
    db.ok("UPDATE t SET k = 5 WHERE k = 3");
    assert!(db.ok("SELECT v FROM t WHERE k = 3").is_empty());
    assert_eq!(db.ok("SELECT v FROM t WHERE k = 5"), vec!["30"]);
    db.ok("DELETE FROM t WHERE k = 1");
    assert!(db.ok("SELECT v FROM t WHERE k = 1").is_empty());
    assert_eq!(db.ok("INSERT INTO t VALUES (1, 11)"), vec!["1"]);
    assert_eq!(db.ok("SELECT v FROM t WHERE k = 1"), vec!["11"]);
}

#[test]
fn expressions_fail_on_values_without_a_result() {
    let mut db = people();
    assert_eq!(
        db.err("INSERT INTO people VALUES (2147483647 + 1, 1, 1.0, true)"),
        "exec: integer overflow"
    );
    assert_eq!(db.err("SELECT 1 / (id - id) FROM people"), "exec: division by zero");
    assert_eq!(db.err("SELECT id + score FROM people"), "exec: type-checked at plan time");
    assert_eq!(db.err("SELECT id AND true FROM people"), "exec: type-checked at plan time");
    assert_eq!(
        db.err("INSERT INTO people VALUES (1, 2)"),
        "exec: catalog error: TupleSchemaMismatch"
    );
    assert_eq!(
        db.err("INSERT INTO people VALUES (true, 2, 1.0, true)"),
        "exec: catalog error: TupleSchemaMismatch"
    );
    // division of floats has a result for every divisor
    assert_eq!(db.ok("SELECT 1.0 / 0.0"), vec!["inf"]);
    assert_eq!(db.ok("SELECT 0.0 / 0.0 = 0.0 / 0.0"), vec!["true"]);
}

#[test]
fn tables_and_indexes_are_created_once() {
    let mut db = people();
    assert_eq!(
        db.err("CREATE TABLE people (x INT)"),
        "exec: catalog error: TableExists"
    );
    db.ok("CREATE INDEX by_id ON people (id)");
    assert_eq!(
        db.err("CREATE INDEX by_id ON people (age)"),
        "exec: catalog error: IndexExists"
    );
}

#[test]
fn statements_that_do_not_bind_are_refused() {
    let mut db = orders();
    for (text, error) in [
        ("SELECT id FROM nobody", "table not found: nobody"),
        ("SELECT name FROM people", "column not found: name"),
        ("SELECT p.name FROM people p", "column not found: name"),
        ("SELECT people.id FROM people p", "table not in scope: people"),
        ("SELECT a.b.c FROM people", "only `table.column` references are supported"),
        (
            "SELECT a.person FROM orders a JOIN orders b ON person = 1",
            "ambiguous column: person",
        ),
        ("SELECT id FROM people, orders", "comma-separated FROM tables not supported"),
        (
            "SELECT 1 FROM people a JOIN people b ON a.id = b.id JOIN people c ON a.id = c.id",
            "only 2-way joins supported",
        ),
        ("SELECT 1 FROM people CROSS JOIN orders", "unsupported join type"),
        (
            "SELECT 1 FROM people JOIN orders USING (id)",
            "only ON <expr> join constraints supported",
        ),
        ("SELECT 1 FROM (SELECT 1)", "FROM target must be a plain table"),
        ("SELECT NULL", "bare NULL not allowed in SELECT projection"),
        ("SELECT 'text'", "unsupported literal: 'text'"),
        ("SELECT myfunc(id) FROM people", "unsupported expression: myfunc(id)"),
        ("SELECT id AS x FROM people", "unsupported select item"),
        ("SELECT people.* FROM people", "unsupported select item"),
        ("SELECT -id FROM people", "unsupported expression: -id"),
        ("SELECT id % 2 FROM people", "unsupported binary operator: %"),
        ("SELECT id FROM people LIMIT true", "LIMIT must be a numeric literal"),
        ("SELECT id FROM people LIMIT 1.5", "invalid LIMIT: 1.5"),
        ("SELECT id FROM people LIMIT 1 OFFSET 2", "unsupported LIMIT clause"),
        (
            "SELECT id, COUNT(*) FROM people",
            "column `id` must appear in GROUP BY or be used inside an aggregate function",
        ),
        (
            "SELECT people.id FROM people GROUP BY age",
            "column `people.id` must appear in GROUP BY or be used inside an aggregate function",
        ),
        ("SELECT SUM(COUNT(*)) FROM people", "nested aggregate functions are not allowed"),
        ("SELECT SUM(*) FROM people", "`*` is only valid as an argument to COUNT, not SUM"),
        (
            "SELECT COUNT(DISTINCT id) FROM people",
            "DISTINCT inside aggregate functions is not supported",
        ),
        ("SELECT SUM(id, age) FROM people", "aggregate `SUM` expects exactly one argument"),
        (
            "SELECT id FROM people WHERE COUNT(*) > 1",
            "aggregate functions are only allowed in a SELECT projection",
        ),
        ("INSERT INTO people SELECT * FROM people", "INSERT requires VALUES"),
        ("INSERT INTO a.b VALUES (1)", "qualified name not supported: a.b"),
        ("UPDATE people SET name = 1", "column not found: name"),
        ("CREATE TABLE x (a VARCHAR)", "unsupported type: VARCHAR"),
        ("CREATE INDEX i ON people (name)", "column not found: name"),
        ("CREATE INDEX i ON people (id + 1)", "index columns must be plain identifiers"),
        ("DROP TABLE people", "unsupported statement"),
        ("SELECT 1 UNION SELECT 2", "unsupported query body"),
    ] {
        assert_eq!(db.err(text), format!("bind: {}", error), "{}", text);
    }
    // nothing was changed
    assert_eq!(db.ok("SELECT COUNT(*) FROM people"), vec!["4"]);
}

#[test]
fn the_first_statement_that_does_not_bind_is_reported() {
    let db = people();
    let binder = Binder::new(&db.catalog);
    let stmts = parse("SELECT 1; SELECT a; SELECT b");
    assert_eq!(binder.bind(stmts).err().unwrap().0, "column not found: a");
    assert_eq!(binder.bind(parse("SELECT 1; SELECT 2")).unwrap().len(), 2);
}

#[test]
fn values_stand_alone() {
    let mut db = db();
    assert_eq!(db.ok("VALUES (1, true), (2, false)"), vec!["1,true", "2,false"]);
    assert_eq!(db.ok("SELECT 2147483648"), vec!["2147483600"]);
}

/// The same rows with and without an index on the first column.
fn twins() -> Db {
    let mut db = db();
    for name in ["plain", "quick"] {
        db.ok(&format!("CREATE TABLE {name} (k INT, v INT)"));
    }
    db.ok("CREATE INDEX by_k ON quick (k)");
    for i in 0..60 {
        let k = if i % 9 == 0 {
            "NULL".to_string()
        } else {
            ((i * 37) % 101).to_string()
        };
        for name in ["plain", "quick"] {
            db.ok(&format!("INSERT INTO {name} VALUES ({k}, {i})"));
        }
    }
    for name in ["plain", "quick"] {
        assert_eq!(db.ok(&format!("DELETE FROM {name} WHERE v < 10")).len(), 10);
        db.ok(&format!("UPDATE {name} SET k = k + 200 WHERE v > 50"));
    }
    db
}

#[test]
fn lookups_through_an_index_agree_with_filters() {
    let mut db = twins();
    let mut hits = 0;
    for k in 0..310 {
        let expected = db.ok(&format!("SELECT k, v FROM plain WHERE k = {k}"));
        let text = format!("SELECT k, v FROM quick WHERE {k} = k");
        let Ok(Plan::Projection(p)) = db.plan(&text) else {
            panic!("a projection");
        };
        assert!(matches!(*p.child, Plan::IndexScan(_)));
        assert_eq!(db.ok(&text), expected, "{}", k);
        hits += expected.len();
    }
    assert!(hits > 20);
}

#[test]
fn index_joins_agree_with_loop_joins() {
    let mut db = twins();
    let through = "SELECT plain.v, quick.v FROM plain JOIN quick ON plain.k = quick.k";
    let by_row = "SELECT plain.v, quick.v FROM plain JOIN quick ON plain.k + 0 = quick.k";
    let Ok(Plan::Projection(p)) = db.plan(through) else {
        panic!("a projection");
    };
    assert!(matches!(*p.child, Plan::NestedIndexJoin(_)));
    let Ok(Plan::Projection(p)) = db.plan(by_row) else {
        panic!("a projection");
    };
    assert!(matches!(*p.child, Plan::NestedLoopJoin(_)));
    let rows = db.ok(through);
    assert!(rows.len() > 30);
    assert_eq!(rows, db.ok(by_row));
}
