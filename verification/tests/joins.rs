use crustydb::bytecode_expr::{colidx_expr, ByteCodeExpr, ByteCodes};
use crustydb::error::CrustyError;
use crustydb::field::{BooleanOp, Field};
use crustydb::opiterator::hash_join::HashEqJoin;
use crustydb::opiterator::nested_loop_join::NestedLoopJoin;
use crustydb::opiterator::tuple_iterator::TupleIterator;
use crustydb::opiterator::OpIterator;
use crustydb::tuple::{Attribute, DataType, TableSchema, Tuple};

fn f_int(n: i64) -> Field {
    Field::Int(n)
}

fn f_str(s: &str) -> Field {
    Field::String(s.to_string())
}

fn row(a: i64, b: i64, c: i64, s: &str) -> Tuple {
    Tuple::new(vec![f_int(a), f_int(b), f_int(c), f_str(s)])
}

fn ints(values: &[i64]) -> Tuple {
    Tuple::new(values.iter().map(|n| f_int(*n)).collect())
}

fn test_tuples() -> Vec<Tuple> {
    vec![
        row(1, 1, 3, "E"),
        row(2, 1, 3, "G"),
        row(3, 1, 4, "A"),
        row(4, 2, 4, "G"),
        row(5, 2, 5, "G"),
        row(6, 2, 5, "G"),
    ]
}

fn test_schema() -> TableSchema {
    let mut attributes: Vec<Attribute> = Vec::new();
    for name in ["a", "b", "c"] {
        attributes.push(Attribute { name: name.to_string(), dtype: DataType::Int });
    }
    attributes.push(Attribute { name: "d".to_string(), dtype: DataType::String });
    TableSchema::new(attributes)
}

fn source(tuples: Vec<Tuple>) -> TupleIterator {
    TupleIterator::new(tuples, TableSchema::new(vec![]))
}

fn sort_tuples(tuples: &mut Vec<Tuple>) {
    tuples.sort_by(|x, y| {
        for (a, b) in x.field_vals.iter().zip(y.field_vals.iter()) {
            if a.less_than(b) {
                return std::cmp::Ordering::Less;
            }
            if a.greater_than(b) {
                return std::cmp::Ordering::Greater;
            }
        }
        std::cmp::Ordering::Equal
    });
}

fn execute_iter<O: OpIterator>(iter: &mut O, sort: bool) -> Result<Vec<Tuple>, CrustyError> {
    iter.open()?;
    let mut res = Vec::new();
    while let Some(tuple) = iter.next()? {
        res.push(tuple);
    }
    if sort {
        sort_tuples(&mut res);
    }
    Ok(res)
}

fn get_join_predicate() -> (ByteCodeExpr, ByteCodeExpr) {
    let mut left = ByteCodeExpr::new();
    left.add_code(ByteCodes::PushField as usize);
    left.add_code(0);
    left.add_code(ByteCodes::PushField as usize);
    left.add_code(1);
    left.add_code(ByteCodes::Add as usize);

    let mut right = ByteCodeExpr::new();
    right.add_code(ByteCodes::PushField as usize);
    right.add_code(2);

    (left, right)
}

fn get_nested_loop_iter(
    op: BooleanOp,
    left_expr: ByteCodeExpr,
    right_expr: ByteCodeExpr,
) -> NestedLoopJoin<TupleIterator, TupleIterator> {
    let mut iter = NestedLoopJoin::new(
        op,
        left_expr,
        right_expr,
        TupleIterator::new(test_tuples(), test_schema()),
        TupleIterator::new(test_tuples(), test_schema()),
        test_schema(),
    );
    iter.configure(false);
    iter
}

fn get_hash_iter(
    left_expr: ByteCodeExpr,
    right_expr: ByteCodeExpr,
) -> HashEqJoin<TupleIterator, TupleIterator> {
    let mut iter = HashEqJoin::new(
        test_schema(),
        left_expr,
        right_expr,
        TupleIterator::new(test_tuples(), test_schema()),
        TupleIterator::new(test_tuples(), test_schema()),
    );
    iter.configure(false);
    iter
}

fn run_nested_loop_join(
    op: BooleanOp,
    left_expr: ByteCodeExpr,
    right_expr: ByteCodeExpr,
) -> Vec<Tuple> {
    let mut iter = get_nested_loop_iter(op, left_expr, right_expr);
    execute_iter(&mut iter, true).unwrap()
}

fn run_hash_eq_join(left_expr: ByteCodeExpr, right_expr: ByteCodeExpr) -> Vec<Tuple> {
    let mut iter = get_hash_iter(left_expr, right_expr);
    execute_iter(&mut iter, true).unwrap()
}

fn assert_join_result(t: Vec<Tuple>) {
    assert_eq!(t.len(), 4);
    assert_eq!(
        t[0],
        Tuple::new(vec![
            Field::Int(2),
            Field::Int(1),
            Field::Int(3),
            Field::String("G".to_string()),
            Field::Int(1),
            Field::Int(1),
            Field::Int(3),
            Field::String("E".to_string()),
        ])
    );
    assert_eq!(
        t[1],
        Tuple::new(vec![
            Field::Int(2),
            Field::Int(1),
            Field::Int(3),
            Field::String("G".to_string()),
            Field::Int(2),
            Field::Int(1),
            Field::Int(3),
            Field::String("G".to_string()),
        ])
    );
    assert_eq!(
        t[2],
        Tuple::new(vec![
            Field::Int(3),
            Field::Int(1),
            Field::Int(4),
            Field::String("A".to_string()),
            Field::Int(3),
            Field::Int(1),
            Field::Int(4),
            Field::String("A".to_string()),
        ])
    );
    assert_eq!(
        t[3],
        Tuple::new(vec![
            Field::Int(3),
            Field::Int(1),
            Field::Int(4),
            Field::String("A".to_string()),
            Field::Int(4),
            Field::Int(2),
            Field::Int(4),
            Field::String("G".to_string()),
        ])
    );
}

#[test]
fn test_eq_join() {
    let (left_expr, right_expr) = get_join_predicate();
    assert_join_result(run_nested_loop_join(BooleanOp::Eq, left_expr, right_expr));
}

#[test]
fn nested_loop_join_test_open() {
    let (left_expr, right_expr) = get_join_predicate();
    let mut iter = get_nested_loop_iter(BooleanOp::Eq, left_expr, right_expr);
    iter.open().unwrap();
}

#[test]
fn nested_loop_join_test_close() {
    let (left_expr, right_expr) = get_join_predicate();
    let mut iter = get_nested_loop_iter(BooleanOp::Eq, left_expr, right_expr);
    iter.open().unwrap();
    iter.close().unwrap();
}

#[test]
fn nested_loop_join_test_rewind() {
    let (left_expr, right_expr) = get_join_predicate();
    let mut iter = get_nested_loop_iter(BooleanOp::Eq, left_expr, right_expr);
    iter.configure(true);
    let t_before = execute_iter(&mut iter, false).unwrap();
    iter.rewind().unwrap();
    let t_after = execute_iter(&mut iter, false).unwrap();
    assert_eq!(t_before, t_after);
    assert_eq!(t_before.len(), 4);
}

#[test]
fn test_join() {
    let (left_expr, right_expr) = get_join_predicate();
    assert_join_result(run_hash_eq_join(left_expr, right_expr));
}

#[test]
fn hash_join_test_open() {
    let (left_expr, right_expr) = get_join_predicate();
    let mut iter = get_hash_iter(left_expr, right_expr);
    iter.open().unwrap();
}

#[test]
fn hash_join_test_close() {
    let (left_expr, right_expr) = get_join_predicate();
    let mut iter = get_hash_iter(left_expr, right_expr);
    iter.open().unwrap();
    iter.close().unwrap();
}

#[test]
fn hash_join_test_rewind() {
    let (left_expr, right_expr) = get_join_predicate();
    let mut iter = get_hash_iter(left_expr, right_expr);
    iter.configure(true);
    let t_before = execute_iter(&mut iter, false).unwrap();
    iter.rewind().unwrap();
    let t_after = execute_iter(&mut iter, false).unwrap();
    assert_eq!(t_before, t_after);
    assert_eq!(t_before.len(), 4);
}

fn join_pairs(op: BooleanOp, lefts: &[i64], rights: &[i64]) -> Vec<Tuple> {
    let mut iter = NestedLoopJoin::new(
        op,
        colidx_expr(0),
        colidx_expr(0),
        source(lefts.iter().map(|n| ints(&[*n])).collect()),
        source(rights.iter().map(|n| ints(&[*n])).collect()),
        TableSchema::new(vec![]),
    );
    execute_iter(&mut iter, false).unwrap()
}

#[test]
fn each_comparison_picks_its_pairs_left_tuple_by_left_tuple() {
    let pairs = |op: BooleanOp| join_pairs(op, &[1, 2], &[2, 1]);
    assert_eq!(pairs(BooleanOp::Eq), vec![ints(&[1, 1]), ints(&[2, 2])]);
    assert_eq!(pairs(BooleanOp::Neq), vec![ints(&[1, 2]), ints(&[2, 1])]);
    assert_eq!(pairs(BooleanOp::Lt), vec![ints(&[1, 2])]);
    assert_eq!(
        pairs(BooleanOp::Lte),
        vec![ints(&[1, 2]), ints(&[1, 1]), ints(&[2, 2])]
    );
    assert_eq!(pairs(BooleanOp::Gt), vec![ints(&[2, 1])]);
    assert_eq!(
        pairs(BooleanOp::Gte),
        vec![ints(&[1, 1]), ints(&[2, 2]), ints(&[2, 1])]
    );
}

#[test]
fn joins_with_an_empty_input_are_empty() {
    assert_eq!(join_pairs(BooleanOp::Lte, &[], &[1, 2]), vec![]);
    assert_eq!(join_pairs(BooleanOp::Lte, &[1, 2], &[]), vec![]);
    let mut iter = HashEqJoin::new(
        TableSchema::new(vec![]),
        colidx_expr(0),
        colidx_expr(0),
        source(vec![]),
        source(vec![ints(&[1])]),
    );
    assert_eq!(execute_iter(&mut iter, false).unwrap(), vec![]);
}

#[test]
fn the_hash_join_goes_right_tuple_by_right_tuple() {
    let mut iter = HashEqJoin::new(
        TableSchema::new(vec![]),
        colidx_expr(0),
        colidx_expr(0),
        source(vec![ints(&[1, 10]), ints(&[2, 20]), ints(&[1, 11])]),
        source(vec![ints(&[3, 0]), ints(&[1, 1]), ints(&[2, 2]), ints(&[1, 3])]),
    );
    assert_eq!(
        execute_iter(&mut iter, false).unwrap(),
        vec![
            ints(&[1, 10, 1, 1]),
            ints(&[1, 11, 1, 1]),
            ints(&[2, 20, 2, 2]),
            ints(&[1, 10, 1, 3]),
            ints(&[1, 11, 1, 3]),
        ]
    );
}

#[test]
fn both_joins_give_the_same_tuples() {
    let lefts: Vec<Tuple> = (0..40).map(|n| ints(&[n * 7 % 11, n])).collect();
    let rights: Vec<Tuple> = (0..30).map(|n| ints(&[n * 5 % 13, 100 + n])).collect();
    let mut nested = NestedLoopJoin::new(
        BooleanOp::Eq,
        colidx_expr(0),
        colidx_expr(0),
        source(lefts.clone()),
        source(rights.clone()),
        TableSchema::new(vec![]),
    );
    let mut hashed = HashEqJoin::new(
        TableSchema::new(vec![]),
        colidx_expr(0),
        colidx_expr(0),
        source(lefts),
        source(rights),
    );
    let by_scan = execute_iter(&mut nested, true).unwrap();
    let by_hash = execute_iter(&mut hashed, true).unwrap();
    assert_eq!(by_scan, by_hash);
    assert!(by_scan.len() > 50);
}

#[test]
fn equal_keys_are_of_the_same_kind() {
    let mut iter = HashEqJoin::new(
        TableSchema::new(vec![]),
        colidx_expr(0),
        colidx_expr(0),
        source(vec![
            Tuple::new(vec![f_int(1)]),
            Tuple::new(vec![f_str("1")]),
            Tuple::new(vec![Field::Null]),
            Tuple::new(vec![Field::Decimal(1, 0)]),
        ]),
        source(vec![Tuple::new(vec![f_int(1)]), Tuple::new(vec![Field::Null])]),
    );
    assert_eq!(
        execute_iter(&mut iter, false).unwrap(),
        vec![
            Tuple::new(vec![f_int(1), f_int(1)]),
            Tuple::new(vec![Field::Null, Field::Null]),
        ]
    );
}

#[test]
fn a_rewind_in_the_middle_keeps_the_current_left_tuple() {
    let mut iter = NestedLoopJoin::new(
        BooleanOp::Lte,
        colidx_expr(0),
        colidx_expr(0),
        source(vec![ints(&[1]), ints(&[2])]),
        source(vec![ints(&[1]), ints(&[2])]),
        TableSchema::new(vec![]),
    );
    iter.open().unwrap();
    assert_eq!(iter.next(), Ok(Some(ints(&[1, 1]))));
    iter.rewind().unwrap();
    let mut rest = Vec::new();
    while let Some(tuple) = iter.next().unwrap() {
        rest.push(tuple);
    }
    assert_eq!(
        rest,
        vec![
            ints(&[1, 1]),
            ints(&[1, 2]),
            ints(&[1, 1]),
            ints(&[1, 2]),
            ints(&[2, 2]),
        ]
    );
}

#[test]
fn a_rewind_in_the_middle_of_a_bucket_finishes_it_first() {
    let mut iter = HashEqJoin::new(
        TableSchema::new(vec![]),
        colidx_expr(0),
        colidx_expr(0),
        source(vec![ints(&[1, 10]), ints(&[1, 11])]),
        source(vec![ints(&[1, 0])]),
    );
    iter.open().unwrap();
    assert_eq!(iter.next(), Ok(Some(ints(&[1, 10, 1, 0]))));
    iter.rewind().unwrap();
    let mut rest = Vec::new();
    while let Some(tuple) = iter.next().unwrap() {
        rest.push(tuple);
    }
    assert_eq!(
        rest,
        vec![
            ints(&[1, 11, 1, 0]),
            ints(&[1, 10, 1, 0]),
            ints(&[1, 11, 1, 0]),
        ]
    );
}

#[test]
fn joins_can_be_nested() {
    let inner = || {
        NestedLoopJoin::new(
            BooleanOp::Neq,
            colidx_expr(0),
            colidx_expr(0),
            source(vec![ints(&[1]), ints(&[2])]),
            source(vec![ints(&[1]), ints(&[2])]),
            TableSchema::new(vec![]),
        )
    };
    let mut iter = NestedLoopJoin::new(
        BooleanOp::Eq,
        colidx_expr(0),
        colidx_expr(1),
        inner(),
        inner(),
        TableSchema::new(vec![]),
    );
    assert_eq!(
        execute_iter(&mut iter, false).unwrap(),
        vec![ints(&[1, 2, 2, 1]), ints(&[2, 1, 1, 2])]
    );
}

#[test]
fn the_schemas_are_those_that_were_given() {
    let (left_expr, right_expr) = get_join_predicate();
    assert_eq!(
        *get_nested_loop_iter(BooleanOp::Eq, left_expr, right_expr).get_schema(),
        test_schema()
    );
    let (left_expr, right_expr) = get_join_predicate();
    assert_eq!(*get_hash_iter(left_expr, right_expr).get_schema(), test_schema());
    assert_eq!(*source(vec![]).get_schema(), TableSchema::new(vec![]));
}
