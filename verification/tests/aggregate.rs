use crustydb::bytecode_expr::{colidx_expr, ByteCodeExpr, ADD, PUSH_FIELD};
use crustydb::error::CrustyError;
use crustydb::field::Field;
use crustydb::opiterator::aggregate::{AggOp, AggState, Aggregate};
use crustydb::opiterator::average::average_of;
use crustydb::opiterator::tuple_iterator::TupleIterator;
use crustydb::opiterator::OpIterator;
use crustydb::tuple::{Attribute, DataType, TableSchema, Tuple};

/// The average in double precision, cut off behind four decimal places.
fn float_average(sum: &Field, count: i64) -> Field {
    let sum_as_f64 = match sum {
        Field::Int(integer_val) => *integer_val as f64,
        Field::Decimal(raw_val, scale) => *raw_val as f64 / 10f64.powi(*scale as i32),
        _ => 0.0,
    };
    let average = sum_as_f64 / (count as f64);
    Field::Decimal((average * 10_000.0) as i64, 4)
}

fn f_int(n: i64) -> Field {
    Field::Int(n)
}

fn f_str(s: &str) -> Field {
    Field::String(s.to_string())
}

fn f_decimal(x: f64) -> Field {
    Field::Decimal((x * 10_000.0) as i64, 4)
}

fn row(a: i64, b: i64, c: i64, s: &str) -> Tuple {
    Tuple::new(vec![f_int(a), f_int(b), f_int(c), f_str(s)])
}

fn test_tuples() -> Vec<Tuple> {
    vec![
        row(1, 1, 3, "E"),
        row(2, 1, 3, "G"),
        row(3, 1, 4, "A"),
        row(4, 2, 4, "G"),
        row(5, 2, 5, "G"),
        row(6, 2, 5, "G"),
    ]
}

fn attribute(name: &str, dtype: DataType) -> Attribute {
    Attribute { name: name.to_string(), dtype }
}

fn test_schema() -> TableSchema {
    TableSchema::new(vec![
        attribute("a", DataType::Int),
        attribute("b", DataType::Int),
        attribute("c", DataType::Int),
        attribute("d", DataType::String),
    ])
}

/// Orders tuples field by field.
fn sort_tuples(tuples: &mut Vec<Tuple>) {
    tuples.sort_by(|x, y| {
        for (a, b) in x.field_vals.iter().zip(y.field_vals.iter()) {
            if a.less_than(b) {
                return std::cmp::Ordering::Less;
            }
            if a.greater_than(b) {
                return std::cmp::Ordering::Greater;
            }
        }
        std::cmp::Ordering::Equal
    });
}

fn execute_iter<O: OpIterator>(iter: &mut O, sort: bool) -> Result<Vec<Tuple>, CrustyError> {
    iter.open()?;
    let mut res = Vec::new();
    while let Some(tuple) = iter.next()? {
        res.push(tuple);
    }
    if sort {
        sort_tuples(&mut res);
    }
    Ok(res)
}

fn get_iter(
    groupby_expr: Vec<ByteCodeExpr>,
    agg_expr: Vec<ByteCodeExpr>,
    ops: Vec<AggOp>,
) -> Aggregate<TupleIterator> {
    let dummy_schema = TableSchema::new(vec![]);
    let mut iter = Aggregate::new(
        groupby_expr,
        agg_expr,
        ops,
        dummy_schema,
        TupleIterator::new(test_tuples(), test_schema()),
    );
    iter.configure(false);
    iter
}

fn run_aggregate(
    groupby_expr: Vec<ByteCodeExpr>,
    agg_expr: Vec<ByteCodeExpr>,
    ops: Vec<AggOp>,
) -> Vec<Tuple> {
    let mut iter = get_iter(groupby_expr, agg_expr, ops);
    execute_iter(&mut iter, true).unwrap()
}

/// Aggregates given tuples, without sorting the result.
fn aggregate_of(
    tuples: Vec<Tuple>,
    groupby_expr: Vec<ByteCodeExpr>,
    agg_expr: Vec<ByteCodeExpr>,
    ops: Vec<AggOp>,
) -> Vec<Tuple> {
    let child = TupleIterator::new(tuples, TableSchema::new(vec![]));
    let mut iter =
        Aggregate::new(groupby_expr, agg_expr, ops, TableSchema::new(vec![]), child);
    execute_iter(&mut iter, false).unwrap()
}

/// What one operation makes of a column of values.
fn aggregate_column(op: AggOp, values: Vec<Field>) -> Field {
    let tuples = values.into_iter().map(|value| Tuple::new(vec![value])).collect();
    let mut rows = aggregate_of(tuples, vec![], vec![colidx_expr(0)], vec![op]);
    assert_eq!(rows.len(), 1);
    rows.pop().unwrap().field_vals.pop().unwrap()
}

#[test]
fn test_empty_group() {
    let group_by = vec![];
    let agg = vec![colidx_expr(0), colidx_expr(1), colidx_expr(2)];
    let ops = vec![AggOp::Count, AggOp::Max, AggOp::Avg];
    let t = run_aggregate(group_by, agg, ops);
    assert_eq!(t.len(), 1);
    assert_eq!(t[0], Tuple::new(vec![f_int(6), f_int(2), f_decimal(4.0)]));
}

#[test]
fn test_empty_aggregation() {
    let group_by = vec![colidx_expr(2)];
    let agg = vec![];
    let ops = vec![];
    let t = run_aggregate(group_by, agg, ops);
    assert_eq!(t.len(), 3);
    assert_eq!(t[0], Tuple::new(vec![f_int(3)]));
    assert_eq!(t[1], Tuple::new(vec![f_int(4)]));
    assert_eq!(t[2], Tuple::new(vec![f_int(5)]));
}

#[test]
fn test_count() {
    let group_by = vec![colidx_expr(1), colidx_expr(2)];
    let agg = vec![colidx_expr(0)];
    let ops = vec![AggOp::Count];
    let t = run_aggregate(group_by, agg, ops);
    assert_eq!(t.len(), 4);
    assert_eq!(t[0], Tuple::new(vec![f_int(1), f_int(3), f_int(2)]));
    assert_eq!(t[1], Tuple::new(vec![f_int(1), f_int(4), f_int(1)]));
    assert_eq!(t[2], Tuple::new(vec![f_int(2), f_int(4), f_int(1)]));
    assert_eq!(t[3], Tuple::new(vec![f_int(2), f_int(5), f_int(2)]));
}

#[test]
fn test_sum() {
    let group_by = vec![colidx_expr(1), colidx_expr(2)];
    let agg = vec![colidx_expr(0)];
    let ops = vec![AggOp::Sum];
    let tuples = run_aggregate(group_by, agg, ops);
    assert_eq!(tuples.len(), 4);
    assert_eq!(tuples[0], Tuple::new(vec![f_int(1), f_int(3), f_int(3)]));
    assert_eq!(tuples[1], Tuple::new(vec![f_int(1), f_int(4), f_int(3)]));
    assert_eq!(tuples[2], Tuple::new(vec![f_int(2), f_int(4), f_int(4)]));
    assert_eq!(tuples[3], Tuple::new(vec![f_int(2), f_int(5), f_int(11)]));
}

#[test]
fn test_max() {
    let group_by = vec![colidx_expr(1), colidx_expr(2)];
    let agg = vec![colidx_expr(3)];
    let ops = vec![AggOp::Max];
    let t = run_aggregate(group_by, agg, ops);
    assert_eq!(t.len(), 4);
    assert_eq!(t[0], Tuple::new(vec![f_int(1), f_int(3), f_str("G")]));
    assert_eq!(t[1], Tuple::new(vec![f_int(1), f_int(4), f_str("A")]));
    assert_eq!(t[2], Tuple::new(vec![f_int(2), f_int(4), f_str("G")]));
    assert_eq!(t[3], Tuple::new(vec![f_int(2), f_int(5), f_str("G")]));
}

#[test]
fn test_min() {
    let group_by = vec![colidx_expr(1), colidx_expr(2)];
    let agg = vec![colidx_expr(3)];
    let ops = vec![AggOp::Min];
    let t = run_aggregate(group_by, agg, ops);
    assert!(t.len() == 4);
    assert_eq!(t[0], Tuple::new(vec![f_int(1), f_int(3), f_str("E")]));
    assert_eq!(t[1], Tuple::new(vec![f_int(1), f_int(4), f_str("A")]));
    assert_eq!(t[2], Tuple::new(vec![f_int(2), f_int(4), f_str("G")]));
    assert_eq!(t[3], Tuple::new(vec![f_int(2), f_int(5), f_str("G")]));
}

#[test]
fn test_avg() {
    let group_by = vec![colidx_expr(1), colidx_expr(2)];
    let agg = vec![colidx_expr(0)];
    let ops = vec![AggOp::Avg];
    let t = run_aggregate(group_by, agg, ops);
    assert_eq!(t.len(), 4);
    assert_eq!(t[0], Tuple::new(vec![f_int(1), f_int(3), f_decimal(1.5)]));
    assert_eq!(t[1], Tuple::new(vec![f_int(1), f_int(4), f_decimal(3.0)]));
    assert_eq!(t[2], Tuple::new(vec![f_int(2), f_int(4), f_decimal(4.0)]));
    assert_eq!(t[3], Tuple::new(vec![f_int(2), f_int(5), f_decimal(5.5)]));
}

#[test]
fn test_multi_column_aggregation() {
    let group_by = vec![colidx_expr(3)];
    let agg = vec![colidx_expr(0), colidx_expr(1), colidx_expr(2)];
    let ops = vec![AggOp::Count, AggOp::Max, AggOp::Avg];
    let t = run_aggregate(group_by, agg, ops);
    assert_eq!(t.len(), 3);
    assert_eq!(
        t[0],
        Tuple::new(vec![f_str("A"), f_int(1), f_int(1), f_decimal(4.0)])
    );
    assert_eq!(
        t[1],
        Tuple::new(vec![f_str("E"), f_int(1), f_int(1), f_decimal(3.0)])
    );
    assert_eq!(
        t[2],
        Tuple::new(vec![f_str("G"), f_int(4), f_int(2), f_decimal(4.25)])
    );
}

#[test]
fn aggregate_test_open() {
    let mut iter = get_iter(vec![], vec![], vec![]);
    iter.open().unwrap();
}

#[test]
fn aggregate_test_close() {
    let mut iter = get_iter(vec![], vec![], vec![]);
    iter.open().unwrap();
    iter.close().unwrap();
}

#[test]
fn aggregate_test_rewind() {
    let mut iter = get_iter(vec![colidx_expr(2)], vec![colidx_expr(0)], vec![AggOp::Max]);
    iter.configure(true);
    let t_before = execute_iter(&mut iter, true).unwrap();
    iter.rewind().unwrap();
    let t_after = execute_iter(&mut iter, true).unwrap();
    assert_eq!(t_before, t_after);
    assert_eq!(t_before.len(), 3);
}

#[test]
fn groups_come_in_the_order_in_which_they_first_occur() {
    let tuples = vec![row(1, 7, 0, "b"), row(2, 5, 0, "a"), row(3, 7, 0, "c")];
    let rows = aggregate_of(
        tuples,
        vec![colidx_expr(1)],
        vec![colidx_expr(0)],
        vec![AggOp::Sum],
    );
    assert_eq!(
        rows,
        vec![
            Tuple::new(vec![f_int(7), f_int(4)]),
            Tuple::new(vec![f_int(5), f_int(2)]),
        ]
    );
}

#[test]
fn no_rows_give_no_groups() {
    let rows = aggregate_of(
        vec![],
        vec![],
        vec![colidx_expr(0)],
        vec![AggOp::Count],
    );
    assert_eq!(rows, vec![]);
}

#[test]
fn many_groups_are_kept_apart() {
    let tuples = (0..1000)
        .map(|n| Tuple::new(vec![f_str(&format!("key {}", n % 250)), f_int(n)]))
        .collect();
    let rows = aggregate_of(
        tuples,
        vec![colidx_expr(0)],
        vec![colidx_expr(1), colidx_expr(1)],
        vec![AggOp::Count, AggOp::Sum],
    );
    assert_eq!(rows.len(), 250);
    for (i, tuple) in rows.iter().enumerate() {
        let n = i as i64;
        assert_eq!(
            *tuple,
            Tuple::new(vec![
                f_str(&format!("key {}", n)),
                f_int(4),
                f_int(4 * n + 1500)
            ])
        );
    }
}

#[test]
fn keys_of_different_kinds_are_different_groups() {
    let tuples = vec![
        Tuple::new(vec![f_int(1)]),
        Tuple::new(vec![Field::Decimal(1, 0)]),
        Tuple::new(vec![f_str("1")]),
        Tuple::new(vec![Field::Null]),
        Tuple::new(vec![Field::Null]),
    ];
    let rows = aggregate_of(tuples, vec![colidx_expr(0)], vec![], vec![]);
    assert_eq!(
        rows,
        vec![
            Tuple::new(vec![f_int(1)]),
            Tuple::new(vec![Field::Decimal(1, 0)]),
            Tuple::new(vec![f_str("1")]),
            Tuple::new(vec![Field::Null]),
        ]
    );
}

#[test]
fn nulls_are_passed_over() {
    let values = || vec![Field::Null, f_int(4), Field::Null, f_int(-2), f_int(7)];
    assert_eq!(aggregate_column(AggOp::Count, values()), f_int(3));
    assert_eq!(aggregate_column(AggOp::Sum, values()), f_int(9));
    assert_eq!(aggregate_column(AggOp::Min, values()), f_int(-2));
    assert_eq!(aggregate_column(AggOp::Max, values()), f_int(7));
    assert_eq!(aggregate_column(AggOp::Avg, values()), Field::Decimal(30000, 4));
}

#[test]
fn only_nulls_give_null() {
    let values = || vec![Field::Null, Field::Null];
    assert_eq!(aggregate_column(AggOp::Count, values()), Field::Null);
    assert_eq!(aggregate_column(AggOp::Sum, values()), Field::Null);
    assert_eq!(aggregate_column(AggOp::Min, values()), Field::Null);
    assert_eq!(aggregate_column(AggOp::Max, values()), Field::Null);
    assert_eq!(aggregate_column(AggOp::Avg, values()), Field::Decimal(0, 4));
    assert_eq!(average_of(&Field::Int(0), 0), Field::Decimal(0, 4));
}

#[test]
fn decimals_are_aggregated_by_their_value() {
    let values = || vec![Field::Decimal(15, 1), f_int(2), Field::Decimal(125, 2)];
    assert_eq!(aggregate_column(AggOp::Sum, values()), Field::Decimal(475, 2));
    assert_eq!(aggregate_column(AggOp::Min, values()), Field::Decimal(125, 2));
    assert_eq!(aggregate_column(AggOp::Max, values()), f_int(2));
    assert_eq!(aggregate_column(AggOp::Avg, values()), Field::Decimal(15833, 4));
}

#[test]
fn of_equal_values_the_first_is_kept() {
    let values = || vec![Field::Decimal(20, 1), f_int(2)];
    assert_eq!(aggregate_column(AggOp::Min, values()), Field::Decimal(20, 1));
    assert_eq!(aggregate_column(AggOp::Max, values()), Field::Decimal(20, 1));
}

#[test]
fn texts_are_compared_character_by_character() {
    let values = || vec![f_str("ab"), f_str("abc"), f_str("b"), f_str("a")];
    assert_eq!(aggregate_column(AggOp::Min, values()), f_str("a"));
    assert_eq!(aggregate_column(AggOp::Max, values()), f_str("b"));
}

#[test]
fn averages_are_cut_off_behind_four_places() {
    assert_eq!(average_of(&f_int(10), 3), Field::Decimal(33333, 4));
    assert_eq!(average_of(&f_int(-10), 3), Field::Decimal(-33333, 4));
    assert_eq!(average_of(&f_str("x"), 3), Field::Decimal(0, 4));
    assert_eq!(average_of(&Field::Decimal(123456, 6), 1), Field::Decimal(1234, 4));
    assert_eq!(average_of(&Field::Decimal(5, 4000000), 1), Field::Decimal(0, 4));
}

#[test]
fn averages_that_are_too_large_are_the_largest_there_are() {
    assert_eq!(average_of(&f_int(i64::MAX), 1), Field::Decimal(i64::MAX, 4));
    assert_eq!(average_of(&f_int(i64::MIN), 1), Field::Decimal(i64::MIN, 4));
    assert_eq!(average_of(&f_int(7), 0), Field::Decimal(i64::MAX, 4));
    assert_eq!(average_of(&f_int(-7), 0), Field::Decimal(i64::MIN, 4));
}

#[test]
fn averages_are_rounded_as_in_double_precision() {
    // In double precision the product with 10000 is a little less than the exact one.
    assert_eq!(average_of(&f_int(57), 100), Field::Decimal(5699, 4));
    let mut state: u64 = 88172645463325252;
    let mut next = || {
        state ^= state << 13;
        state ^= state >> 7;
        state ^= state << 17;
        state
    };
    for round in 0..20000u32 {
        let sum = (next() as i64) >> (round % 63);
        let count = ((next() >> 1) as i64) >> (round / 63 % 63);
        let scale = round % 32;
        assert_eq!(
            average_of(&f_int(sum), count),
            float_average(&f_int(sum), count),
            "{} / {}",
            sum,
            count
        );
        let decimal = Field::Decimal(sum, scale);
        assert_eq!(average_of(&decimal, count), float_average(&decimal, count));
        let small = Field::Decimal(sum % 1000000, scale % 7);
        let few = count % 1000 + 1;
        assert_eq!(average_of(&small, few), float_average(&small, few));
        assert_eq!(average_of(&small, -few), float_average(&small, -few));
    }
}

#[test]
fn scales_beyond_those_of_a_signed_number_count_as_negative() {
    for k in 1..22u32 {
        for sum in [1i64, -3, 12345] {
            for count in [1i64, 7, 1000000007] {
                let decimal = Field::Decimal(sum, u32::MAX - k + 1);
                assert_eq!(average_of(&decimal, count), float_average(&decimal, count));
            }
        }
    }
    let far = Field::Decimal(1, 2147483648);
    assert_eq!(average_of(&far, 1), float_average(&far, 1));
}

#[test]
fn merge_fields_reports_a_missing_sum() {
    type Agg = Aggregate<TupleIterator>;
    let mut acc = AggState::Value(f_int(1));
    assert_eq!(
        Agg::merge_fields(AggOp::Sum, &f_str("x"), &mut acc),
        Err(CrustyError::FieldAddition)
    );
    assert!(matches!(acc, AggState::Value(Field::Int(1))));
    let mut acc = AggState::AvgState(f_int(i64::MAX), 1);
    assert_eq!(
        Agg::merge_fields(AggOp::Avg, &f_int(1), &mut acc),
        Err(CrustyError::FieldAddition)
    );
    assert!(matches!(acc, AggState::AvgState(Field::Int(i64::MAX), 1)));
    assert_eq!(Agg::merge_fields(AggOp::Avg, &f_int(-1), &mut acc), Ok(()));
    assert!(matches!(acc, AggState::AvgState(Field::Int(n), 2) if n == i64::MAX - 1));
    assert_eq!(Agg::merge_fields(AggOp::Sum, &Field::Null, &mut acc), Ok(()));
    assert!(matches!(acc, AggState::AvgState(Field::Int(n), 2) if n == i64::MAX - 1));
    let mut acc = AggState::Value(Field::Null);
    assert_eq!(Agg::merge_fields(AggOp::Count, &f_str("x"), &mut acc), Ok(()));
    assert!(matches!(acc, AggState::Value(Field::Int(1))));
}

#[test]
fn merged_tuples_add_to_those_of_the_child() {
    let mut iter = get_iter(vec![], vec![colidx_expr(0)], vec![AggOp::Sum]);
    iter.merge_tuple_into_group(&row(100, 0, 0, ""));
    assert_eq!(
        execute_iter(&mut iter, false).unwrap(),
        vec![Tuple::new(vec![f_int(121)])]
    );
}

#[test]
fn closing_drops_the_groups_and_keeps_the_result() {
    let mut iter = get_iter(vec![], vec![colidx_expr(0)], vec![AggOp::Sum]);
    iter.merge_tuple_into_group(&row(100, 0, 0, ""));
    iter.open().unwrap();
    iter.close().unwrap();
    let rows = execute_iter(&mut iter, false).unwrap();
    assert_eq!(rows, vec![Tuple::new(vec![f_int(21)])]);
    iter.rewind().unwrap();
    iter.close().unwrap();
    assert_eq!(execute_iter(&mut iter, false).unwrap(), rows);
}

#[test]
fn keys_and_values_can_be_computed() {
    let mut expr = ByteCodeExpr::new();
    expr.add_code(PUSH_FIELD);
    expr.add_code(0);
    expr.add_code(PUSH_FIELD);
    expr.add_code(1);
    expr.add_code(ADD);
    let rows = aggregate_of(
        test_tuples(),
        vec![expr],
        vec![colidx_expr(3)],
        vec![AggOp::Count],
    );
    let keys: Vec<Field> = rows.into_iter().map(|mut t| t.field_vals.remove(0)).collect();
    assert_eq!(
        keys,
        vec![f_int(2), f_int(3), f_int(4), f_int(6), f_int(7), f_int(8)]
    );
}

#[test]
fn the_schema_is_the_one_that_was_given() {
    let child = TupleIterator::new(vec![], TableSchema::new(vec![]));
    let iter = Aggregate::new(vec![], vec![], vec![], test_schema(), child);
    assert_eq!(*iter.get_schema(), test_schema());
}
