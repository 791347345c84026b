use crustydb::bytecode_expr::{colidx_expr, ByteCodeExpr, ByteCodes, ADD, PUSH_FIELD};
use crustydb::error::CrustyError;
use crustydb::field::{compare_fields, BooleanOp, Field, FieldOrder};
use crustydb::tuple::Tuple;

fn text(s: &str) -> Field {
    Field::String(s.to_string())
}

#[test]
fn numbers_are_ordered_by_value() {
    assert_eq!(Field::Int(1).order(&Field::Int(2)), Some(FieldOrder::Less));
    assert_eq!(Field::Int(2).order(&Field::Int(2)), Some(FieldOrder::Equal));
    assert_eq!(
        Field::Decimal(25, 1).order(&Field::Int(2)),
        Some(FieldOrder::Greater)
    );
    assert_eq!(
        Field::Decimal(20, 1).order(&Field::Int(2)),
        Some(FieldOrder::Equal)
    );
    assert_eq!(
        Field::Int(i64::MIN).order(&Field::Decimal(i64::MIN, 30)),
        Some(FieldOrder::Less)
    );
    assert_eq!(
        Field::Int(i64::MAX).order(&Field::Decimal(i64::MAX, 30)),
        Some(FieldOrder::Greater)
    );
    assert_eq!(
        Field::Decimal(1, u32::MAX).order(&Field::Int(0)),
        Some(FieldOrder::Greater)
    );
}

#[test]
fn texts_are_ordered_lexicographically() {
    assert_eq!(text("a").order(&text("b")), Some(FieldOrder::Less));
    assert_eq!(text("ab").order(&text("a")), Some(FieldOrder::Greater));
    assert_eq!(text("").order(&text("")), Some(FieldOrder::Equal));
    assert_eq!(text("é").order(&text("z")), Some(FieldOrder::Greater));
}

#[test]
fn other_values_have_no_order() {
    assert_eq!(Field::Null.order(&Field::Null), None);
    assert_eq!(Field::Int(1).order(&text("1")), None);
    assert_eq!(Field::Null.order(&Field::Int(1)), None);
}

#[test]
fn sums_keep_the_larger_scale() {
    assert_eq!(Field::Int(1).plus(&Field::Int(2)), Ok(Field::Int(3)));
    assert_eq!(
        Field::Int(1).plus(&Field::Decimal(25, 1)),
        Ok(Field::Decimal(35, 1))
    );
    assert_eq!(
        Field::Decimal(25, 1).plus(&Field::Decimal(125, 2)),
        Ok(Field::Decimal(375, 2))
    );
}

#[test]
fn missing_sums_are_errors() {
    assert_eq!(
        Field::Int(i64::MAX).plus(&Field::Int(1)),
        Err(CrustyError::FieldAddition)
    );
    assert_eq!(
        Field::Int(1).plus(&Field::Decimal(0, 40)),
        Err(CrustyError::FieldAddition)
    );
    assert_eq!(
        Field::Int(1).plus(&text("1")),
        Err(CrustyError::FieldAddition)
    );
    assert_eq!(
        Field::Null.plus(&Field::Int(1)),
        Err(CrustyError::FieldAddition)
    );
}

#[test]
fn comparisons_follow_equality_and_order() {
    let one = Field::Int(1);
    let same = Field::Decimal(10, 1);
    assert!(!compare_fields(BooleanOp::Eq, &one, &same));
    assert!(compare_fields(BooleanOp::Neq, &one, &same));
    assert!(compare_fields(BooleanOp::Gte, &one, &same));
    assert!(compare_fields(BooleanOp::Lte, &one, &same));
    assert!(!compare_fields(BooleanOp::Lt, &one, &same));
    assert!(!compare_fields(BooleanOp::Gt, &one, &same));
    assert!(compare_fields(BooleanOp::Eq, &Field::Null, &Field::Null));
    assert!(!compare_fields(BooleanOp::Lte, &Field::Null, &Field::Null));
}

#[test]
fn expressions_are_evaluated_on_a_stack() {
    let tuple = Tuple::new(vec![Field::Int(2), Field::Int(3), Field::Int(5)]);
    assert_eq!(colidx_expr(2).eval(&tuple), Field::Int(5));
    let mut expr = ByteCodeExpr::new();
    for code in [PUSH_FIELD, 0, PUSH_FIELD, 1, ADD, PUSH_FIELD, 2, ADD] {
        expr.add_code(code);
    }
    assert_eq!(expr.eval(&tuple), Field::Int(10));
    assert_eq!(ByteCodes::PushField as usize, PUSH_FIELD);
    assert_eq!(ByteCodes::Add as usize, ADD);
}

#[test]
fn merging_puts_the_fields_of_the_other_tuple_behind() {
    let left = Tuple::new(vec![Field::Int(1), text("x")]);
    let right = Tuple::new(vec![Field::Null]);
    assert_eq!(
        left.merge(&right),
        Tuple::new(vec![Field::Int(1), text("x"), Field::Null])
    );
    assert_eq!(left.clone(), left);
}
