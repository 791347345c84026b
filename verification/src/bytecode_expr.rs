//! Expressions over the fields of a tuple, written as code for a stack machine.

use vstd::prelude::*;

use crate::field::{Field, FieldView};
use crate::tuple::{field_views, Row, Tuple};

verus! {

/// The instructions, numbered from 0 in the order in which they stand here.
#[derive(Clone, Copy, Debug, PartialEq, Eq, Structural)]
pub enum ByteCodes {
    /// Pushes the field whose index is the next code.
    PushField,
    /// Replaces the two topmost values by their sum.
    Add,
}

/// The number of `ByteCodes::PushField`.
pub const PUSH_FIELD: usize = 0;

/// The number of `ByteCodes::Add`.
pub const ADD: usize = 1;

/// An expression: what it leaves on top of the stack is its value.
#[derive(Debug)]
pub struct ByteCodeExpr {
    pub codes: Vec<usize>,
}

/// The stack after the codes from position `at` on have been run; `None` if one of them cannot be
/// run (an unknown instruction, a missing operand, a missing field or a missing sum).
pub open spec fn run_codes(codes: Seq<usize>, at: int, row: Row, stack: Seq<FieldView>) -> Option<
    Seq<FieldView>,
>
    decreases codes.len() - at,
{
    if at >= codes.len() {
        Some(stack)
    } else if codes[at] == PUSH_FIELD {
        if at + 1 < codes.len() && codes[at + 1] < row.len() {
            run_codes(codes, at + 2, row, stack.push(row[codes[at + 1] as int]))
        } else {
            None
        }
    } else if codes[at] == ADD {
        if stack.len() >= 2 {
            match stack[stack.len() - 2].plus(stack[stack.len() - 1]) {
                Some(sum) => run_codes(codes, at + 1, row, stack.take(stack.len() - 2).push(sum)),
                None => None,
            }
        } else {
            None
        }
    } else {
        None
    }
}

impl ByteCodeExpr {
    /// The value of the expression on a row; `None` if it has none.
    pub open spec fn value(&self, row: Row) -> Option<FieldView> {
        match run_codes(self.codes@, 0, row, Seq::empty()) {
            Some(stack) => if stack.len() > 0 {
                Some(stack.last())
            } else {
                None
            },
            None => None,
        }
    }

    /// The expression without any code, which has no value.
    pub fn new() -> (res: Self)
        ensures
            res.codes@ == Seq::<usize>::empty(),
    {
        ByteCodeExpr { codes: Vec::new() }
    }

    /// Appends an instruction or an operand.
    pub fn add_code(&mut self, code: usize)
        ensures
            final(self).codes@ == old(self).codes@.push(code),
    {
        self.codes.push(code);
    }

    /// Evaluates the expression on a tuple.
    pub fn eval(&self, tuple: &Tuple) -> (res: Field)
        requires
            self.value(tuple@) is Some,
        ensures
            self.value(tuple@) == Some(res@),
    {
        let mut stack: Vec<Field> = Vec::new();
        let mut at: usize = 0;
        let ghost row = tuple@;
        let ghost whole = run_codes(self.codes@, 0, row, Seq::empty());
        assert(field_views(stack@) == Seq::<FieldView>::empty());
        while at < self.codes.len()
            invariant
                at <= self.codes@.len(),
                row == tuple@,
                whole is Some,
                whole == run_codes(self.codes@, at as int, row, field_views(stack@)),
            decreases self.codes.len() - at,
        {
            let ghost before = field_views(stack@);
            let code: usize = self.codes[at];
            if code == PUSH_FIELD {
                let index: usize = self.codes[at + 1];
                stack.push(tuple.field_vals[index].clone());
                at = at + 2;
                assert(field_views(stack@) == before.push(row[index as int]));
            } else {
                assert(code == ADD);
                let right = stack.pop().unwrap();
                let left = stack.pop().unwrap();
                assert(left@ == before[before.len() - 2] && right@ == before[before.len() - 1]);
                assert(field_views(stack@) == before.take(before.len() - 2));
                match left.plus(&right) {
                    Ok(sum) => {
                        stack.push(sum);
                        assert(field_views(stack@) == before.take(
                            before.len() - 2,
                        ).push(sum@));
                    },
                    Err(_) => {
                        assert(false);
                    },
                }
                at = at + 1;
            }
        }
        assert(field_views(stack@).last() == stack@.last()@);
        stack.pop().unwrap()
    }
}

/// The expression whose value is the field with the given index.
pub fn colidx_expr(index: usize) -> (res: ByteCodeExpr)
    ensures
        res.codes@ == seq![PUSH_FIELD, index],
        forall|row: Row|
            #![trigger res.value(row)]
            res.value(row) == if index < row.len() {
                Some(row[index as int])
            } else {
                None
            },
{
    let mut res = ByteCodeExpr::new();
    res.add_code(PUSH_FIELD);
    res.add_code(index);
    proof {
        assert(res.codes@ == seq![PUSH_FIELD, index]);
        reveal_with_fuel(run_codes, 2);
    }
    res
}

} // verus!
