use vstd::prelude::*;

use crate::value::Value;
use crate::vm::Host;
use std::cmp::Ordering;

verus! {

/// How `a` orders against `b`: values of different kinds do not order, nor do booleans, nil
/// and stack structs; objects order by handle; numbers as the host compares them: equal when
/// it counts them equal, else greater when it finds `a` greater, else less.
pub fn partial_cmp<H: Host>(a: &Value, b: &Value, host: &H) -> (r: Option<Ordering>)
    ensures
        a.spec_value_type() != b.spec_value_type() ==> r is None,
        match (*a, *b) {
            (Value::Object(x), Value::Object(y)) => r == Some(
                if x == y {
                    Ordering::Equal
                } else if x > y {
                    Ordering::Greater
                } else {
                    Ordering::Less
                },
            ),
            (Value::Number(x), Value::Number(y)) => r == Some(
                if host.spec_numbers_equal(x, y) {
                    Ordering::Equal
                } else if host.spec_greater(x, y) {
                    Ordering::Greater
                } else {
                    Ordering::Less
                },
            ),
            _ => r is None,
        },
{
    match (a, b) {
        (Value::Object(x), Value::Object(y)) => {
            if *x == *y {
                Some(Ordering::Equal)
            } else if *x > *y {
                Some(Ordering::Greater)
            } else {
                Some(Ordering::Less)
            }
        },
        (Value::Number(x), Value::Number(y)) => {
            if host.numbers_equal(*x, *y) {
                Some(Ordering::Equal)
            } else if host.greater(*x, *y) {
                Some(Ordering::Greater)
            } else {
                Some(Ordering::Less)
            }
        },
        _ => None,
    }
}

} // verus!
