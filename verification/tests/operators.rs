use lambda_core::arith::{lcore_add, lcore_div, lcore_exponent, lcore_mul, lcore_sub};
use lambda_core::binding::{
    lcore_break, lcore_defn, lcore_import, lcore_quit, lcore_return, lcore_set, lcore_to_str,
};
use lambda_core::builtin::{apply_builtin, import_builtins};
use lambda_core::compare::{lcore_equals, lcore_less_than, lcore_not_equals};
use lambda_core::container::{lcore_dict, lcore_get, lcore_len, lcore_swap, resolve_index};
use lambda_core::control::{lcore_if, lcore_loop, lcore_sel};
use lambda_core::driver::start_program;
use lambda_core::effect::{Applied, FloatOp, Piece};
use lambda_core::environment::Environment;
use lambda_core::error::LCoreError;
use lambda_core::logic::{lcore_logical_and, lcore_logical_not, lcore_logical_or};
use lambda_core::machine::{
    lcore_interpret, lcore_interpret_array, lcore_interpret_expression, Action, Machine,
};
use lambda_core::output::{lcore_prin, lcore_print, lcore_print_value};
use lambda_core::semantics::Awaiting;
use lambda_core::value::{Builtin, Value};

fn env() -> Environment {
    let mut e = Environment::new();
    e.push();
    e
}

fn args(items: Vec<Value>) -> Value {
    Value::Array(items)
}

fn s(text: &str) -> Value {
    Value::String(text.to_string())
}

fn id(name: &str) -> Value {
    Value::Identifier(name.to_string())
}

fn q(v: Value) -> Value {
    Value::Quote(Box::new(v))
}

fn i(n: i64) -> Value {
    Value::Int(n)
}

fn f(x: f64) -> Value {
    Value::Float(x.to_bits())
}

fn arr(items: Vec<Value>) -> Value {
    Value::Array(items)
}

fn text_of(pieces: &[Piece]) -> String {
    let mut out = String::new();
    for piece in pieces {
        match piece {
            Piece::Text(t) => out.push_str(t),
            Piece::Float(bits) => out.push_str(&format!("{}", f64::from_bits(*bits))),
        }
    }
    out
}

fn argument_error(r: Result<Applied, LCoreError>) -> String {
    match r {
        Err(LCoreError::ArgumentError(m)) => m,
        other => panic!("no argument error: {:?}", other),
    }
}

fn value(r: Result<Applied, LCoreError>) -> Value {
    match r {
        Ok(Applied::Value(v)) => v,
        other => panic!("no value: {:?}", other),
    }
}

#[test]
fn add_takes_integers_strings_and_arrays() {
    let mut e = env();
    assert!(value(lcore_add(&mut args(vec![i(1), i(2)]), &mut e)) == i(3));
    assert!(value(lcore_add(&mut args(vec![s("Hello "), s("World")]), &mut e)) == s("Hello World"));
    assert!(
        value(lcore_add(&mut args(vec![arr(vec![i(1)]), arr(vec![i(2), i(3)])]), &mut e))
            == arr(vec![i(1), i(2), i(3)])
    );
    assert!(matches!(
        lcore_add(&mut args(vec![f(1.5), f(2.0)]), &mut e),
        Ok(Applied::Float { op: FloatOp::Plus, a, b }) if a == 1.5f64.to_bits() && b == 2.0f64.to_bits()
    ));
    assert_eq!(
        argument_error(lcore_add(&mut args(vec![i(1), s("x")]), &mut e)),
        "ArgumentError: Invalid operands (Int and String)"
    );
    assert_eq!(
        argument_error(lcore_add(&mut args(vec![i(1), f(1.0)]), &mut e)),
        "ArgumentError: Invalid operands (Int and Float)"
    );
    assert_eq!(
        argument_error(lcore_add(&mut args(vec![i(1)]), &mut e)),
        "ArgumentError: Not enough arguments on call to \"+\": 1/2"
    );
    assert!(matches!(
        lcore_add(&mut args(vec![i(i64::MAX), i(1)]), &mut e),
        Err(LCoreError::LambdaCoreError(m)) if m == "LambdaCoreError: Integer overflow"
    ));
    assert!(value(lcore_add(&mut args(vec![i(i64::MAX), i(-1)]), &mut e)) == i(i64::MAX - 1));
}

#[test]
fn sub_mul_div_on_integers() {
    let mut e = env();
    assert!(value(lcore_sub(&mut args(vec![i(2), i(4)]), &mut e)) == i(-2));
    assert!(matches!(
        lcore_sub(&mut args(vec![i(i64::MIN), i(1)]), &mut e),
        Err(LCoreError::LambdaCoreError(_))
    ));
    assert!(matches!(
        lcore_sub(&mut args(vec![f(2.0), f(1.0)]), &mut e),
        Ok(Applied::Float { op: FloatOp::Minus, .. })
    ));
    assert!(value(lcore_mul(&mut args(vec![i(-3), i(4)]), &mut e)) == i(-12));
    assert!(value(lcore_mul(&mut args(vec![i(i64::MIN), i(1)]), &mut e)) == i(i64::MIN));
    assert!(matches!(
        lcore_mul(&mut args(vec![i(i64::MIN), i(-1)]), &mut e),
        Err(LCoreError::LambdaCoreError(_))
    ));
    assert!(matches!(
        lcore_mul(&mut args(vec![i(1 << 32), i(1 << 31)]), &mut e),
        Err(LCoreError::LambdaCoreError(_))
    ));
    assert!(matches!(
        lcore_mul(&mut args(vec![f(2.0), f(1.0)]), &mut e),
        Ok(Applied::Float { op: FloatOp::Times, .. })
    ));
    assert!(value(lcore_div(&mut args(vec![i(7), i(2)]), &mut e)) == i(3));
    assert!(value(lcore_div(&mut args(vec![i(-7), i(2)]), &mut e)) == i(-3));
    assert!(value(lcore_div(&mut args(vec![i(7), i(-2)]), &mut e)) == i(-3));
    assert!(value(lcore_div(&mut args(vec![i(-7), i(-2)]), &mut e)) == i(3));
    assert!(value(lcore_div(&mut args(vec![i(i64::MIN), i(1)]), &mut e)) == i(i64::MIN));
    assert!(matches!(
        lcore_div(&mut args(vec![i(1), i(0)]), &mut e),
        Err(LCoreError::LambdaCoreError(m)) if m == "LambdaCoreError: Division by zero"
    ));
    assert!(matches!(
        lcore_div(&mut args(vec![i(i64::MIN), i(-1)]), &mut e),
        Err(LCoreError::LambdaCoreError(m)) if m == "LambdaCoreError: Integer overflow"
    ));
    assert!(matches!(
        lcore_div(&mut args(vec![f(1.0), f(0.0)]), &mut e),
        Ok(Applied::Float { op: FloatOp::Divide, .. })
    ));
    assert_eq!(
        argument_error(lcore_div(&mut args(vec![s("a"), i(0)]), &mut e)),
        "ArgumentError: Invalid operands (String and Int)"
    );
}

#[test]
fn mul_repeats_strings_and_arrays() {
    let mut e = env();
    assert!(value(lcore_mul(&mut args(vec![s("Hi"), i(3)]), &mut e)) == s("HiHiHi"));
    assert!(value(lcore_mul(&mut args(vec![s("Hi"), i(1)]), &mut e)) == s("Hi"));
    assert!(value(lcore_mul(&mut args(vec![s("Hi"), i(0)]), &mut e)) == s(""));
    assert!(value(lcore_mul(&mut args(vec![s("Hi"), i(2)]), &mut e)) == s("HiHi"));
    assert!(value(lcore_mul(&mut args(vec![s("Hi"), i(-5)]), &mut e)) == s("Hi"));
    assert!(
        value(lcore_mul(&mut args(vec![arr(vec![i(1), i(2)]), i(2)]), &mut e))
            == arr(vec![i(1), i(2), i(1), i(2)])
    );
    assert!(value(lcore_mul(&mut args(vec![arr(vec![]), i(4)]), &mut e)) == arr(vec![]));
    assert!(value(lcore_mul(&mut args(vec![arr(vec![i(11)]), i(0)]), &mut e)) == arr(vec![]));
    assert!(value(lcore_mul(&mut args(vec![arr(vec![i(11)]), i(1)]), &mut e)) == arr(vec![i(11)]));
    assert!(value(lcore_mul(&mut args(vec![arr(vec![i(11)]), i(-3)]), &mut e)) == arr(vec![i(11)]));
}

#[test]
fn exponent_on_integers() {
    let mut e = env();
    assert!(value(lcore_exponent(&mut args(vec![i(2), i(4)]), &mut e)) == i(16));
    assert!(value(lcore_exponent(&mut args(vec![i(2), i(0)]), &mut e)) == i(1));
    assert!(value(lcore_exponent(&mut args(vec![i(0), i(0)]), &mut e)) == i(1));
    assert!(value(lcore_exponent(&mut args(vec![i(0), i(5)]), &mut e)) == i(0));
    assert!(value(lcore_exponent(&mut args(vec![i(1), i(i64::MAX)]), &mut e)) == i(1));
    assert!(value(lcore_exponent(&mut args(vec![i(-1), i(i64::MAX)]), &mut e)) == i(-1));
    assert!(value(lcore_exponent(&mut args(vec![i(-1), i(i64::MAX - 1)]), &mut e)) == i(1));
    assert!(value(lcore_exponent(&mut args(vec![i(-2), i(3)]), &mut e)) == i(-8));
    assert!(value(lcore_exponent(&mut args(vec![i(2), i(62)]), &mut e)) == i(1 << 62));
    assert!(value(lcore_exponent(&mut args(vec![i(-2), i(63)]), &mut e)) == i(i64::MIN));
    assert!(value(lcore_exponent(&mut args(vec![i(3), i(39)]), &mut e)) == i(4052555153018976267));
    assert!(matches!(
        lcore_exponent(&mut args(vec![i(2), i(63)]), &mut e),
        Err(LCoreError::LambdaCoreError(m)) if m == "LambdaCoreError: Integer overflow"
    ));
    assert!(matches!(
        lcore_exponent(&mut args(vec![i(3), i(40)]), &mut e),
        Err(LCoreError::LambdaCoreError(_))
    ));
    assert!(matches!(
        lcore_exponent(&mut args(vec![i(10), i(i64::MAX)]), &mut e),
        Err(LCoreError::LambdaCoreError(_))
    ));
    assert_eq!(
        argument_error(lcore_exponent(&mut args(vec![i(2), i(-1)]), &mut e)),
        "ArgumentError: Negative exponent (-1)"
    );
    assert!(matches!(
        lcore_exponent(&mut args(vec![f(2.0), f(0.5)]), &mut e),
        Ok(Applied::Float { op: FloatOp::Power, .. })
    ));
}

#[test]
fn equals_and_not_equals() {
    let mut e = env();
    let pairs = vec![
        (i(1), i(1)),
        (i(1), i(2)),
        (s("a"), s("a")),
        (s("a"), s("b")),
        (f(3.14), f(3.14)),
        (f(0.0), f(-0.0)),
        (Value::Null, Value::Null),
        (Value::Boolean(true), Value::Boolean(false)),
        (q(id("a")), q(id("a"))),
        (q(id("a")), q(id("b"))),
        (arr(vec![i(1)]), arr(vec![i(1)])),
        (arr(vec![i(1)]), arr(vec![s("1")])),
        (Value::Func { f: Builtin::Get }, Value::Func { f: Builtin::Get }),
    ];
    let expected =
        [true, false, true, false, true, true, true, false, true, false, true, false, true];
    for ((a, b), want) in pairs.into_iter().zip(expected) {
        let same = lcore_equals(&mut args(vec![a.clone(), b.clone()]), &mut e).unwrap();
        let differ = lcore_not_equals(&mut args(vec![a, b]), &mut e).unwrap();
        assert!(same == Value::Boolean(want));
        assert!(differ == Value::Boolean(!want));
    }
    assert!(matches!(
        lcore_equals(&mut args(vec![i(1), f(1.0)]), &mut e),
        Err(LCoreError::ArgumentError(m)) if m == "ArgumentError: Type mismatch (Int and Float)"
    ));
    assert!(matches!(
        lcore_not_equals(&mut args(vec![q(i(1)), q(s("1"))]), &mut e),
        Err(LCoreError::ArgumentError(m)) if m == "ArgumentError: Type mismatch (Int and String)"
    ));
    assert!(matches!(
        lcore_equals(&mut args(vec![Value::OpenFunc, Value::OpenFunc]), &mut e),
        Err(LCoreError::ArgumentError(_))
    ));
    assert!(matches!(
        lcore_equals(&mut args(vec![i(1)]), &mut e),
        Err(LCoreError::ArgumentError(m)) if m == "ArgumentError: Not enough arguments on call to \"=\": 1/2"
    ));
}

#[test]
fn less_than() {
    let mut e = env();
    let t = Value::Boolean(true);
    let n = Value::Boolean(false);
    assert!(lcore_less_than(&mut args(vec![i(1), i(2)]), &mut e).unwrap() == t);
    assert!(lcore_less_than(&mut args(vec![i(2), i(2)]), &mut e).unwrap() == n);
    assert!(lcore_less_than(&mut args(vec![f(-1.5), f(-1.0)]), &mut e).unwrap() == t);
    assert!(lcore_less_than(&mut args(vec![f(f64::NAN), f(1.0)]), &mut e).unwrap() == n);
    assert!(lcore_less_than(&mut args(vec![s("z"), s("aa")]), &mut e).unwrap() == t);
    assert!(lcore_less_than(&mut args(vec![s("é"), s("zz")]), &mut e).unwrap() == n);
    assert!(lcore_less_than(&mut args(vec![id("a"), id("bb")]), &mut e).unwrap() == t);
    assert!(lcore_less_than(&mut args(vec![arr(vec![]), arr(vec![i(1)])]), &mut e).unwrap() == t);
    assert!(
        lcore_less_than(
            &mut args(vec![Value::Dict(vec![(i(1), i(1))]), Value::Dict(vec![])]),
            &mut e
        )
        .unwrap()
            == n
    );
    assert!(lcore_less_than(&mut args(vec![q(i(1)), q(i(2))]), &mut e).unwrap() == t);
    assert!(matches!(
        lcore_less_than(&mut args(vec![Value::Null, Value::Null]), &mut e),
        Err(LCoreError::ArgumentError(m)) if m == "ArgumentError: Invalid Argument Types (Null and Null)"
    ));
}

#[test]
fn logic_takes_truth_values_only() {
    let mut e = env();
    let t = Value::Boolean(true);
    let n = Value::Boolean(false);
    assert!(lcore_logical_or(&mut args(vec![n.clone(), t.clone()]), &mut e).unwrap() == t);
    assert!(lcore_logical_or(&mut args(vec![n.clone(), n.clone()]), &mut e).unwrap() == n);
    assert!(lcore_logical_and(&mut args(vec![t.clone(), t.clone()]), &mut e).unwrap() == t);
    assert!(lcore_logical_and(&mut args(vec![n.clone(), t.clone()]), &mut e).unwrap() == n);
    assert!(lcore_logical_not(&mut args(vec![n.clone()]), &mut e).unwrap() == t);
    assert!(matches!(
        lcore_logical_or(&mut args(vec![t.clone(), Value::Null]), &mut e),
        Err(LCoreError::ArgumentError(m)) if m == "ArgumentError: Not booleans (Boolean and Null)"
    ));
    assert!(matches!(
        lcore_logical_not(&mut args(vec![]), &mut e),
        Err(LCoreError::ArgumentError(m)) if m == "ArgumentError: Not enough arguments on call to \"not\": 0/1"
    ));
}

#[test]
fn get_wraps_indices() {
    let a = arr(vec![s("a"), s("b"), s("c")]);
    let mut e = env();
    for (index, want) in [(0, "a"), (1, "b"), (2, "c"), (3, "a"), (-1, "c"), (-2, "b"), (-3, "a")] {
        let r = lcore_get(&mut args(vec![a.clone(), i(index)]), &mut e).unwrap();
        assert!(r == s(want), "index {}", index);
        let len = 3i64;
        assert_eq!(resolve_index(index, 3).ok(), Some((((index % len) + len) % len) as usize));
    }
    for index in [4, -4, 100, i64::MAX, i64::MIN] {
        assert!(matches!(
            lcore_get(&mut args(vec![a.clone(), i(index)]), &mut e),
            Err(LCoreError::ArgumentError(_))
        ));
    }
    assert!(lcore_get(&mut args(vec![a.clone(), q(i(1))]), &mut e).unwrap() == s("b"));
    assert!(matches!(
        lcore_get(&mut args(vec![a.clone(), f(1.0)]), &mut e),
        Err(LCoreError::IndexError(m)) if m == "IndexError: Cannot index Array with Float"
    ));
    assert!(matches!(
        lcore_get(&mut args(vec![a]), &mut e),
        Err(LCoreError::ArgumentError(m)) if m == "ArgumentError: Not enough arguments on call to \"get\": 1/2"
    ));
}

#[test]
fn get_on_dictionaries_strings_and_others() {
    let mut e = env();
    let d = lcore_dict(
        &mut args(vec![q(id("name")), s("Alice"), i(7), s("seven"), f(1.5), s("float"), Value::Boolean(true), s("yes"), Value::Null, s("none")]),
        &mut e,
    )
    .unwrap();
    assert!(lcore_get(&mut args(vec![d.clone(), q(id("name"))]), &mut e).unwrap() == s("Alice"));
    assert!(lcore_get(&mut args(vec![d.clone(), id("name")]), &mut e).unwrap() == s("Alice"));
    assert!(lcore_get(&mut args(vec![d.clone(), s("name")]), &mut e).unwrap() == s("Alice"));
    assert!(lcore_get(&mut args(vec![d.clone(), i(7)]), &mut e).unwrap() == s("seven"));
    assert!(lcore_get(&mut args(vec![d.clone(), f(1.5)]), &mut e).unwrap() == s("float"));
    assert!(lcore_get(&mut args(vec![d.clone(), Value::Boolean(true)]), &mut e).unwrap() == s("yes"));
    assert!(lcore_get(&mut args(vec![d.clone(), Value::Null]), &mut e).unwrap() == s("none"));
    assert!(matches!(
        lcore_get(&mut args(vec![d.clone(), s("age")]), &mut e),
        Err(LCoreError::IndexError(m)) if m == "IndexError: No such key in Dict"
    ));
    assert!(matches!(
        lcore_get(&mut args(vec![d, arr(vec![])]), &mut e),
        Err(LCoreError::IndexError(m)) if m == "IndexError: Cannot index Dict with Array"
    ));
    assert!(lcore_get(&mut args(vec![s("text"), i(0)]), &mut e).unwrap() == Value::Null);
    assert!(matches!(
        lcore_get(&mut args(vec![s("text"), s("0")]), &mut e),
        Err(LCoreError::IndexError(m)) if m == "IndexError: Cannot index String with String"
    ));
    assert!(lcore_get(&mut args(vec![i(5), i(0)]), &mut e).unwrap() == Value::Null);
}

#[test]
fn dict_stores_keys_once() {
    let mut e = env();
    let d = lcore_dict(&mut args(vec![q(id("a")), i(1), s("b"), i(2), s("a"), i(3)]), &mut e).unwrap();
    assert!(d == Value::Dict(vec![(s("a"), i(3)), (s("b"), i(2))]));
    match &d {
        Value::Dict(entries) => {
            assert_eq!(entries.len(), 2);
            assert!(entries[0].0 == s("a") && entries[0].1 == i(3));
            assert!(entries[1].0 == s("b") && entries[1].1 == i(2));
        }
        _ => panic!("no dictionary"),
    }
    assert!(lcore_dict(&mut args(vec![]), &mut e).unwrap() == Value::Dict(vec![]));
    let quoted = lcore_dict(&mut args(vec![q(i(1)), i(1)]), &mut e).unwrap();
    assert!(quoted == Value::Dict(vec![(q(i(1)), i(1))]));
    assert!(matches!(
        lcore_dict(&mut args(vec![s("a")]), &mut e),
        Err(LCoreError::ArgumentError(m)) if m == "ArgumentError: Odd number of arguments passed to \"dict\""
    ));
    assert!(matches!(
        lcore_dict(&mut args(vec![s("a"), i(1), arr(vec![]), i(2)]), &mut e),
        Err(LCoreError::ArgumentError(m)) if m == "ArgumentError: Unhashable key (Array)"
    ));
    assert!(matches!(
        lcore_dict(&mut args(vec![q(arr(vec![])), i(2)]), &mut e),
        Err(LCoreError::ArgumentError(m)) if m == "ArgumentError: Unhashable key (')"
    ));
}

#[test]
fn len_of_containers() {
    let mut e = env();
    assert!(lcore_len(&mut args(vec![arr(vec![i(1), i(2), i(3)])]), &mut e).unwrap() == i(3));
    assert!(lcore_len(&mut args(vec![Value::Dict(vec![(i(1), i(2))])]), &mut e).unwrap() == i(1));
    assert!(lcore_len(&mut args(vec![s("hello")]), &mut e).unwrap() == i(5));
    assert!(lcore_len(&mut args(vec![s("")]), &mut e).unwrap() == i(0));
    assert!(lcore_len(&mut args(vec![q(arr(vec![i(1), i(2)]))]), &mut e).unwrap() == i(1));
    assert!(matches!(
        lcore_len(&mut args(vec![i(5)]), &mut e),
        Err(LCoreError::ArgumentError(m)) if m == "ArgumentError: Int has no length"
    ));
    assert!(matches!(
        lcore_len(&mut args(vec![]), &mut e),
        Err(LCoreError::ArgumentError(m)) if m == "ArgumentError: Not enough arguments on call to \"len\": 0/1"
    ));
}

#[test]
fn set_binds_by_the_insert_rule() {
    let mut e = env();
    assert!(lcore_set(&mut args(vec![q(id("x")), i(10)]), &mut e).unwrap() == Value::Null);
    assert!(matches!(e.get("x".to_string()), Some(Value::Int(10))));
    e.push();
    assert!(lcore_set(&mut args(vec![id("x"), i(11)]), &mut e).unwrap() == Value::Null);
    assert!(lcore_set(&mut args(vec![q(id("y")), i(1)]), &mut e).unwrap() == Value::Null);
    assert_eq!(e.len(), 2);
    e.pop();
    assert!(matches!(e.get("x".to_string()), Some(Value::Int(11))));
    assert!(e.get("y".to_string()).is_none());
    assert!(matches!(
        lcore_set(&mut args(vec![i(1), i(2)]), &mut e),
        Err(LCoreError::ArgumentError(m)) if m == "ArgumentError: set expects a name, not Int"
    ));
    assert!(matches!(
        lcore_set(&mut args(vec![q(i(1)), i(2)]), &mut e),
        Err(LCoreError::ArgumentError(m)) if m == "ArgumentError: set expects a name, not '"
    ));
    assert!(matches!(
        lcore_set(&mut args(vec![q(id("x"))]), &mut e),
        Err(LCoreError::ArgumentError(m)) if m == "ArgumentError: Not enough arguments on call to \"set\": 1/2"
    ));
}

#[test]
fn defn_stores_parameters_and_body() {
    let mut e = env();
    let params = arr(vec![q(id("a")), q(id("b"))]);
    let body = arr(vec![Value::OpenFunc, id("+"), id("a"), id("b"), Value::CloseFunc]);
    let r = lcore_defn(&mut args(vec![q(id("add")), params.clone(), q(body.clone())]), &mut e);
    assert!(r.unwrap() == Value::Null);
    match e.get("add".to_string()) {
        Some(Value::Array(parts)) => {
            assert_eq!(parts.len(), 2);
            assert!(parts[0] == params);
            match (&parts[1], &body) {
                (Value::Array(x), Value::Array(y)) => {
                    assert_eq!(x.len(), y.len());
                    assert!(matches!(x[0], Value::OpenFunc));
                    assert!(x[1] == id("+"));
                    assert!(matches!(x[4], Value::CloseFunc));
                }
                _ => panic!("no body"),
            }
        }
        _ => panic!("no function"),
    }
    assert!(matches!(
        lcore_defn(&mut args(vec![q(id("f")), arr(vec![id("a")]), q(arr(vec![]))]), &mut e),
        Err(LCoreError::ArgumentError(m)) if m == "ArgumentError: defn expects a list of quoted names"
    ));
    assert!(matches!(
        lcore_defn(&mut args(vec![q(id("f")), arr(vec![]), arr(vec![])]), &mut e),
        Err(LCoreError::ArgumentError(m)) if m == "ArgumentError: defn expects a quoted block"
    ));
    assert!(matches!(
        lcore_defn(&mut args(vec![s("f"), arr(vec![]), q(arr(vec![]))]), &mut e),
        Err(LCoreError::ArgumentError(m)) if m == "ArgumentError: defn expects a name, not String"
    ));
    assert!(matches!(
        lcore_defn(&mut args(vec![q(id("f"))]), &mut e),
        Err(LCoreError::ArgumentError(_))
    ));
}

#[test]
fn swap_walks_the_path() {
    let mut e = env();
    e.insert("a".to_string(), arr(vec![i(1), arr(vec![i(2), i(3)])]));
    let path = q(arr(vec![i(1), i(-1)]));
    assert!(lcore_swap(&mut args(vec![q(id("a")), path, s("x")]), &mut e).unwrap() == Value::Null);
    assert!(*e.get("a".to_string()).unwrap() == arr(vec![i(1), arr(vec![i(2), s("x")])]));
    assert!(matches!(
        lcore_swap(&mut args(vec![q(id("a")), q(arr(vec![i(5)])), i(0)]), &mut e),
        Err(LCoreError::ArgumentError(m)) if m == "Index out of bounds: got 5 but len is 2"
    ));
    assert!(matches!(
        lcore_swap(&mut args(vec![q(id("a")), q(arr(vec![s("k")])), i(0)]), &mut e),
        Err(LCoreError::IndexError(m)) if m == "IndexError: Cannot index array with non-int"
    ));
    assert!(matches!(
        lcore_swap(&mut args(vec![q(id("a")), q(arr(vec![i(0), i(0)])), i(0)]), &mut e),
        Err(LCoreError::IndexError(m)) if m == "IndexError: Cannot index Int with Int"
    ));
    assert!(matches!(
        lcore_swap(&mut args(vec![q(id("a")), q(arr(vec![])), i(0)]), &mut e),
        Err(LCoreError::ArgumentError(m)) if m == "ArgumentError: swap expects a quoted list of indexers"
    ));
    assert!(matches!(
        lcore_swap(&mut args(vec![i(1), q(arr(vec![i(0)])), i(0)]), &mut e),
        Err(LCoreError::ArgumentError(m)) if m == "ArgumentError: swap expects a name, not Int"
    ));
    assert!(*e.get("a".to_string()).unwrap() == arr(vec![i(1), arr(vec![i(2), s("x")])]));
    e.insert("d".to_string(), Value::Dict(vec![(s("k"), i(1))]));
    assert!(matches!(
        lcore_swap(&mut args(vec![q(id("d")), q(arr(vec![id("missing")])), i(0)]), &mut e),
        Err(LCoreError::IndexError(m)) if m == "IndexError: No such key in Dict"
    ));
    lcore_swap(&mut args(vec![q(id("d")), q(arr(vec![id("k")])), i(2)]), &mut e).unwrap();
    assert!(*e.get("d".to_string()).unwrap() == Value::Dict(vec![(s("k"), i(2))]));
}

#[test]
fn if_chooses_a_block() {
    let mut e = env();
    let yes = q(arr(vec![i(1)]));
    let no = q(arr(vec![i(2)]));
    let t = Value::Boolean(true);
    let n = Value::Boolean(false);
    assert!(matches!(
        lcore_if(&mut args(vec![t.clone(), yes.clone(), no.clone()]), &mut e),
        Ok(Applied::Block(b)) if b.len() == 1 && b[0] == i(1)
    ));
    assert!(matches!(
        lcore_if(&mut args(vec![n.clone(), yes.clone(), no.clone()]), &mut e),
        Ok(Applied::Block(b)) if b.len() == 1 && b[0] == i(2)
    ));
    assert!(value(lcore_if(&mut args(vec![n.clone(), yes.clone()]), &mut e)) == Value::Null);
    assert!(value(lcore_if(&mut args(vec![n.clone(), yes.clone(), Value::Null]), &mut e)) == Value::Null);
    assert_eq!(
        argument_error(lcore_if(&mut args(vec![i(1), yes.clone()]), &mut e)),
        "ArgumentError: Not a boolean (Int)"
    );
    assert_eq!(
        argument_error(lcore_if(&mut args(vec![t.clone(), i(1)]), &mut e)),
        "ArgumentError: Not a quoted block (Int)"
    );
    assert_eq!(
        argument_error(lcore_if(&mut args(vec![t]), &mut e)),
        "ArgumentError: Not enough arguments on call to \"if\": 1/2"
    );
}

#[test]
fn sel_chooses_the_first_case() {
    let mut e = env();
    let block = |n: i64| q(arr(vec![i(n)]));
    let chosen = |r: Result<Applied, LCoreError>| match r {
        Ok(Applied::Block(b)) => b[0].clone(),
        other => panic!("no block: {:?}", other),
    };
    let cases = vec![i(3), i(1), block(10), i(3), block(30), q(id("default")), block(0), i(3), block(31)];
    assert!(chosen(lcore_sel(&mut args(cases), &mut e)) == i(30));
    let fallback = vec![i(4), i(1), block(10), q(id("default")), block(0), i(4), block(40)];
    assert!(chosen(lcore_sel(&mut args(fallback), &mut e)) == i(0));
    let mixed = vec![s("4"), i(4), block(10), s("4"), block(44)];
    assert!(chosen(lcore_sel(&mut args(mixed), &mut e)) == i(44));
    assert!(value(lcore_sel(&mut args(vec![i(1), i(2), block(2), i(3)]), &mut e)) == Value::Null);
    assert!(value(lcore_sel(&mut args(vec![i(1)]), &mut e)) == Value::Null);
    assert_eq!(
        argument_error(lcore_sel(&mut args(vec![i(1), i(1), i(5)]), &mut e)),
        "ArgumentError: Not a quoted block (Int)"
    );
    assert_eq!(
        argument_error(lcore_sel(&mut args(vec![]), &mut e)),
        "ArgumentError: Not enough arguments on call to \"sel\": 0/1"
    );
}

#[test]
fn loop_names_its_runs() {
    let mut e = env();
    let body = q(arr(vec![id("i")]));
    assert!(matches!(
        lcore_loop(&mut args(vec![q(id("i")), i(3), body.clone()]), &mut e),
        Ok(Applied::Loop { var, count: 3, body }) if var == "i" && body.len() == 1
    ));
    assert_eq!(
        argument_error(lcore_loop(&mut args(vec![i(1), i(3), body.clone()]), &mut e)),
        "ArgumentError: loop expects a name, not Int"
    );
    assert_eq!(
        argument_error(lcore_loop(&mut args(vec![q(id("i")), s("3"), body.clone()]), &mut e)),
        "ArgumentError: Not a count (String)"
    );
    assert_eq!(
        argument_error(lcore_loop(&mut args(vec![q(id("i")), i(3), i(4)]), &mut e)),
        "ArgumentError: Not a quoted block (Int)"
    );
    assert_eq!(
        argument_error(lcore_loop(&mut args(vec![q(id("i")), i(3)]), &mut e)),
        "ArgumentError: Not enough arguments on call to \"loop\": 2/3"
    );
}

#[test]
fn signals_and_host_operators() {
    let mut e = env();
    let mark = e.current_ret_index();
    assert!(matches!(lcore_return(&mut args(vec![i(5)]), &mut e), Err(LCoreError::ReturnError)));
    assert_eq!(e.current_ret_index(), mark + 1);
    assert!(e.pop_ret_index(mark + 1) == i(5));
    assert!(matches!(
        lcore_return(&mut args(vec![]), &mut e),
        Err(LCoreError::ArgumentError(m)) if m == "ArgumentError: Not enough arguments on call to \"ret\": 0/1"
    ));
    assert_eq!(e.current_ret_index(), mark);
    assert!(matches!(lcore_break(&mut args(vec![]), &mut e), Err(LCoreError::BreakError)));
    assert!(lcore_to_str(&mut args(vec![i(1)]), &mut e).unwrap() == s("LambdaCore String!"));
    assert!(matches!(lcore_quit(&mut args(vec![]), &mut e), Ok(Applied::Quit)));
    assert!(matches!(
        lcore_import(&mut args(vec![s("lib.lcore")]), &mut e),
        Ok(Applied::Import(p)) if p == "lib.lcore"
    ));
    assert!(value(lcore_import(&mut args(vec![i(1)]), &mut e)) == Value::Null);
    assert_eq!(
        argument_error(lcore_import(&mut args(vec![]), &mut e)),
        "ArgumentError: Not enough arguments on call to \"import\": 0/1"
    );
}

#[test]
fn printing_writes_pieces() {
    let mut e = env();
    let mut one = args(vec![arr(vec![s("q"), f(0.5), i(-3), Value::Null, Value::Boolean(false)])]);
    assert_eq!(text_of(&lcore_print_value(&mut one).unwrap()), "[\"q\" 0.5 -3 Null False]");
    assert_eq!(text_of(&lcore_print_value(&mut args(vec![s("plain")])).unwrap()), "plain");
    assert_eq!(text_of(&lcore_print_value(&mut args(vec![q(s("in"))])).unwrap()), "(quote \"in\")");
    assert_eq!(text_of(&lcore_print_value(&mut args(vec![Value::Dict(vec![])])).unwrap()), "{  }");
    assert_eq!(text_of(&lcore_print_value(&mut args(vec![Value::Comma])).unwrap()), "");
    let func = text_of(&lcore_print_value(&mut args(vec![Value::Func { f: Builtin::Get }])).unwrap());
    assert!(func.starts_with("<Func at 0x") && func.ends_with(">"));
    assert!(matches!(
        lcore_prin(&mut args(vec![i(1)]), &mut e),
        Ok(Applied::Print(p)) if text_of(&p) == "1"
    ));
    assert!(matches!(
        lcore_print(&mut args(vec![i(1)]), &mut e),
        Ok(Applied::Print(p)) if text_of(&p) == "1\n"
    ));
    assert_eq!(
        argument_error(lcore_print(&mut args(vec![i(1), i(2)]), &mut e)),
        "Can only print 1 value at a time right now."
    );
}

#[test]
fn operators_are_applied_by_their_identity() {
    let mut e = env();
    import_builtins(&mut e);
    assert_eq!(e.len(), 1);
    let table = [
        (Builtin::Plus, 5),
        (Builtin::Minus, 1),
        (Builtin::Times, 6),
        (Builtin::Divide, 1),
        (Builtin::Power, 9),
    ];
    for (op, want) in table {
        assert!(value(apply_builtin(op, &mut args(vec![i(3), i(2)]), &mut e)) == i(want));
    }
    assert!(value(apply_builtin(Builtin::Len, &mut args(vec![s("abc")]), &mut e)) == i(3));
    assert!(value(apply_builtin(Builtin::Equals, &mut args(vec![i(1), i(1)]), &mut e)) == Value::Boolean(true));
    assert!(value(apply_builtin(Builtin::LessThan, &mut args(vec![i(1), i(1)]), &mut e)) == Value::Boolean(false));
    assert!(value(apply_builtin(Builtin::Assign, &mut args(vec![q(id("v")), i(1)]), &mut e)) == Value::Null);
    assert!(matches!(e.get("v".to_string()), Some(Value::Int(1))));
    assert!(matches!(apply_builtin(Builtin::Break, &mut args(vec![]), &mut e), Err(LCoreError::BreakError)));
    assert!(matches!(apply_builtin(Builtin::Quit, &mut args(vec![]), &mut e), Ok(Applied::Quit)));
}

fn machine(tokens: Vec<Value>) -> Machine {
    start_program(tokens)
}

#[test]
fn steps_of_the_machine() {
    let mut m = machine(vec![Value::OpenFunc, id("+"), i(1), i(2), Value::CloseFunc]);
    for _ in 0..5 {
        assert!(matches!(m.step(), Action::Idle));
        assert!(!m.is_done());
    }
    assert!(matches!(m.step(), Action::Done(Ok(Value::Int(3)))));
    assert!(m.is_done());
    assert!(matches!(m.step(), Action::Done(Ok(Value::Null))));
    assert_eq!(m.into_env().len(), 1);
}

#[test]
fn the_budget_bounds_a_run() {
    let mut m = machine(vec![i(1), i(2), i(3)]);
    assert!(matches!(lcore_interpret(&mut m, 0), Action::Idle));
    assert!(matches!(lcore_interpret(&mut m, 2), Action::Idle));
    assert!(matches!(lcore_interpret(&mut m, 1), Action::Idle));
    assert!(matches!(lcore_interpret(&mut m, 5), Action::Done(Ok(Value::Int(3)))));
}

#[test]
fn the_machine_waits_for_the_host() {
    let mut m = machine(vec![Value::OpenFunc, id("+"), f(1.0), f(2.0), Value::CloseFunc]);
    assert_eq!(m.awaiting(), Awaiting::Nothing);
    match lcore_interpret(&mut m, 100) {
        Action::Float { op, a, b } => {
            assert_eq!(op, FloatOp::Plus);
            assert_eq!(f64::from_bits(a), 1.0);
            assert_eq!(f64::from_bits(b), 2.0);
        }
        other => panic!("no request: {:?}", other),
    }
    assert_eq!(m.awaiting(), Awaiting::Float);
    m.answer_float(3.0f64.to_bits());
    assert_eq!(m.awaiting(), Awaiting::Nothing);
    assert!(matches!(
        lcore_interpret(&mut m, 100),
        Action::Done(Ok(Value::Float(b))) if f64::from_bits(b) == 3.0
    ));
}

#[test]
fn tokens_and_blocks_taken_in_by_hand() {
    let mut m = machine(vec![]);
    assert!(matches!(lcore_interpret_expression(&mut m, i(5)), Action::Idle));
    assert!(matches!(lcore_interpret_expression(&mut m, id("nothing")), Action::Done(Err(LCoreError::NameError(_)))));
    assert!(m.is_done());
    let mut m = machine(vec![]);
    assert!(matches!(
        lcore_interpret_expression(&mut m, Value::CloseFunc),
        Action::Done(Err(LCoreError::LambdaCoreError(msg))) if msg == "LambdaCoreError: Unbalanced parentheses"
    ));
    let mut m = machine(vec![]);
    lcore_interpret_array(&mut m, &arr(vec![i(1), i(2)]));
    assert!(matches!(lcore_interpret(&mut m, 100), Action::Done(Ok(Value::Int(2)))));
}

#[test]
fn an_error_closes_the_scopes_that_were_opened() {
    let body = arr(vec![
        Value::OpenFunc,
        id("loop"),
        q(id("i")),
        i(3),
        q(arr(vec![Value::OpenFunc, id("+"), id("i"), s("x"), Value::CloseFunc])),
        Value::CloseFunc,
    ]);
    let mut m = machine(vec![
        Value::OpenFunc,
        id("defn"),
        q(id("f")),
        arr(vec![]),
        q(body),
        Value::CloseFunc,
        Value::OpenFunc,
        id("f"),
        Value::CloseFunc,
    ]);
    assert!(matches!(lcore_interpret(&mut m, 1000), Action::Done(Err(LCoreError::ArgumentError(_)))));
    assert!(m.is_done());
    assert_eq!(m.into_env().len(), 1);
}

#[test]
fn a_waiting_machine_does_not_move() {
    let mut m = machine(vec![Value::OpenFunc, id("*"), f(1.5), f(2.0), Value::CloseFunc]);
    m.answer_float(9.0f64.to_bits());
    assert!(matches!(lcore_interpret(&mut m, 100), Action::Float { op: FloatOp::Times, .. }));
    assert!(matches!(m.step(), Action::Idle));
    assert!(matches!(lcore_interpret(&mut m, usize::MAX), Action::Idle));
    assert_eq!(m.awaiting(), Awaiting::Float);
    m.answer_import(lambda_core::environment::SymTab::new());
    assert_eq!(m.awaiting(), Awaiting::Float);
    m.answer_float(3.0f64.to_bits());
    m.answer_float(4.0f64.to_bits());
    assert!(matches!(
        lcore_interpret(&mut m, 100),
        Action::Done(Ok(Value::Float(b))) if f64::from_bits(b) == 3.0
    ));
}
