use lambda_core::compare::{dict_find, value_eq, values_equal};
use lambda_core::environment::{Environment, SymTab};
use lambda_core::error::LCoreError;
use lambda_core::float::{float_equals, float_is_nan, float_less, float_rank};
use lambda_core::keys::is_well_keyed;
use lambda_core::text::{debug_name, int_to_string};
use lambda_core::value::{Builtin, Value};

fn s(text: &str) -> Value {
    Value::String(text.to_string())
}

fn f(x: f64) -> Value {
    Value::Float(x.to_bits())
}

fn doubles() -> Vec<f64> {
    vec![
        0.0,
        -0.0,
        1.0,
        -1.0,
        3.14,
        -3.14,
        f64::MIN_POSITIVE,
        -f64::MIN_POSITIVE,
        5e-324,
        -5e-324,
        f64::MAX,
        f64::MIN,
        f64::INFINITY,
        f64::NEG_INFINITY,
        f64::NAN,
        -f64::NAN,
        1e300,
        1.0000000000000002,
    ]
}

#[test]
fn double_comparisons_agree_with_the_machine() {
    for a in doubles() {
        assert_eq!(float_is_nan(a.to_bits()), a.is_nan());
        for b in doubles() {
            assert_eq!(float_equals(a.to_bits(), b.to_bits()), a == b, "{} == {}", a, b);
            assert_eq!(float_less(a.to_bits(), b.to_bits()), a < b, "{} < {}", a, b);
        }
    }
}

#[test]
fn rank_of_doubles() {
    assert_eq!(float_rank(0.0f64.to_bits()), 0);
    assert_eq!(float_rank((-0.0f64).to_bits()), 0);
    assert_eq!(float_rank(1.0f64.to_bits()), 0x3ff0_0000_0000_0000);
    assert_eq!(float_rank((-1.0f64).to_bits()), -0x3ff0_0000_0000_0000);
}

#[test]
fn accessors_give_what_a_value_holds() {
    assert_eq!(Value::Identifier("x".to_string()).as_identifier(), "x");
    assert_eq!(*Value::Boolean(true).as_bool(), true);
    assert_eq!(*Value::Int(-5).as_int(), -5);
    assert_eq!(f64::from_bits(*f(2.5).as_float()), 2.5);
    assert_eq!(s("hi").as_string(), "hi");
    assert_eq!(Value::Array(vec![Value::Int(1), Value::Null]).as_array().len(), 2);
    assert_eq!(*Value::Func { f: Builtin::Get }.as_func(), Builtin::Get);
    assert!(value_eq(Value::Quote(Box::new(Value::Int(7))).as_value(), &Value::Int(7)));
    let mut d = Value::Dict(vec![(s("k"), Value::Int(1))]);
    d.as_dict().push((s("l"), Value::Int(2)));
    assert_eq!(d.as_dict().len(), 2);
    assert_eq!(dict_find(d.as_dict(), &s("l")), 1);
    assert_eq!(dict_find(d.as_dict(), &s("m")), 2);
}

#[test]
fn clone_is_equal_to_its_source() {
    let v = Value::Array(vec![
        Value::Int(1),
        s("two"),
        Value::Dict(vec![(s("k"), Value::Quote(Box::new(Value::Identifier("x".to_string()))))]),
        f(1.5),
        Value::Func { f: Builtin::Print },
        Value::Boolean(false),
        Value::Null,
    ]);
    assert!(v == v.clone());
    assert!(value_eq(&v, &v.clone()));
}

#[test]
fn structural_equality() {
    assert!(Value::Int(1) == Value::Int(1));
    assert!(Value::Int(1) != Value::Int(2));
    assert!(Value::Int(1) != f(1.0));
    assert!(f(0.0) == f(-0.0));
    assert!(f(f64::NAN) != f(f64::NAN));
    assert!(Value::Null == Value::Null);
    assert!(Value::OpenFunc != Value::OpenFunc);
    assert!(Value::Func { f: Builtin::Get } == Value::Func { f: Builtin::Get });
    assert!(Value::Func { f: Builtin::Get } != Value::Func { f: Builtin::Len });
    assert!(Value::Array(vec![Value::Int(1)]) != Value::Array(vec![Value::Int(1), Value::Int(2)]));
    assert!(Value::Array(vec![Value::Int(1), s("a")]) == Value::Array(vec![Value::Int(1), s("a")]));
}

#[test]
fn dictionaries_are_equal_in_any_order() {
    let a = Value::Dict(vec![(s("a"), Value::Int(1)), (s("b"), Value::Int(2)), (Value::Int(3), s("c"))]);
    let b = Value::Dict(vec![(Value::Int(3), s("c")), (s("b"), Value::Int(2)), (s("a"), Value::Int(1))]);
    let c = Value::Dict(vec![(Value::Int(3), s("c")), (s("b"), Value::Int(2)), (s("a"), Value::Int(9))]);
    let d = Value::Dict(vec![(s("a"), Value::Int(1)), (s("b"), Value::Int(2))]);
    assert!(a == b);
    assert!(b == a);
    assert!(a != c);
    assert!(a != d);
    assert!(matches!(values_equal(&a, &b), Ok(true)));
}

#[test]
fn equals_is_true_of_hashable_values_and_themselves() {
    let values = vec![
        s("x"),
        Value::Int(4),
        f(2.5),
        Value::Boolean(true),
        Value::Null,
        Value::Identifier("n".to_string()),
        Value::Quote(Box::new(Value::Quote(Box::new(Value::Int(1))))),
    ];
    for v in &values {
        assert!(matches!(values_equal(v, v), Ok(true)));
    }
    assert!(matches!(values_equal(&f(f64::NAN), &f(f64::NAN)), Ok(false)));
}

#[test]
fn decimal_numerals() {
    assert_eq!(int_to_string(0), "0");
    assert_eq!(int_to_string(7), "7");
    assert_eq!(int_to_string(-7), "-7");
    assert_eq!(int_to_string(1234567890), "1234567890");
    assert_eq!(int_to_string(i64::MAX), "9223372036854775807");
    assert_eq!(int_to_string(i64::MIN), "-9223372036854775808");
    assert_eq!(int_to_string(-100), "-100");
}

#[test]
fn variant_names() {
    assert_eq!(debug_name(&Value::Null), "Null");
    assert_eq!(debug_name(&Value::Int(1)), "Int");
    assert_eq!(debug_name(&f(1.0)), "Float");
    assert_eq!(debug_name(&s("")), "String");
    assert_eq!(debug_name(&Value::Array(vec![])), "Array");
    assert_eq!(debug_name(&Value::Dict(vec![])), "Dict");
    assert_eq!(debug_name(&Value::Quote(Box::new(Value::Null))), "'");
    assert_eq!(debug_name(&Value::OpenFunc), "(");
    assert_eq!(debug_name(&Value::Func { f: Builtin::If }), "Func");
}

#[test]
fn error_constructors() {
    assert!(matches!(LCoreError::LambdaCore("m".to_string()), Err(LCoreError::LambdaCoreError(m)) if m == "m"));
    assert!(matches!(LCoreError::Index("m".to_string()), Err(LCoreError::IndexError(m)) if m == "m"));
    assert!(matches!(LCoreError::Argument("m".to_string()), Err(LCoreError::ArgumentError(m)) if m == "m"));
    assert!(matches!(LCoreError::Name("m".to_string()), Err(LCoreError::NameError(m)) if m == "m"));
    assert!(matches!(LCoreError::Return(), Err(LCoreError::ReturnError)));
    assert!(matches!(LCoreError::Break(), Err(LCoreError::BreakError)));
}

#[test]
fn insert_sets_and_does_not_shadow() {
    let mut env = Environment::new();
    assert_eq!(env.len(), 0);
    env.push();
    env.insert("x".to_string(), Value::Int(1));
    env.push();
    env.insert("x".to_string(), Value::Int(2));
    env.insert("y".to_string(), Value::Int(3));
    assert_eq!(env.len(), 2);
    assert!(env.contains_key("x".to_string()));
    assert!(env.contains_key("y".to_string()));
    assert!(!env.contains_key("z".to_string()));
    assert!(matches!(env.get("x".to_string()), Some(Value::Int(2))));
    let top = env.pop();
    assert!(top.contains_key(&"y".to_string()));
    assert!(!top.contains_key(&"x".to_string()));
    assert_eq!(env.len(), 1);
    assert!(matches!(env.get("x".to_string()), Some(Value::Int(2))));
    assert!(env.get("y".to_string()).is_none());
}

#[test]
fn define_shadows() {
    let mut env = Environment::new();
    env.push();
    env.insert("x".to_string(), Value::Int(1));
    env.push();
    env.define("x".to_string(), Value::Int(2));
    assert!(matches!(env.get("x".to_string()), Some(Value::Int(2))));
    env.pop();
    assert!(matches!(env.get("x".to_string()), Some(Value::Int(1))));
}

#[test]
fn extend_merges_into_the_top_scope() {
    let mut table = SymTab::new();
    table.insert("a".to_string(), Value::Int(1));
    table.insert("b".to_string(), Value::Int(2));
    table.insert("a".to_string(), Value::Int(3));
    assert!(matches!(table.get(&"a".to_string()), Some(Value::Int(3))));
    let mut env = Environment::new();
    env.push();
    env.insert("b".to_string(), Value::Int(0));
    env.insert("c".to_string(), Value::Int(9));
    env.extend(table);
    assert!(matches!(env.get("a".to_string()), Some(Value::Int(3))));
    assert!(matches!(env.get("b".to_string()), Some(Value::Int(2))));
    assert!(matches!(env.get("c".to_string()), Some(Value::Int(9))));
}

#[test]
fn return_channel() {
    let mut env = Environment::new();
    assert_eq!(env.current_ret_index(), 0);
    let mark = env.current_ret_index();
    env.push_ret(Value::Int(5));
    env.push_ret(Value::Int(6));
    assert_eq!(env.current_ret_index(), 2);
    assert!(matches!(env.pop_ret_index(mark + 1), Value::Int(5)));
    assert_eq!(env.current_ret_index(), 0);
}

#[test]
fn get_opens_a_binding_to_change() {
    let mut env = Environment::new();
    env.push();
    env.insert("x".to_string(), Value::Int(1));
    env.push();
    env.insert("y".to_string(), Value::Int(2));
    if let Some(v) = env.get("x".to_string()) {
        *v = s("changed");
    }
    assert!(env.get("z".to_string()).is_none());
    assert!(matches!(env.peek(&"x".to_string()), Some(Value::String(t)) if t == "changed"));
    assert!(matches!(env.peek(&"y".to_string()), Some(Value::Int(2))));
    env.pop();
    assert!(matches!(env.peek(&"x".to_string()), Some(Value::String(t)) if t == "changed"));
    assert!(env.peek(&"y".to_string()).is_none());
}

#[test]
fn well_keyed_dictionaries() {
    let good = Value::Dict(vec![
        (s("a"), Value::Int(1)),
        (Value::Int(2), Value::Array(vec![Value::Dict(vec![(Value::Null, s("x"))])])),
        (Value::Quote(Box::new(s("a"))), f(1.5)),
        (f(f64::NAN), Value::Int(0)),
        (f(f64::NAN), Value::Int(1)),
    ]);
    assert!(is_well_keyed(&good));
    assert!(is_well_keyed(&good.clone()));
    assert!(is_well_keyed(&Value::Int(3)));
    assert!(is_well_keyed(&Value::Array(vec![])));
    let twice = Value::Dict(vec![(s("a"), Value::Int(1)), (s("b"), Value::Int(2)), (s("a"), Value::Int(3))]);
    assert!(!is_well_keyed(&twice));
    let zeros = Value::Dict(vec![(f(0.0), Value::Int(1)), (f(-0.0), Value::Int(2))]);
    assert!(!is_well_keyed(&zeros));
    let unhashable = Value::Dict(vec![(Value::Array(vec![]), Value::Int(1))]);
    assert!(!is_well_keyed(&unhashable));
    let quoted = Value::Dict(vec![(Value::Quote(Box::new(Value::Dict(vec![]))), Value::Int(1))]);
    assert!(!is_well_keyed(&quoted));
    let inside = Value::Array(vec![Value::Int(1), Value::Quote(Box::new(twice.clone()))]);
    assert!(!is_well_keyed(&inside));
    let as_value = Value::Dict(vec![(s("k"), twice)]);
    assert!(!is_well_keyed(&as_value));
}
