use lambda_core::driver::{new_environment, repl_echo, repl_on_parse_error, report, ReplStep};
use lambda_core::effect::Piece;
use lambda_core::error::LCoreError;
use lambda_core::format::{lcore_format_code, lcore_format_rule, lcore_highlight_code};
use lambda_core::parse::{
    check_tree, contains_point, count_newlines, count_tokens, lcore_parse, parse_bool, parse_int,
    Node, Rule,
};
use lambda_core::value::{Builtin, Value};

fn node(rule: Rule, text: &str, children: Vec<Node>) -> Node {
    Node { rule, text: text.to_string(), children, bits: 0 }
}

fn leaf(rule: Rule, text: &str) -> Node {
    node(rule, text, vec![])
}

fn tokens(tree: &Node) -> (Vec<Value>, usize) {
    let mut stack = Vec::new();
    let lines = lcore_parse(tree, &mut stack);
    (stack, lines)
}

fn text_of(pieces: &[Piece]) -> String {
    let mut out = String::new();
    for piece in pieces {
        match piece {
            Piece::Text(s) => out.push_str(s),
            Piece::Float(bits) => out.push_str(&format!("{}", f64::from_bits(*bits))),
        }
    }
    out
}

#[test]
fn counts_line_feeds() {
    assert_eq!(count_newlines("a\nb\n\nc"), 3);
    assert_eq!(count_newlines(""), 0);
    assert_eq!(count_newlines("no line feed"), 0);
    assert_eq!(count_newlines("é\nü\n"), 2);
}

#[test]
fn numerals() {
    assert_eq!(parse_int("0"), Some(0));
    assert_eq!(parse_int("42"), Some(42));
    assert_eq!(parse_int("-42"), Some(-42));
    assert_eq!(parse_int("+42"), Some(42));
    assert_eq!(parse_int("007"), Some(7));
    assert_eq!(parse_int("9223372036854775807"), Some(i64::MAX));
    assert_eq!(parse_int("-9223372036854775808"), Some(i64::MIN));
    assert_eq!(parse_int("9223372036854775808"), None);
    assert_eq!(parse_int("-9223372036854775809"), None);
    assert_eq!(parse_int("99999999999999999999999999"), None);
    assert_eq!(parse_int(""), None);
    assert_eq!(parse_int("-"), None);
    assert_eq!(parse_int("+"), None);
    assert_eq!(parse_int("12a"), None);
    assert_eq!(parse_int("1.5"), None);
    assert_eq!(parse_int("--1"), None);
    for n in [0i64, 1, -1, 10, 12345, -99999, i64::MAX, i64::MIN] {
        assert_eq!(parse_int(&n.to_string()), Some(n));
    }
}

#[test]
fn truth_values_and_points() {
    assert_eq!(parse_bool("True"), Some(true));
    assert_eq!(parse_bool("true"), Some(true));
    assert_eq!(parse_bool("FALSE"), Some(false));
    assert_eq!(parse_bool("False"), Some(false));
    assert_eq!(parse_bool("Tru"), None);
    assert_eq!(parse_bool("Truth"), None);
    assert_eq!(parse_bool(""), None);
    assert!(contains_point("3.14"));
    assert!(contains_point("."));
    assert!(!contains_point("314"));
}

#[test]
fn an_application_is_bracketed() {
    let tree = node(
        Rule::Program,
        "",
        vec![node(
            Rule::Function,
            "(print 1)",
            vec![leaf(Rule::Identifier, "print"), leaf(Rule::Number, "1")],
        )],
    );
    assert!(check_tree(&tree));
    assert_eq!(count_tokens(&tree), 4);
    let (stack, lines) = tokens(&tree);
    assert_eq!(lines, 0);
    assert_eq!(stack.len(), 4);
    assert!(matches!(stack[0], Value::OpenFunc));
    assert!(matches!(&stack[1], Value::Identifier(n) if n == "print"));
    assert!(matches!(stack[2], Value::Int(1)));
    assert!(matches!(stack[3], Value::CloseFunc));
}

#[test]
fn literals_become_values() {
    let mut float = leaf(Rule::Number, "2.5");
    float.bits = 2.5f64.to_bits();
    let tree = node(
        Rule::Program,
        "",
        vec![
            leaf(Rule::String, "\"hi there\""),
            float,
            leaf(Rule::Boolean, "True"),
            leaf(Rule::Null, "Null"),
            leaf(Rule::NewLine, "\n"),
            leaf(Rule::BackTick, "`"),
            leaf(Rule::Comma, ","),
            leaf(Rule::Number, "-17"),
            leaf(Rule::NewLine, "\n"),
            leaf(Rule::EOI, ""),
        ],
    );
    assert!(check_tree(&tree));
    let (stack, lines) = tokens(&tree);
    assert_eq!(lines, 2);
    assert_eq!(stack.len(), 7);
    assert!(matches!(&stack[0], Value::String(s) if s == "hi there"));
    assert!(matches!(stack[1], Value::Float(b) if f64::from_bits(b) == 2.5));
    assert!(matches!(stack[2], Value::Boolean(true)));
    assert!(matches!(stack[3], Value::Null));
    assert!(matches!(stack[4], Value::BackTick));
    assert!(matches!(stack[5], Value::Comma));
    assert!(matches!(stack[6], Value::Int(-17)));
}

#[test]
fn arrays_and_quotes_come_assembled() {
    let tree = node(
        Rule::Quote,
        "'[a (f 1)]",
        vec![node(
            Rule::Array,
            "[a (f 1)]",
            vec![
                leaf(Rule::Identifier, "a"),
                leaf(Rule::NewLine, "\n"),
                node(Rule::Function, "(f 1)", vec![leaf(Rule::Identifier, "f"), leaf(Rule::Number, "1")]),
            ],
        )],
    );
    assert!(check_tree(&tree));
    let (stack, lines) = tokens(&tree);
    assert_eq!(lines, 1);
    assert_eq!(stack.len(), 1);
    let expected = Value::Quote(Box::new(Value::Array(vec![
        Value::Identifier("a".to_string()),
        Value::OpenFunc,
        Value::Identifier("f".to_string()),
        Value::Int(1),
        Value::CloseFunc,
    ])));
    match (&stack[0], &expected) {
        (Value::Quote(a), Value::Quote(b)) => match (&**a, &**b) {
            (Value::Array(x), Value::Array(y)) => {
                assert_eq!(x.len(), y.len());
                assert!(matches!(&x[0], Value::Identifier(n) if n == "a"));
                assert!(matches!(x[1], Value::OpenFunc));
                assert!(matches!(&x[2], Value::Identifier(n) if n == "f"));
                assert!(matches!(x[3], Value::Int(1)));
                assert!(matches!(x[4], Value::CloseFunc));
            }
            _ => panic!("not an array"),
        },
        _ => panic!("not a quote"),
    }
}

#[test]
fn ill_formed_trees_are_found() {
    assert!(!check_tree(&leaf(Rule::Number, "12x")));
    assert!(!check_tree(&leaf(Rule::Number, "99999999999999999999")));
    assert!(!check_tree(&leaf(Rule::Boolean, "maybe")));
    assert!(!check_tree(&leaf(Rule::String, "\"")));
    assert!(!check_tree(&node(Rule::Quote, "'", vec![])));
    assert!(!check_tree(&node(
        Rule::Quote,
        "' 1 2",
        vec![leaf(Rule::Number, "1"), leaf(Rule::Number, "2")]
    )));
    assert!(!check_tree(&node(Rule::Program, "", vec![leaf(Rule::Null, ""), leaf(Rule::Number, "x")])));
    assert!(check_tree(&leaf(Rule::Number, "1.x")));
    assert!(check_tree(&leaf(Rule::Other, "anything")));
}

#[test]
fn formats_a_program() {
    let tree = node(
        Rule::Program,
        "",
        vec![
            node(
                Rule::Function,
                "(print \"a\" 'b 12)",
                vec![
                    leaf(Rule::Identifier, "print"),
                    leaf(Rule::String, "\"a\""),
                    node(Rule::Quote, "'b", vec![leaf(Rule::Identifier, "b")]),
                    leaf(Rule::Number, "12"),
                ],
            ),
            leaf(Rule::NewLine, "\n"),
            leaf(Rule::EOI, ""),
        ],
    );
    assert_eq!(lcore_format_code(&tree), "(print\"a\"'12)\n");
    let mut buffer = String::from("; ");
    lcore_format_rule(&leaf(Rule::Identifier, "name"), &mut buffer);
    assert_eq!(buffer, "; name");
    assert_eq!(lcore_highlight_code("(print 1)".to_string()), "(print 1)");
}

#[test]
fn a_new_environment_holds_the_operators() {
    let env = new_environment();
    assert_eq!(env.len(), 1);
    let expected = [
        ("print", Builtin::Print),
        ("prin", Builtin::Prin),
        ("quit", Builtin::Quit),
        ("exit", Builtin::Quit),
        ("set", Builtin::Assign),
        ("loop", Builtin::Loop),
        ("defn", Builtin::Defn),
        ("get", Builtin::Get),
        ("dict", Builtin::Dict),
        ("len", Builtin::Len),
        ("import", Builtin::Import),
        ("swap", Builtin::Swap),
        ("to-str", Builtin::ToStr),
        ("=", Builtin::Equals),
        ("!=", Builtin::NotEquals),
        ("or", Builtin::LogicalOr),
        ("and", Builtin::LogicalAnd),
        ("not", Builtin::LogicalNot),
        ("+", Builtin::Plus),
        ("-", Builtin::Minus),
        ("*", Builtin::Times),
        ("/", Builtin::Divide),
        ("**", Builtin::Power),
        ("if", Builtin::If),
        ("sel", Builtin::Sel),
        ("ret", Builtin::Return),
        ("break", Builtin::Break),
        ("<", Builtin::LessThan),
    ];
    for (name, op) in expected {
        assert!(matches!(env.peek(&name.to_string()), Some(Value::Func { f }) if *f == op), "{}", name);
    }
    assert!(env.peek(&"nothing".to_string()).is_none());
}

#[test]
fn reports_of_the_drivers() {
    assert_eq!(report("", &LCoreError::NameError("NameError: x".to_string())), "NameError: x");
    assert_eq!(report("", &LCoreError::IndexError("i".to_string())), "i");
    assert_eq!(report("", &LCoreError::ArgumentError("a".to_string())), "a");
    assert_eq!(report("", &LCoreError::LambdaCoreError("g".to_string())), "g");
    assert_eq!(report("", &LCoreError::ReturnError), "NOT IMPLEMENTED ERROR");
    assert_eq!(report("", &LCoreError::BreakError), "NOT IMPLEMENTED!");
    assert_eq!(report("IMPORT: ", &LCoreError::ReturnError), "IMPORT: NOT IMPLEMENTED ERROR");
    assert_eq!(report("EXECUTE_STRING: ", &LCoreError::BreakError), "EXECUTE_STRING: NOT IMPLEMENTED!");
}

#[test]
fn the_loop_echoes_what_is_not_null() {
    assert!(repl_echo(&Value::Null).is_none());
    assert_eq!(text_of(&repl_echo(&Value::Int(3)).unwrap()), "-> 3\n");
    assert_eq!(text_of(&repl_echo(&Value::String("s".to_string())).unwrap()), "-> s\n");
    assert_eq!(
        text_of(&repl_echo(&Value::Array(vec![Value::String("s".to_string()), Value::Float(0.5f64.to_bits())])).unwrap()),
        "-> [\"s\" 0.5]\n"
    );
}

#[test]
fn the_loop_after_text_that_does_not_parse() {
    assert_eq!(repl_on_parse_error(&vec![Rule::EOI]), ReplStep::OneFormPerLine);
    assert_eq!(repl_on_parse_error(&vec![Rule::Program, Rule::EOI]), ReplStep::OneFormPerLine);
    assert_eq!(repl_on_parse_error(&vec![Rule::Other, Rule::Program]), ReplStep::Restart);
    assert_eq!(repl_on_parse_error(&vec![Rule::Identifier, Rule::Number]), ReplStep::ReadMore);
    assert_eq!(repl_on_parse_error(&vec![]), ReplStep::ReadMore);
}
