use lambda_core::driver::{module_bindings, report, start_program};
use lambda_core::effect::{FloatOp, Piece};
use lambda_core::environment::SymTab;
use lambda_core::error::LCoreError;
use lambda_core::machine::{lcore_interpret, Action};
use lambda_core::parse::{check_tree, lcore_parse, Node, Rule};
use lambda_core::value::Value;

fn node(rule: Rule, text: &str, children: Vec<Node>) -> Node {
    Node { rule, text: text.to_string(), children, bits: 0 }
}

fn atom(text: &str) -> Node {
    let first = text.chars().next().unwrap();
    let second = text.chars().nth(1);
    let numeric = first.is_ascii_digit()
        || ((first == '-' || first == '+') && second.map_or(false, |c| c.is_ascii_digit()));
    if numeric {
        let mut n = node(Rule::Number, text, vec![]);
        if text.contains('.') {
            n.bits = text.parse::<f64>().unwrap().to_bits();
        }
        n
    } else if text == "True" || text == "False" {
        node(Rule::Boolean, text, vec![])
    } else if text == "Null" {
        node(Rule::Null, text, vec![])
    } else {
        node(Rule::Identifier, text, vec![])
    }
}

fn read_list(chars: &[char], pos: &mut usize, close: char) -> Vec<Node> {
    let mut items = Vec::new();
    loop {
        while *pos < chars.len() && chars[*pos].is_whitespace() {
            if chars[*pos] == '\n' {
                items.push(node(Rule::NewLine, "\n", vec![]));
            }
            *pos += 1;
        }
        if *pos >= chars.len() {
            assert!(close == '\0', "unclosed list");
            return items;
        }
        if chars[*pos] == close {
            *pos += 1;
            return items;
        }
        items.push(read_form(chars, pos, false));
    }
}

fn read_form(chars: &[char], pos: &mut usize, quoted: bool) -> Node {
    let c = chars[*pos];
    if c == '(' {
        *pos += 1;
        let items = read_list(chars, pos, ')');
        node(if quoted { Rule::Array } else { Rule::Function }, "", items)
    } else if c == '[' {
        *pos += 1;
        let items = read_list(chars, pos, ']');
        node(Rule::Array, "", items)
    } else if c == '\'' {
        *pos += 1;
        let inner = read_form(chars, pos, true);
        node(Rule::Quote, "", vec![inner])
    } else if c == '"' {
        let start = *pos;
        *pos += 1;
        while chars[*pos] != '"' {
            *pos += 1;
        }
        *pos += 1;
        let text: String = chars[start..*pos].iter().collect();
        node(Rule::String, &text, vec![])
    } else {
        let start = *pos;
        while *pos < chars.len() && !chars[*pos].is_whitespace() && !"()[]'\"".contains(chars[*pos])
        {
            *pos += 1;
        }
        let text: String = chars[start..*pos].iter().collect();
        atom(&text)
    }
}

fn read(source: &str) -> Vec<Value> {
    let chars: Vec<char> = source.chars().collect();
    let mut pos = 0;
    let program = node(Rule::Program, source, read_list(&chars, &mut pos, '\0'));
    assert!(check_tree(&program));
    let mut tokens = Vec::new();
    lcore_parse(&program, &mut tokens);
    tokens
}

fn compute(op: FloatOp, a: u64, b: u64) -> u64 {
    let (x, y) = (f64::from_bits(a), f64::from_bits(b));
    let r = match op {
        FloatOp::Plus => x + y,
        FloatOp::Minus => x - y,
        FloatOp::Times => x * y,
        FloatOp::Divide => x / y,
        FloatOp::Power => x.powf(y),
    };
    r.to_bits()
}

fn write(out: &mut String, pieces: &[Piece]) {
    for piece in pieces {
        match piece {
            Piece::Text(s) => out.push_str(s),
            Piece::Float(bits) => out.push_str(&format!("{}", f64::from_bits(*bits))),
        }
    }
}

fn load(path: &str, modules: &[(&str, &str)], out: &mut String) -> SymTab {
    let source = modules.iter().find(|(name, _)| *name == path).expect("no such module").1;
    let (machine, result) = drive(read(source), modules, out);
    if let Err(e) = result {
        out.push_str(&report("IMPORT: ", &e));
        out.push('\n');
    }
    module_bindings(machine.into_env())
}

fn drive(
    tokens: Vec<Value>,
    modules: &[(&str, &str)],
    out: &mut String,
) -> (lambda_core::machine::Machine, Result<Value, LCoreError>) {
    let mut machine = start_program(tokens);
    loop {
        match lcore_interpret(&mut machine, 10_000) {
            Action::Idle => {}
            Action::Print(pieces) => write(out, &pieces),
            Action::Float { op, a, b } => machine.answer_float(compute(op, a, b)),
            Action::Import(path) => {
                let table = load(&path, modules, out);
                machine.answer_import(table);
            }
            Action::Quit => return (machine, Ok(Value::Null)),
            Action::Done(result) => return (machine, result),
        }
    }
}

fn run_with(source: &str, modules: &[(&str, &str)]) -> String {
    let mut out = String::new();
    let (_, result) = drive(read(source), modules, &mut out);
    if let Err(e) = result {
        out.push_str(&report("", &e));
        out.push('\n');
    }
    out
}

fn run(source: &str) -> String {
    run_with(source, &[])
}

#[test]
fn prints_a_sum() {
    assert_eq!(run("(print (+ 1 2))"), "3\n");
}

#[test]
fn set_then_print_then_update() {
    assert_eq!(run("(set 'x 10) (print x)"), "10\n");
    assert_eq!(run("(set 'x 10) (print x) (set 'x (+ x 5)) (print x)"), "10\n15\n");
}

#[test]
fn unbound_name_is_a_name_error() {
    assert_eq!(run("(set x 10) (print x)"), "NameError: Cannot lookup name: \"x\"\n");
}

#[test]
fn defines_and_calls_a_function() {
    assert_eq!(run("(defn 'add ['a 'b] '((+ a b))) (print (add 2 3))"), "5\n");
}

#[test]
fn loop_counts_from_zero() {
    assert_eq!(run("(loop 'i 3 '((print i)))"), "0\n1\n2\n");
}

#[test]
fn loop_with_no_runs() {
    assert_eq!(run("(loop 'i 0 '((print i))) (loop 'i -4 '((print i))) (print \"end\")"), "end\n");
}

#[test]
fn if_takes_the_true_branch() {
    assert_eq!(run("(if (= 1 1) '((print \"yes\")) '((print \"no\")))"), "yes\n");
}

#[test]
fn if_takes_the_false_branch() {
    assert_eq!(run("(if (= 1 2) '((print \"yes\")) '((print \"no\")))"), "no\n");
    assert_eq!(run("(print (if (= 1 2) '(1)))"), "Null\n");
    assert_eq!(run("(print (if (= 1 1) '(1 2 3)))"), "3\n");
    assert_eq!(run("(print (if (= 1 1) '()))"), "Null\n");
}

#[test]
fn dict_get_by_quoted_name() {
    assert_eq!(run("(set 'd (dict 'a 1 'b 2)) (print (get d 'a))"), "1\n");
    assert_eq!(run("(set 'd (dict 'a 1 'b 2)) (print (get d \"b\"))"), "2\n");
}

#[test]
fn recursive_fibonacci() {
    let program = "(defn 'f ['n] '((if (< n 2) '((ret n)) '((ret (+ (f (- n 1)) (f (- n 2)))))))) \
                   (print (f 10))";
    assert_eq!(run(program), "55\n");
}

#[test]
fn break_leaves_the_inner_loop_only() {
    let program =
        "(loop 'x 3 '((loop 'y 3 '((if (= y 2) '((break)) '((print y))))) (print x)))";
    assert_eq!(run(program), "0\n1\n0\n0\n1\n1\n0\n1\n2\n");
}

#[test]
fn break_after_k_runs() {
    let program = "(set 'n 0) (loop 'i 10 '((if (= i 4) '((break))) (set 'n (+ n 1)))) (print n)";
    assert_eq!(run(program), "4\n");
}

#[test]
fn break_outside_a_loop_reaches_the_driver() {
    assert_eq!(run("(print 1) (break) (print 2)"), "1\nNOT IMPLEMENTED!\n");
}

#[test]
fn return_outside_a_call_reaches_the_driver() {
    assert_eq!(run("(ret 5) (print 2)"), "NOT IMPLEMENTED ERROR\n");
}

#[test]
fn return_from_nested_blocks() {
    let program = "(defn 'find ['limit] '((loop 'i 10 '((if (= i limit) '((ret (* i 2)))))) (ret -1))) \
                   (print (find 3)) (print (find 20))";
    assert_eq!(run(program), "6\n-1\n");
}

#[test]
fn function_without_ret_gives_its_last_value() {
    assert_eq!(run("(defn 'two [] '(1 2)) (print (two))"), "2\n");
    assert_eq!(run("(defn 'none [] '()) (print (none))"), "Null\n");
}

#[test]
fn call_scope_is_closed_after_the_call() {
    let program = "(set 'a 1) (defn 'f ['a] '((set 'local 5) (+ a 1))) (print (f 10)) (print a) \
                   (print local)";
    assert_eq!(run(program), "11\n1\nNameError: Cannot lookup name: \"local\"\n");
}

#[test]
fn set_in_a_loop_changes_the_outer_binding() {
    let program = "(set 'total 0) (loop 'i 4 '((set 'total (+ total i)))) (print total)";
    assert_eq!(run(program), "6\n");
}

#[test]
fn wrong_number_of_arguments() {
    assert_eq!(
        run("(defn 'add ['a 'b] '((+ a b))) (print (add 2))"),
        "ArgumentError: Wrong number of arguments\n"
    );
}

#[test]
fn error_inside_a_call_ends_the_program() {
    let program = "(defn 'f ['a] '((print \"in\") (+ a \"x\") (print \"never\"))) (f 1) (print \"after\")";
    assert_eq!(run(program), "in\nArgumentError: Invalid operands (Int and String)\n");
}

#[test]
fn odd_dict_is_an_argument_error() {
    assert_eq!(
        run("(dict 'a 1 'b)"),
        "ArgumentError: Odd number of arguments passed to \"dict\"\n"
    );
}

#[test]
fn array_literal_evaluates_its_elements_in_order() {
    assert_eq!(run("(set 'y 7) (print [(+ 1 2) y \"s\" [y]])"), "[3 7 \"s\" [7]]\n");
}

#[test]
fn arguments_are_evaluated_left_to_right() {
    let program = "(defn 'say ['x] '((print x) x)) (print (+ (say 1) (say 2)))";
    assert_eq!(run(program), "1\n2\n3\n");
}

#[test]
fn prints_values_in_canonical_syntax() {
    assert_eq!(run("(print \"Hello World!\")"), "Hello World!\n");
    assert_eq!(run("(prin \"a\") (prin 1) (print True)"), "a1True\n");
    assert_eq!(run("(print Null) (print False) (print -12)"), "Null\nFalse\n-12\n");
    assert_eq!(run("(print '[1 2 3])"), "(quote [1 2 3])\n");
    assert_eq!(run("(print '((print \"Hello World!\")))"), "(quote [( print \"Hello World!\" )])\n");
    assert_eq!(run("(print (dict \"inner\" \"Nah.\"))"), "{ \"inner\": \"Nah.\" }\n");
    assert_eq!(run("(print (dict 'a 1 2 [3]))"), "{ \"a\": 1, 2: [3] }\n");
    assert_eq!(run("(print 'name)"), "(quote name)\n");
}

#[test]
fn print_takes_one_argument() {
    assert_eq!(run("(print 1 2)"), "Can only print 1 value at a time right now.\n");
    assert_eq!(
        run("(print)"),
        "ArgumentError: Not enough arguments on call to \"print\": 0/1\n"
    );
}

#[test]
fn float_arithmetic_goes_through_the_host() {
    assert_eq!(run("(print (+ 1.2 2.0))"), "3.2\n");
    assert_eq!(run("(print (/ 1.0 2.0)) (print (** 2.0 4.0)) (print (- 2.0 4.0))"), "0.5\n16\n-2\n");
    assert_eq!(run("(print (* 2.0 4.0)) (print [1.5 (+ 0.25 0.25)])"), "8\n[1.5 0.5]\n");
    assert_eq!(run("(print (= 3.14 3.14)) (print (< 1.5 2.5)) (print (< 2.5 1.5))"), "True\nTrue\nFalse\n");
}

#[test]
fn integer_arithmetic() {
    assert_eq!(run("(print (+ 4 2)) (print (- 2 4)) (print (* 2 4)) (print (/ 1 2)) (print (** 2 4))"),
        "6\n-2\n8\n0\n16\n");
    assert_eq!(run("(print (/ -7 2)) (print (/ 7 -2)) (print (/ -7 -2))"), "-3\n-3\n3\n");
    assert_eq!(run("(print (* \"Hi\" 3)) (print (+ \"Hello \" \"World!\"))"), "HiHiHi\nHello World!\n");
    assert_eq!(run("(print (* \"Hi\" 0)) (print (* [11] 0)) (print (len (* \"Hi\" 0)))"), "\n[]\n0\n");
    assert_eq!(run("(print (+ [1 2] [3 4])) (print (* [11] 2))"), "[1 2 3 4]\n[11 11]\n");
}

#[test]
fn sel_takes_the_first_equal_case() {
    let program = "(sel 3 1 '((print \"one\")) 3 '((print \"It's Three!\")) 'default '((print \"other\")))";
    assert_eq!(run(program), "It's Three!\n");
    let fallback = "(sel 9 1 '((print \"one\")) 'default '((print \"other\")) 9 '((print \"nine\")))";
    assert_eq!(run(fallback), "other\n");
    assert_eq!(run("(print (sel 9 1 '(1) \"9\" '(2)))"), "Null\n");
    assert_eq!(run("(print (sel \"b\" \"a\" '(1) \"b\" '(55)))"), "55\n");
}

#[test]
fn swap_replaces_a_leaf() {
    let program = "(set 'a [1 2 3]) (swap 'a '(2) 4) (print a)";
    assert_eq!(run(program), "[1 2 4]\n");
    let nested = "(set 'd (dict 'outer (dict 'inner \"Nah.\"))) (swap 'd '(outer inner) \"Huzzah!\") \
                  (print (get d 'outer))";
    assert_eq!(run(nested), "{ \"inner\": \"Huzzah!\" }\n");
    let deep = "(set 'd (dict 'k [\"a\" (dict 'x \"FAILURE\")])) (swap 'd '(k 1 x) \"VICTORY\") (print d)";
    assert_eq!(run(deep), "{ \"k\": [\"a\" { \"x\": \"VICTORY\" }] }\n");
    assert_eq!(run("(swap 'nothing '(0) 1) (print \"ok\")"), "ok\n");
}

#[test]
fn import_merges_the_bindings_of_a_module() {
    let modules = [(
        "lib.lcore",
        "(print \"You are importing the `add` function!\") (defn 'add ['a 'b] '((+ a b)))",
    )];
    assert_eq!(
        run_with("(import \"lib.lcore\") (print (add 4 6))", &modules),
        "You are importing the `add` function!\n10\n"
    );
}

#[test]
fn error_in_a_module_does_not_end_the_importer() {
    let modules = [("bad.lcore", "(set 'ok 1) (+ 1 \"x\") (set 'late 2)")];
    assert_eq!(
        run_with("(import \"bad.lcore\") (print ok)", &modules),
        "ArgumentError: Invalid operands (Int and String)\n1\n"
    );
}

#[test]
fn quit_stops_the_program() {
    assert_eq!(run("(print 1) (quit) (print 2)"), "1\n");
    assert_eq!(run("(print 1) (exit) (print 2)"), "1\n");
}

#[test]
fn applying_what_is_no_operator() {
    assert_eq!(run("(set 'n 5) (print (n 1 2))"), "Null\n");
    assert_eq!(run("(set 'n [1 2 3]) (n 1)"), "ArgumentError: Not a function\n");
    assert_eq!(run("()"), "ArgumentError: Nothing to apply\n");
}

#[test]
fn len_and_get() {
    assert_eq!(run("(print (len [1 2 3])) (print (len \"héllo\")) (print (len 'x))"), "3\n6\n1\n");
    assert_eq!(run("(print (get [1 2 3] 1)) (print (get [1 2 3] -1)) (print (get [1 2 3] 3))"), "2\n3\n1\n");
    assert_eq!(run("(get [1 2 3] 4)"), "Index out of bounds: got 4 but len is 3\n");
    assert_eq!(run("(get [1 2 3] -4)"), "Index out of bounds: got -4 but len is 3\n");
    assert_eq!(run("(get [] 0)"), "Index out of bounds: got 0 but len is 0\n");
    assert_eq!(run("(get [1] \"a\")"), "IndexError: Cannot index Array with String\n");
    assert_eq!(run("(get (dict 'a 1) 'b)"), "IndexError: No such key in Dict\n");
}

#[test]
fn comparisons_and_logic() {
    assert_eq!(run("(print (= [1] [1])) (print (!= [1] [1])) (print (= 'a 'a))"), "True\nFalse\nTrue\n");
    assert_eq!(run("(print (= (dict 'a 1 'b 2) (dict 'b 2 'a 1)))"), "True\n");
    assert_eq!(run("(print (= (dict 'a 1 'b 2) (dict 'b 2 'a 3)))"), "False\n");
    assert_eq!(run("(print (or True False)) (print (and True False)) (print (not True))"), "True\nFalse\nFalse\n");
    assert_eq!(run("(= 1 \"1\")"), "ArgumentError: Type mismatch (Int and String)\n");
    assert_eq!(run("(< 1 \"1\")"), "ArgumentError: Invalid Argument Types (Int and String)\n");
    assert_eq!(run("(and 1 True)"), "ArgumentError: Not booleans (Int and Boolean)\n");
    assert_eq!(run("(not 1)"), "ArgumentError: Not a boolean (Int)\n");
}
