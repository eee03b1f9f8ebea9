//! From a parse tree to the token stream that the evaluator reads.
//!
//! The tree is what a parser of the surface syntax has found: each node has
//! the rule that matched, the text that it matched, and the nodes that
//! matched inside it.

use crate::key_laws::lemma_tokens_well_keyed;
use crate::keys::{all_well_keyed, well_keyed};
use crate::value::{Datum, Value, push_value, views};
use vstd::prelude::*;
use vstd::utf8::encode_utf8;

verus! {

/// The rules of the surface grammar.
#[derive(Clone, Copy, Debug, PartialEq, Eq, Structural)]
pub enum Rule {
    Program,
    Function,
    Array,
    Number,
    Quote,
    String,
    BackTick,
    Comma,
    Identifier,
    Boolean,
    Null,
    NewLine,
    EOI,
    Other,
}

/// A node of the parse tree.
#[derive(Debug)]
pub struct Node {
    pub rule: Rule,
    /// The text that the rule matched.
    pub text: String,
    /// The nodes that matched inside this one, in order.
    pub children: Vec<Node>,
    /// For a number whose text holds a point: the double that the text
    /// denotes, by its bit pattern.
    pub bits: u64,
}

/// What a `Node` denotes.
pub struct NodeView {
    pub rule: Rule,
    pub text: Seq<char>,
    pub children: Seq<NodeView>,
    pub bits: u64,
}

/// The tree that a node denotes.
pub open spec fn tree_of(node: Node) -> NodeView
    decreases node,
{
    NodeView {
        rule: node.rule,
        text: node.text@,
        children: Seq::new(
            node.children@.len(),
            |i: int|
                if 0 <= i < node.children@.len() {
                    tree_of(node.children@[i])
                } else {
                    arbitrary()
                },
        ),
        bits: node.bits,
    }
}

impl View for Node {
    type V = NodeView;

    open spec fn view(&self) -> NodeView {
        tree_of(*self)
    }
}

/// Whether a character is a decimal digit.
pub open spec fn is_digit(c: char) -> bool {
    '0' <= c <= '9'
}

/// The number that a decimal digit denotes.
pub open spec fn digit_value(c: char) -> int {
    c as int - '0' as int
}

/// The number that a sequence of decimal digits denotes.
pub open spec fn digits_value(s: Seq<char>) -> int
    decreases s.len(),
{
    if s.len() == 0 {
        0
    } else {
        10 * digits_value(s.drop_last()) + digit_value(s.last())
    }
}

/// Whether a text is a sequence of at least one decimal digit.
pub open spec fn all_digits(s: Seq<char>) -> bool {
    s.len() > 0 && forall|i: int| 0 <= i < s.len() ==> is_digit(#[trigger] s[i])
}

/// The integer that a numeral denotes: decimal digits after an optional
/// sign, with a value that fits in 64 bits. Any other text denotes none.
pub open spec fn int_of(s: Seq<char>) -> Option<i64> {
    if s.len() > 0 && s[0] == '-' {
        if all_digits(s.skip(1)) && -digits_value(s.skip(1)) >= i64::MIN {
            Some((-digits_value(s.skip(1))) as i64)
        } else {
            None
        }
    } else if s.len() > 0 && s[0] == '+' {
        if all_digits(s.skip(1)) && digits_value(s.skip(1)) <= i64::MAX {
            Some(digits_value(s.skip(1)) as i64)
        } else {
            None
        }
    } else if all_digits(s) && digits_value(s) <= i64::MAX {
        Some(digits_value(s) as i64)
    } else {
        None
    }
}

/// Whether a text holds a point.
pub open spec fn has_point(s: Seq<char>) -> bool {
    exists|i: int| 0 <= i < s.len() && s[i] == '.'
}

/// A character in lower case, where it is an upper-case letter of ASCII.
pub open spec fn lower(c: char) -> char {
    if 'A' <= c <= 'Z' {
        ((c as u8) + 32u8) as char
    } else {
        c
    }
}

/// The truth value that a text denotes, whatever the case of its letters.
pub open spec fn bool_of(s: Seq<char>) -> Option<bool> {
    if s.map_values(|c: char| lower(c)) == "true"@ {
        Some(true)
    } else if s.map_values(|c: char| lower(c)) == "false"@ {
        Some(false)
    } else {
        None
    }
}

/// The tokens of the first `n` of some nodes, one after another.
pub open spec fn tokens_of_all(nodes: Seq<NodeView>, n: nat) -> Seq<Datum>
    decreases nodes, n,
{
    if n == 0 || n > nodes.len() {
        Seq::empty()
    } else {
        tokens_of_all(nodes, (n - 1) as nat) + tokens_of(nodes[n - 1])
    }
}

/// The tokens that a node stands for. An application is bracketed by
/// `OpenFunc` and `CloseFunc`, and the text of its first node is its
/// operator's name; an array and a quote come assembled; a literal is its
/// value; line ends and anything else give no token.
pub open spec fn tokens_of(node: NodeView) -> Seq<Datum>
    decreases node, 0nat,
{
    let inner = tokens_of_all(node.children, node.children.len());
    match node.rule {
        Rule::Program => inner,
        Rule::Function => if node.children.len() == 0 {
            seq![Datum::OpenFunc, Datum::CloseFunc]
        } else {
            seq![Datum::OpenFunc, Datum::Identifier(node.children[0].text)] + tokens_of_all(
                node.children.skip(1),
                (node.children.len() - 1) as nat,
            ) + seq![Datum::CloseFunc]
        },
        Rule::Array => seq![Datum::Array(inner)],
        Rule::Number => if has_point(node.text) {
            seq![Datum::Float(node.bits)]
        } else {
            match int_of(node.text) {
                Some(i) => seq![Datum::Int(i)],
                None => Seq::empty(),
            }
        },
        Rule::Quote => if inner.len() == 1 {
            seq![Datum::Quote(Box::new(inner[0]))]
        } else {
            Seq::empty()
        },
        Rule::String => if node.text.len() >= 2 {
            seq![Datum::Str(node.text.subrange(1, node.text.len() - 1))]
        } else {
            Seq::empty()
        },
        Rule::BackTick => seq![Datum::BackTick],
        Rule::Comma => seq![Datum::Comma],
        Rule::Identifier => seq![Datum::Identifier(node.text)],
        Rule::Boolean => match bool_of(node.text) {
            Some(b) => seq![Datum::Boolean(b)],
            None => Seq::empty(),
        },
        Rule::Null => seq![Datum::Null],
        _ => Seq::empty(),
    }
}

/// The number of line ends in the first `n` of some nodes.
pub open spec fn lines_of_all(nodes: Seq<NodeView>, n: nat) -> nat
    decreases nodes, n,
{
    if n == 0 || n > nodes.len() {
        0
    } else {
        lines_of_all(nodes, (n - 1) as nat) + lines_of(nodes[n - 1])
    }
}

/// The number of line ends in a node: those of the nodes inside a program,
/// an application, an array or a quote, except the first node of an
/// application, and one for a line end itself.
pub open spec fn lines_of(node: NodeView) -> nat
    decreases node, 0nat,
{
    match node.rule {
        Rule::Program | Rule::Array | Rule::Quote => lines_of_all(
            node.children,
            node.children.len(),
        ),
        Rule::Function => if node.children.len() == 0 {
            0
        } else {
            lines_of_all(node.children.skip(1), (node.children.len() - 1) as nat)
        },
        Rule::NewLine => 1,
        _ => 0,
    }
}

/// Whether every node of the first `n` is well formed.
pub open spec fn well_formed_all(nodes: Seq<NodeView>, n: nat) -> bool
    decreases nodes, n,
{
    if n == 0 || n > nodes.len() {
        true
    } else {
        well_formed_all(nodes, (n - 1) as nat) && well_formed(nodes[n - 1])
    }
}

/// Whether a tree is well formed: a number without a point is a numeral of
/// an integer that fits in 64 bits, a quote holds exactly one value, a
/// string has its two quotation marks, a truth value reads `true` or
/// `false`, and the nodes inside are well formed.
pub open spec fn well_formed(node: NodeView) -> bool
    decreases node, 0nat,
{
    &&& well_formed_all(node.children, node.children.len())
    &&& match node.rule {
        Rule::Number => has_point(node.text) || int_of(node.text).is_some(),
        Rule::Quote => tokens_of_all(node.children, node.children.len()).len() == 1,
        Rule::String => node.text.len() >= 2,
        Rule::Boolean => bool_of(node.text).is_some(),
        _ => true,
    }
}

/// The digits that come first are worth no more than all of them.
proof fn lemma_digits_value_grows(s: Seq<char>, k: int)
    requires
        0 <= k <= s.len(),
        forall|i: int| 0 <= i < s.len() ==> is_digit(#[trigger] s[i]),
    ensures
        0 <= digits_value(s.take(k)) <= digits_value(s),
    decreases s.len() - k,
{
    lemma_digits_value_bounds(s.take(k));
    if k < s.len() {
        lemma_digits_value_grows(s, k + 1);
        assert(s.take(k + 1).drop_last() =~= s.take(k));
        lemma_digits_value_bounds(s.take(k + 1));
    } else {
        assert(s.take(k) =~= s);
    }
}

/// A sequence of digits is worth at least zero.
proof fn lemma_digits_value_bounds(s: Seq<char>)
    requires
        forall|i: int| 0 <= i < s.len() ==> is_digit(#[trigger] s[i]),
    ensures
        0 <= digits_value(s),
    decreases s.len(),
{
    if s.len() > 0 {
        lemma_digits_value_bounds(s.drop_last());
    }
}

/// The value of the digits of `text` from the character at `start` on, if
/// they are digits, at least one, and worth at most 2^63.
fn parse_digits(text: &str, start: usize) -> (r: Option<i128>)
    requires
        start <= text@.len(),
    ensures
        match r {
            Some(v) => all_digits(text@.skip(start as int)) && v == digits_value(
                text@.skip(start as int),
            ) && 0 <= v <= 0x8000_0000_0000_0000,
            None => !all_digits(text@.skip(start as int)) || digits_value(
                text@.skip(start as int),
            ) > 0x8000_0000_0000_0000,
        },
{
    let n = text.unicode_len();
    let ghost body = text@.skip(start as int);
    if start == n {
        return None;
    }
    let mut acc: i128 = 0;
    let mut i: usize = start;
    while i < n
        invariant
            start <= i <= n,
            start < n,
            n == text@.len(),
            body == text@.skip(start as int),
            forall|j: int| 0 <= j < i - start ==> is_digit(#[trigger] body[j]),
            acc == digits_value(body.take(i - start)),
            0 <= acc <= 0x8000_0000_0000_0000,
        decreases n - i,
    {
        let c = text.get_char(i);
        assert(body[i - start] == c);
        if !('0' <= c && c <= '9') {
            return None;
        }
        let d: i128 = (c as u8 - '0' as u8) as i128;
        assert(body.take(i - start + 1).drop_last() =~= body.take(i - start));
        acc = 10 * acc + d;
        i += 1;
        if acc > 0x8000_0000_0000_0000 {
            proof {
                if all_digits(body) {
                    lemma_digits_value_grows(body, i - start);
                }
            }
            return None;
        }
    }
    assert(body.take(i - start) =~= body);
    Some(acc)
}

/// The integer that the numeral `text` denotes, if it denotes one.
pub fn parse_int(text: &str) -> (r: Option<i64>)
    ensures
        r == int_of(text@),
{
    let n = text.unicode_len();
    if n == 0 {
        return None;
    }
    let first = text.get_char(0);
    if first == '-' {
        match parse_digits(text, 1) {
            Some(v) => Some((-v) as i64),
            None => None,
        }
    } else if first == '+' {
        match parse_digits(text, 1) {
            Some(v) => if v > 0x7fff_ffff_ffff_ffff {
                None
            } else {
                Some(v as i64)
            },
            None => None,
        }
    } else {
        assert(text@.skip(0) =~= text@);
        match parse_digits(text, 0) {
            Some(v) => if v > 0x7fff_ffff_ffff_ffff {
                None
            } else {
                Some(v as i64)
            },
            None => None,
        }
    }
}

/// Whether `text` holds a point.
pub fn contains_point(text: &str) -> (r: bool)
    ensures
        r == has_point(text@),
{
    let n = text.unicode_len();
    let mut i: usize = 0;
    while i < n
        invariant
            i <= n,
            n == text@.len(),
            forall|j: int| 0 <= j < i ==> text@[j] != '.',
        decreases n - i,
    {
        if text.get_char(i) == '.' {
            return true;
        }
        i += 1;
    }
    false
}

/// `c` in lower case, where it is an upper-case letter of ASCII.
pub fn to_lower(c: char) -> (r: char)
    ensures
        r == lower(c),
{
    if 'A' <= c && c <= 'Z' {
        ((c as u8) + 32u8) as char
    } else {
        c
    }
}

/// The truth value that `text` denotes, if it denotes one.
pub fn parse_bool(text: &str) -> (r: Option<bool>)
    ensures
        r == bool_of(text@),
{
    proof {
        reveal_strlit("true");
        reveal_strlit("false");
    }
    let ghost low = text@.map_values(|c: char| lower(c));
    let n = text.unicode_len();
    if n == 4 {
        let hit = to_lower(text.get_char(0)) == 't' && to_lower(text.get_char(1)) == 'r'
            && to_lower(text.get_char(2)) == 'u' && to_lower(text.get_char(3)) == 'e';
        if hit {
            assert(low =~= "true"@);
            Some(true)
        } else {
            assert(low != "true"@) by {
                if low == "true"@ {
                    assert(low[0] == 't' && low[1] == 'r' && low[2] == 'u' && low[3] == 'e');
                }
            }
            assert(low.len() != "false"@.len());
            None
        }
    } else if n == 5 {
        let hit = to_lower(text.get_char(0)) == 'f' && to_lower(text.get_char(1)) == 'a'
            && to_lower(text.get_char(2)) == 'l' && to_lower(text.get_char(3)) == 's'
            && to_lower(text.get_char(4)) == 'e';
        if hit {
            assert(low =~= "false"@);
            Some(false)
        } else {
            assert(low != "false"@) by {
                if low == "false"@ {
                    assert(low[0] == 'f' && low[1] == 'a' && low[2] == 'l' && low[3] == 's'
                        && low[4] == 'e');
                }
            }
            None
        }
    } else {
        assert(low.len() != "true"@.len());
        None
    }
}

/// A count that stops at the largest machine number.
pub open spec fn capped(n: nat) -> usize {
    if n > usize::MAX {
        usize::MAX
    } else {
        n as usize
    }
}

fn add_capped(a: usize, b: usize) -> (r: usize)
    ensures
        r == capped(a as nat + b as nat),
{
    if a > usize::MAX - b {
        usize::MAX
    } else {
        a + b
    }
}

/// The trees of the nodes inside a node are the trees inside its tree.
proof fn lemma_children(node: Node)
    ensures
        node@.children.len() == node.children@.len(),
        forall|i: int|
            0 <= i < node.children@.len() ==> (#[trigger] node@.children[i]) == node.children@[i]@,
{
}

/// Appends the tokens of each of `nodes` from `from` on to `stack`, and
/// returns the number of line ends in them.
fn parse_all(node: &Node, from: usize, stack: &mut Vec<Value>) -> (loc: usize)
    requires
        from <= node.children@.len(),
        well_formed_all(node@.children, node@.children.len()),
    ensures
        views(final(stack)@) == views(old(stack)@) + tokens_of_all(
            node@.children.skip(from as int),
            (node@.children.len() - from) as nat,
        ),
        loc == capped(
            lines_of_all(
                node@.children.skip(from as int),
                (node@.children.len() - from) as nat,
            ),
        ),
    decreases node, 1nat,
{
    proof {
        lemma_children(*node);
    }
    let ghost trees = node@.children;
    let ghost rest = trees.skip(from as int);
    let mut loc: usize = 0;
    let mut i: usize = from;
    while i < node.children.len()
        invariant
            from <= i <= node.children@.len(),
            trees == node@.children,
            trees.len() == node.children@.len(),
            rest == trees.skip(from as int),
            well_formed_all(trees, trees.len()),
            forall|j: int| 0 <= j < trees.len() ==> (#[trigger] trees[j]) == node.children@[j]@,
            views(stack@) == views(old(stack)@) + tokens_of_all(rest, (i - from) as nat),
            loc == capped(lines_of_all(rest, (i - from) as nat)),
        decreases node.children@.len() - i,
    {
        proof {
            lemma_well_formed_each(trees, trees.len(), i as int);
        }
        let more = lcore_parse(&node.children[i], stack);
        loc = add_capped(loc, more);
        i += 1;
    }
    loc
}

/// Each of some well-formed nodes is well formed.
proof fn lemma_well_formed_each(nodes: Seq<NodeView>, n: nat, i: int)
    requires
        well_formed_all(nodes, n),
        n <= nodes.len(),
        0 <= i < n,
    ensures
        well_formed(nodes[i]),
    decreases n,
{
    if i < n - 1 {
        lemma_well_formed_each(nodes, (n - 1) as nat, i);
    }
}

/// Turns a parse tree into tokens: appends the tokens that `node` stands
/// for to `stack`, and returns the number of line ends in it. The tokens
/// hold no dictionary, so a well-keyed stack stays well keyed.
pub fn lcore_parse(node: &Node, stack: &mut Vec<Value>) -> (loc: usize)
    requires
        well_formed(node@),
    ensures
        views(final(stack)@) == views(old(stack)@) + tokens_of(node@),
        loc == capped(lines_of(node@)),
        all_well_keyed(views(old(stack)@)) ==> all_well_keyed(views(final(stack)@)),
    decreases node, 3nat,
{
    let loc = parse_node(node, stack);
    proof {
        lemma_tokens_well_keyed(node@);
        let a = views(old(stack)@);
        let b = tokens_of(node@);
        if all_well_keyed(a) {
            assert forall|i: int| 0 <= i < (a + b).len() implies well_keyed(
                #[trigger] (a + b)[i],
            ) by {
                if i < a.len() {
                    assert((a + b)[i] == a[i]);
                } else {
                    assert((a + b)[i] == b[i - a.len()]);
                }
            }
        }
    }
    loc
}

/// Appends the tokens that `node` stands for to `stack`, and returns the
/// number of line ends in it.
fn parse_node(node: &Node, stack: &mut Vec<Value>) -> (loc: usize)
    requires
        well_formed(node@),
    ensures
        views(final(stack)@) == views(old(stack)@) + tokens_of(node@),
        loc == capped(lines_of(node@)),
    decreases node, 2nat,
{
    proof {
        lemma_children(*node);
    }
    let ghost trees = node@.children;
    assert(trees.skip(0) =~= trees);
    match node.rule {
        Rule::Program => parse_all(node, 0, stack),
        Rule::Function => {
            push_value(stack, Value::OpenFunc);
            if node.children.len() == 0 {
                push_value(stack, Value::CloseFunc);
                return 0;
            }
            let name = Value::Identifier(node.children[0].text.clone());
            push_value(stack, name);
            let loc = parse_all(node, 1, stack);
            push_value(stack, Value::CloseFunc);
            loc
        },
        Rule::Array => {
            let mut inner: Vec<Value> = Vec::new();
            let loc = parse_all(node, 0, &mut inner);
            let array = Value::Array(inner);
            push_value(stack, array);
            loc
        },
        Rule::Number => {
            let value = if contains_point(node.text.as_str()) {
                Value::Float(node.bits)
            } else {
                match parse_int(node.text.as_str()) {
                    Some(i) => Value::Int(i),
                    None => {
                        return 0;
                    },
                }
            };
            push_value(stack, value);
            0
        },
        Rule::Quote => {
            let mut inner: Vec<Value> = Vec::new();
            let loc = parse_all(node, 0, &mut inner);
            let only = inner.pop().unwrap();
            let quote = Value::Quote(Box::new(only));
            push_value(stack, quote);
            loc
        },
        Rule::String => {
            let text = node.text.as_str();
            let n = text.unicode_len();
            let value = Value::String(String::from_str(text.substring_char(1, n - 1)));
            push_value(stack, value);
            0
        },
        Rule::BackTick => {
            push_value(stack, Value::BackTick);
            0
        },
        Rule::Comma => {
            push_value(stack, Value::Comma);
            0
        },
        Rule::Identifier => {
            let value = Value::Identifier(node.text.clone());
            push_value(stack, value);
            0
        },
        Rule::Boolean => {
            match parse_bool(node.text.as_str()) {
                Some(b) => {
                    push_value(stack, Value::Boolean(b));
                },
                None => {},
            }
            0
        },
        Rule::Null => {
            push_value(stack, Value::Null);
            0
        },
        Rule::NewLine => {
            1
        },
        _ => {
            0
        },
    }
}

/// The number of tokens of the nodes inside `node`.
fn count_all(node: &Node) -> (n: usize)
    ensures
        n == capped(tokens_of_all(node@.children, node@.children.len()).len()),
    decreases node, 1nat,
{
    proof {
        lemma_children(*node);
    }
    let ghost trees = node@.children;
    let mut n: usize = 0;
    let mut i: usize = 0;
    while i < node.children.len()
        invariant
            i <= node.children@.len(),
            trees == node@.children,
            trees.len() == node.children@.len(),
            forall|j: int| 0 <= j < trees.len() ==> (#[trigger] trees[j]) == node.children@[j]@,
            n == capped(tokens_of_all(trees, i as nat).len()),
        decreases node.children@.len() - i,
    {
        let more = count_tokens(&node.children[i]);
        n = add_capped(n, more);
        i += 1;
    }
    n
}

/// The number of tokens that `node` stands for.
pub fn count_tokens(node: &Node) -> (n: usize)
    ensures
        n == capped(tokens_of(node@).len()),
    decreases node, 2nat,
{
    proof {
        lemma_children(*node);
    }
    let ghost trees = node@.children;
    match node.rule {
        Rule::Program => count_all(node),
        Rule::Function => {
            if node.children.len() == 0 {
                return 2;
            }
            let ghost rest = trees.skip(1);
            let mut n: usize = 0;
            let mut i: usize = 1;
            while i < node.children.len()
                invariant
                    1 <= i <= node.children@.len(),
                    trees == node@.children,
                    rest == trees.skip(1),
                    trees.len() == node.children@.len(),
                    forall|j: int|
                        0 <= j < trees.len() ==> (#[trigger] trees[j]) == node.children@[j]@,
                    n == capped(tokens_of_all(rest, (i - 1) as nat).len()),
                decreases node.children@.len() - i,
            {
                let more = count_tokens(&node.children[i]);
                n = add_capped(n, more);
                i += 1;
            }
            add_capped(n, 3)
        },
        Rule::Array => 1,
        Rule::Number => {
            if contains_point(node.text.as_str()) {
                1
            } else {
                match parse_int(node.text.as_str()) {
                    Some(_) => 1,
                    None => 0,
                }
            }
        },
        Rule::Quote => {
            if count_all(node) == 1 {
                1
            } else {
                0
            }
        },
        Rule::String => {
            if node.text.as_str().unicode_len() >= 2 {
                1
            } else {
                0
            }
        },
        Rule::BackTick => 1,
        Rule::Comma => 1,
        Rule::Identifier => 1,
        Rule::Boolean => match parse_bool(node.text.as_str()) {
            Some(_) => 1,
            None => 0,
        },
        Rule::Null => 1,
        _ => 0,
    }
}

/// Whether the tree of `node` is well formed, so that `lcore_parse` takes
/// it.
pub fn check_tree(node: &Node) -> (ok: bool)
    ensures
        ok == well_formed(node@),
    decreases node,
{
    proof {
        lemma_children(*node);
    }
    let ghost trees = node@.children;
    let mut i: usize = 0;
    while i < node.children.len()
        invariant
            i <= node.children@.len(),
            trees == node@.children,
            trees.len() == node.children@.len(),
            forall|j: int| 0 <= j < trees.len() ==> (#[trigger] trees[j]) == node.children@[j]@,
            well_formed_all(trees, i as nat),
        decreases node.children@.len() - i,
    {
        if !check_tree(&node.children[i]) {
            proof {
                lemma_ill_formed(trees, (i + 1) as nat, trees.len());
            }
            return false;
        }
        i += 1;
    }
    match node.rule {
        Rule::Number => contains_point(node.text.as_str()) || parse_int(
            node.text.as_str(),
        ).is_some(),
        Rule::Quote => count_all(node) == 1,
        Rule::String => node.text.as_str().unicode_len() >= 2,
        Rule::Boolean => parse_bool(node.text.as_str()).is_some(),
        _ => true,
    }
}

/// Where the first nodes are not all well formed, no more of them are.
proof fn lemma_ill_formed(nodes: Seq<NodeView>, n: nat, more: nat)
    requires
        n <= more <= nodes.len(),
        !well_formed_all(nodes, n),
    ensures
        !well_formed_all(nodes, more),
    decreases more,
{
    if n < more {
        lemma_ill_formed(nodes, n, (more - 1) as nat);
    }
}

/// The number of line feeds among some bytes.
pub open spec fn newlines(bytes: Seq<u8>) -> nat
    decreases bytes.len(),
{
    if bytes.len() == 0 {
        0
    } else {
        newlines(bytes.drop_last()) + if bytes.last() == 10u8 {
            1nat
        } else {
            0nat
        }
    }
}

/// There are no more line feeds than bytes.
proof fn lemma_newlines_bound(bytes: Seq<u8>)
    ensures
        newlines(bytes) <= bytes.len(),
    decreases bytes.len(),
{
    if bytes.len() > 0 {
        lemma_newlines_bound(bytes.drop_last());
    }
}

/// The number of line feeds in `s`, taken as bytes of UTF-8.
pub fn count_newlines(s: &str) -> (n: usize)
    ensures
        n == newlines(encode_utf8(s@)),
{
    let bytes = s.as_bytes();
    let mut n: usize = 0;
    let mut i: usize = 0;
    while i < bytes.len()
        invariant
            i <= bytes@.len(),
            n == newlines(bytes@.take(i as int)),
            n <= i,
        decreases bytes@.len() - i,
    {
        assert(bytes@.take(i + 1).drop_last() =~= bytes@.take(i as int));
        if bytes[i] == 10u8 {
            n += 1;
        }
        i += 1;
    }
    assert(bytes@.take(i as int) =~= bytes@);
    n
}

} // verus!
