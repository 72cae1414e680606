//! Evaluating syntax trees against a table of built-in operations.
use vstd::prelude::*;

use crate::parse::{
    at, lemma_syntax_seq, offset_of, parse, spec_parse, syntax_seq, Node, ParseError, Syntax,
};
use crate::text::push_char;

verus! {

/// Why evaluation failed; `at` is the byte offset of the node at fault.
#[derive(Debug, PartialEq, Eq)]
pub enum EvalError {
    /// The first element of a form is not an identifier.
    IdentifierExpected { at: usize },
    /// A node that is neither a form nor a literal stands where a value is needed.
    FormOrValueExpected { at: usize },
    /// A built-in needed an integer and the argument gave a string.
    NotAnInteger { at: usize },
    /// No built-in has the name `name`.
    UnknownFunction { at: usize, name: String },
    /// The text could not be parsed.
    ParseError { err: ParseError },
    /// A form has no elements, so nothing names an operation.
    EmptyForm,
}

/// The value of an evaluated node.
#[derive(Debug, PartialEq, Eq)]
pub enum EvalValue {
    Integer(i64),
    String(String),
}

/// The mathematical form of an [`EvalValue`].
pub enum Value {
    Integer(i64),
    String(Seq<char>),
}

/// The mathematical form of an [`EvalError`].
pub enum Fault {
    IdentifierExpected { at: nat },
    FormOrValueExpected { at: nat },
    NotAnInteger { at: nat },
    UnknownFunction { at: nat, name: Seq<char> },
    ParseError { err: ParseError },
    EmptyForm,
}

impl View for EvalValue {
    type V = Value;

    open spec fn view(&self) -> Value {
        match self {
            EvalValue::Integer(v) => Value::Integer(*v),
            EvalValue::String(t) => Value::String(t@),
        }
    }
}

impl View for EvalError {
    type V = Fault;

    open spec fn view(&self) -> Fault {
        match self {
            EvalError::IdentifierExpected { at } => Fault::IdentifierExpected { at: *at as nat },
            EvalError::FormOrValueExpected { at } => Fault::FormOrValueExpected { at: *at as nat },
            EvalError::NotAnInteger { at } => Fault::NotAnInteger { at: *at as nat },
            EvalError::UnknownFunction { at, name } => Fault::UnknownFunction {
                at: *at as nat,
                name: name@,
            },
            EvalError::ParseError { err } => Fault::ParseError { err: *err },
            EvalError::EmptyForm => Fault::EmptyForm,
        }
    }
}

/// The mathematical form of an evaluation result.
pub open spec fn evaluated(r: Result<EvalValue, EvalError>) -> Result<Value, Fault> {
    match r {
        Ok(v) => Ok(v@),
        Err(e) => Err(e@),
    }
}

/// The decimal digit for `d`, below ten.
pub open spec fn spec_digit(d: int) -> char {
    seq!['0', '1', '2', '3', '4', '5', '6', '7', '8', '9'][d]
}

/// The decimal digits of `n`, most significant first, without leading zeros.
pub open spec fn digits_of(n: nat) -> Seq<char>
    decreases n,
{
    if n < 10 {
        seq![spec_digit(n as int)]
    } else {
        digits_of(n / 10).push(spec_digit((n % 10) as int))
    }
}

/// The decimal text of `v`, with a `-` in front when it is negative.
pub open spec fn decimal(v: int) -> Seq<char> {
    if v < 0 {
        seq!['-'] + digits_of((-v) as nat)
    } else {
        digits_of(v as nat)
    }
}

/// The decimal digit for `d`.
fn digit_char(d: u64) -> (c: char)
    requires
        d < 10,
    ensures
        c == spec_digit(d as int),
{
    match d {
        0 => '0',
        1 => '1',
        2 => '2',
        3 => '3',
        4 => '4',
        5 => '5',
        6 => '6',
        7 => '7',
        8 => '8',
        _ => '9',
    }
}

/// Appends the decimal digits of `n` to `s`.
fn push_digits(s: &mut String, n: u64)
    ensures
        final(s)@ == old(s)@ + digits_of(n as nat),
    decreases n,
{
    if n >= 10 {
        push_digits(s, n / 10);
    }
    push_char(s, digit_char(n % 10));
    proof {
        if n >= 10 {
            assert(old(s)@ + digits_of((n / 10) as nat) + seq![spec_digit((n % 10) as int)] =~= old(
                s,
            )@ + digits_of(n as nat));
        } else {
            assert(old(s)@.push(spec_digit((n % 10) as int)) =~= old(s)@ + digits_of(n as nat));
        }
    }
}

/// The decimal text of `v`.
fn decimal_text(v: i64) -> (r: String)
    ensures
        r@ == decimal(v as int),
{
    let mut r = String::new();
    if v < 0 {
        push_char(&mut r, '-');
        push_digits(&mut r, (0 - v as i128) as u64);
    } else {
        push_digits(&mut r, v as u64);
    }
    proof {
        if v < 0 {
            assert(r@ =~= decimal(v as int));
        } else {
            assert(r@ =~= decimal(v as int));
        }
    }
    r
}

/// The built-in operations.
#[derive(Debug, Clone, Copy, PartialEq, Eq)]
pub enum Builtin {
    /// `+`: the wrapping sum of the integer arguments; zero with none.
    Add,
    /// `-`: the first integer argument less the others, wrapping; zero with none.
    Subtract,
    /// `str`: the arguments' texts joined, integers written in decimal.
    Str,
}

/// The built-in named `name` in `entries`, by the first entry with that name.
pub open spec fn lookup(entries: Seq<(String, Builtin)>, name: Seq<char>) -> Option<Builtin>
    decreases entries.len(),
{
    if entries.len() == 0 {
        None
    } else if entries[0].0@ == name {
        Some(entries[0].1)
    } else {
        lookup(entries.subrange(1, entries.len() as int), name)
    }
}

/// The table of functions that evaluation resolves names against.
pub struct State {
    fns: Vec<(String, Builtin)>,
}

impl View for State {
    type V = Map<Seq<char>, Builtin>;

    /// The table as a map from names to built-ins.
    closed spec fn view(&self) -> Map<Seq<char>, Builtin> {
        Map::new(|k: Seq<char>| lookup(self.fns@, k) is Some, |k: Seq<char>| lookup(self.fns@, k)->0)
    }
}

impl State {
    /// The built-in named `name`, if the table has one.
    fn get(&self, name: &String) -> (r: Option<Builtin>)
        ensures
            r == (if self@.contains_key(name@) {
                Some(self@[name@])
            } else {
                None
            }),
    {
        let mut k: usize = 0;
        assert(self.fns@.subrange(0, self.fns@.len() as int) =~= self.fns@);
        while k < self.fns.len()
            invariant
                k <= self.fns@.len(),
                lookup(self.fns@.subrange(k as int, self.fns@.len() as int), name@) == lookup(
                    self.fns@,
                    name@,
                ),
            decreases self.fns.len() - k,
        {
            proof {
                assert(self.fns@.subrange(k as int, self.fns@.len() as int).subrange(
                    1,
                    self.fns@.len() - k,
                ) =~= self.fns@.subrange(k + 1, self.fns@.len() as int));
            }
            if self.fns[k].0 == *name {
                return Some(self.fns[k].1);
            }
            k = k + 1;
        }
        None
    }
}

/// The table that evaluation starts from: `+`, `-` and `str`.
pub open spec fn builtins() -> Map<Seq<char>, Builtin> {
    map![seq!['+'] => Builtin::Add, seq!['-'] => Builtin::Subtract, seq!['s', 't', 'r'] => Builtin::Str]
}

/// Builds the table of built-ins.
fn initial_state() -> (r: State)
    ensures
        r@ == builtins(),
{
    let mut fns: Vec<(String, Builtin)> = Vec::new();
    let plus = String::from_str("+");
    let minus = String::from_str("-");
    let join = String::from_str("str");
    proof {
        reveal_strlit("+");
        reveal_strlit("-");
        reveal_strlit("str");
    }
    fns.push((plus, Builtin::Add));
    fns.push((minus, Builtin::Subtract));
    fns.push((join, Builtin::Str));
    let r = State { fns };
    proof {
        let e = r.fns@;
        assert(e[0].0@ =~= seq!['+']);
        assert(e[1].0@ =~= seq!['-']);
        assert(e[2].0@ =~= seq!['s', 't', 'r']);
        let e1 = e.subrange(1, 3);
        let e2 = e1.subrange(1, 2);
        let e3 = e2.subrange(1, 1);
        assert(e1[0] == e[1] && e1[1] == e[2]);
        assert(e2[0] == e[2]);
        assert(e3.len() == 0);
        assert forall|k: Seq<char>| #[trigger] lookup(e, k) == (if k == seq!['+'] {
            Some(Builtin::Add)
        } else if k == seq!['-'] {
            Some(Builtin::Subtract)
        } else if k == seq!['s', 't', 'r'] {
            Some(Builtin::Str)
        } else {
            None::<Builtin>
        }) by {
            reveal_with_fuel(lookup, 4);
        }
        assert(seq!['+'] != seq!['-'] && seq!['+'] != seq!['s', 't', 'r'] && seq!['-'] != seq![
            's',
            't',
            'r',
        ]) by {
            assert(seq!['+'][0] != seq!['-'][0]);
        }
        assert(r@.dom() =~= builtins().dom());
        assert(r@ =~= builtins());
    }
    r
}

/// The value of node `n`, with names resolved in `table`.
pub open spec fn spec_run(n: Syntax, table: Map<Seq<char>, Builtin>) -> Result<Value, Fault>
    decreases n, 0int,
{
    match n {
        Syntax::Form { elements, .. } => spec_call(elements, table),
        Syntax::Integer { value, .. } => Ok(Value::Integer(value)),
        Syntax::String { text, .. } => Ok(Value::String(text)),
        Syntax::Identifier { at, .. } => Err(Fault::FormOrValueExpected { at }),
    }
}

/// The value of a form with elements `es`: the first names a built-in, which is applied to the
/// others.
pub open spec fn spec_call(es: Seq<Syntax>, table: Map<Seq<char>, Builtin>) -> Result<Value, Fault>
    decreases es, 0int,
{
    if es.len() == 0 {
        Err(Fault::EmptyForm)
    } else {
        let args = es.subrange(1, es.len() as int);
        match es[0] {
            Syntax::Identifier { text, at } => if table.contains_key(text) {
                match table[text] {
                    Builtin::Add => spec_sum(args, 0, table),
                    Builtin::Subtract => spec_difference(args, table),
                    Builtin::Str => spec_concat(args, seq![], table),
                }
            } else {
                Err(Fault::UnknownFunction { at, name: text })
            },
            other => Err(Fault::IdentifierExpected { at: offset_of(other) }),
        }
    }
}

/// The integer value of argument `n`, or why it has none.
pub open spec fn spec_integer(n: Syntax, table: Map<Seq<char>, Builtin>) -> Result<i64, Fault>
    decreases n, 1int,
{
    match spec_run(n, table) {
        Ok(Value::Integer(v)) => Ok(v),
        Ok(Value::String(_)) => Err(Fault::NotAnInteger { at: offset_of(n) }),
        Err(e) => Err(e),
    }
}

/// `acc` plus the arguments `args`, left to right, wrapping on overflow.
pub open spec fn spec_sum(args: Seq<Syntax>, acc: i64, table: Map<Seq<char>, Builtin>) -> Result<
    Value,
    Fault,
>
    decreases args, 0int,
{
    if args.len() == 0 {
        Ok(Value::Integer(acc))
    } else {
        match spec_integer(args[0], table) {
            Ok(v) => spec_sum(args.subrange(1, args.len() as int), acc.wrapping_add(v), table),
            Err(e) => Err(e),
        }
    }
}

/// `acc` less the arguments `args`, left to right, wrapping on overflow.
pub open spec fn spec_subtract(args: Seq<Syntax>, acc: i64, table: Map<Seq<char>, Builtin>) -> Result<
    Value,
    Fault,
>
    decreases args, 0int,
{
    if args.len() == 0 {
        Ok(Value::Integer(acc))
    } else {
        match spec_integer(args[0], table) {
            Ok(v) => spec_subtract(args.subrange(1, args.len() as int), acc.wrapping_sub(v), table),
            Err(e) => Err(e),
        }
    }
}

/// The first argument less the others; zero without arguments.
pub open spec fn spec_difference(args: Seq<Syntax>, table: Map<Seq<char>, Builtin>) -> Result<
    Value,
    Fault,
>
    decreases args, 0int,
{
    if args.len() == 0 {
        Ok(Value::Integer(0))
    } else {
        match spec_integer(args[0], table) {
            Ok(v) => spec_subtract(args.subrange(1, args.len() as int), v, table),
            Err(e) => Err(e),
        }
    }
}

/// `acc` followed by the texts of the arguments `args`, integers in decimal.
pub open spec fn spec_concat(args: Seq<Syntax>, acc: Seq<char>, table: Map<Seq<char>, Builtin>) -> Result<
    Value,
    Fault,
>
    decreases args, 0int,
{
    if args.len() == 0 {
        Ok(Value::String(acc))
    } else {
        match spec_run(args[0], table) {
            Ok(Value::Integer(v)) => spec_concat(
                args.subrange(1, args.len() as int),
                acc + decimal(v as int),
                table,
            ),
            Ok(Value::String(t)) => spec_concat(args.subrange(1, args.len() as int), acc + t, table),
            Err(e) => Err(e),
        }
    }
}

/// Evaluates the top-level nodes `nodes` in order and gives the value of the last, or `last`
/// when there are none; the first failure ends the evaluation.
pub open spec fn spec_program(nodes: Seq<Syntax>, last: Value, table: Map<Seq<char>, Builtin>) -> Result<
    Value,
    Fault,
>
    decreases nodes.len(),
{
    if nodes.len() == 0 {
        Ok(last)
    } else {
        match spec_run(nodes[0], table) {
            Ok(v) => spec_program(nodes.subrange(1, nodes.len() as int), v, table),
            Err(e) => Err(e),
        }
    }
}

/// The value of the program `s`: that of its last top-level node, zero for an empty one.
pub open spec fn spec_eval(s: Seq<char>) -> Result<Value, Fault> {
    match spec_parse(s) {
        Ok(nodes) => spec_program(nodes, Value::Integer(0), builtins()),
        Err(e) => Err(Fault::ParseError { err: e }),
    }
}

/// Evaluates `node`.
fn run(node: &Node, state: &State) -> (r: Result<EvalValue, EvalError>)
    ensures
        evaluated(r) == spec_run(node@, state@),
    decreases node, 0int,
{
    match node {
        Node::Form { payload, .. } => call(payload, state),
        Node::Integer { payload, .. } => Ok(EvalValue::Integer(*payload)),
        Node::String { payload, .. } => Ok(EvalValue::String(payload.clone())),
        Node::Identifier { at, .. } => Err(EvalError::FormOrValueExpected { at: *at }),
    }
}

/// Evaluates the form whose elements are `nodes`.
fn call(nodes: &Vec<Node>, state: &State) -> (r: Result<EvalValue, EvalError>)
    ensures
        evaluated(r) == spec_call(syntax_seq(nodes@), state@),
    decreases nodes, 1int,
{
    proof {
        lemma_syntax_seq(nodes@);
    }
    if nodes.len() == 0 {
        return Err(EvalError::EmptyForm);
    }
    let oper = &nodes[0];
    match oper {
        Node::Identifier { payload, at } => match state.get(payload) {
            Some(Builtin::Add) => fn_add(nodes, state),
            Some(Builtin::Subtract) => fn_subtract(nodes, state),
            Some(Builtin::Str) => fn_str(nodes, state),
            None => Err(EvalError::UnknownFunction { at: *at, name: payload.clone() }),
        },
        _ => Err(EvalError::IdentifierExpected { at: at(oper) }),
    }
}

/// The integer value of `node`.
fn integer_arg(node: &Node, state: &State) -> (r: Result<i64, EvalError>)
    ensures
        match r {
            Ok(v) => spec_integer(node@, state@) == Ok::<i64, Fault>(v),
            Err(e) => spec_integer(node@, state@) == Err::<i64, Fault>(e@),
        },
    decreases node, 1int,
{
    match run(node, state) {
        Ok(EvalValue::Integer(m)) => Ok(m),
        Ok(EvalValue::String(_)) => Err(EvalError::NotAnInteger { at: at(node) }),
        Err(e) => Err(e),
    }
}

/// Applies `+` to the elements of `nodes` after the first.
fn fn_add(nodes: &Vec<Node>, state: &State) -> (r: Result<EvalValue, EvalError>)
    requires
        nodes.len() > 0,
    ensures
        evaluated(r) == spec_sum(syntax_seq(nodes@).subrange(1, nodes.len() as int), 0, state@),
    decreases nodes, 0int,
{
    let ghost es = syntax_seq(nodes@);
    proof {
        lemma_syntax_seq(nodes@);
    }
    let mut n: i64 = 0;
    let mut k: usize = 1;
    while k < nodes.len()
        invariant
            1 <= k <= nodes.len(),
            es == syntax_seq(nodes@),
            es.len() == nodes.len(),
            forall|m: int| 0 <= m < nodes.len() ==> #[trigger] es[m] == nodes@[m]@,
            spec_sum(es.subrange(k as int, es.len() as int), n, state@) == spec_sum(
                es.subrange(1, es.len() as int),
                0,
                state@,
            ),
        decreases nodes.len() - k,
    {
        proof {
            assert(es.subrange(k as int, es.len() as int).subrange(1, es.len() - k) =~= es.subrange(
                k + 1,
                es.len() as int,
            ));
        }
        match integer_arg(&nodes[k], state) {
            Ok(m) => {
                n = n.wrapping_add(m);
            },
            Err(e) => {
                return Err(e);
            },
        }
        k = k + 1;
    }
    Ok(EvalValue::Integer(n))
}

/// Applies `-` to the elements of `nodes` after the first.
fn fn_subtract(nodes: &Vec<Node>, state: &State) -> (r: Result<EvalValue, EvalError>)
    requires
        nodes.len() > 0,
    ensures
        evaluated(r) == spec_difference(
            syntax_seq(nodes@).subrange(1, nodes.len() as int),
            state@,
        ),
    decreases nodes, 0int,
{
    let ghost es = syntax_seq(nodes@);
    proof {
        lemma_syntax_seq(nodes@);
    }
    if nodes.len() == 1 {
        return Ok(EvalValue::Integer(0));
    }
    proof {
        assert(es.subrange(1, es.len() as int).subrange(1, es.len() - 1) =~= es.subrange(
            2,
            es.len() as int,
        ));
    }
    let mut n = match integer_arg(&nodes[1], state) {
        Ok(m) => m,
        Err(e) => {
            return Err(e);
        },
    };
    let mut k: usize = 2;
    while k < nodes.len()
        invariant
            2 <= k <= nodes.len(),
            es == syntax_seq(nodes@),
            es.len() == nodes.len(),
            forall|m: int| 0 <= m < nodes.len() ==> #[trigger] es[m] == nodes@[m]@,
            spec_subtract(es.subrange(k as int, es.len() as int), n, state@) == spec_difference(
                es.subrange(1, es.len() as int),
                state@,
            ),
        decreases nodes.len() - k,
    {
        proof {
            assert(es.subrange(k as int, es.len() as int).subrange(1, es.len() - k) =~= es.subrange(
                k + 1,
                es.len() as int,
            ));
        }
        match integer_arg(&nodes[k], state) {
            Ok(m) => {
                n = n.wrapping_sub(m);
            },
            Err(e) => {
                return Err(e);
            },
        }
        k = k + 1;
    }
    Ok(EvalValue::Integer(n))
}

/// Applies `str` to the elements of `nodes` after the first.
fn fn_str(nodes: &Vec<Node>, state: &State) -> (r: Result<EvalValue, EvalError>)
    requires
        nodes.len() > 0,
    ensures
        evaluated(r) == spec_concat(
            syntax_seq(nodes@).subrange(1, nodes.len() as int),
            seq![],
            state@,
        ),
    decreases nodes, 0int,
{
    let ghost es = syntax_seq(nodes@);
    proof {
        lemma_syntax_seq(nodes@);
    }
    let mut r = String::new();
    let mut k: usize = 1;
    while k < nodes.len()
        invariant
            1 <= k <= nodes.len(),
            es == syntax_seq(nodes@),
            es.len() == nodes.len(),
            forall|m: int| 0 <= m < nodes.len() ==> #[trigger] es[m] == nodes@[m]@,
            spec_concat(es.subrange(k as int, es.len() as int), r@, state@) == spec_concat(
                es.subrange(1, es.len() as int),
                seq![],
                state@,
            ),
        decreases nodes.len() - k,
    {
        proof {
            assert(es.subrange(k as int, es.len() as int).subrange(1, es.len() - k) =~= es.subrange(
                k + 1,
                es.len() as int,
            ));
        }
        match run(&nodes[k], state) {
            Ok(EvalValue::Integer(v)) => {
                let t = decimal_text(v);
                r.append(t.as_str());
            },
            Ok(EvalValue::String(t)) => {
                r.append(t.as_str());
            },
            Err(e) => {
                return Err(e);
            },
        }
        k = k + 1;
    }
    Ok(EvalValue::String(r))
}

/// Parses and evaluates `input`, giving the value of its last top-level node; zero when it
/// has none.
pub fn eval(input: &str) -> (r: Result<EvalValue, EvalError>)
    ensures
        evaluated(r) == spec_eval(input@),
{
    let state = initial_state();
    let nodes = match parse(input) {
        Ok(x) => x,
        Err(err) => {
            return Err(EvalError::ParseError { err });
        },
    };
    let ghost es = syntax_seq(nodes@);
    proof {
        lemma_syntax_seq(nodes@);
        assert(es.subrange(0, es.len() as int) =~= es);
    }
    let mut result = EvalValue::Integer(0);
    let mut k: usize = 0;
    while k < nodes.len()
        invariant
            k <= nodes.len(),
            es == syntax_seq(nodes@),
            es.len() == nodes.len(),
            forall|m: int| 0 <= m < nodes.len() ==> #[trigger] es[m] == nodes@[m]@,
            state@ == builtins(),
            spec_parse(input@) == Ok::<Seq<Syntax>, ParseError>(es),
            spec_program(es.subrange(k as int, es.len() as int), result@, builtins()) == spec_program(
                es,
                Value::Integer(0),
                builtins(),
            ),
        decreases nodes.len() - k,
    {
        proof {
            assert(es.subrange(k as int, es.len() as int).subrange(1, es.len() - k) =~= es.subrange(
                k + 1,
                es.len() as int,
            ));
        }
        match run(&nodes[k], &state) {
            Ok(v) => {
                result = v;
            },
            Err(e) => {
                return Err(e);
            },
        }
        k = k + 1;
    }
    Ok(result)
}

/// A sum stops at the first argument, from the left, that gives no integer.
proof fn lemma_sum_stops(args: Seq<Syntax>, k: int, acc: i64, table: Map<Seq<char>, Builtin>)
    requires
        0 <= k < args.len(),
        forall|m: int| 0 <= m < k ==> #[trigger] spec_integer(args[m], table) is Ok,
        spec_integer(args[k], table) is Err,
    ensures
        spec_integer(args[k], table) matches Err(e) ==> spec_sum(args, acc, table) == Err::<
            Value,
            Fault,
        >(e),
    decreases k,
{
    if k > 0 {
        let rest = args.subrange(1, args.len() as int);
        assert forall|m: int| 0 <= m < k - 1 implies #[trigger] spec_integer(rest[m], table) is Ok by {
            assert(rest[m] == args[m + 1]);
        }
        assert(rest[k - 1] == args[k]);
        assert(spec_integer(args[0], table) is Ok);
        lemma_sum_stops(rest, k - 1, acc.wrapping_add(spec_integer(args[0], table)->Ok_0), table);
    }
}

/// A subtraction stops at the first argument, from the left, that gives no integer.
proof fn lemma_subtract_stops(args: Seq<Syntax>, k: int, acc: i64, table: Map<Seq<char>, Builtin>)
    requires
        0 <= k < args.len(),
        forall|m: int| 0 <= m < k ==> #[trigger] spec_integer(args[m], table) is Ok,
        spec_integer(args[k], table) is Err,
    ensures
        spec_integer(args[k], table) matches Err(e) ==> spec_subtract(args, acc, table) == Err::<
            Value,
            Fault,
        >(e),
    decreases k,
{
    if k > 0 {
        let rest = args.subrange(1, args.len() as int);
        assert forall|m: int| 0 <= m < k - 1 implies #[trigger] spec_integer(rest[m], table) is Ok by {
            assert(rest[m] == args[m + 1]);
        }
        assert(rest[k - 1] == args[k]);
        assert(spec_integer(args[0], table) is Ok);
        lemma_subtract_stops(rest, k - 1, acc.wrapping_sub(spec_integer(args[0], table)->Ok_0), table);
    }
}

/// Arguments are evaluated from left to right, and the first that gives no integer decides:
/// in a form `(+ ...)` or `(- ...)` whose arguments before element `k` give integers and whose
/// element `k` does not, the form fails exactly as element `k` does (a string there gives
/// `NotAnInteger` at its offset), whatever follows it.
pub proof fn lemma_first_failure_decides(es: Seq<Syntax>, k: int, table: Map<Seq<char>, Builtin>)
    requires
        1 <= k < es.len(),
        es[0] matches Syntax::Identifier { text, .. } && table.contains_key(text) && (table[text]
            == Builtin::Add || table[text] == Builtin::Subtract),
        forall|m: int| 1 <= m < k ==> #[trigger] spec_integer(es[m], table) is Ok,
        spec_integer(es[k], table) is Err,
    ensures
        spec_integer(es[k], table) matches Err(e) ==> spec_call(es, table) == Err::<Value, Fault>(e),
        spec_run(es[k], table) matches Ok(Value::String(_)) ==> spec_call(es, table) == Err::<
            Value,
            Fault,
        >(Fault::NotAnInteger { at: offset_of(es[k]) }),
{
    let args = es.subrange(1, es.len() as int);
    assert forall|m: int| 0 <= m < k - 1 implies #[trigger] spec_integer(args[m], table) is Ok by {
        assert(args[m] == es[m + 1]);
    }
    assert(args[k - 1] == es[k]);
    lemma_sum_stops(args, k - 1, 0, table);
    if k > 1 {
        let rest = args.subrange(1, args.len() as int);
        assert forall|m: int| 0 <= m < k - 2 implies #[trigger] spec_integer(rest[m], table) is Ok by {
            assert(rest[m] == args[m + 1]);
        }
        assert(rest[k - 2] == args[k - 1]);
        assert(spec_integer(args[0], table) is Ok);
        lemma_subtract_stops(rest, k - 2, spec_integer(args[0], table)->Ok_0, table);
    }
}

} // verus!
