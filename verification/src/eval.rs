use vstd::prelude::*;
use crate::ast::{
    Expr, Stmt, Expression, Statement, Identifier, Program, names_model, stmts_model,
    lemma_stmts_model, lemma_exprs_model, duplicate_statements, exprs_model,
};
use crate::object::{
    Object, Value, value_of, texts_model, objects_model, lemma_objects_model_push, print_line, render,
    render_object,
};
use crate::text::str_eq;

verus! {

/// Bindings of names to values.
pub type Bindings = Map<Seq<char>, Value>;

/// What evaluation carries from one step to the next besides the
/// variables: the functions defined so far and the lines printed so far.
pub struct Store {
    pub functions: Bindings,
    pub output: Seq<Seq<char>>,
}

impl Store {
    /// No function defined, nothing printed.
    pub open spec fn empty() -> Store {
        Store { functions: Map::empty(), output: Seq::empty() }
    }

    /// The store after defining the function `f` under `name`.
    pub open spec fn define(self, name: Seq<char>, f: Value) -> Store {
        Store { functions: self.functions.insert(name, f), output: self.output }
    }

    /// The store after printing `line`.
    pub open spec fn with_line(self, line: Seq<char>) -> Store {
        Store { functions: self.functions, output: self.output.push(line) }
    }
}

/// The bindings that a list of entries stands for; a later entry for a name
/// overrides an earlier one.
pub open spec fn entries_map(s: Seq<(String, Object)>) -> Bindings
    decreases s.len(),
{
    if s.len() == 0 {
        Map::empty()
    } else {
        entries_map(s.drop_last()).insert(s.last().0@, value_of(s.last().1))
    }
}

/// No name occurs twice among the entries.
pub open spec fn distinct_names(s: Seq<(String, Object)>) -> bool {
    forall|i: int, j: int| 0 <= i < j < s.len() ==> (#[trigger] s[i]).0@ != (#[trigger] s[j]).0@
}

proof fn lemma_entries_map(s: Seq<(String, Object)>)
    requires
        distinct_names(s),
    ensures
        forall|k: Seq<char>| #[trigger] entries_map(s).contains_key(k) <==> exists|i: int| 0 <= i < s.len() && s[i].0@ == k,
        forall|i: int| 0 <= i < s.len() ==> #[trigger] entries_map(s)[s[i].0@] == value_of(s[i].1),
    decreases s.len(),
{
    if s.len() > 0 {
        let init = s.drop_last();
        assert(distinct_names(init));
        lemma_entries_map(init);
        assert forall|k: Seq<char>| #[trigger] entries_map(s).contains_key(k) implies exists|i: int| 0 <= i < s.len() && s[i].0@ == k by {
            if k != s.last().0@ {
                let i = choose|i: int| 0 <= i < init.len() && init[i].0@ == k;
                assert(s[i] == init[i]);
            } else {
                assert(s[s.len() - 1].0@ == k);
            }
        }
        assert forall|k: Seq<char>| (exists|i: int| 0 <= i < s.len() && s[i].0@ == k) implies #[trigger] entries_map(s).contains_key(k) by {
            let i = choose|i: int| 0 <= i < s.len() && s[i].0@ == k;
            if i < s.len() - 1 {
                assert(init[i] == s[i]);
            }
        }
        assert forall|i: int| 0 <= i < s.len() implies #[trigger] entries_map(s)[s[i].0@] == value_of(s[i].1) by {
            if i < s.len() - 1 {
                assert(init[i] == s[i]);
                assert(s[i].0@ != s[s.len() - 1].0@);
            }
        }
    }
}

/// Replacing the value of an entry rebinds its name.
proof fn lemma_entries_map_update(s: Seq<(String, Object)>, i: int, e: (String, Object))
    requires
        distinct_names(s),
        0 <= i < s.len(),
        e.0@ == s[i].0@,
    ensures
        distinct_names(s.update(i, e)),
        entries_map(s.update(i, e)) == entries_map(s).insert(e.0@, value_of(e.1)),
    decreases s.len(),
{
    let t = s.update(i, e);
    assert(distinct_names(t)) by {
        assert forall|a: int, b: int| 0 <= a < b < t.len() implies (#[trigger] t[a]).0@ != (#[trigger] t[b]).0@ by {
            assert(s[a].0@ != s[b].0@);
        }
    }
    lemma_entries_map(s);
    lemma_entries_map(t);
    assert(entries_map(t) =~= entries_map(s).insert(e.0@, value_of(e.1))) by {
        assert forall|k: Seq<char>| #[trigger] entries_map(t).contains_key(k) <==> entries_map(s).insert(e.0@, value_of(e.1)).contains_key(k) by {
            if entries_map(t).contains_key(k) {
                let j = choose|j: int| 0 <= j < t.len() && t[j].0@ == k;
                assert(s[j].0@ == k);
            }
            if entries_map(s).contains_key(k) {
                let j = choose|j: int| 0 <= j < s.len() && s[j].0@ == k;
                assert(t[j].0@ == k);
            }
            if k == e.0@ {
                assert(t[i].0@ == k);
            }
        }
        assert forall|k: Seq<char>| #[trigger] entries_map(t).contains_key(k) implies entries_map(t)[k] == entries_map(s).insert(e.0@, value_of(e.1))[k] by {
            let j = choose|j: int| 0 <= j < t.len() && t[j].0@ == k;
            assert(entries_map(t)[t[j].0@] == value_of(t[j].1));
            if j != i {
                assert(entries_map(s)[s[j].0@] == value_of(s[j].1));
            }
        }
    }
}

/// A table from names to values, kept as a list of entries without repeated names.
pub struct Table {
    entries: Vec<(String, Object)>,
}

impl View for Table {
    type V = Bindings;

    closed spec fn view(&self) -> Bindings {
        entries_map(self.entries@)
    }
}

impl Table {
    pub closed spec fn wf(&self) -> bool {
        distinct_names(self.entries@)
    }

    pub fn new() -> (t: Table)
        ensures
            t.wf(),
            t@ == Bindings::empty(),
    {
        Table { entries: Vec::new() }
    }

    /// The value bound to `name`, if any.
    pub fn lookup(&self, name: &String) -> (r: Option<&Object>)
        requires
            self.wf(),
        ensures
            match r {
                Some(o) => self@.contains_key(name@) && o@ == self@[name@],
                None => !self@.contains_key(name@),
            },
    {
        proof {
            lemma_entries_map(self.entries@);
        }
        let mut i: usize = 0;
        while i < self.entries.len()
            invariant
                i <= self.entries@.len(),
                distinct_names(self.entries@),
                forall|j: int| 0 <= j < i ==> (#[trigger] self.entries@[j]).0@ != name@,
            decreases self.entries@.len() - i,
        {
            if self.entries[i].0 == *name {
                proof {
                    lemma_entries_map(self.entries@);
                }
                return Some(&self.entries[i].1);
            }
            i = i + 1;
        }
        None
    }

    /// Binds `name` to `value`, replacing any earlier binding of `name`.
    pub fn insert(&mut self, name: String, value: Object)
        requires
            old(self).wf(),
        ensures
            final(self).wf(),
            final(self)@ == old(self)@.insert(name@, value@),
    {
        proof {
            lemma_entries_map(self.entries@);
        }
        let mut i: usize = 0;
        while i < self.entries.len()
            invariant
                i <= self.entries@.len(),
                self.entries@ == old(self).entries@,
                distinct_names(self.entries@),
                forall|j: int| 0 <= j < i ==> (#[trigger] self.entries@[j]).0@ != name@,
            decreases self.entries@.len() - i,
        {
            if self.entries[i].0 == name {
                let ghost before = self.entries@;
                let entry = (name, value);
                proof {
                    lemma_entries_map_update(before, i as int, entry);
                }
                self.entries.set(i, entry);
                return;
            }
            i = i + 1;
        }
        let ghost before = self.entries@;
        self.entries.push((name, value));
        proof {
            assert(self.entries@.drop_last() =~= before);
            assert(distinct_names(self.entries@)) by {
                assert forall|a: int, b: int| 0 <= a < b < self.entries@.len() implies (#[trigger] self.entries@[a]).0@ != (#[trigger] self.entries@[b]).0@ by {
                    if b < before.len() {
                        assert(before[a].0@ != before[b].0@);
                    } else {
                        assert(before[a].0@ != name@);
                    }
                }
            }
        }
    }

    /// A deep copy with the same bindings.
    pub fn duplicate(&self) -> (r: Table)
        requires
            self.wf(),
        ensures
            r.wf(),
            r@ == self@,
    {
        let mut entries: Vec<(String, Object)> = Vec::new();
        let mut i: usize = 0;
        while i < self.entries.len()
            invariant
                i <= self.entries@.len(),
                entries@.len() == i,
                forall|j: int| 0 <= j < i ==> (#[trigger] entries@[j]).0@ == self.entries@[j].0@
                    && value_of(entries@[j].1) == value_of(self.entries@[j].1),
            decreases self.entries@.len() - i,
        {
            let entry = (self.entries[i].0.clone(), self.entries[i].1.duplicate());
            entries.push(entry);
            i = i + 1;
        }
        proof {
            lemma_same_entries(entries@, self.entries@);
        }
        Table { entries }
    }
}

/// Entry lists with the same names and values stand for the same bindings.
proof fn lemma_same_entries(a: Seq<(String, Object)>, b: Seq<(String, Object)>)
    requires
        a.len() == b.len(),
        forall|j: int| 0 <= j < a.len() ==> (#[trigger] a[j]).0@ == b[j].0@ && value_of(a[j].1) == value_of(b[j].1),
    ensures
        entries_map(a) == entries_map(b),
        distinct_names(b) ==> distinct_names(a),
    decreases a.len(),
{
    if a.len() > 0 {
        lemma_same_entries(a.drop_last(), b.drop_last());
    }
    if distinct_names(b) {
        assert forall|i: int, j: int| 0 <= i < j < a.len() implies (#[trigger] a[i]).0@ != (#[trigger] a[j]).0@ by {
            assert(b[i].0@ != b[j].0@);
        }
    }
}

/// The absolute value of an integer.
pub open spec fn magnitude(a: int) -> int {
    if a < 0 { -a } else { a }
}

/// The quotient of `a` by `b` rounded toward zero, as `/` computes it on
/// machine integers.
pub open spec fn quotient_toward_zero(a: int, b: int) -> int {
    let q = magnitude(a) / magnitude(b);
    if (a < 0) != (b < 0) { -q } else { q }
}

/// An integer result, or `None` when it overflows an `i64` (which aborts the
/// program).
pub open spec fn checked_integer(x: int) -> Option<Value> {
    if i64::MIN <= x <= i64::MAX {
        Some(Value::Integer(x as i64))
    } else {
        None
    }
}

/// The value of `left operator right` on integers; `None` when the
/// arithmetic overflows or divides by zero; `Null` for an unknown operator.
pub open spec fn infix_integer_value(left: i64, operator: Seq<char>, right: i64) -> Option<Value> {
    if operator == "+"@ {
        checked_integer(left + right)
    } else if operator == "-"@ {
        checked_integer(left - right)
    } else if operator == "/"@ {
        if right == 0 {
            None
        } else {
            checked_integer(quotient_toward_zero(left as int, right as int))
        }
    } else if operator == "*"@ {
        checked_integer(left * right)
    } else if operator == "=="@ {
        Some(Value::Boolean(left == right))
    } else if operator == "!="@ {
        Some(Value::Boolean(left != right))
    } else if operator == "<"@ {
        Some(Value::Boolean(left < right))
    } else if operator == ">"@ {
        Some(Value::Boolean(left > right))
    } else if operator == "<="@ {
        Some(Value::Boolean(left <= right))
    } else if operator == ">="@ {
        Some(Value::Boolean(left >= right))
    } else {
        Some(Value::Null)
    }
}

/// The value of a prefix operator applied to `operand`: `!` negates a
/// boolean, `-` negates an integer (overflow aborts), anything else is `Null`.
pub open spec fn prefix_value(operator: Seq<char>, operand: Value) -> Option<Value> {
    if operator == "!"@ && operand is Boolean {
        Some(Value::Boolean(!operand->Boolean_0))
    } else if operator == "-"@ && operand is Integer {
        checked_integer(-(operand->Integer_0 as int))
    } else {
        Some(Value::Null)
    }
}

/// The result of a call: the value a `return` carried, or the block's value.
pub open spec fn unwrap_return(v: Value) -> Value {
    match v {
        Value::Return(inner) => *inner,
        other => other,
    }
}

/// The evaluation of an expression in `env`, with `functions` the functions
/// defined so far: its value and the functions defined afterwards. `fuel`
/// bounds the depth of evaluation; `None` when it runs out, or when the
/// program aborts (integer overflow, division by zero).
pub open spec fn eval_expr_model(e: Expr, env: Bindings, functions: Store, fuel: nat) -> Option<(Value, Store)>
    decreases fuel, 0nat,
{
    if fuel == 0 {
        None
    } else {
        let f = (fuel - 1) as nat;
        match e {
            Expr::Identifier(name) => Some((if env.contains_key(name) { env[name] } else { Value::Null }, functions)),
            Expr::Str(t) => Some((Value::Str(t), functions)),
            Expr::Array(items) => match eval_list_model(items, 0, Seq::empty(), env, functions, f) {
                None => None,
                Some((vs, fs)) => Some((Value::Array(vs), fs)),
            },
            Expr::Boolean(b) => Some((Value::Boolean(b), functions)),
            Expr::Integer(n) => Some((Value::Integer(n as i64), functions)),
            Expr::Prefix { operator, right } => match eval_expr_model(*right, env, functions, f) {
                None => None,
                Some((v, fs)) => match prefix_value(operator, v) {
                    None => None,
                    Some(r) => Some((r, fs)),
                },
            },
            Expr::Infix { left, operator, right } => match eval_expr_model(*left, env, functions, f) {
                None => None,
                Some((l, fs1)) => match eval_expr_model(*right, env, fs1, f) {
                    None => None,
                    Some((r, fs2)) => {
                        if l is Integer && r is Integer {
                            match infix_integer_value(l->Integer_0, operator, r->Integer_0) {
                                None => None,
                                Some(v) => Some((v, fs2)),
                            }
                        } else {
                            Some((Value::Null, fs2))
                        }
                    },
                },
            },
            Expr::Function { name, body, parameters } => {
                let function = Value::Function { name, parameters, body };
                Some((function, functions.define(name, function)))
            },
            Expr::Call { name, arguments } => {
                if !functions.functions.contains_key(name) {
                    if name == "print"@ {
                        match eval_list_model(arguments, 0, Seq::empty(), env, functions, f) {
                            None => None,
                            Some((vs, fs)) => Some((Value::Null, fs.with_line(print_line(vs)))),
                        }
                    } else {
                        Some((Value::Null, functions))
                    }
                } else {
                    match functions.functions[name] {
                        Value::Function { name: _, parameters, body } => {
                            if arguments.len() != parameters.len() {
                                Some((Value::Null, functions))
                            } else {
                                match bind_arguments_model(parameters, arguments, 0, env, env, functions, f) {
                                    None => None,
                                    Some((callee_env, fs)) => match eval_block_model(body, 0, Value::Null, callee_env, fs, f) {
                                        None => None,
                                        Some((v, _, fs2)) => Some((unwrap_return(v), fs2)),
                                    },
                                }
                            }
                        },
                        _ => Some((Value::Null, functions)),
                    }
                }
            },
        }
    }
}

/// Evaluates the expressions from the `i`-th on in `env`, one after the
/// other, appending their values to `values`.
pub open spec fn eval_list_model(
    items: Seq<Expr>,
    i: nat,
    values: Seq<Value>,
    env: Bindings,
    functions: Store,
    fuel: nat,
) -> Option<(Seq<Value>, Store)>
    decreases fuel, items.len() - i + 1,
{
    if i >= items.len() {
        Some((values, functions))
    } else {
        match eval_expr_model(items[i as int], env, functions, fuel) {
            None => None,
            Some((v, fs)) => eval_list_model(items, i + 1, values.push(v), env, fs, fuel),
        }
    }
}

/// Evaluates the arguments from the `i`-th on in `env` and binds them to the
/// parameters in `callee_env`.
pub open spec fn bind_arguments_model(
    parameters: Seq<Seq<char>>,
    arguments: Seq<Expr>,
    i: nat,
    env: Bindings,
    callee_env: Bindings,
    functions: Store,
    fuel: nat,
) -> Option<(Bindings, Store)>
    decreases fuel, arguments.len() - i + 1,
{
    if i >= arguments.len() {
        Some((callee_env, functions))
    } else {
        match eval_expr_model(arguments[i as int], env, functions, fuel) {
            None => None,
            Some((v, fs)) => bind_arguments_model(parameters, arguments, i + 1, env, callee_env.insert(parameters[i as int], v), fs, fuel),
        }
    }
}

/// Runs the statements of a block from the `i`-th on; `last` is the value of
/// the statement before. A `return` value ends the block.
pub open spec fn eval_block_model(
    statements: Seq<Stmt>,
    i: nat,
    last: Value,
    env: Bindings,
    functions: Store,
    fuel: nat,
) -> Option<(Value, Bindings, Store)>
    decreases fuel, statements.len() - i + 1,
{
    if i >= statements.len() {
        Some((last, env, functions))
    } else {
        match eval_stmt_model(statements[i as int], env, functions, fuel) {
            None => None,
            Some((v, env2, fs)) => {
                if v is Return {
                    Some((v, env2, fs))
                } else {
                    eval_block_model(statements, i + 1, v, env2, fs, fuel)
                }
            },
        }
    }
}

/// The execution of a statement: its value, the environment afterwards, and
/// the functions defined afterwards.
pub open spec fn eval_stmt_model(s: Stmt, env: Bindings, functions: Store, fuel: nat) -> Option<(Value, Bindings, Store)>
    decreases fuel, 0nat,
{
    if fuel == 0 {
        None
    } else {
        let f = (fuel - 1) as nat;
        match s {
            Stmt::Expression { expression, has_semicolon: _ } => match eval_expr_model(expression, env, functions, f) {
                None => None,
                Some((v, fs)) => Some((v, env, fs)),
            },
            Stmt::Return { value } => match eval_expr_model(value, env, functions, f) {
                None => None,
                Some((v, fs)) => Some((Value::Return(Box::new(v)), env, fs)),
            },
            Stmt::Val { name, value } => match eval_expr_model(value, env, functions, f) {
                None => None,
                Some((v, fs)) => Some((Value::Null, env.insert(name, v), fs)),
            },
            Stmt::If { condition, consequence, alternative } => match eval_expr_model(condition, env, functions, f) {
                None => None,
                Some((c, fs)) => {
                    if c is Boolean {
                        eval_block_model(if c->Boolean_0 { consequence } else { alternative }, 0, Value::Null, env, fs, f)
                    } else {
                        Some((Value::Null, env, fs))
                    }
                },
            },
            Stmt::For { initialization, condition, update, body } => match eval_stmt_model(*initialization, env, functions, f) {
                None => None,
                Some((_, env2, fs)) => for_loop_model(condition, *update, body, env2, fs, f),
            },
        }
    }
}

/// A `for` loop after its initialization: while the condition is `true`, run
/// the body and then the update. A `return` value ends the loop.
pub open spec fn for_loop_model(
    condition: Expr,
    update: Stmt,
    body: Seq<Stmt>,
    env: Bindings,
    functions: Store,
    fuel: nat,
) -> Option<(Value, Bindings, Store)>
    decreases fuel, 0nat,
{
    if fuel == 0 {
        None
    } else {
        let f = (fuel - 1) as nat;
        match eval_expr_model(condition, env, functions, f) {
            None => None,
            Some((c, fs)) => {
                if c == Value::Boolean(true) {
                    match eval_block_model(body, 0, Value::Null, env, fs, f) {
                        None => None,
                        Some((v, env2, fs2)) => {
                            if v is Return {
                                Some((v, env2, fs2))
                            } else {
                                match eval_stmt_model(update, env2, fs2, f) {
                                    None => None,
                                    Some((_, env3, fs3)) => for_loop_model(condition, update, body, env3, fs3, f),
                                }
                            }
                        },
                    }
                } else {
                    Some((Value::Null, env, fs))
                }
            },
        }
    }
}

/// More fuel never changes a finished evaluation.
pub proof fn lemma_expr_fuel(e: Expr, env: Bindings, functions: Store, f1: nat, f2: nat)
    requires
        f1 <= f2,
        eval_expr_model(e, env, functions, f1) is Some,
    ensures
        eval_expr_model(e, env, functions, f2) == eval_expr_model(e, env, functions, f1),
    decreases f1, 0nat,
{
    let g1 = (f1 - 1) as nat;
    let g2 = (f2 - 1) as nat;
    match e {
        Expr::Prefix { operator, right } => {
            lemma_expr_fuel(*right, env, functions, g1, g2);
        },
        Expr::Infix { left, operator, right } => {
            lemma_expr_fuel(*left, env, functions, g1, g2);
            let (l, fs1) = eval_expr_model(*left, env, functions, g1).unwrap();
            lemma_expr_fuel(*right, env, fs1, g1, g2);
        },
        Expr::Array(items) => {
            lemma_list_fuel(items, 0, Seq::empty(), env, functions, g1, g2);
        },
        Expr::Call { name, arguments } => {
            if !functions.functions.contains_key(name) && name == "print"@ {
                lemma_list_fuel(arguments, 0, Seq::empty(), env, functions, g1, g2);
            }
            if functions.functions.contains_key(name) {
                match functions.functions[name] {
                    Value::Function { name: _, parameters, body } => {
                        if arguments.len() == parameters.len() {
                            lemma_bind_fuel(parameters, arguments, 0, env, env, functions, g1, g2);
                            let (callee_env, fs) = bind_arguments_model(parameters, arguments, 0, env, env, functions, g1).unwrap();
                            lemma_block_fuel(body, 0, Value::Null, callee_env, fs, g1, g2);
                        }
                    },
                    _ => {},
                }
            }
        },
        _ => {},
    }
}

pub proof fn lemma_list_fuel(
    items: Seq<Expr>,
    i: nat,
    values: Seq<Value>,
    env: Bindings,
    functions: Store,
    f1: nat,
    f2: nat,
)
    requires
        f1 <= f2,
        eval_list_model(items, i, values, env, functions, f1) is Some,
    ensures
        eval_list_model(items, i, values, env, functions, f2) == eval_list_model(items, i, values, env, functions, f1),
    decreases f1, items.len() - i + 1,
{
    if i < items.len() {
        lemma_expr_fuel(items[i as int], env, functions, f1, f2);
        let (v, fs) = eval_expr_model(items[i as int], env, functions, f1).unwrap();
        lemma_list_fuel(items, i + 1, values.push(v), env, fs, f1, f2);
    }
}

pub proof fn lemma_bind_fuel(
    parameters: Seq<Seq<char>>,
    arguments: Seq<Expr>,
    i: nat,
    env: Bindings,
    callee_env: Bindings,
    functions: Store,
    f1: nat,
    f2: nat,
)
    requires
        f1 <= f2,
        bind_arguments_model(parameters, arguments, i, env, callee_env, functions, f1) is Some,
    ensures
        bind_arguments_model(parameters, arguments, i, env, callee_env, functions, f2)
            == bind_arguments_model(parameters, arguments, i, env, callee_env, functions, f1),
    decreases f1, arguments.len() - i + 1,
{
    if i < arguments.len() {
        lemma_expr_fuel(arguments[i as int], env, functions, f1, f2);
        let (v, fs) = eval_expr_model(arguments[i as int], env, functions, f1).unwrap();
        lemma_bind_fuel(parameters, arguments, i + 1, env, callee_env.insert(parameters[i as int], v), fs, f1, f2);
    }
}

pub proof fn lemma_block_fuel(
    statements: Seq<Stmt>,
    i: nat,
    last: Value,
    env: Bindings,
    functions: Store,
    f1: nat,
    f2: nat,
)
    requires
        f1 <= f2,
        eval_block_model(statements, i, last, env, functions, f1) is Some,
    ensures
        eval_block_model(statements, i, last, env, functions, f2)
            == eval_block_model(statements, i, last, env, functions, f1),
    decreases f1, statements.len() - i + 1,
{
    if i < statements.len() {
        lemma_stmt_fuel(statements[i as int], env, functions, f1, f2);
        let (v, env2, fs) = eval_stmt_model(statements[i as int], env, functions, f1).unwrap();
        if !(v is Return) {
            lemma_block_fuel(statements, i + 1, v, env2, fs, f1, f2);
        }
    }
}

pub proof fn lemma_stmt_fuel(s: Stmt, env: Bindings, functions: Store, f1: nat, f2: nat)
    requires
        f1 <= f2,
        eval_stmt_model(s, env, functions, f1) is Some,
    ensures
        eval_stmt_model(s, env, functions, f2) == eval_stmt_model(s, env, functions, f1),
    decreases f1, 0nat,
{
    let g1 = (f1 - 1) as nat;
    let g2 = (f2 - 1) as nat;
    match s {
        Stmt::Expression { expression, has_semicolon: _ } => {
            lemma_expr_fuel(expression, env, functions, g1, g2);
        },
        Stmt::Return { value } => {
            lemma_expr_fuel(value, env, functions, g1, g2);
        },
        Stmt::Val { name, value } => {
            lemma_expr_fuel(value, env, functions, g1, g2);
        },
        Stmt::If { condition, consequence, alternative } => {
            lemma_expr_fuel(condition, env, functions, g1, g2);
            let (c, fs) = eval_expr_model(condition, env, functions, g1).unwrap();
            if c is Boolean {
                lemma_block_fuel(if c->Boolean_0 { consequence } else { alternative }, 0, Value::Null, env, fs, g1, g2);
            }
        },
        Stmt::For { initialization, condition, update, body } => {
            lemma_stmt_fuel(*initialization, env, functions, g1, g2);
            let (_, env2, fs) = eval_stmt_model(*initialization, env, functions, g1).unwrap();
            lemma_for_fuel(condition, *update, body, env2, fs, g1, g2);
        },
    }
}

pub proof fn lemma_for_fuel(
    condition: Expr,
    update: Stmt,
    body: Seq<Stmt>,
    env: Bindings,
    functions: Store,
    f1: nat,
    f2: nat,
)
    requires
        f1 <= f2,
        for_loop_model(condition, update, body, env, functions, f1) is Some,
    ensures
        for_loop_model(condition, update, body, env, functions, f2)
            == for_loop_model(condition, update, body, env, functions, f1),
    decreases f1, 0nat,
{
    let g1 = (f1 - 1) as nat;
    let g2 = (f2 - 1) as nat;
    lemma_expr_fuel(condition, env, functions, g1, g2);
    let (c, fs) = eval_expr_model(condition, env, functions, g1).unwrap();
    if c == Value::Boolean(true) {
        lemma_block_fuel(body, 0, Value::Null, env, fs, g1, g2);
        let (v, env2, fs2) = eval_block_model(body, 0, Value::Null, env, fs, g1).unwrap();
        if !(v is Return) {
            lemma_stmt_fuel(update, env2, fs2, g1, g2);
            let (_, env3, fs3) = eval_stmt_model(update, env2, fs2, g1).unwrap();
            lemma_for_fuel(condition, update, body, env3, fs3, g1, g2);
        }
    }
}

/// Every statement of a program run in turn in one environment, each with
/// `fuel`: their values and the functions defined afterwards.
pub open spec fn run_model(
    statements: Seq<Stmt>,
    i: nat,
    env: Bindings,
    functions: Store,
    fuel: nat,
) -> Option<(Seq<Value>, Store)>
    decreases statements.len() - i,
{
    if i >= statements.len() {
        Some((Seq::empty(), functions))
    } else {
        match eval_stmt_model(statements[i as int], env, functions, fuel) {
            None => None,
            Some((v, env2, fs)) => match run_model(statements, i + 1, env2, fs, fuel) {
                None => None,
                Some((vs, fs2)) => Some((seq![v] + vs, fs2)),
            },
        }
    }
}

pub proof fn lemma_run_fuel(statements: Seq<Stmt>, i: nat, env: Bindings, functions: Store, f1: nat, f2: nat)
    requires
        f1 <= f2,
        run_model(statements, i, env, functions, f1) is Some,
    ensures
        run_model(statements, i, env, functions, f2) == run_model(statements, i, env, functions, f1),
    decreases statements.len() - i,
{
    if i < statements.len() {
        lemma_stmt_fuel(statements[i as int], env, functions, f1, f2);
        let (v, env2, fs) = eval_stmt_model(statements[i as int], env, functions, f1).unwrap();
        lemma_run_fuel(statements, i + 1, env2, fs, f1, f2);
    }
}

/// The evaluation of an expression finishes, with enough fuel.
pub open spec fn expression_finishes(e: Expr, env: Bindings, functions: Store) -> bool {
    exists|fuel: nat| #[trigger] eval_expr_model(e, env, functions, fuel) is Some
}

pub open spec fn statement_finishes(s: Stmt, env: Bindings, functions: Store) -> bool {
    exists|fuel: nat| #[trigger] eval_stmt_model(s, env, functions, fuel) is Some
}

pub open spec fn program_finishes(statements: Seq<Stmt>, functions: Store) -> bool {
    exists|fuel: nat| #[trigger] run_model(statements, 0, Bindings::empty(), functions, fuel) is Some
}

pub open spec fn values_of(objects: Seq<Object>) -> Seq<Value> {
    objects.map_values(|o: Object| o@)
}

/// The names of identifiers, as strings.
fn identifier_texts(v: &Vec<Identifier>) -> (r: Vec<String>)
    ensures
        texts_model(r@) == names_model(v@),
{
    let mut r: Vec<String> = Vec::new();
    let mut i: usize = 0;
    while i < v.len()
        invariant
            i <= v.len(),
            r@.len() == i,
            forall|j: int| 0 <= j < i ==> (#[trigger] r@[j])@ == v@[j].value@,
        decreases v.len() - i,
    {
        r.push(v[i].value.clone());
        i = i + 1;
    }
    assert(texts_model(r@) =~= names_model(v@));
    r
}

/// The variables of a program: names bound to values.
pub struct Environment {
    bindings: Table,
}

impl View for Environment {
    type V = Bindings;

    closed spec fn view(&self) -> Bindings {
        self.bindings@
    }
}

impl Environment {
    pub closed spec fn wf(&self) -> bool {
        self.bindings.wf()
    }

    pub fn new() -> (env: Self)
        ensures
            env.wf(),
            env@ == Bindings::empty(),
    {
        Self { bindings: Table::new() }
    }
}

/// The evaluator: it runs programs and remembers the functions they define.
pub struct Eval {
    functions: Table,
    output: Vec<String>,
}

impl View for Eval {
    type V = Store;

    closed spec fn view(&self) -> Store {
        Store { functions: self.functions@, output: self.output@.map_values(|t: String| t@) }
    }
}

impl Eval {
    pub closed spec fn wf(&self) -> bool {
        self.functions.wf()
    }

    pub fn new() -> (evaluator: Self)
        ensures
            evaluator.wf(),
            evaluator@ == Store::empty(),
    {
        let evaluator = Self { functions: Table::new(), output: Vec::new() };
        proof {
            assert(evaluator@.output =~= Seq::<Seq<char>>::empty());
        }
        evaluator
    }

    /// Hands out the lines printed so far and forgets them.
    pub fn take_output(&mut self) -> (lines: Vec<String>)
        requires
            old(self).wf(),
        ensures
            final(self).wf(),
            lines@.map_values(|t: String| t@) == old(self)@.output,
            final(self)@ == (Store { functions: old(self)@.functions, output: Seq::empty() }),
    {
        let mut lines: Vec<String> = Vec::new();
        std::mem::swap(&mut lines, &mut self.output);
        proof {
            assert(self@.output =~= Seq::<Seq<char>>::empty());
        }
        lines
    }

    /// `left operator right` on integers.
    pub fn eval_infix_integer(&self, left: i64, operator: &str, right: i64) -> (r: Object)
        requires
            infix_integer_value(left, operator@, right) is Some,
        ensures
            r@ == infix_integer_value(left, operator@, right).unwrap(),
    {
        if str_eq(operator, "+") {
            Object::Integer(left + right)
        } else if str_eq(operator, "-") {
            Object::Integer(left - right)
        } else if str_eq(operator, "/") {
            Object::Integer(quotient(left, right))
        } else if str_eq(operator, "*") {
            Object::Integer(left * right)
        } else if str_eq(operator, "==") {
            Object::Boolean(left == right)
        } else if str_eq(operator, "!=") {
            Object::Boolean(left != right)
        } else if str_eq(operator, "<") {
            Object::Boolean(left < right)
        } else if str_eq(operator, ">") {
            Object::Boolean(left > right)
        } else if str_eq(operator, "<=") {
            Object::Boolean(left <= right)
        } else if str_eq(operator, ">=") {
            Object::Boolean(left >= right)
        } else {
            Object::Null
        }
    }

    fn eval_expression_fuel(&mut self, expression: &Expression, environment: &mut Environment, Ghost(fuel): Ghost<nat>) -> (r: Object)
        requires
            old(self).wf(),
            old(environment).wf(),
            eval_expr_model(expression@, old(environment)@, old(self)@, fuel) is Some,
        ensures
            final(self).wf(),
            final(environment).wf(),
            final(environment)@ == old(environment)@,
            Some((r@, final(self)@)) == eval_expr_model(expression@, old(environment)@, old(self)@, fuel),
        decreases fuel, 0nat,
    {
        let ghost f = (fuel - 1) as nat;
        match expression {
            Expression::Identifier(id) => match environment.bindings.lookup(&id.value) {
                Some(o) => o.duplicate(),
                None => Object::Null,
            },
            Expression::String(t) => Object::String(t.clone()),
            Expression::Array(items) => {
                let ghost itemsm = exprs_model(items@);
                let ghost env0 = environment@;
                let ghost target = eval_list_model(itemsm, 0, Seq::empty(), env0, self@, f);
                proof {
                    lemma_exprs_model(items@);
                }
                let mut values: Vec<Object> = Vec::new();
                let mut i: usize = 0;
                while i < items.len()
                    invariant
                        self.wf(),
                        environment.wf(),
                        environment@ == env0,
                        i <= items@.len(),
                        itemsm == exprs_model(items@),
                        itemsm.len() == items@.len(),
                        forall|j: int| 0 <= j < itemsm.len() ==> #[trigger] itemsm[j] == items@[j]@,
                        target is Some,
                        eval_list_model(itemsm, i as nat, objects_model(values@), env0, self@, f) == target,
                        f < fuel,
                    decreases items@.len() - i,
                {
                    let ghost before = values@;
                    let obj = self.eval_expression_fuel(&items[i], environment, Ghost(f));
                    values.push(obj);
                    proof {
                        lemma_objects_model_push(before, obj);
                    }
                    i = i + 1;
                }
                Object::Array(values)
            },
            Expression::Boolean(b) => Object::Boolean(*b),
            Expression::Integer(n) => Object::Integer(*n as i64),
            Expression::Prefix(prefix) => {
                let right = self.eval_expression_fuel(&prefix.right, environment, Ghost(f));
                if str_eq(prefix.operator.as_str(), "!") {
                    if let Object::Boolean(value) = right {
                        return Object::Boolean(!value);
                    }
                }
                if str_eq(prefix.operator.as_str(), "-") {
                    if let Object::Integer(value) = right {
                        return Object::Integer(-value);
                    }
                }
                Object::Null
            },
            Expression::Infix(infix) => {
                let left = self.eval_expression_fuel(&infix.left, environment, Ghost(f));
                let right = self.eval_expression_fuel(&infix.right, environment, Ghost(f));
                if let Object::Integer(left_value) = left {
                    if let Object::Integer(right_value) = right {
                        return self.eval_infix_integer(left_value, infix.operator.as_str(), right_value);
                    }
                }
                Object::Null
            },
            Expression::Function(func) => {
                let obj = Object::Function {
                    name: func.name.value.clone(),
                    parameters: identifier_texts(&func.parameters),
                    body: duplicate_statements(&func.body),
                };
                self.functions.insert(func.name.value.clone(), obj.duplicate());
                obj
            },
            Expression::Call(call) => {
                let function = match self.functions.lookup(&call.name.value) {
                    Some(function) => function.duplicate(),
                    None => {
                        if str_eq(call.name.value.as_str(), "print") {
                            self.eval_print(&call.arguments, environment, Ghost(f));
                        }
                        return Object::Null;
                    },
                };
                let (parameters, body) = match function {
                    Object::Function { name: _, parameters, body } => (parameters, body),
                    _ => {
                        return Object::Null;
                    },
                };
                let mut isolated = Environment { bindings: environment.bindings.duplicate() };
                proof {
                    lemma_exprs_model(call.arguments@);
                }
                if call.arguments.len() != parameters.len() {
                    return Object::Null;
                }
                let ghost params = texts_model(parameters@);
                let ghost args = exprs_model(call.arguments@);
                let ghost env0 = environment@;
                let ghost target = bind_arguments_model(params, args, 0, env0, env0, self@, f);
                proof {
                    lemma_exprs_model(call.arguments@);
                }
                let mut i: usize = 0;
                while i < parameters.len()
                    invariant
                        self.wf(),
                        environment.wf(),
                        isolated.wf(),
                        environment@ == env0,
                        i <= parameters@.len(),
                        parameters@.len() == call.arguments@.len(),
                        params == texts_model(parameters@),
                        args == exprs_model(call.arguments@),
                        args.len() == call.arguments@.len(),
                        forall|j: int| 0 <= j < args.len() ==> #[trigger] args[j] == call.arguments@[j]@,
                        target is Some,
                        bind_arguments_model(params, args, i as nat, env0, isolated@, self@, f) == target,
                        f < fuel,
                    decreases parameters@.len() - i,
                {
                    let argument = call.arguments[i].duplicate();
                    let obj = self.eval_expression_fuel(&argument, environment, Ghost(f));
                    isolated.bindings.insert(parameters[i].clone(), obj);
                    i = i + 1;
                }
                let ghost (callee_env, fs) = target.unwrap();
                proof {
                    lemma_stmts_model(body@);
                }
                match self.eval_block(&body, &mut isolated, Ghost(f)) {
                    Object::Return(inner) => *inner,
                    other => other,
                }
            },
        }
    }

    /// A call of the built-in `print`: evaluates the arguments one after the
    /// other and records the line they show.
    fn eval_print(&mut self, arguments: &Vec<Expression>, environment: &mut Environment, Ghost(fuel): Ghost<nat>)
        requires
            old(self).wf(),
            old(environment).wf(),
            eval_list_model(exprs_model(arguments@), 0, Seq::empty(), old(environment)@, old(self)@, fuel) is Some,
        ensures
            final(self).wf(),
            final(environment).wf(),
            final(environment)@ == old(environment)@,
            eval_list_model(exprs_model(arguments@), 0, Seq::empty(), old(environment)@, old(self)@, fuel) matches Some((vs, fs))
                && final(self)@ == fs.with_line(print_line(vs)),
        decreases fuel, arguments@.len() + 2,
    {
        let ghost args = exprs_model(arguments@);
        let ghost env0 = environment@;
        let ghost target = eval_list_model(args, 0, Seq::empty(), env0, self@, fuel);
        proof {
            lemma_exprs_model(arguments@);
        }
        let mut line = String::new();
        let ghost mut values: Seq<Value> = Seq::empty();
        let mut i: usize = 0;
        while i < arguments.len()
            invariant
                self.wf(),
                environment.wf(),
                environment@ == env0,
                i <= arguments@.len(),
                args == exprs_model(arguments@),
                args.len() == arguments@.len(),
                forall|j: int| 0 <= j < args.len() ==> #[trigger] args[j] == arguments@[j]@,
                target is Some,
                target == eval_list_model(exprs_model(arguments@), 0, Seq::empty(), old(environment)@, old(self)@, fuel),
                eval_list_model(args, i as nat, values, env0, self@, fuel) == target,
                line@ == print_line(values),
            decreases arguments@.len() - i,
        {
            let obj = self.eval_expression_fuel(&arguments[i], environment, Ghost(fuel));
            let shown = render_object(&obj);
            line.append(shown.as_str());
            proof {
                assert(values.push(obj@).drop_last() =~= values);
                values = values.push(obj@);
            }
            i = i + 1;
        }
        let ghost before = self.output@;
        self.output.push(line);
        proof {
            assert(self.output@.map_values(|t: String| t@) =~= before.map_values(|t: String| t@).push(print_line(values)));
        }
    }

    fn eval_block(&mut self, statements: &Vec<Statement>, environment: &mut Environment, Ghost(fuel): Ghost<nat>) -> (r: Object)
        requires
            old(self).wf(),
            old(environment).wf(),
            eval_block_model(stmts_model(statements@), 0, Value::Null, old(environment)@, old(self)@, fuel) is Some,
        ensures
            final(self).wf(),
            final(environment).wf(),
            Some((r@, final(environment)@, final(self)@))
                == eval_block_model(stmts_model(statements@), 0, Value::Null, old(environment)@, old(self)@, fuel),
        decreases fuel, statements@.len() + 1,
    {
        let ghost stmts = stmts_model(statements@);
        let ghost target = eval_block_model(stmts, 0, Value::Null, environment@, self@, fuel);
        proof {
            lemma_stmts_model(statements@);
        }
        let mut result = Object::Null;
        let mut i: usize = 0;
        while i < statements.len()
            invariant
                self.wf(),
                environment.wf(),
                i <= statements@.len(),
                stmts == stmts_model(statements@),
                stmts.len() == statements@.len(),
                forall|j: int| 0 <= j < stmts.len() ==> #[trigger] stmts[j] == statements@[j]@,
                target is Some,
                target == eval_block_model(stmts_model(statements@), 0, Value::Null, old(environment)@, old(self)@, fuel),
                eval_block_model(stmts, i as nat, result@, environment@, self@, fuel) == target,
            decreases statements@.len() - i,
        {
            result = self.eval_statement_fuel(&statements[i], environment, Ghost(fuel));
            if let Object::Return(_) = result {
                return result;
            }
            i = i + 1;
        }
        result
    }

    fn eval_statement_fuel(&mut self, statement: &Statement, environment: &mut Environment, Ghost(fuel): Ghost<nat>) -> (r: Object)
        requires
            old(self).wf(),
            old(environment).wf(),
            eval_stmt_model(statement@, old(environment)@, old(self)@, fuel) is Some,
        ensures
            final(self).wf(),
            final(environment).wf(),
            Some((r@, final(environment)@, final(self)@)) == eval_stmt_model(statement@, old(environment)@, old(self)@, fuel),
        decreases fuel, 0nat,
    {
        let ghost f = (fuel - 1) as nat;
        match statement {
            Statement::Expression(expression_statement) => {
                self.eval_expression_fuel(&expression_statement.expression, environment, Ghost(f))
            },
            Statement::Return(return_statement) => {
                let exp = self.eval_expression_fuel(&return_statement.return_value, environment, Ghost(f));
                Object::Return(Box::new(exp))
            },
            Statement::Val(val_statement) => {
                let value = self.eval_expression_fuel(&val_statement.value, environment, Ghost(f));
                environment.bindings.insert(val_statement.name.value.clone(), value);
                Object::Null
            },
            Statement::If(if_statement) => {
                let condition = self.eval_expression_fuel(&if_statement.condition, environment, Ghost(f));
                let condition = match condition {
                    Object::Boolean(condition) => condition,
                    _ => {
                        return Object::Null;
                    },
                };
                let branch = if condition {
                    &if_statement.consequence
                } else {
                    &if_statement.alternative
                };
                self.eval_block(branch, environment, Ghost(f))
            },
            Statement::For(for_statement) => {
                let _ = self.eval_statement_fuel(&for_statement.initialization, environment, Ghost(f));
                let ghost body = stmts_model(for_statement.body@);
                let ghost update = for_statement.update@;
                let ghost condition = for_statement.condition@;
                let ghost target = for_loop_model(condition, update, body, environment@, self@, f);
                let ghost mut g: nat = f;
                loop
                    invariant
                        self.wf(),
                        environment.wf(),
                        g < fuel,
                        body == stmts_model(for_statement.body@),
                        update == for_statement.update@,
                        condition == for_statement.condition@,
                        target is Some,
                        target == eval_stmt_model(statement@, old(environment)@, old(self)@, fuel),
                        for_loop_model(condition, update, body, environment@, self@, g) == target,
                    decreases g,
                {
                    let ghost h = (g - 1) as nat;
                    let c = self.eval_expression_fuel(&for_statement.condition, environment, Ghost(h));
                    match c {
                        Object::Boolean(true) => {},
                        _ => {
                            return Object::Null;
                        },
                    }
                    let v = self.eval_block(&for_statement.body, environment, Ghost(h));
                    if let Object::Return(_) = v {
                        return v;
                    }
                    let _ = self.eval_statement_fuel(&for_statement.update, environment, Ghost(h));
                    proof {
                        g = h;
                    }
                }
            },
        }
    }

    /// Evaluates an expression. Expressions never change the environment;
    /// function definitions add to the functions the evaluator knows.
    pub fn eval_expression(&mut self, expression: &Expression, environment: &mut Environment) -> (r: Object)
        requires
            old(self).wf(),
            old(environment).wf(),
            expression_finishes(expression@, old(environment)@, old(self)@),
        ensures
            final(self).wf(),
            final(environment).wf(),
            final(environment)@ == old(environment)@,
            forall|fuel: nat| #[trigger] eval_expr_model(expression@, old(environment)@, old(self)@, fuel) is Some
                ==> eval_expr_model(expression@, old(environment)@, old(self)@, fuel) == Some((r@, final(self)@)),
    {
        let ghost fuel = choose|fuel: nat| #[trigger] eval_expr_model(expression@, environment@, self@, fuel) is Some;
        let ghost e = expression@;
        let ghost env = environment@;
        let ghost fs = self@;
        let r = self.eval_expression_fuel(expression, environment, Ghost(fuel));
        proof {
            assert forall|g: nat| #[trigger] eval_expr_model(e, env, fs, g) is Some implies eval_expr_model(e, env, fs, g) == eval_expr_model(e, env, fs, fuel) by {
                if g <= fuel {
                    lemma_expr_fuel(e, env, fs, g, fuel);
                } else {
                    lemma_expr_fuel(e, env, fs, fuel, g);
                }
            }
        }
        r
    }

    /// Runs a statement: its value, and its effect on the environment and
    /// on the functions the evaluator knows.
    pub fn eval_statement(&mut self, statement: &Statement, environment: &mut Environment) -> (r: Object)
        requires
            old(self).wf(),
            old(environment).wf(),
            statement_finishes(statement@, old(environment)@, old(self)@),
        ensures
            final(self).wf(),
            final(environment).wf(),
            forall|fuel: nat| #[trigger] eval_stmt_model(statement@, old(environment)@, old(self)@, fuel) is Some
                ==> eval_stmt_model(statement@, old(environment)@, old(self)@, fuel) == Some((r@, final(environment)@, final(self)@)),
    {
        let ghost fuel = choose|fuel: nat| #[trigger] eval_stmt_model(statement@, environment@, self@, fuel) is Some;
        let ghost s = statement@;
        let ghost env = environment@;
        let ghost fs = self@;
        let r = self.eval_statement_fuel(statement, environment, Ghost(fuel));
        proof {
            assert forall|g: nat| #[trigger] eval_stmt_model(s, env, fs, g) is Some implies eval_stmt_model(s, env, fs, g) == eval_stmt_model(s, env, fs, fuel) by {
                if g <= fuel {
                    lemma_stmt_fuel(s, env, fs, g, fuel);
                } else {
                    lemma_stmt_fuel(s, env, fs, fuel, g);
                }
            }
        }
        r
    }

    /// Runs the statements of a program one after the other in a fresh
    /// environment and yields the value of each.
    pub fn run_program(&mut self, program: Program) -> (results: Vec<Object>)
        requires
            old(self).wf(),
            program_finishes(stmts_model(program.statements@), old(self)@),
        ensures
            final(self).wf(),
            forall|fuel: nat| #[trigger] run_model(stmts_model(program.statements@), 0, Bindings::empty(), old(self)@, fuel) is Some
                ==> run_model(stmts_model(program.statements@), 0, Bindings::empty(), old(self)@, fuel)
                    == Some((values_of(results@), final(self)@)),
    {
        let ghost stmts = stmts_model(program.statements@);
        let ghost fs0 = self@;
        let ghost fuel = choose|fuel: nat| #[trigger] run_model(stmts, 0, Bindings::empty(), fs0, fuel) is Some;
        let ghost target = run_model(stmts, 0, Bindings::empty(), fs0, fuel);
        proof {
            lemma_stmts_model(program.statements@);
        }
        let mut environment = Environment::new();
        let mut results: Vec<Object> = Vec::new();
        let ghost mut done: Seq<Value> = Seq::empty();
        let mut i: usize = 0;
        while i < program.statements.len()
            invariant
                self.wf(),
                environment.wf(),
                i <= program.statements@.len(),
                stmts == stmts_model(program.statements@),
                stmts.len() == program.statements@.len(),
                forall|j: int| 0 <= j < stmts.len() ==> #[trigger] stmts[j] == program.statements@[j]@,
                target is Some,
                values_of(results@) == done,
                run_model(stmts, i as nat, environment@, self@, fuel) matches Some((vs, fs))
                    && target == Some((done + vs, fs)),
            decreases program.statements@.len() - i,
        {
            let object = self.eval_statement_fuel(&program.statements[i], &mut environment, Ghost(fuel));
            let ghost v = object@;
            results.push(object);
            proof {
                assert(values_of(results@) =~= done.push(v));
                let (vs, fs) = run_model(stmts, (i + 1) as nat, environment@, self@, fuel).unwrap();
                assert(done + (seq![v] + vs) =~= done.push(v) + vs);
                done = done.push(v);
            }
            i = i + 1;
        }
        proof {
            assert(done + Seq::<Value>::empty() =~= done);
            assert forall|g: nat| #[trigger] run_model(stmts, 0, Bindings::empty(), fs0, g) is Some implies run_model(stmts, 0, Bindings::empty(), fs0, g) == target by {
                if g <= fuel {
                    lemma_run_fuel(stmts, 0, Bindings::empty(), fs0, g, fuel);
                } else {
                    lemma_run_fuel(stmts, 0, Bindings::empty(), fs0, fuel, g);
                }
            }
        }
        results
    }
}

impl Eval {
    /// `left operator right` on integers: `None` where the arithmetic
    /// overflows or divides by zero.
    pub fn checked_infix_integer(&self, left: i64, operator: &str, right: i64) -> (r: Option<Object>)
        ensures
            match r {
                Some(o) => infix_integer_value(left, operator@, right) == Some(o@),
                None => infix_integer_value(left, operator@, right) is None,
            },
    {
        if str_eq(operator, "+") {
            match left.checked_add(right) {
                Some(v) => Some(Object::Integer(v)),
                None => None,
            }
        } else if str_eq(operator, "-") {
            match left.checked_sub(right) {
                Some(v) => Some(Object::Integer(v)),
                None => None,
            }
        } else if str_eq(operator, "/") {
            if right == 0 {
                None
            } else if left == i64::MIN && right == -1 {
                proof {
                    assert(quotient_toward_zero(left as int, right as int) == 0x8000_0000_0000_0000int);
                }
                None
            } else {
                Some(Object::Integer(quotient(left, right)))
            }
        } else if str_eq(operator, "*") {
            match left.checked_mul(right) {
                Some(v) => Some(Object::Integer(v)),
                None => None,
            }
        } else {
            Some(self.eval_infix_integer(left, operator, right))
        }
    }

    /// Evaluates an expression with at most `fuel` levels of nesting:
    /// `None` when that is not enough, or when the evaluation overflows or
    /// divides by zero.
    pub fn eval_expression_within(&mut self, expression: &Expression, environment: &mut Environment, fuel: u64) -> (r: Option<Object>)
        requires
            old(self).wf(),
            old(environment).wf(),
        ensures
            final(self).wf(),
            final(environment).wf(),
            final(environment)@ == old(environment)@,
            match r {
                Some(o) => eval_expr_model(expression@, old(environment)@, old(self)@, fuel as nat) == Some((o@, final(self)@)),
                None => eval_expr_model(expression@, old(environment)@, old(self)@, fuel as nat) is None,
            },
        decreases fuel, 0nat,
    {
        if fuel == 0 {
            return None;
        }
        let f: u64 = fuel - 1;
        match expression {
            Expression::Identifier(id) => match environment.bindings.lookup(&id.value) {
                Some(o) => Some(o.duplicate()),
                None => Some(Object::Null),
            },
            Expression::String(t) => Some(Object::String(t.clone())),
            Expression::Array(items) => {
                let ghost itemsm = exprs_model(items@);
                let ghost env0 = environment@;
                let ghost target = eval_list_model(itemsm, 0, Seq::empty(), env0, self@, f as nat);
                proof {
                    lemma_exprs_model(items@);
                }
                let mut values: Vec<Object> = Vec::new();
                let mut i: usize = 0;
                while i < items.len()
                    invariant
                        self.wf(),
                        environment.wf(),
                        environment@ == env0,
                        env0 == old(environment)@,
                        target is None ==> eval_expr_model(expression@, old(environment)@, old(self)@, fuel as nat) is None,
                        i <= items@.len(),
                        itemsm == exprs_model(items@),
                        itemsm.len() == items@.len(),
                        forall|j: int| 0 <= j < itemsm.len() ==> #[trigger] itemsm[j] == items@[j]@,
                        target == eval_list_model(exprs_model(items@), 0, Seq::empty(), env0, old(self)@, f as nat),
                        eval_list_model(itemsm, i as nat, objects_model(values@), env0, self@, f as nat) == target,
                        f < fuel,
                    decreases items@.len() - i,
                {
                    let ghost before = values@;
                    let ghost pre = self@;
                    let obj = match self.eval_expression_within(&items[i], environment, f) {
                        Some(obj) => obj,
                        None => {
                            proof {
                                assert(eval_list_model(itemsm, i as nat, objects_model(values@), env0, pre, f as nat) is None);
                            }
                            return None;
                        },
                    };
                    values.push(obj);
                    proof {
                        lemma_objects_model_push(before, obj);
                    }
                    i = i + 1;
                }
                Some(Object::Array(values))
            },
            Expression::Boolean(b) => Some(Object::Boolean(*b)),
            Expression::Integer(n) => Some(Object::Integer(*n as i64)),
            Expression::Prefix(prefix) => {
                let right = match self.eval_expression_within(&prefix.right, environment, f) {
                    Some(v) => v,
                    None => {
                        return None;
                    },
                };
                if str_eq(prefix.operator.as_str(), "!") {
                    if let Object::Boolean(value) = right {
                        return Some(Object::Boolean(!value));
                    }
                }
                if str_eq(prefix.operator.as_str(), "-") {
                    if let Object::Integer(value) = right {
                        if value == i64::MIN {
                            return None;
                        }
                        return Some(Object::Integer(-value));
                    }
                }
                Some(Object::Null)
            },
            Expression::Infix(infix) => {
                let left = match self.eval_expression_within(&infix.left, environment, f) {
                    Some(v) => v,
                    None => {
                        return None;
                    },
                };
                let right = match self.eval_expression_within(&infix.right, environment, f) {
                    Some(v) => v,
                    None => {
                        return None;
                    },
                };
                if let Object::Integer(left_value) = left {
                    if let Object::Integer(right_value) = right {
                        return self.checked_infix_integer(left_value, infix.operator.as_str(), right_value);
                    }
                }
                Some(Object::Null)
            },
            Expression::Function(func) => {
                let obj = Object::Function {
                    name: func.name.value.clone(),
                    parameters: identifier_texts(&func.parameters),
                    body: duplicate_statements(&func.body),
                };
                self.functions.insert(func.name.value.clone(), obj.duplicate());
                Some(obj)
            },
            Expression::Call(call) => {
                let function = match self.functions.lookup(&call.name.value) {
                    Some(function) => function.duplicate(),
                    None => {
                        if str_eq(call.name.value.as_str(), "print") {
                            if !self.print_within(&call.arguments, environment, f) {
                                return None;
                            }
                        }
                        return Some(Object::Null);
                    },
                };
                let (parameters, body) = match function {
                    Object::Function { name: _, parameters, body } => (parameters, body),
                    _ => {
                        return Some(Object::Null);
                    },
                };
                let mut isolated = Environment { bindings: environment.bindings.duplicate() };
                proof {
                    lemma_exprs_model(call.arguments@);
                }
                if call.arguments.len() != parameters.len() {
                    return Some(Object::Null);
                }
                let ghost params = texts_model(parameters@);
                let ghost args = exprs_model(call.arguments@);
                let ghost env0 = environment@;
                let ghost fs0 = self@;
                let ghost target = bind_arguments_model(params, args, 0, env0, env0, self@, f as nat);
                let mut i: usize = 0;
                while i < parameters.len()
                    invariant
                        self.wf(),
                        environment.wf(),
                        isolated.wf(),
                        environment@ == env0,
                        env0 == old(environment)@,
                        fs0 == old(self)@,
                        target is None ==> eval_expr_model(expression@, old(environment)@, old(self)@, fuel as nat) is None,
                        i <= parameters@.len(),
                        parameters@.len() == call.arguments@.len(),
                        params == texts_model(parameters@),
                        args == exprs_model(call.arguments@),
                        args.len() == call.arguments@.len(),
                        forall|j: int| 0 <= j < args.len() ==> #[trigger] args[j] == call.arguments@[j]@,
                        target == bind_arguments_model(params, args, 0, env0, env0, fs0, f as nat),
                        bind_arguments_model(params, args, i as nat, env0, isolated@, self@, f as nat) == target,
                        f < fuel,
                    decreases parameters@.len() - i,
                {
                    let argument = call.arguments[i].duplicate();
                    let ghost pre = self@;
                    let obj = match self.eval_expression_within(&argument, environment, f) {
                        Some(obj) => obj,
                        None => {
                            proof {
                                assert(bind_arguments_model(params, args, i as nat, env0, isolated@, pre, f as nat) is None);
                            }
                            return None;
                        },
                    };
                    isolated.bindings.insert(parameters[i].clone(), obj);
                    i = i + 1;
                }
                proof {
                    lemma_stmts_model(body@);
                }
                match self.eval_block_within(&body, &mut isolated, f) {
                    None => None,
                    Some(Object::Return(inner)) => Some(*inner),
                    Some(other) => Some(other),
                }
            },
        }
    }

    /// A call of the built-in `print` with at most `fuel` levels of nesting
    /// for its arguments; `false` when their evaluation fails.
    fn print_within(&mut self, arguments: &Vec<Expression>, environment: &mut Environment, fuel: u64) -> (done: bool)
        requires
            old(self).wf(),
            old(environment).wf(),
        ensures
            final(self).wf(),
            final(environment).wf(),
            final(environment)@ == old(environment)@,
            match eval_list_model(exprs_model(arguments@), 0, Seq::empty(), old(environment)@, old(self)@, fuel as nat) {
                Some((vs, fs)) => done && final(self)@ == fs.with_line(print_line(vs)),
                None => !done,
            },
        decreases fuel, arguments@.len() + 2,
    {
        let ghost args = exprs_model(arguments@);
        let ghost env0 = environment@;
        let ghost target = eval_list_model(args, 0, Seq::empty(), env0, self@, fuel as nat);
        proof {
            lemma_exprs_model(arguments@);
        }
        let mut line = String::new();
        let ghost mut values: Seq<Value> = Seq::empty();
        let mut i: usize = 0;
        while i < arguments.len()
            invariant
                self.wf(),
                environment.wf(),
                environment@ == env0,
                env0 == old(environment)@,
                i <= arguments@.len(),
                args == exprs_model(arguments@),
                args.len() == arguments@.len(),
                forall|j: int| 0 <= j < args.len() ==> #[trigger] args[j] == arguments@[j]@,
                target == eval_list_model(exprs_model(arguments@), 0, Seq::empty(), old(environment)@, old(self)@, fuel as nat),
                eval_list_model(args, i as nat, values, env0, self@, fuel as nat) == target,
                line@ == print_line(values),
            decreases arguments@.len() - i,
        {
            let obj = match self.eval_expression_within(&arguments[i], environment, fuel) {
                Some(obj) => obj,
                None => {
                    return false;
                },
            };
            let shown = render_object(&obj);
            line.append(shown.as_str());
            proof {
                assert(values.push(obj@).drop_last() =~= values);
                values = values.push(obj@);
            }
            i = i + 1;
        }
        let ghost before = self.output@;
        self.output.push(line);
        proof {
            assert(self.output@.map_values(|t: String| t@) =~= before.map_values(|t: String| t@).push(print_line(values)));
        }
        true
    }

    fn eval_block_within(&mut self, statements: &Vec<Statement>, environment: &mut Environment, fuel: u64) -> (r: Option<Object>)
        requires
            old(self).wf(),
            old(environment).wf(),
        ensures
            final(self).wf(),
            final(environment).wf(),
            match r {
                Some(o) => eval_block_model(stmts_model(statements@), 0, Value::Null, old(environment)@, old(self)@, fuel as nat)
                    == Some((o@, final(environment)@, final(self)@)),
                None => eval_block_model(stmts_model(statements@), 0, Value::Null, old(environment)@, old(self)@, fuel as nat) is None,
            },
        decreases fuel, statements@.len() + 1,
    {
        let ghost stmts = stmts_model(statements@);
        let ghost target = eval_block_model(stmts, 0, Value::Null, environment@, self@, fuel as nat);
        proof {
            lemma_stmts_model(statements@);
        }
        let mut result = Object::Null;
        let mut i: usize = 0;
        while i < statements.len()
            invariant
                self.wf(),
                environment.wf(),
                i <= statements@.len(),
                stmts == stmts_model(statements@),
                stmts.len() == statements@.len(),
                forall|j: int| 0 <= j < stmts.len() ==> #[trigger] stmts[j] == statements@[j]@,
                target == eval_block_model(stmts_model(statements@), 0, Value::Null, old(environment)@, old(self)@, fuel as nat),
                eval_block_model(stmts, i as nat, result@, environment@, self@, fuel as nat) == target,
            decreases statements@.len() - i,
        {
            result = match self.eval_statement_within(&statements[i], environment, fuel) {
                Some(o) => o,
                None => {
                    return None;
                },
            };
            if let Object::Return(_) = result {
                return Some(result);
            }
            i = i + 1;
        }
        Some(result)
    }

    /// Runs a statement with at most `fuel` levels of nesting: `None` when
    /// that is not enough, or when the evaluation overflows or divides by
    /// zero.
    pub fn eval_statement_within(&mut self, statement: &Statement, environment: &mut Environment, fuel: u64) -> (r: Option<Object>)
        requires
            old(self).wf(),
            old(environment).wf(),
        ensures
            final(self).wf(),
            final(environment).wf(),
            match r {
                Some(o) => eval_stmt_model(statement@, old(environment)@, old(self)@, fuel as nat)
                    == Some((o@, final(environment)@, final(self)@)),
                None => eval_stmt_model(statement@, old(environment)@, old(self)@, fuel as nat) is None,
            },
        decreases fuel, 0nat,
    {
        if fuel == 0 {
            return None;
        }
        let f: u64 = fuel - 1;
        match statement {
            Statement::Expression(expression_statement) => {
                self.eval_expression_within(&expression_statement.expression, environment, f)
            },
            Statement::Return(return_statement) => {
                match self.eval_expression_within(&return_statement.return_value, environment, f) {
                    Some(exp) => Some(Object::Return(Box::new(exp))),
                    None => None,
                }
            },
            Statement::Val(val_statement) => {
                let value = match self.eval_expression_within(&val_statement.value, environment, f) {
                    Some(v) => v,
                    None => {
                        return None;
                    },
                };
                environment.bindings.insert(val_statement.name.value.clone(), value);
                Some(Object::Null)
            },
            Statement::If(if_statement) => {
                let condition = match self.eval_expression_within(&if_statement.condition, environment, f) {
                    Some(v) => v,
                    None => {
                        return None;
                    },
                };
                let condition = match condition {
                    Object::Boolean(condition) => condition,
                    _ => {
                        return Some(Object::Null);
                    },
                };
                let branch = if condition {
                    &if_statement.consequence
                } else {
                    &if_statement.alternative
                };
                self.eval_block_within(branch, environment, f)
            },
            Statement::For(for_statement) => {
                match self.eval_statement_within(&for_statement.initialization, environment, f) {
                    Some(_) => {},
                    None => {
                        return None;
                    },
                }
                let ghost body = stmts_model(for_statement.body@);
                let ghost update = for_statement.update@;
                let ghost condition = for_statement.condition@;
                let ghost target = for_loop_model(condition, update, body, environment@, self@, f as nat);
                let mut g: u64 = f;
                loop
                    invariant
                        self.wf(),
                        environment.wf(),
                        g < fuel,
                        body == stmts_model(for_statement.body@),
                        update == for_statement.update@,
                        condition == for_statement.condition@,
                        target == eval_stmt_model(statement@, old(environment)@, old(self)@, fuel as nat),
                        for_loop_model(condition, update, body, environment@, self@, g as nat) == target,
                    decreases g,
                {
                    if g == 0 {
                        return None;
                    }
                    let h: u64 = g - 1;
                    let c = match self.eval_expression_within(&for_statement.condition, environment, h) {
                        Some(c) => c,
                        None => {
                            return None;
                        },
                    };
                    match c {
                        Object::Boolean(true) => {},
                        _ => {
                            return Some(Object::Null);
                        },
                    }
                    let v = match self.eval_block_within(&for_statement.body, environment, h) {
                        Some(v) => v,
                        None => {
                            return None;
                        },
                    };
                    if let Object::Return(_) = v {
                        return Some(v);
                    }
                    match self.eval_statement_within(&for_statement.update, environment, h) {
                        Some(_) => {},
                        None => {
                            return None;
                        },
                    }
                    g = h;
                }
            },
        }
    }

    /// Runs the statements of a program as `run_program` does, each with at
    /// most `fuel` levels of nesting: `None` when that is not enough, or when
    /// the evaluation overflows or divides by zero.
    pub fn run_program_within(&mut self, program: Program, fuel: u64) -> (results: Option<Vec<Object>>)
        requires
            old(self).wf(),
        ensures
            final(self).wf(),
            match results {
                Some(rs) => run_model(stmts_model(program.statements@), 0, Bindings::empty(), old(self)@, fuel as nat)
                    == Some((values_of(rs@), final(self)@)),
                None => run_model(stmts_model(program.statements@), 0, Bindings::empty(), old(self)@, fuel as nat) is None,
            },
    {
        let ghost stmts = stmts_model(program.statements@);
        let ghost target = run_model(stmts, 0, Bindings::empty(), self@, fuel as nat);
        proof {
            lemma_stmts_model(program.statements@);
        }
        let mut environment = Environment::new();
        let mut results: Vec<Object> = Vec::new();
        let ghost mut done: Seq<Value> = Seq::empty();
        let mut i: usize = 0;
        while i < program.statements.len()
            invariant
                self.wf(),
                environment.wf(),
                i <= program.statements@.len(),
                stmts == stmts_model(program.statements@),
                stmts.len() == program.statements@.len(),
                forall|j: int| 0 <= j < stmts.len() ==> #[trigger] stmts[j] == program.statements@[j]@,
                target == run_model(stmts_model(program.statements@), 0, Bindings::empty(), old(self)@, fuel as nat),
                values_of(results@) == done,
                match run_model(stmts, i as nat, environment@, self@, fuel as nat) {
                    Some((vs, fs)) => target == Some((done + vs, fs)),
                    None => target is None,
                },
            decreases program.statements@.len() - i,
        {
            let object = match self.eval_statement_within(&program.statements[i], &mut environment, fuel) {
                Some(o) => o,
                None => {
                    return None;
                },
            };
            let ghost v = object@;
            results.push(object);
            proof {
                assert(values_of(results@) =~= done.push(v));
                match run_model(stmts, (i + 1) as nat, environment@, self@, fuel as nat) {
                    Some((vs, fs)) => {
                        assert(done + (seq![v] + vs) =~= done.push(v) + vs);
                    },
                    None => {},
                }
                done = done.push(v);
            }
            i = i + 1;
        }
        proof {
            assert(done + Seq::<Value>::empty() =~= done);
        }
        Some(results)
    }
}

/// Division of machine integers, rounding toward zero, computed on the
/// magnitudes.
pub fn quotient(left: i64, right: i64) -> (q: i64)
    requires
        right != 0,
        !(left == i64::MIN && right == -1),
    ensures
        q == quotient_toward_zero(left as int, right as int),
{
    let a: u64 = if left < 0 { (0i128 - left as i128) as u64 } else { left as u64 };
    let b: u64 = if right < 0 { (0i128 - right as i128) as u64 } else { right as u64 };
    let m: u64 = a / b;
    proof {
        assert(m <= a) by (nonlinear_arith)
            requires
                m == a / b,
                b >= 1,
        ;
        if left == i64::MIN && right < 0 {
            assert(b >= 2);
            assert(m <= a / 2) by (nonlinear_arith)
                requires
                    m == a / b,
                    b >= 2,
            ;
        }
    }
    if (left < 0) != (right < 0) {
        (0i128 - m as i128) as i64
    } else {
        m as i64
    }
}

} // verus!
