use vstd::prelude::*;
use crate::ast::{Statement, Stmt, stmts_model, duplicate_statements};
use vstd::string::StringExecFns;

verus! {

/// The values that programs compute.
#[derive(Debug)]
pub enum Object {
    Integer(i64),
    Boolean(bool),
    String(String),
    Array(Vec<Object>),
    Return(Box<Object>),
    Function { name: String, parameters: Vec<String>, body: Vec<Statement> },
    Null,
}

/// The mathematical model of a value.
pub enum Value {
    Integer(i64),
    Boolean(bool),
    Str(Seq<char>),
    Array(Seq<Value>),
    Return(Box<Value>),
    Function { name: Seq<char>, parameters: Seq<Seq<char>>, body: Seq<Stmt> },
    Null,
}

pub open spec fn texts_model(s: Seq<String>) -> Seq<Seq<char>> {
    s.map_values(|t: String| t@)
}

pub open spec fn value_of(o: Object) -> Value
    decreases o,
{
    match o {
        Object::Integer(n) => Value::Integer(n),
        Object::Boolean(b) => Value::Boolean(b),
        Object::String(t) => Value::Str(t@),
        Object::Array(items) => Value::Array(objects_model(items@)),
        Object::Return(inner) => Value::Return(Box::new(value_of(*inner))),
        Object::Function { name, parameters, body } => Value::Function {
            name: name@,
            parameters: texts_model(parameters@),
            body: stmts_model(body@),
        },
        Object::Null => Value::Null,
    }
}

/// The models of a list of values.
pub open spec fn objects_model(s: Seq<Object>) -> Seq<Value>
    decreases s,
{
    if s.len() == 0 {
        Seq::empty()
    } else {
        objects_model(s.subrange(0, s.len() - 1)).push(value_of(s[s.len() - 1]))
    }
}

pub proof fn lemma_objects_model(s: Seq<Object>)
    ensures
        objects_model(s).len() == s.len(),
        forall|i: int| 0 <= i < s.len() ==> #[trigger] objects_model(s)[i] == value_of(s[i]),
    decreases s.len(),
{
    if s.len() > 0 {
        lemma_objects_model(s.subrange(0, s.len() - 1));
    }
}

pub proof fn lemma_objects_model_push(s: Seq<Object>, o: Object)
    ensures
        objects_model(s.push(o)) == objects_model(s).push(value_of(o)),
{
    assert(s.push(o).subrange(0, s.len() as int) =~= s);
}

/// The text of a decimal digit.
pub open spec fn digit_text(d: int) -> Seq<char> {
    if d == 0 { "0"@ } else if d == 1 { "1"@ } else if d == 2 { "2"@ } else if d == 3 { "3"@ }
    else if d == 4 { "4"@ } else if d == 5 { "5"@ } else if d == 6 { "6"@ } else if d == 7 { "7"@ }
    else if d == 8 { "8"@ } else { "9"@ }
}

/// The decimal text of a natural number, without leading zeros.
pub open spec fn natural_text(n: nat) -> Seq<char>
    decreases n,
{
    if n < 10 {
        digit_text(n as int)
    } else {
        natural_text(n / 10) + digit_text((n % 10) as int)
    }
}

/// The decimal text of an integer, with `-` before a negative one.
pub open spec fn integer_text(n: int) -> Seq<char> {
    if n < 0 {
        "-"@ + natural_text((-n) as nat)
    } else {
        natural_text(n as nat)
    }
}

/// How `print` shows a value: integers in decimal, booleans as `true` and
/// `false`, strings as they are, arrays as `[a, b, c]`, a function as
/// `func` and its name, and `null`.
pub open spec fn render(v: Value) -> Seq<char>
    decreases v,
{
    match v {
        Value::Integer(n) => integer_text(n as int),
        Value::Boolean(b) => if b { "true"@ } else { "false"@ },
        Value::Str(t) => t,
        Value::Array(items) => "["@ + render_list(items) + "]"@,
        Value::Return(inner) => render(*inner),
        Value::Function { name, parameters: _, body: _ } => "func "@ + name,
        Value::Null => "null"@,
    }
}

/// The items of an array as `print` shows them, separated by `, `.
pub open spec fn render_list(items: Seq<Value>) -> Seq<char>
    decreases items,
{
    if items.len() == 0 {
        Seq::empty()
    } else if items.len() == 1 {
        render(items[0])
    } else {
        render_list(items.subrange(0, items.len() - 1)) + ", "@ + render(items[items.len() - 1])
    }
}

/// What one call of `print` writes: its arguments shown one after the other.
pub open spec fn print_line(values: Seq<Value>) -> Seq<char>
    decreases values.len(),
{
    if values.len() == 0 {
        Seq::empty()
    } else {
        print_line(values.drop_last()) + render(values.last())
    }
}

fn digit_str(d: u64) -> (s: &'static str)
    requires
        d < 10,
    ensures
        s@ == digit_text(d as int),
{
    if d == 0 { "0" } else if d == 1 { "1" } else if d == 2 { "2" } else if d == 3 { "3" }
    else if d == 4 { "4" } else if d == 5 { "5" } else if d == 6 { "6" } else if d == 7 { "7" }
    else if d == 8 { "8" } else { "9" }
}

/// The decimal text of `n`.
pub fn natural_string(n: u64) -> (s: String)
    ensures
        s@ == natural_text(n as nat),
    decreases n,
{
    if n < 10 {
        String::from_str(digit_str(n))
    } else {
        let mut s = natural_string(n / 10);
        s.append(digit_str(n % 10));
        s
    }
}

/// The decimal text of `n`, with `-` before a negative number.
pub fn integer_string(n: i64) -> (s: String)
    ensures
        s@ == integer_text(n as int),
{
    if n < 0 {
        let m: u64 = (0i128 - n as i128) as u64;
        let mut s = String::from_str("-");
        let digits = natural_string(m);
        s.append(digits.as_str());
        s
    } else {
        natural_string(n as u64)
    }
}

/// The text that `print` shows for a value.
pub fn render_object(o: &Object) -> (s: String)
    ensures
        s@ == render(o@),
    decreases o,
{
    match o {
        Object::Integer(n) => integer_string(*n),
        Object::Boolean(b) => if *b { String::from_str("true") } else { String::from_str("false") },
        Object::String(t) => t.clone(),
        Object::Array(items) => {
            let mut s = String::from_str("[");
            let inner = render_objects(items);
            s.append(inner.as_str());
            s.append("]");
            s
        },
        Object::Return(inner) => render_object(inner),
        Object::Function { name, parameters: _, body: _ } => {
            let mut s = String::from_str("func ");
            s.append(name.as_str());
            s
        },
        Object::Null => String::from_str("null"),
    }
}

/// The items of a list as `print` shows them, separated by `, `.
fn render_objects(v: &Vec<Object>) -> (s: String)
    ensures
        s@ == render_list(objects_model(v@)),
    decreases v,
{
    let mut s = String::new();
    let mut i: usize = 0;
    while i < v.len()
        invariant
            i <= v.len(),
            s@ == render_list(objects_model(v@.subrange(0, i as int))),
        decreases v.len() - i,
    {
        let ghost prefix = v@.subrange(0, i as int);
        proof {
            assert(v@.subrange(0, i + 1).subrange(0, i as int) =~= prefix);
            lemma_objects_model(prefix);
        }
        if i > 0 {
            s.append(", ");
        }
        let r = render_object(&v[i]);
        s.append(r.as_str());
        proof {
            let next = v@.subrange(0, i + 1);
            let items = objects_model(next);
            assert(next.subrange(0, i as int) =~= prefix);
            assert(items == objects_model(prefix).push(value_of(v@[i as int])));
            lemma_objects_model(next);
            assert(items.subrange(0, i as int) =~= objects_model(prefix));
            assert(items[i as int] == v@[i as int]@);
        }
        i = i + 1;
    }
    proof {
        assert(v@.subrange(0, v@.len() as int) =~= v@);
    }
    s
}

impl View for Object {
    type V = Value;

    open spec fn view(&self) -> Value {
        value_of(*self)
    }
}

/// A copy of a list of texts.
pub fn duplicate_texts(v: &Vec<String>) -> (r: Vec<String>)
    ensures
        texts_model(r@) == texts_model(v@),
{
    let mut r: Vec<String> = Vec::new();
    let mut i: usize = 0;
    while i < v.len()
        invariant
            i <= v.len(),
            r@.len() == i,
            forall|j: int| 0 <= j < i ==> (#[trigger] r@[j])@ == v@[j]@,
        decreases v.len() - i,
    {
        r.push(v[i].clone());
        i = i + 1;
    }
    assert(texts_model(r@) =~= texts_model(v@));
    r
}

impl Clone for Object {
    fn clone(&self) -> (r: Object)
        ensures
            r@ == self@,
    {
        self.duplicate()
    }
}

impl Object {
    /// A deep copy with the same model.
    pub fn duplicate(&self) -> (r: Object)
        ensures
            r@ == self@,
        decreases self,
    {
        match self {
            Object::Integer(n) => Object::Integer(*n),
            Object::Boolean(b) => Object::Boolean(*b),
            Object::String(t) => Object::String(t.clone()),
            Object::Array(items) => Object::Array(duplicate_objects(items)),
            Object::Return(inner) => Object::Return(Box::new(inner.duplicate())),
            Object::Function { name, parameters, body } => Object::Function {
                name: name.clone(),
                parameters: duplicate_texts(parameters),
                body: duplicate_statements(body),
            },
            Object::Null => Object::Null,
        }
    }
}

/// A deep copy of a list of values.
pub fn duplicate_objects(v: &Vec<Object>) -> (r: Vec<Object>)
    ensures
        objects_model(r@) == objects_model(v@),
    decreases v,
{
    let mut r: Vec<Object> = Vec::new();
    let mut i: usize = 0;
    while i < v.len()
        invariant
            i <= v.len(),
            objects_model(r@) == objects_model(v@.subrange(0, i as int)),
        decreases v.len() - i,
    {
        let ghost prefix = r@;
        let o = v[i].duplicate();
        r.push(o);
        proof {
            lemma_objects_model_push(prefix, o);
            lemma_objects_model_push(v@.subrange(0, i as int), v@[i as int]);
            assert(v@.subrange(0, i as int).push(v@[i as int]) =~= v@.subrange(0, i + 1));
        }
        i = i + 1;
    }
    proof {
        assert(v@.subrange(0, v@.len() as int) =~= v@);
    }
    r
}

} // verus!
