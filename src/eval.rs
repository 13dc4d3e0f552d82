//! Evaluating syntax trees under a lexically scoped environment.
use vstd::prelude::*;
use vstd::string::*;

use crate::parse::{parse_spec, Atom, AtomView, ParseSExprError, SExpr, SExprView};
use crate::render::{integer_text, integer_to_string};

verus! {

/// A built-in operation.
#[derive(Debug, PartialEq, Eq, Structural, Clone, Copy)]
pub enum Procedure {
    Sum,
    Product,
}

/// The result of evaluating an expression.
#[derive(Debug, PartialEq, Eq, Structural, Clone, Copy)]
pub enum Value {
    Integer(i64),
    Procedure(Procedure),
}

/// Why an expression could not be evaluated.
#[derive(Debug, PartialEq, Eq)]
pub enum EvalError {
    /// A value of the wrong kind where another was needed: a non-integer
    /// argument to arithmetic, or a call of something that is not a procedure.
    ContractViolation,
    /// A symbol with no binding in scope.
    Undefined(String),
    /// A malformed special form, named by the string.
    BadSyntax(String),
}

/// The mathematical value of an [`EvalError`].
pub enum EvalErrorView {
    ContractViolation,
    Undefined(Seq<char>),
    BadSyntax(Seq<char>),
}

impl View for EvalError {
    type V = EvalErrorView;

    open spec fn view(&self) -> EvalErrorView {
        match self {
            EvalError::ContractViolation => EvalErrorView::ContractViolation,
            EvalError::Undefined(s) => EvalErrorView::Undefined(s@),
            EvalError::BadSyntax(s) => EvalErrorView::BadSyntax(s@),
        }
    }
}

/// The view of an evaluation outcome.
pub open spec fn outcome(r: Result<Value, EvalError>) -> Result<Value, EvalErrorView> {
    match r {
        Ok(v) => Ok(v),
        Err(e) => Err(e@),
    }
}

impl Value {
    /// The integer that the value holds, if it is an integer.
    pub fn as_integer(&self) -> (r: Option<i64>)
        ensures
            r == match *self {
                Value::Integer(i) => Some(i),
                _ => None::<i64>,
            },
    {
        match self {
            Value::Integer(i) => Some(*i),
            _ => None,
        }
    }
}

/// The binding of `name` that was made last in `table`, if any.
pub open spec fn lookup(table: Seq<(String, Value)>, name: Seq<char>) -> Option<Value>
    decreases table.len(),
{
    if table.len() == 0 {
        None
    } else if table.last().0@ == name {
        Some(table.last().1)
    } else {
        lookup(table.drop_last(), name)
    }
}

/// A scope: a mapping from names to values. Extending a scope makes a new
/// one and leaves the old one as it was.
pub struct Env {
    table: Vec<(String, Value)>,
}

impl View for Env {
    type V = Map<Seq<char>, Value>;

    closed spec fn view(&self) -> Map<Seq<char>, Value> {
        Map::new(
            |name: Seq<char>| lookup(self.table@, name) is Some,
            |name: Seq<char>| lookup(self.table@, name)->Some_0,
        )
    }
}

pub open spec fn sum_name() -> Seq<char> {
    "+"@
}

pub open spec fn product_name() -> Seq<char> {
    "*"@
}

/// The scope that programs start in: `+` and `*` and nothing else.
pub open spec fn standard_env() -> Map<Seq<char>, Value> {
    map![
        sum_name() => Value::Procedure(Procedure::Sum),
        product_name() => Value::Procedure(Procedure::Product),
    ]
}

impl Env {
    /// The scope that programs start in.
    pub fn standard() -> (r: Env)
        ensures
            r@ == standard_env(),
    {
        let mut table: Vec<(String, Value)> = Vec::new();
        table.push((String::from_str("+"), Value::Procedure(Procedure::Sum)));
        table.push((String::from_str("*"), Value::Procedure(Procedure::Product)));
        let r = Env { table };
        proof {
            reveal_strlit("+");
            reveal_strlit("*");
            assert(r.table@.drop_last().drop_last() =~= Seq::<(String, Value)>::empty());
            reveal_with_fuel(lookup, 3);
            assert(r@ =~= standard_env());
        }
        r
    }

    /// The value bound to `name`.
    pub fn get(&self, name: &String) -> (r: Option<Value>)
        ensures
            r == if self@.contains_key(name@) {
                Some(self@[name@])
            } else {
                None::<Value>
            },
    {
        let mut i: usize = self.table.len();
        assert(self.table@.take(i as int) =~= self.table@);
        while i > 0
            invariant
                i <= self.table@.len(),
                lookup(self.table@, name@) == lookup(self.table@.take(i as int), name@),
            decreases i,
        {
            let ghost t = self.table@.take(i as int);
            assert(t.drop_last() =~= self.table@.take(i - 1));
            if self.table[i - 1].0 == *name {
                return Some(self.table[i - 1].1);
            }
            i -= 1;
        }
        None
    }

    /// A scope with the same bindings as `self`.
    fn duplicate(&self) -> (r: Env)
        ensures
            r.table@ == self.table@,
            r@ == self@,
    {
        let mut table: Vec<(String, Value)> = Vec::new();
        let mut i: usize = 0;
        while i < self.table.len()
            invariant
                i <= self.table@.len(),
                table@ == self.table@.take(i as int),
            decreases self.table@.len() - i,
        {
            let entry = (self.table[i].0.clone(), self.table[i].1);
            table.push(entry);
            i += 1;
            assert(table@ =~= self.table@.take(i as int));
        }
        assert(table@ =~= self.table@);
        Env { table }
    }

    /// A new scope in which `name` is bound to `value` and every other name
    /// to what it is bound to in `self`.
    pub fn with_binding(&self, name: String, value: Value) -> (r: Env)
        ensures
            r@ == self@.insert(name@, value),
    {
        let mut table = self.duplicate().table;
        table.push((name, value));
        let r = Env { table };
        assert(r.table@.drop_last() =~= self.table@);
        assert(r@ =~= self@.insert(name@, value));
        r
    }
}

/// `x` reduced into the range of `i64` modulo 2^64: the two's-complement
/// wraparound that `i64`'s wrapping operations perform.
pub open spec fn wrap_i64(x: int) -> i64 {
    let m = x % 0x1_0000_0000_0000_0000;
    if m > i64::MAX {
        (m - 0x1_0000_0000_0000_0000) as i64
    } else {
        m as i64
    }
}

pub open spec fn all_integers(vs: Seq<Value>) -> bool {
    forall|i: int| 0 <= i < vs.len() ==> #[trigger] vs[i] is Integer
}

/// The exact sum of the integers in `vs`.
pub open spec fn sum_of(vs: Seq<Value>) -> int
    decreases vs.len(),
{
    if vs.len() == 0 {
        0
    } else {
        sum_of(vs.drop_last()) + vs.last()->Integer_0
    }
}

/// The exact product of the integers in `vs`.
pub open spec fn product_of(vs: Seq<Value>) -> int
    decreases vs.len(),
{
    if vs.len() == 0 {
        1
    } else {
        product_of(vs.drop_last()) * vs.last()->Integer_0
    }
}

/// `wrap_i64(x)` is the one `i64` that is congruent to `x` modulo 2^64.
proof fn lemma_wrap_unique(x: int, r: int)
    requires
        i64::MIN <= r <= i64::MAX,
        (x - r) % 0x1_0000_0000_0000_0000 == 0,
    ensures
        wrap_i64(x) == r,
{
    let m: int = 0x1_0000_0000_0000_0000;
    vstd::arithmetic::div_mod::lemma_fundamental_div_mod(x - r, m);
    vstd::arithmetic::div_mod::lemma_fundamental_div_mod(x, m);
    let q = (x - r) / m;
    let qx = x / m;
    assert(x - r == m * q);
    assert(x == m * qx + x % m);
    assert(0 <= x % m < m);
    // x % m - r == m * (q - qx), with both sides in (-2m, 2m)
    assert(x % m - r == m * (q - qx)) by (nonlinear_arith)
        requires
            x - r == m * q,
            x == m * qx + x % m,
    ;
    if r >= 0 {
        assert(q - qx == 0) by (nonlinear_arith)
            requires
                x % m - r == m * (q - qx),
                0 <= x % m < m,
                0 <= r < m,
                m > 0,
        ;
    } else {
        assert(q - qx == 1) by (nonlinear_arith)
            requires
                x % m - r == m * (q - qx),
                0 <= x % m < m,
                -m < r < 0,
                r >= -(m / 2),
                m > 0,
        ;
    }
}

proof fn lemma_wrap_congruent(x: int)
    ensures
        (x - wrap_i64(x)) % 0x1_0000_0000_0000_0000 == 0,
{
    let m: int = 0x1_0000_0000_0000_0000;
    vstd::arithmetic::div_mod::lemma_fundamental_div_mod(x, m);
    let q = x / m;
    if x % m > i64::MAX {
        assert(x - wrap_i64(x) == m * (q + 1)) by (nonlinear_arith)
            requires
                x == m * q + x % m,
                wrap_i64(x) == x % m - m,
        ;
        vstd::arithmetic::div_mod::lemma_mod_multiples_basic(q + 1, m);
    } else {
        assert(x - wrap_i64(x) == m * q);
        vstd::arithmetic::div_mod::lemma_mod_multiples_basic(q, m);
    }
}

proof fn lemma_wrap_add(x: int, y: i64)
    ensures
        wrap_i64(x).wrapping_add(y) == wrap_i64(x + y),
{
    let m: int = 0x1_0000_0000_0000_0000;
    let w = wrap_i64(x);
    lemma_wrap_congruent(x);
    let r = w.wrapping_add(y) as int;
    assert(r == w + y || r == w + y - m || r == w + y + m);
    vstd::arithmetic::div_mod::lemma_fundamental_div_mod(x - w, m);
    let q = (x - w) / m;
    assert(x - w == m * q);
    if r == w + y {
        assert((x + y) - r == m * q);
    } else if r == w + y - m {
        assert((x + y) - r == m * q + m);
        assert((x + y) - r == m * (q + 1)) by (nonlinear_arith)
            requires
                (x + y) - r == m * q + m,
        ;
    } else {
        assert((x + y) - r == m * (q - 1)) by (nonlinear_arith)
            requires
                (x + y) - r == m * q - m,
                r == w + y + m,
                x - w == m * q,
        ;
    }
    assert(((x + y) - r) % m == 0) by {
        vstd::arithmetic::div_mod::lemma_fundamental_div_mod((x + y) - r, m);
        if r == w + y {
            vstd::arithmetic::div_mod::lemma_mod_multiples_basic(q, m);
        } else if r == w + y - m {
            vstd::arithmetic::div_mod::lemma_mod_multiples_basic(q + 1, m);
        } else {
            vstd::arithmetic::div_mod::lemma_mod_multiples_basic(q - 1, m);
        }
    }
    lemma_wrap_unique(x + y, r);
}

proof fn lemma_wrap_mul(x: int, y: i64)
    ensures
        wrap_i64(x).wrapping_mul(y) == wrap_i64(x * y),
{
    let m: int = 0x1_0000_0000_0000_0000;
    let w = wrap_i64(x);
    lemma_wrap_congruent(x);
    let p = w as int * y as int;
    lemma_wrap_congruent(p);
    let r = wrap_i64(p);
    assert(w.wrapping_mul(y) == r);
    vstd::arithmetic::div_mod::lemma_fundamental_div_mod(x - w, m);
    vstd::arithmetic::div_mod::lemma_fundamental_div_mod(p - r, m);
    let q1 = (x - w) / m;
    let q2 = (p - r) / m;
    assert(x * y - r == m * (q1 * y + q2)) by (nonlinear_arith)
        requires
            x - w == m * q1,
            p - r == m * q2,
            p == w * y,
    ;
    vstd::arithmetic::div_mod::lemma_mod_multiples_basic(q1 * y + q2, m);
    lemma_wrap_unique(x * y, r as int);
}

/// Adding up the arguments of `+`: every one must be an integer.
pub open spec fn sum_spec(args: Seq<Value>) -> Result<Value, EvalErrorView> {
    if all_integers(args) {
        Ok(Value::Integer(wrap_i64(sum_of(args))))
    } else {
        Err(EvalErrorView::ContractViolation)
    }
}

/// Multiplying the arguments of `*`: every one must be an integer.
pub open spec fn product_spec(args: Seq<Value>) -> Result<Value, EvalErrorView> {
    if all_integers(args) {
        Ok(Value::Integer(wrap_i64(product_of(args))))
    } else {
        Err(EvalErrorView::ContractViolation)
    }
}

/// Calling `f` on `args`.
pub open spec fn apply_spec(f: Value, args: Seq<Value>) -> Result<Value, EvalErrorView> {
    match f {
        Value::Procedure(Procedure::Sum) => sum_spec(args),
        Value::Procedure(Procedure::Product) => product_spec(args),
        Value::Integer(_) => Err(EvalErrorView::ContractViolation),
    }
}

fn sum_values(vs: &[Value]) -> (r: Result<Value, EvalError>)
    ensures
        outcome(r) == sum_spec(vs@),
{
    let mut total: i64 = 0;
    let mut i: usize = 0;
    assert(vs@.take(0) =~= Seq::<Value>::empty());
    while i < vs.len()
        invariant
            i <= vs@.len(),
            all_integers(vs@.take(i as int)),
            total == wrap_i64(sum_of(vs@.take(i as int))),
        decreases vs@.len() - i,
    {
        let ghost before = vs@.take(i as int);
        match vs[i].as_integer() {
            Some(n) => {
                proof {
                    lemma_wrap_add(sum_of(before), n);
                    assert(vs@.take(i + 1).drop_last() =~= before);
                }
                total = total.wrapping_add(n);
                i += 1;
            },
            None => {
                assert(!all_integers(vs@));
                return Err(EvalError::ContractViolation);
            },
        }
    }
    assert(vs@.take(i as int) =~= vs@);
    Ok(Value::Integer(total))
}

fn product_values(vs: &[Value]) -> (r: Result<Value, EvalError>)
    ensures
        outcome(r) == product_spec(vs@),
{
    let mut total: i64 = 1;
    let mut i: usize = 0;
    assert(vs@.take(0) =~= Seq::<Value>::empty());
    while i < vs.len()
        invariant
            i <= vs@.len(),
            all_integers(vs@.take(i as int)),
            total == wrap_i64(product_of(vs@.take(i as int))),
        decreases vs@.len() - i,
    {
        let ghost before = vs@.take(i as int);
        match vs[i].as_integer() {
            Some(n) => {
                proof {
                    lemma_wrap_mul(product_of(before), n);
                    assert(vs@.take(i + 1).drop_last() =~= before);
                }
                total = total.wrapping_mul(n);
                i += 1;
            },
            None => {
                assert(!all_integers(vs@));
                return Err(EvalError::ContractViolation);
            },
        }
    }
    assert(vs@.take(i as int) =~= vs@);
    Ok(Value::Integer(total))
}

fn apply_procedure(f: &Value, args: &[Value]) -> (r: Result<Value, EvalError>)
    ensures
        outcome(r) == apply_spec(*f, args@),
{
    match f {
        Value::Procedure(Procedure::Sum) => sum_values(args),
        Value::Procedure(Procedure::Product) => product_values(args),
        Value::Integer(_) => Err(EvalError::ContractViolation),
    }
}

pub open spec fn let_name() -> Seq<char> {
    "let"@
}

/// The name under which an empty call `()` is reported.
pub open spec fn empty_call_name() -> Seq<char> {
    "()"@
}

/// A list that begins with the symbol `let`.
pub open spec fn starts_with_let(items: Seq<SExprView>) -> bool {
    items.len() > 0 && items[0] == SExprView::Atom(AtomView::Symbol(let_name()))
}

/// A `let` binding: a two-item list whose first item is a symbol.
pub open spec fn is_binding(b: SExprView) -> bool {
    match b {
        SExprView::SList(p) => p.len() == 2 && p[0] is Atom && p[0]->Atom_0 is Symbol,
        _ => false,
    }
}

/// `(let (bindings...) body)` with every binding well formed.
pub open spec fn let_form_ok(items: Seq<SExprView>) -> bool {
    &&& items.len() == 3
    &&& items[1] is SList
    &&& forall|i: int|
        0 <= i < items[1]->SList_0.len() ==> is_binding(#[trigger] items[1]->SList_0[i])
}

/// What evaluating `e` in the scope `env` gives.
pub open spec fn eval_spec(e: SExprView, env: Map<Seq<char>, Value>) -> Result<
    Value,
    EvalErrorView,
>
    decreases e,
{
    match e {
        SExprView::Atom(AtomView::Integer(i)) => Ok(Value::Integer(i)),
        SExprView::Atom(AtomView::Symbol(s)) => if env.contains_key(s) {
            Ok(env[s])
        } else {
            Err(EvalErrorView::Undefined(s))
        },
        SExprView::SList(items) => if items.len() == 0 {
            Err(EvalErrorView::BadSyntax(empty_call_name()))
        } else if starts_with_let(items) {
            if !let_form_ok(items) {
                Err(EvalErrorView::BadSyntax(let_name()))
            } else {
                match items[1] {
                    SExprView::SList(bindings) => match bind_spec(bindings, env, env) {
                        Ok(scope) => eval_spec(items[2], scope),
                        Err(err) => Err(err),
                    },
                    _ => Err(EvalErrorView::BadSyntax(let_name())),
                }
            }
        } else {
            match eval_all_spec(items, env) {
                Ok(values) => apply_spec(values[0], values.drop_first()),
                Err(err) => Err(err),
            }
        },
    }
}

/// Evaluating `items` in `env` from left to right, stopping at the first
/// error.
pub open spec fn eval_all_spec(items: Seq<SExprView>, env: Map<Seq<char>, Value>) -> Result<
    Seq<Value>,
    EvalErrorView,
>
    decreases items,
{
    if items.len() == 0 {
        Ok(Seq::empty())
    } else {
        match eval_spec(items[0], env) {
            Err(err) => Err(err),
            Ok(v) => match eval_all_spec(items.subrange(1, items.len() as int), env) {
                Ok(values) => Ok(seq![v] + values),
                Err(err) => Err(err),
            },
        }
    }
}

/// Adding the `let` bindings `bindings` to `scope` from left to right, with
/// each right-hand side evaluated in `env`, the scope outside the `let`.
pub open spec fn bind_spec(
    bindings: Seq<SExprView>,
    env: Map<Seq<char>, Value>,
    scope: Map<Seq<char>, Value>,
) -> Result<Map<Seq<char>, Value>, EvalErrorView>
    decreases bindings,
{
    if bindings.len() == 0 {
        Ok(scope)
    } else {
        match bindings[0] {
            SExprView::SList(p) => if p.len() == 2 {
                match p[0] {
                    SExprView::Atom(AtomView::Symbol(name)) => match eval_spec(p[1], env) {
                        Ok(v) => bind_spec(
                            bindings.subrange(1, bindings.len() as int),
                            env,
                            scope.insert(name, v),
                        ),
                        Err(err) => Err(err),
                    },
                    _ => Err(EvalErrorView::BadSyntax(let_name())),
                }
            } else {
                Err(EvalErrorView::BadSyntax(let_name()))
            },
            _ => Err(EvalErrorView::BadSyntax(let_name())),
        }
    }
}

/// Puts `front` before the values of a successful evaluation.
pub open spec fn prepend_values(
    front: Seq<Value>,
    r: Result<Seq<Value>, EvalErrorView>,
) -> Result<Seq<Value>, EvalErrorView> {
    match r {
        Ok(values) => Ok(front + values),
        Err(err) => Err(err),
    }
}

fn bad_let() -> (r: EvalError)
    ensures
        r@ == EvalErrorView::BadSyntax(let_name()),
{
    EvalError::BadSyntax(String::from_str("let"))
}

fn eval_atom(atom: &Atom, env: &Env) -> (r: Result<Value, EvalError>)
    ensures
        outcome(r) == eval_spec(SExprView::Atom(atom@), env@),
{
    match atom {
        Atom::Integer(i) => Ok(Value::Integer(*i)),
        Atom::Symbol(s) => match env.get(s) {
            Some(v) => Ok(v),
            None => Err(EvalError::Undefined(s.clone())),
        },
    }
}

fn is_let_symbol(e: &SExpr) -> (r: bool)
    ensures
        r == (e@ == SExprView::Atom(AtomView::Symbol(let_name()))),
{
    match e {
        SExpr::Atom(Atom::Symbol(s)) => *s == String::from_str("let"),
        _ => false,
    }
}

/// Takes a binding `(name expr)` apart.
fn parse_binding(binding: &SExpr) -> (r: Result<(&String, &SExpr), EvalError>)
    ensures
        match r {
            Ok((name, e)) => {
                &&& is_binding(binding@)
                &&& binding@->SList_0[0] == SExprView::Atom(AtomView::Symbol(name@))
                &&& binding@->SList_0[1] == e@
                &&& decreases_to!(*binding => *e)
            },
            Err(err) => !is_binding(binding@) && err@ == EvalErrorView::BadSyntax(let_name()),
        },
{
    match binding {
        SExpr::SList(pair) => {
            proof {
                crate::parse::lemma_list_view(*pair);
            }
            if pair.len() == 2 {
                match &pair[0] {
                    SExpr::Atom(Atom::Symbol(name)) => {
                        assert(decreases_to!(*pair => pair[1]));
                        Ok((name, &pair[1]))
                    },
                    _ => Err(bad_let()),
                }
            } else {
                Err(bad_let())
            }
        },
        _ => Err(bad_let()),
    }
}

/// Takes every binding of a `let` apart.
fn parse_bindings(bindings: &Vec<SExpr>) -> (r: Result<Vec<(&String, &SExpr)>, EvalError>)
    ensures
        match r {
            Ok(v) => {
                &&& v@.len() == bindings@.len()
                &&& forall|i: int|
                    0 <= i < v@.len() ==> {
                        &&& is_binding(#[trigger] bindings@[i]@)
                        &&& bindings@[i]@->SList_0[0] == SExprView::Atom(
                            AtomView::Symbol(v@[i].0@),
                        )
                        &&& bindings@[i]@->SList_0[1] == v@[i].1@
                        &&& decreases_to!(*bindings => *v@[i].1)
                    }
            },
            Err(err) => {
                &&& exists|i: int| 0 <= i < bindings@.len() && !is_binding(#[trigger] bindings@[i]@)
                &&& err@ == EvalErrorView::BadSyntax(let_name())
            },
        },
{
    let mut result: Vec<(&String, &SExpr)> = Vec::new();
    let mut i: usize = 0;
    while i < bindings.len()
        invariant
            i <= bindings@.len(),
            result@.len() == i,
            forall|j: int|
                0 <= j < i ==> {
                    &&& is_binding(#[trigger] bindings@[j]@)
                    &&& bindings@[j]@->SList_0[0] == SExprView::Atom(
                        AtomView::Symbol(result@[j].0@),
                    )
                    &&& bindings@[j]@->SList_0[1] == result@[j].1@
                    &&& decreases_to!(*bindings => *result@[j].1)
                },
        decreases bindings@.len() - i,
    {
        match parse_binding(&bindings[i]) {
            Ok(pair) => {
                assert(decreases_to!(*bindings => bindings[i as int]));
                result.push(pair);
            },
            Err(e) => {
                return Err(e);
            },
        }
        i += 1;
    }
    Ok(result)
}

/// Takes `(let (bindings...) body)` apart.
fn parse_let(slist: &Vec<SExpr>) -> (r: Result<(Vec<(&String, &SExpr)>, &SExpr), EvalError>)
    ensures
        ({
            let items = slist@.map_values(|e: SExpr| e@);
            match r {
                Ok((bs, body)) => {
                    &&& let_form_ok(items)
                    &&& body@ == items[2]
                    &&& decreases_to!(*slist => *body)
                    &&& bs@.len() == items[1]->SList_0.len()
                    &&& forall|i: int|
                        0 <= i < bs@.len() ==> {
                            &&& #[trigger] items[1]->SList_0[i]->SList_0[0] == SExprView::Atom(
                                AtomView::Symbol(bs@[i].0@),
                            )
                            &&& items[1]->SList_0[i]->SList_0[1] == bs@[i].1@
                            &&& decreases_to!(*slist => *bs@[i].1)
                        }
                },
                Err(err) => !let_form_ok(items) && err@ == EvalErrorView::BadSyntax(let_name()),
            }
        }),
{
    let ghost items = slist@.map_values(|e: SExpr| e@);
    if slist.len() != 3 {
        return Err(bad_let());
    }
    match &slist[1] {
        SExpr::SList(bindings) => {
            proof {
                crate::parse::lemma_list_view(*bindings);
            }
            match parse_bindings(bindings) {
                Ok(bs) => {
                    assert(decreases_to!(*slist => slist[1]));
                    assert(decreases_to!(*slist => slist[2]));
                    assert forall|i: int| 0 <= i < items[1]->SList_0.len() implies is_binding(
                        #[trigger] items[1]->SList_0[i],
                    ) by {
                        assert(items[1]->SList_0[i] == bindings@[i]@);
                    }
                    assert forall|i: int| 0 <= i < bs@.len() implies decreases_to!(*slist => *bs@[i].1) by {
                        assert(is_binding(bindings@[i]@));
                        assert(decreases_to!(slist[1] => *bindings));
                        assert(decreases_to!(*bindings => *bs@[i].1));
                    }
                    Ok((bs, &slist[2]))
                },
                Err(e) => {
                    proof {
                        let i = choose|i: int| 0 <= i < bindings@.len() && !is_binding(#[trigger] bindings@[i]@);
                        assert(items[1]->SList_0[i] == bindings@[i]@);
                    }
                    Err(e)
                },
            }
        },
        _ => Err(bad_let()),
    }
}

/// Evaluates `(let (bindings...) body)`.
fn eval_let(slist: &Vec<SExpr>, env: &Env) -> (r: Result<Value, EvalError>)
    requires
        starts_with_let(slist@.map_values(|e: SExpr| e@)),
    ensures
        outcome(r) == eval_spec(SExprView::SList(slist@.map_values(|e: SExpr| e@)), env@),
    decreases slist,
{
    let ghost items = slist@.map_values(|e: SExpr| e@);
    let (bindings, body) = match parse_let(slist) {
        Ok(parts) => parts,
        Err(e) => {
            return Err(e);
        },
    };
    let ghost bs = items[1]->SList_0;
    let mut scope = env.duplicate();
    let mut i: usize = 0;
    assert(bs.subrange(0, bs.len() as int) =~= bs);
    while i < bindings.len()
        invariant
            i <= bindings@.len(),
            bindings@.len() == bs.len(),
            let_form_ok(items),
            starts_with_let(items),
            items == slist@.map_values(|e: SExpr| e@),
            bs == items[1]->SList_0,
            forall|j: int|
                0 <= j < bindings@.len() ==> {
                    &&& #[trigger] bs[j]->SList_0[0] == SExprView::Atom(
                        AtomView::Symbol(bindings@[j].0@),
                    )
                    &&& bs[j]->SList_0[1] == bindings@[j].1@
                    &&& decreases_to!(*slist => *bindings@[j].1)
                },
            bind_spec(bs, env@, env@) == bind_spec(
                bs.subrange(i as int, bs.len() as int),
                env@,
                scope@,
            ),
        decreases bindings@.len() - i,
    {
        let (name, expr) = bindings[i];
        let ghost rest = bs.subrange(i as int, bs.len() as int);
        assert(rest[0] == bs[i as int]);
        assert(rest.subrange(1, rest.len() as int) =~= bs.subrange(i + 1, bs.len() as int));
        let v = match eval(expr, env) {
            Ok(v) => v,
            Err(e) => {
                assert(eval_spec(SExprView::SList(items), env@) == Err::<Value, _>(e@));
                return Err(e);
            },
        };
        scope = scope.with_binding(name.clone(), v);
        i += 1;
    }
    assert(bs.subrange(i as int, bs.len() as int) =~= Seq::<SExprView>::empty());
    assert(decreases_to!(*slist => *body));
    eval(body, &scope)
}

/// Evaluates `expr` in the scope `env`.
pub fn eval(expr: &SExpr, env: &Env) -> (r: Result<Value, EvalError>)
    ensures
        outcome(r) == eval_spec(expr@, env@),
    decreases expr,
{
    match expr {
        SExpr::Atom(a) => eval_atom(a, env),
        SExpr::SList(slist) => {
            proof {
                crate::parse::lemma_list_view(*slist);
            }
            let ghost items = slist@.map_values(|e: SExpr| e@);
            if slist.len() == 0 {
                return Err(EvalError::BadSyntax(String::from_str("()")));
            }
            if is_let_symbol(&slist[0]) {
                return eval_let(slist, env);
            }
            assert(decreases_to!(*slist => slist[0]));
            let f = match eval(&slist[0], env) {
                Ok(v) => v,
                Err(e) => {
                    assert(eval_all_spec(items, env@) == Err::<Seq<Value>, _>(e@));
                    return Err(e);
                },
            };
            let len = slist.len();
            let mut args: Vec<Value> = Vec::new();
            let mut i: usize = 1;
            assert(args@ + Seq::<Value>::empty() =~= args@);
            while i < len
                invariant
                    1 <= i <= len,
                    len == slist@.len(),
                    *expr == SExpr::SList(*slist),
                    expr@ == SExprView::SList(items),
                    items.len() > 0,
                    !starts_with_let(items),
                    eval_spec(items[0], env@) == Ok::<Value, EvalErrorView>(f),
                    items == slist@.map_values(|e: SExpr| e@),
                    eval_all_spec(items.subrange(1, len as int), env@) == prepend_values(
                        args@,
                        eval_all_spec(items.subrange(i as int, len as int), env@),
                    ),
                decreases len - i,
            {
                let ghost rest = items.subrange(i as int, len as int);
                assert(rest.subrange(1, rest.len() as int) =~= items.subrange(i + 1, len as int));
                assert(rest[0] == slist@[i as int]@);
                assert(decreases_to!(*slist => slist[i as int]));
                assert(decreases_to!(*expr => *slist));
                let v = match eval(&slist[i], env) {
                    Ok(v) => v,
                    Err(e) => {
                        assert(eval_all_spec(items, env@) == Err::<Seq<Value>, _>(e@));
                        return Err(e);
                    },
                };
                let ghost before = args@;
                args.push(v);
                assert(args@ =~= before + seq![v]);
                assert(prepend_values(before, prepend_values(seq![v], eval_all_spec(items.subrange(i + 1, len as int), env@)))
                    =~= prepend_values(args@, eval_all_spec(items.subrange(i + 1, len as int), env@))) by {
                    if let Ok(vs) = eval_all_spec(items.subrange(i + 1, len as int), env@) {
                        assert(before + (seq![v] + vs) =~= args@ + vs);
                    }
                }
                i += 1;
            }
            assert(items.subrange(i as int, len as int) =~= Seq::<SExprView>::empty());
            assert(args@ + Seq::<Value>::empty() =~= args@);
            assert((seq![f] + args@).drop_first() =~= args@);
            assert(eval_all_spec(items, env@) == Ok::<Seq<Value>, EvalErrorView>(seq![f] + args@));
            apply_procedure(&f, args.as_slice())
        },
    }
}

/// The text shown for a value. A procedure shows as the name it has in the
/// standard scope, in angle brackets.
pub open spec fn value_text(v: Value) -> Seq<char> {
    match v {
        Value::Integer(i) => integer_text(i as int),
        Value::Procedure(Procedure::Sum) => "<procedure:+>"@,
        Value::Procedure(Procedure::Product) => "<procedure:*>"@,
    }
}

/// The text shown for an evaluation error.
pub open spec fn eval_error_text(e: EvalErrorView) -> Seq<char> {
    match e {
        EvalErrorView::ContractViolation => "contract violation"@,
        EvalErrorView::Undefined(name) => name + ": undefined"@,
        EvalErrorView::BadSyntax(form) => form + ": bad syntax"@,
    }
}

impl Value {
    /// The text of the value: an integer in decimal.
    pub fn to_string(&self) -> (r: String)
        ensures
            r@ == value_text(*self),
    {
        match self {
            Value::Integer(i) => integer_to_string(*i),
            Value::Procedure(Procedure::Sum) => String::from_str("<procedure:+>"),
            Value::Procedure(Procedure::Product) => String::from_str("<procedure:*>"),
        }
    }
}

impl EvalError {
    /// A description of the error for people.
    pub fn to_string(&self) -> (r: String)
        ensures
            r@ == eval_error_text(self@),
    {
        match self {
            EvalError::ContractViolation => String::from_str("contract violation"),
            EvalError::Undefined(name) => {
                let mut text = name.clone();
                text.append(": undefined");
                text
            },
            EvalError::BadSyntax(form) => {
                let mut text = form.clone();
                text.append(": bad syntax");
                text
            },
        }
    }
}

/// A failure of [`parse_eval`]: in parsing or in evaluation.
#[derive(Debug, PartialEq, Eq)]
pub enum InterpretError {
    Parse(ParseSExprError),
    Eval(EvalError),
}

impl InterpretError {
    /// A description of the error for people.
    pub fn to_string(&self) -> (r: String)
        ensures
            r@ == match self {
                InterpretError::Parse(e) => crate::parse::parse_error_text(*e),
                InterpretError::Eval(e) => eval_error_text(e@),
            },
    {
        match self {
            InterpretError::Parse(e) => e.to_string(),
            InterpretError::Eval(e) => e.to_string(),
        }
    }
}

/// Parses the first expression of `s` and evaluates it in the standard scope.
pub fn parse_eval(s: &str) -> (r: Result<Value, InterpretError>)
    ensures
        match parse_spec(s@) {
            Err(pe) => r == Err::<Value, _>(InterpretError::Parse(pe)),
            Ok(e) => match eval_spec(e, standard_env()) {
                Ok(v) => r == Ok::<Value, InterpretError>(v),
                Err(ee) => r matches Err(InterpretError::Eval(x)) && x@ == ee,
            },
        },
{
    let env = Env::standard();
    match SExpr::parse_str(s) {
        Ok(ast) => match eval(&ast, &env) {
            Ok(v) => Ok(v),
            Err(e) => Err(InterpretError::Eval(e)),
        },
        Err(e) => Err(InterpretError::Parse(e)),
    }
}

proof fn lemma_eval_all_first_error(
    items: Seq<SExprView>,
    env: Map<Seq<char>, Value>,
    j: int,
    err: EvalErrorView,
)
    requires
        0 <= j < items.len(),
        forall|k: int| 0 <= k < j ==> eval_spec(#[trigger] items[k], env) is Ok,
        eval_spec(items[j], env) == Err::<Value, EvalErrorView>(err),
    ensures
        eval_all_spec(items, env) == Err::<Seq<Value>, EvalErrorView>(err),
    decreases j,
{
    if j > 0 {
        let rest = items.subrange(1, items.len() as int);
        assert(eval_spec(items[0], env) is Ok);
        assert forall|k: int| 0 <= k < j - 1 implies eval_spec(#[trigger] rest[k], env) is Ok by {
            assert(rest[k] == items[k + 1]);
        }
        assert(rest[j - 1] == items[j]);
        lemma_eval_all_first_error(rest, env, j - 1, err);
    }
}

/// The items of a call are evaluated from left to right, and the first
/// failure is the one reported: where every item before position `j`
/// evaluates and item `j` fails, the call fails with the error of item `j`,
/// whatever the items after it would give.
pub proof fn lemma_call_reports_first_error(
    items: Seq<SExprView>,
    env: Map<Seq<char>, Value>,
    j: int,
    err: EvalErrorView,
)
    requires
        !starts_with_let(items),
        0 <= j < items.len(),
        forall|k: int| 0 <= k < j ==> eval_spec(#[trigger] items[k], env) is Ok,
        eval_spec(items[j], env) == Err::<Value, EvalErrorView>(err),
    ensures
        eval_spec(SExprView::SList(items), env) == Err::<Value, EvalErrorView>(err),
{
    lemma_eval_all_first_error(items, env, j, err);
}

proof fn lemma_bind_first_error(
    bindings: Seq<SExprView>,
    env: Map<Seq<char>, Value>,
    scope: Map<Seq<char>, Value>,
    j: int,
    err: EvalErrorView,
)
    requires
        0 <= j < bindings.len(),
        forall|k: int| 0 <= k < bindings.len() ==> is_binding(#[trigger] bindings[k]),
        forall|k: int| 0 <= k < j ==> eval_spec(#[trigger] bindings[k]->SList_0[1], env) is Ok,
        eval_spec(bindings[j]->SList_0[1], env) == Err::<Value, EvalErrorView>(err),
    ensures
        bind_spec(bindings, env, scope) == Err::<Map<Seq<char>, Value>, EvalErrorView>(err),
    decreases j,
{
    assert(is_binding(bindings[0]));
    if j > 0 {
        let rest = bindings.subrange(1, bindings.len() as int);
        let p = bindings[0]->SList_0;
        assert(eval_spec(p[1], env) is Ok);
        let name = p[0]->Atom_0->Symbol_0;
        let v = eval_spec(p[1], env)->Ok_0;
        assert forall|k: int| 0 <= k < rest.len() implies is_binding(#[trigger] rest[k]) by {
            assert(rest[k] == bindings[k + 1]);
        }
        assert forall|k: int| 0 <= k < j - 1 implies eval_spec(
            #[trigger] rest[k]->SList_0[1],
            env,
        ) is Ok by {
            assert(rest[k] == bindings[k + 1]);
        }
        assert(rest[j - 1] == bindings[j]);
        lemma_bind_first_error(rest, env, scope.insert(name, v), j - 1, err);
    }
}

/// The bindings of a `let` are evaluated from left to right, each in the
/// scope outside the `let`, and the first failure is the one reported: where
/// the right-hand sides of the bindings before position `j` evaluate and that
/// of binding `j` fails, the `let` fails with its error.
pub proof fn lemma_let_reports_first_error(
    items: Seq<SExprView>,
    env: Map<Seq<char>, Value>,
    j: int,
    err: EvalErrorView,
)
    requires
        starts_with_let(items),
        let_form_ok(items),
        0 <= j < items[1]->SList_0.len(),
        forall|k: int|
            0 <= k < j ==> eval_spec(#[trigger] items[1]->SList_0[k]->SList_0[1], env) is Ok,
        eval_spec(items[1]->SList_0[j]->SList_0[1], env) == Err::<Value, EvalErrorView>(err),
    ensures
        eval_spec(SExprView::SList(items), env) == Err::<Value, EvalErrorView>(err),
{
    lemma_bind_first_error(items[1]->SList_0, env, env, j, err);
}

/// The name that a well-formed `let` binding binds.
pub open spec fn binding_name(b: SExprView) -> Seq<char> {
    b->SList_0[0]->Atom_0->Symbol_0
}

/// The right-hand side of a well-formed `let` binding.
pub open spec fn binding_expr(b: SExprView) -> SExprView {
    b->SList_0[1]
}

/// `scope` with the bindings `bindings` added from first to last, each name
/// bound to the value that its right-hand side has in `env`.
pub open spec fn with_bindings(
    scope: Map<Seq<char>, Value>,
    bindings: Seq<SExprView>,
    env: Map<Seq<char>, Value>,
) -> Map<Seq<char>, Value>
    decreases bindings.len(),
{
    if bindings.len() == 0 {
        scope
    } else {
        with_bindings(scope, bindings.drop_last(), env).insert(
            binding_name(bindings.last()),
            eval_spec(binding_expr(bindings.last()), env)->Ok_0,
        )
    }
}

proof fn lemma_with_bindings_first(
    scope: Map<Seq<char>, Value>,
    bindings: Seq<SExprView>,
    env: Map<Seq<char>, Value>,
)
    requires
        bindings.len() > 0,
    ensures
        with_bindings(scope, bindings, env) == with_bindings(
            scope.insert(
                binding_name(bindings[0]),
                eval_spec(binding_expr(bindings[0]), env)->Ok_0,
            ),
            bindings.subrange(1, bindings.len() as int),
            env,
        ),
    decreases bindings.len(),
{
    let first = scope.insert(
        binding_name(bindings[0]),
        eval_spec(binding_expr(bindings[0]), env)->Ok_0,
    );
    let rest = bindings.subrange(1, bindings.len() as int);
    if bindings.len() == 1 {
        assert(bindings.drop_last() =~= Seq::<SExprView>::empty());
        assert(rest =~= Seq::<SExprView>::empty());
        assert(bindings.last() == bindings[0]);
        assert(with_bindings(scope, bindings.drop_last(), env) == scope);
        assert(with_bindings(first, rest, env) == first);
        assert(with_bindings(scope, bindings, env) == first);
    } else {
        let d = bindings.drop_last();
        assert(d[0] == bindings[0]);
        lemma_with_bindings_first(scope, d, env);
        assert(d.subrange(1, d.len() as int) =~= rest.drop_last());
        assert(rest.last() == bindings.last());
        assert(with_bindings(first, rest, env) == with_bindings(first, rest.drop_last(), env).insert(
            binding_name(rest.last()),
            eval_spec(binding_expr(rest.last()), env)->Ok_0,
        ));
        assert(with_bindings(scope, d, env) == with_bindings(first, rest.drop_last(), env));
        assert(with_bindings(scope, bindings, env) == with_bindings(scope, d, env).insert(
            binding_name(bindings.last()),
            eval_spec(binding_expr(bindings.last()), env)->Ok_0,
        ));
    }
}

proof fn lemma_bind_all(
    bindings: Seq<SExprView>,
    env: Map<Seq<char>, Value>,
    scope: Map<Seq<char>, Value>,
)
    requires
        forall|k: int| 0 <= k < bindings.len() ==> is_binding(#[trigger] bindings[k]),
        forall|k: int|
            0 <= k < bindings.len() ==> eval_spec(binding_expr(#[trigger] bindings[k]), env) is Ok,
    ensures
        bind_spec(bindings, env, scope) == Ok::<Map<Seq<char>, Value>, EvalErrorView>(
            with_bindings(scope, bindings, env),
        ),
    decreases bindings.len(),
{
    if bindings.len() > 0 {
        let rest = bindings.subrange(1, bindings.len() as int);
        assert(is_binding(bindings[0]));
        assert(eval_spec(binding_expr(bindings[0]), env) is Ok);
        assert forall|k: int| 0 <= k < rest.len() implies is_binding(#[trigger] rest[k]) by {
            assert(rest[k] == bindings[k + 1]);
        }
        assert forall|k: int| 0 <= k < rest.len() implies eval_spec(
            binding_expr(#[trigger] rest[k]),
            env,
        ) is Ok by {
            assert(rest[k] == bindings[k + 1]);
        }
        let next = scope.insert(
            binding_name(bindings[0]),
            eval_spec(binding_expr(bindings[0]), env)->Ok_0,
        );
        lemma_bind_all(rest, env, next);
        lemma_with_bindings_first(scope, bindings, env);
    }
}

/// A `let` whose right-hand sides all evaluate gives what its body gives in
/// the outer scope extended by the bindings from first to last. Each
/// right-hand side is evaluated in the outer scope, so no binding sees
/// another binding of the same `let`, and where a name is bound twice the
/// later binding holds.
pub proof fn lemma_let_scope(items: Seq<SExprView>, env: Map<Seq<char>, Value>)
    requires
        starts_with_let(items),
        let_form_ok(items),
        forall|k: int|
            0 <= k < items[1]->SList_0.len() ==> eval_spec(
                binding_expr(#[trigger] items[1]->SList_0[k]),
                env,
            ) is Ok,
    ensures
        eval_spec(SExprView::SList(items), env) == eval_spec(
            items[2],
            with_bindings(env, items[1]->SList_0, env),
        ),
{
    lemma_bind_all(items[1]->SList_0, env, env);
}

} // verus!
