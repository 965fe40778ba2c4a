//! Runtime values and the environment: an arena of scopes, each with the
//! scope that encloses it.
//!
//! A function value holds the handle of the scope it was defined in. Scopes
//! are never removed, so a handle stays good for as long as the environment
//! lives, and a binding made in a scope later on is seen by every function
//! defined in it.

use vstd::prelude::*;
use vstd::string::*;
use crate::ast::{
    BlockStmt, Ident, StmtView, clone_idents, clone_stmts, ident_texts, idents_view,
    render_stmts, stmt_texts, stmts_view,
};
use crate::text::{bool_text, bool_word, int_decimal, int_text, join, push_joined};

verus! {

/// A runtime value.
#[derive(Debug, PartialEq)]
pub enum Object {
    Int(i64),
    Bool(bool),
    /// The value of a `return` on its way out of the blocks around it.
    Return(Box<Object>),
    Func(Func),
    Null,
}

/// A function value: parameter names, body, and the handle of the scope the
/// function was defined in.
#[derive(Debug, PartialEq)]
pub struct Func {
    pub args: Vec<Ident>,
    pub body: BlockStmt,
    pub env: usize,
}

/// What evaluation gives: a value, or the error that stopped it.
pub type EvalResult<T> = Result<T, EvalError>;

/// A runtime error, with its message.
#[derive(PartialEq, Debug)]
pub struct EvalError(pub String);

/// A value as contracts see it.
pub enum ObjectView {
    Int(i64),
    Bool(bool),
    Return(Box<ObjectView>),
    Func(FuncView),
    Null,
}

/// A function value as contracts see it.
pub struct FuncView {
    pub args: Seq<Seq<char>>,
    pub body: Seq<StmtView>,
    pub env: nat,
}

/// The view of a value.
pub open spec fn object_view(o: Object) -> ObjectView
    decreases o,
{
    match o {
        Object::Int(v) => ObjectView::Int(v),
        Object::Bool(v) => ObjectView::Bool(v),
        Object::Return(inner) => ObjectView::Return(Box::new(object_view(*inner))),
        Object::Func(func) => ObjectView::Func(func@),
        Object::Null => ObjectView::Null,
    }
}

impl View for Func {
    type V = FuncView;

    open spec fn view(&self) -> FuncView {
        FuncView { args: idents_view(self.args@), body: stmts_view(self.body@), env: self.env as nat }
    }
}

impl View for Object {
    type V = ObjectView;

    open spec fn view(&self) -> ObjectView {
        object_view(*self)
    }
}

impl View for EvalError {
    type V = Seq<char>;

    open spec fn view(&self) -> Seq<char> {
        self.0@
    }
}

/// The view of a result of evaluation.
pub open spec fn result_view(r: EvalResult<Object>) -> Result<ObjectView, Seq<char>> {
    match r {
        Ok(value) => Ok(value@),
        Err(error) => Err(error@),
    }
}

/// The views of a sequence of values.
pub open spec fn objects_view(os: Seq<Object>) -> Seq<ObjectView> {
    Seq::new(os.len(), |i: int| os[i]@)
}

impl ObjectView {
    /// The name of the value's type, as error messages give it.
    pub open spec fn kind_name(self) -> Seq<char> {
        match self {
            ObjectView::Int(_) => "INT"@,
            ObjectView::Bool(_) => "BOOLEAN"@,
            ObjectView::Return(_) => "RETURN"@,
            ObjectView::Func(_) => "FUNCTION"@,
            ObjectView::Null => "NULL"@,
        }
    }

    /// The value without the wrapping of a `return`.
    pub open spec fn unwrap_return(self) -> ObjectView {
        match self {
            ObjectView::Return(inner) => *inner,
            other => other,
        }
    }

    /// The value without any wrapping of a `return`, however often it is
    /// wrapped.
    pub open spec fn payload(self) -> ObjectView
        decreases self,
    {
        match self {
            ObjectView::Return(inner) => inner.payload(),
            other => other,
        }
    }
}

impl FuncView {
    /// The function as text.
    pub open spec fn render(self) -> Seq<char> {
        "fn ("@ + join(self.args, ", "@) + ") { "@ + join(render_stmts(self.body), "\n"@) + " }"@
    }
}

/// A value as text: a decimal numeral, `true` or `false`, `null`, a function
/// with its parameters and body, or `return` and the value returned.
pub open spec fn render_object(o: ObjectView) -> Seq<char>
    decreases o,
{
    match o {
        ObjectView::Int(v) => int_decimal(v as int),
        ObjectView::Bool(v) => bool_word(v),
        ObjectView::Return(inner) => "return "@ + render_object(*inner),
        ObjectView::Func(func) => func.render(),
        ObjectView::Null => "null"@,
    }
}

/// An error as text.
pub open spec fn render_error(message: Seq<char>) -> Seq<char> {
    "ERROR: "@ + message
}

impl Clone for Func {
    fn clone(&self) -> (r: Func)
        ensures
            r@ == self@,
    {
        Func { args: clone_idents(&self.args), body: clone_stmts(&self.body), env: self.env }
    }
}

impl Func {
    /// The function as text.
    pub fn to_text(&self) -> (r: String)
        ensures
            r@ == self@.render(),
    {
        let mut out = String::from_str("fn (");
        let names = ident_texts(&self.args);
        push_joined(&mut out, &names, ", ");
        out.append(") { ");
        let lines = stmt_texts(&self.body);
        push_joined(&mut out, &lines, "\n");
        out.append(" }");
        out
    }
}

impl Clone for Object {
    fn clone(&self) -> (r: Object)
        ensures
            r@ == self@,
        decreases self,
    {
        match self {
            Object::Int(v) => Object::Int(*v),
            Object::Bool(v) => Object::Bool(*v),
            Object::Return(inner) => Object::Return(Box::new((**inner).clone())),
            Object::Func(func) => Object::Func(func.clone()),
            Object::Null => Object::Null,
        }
    }
}

impl Object {
    /// The name of the value's type, as error messages give it.
    pub fn get_type(&self) -> (r: String)
        ensures
            r@ == self@.kind_name(),
    {
        match self {
            Object::Int(_) => String::from_str("INT"),
            Object::Bool(_) => String::from_str("BOOLEAN"),
            Object::Return(_) => String::from_str("RETURN"),
            Object::Func(_) => String::from_str("FUNCTION"),
            Object::Null => String::from_str("NULL"),
        }
    }

    /// The value as text.
    pub fn to_text(&self) -> (r: String)
        ensures
            r@ == render_object(self@),
        decreases self,
    {
        match self {
            Object::Int(v) => int_text(*v),
            Object::Bool(v) => String::from_str(bool_text(*v)),
            Object::Return(inner) => {
                let mut out = String::from_str("return ");
                let inner_text = inner.to_text();
                out.append(inner_text.as_str());
                out
            },
            Object::Func(func) => func.to_text(),
            Object::Null => String::from_str("null"),
        }
    }
}

impl Clone for EvalError {
    fn clone(&self) -> (r: EvalError)
        ensures
            r@ == self@,
    {
        EvalError(self.0.clone())
    }
}

impl EvalError {
    /// The error as text: `ERROR: ` and the message.
    pub fn to_text(&self) -> (r: String)
        ensures
            r@ == render_error(self@),
    {
        let mut out = String::from_str("ERROR: ");
        out.append(self.0.as_str());
        out
    }
}

/// One scope as contracts see it: its bindings, and the scope around it.
pub struct ScopeView {
    pub store: Map<Seq<char>, ObjectView>,
    pub source: Option<nat>,
}

/// An environment as contracts see it: all scopes made so far, and the
/// handle of the innermost one.
pub struct EnvView {
    pub scopes: Seq<ScopeView>,
    pub current: nat,
}

/// The value bound to `key` in scope `scope` or, failing that, in the
/// scopes around it, innermost first.
pub open spec fn lookup_from(scopes: Seq<ScopeView>, scope: nat, key: Seq<char>) -> Option<
    ObjectView,
>
    decreases scope,
{
    if scope >= scopes.len() {
        None
    } else if scopes[scope as int].store.contains_key(key) {
        Some(scopes[scope as int].store[key])
    } else {
        match scopes[scope as int].source {
            Some(outer) => if outer < scope {
                lookup_from(scopes, outer, key)
            } else {
                None
            },
            None => None,
        }
    }
}

impl EnvView {
    /// An environment of one scope without bindings.
    pub open spec fn root() -> EnvView {
        EnvView { scopes: seq![ScopeView { store: Map::empty(), source: None }], current: 0 }
    }

    /// The innermost scope exists, and every scope lies behind the scope
    /// around it.
    pub open spec fn wf(self) -> bool {
        &&& self.current < self.scopes.len()
        &&& forall|i: int|
            0 <= i < self.scopes.len() ==> match (#[trigger] self.scopes[i]).source {
                Some(outer) => outer < i,
                None => true,
            }
    }

    /// The value that `key` stands for: its binding in the innermost scope
    /// that has one.
    pub open spec fn lookup(self, key: Seq<char>) -> Option<ObjectView> {
        lookup_from(self.scopes, self.current, key)
    }

    /// The environment with `key` bound to `value` in the innermost scope.
    pub open spec fn insert(self, key: Seq<char>, value: ObjectView) -> EnvView {
        let scope = self.scopes[self.current as int];
        EnvView {
            scopes: self.scopes.update(
                self.current as int,
                ScopeView { store: scope.store.insert(key, value), ..scope },
            ),
            ..self
        }
    }

    /// The environment with a new innermost scope without bindings, inside
    /// the scope `source`.
    pub open spec fn push_scope(self, source: nat) -> EnvView {
        EnvView {
            scopes: self.scopes.push(ScopeView { store: Map::empty(), source: Some(source) }),
            current: self.scopes.len(),
        }
    }

    /// The environment with `scope` as the innermost scope.
    pub open spec fn at(self, scope: nat) -> EnvView {
        EnvView { current: scope, ..self }
    }

    /// The binding of `key` in the innermost scope, if it has one.
    pub open spec fn local(self, key: Seq<char>) -> Option<ObjectView> {
        let store = self.scopes[self.current as int].store;
        if store.contains_key(key) {
            Some(store[key])
        } else {
            None
        }
    }
}

#[derive(Debug, PartialEq)]
struct Binding {
    name: String,
    value: Object,
}

#[derive(Debug, PartialEq)]
struct Scope {
    store: Vec<Binding>,
    source: Option<usize>,
}

/// The bindings that a list of entries stands for: a later entry of a name
/// goes before an earlier one.
spec fn bindings_map(entries: Seq<Binding>) -> Map<Seq<char>, ObjectView>
    decreases entries.len(),
{
    if entries.len() == 0 {
        Map::empty()
    } else {
        bindings_map(entries.drop_last()).insert(entries.last().name@, entries.last().value@)
    }
}

spec fn scope_view(scope: Scope) -> ScopeView {
    ScopeView {
        store: bindings_map(scope.store@),
        source: match scope.source {
            Some(outer) => Some(outer as nat),
            None => None,
        },
    }
}

proof fn lemma_bindings_last_match(entries: Seq<Binding>, j: int, key: Seq<char>)
    requires
        0 <= j < entries.len(),
        entries[j].name@ == key,
        forall|k: int| j < k < entries.len() ==> entries[k].name@ != key,
    ensures
        bindings_map(entries).contains_key(key),
        bindings_map(entries)[key] == entries[j].value@,
    decreases entries.len(),
{
    if j < entries.len() - 1 {
        lemma_bindings_last_match(entries.drop_last(), j, key);
    }
}

proof fn lemma_bindings_no_match(entries: Seq<Binding>, key: Seq<char>)
    requires
        forall|k: int| 0 <= k < entries.len() ==> entries[k].name@ != key,
    ensures
        !bindings_map(entries).contains_key(key),
    decreases entries.len(),
{
    if entries.len() > 0 {
        lemma_bindings_no_match(entries.drop_last(), key);
    }
}

proof fn lemma_bindings_replace(entries: Seq<Binding>, j: int, entry: Binding)
    requires
        0 <= j < entries.len(),
        entries[j].name@ == entry.name@,
        forall|k: int| j < k < entries.len() ==> entries[k].name@ != entry.name@,
    ensures
        bindings_map(entries.update(j, entry)) == bindings_map(entries).insert(
            entry.name@,
            entry.value@,
        ),
    decreases entries.len(),
{
    let updated = entries.update(j, entry);
    if j == entries.len() - 1 {
        assert(updated.drop_last() =~= entries.drop_last());
        assert(bindings_map(updated) =~= bindings_map(entries).insert(entry.name@, entry.value@));
    } else {
        lemma_bindings_replace(entries.drop_last(), j, entry);
        assert(updated.drop_last() =~= entries.drop_last().update(j, entry));
        assert(bindings_map(updated) =~= bindings_map(entries).insert(entry.name@, entry.value@));
    }
}

fn find_binding(store: &Vec<Binding>, key: &String) -> (r: Option<usize>)
    ensures
        match r {
            Some(j) => j < store.len() && store@[j as int].name@ == key@ && forall|k: int|
                j < k < store.len() ==> store@[k].name@ != key@,
            None => forall|k: int| 0 <= k < store.len() ==> store@[k].name@ != key@,
        },
{
    let mut i: usize = store.len();
    while i > 0
        invariant
            i <= store.len(),
            forall|k: int| i <= k < store.len() ==> store@[k].name@ != key@,
        decreases i,
    {
        i -= 1;
        if store[i].name == *key {
            return Some(i);
        }
    }
    None
}

/// The environment of an evaluation.
#[derive(Debug, PartialEq)]
pub struct Env {
    scopes: Vec<Scope>,
    current: usize,
}

impl View for Env {
    type V = EnvView;

    closed spec fn view(&self) -> EnvView {
        EnvView {
            scopes: Seq::new(self.scopes@.len(), |i: int| scope_view(self.scopes@[i])),
            current: self.current as nat,
        }
    }
}

fn clone_bindings(store: &Vec<Binding>) -> (r: Vec<Binding>)
    ensures
        bindings_map(r@) == bindings_map(store@),
{
    let mut out: Vec<Binding> = Vec::new();
    let mut i: usize = 0;
    while i < store.len()
        invariant
            i <= store.len(),
            out.len() == i,
            bindings_map(out@) == bindings_map(store@.take(i as int)),
        decreases store.len() - i,
    {
        let entry = Binding { name: store[i].name.clone(), value: store[i].value.clone() };
        proof {
            let longer = store@.take(i + 1);
            assert(longer.drop_last() =~= store@.take(i as int));
            assert(longer.last() == store@[i as int]);
            assert(out@.push(entry).drop_last() =~= out@);
        }
        out.push(entry);
        i += 1;
    }
    assert(store@.take(i as int) =~= store@);
    out
}

impl Clone for Env {
    fn clone(&self) -> (r: Env)
        ensures
            r@ == self@,
    {
        let mut scopes: Vec<Scope> = Vec::new();
        let mut i: usize = 0;
        while i < self.scopes.len()
            invariant
                i <= self.scopes.len(),
                scopes.len() == i,
                forall|j: int| 0 <= j < i ==> scope_view(scopes@[j]) == scope_view(self.scopes@[j]),
            decreases self.scopes.len() - i,
        {
            let scope = &self.scopes[i];
            scopes.push(Scope { store: clone_bindings(&scope.store), source: scope.source });
            i += 1;
        }
        let r = Env { scopes, current: self.current };
        assert(r@.scopes =~= self@.scopes);
        r
    }
}

impl Env {
    /// The environment is well formed.
    pub open spec fn wf(&self) -> bool {
        self@.wf()
    }

    /// An environment of one scope without bindings.
    pub fn new() -> (r: Env)
        ensures
            r.wf(),
            r@ == EnvView::root(),
    {
        let mut scopes: Vec<Scope> = Vec::new();
        scopes.push(Scope { store: Vec::new(), source: None });
        let r = Env { scopes, current: 0 };
        assert(r@.scopes =~= EnvView::root().scopes);
        r
    }

    /// `source_env` with a new innermost scope without bindings, inside the
    /// scope that was innermost.
    pub fn wrap(source_env: Env) -> (r: Env)
        requires
            source_env.wf(),
        ensures
            r.wf(),
            r@ == source_env@.push_scope(source_env@.current),
    {
        let mut env = source_env;
        let outer = env.current;
        env.enter(outer);
        env
    }

    /// The value that `key` stands for: its binding in the innermost scope
    /// that has one, or `None` when no scope around has one.
    pub fn get(&self, key: String) -> (r: Option<&Object>)
        requires
            self.wf(),
        ensures
            match self@.lookup(key@) {
                Some(value) => r is Some && r->0@ == value,
                None => r is None,
            },
    {
        let mut scope = self.current;
        loop
            invariant
                self.wf(),
                scope < self.scopes.len(),
                lookup_from(self@.scopes, scope as nat, key@) == self@.lookup(key@),
            decreases scope,
        {
            let store = &self.scopes[scope].store;
            match find_binding(store, &key) {
                Some(j) => {
                    proof {
                        lemma_bindings_last_match(store@, j as int, key@);
                    }
                    return Some(&self.scopes[scope].store[j].value);
                },
                None => {
                    proof {
                        lemma_bindings_no_match(store@, key@);
                    }
                    match self.scopes[scope].source {
                        Some(outer) => {
                            assert(self@.scopes[scope as int].source == Some(outer as nat));
                            scope = outer;
                        },
                        None => {
                            return None;
                        },
                    }
                },
            }
        }
    }

    /// Binds `key` to `val` in the innermost scope, whether or not a scope
    /// around it binds `key` too, and gives back what `key` was bound to in
    /// the innermost scope before.
    pub fn insert(&mut self, key: String, val: Object) -> (r: Option<Object>)
        requires
            old(self).wf(),
        ensures
            final(self).wf(),
            final(self)@ == old(self)@.insert(key@, val@),
            match old(self)@.local(key@) {
                Some(value) => r is Some && r->0@ == value,
                None => r is None,
            },
    {
        let current = self.current;
        let found = find_binding(&self.scopes[current].store, &key);
        let ghost entries = self.scopes[current as int].store@;
        let ghost entry = Binding { name: key, value: val };
        match found {
            Some(j) => {
                proof {
                    lemma_bindings_last_match(entries, j as int, key@);
                    lemma_bindings_replace(entries, j as int, entry);
                }
                let mut slot = Binding { name: key, value: val };
                std::mem::swap(&mut self.scopes[current].store[j], &mut slot);
                assert(self.scopes[current as int].store@ =~= entries.update(j as int, entry));
                assert(self@.scopes =~= old(self)@.insert(key@, val@).scopes);
                Some(slot.value)
            },
            None => {
                proof {
                    lemma_bindings_no_match(entries, key@);
                }
                self.scopes[current].store.push(Binding { name: key, value: val });
                assert(self.scopes[current as int].store@.drop_last() =~= entries);
                assert(self@.scopes =~= old(self)@.insert(key@, val@).scopes);
                None
            },
        }
    }

    /// The handle of the innermost scope.
    pub fn current_scope(&self) -> (r: usize)
        ensures
            r == self@.current,
    {
        self.current
    }

    /// The number of scopes made so far.
    pub fn scope_count(&self) -> (r: usize)
        ensures
            r == self@.scopes.len(),
    {
        self.scopes.len()
    }

    /// Makes a new innermost scope without bindings, inside the scope
    /// `source`, and says so; where the environment has no scope `source`,
    /// it stays as it is.
    pub fn enter(&mut self, source: usize) -> (r: bool)
        requires
            old(self).wf(),
        ensures
            final(self).wf(),
            r == (source < old(self)@.scopes.len()),
            r ==> final(self)@ == old(self)@.push_scope(source as nat),
            !r ==> final(self)@ == old(self)@,
    {
        if source >= self.scopes.len() {
            return false;
        }
        self.scopes.push(Scope { store: Vec::new(), source: Some(source) });
        self.current = self.scopes.len() - 1;
        assert(self@.scopes =~= old(self)@.push_scope(source as nat).scopes);
        true
    }

    /// Makes `scope` the innermost scope, and says so; where the environment
    /// has no scope `scope`, it stays as it is.
    pub fn leave_to(&mut self, scope: usize) -> (r: bool)
        requires
            old(self).wf(),
        ensures
            final(self).wf(),
            r == (scope < old(self)@.scopes.len()),
            r ==> final(self)@ == old(self)@.at(scope as nat),
            !r ==> final(self)@ == old(self)@,
    {
        if scope >= self.scopes.len() {
            return false;
        }
        self.current = scope;
        true
    }
}

} // verus!
