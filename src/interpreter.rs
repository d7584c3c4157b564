use vstd::prelude::*;
use crate::ast_parser::{FunctionDef, Prog, ProgramAST, prog_views};
use crate::builtin::{Builtin, BuiltinState};
use crate::semantics::{Out, St, apply_spec, eval, invoke, run_body, run_stmts};

verus! {

/// How deep evaluation may nest (calls within calls, subterms within terms)
/// before it stops with `RuntimeError::DepthExceeded`.
pub const MAX_DEPTH: u64 = 1000;

/// An entry of the function registry: a native operation with its arity, or
/// a user function literal.
#[derive(Debug)]
pub enum InterpreterFunctionDef {
    BuiltIn { name: String, arg_count: usize, func: Builtin },
    FunctionDef { name: String, def: FunctionDef },
}

/// A closure: the function, the bindings captured for it, and the arguments
/// applied so far.
#[derive(Debug)]
pub struct ValueFunction {
    pub func: InterpreterFunctionDef,
    pub bound_context: Vec<(String, Value)>,
    pub bound_variables: Vec<Value>,
}

#[derive(Debug)]
pub enum Value {
    Number(usize),
    Function(ValueFunction),
}

/// An activation frame: name and value pairs in order of introduction.
#[derive(Debug)]
pub struct FunctionContext(pub Vec<(String, Value)>);

/// The evaluator: function registry, activation stack, the natives' state,
/// and the values printed so far.
pub struct InterpreterContext {
    pub builtins: Vec<InterpreterFunctionDef>,
    pub function_context: Vec<FunctionContext>,
    pub state: BuiltinState,
    pub printed: Vec<Output>,
}

/// What the natives hand out for printing, in order: a value, or the
/// characters held in a heap allocation.
#[derive(Debug)]
pub enum Output {
    Value(Value),
    Text(Vec<usize>),
}

#[derive(Debug)]
pub enum RuntimeError {
    UndefinedFunctionReference(String),
    ValueNotAFunction(usize),
    EmptyFunction,
    ExplicitlyRaised,
    ExplicitlyRaisedMessage(&'static str),
    DepthExceeded,
}

/// The model of a registry entry.
pub enum Kind {
    Native(Seq<char>, nat, Builtin),
    User(Seq<char>, Prog),
}

/// The model of a closure.
pub struct Clo {
    pub kind: Kind,
    pub captured: Seq<(Seq<char>, Val)>,
    pub args: Seq<Val>,
}

/// The model of a value.
pub enum Val {
    Num(usize),
    Fun(Clo),
}

/// The model of a runtime error.
pub enum REr {
    Undefined(Seq<char>),
    NotAFunction(nat),
    Empty,
    Raised,
    RaisedMessage(Seq<char>),
    DepthExceeded,
}

impl InterpreterFunctionDef {
    pub open spec fn view(&self) -> Kind {
        match self {
            InterpreterFunctionDef::BuiltIn { name, arg_count, func } => Kind::Native(
                name@,
                *arg_count as nat,
                *func,
            ),
            InterpreterFunctionDef::FunctionDef { name, def } => Kind::User(name@, def@),
        }
    }

    /// A copy of the entry.
    pub fn copy(&self) -> (r: InterpreterFunctionDef)
        ensures
            r@ == self@,
    {
        match self {
            InterpreterFunctionDef::BuiltIn { name, arg_count, func } => {
                InterpreterFunctionDef::BuiltIn { name: name.clone(), arg_count: *arg_count, func: *func }
            },
            InterpreterFunctionDef::FunctionDef { name, def } => {
                InterpreterFunctionDef::FunctionDef { name: name.clone(), def: def.copy() }
            },
        }
    }

    /// The name it is registered under.
    pub fn name(&self) -> (r: &String)
        ensures
            r@ == kind_name(self@),
    {
        match self {
            InterpreterFunctionDef::BuiltIn { name, .. } => name,
            InterpreterFunctionDef::FunctionDef { name, .. } => name,
        }
    }

    /// How many arguments a call needs before it is invoked.
    pub fn arity(&self) -> (r: usize)
        ensures
            r == arity(self@),
    {
        match self {
            InterpreterFunctionDef::BuiltIn { arg_count, .. } => *arg_count,
            InterpreterFunctionDef::FunctionDef { def, .. } => {
                proof {
                    crate::ast_parser::lemma_strs(def.arg_tokens@);
                }
                def.arg_tokens.len()
            },
        }
    }
}

pub open spec fn kind_name(k: Kind) -> Seq<char> {
    match k {
        Kind::Native(n, _, _) => n,
        Kind::User(n, _) => n,
    }
}

/// The number of arguments that invokes a function.
pub open spec fn arity(k: Kind) -> nat {
    match k {
        Kind::Native(_, n, _) => n,
        Kind::User(_, p) => match p {
            Prog::Lambda(ps, _) => ps.len(),
            _ => 0,
        },
    }
}

impl Value {
    pub open spec fn view(&self) -> Val
        decreases self, 0nat,
    {
        match self {
            Value::Number(n) => Val::Num(*n),
            Value::Function(f) => Val::Fun(
                Clo {
                    kind: f.func@,
                    captured: binding_views(f.bound_context@),
                    args: value_views(f.bound_variables@),
                },
            ),
        }
    }
}

impl ValueFunction {
    pub open spec fn view(&self) -> Clo {
        Clo {
            kind: self.func@,
            captured: binding_views(self.bound_context@),
            args: value_views(self.bound_variables@),
        }
    }
}

/// The models of a list of values.
pub open spec fn value_views(s: Seq<Value>) -> Seq<Val>
    decreases s, s.len(),
{
    if s.len() == 0 {
        Seq::empty()
    } else {
        value_views(s.drop_last()).push(s.last().view())
    }
}

/// The models of a list of bindings.
pub open spec fn binding_views(s: Seq<(String, Value)>) -> Seq<(Seq<char>, Val)>
    decreases s, s.len(),
{
    if s.len() == 0 {
        Seq::empty()
    } else {
        binding_views(s.drop_last()).push((s.last().0@, s.last().1.view()))
    }
}

pub proof fn lemma_value_views(s: Seq<Value>)
    ensures
        value_views(s).len() == s.len(),
        forall|i: int| 0 <= i < s.len() ==> #[trigger] value_views(s)[i] == s[i]@,
    decreases s.len(),
{
    if s.len() > 0 {
        lemma_value_views(s.drop_last());
    }
}

pub proof fn lemma_binding_views(s: Seq<(String, Value)>)
    ensures
        binding_views(s).len() == s.len(),
        forall|i: int|
            0 <= i < s.len() ==> #[trigger] binding_views(s)[i] == (s[i].0@, s[i].1@),
    decreases s.len(),
{
    if s.len() > 0 {
        lemma_binding_views(s.drop_last());
    }
}

/// The model of the activation stack, outermost frame first.
pub open spec fn frames_view(s: Seq<FunctionContext>) -> Seq<Seq<(Seq<char>, Val)>> {
    s.map_values(|c: FunctionContext| binding_views(c.0@))
}

/// The model of the registry, most recent entry first.
pub open spec fn defs_view(s: Seq<InterpreterFunctionDef>) -> Seq<Kind> {
    s.map_values(|d: InterpreterFunctionDef| d@)
}

impl RuntimeError {
    pub open spec fn view(&self) -> REr {
        match self {
            RuntimeError::UndefinedFunctionReference(s) => REr::Undefined(s@),
            RuntimeError::ValueNotAFunction(n) => REr::NotAFunction(*n as nat),
            RuntimeError::EmptyFunction => REr::Empty,
            RuntimeError::ExplicitlyRaised => REr::Raised,
            RuntimeError::ExplicitlyRaisedMessage(s) => REr::RaisedMessage(s@),
            RuntimeError::DepthExceeded => REr::DepthExceeded,
        }
    }
}

/// The model of an evaluation result.
pub open spec fn res_view(r: Result<Value, RuntimeError>) -> Result<Val, REr> {
    match r {
        Ok(v) => Ok(v@),
        Err(e) => Err(e@),
    }
}

/// The value bound to `n` in a frame: its latest binding.
pub open spec fn lookup_frame(f: Seq<(Seq<char>, Val)>, n: Seq<char>) -> Option<Val>
    decreases f.len(),
{
    if f.len() == 0 {
        None
    } else if f.last().0 == n {
        Some(f.last().1)
    } else {
        lookup_frame(f.drop_last(), n)
    }
}

/// The value bound to `n` on an activation stack: the deepest frame that
/// binds it wins.
pub open spec fn lookup_frames(fs: Seq<Seq<(Seq<char>, Val)>>, n: Seq<char>) -> Option<Val>
    decreases fs.len(),
{
    if fs.len() == 0 {
        None
    } else {
        match lookup_frame(fs.last(), n) {
            Some(v) => Some(v),
            None => lookup_frames(fs.drop_last(), n),
        }
    }
}

/// The first registry entry named `n`.
pub open spec fn find_def(defs: Seq<Kind>, n: Seq<char>) -> Option<Kind>
    decreases defs.len(),
{
    if defs.len() == 0 {
        None
    } else if kind_name(defs[0]) == n {
        Some(defs[0])
    } else {
        find_def(defs.drop_first(), n)
    }
}

/// A closure of `k` with nothing captured and nothing applied.
pub open spec fn fresh(k: Kind) -> Clo {
    Clo { kind: k, captured: Seq::empty(), args: Seq::empty() }
}

/// What a reference evaluates to on a stack and registry.
pub open spec fn resolve(
    fs: Seq<Seq<(Seq<char>, Val)>>,
    defs: Seq<Kind>,
    n: Seq<char>,
) -> Result<Val, REr> {
    match lookup_frames(fs, n) {
        Some(v) => Ok(v),
        None => match find_def(defs, n) {
            Some(k) => Ok(Val::Fun(fresh(k))),
            None => Err(REr::Undefined(n)),
        },
    }
}

/// The frame of an invocation: each argument under its parameter's name (an
/// argument beyond the parameters under the empty name), then the captures.
pub open spec fn invocation_frame(c: Clo) -> Seq<(Seq<char>, Val)> {
    let ps = match c.kind {
        Kind::User(_, Prog::Lambda(ps, _)) => ps,
        _ => Seq::empty(),
    };
    Seq::new(
        c.args.len(),
        |i: int|
            (
                if i < ps.len() {
                    ps[i]
                } else {
                    Seq::empty()
                },
                c.args[i],
            ),
    ) + c.captured
}

/// The new binding in a frame shadows everything below it: for any stack,
/// a frame pushed on it that binds `n` decides the lookup of `n`, and a
/// frame that binds `n` last to `v` gives `v`.
pub proof fn lemma_deepest_binding_wins(
    fs: Seq<Seq<(Seq<char>, Val)>>,
    f: Seq<(Seq<char>, Val)>,
    n: Seq<char>,
    v: Val,
)
    ensures
        lookup_frame(f, n) is Some ==> lookup_frames(fs.push(f), n) == lookup_frame(f, n),
        lookup_frames(fs.push(f.push((n, v))), n) == Some(v),
        lookup_frame(f, n) is None ==> lookup_frames(fs.push(f), n) == lookup_frames(fs, n),
{
    assert(fs.push(f).drop_last() =~= fs);
    assert(fs.push(f.push((n, v))).last() == f.push((n, v)));
    assert(f.push((n, v)).last() == (n, v));
}

/// Copies a list of values.
pub fn copy_values(v: &Vec<Value>) -> (r: Vec<Value>)
    ensures
        value_views(r@) == value_views(v@),
    decreases v, 0nat,
{
    let mut out: Vec<Value> = Vec::new();
    let mut i: usize = 0;
    while i < v.len()
        invariant
            i <= v@.len(),
            out@.len() == i,
            forall|k: int| 0 <= k < i ==> #[trigger] out@[k]@ == v@[k]@,
        decreases v@.len() - i,
    {
        out.push(v[i].copy());
        i = i + 1;
    }
    proof {
        lemma_value_views(out@);
        lemma_value_views(v@);
        assert(value_views(out@) =~= value_views(v@));
    }
    out
}

/// Copies a list of bindings.
pub fn copy_bindings(v: &Vec<(String, Value)>) -> (r: Vec<(String, Value)>)
    ensures
        binding_views(r@) == binding_views(v@),
    decreases v, 0nat,
{
    let mut out: Vec<(String, Value)> = Vec::new();
    let mut i: usize = 0;
    while i < v.len()
        invariant
            i <= v@.len(),
            out@.len() == i,
            forall|k: int|
                0 <= k < i ==> (#[trigger] out@[k]).0@ == v@[k].0@ && out@[k].1@ == v@[k].1@,
        decreases v@.len() - i,
    {
        proof {
            assert(decreases_to!(v@[i as int] => v@[i as int].1));
        }
        let b = (v[i].0.clone(), v[i].1.copy());
        out.push(b);
        i = i + 1;
    }
    proof {
        lemma_binding_views(out@);
        lemma_binding_views(v@);
        assert(binding_views(out@) =~= binding_views(v@));
    }
    out
}

impl Value {
    /// A copy of the value.
    pub fn copy(&self) -> (r: Value)
        ensures
            r@ == self@,
        decreases self, 1nat,
    {
        match self {
            Value::Number(n) => Value::Number(*n),
            Value::Function(f) => {
                proof {
                    assert(decreases_to!(*self => f.bound_context));
                    assert(decreases_to!(*self => f.bound_variables));
                }
                Value::Function(
                    ValueFunction {
                        func: f.func.copy(),
                        bound_context: copy_bindings(&f.bound_context),
                        bound_variables: copy_values(&f.bound_variables),
                    },
                )
            },
        }
    }
}

impl ValueFunction {
    /// A copy of the closure.
    pub fn copy(&self) -> (r: ValueFunction)
        ensures
            r@ == self@,
    {
        ValueFunction {
            func: self.func.copy(),
            bound_context: copy_bindings(&self.bound_context),
            bound_variables: copy_values(&self.bound_variables),
        }
    }
}

impl Output {
    pub open spec fn view(&self) -> Out {
        match self {
            Output::Value(v) => Out::Value(v@),
            Output::Text(t) => Out::Text(t@),
        }
    }
}

/// The models of a list of printed items.
pub open spec fn outs_view(s: Seq<Output>) -> Seq<Out> {
    s.map_values(|o: Output| o@)
}

/// Models of the evaluator's parts that evaluation must keep: the registry
/// and the depth of the activation stack.
pub open spec fn keeps_shape(a: &InterpreterContext, b: &InterpreterContext) -> bool {
    &&& a.builtins == b.builtins
    &&& a.function_context@.len() == b.function_context@.len()
}

impl InterpreterContext {
    /// The model of the activation stack, outermost frame first.
    pub open spec fn frames(&self) -> Seq<Seq<(Seq<char>, Val)>> {
        frames_view(self.function_context@)
    }

    /// The model of the registry, most recent entry first.
    pub open spec fn defs(&self) -> Seq<Kind> {
        defs_view(self.builtins@)
    }

    /// The model of the evaluator.
    pub open spec fn st(&self) -> St {
        St { frames: self.frames(), defs: self.defs(), heap: self.state@, printed: outs_view(self.printed@) }
    }

    /// An evaluator with an empty registry, no frames and a fresh state.
    pub fn new() -> (r: Self)
        ensures
            r.defs().len() == 0,
            r.frames().len() == 0,
            r.printed@.len() == 0,
            r.state@.len() == 0,
    {
        Self {
            builtins: Vec::new(),
            function_context: Vec::new(),
            state: BuiltinState { heap: Vec::new() },
            printed: Vec::new(),
        }
    }

    /// Registers a native under `name`, in front of all earlier entries.
    pub fn register_builtin(&mut self, name: String, arg_count: usize, func: Builtin)
        ensures
            final(self).defs() == seq![Kind::Native(name@, arg_count as nat, func)] + old(self).defs(),
            final(self).function_context == old(self).function_context,
            final(self).state == old(self).state,
            final(self).printed == old(self).printed,
    {
        self.builtins.insert(0, InterpreterFunctionDef::BuiltIn { name, arg_count, func });
        proof {
            assert(final(self).defs() =~= seq![Kind::Native(name@, arg_count as nat, func)] + old(self).defs());
        }
    }

    /// Registers a user function under `name`, in front of all earlier entries.
    pub fn register_func(&mut self, name: String, func: FunctionDef)
        ensures
            final(self).defs() == seq![Kind::User(name@, func@)] + old(self).defs(),
            final(self).function_context == old(self).function_context,
            final(self).state == old(self).state,
            final(self).printed == old(self).printed,
    {
        let ghost k = Kind::User(name@, func@);
        self.builtins.insert(0, InterpreterFunctionDef::FunctionDef { name, def: func });
        proof {
            assert(final(self).defs() =~= seq![k] + old(self).defs());
        }
    }

    /// The value bound to `token` on the activation stack: the deepest
    /// frame that binds it, and in that frame its latest binding.
    pub fn lookup(&self, token: &String) -> (r: Option<Value>)
        ensures
            match r {
                Some(v) => lookup_frames(self.frames(), token@) == Some(v@),
                None => lookup_frames(self.frames(), token@) is None,
            },
    {
        let ghost fs = self.frames();
        let ghost n = token@;
        let mut i: usize = self.function_context.len();
        proof {
            assert(fs.take(i as int) =~= fs);
        }
        while i > 0
            invariant
                i <= self.function_context@.len(),
                fs == self.frames(),
                fs.len() == self.function_context@.len(),
                n == token@,
                lookup_frames(fs, n) == lookup_frames(fs.take(i as int), n),
            decreases i,
        {
            let frame = &self.function_context[i - 1].0;
            let ghost f = binding_views(frame@);
            proof {
                lemma_binding_views(frame@);
                assert(fs[i - 1] == f);
                assert(f.take(f.len() as int) =~= f);
                assert(fs.take(i as int).drop_last() =~= fs.take(i - 1));
                assert(fs.take(i as int).last() == f);
            }
            let mut j: usize = frame.len();
            while j > 0
                invariant
                    j <= frame@.len(),
                    f == binding_views(frame@),
                    f.len() == frame@.len(),
                    n == token@,
                    fs == self.frames(),
                    0 < i <= fs.len(),
                    lookup_frames(fs, n) == lookup_frames(fs.take(i as int), n),
                    fs.take(i as int).last() == f,
                    forall|k: int| 0 <= k < frame@.len() ==> #[trigger] f[k] == (frame@[k].0@, frame@[k].1@),
                    lookup_frame(f, n) == lookup_frame(f.take(j as int), n),
                decreases j,
            {
                proof {
                    assert(f.take(j as int).drop_last() =~= f.take(j - 1));
                    assert(f.take(j as int).last() == f[j - 1]);
                }
                let hit = frame[j - 1].0.eq(token);
                proof {
                    assert(f[j - 1] == (frame@[j - 1].0@, frame@[j - 1].1@));
                }
                if hit {
                    let v = frame[j - 1].1.copy();
                    proof {
                        assert(lookup_frame(f.take(j as int), n) == Some(f[j - 1].1));
                        assert(lookup_frame(f, n) == Some(v@));
                        assert(lookup_frames(fs.take(i as int), n) == Some(v@));
                    }
                    return Some(v);
                }
                proof {
                    assert(f[j - 1].0 != n);
                    assert(lookup_frame(f.take(j as int), n) == lookup_frame(f.take(j - 1), n));
                }
                j = j - 1;
            }
            proof {
                assert(f.take(0) =~= Seq::<(Seq<char>, Val)>::empty());
            }
            i = i - 1;
        }
        proof {
            assert(fs.take(0) =~= Seq::<Seq<(Seq<char>, Val)>>::empty());
        }
        None
    }

    /// A copy of the first registry entry named `token`.
    fn find_builtin(&self, token: &String) -> (r: Option<InterpreterFunctionDef>)
        ensures
            match r {
                Some(d) => find_def(self.defs(), token@) == Some(d@),
                None => find_def(self.defs(), token@) is None,
            },
    {
        let ghost ds = self.defs();
        let mut i: usize = 0;
        proof {
            assert(ds.skip(0) =~= ds);
        }
        while i < self.builtins.len()
            invariant
                i <= self.builtins@.len(),
                ds == self.defs(),
                ds.len() == self.builtins@.len(),
                find_def(ds, token@) == find_def(ds.skip(i as int), token@),
            decreases self.builtins@.len() - i,
        {
            proof {
                assert(ds.skip(i as int)[0] == ds[i as int]);
                assert(ds.skip(i as int).drop_first() =~= ds.skip(i + 1));
            }
            if self.builtins[i].name().eq(token) {
                return Some(self.builtins[i].copy());
            }
            i = i + 1;
        }
        proof {
            assert(ds.skip(i as int) =~= Seq::<Kind>::empty());
        }
        None
    }

    /// Evaluates a program tree, nesting at most `fuel` deep, as `eval` says.
    pub fn run_in(&mut self, program: &ProgramAST, fuel: u64) -> (r: Result<Value, RuntimeError>)
        ensures
            keeps_shape(old(self), final(self)),
            (final(self).st(), res_view(r)) == eval(old(self).st(), program@, fuel as nat),
            !(program is FunctionCall) ==> *final(self) == *old(self),
        decreases fuel, 3nat,
    {
        match program {
            ProgramAST::FunctionCall { function, arg } => {
                if fuel == 0 {
                    return Err(RuntimeError::DepthExceeded);
                }
                let f = match self.run_in(function, fuel - 1) {
                    Ok(v) => v,
                    Err(e) => return Err(e),
                };
                match f {
                    Value::Number(n) => Err(RuntimeError::ValueNotAFunction(n)),
                    Value::Function(vf) => {
                        let a = match self.run_in(arg, fuel - 1) {
                            Ok(v) => v,
                            Err(e) => return Err(e),
                        };
                        self.apply(vf, a, fuel - 1)
                    },
                }
            },
            ProgramAST::FunctionDef(d) => Ok(
                Value::Function(
                    ValueFunction {
                        func: InterpreterFunctionDef::FunctionDef {
                            name: String::from_str("anonymous"),
                            def: d.copy(),
                        },
                        bound_context: Vec::new(),
                        bound_variables: Vec::new(),
                    },
                ),
            ),
            ProgramAST::FunctionRef { token } => {
                match self.lookup(token) {
                    Some(v) => return Ok(v),
                    None => {},
                }
                match self.find_builtin(token) {
                    Some(d) => Ok(
                        Value::Function(
                            ValueFunction {
                                func: d,
                                bound_context: Vec::new(),
                                bound_variables: Vec::new(),
                            },
                        ),
                    ),
                    None => Err(RuntimeError::UndefinedFunctionReference(token.clone())),
                }
            },
            ProgramAST::Value { value } => Ok(Value::Number(*value)),
        }
    }

    /// Applies a closure to one more argument: it collects the argument
    /// while it has fewer than its arity, and is invoked once it has them all.
    pub fn apply(&mut self, func: ValueFunction, arg: Value, fuel: u64) -> (r: Result<
        Value,
        RuntimeError,
    >)
        ensures
            keeps_shape(old(self), final(self)),
            (final(self).st(), res_view(r)) == apply_spec(old(self).st(), func@, arg@, fuel as nat),
            func@.args.len() + 1 < arity(func@.kind) ==> *final(self) == *old(self) && res_view(r)
                == Ok::<Val, REr>(Val::Fun(Clo { args: func@.args.push(arg@), ..func@ })),
        decreases fuel, 2nat,
    {
        let mut func = func;
        let ghost before = func@;
        let ghost old_vars = func.bound_variables@;
        func.bound_variables.push(arg);
        proof {
            assert(func.bound_variables@.drop_last() =~= old_vars);
            assert(func.bound_variables@.last() == arg);
            assert(value_views(func.bound_variables@) == before.args.push(arg@));
            lemma_value_views(old_vars);
            assert(before.args.push(arg@) + Seq::<Val>::empty() =~= before.args.push(arg@));
            lemma_value_views(Seq::<Value>::empty());
        }
        let n = func.func.arity();
        if func.bound_variables.len() < n {
            Ok(Value::Function(func))
        } else {
            self.run_func_value_in(func, Vec::new(), fuel)
        }
    }

    /// Invokes a closure with `args` appended to the arguments it holds, as
    /// `invoke` says.
    pub fn run_func_value_in(&mut self, func: ValueFunction, args: Vec<Value>, fuel: u64) -> (r:
        Result<Value, RuntimeError>)
        ensures
            keeps_shape(old(self), final(self)),
            (final(self).st(), res_view(r)) == invoke(
                old(self).st(),
                func@,
                value_views(args@),
                fuel as nat,
            ),
        decreases fuel, 1nat,
    {
        if fuel == 0 {
            return Err(RuntimeError::DepthExceeded);
        }
        let ghost c = func@;
        let ghost extra = value_views(args@);
        let mut func = func;
        let mut args = args;
        let ghost v0 = func.bound_variables@;
        let ghost a0 = args@;
        func.bound_variables.append(&mut args);
        proof {
            lemma_value_views(v0);
            lemma_value_views(a0);
            lemma_value_views(func.bound_variables@);
            assert(value_views(func.bound_variables@) =~= c.args + extra);
        }
        let ghost c2 = Clo { args: c.args + extra, ..c };
        match func.func {
            InterpreterFunctionDef::BuiltIn { name: _, arg_count: _, func: op } => {
                self.call_native(op, func.bound_variables, fuel - 1)
            },
            InterpreterFunctionDef::FunctionDef { name: _, def } => {
                let vars = invocation_bindings(&def.arg_tokens, &func.bound_variables, &func.bound_context);
                proof {
                    assert(c2.kind == Kind::User(c2.kind->User_0, def@));
                    assert(binding_views(vars@) == invocation_frame(c2));
                }
                self.run_func(&def, vars, fuel - 1)
            },
        }
    }

    /// Runs a function body in a new frame holding `args`, as `run_body`
    /// says: the value of its last statement is the result, and the frame is
    /// removed on every exit.
    pub fn run_func(&mut self, func: &FunctionDef, args: Vec<(String, Value)>, fuel: u64) -> (r:
        Result<Value, RuntimeError>)
        ensures
            keeps_shape(old(self), final(self)),
            (final(self).st(), res_view(r)) == run_body(
                old(self).st(),
                prog_views(func.block@),
                binding_views(args@),
                fuel as nat,
            ),
            func.block@.len() == 0 ==> res_view(r) == Err::<Val, REr>(REr::Empty),
        decreases fuel, 0nat,
    {
        let ghost body = prog_views(func.block@);
        let ghost frame = binding_views(args@);
        let ghost st0 = self.st();
        proof {
            crate::ast_parser::lemma_prog_views(func.block@);
        }
        if func.block.len() > 0 && fuel == 0 {
            return Err(RuntimeError::DepthExceeded);
        }
        self.function_context.push(FunctionContext(args));
        proof {
            assert(self.st() == St { frames: st0.frames.push(frame), ..st0 }) by {
                assert(self.frames() =~= st0.frames.push(frame));
            }
        }
        let ghost pushed = self.st();
        let mut last_value: Option<Value> = None;
        let mut i: usize = 0;
        while i < func.block.len()
            invariant
                self.builtins == old(self).builtins,
                self.function_context@.len() == old(self).function_context@.len() + 1,
                i <= func.block@.len(),
                i > 0 ==> last_value is Some,
                i == 0 ==> last_value is None,
                func.block@.len() > 0 ==> fuel > 0,
                body == prog_views(func.block@),
                body.len() == func.block@.len(),
                forall|k: int| 0 <= k < body.len() ==> #[trigger] body[k] == func.block@[k]@,
                run_stmts(pushed, body, 0, None, fuel as nat) == run_stmts(
                    self.st(),
                    body,
                    i as int,
                    opt_view(last_value),
                    fuel as nat,
                ),
                pushed == (St { frames: st0.frames.push(frame), ..st0 }),
                st0 == old(self).st(),
                frame == binding_views(args@),
            decreases func.block@.len() - i,
        {
            let ghost s_before = self.st();
            let ghost last_before = opt_view(last_value);
            match self.run_in(&func.block[i], fuel - 1) {
                Ok(v) => {
                    last_value = Some(v);
                },
                Err(e) => {
                    let ghost s1 = self.st();
                    proof {
                        assert(run_stmts(s_before, body, i as int, last_before, fuel as nat) == (
                        s1, Err::<Val, REr>(e@)));
                    }
                    self.function_context.pop();
                    proof {
                        assert(self.frames() =~= s1.frames.drop_last());
                        assert(self.st() == (St { frames: s1.frames.drop_last(), ..s1 }));
                        assert(body.len() > 0);
                        assert(run_body(st0, body, frame, fuel as nat) == (
                        St { frames: s1.frames.drop_last(), ..s1 }, Err::<Val, REr>(e@)));
                    }
                    return Err(e);
                },
            }
            i = i + 1;
        }
        let ghost s1 = self.st();
        self.function_context.pop();
        proof {
            assert(self.frames() =~= s1.frames.drop_last());
            assert(self.st() == (St { frames: s1.frames.drop_last(), ..s1 }));
        }
        match last_value {
            Some(v) => Ok(v),
            None => Err(RuntimeError::EmptyFunction),
        }
    }

    /// Runs a function literal with the given bindings as its frame.
    pub fn run_anonym_func(&mut self, program: ProgramAST, args: Vec<(String, Value)>) -> (r:
        Result<Value, RuntimeError>)
        ensures
            keeps_shape(old(self), final(self)),
            program matches ProgramAST::FunctionDef(d) ==> (final(self).st(), res_view(r))
                == run_body(old(self).st(), prog_views(d.block@), binding_views(args@), MAX_DEPTH as nat),
            !(program is FunctionDef) ==> res_view(r) == Err::<Val, REr>(REr::NotAFunction(0)),
    {
        match program {
            ProgramAST::FunctionDef(func_def) => self.run_func(&func_def, args, MAX_DEPTH),
            _ => Err(RuntimeError::ValueNotAFunction(0)),
        }
    }

    /// Invokes a closure with `args` appended to the arguments it holds.
    pub fn run_func_value(&mut self, func: ValueFunction, args: Vec<Value>) -> (r: Result<
        Value,
        RuntimeError,
    >)
        ensures
            keeps_shape(old(self), final(self)),
            (final(self).st(), res_view(r)) == invoke(
                old(self).st(),
                func@,
                value_views(args@),
                MAX_DEPTH as nat,
            ),
    {
        self.run_func_value_in(func, args, MAX_DEPTH)
    }

    /// Evaluates a program tree.
    pub fn run(&mut self, program: ProgramAST) -> (r: Result<Value, RuntimeError>)
        ensures
            keeps_shape(old(self), final(self)),
            (final(self).st(), res_view(r)) == eval(old(self).st(), program@, MAX_DEPTH as nat),
    {
        self.run_in(&program, MAX_DEPTH)
    }
}

/// The model of an optional value.
pub open spec fn opt_view(o: Option<Value>) -> Option<Val> {
    match o {
        Some(v) => Some(v@),
        None => None,
    }
}

/// The frame of an invocation: each argument under its parameter's name
/// (the empty name past the last parameter), then copies of the captures.
fn invocation_bindings(params: &Vec<String>, values: &Vec<Value>, captured: &Vec<(String, Value)>) -> (r: Vec<(String, Value)>)
    ensures
        binding_views(r@) == Seq::new(
            values@.len(),
            |i: int|
                (
                    if i < params@.len() {
                        params@[i]@
                    } else {
                        Seq::empty()
                    },
                    values@[i]@,
                ),
        ) + binding_views(captured@),
{
    let mut vars: Vec<(String, Value)> = Vec::new();
    let mut i: usize = 0;
    while i < values.len()
        invariant
            i <= values@.len(),
            vars@.len() == i,
            forall|k: int|
                0 <= k < i ==> (#[trigger] vars@[k]).0@ == (if k < params@.len() {
                    params@[k]@
                } else {
                    Seq::empty()
                }) && vars@[k].1@ == values@[k]@,
        decreases values@.len() - i,
    {
        let pname = if i < params.len() {
            params[i].clone()
        } else {
            String::new()
        };
        vars.push((pname, values[i].copy()));
        i = i + 1;
    }
    let ghost front = vars@;
    let mut ctx = copy_bindings(captured);
    let ghost back = ctx@;
    vars.append(&mut ctx);
    proof {
        lemma_binding_views(vars@);
        lemma_binding_views(front);
        lemma_binding_views(back);
        lemma_binding_views(captured@);
        assert(binding_views(vars@) =~= Seq::new(
            values@.len(),
            |i: int|
                (
                    if i < params@.len() {
                        params@[i]@
                    } else {
                        Seq::empty()
                    },
                    values@[i]@,
                ),
        ) + binding_views(captured@));
    }
    vars
}

} // verus!
