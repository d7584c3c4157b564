use vstd::prelude::*;
use crate::ast_parser::Prog;
use crate::builtin::{
    Builtin, allocated, heap_result, is_pure, let_name, native_arity, next_start,
    pure_result, starting_at, store,
};
use crate::interpreter::{
    Clo, Kind, REr, Val, arity, fresh, invocation_frame, lookup_frames, resolve,
};

verus! {

/// The model of what the natives hand out for printing.
pub enum Out {
    Value(Val),
    Text(Seq<usize>),
}

/// The model of an evaluator: activation stack, registry, heap, and what
/// was printed.
pub struct St {
    pub frames: Seq<Seq<(Seq<char>, Val)>>,
    pub defs: Seq<Kind>,
    pub heap: Seq<(usize, Seq<usize>)>,
    pub printed: Seq<Out>,
}

/// The state after a step, and its result.
pub type Step = (St, Result<Val, REr>);

/// Evaluates a program tree, nesting at most `fuel` deep: a call evaluates
/// its function, then (when that is a closure) its argument, then applies.
pub open spec fn eval(st: St, p: Prog, fuel: nat) -> Step
    decreases fuel, 4nat, 0int,
{
    match p {
        Prog::Call(f, a) => if fuel == 0 {
            (st, Err(REr::DepthExceeded))
        } else {
            let (s1, rf) = eval(st, *f, (fuel - 1) as nat);
            match rf {
                Err(e) => (s1, Err(e)),
                Ok(Val::Num(n)) => (s1, Err(REr::NotAFunction(n as nat))),
                Ok(Val::Fun(c)) => {
                    let (s2, ra) = eval(s1, *a, (fuel - 1) as nat);
                    match ra {
                        Err(e) => (s2, Err(e)),
                        Ok(v) => apply_spec(s2, c, v, (fuel - 1) as nat),
                    }
                },
            }
        },
        Prog::Lambda(_, _) => (st, Ok(Val::Fun(fresh(Kind::User("anonymous"@, p))))),
        Prog::Ref(n) => (st, resolve(st.frames, st.defs, n)),
        Prog::Num(n) => (st, Ok(Val::Num(n as usize))),
    }
}

/// Applies a closure to one more argument: below its arity the closure
/// grows, at its arity it is invoked.
pub open spec fn apply_spec(st: St, c: Clo, v: Val, fuel: nat) -> Step
    decreases fuel, 3nat, 0int,
{
    let c2 = Clo { args: c.args.push(v), ..c };
    if c2.args.len() < arity(c.kind) {
        (st, Ok(Val::Fun(c2)))
    } else {
        invoke(st, c2, Seq::empty(), fuel)
    }
}

/// Invokes a closure with `extra` appended to its arguments.
pub open spec fn invoke(st: St, c: Clo, extra: Seq<Val>, fuel: nat) -> Step
    decreases fuel, 2nat, 0int,
{
    if fuel == 0 {
        (st, Err(REr::DepthExceeded))
    } else {
        let c2 = Clo { args: c.args + extra, ..c };
        match c2.kind {
            Kind::Native(_, _, op) => native(st, op, c2.args, (fuel - 1) as nat),
            Kind::User(_, p) => match p {
                Prog::Lambda(_, body) => run_body(
                    st,
                    body,
                    invocation_frame(c2),
                    (fuel - 1) as nat,
                ),
                _ => (st, Err(REr::Empty)),
            },
        }
    }
}

/// Runs a body in a new frame, which is removed afterwards, whatever the outcome.
pub open spec fn run_body(st: St, body: Seq<Prog>, frame: Seq<(Seq<char>, Val)>, fuel: nat) -> Step
    decreases fuel, 1nat, 0int,
{
    if body.len() > 0 && fuel == 0 {
        (st, Err(REr::DepthExceeded))
    } else {
        let (s, r) = run_stmts(St { frames: st.frames.push(frame), ..st }, body, 0, None, fuel);
        (St { frames: s.frames.drop_last(), ..s }, r)
    }
}

/// Runs the statements from `i` on; the value of the last one is the result.
pub open spec fn run_stmts(st: St, body: Seq<Prog>, i: int, last: Option<Val>, fuel: nat) -> Step
    decreases fuel, 0nat, body.len() - i,
{
    if i < 0 || i >= body.len() {
        (
            st,
            match last {
                Some(v) => Ok(v),
                None => Err(REr::Empty),
            },
        )
    } else if fuel == 0 {
        (st, Err(REr::DepthExceeded))
    } else {
        let (s1, r) = eval(st, body[i], (fuel - 1) as nat);
        match r {
            Err(e) => (s1, Err(e)),
            Ok(v) => run_stmts(s1, body, i + 1, Some(v), fuel),
        }
    }
}

/// The failure of `let` on a first argument that names nothing.
pub open spec fn let_error(v: Val) -> REr {
    match v {
        Val::Num(n) => REr::NotAFunction(n as nat),
        Val::Fun(c) => match c.kind {
            Kind::User(_, Prog::Lambda(_, body)) => if body.len() > 0 {
                REr::RaisedMessage("Let name has to be a function containing one token"@)
            } else {
                REr::Raised
            },
            _ => REr::Raised,
        },
    }
}

/// What `let` does: binds the name its first argument holds to its second
/// argument, in the innermost frame.
pub open spec fn let_spec(st: St, holder: Val, value: Val) -> Step {
    match let_name(holder) {
        Some(n) => if st.frames.len() > 0 {
            (
                St { frames: st.frames.drop_last().push(st.frames.last().push((n, value))), ..st },
                Ok(Val::Num(0)),
            )
        } else {
            (st, Err(REr::RaisedMessage("no frame to bind in"@)))
        },
        None => (st, Err(let_error(holder))),
    }
}

/// `target` with a capture appended, in order, for every statement of
/// `body` from `i` on that is a lone reference, with its current value.
pub open spec fn bind_from(fs: Seq<Seq<(Seq<char>, Val)>>, body: Seq<Prog>, i: int, c: Clo) -> Result<Val, REr>
    decreases body.len() - i,
{
    if i < 0 || i >= body.len() {
        Ok(Val::Fun(c))
    } else {
        match body[i] {
            Prog::Ref(n) => match lookup_frames(fs, n) {
                Some(v) => bind_from(fs, body, i + 1, Clo { captured: c.captured.push((n, v)), ..c }),
                None => Err(REr::RaisedMessage("token to bind not found"@)),
            },
            _ => bind_from(fs, body, i + 1, c),
        }
    }
}

/// What `bind` returns.
pub open spec fn bind_spec(fs: Seq<Seq<(Seq<char>, Val)>>, names: Val, target: Val) -> Result<Val, REr> {
    match (names, target) {
        (Val::Fun(f), Val::Fun(t)) => match f.kind {
            Kind::User(_, Prog::Lambda(_, body)) => bind_from(fs, body, 0, t),
            _ => Err(REr::RaisedMessage("Wrong parameter to bind"@)),
        },
        _ => Err(REr::RaisedMessage("Wrong parameter to bind"@)),
    }
}

/// What `if` does: a closure condition is invoked without arguments; a
/// non-zero number selects `body`, zero selects `other`, each invoked
/// without arguments; a condition closure that yields a closure, or
/// branches that are not both closures, give zero.
pub open spec fn if_spec(st: St, cond: Val, body: Val, other: Val, fuel: nat) -> Step
    decreases fuel, 5nat, 1int,
{
    match (body, other) {
        (Val::Fun(b), Val::Fun(e)) => if fuel == 0 {
            (st, Err(REr::DepthExceeded))
        } else {
            match cond {
                Val::Num(n) => if n != 0 {
                    invoke(st, b, Seq::empty(), (fuel - 1) as nat)
                } else {
                    invoke(st, e, Seq::empty(), (fuel - 1) as nat)
                },
                Val::Fun(c) => {
                    let (s1, r) = invoke(st, c, Seq::empty(), (fuel - 1) as nat);
                    match r {
                        Ok(Val::Num(n)) => if n != 0 {
                            invoke(s1, b, Seq::empty(), (fuel - 1) as nat)
                        } else {
                            invoke(s1, e, Seq::empty(), (fuel - 1) as nat)
                        },
                        Ok(Val::Fun(_)) => (s1, Ok(Val::Num(0))),
                        Err(x) => (s1, Err(x)),
                    }
                },
            }
        },
        _ => (st, Ok(Val::Num(0))),
    }
}

/// Runs a native on its arguments.
pub open spec fn native(st: St, op: Builtin, args: Seq<Val>, fuel: nat) -> Step
    decreases fuel, 5nat, 2int,
{
    if args.len() < native_arity(op) {
        (st, Err(REr::RaisedMessage("too few arguments"@)))
    } else if is_pure(op) {
        (st, pure_result(op, args))
    } else {
        match op {
            Builtin::Print => (St { printed: st.printed.push(Out::Value(args[0])), ..st }, Ok(args[0])),
            Builtin::Let => let_spec(st, args[0], args[1]),
            Builtin::If => if_spec(st, args[0], args[1], args[2], fuel),
            Builtin::Bind => (st, bind_spec(st.frames, args[0], args[1])),
            Builtin::Alloc => (
                match args[0] {
                    Val::Num(n) => if next_start(st.heap) <= usize::MAX {
                        St { heap: allocated(st.heap, n), ..st }
                    } else {
                        st
                    },
                    _ => st,
                },
                heap_result(op, st.heap, args),
            ),
            Builtin::Store => (
                match (args[0], args[1]) {
                    (Val::Num(a), Val::Num(v)) => St { heap: store(st.heap, a, v), ..st },
                    _ => st,
                },
                heap_result(op, st.heap, args),
            ),
            Builtin::PrintStr => (
                match args[0] {
                    Val::Num(a) => match starting_at(st.heap, a) {
                        Some(k) => St { printed: st.printed.push(Out::Text(st.heap[k].1)), ..st },
                        None => st,
                    },
                    _ => st,
                },
                heap_result(op, st.heap, args),
            ),
            _ => (st, heap_result(op, st.heap, args)),
        }
    }
}

} // verus!
