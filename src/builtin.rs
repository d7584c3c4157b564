use vstd::prelude::*;
use crate::ast_parser::{Prog, ProgramAST};
use crate::semantics::{St, bind_from, bind_spec, if_spec, let_spec, native, Out};
use crate::interpreter::{
    Clo, InterpreterContext, InterpreterFunctionDef, Kind, Output, REr, RuntimeError, Val, Value,
    keeps_shape, lemma_value_views, lookup_frames, res_view, value_views,
};

verus! {

/// The native operations a registry entry can stand for.
#[derive(Debug, Clone, Copy, PartialEq, Eq, Structural)]
pub enum Builtin {
    Add,
    Sub,
    Mul,
    Not,
    IsNumber,
    Panic,
    Print,
    Let,
    If,
    Bind,
    Alloc,
    Len,
    Deref,
    Store,
    PrintStr,
}

/// A block of heap cells starting at an address.
#[derive(Debug)]
pub struct Allocation {
    pub start_addr: usize,
    pub data: Vec<usize>,
}

/// The heap the natives share: allocations in order of creation, each
/// starting where the previous one ends.
#[derive(Debug)]
pub struct BuiltinState {
    pub heap: Vec<Allocation>,
}

/// The address of the first allocation.
pub const HEAP_BASE: usize = 0x1024;

/// The model of an allocation: start address and cells.
pub open spec fn alloc_view(a: Allocation) -> (usize, Seq<usize>) {
    (a.start_addr, a.data@)
}

/// `addr` is a cell of the allocation.
pub open spec fn holds(a: (usize, Seq<usize>), addr: usize) -> bool {
    a.0 <= addr && addr - a.0 < a.1.len()
}

/// The value of the first allocation's cell at `addr`.
pub open spec fn cell(h: Seq<(usize, Seq<usize>)>, addr: usize) -> Option<usize>
    decreases h.len(),
{
    if h.len() == 0 {
        None
    } else if holds(h[0], addr) {
        Some(h[0].1[addr - h[0].0])
    } else {
        cell(h.drop_first(), addr)
    }
}

/// The heap with `v` stored in the first allocation's cell at `addr`.
pub open spec fn store(h: Seq<(usize, Seq<usize>)>, addr: usize, v: usize) -> Seq<(usize, Seq<usize>)>
    decreases h.len(),
{
    if h.len() == 0 {
        h
    } else if holds(h[0], addr) {
        h.update(0, (h[0].0, h[0].1.update(addr - h[0].0, v)))
    } else {
        seq![h[0]] + store(h.drop_first(), addr, v)
    }
}

proof fn lemma_store_at(h: Seq<(usize, Seq<usize>)>, addr: usize, v: usize, i: int)
    requires
        0 <= i < h.len(),
        holds(h[i], addr),
        forall|k: int| 0 <= k < i ==> !holds(#[trigger] h[k], addr),
    ensures
        store(h, addr, v) == h.update(i, (h[i].0, h[i].1.update(addr - h[i].0, v))),
    decreases i,
{
    if i > 0 {
        assert(!holds(h[0], addr));
        let t = h.drop_first();
        assert forall|k: int| 0 <= k < i - 1 implies !holds(#[trigger] t[k], addr) by {
            assert(t[k] == h[k + 1]);
        }
        lemma_store_at(t, addr, v, i - 1);
        assert(seq![h[0]] + t.update(i - 1, (t[i - 1].0, t[i - 1].1.update(addr - t[i - 1].0, v)))
            =~= h.update(i, (h[i].0, h[i].1.update(addr - h[i].0, v))));
    }
}

proof fn lemma_store_none(h: Seq<(usize, Seq<usize>)>, addr: usize, v: usize)
    requires
        forall|k: int| 0 <= k < h.len() ==> !holds(#[trigger] h[k], addr),
    ensures
        store(h, addr, v) == h,
    decreases h.len(),
{
    if h.len() > 0 {
        assert(!holds(h[0], addr));
        let t = h.drop_first();
        assert forall|k: int| 0 <= k < t.len() implies !holds(#[trigger] t[k], addr) by {
            assert(t[k] == h[k + 1]);
        }
        lemma_store_none(t, addr, v);
        assert(seq![h[0]] + t =~= h);
    }
}

/// Where the next allocation starts.
pub open spec fn next_start(h: Seq<(usize, Seq<usize>)>) -> int {
    if h.len() == 0 {
        HEAP_BASE as int
    } else {
        h.last().0 + h.last().1.len()
    }
}

/// The index of the first allocation that starts at `addr`.
pub open spec fn starting_at(h: Seq<(usize, Seq<usize>)>, addr: usize) -> Option<int>
    decreases h.len(),
{
    if h.len() == 0 {
        None
    } else if h.last().0 == addr && starting_at(h.drop_last(), addr) is None {
        Some(h.len() - 1)
    } else {
        starting_at(h.drop_last(), addr)
    }
}

impl BuiltinState {
    pub open spec fn view(&self) -> Seq<(usize, Seq<usize>)> {
        self.heap@.map_values(|a: Allocation| alloc_view(a))
    }

    /// Makes an allocation of `size` zero cells after the last one, and
    /// returns its start; none when its start would not fit in a machine word.
    pub fn allocate(&mut self, size: usize) -> (r: Option<usize>)
        ensures
            next_start(old(self)@) <= usize::MAX ==> r == Some(next_start(old(self)@) as usize)
                && final(self)@ == old(self)@.push(
                (next_start(old(self)@) as usize, Seq::new(size as nat, |i: int| 0usize)),
            ),
            next_start(old(self)@) > usize::MAX ==> r is None && final(self)@ == old(self)@,
    {
        let start = if self.heap.len() == 0 {
            HEAP_BASE
        } else {
            let last = &self.heap[self.heap.len() - 1];
            if last.start_addr > usize::MAX - last.data.len() {
                return None;
            }
            last.start_addr + last.data.len()
        };
        let mut data: Vec<usize> = Vec::new();
        let mut i: usize = 0;
        while i < size
            invariant
                i <= size,
                data@ == Seq::new(i as nat, |k: int| 0usize),
            decreases size - i,
        {
            data.push(0);
            i = i + 1;
            proof {
                assert(data@ =~= Seq::new(i as nat, |k: int| 0usize));
            }
        }
        self.heap.push(Allocation { start_addr: start, data });
        proof {
            assert(final(self)@ =~= old(self)@.push(
                (start, Seq::new(size as nat, |i: int| 0usize)),
            ));
        }
        Some(start)
    }

    /// The value of the cell at `addr`.
    pub fn get(&self, addr: usize) -> (r: Option<usize>)
        ensures
            r == cell(self@, addr),
    {
        let ghost h = self@;
        let mut i: usize = 0;
        proof {
            assert(h.skip(0) =~= h);
        }
        while i < self.heap.len()
            invariant
                i <= self.heap@.len(),
                h == self@,
                h.len() == self.heap@.len(),
                cell(h, addr) == cell(h.skip(i as int), addr),
            decreases self.heap@.len() - i,
        {
            let a = &self.heap[i];
            proof {
                assert(h.skip(i as int)[0] == h[i as int]);
                assert(h[i as int] == alloc_view(self.heap@[i as int]));
                assert(h.skip(i as int).drop_first() =~= h.skip(i + 1));
            }
            if addr >= a.start_addr && addr - a.start_addr < a.data.len() {
                return Some(a.data[addr - a.start_addr]);
            }
            i = i + 1;
        }
        proof {
            assert(h.skip(i as int) =~= Seq::<(usize, Seq<usize>)>::empty());
        }
        None
    }

    /// Stores `value` in the first allocation's cell at `addr`; false when no
    /// allocation holds `addr`.
    pub fn set(&mut self, addr: usize, value: usize) -> (r: bool)
        ensures
            r == cell(old(self)@, addr) is Some,
            final(self)@ == store(old(self)@, addr, value),
            !r ==> final(self)@ == old(self)@,
            r ==> cell(final(self)@, addr) == Some(value),
            final(self)@.len() == old(self)@.len(),
            forall|k: int|
                0 <= k < old(self)@.len() ==> (#[trigger] final(self)@[k]).0 == old(self)@[k].0
                    && final(self)@[k].1.len() == old(self)@[k].1.len(),
    {
        let ghost h = self@;
        let mut i: usize = 0;
        proof {
            assert(h.skip(0) =~= h);
        }
        while i < self.heap.len()
            invariant
                i <= self.heap@.len(),
                h == self@,
                h == old(self)@,
                h.len() == self.heap@.len(),
                cell(h, addr) == cell(h.skip(i as int), addr),
                forall|k: int| 0 <= k < i ==> !holds(#[trigger] h[k], addr),
            decreases self.heap@.len() - i,
        {
            proof {
                assert(h.skip(i as int)[0] == h[i as int]);
                assert(h[i as int] == alloc_view(self.heap@[i as int]));
                assert(h.skip(i as int).drop_first() =~= h.skip(i + 1));
            }
            let start = self.heap[i].start_addr;
            let len = self.heap[i].data.len();
            if addr >= start && addr - start < len {
                self.heap[i].data[addr - start] = value;
                proof {
                    let h2 = final(self)@;
                    assert(h2 =~= h.update(i as int, (start, h[i as int].1.update(addr - start, value))));
                    lemma_cell_at(h2, addr, i as int);
                    lemma_store_at(h, addr, value, i as int);
                }
                return true;
            }
            i = i + 1;
        }
        proof {
            assert(h.skip(i as int) =~= Seq::<(usize, Seq<usize>)>::empty());
            lemma_store_none(h, addr, value);
        }
        false
    }

    /// The index of the first allocation that starts at `addr`.
    pub fn find_start(&self, addr: usize) -> (r: Option<usize>)
        ensures
            match r {
                Some(k) => starting_at(self@, addr) == Some(k as int) && k < self.heap@.len()
                    && self@[k as int] == alloc_view(self.heap@[k as int]),
                None => starting_at(self@, addr) is None,
            },
    {
        let ghost h = self@;
        let mut i: usize = 0;
        while i < self.heap.len()
            invariant
                i <= self.heap@.len(),
                h == self@,
                h.len() == self.heap@.len(),
                starting_at(h.take(i as int), addr) is None,
            decreases self.heap@.len() - i,
        {
            proof {
                assert(h.take(i + 1).drop_last() =~= h.take(i as int));
                assert(h[i as int] == alloc_view(self.heap@[i as int]));
            }
            if self.heap[i].start_addr == addr {
                proof {
                    assert(starting_at(h.take(i + 1), addr) == Some(i as int));
                    lemma_starting_at_prefix(h, i + 1, addr);
                }
                return Some(i);
            }
            i = i + 1;
        }
        proof {
            assert(h.take(i as int) =~= h);
        }
        None
    }
}

proof fn lemma_cell_at(h: Seq<(usize, Seq<usize>)>, addr: usize, i: int)
    requires
        0 <= i < h.len(),
        holds(h[i], addr),
        forall|k: int| 0 <= k < i ==> !holds(#[trigger] h[k], addr),
    ensures
        cell(h, addr) == Some(h[i].1[addr - h[i].0]),
    decreases i,
{
    if i > 0 {
        assert(!holds(h[0], addr));
        let t = h.drop_first();
        assert forall|k: int| 0 <= k < i - 1 implies !holds(#[trigger] t[k], addr) by {
            assert(t[k] == h[k + 1]);
        }
        lemma_cell_at(t, addr, i - 1);
    }
}

proof fn lemma_starting_at_prefix(h: Seq<(usize, Seq<usize>)>, k: int, addr: usize)
    requires
        0 <= k <= h.len(),
        starting_at(h.take(k), addr) is Some,
    ensures
        starting_at(h, addr) == starting_at(h.take(k), addr),
    decreases h.len() - k,
{
    if k < h.len() {
        assert(h.take(k + 1).drop_last() =~= h.take(k));
        lemma_starting_at_prefix(h, k + 1, addr);
    } else {
        assert(h.take(k) =~= h);
    }
}

/// How many arguments a native reads.
pub open spec fn native_arity(op: Builtin) -> nat {
    match op {
        Builtin::Add | Builtin::Sub | Builtin::Mul | Builtin::Let | Builtin::Bind
        | Builtin::Store => 2,
        Builtin::If => 3,
        _ => 1,
    }
}

/// Subtraction that wraps below zero: `a - b` when `b > a` is
/// `usize::MAX - (b - a)`.
pub open spec fn sub_wrapping(a: usize, b: usize) -> usize {
    if b > a {
        (usize::MAX - (b - a)) as usize
    } else {
        (a - b) as usize
    }
}

/// The natives whose result depends on their arguments alone.
pub open spec fn is_pure(op: Builtin) -> bool {
    op == Builtin::Add || op == Builtin::Sub || op == Builtin::Mul || op == Builtin::Not
        || op == Builtin::IsNumber || op == Builtin::Panic
}

/// The result of a pure native on arguments it has enough of.
pub open spec fn pure_result(op: Builtin, args: Seq<Val>) -> Result<Val, REr> {
    match op {
        Builtin::Add => match (args[0], args[1]) {
            (Val::Num(a), Val::Num(b)) => Ok(Val::Num(vstd::wrapping::usize_specs::wrapping_add(a, b))),
            _ => Err(REr::Raised),
        },
        Builtin::Mul => match (args[0], args[1]) {
            (Val::Num(a), Val::Num(b)) => Ok(Val::Num(vstd::wrapping::usize_specs::wrapping_mul(a, b))),
            _ => Err(REr::Raised),
        },
        Builtin::Sub => match (args[0], args[1]) {
            (Val::Num(a), Val::Num(b)) => Ok(Val::Num(sub_wrapping(a, b))),
            _ => Ok(Val::Num(0)),
        },
        Builtin::Not => match args[0] {
            Val::Num(n) => Ok(Val::Num(if n == 0 { 1 } else { 0 })),
            _ => Err(REr::Raised),
        },
        Builtin::IsNumber => match args[0] {
            Val::Num(_) => Ok(Val::Num(1)),
            _ => Ok(Val::Num(0)),
        },
        _ => Err(REr::Raised),
    }
}

/// The name a `let` binds: the first statement of a user closure, when it
/// is a reference.
pub open spec fn let_name(v: Val) -> Option<Seq<char>> {
    match v {
        Val::Fun(c) => match c.kind {
            Kind::User(_, Prog::Lambda(_, body)) => if body.len() > 0 {
                match body[0] {
                    Prog::Ref(n) => Some(n),
                    _ => None,
                }
            } else {
                None
            },
            _ => None,
        },
        _ => None,
    }
}

/// A heap allocation of `size` zero cells at the next start.
pub open spec fn allocated(h: Seq<(usize, Seq<usize>)>, size: usize) -> Seq<(usize, Seq<usize>)> {
    h.push((next_start(h) as usize, Seq::new(size as nat, |i: int| 0usize)))
}

/// What a heap native returns, on a heap and its arguments.
pub open spec fn heap_result(op: Builtin, h: Seq<(usize, Seq<usize>)>, args: Seq<Val>) -> Result<Val, REr> {
    match op {
        Builtin::Alloc => match args[0] {
            Val::Num(n) => if next_start(h) <= usize::MAX {
                Ok(Val::Num(next_start(h) as usize))
            } else {
                Err(REr::RaisedMessage("heap address space exhausted"@))
            },
            _ => Err(REr::RaisedMessage("alloc param should be number"@)),
        },
        Builtin::Len => match args[0] {
            Val::Num(a) => match starting_at(h, a) {
                Some(k) => Ok(Val::Num(h[k].1.len() as usize)),
                None => Err(REr::RaisedMessage("allocation for addr not found"@)),
            },
            _ => Err(REr::RaisedMessage("len needs addr as parameter"@)),
        },
        Builtin::Deref => match args[0] {
            Val::Num(a) => match cell(h, a) {
                Some(v) => Ok(Val::Num(v)),
                None => Err(REr::RaisedMessage("Deref addr not found"@)),
            },
            _ => Err(REr::RaisedMessage("* needs addr as parameter"@)),
        },
        Builtin::Store => match (args[0], args[1]) {
            (Val::Num(a), Val::Num(_)) => if cell(h, a) is Some {
                Ok(Val::Num(1))
            } else {
                Err(REr::RaisedMessage("address not previously allocd"@))
            },
            _ => Err(REr::RaisedMessage("= needs numbers as parameters"@)),
        },
        Builtin::PrintStr => match args[0] {
            Val::Num(a) => match starting_at(h, a) {
                Some(k) => Ok(Val::Num(a)),
                None => Err(REr::RaisedMessage("allocation not found"@)),
            },
            _ => Err(REr::RaisedMessage("need ptr to print string"@)),
        },
        _ => Err(REr::Raised),
    }
}

impl InterpreterContext {
    /// Runs a native operation on its arguments.
    pub fn call_native(&mut self, op: Builtin, args: Vec<Value>, fuel: u64) -> (r: Result<
        Value,
        RuntimeError,
    >)
        ensures
            keeps_shape(old(self), final(self)),
            (final(self).st(), res_view(r)) == native(old(self).st(), op, value_views(args@), fuel as nat),
        decreases fuel, 4nat,
    {
        proof {
            lemma_value_views(args@);
        }
        if args.len() < native_arity_exec(op) {
            return Err(RuntimeError::ExplicitlyRaisedMessage("too few arguments"));
        }
        match op {
            Builtin::Add => match (&args[0], &args[1]) {
                (Value::Number(a), Value::Number(b)) => Ok(Value::Number(a.wrapping_add(*b))),
                _ => Err(RuntimeError::ExplicitlyRaised),
            },
            Builtin::Mul => match (&args[0], &args[1]) {
                (Value::Number(a), Value::Number(b)) => Ok(Value::Number(a.wrapping_mul(*b))),
                _ => Err(RuntimeError::ExplicitlyRaised),
            },
            Builtin::Sub => match (&args[0], &args[1]) {
                (Value::Number(a), Value::Number(b)) => {
                    if *b > *a {
                        Ok(Value::Number(usize::MAX - (*b - *a)))
                    } else {
                        Ok(Value::Number(*a - *b))
                    }
                },
                _ => Ok(Value::Number(0)),
            },
            Builtin::Not => match &args[0] {
                Value::Number(n) => Ok(Value::Number(if *n == 0 { 1 } else { 0 })),
                _ => Err(RuntimeError::ExplicitlyRaised),
            },
            Builtin::IsNumber => match &args[0] {
                Value::Number(_) => Ok(Value::Number(1)),
                _ => Ok(Value::Number(0)),
            },
            Builtin::Panic => Err(RuntimeError::ExplicitlyRaised),
            Builtin::Print => {
                let ghost p0 = self.printed@;
                self.printed.push(Output::Value(args[0].copy()));
                proof {
                    assert(crate::interpreter::outs_view(self.printed@) =~= crate::interpreter::outs_view(p0).push(Out::Value(args@[0]@)));
                    assert(self.st() == (St { printed: old(self).st().printed.push(Out::Value(args@[0]@)), ..old(self).st() }));
                }
                Ok(args[0].copy())
            },
            Builtin::Let => self.native_let(&args[0], &args[1]),
            Builtin::If => self.native_if(&args[0], &args[1], &args[2], fuel),
            Builtin::Bind => self.native_bind(&args[0], &args[1]),
            Builtin::Alloc => match &args[0] {
                Value::Number(n) => match self.state.allocate(*n) {
                    Some(a) => Ok(Value::Number(a)),
                    None => Err(RuntimeError::ExplicitlyRaisedMessage("heap address space exhausted")),
                },
                _ => Err(RuntimeError::ExplicitlyRaisedMessage("alloc param should be number")),
            },
            Builtin::Len => match &args[0] {
                Value::Number(a) => match self.state.find_start(*a) {
                    Some(k) => Ok(Value::Number(self.state.heap[k].data.len())),
                    None => Err(RuntimeError::ExplicitlyRaisedMessage("allocation for addr not found")),
                },
                _ => Err(RuntimeError::ExplicitlyRaisedMessage("len needs addr as parameter")),
            },
            Builtin::Deref => match &args[0] {
                Value::Number(a) => match self.state.get(*a) {
                    Some(v) => Ok(Value::Number(v)),
                    None => Err(RuntimeError::ExplicitlyRaisedMessage("Deref addr not found")),
                },
                _ => Err(RuntimeError::ExplicitlyRaisedMessage("* needs addr as parameter")),
            },
            Builtin::Store => match (&args[0], &args[1]) {
                (Value::Number(a), Value::Number(v)) => {
                    if self.state.set(*a, *v) {
                        Ok(Value::Number(1))
                    } else {
                        Err(RuntimeError::ExplicitlyRaisedMessage("address not previously allocd"))
                    }
                },
                _ => Err(RuntimeError::ExplicitlyRaisedMessage("= needs numbers as parameters")),
            },
            Builtin::PrintStr => match &args[0] {
                Value::Number(a) => match self.state.find_start(*a) {
                    Some(k) => {
                        let text = copy_cells(&self.state.heap[k].data);
                        let ghost p0 = self.printed@;
                        let ghost h = self.state@;
                        self.printed.push(Output::Text(text));
                        proof {
                            assert(crate::interpreter::outs_view(self.printed@) =~= crate::interpreter::outs_view(p0).push(Out::Text(h[k as int].1)));
                            assert(self.st() == (St { printed: old(self).st().printed.push(Out::Text(h[k as int].1)), ..old(self).st() }));
                        }
                        Ok(Value::Number(*a))
                    },
                    None => Err(RuntimeError::ExplicitlyRaisedMessage("allocation not found")),
                },
                _ => Err(RuntimeError::ExplicitlyRaisedMessage("need ptr to print string")),
            },
        }
    }

    /// Binds the name held by `holder` to a copy of `value` in the current frame.
    fn native_let(&mut self, holder: &Value, value: &Value) -> (r: Result<Value, RuntimeError>)
        ensures
            keeps_shape(old(self), final(self)),
            (final(self).st(), res_view(r)) == let_spec(old(self).st(), holder@, value@),
    {
        match holder {
            Value::Number(n) => Err(RuntimeError::ValueNotAFunction(*n)),
            Value::Function(f) => match &f.func {
                InterpreterFunctionDef::BuiltIn { .. } => Err(RuntimeError::ExplicitlyRaised),
                InterpreterFunctionDef::FunctionDef { name: _, def } => {
                    proof {
                        crate::ast_parser::lemma_prog_views(def.block@);
                    }
                    if def.block.len() == 0 {
                        return Err(RuntimeError::ExplicitlyRaised);
                    }
                    match &def.block[0] {
                        ProgramAST::FunctionRef { token } => {
                            if self.function_context.len() == 0 {
                                return Err(RuntimeError::ExplicitlyRaisedMessage("no frame to bind in"));
                            }
                            let ghost fs = self.frames();
                            let mut top = self.function_context.pop().unwrap();
                            let ghost before = top.0@;
                            top.0.push((token.clone(), value.copy()));
                            proof {
                                assert(top.0@.drop_last() =~= before);
                            }
                            self.function_context.push(top);
                            proof {
                                assert(self.frames() =~= fs.drop_last().push(fs.last().push((token@, value@))));
                            }
                            Ok(Value::Number(0))
                        },
                        _ => Err(RuntimeError::ExplicitlyRaisedMessage(
                            "Let name has to be a function containing one token",
                        )),
                    }
                },
            },
        }
    }

    /// Runs `body` when the condition is non-zero and `otherwise` when it is
    /// zero; the condition is a number, or a closure run without arguments.
    fn native_if(&mut self, cond: &Value, body: &Value, otherwise: &Value, fuel: u64) -> (r: Result<
        Value,
        RuntimeError,
    >)
        ensures
            keeps_shape(old(self), final(self)),
            (final(self).st(), res_view(r)) == if_spec(old(self).st(), cond@, body@, otherwise@, fuel as nat),
        decreases fuel, 3nat,
    {
        match (body, otherwise) {
            (Value::Function(b), Value::Function(e)) => {
                if fuel == 0 {
                    return Err(RuntimeError::DepthExceeded);
                }
                let n = match cond {
                    Value::Number(n) => *n,
                    Value::Function(c) => match self.run_func_value_in(c.copy(), Vec::new(), fuel - 1) {
                        Ok(Value::Number(n)) => n,
                        Ok(_) => return Ok(Value::Number(0)),
                        Err(x) => return Err(x),
                    },
                };
                if n != 0 {
                    self.run_func_value_in(b.copy(), Vec::new(), fuel - 1)
                } else {
                    self.run_func_value_in(e.copy(), Vec::new(), fuel - 1)
                }
            },
            _ => Ok(Value::Number(0)),
        }
    }

    /// A copy of `target` that also captures, in order, the current value
    /// of every reference that stands alone as a statement of `names`.
    fn native_bind(&self, names: &Value, target: &Value) -> (r: Result<Value, RuntimeError>)
        ensures
            res_view(r) == bind_spec(self.frames(), names@, target@),
    {
        match (names, target) {
            (Value::Function(f), Value::Function(t)) => match &f.func {
                InterpreterFunctionDef::FunctionDef { name: _, def } => {
                    let mut retval = t.copy();
                    let ghost t0 = t@;
                    let ghost fs = self.frames();
                    let ghost body = crate::ast_parser::prog_views(def.block@);
                    proof {
                        crate::ast_parser::lemma_prog_views(def.block@);
                        assert(names@ == Val::Fun(f@));
                        assert(bind_spec(fs, names@, target@) == bind_from(fs, body, 0, t0));
                    }
                    let mut i: usize = 0;
                    while i < def.block.len()
                        invariant
                            i <= def.block@.len(),
                            fs == self.frames(),
                            body == crate::ast_parser::prog_views(def.block@),
                            body.len() == def.block@.len(),
                            forall|k: int| 0 <= k < body.len() ==> #[trigger] body[k] == def.block@[k]@,
                            bind_from(fs, body, 0, t0) == bind_from(fs, body, i as int, retval@),
                            bind_spec(fs, names@, target@) == bind_from(fs, body, 0, t0),
                        decreases def.block@.len() - i,
                    {
                        match &def.block[i] {
                            ProgramAST::FunctionRef { token } => match self.lookup(token) {
                                Some(v) => {
                                    let ghost c0 = retval@;
                                    let ghost b0 = retval.bound_context@;
                                    retval.bound_context.push((token.clone(), v));
                                    proof {
                                        assert(retval.bound_context@.drop_last() =~= b0);
                                        assert(retval@ == (Clo { captured: c0.captured.push((token@, v@)), ..c0 }));
                                    }
                                },
                                None => {
                                    proof {
                                        assert(body[i as int] == Prog::Ref(token@));
                                        assert(lookup_frames(fs, token@) is None);
                                        assert(bind_from(fs, body, i as int, retval@) == Err::<Val, REr>(
                                            REr::RaisedMessage("token to bind not found"@)));
                                    }
                                    return Err(RuntimeError::ExplicitlyRaisedMessage("token to bind not found"));
                                },
                            },
                            _ => {},
                        }
                        i = i + 1;
                    }
                    Ok(Value::Function(retval))
                },
                _ => Err(RuntimeError::ExplicitlyRaisedMessage("Wrong parameter to bind")),
            },
            _ => Err(RuntimeError::ExplicitlyRaisedMessage("Wrong parameter to bind")),
        }
    }
}

/// How many arguments a native reads.
pub fn native_arity_exec(op: Builtin) -> (r: usize)
    ensures
        r == native_arity(op),
{
    match op {
        Builtin::Add | Builtin::Sub | Builtin::Mul | Builtin::Let | Builtin::Bind
        | Builtin::Store => 2,
        Builtin::If => 3,
        _ => 1,
    }
}

/// Copies the cells of an allocation.
fn copy_cells(v: &Vec<usize>) -> (r: Vec<usize>)
    ensures
        r@ == v@,
{
    let mut out: Vec<usize> = Vec::new();
    let mut i: usize = 0;
    while i < v.len()
        invariant
            i <= v@.len(),
            out@ == v@.take(i as int),
        decreases v@.len() - i,
    {
        out.push(v[i]);
        i = i + 1;
        proof {
            assert(out@ =~= v@.take(i as int));
        }
    }
    proof {
        assert(v@.take(i as int) =~= v@);
    }
    out
}

/// The natives `register_builtins` adds, most recent first.
pub open spec fn native_table() -> Seq<Kind> {
    seq![
        Kind::Native("if"@, 3, Builtin::If),
        Kind::Native("let"@, 2, Builtin::Let),
        Kind::Native("panic"@, 1, Builtin::Panic),
        Kind::Native("print"@, 1, Builtin::Print),
        Kind::Native("not"@, 1, Builtin::Not),
        Kind::Native("-"@, 2, Builtin::Sub),
        Kind::Native("mul"@, 2, Builtin::Mul),
        Kind::Native("+"@, 2, Builtin::Add),
        Kind::Native("printstr"@, 1, Builtin::PrintStr),
        Kind::Native("bind"@, 2, Builtin::Bind),
        Kind::Native("number?"@, 1, Builtin::IsNumber),
        Kind::Native("="@, 2, Builtin::Store),
        Kind::Native("*"@, 1, Builtin::Deref),
        Kind::Native("len"@, 1, Builtin::Len),
        Kind::Native("alloc"@, 1, Builtin::Alloc),
    ]
}

/// Registers the natives of the language in front of the registry.
pub fn register_builtins(interpreter: &mut InterpreterContext)
    ensures
        final(interpreter).defs() == native_table() + old(interpreter).defs(),
        final(interpreter).function_context == old(interpreter).function_context,
        final(interpreter).state == old(interpreter).state,
        final(interpreter).printed == old(interpreter).printed,
{
    interpreter.register_builtin(String::from_str("alloc"), 1, Builtin::Alloc);
    interpreter.register_builtin(String::from_str("len"), 1, Builtin::Len);
    interpreter.register_builtin(String::from_str("*"), 1, Builtin::Deref);
    interpreter.register_builtin(String::from_str("="), 2, Builtin::Store);
    interpreter.register_builtin(String::from_str("number?"), 1, Builtin::IsNumber);
    interpreter.register_builtin(String::from_str("bind"), 2, Builtin::Bind);
    interpreter.register_builtin(String::from_str("printstr"), 1, Builtin::PrintStr);
    interpreter.register_builtin(String::from_str("+"), 2, Builtin::Add);
    interpreter.register_builtin(String::from_str("mul"), 2, Builtin::Mul);
    interpreter.register_builtin(String::from_str("-"), 2, Builtin::Sub);
    interpreter.register_builtin(String::from_str("not"), 1, Builtin::Not);
    interpreter.register_builtin(String::from_str("print"), 1, Builtin::Print);
    interpreter.register_builtin(String::from_str("panic"), 1, Builtin::Panic);
    interpreter.register_builtin(String::from_str("let"), 2, Builtin::Let);
    interpreter.register_builtin(String::from_str("if"), 3, Builtin::If);
    proof {
        assert(final(interpreter).defs() =~= native_table() + old(interpreter).defs());
    }
}

/// An evaluator with the natives of the language registered and an empty heap.
pub fn create_builtin_interpreter() -> (r: InterpreterContext)
    ensures
        r.defs() == native_table(),
        r.frames().len() == 0,
        r.state@.len() == 0,
        r.printed@.len() == 0,
{
    let mut interpreter = InterpreterContext::new();
    register_builtins(&mut interpreter);
    proof {
        assert(native_table() + Seq::<Kind>::empty() =~= native_table());
    }
    interpreter
}

} // verus!
