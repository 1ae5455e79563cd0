//! The interpreter: executes what `compile` returns.
//!
//! Values live in a store of slots. A procedure's variables are slots: its
//! arguments are the slots that the caller passed (so what the callee writes
//! to them, the caller sees), and each other variable gets a fresh slot of
//! zero bytes. An integer argument gets a fresh slot holding its four
//! little-endian bytes.
//!
//! Each executed operation costs one unit of fuel; when the fuel is used up,
//! execution stops. An operation that the program cannot execute (a missing
//! procedure or operation, a wrong number of arguments or targets, a `set`
//! between values of different types, or a `set` of a variable to itself)
//! aborts execution: `execute` requires that no run reaches one, and
//! `try_execute` reports it as a trap.
use vstd::prelude::*;
use crate::compile::{
    args_below,
    Arg,
    Builtin,
    Callable,
    Compiled,
    OpName,
    SpecOp,
    SpecProcCode,
    Type,
    Var,
};
use crate::parser::seq_view;

verus! {

/// A value: its bytes and its type. A value owns its bytes, so a clone is a
/// separate copy that later writes do not reach. Sharing, as between a
/// caller's variable and the callee's argument, lives in `execute`'s store
/// of slots: both name one slot.
#[derive(Clone, Debug)]
pub struct Value {
    data: Vec<u8>,
    valtype: VType,
}

#[derive(Clone, Copy, Debug)]
struct VType {
    size: i32,
}

impl From<&Type> for VType {
    fn from(t: &Type) -> (r: VType) {
        VType { size: t.size }
    }
}

impl vstd::std_specs::convert::FromSpecImpl<&Type> for VType {
    open spec fn obeys_from_spec() -> bool {
        true
    }

    closed spec fn from_spec(t: &Type) -> VType {
        VType { size: t.size }
    }
}

/// A value as its bytes and the size of its type.
pub struct SpecVal {
    pub data: Seq<u8>,
    pub size: int,
}

impl View for Value {
    type V = SpecVal;

    closed spec fn view(&self) -> SpecVal {
        SpecVal { data: self.data@, size: self.valtype.size as int }
    }
}

/// `n` zero bytes (none when `n` is not positive).
pub open spec fn zeros(n: int) -> Seq<u8> {
    Seq::new(if n > 0 { n as nat } else { 0 }, |i: int| 0u8)
}

/// A fresh variable of the given size: all its bytes are zero.
pub open spec fn fresh_value(size: int) -> SpecVal {
    SpecVal { data: zeros(size), size }
}

/// The four little-endian bytes of `n`.
pub open spec fn i32_bytes(n: i32) -> Seq<u8> {
    let u = n as u32;
    seq![(u & 0xff) as u8, ((u >> 8u32) & 0xff) as u8, ((u >> 16u32) & 0xff) as u8, ((u >> 24u32) & 0xff) as u8]
}

/// The value of an integer: four bytes.
pub open spec fn int_value(n: i32) -> SpecVal {
    SpecVal { data: i32_bytes(n), size: 4 }
}

pub open spec fn is_zero(d: Seq<u8>) -> bool {
    forall|i: int| 0 <= i < d.len() ==> d[i] == 0
}

impl Value {
    fn new(valtype: VType) -> (v: Value)
        ensures
            v@ == fresh_value(valtype.size as int),
    {
        let mut data: Vec<u8> = Vec::new();
        let mut i: i32 = 0;
        while i < valtype.size
            invariant
                0 <= i,
                i <= valtype.size || i == 0,
                data@ == zeros(i as int),
            decreases valtype.size - i,
        {
            data.push(0);
            i = i + 1;
            assert(data@ =~= zeros(i as int));
        }
        proof {
            if valtype.size <= 0 {
                assert(zeros(valtype.size as int).len() == 0);
                assert(data@ =~= zeros(valtype.size as int));
            } else {
                assert(i == valtype.size);
            }
        }
        Value { data, valtype }
    }

    /// The value of a 32-bit integer.
    pub fn new_i32(n: i32) -> (v: Value)
        ensures
            v@ == int_value(n),
    {
        let u = n as u32;
        let mut data: Vec<u8> = Vec::new();
        data.push((u & 0xff) as u8);
        data.push(((u >> 8u32) & 0xff) as u8);
        data.push(((u >> 16u32) & 0xff) as u8);
        data.push(((u >> 24u32) & 0xff) as u8);
        assert(data@ =~= i32_bytes(n));
        Value { data, valtype: VType { size: 4 } }
    }

    /// Replaces the bytes of the value.
    fn set(&mut self, data: &[u8])
        ensures
            final(self)@ == (SpecVal { data: data@, size: old(self)@.size }),
    {
        let mut v: Vec<u8> = Vec::new();
        let mut i: usize = 0;
        while i < data.len()
            invariant
                i <= data@.len(),
                v@ == data@.take(i as int),
            decreases data@.len() - i,
        {
            v.push(data[i]);
            i = i + 1;
            assert(v@ =~= data@.take(i as int));
        }
        assert(v@ =~= data@);
        self.data = v;
    }

    /// A copy of the bytes of the value.
    fn copy_data(&self) -> (r: Vec<u8>)
        ensures
            r@ == self@.data,
    {
        let mut v: Vec<u8> = Vec::new();
        let mut i: usize = 0;
        while i < self.data.len()
            invariant
                i <= self.data@.len(),
                v@ == self.data@.take(i as int),
            decreases self.data@.len() - i,
        {
            v.push(self.data[i]);
            i = i + 1;
            assert(v@ =~= self.data@.take(i as int));
        }
        assert(v@ =~= self.data@);
        v
    }

    /// The bytes of the value.
    pub fn get(&self) -> (r: &[u8])
        ensures
            r@ == self@.data,
    {
        self.data.as_slice()
    }

    /// The size of the value's type.
    pub fn size(&self) -> (r: i32)
        ensures
            r == self@.size,
    {
        self.valtype.size
    }
}

/// What `execute` returns when the procedure returns.
#[derive(Debug)]
pub struct ExecResult;

/// Why execution stopped before the procedure returned.
#[derive(Debug, PartialEq, Eq)]
pub enum RunError {
    /// An operation that cannot be executed.
    Trap,
    /// The fuel was used up.
    OutOfFuel,
}

// ---------------------------------------------------------------------------
// Execution as functions on the store
/// How an execution ends, with the store it leaves: the procedure returned
/// (with the fuel left), a trap, or the fuel ran out.
pub enum RunOutcome {
    Done(Seq<SpecVal>, nat),
    Trap(Seq<SpecVal>),
    OutOfFuel(Seq<SpecVal>),
}

/// The variables `pvars[k..]` given fresh slots at the end of the store,
/// after the slots `vars`.
pub open spec fn alloc_locals_from(pvars: Seq<Var>, k: int, vars: Seq<usize>, store: Seq<SpecVal>) -> (
    Seq<usize>,
    Seq<SpecVal>,
)
    decreases pvars.len() - k,
{
    if k < 0 || k >= pvars.len() {
        (vars, store)
    } else {
        alloc_locals_from(
            pvars,
            k + 1,
            vars.push(store.len() as usize),
            store.push(fresh_value(pvars[k].vartype.size as int)),
        )
    }
}

/// The slots of the arguments `args[k..]`, after `slots`: a variable's own
/// slot, or a fresh slot for an integer.
pub open spec fn arg_slots_from(
    args: Seq<Arg>,
    k: int,
    vars: Seq<usize>,
    slots: Seq<usize>,
    store: Seq<SpecVal>,
) -> (Seq<usize>, Seq<SpecVal>)
    decreases args.len() - k,
{
    if k < 0 || k >= args.len() {
        (slots, store)
    } else {
        match args[k] {
            Arg::Var(i) => arg_slots_from(args, k + 1, vars, slots.push(vars[i as int]), store),
            Arg::Int(n) => arg_slots_from(
                args,
                k + 1,
                vars,
                slots.push(store.len() as usize),
                store.push(int_value(n)),
            ),
        }
    }
}

/// Procedure `idx` called with the argument slots `frame`.
pub open spec fn run_proc(
    c: Seq<SpecProcCode>,
    idx: int,
    frame: Seq<usize>,
    store: Seq<SpecVal>,
    fuel: nat,
) -> RunOutcome
    decreases fuel, 1nat,
{
    if idx < 0 || idx >= c.len() || frame.len() != c[idx].argcount {
        RunOutcome::Trap(store)
    } else {
        let (vars, st) = alloc_locals_from(c[idx].vars, c[idx].argcount, frame, store);
        run_from(c, idx, vars, 0, st, fuel)
    }
}

/// Where execution goes once a call made by `op`, at operation `pc`,
/// returns: its first target, or the next operation where it names none.
pub open spec fn after_call(op: SpecOp, pc: int) -> int {
    if op.targets.len() >= 1 {
        op.targets[0].target
    } else {
        pc + 1
    }
}

/// Procedure `idx` run from operation `pc`, its variables in the slots `vars`.
pub open spec fn run_from(
    c: Seq<SpecProcCode>,
    idx: int,
    vars: Seq<usize>,
    pc: int,
    store: Seq<SpecVal>,
    fuel: nat,
) -> RunOutcome
    decreases fuel, 0nat,
{
    if fuel == 0 {
        RunOutcome::OutOfFuel(store)
    } else if pc < 0 || pc >= c[idx].code.len() || !args_below(c[idx].code[pc].args, vars.len() as int) {
        RunOutcome::Trap(store)
    } else {
        let f = (fuel - 1) as nat;
        let op = c[idx].code[pc];
        let (slots, st) = arg_slots_from(op.args, 0, vars, Seq::empty(), store);
        match op.name {
            OpName::Builtin(Builtin::RET) => {
                if op.args.len() == 0 && op.targets.len() == 0 {
                    RunOutcome::Done(st, f)
                } else {
                    RunOutcome::Trap(st)
                }
            },
            OpName::Builtin(Builtin::SET) => {
                if slots.len() == 2 && op.targets.len() == 1 && op.targets[0].vars.len() == 0
                    && slots[0] != slots[1] && slots[0] < st.len() && slots[1] < st.len()
                    && st[slots[0] as int].size == st[slots[1] as int].size {
                    let a = slots[0] as int;
                    let b = slots[1] as int;
                    run_from(
                        c,
                        idx,
                        vars,
                        op.targets[0].target,
                        st.update(a, SpecVal { data: st[b].data, size: st[a].size }),
                        f,
                    )
                } else {
                    RunOutcome::Trap(st)
                }
            },
            OpName::Builtin(Builtin::IFZ) => {
                if slots.len() == 1 && op.targets.len() == 2 {
                    let next = if is_zero(st[slots[0] as int].data) {
                        op.targets[0].target
                    } else {
                        op.targets[1].target
                    };
                    run_from(c, idx, vars, next, st, f)
                } else {
                    RunOutcome::Trap(st)
                }
            },
            OpName::UserDef(j) => {
                match run_proc(c, j as int, slots, st, f) {
                    RunOutcome::Done(st2, f2) => {
                        if f2 <= f {
                            run_from(c, idx, vars, after_call(op, pc), st2, f2)
                        } else {
                            RunOutcome::Trap(st2)
                        }
                    },
                    other => other,
                }
            },
        }
    }
}

/// The slots `0..n`: those of the arguments of a top-level call.
pub open spec fn first_slots(n: nat) -> Seq<usize> {
    Seq::new(n, |i: int| i as usize)
}


/// An outcome with `k` more units of fuel left.
pub open spec fn add_fuel(o: RunOutcome, k: nat) -> RunOutcome {
    match o {
        RunOutcome::Done(s, f) => RunOutcome::Done(s, f + k),
        other => other,
    }
}

/// Fuel only bounds execution: a call that returns or traps with some fuel
/// does the same with more fuel, and is left with the extra fuel on return.
pub proof fn lemma_more_fuel_proc(
    c: Seq<SpecProcCode>,
    idx: int,
    frame: Seq<usize>,
    store: Seq<SpecVal>,
    fuel: nat,
    k: nat,
)
    requires
        !(run_proc(c, idx, frame, store, fuel) is OutOfFuel),
    ensures
        run_proc(c, idx, frame, store, fuel + k) == add_fuel(run_proc(c, idx, frame, store, fuel), k),
    decreases fuel, 2nat,
{
    if 0 <= idx < c.len() && frame.len() == c[idx].argcount {
        let (vars, st) = alloc_locals_from(c[idx].vars, c[idx].argcount, frame, store);
        lemma_more_fuel_from(c, idx, vars, 0, st, fuel, k);
    }
}

/// Fuel only bounds execution, from any operation of a procedure on.
pub proof fn lemma_more_fuel_from(
    c: Seq<SpecProcCode>,
    idx: int,
    vars: Seq<usize>,
    pc: int,
    store: Seq<SpecVal>,
    fuel: nat,
    k: nat,
)
    requires
        !(run_from(c, idx, vars, pc, store, fuel) is OutOfFuel),
    ensures
        run_from(c, idx, vars, pc, store, fuel + k) == add_fuel(run_from(c, idx, vars, pc, store, fuel), k),
    decreases fuel, 1nat,
{
    if 0 <= pc < c[idx].code.len() && args_below(c[idx].code[pc].args, vars.len() as int) {
        lemma_more_fuel_step(c, idx, vars, pc, store, fuel, k);
    }
}

proof fn lemma_more_fuel_step(
    c: Seq<SpecProcCode>,
    idx: int,
    vars: Seq<usize>,
    pc: int,
    store: Seq<SpecVal>,
    fuel: nat,
    k: nat,
)
    requires
        !(run_from(c, idx, vars, pc, store, fuel) is OutOfFuel),
        0 <= pc < c[idx].code.len(),
        args_below(c[idx].code[pc].args, vars.len() as int),
    ensures
        run_from(c, idx, vars, pc, store, fuel + k) == add_fuel(run_from(c, idx, vars, pc, store, fuel), k),
    decreases fuel, 0nat,
{
    let f = (fuel - 1) as nat;
    let op = c[idx].code[pc];
    let (slots, st) = arg_slots_from(op.args, 0, vars, Seq::empty(), store);
    assert(((fuel + k) - 1) as nat == f + k);
    match op.name {
        OpName::Builtin(Builtin::RET) => {},
        OpName::Builtin(Builtin::SET) => {
            if slots.len() == 2 && op.targets.len() == 1 && op.targets[0].vars.len() == 0
                && slots[0] != slots[1] && slots[0] < st.len() && slots[1] < st.len()
                && st[slots[0] as int].size == st[slots[1] as int].size {
                let a = slots[0] as int;
                let b = slots[1] as int;
                lemma_more_fuel_from(
                    c,
                    idx,
                    vars,
                    op.targets[0].target,
                    st.update(a, SpecVal { data: st[b].data, size: st[a].size }),
                    f,
                    k,
                );
            }
        },
        OpName::Builtin(Builtin::IFZ) => {
            if slots.len() == 1 && op.targets.len() == 2 {
                let next = if is_zero(st[slots[0] as int].data) {
                    op.targets[0].target
                } else {
                    op.targets[1].target
                };
                lemma_more_fuel_from(c, idx, vars, next, st, f, k);
            }
        },
        OpName::UserDef(j) => {
            lemma_more_fuel_proc(c, j as int, slots, st, f, k);
            match run_proc(c, j as int, slots, st, f) {
                RunOutcome::Done(st2, f2) => {
                    if f2 <= f {
                        lemma_more_fuel_from(c, idx, vars, after_call(op, pc), st2, f2, k);
                    }
                },
                _ => {},
            }
        },
    }
}

/// The store of an outcome.
pub open spec fn outcome_store(o: RunOutcome) -> Seq<SpecVal> {
    match o {
        RunOutcome::Done(s, _) => s,
        RunOutcome::Trap(s) => s,
        RunOutcome::OutOfFuel(s) => s,
    }
}

/// `new` keeps every slot of `old`, with its type, and may add slots.
pub open spec fn keeps_types(old: Seq<SpecVal>, new: Seq<SpecVal>) -> bool {
    &&& old.len() <= new.len()
    &&& forall|i: int| 0 <= i < old.len() ==> (#[trigger] new[i]).size == old[i].size
}

proof fn lemma_alloc_keeps_types(pvars: Seq<Var>, k: int, vars: Seq<usize>, store: Seq<SpecVal>)
    ensures
        keeps_types(store, alloc_locals_from(pvars, k, vars, store).1),
    decreases pvars.len() - k,
{
    if 0 <= k < pvars.len() {
        let st2 = store.push(fresh_value(pvars[k].vartype.size as int));
        lemma_alloc_keeps_types(pvars, k + 1, vars.push(store.len() as usize), st2);
        let r = alloc_locals_from(pvars, k, vars, store).1;
        assert forall|i: int| 0 <= i < store.len() implies (#[trigger] r[i]).size == store[i].size by {
            assert(r[i].size == st2[i].size);
        }
    }
}

proof fn lemma_arg_slots_keep_types(args: Seq<Arg>, k: int, vars: Seq<usize>, slots: Seq<usize>, store: Seq<SpecVal>)
    ensures
        keeps_types(store, arg_slots_from(args, k, vars, slots, store).1),
    decreases args.len() - k,
{
    if 0 <= k < args.len() {
        match args[k] {
            Arg::Var(i) => lemma_arg_slots_keep_types(args, k + 1, vars, slots.push(vars[i as int]), store),
            Arg::Int(n) => {
                let st2 = store.push(int_value(n));
                lemma_arg_slots_keep_types(args, k + 1, vars, slots.push(store.len() as usize), st2);
                let r = arg_slots_from(args, k, vars, slots, store).1;
                assert forall|i: int| 0 <= i < store.len() implies (#[trigger] r[i]).size == store[i].size by {
                    assert(r[i].size == st2[i].size);
                }
            },
        }
    }
}

/// Values keep their types: however a call ends, the store it leaves holds
/// every slot it was given, each with its type unchanged (`set` copies bytes
/// only between values of one type).
pub proof fn lemma_types_kept_proc(
    c: Seq<SpecProcCode>,
    idx: int,
    frame: Seq<usize>,
    store: Seq<SpecVal>,
    fuel: nat,
)
    ensures
        keeps_types(store, outcome_store(run_proc(c, idx, frame, store, fuel))),
    decreases fuel, 1nat,
{
    if 0 <= idx < c.len() && frame.len() == c[idx].argcount {
        let (vars, st) = alloc_locals_from(c[idx].vars, c[idx].argcount, frame, store);
        lemma_alloc_keeps_types(c[idx].vars, c[idx].argcount, frame, store);
        lemma_types_kept_from(c, idx, vars, 0, st, fuel);
        let r = outcome_store(run_proc(c, idx, frame, store, fuel));
        assert forall|i: int| 0 <= i < store.len() implies (#[trigger] r[i]).size == store[i].size by {
            assert(r[i].size == st[i].size);
        }
    }
}

/// Values keep their types, from any operation of a procedure on.
pub proof fn lemma_types_kept_from(
    c: Seq<SpecProcCode>,
    idx: int,
    vars: Seq<usize>,
    pc: int,
    store: Seq<SpecVal>,
    fuel: nat,
)
    ensures
        keeps_types(store, outcome_store(run_from(c, idx, vars, pc, store, fuel))),
    decreases fuel, 0nat,
{
    if fuel > 0 && 0 <= pc < c[idx].code.len() && args_below(c[idx].code[pc].args, vars.len() as int) {
        let f = (fuel - 1) as nat;
        let op = c[idx].code[pc];
        let (slots, st) = arg_slots_from(op.args, 0, vars, Seq::empty(), store);
        lemma_arg_slots_keep_types(op.args, 0, vars, Seq::empty(), store);
        let r = outcome_store(run_from(c, idx, vars, pc, store, fuel));
        match op.name {
            OpName::Builtin(Builtin::RET) => {},
            OpName::Builtin(Builtin::SET) => {
                if slots.len() == 2 && op.targets.len() == 1 && op.targets[0].vars.len() == 0
                    && slots[0] != slots[1] && slots[0] < st.len() && slots[1] < st.len()
                    && st[slots[0] as int].size == st[slots[1] as int].size {
                    let a = slots[0] as int;
                    let b = slots[1] as int;
                    let st2 = st.update(a, SpecVal { data: st[b].data, size: st[a].size });
                    assert(run_from(c, idx, vars, pc, store, fuel) == run_from(c, idx, vars, op.targets[0].target, st2, f));
                    lemma_types_kept_from(c, idx, vars, op.targets[0].target, st2, f);
                    assert forall|i: int| 0 <= i < store.len() implies (#[trigger] r[i]).size == store[i].size by {
                        assert(r[i].size == st2[i].size);
                        assert(st2[i].size == st[i].size);
                    }
                }
            },
            OpName::Builtin(Builtin::IFZ) => {
                if slots.len() == 1 && op.targets.len() == 2 {
                    let next = if is_zero(st[slots[0] as int].data) {
                        op.targets[0].target
                    } else {
                        op.targets[1].target
                    };
                    lemma_types_kept_from(c, idx, vars, next, st, f);
                    assert forall|i: int| 0 <= i < store.len() implies (#[trigger] r[i]).size == store[i].size by {
                        assert(r[i].size == st[i].size);
                    }
                }
            },
            OpName::UserDef(j) => {
                lemma_types_kept_proc(c, j as int, slots, st, f);
                let inner = run_proc(c, j as int, slots, st, f);
                let st2 = outcome_store(inner);
                match inner {
                    RunOutcome::Done(_, f2) => {
                        if f2 <= f {
                            lemma_types_kept_from(c, idx, vars, after_call(op, pc), st2, f2);
                            assert forall|i: int| 0 <= i < store.len() implies (#[trigger] r[i]).size == store[i].size by {
                                assert(r[i].size == st2[i].size);
                                assert(st2[i].size == st[i].size);
                            }
                        }
                    },
                    _ => {},
                }
                assert forall|i: int| 0 <= i < store.len() implies (#[trigger] r[i]).size == store[i].size by {
                    if !(inner is Done) {
                        assert(st2[i].size == st[i].size);
                    }
                }
            },
        }
    }
}

// ---------------------------------------------------------------------------
// Integers and the steps that read them
/// The number that four bytes spell, least significant first.
pub open spec fn le_u32(d: Seq<u8>) -> int {
    d[0] + 256 * d[1] + 65536 * d[2] + 16777216 * d[3]
}

/// An integer's value is four bytes that spell the integer, least
/// significant first (a negative integer as its two's complement, `n + 2^32`);
/// its bytes are all zero exactly when the integer is zero.
pub proof fn lemma_int_value(n: i32)
    ensures
        int_value(n).size == 4,
        int_value(n).data.len() == 4,
        le_u32(int_value(n).data) == (if n >= 0 {
            n as int
        } else {
            n as int + 0x1_0000_0000
        }),
        (forall|b: int| 0 <= b < 4 ==> #[trigger] int_value(n).data[b] == 0) <==> n == 0,
{
    let u = n as u32;
    let d = int_value(n).data;
    assert(u == (u & 0xff) + 256 * ((u >> 8u32) & 0xff) + 65536 * ((u >> 16u32) & 0xff) + 16777216 * ((u
        >> 24u32) & 0xff)) by (bit_vector);
    assert(((u & 0xff) as u8) as int == (u & 0xff) as int) by (bit_vector);
    assert((((u >> 8u32) & 0xff) as u8) as int == ((u >> 8u32) & 0xff) as int) by (bit_vector);
    assert((((u >> 16u32) & 0xff) as u8) as int == ((u >> 16u32) & 0xff) as int) by (bit_vector);
    assert((((u >> 24u32) & 0xff) as u8) as int == ((u >> 24u32) & 0xff) as int) by (bit_vector);
    assert((n as u32) as int == (if n >= 0 {
        n as int
    } else {
        n as int + 0x1_0000_0000
    })) by (bit_vector);
    assert(d[0] == (u & 0xff) as u8);
    assert(d[1] == ((u >> 8u32) & 0xff) as u8);
    assert(d[2] == ((u >> 16u32) & 0xff) as u8);
    assert(d[3] == ((u >> 24u32) & 0xff) as u8);
    if forall|b: int| 0 <= b < 4 ==> #[trigger] d[b] == 0 {
        assert(d[0] == 0 && d[1] == 0 && d[2] == 0 && d[3] == 0);
    }
}

/// An `ifz` on a variable reads every byte of it: the step goes on at the
/// first target exactly when all the bytes of the variable's value are
/// zero, at the second otherwise, and leaves the store as it was.
pub proof fn lemma_ifz_var_step(
    c: Seq<SpecProcCode>,
    idx: int,
    vars: Seq<usize>,
    pc: int,
    store: Seq<SpecVal>,
    fuel: nat,
    i: usize,
)
    requires
        fuel > 0,
        0 <= idx < c.len(),
        0 <= pc < c[idx].code.len(),
        c[idx].code[pc].name == OpName::Builtin(Builtin::IFZ),
        c[idx].code[pc].args == seq![Arg::Var(i)],
        c[idx].code[pc].targets.len() == 2,
        i < vars.len(),
        vars[i as int] < store.len(),
    ensures
        ({
            let v = store[vars[i as int] as int].data;
            let t = c[idx].code[pc].targets;
            run_from(c, idx, vars, pc, store, fuel) == run_from(
                c,
                idx,
                vars,
                if forall|b: int| 0 <= b < v.len() ==> #[trigger] v[b] == 0 {
                    t[0].target
                } else {
                    t[1].target
                },
                store,
                (fuel - 1) as nat,
            )
        }),
{
    let op = c[idx].code[pc];
    assert(args_below(op.args, vars.len() as int));
    let r = arg_slots_from(op.args, 1, vars, seq![vars[i as int]], store);
    assert(arg_slots_from(op.args, 0, vars, Seq::empty(), store) == r);
    assert(Seq::<usize>::empty().push(vars[i as int]) == seq![vars[i as int]]);
}

/// An `ifz` on an integer goes on at the first target exactly when the
/// integer is zero; the integer gets a fresh slot holding its value.
pub proof fn lemma_ifz_int_step(
    c: Seq<SpecProcCode>,
    idx: int,
    vars: Seq<usize>,
    pc: int,
    store: Seq<SpecVal>,
    fuel: nat,
    n: i32,
)
    requires
        fuel > 0,
        0 <= idx < c.len(),
        0 <= pc < c[idx].code.len(),
        c[idx].code[pc].name == OpName::Builtin(Builtin::IFZ),
        c[idx].code[pc].args == seq![Arg::Int(n)],
        c[idx].code[pc].targets.len() == 2,
        store.len() < usize::MAX,
    ensures
        ({
            let t = c[idx].code[pc].targets;
            run_from(c, idx, vars, pc, store, fuel) == run_from(
                c,
                idx,
                vars,
                if n == 0 {
                    t[0].target
                } else {
                    t[1].target
                },
                store.push(int_value(n)),
                (fuel - 1) as nat,
            )
        }),
{
    let op = c[idx].code[pc];
    assert(args_below(op.args, vars.len() as int));
    let slots = seq![store.len() as usize];
    assert(Seq::<usize>::empty().push(store.len() as usize) == slots);
    lemma_int_value(n);
    let st = store.push(int_value(n));
    assert(arg_slots_from(op.args, 0, vars, Seq::empty(), store) == arg_slots_from(op.args, 1, vars, slots, st));
    assert(arg_slots_from(op.args, 1, vars, slots, st) == (slots, st));
    assert(st[slots[0] as int] == int_value(n));
    let d = int_value(n).data;
    if is_zero(d) {
        assert forall|b: int| 0 <= b < 4 implies #[trigger] d[b] == 0 by {}
        assert(n == 0);
    } else {
        let b = choose|b: int| 0 <= b < d.len() && d[b] != 0;
        assert(d[b] != 0);
        assert(n != 0);
    }
}

/// `set` with an integer: `op set a n` on a 4-byte variable `a` leaves `a`
/// holding four bytes that spell `n`, its type unchanged, and every other
/// slot as it was; the integer itself got one fresh slot at the end.
pub proof fn lemma_set_int_step(
    c: Seq<SpecProcCode>,
    idx: int,
    vars: Seq<usize>,
    pc: int,
    store: Seq<SpecVal>,
    fuel: nat,
    i: usize,
    n: i32,
)
    requires
        fuel > 0,
        0 <= idx < c.len(),
        0 <= pc < c[idx].code.len(),
        c[idx].code[pc].name == OpName::Builtin(Builtin::SET),
        c[idx].code[pc].args == seq![Arg::Var(i), Arg::Int(n)],
        c[idx].code[pc].targets.len() == 1,
        c[idx].code[pc].targets[0].vars.len() == 0,
        i < vars.len(),
        vars[i as int] < store.len(),
        store[vars[i as int] as int].size == 4,
        store.len() < usize::MAX,
    ensures
        exists|st2: Seq<SpecVal>|
            {
                let a = vars[i as int] as int;
                &&& run_from(c, idx, vars, pc, store, fuel) == #[trigger] run_from(
                    c,
                    idx,
                    vars,
                    c[idx].code[pc].targets[0].target,
                    st2,
                    (fuel - 1) as nat,
                )
                &&& st2.len() == store.len() + 1
                &&& forall|j: int| 0 <= j < store.len() && j != a ==> #[trigger] st2[j] == store[j]
                &&& st2[a].size == 4
                &&& st2[a].data.len() == 4
                &&& le_u32(st2[a].data) == (if n >= 0 {
                    n as int
                } else {
                    n as int + 0x1_0000_0000
                })
            },
{
    let op = c[idx].code[pc];
    let a = vars[i as int] as int;
    assert(args_below(op.args, vars.len() as int));
    let s1 = seq![vars[i as int]];
    let slots = seq![vars[i as int], store.len() as usize];
    assert(Seq::<usize>::empty().push(vars[i as int]) == s1);
    assert(s1.push(store.len() as usize) == slots);
    lemma_int_value(n);
    let st = store.push(int_value(n));
    assert(arg_slots_from(op.args, 0, vars, Seq::empty(), store) == arg_slots_from(op.args, 1, vars, s1, store));
    assert(arg_slots_from(op.args, 1, vars, s1, store) == arg_slots_from(op.args, 2, vars, slots, st));
    assert(arg_slots_from(op.args, 2, vars, slots, st) == (slots, st));
    let b = store.len() as int;
    assert(slots[0] != slots[1] && slots[0] < st.len() && slots[1] < st.len());
    assert(st[slots[0] as int].size == st[slots[1] as int].size);
    let st2 = st.update(a, SpecVal { data: st[b].data, size: st[a].size });
    assert(run_from(c, idx, vars, pc, store, fuel) == run_from(c, idx, vars, op.targets[0].target, st2, (fuel - 1) as nat));
    assert forall|j: int| 0 <= j < store.len() && j != a implies #[trigger] st2[j] == store[j] by {}
}

/// `set` between two variables: `op set a b`, with `a` and `b` distinct
/// slots of one type, copies the bytes of `b` into `a`, keeps the type of
/// `a`, and leaves every other slot, and the number of slots, as it was.
pub proof fn lemma_set_var_step(
    c: Seq<SpecProcCode>,
    idx: int,
    vars: Seq<usize>,
    pc: int,
    store: Seq<SpecVal>,
    fuel: nat,
    i: usize,
    j: usize,
)
    requires
        fuel > 0,
        0 <= idx < c.len(),
        0 <= pc < c[idx].code.len(),
        c[idx].code[pc].name == OpName::Builtin(Builtin::SET),
        c[idx].code[pc].args == seq![Arg::Var(i), Arg::Var(j)],
        c[idx].code[pc].targets.len() == 1,
        c[idx].code[pc].targets[0].vars.len() == 0,
        i < vars.len(),
        j < vars.len(),
        vars[i as int] < store.len(),
        vars[j as int] < store.len(),
        vars[i as int] != vars[j as int],
        store[vars[i as int] as int].size == store[vars[j as int] as int].size,
    ensures
        exists|st2: Seq<SpecVal>|
            {
                let a = vars[i as int] as int;
                let b = vars[j as int] as int;
                &&& run_from(c, idx, vars, pc, store, fuel) == #[trigger] run_from(
                    c,
                    idx,
                    vars,
                    c[idx].code[pc].targets[0].target,
                    st2,
                    (fuel - 1) as nat,
                )
                &&& st2.len() == store.len()
                &&& forall|k: int| 0 <= k < store.len() && k != a ==> #[trigger] st2[k] == store[k]
                &&& st2[a].size == store[a].size
                &&& st2[a].data == store[b].data
            },
{
    let op = c[idx].code[pc];
    let a = vars[i as int] as int;
    let b = vars[j as int] as int;
    assert(args_below(op.args, vars.len() as int));
    let s1 = seq![vars[i as int]];
    let slots = seq![vars[i as int], vars[j as int]];
    assert(Seq::<usize>::empty().push(vars[i as int]) == s1);
    assert(s1.push(vars[j as int]) == slots);
    assert(arg_slots_from(op.args, 0, vars, Seq::empty(), store) == arg_slots_from(op.args, 1, vars, s1, store));
    assert(arg_slots_from(op.args, 1, vars, s1, store) == arg_slots_from(op.args, 2, vars, slots, store));
    assert(arg_slots_from(op.args, 2, vars, slots, store) == (slots, store));
    let st2 = store.update(a, SpecVal { data: store[b].data, size: store[a].size });
    assert(run_from(c, idx, vars, pc, store, fuel) == run_from(c, idx, vars, op.targets[0].target, st2, (fuel - 1) as nat));
    assert forall|k: int| 0 <= k < store.len() && k != a implies #[trigger] st2[k] == store[k] by {}
}

// ---------------------------------------------------------------------------
// The interpreter
/// Whether all bytes are zero.
fn all_zero(d: &[u8]) -> (r: bool)
    ensures
        r == is_zero(d@),
{
    let mut i: usize = 0;
    while i < d.len()
        invariant
            i <= d@.len(),
            forall|k: int| 0 <= k < i ==> d@[k] == 0,
        decreases d@.len() - i,
    {
        if d[i] != 0 {
            return false;
        }
        i = i + 1;
    }
    true
}

/// Whether every variable argument indexes one of `n` variables.
fn args_in_range(args: &Vec<Arg>, n: usize) -> (r: bool)
    ensures
        r == args_below(args@, n as int),
{
    let mut i: usize = 0;
    while i < args.len()
        invariant
            i <= args@.len(),
            forall|j: int| 0 <= j < i ==> (#[trigger] args@[j] matches Arg::Var(v) ==> v < n),
        decreases args@.len() - i,
    {
        match args[i] {
            Arg::Var(v) => {
                if v >= n {
                    return false;
                }
            },
            Arg::Int(_) => {},
        }
        i = i + 1;
    }
    true
}

/// Runs procedure `idx` with its arguments in the slots `frame`; returns how
/// it ended and the fuel left.
fn exec_proc(code: &Compiled, idx: usize, frame: Vec<usize>, store: &mut Vec<Value>, fuel: u64) -> (r: (
    Result<(), RunError>,
    u64,
))
    requires
        forall|i: int| 0 <= i < frame@.len() ==> frame@[i] < old(store)@.len(),
    ensures
        r.1 <= fuel,
        old(store)@.len() <= final(store)@.len(),
        match run_proc(code@, idx as int, frame@, seq_view(old(store)@), fuel as nat) {
            RunOutcome::Done(s, f) => r.0 is Ok && seq_view(final(store)@) == s && r.1 == f,
            RunOutcome::Trap(s) => r.0 == Err::<(), RunError>(RunError::Trap) && seq_view(final(store)@) == s,
            RunOutcome::OutOfFuel(s) => r.0 == Err::<(), RunError>(RunError::OutOfFuel) && seq_view(
                final(store)@,
            ) == s,
        },
    decreases fuel,
{
    let ghost c = code@;
    let ghost store0 = seq_view(store@);
    if idx >= code.callables.len() {
        return (Err(RunError::Trap), fuel);
    }
    let p = match &code.callables[idx] {
        Callable::Proc(p) => p,
    };
    assert(p@ == c[idx as int]);
    if frame.len() != p.argcount {
        return (Err(RunError::Trap), fuel);
    }
    // the arguments' slots, then fresh slots for the other variables
    let mut vars = frame;
    let mut k: usize = p.argcount;
    while k < p.vars.len()
        invariant
            c == code@,
            idx < c.len(),
            store0 == seq_view(old(store)@),
            p@ == c[idx as int],
            p.argcount <= k,
            forall|i: int| 0 <= i < vars@.len() ==> vars@[i] < store@.len(),
            old(store)@.len() <= store@.len(),
            alloc_locals_from(p.vars@, p.argcount as int, frame@, store0) == alloc_locals_from(
                p.vars@,
                k as int,
                vars@,
                seq_view(store@),
            ),
        decreases p.vars@.len() - k,
    {
        let ghost before = seq_view(store@);
        vars.push(store.len());
        store.push(Value::new(VType::from(&p.vars[k].vartype)));
        assert(seq_view(store@) =~= before.push(fresh_value(p.vars@[k as int].vartype.size as int)));
        k = k + 1;
    }
    let mut left = fuel;
    let mut pc: usize = 0;
    loop
        invariant
            c == code@,
            store0 == seq_view(old(store)@),
            idx < c.len(),
            p@ == c[idx as int],
            forall|i: int| 0 <= i < vars@.len() ==> vars@[i] < store@.len(),
            old(store)@.len() <= store@.len(),
            left <= fuel,
            run_proc(c, idx as int, frame@, store0, fuel as nat) == run_from(
                c,
                idx as int,
                vars@,
                pc as int,
                seq_view(store@),
                left as nat,
            ),
        decreases left,
    {
        if left == 0 {
            return (Err(RunError::OutOfFuel), 0);
        }
        if pc >= p.code.len() {
            return (Err(RunError::Trap), left);
        }
        let op = &p.code[pc];
        assert(op@ == c[idx as int].code[pc as int]);
        if !args_in_range(&op.args, vars.len()) {
            return (Err(RunError::Trap), left);
        }
        left = left - 1;
        // collect the arguments' slots
        let ghost store1 = seq_view(store@);
        let mut opargs: Vec<usize> = Vec::new();
        let mut a: usize = 0;
        while a < op.args.len()
            invariant
                a <= op.args@.len(),
                args_below(op.args@, vars@.len() as int),
                forall|i: int| 0 <= i < vars@.len() ==> vars@[i] < store@.len(),
                forall|i: int| 0 <= i < opargs@.len() ==> opargs@[i] < store@.len(),
                old(store)@.len() <= store@.len(),
                arg_slots_from(op.args@, 0, vars@, Seq::empty(), store1) == arg_slots_from(
                    op.args@,
                    a as int,
                    vars@,
                    opargs@,
                    seq_view(store@),
                ),
            decreases op.args@.len() - a,
        {
            match op.args[a] {
                Arg::Var(i) => {
                    assert(op.args@[a as int] matches Arg::Var(v) ==> v < vars@.len());
                    opargs.push(vars[i]);
                },
                Arg::Int(n) => {
                    let ghost before = seq_view(store@);
                    opargs.push(store.len());
                    store.push(Value::new_i32(n));
                    assert(seq_view(store@) =~= before.push(int_value(n)));
                },
            }
            a = a + 1;
        }
        match op.name {
            OpName::Builtin(Builtin::RET) => {
                if op.args.len() == 0 && op.targets.len() == 0 {
                    return (Ok(()), left);
                } else {
                    return (Err(RunError::Trap), left);
                }
            },
            OpName::Builtin(Builtin::SET) => {
                if opargs.len() != 2 || op.targets.len() != 1 || op.targets[0].vars.len() != 0 {
                    return (Err(RunError::Trap), left);
                }
                let x = opargs[0];
                let y = opargs[1];
                if x == y || store[x].size() != store[y].size() {
                    return (Err(RunError::Trap), left);
                }
                let src = store[y].copy_data();
                let ghost before = seq_view(store@);
                store[x].set(src.as_slice());
                assert(seq_view(store@) =~= before.update(
                    x as int,
                    SpecVal { data: before[y as int].data, size: before[x as int].size },
                ));
                pc = op.targets[0].target;
            },
            OpName::Builtin(Builtin::IFZ) => {
                if opargs.len() != 1 || op.targets.len() != 2 {
                    return (Err(RunError::Trap), left);
                }
                if all_zero(store[opargs[0]].get()) {
                    pc = op.targets[0].target;
                } else {
                    pc = op.targets[1].target;
                }
            },
            OpName::UserDef(j) => {
                let (r, rest) = exec_proc(code, j, opargs, store, left);
                match r {
                    Ok(()) => {
                        left = rest;
                        pc = if op.targets.len() >= 1 {
                            op.targets[0].target
                        } else {
                            pc + 1
                        };
                    },
                    Err(e) => {
                        return (Err(e), rest);
                    },
                }
            },
        }
    }
}

/// Runs procedure `index` of a compiled program on `args` as `execute` does,
/// and returns `Err(RunError::Trap)` where `execute` may not be called: at an
/// operation the program cannot execute.
pub fn try_execute(code: &Compiled, index: usize, args: &mut Vec<Value>, fuel: u64) -> (r: Result<
    ExecResult,
    RunError,
>)
    ensures
        final(args)@.len() == old(args)@.len(),
        match run_proc(
            code@,
            index as int,
            first_slots(old(args)@.len()),
            seq_view(old(args)@),
            fuel as nat,
        ) {
            RunOutcome::Done(s, _) => r is Ok && seq_view(final(args)@) == s.take(old(args)@.len() as int),
            RunOutcome::Trap(s) => r matches Err(RunError::Trap) && seq_view(final(args)@) == s.take(
                old(args)@.len() as int,
            ),
            RunOutcome::OutOfFuel(s) => r matches Err(RunError::OutOfFuel) && seq_view(final(args)@)
                == s.take(old(args)@.len() as int),
        },
{
    let n = args.len();
    let mut store: Vec<Value> = Vec::new();
    std::mem::swap(&mut store, args);
    let mut frame: Vec<usize> = Vec::new();
    let mut i: usize = 0;
    while i < n
        invariant
            i <= n,
            n == store@.len(),
            frame@ == first_slots(i as nat),
        decreases n - i,
    {
        frame.push(i);
        i = i + 1;
        assert(frame@ =~= first_slots(i as nat));
    }
    let (r, _) = exec_proc(code, index, frame, &mut store, fuel);
    let ghost after = seq_view(store@);
    store.truncate(n);
    assert(seq_view(store@) =~= after.take(n as int));
    std::mem::swap(&mut store, args);
    match r {
        Ok(()) => Ok(ExecResult),
        Err(e) => Err(e),
    }
}

/// Runs procedure `index` of a compiled program on `args`, with at most
/// `fuel` operations; what the procedure writes to its arguments is left in
/// `args`. The run must reach no operation that the program cannot execute
/// (a missing procedure or operation, a wrong number of arguments or
/// targets, a `set` between values of different types or of a variable to
/// itself): execution aborts there. `try_execute` reports such an operation
/// instead.
pub fn execute(code: &Compiled, index: usize, args: &mut Vec<Value>, fuel: u64) -> (r: Result<
    ExecResult,
    RunError,
>)
    requires
        !(run_proc(
            code@,
            index as int,
            first_slots(old(args)@.len()),
            seq_view(old(args)@),
            fuel as nat,
        ) is Trap),
    ensures
        final(args)@.len() == old(args)@.len(),
        match run_proc(
            code@,
            index as int,
            first_slots(old(args)@.len()),
            seq_view(old(args)@),
            fuel as nat,
        ) {
            RunOutcome::Done(s, _) => r is Ok && seq_view(final(args)@) == s.take(old(args)@.len() as int),
            RunOutcome::Trap(_) => false,
            RunOutcome::OutOfFuel(s) => r matches Err(RunError::OutOfFuel) && seq_view(final(args)@)
                == s.take(old(args)@.len() as int),
        },
{
    try_execute(code, index, args, fuel)
}

} // verus!
