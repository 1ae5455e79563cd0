//! The compiler: turns a syntax tree into code that `run` executes.
//!
//! Each procedure becomes a list of operations. Variables (arguments first,
//! then `var` declarations) are numbered in order; a name refers to its latest
//! declaration before the operation that uses it. Labels are numbered by the
//! operation that follows them. An operation without `->` continues at the
//! next operation; every procedure ends with a `RET`.
use vstd::prelude::*;
use crate::parser::{
    seq_view,
    ArgTypeNode,
    CodeNode,
    ItemNode,
    SpecProc,
    SpecProcArg,
    SpecStmt,
    SpecValue,
    StmtNode,
    ValueNode,
    VarTypeNode,
};
use crate::symbols::{str_eq, SymbolMap};

verus! {

pub const DUPLICATE_PROC: &'static str = "duplicate proc name :(((";

pub const DUPLICATE_LABEL: &'static str = "duplicate label name :(((";

pub const NONEXISTENT_VARIABLE: &'static str = "reference to nonexistent variable";

pub const NONEXISTENT_LABEL: &'static str = "reference to nonexistent label";

pub const SET_NAME: &'static str = "set";

pub const IFZ_NAME: &'static str = "ifz";

/// A compiled program.
#[derive(Debug)]
pub struct Compiled {
    pub callables: Vec<Callable>,
}

#[derive(Debug)]
pub enum Callable {
    Proc(Proc),
}

/// A compiled procedure: the number of arguments, all its variables
/// (arguments first) and its operations.
#[derive(Debug)]
pub struct Proc {
    pub argcount: usize,
    pub vars: Vec<Var>,
    pub code: Vec<Op>,
}

/// An operation: what it calls, its arguments, and where it may continue.
#[derive(Debug)]
pub struct Op {
    pub name: OpName,
    pub args: Vec<Arg>,
    pub targets: Vec<Target>,
}

/// A place to continue at: an index into the procedure's operations.
#[derive(Debug)]
pub struct Target {
    pub target: usize,
    pub vars: Vec<usize>,
}

#[derive(Debug, Clone, Copy)]
pub enum OpName {
    /// A procedure of the program, by its index.
    UserDef(usize),
    Builtin(Builtin),
}

#[derive(Debug, Clone, Copy)]
pub enum Builtin {
    RET,
    SET,
    IFZ,
}

#[derive(Debug, Clone, Copy)]
pub enum Arg {
    /// A variable of the procedure, by its index.
    Var(usize),
    Int(i32),
}

#[derive(Debug, Clone, Copy)]
pub struct Var {
    pub vartype: Type,
}

/// A type: a size in bytes.
#[derive(Debug, Clone, Copy)]
pub struct Type {
    pub size: i32,
}

/// Why a program does not compile.
#[derive(Debug)]
pub struct CompileError {
    pub text: &'static str,
}

impl From<&ArgTypeNode> for Type {
    fn from(t: &ArgTypeNode) -> (r: Type) {
        Type { size: t.size }
    }
}

impl vstd::std_specs::convert::FromSpecImpl<&ArgTypeNode> for Type {
    open spec fn obeys_from_spec() -> bool {
        true
    }

    open spec fn from_spec(t: &ArgTypeNode) -> Type {
        Type { size: t.size }
    }
}

impl From<&VarTypeNode> for Type {
    fn from(t: &VarTypeNode) -> (r: Type) {
        Type { size: t.size }
    }
}

impl vstd::std_specs::convert::FromSpecImpl<&VarTypeNode> for Type {
    open spec fn obeys_from_spec() -> bool {
        true
    }

    open spec fn from_spec(t: &VarTypeNode) -> Type {
        Type { size: t.size }
    }
}

// ---------------------------------------------------------------------------
// Compiled code as mathematical values
pub struct SpecTarget {
    pub target: int,
    pub vars: Seq<usize>,
}

pub struct SpecOp {
    pub name: OpName,
    pub args: Seq<Arg>,
    pub targets: Seq<SpecTarget>,
}

pub struct SpecProcCode {
    pub argcount: int,
    pub vars: Seq<Var>,
    pub code: Seq<SpecOp>,
}

impl View for Target {
    type V = SpecTarget;

    open spec fn view(&self) -> SpecTarget {
        SpecTarget { target: self.target as int, vars: self.vars@ }
    }
}

impl View for Op {
    type V = SpecOp;

    open spec fn view(&self) -> SpecOp {
        SpecOp { name: self.name, args: self.args@, targets: seq_view(self.targets@) }
    }
}

impl View for Proc {
    type V = SpecProcCode;

    open spec fn view(&self) -> SpecProcCode {
        SpecProcCode { argcount: self.argcount as int, vars: self.vars@, code: seq_view(self.code@) }
    }
}

impl View for Callable {
    type V = SpecProcCode;

    open spec fn view(&self) -> SpecProcCode {
        match self {
            Callable::Proc(p) => p@,
        }
    }
}

impl View for Compiled {
    type V = Seq<SpecProcCode>;

    open spec fn view(&self) -> Seq<SpecProcCode> {
        seq_view(self.callables@)
    }
}

// ---------------------------------------------------------------------------
// Compilation as functions on the tree
/// The result of compiling: done, an error, or a program on which compiling
/// stops with a panic (an operation that names nothing known).
pub enum Compiles<T> {
    Done(T),
    Error(Seq<char>),
    Panics,
}

/// The names of the procedures `items[i..]` added to `m`, each bound to its
/// index; an error at the first name bound twice.
pub open spec fn callable_names_from(items: Seq<SpecProc>, i: int, m: Map<Seq<char>, usize>) -> Result<
    Map<Seq<char>, usize>,
    Seq<char>,
>
    decreases items.len() - i,
{
    if i < 0 || i >= items.len() {
        Ok(m)
    } else if m.contains_key(items[i].name) {
        Err(DUPLICATE_PROC@)
    } else {
        callable_names_from(items, i + 1, m.insert(items[i].name, i as usize))
    }
}

pub open spec fn callable_names(items: Seq<SpecProc>) -> Result<Map<Seq<char>, usize>, Seq<char>> {
    callable_names_from(items, 0, Map::empty())
}

/// The arguments `args[i..]` bound in `m` to their indices; a later argument
/// of the same name replaces an earlier one.
pub open spec fn arg_bindings_from(args: Seq<SpecProcArg>, i: int, m: Map<Seq<char>, usize>) -> Map<
    Seq<char>,
    usize,
>
    decreases args.len() - i,
{
    if i < 0 || i >= args.len() {
        m
    } else {
        arg_bindings_from(args, i + 1, m.insert(args[i].name, i as usize))
    }
}

pub open spec fn arg_vars(args: Seq<SpecProcArg>) -> Seq<Var> {
    args.map_values(|a: SpecProcArg| Var { vartype: Type { size: a.size as i32 } })
}

/// The labels of `code[i..]` added to `m`, each bound to the number of
/// operations before it (`n` counts those before `code[i]`); an error at the
/// first label defined twice.
pub open spec fn label_pass_from(
    code: Seq<SpecStmt>,
    i: int,
    m: Map<Seq<char>, usize>,
    n: int,
) -> Result<Map<Seq<char>, usize>, Seq<char>>
    decreases code.len() - i,
{
    if i < 0 || i >= code.len() {
        Ok(m)
    } else {
        match code[i] {
            SpecStmt::Label(l) => {
                if m.contains_key(l) {
                    Err(DUPLICATE_LABEL@)
                } else {
                    label_pass_from(code, i + 1, m.insert(l, n as usize), n)
                }
            },
            SpecStmt::Op { .. } => label_pass_from(code, i + 1, m, n + 1),
            SpecStmt::Var { .. } => label_pass_from(code, i + 1, m, n),
        }
    }
}

/// What an operation's name calls: a procedure of the program, `set`, `ifz`,
/// or nothing known.
pub open spec fn op_name(name: Seq<char>, callables: Map<Seq<char>, usize>) -> Option<OpName> {
    if callables.contains_key(name) {
        Some(OpName::UserDef(callables[name]))
    } else if name == SET_NAME@ {
        Some(OpName::Builtin(Builtin::SET))
    } else if name == IFZ_NAME@ {
        Some(OpName::Builtin(Builtin::IFZ))
    } else {
        None
    }
}

/// The arguments `args[i..]` resolved against the variables, after `acc`.
pub open spec fn resolve_args_from(
    args: Seq<SpecValue>,
    i: int,
    acc: Seq<Arg>,
    varmap: Map<Seq<char>, usize>,
) -> Result<Seq<Arg>, Seq<char>>
    decreases args.len() - i,
{
    if i < 0 || i >= args.len() {
        Ok(acc)
    } else {
        match args[i] {
            SpecValue::Name(n) => {
                if varmap.contains_key(n) {
                    resolve_args_from(args, i + 1, acc.push(Arg::Var(varmap[n])), varmap)
                } else {
                    Err(NONEXISTENT_VARIABLE@)
                }
            },
            SpecValue::Int(v) => resolve_args_from(args, i + 1, acc.push(Arg::Int(v as i32)), varmap),
        }
    }
}

/// The labels `targets[i..]` resolved to operation indices, after `acc`.
pub open spec fn resolve_labels_from(
    targets: Seq<Seq<char>>,
    i: int,
    acc: Seq<SpecTarget>,
    labels: Map<Seq<char>, usize>,
) -> Result<Seq<SpecTarget>, Seq<char>>
    decreases targets.len() - i,
{
    if i < 0 || i >= targets.len() {
        Ok(acc)
    } else if labels.contains_key(targets[i]) {
        resolve_labels_from(
            targets,
            i + 1,
            acc.push(SpecTarget { target: labels[targets[i]] as int, vars: Seq::empty() }),
            labels,
        )
    } else {
        Err(NONEXISTENT_LABEL@)
    }
}

/// Where the operation with index `index` continues: at the next operation,
/// or at the labels it names.
pub open spec fn op_targets(targets: Seq<Seq<char>>, labels: Map<Seq<char>, usize>, index: int) -> Result<
    Seq<SpecTarget>,
    Seq<char>,
> {
    if targets.len() == 0 {
        Ok(seq![SpecTarget { target: index + 1, vars: Seq::empty() }])
    } else {
        resolve_labels_from(targets, 0, Seq::empty(), labels)
    }
}

/// What the compiler has built of a procedure so far.
pub struct CompileState {
    pub varmap: Map<Seq<char>, usize>,
    pub vars: Seq<Var>,
    pub ops: Seq<SpecOp>,
}

/// One statement compiled on top of `st`.
pub open spec fn compile_stmt(
    st: CompileState,
    s: SpecStmt,
    labels: Map<Seq<char>, usize>,
    callables: Map<Seq<char>, usize>,
) -> Compiles<CompileState> {
    match s {
        SpecStmt::Label(_) => Compiles::Done(st),
        SpecStmt::Var { name, size } => Compiles::Done(
            CompileState {
                varmap: st.varmap.insert(name, st.vars.len() as usize),
                vars: st.vars.push(Var { vartype: Type { size: size as i32 } }),
                ops: st.ops,
            },
        ),
        SpecStmt::Op { name, args, targets } => match op_name(name, callables) {
            None => Compiles::Panics,
            Some(opname) => match resolve_args_from(args, 0, Seq::empty(), st.varmap) {
                Err(e) => Compiles::Error(e),
                Ok(a) => match op_targets(targets, labels, st.ops.len() as int) {
                    Err(e) => Compiles::Error(e),
                    Ok(t) => Compiles::Done(
                        CompileState {
                            varmap: st.varmap,
                            vars: st.vars,
                            ops: st.ops.push(SpecOp { name: opname, args: a, targets: t }),
                        },
                    ),
                },
            },
        },
    }
}

/// The statements `code[i..]` compiled on top of `st`.
pub open spec fn compile_stmts_from(
    code: Seq<SpecStmt>,
    i: int,
    st: CompileState,
    labels: Map<Seq<char>, usize>,
    callables: Map<Seq<char>, usize>,
) -> Compiles<CompileState>
    decreases code.len() - i,
{
    if i < 0 || i >= code.len() {
        Compiles::Done(st)
    } else {
        match compile_stmt(st, code[i], labels, callables) {
            Compiles::Done(st2) => compile_stmts_from(code, i + 1, st2, labels, callables),
            Compiles::Error(e) => Compiles::Error(e),
            Compiles::Panics => Compiles::Panics,
        }
    }
}

/// The operation that ends every procedure.
pub open spec fn ret_op() -> SpecOp {
    SpecOp { name: OpName::Builtin(Builtin::RET), args: Seq::empty(), targets: Seq::empty() }
}

/// A procedure compiled, with the procedures of the program bound by name in
/// `callables`.
pub open spec fn spec_compile_callable(p: SpecProc, callables: Map<Seq<char>, usize>) -> Compiles<
    SpecProcCode,
> {
    match label_pass_from(p.code, 0, Map::empty(), 0) {
        Err(e) => Compiles::Error(e),
        Ok(labels) => {
            let init = CompileState {
                varmap: arg_bindings_from(p.args, 0, Map::empty()),
                vars: arg_vars(p.args),
                ops: Seq::empty(),
            };
            match compile_stmts_from(p.code, 0, init, labels, callables) {
                Compiles::Done(st) => Compiles::Done(
                    SpecProcCode {
                        argcount: p.args.len() as int,
                        vars: st.vars,
                        code: st.ops.push(ret_op()),
                    },
                ),
                Compiles::Error(e) => Compiles::Error(e),
                Compiles::Panics => Compiles::Panics,
            }
        },
    }
}

/// The procedures `items[i..]` compiled, after `acc`.
pub open spec fn compile_items_from(
    items: Seq<SpecProc>,
    i: int,
    acc: Seq<SpecProcCode>,
    callables: Map<Seq<char>, usize>,
) -> Compiles<Seq<SpecProcCode>>
    decreases items.len() - i,
{
    if i < 0 || i >= items.len() {
        Compiles::Done(acc)
    } else {
        match spec_compile_callable(items[i], callables) {
            Compiles::Done(p) => compile_items_from(items, i + 1, acc.push(p), callables),
            Compiles::Error(e) => Compiles::Error(e),
            Compiles::Panics => Compiles::Panics,
        }
    }
}

/// A program compiled, with the map from procedure names to their indices.
pub open spec fn spec_compile(items: Seq<SpecProc>) -> Compiles<
    (Seq<SpecProcCode>, Map<Seq<char>, usize>),
> {
    match callable_names(items) {
        Err(e) => Compiles::Error(e),
        Ok(names) => match compile_items_from(items, 0, Seq::empty(), names) {
            Compiles::Done(ps) => Compiles::Done((ps, names)),
            Compiles::Error(e) => Compiles::Error(e),
            Compiles::Panics => Compiles::Panics,
        },
    }
}

// ---------------------------------------------------------------------------
// Well-formed code
/// The indices in an operation are in range: its variables among `nvars`,
/// its targets among `ncode` operations, and the procedure it calls among
/// `ncallables`.
pub open spec fn op_wf(op: SpecOp, nvars: int, ncode: int, ncallables: int) -> bool {
    &&& forall|j: int| 0 <= j < op.args.len() ==> (#[trigger] op.args[j] matches Arg::Var(v) ==> v < nvars)
    &&& forall|j: int| 0 <= j < op.targets.len() ==> 0 <= #[trigger] op.targets[j].target < ncode
    &&& (op.name matches OpName::UserDef(c) ==> c < ncallables)
}

/// A procedure whose code is not empty and whose operations are well formed.
pub open spec fn proc_wf(p: SpecProcCode, ncallables: int) -> bool {
    &&& 0 <= p.argcount <= p.vars.len()
    &&& p.code.len() > 0
    &&& forall|i: int| 0 <= i < p.code.len() ==> op_wf(#[trigger] p.code[i], p.vars.len() as int, p.code.len() as int, ncallables)
}

/// Every procedure of the program is well formed.
pub open spec fn compiled_wf(c: Seq<SpecProcCode>) -> bool {
    forall|i: int| 0 <= i < c.len() ==> proc_wf(#[trigger] c[i], c.len() as int)
}

/// The number of operations among `code[i..]`.
pub open spec fn count_ops(code: Seq<SpecStmt>, i: int) -> int
    decreases code.len() - i,
{
    if i < 0 || i >= code.len() {
        0
    } else {
        (if code[i] is Op {
            1int
        } else {
            0int
        }) + count_ops(code, i + 1)
    }
}

pub open spec fn values_below(m: Map<Seq<char>, usize>, bound: int) -> bool {
    forall|k: Seq<char>| m.contains_key(k) ==> #[trigger] m[k] < bound
}

pub open spec fn args_below(a: Seq<Arg>, nvars: int) -> bool {
    forall|j: int| 0 <= j < a.len() ==> (#[trigger] a[j] matches Arg::Var(v) ==> v < nvars)
}

pub open spec fn targets_upto(t: Seq<SpecTarget>, bound: int) -> bool {
    forall|j: int| 0 <= j < t.len() ==> 0 <= #[trigger] t[j].target <= bound
}

proof fn lemma_count_ops_nonneg(code: Seq<SpecStmt>, i: int)
    ensures
        count_ops(code, i) >= 0,
    decreases code.len() - i,
{
    if 0 <= i < code.len() {
        lemma_count_ops_nonneg(code, i + 1);
    }
}

/// `m` binds the names of the first `i` procedures, each to its index, and
/// nothing else.
pub open spec fn names_bound(items: Seq<SpecProc>, i: int, m: Map<Seq<char>, usize>) -> bool {
    &&& forall|k: Seq<char>| #[trigger] m.contains_key(k) ==> m[k] < i && items[m[k] as int].name == k
    &&& forall|k: int| 0 <= k < i ==> #[trigger] m.contains_key(items[k].name) && m[items[k].name] == k
}

proof fn lemma_callable_names_from(items: Seq<SpecProc>, i: int, m: Map<Seq<char>, usize>)
    requires
        0 <= i <= items.len() <= usize::MAX,
        callable_names_from(items, i, m) is Ok,
        names_bound(items, i, m),
    ensures
        names_bound(items, items.len() as int, callable_names_from(items, i, m)->Ok_0),
    decreases items.len() - i,
{
    if i < items.len() {
        let m2 = m.insert(items[i].name, i as usize);
        assert(!m.contains_key(items[i].name));
        assert forall|k: int| 0 <= k < i + 1 implies #[trigger] m2.contains_key(items[k].name) && m2[items[k].name] == k by {
            if k < i {
                assert(m.contains_key(items[k].name));
                assert(items[k].name != items[i].name);
            }
        }
        lemma_callable_names_from(items, i + 1, m2);
    }
}

proof fn lemma_arg_bindings_from(args: Seq<SpecProcArg>, i: int, m: Map<Seq<char>, usize>)
    requires
        0 <= i <= args.len(),
        values_below(m, i),
    ensures
        values_below(arg_bindings_from(args, i, m), args.len() as int),
    decreases args.len() - i,
{
    if i < args.len() {
        assert((i as usize) <= i) by {
            if i > usize::MAX {
            }
        }
        lemma_arg_bindings_from(args, i + 1, m.insert(args[i].name, i as usize));
    }
}

proof fn lemma_label_pass_from(code: Seq<SpecStmt>, i: int, m: Map<Seq<char>, usize>, n: int)
    requires
        0 <= i <= code.len(),
        0 <= n,
        label_pass_from(code, i, m, n) is Ok,
        values_below(m, n + 1),
    ensures
        values_below(label_pass_from(code, i, m, n)->Ok_0, n + count_ops(code, i) + 1),
    decreases code.len() - i,
{
    lemma_count_ops_nonneg(code, i);
    if i < code.len() {
        lemma_count_ops_nonneg(code, i + 1);
        match code[i] {
            SpecStmt::Label(l) => {
                assert((n as usize) <= n) by {
                    if n > usize::MAX {
                    }
                }
                lemma_label_pass_from(code, i + 1, m.insert(l, n as usize), n)
            },
            SpecStmt::Op { .. } => lemma_label_pass_from(code, i + 1, m, n + 1),
            SpecStmt::Var { .. } => lemma_label_pass_from(code, i + 1, m, n),
        }
    }
}

proof fn lemma_resolve_args_from(args: Seq<SpecValue>, i: int, acc: Seq<Arg>, varmap: Map<Seq<char>, usize>, nvars: int)
    requires
        0 <= i <= args.len(),
        values_below(varmap, nvars),
        args_below(acc, nvars),
        resolve_args_from(args, i, acc, varmap) is Ok,
    ensures
        args_below(resolve_args_from(args, i, acc, varmap)->Ok_0, nvars),
    decreases args.len() - i,
{
    if i < args.len() {
        match args[i] {
            SpecValue::Name(n) => {
                let acc2 = acc.push(Arg::Var(varmap[n]));
                assert(args_below(acc2, nvars)) by {
                    assert forall|j: int| 0 <= j < acc2.len() implies (#[trigger] acc2[j] matches Arg::Var(v) ==> v < nvars) by {
                        if j < acc.len() {
                            assert(acc2[j] == acc[j]);
                        }
                    }
                }
                lemma_resolve_args_from(args, i + 1, acc2, varmap, nvars);
            },
            SpecValue::Int(v) => {
                let acc2 = acc.push(Arg::Int(v as i32));
                assert(args_below(acc2, nvars)) by {
                    assert forall|j: int| 0 <= j < acc2.len() implies (#[trigger] acc2[j] matches Arg::Var(v) ==> v < nvars) by {
                        if j < acc.len() {
                            assert(acc2[j] == acc[j]);
                        }
                    }
                }
                lemma_resolve_args_from(args, i + 1, acc2, varmap, nvars);
            },
        }
    }
}

proof fn lemma_resolve_labels_from(targets: Seq<Seq<char>>, i: int, acc: Seq<SpecTarget>, labels: Map<Seq<char>, usize>, bound: int)
    requires
        0 <= i <= targets.len(),
        values_below(labels, bound + 1),
        targets_upto(acc, bound),
        resolve_labels_from(targets, i, acc, labels) is Ok,
    ensures
        targets_upto(resolve_labels_from(targets, i, acc, labels)->Ok_0, bound),
    decreases targets.len() - i,
{
    if i < targets.len() {
        let acc2 = acc.push(SpecTarget { target: labels[targets[i]] as int, vars: Seq::empty() });
        assert(targets_upto(acc2, bound)) by {
            assert forall|j: int| 0 <= j < acc2.len() implies 0 <= #[trigger] acc2[j].target <= bound by {
                if j < acc.len() {
                    assert(acc2[j] == acc[j]);
                }
            }
        }
        lemma_resolve_labels_from(targets, i + 1, acc2, labels, bound);
    }
}

/// What the statement pass keeps: variables resolve inside the variables so
/// far, the operations so far are well formed, and the operations so far and
/// those still to come add up to `total`.
pub open spec fn state_ok(st: CompileState, code: Seq<SpecStmt>, i: int, total: int, ncallables: int) -> bool {
    &&& values_below(st.varmap, st.vars.len() as int)
    &&& forall|j: int| 0 <= j < st.ops.len() ==> op_wf(#[trigger] st.ops[j], st.vars.len() as int, total + 1, ncallables)
    &&& st.ops.len() + count_ops(code, i) == total
}

proof fn lemma_compile_stmts_from(
    code: Seq<SpecStmt>,
    i: int,
    st: CompileState,
    labels: Map<Seq<char>, usize>,
    callables: Map<Seq<char>, usize>,
    total: int,
    ncallables: int,
)
    requires
        0 <= i <= code.len(),
        state_ok(st, code, i, total, ncallables),
        values_below(labels, total + 1),
        values_below(callables, ncallables),
        compile_stmts_from(code, i, st, labels, callables) is Done,
    ensures
        ({
            let r = compile_stmts_from(code, i, st, labels, callables)->Done_0;
            &&& r.ops.len() == total
            &&& r.vars.len() >= st.vars.len()
            &&& forall|j: int| 0 <= j < r.ops.len() ==> op_wf(#[trigger] r.ops[j], r.vars.len() as int, total + 1, ncallables)
        }),
    decreases code.len() - i,
{
    lemma_count_ops_nonneg(code, i);
    if i < code.len() {
        lemma_count_ops_nonneg(code, i + 1);
        let st2 = compile_stmt(st, code[i], labels, callables)->Done_0;
        match code[i] {
            SpecStmt::Label(_) => {},
            SpecStmt::Var { name, size } => {
                assert((st.vars.len() as usize) <= st.vars.len()) by {
                    if st.vars.len() > usize::MAX {
                    }
                }
                assert(values_below(st2.varmap, st2.vars.len() as int));
                assert forall|j: int| 0 <= j < st2.ops.len() implies op_wf(#[trigger] st2.ops[j], st2.vars.len() as int, total + 1, ncallables) by {
                    assert(op_wf(st.ops[j], st.vars.len() as int, total + 1, ncallables));
                }
            },
            SpecStmt::Op { name, args, targets } => {
                let a = resolve_args_from(args, 0, Seq::empty(), st.varmap)->Ok_0;
                lemma_resolve_args_from(args, 0, Seq::empty(), st.varmap, st.vars.len() as int);
                let t = op_targets(targets, labels, st.ops.len() as int)->Ok_0;
                if targets.len() > 0 {
                    lemma_resolve_labels_from(targets, 0, Seq::empty(), labels, total);
                }
                let op = SpecOp { name: op_name(name, callables)->0, args: a, targets: t };
                assert(op_wf(op, st.vars.len() as int, total + 1, ncallables));
                assert forall|j: int| 0 <= j < st2.ops.len() implies op_wf(#[trigger] st2.ops[j], st2.vars.len() as int, total + 1, ncallables) by {
                    if j < st.ops.len() {
                        assert(st2.ops[j] == st.ops[j]);
                    }
                }
            },
        }
        lemma_compile_stmts_from(code, i + 1, st2, labels, callables, total, ncallables);
        let r = compile_stmts_from(code, i, st, labels, callables)->Done_0;
        assert forall|j: int| 0 <= j < r.ops.len() implies op_wf(#[trigger] r.ops[j], r.vars.len() as int, total + 1, ncallables) by {}
    }
}

/// A compiled procedure is well formed, takes as many arguments as it
/// declares, has one operation per `op` statement and one more, a `RET`,
/// at its end.
pub proof fn lemma_compile_callable_wf(p: SpecProc, callables: Map<Seq<char>, usize>, ncallables: int)
    requires
        values_below(callables, ncallables),
        spec_compile_callable(p, callables) is Done,
    ensures
        ({
            let c = spec_compile_callable(p, callables)->Done_0;
            &&& proc_wf(c, ncallables)
            &&& c.argcount == p.args.len()
            &&& c.code.len() == count_ops(p.code, 0) + 1
            &&& c.code.last() == ret_op()
        }),
{
    let total = count_ops(p.code, 0);
    lemma_count_ops_nonneg(p.code, 0);
    let labels = label_pass_from(p.code, 0, Map::empty(), 0)->Ok_0;
    lemma_label_pass_from(p.code, 0, Map::empty(), 0);
    let init = CompileState {
        varmap: arg_bindings_from(p.args, 0, Map::empty()),
        vars: arg_vars(p.args),
        ops: Seq::empty(),
    };
    lemma_arg_bindings_from(p.args, 0, Map::empty());
    lemma_compile_stmts_from(p.code, 0, init, labels, callables, total, ncallables);
    let st = compile_stmts_from(p.code, 0, init, labels, callables)->Done_0;
    let c = spec_compile_callable(p, callables)->Done_0;
    assert forall|i: int| 0 <= i < c.code.len() implies op_wf(#[trigger] c.code[i], c.vars.len() as int, c.code.len() as int, ncallables) by {
        if i < st.ops.len() {
            assert(c.code[i] == st.ops[i]);
        } else {
            assert(c.code[i] == ret_op());
        }
    }
}

proof fn lemma_compile_items_from(items: Seq<SpecProc>, i: int, acc: Seq<SpecProcCode>, callables: Map<Seq<char>, usize>)
    requires
        0 <= i <= items.len(),
        compile_items_from(items, i, acc, callables) is Done,
    ensures
        ({
            let ps = compile_items_from(items, i, acc, callables)->Done_0;
            &&& ps.len() == acc.len() + items.len() - i
            &&& forall|j: int| 0 <= j < acc.len() ==> #[trigger] ps[j] == acc[j]
            &&& forall|j: int| i <= j < items.len() ==> spec_compile_callable(#[trigger] items[j], callables) == Compiles::Done(ps[acc.len() + j - i])
        }),
    decreases items.len() - i,
{
    if i < items.len() {
        let p = spec_compile_callable(items[i], callables)->Done_0;
        lemma_compile_items_from(items, i + 1, acc.push(p), callables);
        let ps = compile_items_from(items, i, acc, callables)->Done_0;
        assert forall|j: int| 0 <= j < acc.len() implies #[trigger] ps[j] == acc[j] by {
            assert(acc.push(p)[j] == acc[j]);
        }
        assert(ps[acc.len() as int] == acc.push(p)[acc.len() as int]);
    }
}

/// What a successful compilation gives: one procedure for each procedure of
/// the program, in order, each compiled from its own item; the name map
/// binds exactly the procedures' names, each to its index; and the code is
/// well formed.
pub proof fn lemma_compile_wf(items: Seq<SpecProc>)
    requires
        items.len() <= usize::MAX,
        spec_compile(items) is Done,
    ensures
        ({
            let (ps, names) = spec_compile(items)->Done_0;
            &&& ps.len() == items.len()
            &&& compiled_wf(ps)
            &&& forall|k: int| 0 <= k < items.len() ==> spec_compile_callable(#[trigger] items[k], names) == Compiles::Done(ps[k])
            &&& forall|k: int| 0 <= k < items.len() ==> #[trigger] names.contains_key(items[k].name) && names[items[k].name] == k
            &&& forall|n: Seq<char>| #[trigger] names.contains_key(n) ==> names[n] < items.len() && items[names[n] as int].name == n
        }),
{
    lemma_callable_names_from(items, 0, Map::empty());
    let names = callable_names(items)->Ok_0;
    assert(names_bound(items, items.len() as int, names));
    lemma_compile_items_from(items, 0, Seq::empty(), names);
    let ps = compile_items_from(items, 0, Seq::empty(), names)->Done_0;
    assert forall|i: int| 0 <= i < ps.len() implies proc_wf(#[trigger] ps[i], ps.len() as int) by {
        assert(spec_compile_callable(items[i], names) == Compiles::Done(ps[i]));
        lemma_compile_callable_wf(items[i], names, ps.len() as int);
    }
}

// ---------------------------------------------------------------------------
// Where operations continue
/// The index that the operation compiled from statement `s` gets: the number
/// of operations before it.
pub open spec fn ops_before(code: Seq<SpecStmt>, s: int) -> int {
    count_ops(code, 0) - count_ops(code, s)
}

proof fn lemma_count_ops_split(code: Seq<SpecStmt>, i: int, s: int)
    requires
        0 <= i <= s <= code.len(),
    ensures
        count_ops(code, i) >= count_ops(code, s),
    decreases s - i,
{
    if i < s {
        lemma_count_ops_split(code, i + 1, s);
    }
}

proof fn lemma_label_positions(code: Seq<SpecStmt>, i: int, m: Map<Seq<char>, usize>, n: int)
    requires
        0 <= i <= code.len(),
        0 <= n,
        n + count_ops(code, i) == count_ops(code, 0),
        count_ops(code, 0) <= usize::MAX,
        label_pass_from(code, i, m, n) is Ok,
    ensures
        forall|s: int|
            i <= s < code.len() && (#[trigger] code[s]) is Label ==> label_pass_from(code, i, m, n)->Ok_0[code[s]->Label_0]
                == ops_before(code, s),
    decreases code.len() - i,
{
    lemma_count_ops_nonneg(code, i);
    if i < code.len() {
        lemma_count_ops_nonneg(code, i + 1);
        let r = label_pass_from(code, i, m, n)->Ok_0;
        match code[i] {
            SpecStmt::Label(l) => {
                let m2 = m.insert(l, n as usize);
                lemma_label_positions(code, i + 1, m2, n);
                lemma_label_kept(code, i + 1, m2, n, l);
            },
            SpecStmt::Op { .. } => lemma_label_positions(code, i + 1, m, n + 1),
            SpecStmt::Var { .. } => lemma_label_positions(code, i + 1, m, n),
        }
    }
}

/// A label bound before position `i` keeps its binding to the end of the pass.
proof fn lemma_label_kept(code: Seq<SpecStmt>, i: int, m: Map<Seq<char>, usize>, n: int, l: Seq<char>)
    requires
        0 <= i <= code.len(),
        m.contains_key(l),
        label_pass_from(code, i, m, n) is Ok,
    ensures
        label_pass_from(code, i, m, n)->Ok_0.contains_key(l),
        label_pass_from(code, i, m, n)->Ok_0[l] == m[l],
    decreases code.len() - i,
{
    if i < code.len() {
        match code[i] {
            SpecStmt::Label(l2) => lemma_label_kept(code, i + 1, m.insert(l2, n as usize), n, l),
            SpecStmt::Op { .. } => lemma_label_kept(code, i + 1, m, n + 1, l),
            SpecStmt::Var { .. } => lemma_label_kept(code, i + 1, m, n, l),
        }
    }
}

/// The targets that operation `s` of `code` gets from the statement pass.
pub open spec fn stmt_targets_ok(code: Seq<SpecStmt>, s: int, labels: Map<Seq<char>, usize>, t: Seq<SpecTarget>) -> bool {
    match code[s] {
        SpecStmt::Op { targets, .. } => {
            if targets.len() == 0 {
                t == seq![SpecTarget { target: ops_before(code, s) + 1, vars: Seq::empty() }]
            } else {
                resolved(targets, targets.len() as int, labels, t)
            }
        },
        _ => true,
    }
}

/// `t` holds, for each of the first `n` label names, the index it is bound to.
pub open spec fn resolved(targets: Seq<Seq<char>>, n: int, labels: Map<Seq<char>, usize>, t: Seq<SpecTarget>) -> bool {
    &&& t.len() == n
    &&& forall|j: int| 0 <= j < n ==> labels.contains_key(#[trigger] targets[j])
    &&& forall|j: int|
        0 <= j < n ==> (#[trigger] t[j]) == (SpecTarget {
            target: labels[targets[j]] as int,
            vars: Seq::empty(),
        })
}

proof fn lemma_resolve_labels_shape(targets: Seq<Seq<char>>, i: int, acc: Seq<SpecTarget>, labels: Map<Seq<char>, usize>)
    requires
        0 <= i <= targets.len(),
        resolved(targets, i, labels, acc),
        resolve_labels_from(targets, i, acc, labels) is Ok,
    ensures
        resolved(targets, targets.len() as int, labels, resolve_labels_from(targets, i, acc, labels)->Ok_0),
    decreases targets.len() - i,
{
    if i < targets.len() {
        assert(labels.contains_key(targets[i]));
        let acc2 = acc.push(SpecTarget { target: labels[targets[i]] as int, vars: Seq::empty() });
        assert forall|j: int| 0 <= j < i + 1 implies (#[trigger] acc2[j]) == (SpecTarget {
            target: labels[targets[j]] as int,
            vars: Seq::empty(),
        }) by {
            if j < i {
                assert(acc2[j] == acc[j]);
            }
        }
        assert forall|j: int| 0 <= j < i + 1 implies labels.contains_key(#[trigger] targets[j]) by {
            if j < i {
                assert(labels.contains_key(targets[j]));
            }
        }
        lemma_resolve_labels_shape(targets, i + 1, acc2, labels);
    }
}

proof fn lemma_stmts_targets(
    code: Seq<SpecStmt>,
    i: int,
    st: CompileState,
    labels: Map<Seq<char>, usize>,
    callables: Map<Seq<char>, usize>,
)
    requires
        0 <= i <= code.len(),
        st.ops.len() == ops_before(code, i),
        compile_stmts_from(code, i, st, labels, callables) is Done,
    ensures
        ({
            let r = compile_stmts_from(code, i, st, labels, callables)->Done_0;
            &&& r.ops.len() >= st.ops.len()
            &&& forall|j: int| 0 <= j < st.ops.len() ==> #[trigger] r.ops[j] == st.ops[j]
            &&& forall|s: int|
                i <= s < code.len() && (#[trigger] code[s]) is Op ==> ops_before(code, s) < r.ops.len()
                    && stmt_targets_ok(code, s, labels, r.ops[ops_before(code, s)].targets)
                    && op_name(code[s]->Op_name, callables) == Some(r.ops[ops_before(code, s)].name)
        }),
    decreases code.len() - i,
{
    lemma_count_ops_nonneg(code, i);
    if i < code.len() {
        lemma_count_ops_nonneg(code, i + 1);
        let st2 = compile_stmt(st, code[i], labels, callables)->Done_0;
        assert(st2.ops.len() == ops_before(code, i + 1));
        lemma_stmts_targets(code, i + 1, st2, labels, callables);
        let r = compile_stmts_from(code, i, st, labels, callables)->Done_0;
        assert forall|j: int| 0 <= j < st.ops.len() implies #[trigger] r.ops[j] == st.ops[j] by {
            assert(r.ops[j] == st2.ops[j]);
        }
        if let SpecStmt::Op { name, args, targets } = code[i] {
            let k = st.ops.len() as int;
            assert(k == ops_before(code, i));
            let t = op_targets(targets, labels, k)->Ok_0;
            assert(st2.ops[k].targets == t);
            assert(r.ops[k] == st2.ops[k]);
            if targets.len() > 0 {
                lemma_resolve_labels_shape(targets, 0, Seq::empty(), labels);
            }
            assert(stmt_targets_ok(code, i, labels, t));
            assert(op_name(name, callables) == Some(r.ops[k].name));
        }
    }
}

/// An operation that names a procedure of the program calls that
/// procedure: in a compiled program, the operation compiled from statement
/// `s` of procedure `i`, when that statement names procedure `k`, is a call
/// of procedure `k`, the procedure's position in the program.
pub proof fn lemma_op_calls(items: Seq<SpecProc>, i: int, s: int, k: int)
    requires
        items.len() <= usize::MAX,
        spec_compile(items) is Done,
        0 <= i < items.len(),
        0 <= s < items[i].code.len(),
        items[i].code[s] is Op,
        0 <= k < items.len(),
        items[i].code[s]->Op_name == items[k].name,
    ensures
        ({
            let ps = spec_compile(items)->Done_0.0;
            let j = ops_before(items[i].code, s);
            &&& 0 <= j < ps[i].code.len()
            &&& ps[i].code[j].name == OpName::UserDef(k as usize)
        }),
{
    lemma_compile_wf(items);
    let (ps, names) = spec_compile(items)->Done_0;
    let p = items[i];
    assert(spec_compile_callable(p, names) == Compiles::Done(ps[i]));
    let code = p.code;
    let labels = label_pass_from(code, 0, Map::empty(), 0)->Ok_0;
    let init = CompileState {
        varmap: arg_bindings_from(p.args, 0, Map::empty()),
        vars: arg_vars(p.args),
        ops: Seq::empty(),
    };
    lemma_count_ops_nonneg(code, 0);
    assert(label_pass_from(code, 0, Map::empty(), 0) is Ok);
    assert(compile_stmts_from(code, 0, init, labels, names) is Done);
    lemma_stmts_targets(code, 0, init, labels, names);
    let r = compile_stmts_from(code, 0, init, labels, names)->Done_0;
    assert(ps[i].code == r.ops.push(ret_op()));
    let j = ops_before(code, s);
    assert(code[s] is Op);
    lemma_count_ops_split(code, 0, s);
    assert(0 <= j < r.ops.len());
    assert(ps[i].code[j] == r.ops[j]);
    assert(names.contains_key(items[k].name) && names[items[k].name] == k);
}

// ---------------------------------------------------------------------------
// What an operation's arguments become
/// The number of `var` statements among `code[i..]`.
pub open spec fn count_vars(code: Seq<SpecStmt>, i: int) -> int
    decreases code.len() - i,
{
    if i < 0 || i >= code.len() {
        0
    } else {
        (if code[i] is Var {
            1int
        } else {
            0int
        }) + count_vars(code, i + 1)
    }
}

/// The number of `var` statements before statement `t`.
pub open spec fn vars_before(code: Seq<SpecStmt>, t: int) -> int {
    count_vars(code, 0) - count_vars(code, t)
}

/// Statement `t` declares a variable named `n`.
pub open spec fn declares(code: Seq<SpecStmt>, t: int, n: Seq<char>) -> bool {
    code[t] matches SpecStmt::Var { name, .. } && name == n
}

proof fn lemma_count_vars_split(code: Seq<SpecStmt>, i: int, s: int)
    requires
        0 <= i <= s <= code.len(),
    ensures
        count_vars(code, i) >= count_vars(code, s),
    decreases s - i,
{
    if i < s {
        lemma_count_vars_split(code, i + 1, s);
    }
}

proof fn lemma_resolve_args_elems(args: Seq<SpecValue>, i: int, acc: Seq<Arg>, varmap: Map<Seq<char>, usize>)
    requires
        0 <= i <= args.len(),
        acc.len() == i,
        resolve_args_from(args, i, acc, varmap) is Ok,
    ensures
        ({
            let r = resolve_args_from(args, i, acc, varmap)->Ok_0;
            &&& r.len() == args.len()
            &&& forall|a: int| 0 <= a < i ==> #[trigger] r[a] == acc[a]
            &&& forall|a: int|
                i <= a < args.len() ==> match #[trigger] args[a] {
                    SpecValue::Name(n) => varmap.contains_key(n) && r[a] == Arg::Var(varmap[n]),
                    SpecValue::Int(v) => r[a] == Arg::Int(v as i32),
                }
        }),
    decreases args.len() - i,
{
    if i < args.len() {
        let acc2 = match args[i] {
            SpecValue::Name(n) => acc.push(Arg::Var(varmap[n])),
            SpecValue::Int(v) => acc.push(Arg::Int(v as i32)),
        };
        lemma_resolve_args_elems(args, i + 1, acc2, varmap);
        let r = resolve_args_from(args, i, acc, varmap)->Ok_0;
        assert(r[i] == acc2[i]);
        assert forall|a: int| 0 <= a < i implies #[trigger] r[a] == acc[a] by {
            assert(r[a] == acc2[a]);
        }
    }
}

/// What the variable map holds after the statements before `i`: a name
/// that no `var` before `i` declares is bound as in `m0`; one that a `var`
/// before `i` declares is bound to the slot of the last such `var`.
pub open spec fn varmap_at(code: Seq<SpecStmt>, i: int, m: Map<Seq<char>, usize>, m0: Map<Seq<char>, usize>, nargs: int) -> bool {
    &&& forall|n: Seq<char>|
        (forall|t: int| 0 <= t < i ==> !declares(code, t, n)) ==> (#[trigger] m.contains_key(n) == m0.contains_key(n)
            && m[n] == m0[n])
    &&& forall|t: int, n: Seq<char>|
        0 <= t < i && #[trigger] declares(code, t, n) && (forall|t2: int| t < t2 < i ==> !declares(code, t2, n))
            ==> m.contains_key(n) && m[n] == nargs + vars_before(code, t)
}

/// No argument among `args[k + 1..i]` has the name of `args[k]`.
spec fn last_of_name(args: Seq<SpecProcArg>, k: int, i: int) -> bool {
    forall|k2: int| k < k2 < i ==> args[k2].name != args[k].name
}

proof fn lemma_arg_bindings_last(args: Seq<SpecProcArg>, i: int, m: Map<Seq<char>, usize>)
    requires
        0 <= i <= args.len(),
        args.len() <= usize::MAX + 1,
        forall|k: int|
            0 <= k < i && #[trigger] last_of_name(args, k, i) ==> m.contains_key(args[k].name) && m[args[k].name]
                == k,
    ensures
        forall|k: int|
            0 <= k < args.len() && #[trigger] last_of_name(args, k, args.len() as int) ==> arg_bindings_from(
                args,
                i,
                m,
            ).contains_key(args[k].name) && arg_bindings_from(args, i, m)[args[k].name] == k,
    decreases args.len() - i,
{
    if i < args.len() {
        let m2 = m.insert(args[i].name, i as usize);
        assert forall|k: int| 0 <= k < i + 1 && #[trigger] last_of_name(args, k, i + 1) implies m2.contains_key(
            args[k].name,
        ) && m2[args[k].name] == k by {
            if k < i {
                assert(args[i].name != args[k].name);
                assert(last_of_name(args, k, i));
            } else {
                assert(i as usize == i);
            }
        }
        lemma_arg_bindings_last(args, i + 1, m2);
        assert(arg_bindings_from(args, i, m) == arg_bindings_from(args, i + 1, m2));
    } else {
        assert(arg_bindings_from(args, i, m) == m);
    }
}

proof fn lemma_stmts_args(
    code: Seq<SpecStmt>,
    i: int,
    st: CompileState,
    labels: Map<Seq<char>, usize>,
    callables: Map<Seq<char>, usize>,
    m0: Map<Seq<char>, usize>,
    nargs: int,
)
    requires
        0 <= i <= code.len(),
        st.ops.len() == ops_before(code, i),
        st.vars.len() == nargs + vars_before(code, i),
        nargs + count_vars(code, 0) <= usize::MAX,
        varmap_at(code, i, st.varmap, m0, nargs),
        compile_stmts_from(code, i, st, labels, callables) is Done,
    ensures
        ({
            let r = compile_stmts_from(code, i, st, labels, callables)->Done_0;
            &&& r.ops.len() >= st.ops.len()
            &&& forall|j: int| 0 <= j < st.ops.len() ==> #[trigger] r.ops[j] == st.ops[j]
            &&& forall|s: int, a: int|
                i <= s < code.len() && (#[trigger] code[s]) is Op && 0 <= a < code[s]->Op_args.len() ==> {
                    let op = r.ops[ops_before(code, s)];
                    &&& ops_before(code, s) < r.ops.len()
                    &&& op.args.len() == code[s]->Op_args.len()
                    &&& match #[trigger] code[s]->Op_args[a] {
                        SpecValue::Int(v) => op.args[a] == Arg::Int(v as i32),
                        SpecValue::Name(n) => {
                            &&& (forall|t: int| 0 <= t < s ==> !declares(code, t, n)) ==> m0.contains_key(n)
                                && op.args[a] == Arg::Var(m0[n])
                            &&& forall|t: int|
                                0 <= t < s && declares(code, t, n) && (forall|t2: int|
                                    t < t2 < s ==> !declares(code, t2, n)) ==> op.args[a] == Arg::Var(
                                    (nargs + vars_before(code, t)) as usize,
                                )
                        },
                    }
                }
        }),
    decreases code.len() - i,
{
    lemma_count_ops_nonneg(code, i);
    lemma_count_vars_split(code, 0, i);
    if i < code.len() {
        lemma_count_ops_nonneg(code, i + 1);
        let st2 = compile_stmt(st, code[i], labels, callables)->Done_0;
        assert(st2.ops.len() == ops_before(code, i + 1));
        assert(st2.vars.len() == nargs + vars_before(code, i + 1));
        assert forall|n: Seq<char>|
            (forall|t: int| 0 <= t < i + 1 ==> !declares(code, t, n)) implies (#[trigger] st2.varmap.contains_key(n)
            == m0.contains_key(n) && st2.varmap[n] == m0[n]) by {
            assert(!declares(code, i, n));
            assert(forall|t: int| 0 <= t < i ==> !declares(code, t, n));
        }
        assert forall|t: int, n: Seq<char>|
            0 <= t < i + 1 && #[trigger] declares(code, t, n) && (forall|t2: int|
                t < t2 < i + 1 ==> !declares(code, t2, n)) implies st2.varmap.contains_key(n) && st2.varmap[n]
            == nargs + vars_before(code, t) by {
            if t < i {
                assert(!declares(code, i, n));
                assert(forall|t2: int| t < t2 < i ==> !declares(code, t2, n));
            } else {
                lemma_count_vars_split(code, i, code.len() as int);
                assert(st.vars.len() as usize == st.vars.len());
            }
        }
        assert(varmap_at(code, i + 1, st2.varmap, m0, nargs));
        lemma_stmts_args(code, i + 1, st2, labels, callables, m0, nargs);
        let r = compile_stmts_from(code, i, st, labels, callables)->Done_0;
        assert forall|j: int| 0 <= j < st.ops.len() implies #[trigger] r.ops[j] == st.ops[j] by {
            assert(r.ops[j] == st2.ops[j]);
        }
        if let SpecStmt::Op { name, args, targets } = code[i] {
            let k = st.ops.len() as int;
            lemma_resolve_args_elems(args, 0, Seq::empty(), st.varmap);
            assert(r.ops[k] == st2.ops[k]);
        }
    }
}

/// What an operation's arguments become. An integer stays that integer. A
/// name refers to the variable that it names at that point of the
/// procedure: the last `var` before the operation that declares it (the
/// variables of `var` statements are numbered after the arguments, in the
/// order of declaration), or, where no `var` before the operation declares
/// it, the last argument of the procedure with that name.
pub proof fn lemma_op_args(p: SpecProc, callables: Map<Seq<char>, usize>, s: int, a: int)
    requires
        spec_compile_callable(p, callables) is Done,
        0 <= s < p.code.len(),
        p.code[s] is Op,
        0 <= a < p.code[s]->Op_args.len(),
        p.args.len() + count_vars(p.code, 0) <= usize::MAX,
    ensures
        ({
            let c = spec_compile_callable(p, callables)->Done_0;
            let j = ops_before(p.code, s);
            let arg = c.code[j].args[a];
            &&& 0 <= j < c.code.len()
            &&& c.code[j].args.len() == p.code[s]->Op_args.len()
            &&& (p.code[s]->Op_args[a] matches SpecValue::Int(v) ==> arg == Arg::Int(v as i32))
            &&& (p.code[s]->Op_args[a] matches SpecValue::Name(n) ==> {
                &&& forall|m: int|
                    0 <= m < p.args.len() && #[trigger] p.args[m].name == n && (forall|m2: int|
                        m < m2 < p.args.len() ==> p.args[m2].name != n) && (forall|t: int|
                        0 <= t < s ==> !declares(p.code, t, n)) ==> arg == Arg::Var(m as usize)
                &&& forall|t: int|
                    0 <= t < s && #[trigger] declares(p.code, t, n) && (forall|t2: int|
                        t < t2 < s ==> !declares(p.code, t2, n)) ==> arg == Arg::Var(
                        (p.args.len() + vars_before(p.code, t)) as usize,
                    )
            })
        }),
{
    let code = p.code;
    let labels = label_pass_from(code, 0, Map::empty(), 0)->Ok_0;
    let m0 = arg_bindings_from(p.args, 0, Map::empty());
    let init = CompileState { varmap: m0, vars: arg_vars(p.args), ops: Seq::empty() };
    let nargs = p.args.len() as int;
    lemma_count_ops_nonneg(code, 0);
    lemma_count_vars_split(code, 0, code.len() as int);
    assert(label_pass_from(code, 0, Map::empty(), 0) is Ok);
    assert(compile_stmts_from(code, 0, init, labels, callables) is Done);
    assert(varmap_at(code, 0, m0, m0, nargs));
    lemma_stmts_args(code, 0, init, labels, callables, m0, nargs);
    lemma_arg_bindings_last(p.args, 0, Map::empty());
    let r = compile_stmts_from(code, 0, init, labels, callables)->Done_0;
    let c = spec_compile_callable(p, callables)->Done_0;
    assert(c.code == r.ops.push(ret_op()));
    let j = ops_before(code, s);
    assert(code[s] is Op);
    lemma_count_ops_split(code, 0, s);
    assert(0 <= j < r.ops.len());
    assert(c.code[j] == r.ops[j]);
    let args = code[s]->Op_args;
    let x = args[a];
    if let SpecValue::Name(n) = x {
        assert forall|m: int|
            0 <= m < p.args.len() && #[trigger] p.args[m].name == n && (forall|m2: int|
                m < m2 < p.args.len() ==> p.args[m2].name != n) && (forall|t: int|
                0 <= t < s ==> !declares(code, t, n)) implies c.code[j].args[a] == Arg::Var(m as usize) by {
            assert(last_of_name(p.args, m, p.args.len() as int));
            assert(m0.contains_key(p.args[m].name) && m0[p.args[m].name] == m);
        }
    }
}


/// Where operation `s` of `p`, compiled into `c`, continues: without `->`,
/// at the next operation; with `->`, at the operations that follow its labels.
pub open spec fn continues_as_written(p: SpecProc, c: SpecProcCode, s: int) -> bool {
    let k = ops_before(p.code, s);
    let targets = p.code[s]->Op_targets;
    &&& 0 <= k < c.code.len() - 1
    &&& targets.len() == 0 ==> c.code[k].targets == seq![SpecTarget { target: k + 1, vars: Seq::empty() }]
    &&& targets.len() > 0 ==> c.code[k].targets.len() == targets.len()
    &&& forall|j: int, l: int|
        0 <= j < targets.len() && 0 <= l < p.code.len() && #[trigger] p.code[l] == SpecStmt::Label(
            #[trigger] targets[j],
        ) ==> c.code[k].targets[j].target == ops_before(p.code, l)
}

/// An operation without `->` continues at the next operation, and one with
/// `->` continues at the operations that its labels name: the operations
/// that follow the labels.
pub proof fn lemma_targets(p: SpecProc, callables: Map<Seq<char>, usize>, s: int)
    requires
        spec_compile_callable(p, callables) is Done,
        0 <= s < p.code.len(),
        p.code[s] is Op,
        count_ops(p.code, 0) <= usize::MAX,
    ensures
        continues_as_written(p, spec_compile_callable(p, callables)->Done_0, s),
{
    let code = p.code;
    let labels = label_pass_from(code, 0, Map::empty(), 0)->Ok_0;
    lemma_count_ops_nonneg(code, 0);
    lemma_label_positions(code, 0, Map::empty(), 0);
    let init = CompileState {
        varmap: arg_bindings_from(p.args, 0, Map::empty()),
        vars: arg_vars(p.args),
        ops: Seq::empty(),
    };
    lemma_stmts_targets(code, 0, init, labels, callables);
    lemma_compile_callable_wf(p, callables, usize::MAX + 1);
    let r = compile_stmts_from(code, 0, init, labels, callables)->Done_0;
    let c = spec_compile_callable(p, callables)->Done_0;
    assert(c.code == r.ops.push(ret_op()));
    let k = ops_before(code, s);
    lemma_count_ops_split(code, 0, s);
    assert(code[s] is Op);
    assert(k < r.ops.len());
    assert(c.code[k] == r.ops[k]);
    let t = r.ops[k].targets;
    assert(stmt_targets_ok(code, s, labels, t));
    let targets = code[s]->Op_targets;
    if targets.len() > 0 {
        assert(resolved(targets, targets.len() as int, labels, t));
        assert forall|j: int, l: int|
            0 <= j < targets.len() && 0 <= l < code.len() && #[trigger] code[l] == SpecStmt::Label(
                #[trigger] targets[j],
            ) implies c.code[k].targets[j].target == ops_before(code, l) by {
            assert(t[j] == (SpecTarget { target: labels[targets[j]] as int, vars: Seq::empty() }));
            assert(code[l] is Label);
            assert(labels[code[l]->Label_0] == ops_before(code, l));
        }
    }
}

// ---------------------------------------------------------------------------
// Duplicate names
proof fn lemma_names_dup(items: Seq<SpecProc>, i: int, m: Map<Seq<char>, usize>, a: int, b: int)
    requires
        0 <= i <= b,
        0 <= a < b < items.len() <= usize::MAX,
        items[a].name == items[b].name,
        names_bound(items, i, m),
    ensures
        callable_names_from(items, i, m) == Err::<Map<Seq<char>, usize>, Seq<char>>(DUPLICATE_PROC@),
    decreases items.len() - i,
{
    if m.contains_key(items[i].name) {
    } else {
        assert(i != b) by {
            if i == b {
                assert(m.contains_key(items[a].name));
            }
        }
        let m2 = m.insert(items[i].name, i as usize);
        assert forall|k: int| 0 <= k < i + 1 implies #[trigger] m2.contains_key(items[k].name) && m2[items[k].name] == k by {
            if k < i {
                assert(m.contains_key(items[k].name));
            }
        }
        lemma_names_dup(items, i + 1, m2, a, b);
    }
}

proof fn lemma_names_distinct(items: Seq<SpecProc>, i: int, m: Map<Seq<char>, usize>)
    requires
        0 <= i <= items.len() <= usize::MAX,
        forall|a: int, b: int| 0 <= a < b < items.len() ==> items[a].name != items[b].name,
        names_bound(items, i, m),
    ensures
        callable_names_from(items, i, m) is Ok,
    decreases items.len() - i,
{
    if i < items.len() {
        if m.contains_key(items[i].name) {
            let a = m[items[i].name] as int;
            assert(items[a].name == items[i].name);
        }
        let m2 = m.insert(items[i].name, i as usize);
        assert forall|k: int| 0 <= k < i + 1 implies #[trigger] m2.contains_key(items[k].name) && m2[items[k].name] == k by {
            if k < i {
                assert(m.contains_key(items[k].name));
            }
        }
        lemma_names_distinct(items, i + 1, m2);
    }
}

/// Redefining a procedure is an error: a program in which two procedures
/// share a name does not compile, whatever else it holds.
pub proof fn lemma_duplicate_proc_rejected(items: Seq<SpecProc>, a: int, b: int)
    requires
        0 <= a < b < items.len() <= usize::MAX,
        items[a].name == items[b].name,
    ensures
        spec_compile(items) == Compiles::<(Seq<SpecProcCode>, Map<Seq<char>, usize>)>::Error(
            DUPLICATE_PROC@,
        ),
{
    lemma_names_dup(items, 0, Map::empty(), a, b);
}

/// Only a repeated procedure name makes the name pass fail: with distinct
/// names it succeeds.
pub proof fn lemma_distinct_procs_named(items: Seq<SpecProc>)
    requires
        items.len() <= usize::MAX,
        forall|a: int, b: int| 0 <= a < b < items.len() ==> items[a].name != items[b].name,
    ensures
        callable_names(items) is Ok,
{
    lemma_names_distinct(items, 0, Map::empty());
}

/// `m` binds the labels among `code[..i]`.
pub open spec fn labels_bound(code: Seq<SpecStmt>, i: int, m: Map<Seq<char>, usize>) -> bool {
    forall|k: int| 0 <= k < i && (#[trigger] code[k]) is Label ==> m.contains_key(code[k]->Label_0)
}

proof fn lemma_labels_dup(code: Seq<SpecStmt>, i: int, m: Map<Seq<char>, usize>, n: int, a: int, b: int)
    requires
        0 <= i <= b,
        0 <= a < b < code.len(),
        code[a] is Label,
        code[b] is Label,
        code[a]->Label_0 == code[b]->Label_0,
        labels_bound(code, i, m),
    ensures
        label_pass_from(code, i, m, n) == Err::<Map<Seq<char>, usize>, Seq<char>>(DUPLICATE_LABEL@),
    decreases code.len() - i,
{
    match code[i] {
        SpecStmt::Label(l) => {
            if !m.contains_key(l) {
                assert(i != b);
                lemma_labels_dup(code, i + 1, m.insert(l, n as usize), n, a, b);
            }
        },
        SpecStmt::Op { .. } => lemma_labels_dup(code, i + 1, m, n + 1, a, b),
        SpecStmt::Var { .. } => lemma_labels_dup(code, i + 1, m, n, a, b),
    }
}

/// A procedure that defines a label twice does not compile.
pub proof fn lemma_duplicate_label_rejected(p: SpecProc, callables: Map<Seq<char>, usize>, a: int, b: int)
    requires
        0 <= a < b < p.code.len(),
        p.code[a] is Label,
        p.code[b] is Label,
        p.code[a]->Label_0 == p.code[b]->Label_0,
    ensures
        spec_compile_callable(p, callables) == Compiles::<SpecProcCode>::Error(DUPLICATE_LABEL@),
{
    lemma_labels_dup(p.code, 0, Map::empty(), 0, a, b);
}

// ---------------------------------------------------------------------------
// The compiler
/// Whether `name` calls something: a procedure of the program, `set` or `ifz`.
fn op_known(name: &str, callablemap: &SymbolMap) -> (r: bool)
    ensures
        r == op_name(name@, callablemap.spec_map()) is Some,
{
    callablemap.get(name).is_some() || str_eq(name, SET_NAME) || str_eq(name, IFZ_NAME)
}

/// What `name` calls, given the procedures of the program by name. The name
/// must be known (compiling stops with a panic at an unknown one).
fn get_op(name: &str, callablemap: &SymbolMap) -> (r: OpName)
    requires
        op_name(name@, callablemap.spec_map()) is Some,
    ensures
        r == op_name(name@, callablemap.spec_map())->0,
{
    if let Some(i) = callablemap.get(name) {
        OpName::UserDef(i)
    } else if str_eq(name, SET_NAME) {
        OpName::Builtin(Builtin::SET)
    } else {
        OpName::Builtin(Builtin::IFZ)
    }
}

/// The arguments of an operation resolved against the variables in scope.
fn resolve_args<'a>(args: &Vec<ValueNode<'a>>, varmap: &SymbolMap<'a>) -> (r: Result<
    Vec<Arg>,
    CompileError,
>)
    ensures
        match resolve_args_from(seq_view(args@), 0, Seq::empty(), varmap.spec_map()) {
            Ok(a) => r matches Ok(v) && v@ == a,
            Err(m) => r matches Err(e) && e.text@ == m,
        },
{
    let ghost vals = seq_view(args@);
    let mut out: Vec<Arg> = Vec::new();
    let mut i: usize = 0;
    while i < args.len()
        invariant
            vals == seq_view(args@),
            i <= args@.len(),
            resolve_args_from(vals, 0, Seq::empty(), varmap.spec_map()) == resolve_args_from(
                vals,
                i as int,
                out@,
                varmap.spec_map(),
            ),
        decreases args@.len() - i,
    {
        match &args[i] {
            ValueNode::Name(name) => match varmap.get(name) {
                Some(v) => {
                    out.push(Arg::Var(v));
                },
                None => {
                    return Err(CompileError { text: NONEXISTENT_VARIABLE });
                },
            },
            ValueNode::Int(n) => {
                out.push(Arg::Int(*n));
            },
        }
        i = i + 1;
    }
    Ok(out)
}

/// Where the operation with index `index` continues.
fn resolve_targets<'a>(
    targets: &Vec<crate::parser::TargetNode<'a>>,
    labelmap: &SymbolMap<'a>,
    index: usize,
) -> (r: Result<Vec<Target>, CompileError>)
    requires
        index < usize::MAX,
    ensures
        match op_targets(seq_view(targets@), labelmap.spec_map(), index as int) {
            Ok(t) => r matches Ok(v) && seq_view(v@) == t,
            Err(m) => r matches Err(e) && e.text@ == m,
        },
{
    let ghost names = seq_view(targets@);
    let mut out: Vec<Target> = Vec::new();
    if targets.len() == 0 {
        out.push(Target { target: index + 1, vars: Vec::new() });
        assert(seq_view(out@) =~= seq![SpecTarget { target: index + 1, vars: Seq::empty() }]);
        return Ok(out);
    }
    assert(seq_view(out@) =~= Seq::<SpecTarget>::empty());
    let mut i: usize = 0;
    while i < targets.len()
        invariant
            names == seq_view(targets@),
            names.len() > 0,
            i <= targets@.len(),
            resolve_labels_from(names, 0, Seq::empty(), labelmap.spec_map()) == resolve_labels_from(
                names,
                i as int,
                seq_view(out@),
                labelmap.spec_map(),
            ),
        decreases targets@.len() - i,
    {
        match labelmap.get(targets[i].name) {
            Some(t) => {
                let ghost before = seq_view(out@);
                out.push(Target { target: t, vars: Vec::new() });
                assert(seq_view(out@) =~= before.push(
                    SpecTarget { target: t as int, vars: Seq::empty() },
                ));
            },
            None => {
                return Err(CompileError { text: NONEXISTENT_LABEL });
            },
        }
        i = i + 1;
    }
    Ok(out)
}

/// Compiles one procedure, given the procedures of the program by name;
/// `Err(None)` where an operation names nothing known.
fn build_callable<'a>(item: &ItemNode<'a>, callablemap: &SymbolMap<'a>) -> (r: Result<
    Callable,
    Option<CompileError>,
>)
    ensures
        match spec_compile_callable(item@, callablemap.spec_map()) {
            Compiles::Done(p) => r matches Ok(c) && c@ == p,
            Compiles::Error(m) => r matches Err(Some(e)) && e.text@ == m,
            Compiles::Panics => r matches Err(None),
        },
{
    let ghost calls = callablemap.spec_map();
    match item {
        ItemNode::Proc(proc) => {
            let ghost sp = item@;
            let ghost args = sp.args;
            let ghost code = sp.code;
            // the arguments are the first variables
            let mut varmap: SymbolMap<'a> = SymbolMap::new();
            let mut vars: Vec<Var> = Vec::new();
            let mut i: usize = 0;
            while i < proc.args.len()
                invariant
                    sp == proc@,
                    sp == item@,
                    args == sp.args,
                    args.len() == proc.args@.len(),
                    i <= proc.args@.len(),
                    vars@.len() == i,
                    vars@ == arg_vars(args).take(i as int),
                    arg_bindings_from(args, 0, Map::empty()) == arg_bindings_from(
                        args,
                        i as int,
                        varmap.spec_map(),
                    ),
                decreases proc.args@.len() - i,
            {
                let arg = &proc.args[i];
                varmap.insert(arg.name, vars.len());
                vars.push(Var { vartype: Type::from(&arg.argtype) });
                assert(vars@ =~= arg_vars(args).take(i + 1));
                i = i + 1;
            }
            assert(vars@ =~= arg_vars(args));
            // labels name the operation that follows them
            let mut labelmap: SymbolMap<'a> = SymbolMap::new();
            let mut stmtcount: usize = 0;
            let mut j: usize = 0;
            while j < proc.code.len()
                invariant
                    sp == proc@,
                    sp == item@,
                    code == sp.code,
                    code.len() == proc.code@.len(),
                    j <= proc.code@.len(),
                    stmtcount <= j,
                    label_pass_from(code, 0, Map::empty(), 0) == label_pass_from(
                        code,
                        j as int,
                        labelmap.spec_map(),
                        stmtcount as int,
                    ),
                decreases proc.code@.len() - j,
            {
                match &proc.code[j] {
                    StmtNode::Label(label) => {
                        match labelmap.insert(label.name, stmtcount) {
                            Some(_) => {
                                return Err(Some(CompileError { text: DUPLICATE_LABEL }));
                            },
                            None => {},
                        }
                    },
                    StmtNode::Op(_) => {
                        stmtcount = stmtcount + 1;
                    },
                    StmtNode::Var(_) => {},
                }
                j = j + 1;
            }
            let ghost labels = labelmap.spec_map();
            let ghost init = CompileState { varmap: varmap.spec_map(), vars: vars@, ops: Seq::empty() };
            let mut ops: Vec<Op> = Vec::new();
            assert(seq_view(ops@) =~= Seq::<SpecOp>::empty());
            let mut k: usize = 0;
            while k < proc.code.len()
                invariant
                    sp == proc@,
                    sp == item@,
                    code == sp.code,
                    code.len() == proc.code@.len(),
                    calls == callablemap.spec_map(),
                    k <= proc.code@.len(),
                    ops@.len() <= k,
                    label_pass_from(code, 0, Map::empty(), 0) == Ok::<_, Seq<char>>(labels),
                    labels == labelmap.spec_map(),
                    spec_compile_callable(sp, calls) == match compile_stmts_from(
                        code,
                        k as int,
                        CompileState { varmap: varmap.spec_map(), vars: vars@, ops: seq_view(ops@) },
                        labels,
                        calls,
                    ) {
                        Compiles::Done(st) => Compiles::Done(
                            SpecProcCode {
                                argcount: args.len() as int,
                                vars: st.vars,
                                code: st.ops.push(ret_op()),
                            },
                        ),
                        Compiles::Error(e) => Compiles::Error(e),
                        Compiles::Panics => Compiles::Panics,
                    },
                    args == sp.args,
                    args.len() == proc.args@.len(),
                decreases proc.code@.len() - k,
            {
                let ghost st = CompileState {
                    varmap: varmap.spec_map(),
                    vars: vars@,
                    ops: seq_view(ops@),
                };
                assert(code[k as int] == proc.code@[k as int]@);
                match &proc.code[k] {
                    StmtNode::Label(_) => {},
                    StmtNode::Op(op) => {
                        if !op_known(op.name, callablemap) {
                            return Err(None);
                        }
                        let name = get_op(op.name, callablemap);
                        let args = match resolve_args(&op.args, &varmap) {
                            Ok(a) => a,
                            Err(e) => {
                                return Err(Some(e));
                            },
                        };
                        let targets = match resolve_targets(&op.targets, &labelmap, ops.len()) {
                            Ok(t) => t,
                            Err(e) => {
                                return Err(Some(e));
                            },
                        };
                        let ghost before = seq_view(ops@);
                        let new_op = Op { name, args, targets };
                        ops.push(new_op);
                        assert(seq_view(ops@) =~= before.push(new_op@));
                    },
                    StmtNode::Var(var) => {
                        varmap.insert(var.name, vars.len());
                        vars.push(Var { vartype: Type::from(&var.vartype) });
                    },
                }
                k = k + 1;
            }
            let ghost before = seq_view(ops@);
            let ret = Op { name: OpName::Builtin(Builtin::RET), args: Vec::new(), targets: Vec::new() };
            ops.push(ret);
            proof {
                assert(ret@.args =~= Seq::<Arg>::empty());
                assert(seq_view(ret.targets@) =~= Seq::<SpecTarget>::empty());
                assert(seq_view(ops@) =~= before.push(ret_op()));
            }
            Ok(Callable::Proc(Proc { argcount: proc.args.len(), vars, code: ops }))
        },
    }
}

/// Compiles one procedure, given the procedures of the program by name.
/// Every operation reached must name a procedure of the program, `set` or
/// `ifz` (compiling stops with a panic at one that does not).
pub fn compile_callable<'a>(item: &ItemNode<'a>, callablemap: &SymbolMap<'a>) -> (r: Result<
    Callable,
    CompileError,
>)
    requires
        !(spec_compile_callable(item@, callablemap.spec_map()) is Panics),
    ensures
        match spec_compile_callable(item@, callablemap.spec_map()) {
            Compiles::Done(p) => r matches Ok(c) && c@ == p,
            Compiles::Error(m) => r matches Err(e) && e.text@ == m,
            Compiles::Panics => false,
        },
{
    match build_callable(item, callablemap) {
        Ok(c) => Ok(c),
        Err(Some(e)) => Err(e),
        Err(None) => Err(CompileError { text: "" }),
    }
}

/// Compiles a program; `Err(None)` where an operation names nothing known.
fn build_program<'a>(code: &CodeNode<'a>) -> (r: Result<(Compiled, SymbolMap<'a>), Option<CompileError>>)
    ensures
        match spec_compile(code@) {
            Compiles::Done((ps, names)) => r matches Ok((c, m)) && c@ == ps && m.spec_map() == names,
            Compiles::Error(e) => r matches Err(Some(err)) && err.text@ == e,
            Compiles::Panics => r matches Err(None),
        },
        r matches Ok((c, _)) ==> compiled_wf(c@),
{
    let ghost items = code@;
    let mut callablemap: SymbolMap<'a> = SymbolMap::new();
    let mut i: usize = 0;
    while i < code.code.len()
        invariant
            items == code@,
            items.len() == code.code@.len(),
            i <= code.code@.len(),
            callable_names(items) == callable_names_from(items, i as int, callablemap.spec_map()),
        decreases code.code@.len() - i,
    {
        match callablemap.insert(code.code[i].get_name(), i) {
            Some(_) => {
                return Err(Some(CompileError { text: DUPLICATE_PROC }));
            },
            None => {},
        }
        i = i + 1;
    }
    let ghost names = callablemap.spec_map();
    let mut compiled: Vec<Callable> = Vec::new();
    assert(seq_view(compiled@) =~= Seq::<SpecProcCode>::empty());
    let mut k: usize = 0;
    while k < code.code.len()
        invariant
            items == code@,
            items.len() == code.code@.len(),
            k <= code.code@.len(),
            names == callablemap.spec_map(),
            callable_names(items) == Ok::<_, Seq<char>>(names),
            spec_compile(items) == match compile_items_from(items, k as int, seq_view(compiled@), names) {
                Compiles::Done(ps) => Compiles::Done((ps, names)),
                Compiles::Error(e) => Compiles::Error(e),
                Compiles::Panics => Compiles::Panics,
            },
        decreases code.code@.len() - k,
    {
        let c = match build_callable(&code.code[k], &callablemap) {
            Ok(c) => c,
            Err(e) => {
                return Err(e);
            },
        };
        let ghost before = seq_view(compiled@);
        compiled.push(c);
        assert(seq_view(compiled@) =~= before.push(c@));
        k = k + 1;
    }
    proof {
        lemma_compile_wf(items);
    }
    Ok((Compiled { callables: compiled }, callablemap))
}

/// Compiles a program; returns the code and the map from procedure names to
/// their indices in it. Every operation reached must name a procedure of the
/// program, `set` or `ifz` (compiling stops with a panic at one that does
/// not); `try_compile` checks this.
pub fn compile<'a>(code: &CodeNode<'a>) -> (r: Result<(Compiled, SymbolMap<'a>), CompileError>)
    requires
        !(spec_compile(code@) is Panics),
    ensures
        match spec_compile(code@) {
            Compiles::Done((ps, names)) => r matches Ok((c, m)) && c@ == ps && m.spec_map() == names,
            Compiles::Error(e) => r matches Err(err) && err.text@ == e,
            Compiles::Panics => false,
        },
        r matches Ok((c, _)) ==> compiled_wf(c@),
{
    match build_program(code) {
        Ok(r) => Ok(r),
        Err(Some(e)) => Err(e),
        Err(None) => Err(CompileError { text: "" }),
    }
}

/// Compiles a program as `compile` does; `None` where `compile` would stop
/// at an operation that names nothing known.
pub fn try_compile<'a>(code: &CodeNode<'a>) -> (r: Option<Result<(Compiled, SymbolMap<'a>), CompileError>>)
    ensures
        match spec_compile(code@) {
            Compiles::Done((ps, names)) => r matches Some(Ok((c, m))) && c@ == ps && m.spec_map() == names,
            Compiles::Error(e) => r matches Some(Err(err)) && err.text@ == e,
            Compiles::Panics => r is None,
        },
        r matches Some(Ok((c, _))) ==> compiled_wf(c@),
{
    match build_program(code) {
        Ok(r) => Some(Ok(r)),
        Err(Some(e)) => Some(Err(e)),
        Err(None) => None,
    }
}

} // verus!

