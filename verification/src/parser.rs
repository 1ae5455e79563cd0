//! The parser: turns a sequence of tokens into a syntax tree.
//!
//! The grammar:
//!
//! ```text
//! program = item*
//! item    = proc
//! proc    = 'proc' name '(' procarg (',' procarg)* ')' '{' stmt* '}'
//! procarg = ('in' | 'out')* name int
//! stmt    = 'label' name
//!         | 'op' name value* ['->' name (',' name)*]
//!         | 'var' name int
//! value   = name | int
//! ```
use vstd::prelude::*;
use crate::lexer::{SpecTokenValue, Token, TokenValue};

verus! {

pub const EXPECTED_NAME: &'static str = "parse error: expected NAME";

pub const EOF_EXPECTED_NAME: &'static str = "parse error: at EOF, expected NAME";

pub const EXPECTED_INT: &'static str = "parse error: expected INT";

pub const EOF_EXPECTED_INT: &'static str = "parse error: at EOF, expected INT";

pub const EXPECTED_LPAR: &'static str = "parse error: expected LPAR";

pub const EOF_EXPECTED_LPAR: &'static str = "parse error: at EOF, expected LPAR";

pub const EXPECTED_LBR: &'static str = "parse error: expected LBR";

pub const EOF_EXPECTED_LBR: &'static str = "parse error: at EOF, expected LBR";

pub const EXPECTED_RBR: &'static str = "parse error: expected RBR";

pub const EOF_EXPECTED_RBR: &'static str = "parse error: at EOF, expected RBR";

pub const EXPECTED_PROC_OR_EOF: &'static str = "parse error: expected PROC or EOF";

pub const EXPECTED_COMMA_OR_RPAR: &'static str = "parse error: expected COMMA or RPAR";

pub const EOF_EXPECTED_COMMA_OR_RPAR: &'static str = "parse error: at EOF, expected COMMA or RPAR";

pub const EXPECTED_IN_OUT_NAME: &'static str = "parse error: expected IN, OUT, or NAME";

pub const EOF_EXPECTED_IN_OUT_NAME: &'static str = "parse error: at EOF, expected IN, OUT, or NAME";

pub const EOF_EXPECTED_STMT: &'static str = "parse error: at EOF, expected LABEL, OP, VAR, or RBR";

pub const EOF_EXPECTED_VALUE: &'static str = "parse error: at EOF, expected NAME or INT";

/// Why a token sequence is not a program.
#[derive(Debug)]
pub struct ParseError {
    text: &'static str,
}

impl ParseError {
    /// The error's message.
    pub closed spec fn message(&self) -> Seq<char> {
        self.text@
    }

    pub fn text(&self) -> (r: &'static str)
        ensures
            r@ == self.message(),
    {
        self.text
    }
}

// ---------------------------------------------------------------------------
// Syntax tree
/// A whole program.
#[derive(Debug)]
pub struct CodeNode<'a> {
    pub code: Vec<ItemNode<'a>>,
}

#[derive(Debug)]
pub enum ItemNode<'a> {
    Proc(ProcNode<'a>),
}

#[derive(Debug)]
pub struct ProcNode<'a> {
    pub name: &'a str,
    pub args: Vec<ProcArgNode<'a>>,
    pub code: Vec<StmtNode<'a>>,
}

#[derive(Debug)]
pub enum StmtNode<'a> {
    Label(LabelNode<'a>),
    Op(OpNode<'a>),
    Var(VarNode<'a>),
}

#[derive(Debug)]
pub struct LabelNode<'a> {
    pub name: &'a str,
}

/// An operation: the name of what it calls, its arguments, and the labels it
/// may continue at.
#[derive(Debug)]
pub struct OpNode<'a> {
    pub name: &'a str,
    pub args: Vec<ValueNode<'a>>,
    pub targets: Vec<TargetNode<'a>>,
}

/// A label that an operation may jump to.
#[derive(Debug)]
pub struct TargetNode<'a> {
    pub name: &'a str,
}

#[derive(Debug)]
pub enum ValueNode<'a> {
    Name(&'a str),
    Int(i32),
}

#[derive(Debug)]
pub struct VarNode<'a> {
    pub name: &'a str,
    pub vartype: VarTypeNode,
}

#[derive(Debug)]
pub struct ProcArgNode<'a> {
    pub in_: bool,
    pub out: bool,
    pub name: &'a str,
    pub argtype: ArgTypeNode,
}

#[derive(Debug)]
pub struct VarTypeNode {
    pub size: i32,
}

#[derive(Debug)]
pub struct ArgTypeNode {
    pub size: i32,
}

impl<'a> ItemNode<'a> {
    pub fn get_name(&self) -> (r: &'a str)
        ensures
            r@ == self@.name,
    {
        match &self {
            ItemNode::Proc(proc) => proc.name,
        }
    }
}

// ---------------------------------------------------------------------------
// The tree as mathematical values
pub struct SpecProcArg {
    pub in_: bool,
    pub out: bool,
    pub name: Seq<char>,
    pub size: int,
}

pub enum SpecValue {
    Name(Seq<char>),
    Int(int),
}

pub enum SpecStmt {
    Label(Seq<char>),
    Op { name: Seq<char>, args: Seq<SpecValue>, targets: Seq<Seq<char>> },
    Var { name: Seq<char>, size: int },
}

pub struct SpecProc {
    pub name: Seq<char>,
    pub args: Seq<SpecProcArg>,
    pub code: Seq<SpecStmt>,
}

/// The views of a sequence of nodes.
pub open spec fn seq_view<T: View>(s: Seq<T>) -> Seq<T::V> {
    s.map_values(|x: T| x@)
}

impl<'a> View for TargetNode<'a> {
    type V = Seq<char>;

    open spec fn view(&self) -> Seq<char> {
        self.name@
    }
}

impl<'a> View for ValueNode<'a> {
    type V = SpecValue;

    open spec fn view(&self) -> SpecValue {
        match self {
            ValueNode::Name(n) => SpecValue::Name(n@),
            ValueNode::Int(v) => SpecValue::Int(*v as int),
        }
    }
}

impl<'a> View for ProcArgNode<'a> {
    type V = SpecProcArg;

    open spec fn view(&self) -> SpecProcArg {
        SpecProcArg {
            in_: self.in_,
            out: self.out,
            name: self.name@,
            size: self.argtype.size as int,
        }
    }
}

impl<'a> View for StmtNode<'a> {
    type V = SpecStmt;

    open spec fn view(&self) -> SpecStmt {
        match self {
            StmtNode::Label(l) => SpecStmt::Label(l.name@),
            StmtNode::Op(o) => SpecStmt::Op {
                name: o.name@,
                args: seq_view(o.args@),
                targets: seq_view(o.targets@),
            },
            StmtNode::Var(v) => SpecStmt::Var { name: v.name@, size: v.vartype.size as int },
        }
    }
}

impl<'a> View for ProcNode<'a> {
    type V = SpecProc;

    open spec fn view(&self) -> SpecProc {
        SpecProc {
            name: self.name@,
            args: seq_view(self.args@),
            code: seq_view(self.code@),
        }
    }
}

impl<'a> View for ItemNode<'a> {
    type V = SpecProc;

    open spec fn view(&self) -> SpecProc {
        match self {
            ItemNode::Proc(p) => p@,
        }
    }
}

impl<'a> View for CodeNode<'a> {
    type V = Seq<SpecProc>;

    open spec fn view(&self) -> Seq<SpecProc> {
        seq_view(self.code@)
    }
}

// ---------------------------------------------------------------------------
// The grammar as functions on token values
/// The values of a sequence of tokens.
pub open spec fn token_values<'a>(ts: Seq<Token<'a>>) -> Seq<SpecTokenValue> {
    ts.map_values(|t: Token<'a>| t.spec_value())
}

/// `pre` put before the sequence of a successful result.
pub open spec fn prepend<T>(pre: Seq<T>, r: Result<(Seq<T>, int), Seq<char>>) -> Result<
    (Seq<T>, int),
    Seq<char>,
> {
    match r {
        Ok((s, q)) => Ok((pre + s, q)),
        Err(e) => Err(e),
    }
}

pub open spec fn spec_expect(
    t: Seq<SpecTokenValue>,
    p: int,
    want: SpecTokenValue,
    expected: Seq<char>,
    at_eof: Seq<char>,
) -> Result<int, Seq<char>> {
    if p >= t.len() {
        Err(at_eof)
    } else if t[p] == want {
        Ok(p + 1)
    } else {
        Err(expected)
    }
}

pub open spec fn spec_expect_name(t: Seq<SpecTokenValue>, p: int) -> Result<
    (Seq<char>, int),
    Seq<char>,
> {
    if p >= t.len() {
        Err(EOF_EXPECTED_NAME@)
    } else {
        match t[p] {
            SpecTokenValue::NAME(n) => Ok((n, p + 1)),
            _ => Err(EXPECTED_NAME@),
        }
    }
}

pub open spec fn spec_expect_int(t: Seq<SpecTokenValue>, p: int) -> Result<(int, int), Seq<char>> {
    if p >= t.len() {
        Err(EOF_EXPECTED_INT@)
    } else {
        match t[p] {
            SpecTokenValue::INT(v) => Ok((v, p + 1)),
            _ => Err(EXPECTED_INT@),
        }
    }
}

/// The flags and the name of an argument: any number of `in` and `out`,
/// then a name.
pub open spec fn spec_procarg_head(t: Seq<SpecTokenValue>, p: int, in_: bool, out: bool) -> Result<
    (bool, bool, Seq<char>, int),
    Seq<char>,
>
    decreases t.len() - p,
{
    if p >= t.len() {
        Err(EOF_EXPECTED_IN_OUT_NAME@)
    } else {
        match t[p] {
            SpecTokenValue::IN => spec_procarg_head(t, p + 1, true, out),
            SpecTokenValue::OUT => spec_procarg_head(t, p + 1, in_, true),
            SpecTokenValue::NAME(n) => Ok((in_, out, n, p + 1)),
            _ => Err(EXPECTED_IN_OUT_NAME@),
        }
    }
}

pub open spec fn spec_procarg(t: Seq<SpecTokenValue>, p: int) -> Result<
    (SpecProcArg, int),
    Seq<char>,
> {
    match spec_procarg_head(t, p, false, false) {
        Err(e) => Err(e),
        Ok((in_, out, name, q)) => match spec_expect_int(t, q) {
            Err(e) => Err(e),
            Ok((size, r)) => Ok((SpecProcArg { in_, out, name, size }, r)),
        },
    }
}

/// The arguments of a procedure, up to and including the closing `)`.
pub open spec fn spec_procargs(t: Seq<SpecTokenValue>, p: int) -> Result<
    (Seq<SpecProcArg>, int),
    Seq<char>,
>
    decreases t.len() - p,
{
    match spec_procarg(t, p) {
        Err(e) => Err(e),
        Ok((a, q)) => {
            if q >= t.len() {
                Err(EOF_EXPECTED_COMMA_OR_RPAR@)
            } else if t[q] == SpecTokenValue::RPAR {
                Ok((seq![a], q + 1))
            } else if t[q] == SpecTokenValue::COMMA && p <= q {
                prepend(seq![a], spec_procargs(t, q + 1))
            } else {
                Err(EXPECTED_COMMA_OR_RPAR@)
            }
        },
    }
}

/// A value, if the next token is one; at the end of the input, an error.
pub open spec fn spec_value(t: Seq<SpecTokenValue>, p: int) -> Result<
    Option<(SpecValue, int)>,
    Seq<char>,
> {
    if p >= t.len() {
        Err(EOF_EXPECTED_VALUE@)
    } else {
        match t[p] {
            SpecTokenValue::NAME(n) => Ok(Some((SpecValue::Name(n), p + 1))),
            SpecTokenValue::INT(v) => Ok(Some((SpecValue::Int(v), p + 1))),
            _ => Ok(None),
        }
    }
}

pub open spec fn spec_values(t: Seq<SpecTokenValue>, p: int) -> Result<
    (Seq<SpecValue>, int),
    Seq<char>,
>
    decreases t.len() - p,
{
    match spec_value(t, p) {
        Err(e) => Err(e),
        Ok(None) => Ok((Seq::empty(), p)),
        Ok(Some((v, q))) => {
            if p < q <= t.len() {
                prepend(seq![v], spec_values(t, q))
            } else {
                Err(EOF_EXPECTED_VALUE@)
            }
        },
    }
}

/// A list of label names separated by commas.
pub open spec fn spec_target_list(t: Seq<SpecTokenValue>, p: int) -> Result<
    (Seq<Seq<char>>, int),
    Seq<char>,
>
    decreases t.len() - p,
{
    if p >= t.len() {
        Err(EOF_EXPECTED_NAME@)
    } else {
        match t[p] {
            SpecTokenValue::NAME(n) => {
                if p + 1 < t.len() && t[p + 1] == SpecTokenValue::COMMA {
                    prepend(seq![n], spec_target_list(t, p + 2))
                } else {
                    Ok((seq![n], p + 1))
                }
            },
            _ => Err(EXPECTED_NAME@),
        }
    }
}

/// The jump targets of an operation: `-> l1, l2, ...`, or none.
pub open spec fn spec_targets(t: Seq<SpecTokenValue>, p: int) -> Result<
    (Seq<Seq<char>>, int),
    Seq<char>,
> {
    if 0 <= p < t.len() && t[p] == SpecTokenValue::ARROW {
        spec_target_list(t, p + 1)
    } else {
        Ok((Seq::empty(), p))
    }
}

/// A statement, or `None` at the `}` that ends a body.
pub open spec fn spec_stmt(t: Seq<SpecTokenValue>, p: int) -> Result<
    Option<(SpecStmt, int)>,
    Seq<char>,
> {
    if p >= t.len() {
        Err(EOF_EXPECTED_STMT@)
    } else {
        match t[p] {
            SpecTokenValue::LABEL => match spec_expect_name(t, p + 1) {
                Err(e) => Err(e),
                Ok((n, q)) => Ok(Some((SpecStmt::Label(n), q))),
            },
            SpecTokenValue::OP => match spec_expect_name(t, p + 1) {
                Err(e) => Err(e),
                Ok((n, q1)) => match spec_values(t, q1) {
                    Err(e) => Err(e),
                    Ok((args, q2)) => match spec_targets(t, q2) {
                        Err(e) => Err(e),
                        Ok((targets, q3)) => Ok(Some((SpecStmt::Op { name: n, args, targets }, q3))),
                    },
                },
            },
            SpecTokenValue::VAR => match spec_expect_name(t, p + 1) {
                Err(e) => Err(e),
                Ok((n, q1)) => match spec_expect_int(t, q1) {
                    Err(e) => Err(e),
                    Ok((size, q2)) => Ok(Some((SpecStmt::Var { name: n, size }, q2))),
                },
            },
            SpecTokenValue::RBR => Ok(None),
            _ => Err(EOF_EXPECTED_STMT@),
        }
    }
}

/// The statements of a body, up to (not including) the closing `}`.
pub open spec fn spec_stmts(t: Seq<SpecTokenValue>, p: int) -> Result<
    (Seq<SpecStmt>, int),
    Seq<char>,
>
    decreases t.len() - p,
{
    match spec_stmt(t, p) {
        Err(e) => Err(e),
        Ok(None) => Ok((Seq::empty(), p)),
        Ok(Some((s, q))) => {
            if p < q <= t.len() {
                prepend(seq![s], spec_stmts(t, q))
            } else {
                Err(EOF_EXPECTED_STMT@)
            }
        },
    }
}

/// A procedure, or `None` at the end of the input.
pub open spec fn spec_item(t: Seq<SpecTokenValue>, p: int) -> Result<
    Option<(SpecProc, int)>,
    Seq<char>,
> {
    if p >= t.len() {
        Ok(None)
    } else if t[p] == SpecTokenValue::PROC {
        match spec_expect_name(t, p + 1) {
            Err(e) => Err(e),
            Ok((name, q1)) => match spec_expect(
                t,
                q1,
                SpecTokenValue::LPAR,
                EXPECTED_LPAR@,
                EOF_EXPECTED_LPAR@,
            ) {
                Err(e) => Err(e),
                Ok(q2) => match spec_procargs(t, q2) {
                    Err(e) => Err(e),
                    Ok((args, q3)) => match spec_expect(
                        t,
                        q3,
                        SpecTokenValue::LBR,
                        EXPECTED_LBR@,
                        EOF_EXPECTED_LBR@,
                    ) {
                        Err(e) => Err(e),
                        Ok(q4) => match spec_stmts(t, q4) {
                            Err(e) => Err(e),
                            Ok((code, q5)) => match spec_expect(
                                t,
                                q5,
                                SpecTokenValue::RBR,
                                EXPECTED_RBR@,
                                EOF_EXPECTED_RBR@,
                            ) {
                                Err(e) => Err(e),
                                Ok(q6) => Ok(Some((SpecProc { name, args, code }, q6))),
                            },
                        },
                    },
                },
            },
        }
    } else {
        Err(EXPECTED_PROC_OR_EOF@)
    }
}

/// The procedures from position `p` to the end of the input.
pub open spec fn spec_items(t: Seq<SpecTokenValue>, p: int) -> Result<Seq<SpecProc>, Seq<char>>
    decreases t.len() - p,
{
    match spec_item(t, p) {
        Err(e) => Err(e),
        Ok(None) => Ok(Seq::empty()),
        Ok(Some((item, q))) => {
            if p < q <= t.len() {
                match spec_items(t, q) {
                    Ok(rest) => Ok(seq![item] + rest),
                    Err(e) => Err(e),
                }
            } else {
                Err(EXPECTED_PROC_OR_EOF@)
            }
        },
    }
}

/// The program that a token sequence spells, or the first error in it.
pub open spec fn spec_parse(t: Seq<SpecTokenValue>) -> Result<Seq<SpecProc>, Seq<char>> {
    spec_items(t, 0)
}


// ---------------------------------------------------------------------------
// Laws of the grammar
proof fn lemma_procarg_head_flags(t: Seq<SpecTokenValue>, p: int, i0: bool, o0: bool)
    requires
        0 <= p,
        spec_procarg_head(t, p, i0, o0) is Ok,
    ensures
        ({
            let (i, o, n, q1) = spec_procarg_head(t, p, i0, o0)->Ok_0;
            &&& p < q1 <= t.len()
            &&& forall|k: int| p <= k < q1 - 1 ==> (#[trigger] t[k] is IN || t[k] is OUT)
            &&& t[q1 - 1] == SpecTokenValue::NAME(n)
            &&& i == (i0 || exists|k: int| p <= k < q1 - 1 && #[trigger] t[k] is IN)
            &&& o == (o0 || exists|k: int| p <= k < q1 - 1 && #[trigger] t[k] is OUT)
        }),
    decreases t.len() - p,
{
    if p < t.len() {
        match t[p] {
            SpecTokenValue::IN => {
                lemma_procarg_head_flags(t, p + 1, true, o0);
                let (i, o, n, q1) = spec_procarg_head(t, p, i0, o0)->Ok_0;
                if exists|k: int| p <= k < q1 - 1 && #[trigger] t[k] is OUT {
                    let k = choose|k: int| p <= k < q1 - 1 && #[trigger] t[k] is OUT;
                    assert(k != p);
                    assert(p + 1 <= k < q1 - 1 && t[k] is OUT);
                }
            },
            SpecTokenValue::OUT => {
                lemma_procarg_head_flags(t, p + 1, i0, true);
                let (i, o, n, q1) = spec_procarg_head(t, p, i0, o0)->Ok_0;
                if exists|k: int| p <= k < q1 - 1 && #[trigger] t[k] is IN {
                    let k = choose|k: int| p <= k < q1 - 1 && #[trigger] t[k] is IN;
                    assert(k != p);
                    assert(p + 1 <= k < q1 - 1 && t[k] is IN);
                }
            },
            _ => {},
        }
    }
}

/// How an argument is read: from `p` come flag tokens (`in` and `out`, in
/// any number and order), then the name, then the size. The argument is
/// marked `in` exactly when an `in` token stands among its flags, and `out`
/// exactly when an `out` token does, each independently of the other.
pub proof fn lemma_procarg_flags(t: Seq<SpecTokenValue>, p: int)
    requires
        0 <= p,
        spec_procarg(t, p) is Ok,
    ensures
        ({
            let (a, r) = spec_procarg(t, p)->Ok_0;
            let q = r - 2;
            &&& p <= q && r <= t.len()
            &&& forall|k: int| p <= k < q ==> (#[trigger] t[k] is IN || t[k] is OUT)
            &&& t[q] == SpecTokenValue::NAME(a.name)
            &&& t[q + 1] == SpecTokenValue::INT(a.size)
            &&& a.in_ == exists|k: int| p <= k < q && #[trigger] t[k] is IN
            &&& a.out == exists|k: int| p <= k < q && #[trigger] t[k] is OUT
        }),
{
    lemma_procarg_head_flags(t, p, false, false);
}

/// An operation's values are the names and integers that follow its name,
/// one value per token, in order, up to the first token that is neither.
pub proof fn lemma_values(t: Seq<SpecTokenValue>, p: int)
    requires
        0 <= p,
        spec_values(t, p) is Ok,
    ensures
        ({
            let (vs, q) = spec_values(t, p)->Ok_0;
            &&& p <= q < t.len()
            &&& vs.len() == q - p
            &&& forall|k: int|
                0 <= k < vs.len() ==> match #[trigger] t[p + k] {
                    SpecTokenValue::NAME(n) => vs[k] == SpecValue::Name(n),
                    SpecTokenValue::INT(v) => vs[k] == SpecValue::Int(v),
                    _ => false,
                }
            &&& !(t[q] is NAME || t[q] is INT)
        }),
    decreases t.len() - p,
{
    match spec_value(t, p) {
        Ok(Some((v, q))) => {
            lemma_values(t, q);
            let (rest, r) = spec_values(t, q)->Ok_0;
            let vs = spec_values(t, p)->Ok_0.0;
            assert(vs == seq![v] + rest);
            assert forall|k: int| 0 <= k < vs.len() implies match #[trigger] t[p + k] {
                SpecTokenValue::NAME(n) => vs[k] == SpecValue::Name(n),
                SpecTokenValue::INT(v) => vs[k] == SpecValue::Int(v),
                _ => false,
            } by {
                if k > 0 {
                    assert(vs[k] == rest[k - 1]);
                    assert(t[p + k] == t[q + (k - 1)]);
                }
            }
        },
        _ => {},
    }
}

/// The targets after `->` are names separated by commas: `n0, n1, ...`,
/// one name for each target, in order; the list ends at the first name not
/// followed by a comma.
pub proof fn lemma_target_list(t: Seq<SpecTokenValue>, p: int)
    requires
        0 <= p,
        spec_target_list(t, p) is Ok,
    ensures
        ({
            let (ls, q) = spec_target_list(t, p)->Ok_0;
            &&& ls.len() >= 1
            &&& q == p + 2 * ls.len() - 1
            &&& q <= t.len()
            &&& forall|k: int| 0 <= k < ls.len() ==> t[p + 2 * k] == SpecTokenValue::NAME(#[trigger] ls[k])
            &&& forall|k: int| 0 <= k < ls.len() - 1 ==> #[trigger] t[p + 2 * k + 1] == SpecTokenValue::COMMA
            &&& (q == t.len() || t[q] != SpecTokenValue::COMMA)
        }),
    decreases t.len() - p,
{
    if p + 1 < t.len() && t[p + 1] == SpecTokenValue::COMMA {
        lemma_target_list(t, p + 2);
        let (rest, r) = spec_target_list(t, p + 2)->Ok_0;
        let n = t[p]->NAME_0;
        let ls = spec_target_list(t, p)->Ok_0.0;
        assert(ls == seq![n] + rest);
        assert forall|k: int| 0 <= k < ls.len() implies t[p + 2 * k] == SpecTokenValue::NAME(#[trigger] ls[k]) by {
            if k > 0 {
                assert(ls[k] == rest[k - 1]);
                assert(p + 2 * k == (p + 2) + 2 * (k - 1));
            }
        }
        assert forall|k: int| 0 <= k < ls.len() - 1 implies #[trigger] t[p + 2 * k + 1] == SpecTokenValue::COMMA by {
            if k > 0 {
                assert(p + 2 * k + 1 == (p + 2) + 2 * (k - 1) + 1);
            }
        }
    }
}

// ---------------------------------------------------------------------------
// The parser
pub proof fn lemma_prepend_assoc<T>(x: Seq<T>, y: Seq<T>, r: Result<(Seq<T>, int), Seq<char>>)
    ensures
        prepend(x, prepend(y, r)) == prepend(x + y, r),
{
    if let Ok((s, q)) = r {
        assert(x + (y + s) =~= (x + y) + s);
    }
}

proof fn lemma_push_view<T: View>(s: Seq<T>, x: T)
    ensures
        seq_view(s.push(x)) == seq_view(s) + seq![x@],
{
    assert(seq_view(s.push(x)) =~= seq_view(s) + seq![x@]);
}

proof fn lemma_empty_view<T: View>()
    ensures
        seq_view(Seq::<T>::empty()) == Seq::<T::V>::empty(),
{
    assert(seq_view(Seq::<T>::empty()) =~= Seq::<T::V>::empty());
}

fn expect_name<'a>(toks: &[Token<'a>], pos: &mut usize) -> (r: Result<&'a str, ParseError>)
    requires
        *old(pos) <= toks@.len(),
    ensures
        *old(pos) <= *final(pos) <= toks@.len(),
        match spec_expect_name(token_values(toks@), *old(pos) as int) {
            Ok((n, q)) => r matches Ok(s) && s@ == n && *final(pos) == q,
            Err(m) => r matches Err(e) && e.message() == m,
        },
{
    if *pos >= toks.len() {
        return Err(ParseError { text: EOF_EXPECTED_NAME });
    }
    match toks[*pos].value() {
        TokenValue::NAME(n) => {
            *pos = *pos + 1;
            Ok(*n)
        },
        _ => Err(ParseError { text: EXPECTED_NAME }),
    }
}

fn expect_int<'a>(toks: &[Token<'a>], pos: &mut usize) -> (r: Result<i32, ParseError>)
    requires
        *old(pos) <= toks@.len(),
    ensures
        *old(pos) <= *final(pos) <= toks@.len(),
        match spec_expect_int(token_values(toks@), *old(pos) as int) {
            Ok((v, q)) => r matches Ok(n) && n == v && *final(pos) == q,
            Err(m) => r matches Err(e) && e.message() == m,
        },
{
    if *pos >= toks.len() {
        return Err(ParseError { text: EOF_EXPECTED_INT });
    }
    match toks[*pos].value() {
        TokenValue::INT(n) => {
            *pos = *pos + 1;
            Ok(*n)
        },
        _ => Err(ParseError { text: EXPECTED_INT }),
    }
}

/// Whether `v` is the bracket `want`.
fn is_bracket(v: &TokenValue, want: &TokenValue) -> (r: bool)
    requires
        want@ == SpecTokenValue::LPAR || want@ == SpecTokenValue::LBR || want@ == SpecTokenValue::RBR,
    ensures
        r == (v@ == want@),
{
    match want {
        TokenValue::LPAR => match v {
            TokenValue::LPAR => true,
            _ => false,
        },
        TokenValue::LBR => match v {
            TokenValue::LBR => true,
            _ => false,
        },
        _ => match v {
            TokenValue::RBR => true,
            _ => false,
        },
    }
}

fn expect_bracket<'a>(
    toks: &[Token<'a>],
    pos: &mut usize,
    want: &TokenValue,
    expected: &'static str,
    at_eof: &'static str,
) -> (r: Result<(), ParseError>)
    requires
        *old(pos) <= toks@.len(),
        want@ == SpecTokenValue::LPAR || want@ == SpecTokenValue::LBR || want@ == SpecTokenValue::RBR,
    ensures
        *old(pos) <= *final(pos) <= toks@.len(),
        match spec_expect(token_values(toks@), *old(pos) as int, want@, expected@, at_eof@) {
            Ok(q) => r is Ok && *final(pos) == q,
            Err(m) => r matches Err(e) && e.message() == m,
        },
{
    if *pos >= toks.len() {
        return Err(ParseError { text: at_eof });
    }
    if is_bracket(toks[*pos].value(), want) {
        *pos = *pos + 1;
        Ok(())
    } else {
        Err(ParseError { text: expected })
    }
}

fn parse_argtype<'a>(toks: &[Token<'a>], pos: &mut usize) -> (r: Result<ArgTypeNode, ParseError>)
    requires
        *old(pos) <= toks@.len(),
    ensures
        *old(pos) <= *final(pos) <= toks@.len(),
        match spec_expect_int(token_values(toks@), *old(pos) as int) {
            Ok((v, q)) => r matches Ok(n) && n.size == v && *final(pos) == q,
            Err(m) => r matches Err(e) && e.message() == m,
        },
{
    match expect_int(toks, pos) {
        Ok(size) => Ok(ArgTypeNode { size }),
        Err(e) => Err(e),
    }
}

fn parse_vartype<'a>(toks: &[Token<'a>], pos: &mut usize) -> (r: Result<VarTypeNode, ParseError>)
    requires
        *old(pos) <= toks@.len(),
    ensures
        *old(pos) <= *final(pos) <= toks@.len(),
        match spec_expect_int(token_values(toks@), *old(pos) as int) {
            Ok((v, q)) => r matches Ok(n) && n.size == v && *final(pos) == q,
            Err(m) => r matches Err(e) && e.message() == m,
        },
{
    match expect_int(toks, pos) {
        Ok(size) => Ok(VarTypeNode { size }),
        Err(e) => Err(e),
    }
}

/// An argument of a procedure: `in` and `out` flags, a name and a size.
fn parse_procarg<'a>(toks: &[Token<'a>], pos: &mut usize) -> (r: Result<
    Option<ProcArgNode<'a>>,
    ParseError,
>)
    requires
        *old(pos) <= toks@.len(),
    ensures
        *old(pos) <= *final(pos) <= toks@.len(),
        match spec_procarg(token_values(toks@), *old(pos) as int) {
            Ok((a, q)) => r matches Ok(Some(n)) && n@ == a && *final(pos) == q,
            Err(m) => r matches Err(e) && e.message() == m,
        },
{
    let ghost t = token_values(toks@);
    let ghost p0 = *pos as int;
    let mut in_ = false;
    let mut out = false;
    let mut name: &'a str = "";
    loop
        invariant_except_break
            spec_procarg_head(t, p0, false, false) == spec_procarg_head(t, *pos as int, in_, out),
        invariant
            t == token_values(toks@),
            p0 == *old(pos),
            p0 <= *pos <= toks@.len(),
        ensures
            p0 <= *pos <= toks@.len(),
            spec_procarg_head(t, p0, false, false) == Ok::<_, Seq<char>>(
                (in_, out, name@, *pos as int),
            ),
        decreases toks@.len() - *pos,
    {
        if *pos >= toks.len() {
            return Err(ParseError { text: EOF_EXPECTED_IN_OUT_NAME });
        }
        match toks[*pos].value() {
            TokenValue::IN => {
                in_ = true;
                *pos = *pos + 1;
            },
            TokenValue::OUT => {
                out = true;
                *pos = *pos + 1;
            },
            TokenValue::NAME(n) => {
                name = *n;
                *pos = *pos + 1;
                break ;
            },
            _ => {
                return Err(ParseError { text: EXPECTED_IN_OUT_NAME });
            },
        }
    }
    match parse_argtype(toks, pos) {
        Ok(argtype) => Ok(Some(ProcArgNode { in_, out, name, argtype })),
        Err(e) => Err(e),
    }
}

/// A value, if the next token is a name or a number.
fn parse_value<'a>(toks: &[Token<'a>], pos: &mut usize) -> (r: Result<
    Option<ValueNode<'a>>,
    ParseError,
>)
    requires
        *old(pos) <= toks@.len(),
    ensures
        *old(pos) <= *final(pos) <= toks@.len(),
        match spec_value(token_values(toks@), *old(pos) as int) {
            Ok(None) => r matches Ok(None) && *final(pos) == *old(pos),
            Ok(Some((v, q))) => r matches Ok(Some(n)) && n@ == v && *final(pos) == q,
            Err(m) => r matches Err(e) && e.message() == m,
        },
{
    if *pos >= toks.len() {
        return Err(ParseError { text: EOF_EXPECTED_VALUE });
    }
    match toks[*pos].value() {
        TokenValue::NAME(n) => {
            *pos = *pos + 1;
            Ok(Some(ValueNode::Name(*n)))
        },
        TokenValue::INT(v) => {
            *pos = *pos + 1;
            Ok(Some(ValueNode::Int(*v)))
        },
        _ => Ok(None),
    }
}

/// The jump targets of an operation, `-> l1, l2, ...`, if there are any.
fn parse_targets<'a>(toks: &[Token<'a>], pos: &mut usize) -> (r: Result<
    Vec<TargetNode<'a>>,
    ParseError,
>)
    requires
        *old(pos) <= toks@.len(),
    ensures
        *old(pos) <= *final(pos) <= toks@.len(),
        match spec_targets(token_values(toks@), *old(pos) as int) {
            Ok((ts, q)) => r matches Ok(v) && seq_view(v@) == ts && *final(pos) == q,
            Err(m) => r matches Err(e) && e.message() == m,
        },
{
    let ghost t = token_values(toks@);
    let mut targets: Vec<TargetNode<'a>> = Vec::new();
    proof {
        lemma_empty_view::<TargetNode<'a>>();
    }
    if *pos >= toks.len() {
        return Ok(targets);
    }
    match toks[*pos].value() {
        TokenValue::ARROW => {},
        _ => {
            return Ok(targets);
        },
    }
    *pos = *pos + 1;
    let ghost p1 = *pos as int;
    proof {
        assert(prepend(seq_view(targets@), spec_target_list(t, p1)) == spec_target_list(t, p1));
    }
    loop
        invariant_except_break
            spec_target_list(t, p1) == prepend(seq_view(targets@), spec_target_list(t, *pos as int)),
        invariant
            t == token_values(toks@),
            *old(pos) < p1 <= *pos <= toks@.len(),
            spec_targets(t, *old(pos) as int) == spec_target_list(t, p1),
        ensures
            p1 <= *pos <= toks@.len(),
            spec_target_list(t, p1) == Ok::<_, Seq<char>>((seq_view(targets@), *pos as int)),
        decreases toks@.len() - *pos,
    {
        let ghost p = *pos as int;
        let name = match expect_name(toks, pos) {
            Ok(n) => n,
            Err(e) => {
                return Err(e);
            },
        };
        proof {
            lemma_push_view(targets@, TargetNode { name });
            lemma_prepend_assoc(seq_view(targets@), seq![name@], spec_target_list(t, p + 2));
        }
        targets.push(TargetNode { name });
        if *pos < toks.len() && match toks[*pos].value() {
            TokenValue::COMMA => true,
            _ => false,
        } {
            *pos = *pos + 1;
        } else {
            break ;
        }
    }
    Ok(targets)
}

/// A statement, or `None` at the `}` that closes the body.
fn parse_stmt<'a>(toks: &[Token<'a>], pos: &mut usize) -> (r: Result<
    Option<StmtNode<'a>>,
    ParseError,
>)
    requires
        *old(pos) <= toks@.len(),
    ensures
        *old(pos) <= *final(pos) <= toks@.len(),
        r matches Ok(Some(_)) ==> *old(pos) < *final(pos),
        match spec_stmt(token_values(toks@), *old(pos) as int) {
            Ok(None) => r matches Ok(None) && *final(pos) == *old(pos),
            Ok(Some((st, q))) => r matches Ok(Some(n)) && n@ == st && *final(pos) == q,
            Err(m) => r matches Err(e) && e.message() == m,
        },
{
    let ghost t = token_values(toks@);
    if *pos >= toks.len() {
        return Err(ParseError { text: EOF_EXPECTED_STMT });
    }
    match toks[*pos].value() {
        TokenValue::LABEL => {
            *pos = *pos + 1;
            match expect_name(toks, pos) {
                Ok(name) => Ok(Some(StmtNode::Label(LabelNode { name }))),
                Err(e) => Err(e),
            }
        },
        TokenValue::OP => {
            *pos = *pos + 1;
            let name = match expect_name(toks, pos) {
                Ok(n) => n,
                Err(e) => {
                    return Err(e);
                },
            };
            let ghost q1 = *pos as int;
            let mut args: Vec<ValueNode<'a>> = Vec::new();
            proof {
                lemma_empty_view::<ValueNode<'a>>();
                assert(prepend(seq_view(args@), spec_values(t, q1)) == spec_values(t, q1)) by {
                    if let Ok((vs, q)) = spec_values(t, q1) {
                        assert(seq_view(args@) + vs =~= vs);
                    }
                }
            }
            loop
                invariant_except_break
                    spec_values(t, q1) == prepend(seq_view(args@), spec_values(t, *pos as int)),
                invariant
                    t == token_values(toks@),
                    q1 <= *pos <= toks@.len(),
                    *old(pos) < q1,
                    t[*old(pos) as int] == SpecTokenValue::OP,
                    spec_expect_name(t, *old(pos) + 1) == Ok::<_, Seq<char>>((name@, q1)),
                ensures
                    q1 <= *pos <= toks@.len(),
                    spec_values(t, q1) == Ok::<_, Seq<char>>((seq_view(args@), *pos as int)),
                decreases toks@.len() - *pos,
            {
                let ghost p = *pos as int;
                match parse_value(toks, pos) {
                    Err(e) => {
                        return Err(e);
                    },
                    Ok(None) => {
                        assert(seq_view(args@) + Seq::<SpecValue>::empty() =~= seq_view(args@));
                        break ;
                    },
                    Ok(Some(v)) => {
                        proof {
                            lemma_push_view(args@, v);
                            lemma_prepend_assoc(seq_view(args@), seq![v@], spec_values(t, *pos as int));
                        }
                        args.push(v);
                    },
                }
            }
            let targets = match parse_targets(toks, pos) {
                Ok(ts) => ts,
                Err(e) => {
                    return Err(e);
                },
            };
            Ok(Some(StmtNode::Op(OpNode { name, args, targets })))
        },
        TokenValue::VAR => {
            *pos = *pos + 1;
            let name = match expect_name(toks, pos) {
                Ok(n) => n,
                Err(e) => {
                    return Err(e);
                },
            };
            match parse_vartype(toks, pos) {
                Ok(vartype) => Ok(Some(StmtNode::Var(VarNode { name, vartype }))),
                Err(e) => Err(e),
            }
        },
        TokenValue::RBR => Ok(None),
        _ => Err(ParseError { text: EOF_EXPECTED_STMT }),
    }
}

/// The arguments of a procedure, up to and including the closing `)`.
fn parse_procargs<'a>(toks: &[Token<'a>], pos: &mut usize) -> (r: Result<
    Vec<ProcArgNode<'a>>,
    ParseError,
>)
    requires
        *old(pos) <= toks@.len(),
    ensures
        *old(pos) <= *final(pos) <= toks@.len(),
        match spec_procargs(token_values(toks@), *old(pos) as int) {
            Ok((args, q)) => r matches Ok(v) && seq_view(v@) == args && *final(pos) == q,
            Err(m) => r matches Err(e) && e.message() == m,
        },
{
    let ghost t = token_values(toks@);
    let ghost p0 = *pos as int;
    let mut args: Vec<ProcArgNode<'a>> = Vec::new();
    proof {
        lemma_empty_view::<ProcArgNode<'a>>();
        assert(prepend(seq_view(args@), spec_procargs(t, p0)) == spec_procargs(t, p0)) by {
            if let Ok((vs, q)) = spec_procargs(t, p0) {
                assert(seq_view(args@) + vs =~= vs);
            }
        }
    }
    loop
        invariant_except_break
            spec_procargs(t, p0) == prepend(seq_view(args@), spec_procargs(t, *pos as int)),
        invariant
            t == token_values(toks@),
            p0 == *old(pos),
            p0 <= *pos <= toks@.len(),
        ensures
            p0 <= *pos <= toks@.len(),
            spec_procargs(t, p0) == Ok::<_, Seq<char>>((seq_view(args@), *pos as int)),
        decreases toks@.len() - *pos,
    {
        let ghost p = *pos as int;
        let arg = match parse_procarg(toks, pos) {
            Ok(Some(a)) => a,
            Ok(None) => {
                break ;
            },
            Err(e) => {
                return Err(e);
            },
        };
        let ghost q = *pos as int;
        proof {
            lemma_push_view(args@, arg);
            lemma_prepend_assoc(seq_view(args@), seq![arg@], spec_procargs(t, q + 1));
        }
        args.push(arg);
        if *pos >= toks.len() {
            return Err(ParseError { text: EOF_EXPECTED_COMMA_OR_RPAR });
        }
        match toks[*pos].value() {
            TokenValue::COMMA => {
                *pos = *pos + 1;
            },
            TokenValue::RPAR => {
                *pos = *pos + 1;
                break ;
            },
            _ => {
                return Err(ParseError { text: EXPECTED_COMMA_OR_RPAR });
            },
        }
    }
    Ok(args)
}

/// The statements of a body, up to (not including) the closing `}`.
fn parse_stmts<'a>(toks: &[Token<'a>], pos: &mut usize) -> (r: Result<
    Vec<StmtNode<'a>>,
    ParseError,
>)
    requires
        *old(pos) <= toks@.len(),
    ensures
        *old(pos) <= *final(pos) <= toks@.len(),
        match spec_stmts(token_values(toks@), *old(pos) as int) {
            Ok((code, q)) => r matches Ok(v) && seq_view(v@) == code && *final(pos) == q,
            Err(m) => r matches Err(e) && e.message() == m,
        },
{
    let ghost t = token_values(toks@);
    let ghost p0 = *pos as int;
    let mut stmts: Vec<StmtNode<'a>> = Vec::new();
    proof {
        lemma_empty_view::<StmtNode<'a>>();
        assert(prepend(seq_view(stmts@), spec_stmts(t, p0)) == spec_stmts(t, p0)) by {
            if let Ok((vs, q)) = spec_stmts(t, p0) {
                assert(seq_view(stmts@) + vs =~= vs);
            }
        }
    }
    loop
        invariant_except_break
            spec_stmts(t, p0) == prepend(seq_view(stmts@), spec_stmts(t, *pos as int)),
        invariant
            t == token_values(toks@),
            p0 == *old(pos),
            p0 <= *pos <= toks@.len(),
        ensures
            p0 <= *pos <= toks@.len(),
            spec_stmts(t, p0) == Ok::<_, Seq<char>>((seq_view(stmts@), *pos as int)),
        decreases toks@.len() - *pos,
    {
        match parse_stmt(toks, pos) {
            Err(e) => {
                return Err(e);
            },
            Ok(None) => {
                assert(seq_view(stmts@) + Seq::<SpecStmt>::empty() =~= seq_view(stmts@));
                break ;
            },
            Ok(Some(st)) => {
                proof {
                    lemma_push_view(stmts@, st);
                    lemma_prepend_assoc(seq_view(stmts@), seq![st@], spec_stmts(t, *pos as int));
                }
                stmts.push(st);
            },
        }
    }
    Ok(stmts)
}

/// A procedure, or `None` at the end of the input.
fn parse_item<'a>(toks: &[Token<'a>], pos: &mut usize) -> (r: Result<
    Option<ItemNode<'a>>,
    ParseError,
>)
    requires
        *old(pos) <= toks@.len(),
    ensures
        *old(pos) <= *final(pos) <= toks@.len(),
        r matches Ok(Some(_)) ==> *old(pos) < *final(pos),
        match spec_item(token_values(toks@), *old(pos) as int) {
            Ok(None) => r matches Ok(None) && *final(pos) == *old(pos),
            Ok(Some((it, q))) => r matches Ok(Some(n)) && n@ == it && *final(pos) == q,
            Err(m) => r matches Err(e) && e.message() == m,
        },
{
    if *pos >= toks.len() {
        return Ok(None);
    }
    match toks[*pos].value() {
        TokenValue::PROC => {},
        _ => {
            return Err(ParseError { text: EXPECTED_PROC_OR_EOF });
        },
    }
    *pos = *pos + 1;
    let name = match expect_name(toks, pos) {
        Ok(n) => n,
        Err(e) => {
            return Err(e);
        },
    };
    match expect_bracket(toks, pos, &TokenValue::LPAR, EXPECTED_LPAR, EOF_EXPECTED_LPAR) {
        Ok(()) => {},
        Err(e) => {
            return Err(e);
        },
    }
    let args = match parse_procargs(toks, pos) {
        Ok(a) => a,
        Err(e) => {
            return Err(e);
        },
    };
    match expect_bracket(toks, pos, &TokenValue::LBR, EXPECTED_LBR, EOF_EXPECTED_LBR) {
        Ok(()) => {},
        Err(e) => {
            return Err(e);
        },
    }
    let code = match parse_stmts(toks, pos) {
        Ok(c) => c,
        Err(e) => {
            return Err(e);
        },
    };
    match expect_bracket(toks, pos, &TokenValue::RBR, EXPECTED_RBR, EOF_EXPECTED_RBR) {
        Ok(()) => {},
        Err(e) => {
            return Err(e);
        },
    }
    Ok(Some(ItemNode::Proc(ProcNode { name, args, code })))
}

/// The procedures from the position to the end of the input.
fn parse_code<'a>(toks: &[Token<'a>], pos: &mut usize) -> (r: Result<CodeNode<'a>, ParseError>)
    requires
        *old(pos) <= toks@.len(),
    ensures
        match spec_items(token_values(toks@), *old(pos) as int) {
            Ok(items) => r matches Ok(c) && c@ == items,
            Err(m) => r matches Err(e) && e.message() == m,
        },
{
    let ghost t = token_values(toks@);
    let ghost p0 = *pos as int;
    let mut items: Vec<ItemNode<'a>> = Vec::new();
    proof {
        lemma_empty_view::<ItemNode<'a>>();
        if let Ok(vs) = spec_items(t, p0) {
            assert(seq_view(items@) + vs =~= vs);
        }
    }
    loop
        invariant
            t == token_values(toks@),
            p0 == *old(pos),
            p0 <= *pos <= toks@.len(),
            spec_items(t, p0) == match spec_items(t, *pos as int) {
                Ok(rest) => Ok(seq_view(items@) + rest),
                Err(e) => Err(e),
            },
        decreases toks@.len() - *pos,
    {
        match parse_item(toks, pos) {
            Err(e) => {
                return Err(e);
            },
            Ok(None) => {
                assert(seq_view(items@) + Seq::<SpecProc>::empty() =~= seq_view(items@));
                return Ok(CodeNode { code: items });
            },
            Ok(Some(item)) => {
                proof {
                    lemma_push_view(items@, item);
                    if let Ok(rest) = spec_items(t, *pos as int) {
                        assert(seq_view(items@) + (seq![item@] + rest) =~= (seq_view(items@)
                            + seq![item@]) + rest);
                    }
                }
                items.push(item);
            },
        }
    }
}

/// Parses a whole token sequence into a program.
pub fn parse<'a>(toks: &[Token<'a>]) -> (r: Result<CodeNode<'a>, ParseError>)
    ensures
        match spec_parse(token_values(toks@)) {
            Ok(items) => r matches Ok(c) && c@ == items,
            Err(m) => r matches Err(e) && e.message() == m,
        },
{
    let mut pos: usize = 0;
    parse_code(toks, &mut pos)
}

} // verus!
