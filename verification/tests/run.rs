use proclang::compile::{try_compile, Arg, Builtin, Callable, Compiled, Op, OpName, Proc, Target, Type, Var};
use proclang::lexer::tokenize;
use proclang::parser::parse;
use proclang::run::{execute, try_execute, RunError, Value};

fn build(source: &str) -> (Compiled, Vec<(String, usize)>) {
    let tokens = tokenize(source).expect("lexes");
    let tree = parse(&tokens).expect("parses");
    let (c, symbols) = try_compile(&tree).expect("known ops").expect("compiles");
    let names = tree
        .code
        .iter()
        .map(|item| (item.get_name().to_string(), symbols.get(item.get_name()).unwrap()))
        .collect();
    (c, names)
}

fn index_of(names: &[(String, usize)], name: &str) -> usize {
    names.iter().find(|(n, _)| n == name).unwrap().1
}

fn int_of(v: &Value) -> i32 {
    let b = v.get();
    i32::from_le_bytes([b[0], b[1], b[2], b[3]])
}

#[test]
fn new_i32_is_little_endian() {
    assert_eq!(Value::new_i32(0x01020304).get(), &[4, 3, 2, 1]);
    assert_eq!(Value::new_i32(-1).get(), &[0xff, 0xff, 0xff, 0xff]);
    assert_eq!(Value::new_i32(0).get(), &[0, 0, 0, 0]);
    assert_eq!(Value::new_i32(i32::MIN).get(), &[0, 0, 0, 0x80]);
    assert_eq!(Value::new_i32(7).size(), 4);
}

#[test]
fn set_copies_a_value() {
    let (c, names) = build("proc copy (out a 4, in b 4) { op set a b }");
    let mut args = vec![Value::new_i32(0), Value::new_i32(99)];
    assert!(execute(&c, index_of(&names, "copy"), &mut args, 10).is_ok());
    assert_eq!(int_of(&args[0]), 99);
    assert_eq!(int_of(&args[1]), 99);
}

#[test]
fn set_from_an_integer() {
    let (c, names) = build("proc seven (out a 4) { op set a 7 }");
    let mut args = vec![Value::new_i32(0)];
    assert!(execute(&c, index_of(&names, "seven"), &mut args, 10).is_ok());
    assert_eq!(int_of(&args[0]), 7);
}

#[test]
fn callee_writes_reach_the_caller() {
    let (c, names) = build(
        "proc seven (out a 4) { op set a 7 } proc outer (out x 4) { var t 4 op seven t op set x t }",
    );
    let mut args = vec![Value::new_i32(0)];
    assert!(execute(&c, index_of(&names, "outer"), &mut args, 100).is_ok());
    assert_eq!(int_of(&args[0]), 7);
}

#[test]
fn fresh_variables_are_zero() {
    let (c, names) = build("proc z (out a 4) { var t 4 op set a t }");
    let mut args = vec![Value::new_i32(12345)];
    assert!(execute(&c, index_of(&names, "z"), &mut args, 10).is_ok());
    assert_eq!(int_of(&args[0]), 0);
}

#[test]
fn ifz_takes_the_first_target_on_zero() {
    let (c, names) = build(
        "proc pick (in c 4, out r 4) { op ifz c -> zero, other label zero op set r 1 -> end label other op set r 2 label end }",
    );
    let pick = index_of(&names, "pick");
    let mut args = vec![Value::new_i32(0), Value::new_i32(0)];
    assert!(execute(&c, pick, &mut args, 100).is_ok());
    assert_eq!(int_of(&args[1]), 1);
    let mut args = vec![Value::new_i32(5), Value::new_i32(0)];
    assert!(execute(&c, pick, &mut args, 100).is_ok());
    assert_eq!(int_of(&args[1]), 2);
}

#[test]
fn a_loop_runs_out_of_fuel() {
    let (c, names) = build("proc spin (x 4) { label top op ifz 0 -> top, top }");
    let mut args = vec![Value::new_i32(0)];
    assert_eq!(execute(&c, index_of(&names, "spin"), &mut args, 1000).unwrap_err(), RunError::OutOfFuel);
}

#[test]
fn more_fuel_gives_the_same_result() {
    let (c, names) = build("proc copy (out a 4, in b 4) { var t 4 op set t b op set a t }");
    let copy = index_of(&names, "copy");
    // three operations: two sets and the final return
    let mut short = vec![Value::new_i32(0), Value::new_i32(5)];
    assert_eq!(execute(&c, copy, &mut short, 2).unwrap_err(), RunError::OutOfFuel);
    for fuel in [3u64, 4, 100, u64::MAX] {
        let mut args = vec![Value::new_i32(0), Value::new_i32(5)];
        assert!(execute(&c, copy, &mut args, fuel).is_ok());
        assert_eq!(int_of(&args[0]), 5);
    }
}

#[test]
fn set_between_different_types_traps() {
    let (c, names) = build("proc bad (a 4) { var t 8 op set t a }");
    let mut args = vec![Value::new_i32(1)];
    assert_eq!(try_execute(&c, index_of(&names, "bad"), &mut args, 10).unwrap_err(), RunError::Trap);
}

#[test]
fn set_of_a_variable_to_itself_traps() {
    let (c, names) = build("proc same (a 4) { op set a a }");
    let mut args = vec![Value::new_i32(1)];
    assert_eq!(try_execute(&c, index_of(&names, "same"), &mut args, 10).unwrap_err(), RunError::Trap);
}

#[test]
fn wrong_argument_counts_trap() {
    let (c, names) = build("proc one (a 4) { } proc caller (x 4) { op one x x }");
    let mut args = vec![Value::new_i32(1)];
    assert_eq!(try_execute(&c, index_of(&names, "caller"), &mut args, 10).unwrap_err(), RunError::Trap);
    let (c, names) = build("proc s (a 4) { op set a }");
    let mut args = vec![Value::new_i32(1)];
    assert_eq!(try_execute(&c, index_of(&names, "s"), &mut args, 10).unwrap_err(), RunError::Trap);
    let (c, names) = build("proc s (a 4) { op ifz a }");
    let mut args = vec![Value::new_i32(1)];
    assert_eq!(try_execute(&c, index_of(&names, "s"), &mut args, 10).unwrap_err(), RunError::Trap);
}

#[test]
fn values_keep_their_types() {
    let (c, names) = build("proc swap (in out a 4, in out b 4) { var t 4 op set t a op set a b op set b t }");
    let swap = index_of(&names, "swap");
    let Callable::Proc(p) = &c.callables[swap];
    assert_eq!(p.argcount, 2);
    let mut args = vec![Value::new_i32(3), Value::new_i32(4)];
    assert!(execute(&c, swap, &mut args, 100).is_ok());
    assert_eq!(args.len(), 2);
    assert_eq!(args[0].size(), 4);
    assert_eq!(args[1].size(), 4);
}

#[test]
fn missing_procedures_and_wrong_top_level_calls_trap() {
    let (c, names) = build("proc one (a 4) { }");
    let one = index_of(&names, "one");
    let mut args = vec![Value::new_i32(1)];
    assert_eq!(try_execute(&c, 5, &mut args, 10).unwrap_err(), RunError::Trap);
    let mut two = vec![Value::new_i32(1), Value::new_i32(2)];
    assert_eq!(try_execute(&c, one, &mut two, 10).unwrap_err(), RunError::Trap);
    assert!(try_execute(&c, one, &mut args, 10).is_ok());
}

#[test]
fn a_jump_past_the_code_traps() {
    let jump = Op {
        name: OpName::Builtin(Builtin::IFZ),
        args: vec![Arg::Int(0)],
        targets: vec![Target { target: 7, vars: vec![] }, Target { target: 7, vars: vec![] }],
    };
    let c = Compiled { callables: vec![Callable::Proc(Proc { argcount: 0, vars: vec![], code: vec![jump] })] };
    let mut args: Vec<Value> = vec![];
    assert_eq!(try_execute(&c, 0, &mut args, 10).unwrap_err(), RunError::Trap);
}

#[test]
fn a_call_without_targets_continues_at_the_next_op() {
    let ret = || Op { name: OpName::Builtin(Builtin::RET), args: vec![], targets: vec![] };
    let seven = Proc {
        argcount: 1,
        vars: vec![Var { vartype: Type { size: 4 } }],
        code: vec![
            Op {
                name: OpName::Builtin(Builtin::SET),
                args: vec![Arg::Var(0), Arg::Int(7)],
                targets: vec![Target { target: 1, vars: vec![] }],
            },
            ret(),
        ],
    };
    let outer = Proc {
        argcount: 1,
        vars: vec![Var { vartype: Type { size: 4 } }],
        code: vec![Op { name: OpName::UserDef(0), args: vec![Arg::Var(0)], targets: vec![] }, ret()],
    };
    let c = Compiled { callables: vec![Callable::Proc(seven), Callable::Proc(outer)] };
    let mut args = vec![Value::new_i32(0)];
    assert!(execute(&c, 1, &mut args, 10).is_ok());
    assert_eq!(int_of(&args[0]), 7);
    // the call, the callee's two operations, then the caller's return
    let mut args = vec![Value::new_i32(0)];
    assert_eq!(try_execute(&c, 1, &mut args, 3).unwrap_err(), RunError::OutOfFuel);
    let mut args = vec![Value::new_i32(0)];
    assert!(try_execute(&c, 1, &mut args, 4).is_ok());
}
