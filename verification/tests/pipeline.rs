use proclang::compile::compile;
use proclang::lexer::tokenize;
use proclang::parser::parse;
use proclang::run::{execute, RunError, Value};

const SWAP_AND_CSWAP: &str = "
proc swap (in out a 4, in out b 4) {
    var temp 4
    op set temp a
    op set a b
    op set b temp
}
proc cswap (in out a 4, in out b 4, in c 4) {
    op ifz c -> l1, l2
    label l1
    op swap a b
    label l2
}
";

fn int_of(v: &Value) -> i32 {
    let b = v.get();
    i32::from_le_bytes([b[0], b[1], b[2], b[3]])
}

#[test]
fn swap_exchanges_its_arguments() {
    let tokens = tokenize(SWAP_AND_CSWAP).expect("lexes");
    let tree = parse(&tokens).expect("parses");
    let (compiled, symbols) = compile(&tree).expect("compiles");
    let swap = symbols.get("swap").unwrap();
    let mut args = vec![Value::new_i32(15), Value::new_i32(1)];
    assert!(execute(&compiled, swap, &mut args, 1000).is_ok());
    assert_eq!(int_of(&args[0]), 1);
    assert_eq!(int_of(&args[1]), 15);
}

#[test]
fn cswap_swaps_when_the_condition_is_zero() {
    let tokens = tokenize(SWAP_AND_CSWAP).expect("lexes");
    let tree = parse(&tokens).expect("parses");
    let (compiled, symbols) = compile(&tree).expect("compiles");
    let cswap = symbols.get("cswap").unwrap();

    let mut args = vec![Value::new_i32(15), Value::new_i32(1), Value::new_i32(1)];
    assert!(execute(&compiled, cswap, &mut args, 1000).is_ok());
    assert_eq!(int_of(&args[0]), 15);
    assert_eq!(int_of(&args[1]), 1);

    let mut args = vec![Value::new_i32(15), Value::new_i32(1), Value::new_i32(0)];
    assert!(execute(&compiled, cswap, &mut args, 1000).is_ok());
    assert_eq!(int_of(&args[0]), 1);
    assert_eq!(int_of(&args[1]), 15);
}

#[test]
fn execution_stops_when_fuel_runs_out() {
    let tokens = tokenize(SWAP_AND_CSWAP).expect("lexes");
    let tree = parse(&tokens).expect("parses");
    let (compiled, symbols) = compile(&tree).expect("compiles");
    let swap = symbols.get("swap").unwrap();
    let mut args = vec![Value::new_i32(15), Value::new_i32(1)];
    assert_eq!(execute(&compiled, swap, &mut args, 2).unwrap_err(), RunError::OutOfFuel);
}
