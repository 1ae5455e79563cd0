use proclang::compile::{compile, try_compile, Arg, Builtin, Callable, Compiled, OpName};
use proclang::lexer::tokenize;
use proclang::parser::parse;
use proclang::symbols::SymbolMap;

fn compile_str(source: &str) -> Option<Result<(Compiled, SymbolMap<'_>), String>> {
    let tokens = tokenize(source).expect("lexes");
    let tree = parse(&tokens).expect("parses");
    try_compile(&tree).map(|r| r.map_err(|e| e.text.to_string()))
}

fn compiled(source: &str) -> (Compiled, SymbolMap<'_>) {
    compile_str(source).expect("no unknown op").expect("compiles")
}

fn error_of(source: &str) -> String {
    compile_str(source).expect("no unknown op").err().expect("compile error")
}

#[test]
fn names_map_to_indices() {
    let (c, symbols) = compiled("proc a (x 4) { } proc b (y 4) { op a y }");
    assert_eq!(c.callables.len(), 2);
    assert_eq!(symbols.get("a"), Some(0));
    assert_eq!(symbols.get("b"), Some(1));
    assert_eq!(symbols.get("c"), None);
}

#[test]
fn every_procedure_ends_with_ret() {
    let (c, _) = compiled("proc a (x 4) { } proc b (y 4) { op a y op set y 3 }");
    for Callable::Proc(p) in &c.callables {
        let last = p.code.last().unwrap();
        assert!(matches!(last.name, OpName::Builtin(Builtin::RET)));
        assert!(last.args.is_empty() && last.targets.is_empty());
    }
    let Callable::Proc(b) = &c.callables[1];
    assert_eq!(b.code.len(), 3);
    assert!(matches!(b.code[0].name, OpName::UserDef(0)));
    assert!(matches!(b.code[1].name, OpName::Builtin(Builtin::SET)));
    assert!(matches!(b.code[1].args[1], Arg::Int(3)));
}

#[test]
fn operations_without_targets_continue_at_the_next() {
    let (c, _) = compiled("proc p (x 4) { op set x 1 op set x 2 }");
    let Callable::Proc(p) = &c.callables[0];
    assert_eq!(p.code[0].targets.len(), 1);
    assert_eq!(p.code[0].targets[0].target, 1);
    assert!(p.code[0].targets[0].vars.is_empty());
    assert_eq!(p.code[1].targets[0].target, 2);
}

#[test]
fn labels_name_the_next_operation() {
    let (c, _) = compiled(
        "proc p (x 4) { label start var t 4 op ifz x -> done, start var u 4 op set t x label done }",
    );
    let Callable::Proc(p) = &c.callables[0];
    assert_eq!(p.code.len(), 3);
    assert_eq!(p.code[0].targets[0].target, 2);
    assert_eq!(p.code[0].targets[1].target, 0);
    assert_eq!(p.code[1].targets[0].target, 2);
}

#[test]
fn variables_are_numbered_in_order_and_rebinding_shadows() {
    let (c, _) = compiled("proc p (a 4, b 8) { var t 2 op set t a var t 4 op set t b }");
    let Callable::Proc(p) = &c.callables[0];
    assert_eq!(p.argcount, 2);
    let sizes: Vec<i32> = p.vars.iter().map(|v| v.vartype.size).collect();
    assert_eq!(sizes, vec![4, 8, 2, 4]);
    assert!(matches!(p.code[0].args[0], Arg::Var(2)));
    assert!(matches!(p.code[0].args[1], Arg::Var(0)));
    assert!(matches!(p.code[1].args[0], Arg::Var(3)));
    assert!(matches!(p.code[1].args[1], Arg::Var(1)));
}

#[test]
fn duplicate_procedure_names_are_rejected() {
    assert_eq!(error_of("proc a (x 4) { } proc a (y 4) { }"), "duplicate proc name :(((");
}

#[test]
fn duplicate_labels_are_rejected() {
    assert_eq!(error_of("proc p (x 4) { label l op set x 1 label l }"), "duplicate label name :(((");
}

#[test]
fn unknown_variables_and_labels_are_rejected() {
    assert_eq!(error_of("proc p (x 4) { op set x y }"), "reference to nonexistent variable");
    assert_eq!(error_of("proc p (x 4) { op set t x var t 4 }"), "reference to nonexistent variable");
    assert_eq!(error_of("proc p (x 4) { op set x 1 -> nowhere }"), "reference to nonexistent label");
}

#[test]
fn unknown_operations_stop_compiling() {
    assert!(compile_str("proc p (x 4) { op frobnicate x }").is_none());
    // an error that comes first is reported
    assert_eq!(
        error_of("proc p (x 4) { op set x y op frobnicate x }"),
        "reference to nonexistent variable"
    );
}

#[test]
fn compile_agrees_with_try_compile() {
    let source = "proc a (x 4) { op set x 5 }";
    let tokens = tokenize(source).unwrap();
    let tree = parse(&tokens).unwrap();
    let (c, _) = compile(&tree).expect("compiles");
    assert_eq!(c.callables.len(), 1);
}
