use proclang::lexer::tokenize;
use proclang::parser::{parse, CodeNode, ItemNode, StmtNode, ValueNode};

fn parse_str(source: &str) -> Result<CodeNode<'_>, String> {
    let tokens = tokenize(source).expect("lexes");
    parse(&tokens).map_err(|e| e.text().to_string())
}

fn error_of(source: &str) -> String {
    parse_str(source).err().expect("parse error")
}

#[test]
fn empty_program() {
    assert!(parse_str("").unwrap().code.is_empty());
}

#[test]
fn procedure_with_all_statements() {
    let code = parse_str(
        "proc p (in out a 4, out b 8, c 2) { var t 4 label top op set t a op ifz t -> top, end label end }",
    )
    .unwrap();
    assert_eq!(code.code.len(), 1);
    let ItemNode::Proc(p) = &code.code[0];
    assert_eq!(p.name, "p");
    assert_eq!(code.code[0].get_name(), "p");
    assert_eq!(p.args.len(), 3);
    assert!(p.args[0].in_ && p.args[0].out);
    assert!(!p.args[1].in_ && p.args[1].out);
    assert!(!p.args[2].in_ && !p.args[2].out);
    assert_eq!(p.args[1].name, "b");
    assert_eq!(p.args[1].argtype.size, 8);
    assert_eq!(p.code.len(), 5);
    match &p.code[0] {
        StmtNode::Var(v) => {
            assert_eq!(v.name, "t");
            assert_eq!(v.vartype.size, 4);
        }
        _ => panic!("expected var"),
    }
    match &p.code[1] {
        StmtNode::Label(l) => assert_eq!(l.name, "top"),
        _ => panic!("expected label"),
    }
    match &p.code[2] {
        StmtNode::Op(o) => {
            assert_eq!(o.name, "set");
            assert_eq!(o.args.len(), 2);
            assert!(o.targets.is_empty());
        }
        _ => panic!("expected op"),
    }
    match &p.code[3] {
        StmtNode::Op(o) => {
            assert_eq!(o.name, "ifz");
            assert!(matches!(o.args[0], ValueNode::Name("t")));
            assert_eq!(o.targets.len(), 2);
            assert_eq!(o.targets[0].name, "top");
            assert_eq!(o.targets[1].name, "end");
        }
        _ => panic!("expected op"),
    }
}

#[test]
fn integer_arguments() {
    let code = parse_str("proc p (a 4) { op set a 7 }").unwrap();
    let ItemNode::Proc(p) = &code.code[0];
    match &p.code[0] {
        StmtNode::Op(o) => assert!(matches!(o.args[1], ValueNode::Int(7))),
        _ => panic!("expected op"),
    }
}

#[test]
fn several_procedures() {
    let code = parse_str("proc a (x 4) { } proc b (y 4) { op a y }").unwrap();
    assert_eq!(code.code.len(), 2);
    assert_eq!(code.code[1].get_name(), "b");
}

#[test]
fn item_errors() {
    assert_eq!(error_of("x"), "parse error: expected PROC or EOF");
    assert_eq!(error_of("proc"), "parse error: at EOF, expected NAME");
    assert_eq!(error_of("proc 4"), "parse error: expected NAME");
    assert_eq!(error_of("proc p"), "parse error: at EOF, expected LPAR");
    assert_eq!(error_of("proc p {"), "parse error: expected LPAR");
}

#[test]
fn argument_errors() {
    assert_eq!(error_of("proc p ("), "parse error: at EOF, expected IN, OUT, or NAME");
    assert_eq!(error_of("proc p ()"), "parse error: expected IN, OUT, or NAME");
    assert_eq!(error_of("proc p (a"), "parse error: at EOF, expected INT");
    assert_eq!(error_of("proc p (a x)"), "parse error: expected INT");
    assert_eq!(error_of("proc p (a 4"), "parse error: at EOF, expected COMMA or RPAR");
    assert_eq!(error_of("proc p (a 4 }"), "parse error: expected COMMA or RPAR");
    assert_eq!(error_of("proc p (a 4,)"), "parse error: expected IN, OUT, or NAME");
}

#[test]
fn body_errors() {
    assert_eq!(error_of("proc p (a 4)"), "parse error: at EOF, expected LBR");
    assert_eq!(error_of("proc p (a 4) }"), "parse error: expected LBR");
    assert_eq!(error_of("proc p (a 4) {"), "parse error: at EOF, expected LABEL, OP, VAR, or RBR");
    assert_eq!(error_of("proc p (a 4) { x }"), "parse error: at EOF, expected LABEL, OP, VAR, or RBR");
    assert_eq!(error_of("proc p (a 4) { label 4 }"), "parse error: expected NAME");
    assert_eq!(error_of("proc p (a 4) { var t }"), "parse error: expected INT");
    assert_eq!(error_of("proc p (a 4) { op"), "parse error: at EOF, expected NAME");
    assert_eq!(error_of("proc p (a 4) { op set a"), "parse error: at EOF, expected NAME or INT");
    assert_eq!(error_of("proc p (a 4) { op set a -> 4 }"), "parse error: expected NAME");
    assert_eq!(error_of("proc p (a 4) { op set a ->"), "parse error: at EOF, expected NAME");
    assert_eq!(error_of("proc p (a 4) { op set a -> l,"), "parse error: at EOF, expected NAME");
}
