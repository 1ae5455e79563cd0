use proclang::lexer::{tokenize, Lexer, TokenValue};

fn values(source: &str) -> Vec<String> {
    tokenize(source)
        .expect("lexes")
        .iter()
        .map(|t| format!("{:?}", t.value))
        .collect()
}

#[test]
fn punctuation_and_arrow() {
    assert_eq!(
        values("( ) { } , & ->"),
        vec!["LPAR", "RPAR", "LBR", "RBR", "COMMA", "AMP", "ARROW"]
    );
}

#[test]
fn keywords_are_not_names() {
    assert_eq!(
        values("proc fn label op var in out"),
        vec!["PROC", "FN", "LABEL", "OP", "VAR", "IN", "OUT"]
    );
}

#[test]
fn words_that_start_with_a_keyword_are_names() {
    assert_eq!(
        values("procs ina out_ _x x1"),
        vec![
            "NAME(\"procs\")",
            "NAME(\"ina\")",
            "NAME(\"out_\")",
            "NAME(\"_x\")",
            "NAME(\"x1\")"
        ]
    );
}

#[test]
fn numbers_are_decimal_i32() {
    assert_eq!(values("0 42 2147483647"), vec!["INT(0)", "INT(42)", "INT(2147483647)"]);
}

#[test]
fn tokens_need_no_space_between_them() {
    assert_eq!(
        values("op ifz c->l1,l2"),
        vec!["OP", "NAME(\"ifz\")", "NAME(\"c\")", "ARROW", "NAME(\"l1\")", "COMMA", "NAME(\"l2\")"]
    );
    assert_eq!(values("12ab"), vec!["INT(12)", "NAME(\"ab\")"]);
}

#[test]
fn whitespace_only_gives_no_tokens() {
    assert!(tokenize("").unwrap().is_empty());
    assert!(tokenize(" \t\n\r\x0C").unwrap().is_empty());
}

#[test]
fn token_text_is_its_part_of_the_source() {
    let source = "  proc  swap(in a 4)";
    let tokens = tokenize(source).unwrap();
    let texts: Vec<&str> = tokens.iter().map(|t| t.text()).collect();
    assert_eq!(texts, vec!["proc", "swap", "(", "in", "a", "4", ")"]);
    for t in &tokens {
        assert_eq!(t.source(), source);
        if let TokenValue::NAME(n) = t.value {
            assert_eq!(n, t.text());
        }
    }
}

#[test]
fn unlexable_input_gives_none() {
    assert!(tokenize("proc $").is_none());
    assert!(tokenize("a - b").is_none());
    assert!(tokenize("a -").is_none());
    assert!(tokenize("2147483648").is_none());
    assert!(tokenize("99999999999999999999").is_none());
    assert!(tokenize("é").is_none());
}

#[test]
fn lexer_reads_one_token_at_a_time() {
    let mut lexer = Lexer::new(" var x 8 ");
    assert!(matches!(lexer.next().unwrap().value, TokenValue::VAR));
    assert!(matches!(lexer.next().unwrap().value, TokenValue::NAME("x")));
    assert!(matches!(lexer.next().unwrap().value, TokenValue::INT(8)));
    assert!(lexer.next().is_none());
    assert!(lexer.next().is_none());
}

#[test]
fn words_and_numbers_are_as_long_as_they_can_be() {
    assert_eq!(values("procedure"), vec!["NAME(\"procedure\")"]);
    assert_eq!(values("in_out"), vec!["NAME(\"in_out\")"]);
    assert_eq!(values("007 x"), vec!["INT(7)", "NAME(\"x\")"]);
    assert_eq!(values("op1"), vec!["NAME(\"op1\")"]);
}

#[test]
fn an_exhausted_lexer_stays_exhausted() {
    let mut lexer = Lexer::new("x   \n\t ");
    assert!(lexer.next().is_some());
    for _ in 0..3 {
        assert!(lexer.next().is_none());
    }
}

#[test]
fn successive_next_calls_give_what_tokenize_gives() {
    let source = "  proc f (in a 4, out b 12) {\n\tvar t 8 op set b a -> end label end }  ";
    let all = tokenize(source).expect("lexes");
    let mut lexer = Lexer::new(source);
    let mut seen = Vec::new();
    while let Some(t) = lexer.next() {
        seen.push(t);
    }
    assert_eq!(seen.len(), all.len());
    for (a, b) in seen.iter().zip(all.iter()) {
        assert_eq!(a.text(), b.text());
        assert_eq!(format!("{:?}", a.value), format!("{:?}", b.value));
    }
    let texts: Vec<&str> = seen.iter().map(|t| t.text()).collect();
    assert_eq!(texts.concat(), source.split_whitespace().collect::<String>());
    assert!(lexer.next().is_none());
}
