use assembunny_plus::parser::{
    evaluate_val, index_of, is_literal, line_valid, regname_valid, to_tokens, tokenize_line,
    worth_execution, CompileError, ResolveError, Token, TokenType, ValidationError,
};

#[test]
fn tokenize_splits_on_whitespace_runs() {
    assert_eq!(tokenize_line("def a 5"), vec!["def", "a", "5"]);
    assert_eq!(tokenize_line("  inc \t x  "), vec!["inc", "x"]);
    assert_eq!(tokenize_line(""), Vec::<&str>::new());
    assert_eq!(tokenize_line("   \t  "), Vec::<&str>::new());
    assert_eq!(tokenize_line("one"), vec!["one"]);
}

#[test]
fn regname_accepts_legal_names() {
    assert!(regname_valid("a").is_ok());
    assert!(regname_valid("counter_2").is_ok());
    assert!(regname_valid("_x").is_ok());
    assert!(regname_valid("Zz_9").is_ok());
}

#[test]
fn regname_rejects_illegal_names() {
    assert_eq!(regname_valid("9lives"), Err(ResolveError::InvalidRegisterName));
    assert_eq!(regname_valid("__gen"), Err(ResolveError::InvalidRegisterName));
    assert_eq!(regname_valid("a-b"), Err(ResolveError::InvalidRegisterName));
    assert_eq!(regname_valid("caf\u{e9}"), Err(ResolveError::InvalidRegisterName));
    assert_eq!(regname_valid(""), Err(ResolveError::InvalidRegisterName));
}

#[test]
fn literals_parse_as_32_bit_integers() {
    assert_eq!(is_literal("42"), Ok(42));
    assert_eq!(is_literal("-41"), Ok(-41));
    assert_eq!(is_literal("+7"), Ok(7));
    assert_eq!(is_literal("0"), Ok(0));
    assert_eq!(is_literal("2147483647"), Ok(2147483647));
    assert_eq!(is_literal("-2147483648"), Ok(-2147483648));
    assert_eq!(is_literal("2147483648"), Err(()));
    assert_eq!(is_literal("-2147483649"), Err(()));
    assert_eq!(is_literal("99999999999999999999"), Err(()));
    assert_eq!(is_literal("abc"), Err(()));
    assert_eq!(is_literal("1.5"), Err(()));
    assert_eq!(is_literal(""), Err(()));
    assert_eq!(is_literal("-"), Err(()));
    assert_eq!(is_literal("+"), Err(()));
}

#[test]
fn validation_passes_blank_and_comment_lines() {
    assert!(line_valid(&tokenize_line("")).is_ok());
    assert!(line_valid(&tokenize_line("# a comment")).is_ok());
    assert!(line_valid(&tokenize_line("; note")).is_ok());
    assert!(line_valid(&tokenize_line("/ slash")).is_ok());
}

#[test]
fn validation_checks_keyword_arity_and_kinds() {
    assert!(line_valid(&tokenize_line("def a 5")).is_ok());
    assert!(line_valid(&tokenize_line("DEF a 5")).is_ok());
    assert_eq!(
        line_valid(&tokenize_line("frobnicate a")),
        Err(ValidationError::UnknownKeyword)
    );
    assert_eq!(
        line_valid(&tokenize_line("inc a b")),
        Err(ValidationError::ArityMismatch)
    );
    assert_eq!(line_valid(&tokenize_line("def")), Err(ValidationError::ArityMismatch));
    // A register-only position fed a literal.
    assert_eq!(
        line_valid(&tokenize_line("inc 5")),
        Err(ValidationError::ParameterKindMismatch)
    );
    // A literal-only position fed a register name.
    assert_eq!(
        line_valid(&tokenize_line("jnz a b")),
        Err(ValidationError::ParameterKindMismatch)
    );
    assert!(line_valid(&tokenize_line("jnz a -2")).is_ok());
    assert!(line_valid(&tokenize_line("cpy 4 dest")).is_ok());
    assert!(line_valid(&tokenize_line("out 42")).is_ok());
}

#[test]
fn worth_execution_rejects_blank_and_comment_lines() {
    assert!(worth_execution(&tokenize_line("inc a")).is_ok());
    assert!(worth_execution(&tokenize_line("")).is_err());
    for line in ["# x", "/ x", ": x", "; x", "\" x", "' x"] {
        assert!(worth_execution(&tokenize_line(line)).is_err(), "line {:?}", line);
    }
}

#[test]
fn evaluate_val_reads_literals_and_registers() {
    let names = vec![String::from("t5"), String::from("mny")];
    let store = vec![42, -3];
    assert_eq!(evaluate_val("mny", &names, &store), Ok(-3));
    assert_eq!(evaluate_val("t5", &names, &store), Ok(42));
    assert_eq!(evaluate_val("-41", &names, &store), Ok(-41));
    assert_eq!(
        evaluate_val("nope", &names, &store),
        Err(ResolveError::UnknownRegister)
    );
    assert_eq!(
        evaluate_val("9bad", &names, &store),
        Err(ResolveError::InvalidRegisterName)
    );
}

#[test]
fn to_tokens_resolves_a_def_line() {
    let mut regs: Vec<String> = Vec::new();
    let toks = to_tokens("def a 5", &mut regs).unwrap().unwrap();
    assert_eq!(regs, vec![String::from("a")]);
    assert_eq!(toks.len(), 3);
    assert_eq!(toks[0], Token { type_: TokenType::KEYWORD, val: 0 });
    assert_eq!(toks[1], Token { type_: TokenType::REGISTER, val: 0 });
    assert_eq!(toks[2], Token { type_: TokenType::LITERAL, val: 5 });
}

#[test]
fn to_tokens_assigns_indices_in_declaration_order() {
    let mut regs: Vec<String> = Vec::new();
    to_tokens("def a 0", &mut regs).unwrap();
    to_tokens("def b 0", &mut regs).unwrap();
    let toks = to_tokens("inct b a", &mut regs).unwrap().unwrap();
    assert_eq!(regs, vec![String::from("a"), String::from("b")]);
    assert_eq!(toks[0], Token { type_: TokenType::KEYWORD, val: 2 });
    assert_eq!(toks[1], Token { type_: TokenType::REGISTER, val: 1 });
    assert_eq!(toks[2], Token { type_: TokenType::REGISTER, val: 0 });
}

#[test]
fn to_tokens_skips_comments_and_blank_lines() {
    let mut regs: Vec<String> = Vec::new();
    assert!(to_tokens("# def a 5", &mut regs).unwrap().is_none());
    assert!(to_tokens("", &mut regs).unwrap().is_none());
    assert!(regs.is_empty());
}

#[test]
fn to_tokens_rejects_bad_lines() {
    let mut regs: Vec<String> = Vec::new();
    assert_eq!(
        to_tokens("def a 5 6", &mut regs),
        Err(CompileError::Validation(ValidationError::ArityMismatch))
    );
    assert_eq!(
        to_tokens("def __x 0", &mut regs),
        Err(CompileError::Resolve(ResolveError::InvalidRegisterName))
    );
    to_tokens("def a 0", &mut regs).unwrap();
    assert_eq!(
        to_tokens("def a 1", &mut regs),
        Err(CompileError::Resolve(ResolveError::DuplicateRegister))
    );
    assert_eq!(
        to_tokens("inc ghost_reg", &mut regs),
        Err(CompileError::Resolve(ResolveError::UnknownRegister))
    );
    // The register table is untouched by the failures above.
    assert_eq!(regs, vec![String::from("a")]);
}

#[test]
fn to_tokens_lets_a_def_line_reference_its_own_register() {
    let mut regs: Vec<String> = Vec::new();
    let toks = to_tokens("def a a", &mut regs).unwrap().unwrap();
    assert_eq!(toks[2], Token { type_: TokenType::REGISTER, val: 0 });
}

#[test]
fn index_of_finds_the_first_match() {
    let xs = [3u32, 1, 4, 1, 5];
    assert_eq!(index_of(&xs, &1), Some(1));
    assert_eq!(index_of(&xs, &5), Some(4));
    assert_eq!(index_of(&xs, &9), None);
}

#[test]
fn token_new_carries_type_and_value() {
    let t = Token::new(TokenType::LITERAL, -7);
    assert_eq!(t, Token { type_: TokenType::LITERAL, val: -7 });
}
