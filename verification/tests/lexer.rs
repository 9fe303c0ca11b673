use rvcc::lexer::{lex, literals_fit, token_debug_string, opt_token_debug_string, Token};

#[test]
fn lex_test() {
    let input = "3 + (12 - 8)/12*9-21 + 4* 3 -a21a0+p";
    let input2 = "a = 3A+10-0==0; return a;";
    let expected = vec![
        Token::Num(3),
        Token::Plus,
        Token::ParL,
        Token::Num(12),
        Token::Minus,
        Token::Num(8),
        Token::ParR,
        Token::Div,
        Token::Num(12),
        Token::Mult,
        Token::Num(9),
        Token::Minus,
        Token::Num(21),
        Token::Plus,
        Token::Num(4),
        Token::Mult,
        Token::Num(3),
        Token::Minus,
        Token::Id(String::from("a21a0")),
        Token::Plus,
        Token::Id(String::from("p")),
    ];
    let expected2 = vec![
        Token::Id(String::from("a")),
        Token::Assign,
        Token::Num(3),
        Token::Id(String::from("A")),
        Token::Plus,
        Token::Num(10),
        Token::Minus,
        Token::Num(0),
        Token::Eq,
        Token::Num(0),
        Token::Semi,
        Token::Return,
        Token::Id(String::from("a")),
        Token::Semi,
    ];
    assert_eq!(lex(input), Ok(expected));
    assert_eq!(lex(input2), Ok(expected2));
}

#[test]
fn lexes_comparisons_and_structure_tokens() {
    assert_eq!(
        lex("if(a>=b){x<y;}else while(c!=d&e>f) for (;a<=b,c;)"),
        Ok(vec![
            Token::If,
            Token::ParL,
            Token::Id(String::from("a")),
            Token::Geq,
            Token::Id(String::from("b")),
            Token::ParR,
            Token::BraceL,
            Token::Id(String::from("x")),
            Token::Lt,
            Token::Id(String::from("y")),
            Token::Semi,
            Token::BraceR,
            Token::Else,
            Token::While,
            Token::ParL,
            Token::Id(String::from("c")),
            Token::Neq,
            Token::Id(String::from("d")),
            Token::Amp,
            Token::Id(String::from("e")),
            Token::Gt,
            Token::Id(String::from("f")),
            Token::ParR,
            Token::For,
            Token::ParL,
            Token::Semi,
            Token::Id(String::from("a")),
            Token::Leq,
            Token::Id(String::from("b")),
            Token::Comma,
            Token::Id(String::from("c")),
            Token::Semi,
            Token::ParR,
        ])
    );
}

#[test]
fn keywords_are_whole_words() {
    assert_eq!(
        lex("returnx iff return"),
        Ok(vec![
            Token::Id(String::from("returnx")),
            Token::Id(String::from("iff")),
            Token::Return,
        ])
    );
}

#[test]
fn empty_and_blank_input_give_no_tokens() {
    assert_eq!(lex(""), Ok(vec![]));
    assert_eq!(lex(" \t\n "), Ok(vec![]));
}

#[test]
fn invalid_characters_are_reported_with_their_byte_position() {
    assert_eq!(lex("1 @ 2"), Err(String::from("Invalid Character at 2")));
    assert_eq!(lex("a ! b"), Err(String::from("Invalid Character at 2")));
    assert_eq!(lex("0123456789 !"), Err(String::from("Invalid Character at 11")));
}

#[test]
fn literals_up_to_u64_max_fit() {
    assert!(literals_fit("18446744073709551615"));
    assert_eq!(lex("18446744073709551615"), Ok(vec![Token::Num(u64::MAX)]));
    assert!(!literals_fit("18446744073709551616"));
    assert!(!literals_fit("x = 99999999999999999999;"));
    assert!(literals_fit("007"));
    assert_eq!(lex("007"), Ok(vec![Token::Num(7)]));
}

#[test]
fn literal_check_stops_at_the_first_invalid_character() {
    assert!(literals_fit("1 @ 99999999999999999999"));
    assert_eq!(lex("1 @ 99999999999999999999"), Err(String::from("Invalid Character at 2")));
}

#[test]
fn token_debug_text_matches_derived_debug() {
    let tokens = [
        Token::Num(42),
        Token::Id(String::from("abc9")),
        Token::Plus,
        Token::Leq,
        Token::BraceR,
        Token::Amp,
        Token::Return,
    ];
    for token in tokens.iter() {
        assert_eq!(token_debug_string(token), format!("{:?}", token));
    }
    assert_eq!(token_debug_string(&Token::Id(String::from("x"))), "Id(\"x\")");
    assert_eq!(opt_token_debug_string(Some(&Token::Semi)), "Some(Semi)");
    assert_eq!(opt_token_debug_string(None), "None");
}
