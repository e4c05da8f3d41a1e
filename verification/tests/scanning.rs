use lexer::lexer::Lexer;
use lexer::types::LexError;
use lexer::types::Token;

fn scan_all(src: &[u8]) -> (Vec<Result<Token, LexError>>, u32) {
    let mut lx = Lexer::new();
    let mut pos: usize = 0;
    let mut out = Vec::new();
    loop {
        let r = lx.scan(src, &mut pos);
        let done = matches!(r, Ok(Token::EOS)) || r.is_err();
        out.push(r);
        if done {
            break;
        }
    }
    let line = lx.line();
    (out, line)
}

#[test]
fn comment() {
    let mut lx = Lexer::new();
    let mut pos: usize = 0;
    let token = lx.scan(b"// comment\n", &mut pos).unwrap();
    match token {
        Token::COMMENT => assert_eq!(2, 2),
        _ => panic!("{token:?}"),
    }
}

#[test]
fn integer() {
    let mut lx = Lexer::new();
    let mut pos: usize = 0;
    let token = lx.scan(b"23456", &mut pos).unwrap();
    match token {
        Token::INT(x) => assert_eq!(x, 23456),
        _ => panic!("Did not parse the integer correctly"),
    }
    assert_eq!(2, 2);
}

#[test]
fn float() {
    let mut lx = Lexer::new();
    let mut pos: usize = 0;
    let token = lx.scan(b"3389.34", &mut pos).unwrap();
    match token {
        Token::FLOAT { whole, frac } => {
            // the weighting the token denotes: whole + sum of digit * 10^p,
            // p starting at -1 and decreasing once per fractional byte
            let mut num = whole as f32;
            let mut pow: i32 = -1;
            for b in frac {
                if b.is_ascii_digit() {
                    num += ((b - b'0') as f32) * f32::powi(10.0, pow);
                }
                pow -= 1;
            }
            assert_eq!(num.to_string(), "3389.34".to_string());
        }
        _ => panic!("Did not parse the float correctly"),
    }
    assert_eq!(2, 2);
}

#[test]
fn var() {
    let mut lx = Lexer::new();
    let mut pos: usize = 0;
    let token = lx.scan(b"fgujnmk", &mut pos).unwrap();
    match token {
        Token::VAR(x) => assert_eq!(x, b"fgujnmk".to_vec()),
        _ => panic!("Did not parse the word correctly"),
    }
    assert_eq!(2, 2);
}

#[test]
fn symbol() {
    let mut lx = Lexer::new();
    let mut pos: usize = 0;
    let token = lx.scan(b">>=\n", &mut pos).unwrap();
    match token {
        Token::SYMBOL(x) => assert_eq!(x, b">>=".to_vec()),
        _ => panic!("{token:?}"),
    }
    assert_eq!(2, 2);
}

#[test]
fn true_test() {
    let mut lx = Lexer::new();
    let mut pos: usize = 0;
    let token = lx.scan(b"true\n", &mut pos).unwrap();
    match token {
        Token::TRUE => assert_eq!(2, 2),
        _ => panic!("{token:?}"),
    }
}

#[test]
fn false_is_reserved() {
    let mut lx = Lexer::new();
    let mut pos: usize = 0;
    assert_eq!(lx.scan(b"false ", &mut pos).unwrap(), Token::FALSE);
}

#[test]
fn reserved_word_extension() {
    let mut lx = Lexer::new();
    lx.reserve(Token::TRUE, b"yes".to_vec());
    let mut pos: usize = 0;
    assert_eq!(lx.scan(b"yes", &mut pos).unwrap(), Token::TRUE);
}

#[test]
fn reserved_word_override() {
    let mut lx = Lexer::new();
    lx.reserve(Token::FALSE, b"true".to_vec());
    let mut pos: usize = 0;
    assert_eq!(lx.scan(b"true", &mut pos).unwrap(), Token::FALSE);
}

#[test]
fn identifier_with_reserved_prefix() {
    let mut lx = Lexer::new();
    let mut pos: usize = 0;
    assert_eq!(
        lx.scan(b"trueish", &mut pos).unwrap(),
        Token::VAR(b"trueish".to_vec())
    );
}

#[test]
fn digit_separator_skipped() {
    let mut lx = Lexer::new();
    let mut pos: usize = 0;
    assert_eq!(lx.scan(b"1_000", &mut pos).unwrap(), Token::INT(1000));
    assert_eq!(pos, 5);
}

#[test]
fn integer_at_width_limit() {
    let mut lx = Lexer::new();
    let mut pos: usize = 0;
    assert_eq!(
        lx.scan(b"2147483647", &mut pos).unwrap(),
        Token::INT(2147483647)
    );
}

#[test]
fn integer_too_large() {
    let mut lx = Lexer::new();
    let mut pos: usize = 0;
    assert_eq!(
        lx.scan(b"2147483648", &mut pos),
        Err(LexError::NumberTooLarge)
    );
    // the whole run is still consumed
    assert_eq!(pos, 10);
}

#[test]
fn float_with_empty_fraction() {
    let mut lx = Lexer::new();
    let mut pos: usize = 0;
    assert_eq!(
        lx.scan(b"12.", &mut pos).unwrap(),
        Token::FLOAT { whole: 12, frac: Vec::new() }
    );
    assert_eq!(pos, 3);
}

#[test]
fn float_fraction_kept_verbatim() {
    // a separator inside the fraction still occupies a weight slot, so the
    // token keeps the raw bytes for the consumer to weigh
    let mut lx = Lexer::new();
    let mut pos: usize = 0;
    assert_eq!(
        lx.scan(b"1.2_5", &mut pos).unwrap(),
        Token::FLOAT { whole: 1, frac: b"2_5".to_vec() }
    );
}

#[test]
fn symbol_run_ends_at_input_end() {
    let mut lx = Lexer::new();
    let mut pos: usize = 0;
    assert_eq!(lx.scan(b"/", &mut pos).unwrap(), Token::SYMBOL(b"/".to_vec()));
}

#[test]
fn symbol_escape_excludes_backslashes() {
    let mut lx = Lexer::new();
    let mut pos: usize = 0;
    let src: &[u8] = b">>\\\\<<";
    assert_eq!(lx.scan(src, &mut pos).unwrap(), Token::SYMBOL(b">>".to_vec()));
    // the first backslash is consumed, the second is the next unread byte
    assert_eq!(pos, 3);
    assert_eq!(
        lx.scan(src, &mut pos).unwrap(),
        Token::SYMBOL(b"\\<<".to_vec())
    );
}

#[test]
fn line_comment_consumes_newline() {
    let mut lx = Lexer::new();
    let mut pos: usize = 0;
    let src: &[u8] = b"// note\n8";
    assert_eq!(lx.scan(src, &mut pos).unwrap(), Token::COMMENT);
    assert_eq!(pos, 8);
    assert_eq!(lx.scan(src, &mut pos).unwrap(), Token::INT(8));
    // the newline closing the comment is not a skipped-whitespace newline
    assert_eq!(lx.line(), 1);
}

#[test]
fn block_comment() {
    let mut lx = Lexer::new();
    let mut pos: usize = 0;
    let src: &[u8] = b"/* one\ntwo */ 9";
    assert_eq!(lx.scan(src, &mut pos).unwrap(), Token::COMMENT);
    assert_eq!(lx.scan(src, &mut pos).unwrap(), Token::INT(9));
}

#[test]
fn block_comment_reusing_opening_star() {
    let mut lx = Lexer::new();
    let mut pos: usize = 0;
    let src: &[u8] = b"/*/ 5";
    assert_eq!(lx.scan(src, &mut pos).unwrap(), Token::COMMENT);
    assert_eq!(pos, 3);
    assert_eq!(lx.scan(src, &mut pos).unwrap(), Token::INT(5));
}

#[test]
fn unterminated_block_comment() {
    let mut lx = Lexer::new();
    let mut pos: usize = 0;
    assert_eq!(
        lx.scan(b"/* oops", &mut pos),
        Err(LexError::UnterminatedComment)
    );
}

#[test]
fn unrecognized_byte() {
    let mut lx = Lexer::new();
    let mut pos: usize = 0;
    let src: &[u8] = b";x";
    assert_eq!(lx.scan(src, &mut pos).unwrap(), Token::UNID(b';'));
    assert_eq!(pos, 1);
    assert_eq!(
        lx.scan(src, &mut pos).unwrap(),
        Token::VAR(b"x".to_vec())
    );
}

#[test]
fn empty_input_is_end_of_stream() {
    let mut lx = Lexer::new();
    let mut pos: usize = 0;
    assert_eq!(lx.scan(b"", &mut pos).unwrap(), Token::EOS);
    assert_eq!(lx.line(), 1);
}

#[test]
fn newlines_increment_line_counter() {
    let mut lx = Lexer::new();
    let mut pos: usize = 0;
    let src: &[u8] = b"\n\n 7";
    assert_eq!(lx.line(), 1);
    assert_eq!(lx.scan(src, &mut pos).unwrap(), Token::INT(7));
    assert_eq!(lx.line(), 3);
}

#[test]
fn whitespace_fully_skipped() {
    let mut lx = Lexer::new();
    let mut pos: usize = 0;
    let src: &[u8] = b" \r\n  42 ";
    assert_eq!(lx.scan(src, &mut pos).unwrap(), Token::INT(42));
    assert_eq!(pos, 7);
    assert_eq!(lx.scan(src, &mut pos).unwrap(), Token::EOS);
    assert_eq!(pos, 8);
}

#[test]
fn token_stream() {
    let (tokens, line) = scan_all(b"x = 3.5 // done\ntrue");
    assert_eq!(
        tokens,
        vec![
            Ok(Token::VAR(b"x".to_vec())),
            Ok(Token::SYMBOL(b"=".to_vec())),
            Ok(Token::FLOAT { whole: 3, frac: b"5".to_vec() }),
            Ok(Token::COMMENT),
            Ok(Token::TRUE),
            Ok(Token::EOS),
        ]
    );
    assert_eq!(line, 1);
}
