use forth_tokenizer::lexer::{Error, ForthToken, Lexer, SpaceCounter};

#[test]
fn test_space_counter() {
    let mut counter = SpaceCounter::new();
    assert_eq!(counter.count(), 0);
    counter.increment_space();
    counter.increment_space();
    assert_eq!(counter.count(), 2);
}

#[test]
fn test_lexer_words_and_blanks() {
    let mut lexer = Lexer::new("word one", SpaceCounter::new());
    assert_eq!(lexer.yylex(), Ok(ForthToken::ForthWord(String::from("word"))));
    assert_eq!(lexer.yylex(), Ok(ForthToken::ForthWord(String::from("one"))));
    assert_eq!(lexer.yylex(), Ok(ForthToken::End));
    assert_eq!(lexer.get_space_counter().count(), 1);
}

#[test]
fn test_lexer_colon_semicolon() {
    let mut lexer = Lexer::new(": def ;", SpaceCounter::new());
    assert_eq!(lexer.yylex(), Ok(ForthToken::Colon));
    assert_eq!(lexer.yylex(), Ok(ForthToken::ForthWord(String::from("def"))));
    assert_eq!(lexer.yylex(), Ok(ForthToken::SemiColon));
    assert_eq!(lexer.yylex(), Ok(ForthToken::End));
}

#[test]
fn test_lexer_numbers_are_words() {
    // The scanner's vocabulary has no separate number token: digits form
    // word matches.
    let mut lexer = Lexer::new("42 -7", SpaceCounter::new());
    assert_eq!(lexer.yylex(), Ok(ForthToken::ForthWord(String::from("42"))));
    assert_eq!(lexer.yylex(), Ok(ForthToken::ForthWord(String::from("-7"))));
    assert_eq!(lexer.yylex(), Ok(ForthToken::End));
}

#[test]
fn test_lexer_brace_remark() {
    let mut lexer = Lexer::new("{x}", SpaceCounter::new());
    assert_eq!(lexer.yylex(), Ok(ForthToken::Comment(String::from("{x}"))));
    assert_eq!(lexer.yylex(), Ok(ForthToken::End));
}

#[test]
fn test_lexer_local_definition() {
    let mut lexer = Lexer::new("((", SpaceCounter::new());
    assert_eq!(
        lexer.yylex(),
        Ok(ForthToken::DeleteMeLocalDef(String::from("((")))
    );
    assert_eq!(lexer.yylex(), Ok(ForthToken::End));
}

#[test]
fn test_lexer_unmatched() {
    let mut lexer = Lexer::new("(", SpaceCounter::new());
    assert_eq!(lexer.yylex(), Err(Error::Unmatch));
}

#[test]
fn test_lexer_cursor_queries() {
    let mut lexer = Lexer::new("word rest", SpaceCounter::new());
    assert!(!lexer.is_eof());
    assert_eq!(lexer.yystate(), 0);
    assert_eq!(lexer.remain(), 9);
    assert_eq!(lexer.yylex(), Ok(ForthToken::ForthWord(String::from("word"))));
    assert_eq!(lexer.yylength(), 4);
    assert_eq!(lexer.yytext(), String::from("word"));
    assert_eq!(lexer.yycharat(0), Some('w'));
    assert_eq!(lexer.yycharat(3), Some('d'));
    assert_eq!(lexer.remain(), 5);
}

#[test]
fn test_lexer_pushback() {
    let mut lexer = Lexer::new("word", SpaceCounter::new());
    assert_eq!(lexer.yylex(), Ok(ForthToken::ForthWord(String::from("word"))));
    lexer.yypushback(2);
    assert_eq!(lexer.yylength(), 2);
    assert_eq!(lexer.yytext(), String::from("wo"));
    assert_eq!(lexer.yylex(), Ok(ForthToken::ForthWord(String::from("rd"))));
    assert_eq!(lexer.yylex(), Ok(ForthToken::End));
}

#[test]
fn test_lexer_yybegin_keeps_cursor() {
    let mut lexer = Lexer::new("a b", SpaceCounter::new());
    assert_eq!(lexer.yylex(), Ok(ForthToken::ForthWord(String::from("a"))));
    lexer.yybegin(1);
    assert_eq!(lexer.yystate(), 1);
    assert_eq!(lexer.yylex(), Ok(ForthToken::ForthWord(String::from("b"))));
    assert_eq!(lexer.yylex(), Ok(ForthToken::End));
}
