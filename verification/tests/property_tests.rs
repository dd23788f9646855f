use forth_tokenizer::lexer::{Error, ForthToken as LexToken, Lexer, SpaceCounter};
use forth_tokenizer::tokenizer::{split_at_token, ForthToken, ForthTokenizer};

fn collect_tokens(input: &str) -> Vec<ForthToken<'_>> {
    ForthTokenizer::new(input).into_iter().collect()
}

#[test]
fn test_lossless_coverage_scanner() {
    // Counted blanks and token texts together account for the whole input.
    let input = "one 2 { three }";
    let mut lexer = Lexer::new(input, SpaceCounter::new());
    let mut text_total = 0;
    let mut reconstructed: Vec<String> = Vec::new();
    loop {
        match lexer.yylex() {
            Ok(LexToken::End) => break,
            Ok(LexToken::ForthWord(w)) => {
                text_total += w.chars().count();
                reconstructed.push(w);
            }
            Ok(LexToken::Comment(w)) => {
                text_total += w.chars().count();
                reconstructed.push(w);
            }
            other => panic!("unexpected token {:?}", other),
        }
    }
    let blanks = lexer.get_space_counter().count();
    assert_eq!(text_total + blanks, input.chars().count());
    assert_eq!(reconstructed, vec!["one", "2", "{ three }"]);
}

#[test]
fn test_maximal_munch() {
    // Both the numeric prefix "123" and the longer mixed text reach
    // accepting states; the longest match wins.
    let mut lexer = Lexer::new("123abc", SpaceCounter::new());
    assert_eq!(
        lexer.yylex(),
        Ok(LexToken::ForthWord(String::from("123abc")))
    );
    assert_eq!(lexer.yylex(), Ok(LexToken::End));
}

#[test]
fn test_comment_run_on_quirk() {
    // With no space before the backslash, the word merges with it instead
    // of opening a comment.
    let collected = collect_tokens("2\\ comment text\n");
    assert_eq!(
        &collected,
        &vec![
            ForthToken::Command("2\\"),
            ForthToken::Command("comment"),
            ForthToken::Command("text"),
        ]
    );
}

#[test]
fn test_remark_delimiter_loss() {
    // The leading parenthesis is kept; the closing one is consumed as the
    // delimiter and lost.
    let collected = collect_tokens("( remark text )");
    assert_eq!(
        &collected,
        &vec![ForthToken::ParenthesizedRemark("( remark text ")]
    );
}

#[test]
fn test_whitespace_only_input() {
    let mut it = ForthTokenizer::new("   \t\n  ").into_iter();
    assert_eq!(it.next(), None);

    let mut lexer = Lexer::new("   \t\n  ", SpaceCounter::new());
    assert_eq!(lexer.yylex(), Ok(LexToken::End));
    assert_eq!(lexer.get_space_counter().count(), 7);
}

#[test]
fn test_concatenation_round_trip() {
    // Tokenizing a concatenation of two boundary-compatible inputs yields
    // the concatenation of their token streams.
    let a = "1 ( x )\n";
    let b = "word 2";
    let joined = format!("{}{}", a, b);
    let mut expected = collect_tokens(a);
    expected.extend(collect_tokens(b));
    assert_eq!(collect_tokens(&joined), expected);
}

#[test]
fn test_unterminated_remark() {
    // An unterminated remark consumes everything to the end of the input.
    assert_eq!(split_at_token("( unterminated", ')'), ("( unterminated", ""));
    let mut it = ForthTokenizer::new("( unterminated").into_iter();
    assert_eq!(
        it.next(),
        Some(ForthToken::ParenthesizedRemark("( unterminated"))
    );
    assert_eq!(it.next(), None);
}

#[test]
fn test_end_of_input_idempotence() {
    let mut lexer = Lexer::new("word", SpaceCounter::new());
    assert_eq!(lexer.yylex(), Ok(LexToken::ForthWord(String::from("word"))));
    assert_eq!(lexer.yylex(), Ok(LexToken::End));
    assert!(lexer.is_eof());
    assert_eq!(lexer.yylex(), Ok(LexToken::End));
    assert_eq!(lexer.yylex(), Ok(LexToken::End));
    assert!(lexer.is_eof());
}

#[test]
fn test_number_boundaries() {
    let collected = collect_tokens("9223372036854775807 -9223372036854775808 +5 007");
    assert_eq!(
        &collected,
        &vec![
            ForthToken::Number(9223372036854775807),
            ForthToken::Number(-9223372036854775808),
            ForthToken::Number(5),
            ForthToken::Number(7),
        ]
    );
}

#[test]
fn test_number_overflow_is_a_command() {
    // A numeral whose value does not fit in an i64 is not a number; it
    // falls back to an ordinary word.
    let collected = collect_tokens("9223372036854775808 -9223372036854775809 1_0 12a -");
    assert_eq!(
        &collected,
        &vec![
            ForthToken::Command("9223372036854775808"),
            ForthToken::Command("-9223372036854775809"),
            ForthToken::Command("1_0"),
            ForthToken::Command("12a"),
            ForthToken::Command("-"),
        ]
    );
}

#[test]
fn test_unmatched_does_not_advance_past_error() {
    let mut lexer = Lexer::new("(", SpaceCounter::new());
    assert_eq!(lexer.yylex(), Err(Error::Unmatch));
    assert_eq!(lexer.remain(), 1);
}
