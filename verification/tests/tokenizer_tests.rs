use forth_tokenizer::tokenizer::{split_at_newline, ForthToken, ForthTokenizer};

fn collect_tokens(input: &str) -> Vec<ForthToken<'_>> {
    ForthTokenizer::new(input).into_iter().collect()
}

#[test]
fn test_split_at_newline_1() {
    assert_eq!(split_at_newline(""), ("", ""));
}

#[test]
fn test_split_at_newline_2() {
    assert_eq!(split_at_newline("abc"), ("abc", ""));
}

#[test]
fn test_split_at_newline_3() {
    assert_eq!(split_at_newline("abc\r\ndef"), ("abc", "def"));
}

#[test]
fn test_split_at_newline_4() {
    assert_eq!(split_at_newline("abc\ndef"), ("abc", "def"));
    assert_eq!(split_at_newline(""), ("", ""));
}

#[test]
fn test_split_at_newline_5() {
    assert_eq!(
        split_at_newline("abc\r\ndef\r\nghi\r\njkl"),
        ("abc", "def\r\nghi\r\njkl")
    );
}

#[test]
fn test_split_at_newline_6() {
    assert_eq!(
        split_at_newline("abc\ndef\nghi\njkl"),
        ("abc", "def\nghi\njkl")
    );
    assert_eq!(split_at_newline(""), ("", ""));
}

#[test]
fn test_number_1() {
    let collected = collect_tokens("1 these 2 are 3 words 4");
    assert_eq!(
        &collected,
        &vec![
            ForthToken::Number(1),
            ForthToken::Command("these"),
            ForthToken::Number(2),
            ForthToken::Command("are"),
            ForthToken::Number(3),
            ForthToken::Command("words"),
            ForthToken::Number(4),
        ]
    );
}

#[test]
fn test_command_1() {
    let collected = collect_tokens("these are #words 1 with 2 numbers");
    assert_eq!(
        &collected,
        &vec![
            ForthToken::Command("these"),
            ForthToken::Command("are"),
            ForthToken::Command("#words"),
            ForthToken::Number(1),
            ForthToken::Command("with"),
            ForthToken::Number(2),
            ForthToken::Command("numbers"),
        ]
    );
}

#[test]
fn test_colon_1() {
    let collected = collect_tokens("word : wordname 1 2 3 ; definition");
    assert_eq!(
        &collected,
        &vec![
            ForthToken::Command("word"),
            ForthToken::Colon,
            ForthToken::Command("wordname"),
            ForthToken::Number(1),
            ForthToken::Number(2),
            ForthToken::Number(3),
            ForthToken::SemiColon,
            ForthToken::Command("definition"),
        ]
    );
}

#[test]
fn test_semicolon_1() {
    let collected = collect_tokens("word : wordname 1 $whatever 3 ; definition");
    assert_eq!(
        &collected,
        &vec![
            ForthToken::Command("word"),
            ForthToken::Colon,
            ForthToken::Command("wordname"),
            ForthToken::Number(1),
            ForthToken::Command("$whatever"),
            ForthToken::Number(3),
            ForthToken::SemiColon,
            ForthToken::Command("definition"),
        ]
    );
}

#[test]
fn test_stringcommand_1() {
    let collected = collect_tokens("1 2 \" This is a string\" 3 4");
    assert_eq!(
        &collected,
        &vec![
            ForthToken::Number(1),
            ForthToken::Number(2),
            ForthToken::StringCommand("\"", "This is a string"),
            ForthToken::Number(3),
            ForthToken::Number(4),
        ]
    );
}

#[test]
fn test_stringcommand_2() {
    let collected = collect_tokens("1 2 .s\" This is a string\" 3 4");
    assert_eq!(
        &collected,
        &vec![
            ForthToken::Number(1),
            ForthToken::Number(2),
            ForthToken::StringCommand(".s\"", "This is a string"),
            ForthToken::Number(3),
            ForthToken::Number(4),
        ]
    );
}

#[test]
fn test_droplinecomment_1() {
    // Without the space after the 2, this comes out totally differently
    // than a comment.
    let collected = collect_tokens("1 2\\ This is a dropline comment\n\r1 3\r\n4");
    assert_eq!(
        &collected,
        &vec![
            ForthToken::Number(1),
            ForthToken::Command("2\\"),
            ForthToken::Command("This"),
            ForthToken::Command("is"),
            ForthToken::Command("a"),
            ForthToken::Command("dropline"),
            ForthToken::Command("comment"),
            ForthToken::Number(1),
            ForthToken::Number(3),
            ForthToken::Number(4),
        ]
    );
}

#[test]
fn test_droplinecomment_2() {
    let collected = collect_tokens("1 2 \\ This is a dropline comment\n\r1 3\r\n4");
    assert_eq!(
        &collected,
        &vec![
            ForthToken::Number(1),
            ForthToken::Number(2),
            ForthToken::DropLineComment("\\ This is a dropline comment"),
            ForthToken::Number(1),
            ForthToken::Number(3),
            ForthToken::Number(4),
        ]
    );
}

#[test]
fn test_parenthesized_remark_1() {
    // The trailing ) is lost because it is consumed as the delimiter.
    let collected = collect_tokens(
        "1 2 \\ This is a dropline comment ( This is not a parenthesized remark )\n\r1 ( This is in fact a parenthesized remark )3\r\n4",
    );
    assert_eq!(
        &collected,
        &vec![
            ForthToken::Number(1),
            ForthToken::Number(2),
            ForthToken::DropLineComment(
                "\\ This is a dropline comment ( This is not a parenthesized remark )"
            ),
            ForthToken::Number(1),
            ForthToken::ParenthesizedRemark("( This is in fact a parenthesized remark "),
            ForthToken::Number(3),
            ForthToken::Number(4),
        ]
    );
}

#[test]
fn test_bug_1() {
    let collected = collect_tokens("1 1 1\n2 2 2\n3 3 3");
    assert_eq!(
        &collected,
        &vec![
            ForthToken::Number(1),
            ForthToken::Number(1),
            ForthToken::Number(1),
            ForthToken::Number(2),
            ForthToken::Number(2),
            ForthToken::Number(2),
            ForthToken::Number(3),
            ForthToken::Number(3),
            ForthToken::Number(3),
        ]
    );
}
