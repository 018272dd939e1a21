use yash_syntax::lex::CharSet;
use yash_syntax::lex::ErrorCause;
use yash_syntax::lex::Lexer;
use yash_syntax::lex::Operator;
use yash_syntax::lex::SyntaxError;
use yash_syntax::lex::TokenId;
use yash_syntax::source::Source;
use yash_syntax::syntax::BackquoteUnit;
use yash_syntax::syntax::Keyword;
use yash_syntax::syntax::Text;
use yash_syntax::syntax::TextUnit;
use yash_syntax::syntax::WordUnit;

fn tokens(code: &str) -> Vec<(TokenId, Option<String>)> {
    let mut lexer = Lexer::with_source(Source::Unknown, code);
    let mut result = Vec::new();
    loop {
        lexer.skip_blanks();
        let t = lexer.token().unwrap();
        if t.id == TokenId::EndOfInput {
            return result;
        }
        result.push((t.id, t.word.to_string_if_literal()));
    }
}

#[test]
fn empty_input_gives_end_of_input_at_column_one() {
    let mut lexer = Lexer::with_source(Source::Unknown, "");
    let t = lexer.token().unwrap();
    assert_eq!(t.id, TokenId::EndOfInput);
    assert!(t.word.units.is_empty());
    assert_eq!(t.word.location.column(), 1);
    assert_eq!(t.word.location.line_number(), 1);
}

#[test]
fn line_continuations_are_invisible() {
    assert_eq!(tokens("ec\\\nho a\\\nb"), tokens("echo ab"));
    assert_eq!(tokens("<\\\n<\\\n- x"), tokens("<<- x"));
    assert_eq!(tokens("a &\\\n& b"), tokens("a && b"));
    assert_eq!(tokens("\\\n\\\n"), vec![]);
}

#[test]
fn line_continuation_inside_single_quotes_is_kept() {
    let mut lexer = Lexer::with_source(Source::Unknown, "'a\\\nb'");
    let unit = lexer.word_unit(&CharSet::TokenDelimiters).unwrap().unwrap();
    assert_eq!(unit, WordUnit::SingleQuote("a\\\nb".to_string()));
}

#[test]
fn io_number_only_right_before_redirection() {
    assert_eq!(tokens("12<")[0].0, TokenId::IoNumber);
    assert_eq!(tokens("0>>x")[0].0, TokenId::IoNumber);
    assert_eq!(tokens("12 <")[0].0, TokenId::Token(None));
    assert_eq!(tokens("1a<")[0].0, TokenId::Token(None));
    assert_eq!(tokens("12")[0].0, TokenId::Token(None));
    assert_eq!(tokens("'1'<")[0].0, TokenId::Token(None));
}

#[test]
fn reserved_words_and_operators() {
    let t = tokens("if ! x; then y;; fi >| z");
    assert_eq!(t[0].0, TokenId::Token(Some(Keyword::If)));
    assert_eq!(t[1].0, TokenId::Token(Some(Keyword::Bang)));
    assert_eq!(t[2].0, TokenId::Token(None));
    assert_eq!(t[3].0, TokenId::Operator(Operator::Semicolon));
    assert_eq!(t[4].0, TokenId::Token(Some(Keyword::Then)));
    assert_eq!(t[6].0, TokenId::Operator(Operator::SemicolonSemicolon));
    assert_eq!(t[7].0, TokenId::Token(Some(Keyword::Fi)));
    assert_eq!(t[8].0, TokenId::Operator(Operator::GreaterBar));
    assert_eq!(t[8].1.as_deref(), Some(">|"));
}

#[test]
fn token_location_covers_its_source_text() {
    let code = "echo 'a b'>x";
    let mut lexer = Lexer::with_source(Source::Unknown, code);
    lexer.token().unwrap();
    lexer.skip_blanks();
    let t = lexer.token().unwrap();
    let range = t.word.location.range.clone();
    let text: String = t.word.location.code.value.chars().skip(range.start).take(range.end - range.start).collect();
    assert_eq!(text, "'a b'");
    assert_eq!(t.index, 5);
}

#[test]
fn command_substitution_body_relexes_to_its_words() {
    let mut lexer = Lexer::with_source(Source::Unknown, "$( foo bar )");
    let unit = lexer.dollar_unit().unwrap().unwrap();
    let content = match unit {
        TextUnit::CommandSubst { content, .. } => content,
        other => panic!("unexpected unit {:?}", other),
    };
    let t = tokens(&content);
    assert_eq!(t.len(), 2);
    assert_eq!(t[0].1.as_deref(), Some("foo"));
    assert_eq!(t[1].1.as_deref(), Some("bar"));
}

#[test]
fn nested_command_substitution_keeps_parentheses() {
    let mut lexer = Lexer::with_source(Source::Unknown, "$(a (b) c)d");
    let unit = lexer.dollar_unit().unwrap().unwrap();
    match unit {
        TextUnit::CommandSubst { content, .. } => assert_eq!(content, "a (b) c"),
        other => panic!("unexpected unit {:?}", other),
    }
    assert_eq!(lexer.peek_char().unwrap().value, 'd');
}

#[test]
fn arithmetic_expansion_content() {
    let mut lexer = Lexer::with_source(Source::Unknown, "$((1+2))");
    let unit = lexer.dollar_unit().unwrap().unwrap();
    match unit {
        TextUnit::Arith { content, location } => {
            assert_eq!(
                content,
                Text(vec![TextUnit::Literal('1'), TextUnit::Literal('+'), TextUnit::Literal('2')])
            );
            assert_eq!(location.column(), 1);
        }
        other => panic!("unexpected unit {:?}", other),
    }
    assert_eq!(lexer.peek_char(), None);
}

#[test]
fn backquote_in_double_quote_context() {
    let mut lexer = Lexer::with_source(Source::Unknown, "`\\\"\\\\`");
    let double_quote_escapable = CharSet::Chars("$`\"\\".to_string());
    let unit = lexer.text_unit(&CharSet::Nothing, &double_quote_escapable).unwrap().unwrap();
    match unit {
        TextUnit::Backquote { content, .. } => {
            assert_eq!(content, [BackquoteUnit::Backslashed('"'), BackquoteUnit::Backslashed('\\')])
        }
        other => panic!("unexpected unit {:?}", other),
    }
}

#[test]
fn backquote_inside_double_quotes() {
    let mut lexer = Lexer::with_source(Source::Unknown, "\"`\\\"\\\\`\"");
    let unit = lexer.word_unit(&CharSet::TokenDelimiters).unwrap().unwrap();
    match unit {
        WordUnit::DoubleQuote(Text(units)) => {
            assert_eq!(units.len(), 1);
            match &units[0] {
                TextUnit::Backquote { content, .. } => assert_eq!(
                    content,
                    &[BackquoteUnit::Backslashed('"'), BackquoteUnit::Backslashed('\\')]
                ),
                other => panic!("unexpected unit {:?}", other),
            }
        }
        other => panic!("unexpected unit {:?}", other),
    }
}

#[test]
fn backslash_does_not_escape_closing_single_quote() {
    let mut lexer = Lexer::with_source(Source::Unknown, "'abc\ndef\\");
    let e = lexer.word_unit(&CharSet::TokenDelimiters).unwrap_err();
    assert!(matches!(e.cause, ErrorCause::Syntax(SyntaxError::UnclosedSingleQuote { .. })));

    let mut lexer = Lexer::with_source(Source::Unknown, "'abc\\ndef\\'x");
    let unit = lexer.word_unit(&CharSet::TokenDelimiters).unwrap().unwrap();
    assert_eq!(unit, WordUnit::SingleQuote("abc\\ndef\\".to_string()));
    assert_eq!(lexer.peek_char().unwrap().value, 'x');
}

#[test]
fn unclosed_constructs_report_end_of_input() {
    for code in ["\"abc", "`abc", "$(abc", "$((1", "'abc"] {
        let mut lexer = Lexer::with_source(Source::Unknown, code);
        let e = lexer.token().unwrap_err();
        assert_eq!(e.location.range.start, code.chars().count(), "{}", code);
    }
}

#[test]
fn tilde_prefix_stops_at_quote() {
    let mut lexer = Lexer::with_source(Source::Unknown, "~a'b'/c");
    let t = lexer.token().unwrap();
    assert_eq!(t.word.units[0], WordUnit::Unquoted(TextUnit::Literal('~')));

    let mut lexer = Lexer::with_source(Source::Unknown, "~/c");
    let t = lexer.token().unwrap();
    assert_eq!(t.word.units[0], WordUnit::Tilde(String::new()));
    assert_eq!(t.word.units[1], WordUnit::Unquoted(TextUnit::Literal('/')));
}

#[test]
fn comments_in_command_substitution() {
    let mut lexer = Lexer::with_source(Source::Unknown, "$(a # )\n)");
    let unit = lexer.dollar_unit().unwrap().unwrap();
    match unit {
        TextUnit::CommandSubst { content, .. } => assert_eq!(content, "a # )\n"),
        other => panic!("unexpected unit {:?}", other),
    }
}

#[test]
fn chunked_input_gives_the_same_tokens() {
    let whole = "echo 'a\nb' $(x)\\\n y <<E\nbody\nE\n";
    let lines: Vec<String> = vec![
        "echo 'a\n".to_string(),
        "b' $(x)\\\n".to_string(),
        " y <<E\n".to_string(),
        "body\n".to_string(),
        "E\n".to_string(),
    ];
    let mut a = Lexer::with_source(Source::Unknown, whole);
    let mut b = Lexer::from_lines(Source::Unknown, &lines);
    loop {
        a.skip_blanks();
        b.skip_blanks();
        let ta = a.token().unwrap();
        let tb = b.token().unwrap();
        assert_eq!(ta, tb);
        if ta.id == TokenId::EndOfInput {
            break;
        }
    }
}

#[test]
fn tilde_after_every_colon() {
    let mut lexer = Lexer::with_source(Source::Unknown, "~a:~/b:x~");
    let mut word = lexer.word(&CharSet::TokenDelimiters).unwrap();
    word.parse_tilde_everywhere();
    assert_eq!(
        word.units,
        [
            WordUnit::Tilde("a".to_string()),
            WordUnit::Unquoted(TextUnit::Literal(':')),
            WordUnit::Tilde(String::new()),
            WordUnit::Unquoted(TextUnit::Literal('/')),
            WordUnit::Unquoted(TextUnit::Literal('b')),
            WordUnit::Unquoted(TextUnit::Literal(':')),
            WordUnit::Unquoted(TextUnit::Literal('x')),
            WordUnit::Unquoted(TextUnit::Literal('~')),
        ]
    );
}

#[test]
fn line_continuation_after_dollar_is_invisible() {
    let mut lexer = Lexer::with_source(Source::Unknown, "$\\\n(x)");
    match lexer.dollar_unit().unwrap().unwrap() {
        TextUnit::CommandSubst { content, location } => {
            assert_eq!(content, "x");
            assert_eq!(location.column(), 1);
        }
        other => panic!("unexpected unit {:?}", other),
    }
    let mut lexer = Lexer::with_source(Source::Unknown, "$\\\n(\\\n(1))");
    match lexer.dollar_unit().unwrap().unwrap() {
        TextUnit::Arith { content, .. } => assert_eq!(content, Text(vec![TextUnit::Literal('1')])),
        other => panic!("unexpected unit {:?}", other),
    }
    let mut lexer = Lexer::with_source(Source::Unknown, "$\\\nx");
    assert_eq!(lexer.dollar_unit().unwrap(), None);
    assert_eq!(lexer.index(), 0);
}
