use yash_syntax::lex::CharSet;
use yash_syntax::lex::ErrorCause;
use yash_syntax::lex::Lexer;
use yash_syntax::lex::SyntaxError;
use yash_syntax::lex::TokenId;
use yash_syntax::source::Location;
use yash_syntax::source::Source;
use yash_syntax::syntax::BackquoteUnit;
use yash_syntax::syntax::Text;
use yash_syntax::syntax::TextUnit;
use yash_syntax::syntax::TextUnit::Backquote;
use yash_syntax::syntax::TextUnit::Backslashed;
use yash_syntax::syntax::TextUnit::CommandSubst;
use yash_syntax::syntax::TextUnit::Literal;
use yash_syntax::syntax::WordUnit;
use yash_syntax::syntax::WordUnit::DoubleQuote;
use yash_syntax::syntax::WordUnit::SingleQuote;
use yash_syntax::syntax::WordUnit::Unquoted;

fn chars(s: &str) -> CharSet {
    CharSet::Chars(s.to_string())
}

#[test]
fn lexer_command_substitution_success() {
    let mut lexer = Lexer::with_source(Source::Unknown, "( foo bar )baz");
    let location = Location::dummy("X");

    let result = lexer.command_substitution(location)
        .unwrap()
        .unwrap();
    if let TextUnit::CommandSubst { location, content } = result {
        assert_eq!(location.line_value(), "X");
        assert_eq!(location.line_number(), 1);
        assert_eq!(location.code.source, Source::Unknown);
        assert_eq!(location.column(), 1);
        assert_eq!(content, " foo bar ");
    } else {
        panic!("unexpected result {:?}", result);
    }

    let next = lexer.location();
    assert_eq!(next.line_value(), "( foo bar )baz");
    assert_eq!(next.line_number(), 1);
    assert_eq!(next.code.source, Source::Unknown);
    assert_eq!(next.column(), 12);
}

#[test]
fn lexer_command_substitution_none() {
    let mut lexer = Lexer::with_source(Source::Unknown, " foo bar )baz");
    let location = Location::dummy("Y");

    let result = lexer.command_substitution(location).unwrap();
    assert_eq!(result, None);

    let next = lexer.location();
    assert_eq!(next.line_value(), " foo bar )baz");
    assert_eq!(next.line_number(), 1);
    assert_eq!(next.code.source, Source::Unknown);
    assert_eq!(next.column(), 1);
}

#[test]
fn lexer_command_substitution_unclosed() {
    let mut lexer = Lexer::with_source(Source::Unknown, "( foo bar baz");
    let location = Location::dummy("Z");

    let e = lexer.command_substitution(location).unwrap_err();
    if let ErrorCause::Syntax(SyntaxError::UnclosedCommandSubstitution { opening_location }) =
        e.cause
    {
        assert_eq!(opening_location.line_value(), "Z");
        assert_eq!(opening_location.line_number(), 1);
        assert_eq!(opening_location.code.source, Source::Unknown);
        assert_eq!(opening_location.column(), 1);
    } else {
        panic!("unexpected error cause {:?}", e);
    }
    assert_eq!(e.location.line_value(), "( foo bar baz");
    assert_eq!(e.location.line_number(), 1);
    assert_eq!(e.location.code.source, Source::Unknown);
    assert_eq!(e.location.column(), 14);
}

#[test]
fn lexer_arithmetic_expansion_empty() {
    let mut lexer = Lexer::with_source(Source::Unknown, "(());");
    let location = Location::dummy("X");

    let result = lexer.arithmetic_expansion(location)
        .unwrap()
        .unwrap();
    if let TextUnit::Arith { content, location } = result {
        assert_eq!(content.0, []);
        assert_eq!(location.line_value(), "X");
        assert_eq!(location.line_number(), 1);
        assert_eq!(location.code.source, Source::Unknown);
        assert_eq!(location.column(), 1);
    } else {
        panic!("Not an arithmetic expansion: {:?}", result);
    }

    assert_eq!(lexer.peek_char().unwrap().value, ';');
}

#[test]
fn lexer_arithmetic_expansion_none() {
    let mut lexer = Lexer::with_source(Source::Unknown, "( foo bar )baz");
    let location = Location::dummy("Y");

    let location = lexer.arithmetic_expansion(location)
        .unwrap()
        .unwrap_err();
    assert_eq!(location.line_value(), "Y");
    assert_eq!(location.line_number(), 1);
    assert_eq!(location.code.source, Source::Unknown);
    assert_eq!(location.column(), 1);

    assert_eq!(lexer.peek_char().unwrap().value, '(');
}

#[test]
fn lexer_arithmetic_expansion_line_continuations() {
    let mut lexer = Lexer::with_source(Source::Unknown, "(\\\n\\\n(\\\n)\\\n\\\n);");
    let location = Location::dummy("X");

    let result = lexer.arithmetic_expansion(location)
        .unwrap()
        .unwrap();
    if let TextUnit::Arith { content, location } = result {
        assert_eq!(content.0, []);
        assert_eq!(location.line_value(), "X");
        assert_eq!(location.line_number(), 1);
        assert_eq!(location.code.source, Source::Unknown);
        assert_eq!(location.column(), 1);
    } else {
        panic!("Not an arithmetic expansion: {:?}", result);
    }

    assert_eq!(lexer.peek_char().unwrap().value, ';');
}

#[test]
fn lexer_arithmetic_expansion_escapes() {
    let mut lexer = Lexer::with_source(Source::Unknown, r#"((\\\"\`\$));"#);
    let location = Location::dummy("X");

    let result = lexer.arithmetic_expansion(location)
        .unwrap()
        .unwrap();
    if let TextUnit::Arith { content, location } = result {
        assert_eq!(
            content.0,
            [
                Backslashed('\\'),
                Literal('\\'),
                Literal('"'),
                Backslashed('`'),
                Backslashed('$')
            ]
        );
        assert_eq!(location.line_value(), "X");
        assert_eq!(location.line_number(), 1);
        assert_eq!(location.code.source, Source::Unknown);
        assert_eq!(location.column(), 1);
    } else {
        panic!("Not an arithmetic expansion: {:?}", result);
    }

    assert_eq!(lexer.peek_char().unwrap().value, ';');
}

#[test]
fn lexer_arithmetic_expansion_unclosed_first() {
    let mut lexer = Lexer::with_source(Source::Unknown, "((1");
    let location = Location::dummy("Z");

    let e = lexer.arithmetic_expansion(location).unwrap_err();
    if let ErrorCause::Syntax(SyntaxError::UnclosedArith { opening_location }) = e.cause {
        assert_eq!(opening_location.line_value(), "Z");
        assert_eq!(opening_location.line_number(), 1);
        assert_eq!(opening_location.code.source, Source::Unknown);
        assert_eq!(opening_location.column(), 1);
    } else {
        panic!("unexpected error cause {:?}", e);
    }
    assert_eq!(e.location.line_value(), "((1");
    assert_eq!(e.location.line_number(), 1);
    assert_eq!(e.location.code.source, Source::Unknown);
    assert_eq!(e.location.column(), 4);
}

#[test]
fn lexer_arithmetic_expansion_unclosed_second() {
    let mut lexer = Lexer::with_source(Source::Unknown, "((1)");
    let location = Location::dummy("Z");

    let e = lexer.arithmetic_expansion(location).unwrap_err();
    if let ErrorCause::Syntax(SyntaxError::UnclosedArith { opening_location }) = e.cause {
        assert_eq!(opening_location.line_value(), "Z");
        assert_eq!(opening_location.line_number(), 1);
        assert_eq!(opening_location.code.source, Source::Unknown);
        assert_eq!(opening_location.column(), 1);
    } else {
        panic!("unexpected error cause {:?}", e);
    }
    assert_eq!(e.location.line_value(), "((1)");
    assert_eq!(e.location.line_number(), 1);
    assert_eq!(e.location.code.source, Source::Unknown);
    assert_eq!(e.location.column(), 5);
}

#[test]
fn lexer_arithmetic_expansion_unclosed_but_maybe_command_substitution() {
    let mut lexer = Lexer::with_source(Source::Unknown, "((1) ");
    let location = Location::dummy("Z");

    let location = lexer.arithmetic_expansion(location)
        .unwrap()
        .unwrap_err();
    assert_eq!(location.line_value(), "Z");
    assert_eq!(location.line_number(), 1);
    assert_eq!(location.code.source, Source::Unknown);
    assert_eq!(location.column(), 1);

    assert_eq!(lexer.index(), 0);
}

#[test]
fn lexer_dollar_unit_no_dollar() {
    let mut lexer = Lexer::with_source(Source::Unknown, "foo");
    let result = lexer.dollar_unit().unwrap();
    assert_eq!(result, None);

    let mut lexer = Lexer::with_source(Source::Unknown, "()");
    let result = lexer.dollar_unit().unwrap();
    assert_eq!(result, None);
    assert_eq!(lexer.peek_char().unwrap().value, '(');

    let mut lexer = Lexer::with_source(Source::Unknown, "");
    let result = lexer.dollar_unit().unwrap();
    assert_eq!(result, None);
}

#[test]
fn lexer_dollar_unit_dollar_followed_by_non_special() {
    let mut lexer = Lexer::with_source(Source::Unknown, "$;");
    let result = lexer.dollar_unit().unwrap();
    assert_eq!(result, None);
    assert_eq!(lexer.peek_char().unwrap().value, '$');

    let mut lexer = Lexer::with_source(Source::Unknown, "$&");
    let result = lexer.dollar_unit().unwrap();
    assert_eq!(result, None);
}

#[test]
fn lexer_dollar_unit_command_substitution() {
    let mut lexer = Lexer::with_source(Source::Unknown, "$()");
    let result = lexer.dollar_unit().unwrap().unwrap();
    if let TextUnit::CommandSubst { location, content } = result {
        assert_eq!(location.line_value(), "$()");
        assert_eq!(location.line_number(), 1);
        assert_eq!(location.code.source, Source::Unknown);
        assert_eq!(location.column(), 1);
        assert_eq!(content, "");
    } else {
        panic!("unexpected result {:?}", result);
    }
    assert_eq!(lexer.peek_char(), None);

    let mut lexer = Lexer::with_source(Source::Unknown, "$( foo bar )");
    let result = lexer.dollar_unit().unwrap().unwrap();
    if let TextUnit::CommandSubst { location, content } = result {
        assert_eq!(location.line_value(), "$( foo bar )");
        assert_eq!(location.line_number(), 1);
        assert_eq!(location.code.source, Source::Unknown);
        assert_eq!(location.column(), 1);
        assert_eq!(content, " foo bar ");
    } else {
        panic!("unexpected result {:?}", result);
    }
    assert_eq!(lexer.peek_char(), None);
}

#[test]
fn lexer_dollar_unit_arithmetic_expansion() {
    let mut lexer = Lexer::with_source(Source::Unknown, "$((1))");
    let result = lexer.dollar_unit().unwrap().unwrap();
    if let TextUnit::Arith { content, location } = result {
        assert_eq!(content, Text(vec![Literal('1')]));
        assert_eq!(location.line_value(), "$((1))");
        assert_eq!(location.line_number(), 1);
        assert_eq!(location.code.source, Source::Unknown);
        assert_eq!(location.column(), 1);
    } else {
        panic!("unexpected result {:?}", result);
    }
    assert_eq!(lexer.peek_char(), None);
}

#[test]
fn lexer_backquote_not_backquote() {
    let mut lexer = Lexer::with_source(Source::Unknown, "X");
    let result = lexer.backquote(false).unwrap();
    assert_eq!(result, None);
}

#[test]
fn lexer_backquote_empty() {
    let mut lexer = Lexer::with_source(Source::Unknown, "``");
    let result = lexer.backquote(false).unwrap().unwrap();
    if let TextUnit::Backquote { content, location } = result {
        assert_eq!(content, []);
        assert_eq!(location.column(), 1);
    } else {
        panic!("Not a backquote: {:?}", result);
    }

    assert_eq!(lexer.peek_char(), None);
}

#[test]
fn lexer_backquote_literals() {
    let mut lexer = Lexer::with_source(Source::Unknown, "`echo`");
    let result = lexer.backquote(false).unwrap().unwrap();
    if let TextUnit::Backquote { content, location } = result {
        assert_eq!(
            content,
            [
                BackquoteUnit::Literal('e'),
                BackquoteUnit::Literal('c'),
                BackquoteUnit::Literal('h'),
                BackquoteUnit::Literal('o')
            ]
        );
        assert_eq!(location.column(), 1);
    } else {
        panic!("Not a backquote: {:?}", result);
    }

    assert_eq!(lexer.peek_char(), None);
}

#[test]
fn lexer_backquote_with_escapes_double_quote_escapable() {
    let mut lexer = Lexer::with_source(Source::Unknown, r#"`a\a\$\`\\\"\'`"#);
    let result = lexer.backquote(true).unwrap().unwrap();
    if let TextUnit::Backquote { content, location } = result {
        assert_eq!(
            content,
            [
                BackquoteUnit::Literal('a'),
                BackquoteUnit::Literal('\\'),
                BackquoteUnit::Literal('a'),
                BackquoteUnit::Backslashed('$'),
                BackquoteUnit::Backslashed('`'),
                BackquoteUnit::Backslashed('\\'),
                BackquoteUnit::Backslashed('"'),
                BackquoteUnit::Literal('\\'),
                BackquoteUnit::Literal('\'')
            ]
        );
        assert_eq!(location.column(), 1);
    } else {
        panic!("Not a backquote: {:?}", result);
    }

    assert_eq!(lexer.peek_char(), None);
}

#[test]
fn lexer_backquote_with_escapes_double_quote_not_escapable() {
    let mut lexer = Lexer::with_source(Source::Unknown, r#"`a\a\$\`\\\"\'`"#);
    let result = lexer.backquote(false).unwrap().unwrap();
    if let TextUnit::Backquote { content, location } = result {
        assert_eq!(
            content,
            [
                BackquoteUnit::Literal('a'),
                BackquoteUnit::Literal('\\'),
                BackquoteUnit::Literal('a'),
                BackquoteUnit::Backslashed('$'),
                BackquoteUnit::Backslashed('`'),
                BackquoteUnit::Backslashed('\\'),
                BackquoteUnit::Literal('\\'),
                BackquoteUnit::Literal('"'),
                BackquoteUnit::Literal('\\'),
                BackquoteUnit::Literal('\'')
            ]
        );
        assert_eq!(location.column(), 1);
    } else {
        panic!("Not a backquote: {:?}", result);
    }

    assert_eq!(lexer.peek_char(), None);
}

#[test]
fn lexer_backquote_line_continuation() {
    let mut lexer = Lexer::with_source(Source::Unknown, "`\\\na\\\n\\\nb\\\n`");
    let result = lexer.backquote(false).unwrap().unwrap();
    if let TextUnit::Backquote { content, location } = result {
        assert_eq!(
            content,
            [BackquoteUnit::Literal('a'), BackquoteUnit::Literal('b')]
        );
        assert_eq!(location.column(), 1);
    } else {
        panic!("Not a backquote: {:?}", result);
    }

    assert_eq!(lexer.peek_char(), None);
}

#[test]
fn lexer_backquote_unclosed_empty() {
    let mut lexer = Lexer::with_source(Source::Unknown, "`");
    let e = lexer.backquote(false).unwrap_err();
    if let ErrorCause::Syntax(SyntaxError::UnclosedBackquote { opening_location }) = e.cause {
        assert_eq!(opening_location.line_value(), "`");
        assert_eq!(opening_location.line_number(), 1);
        assert_eq!(opening_location.code.source, Source::Unknown);
        assert_eq!(opening_location.column(), 1);
    } else {
        panic!("unexpected error cause {:?}", e);
    }
    assert_eq!(e.location.line_value(), "`");
    assert_eq!(e.location.line_number(), 1);
    assert_eq!(e.location.code.source, Source::Unknown);
    assert_eq!(e.location.column(), 2);
}

#[test]
fn lexer_backquote_unclosed_nonempty() {
    let mut lexer = Lexer::with_source(Source::Unknown, "`foo");
    let e = lexer.backquote(false).unwrap_err();
    if let ErrorCause::Syntax(SyntaxError::UnclosedBackquote { opening_location }) = e.cause {
        assert_eq!(opening_location.line_value(), "`foo");
        assert_eq!(opening_location.line_number(), 1);
        assert_eq!(opening_location.code.source, Source::Unknown);
        assert_eq!(opening_location.column(), 1);
    } else {
        panic!("unexpected error cause {:?}", e);
    }
    assert_eq!(e.location.line_value(), "`foo");
    assert_eq!(e.location.line_number(), 1);
    assert_eq!(e.location.code.source, Source::Unknown);
    assert_eq!(e.location.column(), 5);
}

#[test]
fn lexer_text_unit_literal_accepted() {
    let mut lexer = Lexer::with_source(Source::Unknown, "X");
    let result = lexer.text_unit(&CharSet::Nothing, &CharSet::Everything).unwrap().unwrap();
    if let Literal(c) = result {
        assert_eq!(c, 'X');
    } else {
        panic!("unexpected result {:?}", result);
    }

    assert_eq!(lexer.peek_char(), None);
}

#[test]
fn lexer_text_unit_literal_rejected() {
    let mut lexer = Lexer::with_source(Source::Unknown, ";");
    let result = lexer.text_unit(&chars(";"), &CharSet::Everything).unwrap();
    assert_eq!(result, None);

    assert_eq!(lexer.peek_char().unwrap().value, ';');
}

#[test]
fn lexer_text_unit_backslash_accepted() {
    let mut lexer = Lexer::with_source(Source::Unknown, r"\#");
    let result = lexer.text_unit(&CharSet::Nothing, &chars("#")).unwrap().unwrap();
    assert_eq!(result, Backslashed('#'));

    assert_eq!(lexer.peek_char(), None);
}

#[test]
fn lexer_text_unit_backslash_eof() {
    let mut lexer = Lexer::with_source(Source::Unknown, r"\");
    let result = lexer.text_unit(&CharSet::Nothing, &CharSet::Nothing).unwrap().unwrap();
    assert_eq!(result, Literal('\\'));

    assert_eq!(lexer.peek_char(), None);
}

#[test]
fn lexer_text_unit_dollar() {
    let mut lexer = Lexer::with_source(Source::Unknown, "$()");
    let result = lexer.text_unit(&CharSet::Nothing, &CharSet::Nothing).unwrap().unwrap();
    if let CommandSubst { content, location } = result {
        assert_eq!(content, "");
        assert_eq!(location.column(), 1);
    } else {
        panic!("unexpected result {:?}", result);
    }

    assert_eq!(lexer.peek_char(), None);
}

#[test]
fn lexer_text_unit_backquote_double_quote_escapable() {
    let mut lexer = Lexer::with_source(Source::Unknown, r#"`\"`"#);
    let result = lexer.text_unit(&CharSet::Nothing, &CharSet::Nothing).unwrap().unwrap();
    if let Backquote { content, location } = result {
        assert_eq!(content, [BackquoteUnit::Backslashed('"')]);
        assert_eq!(location.column(), 1);
    } else {
        panic!("Not a backquote: {:?}", result);
    }

    assert_eq!(lexer.peek_char(), None);
}

#[test]
fn lexer_text_unit_backquote_double_quote_not_escapable() {
    let mut lexer = Lexer::with_source(Source::Unknown, r#"`\"`"#);
    let result = lexer.text_unit(&CharSet::Nothing, &CharSet::Everything).unwrap().unwrap();
    if let Backquote { content, location } = result {
        assert_eq!(
            content,
            [BackquoteUnit::Literal('\\'), BackquoteUnit::Literal('"')]
        );
        assert_eq!(location.column(), 1);
    } else {
        panic!("Not a backquote: {:?}", result);
    }

    assert_eq!(lexer.peek_char(), None);
}

#[test]
fn lexer_text_unit_line_continuations() {
    let mut lexer = Lexer::with_source(Source::Unknown, "\\\n\\\nX");
    let result = lexer.text_unit(&CharSet::Nothing, &CharSet::Everything).unwrap().unwrap();
    if let Literal(c) = result {
        assert_eq!(c, 'X');
    } else {
        panic!("unexpected result {:?}", result);
    }

    assert_eq!(lexer.peek_char(), None);
}

#[test]
fn lexer_text_empty() {
    let mut lexer = Lexer::with_source(Source::Unknown, "");
    let Text(units) = lexer.text(&CharSet::Nothing, &CharSet::Everything).unwrap();
    assert_eq!(units, &[]);
}

#[test]
fn lexer_text_nonempty() {
    let mut lexer = Lexer::with_source(Source::Unknown, "abc");
    let Text(units) = lexer.text(&CharSet::Nothing, &CharSet::Everything).unwrap();
    assert_eq!(units, &[Literal('a'), Literal('b'), Literal('c')]);

    assert_eq!(lexer.peek_char(), None);
}

#[test]
fn lexer_text_delimiter() {
    let mut lexer = Lexer::with_source(Source::Unknown, "abc");
    let Text(units) = lexer.text(&chars("c"), &CharSet::Everything).unwrap();
    assert_eq!(units, &[Literal('a'), Literal('b')]);

    assert_eq!(lexer.peek_char().unwrap().value, 'c');
}

#[test]
fn lexer_text_escaping() {
    let mut lexer = Lexer::with_source(Source::Unknown, r"a\b\c");
    let Text(units) = lexer.text(&CharSet::Nothing, &chars("b")).unwrap();
    assert_eq!(
        units,
        &[Literal('a'), Backslashed('b'), Literal('\\'), Literal('c')]
    );

    assert_eq!(lexer.peek_char(), None);
}

#[test]
fn lexer_text_with_parentheses_no_parentheses() {
    let mut lexer = Lexer::with_source(Source::Unknown, "abc");
    let Text(units) = lexer.text_with_parentheses(&CharSet::Nothing, &CharSet::Nothing).unwrap();
    assert_eq!(units, &[Literal('a'), Literal('b'), Literal('c')]);

    assert_eq!(lexer.peek_char(), None);
}

#[test]
fn lexer_text_with_parentheses_nest_1() {
    let mut lexer = Lexer::with_source(Source::Unknown, "a(b)c)");
    let Text(units) =
        lexer.text_with_parentheses(&chars("b)"), &CharSet::Nothing).unwrap();
    assert_eq!(
        units,
        &[
            Literal('a'),
            Literal('('),
            Literal('b'),
            Literal(')'),
            Literal('c'),
        ]
    );

    assert_eq!(lexer.peek_char().unwrap().value, ')');
}

#[test]
fn lexer_text_with_parentheses_nest_1_1() {
    let mut lexer = Lexer::with_source(Source::Unknown, "ab(CD)ef(GH)ij;");
    let Text(units) = lexer
        .text_with_parentheses(&chars("ABCDEFGHIJKLMNOPQRSTUVWXYZ;"), &CharSet::Nothing)
        .unwrap();
    assert_eq!(
        units,
        &[
            Literal('a'),
            Literal('b'),
            Literal('('),
            Literal('C'),
            Literal('D'),
            Literal(')'),
            Literal('e'),
            Literal('f'),
            Literal('('),
            Literal('G'),
            Literal('H'),
            Literal(')'),
            Literal('i'),
            Literal('j'),
        ]
    );

    assert_eq!(lexer.peek_char().unwrap().value, ';');
}

#[test]
fn lexer_text_with_parentheses_nest_3() {
    let mut lexer = Lexer::with_source(Source::Unknown, "a(B((C)D))e;");
    let Text(units) = lexer
        .text_with_parentheses(&chars("ABCDEFGHIJKLMNOPQRSTUVWXYZ;"), &CharSet::Nothing)
        .unwrap();
    assert_eq!(
        units,
        &[
            Literal('a'),
            Literal('('),
            Literal('B'),
            Literal('('),
            Literal('('),
            Literal('C'),
            Literal(')'),
            Literal('D'),
            Literal(')'),
            Literal(')'),
            Literal('e'),
        ]
    );

    assert_eq!(lexer.peek_char().unwrap().value, ';');
}

#[test]
fn lexer_text_with_parentheses_unclosed() {
    let mut lexer = Lexer::with_source(Source::Unknown, "x(()");
    let e = lexer.text_with_parentheses(&CharSet::Nothing, &CharSet::Nothing).unwrap_err();
    if let ErrorCause::Syntax(SyntaxError::UnclosedParen { opening_location }) = e.cause {
        assert_eq!(opening_location.line_value(), "x(()");
        assert_eq!(opening_location.line_number(), 1);
        assert_eq!(opening_location.code.source, Source::Unknown);
        assert_eq!(opening_location.column(), 2);
    } else {
        panic!("unexpected error cause {:?}", e);
    }
    assert_eq!(e.location.line_value(), "x(()");
    assert_eq!(e.location.line_number(), 1);
    assert_eq!(e.location.code.source, Source::Unknown);
    assert_eq!(e.location.column(), 5);
}

#[test]
fn lexer_word_unit_unquoted() {
    let mut lexer = Lexer::with_source(Source::Unknown, "$()");
    let result = lexer.word_unit(&CharSet::Nothing).unwrap().unwrap();
    if let Unquoted(CommandSubst { content, location }) = result {
        assert_eq!(content, "");
        assert_eq!(location.column(), 1);
    } else {
        panic!("unexpected result {:?}", result);
    }

    assert_eq!(lexer.peek_char(), None);
}

#[test]
fn lexer_word_unit_unquoted_escapes() {
    // Any characters can be escaped in this context.
    {
        let mut lexer = Lexer::with_source(Source::Unknown, r#"\a\$\`\"\\\'\#"#);
        let result = lexer.word_unit(&CharSet::Nothing);
        assert_eq!(result, Ok(Some(Unquoted(Backslashed('a')))));
        let result = lexer.word_unit(&CharSet::Nothing);
        assert_eq!(result, Ok(Some(Unquoted(Backslashed('$')))));
        let result = lexer.word_unit(&CharSet::Nothing);
        assert_eq!(result, Ok(Some(Unquoted(Backslashed('`')))));
        let result = lexer.word_unit(&CharSet::Nothing);
        assert_eq!(result, Ok(Some(Unquoted(Backslashed('"')))));
        let result = lexer.word_unit(&CharSet::Nothing);
        assert_eq!(result, Ok(Some(Unquoted(Backslashed('\\')))));
        let result = lexer.word_unit(&CharSet::Nothing);
        assert_eq!(result, Ok(Some(Unquoted(Backslashed('\'')))));
        let result = lexer.word_unit(&CharSet::Nothing);
        assert_eq!(result, Ok(Some(Unquoted(Backslashed('#')))));

        assert_eq!(lexer.peek_char(), None);
    }
}

#[test]
fn lexer_word_unit_single_quote_empty() {
    let mut lexer = Lexer::with_source(Source::Unknown, "''");
    let result = lexer.word_unit(&CharSet::Nothing).unwrap().unwrap();
    if let SingleQuote(content) = result {
        assert_eq!(content, "");
    } else {
        panic!("unexpected result {:?}", result);
    }

    assert_eq!(lexer.peek_char(), None);
}

#[test]
fn lexer_word_unit_single_quote_nonempty() {
    let mut lexer = Lexer::with_source(Source::Unknown, "'abc\n$def\\'");
    let result = lexer.word_unit(&CharSet::Nothing).unwrap().unwrap();
    if let SingleQuote(content) = result {
        assert_eq!(content, "abc\n$def\\");
    } else {
        panic!("unexpected result {:?}", result);
    }

    assert_eq!(lexer.peek_char(), None);
}

#[test]
fn lexer_word_unit_single_quote_unclosed() {
    let mut lexer = Lexer::with_source(Source::Unknown, "'abc\ndef\\");

    let e = lexer.word_unit(&CharSet::Nothing)
        .unwrap_err();
    if let ErrorCause::Syntax(SyntaxError::UnclosedSingleQuote { opening_location }) = e.cause {
        assert_eq!(opening_location.line_value(), "'abc\n");
        assert_eq!(opening_location.line_number(), 1);
        assert_eq!(opening_location.code.source, Source::Unknown);
        assert_eq!(opening_location.column(), 1);
    } else {
        panic!("unexpected error cause {:?}", e);
    }
    assert_eq!(e.location.line_value(), "def\\");
    assert_eq!(e.location.line_number(), 2);
    assert_eq!(e.location.code.source, Source::Unknown);
    assert_eq!(e.location.column(), 5);
}

#[test]
fn lexer_word_unit_double_quote_empty() {
    let mut lexer = Lexer::with_source(Source::Unknown, "\"\"");
    let result = lexer.word_unit(&CharSet::Nothing).unwrap().unwrap();
    if let DoubleQuote(Text(content)) = result {
        assert_eq!(content, []);
    } else {
        panic!("unexpected result {:?}", result);
    }

    assert_eq!(lexer.peek_char(), None);
}

#[test]
fn lexer_word_unit_double_quote_non_empty() {
    let mut lexer = Lexer::with_source(Source::Unknown, "\"abc\"");
    let result = lexer.word_unit(&CharSet::Nothing).unwrap().unwrap();
    if let DoubleQuote(Text(content)) = result {
        assert_eq!(content, [Literal('a'), Literal('b'), Literal('c')]);
    } else {
        panic!("unexpected result {:?}", result);
    }

    assert_eq!(lexer.peek_char(), None);
}

#[test]
fn lexer_word_unit_double_quote_escapes() {
    // Only the following can be escaped in this context: $ ` " \
    {
        let mut lexer = Lexer::with_source(Source::Unknown, r#""\a\$\`\"\\\'\#""#);
        let result = lexer
            .word_unit(&chars("a'#"))
            
            .unwrap()
            .unwrap();
        if let DoubleQuote(Text(ref units)) = result {
            assert_eq!(
                units,
                &[
                    Literal('\\'),
                    Literal('a'),
                    Backslashed('$'),
                    Backslashed('`'),
                    Backslashed('"'),
                    Backslashed('\\'),
                    Literal('\\'),
                    Literal('\''),
                    Literal('\\'),
                    Literal('#'),
                ]
            );
        } else {
            panic!("Not a double quote: {:?}", result);
        }

        assert_eq!(lexer.peek_char(), None);
    }
}

#[test]
fn lexer_word_unit_double_quote_unclosed() {
    let mut lexer = Lexer::with_source(Source::Unknown, "\"abc\ndef");

    let e = lexer.word_unit(&CharSet::Nothing)
        .unwrap_err();
    if let ErrorCause::Syntax(SyntaxError::UnclosedDoubleQuote { opening_location }) = e.cause {
        assert_eq!(opening_location.line_value(), "\"abc\n");
        assert_eq!(opening_location.line_number(), 1);
        assert_eq!(opening_location.code.source, Source::Unknown);
        assert_eq!(opening_location.column(), 1);
    } else {
        panic!("unexpected error cause {:?}", e);
    }
    assert_eq!(e.location.line_value(), "def");
    assert_eq!(e.location.line_number(), 2);
    assert_eq!(e.location.code.source, Source::Unknown);
    assert_eq!(e.location.column(), 4);
}

#[test]
fn lexer_word_nonempty() {
    let mut lexer = Lexer::with_source(Source::Unknown, r"0$(:)X\#");
    let word = lexer.word(&CharSet::Nothing).unwrap();
    assert_eq!(word.units.len(), 4);
    assert_eq!(word.units[0], WordUnit::Unquoted(TextUnit::Literal('0')));
    if let WordUnit::Unquoted(TextUnit::CommandSubst { content, location }) = &word.units[1] {
        assert_eq!(content, ":");
        assert_eq!(location.line_value(), r"0$(:)X\#");
        assert_eq!(location.line_number(), 1);
        assert_eq!(location.code.source, Source::Unknown);
        assert_eq!(location.column(), 2);
    } else {
        panic!("unexpected word unit: {:?}", word.units[1]);
    }
    assert_eq!(word.units[2], WordUnit::Unquoted(TextUnit::Literal('X')));
    assert_eq!(
        word.units[3],
        WordUnit::Unquoted(TextUnit::Backslashed('#'))
    );
    assert_eq!(word.location.line_value(), r"0$(:)X\#");
    assert_eq!(word.location.line_number(), 1);
    assert_eq!(word.location.code.source, Source::Unknown);
    assert_eq!(word.location.column(), 1);

    assert_eq!(lexer.peek_char(), None);
}

#[test]
fn lexer_word_empty() {
    let mut lexer = Lexer::with_source(Source::Unknown, "");
    let word = lexer.word(&CharSet::Nothing).unwrap();
    assert_eq!(word.units, []);
    assert_eq!(word.location.line_value(), "");
    assert_eq!(word.location.line_number(), 1);
    assert_eq!(word.location.code.source, Source::Unknown);
    assert_eq!(word.location.column(), 1);
}

#[test]
fn lexer_token_empty() {
    // If there's no word unit that can be parsed, it is the end of input.
    let mut lexer = Lexer::with_source(Source::Unknown, "");

    let t = lexer.token().unwrap();
    assert_eq!(t.word.location.line_value(), "");
    assert_eq!(t.word.location.line_number(), 1);
    assert_eq!(t.word.location.code.source, Source::Unknown);
    assert_eq!(t.word.location.column(), 1);
    assert_eq!(t.id, TokenId::EndOfInput);
    assert_eq!(t.index, 0);
}

#[test]
fn lexer_token_non_empty() {
    let mut lexer = Lexer::with_source(Source::Unknown, "abc ");

    let t = lexer.token().unwrap();
    assert_eq!(t.word.units.len(), 3);
    assert_eq!(t.word.units[0], WordUnit::Unquoted(TextUnit::Literal('a')));
    assert_eq!(t.word.units[1], WordUnit::Unquoted(TextUnit::Literal('b')));
    assert_eq!(t.word.units[2], WordUnit::Unquoted(TextUnit::Literal('c')));
    assert_eq!(t.word.location.line_value(), "abc ");
    assert_eq!(t.word.location.line_number(), 1);
    assert_eq!(t.word.location.code.source, Source::Unknown);
    assert_eq!(t.word.location.column(), 1);
    assert_eq!(t.id, TokenId::Token(None));
    assert_eq!(t.index, 0);

    assert_eq!(lexer.peek_char().unwrap().value, ' ');
}

#[test]
fn lexer_token_tilde() {
    let mut lexer = Lexer::with_source(Source::Unknown, "~a:~");

    let t = lexer.token().unwrap();
    assert_eq!(
        t.word.units,
        [
            WordUnit::Tilde("a".to_string()),
            WordUnit::Unquoted(TextUnit::Literal(':')),
            WordUnit::Unquoted(TextUnit::Literal('~'))
        ]
    );
}

#[test]
fn lexer_token_io_number_delimited_by_less() {
    let mut lexer = Lexer::with_source(Source::Unknown, "12<");

    let t = lexer.token().unwrap();
    assert_eq!(t.word.units.len(), 2);
    assert_eq!(t.word.units[0], WordUnit::Unquoted(TextUnit::Literal('1')));
    assert_eq!(t.word.units[1], WordUnit::Unquoted(TextUnit::Literal('2')));
    assert_eq!(t.word.location.line_value(), "12<");
    assert_eq!(t.word.location.line_number(), 1);
    assert_eq!(t.word.location.code.source, Source::Unknown);
    assert_eq!(t.word.location.column(), 1);
    assert_eq!(t.id, TokenId::IoNumber);
    assert_eq!(t.index, 0);

    assert_eq!(lexer.peek_char().unwrap().value, '<');
}

#[test]
fn lexer_token_io_number_delimited_by_greater() {
    let mut lexer = Lexer::with_source(Source::Unknown, "0>>");

    let t = lexer.token().unwrap();
    assert_eq!(t.word.units.len(), 1);
    assert_eq!(t.word.units[0], WordUnit::Unquoted(TextUnit::Literal('0')));
    assert_eq!(t.word.location.line_value(), "0>>");
    assert_eq!(t.word.location.line_number(), 1);
    assert_eq!(t.word.location.code.source, Source::Unknown);
    assert_eq!(t.word.location.column(), 1);
    assert_eq!(t.id, TokenId::IoNumber);
    assert_eq!(t.index, 0);

    assert_eq!(lexer.location().column(), 2);
}

#[test]
fn lexer_token_after_blank() {
    {
        let mut lexer = Lexer::with_source(Source::Unknown, " a  ");

        lexer.skip_blanks();
        let t = lexer.token().unwrap();
        assert_eq!(t.word.location.line_value(), " a  ");
        assert_eq!(t.word.location.line_number(), 1);
        assert_eq!(t.word.location.code.source, Source::Unknown);
        assert_eq!(t.word.location.column(), 2);
        assert_eq!(t.id, TokenId::Token(None));
        assert_eq!(t.index, 1);

        lexer.skip_blanks();
        let t = lexer.token().unwrap();
        assert_eq!(t.word.location.line_value(), " a  ");
        assert_eq!(t.word.location.line_number(), 1);
        assert_eq!(t.word.location.code.source, Source::Unknown);
        assert_eq!(t.word.location.column(), 5);
        assert_eq!(t.id, TokenId::EndOfInput);
        assert_eq!(t.index, 4);
    }
}
