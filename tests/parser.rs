use std::rc::Rc;
use yash_syntax::alias::Alias;
use yash_syntax::alias::AliasSet;
use yash_syntax::fill::Command;
use yash_syntax::fill::RedirBody;
use yash_syntax::fill::RedirOp;
use yash_syntax::lex::ErrorCause;
use yash_syntax::lex::Lexer;
use yash_syntax::lex::SyntaxError;
use yash_syntax::parser::Item;
use yash_syntax::parser::Parser;
use yash_syntax::source::Location;
use yash_syntax::source::Source;
use yash_syntax::syntax::TextUnit;
use yash_syntax::syntax::Word;

fn alias(name: &str, replacement: &str, global: bool) -> Rc<Alias> {
    Rc::new(Alias {
        name: name.to_string(),
        replacement: replacement.to_string(),
        global,
        origin: Location::dummy(""),
    })
}

fn parse_with(code: &str, aliases: AliasSet) -> Vec<Item> {
    let lexer = Lexer::with_source(Source::Unknown, code);
    let mut parser = Parser::new(lexer, Rc::new(aliases));
    parser.command_line().unwrap().unwrap()
}

fn literal(word: &Word) -> String {
    word.to_string_if_literal().unwrap()
}

fn words_of(item: &Item) -> Vec<String> {
    let Command::SimpleCommand(c) = &item.pipeline.commands[0];
    c.words.iter().map(literal).collect()
}

#[test]
fn here_doc_is_filled_after_the_command_line() {
    let items = parse_with("cat <<END\nhello\nEND\n", AliasSet::new());
    assert_eq!(items.len(), 1);
    let Command::SimpleCommand(c) = &items[0].pipeline.commands[0];
    assert_eq!(c.words.len(), 1);
    assert_eq!(literal(&c.words[0]), "cat");
    assert_eq!(c.redirs.len(), 1);
    assert_eq!(c.redirs[0].fd, None);
    match &c.redirs[0].body {
        RedirBody::HereDoc(doc) => {
            assert_eq!(literal(&doc.delimiter), "END");
            assert!(!doc.remove_tabs);
            let content: String = doc
                .content
                .0
                .iter()
                .map(|u| match u {
                    TextUnit::Literal(c) => *c,
                    _ => panic!("unexpected unit {:?}", u),
                })
                .collect();
            assert_eq!(content, "hello\n");
        }
        other => panic!("unexpected body {:?}", other),
    }
}

#[test]
fn here_docs_are_filled_in_order() {
    let items = parse_with("a <<X; b <<-Y\none\nX\n\ttwo\n\tY\n", AliasSet::new());
    assert_eq!(items.len(), 2);
    let body = |item: &Item| {
        let Command::SimpleCommand(c) = &item.pipeline.commands[0];
        match &c.redirs[0].body {
            RedirBody::HereDoc(doc) => doc.content.0.len(),
            _ => panic!("not a here-document"),
        }
    };
    assert_eq!(body(&items[0]), 4);
    assert_eq!(body(&items[1]), 4);
}

#[test]
fn unclosed_here_doc_is_an_error() {
    let lexer = Lexer::with_source(Source::Unknown, "cat <<END\nhello\n");
    let mut parser = Parser::new(lexer, Rc::new(AliasSet::new()));
    let e = parser.command_line().unwrap_err();
    assert!(matches!(
        e.cause,
        ErrorCause::Syntax(SyntaxError::UnclosedHereDoc { .. })
    ));
}

#[test]
fn missing_here_doc_delimiter_is_an_error() {
    let lexer = Lexer::with_source(Source::Unknown, "cat <<\n");
    let mut parser = Parser::new(lexer, Rc::new(AliasSet::new()));
    let e = parser.command_line().unwrap_err();
    assert_eq!(e.cause, ErrorCause::Syntax(SyntaxError::MissingHereDocDelimiter));
}

#[test]
fn missing_redirection_operand_is_an_error() {
    let lexer = Lexer::with_source(Source::Unknown, "echo >");
    let mut parser = Parser::new(lexer, Rc::new(AliasSet::new()));
    let e = parser.command_line().unwrap_err();
    assert_eq!(e.cause, ErrorCause::Syntax(SyntaxError::MissingRedirectionTarget));
}

#[test]
fn pipeline_with_redirections_and_io_number() {
    let items = parse_with("! ls -l 2>err | wc\n", AliasSet::new());
    assert_eq!(items.len(), 1);
    assert!(items[0].pipeline.negation);
    assert_eq!(items[0].pipeline.commands.len(), 2);
    let Command::SimpleCommand(c) = &items[0].pipeline.commands[0];
    assert_eq!(c.words.iter().map(literal).collect::<Vec<_>>(), ["ls", "-l"]);
    assert_eq!(c.redirs[0].fd, Some(2));
    match &c.redirs[0].body {
        RedirBody::Normal { operator, operand } => {
            assert_eq!(*operator, RedirOp::FileOut);
            assert_eq!(literal(operand), "err");
        }
        other => panic!("unexpected body {:?}", other),
    }
}

#[test]
fn separators_and_async() {
    let items = parse_with("a & b; c\n", AliasSet::new());
    assert_eq!(items.len(), 3);
    assert!(items[0].is_async);
    assert!(!items[1].is_async);
    assert_eq!(words_of(&items[2]), ["c"]);
}

#[test]
fn empty_input_gives_no_command_line() {
    let lexer = Lexer::with_source(Source::Unknown, "");
    let mut parser = Parser::new(lexer, Rc::new(AliasSet::new()));
    assert_eq!(parser.command_line().unwrap(), None);
}

#[test]
fn unexpected_operator_is_an_error() {
    let lexer = Lexer::with_source(Source::Unknown, "| a\n");
    let mut parser = Parser::new(lexer, Rc::new(AliasSet::new()));
    let e = parser.command_line().unwrap_err();
    assert_eq!(e.cause, ErrorCause::Syntax(SyntaxError::UnexpectedToken));
    assert_eq!(e.location.column(), 1);
}

#[test]
fn alias_with_trailing_blank_makes_next_word_eligible() {
    let mut aliases = AliasSet::new();
    aliases.insert(alias("foo", "echo hi ", false));
    aliases.insert(alias("hi", "bye", false));
    let items = parse_with("foo hi", aliases);
    assert_eq!(words_of(&items[0]), ["echo", "hi", "bye"]);
    let Command::SimpleCommand(c) = &items[0].pipeline.commands[0];
    match &c.words[0].location.code.source {
        Source::Alias { original, alias } => {
            assert_eq!(alias.name, "foo");
            assert_eq!(original.range, 0..3);
            assert_eq!(original.code.source, Source::Unknown);
        }
        other => panic!("unexpected source {:?}", other),
    }
    match &c.words[2].location.code.source {
        Source::Alias { original, alias } => {
            assert_eq!(alias.name, "hi");
            assert_eq!(original.range, 4..6);
        }
        other => panic!("unexpected source {:?}", other),
    }
}

#[test]
fn alias_without_trailing_blank_leaves_next_word() {
    let mut aliases = AliasSet::new();
    aliases.insert(alias("foo", "echo", false));
    aliases.insert(alias("hi", "bye", false));
    let items = parse_with("foo hi", aliases);
    assert_eq!(words_of(&items[0]), ["echo", "hi"]);
}

#[test]
fn alias_is_not_substituted_within_itself() {
    let mut aliases = AliasSet::new();
    aliases.insert(alias("ls", "ls -l", false));
    let items = parse_with("ls\n", aliases);
    assert_eq!(words_of(&items[0]), ["ls", "-l"]);
}

#[test]
fn global_alias_applies_anywhere() {
    let mut aliases = AliasSet::new();
    aliases.insert(alias("G", "x y", true));
    let items = parse_with("echo G", aliases);
    assert_eq!(words_of(&items[0]), ["echo", "x", "y"]);
}

#[test]
fn mutually_recursive_aliases_stop() {
    let mut aliases = AliasSet::new();
    aliases.insert(alias("a", "b", false));
    aliases.insert(alias("b", "a", false));
    let items = parse_with("a", aliases);
    assert_eq!(words_of(&items[0]), ["a"]);
}

fn here_doc_units(code: &str) -> Vec<TextUnit> {
    let mut items = parse_with(code, AliasSet::new());
    let Command::SimpleCommand(c) = items.remove(0).pipeline.commands.remove(0);
    let mut redirs = c.redirs;
    match redirs.remove(0).body {
        RedirBody::HereDoc(doc) => doc.content.0,
        _ => panic!("not a here-document"),
    }
}

#[test]
fn unquoted_here_doc_delimiter_expands_content() {
    let units = here_doc_units("cat <<E\na$(b)\\$\nE\n");
    assert_eq!(units.len(), 4);
    assert_eq!(units[0], TextUnit::Literal('a'));
    match &units[1] {
        TextUnit::CommandSubst { content, location } => {
            assert_eq!(content, "b");
            assert_eq!(location.line_number(), 2);
            assert_eq!(location.column(), 2);
        }
        other => panic!("unexpected unit {:?}", other),
    }
    assert_eq!(units[2], TextUnit::Backslashed('$'));
    assert_eq!(units[3], TextUnit::Literal('\n'));
}

#[test]
fn quoted_here_doc_delimiter_keeps_content_literal() {
    let units = here_doc_units("cat <<'E'\na$(b)\nE\n");
    let literal: Vec<TextUnit> = "a$(b)\n".chars().map(TextUnit::Literal).collect();
    assert_eq!(units, literal);
}

#[test]
fn too_many_alias_substitutions_is_an_error() {
    let mut aliases = AliasSet::new();
    aliases.insert(alias("x", "y ", false));
    let code = vec!["x"; 1001].join(" ");
    let lexer = Lexer::with_source(Source::Unknown, &code);
    let mut parser = Parser::new(lexer, Rc::new(aliases));
    let e = parser.command_line().unwrap_err();
    assert_eq!(e.cause, ErrorCause::Syntax(SyntaxError::TooManyAliasSubstitutions));
    assert_eq!(e.location.range.start, 2000);
}
