//! Lexical analyzer.
//!
//! A [`Lexer`] reads the characters of one [`Code`] and produces
//! [`Token`]s: operators and words. Words keep their quoting and
//! substitution structure ([`WordUnit`], [`TextUnit`]). A backslash followed
//! by a newline (a line continuation) is skipped wherever a new unit may
//! start, except inside single quotes.

use crate::chars::char_of;
use crate::chars::chars_of;
use crate::chars::push_char;
use crate::chars::string_of;
use crate::source::Code;
use crate::source::Location;
use crate::source::Source;
use crate::source::SourceChar;
use crate::syntax::is_blank;
use crate::syntax::lemma_literal_of_units;
use crate::syntax::literal_of;
use crate::syntax::tilde_front_applied;
use crate::syntax::spec_keyword;
use crate::syntax::is_token_delimiter_char;
use crate::syntax::spec_is_blank;
use crate::syntax::spec_is_operator_char;
use crate::syntax::spec_is_token_delimiter_char;
use crate::syntax::BackquoteUnit;
use crate::syntax::Keyword;
use crate::syntax::Text;
use crate::syntax::TextUnit;
use crate::syntax::Word;
use crate::syntax::WordUnit;
use std::rc::Rc;
use vstd::prelude::*;
use vstd::string::StringExecFns;

verus! {

/// Kind of syntax error.
#[derive(Debug, Eq, PartialEq)]
pub enum SyntaxError {
    /// A `(` lacks a closing `)`.
    UnclosedParen { opening_location: Location },
    /// A single quotation lacks a closing `'`.
    UnclosedSingleQuote { opening_location: Location },
    /// A double quotation lacks a closing `"`.
    UnclosedDoubleQuote { opening_location: Location },
    /// A command substitution started with `$(` but lacks a closing `)`.
    UnclosedCommandSubstitution { opening_location: Location },
    /// An arithmetic expansion started with `$((` but lacks a closing `))`.
    UnclosedArith { opening_location: Location },
    /// A backquoted command substitution lacks a closing backquote.
    UnclosedBackquote { opening_location: Location },
    /// A here-document's content has no line equal to its delimiter.
    UnclosedHereDoc { redir_op_location: Location },
    /// A here-document operator is not followed by a delimiter word.
    MissingHereDocDelimiter,
    /// A redirection operator is not followed by an operand word.
    MissingRedirectionTarget,
    /// A token that cannot appear here.
    UnexpectedToken,
    /// Too many alias substitutions were made in one command line.
    TooManyAliasSubstitutions,
}

/// Cause of a parse error.
#[derive(Debug, Eq, PartialEq)]
pub enum ErrorCause {
    /// The source text breaks the syntax.
    Syntax(SyntaxError),
}

/// Parse error: its cause and where it was noticed.
#[derive(Debug, Eq, PartialEq)]
pub struct Error {
    /// What went wrong.
    pub cause: ErrorCause,
    /// Where the parser noticed the problem.
    pub location: Location,
}

/// Operator token identifier.
#[derive(Clone, Copy, Debug, Eq, PartialEq)]
pub enum Operator {
    /// Newline
    Newline,
    /// `&`
    And,
    /// `&&`
    AndAnd,
    /// `(`
    OpenParen,
    /// `)`
    CloseParen,
    /// `;`
    Semicolon,
    /// `;;`
    SemicolonSemicolon,
    /// `<`
    Less,
    /// `<&`
    LessAnd,
    /// `<<`
    LessLess,
    /// `<<-`
    LessLessDash,
    /// `<>`
    LessGreater,
    /// `>`
    Greater,
    /// `>&`
    GreaterAnd,
    /// `>>`
    GreaterGreater,
    /// `>|`
    GreaterBar,
    /// `|`
    Bar,
    /// `||`
    BarBar,
}

/// Token identifier: the kind of a token.
#[derive(Clone, Copy, Debug, Eq, PartialEq)]
pub enum TokenId {
    /// A word, possibly a reserved word.
    Token(Option<Keyword>),
    /// An operator.
    Operator(Operator),
    /// A digit-only word that is immediately followed by `<` or `>`.
    IoNumber,
    /// The end of input: the token's word is empty.
    EndOfInput,
}

/// Result of lexical analysis.
#[derive(Debug, Eq, PartialEq)]
pub struct Token {
    /// Content of the token.
    pub word: Word,
    /// Kind of the token.
    pub id: TokenId,
    /// Position of the first character of the token in the code.
    pub index: usize,
}

/// Set of characters, used to say which characters end a text and which a
/// backslash may escape.
#[derive(Debug, Eq, PartialEq)]
pub enum CharSet {
    /// No character.
    Nothing,
    /// Every character.
    Everything,
    /// The [token delimiters](is_token_delimiter_char).
    TokenDelimiters,
    /// The characters of the string.
    Chars(String),
    /// The one character.
    One(char),
    /// `$`, `` ` `` and `\`, and `"` too if the flag is set: the characters
    /// a backslash escapes in a double-quoted (flag set) or arithmetic or
    /// here-document (flag clear) context.
    Special(bool),
}

impl CharSet {
    /// Whether the set holds `c`.
    pub open spec fn has(&self, c: char) -> bool {
        match self {
            CharSet::Nothing => false,
            CharSet::Everything => true,
            CharSet::TokenDelimiters => spec_is_token_delimiter_char(c),
            CharSet::Chars(s) => s@.contains(c),
            CharSet::One(d) => c == *d,
            CharSet::Special(dq) => c == '$' || c == '`' || c == '\\' || (*dq && c == '"'),
        }
    }

    /// Tests whether the set holds `c`.
    pub fn contains(&self, c: char) -> (r: bool)
        ensures
            r == self.has(c),
    {
        match self {
            CharSet::Nothing => false,
            CharSet::Everything => true,
            CharSet::TokenDelimiters => is_token_delimiter_char(c),
            CharSet::One(d) => c == *d,
            CharSet::Special(dq) => c == '$' || c == '`' || c == '\\' || (*dq && c == '"'),
            CharSet::Chars(s) => {
                let n = s.as_str().unicode_len();
                let mut i: usize = 0;
                while i < n
                    invariant
                        self.has(c) == s@.contains(c),
                        n == s@.len(),
                        i <= n,
                        forall|k: int| 0 <= k < i ==> s@[k] != c,
                    decreases n - i,
                {
                    if s.as_str().get_char(i) == c {
                        assert(s@[i as int] == c);
                        return true;
                    }
                    i = i + 1;
                }
                false
            },
        }
    }
}

/// Whether a backslash and a newline start at `i`.
pub open spec fn is_line_continuation(s: Seq<char>, i: int) -> bool {
    0 <= i && i + 1 < s.len() && s[i] == '\\' && s[i + 1] == '\n'
}

/// Position reached from `i` by skipping line continuations.
pub open spec fn skip_lc(s: Seq<char>, i: int) -> int
    decreases s.len() - i,
{
    if is_line_continuation(s, i) {
        skip_lc(s, i + 2)
    } else {
        i
    }
}

/// Position reached from `i` by skipping blanks and line continuations.
pub open spec fn skip_blanks_from(s: Seq<char>, i: int) -> int
    decreases s.len() - i,
{
    let j = skip_lc(s, i);
    if 0 <= j < s.len() && spec_is_blank(s[j]) && j >= i {
        skip_blanks_from(s, j + 1)
    } else {
        j
    }
}

/// Whether `s` holds `c` at `i`.
pub open spec fn char_at(s: Seq<char>, i: int, c: char) -> bool {
    0 <= i < s.len() && s[i] == c
}

/// Location of the single character at `i` of `code`.
pub open spec fn loc_at(code: Rc<Code>, i: int) -> Location {
    Location { code: code, range: (i as usize)..((i + 1) as usize) }
}

proof fn lemma_skip_lc_bounds(s: Seq<char>, i: int)
    requires
        0 <= i <= s.len(),
    ensures
        i <= skip_lc(s, i) <= s.len(),
        !is_line_continuation(s, skip_lc(s, i)),
    decreases s.len() - i,
{
    if is_line_continuation(s, i) {
        lemma_skip_lc_bounds(s, i + 2);
    }
}

proof fn lemma_skip_blanks_bounds(s: Seq<char>, i: int)
    requires
        0 <= i <= s.len(),
    ensures
        i <= skip_blanks_from(s, i) <= s.len(),
    decreases s.len() - i,
{
    lemma_skip_lc_bounds(s, i);
    let j = skip_lc(s, i);
    if 0 <= j < s.len() && spec_is_blank(s[j]) && j >= i {
        lemma_skip_blanks_bounds(s, j + 1);
    }
}

proof fn lemma_skip_blanks_end(s: Seq<char>, i: int)
    requires
        0 <= i <= s.len(),
    ensures
        ({
            let e = skip_blanks_from(s, i);
            e == s.len() || (!spec_is_blank(s[e]) && !is_line_continuation(s, e) && skip_lc(s, e) == e)
        }),
    decreases s.len() - i,
{
    lemma_skip_lc_bounds(s, i);
    let j = skip_lc(s, i);
    if 0 <= j < s.len() && spec_is_blank(s[j]) && j >= i {
        lemma_skip_blanks_end(s, j + 1);
    }
}

/// The operator that starts at `i`, with the position just past it. Line
/// continuations may stand between its characters.
pub open spec fn operator_at(s: Seq<char>, i: int) -> Option<(Operator, int)> {
    if !(0 <= i < s.len()) {
        None
    } else {
        let c = s[i];
        let j = skip_lc(s, i + 1);
        if c == '\n' {
            Some((Operator::Newline, i + 1))
        } else if c == '(' {
            Some((Operator::OpenParen, i + 1))
        } else if c == ')' {
            Some((Operator::CloseParen, i + 1))
        } else if c == ';' {
            if char_at(s, j, ';') {
                Some((Operator::SemicolonSemicolon, j + 1))
            } else {
                Some((Operator::Semicolon, i + 1))
            }
        } else if c == '&' {
            if char_at(s, j, '&') {
                Some((Operator::AndAnd, j + 1))
            } else {
                Some((Operator::And, i + 1))
            }
        } else if c == '|' {
            if char_at(s, j, '|') {
                Some((Operator::BarBar, j + 1))
            } else {
                Some((Operator::Bar, i + 1))
            }
        } else if c == '<' {
            if char_at(s, j, '<') {
                let k = skip_lc(s, j + 1);
                if char_at(s, k, '-') {
                    Some((Operator::LessLessDash, k + 1))
                } else {
                    Some((Operator::LessLess, j + 1))
                }
            } else if char_at(s, j, '&') {
                Some((Operator::LessAnd, j + 1))
            } else if char_at(s, j, '>') {
                Some((Operator::LessGreater, j + 1))
            } else {
                Some((Operator::Less, i + 1))
            }
        } else if c == '>' {
            if char_at(s, j, '>') {
                Some((Operator::GreaterGreater, j + 1))
            } else if char_at(s, j, '&') {
                Some((Operator::GreaterAnd, j + 1))
            } else if char_at(s, j, '|') {
                Some((Operator::GreaterBar, j + 1))
            } else {
                Some((Operator::Greater, i + 1))
            }
        } else {
            None
        }
    }
}

proof fn lemma_operator_at(s: Seq<char>, i: int)
    requires
        0 <= i <= s.len(),
    ensures
        operator_at(s, i) matches Some((op, end)) ==> i < end <= s.len(),
        i < s.len() ==> (operator_at(s, i) is None <==> !spec_is_operator_char(s[i])),
{
    if i < s.len() {
        lemma_skip_lc_bounds(s, i + 1);
        let j = skip_lc(s, i + 1);
        if j < s.len() {
            lemma_skip_lc_bounds(s, j + 1);
        }
    }
}

/// How an operator is spelled.
pub open spec fn operator_spelling(op: Operator) -> Seq<char> {
    match op {
        Operator::Newline => seq!['\n'],
        Operator::And => seq!['&'],
        Operator::AndAnd => seq!['&', '&'],
        Operator::OpenParen => seq!['('],
        Operator::CloseParen => seq![')'],
        Operator::Semicolon => seq![';'],
        Operator::SemicolonSemicolon => seq![';', ';'],
        Operator::Less => seq!['<'],
        Operator::LessAnd => seq!['<', '&'],
        Operator::LessLess => seq!['<', '<'],
        Operator::LessLessDash => seq!['<', '<', '-'],
        Operator::LessGreater => seq!['<', '>'],
        Operator::Greater => seq!['>'],
        Operator::GreaterAnd => seq!['>', '&'],
        Operator::GreaterGreater => seq!['>', '>'],
        Operator::GreaterBar => seq!['>', '|'],
        Operator::Bar => seq!['|'],
        Operator::BarBar => seq!['|', '|'],
    }
}

/// Location of the characters `a..b` of `code`.
pub open spec fn span(code: Rc<Code>, a: int, b: int) -> Location {
    Location { code: code, range: (a as usize)..(b as usize) }
}

/// Position of the first `c` at or after `i`, or the end of `s`.
pub open spec fn find_char(s: Seq<char>, i: int, c: char) -> int
    decreases s.len() - i,
{
    if i >= s.len() {
        s.len() as int
    } else if s[i] == c {
        i
    } else {
        find_char(s, i + 1, c)
    }
}

pub proof fn lemma_find_char(s: Seq<char>, i: int, c: char)
    requires
        0 <= i <= s.len(),
    ensures
        i <= find_char(s, i, c) <= s.len(),
        forall|k: int| i <= k < find_char(s, i, c) ==> s[k] != c,
        find_char(s, i, c) < s.len() ==> s[find_char(s, i, c)] == c,
    decreases s.len() - i,
{
    if i < s.len() && s[i] != c {
        lemma_find_char(s, i + 1, c);
    }
}

/// Whether a backslash escapes `c` inside backquotes; a double quote is
/// escapable only if `double_quote_escapable`.
pub open spec fn backquote_escapable(c: char, double_quote_escapable: bool) -> bool {
    c == '$' || c == '`' || c == '\\' || (c == '"' && double_quote_escapable)
}

/// The backquote unit that starts at `i` (after line continuations), with the
/// position just past it.
pub open spec fn backquote_unit_at(s: Seq<char>, i: int, dq: bool) -> Option<(BackquoteUnit, int)> {
    let j = skip_lc(s, i);
    if char_at(s, j, '\\') {
        if j + 1 < s.len() && backquote_escapable(s[j + 1], dq) {
            Some((BackquoteUnit::Backslashed(s[j + 1]), j + 2))
        } else {
            Some((BackquoteUnit::Literal('\\'), j + 1))
        }
    } else if 0 <= j < s.len() && s[j] != '`' {
        Some((BackquoteUnit::Literal(s[j]), j + 1))
    } else {
        None
    }
}

/// The backquote units from `i` on, with the position where they end.
pub open spec fn backquote_units(s: Seq<char>, i: int, dq: bool) -> (Seq<BackquoteUnit>, int)
    decreases s.len() - i,
{
    match backquote_unit_at(s, i, dq) {
        Some((u, k)) => if i < k {
            let rest = backquote_units(s, k, dq);
            (seq![u] + rest.0, rest.1)
        } else {
            (Seq::empty(), skip_lc(s, i))
        },
        None => (Seq::empty(), skip_lc(s, i)),
    }
}

/// A sequence of unquoted literal word units spelling `v`.
fn literal_units(v: &Vec<char>) -> (r: Vec<WordUnit>)
    ensures
        literal_of(r@) == Some(v@),
{
    let mut r: Vec<WordUnit> = Vec::new();
    let mut i: usize = 0;
    while i < v.len()
        invariant
            i <= v@.len(),
            literal_of(r@) == Some(v@.subrange(0, i as int)),
        decreases v@.len() - i,
    {
        let c = char_of(v, i);
        let ghost before = r@;
        r.push(WordUnit::Unquoted(TextUnit::Literal(c)));
        assert(r@.drop_last() =~= before);
        assert(v@.subrange(0, i as int + 1) =~= v@.subrange(0, i as int).push(c));
        i = i + 1;
    }
    assert(v@.subrange(0, v@.len() as int) =~= v@);
    r
}

/// The characters of an operator.
fn operator_chars(op: Operator) -> (r: Vec<char>)
    ensures
        r@ == operator_spelling(op),
{
    let r = match op {
        Operator::Newline => vec!['\n'],
        Operator::And => vec!['&'],
        Operator::AndAnd => vec!['&', '&'],
        Operator::OpenParen => vec!['('],
        Operator::CloseParen => vec![')'],
        Operator::Semicolon => vec![';'],
        Operator::SemicolonSemicolon => vec![';', ';'],
        Operator::Less => vec!['<'],
        Operator::LessAnd => vec!['<', '&'],
        Operator::LessLess => vec!['<', '<'],
        Operator::LessLessDash => vec!['<', '<', '-'],
        Operator::LessGreater => vec!['<', '>'],
        Operator::Greater => vec!['>'],
        Operator::GreaterAnd => vec!['>', '&'],
        Operator::GreaterGreater => vec!['>', '>'],
        Operator::GreaterBar => vec!['>', '|'],
        Operator::Bar => vec!['|'],
        Operator::BarBar => vec!['|', '|'],
    };
    assert(r@ =~= operator_spelling(op));
    r
}

/// Where a text stands with respect to the parentheses it opened itself.
#[derive(Clone, Copy, Debug, Eq, PartialEq)]
pub enum Nesting {
    /// Parentheses have no meaning.
    Flat,
    /// Outside parentheses: a `(` opens a level.
    Outside,
    /// Inside parentheses: only `(` and `)` end a run of units.
    Inside,
}

/// Whether an unquoted `c` ends a run of text units.
pub open spec fn stops(delim: CharSet, nest: Nesting, c: char) -> bool {
    match nest {
        Nesting::Flat => delim.has(c),
        Nesting::Outside => c == '(' || delim.has(c),
        Nesting::Inside => c == '(' || c == ')',
    }
}

/// Whether a `$` at `j` is followed, after line continuations, by `(`.
pub open spec fn dollar_paren(s: Seq<char>, j: int) -> bool {
    char_at(s, j, '$') && char_at(s, skip_lc(s, j + 1), '(')
}

/// Whether a text that may not go past a stopping character ends at `j`:
/// the input ends there, or an unquoted stopping character stands there that
/// starts no escape, expansion or backquote.
pub open spec fn text_ends_at(s: Seq<char>, j: int, delim: CharSet, nest: Nesting) -> bool {
    j >= s.len() || (0 <= j && stops(delim, nest, s[j]) && s[j] != '\\' && s[j] != '`' && !dollar_paren(
        s,
        j,
    ))
}

/// Whether `u` is a dollar unit that spans `j..end`: an arithmetic expansion
/// or a command substitution located at the `$`, ending with `)`; a command
/// substitution holds the text between its parentheses.
pub open spec fn dollar_unit_spans(u: TextUnit, s: Seq<char>, code: Rc<Code>, j: int, end: int) -> bool
    decreases u, 0nat,
{
    let p = skip_lc(s, j + 1);
    &&& p + 2 <= end <= s.len()
    &&& s[end - 1] == ')'
    &&& match u {
        TextUnit::Arith { content, location } => location == loc_at(code, j) && p + 4 <= end && arith_step(
            s,
            code,
            p,
            loc_at(code, j),
        ) is Ok && arith_step(s, code, p, loc_at(code, j))->Ok_0 is Some && paren_units_from(
            s,
            code,
            skip_lc(s, p + 1) + 1,
            Seq::empty(),
            CharSet::One(')'),
            CharSet::Special(false),
            content.0@,
            0,
        ),
        TextUnit::CommandSubst { content, location } => location == loc_at(code, j)
            && content@ == s.subrange(p + 1, end - 1) && arith_step(s, code, p, loc_at(code, j)) == Ok::<
            Option<int>,
            SyntaxError,
        >(None),
        _ => false,
    }
}

/// Whether `s[i..j]` holds no backslash, dollar or backquote, so that each
/// character stands for itself.
pub open spec fn plain(s: Seq<char>, i: int, j: int) -> bool {
    forall|k: int| i <= k < j ==> #[trigger] s[k] != '\\' && s[k] != '$' && s[k] != '`'
}

/// Whether `c` stands for itself in an unquoted word.
pub open spec fn is_plain_word_char(c: char) -> bool {
    c != '\\' && c != '$' && c != '`' && c != '\'' && c != '"'
}

/// Whether every character of `s[i..j]` stands for itself in an unquoted
/// word.
pub open spec fn plain_word(s: Seq<char>, i: int, j: int) -> bool {
    forall|k: int| i <= k < j ==> is_plain_word_char(#[trigger] s[k])
}

/// Literal text units for the characters `s[i..j]`.
pub open spec fn literal_units_of(s: Seq<char>, i: int, j: int) -> Seq<TextUnit>
    decreases j - i,
{
    if j <= i {
        Seq::empty()
    } else {
        literal_units_of(s, i, j - 1).push(TextUnit::Literal(s[j - 1]))
    }
}

/// Whether every character of `l` is an ASCII digit.
pub open spec fn all_digits(l: Seq<char>) -> bool {
    forall|i: int| 0 <= i < l.len() ==> '0' <= #[trigger] l[i] <= '9'
}

/// The identifier of a word token whose word has `units` and is followed by
/// the character at `end`.
pub open spec fn word_token_id(units: Seq<WordUnit>, s: Seq<char>, end: int) -> TokenId {
    if units.len() == 0 {
        TokenId::EndOfInput
    } else {
        match literal_of(units) {
            Some(l) => match spec_keyword(l) {
                Some(k) => TokenId::Token(Some(k)),
                None => if all_digits(l) && (char_at(s, end, '<') || char_at(s, end, '>')) {
                    TokenId::IoNumber
                } else {
                    TokenId::Token(None)
                },
            },
            None => TokenId::Token(None),
        }
    }
}

/// Whether `e` is an error noticed at the end of the input.
pub open spec fn at_end(e: Error, s: Seq<char>, code: Rc<Code>) -> bool {
    e.location == loc_at(code, s.len() as int)
}

proof fn lemma_backquote_units_end(s: Seq<char>, i: int, dq: bool)
    requires
        0 <= i <= s.len(),
    ensures
        i <= backquote_units(s, i, dq).1 <= s.len(),
        backquote_units(s, i, dq).1 == s.len() || s[backquote_units(s, i, dq).1] == '`',
    decreases s.len() - i,
{
    lemma_skip_lc_bounds(s, i);
    match backquote_unit_at(s, i, dq) {
        Some((u, k)) => {
            if i < k {
                lemma_skip_lc_bounds(s, i);
                lemma_backquote_units_end(s, k, dq);
            }
        },
        None => {},
    }
}

/// The characters of `lines`, one line after another.
pub open spec fn concat_lines(lines: Seq<String>) -> Seq<char>
    decreases lines.len(),
{
    if lines.len() == 0 {
        Seq::empty()
    } else {
        concat_lines(lines.drop_last()) + lines.last()@
    }
}

/// The error value for a syntax error noticed at the end of the input.
pub open spec fn error_at_end(e: SyntaxError, s: Seq<char>, code: Rc<Code>) -> Error {
    Error { cause: ErrorCause::Syntax(e), location: loc_at(code, s.len() as int) }
}

/// Outcome of parsing a text unit at `i` (after line continuations): no
/// unit (`Ok(None)`), a unit that ends at `e` (`Ok(Some(e))`), or an error.
pub open spec fn unit_step(
    s: Seq<char>,
    code: Rc<Code>,
    i: int,
    delim: CharSet,
    nest: Nesting,
    esc: CharSet,
) -> Result<Option<int>, SyntaxError>
    decreases s.len() - i, 2nat,
{
    let j = skip_lc(s, i);
    if !(0 <= i <= j <= s.len()) {
        Ok(None)
    } else if char_at(s, j, '\\') {
        Ok(Some(if j + 1 < s.len() && esc.has(s[j + 1]) { j + 2 } else { j + 1 }))
    } else if dollar_paren(s, j) {
        dollar_step(s, code, j)
    } else if char_at(s, j, '`') {
        let e = backquote_units(s, j + 1, !esc.has('_')).1;
        if char_at(s, e, '`') {
            Ok(Some(e + 1))
        } else {
            Err(SyntaxError::UnclosedBackquote { opening_location: loc_at(code, j) })
        }
    } else if j < s.len() && !stops(delim, nest, s[j]) {
        Ok(Some(j + 1))
    } else {
        Ok(None)
    }
}

/// Outcome of parsing a dollar unit whose `$` is at `j`.
pub open spec fn dollar_step(s: Seq<char>, code: Rc<Code>, j: int) -> Result<Option<int>, SyntaxError>
    decreases s.len() - j, 1nat,
{
    let p = skip_lc(s, j + 1);
    if !(0 <= j < p < s.len()) {
        Ok(None)
    } else {
        match arith_step(s, code, p, loc_at(code, j)) {
            Err(e) => Err(e),
            Ok(Some(e)) => Ok(Some(e)),
            Ok(None) => cmdsubst_step(s, code, p, loc_at(code, j)),
        }
    }
}

/// Outcome of parsing an arithmetic expansion from the `(` at `p`:
/// `Ok(None)` if it is not one, so that a command substitution is tried.
pub open spec fn arith_step(s: Seq<char>, code: Rc<Code>, p: int, opening: Location) -> Result<
    Option<int>,
    SyntaxError,
>
    decreases s.len() - p, 0nat,
{
    let q = skip_lc(s, p + 1);
    if !char_at(s, p, '(') || !(p < q <= s.len()) || !char_at(s, q, '(') {
        Ok(None)
    } else {
        match parens_end(s, code, q + 1, Seq::empty(), CharSet::One(')'), CharSet::Special(false)) {
            Err(e) => Err(e),
            Ok(b) => if !char_at(s, b, ')') {
                Err(SyntaxError::UnclosedArith { opening_location: opening })
            } else {
                let c = skip_lc(s, b + 1);
                if c >= s.len() {
                    Err(SyntaxError::UnclosedArith { opening_location: opening })
                } else if s[c] == ')' {
                    Ok(Some(c + 1))
                } else {
                    Ok(None)
                }
            },
        }
    }
}

/// Outcome of parsing a command substitution from the `(` at `p`.
pub open spec fn cmdsubst_step(s: Seq<char>, code: Rc<Code>, p: int, opening: Location) -> Result<
    Option<int>,
    SyntaxError,
>
    decreases s.len() - p, 0nat,
{
    if !char_at(s, p, '(') {
        Ok(None)
    } else {
        match program_end(s, code, p + 1, 0) {
            Err(e) => Err(e),
            Ok(e) => if char_at(s, e, ')') {
                Ok(Some(e + 1))
            } else {
                Err(SyntaxError::UnclosedCommandSubstitution { opening_location: opening })
            },
        }
    }
}

/// Outcome of parsing a text from `i`: where it ends.
pub open spec fn text_step(s: Seq<char>, code: Rc<Code>, i: int, delim: CharSet, nest: Nesting, esc: CharSet) -> Result<
    int,
    SyntaxError,
>
    decreases s.len() - i, 3nat,
{
    match unit_step(s, code, i, delim, nest, esc) {
        Err(e) => Err(e),
        Ok(None) => Ok(skip_lc(s, i)),
        Ok(Some(e)) => if i < e <= s.len() {
            text_step(s, code, e, delim, nest, esc)
        } else {
            Ok(i)
        },
    }
}

/// Outcome of parsing a text with parentheses from `i`, with the `(`s at
/// the positions of `open` still to be closed.
pub open spec fn parens_end(
    s: Seq<char>,
    code: Rc<Code>,
    i: int,
    open: Seq<int>,
    delim: CharSet,
    esc: CharSet,
) -> Result<int, SyntaxError>
    decreases s.len() - i, 4nat,
{
    let nest = if open.len() == 0 {
        Nesting::Outside
    } else {
        Nesting::Inside
    };
    match text_step(s, code, i, delim, nest, esc) {
        Err(e) => Err(e),
        Ok(e) => if !(i <= e < s.len()) {
            if open.len() > 0 {
                Err(SyntaxError::UnclosedParen { opening_location: loc_at(code, open.last()) })
            } else {
                Ok(e)
            }
        } else if s[e] == '(' {
            parens_end(s, code, e + 1, open.push(e), delim, esc)
        } else if open.len() > 0 {
            if s[e] == ')' {
                parens_end(s, code, e + 1, open.drop_last(), delim, esc)
            } else {
                Err(SyntaxError::UnclosedParen { opening_location: loc_at(code, open.last()) })
            }
        } else {
            Ok(e)
        },
    }
}

/// Where the commands of a command substitution that start at `i` end,
/// with `depth` parentheses opened by them.
pub open spec fn program_end(s: Seq<char>, code: Rc<Code>, i: int, depth: nat) -> Result<int, SyntaxError>
    decreases s.len() - i, 8nat,
{
    let j = skip_blanks_from(s, i);
    let k = if char_at(s, j, '#') {
        find_char(s, j, '\n')
    } else {
        j
    };
    if !(0 <= i <= k <= s.len()) {
        Ok(i)
    } else if k == s.len() || (depth == 0 && s[k] == ')') {
        Ok(k)
    } else {
        match token_step(s, code, k) {
            Err(e) => Err(e),
            Ok((e, kind)) => if k < e <= s.len() {
                program_end(
                    s,
                    code,
                    e,
                    if kind == 1 {
                        depth + 1
                    } else if kind == -1 && depth > 0 {
                        (depth - 1) as nat
                    } else {
                        depth
                    },
                )
            } else {
                Ok(k)
            },
        }
    }
}

/// Outcome of parsing a token at `k`: where it ends, and `1` for `(`, `-1`
/// for `)`, `0` otherwise.
pub open spec fn token_step(s: Seq<char>, code: Rc<Code>, k: int) -> Result<(int, int), SyntaxError>
    decreases s.len() - k, 7nat,
{
    let j = skip_lc(s, k);
    if !(0 <= k <= j <= s.len()) {
        Ok((k, 0))
    } else {
        match operator_at(s, j) {
            Some((op, end)) => Ok((
                end,
                if op == Operator::OpenParen {
                    1
                } else if op == Operator::CloseParen {
                    -1
                } else {
                    0
                },
            )),
            None => match word_end(s, code, j, CharSet::TokenDelimiters) {
                Err(e) => Err(e),
                Ok(e) => Ok((e, 0)),
            },
        }
    }
}

/// Outcome of parsing a word from `i`: where it ends.
pub open spec fn word_end(s: Seq<char>, code: Rc<Code>, i: int, delim: CharSet) -> Result<int, SyntaxError>
    decreases s.len() - i, 6nat,
{
    match word_unit_step(s, code, i, delim) {
        Err(e) => Err(e),
        Ok(None) => Ok(skip_lc(s, i)),
        Ok(Some(e)) => if i < e <= s.len() {
            word_end(s, code, e, delim)
        } else {
            Ok(i)
        },
    }
}

/// Outcome of parsing a word unit at `i` (after line continuations).
pub open spec fn word_unit_step(s: Seq<char>, code: Rc<Code>, i: int, delim: CharSet) -> Result<
    Option<int>,
    SyntaxError,
>
    decreases s.len() - i, 5nat,
{
    let j = skip_lc(s, i);
    if !(0 <= i <= j <= s.len()) {
        Ok(None)
    } else if char_at(s, j, '\'') {
        let k = find_char(s, j + 1, '\'');
        if k < s.len() {
            Ok(Some(k + 1))
        } else {
            Err(SyntaxError::UnclosedSingleQuote { opening_location: loc_at(code, j) })
        }
    } else if char_at(s, j, '"') {
        match text_step(s, code, j + 1, CharSet::One('"'), Nesting::Flat, CharSet::Special(true)) {
            Err(e) => Err(e),
            Ok(e) => if char_at(s, e, '"') {
                Ok(Some(e + 1))
            } else {
                Err(SyntaxError::UnclosedDoubleQuote { opening_location: loc_at(code, j) })
            },
        }
    } else {
        unit_step(s, code, j, delim, Nesting::Flat, CharSet::Everything)
    }
}

/// Whether `u` is the text unit found from `i` to `e` (see [`unit_step`]).
pub open spec fn unit_is(s: Seq<char>, code: Rc<Code>, i: int, esc: CharSet, u: TextUnit, e: int) -> bool
    decreases u, 1nat,
{
    let j = skip_lc(s, i);
    if char_at(s, j, '\\') {
        u == if j + 1 < s.len() && esc.has(s[j + 1]) {
            TextUnit::Backslashed(s[j + 1])
        } else {
            TextUnit::Literal('\\')
        }
    } else if dollar_paren(s, j) {
        dollar_unit_spans(u, s, code, j, e)
    } else if char_at(s, j, '`') {
        u matches TextUnit::Backquote { content, location } && content@ == backquote_units(
            s,
            j + 1,
            !esc.has('_'),
        ).0 && location == loc_at(code, j)
    } else {
        u == TextUnit::Literal(s[j])
    }
}

/// Whether `units` are the text units parsed from `i` up to the end of the
/// text.
pub open spec fn text_units_are(
    s: Seq<char>,
    code: Rc<Code>,
    i: int,
    delim: CharSet,
    nest: Nesting,
    esc: CharSet,
    units: Seq<TextUnit>,
) -> bool
    decreases units.len(),
{
    match unit_step(s, code, i, delim, nest, esc) {
        Ok(Some(e)) => units.len() > 0 && unit_is(s, code, i, esc, units[0], e) && text_units_are(
            s,
            code,
            e,
            delim,
            nest,
            esc,
            units.drop_first(),
        ),
        _ => units.len() == 0,
    }
}

/// Whether `u` is the word unit found from `i` to `e` (see
/// [`word_unit_step`]).
pub open spec fn word_unit_is(s: Seq<char>, code: Rc<Code>, i: int, u: WordUnit, e: int) -> bool {
    let j = skip_lc(s, i);
    if char_at(s, j, '\'') {
        u matches WordUnit::SingleQuote(c) && c@ == s.subrange(j + 1, e - 1)
    } else if char_at(s, j, '"') {
        u matches WordUnit::DoubleQuote(t) && text_units_are(
            s,
            code,
            j + 1,
            CharSet::One('"'),
            Nesting::Flat,
            CharSet::Special(true),
            t.0@,
        )
    } else {
        u matches WordUnit::Unquoted(t) && unit_is(s, code, j, CharSet::Everything, t, e)
    }
}

/// Whether `units` are the word units parsed from `i` up to the end of the
/// word.
pub open spec fn word_units_are(s: Seq<char>, code: Rc<Code>, i: int, delim: CharSet, units: Seq<WordUnit>) -> bool
    decreases units.len(),
{
    match word_unit_step(s, code, i, delim) {
        Ok(Some(e)) => units.len() > 0 && word_unit_is(s, code, i, units[0], e) && word_units_are(
            s,
            code,
            e,
            delim,
            units.drop_first(),
        ),
        _ => units.len() == 0,
    }
}

/// Whether `units[k..]` are the units of a text with parentheses parsed
/// from `i`, with the `(`s at the positions of `open` still to be closed:
/// [`paren_units_are`] counted from an index.
pub open spec fn paren_units_from(
    s: Seq<char>,
    code: Rc<Code>,
    i: int,
    open: Seq<int>,
    delim: CharSet,
    esc: CharSet,
    units: Seq<TextUnit>,
    k: int,
) -> bool
    decreases units, units.len() - k,
{
    if !(0 <= k <= units.len()) {
        false
    } else {
        match unit_step(s, code, i, delim, nest_of(open), esc) {
            Ok(Some(e)) => k < units.len() && unit_is(s, code, i, esc, units[k], e) && paren_units_from(
                s,
                code,
                e,
                open,
                delim,
                esc,
                units,
                k + 1,
            ),
            Ok(None) => {
                let c = skip_lc(s, i);
                if char_at(s, c, '(') {
                    k < units.len() && units[k] == TextUnit::Literal('(') && paren_units_from(
                        s,
                        code,
                        c + 1,
                        open.push(c),
                        delim,
                        esc,
                        units,
                        k + 1,
                    )
                } else if open.len() > 0 && char_at(s, c, ')') {
                    k < units.len() && units[k] == TextUnit::Literal(')') && paren_units_from(
                        s,
                        code,
                        c + 1,
                        open.drop_last(),
                        delim,
                        esc,
                        units,
                        k + 1,
                    )
                } else {
                    k == units.len()
                }
            },
            Err(_) => k == units.len(),
        }
    }
}

/// Whether `units` are the units of a text with parentheses parsed from
/// `i`, with the `(`s at the positions of `open` still to be closed.
pub open spec fn paren_units_are(
    s: Seq<char>,
    code: Rc<Code>,
    i: int,
    open: Seq<int>,
    delim: CharSet,
    esc: CharSet,
    units: Seq<TextUnit>,
) -> bool
    decreases units.len(),
{
    match unit_step(s, code, i, delim, nest_of(open), esc) {
        Ok(Some(e)) => units.len() > 0 && unit_is(s, code, i, esc, units[0], e) && paren_units_are(
            s,
            code,
            e,
            open,
            delim,
            esc,
            units.drop_first(),
        ),
        Ok(None) => {
            let k = skip_lc(s, i);
            if char_at(s, k, '(') {
                units.len() > 0 && units[0] == TextUnit::Literal('(') && paren_units_are(
                    s,
                    code,
                    k + 1,
                    open.push(k),
                    delim,
                    esc,
                    units.drop_first(),
                )
            } else if open.len() > 0 && char_at(s, k, ')') {
                units.len() > 0 && units[0] == TextUnit::Literal(')') && paren_units_are(
                    s,
                    code,
                    k + 1,
                    open.drop_last(),
                    delim,
                    esc,
                    units.drop_first(),
                )
            } else {
                units.len() == 0
            }
        },
        Err(_) => units.len() == 0,
    }
}

/// Counting from one more index in a sequence with one more unit in front
/// changes nothing.
proof fn lemma_paren_units_shift(
    s: Seq<char>,
    code: Rc<Code>,
    i: int,
    open: Seq<int>,
    delim: CharSet,
    esc: CharSet,
    u: TextUnit,
    x: Seq<TextUnit>,
    k: int,
)
    requires
        0 <= k <= x.len(),
    ensures
        paren_units_from(s, code, i, open, delim, esc, seq![u] + x, k + 1) == paren_units_from(
            s,
            code,
            i,
            open,
            delim,
            esc,
            x,
            k,
        ),
    decreases x.len() - k,
{
    let y = seq![u] + x;
    assert(y.len() == x.len() + 1);
    if k < x.len() {
        assert(y[k + 1] == x[k]);
        match unit_step(s, code, i, delim, nest_of(open), esc) {
            Ok(Some(e)) => {
                lemma_paren_units_shift(s, code, e, open, delim, esc, u, x, k + 1);
            },
            Ok(None) => {
                let c = skip_lc(s, i);
                if char_at(s, c, '(') {
                    lemma_paren_units_shift(s, code, c + 1, open.push(c), delim, esc, u, x, k + 1);
                } else if open.len() > 0 && char_at(s, c, ')') {
                    lemma_paren_units_shift(s, code, c + 1, open.drop_last(), delim, esc, u, x, k + 1);
                }
            },
            Err(_) => {},
        }
    }
}

/// The units of a text with parentheses, counted from index zero.
proof fn lemma_paren_units_from(
    s: Seq<char>,
    code: Rc<Code>,
    i: int,
    open: Seq<int>,
    delim: CharSet,
    esc: CharSet,
    units: Seq<TextUnit>,
)
    requires
        paren_units_are(s, code, i, open, delim, esc, units),
    ensures
        paren_units_from(s, code, i, open, delim, esc, units, 0),
    decreases units.len(),
{
    if units.len() > 0 {
        let df = units.drop_first();
        assert(seq![units[0]] + df =~= units);
        match unit_step(s, code, i, delim, nest_of(open), esc) {
            Ok(Some(e)) => {
                lemma_paren_units_from(s, code, e, open, delim, esc, df);
                lemma_paren_units_shift(s, code, e, open, delim, esc, units[0], df, 0);
            },
            Ok(None) => {
                let c = skip_lc(s, i);
                if char_at(s, c, '(') {
                    lemma_paren_units_from(s, code, c + 1, open.push(c), delim, esc, df);
                    lemma_paren_units_shift(s, code, c + 1, open.push(c), delim, esc, units[0], df, 0);
                } else if open.len() > 0 && char_at(s, c, ')') {
                    lemma_paren_units_from(s, code, c + 1, open.drop_last(), delim, esc, df);
                    lemma_paren_units_shift(s, code, c + 1, open.drop_last(), delim, esc, units[0], df, 0);
                }
            },
            Err(_) => {},
        }
    }
}

/// The nesting of a text inside the parentheses opened at `open`.
pub open spec fn nest_of(open: Seq<int>) -> Nesting {
    if open.len() == 0 {
        Nesting::Outside
    } else {
        Nesting::Inside
    }
}

/// Position of the first character at or after `i` that is not a tab.
pub open spec fn skip_tabs(s: Seq<char>, i: int) -> int
    decreases s.len() - i,
{
    if 0 <= i < s.len() && s[i] == '\t' {
        skip_tabs(s, i + 1)
    } else {
        i
    }
}

/// Where the content of a here-document that starts at `i` ends, just past
/// the line that (without its newline and, if `remove_tabs`, its leading
/// tabs) equals `delimiter`; `None` if no line does.
pub open spec fn here_doc_end(s: Seq<char>, i: int, delimiter: Seq<char>, remove_tabs: bool) -> Option<int>
    decreases s.len() - i,
{
    if !(0 <= i < s.len()) {
        None
    } else {
        let start = if remove_tabs {
            skip_tabs(s, i)
        } else {
            i
        };
        let end = find_char(s, start, '\n');
        let next = if end < s.len() {
            end + 1
        } else {
            end
        };
        if !(i <= start <= end <= s.len()) {
            None
        } else if s.subrange(start, end) == delimiter {
            Some(next)
        } else if i < next {
            here_doc_end(s, next, delimiter, remove_tabs)
        } else {
            None
        }
    }
}

/// Where the next token starts: after blanks, line continuations and a
/// comment.
pub open spec fn token_start(s: Seq<char>, i: int) -> int {
    let j = skip_blanks_from(s, i);
    if char_at(s, j, '#') {
        find_char(s, j, '\n')
    } else {
        j
    }
}

/// Lexical analyzer: a cursor over the characters of one [`Code`].
#[derive(Debug)]
pub struct Lexer {
    code: Rc<Code>,
    chars: Vec<char>,
    index: usize,
}

impl Lexer {
    /// The characters being analyzed.
    pub closed spec fn src(&self) -> Seq<char> {
        self.chars@
    }

    /// The position of the next character to read.
    pub closed spec fn pos(&self) -> int {
        self.index as int
    }

    /// The code whose characters are analyzed.
    pub closed spec fn code(&self) -> Rc<Code> {
        self.code
    }

    /// The characters are those of the code, the position is within them,
    /// and every position up to one past the end fits a location.
    pub closed spec fn wf(&self) -> bool {
        &&& self.chars@.len() <= self.code.value@.len()
        &&& self.chars@ == self.code.value@.subrange(0, self.chars@.len() as int)
        &&& self.index <= self.chars@.len()
        &&& self.chars@.len() + 2 < usize::MAX
    }

    /// A well-formed lexer's position is within its characters, which are
    /// the first characters of its code.
    pub proof fn lemma_bounds(&self)
        requires
            self.wf(),
        ensures
            0 <= self.pos() <= self.src().len(),
            self.src() == self.code().value@.subrange(0, self.src().len() as int),
            self.src().len() <= self.code().value@.len(),
            self.src().len() + 2 < usize::MAX,
    {
    }

    /// `after` is `before` with the cursor moved and nothing else changed.
    pub open spec fn same_code(before: Lexer, after: Lexer) -> bool {
        &&& after.wf()
        &&& after.src() == before.src()
        &&& after.code() == before.code()
    }

    /// Creates a lexer that reads the given code, whose first line is
    /// numbered 1.
    pub fn with_source(source: Source, code: &str) -> (r: Lexer)
        requires
            code@.len() + 2 < usize::MAX,
        ensures
            r.wf(),
            r.src() == code@,
            r.pos() == 0,
            r.code().value@ == code@,
            r.code().start_line_number == 1,
            r.code().source == source,
    {
        let chars = chars_of(code);
        let value = String::from_str(code);
        assert(code@.subrange(0, code@.len() as int) =~= code@);
        Lexer {
            code: Rc::new(Code { value, start_line_number: 1, source }),
            chars,
            index: 0,
        }
    }

    /// Returns a lexer over the same code that reads from the current
    /// position and sees the input end at `end`.
    fn limited(&self, end: usize) -> (r: Lexer)
        requires
            self.wf(),
            self.pos() <= end <= self.src().len(),
        ensures
            r.wf(),
            r.src() == self.src().subrange(0, end as int),
            r.pos() == self.pos(),
            r.code() == self.code(),
    {
        let mut chars: Vec<char> = Vec::new();
        let mut i: usize = 0;
        while i < end
            invariant
                self.wf(),
                end <= self.src().len(),
                i <= end,
                chars@ == self.src().subrange(0, i as int),
            decreases end - i,
        {
            chars.push(self.char_at(i));
            i = i + 1;
            assert(chars@ =~= self.src().subrange(0, i as int));
        }
        assert(self.src().subrange(0, end as int) =~= self.code.value@.subrange(0, end as int));
        Lexer { code: Rc::clone(&self.code), chars, index: self.index }
    }

    /// Returns the code being analyzed.
    pub fn code_ref(&self) -> (r: &Rc<Code>)
        ensures
            *r == self.code(),
    {
        &self.code
    }

    /// Creates a lexer that reads the given lines one after another, as
    /// an input function would hand them over, whose first line is
    /// numbered 1.
    ///
    /// How the text is divided into lines makes no difference: the lexer is
    /// in the same state as one [created](Self::with_source) from the whole
    /// text.
    pub fn from_lines(source: Source, lines: &Vec<String>) -> (r: Lexer)
        requires
            concat_lines(lines@).len() + 2 < usize::MAX,
        ensures
            r.wf(),
            r.src() == concat_lines(lines@),
            r.pos() == 0,
            r.code().value@ == concat_lines(lines@),
            r.code().start_line_number == 1,
            r.code().source == source,
    {
        let mut text = String::new();
        let mut i: usize = 0;
        while i < lines.len()
            invariant
                i <= lines@.len(),
                text@ == concat_lines(lines@.subrange(0, i as int)),
            decreases lines@.len() - i,
        {
            assert(lines@.subrange(0, i as int + 1).drop_last() =~= lines@.subrange(0, i as int));
            text.append(lines[i].as_str());
            i = i + 1;
        }
        assert(lines@.subrange(0, lines@.len() as int) =~= lines@);
        Lexer::with_source(source, text.as_str())
    }

    /// Returns the position of the next character.
    pub fn index(&self) -> (r: usize)
        ensures
            r == self.pos(),
    {
        self.index
    }

    /// Moves the cursor back (or forth) to a position within the code.
    pub fn rewind(&mut self, index: usize)
        requires
            old(self).wf(),
            index <= old(self).src().len(),
        ensures
            Lexer::same_code(*old(self), *final(self)),
            final(self).pos() == index,
    {
        self.index = index;
    }

    /// Returns the character at `i`.
    fn char_at(&self, i: usize) -> (r: char)
        requires
            self.wf(),
            i < self.src().len(),
        ensures
            r == self.src()[i as int],
    {
        char_of(&self.chars, i)
    }

    /// Tests whether the next character is `c`, without consuming it.
    fn next_is(&self, c: char) -> (r: bool)
        requires
            self.wf(),
        ensures
            r == char_at(self.src(), self.pos(), c),
    {
        self.index < self.chars.len() && self.char_at(self.index) == c
    }

    /// Returns the location of the next character (one past the end at the
    /// end of input).
    pub fn location(&self) -> (r: Location)
        requires
            self.wf(),
        ensures
            r == loc_at(self.code(), self.pos()),
    {
        Location::at(&self.code, self.index)
    }

    /// Returns the next character and its location, without consuming it.
    pub fn peek_char(&self) -> (r: Option<SourceChar>)
        requires
            self.wf(),
        ensures
            self.pos() < self.src().len() ==> r == Some(
                SourceChar { value: self.src()[self.pos()], location: loc_at(self.code(), self.pos()) },
            ),
            self.pos() >= self.src().len() ==> r is None,
    {
        if self.index < self.chars.len() {
            Some(SourceChar { value: self.char_at(self.index), location: self.location() })
        } else {
            None
        }
    }

    /// Consumes the next character if it is `c`.
    fn skip_char(&mut self, c: char) -> (r: bool)
        requires
            old(self).wf(),
        ensures
            Lexer::same_code(*old(self), *final(self)),
            r == char_at(old(self).src(), old(self).pos(), c),
            final(self).pos() == if r { old(self).pos() + 1 } else { old(self).pos() },
    {
        if self.next_is(c) {
            self.index = self.index + 1;
            true
        } else {
            false
        }
    }

    /// Skips line continuations, if any.
    pub fn line_continuations(&mut self)
        requires
            old(self).wf(),
        ensures
            Lexer::same_code(*old(self), *final(self)),
            final(self).pos() == skip_lc(old(self).src(), old(self).pos()),
            old(self).pos() <= final(self).pos(),
    {
        proof {
            lemma_skip_lc_bounds(self.src(), self.pos());
        }
        while self.index + 1 < self.chars.len() && self.char_at(self.index) == '\\'
            && self.char_at(self.index + 1) == '\n'
            invariant
                Lexer::same_code(*old(self), *self),
                old(self).pos() <= self.pos(),
                skip_lc(self.src(), self.pos()) == skip_lc(old(self).src(), old(self).pos()),
            decreases self.src().len() - self.pos(),
        {
            self.index = self.index + 2;
        }
    }

    /// Skips blanks and line continuations.
    pub fn skip_blanks(&mut self)
        requires
            old(self).wf(),
        ensures
            Lexer::same_code(*old(self), *final(self)),
            final(self).pos() == skip_blanks_from(old(self).src(), old(self).pos()),
            old(self).pos() <= final(self).pos(),
            final(self).pos() == final(self).src().len() || (!spec_is_blank(final(self).src()[final(self).pos()])
                && skip_lc(final(self).src(), final(self).pos()) == final(self).pos()),
    {
        proof {
            lemma_skip_blanks_bounds(self.src(), self.pos());
            lemma_skip_blanks_end(self.src(), self.pos());
        }
        loop
            invariant
                Lexer::same_code(*old(self), *self),
                old(self).pos() <= self.pos(),
                skip_blanks_from(self.src(), self.pos()) == skip_blanks_from(
                    old(self).src(),
                    old(self).pos(),
                ),
            decreases self.src().len() - self.pos(),
        {
            let ghost at = self.pos();
            self.line_continuations();
            proof {
                lemma_skip_lc_bounds(self.src(), at);
            }
            if self.index < self.chars.len() && is_blank(self.char_at(self.index)) {
                self.index = self.index + 1;
            } else {
                return;
            }
        }
    }

    /// Returns the location of the characters from `start` to the cursor.
    fn span_from(&self, start: usize) -> (r: Location)
        requires
            self.wf(),
            start <= self.pos(),
        ensures
            r == span(self.code(), start as int, self.pos()),
    {
        Location { code: Rc::clone(&self.code), range: start..self.index }
    }

    /// Consumes the next character if it is `c` and returns the position
    /// after it; otherwise moves the cursor to `fallback`.
    fn follow(&mut self, c: char, fallback: usize) -> (r: bool)
        requires
            old(self).wf(),
            fallback <= old(self).src().len(),
        ensures
            Lexer::same_code(*old(self), *final(self)),
            r == char_at(old(self).src(), old(self).pos(), c),
            final(self).pos() == if r { old(self).pos() + 1 } else { fallback as int },
    {
        if self.skip_char(c) {
            true
        } else {
            self.index = fallback;
            false
        }
    }

    /// Parses an operator that starts at the next character, after line
    /// continuations.
    ///
    /// The longest operator is taken; line continuations may stand between
    /// its characters. The token's word spells the operator.
    pub fn operator(&mut self) -> (r: Option<Token>)
        requires
            old(self).wf(),
        ensures
            Lexer::same_code(*old(self), *final(self)),
            ({
                let i = skip_lc(old(self).src(), old(self).pos());
                match operator_at(old(self).src(), i) {
                    Some((op, end)) => r matches Some(t) && t.id == TokenId::Operator(op)
                        && t.index == i && final(self).pos() == end
                        && t.word.location == span(old(self).code(), i, end)
                        && literal_of(t.word.units@) == Some(operator_spelling(op)),
                    None => r is None && final(self).pos() == i,
                }
            }),
    {
        self.line_continuations();
        proof {
            lemma_skip_lc_bounds(self.src(), old(self).pos());
        }
        let start = self.index;
        if start >= self.chars.len() {
            return None;
        }
        let c = self.char_at(start);
        self.index = start + 1;
        let op = if c == '\n' {
            Operator::Newline
        } else if c == '(' {
            Operator::OpenParen
        } else if c == ')' {
            Operator::CloseParen
        } else if c == ';' || c == '&' || c == '|' {
            self.line_continuations();
            proof {
                lemma_skip_lc_bounds(self.src(), start + 1);
            }
            if self.follow(c, start + 1) {
                if c == ';' {
                    Operator::SemicolonSemicolon
                } else if c == '&' {
                    Operator::AndAnd
                } else {
                    Operator::BarBar
                }
            } else if c == ';' {
                Operator::Semicolon
            } else if c == '&' {
                Operator::And
            } else {
                Operator::Bar
            }
        } else if c == '<' {
            self.line_continuations();
            proof {
                lemma_skip_lc_bounds(self.src(), start + 1);
            }
            let j = self.index;
            if self.skip_char('<') {
                self.line_continuations();
                proof {
                    lemma_skip_lc_bounds(self.src(), j + 1);
                }
                if self.follow('-', j + 1) {
                    Operator::LessLessDash
                } else {
                    Operator::LessLess
                }
            } else if self.skip_char('&') {
                Operator::LessAnd
            } else if self.follow('>', start + 1) {
                Operator::LessGreater
            } else {
                Operator::Less
            }
        } else if c == '>' {
            self.line_continuations();
            proof {
                lemma_skip_lc_bounds(self.src(), start + 1);
            }
            if self.skip_char('>') {
                Operator::GreaterGreater
            } else if self.skip_char('&') {
                Operator::GreaterAnd
            } else if self.follow('|', start + 1) {
                Operator::GreaterBar
            } else {
                Operator::Greater
            }
        } else {
            self.index = start;
            return None;
        };
        let units = literal_units(&operator_chars(op));
        let location = self.span_from(start);
        Some(Token { word: Word { units, location }, id: TokenId::Operator(op), index: start })
    }

    /// Parses a single-quoted string.
    ///
    /// The opening `'` must have been consumed before calling this function;
    /// the closing `'` is consumed here. Every character up to it, a
    /// backslash and a newline included, is literal. `opening_location`
    /// should be the location of the opening `'`; it is used in the error
    /// value.
    fn single_quote(&mut self, opening_location: Location) -> (r: Result<WordUnit, Error>)
        requires
            old(self).wf(),
        ensures
            Lexer::same_code(*old(self), *final(self)),
            ({
                let s = old(self).src();
                let k = find_char(s, old(self).pos(), '\'');
                if k < s.len() {
                    r matches Ok(WordUnit::SingleQuote(content))
                        && content@ == s.subrange(old(self).pos(), k)
                        && final(self).pos() == k + 1
                } else {
                    r == Err::<WordUnit, Error>(
                        Error {
                            cause: ErrorCause::Syntax(SyntaxError::UnclosedSingleQuote { opening_location }),
                            location: loc_at(old(self).code(), s.len() as int),
                        },
                    ) && final(self).pos() == s.len()
                }
            }),
    {
        let start = self.index;
        proof {
            lemma_find_char(self.src(), start as int, '\'');
        }
        while self.index < self.chars.len() && self.char_at(self.index) != '\''
            invariant
                Lexer::same_code(*old(self), *self),
                start == old(self).pos(),
                start <= self.pos(),
                find_char(self.src(), self.pos(), '\'') == find_char(self.src(), start as int, '\''),
            decreases self.src().len() - self.pos(),
        {
            self.index = self.index + 1;
        }
        if self.index < self.chars.len() {
            let content = string_of(&self.chars, start, self.index);
            self.index = self.index + 1;
            Ok(WordUnit::SingleQuote(content))
        } else {
            let location = self.location();
            Err(Error { cause: ErrorCause::Syntax(SyntaxError::UnclosedSingleQuote { opening_location }), location })
        }
    }

    /// Parses a backquote unit, possibly preceded by line continuations.
    fn backquote_unit(&mut self, double_quote_escapable: bool) -> (r: Option<BackquoteUnit>)
        requires
            old(self).wf(),
        ensures
            Lexer::same_code(*old(self), *final(self)),
            match backquote_unit_at(old(self).src(), old(self).pos(), double_quote_escapable) {
                Some((u, k)) => r == Some(u) && final(self).pos() == k,
                None => r is None && final(self).pos() == skip_lc(old(self).src(), old(self).pos()),
            },
            old(self).pos() <= final(self).pos(),
            r is Some ==> old(self).pos() < final(self).pos(),
    {
        self.line_continuations();
        proof {
            lemma_skip_lc_bounds(self.src(), old(self).pos());
        }
        let j = self.index;
        if self.skip_char('\\') {
            if self.index < self.chars.len() {
                let c = self.char_at(self.index);
                if c == '$' || c == '`' || c == '\\' || (c == '"' && double_quote_escapable) {
                    self.index = self.index + 1;
                    return Some(BackquoteUnit::Backslashed(c));
                }
            }
            return Some(BackquoteUnit::Literal('\\'));
        }
        if j < self.chars.len() {
            let c = self.char_at(j);
            if c != '`' {
                self.index = j + 1;
                return Some(BackquoteUnit::Literal(c));
            }
        }
        None
    }

    /// Parses a command substitution of the form `` `...` ``.
    ///
    /// If the next character is a backquote, the command substitution is
    /// parsed up to the closing backquote (inclusive); it is a syntax error if
    /// there is none. Between the backquotes, only backslashes are special: a
    /// backslash followed by a newline is a line continuation, and a
    /// backslash escapes a dollar, a backquote, another backslash, and a
    /// double quote if `double_quote_escapable`. Any other backslash is
    /// literal.
    pub fn backquote(&mut self, double_quote_escapable: bool) -> (r: Result<Option<TextUnit>, Error>)
        requires
            old(self).wf(),
        ensures
            Lexer::same_code(*old(self), *final(self)),
            ({
                let s = old(self).src();
                let i = old(self).pos();
                let units = backquote_units(s, i + 1, double_quote_escapable);
                &&& !char_at(s, i, '`') ==> r == Ok::<Option<TextUnit>, Error>(None)
                    && final(self).pos() == i
                &&& char_at(s, i, '`') && char_at(s, units.1, '`') ==> (r matches Ok(
                    Some(TextUnit::Backquote { content, location }),
                ) && content@ == units.0 && location == loc_at(old(self).code(), i)
                    && final(self).pos() == units.1 + 1)
                &&& char_at(s, i, '`') && !char_at(s, units.1, '`') ==> r == Err::<
                    Option<TextUnit>,
                    Error,
                >(
                    Error {
                        cause: ErrorCause::Syntax(
                            SyntaxError::UnclosedBackquote { opening_location: loc_at(old(self).code(), i) },
                        ),
                        location: loc_at(old(self).code(), units.1),
                    },
                ) && final(self).pos() == units.1
            }),
    {
        let start = self.index;
        if !self.skip_char('`') {
            return Ok(None);
        }
        let location = Location::at(&self.code, start);
        let mut content: Vec<BackquoteUnit> = Vec::new();
        loop
            invariant
                Lexer::same_code(*old(self), *self),
                start + 1 <= self.pos(),
                start == old(self).pos(),
                char_at(old(self).src(), start as int, '`'),
                location == loc_at(self.code(), start as int),
                backquote_units(self.src(), start + 1, double_quote_escapable).0
                    == content@ + backquote_units(self.src(), self.pos(), double_quote_escapable).0,
                backquote_units(self.src(), start + 1, double_quote_escapable).1
                    == backquote_units(self.src(), self.pos(), double_quote_escapable).1,
            decreases self.src().len() - self.pos(),
        {
            let ghost at = self.pos();
            match self.backquote_unit(double_quote_escapable) {
                Some(u) => {
                    let ghost rest = backquote_units(self.src(), self.pos(), double_quote_escapable);
                    assert(backquote_units(self.src(), at, double_quote_escapable) == (seq![u] + rest.0, rest.1));
                    content.push(u);
                    assert(content@ + rest.0 =~= content@.drop_last() + (seq![u] + rest.0));
                },
                None => {
                    assert(backquote_units(self.src(), at, double_quote_escapable) == (
                        Seq::<BackquoteUnit>::empty(),
                        self.pos(),
                    ));
                    assert(content@ + Seq::<BackquoteUnit>::empty() =~= content@);
                    if self.skip_char('`') {
                        return Ok(Some(TextUnit::Backquote { content, location }));
                    } else {
                        let here = self.location();
                        return Err(
                            Error {
                                cause: ErrorCause::Syntax(
                                    SyntaxError::UnclosedBackquote { opening_location: location },
                                ),
                                location: here,
                            },
                        );
                    }
                },
            }
        }
    }

    /// Reads the content of a here-document: whole lines up to one that,
    /// without its newline and, if `remove_tabs`, its leading tabs, equals
    /// `delimiter`. That line is consumed but not part of the content. If
    /// `remove_tabs`, leading tabs are removed from each content line.
    ///
    /// If `expand`, each content line is parsed as a text in which a
    /// backslash escapes only `$`, `` ` `` and `\`, so that expansions are
    /// recognized; otherwise every character is literal.
    ///
    /// It is an error if input ends first; `redir_op_location` is the
    /// location of the here-document operator, used in the error value.
    pub fn here_doc_content(
        &mut self,
        delimiter: &str,
        remove_tabs: bool,
        expand: bool,
        redir_op_location: Location,
    ) -> (r: Result<Text, Error>)
        requires
            old(self).wf(),
        ensures
            Lexer::same_code(*old(self), *final(self)),
            old(self).pos() <= final(self).pos(),
            ({
                let h = here_doc_end(old(self).src(), old(self).pos(), delimiter@, remove_tabs);
                &&& r is Ok ==> h == Some(final(self).pos())
                &&& h is None ==> r is Err
                &&& !expand ==> (r is Ok <==> h is Some)
            }),
            r is Ok ==> old(self).pos() < final(self).pos(),
            r matches Ok(t) ==> (!expand && !remove_tabs ==> exists|d: int|
                #![trigger literal_units_of(old(self).src(), old(self).pos(), d)]
                old(self).pos() <= d <= final(self).pos() && t.0@ == literal_units_of(
                    old(self).src(),
                    old(self).pos(),
                    d,
                ) && (old(self).src().subrange(d, final(self).pos()) == delimiter@ || old(
                    self,
                ).src().subrange(d, final(self).pos()) == delimiter@.push('\n'))),
            !expand ==> (r matches Err(e) ==> (e == (Error {
                cause: ErrorCause::Syntax(SyntaxError::UnclosedHereDoc { redir_op_location }),
                location: loc_at(old(self).code(), old(self).src().len() as int),
            }) && final(self).pos() == final(self).src().len())),
    {
        let d = chars_of(delimiter);
        let mut units: Vec<TextUnit> = Vec::new();
        assert(units@ =~= literal_units_of(self.src(), self.pos(), self.pos()));
        loop
            invariant
                here_doc_end(self.src(), old(self).pos(), delimiter@, remove_tabs) == here_doc_end(
                    self.src(),
                    self.pos(),
                    delimiter@,
                    remove_tabs,
                ),
                Lexer::same_code(*old(self), *self),
                old(self).pos() <= self.pos(),
                d@ == delimiter@,
                !expand && !remove_tabs ==> units@ == literal_units_of(self.src(), old(self).pos(), self.pos()),
            decreases self.src().len() - self.pos(),
        {
            if self.index >= self.chars.len() {
                let location = self.location();
                return Err(
                    Error { cause: ErrorCause::Syntax(SyntaxError::UnclosedHereDoc { redir_op_location }), location },
                );
            }
            let mut start = self.index;
            if remove_tabs {
                while start < self.chars.len() && self.char_at(start) == '\t'
                    invariant
                        skip_tabs(self.src(), start as int) == skip_tabs(self.src(), self.pos()),
                        self.wf(),
                        self.pos() <= start <= self.src().len(),
                    decreases self.src().len() - start,
                {
                    start = start + 1;
                }
            }
            let mut end = start;
            while end < self.chars.len() && self.char_at(end) != '\n'
                invariant
                    find_char(self.src(), end as int, '\n') == find_char(self.src(), start as int, '\n'),
                    self.wf(),
                    start <= end <= self.src().len(),
                decreases self.src().len() - end,
            {
                end = end + 1;
            }
            let next = if end < self.chars.len() {
                end + 1
            } else {
                end
            };
            if self.range_equals(start, end, &d) {
                let ghost line_start = self.pos();
                self.index = next;
                proof {
                    if !expand && !remove_tabs {
                        let s = self.src();
                        assert(start == line_start);
                        if end < next {
                            assert(s.subrange(line_start, next as int) =~= s.subrange(start as int, end as int).push(
                                '\n',
                            ));
                        } else {
                            assert(s.subrange(line_start, next as int) =~= s.subrange(start as int, end as int));
                        }
                        assert(units@ == literal_units_of(s, old(self).pos(), line_start));
                    }
                }
                return Ok(Text(units));
            }
            if expand {
                let mut line = self.limited(next);
                line.index = start;
                let escapable = CharSet::Special(false);
                let mut text = line.text(&CharSet::Nothing, &escapable)?;
                units.append(&mut text.0);
            } else {
                let mut k = start;
                while k < next
                    invariant
                        self.wf(),
                        Lexer::same_code(*old(self), *self),
                        old(self).pos() <= self.pos() <= start <= k <= next <= self.src().len(),
                        !remove_tabs ==> start == self.pos(),
                        !expand && !remove_tabs ==> units@ == literal_units_of(self.src(), old(self).pos(), k as int),
                    decreases next - k,
                {
                    let ghost before = units@;
                    let c = self.char_at(k);
                    units.push(TextUnit::Literal(c));
                    proof {
                        if !expand && !remove_tabs {
                            assert(units@ =~= before.push(TextUnit::Literal(self.src()[k as int])));
                        }
                    }
                    k = k + 1;
                }
            }
            self.index = next;
        }
    }

    /// Tests whether the characters `lo..hi` are those of `d`.
    fn range_equals(&self, lo: usize, hi: usize, d: &Vec<char>) -> (r: bool)
        requires
            self.wf(),
            lo <= hi <= self.src().len(),
        ensures
            r == (self.src().subrange(lo as int, hi as int) == d@),
    {
        if hi - lo != d.len() {
            return false;
        }
        let mut i: usize = 0;
        while i < d.len()
            invariant
                self.wf(),
                lo <= hi <= self.src().len(),
                hi - lo == d@.len(),
                i <= d@.len(),
                forall|k: int| 0 <= k < i ==> self.src()[lo + k] == d@[k],
            decreases d@.len() - i,
        {
            if self.char_at(lo + i) != char_of(d, i) {
                assert(self.src().subrange(lo as int, hi as int)[i as int] != d@[i as int]);
                return false;
            }
            i = i + 1;
        }
        assert(self.src().subrange(lo as int, hi as int) =~= d@);
        true
    }

    /// Parses a command substitution of the form `$(...)`.
    ///
    /// The initial `$` must have been consumed before calling this function.
    /// If the next character is `(`, the following characters are parsed as
    /// commands up to the matching `)`, which is consumed too. Otherwise, no
    /// characters are consumed and the result is `Ok(None)`.
    ///
    /// `opening_location` should be the location of the initial `$`.
    pub fn command_substitution(&mut self, opening_location: Location) -> (r: Result<Option<TextUnit>, Error>)
        requires
            old(self).wf(),
        ensures
            Lexer::same_code(*old(self), *final(self)),
            ({
                let s = old(self).src();
                let code = old(self).code();
                match cmdsubst_step(s, code, old(self).pos(), opening_location) {
                    Err(e) => r == Err::<Option<TextUnit>, Error>(error_at_end(e, s, code)),
                    Ok(None) => r == Ok::<Option<TextUnit>, Error>(None) && final(self).pos() == old(self).pos(),
                    Ok(Some(e)) => final(self).pos() == e && (r matches Ok(Some(u)) && (u matches TextUnit::CommandSubst {
                        content,
                        location,
                    } && location == opening_location && content@ == s.subrange(old(self).pos() + 1, e - 1))),
                }
            }),
            old(self).pos() <= final(self).pos(),
            !char_at(old(self).src(), old(self).pos(), '(') ==> r == Ok::<Option<TextUnit>, Error>(None)
                && final(self).pos() == old(self).pos(),
            r matches Ok(Some(u)) ==> (u matches TextUnit::CommandSubst { content, location }
                && location == opening_location
                && old(self).pos() + 2 <= final(self).pos()
                && final(self).src()[final(self).pos() - 1] == ')'
                && content@ == old(self).src().subrange(old(self).pos() + 1, final(self).pos() - 1)),
            r matches Ok(None) ==> !char_at(old(self).src(), old(self).pos(), '('),
            r matches Err(e) ==> at_end(e, old(self).src(), old(self).code()),
        decreases old(self).src().len() - old(self).pos(), 2nat,
    {
        if !self.skip_char('(') {
            return Ok(None);
        }
        let content = self.inner_program()?;
        if !self.skip_char(')') {
            let location = self.location();
            return Err(
                Error {
                    cause: ErrorCause::Syntax(SyntaxError::UnclosedCommandSubstitution { opening_location }),
                    location,
                },
            );
        }
        Ok(Some(TextUnit::CommandSubst { content, location: opening_location }))
    }

    /// Skips a comment: from `#` up to (not including) the next newline.
    pub fn skip_comment(&mut self)
        requires
            old(self).wf(),
        ensures
            Lexer::same_code(*old(self), *final(self)),
            old(self).pos() <= final(self).pos(),
            final(self).pos() == if char_at(old(self).src(), old(self).pos(), '#') {
                find_char(old(self).src(), old(self).pos(), '\n')
            } else {
                old(self).pos()
            },
            char_at(old(self).src(), old(self).pos(), '#') ==> (final(self).pos() == final(self).src().len()
                || final(self).src()[final(self).pos()] == '\n'),
    {
        if !self.next_is('#') {
            return;
        }
        proof {
            lemma_find_char(self.src(), self.pos(), '\n');
        }
        while self.index < self.chars.len() && self.char_at(self.index) != '\n'
            invariant
                Lexer::same_code(*old(self), *self),
                old(self).pos() <= self.pos(),
                char_at(old(self).src(), old(self).pos(), '#'),
                find_char(self.src(), self.pos(), '\n') == find_char(old(self).src(), old(self).pos(), '\n'),
            decreases self.src().len() - self.pos(),
        {
            self.index = self.index + 1;
        }
    }

    /// Scans the commands of a command substitution, up to the `)` that
    /// closes it or the end of input, and returns their text.
    ///
    /// Parentheses that the commands open must be closed inside them.
    fn inner_program(&mut self) -> (r: Result<String, Error>)
        requires
            old(self).wf(),
        ensures
            Lexer::same_code(*old(self), *final(self)),
            ({
                let s = old(self).src();
                let code = old(self).code();
                match program_end(s, code, old(self).pos(), 0) {
                    Err(e) => r == Err::<String, Error>(error_at_end(e, s, code)),
                    Ok(e) => final(self).pos() == e && (r matches Ok(c) && c@ == s.subrange(old(self).pos(), e)),
                }
            }),
            old(self).pos() <= final(self).pos(),
            r matches Ok(content) ==> content@ == old(self).src().subrange(old(self).pos(), final(self).pos())
                && (final(self).pos() == final(self).src().len() || final(self).src()[final(self).pos()] == ')'),
            r matches Err(e) ==> at_end(e, old(self).src(), old(self).code()),
        decreases old(self).src().len() - old(self).pos(), 13nat,
    {
        let start = self.index;
        let mut depth: usize = 0;
        loop
            invariant
                Lexer::same_code(*old(self), *self),
                start == old(self).pos(),
                start <= self.pos(),
                depth <= self.pos(),
                program_end(self.src(), self.code(), start as int, 0) == program_end(
                    self.src(),
                    self.code(),
                    self.pos(),
                    depth as nat,
                ),
            decreases self.src().len() - self.pos(),
        {
            let ghost before = self.pos();
            self.skip_blanks();
            proof {
                lemma_skip_blanks_bounds(self.src(), before);
                lemma_skip_blanks_end(self.src(), before);
                lemma_find_char(self.src(), self.pos(), '\n');
            }
            self.skip_comment();
            proof {
                self.lemma_bounds();
            }
            if self.index >= self.chars.len() || (depth == 0 && self.next_is(')')) {
                let content = string_of(&self.chars, start, self.index);
                return Ok(content);
            }
            let ghost at = self.pos();
            proof {
                lemma_skip_lc_bounds(self.src(), at);
                lemma_operator_at(self.src(), at);
            }
            let token = self.token()?;
            match token.id {
                TokenId::Operator(Operator::OpenParen) => {
                    depth = depth + 1;
                },
                TokenId::Operator(Operator::CloseParen) => {
                    if depth > 0 {
                        depth = depth - 1;
                    }
                },
                _ => {},
            }
            assert(at < self.pos());
        }
    }

    /// Parses an arithmetic expansion.
    ///
    /// The initial `$` must have been consumed before calling this function.
    /// If the next two characters are `((`, possibly with line continuations
    /// between them, the expansion is parsed up to the closing `))`
    /// (inclusive). Otherwise no characters are consumed and the result is
    /// `Ok(Err(location))`, so that a command substitution can be tried.
    ///
    /// `location` should be the location of the initial `$`.
    pub fn arithmetic_expansion(&mut self, location: Location) -> (r: Result<Result<TextUnit, Location>, Error>)
        requires
            old(self).wf(),
        ensures
            Lexer::same_code(*old(self), *final(self)),
            ({
                let s = old(self).src();
                let code = old(self).code();
                match arith_step(s, code, old(self).pos(), location) {
                    Err(e) => r == Err::<Result<TextUnit, Location>, Error>(error_at_end(e, s, code)),
                    Ok(None) => r == Ok::<Result<TextUnit, Location>, Error>(Err(location)) && final(self).pos() == old(self).pos(),
                    Ok(Some(e)) => final(self).pos() == e && (r matches Ok(Ok(u)) && (u matches TextUnit::Arith {
                        location: l,
                        content,
                    } && l == location && paren_units_are(
                        s,
                        code,
                        skip_lc(s, old(self).pos() + 1) + 1,
                        Seq::empty(),
                        CharSet::One(')'),
                        CharSet::Special(false),
                        content.0@,
                    ))),
                }
            }),
            old(self).pos() <= final(self).pos(),
            !char_at(old(self).src(), old(self).pos(), '(') ==> r == Ok::<Result<TextUnit, Location>, Error>(
                Err(location),
            ),
            r matches Ok(Err(l)) ==> l == location && final(self).pos() == old(self).pos(),
            r matches Ok(Ok(u)) ==> (u matches TextUnit::Arith { location: l, .. } && l == location
                && old(self).pos() + 4 <= final(self).pos()
                && final(self).src()[final(self).pos() - 1] == ')'),
            r matches Ok(Ok(u)) ==> (u matches TextUnit::Arith { content, .. } && ({
                let s = old(self).src();
                let a = skip_lc(s, old(self).pos() + 1) + 1;
                plain(s, a, final(self).pos()) ==> content.0@ == literal_units_of(s, a, final(self).pos() - 2)
            })),
            r matches Err(e) ==> at_end(e, old(self).src(), old(self).code()),
        decreases old(self).src().len() - old(self).pos(), 2nat,
    {
        let index = self.index;
        if !self.skip_char('(') {
            return Ok(Err(location));
        }
        self.line_continuations();
        proof {
            lemma_skip_lc_bounds(self.src(), index + 1);
        }
        if !self.skip_char('(') {
            self.index = index;
            return Ok(Err(location));
        }
        let close = CharSet::One(')');
        let escapable = CharSet::Special(false);
        let ghost a = self.pos();
        let content = self.text_with_parentheses(&close, &escapable)?;
        let ghost b = self.pos();
        if !self.skip_char(')') {
            let here = self.location();
            return Err(
                Error { cause: ErrorCause::Syntax(SyntaxError::UnclosedArith { opening_location: location }), location: here },
            );
        }
        let ghost before = self.pos();
        self.line_continuations();
        proof {
            lemma_skip_lc_bounds(self.src(), before);
        }
        if self.index >= self.chars.len() {
            let here = self.location();
            return Err(
                Error { cause: ErrorCause::Syntax(SyntaxError::UnclosedArith { opening_location: location }), location: here },
            );
        }
        if !self.skip_char(')') {
            self.index = index;
            return Ok(Err(location));
        }
        proof {
            let s = self.src();
            if plain(s, a, self.pos()) {
                assert(s[b + 1] != '\\' || b + 1 >= self.pos());
                assert(!is_line_continuation(s, b + 1));
                assert(self.pos() == b + 2);
                assert(plain(s, a, b));
            }
        }
        Ok(Ok(TextUnit::Arith { content, location }))
    }

    /// Parses a text unit that starts with `$`.
    ///
    /// If the next character is `$` followed, possibly after line
    /// continuations, by `(`, an arithmetic expansion or a command
    /// substitution is parsed. Otherwise no characters are consumed and the
    /// result is `Ok(None)`.
    #[verifier::rlimit(100)]
    #[verifier::spinoff_prover]
    pub fn dollar_unit(&mut self) -> (r: Result<Option<TextUnit>, Error>)
        requires
            old(self).wf(),
        ensures
            Lexer::same_code(*old(self), *final(self)),
            dollar_paren(old(self).src(), old(self).pos()) ==> ({
                let s = old(self).src();
                let code = old(self).code();
                match dollar_step(s, code, old(self).pos()) {
                    Err(e) => r == Err::<Option<TextUnit>, Error>(error_at_end(e, s, code)),
                    Ok(None) => r == Ok::<Option<TextUnit>, Error>(None) && final(self).pos() == old(self).pos(),
                    Ok(Some(e)) => final(self).pos() == e && (r matches Ok(Some(u)) && dollar_unit_spans(
                        u,
                        s,
                        code,
                        old(self).pos(),
                        e,
                    ) && (u matches TextUnit::Arith { content, .. } ==> paren_units_are(
                        s,
                        code,
                        skip_lc(s, skip_lc(s, old(self).pos() + 1) + 1) + 1,
                        Seq::empty(),
                        CharSet::One(')'),
                        CharSet::Special(false),
                        content.0@,
                    ))),
                }
            }),
            old(self).pos() <= final(self).pos(),
            ({
                let s = old(self).src();
                let i = old(self).pos();
                &&& !dollar_paren(s, i) ==> r == Ok::<Option<TextUnit>, Error>(None)
                    && final(self).pos() == i
                &&& dollar_paren(s, i) ==> (r matches Ok(ou) ==> (ou matches Some(u)
                    && dollar_unit_spans(u, s, old(self).code(), i, final(self).pos())))
                &&& r matches Err(e) ==> at_end(e, s, old(self).code())
            }),
        decreases old(self).src().len() - old(self).pos(), 3nat,
    {
        let index = self.index;
        if !self.next_is('$') {
            return Ok(None);
        }
        let location = Location::at(&self.code, index);
        self.index = index + 1;
        self.line_continuations();
        proof {
            lemma_skip_lc_bounds(self.src(), index + 1);
        }
        let location = match self.arithmetic_expansion(location)? {
            Ok(result) => {
                proof {
                    if let TextUnit::Arith { content, .. } = &result {
                        let s = self.src();
                        lemma_paren_units_from(
                            s,
                            self.code(),
                            skip_lc(s, skip_lc(s, index + 1) + 1) + 1,
                            Seq::empty(),
                            CharSet::One(')'),
                            CharSet::Special(false),
                            content.0@,
                        );
                    }
                }
                return Ok(Some(result));
            },
            Err(location) => location,
        };
        if let Some(result) = self.command_substitution(location)? {
            return Ok(Some(result));
        }
        self.index = index;
        Ok(None)
    }

    /// Parses a [`TextUnit`] in the given nesting.
    fn text_unit_in(&mut self, delim: &CharSet, nest: Nesting, escapable: &CharSet) -> (r: Result<Option<TextUnit>, Error>)
        requires
            old(self).wf(),
        ensures
            Lexer::same_code(*old(self), *final(self)),
            ({
                let s = old(self).src();
                let code = old(self).code();
                match unit_step(s, code, old(self).pos(), *delim, nest, *escapable) {
                    Err(e) => r == Err::<Option<TextUnit>, Error>(error_at_end(e, s, code)),
                    Ok(None) => r == Ok::<Option<TextUnit>, Error>(None) && final(self).pos() == skip_lc(s, old(self).pos()),
                    Ok(Some(e)) => final(self).pos() == e && (r matches Ok(Some(u)) && unit_is(
                        s,
                        code,
                        old(self).pos(),
                        *escapable,
                        u,
                        e,
                    )),
                }
            }),
            old(self).pos() <= final(self).pos(),
            ({
                let s = old(self).src();
                let code = old(self).code();
                let j = skip_lc(s, old(self).pos());
                let dq = !escapable.has('_');
                &&& r matches Ok(None) ==> final(self).pos() == j && text_ends_at(s, j, *delim, nest)
                &&& r matches Ok(Some(_)) ==> old(self).pos() < final(self).pos()
                &&& r matches Err(e) ==> at_end(e, s, code)
                &&& char_at(s, j, '\\') ==> if j + 1 < s.len() && escapable.has(s[j + 1]) {
                    r == Ok::<Option<TextUnit>, Error>(Some(TextUnit::Backslashed(s[j + 1])))
                        && final(self).pos() == j + 2
                } else {
                    r == Ok::<Option<TextUnit>, Error>(Some(TextUnit::Literal('\\'))) && final(self).pos() == j + 1
                }
                &&& dollar_paren(s, j) ==> (r matches Ok(ou) ==> (ou matches Some(u)
                    && dollar_unit_spans(u, s, code, j, final(self).pos())))
                &&& char_at(s, j, '`') ==> (r matches Ok(ou) ==> (ou matches Some(
                    TextUnit::Backquote { content, location },
                ) && content@ == backquote_units(s, j + 1, dq).0 && location == loc_at(code, j)
                    && final(self).pos() == backquote_units(s, j + 1, dq).1 + 1))
                &&& j < s.len() && s[j] != '\\' && s[j] != '`' && !dollar_paren(s, j)
                    ==> if stops(*delim, nest, s[j]) {
                    r == Ok::<Option<TextUnit>, Error>(None) && final(self).pos() == j
                } else {
                    r == Ok::<Option<TextUnit>, Error>(Some(TextUnit::Literal(s[j]))) && final(self).pos() == j + 1
                }
            }),
        decreases old(self).src().len() - old(self).pos(), 4nat,
    {
        self.line_continuations();
        proof {
            lemma_skip_lc_bounds(self.src(), old(self).pos());
        }
        let j = self.index;
        if self.skip_char('\\') {
            if self.index < self.chars.len() {
                let c = self.char_at(self.index);
                if escapable.contains(c) {
                    self.index = self.index + 1;
                    return Ok(Some(TextUnit::Backslashed(c)));
                }
            }
            return Ok(Some(TextUnit::Literal('\\')));
        }
        proof {
            if j < self.src().len() {
                lemma_skip_lc_bounds(self.src(), j + 1);
            }
        }
        if let Some(u) = self.dollar_unit()? {
            return Ok(Some(u));
        }
        let double_quote_escapable = !escapable.contains('_');
        proof {
            if j < self.src().len() {
                lemma_backquote_units_end(self.src(), j + 1, double_quote_escapable);
            }
        }
        if let Some(u) = self.backquote(double_quote_escapable)? {
            return Ok(Some(u));
        }
        if j < self.chars.len() {
            let c = self.char_at(j);
            let stop = match nest {
                Nesting::Flat => delim.contains(c),
                Nesting::Outside => c == '(' || delim.contains(c),
                Nesting::Inside => c == '(' || c == ')',
            };
            if !stop {
                self.index = j + 1;
                return Ok(Some(TextUnit::Literal(c)));
            }
        }
        Ok(None)
    }

    /// Parses a [`TextUnit`]: a literal character, a backslash-escaped
    /// character, a [dollar unit](Self::dollar_unit) or a
    /// [backquote](Self::backquote), after line continuations.
    ///
    /// An unquoted character is parsed only if `delim` does not hold it. A
    /// backslash escapes the next character if `escapable` holds it, and is
    /// literal otherwise. A backquote is in double-quote context, where `\"`
    /// is an escape, exactly when `escapable` does not hold `_`.
    pub fn text_unit(&mut self, delim: &CharSet, escapable: &CharSet) -> (r: Result<Option<TextUnit>, Error>)
        requires
            old(self).wf(),
        ensures
            Lexer::same_code(*old(self), *final(self)),
            ({
                let s = old(self).src();
                let code = old(self).code();
                match unit_step(s, code, old(self).pos(), *delim, Nesting::Flat, *escapable) {
                    Err(e) => r == Err::<Option<TextUnit>, Error>(error_at_end(e, s, code)),
                    Ok(None) => r == Ok::<Option<TextUnit>, Error>(None) && final(self).pos() == skip_lc(s, old(self).pos()),
                    Ok(Some(e)) => final(self).pos() == e && (r matches Ok(Some(u)) && unit_is(
                        s,
                        code,
                        old(self).pos(),
                        *escapable,
                        u,
                        e,
                    )),
                }
            }),
            old(self).pos() <= final(self).pos(),
            ({
                let s = old(self).src();
                let code = old(self).code();
                let j = skip_lc(s, old(self).pos());
                let dq = !escapable.has('_');
                &&& r matches Ok(None) ==> final(self).pos() == j && text_ends_at(s, j, *delim, Nesting::Flat)
                &&& r matches Ok(Some(_)) ==> old(self).pos() < final(self).pos()
                &&& r matches Err(e) ==> at_end(e, s, code)
                &&& char_at(s, j, '\\') ==> if j + 1 < s.len() && escapable.has(s[j + 1]) {
                    r == Ok::<Option<TextUnit>, Error>(Some(TextUnit::Backslashed(s[j + 1])))
                        && final(self).pos() == j + 2
                } else {
                    r == Ok::<Option<TextUnit>, Error>(Some(TextUnit::Literal('\\'))) && final(self).pos() == j + 1
                }
                &&& dollar_paren(s, j) ==> (r matches Ok(ou) ==> (ou matches Some(u)
                    && dollar_unit_spans(u, s, code, j, final(self).pos())))
                &&& char_at(s, j, '`') ==> (r matches Ok(ou) ==> (ou matches Some(
                    TextUnit::Backquote { content, location },
                ) && content@ == backquote_units(s, j + 1, dq).0 && location == loc_at(code, j)
                    && final(self).pos() == backquote_units(s, j + 1, dq).1 + 1))
                &&& j < s.len() && s[j] != '\\' && s[j] != '`' && !dollar_paren(s, j)
                    ==> if delim.has(s[j]) {
                    r == Ok::<Option<TextUnit>, Error>(None) && final(self).pos() == j
                } else {
                    r == Ok::<Option<TextUnit>, Error>(Some(TextUnit::Literal(s[j]))) && final(self).pos() == j + 1
                }
            }),
    {
        self.text_unit_in(delim, Nesting::Flat, escapable)
    }

    /// Parses text units in the given nesting, up to one that cannot be
    /// parsed, and appends them to `units`.
    ///
    /// If `units` held the literals of the characters from `anchor` to the
    /// cursor and the characters up to the end of the text are plain, then
    /// `units` ends up holding the literals of the characters from `anchor`
    /// to the end of the text.
    #[verifier::rlimit(100)]
    #[verifier::spinoff_prover]
    fn text_into(
        &mut self,
        delim: &CharSet,
        nest: Nesting,
        escapable: &CharSet,
        units: &mut Vec<TextUnit>,
        anchor: Ghost<int>,
        open: Ghost<Seq<int>>,
    ) -> (r: Result<(), Error>)
        requires
            old(self).wf(),
            0 <= anchor@ <= old(self).pos(),
        ensures
            Lexer::same_code(*old(self), *final(self)),
            ({
                let s = old(self).src();
                let code = old(self).code();
                match text_step(s, code, old(self).pos(), *delim, nest, *escapable) {
                    Err(e) => r == Err::<(), Error>(error_at_end(e, s, code)),
                    Ok(e) => r is Ok && final(self).pos() == e,
                }
            }),
            old(self).pos() <= final(self).pos(),
            old(units)@.len() <= final(units)@.len(),
            r is Ok ==> text_ends_at(final(self).src(), final(self).pos(), *delim, nest),
            r is Ok && final(units)@.len() == old(units)@.len() ==> final(self).pos() == skip_lc(
                old(self).src(),
                old(self).pos(),
            ),
            r is Ok && plain(old(self).src(), anchor@, final(self).pos()) && old(units)@ == literal_units_of(
                old(self).src(),
                anchor@,
                old(self).pos(),
            ) ==> final(units)@ == literal_units_of(old(self).src(), anchor@, final(self).pos()),
            r matches Err(e) ==> at_end(e, old(self).src(), old(self).code()),
            r is Ok ==> text_units_are(
                old(self).src(),
                old(self).code(),
                old(self).pos(),
                *delim,
                nest,
                *escapable,
                final(units)@.subrange(old(units)@.len() as int, final(units)@.len() as int),
            ),
            r is Ok && nest == nest_of(open@) ==> forall|x: Seq<TextUnit>|
                #[trigger] paren_units_are(old(self).src(), old(self).code(), final(self).pos(), open@, *delim, *escapable, x)
                    ==> paren_units_are(
                    old(self).src(),
                    old(self).code(),
                    old(self).pos(),
                    open@,
                    *delim,
                    *escapable,
                    final(units)@.subrange(old(units)@.len() as int, final(units)@.len() as int) + x,
                ),
            final(units)@.subrange(0, old(units)@.len() as int) == old(units)@,
        decreases old(self).src().len() - old(self).pos(), 5nat,
    {
        let ghost start_units = units@;
        assert forall|x: Seq<TextUnit>|
            #[trigger] paren_units_are(self.src(), self.code(), self.pos(), open@, *delim, *escapable, x)
                implies paren_units_are(
                self.src(),
                self.code(),
                old(self).pos(),
                open@,
                *delim,
                *escapable,
                units@.subrange(old(units)@.len() as int, units@.len() as int) + x,
            ) by {
            assert(units@.subrange(old(units)@.len() as int, units@.len() as int) + x =~= x);
        }
        assert forall|x: Seq<TextUnit>|
            #[trigger] text_units_are(self.src(), self.code(), self.pos(), *delim, nest, *escapable, x)
                implies text_units_are(
                self.src(),
                self.code(),
                old(self).pos(),
                *delim,
                nest,
                *escapable,
                units@.subrange(old(units)@.len() as int, units@.len() as int) + x,
            ) by {
            assert(units@.subrange(old(units)@.len() as int, units@.len() as int) + x =~= x);
        }
        loop
            invariant
                Lexer::same_code(*old(self), *self),
                old(self).pos() <= self.pos(),
                0 <= anchor@ <= old(self).pos(),
                start_units == old(units)@,
                units@.subrange(0, old(units)@.len() as int) == old(units)@,
                old(units)@.len() <= units@.len(),
                units@.len() == old(units)@.len() ==> self.pos() == old(self).pos(),
                nest == nest_of(open@) ==> forall|x: Seq<TextUnit>|
                    #[trigger] paren_units_are(self.src(), self.code(), self.pos(), open@, *delim, *escapable, x)
                        ==> paren_units_are(
                        self.src(),
                        self.code(),
                        old(self).pos(),
                        open@,
                        *delim,
                        *escapable,
                        units@.subrange(old(units)@.len() as int, units@.len() as int) + x,
                    ),
                forall|x: Seq<TextUnit>|
                    #[trigger] text_units_are(self.src(), self.code(), self.pos(), *delim, nest, *escapable, x)
                        ==> text_units_are(
                        self.src(),
                        self.code(),
                        old(self).pos(),
                        *delim,
                        nest,
                        *escapable,
                        units@.subrange(old(units)@.len() as int, units@.len() as int) + x,
                    ),
                text_step(self.src(), self.code(), old(self).pos(), *delim, nest, *escapable) == text_step(
                    self.src(),
                    self.code(),
                    self.pos(),
                    *delim,
                    nest,
                    *escapable,
                ),
                plain(self.src(), anchor@, self.pos()) && old(units)@ == literal_units_of(
                    self.src(),
                    anchor@,
                    old(self).pos(),
                ) ==> units@ == literal_units_of(self.src(), anchor@, self.pos()),
            decreases self.src().len() - self.pos(),
        {
            let ghost at = self.pos();
            let ghost before = units@;
            match self.text_unit_in(delim, nest, escapable)? {
                Some(unit) => {
                    let ghost u = unit;
                    units.push(unit);
                    assert(units@.subrange(0, old(units)@.len() as int) =~= before.subrange(0, old(units)@.len() as int));
                    proof {
                        let ss = self.src();
                        let cc = self.code();
                        let e = self.pos();
                        let added = units@.subrange(old(units)@.len() as int, units@.len() as int);
                        let prev = before.subrange(old(units)@.len() as int, before.len() as int);
                        assert(added =~= prev.push(u));
                        assert forall|x: Seq<TextUnit>|
                            #[trigger] text_units_are(ss, cc, e, *delim, nest, *escapable, x) implies text_units_are(
                            ss,
                            cc,
                            old(self).pos(),
                            *delim,
                            nest,
                            *escapable,
                            added + x,
                        ) by {
                            let y = seq![u] + x;
                            assert(y.drop_first() =~= x);
                            assert(y[0] == u);
                            assert(text_units_are(ss, cc, at, *delim, nest, *escapable, y));
                            assert(prev + y =~= added + x);
                        }
                        if nest == nest_of(open@) {
                            assert forall|x: Seq<TextUnit>|
                                #[trigger] paren_units_are(ss, cc, e, open@, *delim, *escapable, x) implies paren_units_are(
                                ss,
                                cc,
                                old(self).pos(),
                                open@,
                                *delim,
                                *escapable,
                                added + x,
                            ) by {
                                let y = seq![u] + x;
                                assert(y.drop_first() =~= x);
                                assert(y[0] == u);
                                assert(paren_units_are(ss, cc, at, open@, *delim, *escapable, y));
                                assert(prev + y =~= added + x);
                            }
                        }
                    }
                    proof {
                        let s = self.src();
                        if plain(s, anchor@, self.pos()) && old(units)@ == literal_units_of(s, anchor@, old(self).pos()) {
                            lemma_skip_lc_bounds(s, at);
                            assert(!is_line_continuation(s, at));
                            assert(skip_lc(s, at) == at);
                            assert(plain(s, anchor@, at));
                            assert(at < s.len());
                            assert(s[at] != '\\' && s[at] != '$' && s[at] != '`');
                            assert(self.pos() == at + 1);
                            assert(u == TextUnit::Literal(s[at]));
                            assert(before == literal_units_of(s, anchor@, at));
                            assert(units@ =~= before.push(u));
                        }
                    }
                },
                None => {
                    proof {
                        lemma_skip_lc_bounds(self.src(), at);
                    }
                    proof {
                        let ss = self.src();
                        let added = units@.subrange(old(units)@.len() as int, units@.len() as int);
                        assert(text_units_are(ss, self.code(), at, *delim, nest, *escapable, Seq::empty()));
                        assert(text_units_are(
                            ss,
                            self.code(),
                            old(self).pos(),
                            *delim,
                            nest,
                            *escapable,
                            added + Seq::<TextUnit>::empty(),
                        ));
                        assert(added + Seq::<TextUnit>::empty() =~= added);
                        if nest == nest_of(open@) {
                            let k = self.pos();
                            assert(skip_lc(ss, k) == k);
                            assert(unit_step(ss, self.code(), k, *delim, nest, *escapable) == unit_step(
                                ss,
                                self.code(),
                                at,
                                *delim,
                                nest,
                                *escapable,
                            ));
                            assert forall|x: Seq<TextUnit>|
                                #[trigger] paren_units_are(ss, self.code(), k, open@, *delim, *escapable, x) implies paren_units_are(
                                ss,
                                self.code(),
                                old(self).pos(),
                                open@,
                                *delim,
                                *escapable,
                                added + x,
                            ) by {
                                assert(paren_units_are(ss, self.code(), at, open@, *delim, *escapable, x));
                            }
                        }
                    }
                    return Ok(());
                },
            }
        }
    }

    /// Parses a text in the given nesting: text units up to one that cannot
    /// be parsed.
    fn text_in(&mut self, delim: &CharSet, nest: Nesting, escapable: &CharSet) -> (r: Result<Text, Error>)
        requires
            old(self).wf(),
        ensures
            Lexer::same_code(*old(self), *final(self)),
            ({
                let s = old(self).src();
                let code = old(self).code();
                match text_step(s, code, old(self).pos(), *delim, nest, *escapable) {
                    Err(e) => r == Err::<Text, Error>(error_at_end(e, s, code)),
                    Ok(e) => r is Ok && final(self).pos() == e,
                }
            }),
            old(self).pos() <= final(self).pos(),
            r is Ok ==> text_ends_at(final(self).src(), final(self).pos(), *delim, nest),
            r matches Ok(t) && t.0@.len() == 0 ==> final(self).pos() == skip_lc(old(self).src(), old(self).pos()),
            r matches Ok(t) ==> (plain(old(self).src(), old(self).pos(), final(self).pos()) ==> t.0@
                == literal_units_of(old(self).src(), old(self).pos(), final(self).pos())),
            r matches Ok(t) ==> text_units_are(
                old(self).src(),
                old(self).code(),
                old(self).pos(),
                *delim,
                nest,
                *escapable,
                t.0@,
            ),
            r matches Err(e) ==> at_end(e, old(self).src(), old(self).code()),
        decreases old(self).src().len() - old(self).pos(), 7nat,
    {
        let mut units: Vec<TextUnit> = Vec::new();
        assert(units@ =~= literal_units_of(self.src(), self.pos(), self.pos()));
        self.text_into(delim, nest, escapable, &mut units, Ghost(self.pos()), Ghost(Seq::empty()))?;
        assert(units@.subrange(0, units@.len() as int) =~= units@);
        Ok(Text(units))
    }

    /// Parses a text, that is, a possibly empty sequence of [`TextUnit`]s.
    ///
    /// Parsing ends before an unquoted character that `delim` holds, or at
    /// the end of input. `escapable` decides which characters a backslash
    /// escapes, as in [`text_unit`](Self::text_unit).
    pub fn text(&mut self, delim: &CharSet, escapable: &CharSet) -> (r: Result<Text, Error>)
        requires
            old(self).wf(),
        ensures
            Lexer::same_code(*old(self), *final(self)),
            ({
                let s = old(self).src();
                let code = old(self).code();
                match text_step(s, code, old(self).pos(), *delim, Nesting::Flat, *escapable) {
                    Err(e) => r == Err::<Text, Error>(error_at_end(e, s, code)),
                    Ok(e) => r is Ok && final(self).pos() == e,
                }
            }),
            old(self).pos() <= final(self).pos(),
            r is Ok ==> text_ends_at(final(self).src(), final(self).pos(), *delim, Nesting::Flat),
            r matches Ok(t) && t.0@.len() == 0 ==> final(self).pos() == skip_lc(old(self).src(), old(self).pos()),
            r matches Ok(t) ==> (plain(old(self).src(), old(self).pos(), final(self).pos()) ==> t.0@
                == literal_units_of(old(self).src(), old(self).pos(), final(self).pos())),
            r matches Err(e) ==> at_end(e, old(self).src(), old(self).code()),
            r matches Ok(t) ==> text_units_are(
                old(self).src(),
                old(self).code(),
                old(self).pos(),
                *delim,
                Nesting::Flat,
                *escapable,
                t.0@,
            ),
    {
        self.text_in(delim, Nesting::Flat, escapable)
    }

    /// Parses a text that may contain nested parentheses.
    ///
    /// This works like [`text`](Self::text), but an unquoted `(` opens a
    /// level that only the matching unquoted `)` closes; inside, `delim` is
    /// ignored. Both parentheses become literal units. The text ends at a
    /// delimiter outside all parentheses. It is an error if input ends inside
    /// parentheses.
    #[verifier::rlimit(100)]
    #[verifier::spinoff_prover]
    pub fn text_with_parentheses(&mut self, delim: &CharSet, escapable: &CharSet) -> (r: Result<Text, Error>)
        requires
            old(self).wf(),
        ensures
            Lexer::same_code(*old(self), *final(self)),
            ({
                let s = old(self).src();
                let code = old(self).code();
                match parens_end(s, code, old(self).pos(), Seq::empty(), *delim, *escapable) {
                    Err(e) => r == Err::<Text, Error>(error_at_end(e, s, code)),
                    Ok(e) => r is Ok && final(self).pos() == e,
                }
            }),
            old(self).pos() <= final(self).pos(),
            r is Ok ==> text_ends_at(final(self).src(), final(self).pos(), *delim, Nesting::Outside)
                && !char_at(final(self).src(), final(self).pos(), '('),
            r matches Ok(t) ==> (plain(old(self).src(), old(self).pos(), final(self).pos()) ==> t.0@
                == literal_units_of(old(self).src(), old(self).pos(), final(self).pos())),
            r matches Err(e) ==> at_end(e, old(self).src(), old(self).code()),
            r matches Ok(t) ==> paren_units_are(
                old(self).src(),
                old(self).code(),
                old(self).pos(),
                Seq::empty(),
                *delim,
                *escapable,
                t.0@,
            ),
        decreases old(self).src().len() - old(self).pos(), 8nat,
    {
        let mut units: Vec<TextUnit> = Vec::new();
        let mut open_paren_locations: Vec<Location> = Vec::new();
        let ghost i0 = self.pos();
        let ghost mut opens: Seq<int> = Seq::empty();
        assert(units@ =~= literal_units_of(self.src(), i0, i0));
        assert forall|x: Seq<TextUnit>|
            #[trigger] paren_units_are(self.src(), self.code(), i0, opens, *delim, *escapable, x) implies paren_units_are(
            self.src(),
            self.code(),
            i0,
            Seq::empty(),
            *delim,
            *escapable,
            units@ + x,
        ) by {
            assert(units@ + x =~= x);
        }
        loop
            invariant
                Lexer::same_code(*old(self), *self),
                old(self).pos() <= self.pos(),
                i0 == old(self).pos(),
                plain(self.src(), i0, self.pos()) ==> units@ == literal_units_of(self.src(), i0, self.pos()),
                open_paren_locations@.len() == opens.len(),
                forall|k: int| 0 <= k < opens.len() ==> open_paren_locations@[k] == loc_at(self.code(), #[trigger] opens[k]),
                forall|x: Seq<TextUnit>|
                    #[trigger] paren_units_are(self.src(), self.code(), self.pos(), opens, *delim, *escapable, x)
                        ==> paren_units_are(self.src(), self.code(), i0, Seq::empty(), *delim, *escapable, units@ + x),
                parens_end(self.src(), self.code(), i0, Seq::empty(), *delim, *escapable) == parens_end(
                    self.src(),
                    self.code(),
                    self.pos(),
                    opens,
                    *delim,
                    *escapable,
                ),
            decreases self.src().len() - self.pos(), open_paren_locations@.len(),
        {
            let nest = if open_paren_locations.len() == 0 {
                Nesting::Outside
            } else {
                Nesting::Inside
            };
            let ghost ubefore = units@;
            let ghost p0 = self.pos();
            self.text_into(delim, nest, escapable, &mut units, Ghost(i0), Ghost(opens))?;
            let here = self.index;
            let ghost umid = units@;
            proof {
                let ss = self.src();
                let cc = self.code();
                let seg = umid.subrange(ubefore.len() as int, umid.len() as int);
                assert(umid =~= ubefore + seg);
                assert forall|x: Seq<TextUnit>|
                    #[trigger] paren_units_are(ss, cc, here as int, opens, *delim, *escapable, x) implies paren_units_are(
                    ss,
                    cc,
                    i0,
                    Seq::empty(),
                    *delim,
                    *escapable,
                    umid + x,
                ) by {
                    assert(paren_units_are(ss, cc, p0, opens, *delim, *escapable, seg + x));
                    assert(ubefore + (seg + x) =~= umid + x);
                }
                lemma_skip_lc_bounds(ss, here as int);
            }
            let ghost before = units@;
            proof {
                self.lemma_bounds();
            }
            if self.skip_char('(') {
                units.push(TextUnit::Literal('('));
                open_paren_locations.push(Location::at(&self.code, here));
                proof {
                    let ss = self.src();
                    let cc = self.code();
                    let old_opens = opens;
                    opens = opens.push(here as int);
                    assert(skip_lc(ss, here as int) == here);
                    assert(unit_step(ss, cc, here as int, *delim, nest_of(old_opens), *escapable) == Ok::<
                        Option<int>,
                        SyntaxError,
                    >(None));
                    assert forall|x: Seq<TextUnit>|
                        #[trigger] paren_units_are(ss, cc, self.pos(), opens, *delim, *escapable, x) implies paren_units_are(
                        ss,
                        cc,
                        i0,
                        Seq::empty(),
                        *delim,
                        *escapable,
                        units@ + x,
                    ) by {
                        let y = seq![TextUnit::Literal('(')] + x;
                        assert(y.drop_first() =~= x);
                        assert(paren_units_are(ss, cc, here as int, old_opens, *delim, *escapable, y));
                        assert(umid + y =~= units@ + x);
                    }
                }
                proof {
                    if plain(self.src(), i0, self.pos()) {
                        assert(units@ =~= before.push(TextUnit::Literal(self.src()[here as int])));
                    }
                }
            } else if let Some(opening_location) = open_paren_locations.pop() {
                let ghost old_opens = opens;
                proof {
                    assert(opening_location == loc_at(self.code(), opens.last()));
                    opens = opens.drop_last();
                }
                if self.skip_char(')') {
                    units.push(TextUnit::Literal(')'));
                    proof {
                        let ss = self.src();
                        let cc = self.code();
                        assert(skip_lc(ss, here as int) == here);
                        assert(unit_step(ss, cc, here as int, *delim, nest_of(old_opens), *escapable) == Ok::<
                            Option<int>,
                            SyntaxError,
                        >(None));
                        assert forall|x: Seq<TextUnit>|
                            #[trigger] paren_units_are(ss, cc, self.pos(), opens, *delim, *escapable, x) implies paren_units_are(
                            ss,
                            cc,
                            i0,
                            Seq::empty(),
                            *delim,
                            *escapable,
                            units@ + x,
                        ) by {
                            let y = seq![TextUnit::Literal(')')] + x;
                            assert(y.drop_first() =~= x);
                            assert(paren_units_are(ss, cc, here as int, old_opens, *delim, *escapable, y));
                            assert(umid + y =~= units@ + x);
                        }
                    }
                    proof {
                        if plain(self.src(), i0, self.pos()) {
                            assert(units@ =~= before.push(TextUnit::Literal(self.src()[here as int])));
                        }
                    }
                } else {
                    let location = self.location();
                    return Err(Error { cause: ErrorCause::Syntax(SyntaxError::UnclosedParen { opening_location }), location });
                }
            } else {
                proof {
                    let ss = self.src();
                    let cc = self.code();
                    assert(skip_lc(ss, here as int) == here);
                    assert(paren_units_are(ss, cc, here as int, opens, *delim, *escapable, Seq::empty()));
                    assert(units@ + Seq::<TextUnit>::empty() =~= units@);
                }
                return Ok(Text(units));
            }
        }
    }

    /// Parses a double-quoted string.
    ///
    /// The opening `"` must have been consumed before calling this function;
    /// the closing `"` is consumed here. Inside, a backslash escapes only `$`,
    /// `` ` ``, `"` and `\`. `opening_location` should be the location of the
    /// opening `"`; it is used in the error value.
    fn double_quote(&mut self, opening_location: Location) -> (r: Result<WordUnit, Error>)
        requires
            old(self).wf(),
        ensures
            Lexer::same_code(*old(self), *final(self)),
            ({
                let s = old(self).src();
                let code = old(self).code();
                match text_step(s, code, old(self).pos(), CharSet::One('"'), Nesting::Flat, CharSet::Special(true)) {
                    Err(e) => r == Err::<WordUnit, Error>(error_at_end(e, s, code)),
                    Ok(e) => if char_at(s, e, '"') {
                        final(self).pos() == e + 1 && (r matches Ok(WordUnit::DoubleQuote(t)) && text_units_are(
                            s,
                            code,
                            old(self).pos(),
                            CharSet::One('"'),
                            Nesting::Flat,
                            CharSet::Special(true),
                            t.0@,
                        ))
                    } else {
                        r == Err::<WordUnit, Error>(
                            error_at_end(SyntaxError::UnclosedDoubleQuote { opening_location }, s, code),
                        )
                    },
                }
            }),
            old(self).pos() <= final(self).pos(),
            old(self).pos() < final(self).pos() || r is Err,
            r matches Ok(u) ==> (u is DoubleQuote && final(self).src()[final(self).pos() - 1] == '"'),
            r matches Ok(WordUnit::DoubleQuote(t)) ==> (plain(old(self).src(), old(self).pos(), final(self).pos() - 1)
                ==> t.0@ == literal_units_of(old(self).src(), old(self).pos(), final(self).pos() - 1)),
            r matches Err(e) ==> at_end(e, old(self).src(), old(self).code()),
        decreases old(self).src().len() - old(self).pos(), 8nat,
    {
        let delim = CharSet::One('"');
        let escapable = CharSet::Special(true);
        let content = self.text_in(&delim, Nesting::Flat, &escapable)?;
        if self.skip_char('"') {
            Ok(WordUnit::DoubleQuote(content))
        } else {
            let location = self.location();
            Err(Error { cause: ErrorCause::Syntax(SyntaxError::UnclosedDoubleQuote { opening_location }), location })
        }
    }

    /// Parses a word unit, after line continuations.
    ///
    /// An unquoted character is parsed only if `delim` does not hold it.
    #[verifier::rlimit(100)]
    #[verifier::spinoff_prover]
    pub fn word_unit(&mut self, delim: &CharSet) -> (r: Result<Option<WordUnit>, Error>)
        requires
            old(self).wf(),
        ensures
            Lexer::same_code(*old(self), *final(self)),
            ({
                let s = old(self).src();
                let code = old(self).code();
                match word_unit_step(s, code, old(self).pos(), *delim) {
                    Err(e) => r == Err::<Option<WordUnit>, Error>(error_at_end(e, s, code)),
                    Ok(None) => r == Ok::<Option<WordUnit>, Error>(None) && final(self).pos() == skip_lc(s, old(self).pos()),
                    Ok(Some(e)) => final(self).pos() == e && (r matches Ok(Some(u)) && word_unit_is(
                        s,
                        code,
                        old(self).pos(),
                        u,
                        e,
                    )),
                }
            }),
            old(self).pos() <= final(self).pos(),
            ({
                let s = old(self).src();
                let j = skip_lc(s, old(self).pos());
                &&& r matches Ok(None) ==> final(self).pos() == j && (j == s.len() || delim.has(s[j]))
                &&& r matches Ok(Some(_)) ==> j < final(self).pos()
                &&& char_at(s, j, '\'') ==> (r matches Ok(ou) ==> (ou matches Some(WordUnit::SingleQuote(content))
                    && content@ == s.subrange(j + 1, final(self).pos() - 1)))
                &&& char_at(s, j, '"') ==> (r matches Ok(ou) ==> (ou matches Some(u) && u is DoubleQuote))
                &&& j < s.len() && is_plain_word_char(s[j]) ==> if delim.has(s[j]) {
                    r == Ok::<Option<WordUnit>, Error>(None) && final(self).pos() == j
                } else {
                    r == Ok::<Option<WordUnit>, Error>(Some(WordUnit::Unquoted(TextUnit::Literal(s[j]))))
                        && final(self).pos() == j + 1
                }
                &&& r matches Err(e) ==> at_end(e, s, old(self).code())
            }),
        decreases old(self).src().len() - old(self).pos(), 9nat,
    {
        self.line_continuations();
        proof {
            lemma_skip_lc_bounds(self.src(), old(self).pos());
            if self.pos() < self.src().len() {
                lemma_find_char(self.src(), self.pos() + 1, '\'');
            }
        }
        let j = self.index;
        let location = self.location();
        if self.skip_char('\'') {
            return match self.single_quote(location) {
                Ok(u) => Ok(Some(u)),
                Err(e) => Err(e),
            };
        }
        if self.skip_char('"') {
            return match self.double_quote(location) {
                Ok(u) => Ok(Some(u)),
                Err(e) => Err(e),
            };
        }
        match self.text_unit_in(delim, Nesting::Flat, &CharSet::Everything)? {
            Some(u) => Ok(Some(WordUnit::Unquoted(u))),
            None => Ok(None),
        }
    }

    /// Parses a word: word units up to an unquoted character that `delim`
    /// holds, or the end of input.
    ///
    /// The word's location spans the characters it was parsed from. Tilde
    /// expansions are not recognized here: see
    /// [`Word::parse_tilde_front`].
    pub fn word(&mut self, delim: &CharSet) -> (r: Result<Word, Error>)
        requires
            old(self).wf(),
        ensures
            Lexer::same_code(*old(self), *final(self)),
            ({
                let s = old(self).src();
                let code = old(self).code();
                match word_end(s, code, old(self).pos(), *delim) {
                    Err(e) => r == Err::<Word, Error>(error_at_end(e, s, code)),
                    Ok(e) => r is Ok && final(self).pos() == e,
                }
            }),
            old(self).pos() <= final(self).pos(),
            r matches Ok(w) ==> w.location == span(old(self).code(), old(self).pos(), final(self).pos())
                && (final(self).pos() == final(self).src().len()
                    || delim.has(final(self).src()[final(self).pos()]))
                && (w.units@.len() == 0 ==> final(self).pos() == skip_lc(old(self).src(), old(self).pos()))
                && (w.units@.len() > 0 ==> skip_lc(old(self).src(), old(self).pos()) < final(self).pos())
                && (plain_word(old(self).src(), old(self).pos(), final(self).pos()) ==> literal_of(w.units@)
                    == Some(old(self).src().subrange(old(self).pos(), final(self).pos()))),
            r matches Err(e) ==> at_end(e, old(self).src(), old(self).code()),
            r matches Ok(w) ==> word_units_are(old(self).src(), old(self).code(), old(self).pos(), *delim, w.units@),
        decreases old(self).src().len() - old(self).pos(), 10nat,
    {
        let start = self.index;
        let mut units: Vec<WordUnit> = Vec::new();
        assert(self.src().subrange(start as int, start as int) =~= Seq::<char>::empty());
        assert forall|x: Seq<WordUnit>|
            #[trigger] word_units_are(self.src(), self.code(), self.pos(), *delim, x) implies word_units_are(
            self.src(),
            self.code(),
            start as int,
            *delim,
            units@ + x,
        ) by {
            assert(units@ + x =~= x);
        }
        loop
            invariant
                Lexer::same_code(*old(self), *self),
                start == old(self).pos(),
                start <= self.pos(),
                units@.len() == 0 ==> self.pos() == start,
                units@.len() > 0 ==> skip_lc(old(self).src(), start as int) < self.pos(),
                plain_word(self.src(), start as int, self.pos()) ==> literal_of(units@) == Some(
                    self.src().subrange(start as int, self.pos()),
                ),
                forall|x: Seq<WordUnit>|
                    #[trigger] word_units_are(self.src(), self.code(), self.pos(), *delim, x) ==> word_units_are(
                        self.src(),
                        self.code(),
                        start as int,
                        *delim,
                        units@ + x,
                    ),
                word_end(self.src(), self.code(), start as int, *delim) == word_end(
                    self.src(),
                    self.code(),
                    self.pos(),
                    *delim,
                ),
            decreases self.src().len() - self.pos(),
        {
            let ghost at = self.pos();
            let ghost before = units@;
            proof {
                lemma_skip_lc_bounds(self.src(), at);
            }
            match self.word_unit(delim)? {
                Some(unit) => {
                    let ghost u = unit;
                    units.push(unit);
                    proof {
                        let ss = self.src();
                        let cc = self.code();
                        let e = self.pos();
                        assert forall|x: Seq<WordUnit>|
                            #[trigger] word_units_are(ss, cc, e, *delim, x) implies word_units_are(
                            ss,
                            cc,
                            start as int,
                            *delim,
                            units@ + x,
                        ) by {
                            let y = seq![u] + x;
                            assert(y.drop_first() =~= x);
                            assert(y[0] == u);
                            assert(word_units_are(ss, cc, at, *delim, y));
                            assert(before + y =~= units@ + x);
                        }
                    }
                    proof {
                        let s = self.src();
                        if plain_word(s, start as int, self.pos()) {
                            assert(!is_line_continuation(s, at)) by {
                                if is_line_continuation(s, at) {
                                    assert(is_plain_word_char(s[at]));
                                }
                            }
                            assert(is_plain_word_char(s[at]));
                            assert(plain_word(s, start as int, at));
                            assert(u == WordUnit::Unquoted(TextUnit::Literal(s[at])));
                            assert(units@.drop_last() =~= before);
                            assert(s.subrange(start as int, self.pos()) =~= s.subrange(start as int, at).push(s[at]));
                        }
                    }
                },
                None => {
                    proof {
                        assert(word_units_are(self.src(), self.code(), at, *delim, Seq::empty()));
                        assert(units@ + Seq::<WordUnit>::empty() =~= units@);
                    }
                    let location = self.span_from(start);
                    return Ok(Word { units, location });
                },
            }
        }
    }

    /// Determines the token identifier of a word that has just been parsed.
    fn token_id(&self, word: &Word) -> (r: TokenId)
        requires
            self.wf(),
        ensures
            r == word_token_id(word.units@, self.src(), self.pos()),
    {
        if word.units.len() == 0 {
            return TokenId::EndOfInput;
        }
        if let Some(literal) = word.to_string_if_literal() {
            if let Some(keyword) = Keyword::parse(literal.as_str()) {
                return TokenId::Token(Some(keyword));
            }
            if all_ascii_digits(literal.as_str()) && (self.next_is('<') || self.next_is('>')) {
                return TokenId::IoNumber;
            }
        }
        TokenId::Token(None)
    }

    /// Parses a token: an operator or a word, after line continuations.
    ///
    /// If nothing can be parsed, the result is a token with an empty word and
    /// the [`EndOfInput`](TokenId::EndOfInput) identifier. A tilde at the
    /// start of a word is recognized.
    /// Parses a word token that starts at the next character, which starts
    /// no operator and no line continuation.
    #[verifier::rlimit(100)]
    fn word_token(&mut self) -> (r: Result<Token, Error>)
        requires
            old(self).wf(),
            skip_lc(old(self).src(), old(self).pos()) == old(self).pos(),
            operator_at(old(self).src(), old(self).pos()) is None,
        ensures
            Lexer::same_code(*old(self), *final(self)),
            old(self).pos() <= final(self).pos(),
            ({
                let s = old(self).src();
                let code = old(self).code();
                let j = old(self).pos();
                &&& match word_end(s, code, j, CharSet::TokenDelimiters) {
                    Err(e) => r == Err::<Token, Error>(error_at_end(e, s, code)),
                    Ok(e) => final(self).pos() == e && r is Ok,
                }
                &&& r matches Ok(t) ==> (t.index == j && t.word.location == span(code, j, final(self).pos())
                    && t.id == word_token_id(t.word.units@, s, final(self).pos())
                    && (final(self).pos() == s.len() || spec_is_token_delimiter_char(s[final(self).pos()]))
                    && (j < s.len() && !spec_is_blank(s[j]) ==> j < final(self).pos())
                    && (plain_word(s, j, final(self).pos()) && !char_at(s, j, '~') ==> literal_of(t.word.units@)
                    == Some(s.subrange(j, final(self).pos())))
                    && (exists|w: Seq<WordUnit>|
                    #![trigger word_units_are(s, code, j, CharSet::TokenDelimiters, w)]
                    word_units_are(s, code, j, CharSet::TokenDelimiters, w) && tilde_front_applied(
                        w,
                        t.word.units@,
                    ))
                    && t.word.location.code.value@.subrange(
                    t.word.location.range.start as int,
                    t.word.location.range.end as int,
                ) == s.subrange(j, final(self).pos())
                    && (t.id != TokenId::EndOfInput ==> j < final(self).pos())
                    && (t.id == TokenId::EndOfInput ==> final(self).pos() == j))
                &&& r matches Err(e) ==> at_end(e, s, code)
            }),
        decreases old(self).src().len() - old(self).pos(), 11nat,
    {
        let index = self.index;
        let mut word = self.word(&CharSet::TokenDelimiters)?;
        let ghost units = word.units@;
        proof {
            if plain_word(self.src(), index as int, self.pos()) && !char_at(self.src(), index as int, '~') {
                lemma_literal_of_units(units);
                if units.len() > 0 {
                    assert(units[0] == WordUnit::Unquoted(TextUnit::Literal(self.src()[index as int])));
                }
            }
        }
        word.parse_tilde_front();
        let id = self.token_id(&word);
        proof {
            self.lemma_bounds();
            assert(self.src().subrange(index as int, self.pos()) =~= self.code().value@.subrange(
                index as int,
                self.pos(),
            ));
            assert(word_units_are(self.src(), self.code(), index as int, CharSet::TokenDelimiters, units)
                && tilde_front_applied(units, word.units@));
        }
        Ok(Token { word, id, index })
    }

    pub fn token(&mut self) -> (r: Result<Token, Error>)
        requires
            old(self).wf(),
        ensures
            Lexer::same_code(*old(self), *final(self)),
            ({
                let s = old(self).src();
                let code = old(self).code();
                match token_step(s, code, old(self).pos()) {
                    Err(e) => r == Err::<Token, Error>(error_at_end(e, s, code)),
                    Ok((e, kind)) => final(self).pos() == e && (r matches Ok(t) && (kind == 1 <==> t.id == TokenId::Operator(
                        Operator::OpenParen,
                    )) && (kind == -1 <==> t.id == TokenId::Operator(Operator::CloseParen))),
                }
            }),
            old(self).pos() <= final(self).pos(),
            ({
                let s = old(self).src();
                let code = old(self).code();
                let j = skip_lc(s, old(self).pos());
                &&& operator_at(s, j) matches Some((op, end)) ==> (r matches Ok(t)
                    && t.id == TokenId::Operator(op) && t.index == j && final(self).pos() == end
                    && t.word.location == span(code, j, end)
                    && literal_of(t.word.units@) == Some(operator_spelling(op)))
                &&& operator_at(s, j) is None ==> (r matches Ok(t) ==> t.index == j
                    && t.word.location == span(code, j, final(self).pos())
                    && t.id == word_token_id(t.word.units@, s, final(self).pos())
                    && (final(self).pos() == s.len() || spec_is_token_delimiter_char(s[final(self).pos()]))
                    && (j < s.len() && !spec_is_blank(s[j]) ==> j < final(self).pos())
                    && (plain_word(s, j, final(self).pos()) && !char_at(s, j, '~') ==> literal_of(t.word.units@)
                    == Some(s.subrange(j, final(self).pos())))
                    && exists|w: Seq<WordUnit>|
                    #![trigger word_units_are(s, code, j, CharSet::TokenDelimiters, w)]
                    word_units_are(s, code, j, CharSet::TokenDelimiters, w) && tilde_front_applied(
                        w,
                        t.word.units@,
                    ))
                &&& r matches Err(e) ==> at_end(e, s, code)
                &&& r matches Ok(t) ==> t.word.location.code.value@.subrange(
                    t.word.location.range.start as int,
                    t.word.location.range.end as int,
                ) == s.subrange(j, final(self).pos())
                &&& (r matches Ok(t) && t.id != TokenId::EndOfInput) ==> old(self).pos() < final(self).pos()
                &&& (r matches Ok(t) && t.id == TokenId::EndOfInput) ==> final(self).pos() == j && (j == s.len()
                    || spec_is_blank(s[j]))
            }),
        decreases old(self).src().len() - old(self).pos(), 12nat,
    {
        proof {
            lemma_skip_lc_bounds(self.src(), self.pos());
            lemma_operator_at(self.src(), skip_lc(self.src(), self.pos()));
        }
        if let Some(op) = self.operator() {
            proof {
                self.lemma_bounds();
                assert(self.src().subrange(skip_lc(old(self).src(), old(self).pos()), self.pos())
                    =~= self.code().value@.subrange(skip_lc(old(self).src(), old(self).pos()), self.pos()));
            }
            return Ok(op);
        }
        proof {
            lemma_skip_lc_bounds(self.src(), self.pos());
        }
        self.word_token()
    }
}

/// Tests whether every character of `s` is an ASCII digit.
fn all_ascii_digits(s: &str) -> (r: bool)
    ensures
        r == all_digits(s@),
{
    let n = s.unicode_len();
    let mut i: usize = 0;
    while i < n
        invariant
            n == s@.len(),
            i <= n,
            forall|k: int| 0 <= k < i ==> '0' <= #[trigger] s@[k] <= '9',
        decreases n - i,
    {
        let c = s.get_char(i);
        if !('0' <= c && c <= '9') {
            return false;
        }
        i = i + 1;
    }
    true
}

} // verus!
