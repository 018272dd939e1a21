//! Parser: builds command lines from tokens, substituting aliases and
//! collecting here-document contents.
//!
//! The parser reads tokens from a stack of lexers. The bottom one reads the
//! input; each alias substitution pushes a lexer over the alias value whose
//! code has a [`Source::Alias`] origin pointing back at the replaced word.

use crate::alias::Alias;
use crate::alias::AliasSet;
use crate::fill::commands_missing;
use crate::fill::pipeline_missing;
use crate::fill::redirs_missing;
use crate::fill::Command;
use crate::fill::HereDoc;
use crate::fill::MissingHereDoc;
use crate::fill::Pipeline;
use crate::fill::Redir;
use crate::fill::RedirBody;
use crate::fill::RedirOp;
use crate::fill::SimpleCommand;
use crate::lex::Error;
use crate::lex::ErrorCause;
use crate::lex::operator_at;
use crate::lex::error_at_end;
use crate::lex::skip_lc;
use crate::lex::span;
use crate::lex::token_start;
use crate::lex::word_end;
use crate::lex::plain_word;
use crate::lex::char_at;
use crate::lex::word_unit_step;
use crate::lex::word_units_are;
use crate::lex::CharSet;
use crate::syntax::tilde_front_applied;
use crate::lex::Lexer;
use crate::lex::Operator;
use crate::lex::SyntaxError;
use crate::lex::Token;
use crate::syntax::Keyword;
use crate::lex::TokenId;
use crate::chars::push_char;
use crate::source::walk_aliases;
use crate::source::Code;
use crate::source::Location;
use crate::source::Source;
use crate::lex::all_digits;
use crate::syntax::is_blank;
use crate::syntax::literal_of;
use crate::syntax::spec_is_blank;
use crate::syntax::Text;
use crate::syntax::TextUnit;
use crate::syntax::Word;
use crate::syntax::WordUnit;
use std::rc::Rc;
use vstd::prelude::*;

verus! {

/// Largest number of alias substitutions made while parsing one command
/// line; once it is reached, words are no longer substituted.
pub const SUBSTITUTION_LIMIT: usize = 1000;

/// A here-document whose operator has been parsed but whose content has not
/// been read yet.
struct PendingHereDoc {
    delimiter: Word,
    remove_tabs: bool,
    operator_location: Location,
}

/// Pipeline of a command line, with how it is ended.
#[derive(Debug, Eq, PartialEq)]
pub struct Item {
    /// The pipeline.
    pub pipeline: Pipeline<HereDoc>,
    /// Whether the pipeline is ended by `&`, to run asynchronously.
    pub is_async: bool,
}

/// Characters left to read in a stack of lexers.
pub open spec fn remaining(ls: Seq<Lexer>) -> nat
    decreases ls.len(),
{
    if ls.len() == 0 {
        0
    } else {
        remaining(ls.drop_last()) + (ls.last().src().len() - ls.last().pos()) as nat
    }
}

/// Whether every lexer of the stack is well formed.
pub open spec fn all_wf(ls: Seq<Lexer>) -> bool {
    forall|i: int| 0 <= i < ls.len() ==> (#[trigger] ls[i]).wf()
}

/// Number of here-document placeholders in a sequence of pipelines.
pub open spec fn pipelines_missing(ps: Seq<Pipeline<MissingHereDoc>>) -> nat
    decreases ps.len(),
{
    if ps.len() == 0 {
        0
    } else {
        pipelines_missing(ps.drop_last()) + pipeline_missing(ps.last())
    }
}

/// Whether the lexer `above` reads the value of an alias that replaced a
/// word read by `below`.
pub open spec fn links(below: Lexer, above: Lexer) -> bool {
    above.code().source matches Source::Alias { original, .. } && original.code == below.code()
}

/// Whether every lexer of the stack but the bottom one reads the value of an
/// alias that replaced a word read by the lexer below it.
pub open spec fn chained(ls: Seq<Lexer>) -> bool {
    forall|k: int| 1 <= k < ls.len() ==> links(ls[k - 1], #[trigger] ls[k])
}

/// A location in the code of a lexer of a chained stack leads, by following
/// as many alias substitutions as there are lexers below, to the code of
/// the bottom one.
proof fn lemma_walk_to_input(ls: Seq<Lexer>, k: int, loc: Location)
    requires
        chained(ls),
        0 <= k < ls.len(),
        loc.code == ls[k].code(),
    ensures
        walk_aliases(loc, k as nat).code == ls[0].code(),
    decreases k,
{
    if k > 0 {
        assert(links(ls[k - 1], ls[k]));
        match loc.code.source {
            Source::Alias { original, .. } => {
                lemma_walk_to_input(ls, k - 1, original);
            },
            _ => {},
        }
    }
}

/// The alias that replaces token `t` read from `code`: `t` is a word of
/// unquoted literal characters naming an alias of `set` that applies here
/// (the word is `eligible` or the alias is global), `code` is not already
/// the value of that alias, and the value fits a lexer.
pub open spec fn substitution(t: Token, code: Rc<Code>, eligible: bool, set: AliasSet) -> Option<Rc<Alias>> {
    match t.id {
        TokenId::Token(_) => match literal_of(t.word.units@) {
            Some(l) => match set.find(l) {
                Some(a) => if (eligible || a.global) && !code.source.spec_is_alias_for(l) && a.replacement@.len()
                    < usize::MAX - 3 {
                    Some(a)
                } else {
                    None
                },
                None => None,
            },
            None => None,
        },
        _ => None,
    }
}

/// Whether the word at `j` is plain, is no IO number, and names an alias of
/// `set` whose value fits a lexer, and `code` is not already the value of
/// that alias.
pub open spec fn names_alias_at(s: Seq<char>, code: Rc<Code>, j: int, set: AliasSet) -> bool {
    let e = word_end(s, code, j, CharSet::TokenDelimiters)->Ok_0;
    let name = s.subrange(j, e);
    &&& operator_at(s, j) is None
    &&& word_end(s, code, j, CharSet::TokenDelimiters) is Ok
    &&& j < e
    &&& plain_word(s, j, e)
    &&& !char_at(s, j, '~')
    &&& !(all_digits(name) && (char_at(s, e, '<') || char_at(s, e, '>')))
    &&& set.find(name) is Some
    &&& set.find(name)->Some_0.replacement@.len() < usize::MAX - 3
    &&& !code.source.spec_is_alias_for(name)
}

/// Whether the measure `(a0, a1)` is below `(b0, b1)`, lexicographically.
pub open spec fn below(a0: int, a1: int, b0: int, b1: int) -> bool {
    a0 < b0 || (a0 == b0 && a1 < b1)
}

/// The literal and escaped characters of a text, in order; expansions are
/// dropped.
pub open spec fn text_chars(units: Seq<TextUnit>) -> Seq<char>
    decreases units.len(),
{
    if units.len() == 0 {
        Seq::empty()
    } else {
        text_chars(units.drop_last()) + match units.last() {
            TextUnit::Literal(c) => seq![c],
            TextUnit::Backslashed(c) => seq![c],
            _ => Seq::empty(),
        }
    }
}

/// The characters a word unit stands for once quotes are removed;
/// expansions stand for nothing.
pub open spec fn unit_chars(u: WordUnit) -> Seq<char> {
    match u {
        WordUnit::Unquoted(TextUnit::Literal(c)) => seq![c],
        WordUnit::Unquoted(TextUnit::Backslashed(c)) => seq![c],
        WordUnit::SingleQuote(s) => s@,
        WordUnit::DoubleQuote(t) => text_chars(t.0@),
        _ => Seq::empty(),
    }
}

/// The characters a word stands for once quotes are removed.
pub open spec fn unquoted_chars(units: Seq<WordUnit>) -> Seq<char>
    decreases units.len(),
{
    if units.len() == 0 {
        Seq::empty()
    } else {
        unquoted_chars(units.drop_last()) + unit_chars(units.last())
    }
}

/// Appends the characters of `s` to `out`.
fn append_str(out: &mut String, s: &str)
    ensures
        final(out)@ == old(out)@ + s@,
{
    let n = s.unicode_len();
    let mut k: usize = 0;
    while k < n
        invariant
            n == s@.len(),
            k <= n,
            out@ == old(out)@ + s@.subrange(0, k as int),
        decreases n - k,
    {
        push_char(out, s.get_char(k));
        k = k + 1;
        assert(out@ =~= old(out)@ + s@.subrange(0, k as int));
    }
    assert(s@.subrange(0, n as int) =~= s@);
}

/// Appends the literal and escaped characters of a text to `out`.
fn append_text(out: &mut String, t: &Text)
    ensures
        final(out)@ == old(out)@ + text_chars(t.0@),
{
    let mut k: usize = 0;
    while k < t.0.len()
        invariant
            k <= t.0@.len(),
            out@ == old(out)@ + text_chars(t.0@.subrange(0, k as int)),
        decreases t.0@.len() - k,
    {
        assert(t.0@.subrange(0, k as int + 1).drop_last() =~= t.0@.subrange(0, k as int));
        match &t.0[k] {
            TextUnit::Literal(c) => push_char(out, *c),
            TextUnit::Backslashed(c) => push_char(out, *c),
            _ => {},
        }
        k = k + 1;
        assert(out@ =~= old(out)@ + text_chars(t.0@.subrange(0, k as int)));
    }
    assert(t.0@.subrange(0, t.0@.len() as int) =~= t.0@);
}

/// The string a word stands for once its quotes are removed; expansions are
/// dropped.
fn unquoted_string(word: &Word) -> (r: String)
    ensures
        r@ == unquoted_chars(word.units@),
{
    let mut s = String::new();
    let mut i: usize = 0;
    while i < word.units.len()
        invariant
            i <= word.units@.len(),
            s@ == unquoted_chars(word.units@.subrange(0, i as int)),
        decreases word.units@.len() - i,
    {
        assert(word.units@.subrange(0, i as int + 1).drop_last() =~= word.units@.subrange(0, i as int));
        match &word.units[i] {
            WordUnit::Unquoted(TextUnit::Literal(c)) => push_char(&mut s, *c),
            WordUnit::Unquoted(TextUnit::Backslashed(c)) => push_char(&mut s, *c),
            WordUnit::SingleQuote(q) => append_str(&mut s, q.as_str()),
            WordUnit::DoubleQuote(t) => append_text(&mut s, t),
            _ => {},
        }
        i = i + 1;
        assert(s@ =~= unquoted_chars(word.units@.subrange(0, i as int)));
    }
    assert(word.units@.subrange(0, word.units@.len() as int) =~= word.units@);
    s
}

/// Whether a string ends with a blank.
fn ends_with_blank(s: &str) -> (r: bool)
    ensures
        r == (s@.len() > 0 && spec_is_blank(s@.last())),
{
    let n = s.unicode_len();
    n > 0 && is_blank(s.get_char(n - 1))
}

/// The redirection operator a token stands for: `Some((Some(op), _))` for
/// a redirection with an operand, `Some((None, remove_tabs))` for a
/// here-document, `None` for any other token.
pub open spec fn spec_redir_operator(id: TokenId) -> Option<(Option<RedirOp>, bool)> {
    match id {
        TokenId::Operator(Operator::Less) => Some((Some(RedirOp::FileIn), false)),
        TokenId::Operator(Operator::LessGreater) => Some((Some(RedirOp::FileInOut), false)),
        TokenId::Operator(Operator::Greater) => Some((Some(RedirOp::FileOut), false)),
        TokenId::Operator(Operator::GreaterGreater) => Some((Some(RedirOp::FileAppend), false)),
        TokenId::Operator(Operator::GreaterBar) => Some((Some(RedirOp::FileClobber), false)),
        TokenId::Operator(Operator::LessAnd) => Some((Some(RedirOp::FdIn), false)),
        TokenId::Operator(Operator::GreaterAnd) => Some((Some(RedirOp::FdOut), false)),
        TokenId::Operator(Operator::LessLess) => Some((None, false)),
        TokenId::Operator(Operator::LessLessDash) => Some((None, true)),
        _ => None,
    }
}

/// Returns the redirection operator a token stands for.
fn redir_operator(id: TokenId) -> (r: Option<(Option<RedirOp>, bool)>)
    ensures
        r == spec_redir_operator(id),
{
    match id {
        TokenId::Operator(Operator::Less) => Some((Some(RedirOp::FileIn), false)),
        TokenId::Operator(Operator::LessGreater) => Some((Some(RedirOp::FileInOut), false)),
        TokenId::Operator(Operator::Greater) => Some((Some(RedirOp::FileOut), false)),
        TokenId::Operator(Operator::GreaterGreater) => Some((Some(RedirOp::FileAppend), false)),
        TokenId::Operator(Operator::GreaterBar) => Some((Some(RedirOp::FileClobber), false)),
        TokenId::Operator(Operator::LessAnd) => Some((Some(RedirOp::FdIn), false)),
        TokenId::Operator(Operator::GreaterAnd) => Some((Some(RedirOp::FdOut), false)),
        TokenId::Operator(Operator::LessLess) => Some((None, false)),
        TokenId::Operator(Operator::LessLessDash) => Some((None, true)),
        _ => None,
    }
}

/// The number that decimal digits spell.
pub open spec fn decimal_value(l: Seq<char>) -> int
    decreases l.len(),
{
    if l.len() == 0 {
        0
    } else {
        decimal_value(l.drop_last()) * 10 + (l.last() as int - '0' as int)
    }
}

/// Value of a word of unquoted decimal digits, if it fits a `u32`.
fn digits_value(word: &Word) -> (r: Option<u32>)
    ensures
        match literal_of(word.units@) {
            Some(l) => if all_digits(l) && decimal_value(l) <= u32::MAX {
                r == Some(decimal_value(l) as u32)
            } else {
                r is None
            },
            None => r is None,
        },
{
    let literal = match word.to_string_if_literal() {
        Some(l) => l,
        None => return None,
    };
    let n = literal.as_str().unicode_len();
    let mut value: u32 = 0;
    let mut i: usize = 0;
    while i < n
        invariant
            literal_of(word.units@) == Some(literal@),
            n == literal@.len(),
            i <= n,
            all_digits(literal@.subrange(0, i as int)),
            value == decimal_value(literal@.subrange(0, i as int)),
        decreases n - i,
    {
        let d = literal.as_str().get_char(i);
        assert(literal@.subrange(0, i as int + 1).drop_last() =~= literal@.subrange(0, i as int));
        if !('0' <= d && d <= '9') {
            assert(literal@[i as int] == d);
            assert(!('0' <= literal@[i as int] <= '9'));
            return None;
        }
        let digit = (d as u32) - ('0' as u32);
        if value > (u32::MAX - digit) / 10 {
            proof {
                let v = value as int;
                let g = digit as int;
                assert(v * 10 + g > u32::MAX) by (nonlinear_arith)
                    requires
                        v > (u32::MAX - g) / 10,
                        0 <= g <= 9,
                ;
                assert(decimal_value(literal@.subrange(0, i as int + 1)) == v * 10 + g);
                if all_digits(literal@) {
                    lemma_decimal_value_grows(literal@, i as int + 1);
                }
            }
            return None;
        }
        value = value * 10 + digit;
        i = i + 1;
    }
    assert(literal@.subrange(0, n as int) =~= literal@);
    Some(value)
}

/// Digits spell a number that is not negative.
proof fn lemma_decimal_value_nonneg(l: Seq<char>)
    requires
        all_digits(l),
    ensures
        decimal_value(l) >= 0,
    decreases l.len(),
{
    if l.len() > 0 {
        let p = l.drop_last();
        assert forall|k: int| 0 <= k < p.len() implies '0' <= #[trigger] p[k] <= '9' by {
            assert(p[k] == l[k]);
        }
        lemma_decimal_value_nonneg(p);
        assert('0' <= l[l.len() - 1] <= '9');
    }
}

/// A prefix of a digit string never spells more than the whole string.
proof fn lemma_decimal_value_grows(l: Seq<char>, i: int)
    requires
        0 <= i <= l.len(),
        all_digits(l),
    ensures
        decimal_value(l.subrange(0, i)) <= decimal_value(l),
    decreases l.len() - i,
{
    if i < l.len() {
        lemma_decimal_value_grows(l, i + 1);
        let p = l.subrange(0, i + 1);
        let q = l.subrange(0, i);
        assert(p.drop_last() =~= q);
        assert forall|k: int| 0 <= k < q.len() implies '0' <= #[trigger] q[k] <= '9' by {
            assert(q[k] == l[k]);
        }
        lemma_decimal_value_nonneg(q);
        assert(p.last() == l[i]);
        assert('0' <= l[i] <= '9');
        let x = decimal_value(q);
        let d = p.last() as int - '0' as int;
        assert(x * 10 + d >= x) by (nonlinear_arith)
            requires
                x >= 0,
                d >= 0,
        ;
    } else {
        assert(l.subrange(0, i) =~= l);
    }
}

/// Syntax error at a location.
fn syntax_error(cause: SyntaxError, location: Location) -> (r: Error)
    ensures
        r == (Error { cause: ErrorCause::Syntax(cause), location }),
{
    Error { cause: ErrorCause::Syntax(cause), location }
}

/// Parser of command lines.
pub struct Parser {
    lexers: Vec<Lexer>,
    aliases: Rc<AliasSet>,
    budget: usize,
    pending: Vec<PendingHereDoc>,
}

impl Parser {
    /// The lexers are well formed and the bottom one is there.
    pub closed spec fn wf(&self) -> bool {
        &&& self.lexers@.len() > 0
        &&& all_wf(self.lexers@)
        &&& chained(self.lexers@)
    }

    /// Whether the input itself is read next: no alias value is being read.
    pub closed spec fn reading_input(&self) -> bool {
        self.lexers@.len() == 1
    }

    /// The lexer on top of the stack, which reads next.
    pub closed spec fn top(&self) -> Lexer {
        self.lexers@.last()
    }

    /// The code of the input, which the bottom lexer reads.
    pub closed spec fn input_code(&self) -> Rc<Code> {
        self.lexers@[0].code()
    }

    /// Characters left to read in all lexers.
    pub closed spec fn left(&self) -> int {
        (remaining(self.lexers@) + self.lexers@.len()) as int
    }

    /// The aliases that are substituted.
    pub closed spec fn alias_set(&self) -> AliasSet {
        *self.aliases
    }

    /// Number of here-documents whose contents are still to be read.
    pub closed spec fn pending_count(&self) -> nat {
        self.pending@.len()
    }

    /// Whether every character of the input has been read and no alias
    /// value is being read.
    pub closed spec fn input_ended(&self) -> bool {
        &&& self.lexers@.len() == 1
        &&& self.lexers@[0].pos() == self.lexers@[0].src().len()
    }

    /// Alias substitutions still allowed in this command line.
    pub closed spec fn substitutions_left(&self) -> int {
        self.budget as int
    }

    /// Creates a parser that reads from `lexer` and substitutes the aliases
    /// of `aliases`.
    pub fn new(lexer: Lexer, aliases: Rc<AliasSet>) -> (r: Parser)
        requires
            lexer.wf(),
        ensures
            r.wf(),
            r.input_code() == lexer.code(),
            r.alias_set() == *aliases,
            r.pending_count() == 0,
            r.input_ended() <==> lexer.pos() == lexer.src().len(),
    {
        let mut lexers: Vec<Lexer> = Vec::new();
        lexers.push(lexer);
        Parser { lexers, aliases, budget: SUBSTITUTION_LIMIT, pending: Vec::new() }
    }

    /// Takes the top lexer off the stack.
    fn pop_lexer(&mut self) -> (r: Lexer)
        requires
            old(self).wf(),
        ensures
            r == old(self).lexers@.last(),
            final(self).lexers@ == old(self).lexers@.drop_last(),
            final(self).budget == old(self).budget,
            final(self).pending == old(self).pending,
            final(self).aliases == old(self).aliases,
            r.wf(),
            all_wf(final(self).lexers@),
            chained(final(self).lexers@),
            final(self).lexers@.len() > 0 ==> links(final(self).lexers@.last(), r),
            final(self).lexers@.len() > 0 ==> final(self).lexers@[0] == old(self).lexers@[0],
            final(self).lexers@.len() == 0 ==> r == old(self).lexers@[0],
            remaining(old(self).lexers@) == remaining(final(self).lexers@) + (r.src().len() - r.pos()),
    {
        let ghost before = self.lexers@;
        assert(before[before.len() - 1].wf());
        let r = self.lexers.pop().unwrap();
        proof {
            r.lemma_bounds();
        }
        assert(before.drop_last() =~= self.lexers@);
        assert forall|i: int| 0 <= i < self.lexers@.len() implies (#[trigger] self.lexers@[i]).wf() by {
            assert(self.lexers@[i] == before[i]);
        }
        assert forall|k: int| 1 <= k < self.lexers@.len() implies links(
            self.lexers@[k - 1],
            #[trigger] self.lexers@[k],
        ) by {
            assert(self.lexers@[k] == before[k]);
            assert(links(before[k - 1], before[k]));
        }
        proof {
            if self.lexers@.len() > 0 {
                assert(links(before[before.len() - 2], before[before.len() - 1]));
            }
        }
        r
    }

    /// Puts a lexer on top of the stack.
    fn push_lexer(&mut self, lexer: Lexer)
        requires
            lexer.wf(),
            all_wf(old(self).lexers@),
            chained(old(self).lexers@),
            old(self).lexers@.len() > 0 ==> links(old(self).lexers@.last(), lexer),
        ensures
            final(self).wf(),
            old(self).lexers@.len() > 0 ==> final(self).lexers@[0] == old(self).lexers@[0],
            old(self).lexers@.len() == 0 ==> final(self).lexers@[0] == lexer,
            final(self).lexers@ == old(self).lexers@.push(lexer),
            final(self).budget == old(self).budget,
            final(self).pending == old(self).pending,
            final(self).aliases == old(self).aliases,
            remaining(final(self).lexers@) == remaining(old(self).lexers@) + (lexer.src().len() - lexer.pos()),
    {
        let ghost before = self.lexers@;
        proof {
            lexer.lemma_bounds();
        }
        self.lexers.push(lexer);
        assert(self.lexers@.drop_last() =~= before);
        assert forall|i: int| 0 <= i < self.lexers@.len() implies (#[trigger] self.lexers@[i]).wf() by {
            if i < before.len() {
                assert(self.lexers@[i] == before[i]);
            }
        }
        assert forall|k: int| 1 <= k < self.lexers@.len() implies links(
            self.lexers@[k - 1],
            #[trigger] self.lexers@[k],
        ) by {
            if k < before.len() {
                assert(self.lexers@[k] == before[k]);
                assert(self.lexers@[k - 1] == before[k - 1]);
                assert(links(before[k - 1], before[k]));
            }
        }
    }

    /// Returns the alias that replaces a token read by `lexer`, if any.
    fn substitution_for(&self, token: &Token, lexer: &Lexer, eligible: bool) -> (r: Option<Rc<Alias>>)
        ensures
            r == substitution(*token, lexer.code(), eligible, self.alias_set()),
    {
        if let TokenId::Token(_) = token.id {
            if let Some(name) = token.word.to_string_if_literal() {
                if let Some(alias) = self.aliases.get(name.as_str()) {
                    let blocked = lexer.code_ref().source.is_alias_for(name.as_str());
                    let fits = alias.replacement.as_str().unicode_len() < usize::MAX - 3;
                    if (eligible || alias.global) && !blocked && fits {
                        return Some(alias);
                    }
                }
            }
        }
        None
    }

    /// Returns the next token, substituting aliases.
    ///
    /// A word is looked up as an alias if it is `eligible` (in command
    /// position) or the alias is global, and unless the word itself comes
    /// from a substitution of the same alias. After an alias value that ends
    /// with a blank, the next word is eligible too. Blanks and comments
    /// before the token are skipped.
    ///
    /// Following the alias substitutions that a token's code came from, its
    /// location leads back to the code of the input.
    pub fn next_token(&mut self, eligible: bool) -> (r: Result<Token, Error>)
        requires
            old(self).wf(),
        ensures
            final(self).wf(),
            final(self).input_code() == old(self).input_code(),
            r matches Ok(t) ==> exists|n: nat|
                #![trigger walk_aliases(t.word.location, n)]
                walk_aliases(t.word.location, n).code == final(self).input_code(),
            final(self).pending_count() == old(self).pending_count(),
            r matches Ok(t) ==> (t.id matches TokenId::Token(_) ==> (literal_of(t.word.units@) matches Some(n) ==> (
            final(self).alias_set().find(n) matches Some(a) ==> (a.global && a.replacement@.len() < usize::MAX - 3
                ==> t.word.location.code.source.spec_is_alias_for(n))))),
            final(self).alias_set() == old(self).alias_set(),
            old(self).input_ended() ==> (r matches Ok(t) && t.id == TokenId::EndOfInput && final(self).input_ended()),
            ({
                let top = old(self).top();
                let s = top.src();
                let code = top.code();
                let j = skip_lc(s, token_start(s, top.pos()));
                &&& operator_at(s, j) matches Some((op, end)) ==> (r matches Ok(t) && t.id == TokenId::Operator(op)
                    && t.word.location == span(code, j, end))
                &&& (forall|n: Seq<char>| old(self).alias_set().find(n) is None) && old(self).reading_input()
                    && operator_at(s, j) is None ==> match word_end(s, code, j, CharSet::TokenDelimiters) {
                    Err(e) => r == Err::<Token, Error>(error_at_end(e, s, code)),
                    Ok(e) => r matches Ok(t) && t.word.location == span(code, j, e),
                }
            }),
            (r matches Ok(t) && t.id != TokenId::EndOfInput) ==> below(
                final(self).substitutions_left(),
                final(self).left(),
                old(self).substitutions_left(),
                old(self).left(),
            ),
            (r matches Ok(t) && t.id == TokenId::EndOfInput) ==> final(self).substitutions_left()
                <= old(self).substitutions_left() && final(self).input_ended(),
    {
        let mut eligible = eligible;
        let ghost mut first = true;
        let ghost top0 = old(self).top();
        let ghost j0 = skip_lc(top0.src(), token_start(top0.src(), top0.pos()));
        let ghost quiet = (forall|n: Seq<char>| old(self).alias_set().find(n) is None) && old(self).lexers@.len() == 1;
        loop
            invariant
                self.wf(),
                first ==> self.lexers@ == old(self).lexers@,
                !first ==> operator_at(top0.src(), j0) is None && !quiet,
                top0 == old(self).top(),
                j0 == skip_lc(top0.src(), token_start(top0.src(), top0.pos())),
                quiet == ((forall|n: Seq<char>| old(self).alias_set().find(n) is None) && old(self).lexers@.len()
                    == 1),
                self.input_code() == old(self).input_code(),
                self.pending == old(self).pending,
                self.aliases == old(self).aliases,
                old(self).input_ended() ==> self.input_ended(),
                self.budget <= old(self).budget,
                self.budget == old(self).budget ==> self.left() <= old(self).left(),
            decreases self.budget, self.left(),
        {
            let mut lexer = self.pop_lexer();
            lexer.skip_blanks();
            let ghost p1 = lexer.pos();
            lexer.skip_comment();
            let ghost at = lexer.pos();
            proof {
                lexer.lemma_bounds();
                let s = lexer.src();
                if at < s.len() && s[at] == '\n' {
                    assert(skip_lc(s, at) == at);
                }
            }
            proof {
                if old(self).input_ended() {
                    let s = lexer.src();
                    assert(at == s.len());
                    assert(skip_lc(s, at) == at);
                    assert(operator_at(s, at) is None);
                    assert(word_unit_step(s, lexer.code(), at, CharSet::TokenDelimiters) == Ok::<
                        Option<int>,
                        SyntaxError,
                    >(None));
                    assert(word_units_are(s, lexer.code(), at, CharSet::TokenDelimiters, Seq::empty()));
                }
            }
            let token = match lexer.token() {
                Ok(t) => t,
                Err(e) => {
                    self.push_lexer(lexer);
                    return Err(e);
                },
            };
            proof {
                if old(self).input_ended() {
                    let s = lexer.src();
                    let w: Seq<WordUnit> = choose|w: Seq<WordUnit>|
                        word_units_are(s, lexer.code(), at, CharSet::TokenDelimiters, w) && tilde_front_applied(
                            w,
                            token.word.units@,
                        );
                    assert(word_units_are(s, lexer.code(), at, CharSet::TokenDelimiters, w));
                    assert(w.len() == 0);
                    assert(token.word.units@ == w);
                }
            }
            if matches!(token.id, TokenId::EndOfInput) && self.lexers.len() > 0 {
                eligible = match &lexer.code_ref().source {
                    Source::Alias { alias, .. } => ends_with_blank(alias.replacement.as_str()),
                    _ => false,
                };
                proof {
                    first = false;
                }
                continue;
            }
            if let Some(alias) = self.substitution_for(&token, &lexer, eligible) {
                if self.budget == 0 {
                    let location = token.word.location.clone();
                    self.push_lexer(lexer);
                    return Err(syntax_error(SyntaxError::TooManyAliasSubstitutions, location));
                }
                self.push_lexer(lexer);
                let source = Source::Alias { original: token.word.location, alias: Rc::clone(&alias) };
                let sub = Lexer::with_source(source, alias.replacement.as_str());
                self.push_lexer(sub);
                self.budget = self.budget - 1;
                eligible = true;
                proof {
                    first = false;
                }
                continue;
            }
            self.push_lexer(lexer);
            proof {
                let k = self.lexers@.len() - 1;
                lemma_walk_to_input(self.lexers@, k, token.word.location);
            }
            return Ok(token);
        }
    }

    /// Parses a redirection whose operator token has been read, and
    /// records a here-document to be read after the command line.
    fn redirection(&mut self, fd: Option<u32>, operator: Token, redirs: &mut Vec<Redir<MissingHereDoc>>) -> (r:
        Result<(), Error>)
        requires
            old(self).wf(),
        ensures
            final(self).wf(),
            below(final(self).substitutions_left(), final(self).left(), old(self).substitutions_left(), old(self).left()) || r is Err,
            r is Ok ==> final(self).pending@.len() + redirs_missing(old(redirs)@) == old(self).pending@.len() + redirs_missing(final(redirs)@),
    {
        let (op, remove_tabs) = match redir_operator(operator.id) {
            Some(x) => x,
            None => return Err(syntax_error(SyntaxError::UnexpectedToken, operator.word.location)),
        };
        let operand = self.next_token(false)?;
        match operand.id {
            TokenId::Token(_) => {},
            _ => {
                let cause = match op {
                    None => SyntaxError::MissingHereDocDelimiter,
                    Some(_) => SyntaxError::MissingRedirectionTarget,
                };
                return Err(syntax_error(cause, operand.word.location));
            },
        }
        let ghost before = redirs@;
        match op {
            Some(operator) => {
                redirs.push(Redir { fd, body: RedirBody::Normal { operator, operand: operand.word } });
            },
            None => {
                self.pending.push(
                    PendingHereDoc { delimiter: operand.word, remove_tabs, operator_location: operator.word.location },
                );
                redirs.push(Redir { fd, body: RedirBody::HereDoc(MissingHereDoc) });
            },
        }
        assert(redirs@.drop_last() =~= before);
        Ok(())
    }

    /// Reads the contents of the pending here-documents, in order, from the
    /// lines that follow the current one.
    fn read_here_docs(&mut self) -> (r: Result<Vec<HereDoc>, Error>)
        requires
            old(self).wf(),
        ensures
            final(self).wf(),
            r matches Ok(docs) ==> docs@.len() == old(self).pending@.len(),
    {
        let mut pending: Vec<PendingHereDoc> = Vec::new();
        core::mem::swap(&mut self.pending, &mut pending);
        let mut lexer = self.pop_lexer();
        let ghost code = lexer.code();
        let mut docs: Vec<HereDoc> = Vec::new();
        let n = pending.len();
        let mut i: usize = 0;
        while i < n
            invariant
                lexer.wf(),
                lexer.code() == code,
                all_wf(self.lexers@),
                chained(self.lexers@),
                self.lexers@.len() > 0 ==> links(self.lexers@.last(), lexer),
                pending@.len() == n - i,
                docs@.len() == i,
                i <= n,
            decreases n - i,
        {
            let doc = pending.remove(0);
            let delimiter = unquoted_string(&doc.delimiter);
            let expand = doc.delimiter.to_string_if_literal().is_some();
            match lexer.here_doc_content(delimiter.as_str(), doc.remove_tabs, expand, doc.operator_location) {
                Ok(content) => {
                    docs.push(HereDoc { delimiter: doc.delimiter, remove_tabs: doc.remove_tabs, content });
                },
                Err(e) => {
                    self.push_lexer(lexer);
                    return Err(e);
                },
            }
            i = i + 1;
        }
        self.push_lexer(lexer);
        Ok(docs)
    }

    /// Parses one command line: pipelines separated by `;` or `&`, up to a
    /// newline or the end of input. The contents of the here-documents whose
    /// operators appear in the line are read from the lines that follow it,
    /// in order, and filled in.
    ///
    /// Returns `Ok(None)` if the input ends before any command.
    pub fn command_line(&mut self) -> (r: Result<Option<Vec<Item>>, Error>)
        requires
            old(self).wf(),
        ensures
            final(self).wf(),
            r matches Ok(None) ==> final(self).input_ended(),
            old(self).input_ended() ==> r matches Ok(None),
            r matches Ok(Some(items)) ==> forall|i: int|
                0 <= i < items@.len() ==> (#[trigger] items@[i]).pipeline.commands@.len() > 0,
    {
        self.budget = SUBSTITUTION_LIMIT;
        self.pending = Vec::new();
        let mut partial: Vec<Pipeline<MissingHereDoc>> = Vec::new();
        let mut asyncs: Vec<bool> = Vec::new();
        let mut commands: Vec<Command<MissingHereDoc>> = Vec::new();
        let mut words: Vec<Word> = Vec::new();
        let mut redirs: Vec<Redir<MissingHereDoc>> = Vec::new();
        let mut negation = false;
        let mut ended_by_newline = false;
        loop
            invariant
                self.wf(),
                partial@.len() == asyncs@.len(),
                forall|k: int| 0 <= k < partial@.len() ==> (#[trigger] partial@[k]).commands@.len() > 0,
                old(self).input_ended() ==> (self.input_ended() && partial@.len() == 0 && words@.len() == 0
                    && redirs@.len() == 0 && commands@.len() == 0 && !negation && !ended_by_newline
                    && self.pending@.len() == 0),
                self.pending@.len() == pipelines_missing(partial@) + commands_missing(commands@) + redirs_missing(
                    redirs@,
                ),
            ensures
                self.wf(),
                !ended_by_newline ==> self.input_ended(),
                old(self).input_ended() ==> (partial@.len() == 0 && !ended_by_newline && self.pending@.len() == 0),
                partial@.len() == asyncs@.len(),
                forall|k: int| 0 <= k < partial@.len() ==> (#[trigger] partial@[k]).commands@.len() > 0,
                self.pending@.len() == pipelines_missing(partial@),
            decreases self.budget, self.left(),
        {
            let eligible = words.len() == 0;
            let token = self.next_token(eligible)?;
            let id = token.id;
            let location = token.word.location.clone();
            let mut end_pipeline = false;
            let mut end_line = false;
            let mut is_async = false;
            match id {
                TokenId::Token(Some(Keyword::Bang)) if commands.len() == 0 && words.len() == 0 && redirs.len() == 0
                    && !negation => {
                    negation = true;
                },
                TokenId::Token(_) => {
                    words.push(token.word);
                },
                TokenId::IoNumber => {
                    let fd = digits_value(&token.word);
                    let operator = self.next_token(false)?;
                    if matches!(operator.id, TokenId::EndOfInput) {
                        return Err(syntax_error(SyntaxError::MissingRedirectionTarget, operator.word.location));
                    }
                    self.redirection(fd, operator, &mut redirs)?;
                },
                TokenId::Operator(Operator::Bar) => {
                    if words.len() == 0 && redirs.len() == 0 {
                        return Err(syntax_error(SyntaxError::UnexpectedToken, location));
                    }
                    let ghost before = commands@;
                    commands.push(Command::SimpleCommand(SimpleCommand { words, redirs }));
                    assert(commands@.drop_last() =~= before);
                    words = Vec::new();
                    redirs = Vec::new();
                },
                TokenId::Operator(Operator::Semicolon) => {
                    end_pipeline = true;
                },
                TokenId::Operator(Operator::And) => {
                    end_pipeline = true;
                    is_async = true;
                },
                TokenId::Operator(Operator::Newline) => {
                    end_pipeline = true;
                    end_line = true;
                    ended_by_newline = true;
                },
                TokenId::EndOfInput => {
                    end_pipeline = true;
                    end_line = true;
                },
                TokenId::Operator(_) => {
                    if redir_operator(id).is_some() {
                        self.redirection(None, token, &mut redirs)?;
                    } else {
                        return Err(syntax_error(SyntaxError::UnexpectedToken, location));
                    }
                },
            }
            if end_pipeline {
                if words.len() > 0 || redirs.len() > 0 {
                    let ghost before = commands@;
                    commands.push(Command::SimpleCommand(SimpleCommand { words, redirs }));
                    assert(commands@.drop_last() =~= before);
                    words = Vec::new();
                    redirs = Vec::new();
                } else if commands.len() > 0 || negation || is_async {
                    return Err(syntax_error(SyntaxError::UnexpectedToken, location));
                }
                if commands.len() > 0 {
                    let ghost before = partial@;
                    partial.push(Pipeline { commands, negation });
                    assert(partial@.drop_last() =~= before);
                    asyncs.push(is_async);
                    commands = Vec::new();
                    negation = false;
                }
            }
            if end_line {
                assert(redirs_missing(redirs@) == 0);
                assert(commands_missing(commands@) == 0);
                break;
            }
        }
        if partial.len() == 0 && !ended_by_newline && self.pending.len() == 0 {
            return Ok(None);
        }
        let docs = self.read_here_docs()?;
        let mut docs = docs;
        let mut items: Vec<Item> = Vec::new();
        let mut rest = partial;
        let mut i: usize = 0;
        let n = rest.len();
        while i < n
            invariant
                asyncs@.len() == n - i,
                i <= n,
                rest@.len() == n - i,
                docs@.len() == pipelines_missing(rest@),
                items@.len() == i,
                forall|k: int| 0 <= k < rest@.len() ==> (#[trigger] rest@[k]).commands@.len() > 0,
                forall|k: int| 0 <= k < i ==> (#[trigger] items@[k]).pipeline.commands@.len() > 0,
            decreases n - i,
        {
            let ghost before = rest@;
            let pipeline = rest.remove(0);
            proof {
                lemma_pipelines_missing_front(before);
            }
            let filled = pipeline.fill(&mut docs);
            let is_async = asyncs.remove(0);
            items.push(Item { pipeline: filled, is_async });
            i = i + 1;
        }
        Ok(Some(items))
    }
}

proof fn lemma_pipelines_missing_front(ps: Seq<Pipeline<MissingHereDoc>>)
    requires
        ps.len() > 0,
    ensures
        pipelines_missing(ps) == pipeline_missing(ps[0]) + pipelines_missing(ps.subrange(1, ps.len() as int)),
    decreases ps.len(),
{
    if ps.len() > 1 {
        lemma_pipelines_missing_front(ps.drop_last());
        assert(ps.drop_last().subrange(1, ps.len() - 1) =~= ps.subrange(1, ps.len() as int).drop_last());
    } else {
        assert(ps.subrange(1, ps.len() as int) =~= Seq::<Pipeline<MissingHereDoc>>::empty());
        assert(ps.drop_last() =~= Seq::<Pipeline<MissingHereDoc>>::empty());
    }
}

} // verus!
