//! Source form of words: the text that, parsed again, gives the same word.

use crate::chars::push_char;
use crate::expansion::Error;
use crate::expansion::Field;
use crate::syntax::literal_of;
use crate::syntax::BackquoteUnit;
use crate::syntax::TextUnit;
use crate::syntax::Word;
use crate::syntax::WordUnit;
use vstd::prelude::*;

verus! {

/// Source form of backquote units.
pub open spec fn backquote_source(us: Seq<BackquoteUnit>) -> Seq<char>
    decreases us.len(),
{
    if us.len() == 0 {
        Seq::empty()
    } else {
        backquote_source(us.drop_last()) + match us.last() {
            BackquoteUnit::Literal(c) => seq![c],
            BackquoteUnit::Backslashed(c) => seq!['\\', c],
        }
    }
}

/// Source form of a text unit.
pub open spec fn unit_source(u: TextUnit) -> Seq<char>
    decreases u, 0nat,
{
    match u {
        TextUnit::Literal(c) => seq![c],
        TextUnit::Backslashed(c) => seq!['\\', c],
        TextUnit::CommandSubst { content, .. } => seq!['$', '('] + content@ + seq![')'],
        TextUnit::Arith { content, .. } => seq!['$', '(', '('] + units_source(content.0@, content.0@.len()) + seq![
            ')',
            ')',
        ],
        TextUnit::Backquote { content, .. } => seq!['`'] + backquote_source(content@) + seq!['`'],
    }
}

/// Source form of the first `n` text units of `us`.
pub open spec fn units_source(us: Seq<TextUnit>, n: nat) -> Seq<char>
    decreases us, n,
{
    if n == 0 || n > us.len() {
        Seq::empty()
    } else {
        units_source(us, (n - 1) as nat) + unit_source(us[n - 1])
    }
}

/// Source form of a word unit.
pub open spec fn word_unit_source(u: WordUnit) -> Seq<char> {
    match u {
        WordUnit::Unquoted(t) => unit_source(t),
        WordUnit::SingleQuote(s) => seq!['\''] + s@ + seq!['\''],
        WordUnit::DoubleQuote(t) => seq!['"'] + units_source(t.0@, t.0@.len()) + seq!['"'],
        WordUnit::Tilde(name) => seq!['~'] + name@,
    }
}

/// Source form of word units.
pub open spec fn word_source(us: Seq<WordUnit>) -> Seq<char>
    decreases us.len(),
{
    if us.len() == 0 {
        Seq::empty()
    } else {
        word_source(us.drop_last()) + word_unit_source(us.last())
    }
}

/// The source form of a word of unquoted literal characters is those
/// characters: lexing that form as a token gives back the same literal
/// (see the contract of `Lexer::token` on plain words).
pub proof fn lemma_literal_word_source(units: Seq<WordUnit>)
    requires
        literal_of(units) is Some,
    ensures
        word_source(units) == literal_of(units)->Some_0,
    decreases units.len(),
{
    if units.len() > 0 {
        lemma_literal_word_source(units.drop_last());
    }
}

/// Appends the characters of `s` to `out`.
fn write_str(s: &str, out: &mut String)
    ensures
        final(out)@ == old(out)@ + s@,
{
    let n = s.unicode_len();
    let mut i: usize = 0;
    while i < n
        invariant
            n == s@.len(),
            i <= n,
            out@ == old(out)@ + s@.subrange(0, i as int),
        decreases n - i,
    {
        push_char(out, s.get_char(i));
        i = i + 1;
        assert(out@ =~= old(out)@ + s@.subrange(0, i as int));
    }
    assert(s@.subrange(0, n as int) =~= s@);
}

/// Appends the source form of backquote units to `out`.
fn write_backquote(us: &Vec<BackquoteUnit>, out: &mut String)
    ensures
        final(out)@ == old(out)@ + backquote_source(us@),
{
    let mut i: usize = 0;
    while i < us.len()
        invariant
            i <= us@.len(),
            out@ == old(out)@ + backquote_source(us@.subrange(0, i as int)),
        decreases us@.len() - i,
    {
        assert(us@.subrange(0, i as int + 1).drop_last() =~= us@.subrange(0, i as int));
        match us[i] {
            BackquoteUnit::Literal(c) => push_char(out, c),
            BackquoteUnit::Backslashed(c) => {
                push_char(out, '\\');
                push_char(out, c);
            },
        }
        i = i + 1;
        assert(out@ =~= old(out)@ + backquote_source(us@.subrange(0, i as int)));
    }
    assert(us@.subrange(0, us@.len() as int) =~= us@);
}

/// Appends the source form of a text unit to `out`.
fn write_unit(u: &TextUnit, out: &mut String)
    ensures
        final(out)@ == old(out)@ + unit_source(*u),
    decreases *u, 0nat,
{
    match u {
        TextUnit::Literal(c) => {
            push_char(out, *c);
        },
        TextUnit::Backslashed(c) => {
            push_char(out, '\\');
            push_char(out, *c);
        },
        TextUnit::CommandSubst { content, .. } => {
            push_char(out, '$');
            push_char(out, '(');
            write_str(content.as_str(), out);
            push_char(out, ')');
        },
        TextUnit::Arith { content, .. } => {
            push_char(out, '$');
            push_char(out, '(');
            push_char(out, '(');
            write_units(&content.0, out);
            push_char(out, ')');
            push_char(out, ')');
        },
        TextUnit::Backquote { content, .. } => {
            push_char(out, '`');
            write_backquote(content, out);
            push_char(out, '`');
        },
    }
    assert(out@ =~= old(out)@ + unit_source(*u));
}

/// Appends the source form of text units to `out`.
fn write_units(us: &Vec<TextUnit>, out: &mut String)
    ensures
        final(out)@ == old(out)@ + units_source(us@, us@.len()),
    decreases us@, us@.len() + 1,
{
    let mut i: usize = 0;
    while i < us.len()
        invariant
            i <= us@.len(),
            out@ == old(out)@ + units_source(us@, i as nat),
        decreases us@.len() - i,
    {
        let ghost before = out@;
        write_unit(&us[i], out);
        i = i + 1;
        assert(out@ =~= old(out)@ + units_source(us@, i as nat));
    }
}

impl Word {
    /// Returns the source form of the word: quotes, escapes and expansions
    /// are written as they are spelled.
    pub fn to_source(&self) -> (r: String)
        ensures
            r@ == word_source(self.units@),
    {
        let mut out = String::new();
        let mut i: usize = 0;
        while i < self.units.len()
            invariant
                i <= self.units@.len(),
                out@ == word_source(self.units@.subrange(0, i as int)),
            decreases self.units@.len() - i,
        {
            assert(self.units@.subrange(0, i as int + 1).drop_last() =~= self.units@.subrange(0, i as int));
            let ghost before = out@;
            match &self.units[i] {
                WordUnit::Unquoted(t) => write_unit(t, &mut out),
                WordUnit::SingleQuote(s) => {
                    push_char(&mut out, '\'');
                    write_str(s.as_str(), &mut out);
                    push_char(&mut out, '\'');
                },
                WordUnit::DoubleQuote(t) => {
                    push_char(&mut out, '"');
                    write_units(&t.0, &mut out);
                    push_char(&mut out, '"');
                },
                WordUnit::Tilde(name) => {
                    push_char(&mut out, '~');
                    write_str(name.as_str(), &mut out);
                },
            }
            i = i + 1;
            assert(out@ =~= word_source(self.units@.subrange(0, i as int)));
        }
        assert(self.units@.subrange(0, self.units@.len() as int) =~= self.units@);
        out
    }

    /// Expands the word to fields: one field holding the word's source
    /// form, located at the word.
    pub fn expand_multiple(&self) -> (r: Result<Vec<Field>, Error>)
        ensures
            r matches Ok(fields) && fields@.len() == 1 && fields@[0].value@ == word_source(self.units@)
                && fields@[0].origin == self.location,
    {
        let value = self.to_source();
        let mut fields: Vec<Field> = Vec::new();
        fields.push(Field { value, origin: self.location.clone() });
        Ok(fields)
    }
}

} // verus!
