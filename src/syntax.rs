//! Shell command language syntax: the units a word is made of, tokens, and
//! the command tree that the parser builds.

use crate::chars::push_char;
use crate::source::Location;
use crate::source::str_eq;
use vstd::prelude::*;

verus! {

/// Element of a [`Text`], that is, something that can be expanded.
#[derive(Debug, Eq, PartialEq)]
pub enum TextUnit {
    /// Literal single character.
    Literal(char),
    /// Backslash-escaped single character.
    Backslashed(char),
    /// Command substitution of the form `$(...)`.
    CommandSubst {
        /// Command string that will be parsed and executed when the command
        /// substitution is expanded.
        content: String,
        /// Location of the initial `$`.
        location: Location,
    },
    /// Arithmetic expansion of the form `$((...))`.
    Arith {
        /// Expression that is to be evaluated.
        content: Text,
        /// Location of the initial `$`.
        location: Location,
    },
    /// Command substitution of the form `` `...` ``.
    Backquote {
        /// Characters between the backquotes.
        content: Vec<BackquoteUnit>,
        /// Location of the opening backquote.
        location: Location,
    },
}

/// Element of the content of a backquoted command substitution.
#[derive(Clone, Copy, Debug, Eq, PartialEq)]
pub enum BackquoteUnit {
    /// Literal single character.
    Literal(char),
    /// Backslash-escaped single character.
    Backslashed(char),
}

/// String that may contain some expansions.
#[derive(Debug, Eq, PartialEq)]
pub struct Text(pub Vec<TextUnit>);

/// Element of a [`Word`], that is, text with quotes and tilde expansion.
#[derive(Debug, Eq, PartialEq)]
pub enum WordUnit {
    /// Unquoted [`TextUnit`] as a word unit.
    Unquoted(TextUnit),
    /// String surrounded with a pair of single quotations.
    SingleQuote(String),
    /// Text surrounded with a pair of double quotations.
    DoubleQuote(Text),
    /// Tilde expansion, holding the name that follows the tilde.
    Tilde(String),
}

/// Token that may involve expansions and quotes.
#[derive(Debug, Eq, PartialEq)]
pub struct Word {
    /// Word units that constitute the word.
    pub units: Vec<WordUnit>,
    /// Location of the word: it starts at the first character.
    pub location: Location,
}

/// Whether `c` is a blank: a space or a tab.
pub open spec fn spec_is_blank(c: char) -> bool {
    c == ' ' || c == '\t'
}

/// Tests whether the given character is a blank: a space or a tab.
pub fn is_blank(c: char) -> (r: bool)
    ensures
        r == spec_is_blank(c),
{
    c == ' ' || c == '\t'
}

/// Whether `c` can start an operator.
pub open spec fn spec_is_operator_char(c: char) -> bool {
    c == ';' || c == '&' || c == '|' || c == '<' || c == '>' || c == '(' || c == ')' || c == '\n'
}

/// Tests whether the given character can start an operator.
pub fn is_operator_char(c: char) -> (r: bool)
    ensures
        r == spec_is_operator_char(c),
{
    c == ';' || c == '&' || c == '|' || c == '<' || c == '>' || c == '(' || c == ')' || c == '\n'
}

/// Whether `c` ends a word token.
pub open spec fn spec_is_token_delimiter_char(c: char) -> bool {
    spec_is_operator_char(c) || spec_is_blank(c)
}

/// Tests whether the given character is a token delimiter.
///
/// A character is a token delimiter if it is either a blank or an
/// [operator](is_operator_char) character.
pub fn is_token_delimiter_char(c: char) -> (r: bool)
    ensures
        r == spec_is_token_delimiter_char(c),
{
    is_operator_char(c) || is_blank(c)
}

/// The characters of a word made of unquoted literal characters only, or
/// `None` if some unit is anything else.
pub open spec fn literal_of(units: Seq<WordUnit>) -> Option<Seq<char>>
    decreases units.len(),
{
    if units.len() == 0 {
        Some(Seq::empty())
    } else {
        match units.last() {
            WordUnit::Unquoted(TextUnit::Literal(c)) => match literal_of(units.drop_last()) {
                Some(s) => Some(s.push(c)),
                None => None,
            },
            _ => None,
        }
    }
}

impl Word {
    /// Returns the word as a string if it consists of unquoted literal
    /// characters only.
    pub fn to_string_if_literal(&self) -> (r: Option<String>)
        ensures
            match literal_of(self.units@) {
                Some(s) => r matches Some(t) && t@ == s,
                None => r is None,
            },
    {
        let mut out = String::new();
        let mut i: usize = 0;
        while i < self.units.len()
            invariant
                i <= self.units@.len(),
                literal_of(self.units@.subrange(0, i as int)) == Some(out@),
            decreases self.units@.len() - i,
        {
            assert(self.units@.subrange(0, i as int + 1).drop_last()
                =~= self.units@.subrange(0, i as int));
            match &self.units[i] {
                WordUnit::Unquoted(TextUnit::Literal(c)) => push_char(&mut out, *c),
                _ => {
                    proof {
                        lemma_literal_of_extends(self.units@, i as int + 1, self.units@.len() as int);
                    }
                    assert(self.units@.subrange(0, self.units@.len() as int) =~= self.units@);
                    return None;
                },
            }
            i = i + 1;
        }
        assert(self.units@.subrange(0, self.units@.len() as int) =~= self.units@);
        Some(out)
    }
}

/// The units of a literal word are its characters, one by one.
pub proof fn lemma_literal_of_units(units: Seq<WordUnit>)
    requires
        literal_of(units) is Some,
    ensures
        literal_of(units)->Some_0.len() == units.len(),
        forall|i: int|
            0 <= i < units.len() ==> #[trigger] units[i] == WordUnit::Unquoted(
                TextUnit::Literal(literal_of(units)->Some_0[i]),
            ),
    decreases units.len(),
{
    if units.len() > 0 {
        lemma_literal_of_units(units.drop_last());
        let l = literal_of(units.drop_last())->Some_0;
        assert forall|i: int| 0 <= i < units.len() implies #[trigger] units[i] == WordUnit::Unquoted(
            TextUnit::Literal(literal_of(units)->Some_0[i]),
        ) by {
            if i < units.len() - 1 {
                assert(units[i] == units.drop_last()[i]);
            }
        }
    }
}

/// A prefix that is not a literal makes every longer prefix not a literal.
proof fn lemma_literal_of_extends(units: Seq<WordUnit>, i: int, j: int)
    requires
        0 <= i <= j <= units.len(),
        literal_of(units.subrange(0, i)) is None,
    ensures
        literal_of(units.subrange(0, j)) is None,
    decreases j - i,
{
    if i < j {
        assert(units.subrange(0, i + 1).drop_last() =~= units.subrange(0, i));
        lemma_literal_of_extends(units, i + 1, j);
    }
}

/// Reserved word.
#[derive(Clone, Copy, Debug, Eq, PartialEq)]
pub enum Keyword {
    Bang,
    OpenBrace,
    CloseBrace,
    Case,
    Do,
    Done,
    Elif,
    Else,
    Esac,
    Fi,
    For,
    If,
    In,
    Then,
    Until,
    While,
}

/// The reserved word spelled `s`, if any.
pub open spec fn spec_keyword(s: Seq<char>) -> Option<Keyword> {
    if s == "!"@ {
        Some(Keyword::Bang)
    } else if s == "{"@ {
        Some(Keyword::OpenBrace)
    } else if s == "}"@ {
        Some(Keyword::CloseBrace)
    } else if s == "case"@ {
        Some(Keyword::Case)
    } else if s == "do"@ {
        Some(Keyword::Do)
    } else if s == "done"@ {
        Some(Keyword::Done)
    } else if s == "elif"@ {
        Some(Keyword::Elif)
    } else if s == "else"@ {
        Some(Keyword::Else)
    } else if s == "esac"@ {
        Some(Keyword::Esac)
    } else if s == "fi"@ {
        Some(Keyword::Fi)
    } else if s == "for"@ {
        Some(Keyword::For)
    } else if s == "if"@ {
        Some(Keyword::If)
    } else if s == "in"@ {
        Some(Keyword::In)
    } else if s == "then"@ {
        Some(Keyword::Then)
    } else if s == "until"@ {
        Some(Keyword::Until)
    } else if s == "while"@ {
        Some(Keyword::While)
    } else {
        None
    }
}

impl Keyword {
    /// Returns the reserved word spelled `s`, if any.
    pub fn parse(s: &str) -> (r: Option<Keyword>)
        ensures
            r == spec_keyword(s@),
    {
        if str_eq(s, "!") {
            Some(Keyword::Bang)
        } else if str_eq(s, "{") {
            Some(Keyword::OpenBrace)
        } else if str_eq(s, "}") {
            Some(Keyword::CloseBrace)
        } else if str_eq(s, "case") {
            Some(Keyword::Case)
        } else if str_eq(s, "do") {
            Some(Keyword::Do)
        } else if str_eq(s, "done") {
            Some(Keyword::Done)
        } else if str_eq(s, "elif") {
            Some(Keyword::Elif)
        } else if str_eq(s, "else") {
            Some(Keyword::Else)
        } else if str_eq(s, "esac") {
            Some(Keyword::Esac)
        } else if str_eq(s, "fi") {
            Some(Keyword::Fi)
        } else if str_eq(s, "for") {
            Some(Keyword::For)
        } else if str_eq(s, "if") {
            Some(Keyword::If)
        } else if str_eq(s, "in") {
            Some(Keyword::In)
        } else if str_eq(s, "then") {
            Some(Keyword::Then)
        } else if str_eq(s, "until") {
            Some(Keyword::Until)
        } else if str_eq(s, "while") {
            Some(Keyword::While)
        } else {
            None
        }
    }
}

/// Whether `u` is an unquoted literal that may be part of the name after a
/// tilde: anything but `/` and `:`.
pub open spec fn is_tilde_name_unit(u: WordUnit) -> bool {
    match u {
        WordUnit::Unquoted(TextUnit::Literal(c)) => c != '/' && c != ':',
        _ => false,
    }
}

/// Position of the first unit at or after `k` that cannot be part of a tilde
/// name.
pub open spec fn tilde_name_end(units: Seq<WordUnit>, k: int) -> int
    decreases units.len() - k,
{
    if 0 <= k < units.len() && is_tilde_name_unit(units[k]) {
        tilde_name_end(units, k + 1)
    } else {
        k
    }
}

/// Whether a word with `units` starts with a tilde expansion: an unquoted
/// `~` and a name of unquoted literals that the end of the word, or an
/// unquoted `/` or `:`, ends.
pub open spec fn starts_with_tilde(units: Seq<WordUnit>) -> bool {
    &&& units.len() > 0
    &&& units[0] == WordUnit::Unquoted(TextUnit::Literal('~'))
    &&& ({
        let k = tilde_name_end(units, 1);
        k >= units.len() || units[k] == WordUnit::Unquoted(TextUnit::Literal('/')) || units[k]
            == WordUnit::Unquoted(TextUnit::Literal(':'))
    })
}

proof fn lemma_tilde_name_end(units: Seq<WordUnit>, k: int)
    requires
        0 <= k <= units.len(),
    ensures
        k <= tilde_name_end(units, k) <= units.len(),
        forall|i: int| k <= i < tilde_name_end(units, k) ==> is_tilde_name_unit(#[trigger] units[i]),
    decreases units.len() - k,
{
    if k < units.len() && is_tilde_name_unit(units[k]) {
        lemma_tilde_name_end(units, k + 1);
    }
}

/// Whether `out` is `units` with a tilde expansion at the start recognized,
/// as [`Word::parse_tilde_front`] does.
pub open spec fn tilde_front_applied(units: Seq<WordUnit>, out: Seq<WordUnit>) -> bool {
    let k = tilde_name_end(units, 1);
    if starts_with_tilde(units) {
        &&& out.len() == units.len() - k + 1
        &&& out[0] matches WordUnit::Tilde(name)
        &&& literal_of(units.subrange(1, k)) == Some(name@)
        &&& out.subrange(1, out.len() as int) == units.subrange(k, units.len() as int)
    } else {
        out == units
    }
}

impl Word {
    /// Recognizes a tilde expansion at the start of the word.
    ///
    /// If the word starts with an unquoted `~` followed by unquoted literal
    /// characters up to the end of the word or an unquoted `/` or `:`, those
    /// units are replaced by one [`WordUnit::Tilde`] holding the name.
    /// Otherwise the word is left unchanged.
    pub fn parse_tilde_front(&mut self)
        ensures
            final(self).location == old(self).location,
            final(self).units@.len() == 0 <==> old(self).units@.len() == 0,
            tilde_front_applied(old(self).units@, final(self).units@),
    {
        let ghost units = self.units@;
        if let Some((name, k)) = tilde_prefix(&self.units) {
            let rest = self.units.split_off(k);
            self.units = rest;
            self.units.insert(0, WordUnit::Tilde(name));
            assert(self.units@.subrange(1, self.units@.len() as int) =~= units.subrange(
                k as int,
                units.len() as int,
            ));
        }
    }
}

/// Whether `out` is `units` with a tilde expansion recognized at the start
/// (if `at_start`) and after every unquoted `:`.
pub open spec fn tildes_everywhere(units: Seq<WordUnit>, out: Seq<WordUnit>, at_start: bool) -> bool
    decreases units.len(),
{
    if units.len() == 0 {
        out.len() == 0
    } else if at_start && starts_with_tilde(units) && 1 <= tilde_name_end(units, 1) <= units.len() {
        let k = tilde_name_end(units, 1);
        &&& out.len() > 0
        &&& out[0] matches WordUnit::Tilde(name)
        &&& literal_of(units.subrange(1, k)) == Some(name@)
        &&& tildes_everywhere(units.subrange(k, units.len() as int), out.drop_first(), false)
    } else {
        &&& out.len() > 0
        &&& out[0] == units[0]
        &&& tildes_everywhere(
            units.drop_first(),
            out.drop_first(),
            units[0] == WordUnit::Unquoted(TextUnit::Literal(':')),
        )
    }
}

/// Finds a tilde expansion at the start of `units`: the name and the
/// number of units it replaces.
fn tilde_prefix(units: &Vec<WordUnit>) -> (r: Option<(String, usize)>)
    ensures
        match r {
            Some((name, k)) => starts_with_tilde(units@) && k == tilde_name_end(units@, 1)
                && literal_of(units@.subrange(1, k as int)) == Some(name@),
            None => !starts_with_tilde(units@),
        },
        r matches Some((name, k)) ==> 1 <= k <= units@.len(),
{
    let n = units.len();
    if n == 0 {
        return None;
    }
    match &units[0] {
        WordUnit::Unquoted(TextUnit::Literal(c)) => {
            if *c != '~' {
                return None;
            }
        },
        _ => return None,
    }
    proof {
        lemma_tilde_name_end(units@, 1);
    }
    let mut name = String::new();
    let mut k: usize = 1;
    while k < n
        invariant
            n == units@.len(),
            units@[0] == WordUnit::Unquoted(TextUnit::Literal('~')),
            1 <= k <= tilde_name_end(units@, 1),
            tilde_name_end(units@, k as int) == tilde_name_end(units@, 1),
            literal_of(units@.subrange(1, k as int)) == Some(name@),
        ensures
            k == tilde_name_end(units@, 1),
            literal_of(units@.subrange(1, k as int)) == Some(name@),
        decreases n - k,
    {
        let c = match &units[k] {
            WordUnit::Unquoted(TextUnit::Literal(c)) => *c,
            _ => {
                assert(!is_tilde_name_unit(units@[k as int]));
                break;
            },
        };
        if c == '/' || c == ':' {
            assert(!is_tilde_name_unit(units@[k as int]));
            break;
        }
        assert(is_tilde_name_unit(units@[k as int]));
        proof {
            lemma_tilde_name_end(units@, k as int + 1);
        }
        assert(units@.subrange(1, k as int + 1).drop_last() =~= units@.subrange(1, k as int));
        push_char(&mut name, c);
        k = k + 1;
    }
    if k < n {
        match &units[k] {
            WordUnit::Unquoted(TextUnit::Literal(c)) => {
                if *c != '/' && *c != ':' {
                    return None;
                }
            },
            _ => return None,
        }
    }
    Some((name, k))
}

impl Word {
    /// Recognizes tilde expansions at the start of the word and after every
    /// unquoted `:`, as in an assignment value.
    ///
    /// Each `~` there that is followed by unquoted literal characters up to
    /// the end of the word or an unquoted `/` or `:` becomes, with those
    /// characters, one [`WordUnit::Tilde`] holding the name.
    pub fn parse_tilde_everywhere(&mut self)
        ensures
            final(self).location == old(self).location,
            tildes_everywhere(old(self).units@, final(self).units@, true),
    {
        let ghost orig = self.units@;
        let mut input = self.units.split_off(0);
        assert(input@ =~= orig);
        let mut out: Vec<WordUnit> = Vec::new();
        let mut at_start = true;
        while input.len() > 0
            invariant
                forall|x: Seq<WordUnit>|
                    #[trigger] tildes_everywhere(input@, x, at_start) ==> tildes_everywhere(orig, out@ + x, true),
            decreases input@.len(),
        {
            let ghost before_in = input@;
            let ghost before_out = out@;
            let ghost start = at_start;
            let found = if at_start {
                tilde_prefix(&input)
            } else {
                None
            };
            match found {
                Some((name, k)) => {
                    let rest = input.split_off(k);
                    input = rest;
                    let ghost t = WordUnit::Tilde(name);
                    out.push(WordUnit::Tilde(name));
                    at_start = false;
                    assert forall|x: Seq<WordUnit>|
                        #[trigger] tildes_everywhere(input@, x, at_start) implies tildes_everywhere(
                            orig,
                            out@ + x,
                            true,
                        ) by {
                        let y = seq![t] + x;
                        assert(y.drop_first() =~= x);
                        assert(input@ =~= before_in.subrange(k as int, before_in.len() as int));
                        assert(tildes_everywhere(before_in, y, start));
                        assert(before_out + y =~= out@ + x);
                    }
                },
                None => {
                    let u = input.remove(0);
                    let colon = match &u {
                        WordUnit::Unquoted(TextUnit::Literal(c)) => *c == ':',
                        _ => false,
                    };
                    let ghost g = u;
                    out.push(u);
                    at_start = colon;
                    assert(at_start == (g == WordUnit::Unquoted(TextUnit::Literal(':'))));
                    assert forall|x: Seq<WordUnit>|
                        #[trigger] tildes_everywhere(input@, x, at_start) implies tildes_everywhere(
                            orig,
                            out@ + x,
                            true,
                        ) by {
                        let y = seq![g] + x;
                        assert(y.drop_first() =~= x);
                        assert(input@ =~= before_in.drop_first());
                        assert(tildes_everywhere(before_in, y, start));
                        assert(before_out + y =~= out@ + x);
                    }
                },
            }
        }
        assert(tildes_everywhere(input@, Seq::<WordUnit>::empty(), at_start));
        assert(out@ + Seq::<WordUnit>::empty() =~= out@);
        self.units = out;
    }
}

} // verus!
