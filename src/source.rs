//! Source code that is passed to the parser.
//!
//! [`Source`] says where a fragment of code came from, [`Code`] holds the
//! fragment, and a [`Location`] names a range of characters in a `Code`.

use crate::alias::Alias;
use crate::chars::chars_of;
use crate::chars::string_of;
use std::ops::Range;
use std::rc::Rc;
use vstd::prelude::*;
use vstd::string::StringExecFns;

verus! {

/// Origin of source code.
#[derive(Clone, Debug, Eq, PartialEq)]
pub enum Source {
    /// Source code of unknown origin.
    Unknown,
    /// Standard input.
    Stdin,
    /// Code that replaced a word as a result of alias substitution.
    Alias {
        /// Position of the original word that was replaced
        original: Location,
        /// Definition of the alias that was substituted
        alias: Rc<Alias>,
    },
    /// Command substitution.
    CommandSubst { original: Location },
    /// Arithmetic expansion.
    Arith { original: Location },
    /// Trap command.
    Trap {
        /// Trap condition name, typically the signal name.
        condition: String,
        /// Location of the simple command that has set this trap command.
        origin: Location,
    },
}

/// Source code fragment.
#[derive(Clone, Debug, Eq, PartialEq)]
pub struct Code {
    /// Content of the code, usually terminated by a newline.
    pub value: String,
    /// Line number of the first line of the code, counted from 1.
    pub start_line_number: u64,
    /// Origin of this code.
    pub source: Source,
}

/// Position of source code: a range of characters in a [`Code`].
#[derive(Debug, Eq, PartialEq)]
pub struct Location {
    /// Code that contains the characters.
    pub code: Rc<Code>,
    /// Character positions in the code, counted from 0 in Unicode scalar
    /// values.
    pub range: Range<usize>,
}

impl Clone for Location {
    fn clone(&self) -> (r: Location)
        ensures
            r == *self,
    {
        Location { code: Rc::clone(&self.code), range: self.range.start..self.range.end }
    }
}

impl Source {
    /// Whether this source, or one of the sources it was produced from, is an
    /// alias substitution of `name`.
    pub open spec fn spec_is_alias_for(self, name: Seq<char>) -> bool
        decreases self,
    {
        match self {
            Source::Alias { original, alias } => alias.name@ == name
                || original.code.source.spec_is_alias_for(name),
            _ => false,
        }
    }

    /// Tests if this source is alias substitution for the given name.
    ///
    /// Returns true if `self` is `Source::Alias` with the `name` or such an
    /// original, recursively.
    pub fn is_alias_for(&self, name: &str) -> (r: bool)
        ensures
            r == self.spec_is_alias_for(name@),
        decreases self,
    {
        match self {
            Source::Alias { original, alias } => {
                let n = alias.name.as_str();
                if str_eq(n, name) {
                    true
                } else {
                    original.code.source.is_alias_for(name)
                }
            },
            _ => false,
        }
    }
}

impl Source {
    /// Returns a label that describes the source.
    pub fn label(&self) -> (r: &str)
        ensures
            match self {
                Source::Unknown => r@ == "<?>"@,
                Source::Stdin => r@ == "<stdin>"@,
                Source::Alias { .. } => r@ == "<alias>"@,
                Source::CommandSubst { .. } => r@ == "<command_substitution>"@,
                Source::Arith { .. } => r@ == "<arith>"@,
                Source::Trap { condition, .. } => r@ == condition@,
            },
    {
        match self {
            Source::Unknown => "<?>",
            Source::Stdin => "<stdin>",
            Source::Alias { .. } => "<alias>",
            Source::CommandSubst { .. } => "<command_substitution>",
            Source::Arith { .. } => "<arith>",
            Source::Trap { condition, .. } => condition.as_str(),
        }
    }
}

/// Tests two strings for equality, character by character.
pub fn str_eq(a: &str, b: &str) -> (r: bool)
    ensures
        r == (a@ == b@),
{
    let n = a.unicode_len();
    if n != b.unicode_len() {
        return false;
    }
    let mut i: usize = 0;
    while i < n
        invariant
            n == a@.len(),
            n == b@.len(),
            i <= n,
            forall|k: int| 0 <= k < i ==> a@[k] == b@[k],
        decreases n - i,
    {
        if a.get_char(i) != b.get_char(i) {
            return false;
        }
        i = i + 1;
    }
    assert(a@ =~= b@);
    true
}

/// Index of the first character of the line that contains position `i`.
pub open spec fn line_start(s: Seq<char>, i: int) -> int
    decreases i,
{
    if i <= 0 {
        0
    } else if s[i - 1] == '\n' {
        i
    } else {
        line_start(s, i - 1)
    }
}

/// Index just past the end of the line that contains position `i`: past its
/// newline, or the end of the text.
pub open spec fn line_end(s: Seq<char>, i: int) -> int
    decreases s.len() - i,
{
    if i >= s.len() {
        s.len() as int
    } else if s[i] == '\n' {
        i + 1
    } else {
        line_end(s, i + 1)
    }
}

/// Number of newlines among the first `i` characters.
pub open spec fn newlines_before(s: Seq<char>, i: int) -> nat
    decreases i,
{
    if i <= 0 {
        0
    } else {
        newlines_before(s, i - 1) + if s[i - 1] == '\n' {
            1nat
        } else {
            0nat
        }
    }
}

/// Number of alias substitutions stacked under this source.
pub open spec fn alias_depth(s: Source) -> nat
    decreases s,
{
    match s {
        Source::Alias { original, .. } => 1 + alias_depth(original.code.source),
        _ => 0,
    }
}

/// The location reached from `loc` by following the original of an alias
/// substitution `n` times.
pub open spec fn walk_aliases(loc: Location, n: nat) -> Location
    decreases n,
{
    if n == 0 {
        loc
    } else {
        match loc.code.source {
            Source::Alias { original, .. } => walk_aliases(original, (n - 1) as nat),
            _ => loc,
        }
    }
}

/// Walking the chain of alias substitutions back from any location reaches,
/// after as many steps as there are substitutions stacked under it, a
/// location whose code did not come from an alias: the chain is finite and
/// ends at the text the user typed.
pub proof fn lemma_alias_chain_reaches_origin(loc: Location)
    ensures
        !(walk_aliases(loc, alias_depth(loc.code.source)).code.source is Alias),
    decreases alias_depth(loc.code.source),
{
    match loc.code.source {
        Source::Alias { original, .. } => {
            lemma_alias_chain_reaches_origin(original);
        },
        _ => {},
    }
}

impl Location {
    /// Location of the single character at `index` in `code`.
    pub fn at(code: &Rc<Code>, index: usize) -> (r: Location)
        requires
            index < usize::MAX,
        ensures
            r.code == *code,
            r.range.start == index,
            r.range.end == index + 1,
    {
        Location { code: Rc::clone(code), range: index..index + 1 }
    }

    /// Creates a dummy location.
    ///
    /// The returned location has [unknown](Source::Unknown) source and the
    /// given source code value, its line numbering starts at 1, and it ranges
    /// over the whole code.
    pub fn dummy(value: &str) -> (r: Location)
        ensures
            r.code.value@ == value@,
            r.code.start_line_number == 1,
            r.code.source == Source::Unknown,
            r.range.start == 0,
            r.range.end == value@.len(),
    {
        let n = value.unicode_len();
        let code = Code { value: String::from_str(value), start_line_number: 1, source: Source::Unknown };
        Location { code: Rc::new(code), range: 0..n }
    }

    /// Position of the first character, clamped to the length of the code.
    pub open spec fn spec_pos(&self) -> int {
        if self.range.start <= self.code.value@.len() {
            self.range.start as int
        } else {
            self.code.value@.len() as int
        }
    }

    /// Returns the whole line of the code that contains the first character,
    /// with its newline if it has one.
    pub fn line_value(&self) -> (r: String)
        ensures
            r@ == self.code.value@.subrange(
                line_start(self.code.value@, self.spec_pos()),
                line_end(self.code.value@, self.spec_pos()),
            ),
    {
        let v = chars_of(self.code.value.as_str());
        let n = v.len();
        let pos = if self.range.start <= n { self.range.start } else { n };
        let lo = line_start_of(&v, pos);
        let hi = line_end_of(&v, pos);
        string_of(&v, lo, hi)
    }

    /// Returns the column of the first character in its line, counted from 1.
    pub fn column(&self) -> (r: u64)
        ensures
            r == if self.spec_pos() - line_start(self.code.value@, self.spec_pos()) < u64::MAX {
                self.spec_pos() - line_start(self.code.value@, self.spec_pos()) + 1
            } else {
                u64::MAX as int
            },
    {
        let v = chars_of(self.code.value.as_str());
        let n = v.len();
        let pos = if self.range.start <= n { self.range.start } else { n };
        let lo = line_start_of(&v, pos);
        ((pos - lo) as u64).saturating_add(1)
    }

    /// Returns the number of the line that contains the first character,
    /// saturating at the largest `u64`.
    pub fn line_number(&self) -> (r: u64)
        ensures
            r == if self.code.start_line_number + newlines_before(
                self.code.value@,
                self.spec_pos(),
            ) <= u64::MAX {
                self.code.start_line_number + newlines_before(self.code.value@, self.spec_pos())
            } else {
                u64::MAX as int
            },
    {
        let v = chars_of(self.code.value.as_str());
        let n = v.len();
        let pos = if self.range.start <= n { self.range.start } else { n };
        let mut count: u64 = self.code.start_line_number;
        let mut i: usize = 0;
        while i < pos
            invariant
                pos <= v@.len(),
                i <= pos,
                count == if self.code.start_line_number + newlines_before(v@, i as int)
                    <= u64::MAX {
                    self.code.start_line_number + newlines_before(v@, i as int)
                } else {
                    u64::MAX as int
                },
            decreases pos - i,
        {
            if v[i] == '\n' {
                count = count.saturating_add(1);
            }
            i = i + 1;
        }
        count
    }
}

/// Executable form of [`line_start`].
fn line_start_of(v: &Vec<char>, pos: usize) -> (r: usize)
    requires
        pos <= v@.len(),
    ensures
        r == line_start(v@, pos as int),
        r <= pos,
{
    let mut i = pos;
    while i > 0 && v[i - 1] != '\n'
        invariant
            i <= pos <= v@.len(),
            line_start(v@, i as int) == line_start(v@, pos as int),
        decreases i,
    {
        i = i - 1;
    }
    i
}

/// Executable form of [`line_end`].
fn line_end_of(v: &Vec<char>, pos: usize) -> (r: usize)
    requires
        pos <= v@.len(),
    ensures
        r == line_end(v@, pos as int),
        pos <= r <= v@.len(),
{
    let mut i = pos;
    while i < v.len() && v[i] != '\n'
        invariant
            pos <= i <= v@.len(),
            line_end(v@, i as int) == line_end(v@, pos as int),
        decreases v@.len() - i,
    {
        i = i + 1;
    }
    if i < v.len() {
        i + 1
    } else {
        i
    }
}

/// Character with source description.
#[derive(Clone, Debug, Eq, PartialEq)]
pub struct SourceChar {
    /// Character value.
    pub value: char,
    /// Location of this character in source code.
    pub location: Location,
}

/// Creates the [source char](SourceChar)s of a string.
///
/// `index_offset` is the index of the first source char's location; each
/// following char's index is one more.
pub fn source_chars(s: &str, code: &Rc<Code>, index_offset: usize) -> (r: Vec<SourceChar>)
    requires
        index_offset + s@.len() < usize::MAX,
    ensures
        r@.len() == s@.len(),
        forall|i: int|
            0 <= i < s@.len() ==> {
                &&& (#[trigger] r@[i]).value == s@[i]
                &&& r@[i].location.code == *code
                &&& r@[i].location.range.start == index_offset + i
                &&& r@[i].location.range.end == index_offset + i + 1
            },
{
    let n = s.unicode_len();
    let mut out: Vec<SourceChar> = Vec::new();
    let mut i: usize = 0;
    while i < n
        invariant
            n == s@.len(),
            index_offset + s@.len() < usize::MAX,
            i <= n,
            out@.len() == i,
            forall|k: int|
                0 <= k < i ==> {
                    &&& (#[trigger] out@[k]).value == s@[k]
                    &&& out@[k].location.code == *code
                    &&& out@[k].location.range.start == index_offset + k
                    &&& out@[k].location.range.end == index_offset + k + 1
                },
        decreases n - i,
    {
        let location = Location::at(code, index_offset + i);
        let c = s.get_char(i);
        out.push(SourceChar { value: c, location });
        i = i + 1;
    }
    out
}

} // verus!
