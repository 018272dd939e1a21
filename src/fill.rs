//! Command trees and the delayed filling of here-document contents.
//!
//! The content of a here-document appears after the line that holds its
//! operator, so a parser first builds a partial tree in which each
//! here-document is a [`MissingHereDoc`] placeholder, then reads the
//! contents, and finally fills them in with [`Pipeline::fill`].

use crate::syntax::Text;
use crate::syntax::Word;
use vstd::prelude::*;

verus! {

/// Placeholder for a here-document that is not yet fully parsed.
#[derive(Clone, Copy, Debug, Eq, PartialEq)]
pub struct MissingHereDoc;

/// Here-document: a redirection whose content follows the command line.
#[derive(Debug, Eq, PartialEq)]
pub struct HereDoc {
    /// Token that marks the end of the content.
    pub delimiter: Word,
    /// Whether leading tab characters are removed from each content line
    /// (the `<<-` operator).
    pub remove_tabs: bool,
    /// Content of the here-document, without the delimiter line.
    pub content: Text,
}

/// Redirection operator other than a here-document.
#[derive(Clone, Copy, Debug, Eq, PartialEq)]
pub enum RedirOp {
    /// `<`
    FileIn,
    /// `<>`
    FileInOut,
    /// `>`
    FileOut,
    /// `>>`
    FileAppend,
    /// `>|`
    FileClobber,
    /// `<&`
    FdIn,
    /// `>&`
    FdOut,
}

/// Part of a redirection after the file descriptor.
#[derive(Debug, Eq, PartialEq)]
pub enum RedirBody<H> {
    /// Redirection with an operator and an operand word.
    Normal { operator: RedirOp, operand: Word },
    /// Here-document.
    HereDoc(H),
}

/// Redirection.
#[derive(Debug, Eq, PartialEq)]
pub struct Redir<H> {
    /// File descriptor that is modified by this redirection.
    pub fd: Option<u32>,
    /// Nature of the resulting file descriptor.
    pub body: RedirBody<H>,
}

/// Command that involves assignments, redirections, and word expansions.
#[derive(Debug, Eq, PartialEq)]
pub struct SimpleCommand<H> {
    /// Command name and arguments.
    pub words: Vec<Word>,
    /// Redirections.
    pub redirs: Vec<Redir<H>>,
}

/// Element of a pipe sequence.
#[derive(Debug, Eq, PartialEq)]
pub enum Command<H> {
    /// Simple command.
    SimpleCommand(SimpleCommand<H>),
}

/// Commands separated by `|`.
#[derive(Debug, Eq, PartialEq)]
pub struct Pipeline<H> {
    /// Elements of the pipeline; never empty.
    pub commands: Vec<Command<H>>,
    /// Whether the pipeline begins with a `!`.
    pub negation: bool,
}

/// Number of here-document placeholders in a redirection.
pub open spec fn redir_missing(r: Redir<MissingHereDoc>) -> nat {
    match r.body {
        RedirBody::HereDoc(_) => 1,
        RedirBody::Normal { .. } => 0,
    }
}

/// Number of here-document placeholders in a sequence of redirections.
pub open spec fn redirs_missing(rs: Seq<Redir<MissingHereDoc>>) -> nat
    decreases rs.len(),
{
    if rs.len() == 0 {
        0
    } else {
        redirs_missing(rs.drop_last()) + redir_missing(rs.last())
    }
}

/// Number of here-document placeholders in a command.
pub open spec fn command_missing(c: Command<MissingHereDoc>) -> nat {
    match c {
        Command::SimpleCommand(s) => redirs_missing(s.redirs@),
    }
}

/// Number of here-document placeholders in a sequence of commands.
pub open spec fn commands_missing(cs: Seq<Command<MissingHereDoc>>) -> nat
    decreases cs.len(),
{
    if cs.len() == 0 {
        0
    } else {
        commands_missing(cs.drop_last()) + command_missing(cs.last())
    }
}

/// Number of here-document placeholders in a pipeline.
pub open spec fn pipeline_missing(p: Pipeline<MissingHereDoc>) -> nat {
    commands_missing(p.commands@)
}

/// The here-documents of a filled redirection, in order.
pub open spec fn redir_docs(r: Redir<HereDoc>) -> Seq<HereDoc> {
    match r.body {
        RedirBody::HereDoc(h) => seq![h],
        RedirBody::Normal { .. } => Seq::empty(),
    }
}

/// The here-documents of a sequence of filled redirections, in order.
pub open spec fn redirs_docs(rs: Seq<Redir<HereDoc>>) -> Seq<HereDoc>
    decreases rs.len(),
{
    if rs.len() == 0 {
        Seq::empty()
    } else {
        redirs_docs(rs.drop_last()) + redir_docs(rs.last())
    }
}

/// The here-documents of a filled command, in order.
pub open spec fn command_docs(c: Command<HereDoc>) -> Seq<HereDoc> {
    match c {
        Command::SimpleCommand(s) => redirs_docs(s.redirs@),
    }
}

/// The here-documents of a sequence of filled commands, in order.
pub open spec fn commands_docs(cs: Seq<Command<HereDoc>>) -> Seq<HereDoc>
    decreases cs.len(),
{
    if cs.len() == 0 {
        Seq::empty()
    } else {
        commands_docs(cs.drop_last()) + command_docs(cs.last())
    }
}

/// Whether a filled redirection is `r` with its placeholder, if any,
/// replaced.
pub open spec fn redir_filled(r: Redir<MissingHereDoc>, f: Redir<HereDoc>) -> bool {
    &&& f.fd == r.fd
    &&& match (r.body, f.body) {
        (RedirBody::HereDoc(_), RedirBody::HereDoc(_)) => true,
        (RedirBody::Normal { operator: o1, operand: w1 }, RedirBody::Normal { operator: o2, operand: w2 }) => o1
            == o2 && w1 == w2,
        _ => false,
    }
}

/// Takes the first element of a vector.
fn take_first<T>(v: &mut Vec<T>) -> (r: T)
    requires
        old(v)@.len() > 0,
    ensures
        r == old(v)@[0],
        final(v)@ == old(v)@.subrange(1, old(v)@.len() as int),
{
    v.remove(0)
}

impl Redir<MissingHereDoc> {
    /// Replaces the placeholder, if any, with the first here-document of
    /// `docs`, which is taken out.
    pub fn fill(self, docs: &mut Vec<HereDoc>) -> (r: Redir<HereDoc>)
        requires
            old(docs)@.len() >= redir_missing(self),
        ensures
            redir_filled(self, r),
            redir_docs(r) == old(docs)@.subrange(0, redir_missing(self) as int),
            final(docs)@ == old(docs)@.subrange(redir_missing(self) as int, old(docs)@.len() as int),
    {
        let body = match self.body {
            RedirBody::HereDoc(_) => RedirBody::HereDoc(take_first(docs)),
            RedirBody::Normal { operator, operand } => {
                assert(old(docs)@.subrange(0, old(docs)@.len() as int) =~= old(docs)@);
                RedirBody::Normal { operator, operand }
            },
        };
        let r = Redir { fd: self.fd, body };
        assert(redir_docs(r) =~= old(docs)@.subrange(0, redir_missing(self) as int));
        r
    }
}

impl SimpleCommand<MissingHereDoc> {
    /// Replaces the placeholders of the redirections, in order, with the
    /// first here-documents of `docs`, which are taken out.
    pub fn fill(self, docs: &mut Vec<HereDoc>) -> (r: SimpleCommand<HereDoc>)
        requires
            old(docs)@.len() >= redirs_missing(self.redirs@),
        ensures
            r.words == self.words,
            r.redirs@.len() == self.redirs@.len(),
            forall|i: int| 0 <= i < r.redirs@.len() ==> redir_filled(self.redirs@[i], #[trigger] r.redirs@[i]),
            redirs_docs(r.redirs@) == old(docs)@.subrange(0, redirs_missing(self.redirs@) as int),
            final(docs)@ == old(docs)@.subrange(
                redirs_missing(self.redirs@) as int,
                old(docs)@.len() as int,
            ),
    {
        let ghost all = old(docs)@;
        let ghost orig = self.redirs@;
        let SimpleCommand { words, redirs } = self;
        let mut rest = redirs;
        let mut filled: Vec<Redir<HereDoc>> = Vec::new();
        let n = rest.len();
        let mut i: usize = 0;
        proof {
            lemma_redirs_missing_bound(orig, 0, orig.len() as int);
        }
        while i < n
            invariant
                n == orig.len(),
                i <= n,
                rest@ == orig.subrange(i as int, n as int),
                filled@.len() == i,
                forall|k: int| 0 <= k < i ==> redir_filled(orig[k], #[trigger] filled@[k]),
                redirs_missing(orig.subrange(0, i as int)) <= redirs_missing(orig),
                all.len() >= redirs_missing(orig),
                redirs_docs(filled@) == all.subrange(0, redirs_missing(orig.subrange(0, i as int)) as int),
                docs@ == all.subrange(redirs_missing(orig.subrange(0, i as int)) as int, all.len() as int),
            decreases n - i,
        {
            let ghost before = docs@;
            let ghost done: int = redirs_missing(orig.subrange(0, i as int)) as int;
            let ghost m: int = redir_missing(orig[i as int]) as int;
            proof {
                assert(orig.subrange(0, i as int + 1).drop_last() =~= orig.subrange(0, i as int));
                lemma_redirs_missing_bound(orig, 0, i as int + 1);
            }
            let redir = take_first(&mut rest);
            assert(redir == orig[i as int]);
            let f = redir.fill(docs);
            let ghost prev = filled@;
            filled.push(f);
            proof {
                assert(filled@.drop_last() =~= prev);
                assert(all.subrange(0, done) + all.subrange(done, done + m) =~= all.subrange(0, done + m));
                assert(before.subrange(0, m) =~= all.subrange(done, done + m));
                assert(before.subrange(m, before.len() as int) =~= all.subrange(done + m, all.len() as int));
                assert(rest@ =~= orig.subrange(i as int + 1, n as int));
            }
            i = i + 1;
        }
        assert(orig.subrange(0, n as int) =~= orig);
        SimpleCommand { words, redirs: filled }
    }
}

proof fn lemma_redirs_missing_bound(rs: Seq<Redir<MissingHereDoc>>, lo: int, hi: int)
    requires
        0 <= lo <= hi <= rs.len(),
        lo == 0,
    ensures
        redirs_missing(rs.subrange(lo, hi)) <= redirs_missing(rs),
    decreases rs.len() - hi,
{
    if hi < rs.len() {
        lemma_redirs_missing_bound(rs, lo, hi + 1);
        assert(rs.subrange(lo, hi + 1).drop_last() =~= rs.subrange(lo, hi));
    } else {
        assert(rs.subrange(lo, hi) =~= rs);
    }
}

/// Whether a filled command is `c` with its placeholders replaced: the same
/// words, and each redirection filled in place.
pub open spec fn command_filled(c: Command<MissingHereDoc>, f: Command<HereDoc>) -> bool {
    match (c, f) {
        (Command::SimpleCommand(a), Command::SimpleCommand(b)) => b.words == a.words && b.redirs@.len()
            == a.redirs@.len() && forall|i: int|
            0 <= i < b.redirs@.len() ==> redir_filled(a.redirs@[i], #[trigger] b.redirs@[i]),
    }
}

impl Command<MissingHereDoc> {
    /// Replaces the here-document placeholders of the command, in order,
    /// with the first here-documents of `docs`, which are taken out.
    pub fn fill(self, docs: &mut Vec<HereDoc>) -> (r: Command<HereDoc>)
        requires
            old(docs)@.len() >= command_missing(self),
        ensures
            command_docs(r) == old(docs)@.subrange(0, command_missing(self) as int),
            final(docs)@ == old(docs)@.subrange(command_missing(self) as int, old(docs)@.len() as int),
            command_filled(self, r),
    {
        match self {
            Command::SimpleCommand(c) => Command::SimpleCommand(c.fill(docs)),
        }
    }
}

proof fn lemma_commands_missing_bound(cs: Seq<Command<MissingHereDoc>>, hi: int)
    requires
        0 <= hi <= cs.len(),
    ensures
        commands_missing(cs.subrange(0, hi)) <= commands_missing(cs),
    decreases cs.len() - hi,
{
    if hi < cs.len() {
        lemma_commands_missing_bound(cs, hi + 1);
        assert(cs.subrange(0, hi + 1).drop_last() =~= cs.subrange(0, hi));
    } else {
        assert(cs.subrange(0, hi) =~= cs);
    }
}

impl Pipeline<MissingHereDoc> {
    /// Replaces every here-document placeholder of the pipeline, in order,
    /// with the first here-documents of `docs`, which are taken out.
    ///
    /// Exactly as many here-documents are taken as the pipeline has
    /// placeholders, and the filled pipeline holds them in the order they
    /// were given.
    pub fn fill(self, docs: &mut Vec<HereDoc>) -> (r: Pipeline<HereDoc>)
        requires
            old(docs)@.len() >= pipeline_missing(self),
        ensures
            r.negation == self.negation,
            r.commands@.len() == self.commands@.len(),
            forall|i: int|
                0 <= i < r.commands@.len() ==> command_filled(self.commands@[i], #[trigger] r.commands@[i]),
            commands_docs(r.commands@) == old(docs)@.subrange(0, pipeline_missing(self) as int),
            final(docs)@ == old(docs)@.subrange(pipeline_missing(self) as int, old(docs)@.len() as int),
    {
        let ghost all = old(docs)@;
        let ghost orig = self.commands@;
        let Pipeline { commands, negation } = self;
        let mut rest = commands;
        let mut filled: Vec<Command<HereDoc>> = Vec::new();
        let n = rest.len();
        let mut i: usize = 0;
        proof {
            lemma_commands_missing_bound(orig, 0);
        }
        while i < n
            invariant
                n == orig.len(),
                i <= n,
                rest@ == orig.subrange(i as int, n as int),
                filled@.len() == i,
                forall|k: int| 0 <= k < i ==> command_filled(orig[k], #[trigger] filled@[k]),
                all.len() >= commands_missing(orig),
                commands_docs(filled@) == all.subrange(0, commands_missing(orig.subrange(0, i as int)) as int),
                docs@ == all.subrange(commands_missing(orig.subrange(0, i as int)) as int, all.len() as int),
            decreases n - i,
        {
            let ghost before = docs@;
            let ghost done: int = commands_missing(orig.subrange(0, i as int)) as int;
            let ghost m: int = command_missing(orig[i as int]) as int;
            proof {
                assert(orig.subrange(0, i as int + 1).drop_last() =~= orig.subrange(0, i as int));
                lemma_commands_missing_bound(orig, i as int + 1);
            }
            let command = take_first(&mut rest);
            assert(command == orig[i as int]);
            let f = command.fill(docs);
            let ghost prev = filled@;
            filled.push(f);
            proof {
                assert(filled@.drop_last() =~= prev);
                assert(all.subrange(0, done) + all.subrange(done, done + m) =~= all.subrange(0, done + m));
                assert(before.subrange(0, m) =~= all.subrange(done, done + m));
                assert(before.subrange(m, before.len() as int) =~= all.subrange(done + m, all.len() as int));
                assert(rest@ =~= orig.subrange(i as int + 1, n as int));
            }
            i = i + 1;
        }
        assert(orig.subrange(0, n as int) =~= orig);
        Pipeline { commands: filled, negation }
    }
}

} // verus!
