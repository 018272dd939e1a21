//! Alias definitions and the set that holds them.

use crate::source::str_eq;
use crate::source::Location;
use std::rc::Rc;
use vstd::prelude::*;

verus! {

/// Name-value pair that defines an alias.
#[derive(Clone, Debug, Eq, PartialEq)]
pub struct Alias {
    /// Name of the alias that is matched against a command word.
    pub name: String,
    /// String that substitutes a matched word.
    pub replacement: String,
    /// Whether the alias may replace a word that is not a command name.
    pub global: bool,
    /// Location of the word that defined the alias.
    pub origin: Location,
}

/// The alias that `name` finds among `entries`: the last one so named.
pub open spec fn lookup(entries: Seq<Rc<Alias>>, name: Seq<char>) -> Option<Rc<Alias>>
    decreases entries.len(),
{
    if entries.len() == 0 {
        None
    } else if entries.last().name@ == name {
        Some(entries.last())
    } else {
        lookup(entries.drop_last(), name)
    }
}

/// `entries` without those named `name`.
pub open spec fn without(entries: Seq<Rc<Alias>>, name: Seq<char>) -> Seq<Rc<Alias>>
    decreases entries.len(),
{
    if entries.len() == 0 {
        entries
    } else if entries.last().name@ == name {
        without(entries.drop_last(), name)
    } else {
        without(entries.drop_last(), name).push(entries.last())
    }
}

proof fn lemma_lookup_without(entries: Seq<Rc<Alias>>, name: Seq<char>, other: Seq<char>)
    ensures
        lookup(without(entries, name), other) == if other == name {
            None
        } else {
            lookup(entries, other)
        },
    decreases entries.len(),
{
    if entries.len() > 0 {
        lemma_lookup_without(entries.drop_last(), name, other);
        if entries.last().name@ != name {
            assert(without(entries, name).drop_last() =~= without(entries.drop_last(), name));
        }
    }
}

/// Whether no two of `entries` have the same name.
pub open spec fn names_unique(entries: Seq<Rc<Alias>>) -> bool {
    forall|a: int, b: int|
        0 <= a < b < entries.len() ==> (#[trigger] entries[a]).name@ != (#[trigger] entries[b]).name@
}

proof fn lemma_lookup_none(entries: Seq<Rc<Alias>>, name: Seq<char>)
    requires
        lookup(entries, name) is None,
    ensures
        forall|k: int| 0 <= k < entries.len() ==> (#[trigger] entries[k]).name@ != name,
    decreases entries.len(),
{
    if entries.len() > 0 {
        lemma_lookup_none(entries.drop_last(), name);
        assert forall|k: int| 0 <= k < entries.len() implies (#[trigger] entries[k]).name@ != name by {
            if k < entries.len() - 1 {
                assert(entries[k] == entries.drop_last()[k]);
            }
        }
    }
}

/// Collection of aliases, in which a name finds at most one.
#[derive(Clone, Debug, Eq, PartialEq)]
pub struct AliasSet {
    entries: Vec<Rc<Alias>>,
}

impl AliasSet {
    /// The alias that `name` finds in the set.
    pub closed spec fn find(&self, name: Seq<char>) -> Option<Rc<Alias>> {
        lookup(self.entries@, name)
    }

    /// No two aliases of the set have the same name.
    pub closed spec fn wf(&self) -> bool {
        names_unique(self.entries@)
    }

    /// Creates an empty set.
    pub fn new() -> (r: AliasSet)
        ensures
            r.wf(),
            forall|name: Seq<char>| r.find(name) is None,
    {
        AliasSet { entries: Vec::new() }
    }

    /// Returns the alias with the given name, if any.
    pub fn get(&self, name: &str) -> (r: Option<Rc<Alias>>)
        ensures
            r == self.find(name@),
    {
        let mut i = self.entries.len();
        assert(self.entries@.subrange(0, i as int) =~= self.entries@);
        while i > 0
            invariant
                i <= self.entries@.len(),
                lookup(self.entries@, name@) == lookup(self.entries@.subrange(0, i as int), name@),
            decreases i,
        {
            assert(self.entries@.subrange(0, i as int).drop_last() =~= self.entries@.subrange(0, i - 1));
            let entry = &self.entries[i - 1];
            if str_eq(entry.name.as_str(), name) {
                return Some(Rc::clone(entry));
            }
            i = i - 1;
        }
        None
    }

    /// Removes the alias with the given name and returns it, if any.
    pub fn remove(&mut self, name: &str) -> (r: Option<Rc<Alias>>)
        requires
            old(self).wf(),
        ensures
            final(self).wf(),
            r == old(self).find(name@),
            forall|other: Seq<char>|
                #[trigger] final(self).find(other) == if other == name@ {
                    None
                } else {
                    old(self).find(other)
                },
    {
        let found = self.get(name);
        let mut kept: Vec<Rc<Alias>> = Vec::new();
        let mut i: usize = 0;
        while i < self.entries.len()
            invariant
                i <= self.entries@.len(),
                self.entries@ == old(self).entries@,
                kept@ == without(self.entries@.subrange(0, i as int), name@),
                names_unique(old(self).entries@),
                names_unique(kept@),
                forall|k: int, t: int|
                    0 <= k < kept@.len() && i <= t < self.entries@.len() ==> (#[trigger] kept@[k]).name@
                        != (#[trigger] self.entries@[t]).name@,
            decreases self.entries@.len() - i,
        {
            assert(self.entries@.subrange(0, i as int + 1).drop_last() =~= self.entries@.subrange(0, i as int));
            let entry = &self.entries[i];
            let ghost before = kept@;
            if !str_eq(entry.name.as_str(), name) {
                kept.push(Rc::clone(entry));
                proof {
                    let es = self.entries@;
                    assert(kept@.drop_last() =~= before);
                    assert forall|a: int, b: int| 0 <= a < b < kept@.len() implies (#[trigger] kept@[a]).name@
                        != (#[trigger] kept@[b]).name@ by {
                        if b == kept@.len() - 1 {
                            assert(kept@[a] == before[a]);
                            assert(before[a].name@ != es[i as int].name@);
                        } else {
                            assert(kept@[a] == before[a] && kept@[b] == before[b]);
                        }
                    }
                    assert forall|k: int, t: int|
                        0 <= k < kept@.len() && i + 1 <= t < es.len() implies (#[trigger] kept@[k]).name@
                            != (#[trigger] es[t]).name@ by {
                        if k < before.len() {
                            assert(kept@[k] == before[k]);
                        } else {
                            assert(kept@[k] == es[i as int]);
                        }
                    }
                }
            }
            i = i + 1;
        }
        assert(self.entries@.subrange(0, self.entries@.len() as int) =~= self.entries@);
        self.entries = kept;
        assert forall|other: Seq<char>|
            #[trigger] self.find(other) == if other == name@ {
                None
            } else {
                old(self).find(other)
            } by {
            lemma_lookup_without(old(self).entries@, name@, other);
        }
        found
    }

    /// Adds an alias, replacing the one with the same name, which is
    /// returned.
    pub fn insert(&mut self, alias: Rc<Alias>) -> (r: Option<Rc<Alias>>)
        requires
            old(self).wf(),
        ensures
            final(self).wf(),
            r == old(self).find(alias.name@),
            forall|other: Seq<char>|
                #[trigger] final(self).find(other) == if other == alias.name@ {
                    Some(alias)
                } else {
                    old(self).find(other)
                },
    {
        let previous = self.remove(alias.name.as_str());
        let ghost name = alias.name@;
        let ghost mid = self.entries@;
        let ghost mid_set = *self;
        proof {
            assert(mid_set.find(name) is None);
            lemma_lookup_none(mid, name);
        }
        self.entries.push(alias);
        assert(self.entries@.drop_last() =~= mid);
        assert forall|a: int, b: int| 0 <= a < b < self.entries@.len() implies (#[trigger] self.entries@[a]).name@
            != (#[trigger] self.entries@[b]).name@ by {
            assert(self.entries@[a] == mid[a]);
            if b < mid.len() {
                assert(self.entries@[b] == mid[b]);
            }
        }
        assert forall|other: Seq<char>|
            #[trigger] self.find(other) == if other == name {
                Some(alias)
            } else {
                old(self).find(other)
            } by {
            assert(lookup(self.entries@, other) == if other == name {
                Some(alias)
            } else {
                lookup(mid, other)
            });
            assert(mid_set.find(other) == lookup(mid, other));
        }
        previous
    }
}

} // verus!
