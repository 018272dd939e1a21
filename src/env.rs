//! Shell execution environment.

use crate::alias::AliasSet;
use std::rc::Rc;
use vstd::prelude::*;

verus! {

/// Alias-related part of the shell execution environment.
pub trait AliasEnv {
    /// Returns a reference to the alias set.
    fn aliases(&self) -> &Rc<AliasSet>;

    /// Replaces the alias set.
    fn set_aliases(&mut self, aliases: Rc<AliasSet>);
}

/// Minimal implementor of [`AliasEnv`].
#[derive(Clone, Debug, Eq, PartialEq)]
pub struct Aliases(pub Rc<AliasSet>);

impl AliasEnv for Aliases {
    fn aliases(&self) -> &Rc<AliasSet> {
        &self.0
    }

    fn set_aliases(&mut self, aliases: Rc<AliasSet>) {
        self.0 = aliases;
    }
}

/// Subset of the shell execution environment that can be implemented
/// independently of the underlying OS features.
#[derive(Clone, Debug, Eq, PartialEq)]
pub struct LocalEnv {
    pub aliases: Aliases,
}

impl LocalEnv {
    /// Creates a new local environment, with no aliases.
    pub fn new() -> (r: LocalEnv)
        ensures
            r.aliases.0.wf(),
            forall|name: Seq<char>| r.aliases.0.find(name) is None,
    {
        let aliases = Aliases(Rc::new(AliasSet::new()));
        LocalEnv { aliases }
    }
}

impl AliasEnv for LocalEnv {
    fn aliases(&self) -> &Rc<AliasSet> {
        self.aliases.aliases()
    }

    fn set_aliases(&mut self, aliases: Rc<AliasSet>) {
        self.aliases.set_aliases(aliases)
    }
}

/// Whole shell execution environment.
pub trait Env: AliasEnv {

}

/// Implementation of [`Env`] that is based on the state of the current
/// process.
#[derive(Debug)]
pub struct NativeEnv {
    /// Local part of the environment.
    pub local: LocalEnv,
}

impl NativeEnv {
    /// Creates a new environment, with no aliases.
    pub fn new() -> (r: NativeEnv)
        ensures
            r.local.aliases.0.wf(),
            forall|name: Seq<char>| r.local.aliases.0.find(name) is None,
    {
        let local = LocalEnv::new();
        NativeEnv { local }
    }
}

impl AliasEnv for NativeEnv {
    fn aliases(&self) -> &Rc<AliasSet> {
        self.local.aliases()
    }

    fn set_aliases(&mut self, aliases: Rc<AliasSet>) {
        self.local.set_aliases(aliases)
    }
}

impl Env for NativeEnv {

}

} // verus!
