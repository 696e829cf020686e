//! Execution providers: which one is tried next, and what is reported when none works.
use crate::text::{join, joined};
use vstd::prelude::*;
use vstd::string::StringExecFns;

verus! {

/// What a network can run on.
#[derive(Clone, Copy, Debug, PartialEq, Eq, Structural)]
pub enum Provider {
    Cuda,
    DirectMl,
    Cpu,
}

impl Provider {
    /// The name of the provider in messages.
    pub open spec fn text(self) -> Seq<char> {
        match self {
            Provider::Cuda => "CUDA"@,
            Provider::DirectMl => "DirectML"@,
            Provider::Cpu => "CPU"@,
        }
    }

    /// The name of the provider in messages.
    pub fn name(self) -> (s: &'static str)
        ensures
            s@ == self.text(),
    {
        match self {
            Provider::Cuda => "CUDA",
            Provider::DirectMl => "DirectML",
            Provider::Cpu => "CPU",
        }
    }
}

/// The providers in the order in which they are tried. Each gets its own attempt, as DirectML
/// must be registered without other providers.
pub open spec fn preference() -> Seq<Provider> {
    seq![Provider::Cuda, Provider::DirectMl, Provider::Cpu]
}

/// Attempts to load a network, each on the next provider, until one succeeds or none is left.
pub struct Attempts {
    /// What went wrong with the providers tried so far.
    pub errors: Vec<String>,
}

/// The message that `what` cannot be loaded on `provider`.
pub open spec fn failure_text(provider: Provider, what: Seq<char>, error: Seq<char>) -> Seq<char> {
    provider.text() + " "@ + what + ": "@ + error
}

impl Attempts {
    /// No attempt so far.
    pub fn new() -> (r: Attempts)
        ensures
            r.errors@.len() == 0,
    {
        Attempts { errors: Vec::new() }
    }

    /// The provider to be tried next, as long as one is left.
    pub fn next(&self) -> (r: Option<Provider>)
        ensures
            r == (if self.errors@.len() < preference().len() {
                Some(preference()[self.errors@.len() as int])
            } else {
                None
            }),
    {
        if self.errors.len() == 0 {
            Some(Provider::Cuda)
        } else if self.errors.len() == 1 {
            Some(Provider::DirectMl)
        } else if self.errors.len() == 2 {
            Some(Provider::Cpu)
        } else {
            None
        }
    }

    /// Note that the attempt to load `what` on `provider` failed.
    pub fn failed(&mut self, provider: Provider, what: &str, error: &str)
        ensures
            final(self).errors@.len() == old(self).errors@.len() + 1,
            final(self).errors@.drop_last() == old(self).errors@,
            final(self).errors@.last()@ == failure_text(provider, what@, error@),
    {
        let ghost before = self.errors@;
        let mut s = provider.name().to_owned();
        s.append(" ");
        s.append(what);
        s.append(": ");
        s.append(error);
        self.errors.push(s);
        assert(self.errors@.drop_last() =~= before);
    }

    /// What went wrong with all the providers, in one line.
    pub fn report(&self) -> (s: String)
        ensures
            s@ == joined(self.errors@, "; "@),
    {
        join(&self.errors, "; ")
    }
}

} // verus!
