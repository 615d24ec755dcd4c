//! The version-control steps of a run, as a plan of plain actions. The
//! decisions — refresh or freshly clone, which bases to stage, when to
//! record and publish, when to roll back — are made here; carrying the
//! actions out against a real repository is left to the caller.

use vstd::prelude::*;

verus! {

/// One repository action.
pub enum RepoAction {
    /// Fast-forward the existing working copy.
    Pull,
    /// Make a fresh shallow working copy.
    Clone,
    /// Stage everything under one base directory.
    Add { base: Vec<u8> },
    /// Record the staged changes.
    Commit,
    /// Publish the recorded changes.
    Push,
    /// Roll the working copy back to the last recorded state.
    Checkout,
}

/// The mathematical value of an action.
pub enum ActionRec {
    Pull,
    Clone,
    Add { base: Seq<u8> },
    Commit,
    Push,
    Checkout,
}

impl View for RepoAction {
    type V = ActionRec;

    open spec fn view(&self) -> ActionRec {
        match self {
            RepoAction::Pull => ActionRec::Pull,
            RepoAction::Clone => ActionRec::Clone,
            RepoAction::Add { base } => ActionRec::Add { base: base@ },
            RepoAction::Commit => ActionRec::Commit,
            RepoAction::Push => ActionRec::Push,
            RepoAction::Checkout => ActionRec::Checkout,
        }
    }
}

/// The ordered actions one run issues against the event-file repository.
pub struct RepoScript {
    pub actions: Vec<RepoAction>,
}

impl View for RepoScript {
    type V = Seq<ActionRec>;

    open spec fn view(&self) -> Seq<ActionRec> {
        self.actions@.map_values(|a: RepoAction| a@)
    }
}

impl RepoScript {
    /// An empty plan.
    pub fn new() -> (r: RepoScript)
        ensures
            r@ == Seq::<ActionRec>::empty(),
    {
        let r = RepoScript { actions: Vec::new() };
        proof {
            assert(r@ =~= Seq::<ActionRec>::empty());
        }
        r
    }

    /// Brings the working copy up to date: fast-forward it where one
    /// exists, make a fresh shallow copy where none does.
    pub fn pull(&mut self, repo_exists: bool)
        ensures
            final (self)@ == old(self)@.push(
                if repo_exists {
                    ActionRec::Pull
                } else {
                    ActionRec::Clone
                },
            ),
    {
        if repo_exists {
            self.actions.push(RepoAction::Pull);
        } else {
            self.actions.push(RepoAction::Clone);
        }
        proof {
            assert(final (self)@ =~= old(self)@.push(
                if repo_exists {
                    ActionRec::Pull
                } else {
                    ActionRec::Clone
                },
            ));
        }
    }

    /// Stages one base directory of downloaded feed files.
    pub fn add(&mut self, base: Vec<u8>)
        ensures
            final (self)@ == old(self)@.push(ActionRec::Add { base: base@ }),
    {
        let ghost b = base@;
        self.actions.push(RepoAction::Add { base });
        proof {
            assert(final (self)@ =~= old(self)@.push(ActionRec::Add { base: b }));
        }
    }

    /// Records the staged changes and publishes them.
    pub fn commit_and_push(&mut self)
        ensures
            final (self)@ == old(self)@.push(ActionRec::Commit).push(ActionRec::Push),
    {
        self.actions.push(RepoAction::Commit);
        self.actions.push(RepoAction::Push);
        proof {
            assert(final (self)@ =~= old(self)@.push(ActionRec::Commit).push(ActionRec::Push));
        }
    }

    /// Rolls the working copy back to the last recorded state, discarding
    /// the files of a partially failed download.
    pub fn checkout(&mut self)
        ensures
            final (self)@ == old(self)@.push(ActionRec::Checkout),
    {
        self.actions.push(RepoAction::Checkout);
        proof {
            assert(final (self)@ =~= old(self)@.push(ActionRec::Checkout));
        }
    }
}

} // verus!
