use vstd::prelude::*;

verus! {

/// One entry of a directory, as far as a walk needs to know it.
#[derive(Debug, PartialEq, Eq)]
pub enum Entry<P> {
    /// A directory, with the name under which it can be listed in turn.
    Directory(P),
    /// Anything that is no directory.
    Other,
    /// An entry that could not be read, or whose kind could not be found out.
    Unresolved,
}

/// The directories among `entries`, in the order of the listing.
pub open spec fn subdirectories<P>(entries: Seq<Entry<P>>) -> Seq<P>
    decreases entries.len(),
{
    if entries.len() == 0 {
        Seq::empty()
    } else {
        let before = subdirectories(entries.drop_last());
        match entries.last() {
            Entry::Directory(path) => before.push(path),
            _ => before,
        }
    }
}

/// Puts the directories among `entries` on top of `stack`, in the order of the listing.
fn push_subdirectories<P>(stack: &mut Vec<P>, entries: Vec<Entry<P>>)
    ensures
        final(stack)@ == old(stack)@ + subdirectories(entries@),
{
    let ghost all = entries@;
    for entry in it: entries
        invariant
            it.seq() == all,
            stack@ == old(stack)@ + subdirectories(all.take(it.index() as int)),
    {
        assert(all.take(it.index() + 1).drop_last() == all.take(it.index() as int));
        match entry {
            Entry::Directory(path) => {
                stack.push(path);
            },
            _ => {},
        }
    }
    assert(all.take(all.len() as int) == all);
}

/// What a walk asks for next.
pub enum Action<'a, P> {
    /// List the entries of this directory, and report them with `Event::Listed`.
    List(&'a P),
    /// Set the modification time of this directory from its entries, and
    /// report `Event::Fixed`.
    Fix(&'a P),
}

/// What came of the action that a walk asked for.
pub enum Event<P, E> {
    /// The directory was listed, and these are its entries.
    Listed(Vec<Entry<P>>),
    /// The directory's modification time is as its entries say.
    Fixed,
    /// The action failed.
    Failed(E),
}

/// A walk after an event.
pub enum Progress<P, E> {
    /// The walk goes on and asks for its next action.
    Continue(Walk<P>),
    /// The walk is over: every directory was fixed, or an action failed.
    Finished(Result<(), E>),
}

/// A walk as a value: the work list, what was found, and how far fixing has come.
pub struct WalkView<P> {
    /// The directories that are known and not listed yet. The last one is listed next.
    pub pending: Seq<P>,
    /// The directories that were listed, in the order in which they were.
    pub found: Seq<P>,
    /// How many directories were fixed. They are the last ones of `found`.
    pub fixed: nat,
}

impl<P> WalkView<P> {
    /// Directories are still being listed.
    pub open spec fn listing(self) -> bool {
        self.pending.len() > 0
    }

    /// Some action is left, and no directory is fixed before all are listed.
    pub open spec fn wf(self) -> bool {
        if self.listing() {
            self.fixed == 0
        } else {
            self.fixed < self.found.len()
        }
    }

    /// The directory that the next action is about: while listing, the one
    /// that became known last; after that, the one found last among those
    /// that are not fixed yet.
    pub open spec fn current(self) -> P {
        if self.listing() {
            self.pending.last()
        } else {
            self.found[self.found.len() - 1 - self.fixed]
        }
    }

    /// The walk after the current directory was listed with these subdirectories.
    pub open spec fn listed(self, subdirs: Seq<P>) -> WalkView<P> {
        WalkView {
            pending: self.pending.drop_last() + subdirs,
            found: self.found.push(self.pending.last()),
            fixed: 0,
        }
    }

    /// The walk after the current directory was fixed.
    pub open spec fn fixed_one(self) -> WalkView<P> {
        WalkView { pending: self.pending, found: self.found, fixed: self.fixed + 1 }
    }

    /// Fixing the current directory ends the walk.
    pub open spec fn fixes_last(self) -> bool {
        !self.listing() && self.fixed + 1 == self.found.len()
    }
}

/// A walk over a directory and all that is below it, as a sequence of
/// decisions: it says which directory to list or to fix next, and takes what
/// came of that.
///
/// First every directory is listed, depth first from an explicit work list:
/// the directory that became known last is listed next. Then every directory
/// that was listed is fixed, in the reverse of the order in which they were
/// listed, so that a directory is fixed after all that is below it. The first
/// failure ends the walk.
pub struct Walk<P> {
    pending: Vec<P>,
    found: Vec<P>,
    fixed: usize,
}

impl<P> View for Walk<P> {
    type V = WalkView<P>;

    closed spec fn view(&self) -> WalkView<P> {
        WalkView { pending: self.pending@, found: self.found@, fixed: self.fixed as nat }
    }
}

impl<P> Walk<P> {
    /// A walk always has an action to ask for.
    #[verifier::type_invariant]
    spec fn has_action(&self) -> bool {
        self@.wf()
    }

    /// A walk that starts at `root`: nothing is found yet, and `root` is to be listed.
    pub fn new(root: P) -> (walk: Walk<P>)
        ensures
            walk@ == (WalkView { pending: seq![root], found: Seq::empty(), fixed: 0 }),
            walk@.wf(),
    {
        let mut pending: Vec<P> = Vec::new();
        pending.push(root);
        let walk = Walk { pending, found: Vec::new(), fixed: 0 };
        assert(walk@.pending =~= seq![root]);
        walk
    }

    /// The action that the walk asks for.
    pub fn next(&self) -> (action: Action<'_, P>)
        ensures
            self@.wf(),
            match action {
                Action::List(dir) => self@.listing() && *dir == self@.current(),
                Action::Fix(dir) => !self@.listing() && *dir == self@.current(),
            },
    {
        proof {
            use_type_invariant(self);
        }
        if self.pending.len() > 0 {
            Action::List(&self.pending[self.pending.len() - 1])
        } else {
            Action::Fix(&self.found[self.found.len() - 1 - self.fixed])
        }
    }

    /// Takes what came of the action that `next` asked for.
    ///
    /// A failure ends the walk with that failure. A listing moves the current
    /// directory from the work list to what was found and puts its
    /// subdirectories on the work list. A fix moves on to the directory found
    /// before the current one, and ends the walk when there is none. An event
    /// that does not answer the action leaves the walk as it was.
    pub fn step<E>(self, event: Event<P, E>) -> (progress: Progress<P, E>)
        ensures
            self@.wf(),
            match event {
                Event::Failed(e) => progress == Progress::<P, E>::Finished(Err(e)),
                Event::Listed(entries) => progress matches Progress::Continue(walk) && walk@.wf()
                    && walk@ == if self@.listing() {
                    self@.listed(subdirectories(entries@))
                } else {
                    self@
                },
                Event::Fixed => if self@.fixes_last() {
                    progress == Progress::<P, E>::Finished(Ok(()))
                } else {
                    progress matches Progress::Continue(walk) && walk@.wf() && walk@
                        == if self@.listing() {
                        self@
                    } else {
                        self@.fixed_one()
                    }
                },
            },
    {
        proof {
            use_type_invariant(&self);
        }
        let ghost before = self@;
        let Walk { mut pending, mut found, fixed } = self;
        match event {
            Event::Failed(e) => Progress::Finished(Err(e)),
            Event::Listed(entries) => {
                match pending.pop() {
                    Some(dir) => {
                        found.push(dir);
                        push_subdirectories(&mut pending, entries);
                        let walk = Walk { pending, found, fixed: 0 };
                        assert(walk@ == before.listed(subdirectories(entries@)));
                        Progress::Continue(walk)
                    },
                    None => Progress::Continue(Walk { pending, found, fixed }),
                }
            },
            Event::Fixed => {
                let found_len: usize = found.len();
                if pending.len() > 0 {
                    Progress::Continue(Walk { pending, found, fixed })
                } else if fixed + 1 == found_len {
                    Progress::Finished(Ok(()))
                } else {
                    Progress::Continue(Walk { pending, found, fixed: fixed + 1 })
                }
            },
        }
    }
}

} // verus!
