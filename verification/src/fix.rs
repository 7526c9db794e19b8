use crate::date::{extremal_time, Date};
use crate::error::Error;
use crate::order::{
    after_fix, after_fixes, after_walk, discovery, discovery_of_all, first_list_error, fix_error,
    fix_order, fixes_error, lemma_discovery_of_all_concat, lemma_discovery_of_subdirectories,
    lemma_first_list_error_concat, lemma_fixes_stop, walk_error,
};
use crate::tree::{well_formed, FileTree};
use crate::walk::{subdirectories, Action, Event, Progress, Walk};
use vstd::prelude::*;

verus! {

/// Sets the modification time of the directory `dir` to the earliest or the
/// latest of the modification times of its entries.
///
/// An entry whose metadata cannot be read is passed over. Where no entry is
/// left, because the directory is empty or nothing in it can be read, nothing
/// is done and the call succeeds. The call fails where `dir` cannot be listed,
/// and where the new time cannot be set; the tree is then as it was.
pub fn fix_modified_time(tree: &mut FileTree, dir: usize, date: Date) -> (fixed: Result<
    (),
    Error,
>)
    requires
        old(tree).wf(),
    ensures
        final(tree).wf(),
        final(tree)@ == after_fix(old(tree)@, dir, date),
        fixed == match fix_error(old(tree)@, dir, date) {
            Some(e) => Err::<(), Error>(e),
            None => Ok(()),
        },
{
    match tree.entry_times(dir) {
        Err(e) => Err(e),
        Ok(times) => match extremal_time(&times, date) {
            None => Ok(()),
            Some(time) => tree.set_modified(dir, time),
        },
    }
}

/// Fixes the modification time of `root` and of every directory below it.
///
/// All directories are listed first, and the first that cannot be listed
/// fails the call before anything is changed. Then they are fixed one after
/// the other, each after all that is below it, so that a directory is given
/// its time from entries that have their final times already. The first fix
/// that fails ends the call with its error; what was fixed before stays fixed.
pub fn walk_and_fix_modified_time(tree: &mut FileTree, root: usize, date: Date) -> (walked:
    Result<(), Error>)
    requires
        old(tree).wf(),
    ensures
        final(tree).wf(),
        final(tree)@ == after_walk(old(tree)@, root, date),
        walked == match walk_error(old(tree)@, root, date) {
            Some(e) => Err::<(), Error>(e),
            None => Ok(()),
        },
{
    let ghost before = tree@;
    let mut walk: Walk<usize> = Walk::new(root);
    proof {
        assert(walk@.pending.last() == root);
        assert(walk@.pending.drop_last() =~= Seq::<usize>::empty());
        assert(discovery_of_all(before, walk@.pending.drop_last()) =~= Seq::<usize>::empty());
        assert(discovery_of_all(before, walk@.pending) =~= discovery(before, root));
        assert(walk@.found + discovery_of_all(before, walk@.pending) =~= discovery(before, root));
    }
    loop
        invariant
            tree.wf(),
            before == old(tree)@,
            well_formed(before),
            walk@.wf(),
            walk@.found + discovery_of_all(before, walk@.pending) == discovery(before, root),
            first_list_error(before, walk@.found) is None,
            walk@.listing() ==> tree@ == before,
            !walk@.listing() ==> tree@ == after_fixes(
                before,
                fix_order(before, root).take(walk@.fixed as int),
                date,
            ) && fixes_error(before, fix_order(before, root).take(walk@.fixed as int), date)
                is None,
        decreases
                2 * discovery_of_all(before, walk@.pending).len() + walk@.found.len()
                    - walk@.fixed,
    {
        let ghost state = walk@;
        let ghost order = fix_order(before, root);
        let event: Event<usize, Error> = match walk.next() {
            Action::List(dir) => match tree.entry_kinds(*dir) {
                Ok(entries) => Event::Listed(entries),
                Err(e) => Event::Failed(e),
            },
            Action::Fix(dir) => match fix_modified_time(tree, *dir, date) {
                Ok(()) => Event::Fixed,
                Err(e) => Event::Failed(e),
            },
        };
        let ghost answer = event;
        proof {
            let dir = state.current();
            if state.listing() {
                let rest = state.pending.drop_last();
                assert(discovery_of_all(before, state.pending) == discovery(before, dir)
                    + discovery_of_all(before, rest));
                match answer {
                    Event::Listed(entries) => {
                        let dirs = subdirectories(entries@);
                        lemma_discovery_of_subdirectories(before, dir, before.len() as usize);
                        lemma_discovery_of_all_concat(before, rest, dirs);
                        let next = state.listed(dirs);
                        assert(next.found + discovery_of_all(before, next.pending)
                            =~= state.found + discovery_of_all(before, state.pending));
                        assert(next.found.drop_last() =~= state.found);
                        assert(fix_order(before, root).take(0) =~= Seq::<usize>::empty());
                    },
                    Event::Failed(e) => {
                        let tail = discovery_of_all(before, rest);
                        assert(discovery(before, dir) =~= seq![dir]);
                        assert(seq![dir].drop_last() =~= Seq::<usize>::empty());
                        assert(first_list_error(before, seq![dir].drop_last()) is None);
                        assert(seq![dir].last() == dir);
                        assert(first_list_error(before, seq![dir]) == Some(e));
                        lemma_first_list_error_concat(before, seq![dir], tail);
                        lemma_first_list_error_concat(before, state.found, seq![dir] + tail);
                    },
                    Event::Fixed => {},
                }
            } else {
                assert(discovery_of_all(before, state.pending) =~= Seq::<usize>::empty());
                assert(state.found =~= discovery(before, root));
                let done = state.fixed as int;
                assert(order[done] == dir);
                assert(order.take(done + 1).drop_last() =~= order.take(done));
                assert(order.take(done + 1).last() == dir);
                match answer {
                    Event::Fixed => {
                        if state.fixes_last() {
                            assert(order.take(done + 1) =~= order);
                        }
                    },
                    Event::Failed(e) => {
                        lemma_fixes_stop(before, order, done + 1, date);
                    },
                    Event::Listed(_) => {},
                }
            }
        }
        match walk.step(event) {
            Progress::Continue(next) => {
                walk = next;
            },
            Progress::Finished(result) => {
                return result;
            },
        }
    }
}

} // verus!
