use crate::date::{extremal, Date};
use crate::error::Error;
use crate::tree::{
    children_below, entry_kinds, entry_of, entry_times, list_error, touch_error, touched,
    well_formed, Kind, Node,
};
use crate::walk::subdirectories;
use vstd::prelude::*;

verus! {

/// `node` is an entry of `dir` that a listing shows as a directory.
pub open spec fn is_subdirectory(nodes: Seq<Node>, node: usize, dir: usize) -> bool {
    &&& nodes[node as int].parent == Some(dir)
    &&& nodes[node as int].access.stat
    &&& nodes[node as int].kind == Kind::Directory
}

/// The directories that a walk from `dir` lists, in the order in which it
/// lists them: `dir` itself, then, where `dir` can be listed, its
/// subdirectories from the last to the first, each followed at once by all
/// that is listed below it. A directory that cannot be listed, or a `dir` that
/// is no directory at all, stands alone.
pub open spec fn discovery(nodes: Seq<Node>, dir: usize) -> Seq<usize>
    decreases nodes.len() - dir, 0nat,
{
    if list_error(nodes, dir) is None {
        seq![dir] + discovery_below(nodes, dir, nodes.len() as usize)
    } else {
        seq![dir]
    }
}

/// What a walk lists below `dir` through those subdirectories of `dir` that
/// are among the first `bound` nodes: the last of them first.
pub open spec fn discovery_below(nodes: Seq<Node>, dir: usize, bound: usize) -> Seq<usize>
    decreases nodes.len() - dir - 1, bound,
{
    if bound <= dir + 1 || bound > nodes.len() {
        Seq::empty()
    } else {
        let node = (bound - 1) as usize;
        let below = if is_subdirectory(nodes, node, dir) {
            discovery(nodes, node)
        } else {
            Seq::empty()
        };
        below + discovery_below(nodes, dir, node)
    }
}

/// What a walk has yet to list when these directories are on its work list:
/// the last of them first, each followed by all that is listed below it.
pub open spec fn discovery_of_all(nodes: Seq<Node>, pending: Seq<usize>) -> Seq<usize>
    decreases pending.len(),
{
    if pending.len() == 0 {
        Seq::empty()
    } else {
        discovery(nodes, pending.last()) + discovery_of_all(nodes, pending.drop_last())
    }
}

/// The order in which a walk from `root` fixes the directories: the reverse of
/// the order in which it lists them, so that each comes after all below it.
pub open spec fn fix_order(nodes: Seq<Node>, root: usize) -> Seq<usize> {
    discovery(nodes, root).reverse()
}

/// The error of the first of `dirs` that cannot be listed, if there is one.
pub open spec fn first_list_error(nodes: Seq<Node>, dirs: Seq<usize>) -> Option<Error>
    decreases dirs.len(),
{
    if dirs.len() == 0 {
        None
    } else {
        match first_list_error(nodes, dirs.drop_last()) {
            Some(e) => Some(e),
            None => list_error(nodes, dirs.last()),
        }
    }
}

/// The error with which fixing `dir` fails, if it fails: the directory cannot
/// be listed, or it has an entry whose time can be read and does not allow its
/// own time to be set.
pub open spec fn fix_error(nodes: Seq<Node>, dir: usize, date: Date) -> Option<Error> {
    match list_error(nodes, dir) {
        Some(e) => Some(e),
        None => match extremal(entry_times(nodes, dir), date) {
            Some(_) => touch_error(nodes, dir),
            None => None,
        },
    }
}

/// The tree after `dir` was fixed: where that succeeds and some entry's time
/// can be read, `dir` has the earliest or latest of those times; in every
/// other case nothing has changed.
pub open spec fn after_fix(nodes: Seq<Node>, dir: usize, date: Date) -> Seq<Node> {
    if fix_error(nodes, dir, date) is None && extremal(entry_times(nodes, dir), date) is Some {
        touched(nodes, dir, extremal(entry_times(nodes, dir), date)->0)
    } else {
        nodes
    }
}

/// The error of the first of `dirs` whose fix fails when they are fixed one
/// after the other, if there is one.
pub open spec fn fixes_error(nodes: Seq<Node>, dirs: Seq<usize>, date: Date) -> Option<Error>
    decreases dirs.len(),
{
    if dirs.len() == 0 {
        None
    } else {
        match fixes_error(nodes, dirs.drop_last(), date) {
            Some(e) => Some(e),
            None => fix_error(after_fixes(nodes, dirs.drop_last(), date), dirs.last(), date),
        }
    }
}

/// The tree after `dirs` were fixed one after the other, up to the first fix that fails.
pub open spec fn after_fixes(nodes: Seq<Node>, dirs: Seq<usize>, date: Date) -> Seq<Node>
    decreases dirs.len(),
{
    if dirs.len() == 0 {
        nodes
    } else if fixes_error(nodes, dirs.drop_last(), date) is Some {
        after_fixes(nodes, dirs.drop_last(), date)
    } else {
        after_fix(after_fixes(nodes, dirs.drop_last(), date), dirs.last(), date)
    }
}

/// The error with which a walk from `root` fails, if it fails: that of the
/// first directory that cannot be listed, and where all can be, that of the
/// first fix that fails.
pub open spec fn walk_error(nodes: Seq<Node>, root: usize, date: Date) -> Option<Error> {
    match first_list_error(nodes, discovery(nodes, root)) {
        Some(e) => Some(e),
        None => fixes_error(nodes, fix_order(nodes, root), date),
    }
}

/// The tree after a walk from `root`: unchanged where a directory cannot be
/// listed; else with the directories fixed in their order, up to the first fix
/// that fails.
pub open spec fn after_walk(nodes: Seq<Node>, root: usize, date: Date) -> Seq<Node> {
    if first_list_error(nodes, discovery(nodes, root)) is Some {
        nodes
    } else {
        after_fixes(nodes, fix_order(nodes, root), date)
    }
}

/// A work list in two parts is worked off from its end.
pub proof fn lemma_discovery_of_all_concat(nodes: Seq<Node>, a: Seq<usize>, b: Seq<usize>)
    ensures
        discovery_of_all(nodes, a + b) == discovery_of_all(nodes, b) + discovery_of_all(
            nodes,
            a,
        ),
    decreases b.len(),
{
    if b.len() == 0 {
        assert(a + b =~= a);
    } else {
        lemma_discovery_of_all_concat(nodes, a, b.drop_last());
        assert((a + b).drop_last() =~= a + b.drop_last());
        assert((a + b).last() == b.last());
    }
}

/// What a walk lists from the subdirectories that a listing of `dir` shows is
/// what it lists below `dir`.
pub proof fn lemma_discovery_of_subdirectories(nodes: Seq<Node>, dir: usize, bound: usize)
    requires
        well_formed(nodes),
        bound <= nodes.len(),
    ensures
        discovery_of_all(
            nodes,
            subdirectories(
                children_below(nodes, dir, bound).map_values(|n: usize| entry_of(nodes, n)),
            ),
        ) == discovery_below(nodes, dir, bound),
    decreases bound,
{
    let entry = |n: usize| entry_of(nodes, n);
    if bound == 0 {
        assert(children_below(nodes, dir, bound).map_values(entry) =~= Seq::empty());
    } else {
        let node = (bound - 1) as usize;
        let before = children_below(nodes, dir, node);
        lemma_discovery_of_subdirectories(nodes, dir, node);
        if nodes[node as int].parent == Some(dir) {
            let listed = before.push(node).map_values(entry);
            assert(listed.drop_last() =~= before.map_values(entry));
            assert(listed.last() == entry_of(nodes, node));
            if is_subdirectory(nodes, node, dir) {
                let dirs = subdirectories(before.map_values(entry));
                assert(subdirectories(listed) == dirs.push(node));
                assert(dirs.push(node).drop_last() =~= dirs);
            } else {
                assert(subdirectories(listed) == subdirectories(before.map_values(entry)));
                assert(Seq::<usize>::empty() + discovery_below(nodes, dir, node)
                    =~= discovery_below(nodes, dir, node));
            }
        } else {
            assert(!is_subdirectory(nodes, node, dir));
            if bound > dir + 1 {
                assert(Seq::<usize>::empty() + discovery_below(nodes, dir, node)
                    =~= discovery_below(nodes, dir, node));
            }
        }
    }
}

/// The first directory that cannot be listed is looked for from the front.
pub proof fn lemma_first_list_error_concat(nodes: Seq<Node>, a: Seq<usize>, b: Seq<usize>)
    ensures
        first_list_error(nodes, a + b) == match first_list_error(nodes, a) {
            Some(e) => Some(e),
            None => first_list_error(nodes, b),
        },
    decreases b.len(),
{
    if b.len() == 0 {
        assert(a + b =~= a);
    } else {
        lemma_first_list_error_concat(nodes, a, b.drop_last());
        assert((a + b).drop_last() =~= a + b.drop_last());
        assert((a + b).last() == b.last());
    }
}

/// Once a fix has failed, the directories after it change nothing.
pub proof fn lemma_fixes_stop(nodes: Seq<Node>, dirs: Seq<usize>, done: int, date: Date)
    requires
        0 <= done <= dirs.len(),
        fixes_error(nodes, dirs.take(done), date) is Some,
    ensures
        fixes_error(nodes, dirs, date) == fixes_error(nodes, dirs.take(done), date),
        after_fixes(nodes, dirs, date) == after_fixes(nodes, dirs.take(done), date),
    decreases dirs.len(),
{
    if done == dirs.len() {
        assert(dirs.take(done) =~= dirs);
    } else {
        assert(dirs.drop_last().take(done) =~= dirs.take(done));
        lemma_fixes_stop(nodes, dirs.drop_last(), done, date);
    }
}

/// The directories that a listing of `dir` shows lie in `dir` and come in rising order.
pub proof fn lemma_listed_subdirectories(nodes: Seq<Node>, dir: usize, bound: usize)
    requires
        bound <= nodes.len(),
    ensures
        ({
            let dirs = subdirectories(
                children_below(nodes, dir, bound).map_values(|n: usize| entry_of(nodes, n)),
            );
            &&& forall|i: int|
                0 <= i < dirs.len() ==> (#[trigger] dirs[i]) < bound && is_subdirectory(
                    nodes,
                    dirs[i],
                    dir,
                )
            &&& forall|i: int, j: int| 0 <= i < j < dirs.len() ==> dirs[i] < dirs[j]
        }),
    decreases bound,
{
    let entry = |n: usize| entry_of(nodes, n);
    if bound == 0 {
        assert(children_below(nodes, dir, bound).map_values(entry) =~= Seq::empty());
    } else {
        let node = (bound - 1) as usize;
        let before = children_below(nodes, dir, node);
        lemma_listed_subdirectories(nodes, dir, node);
        let dirs_before = subdirectories(before.map_values(entry));
        let dirs = subdirectories(children_below(nodes, dir, bound).map_values(entry));
        if nodes[node as int].parent == Some(dir) {
            let listed = before.push(node).map_values(entry);
            assert(listed.drop_last() =~= before.map_values(entry));
            assert(listed.last() == entry_of(nodes, node));
            if is_subdirectory(nodes, node, dir) {
                assert(dirs == dirs_before.push(node));
            } else {
                assert(dirs == dirs_before);
            }
        } else {
            assert(dirs == dirs_before);
        }
        assert forall|i: int| 0 <= i < dirs.len() implies (#[trigger] dirs[i]) < bound
            && is_subdirectory(nodes, dirs[i], dir) by {
            if i < dirs_before.len() {
                assert(dirs[i] == dirs_before[i]);
            }
        }
        assert forall|i: int, j: int| 0 <= i < j < dirs.len() implies dirs[i] < dirs[j] by {
            assert(dirs[i] == dirs_before[i]);
            if j < dirs_before.len() {
                assert(dirs[j] == dirs_before[j]);
            }
        }
    }
}

/// What holds of what a walk from `root` has found and of its work list,
/// whenever it asks for a listing: no directory occurs twice, and every
/// directory but `root` is a subdirectory of one that was found before it.
#[verifier::opaque]
pub open spec fn orderly(nodes: Seq<Node>, root: usize, found: Seq<usize>, pending: Seq<usize>) -> bool {
    &&& found.no_duplicates()
    &&& pending.no_duplicates()
    &&& found.disjoint(pending)
    &&& forall|i: int| 0 <= i < found.len() ==> root <= (#[trigger] found[i]) < nodes.len()
    &&& forall|i: int| 0 <= i < pending.len() ==> root <= (#[trigger] pending[i]) < nodes.len()
    &&& forall|i: int|
        0 <= i < found.len() && (#[trigger] found[i]) != root ==> lies_in_one_of(
            nodes,
            found[i],
            found,
            i,
        )
    &&& forall|i: int|
        0 <= i < pending.len() && (#[trigger] pending[i]) != root ==> lies_in_one_of(
            nodes,
            pending[i],
            found,
            found.len() as int,
        )
}

/// `node` is a subdirectory of one of the first `count` of `dirs`.
pub open spec fn lies_in_one_of(nodes: Seq<Node>, node: usize, dirs: Seq<usize>, count: int) -> bool {
    exists|k: int| 0 <= k < count && is_subdirectory(nodes, node, #[trigger] dirs[k])
}

/// The directories that a listing shows were neither found nor known before.
proof fn lemma_listed_are_new(
    nodes: Seq<Node>,
    root: usize,
    found: Seq<usize>,
    pending: Seq<usize>,
    dirs: Seq<usize>,
)
    requires
        well_formed(nodes),
        orderly(nodes, root, found, pending),
        pending.len() > 0,
        forall|i: int|
            0 <= i < dirs.len() ==> (#[trigger] dirs[i]) < nodes.len() && is_subdirectory(
                nodes,
                dirs[i],
                pending.last(),
            ),
    ensures
        forall|k: int| 0 <= k < dirs.len() ==> pending.last() < #[trigger] dirs[k],
        found.disjoint(dirs),
        pending.disjoint(dirs),
{
    reveal(orderly);
    let dir = pending.last();
    assert(pending[pending.len() - 1] == dir);
    assert forall|k: int| 0 <= k < dirs.len() implies dir < #[trigger] dirs[k] by {
        assert(nodes[dirs[k] as int].parent == Some(dir));
    }
    assert forall|i: int, k: int| 0 <= i < found.len() && 0 <= k < dirs.len() implies found[i]
        != dirs[k] by {
        if found[i] == dirs[k] {
            assert(dir < dirs[k]);
            assert(lies_in_one_of(nodes, found[i], found, i));
        }
    }
    assert forall|i: int, k: int| 0 <= i < pending.len() && 0 <= k < dirs.len() implies pending[i]
        != dirs[k] by {
        if pending[i] == dirs[k] {
            assert(dir < dirs[k]);
            assert(lies_in_one_of(nodes, pending[i], found, found.len() as int));
        }
    }
}

/// To lie in a directory that was found is to lie in one that is found still.
proof fn lemma_lies_in_one_more(
    nodes: Seq<Node>,
    node: usize,
    found: Seq<usize>,
    count: int,
    dir: usize,
)
    requires
        0 <= count <= found.len(),
        lies_in_one_of(nodes, node, found, count),
    ensures
        lies_in_one_of(nodes, node, found.push(dir), count),
        lies_in_one_of(nodes, node, found.push(dir), found.push(dir).len() as int),
{
    let k = choose|k: int| 0 <= k < count && is_subdirectory(nodes, node, #[trigger] found[k]);
    assert(found.push(dir)[k] == found[k]);
}

/// After a listing every directory but the root still lies in one that was found before it.
proof fn lemma_listed_lie_in_found(
    nodes: Seq<Node>,
    root: usize,
    found: Seq<usize>,
    pending: Seq<usize>,
    dirs: Seq<usize>,
)
    requires
        orderly(nodes, root, found, pending),
        pending.len() > 0,
        forall|i: int|
            0 <= i < dirs.len() ==> (#[trigger] dirs[i]) < nodes.len() && is_subdirectory(
                nodes,
                dirs[i],
                pending.last(),
            ),
    ensures
        ({
            let found2 = found.push(pending.last());
            let pending2 = pending.drop_last() + dirs;
            &&& forall|i: int|
                0 <= i < found2.len() && (#[trigger] found2[i]) != root ==> lies_in_one_of(
                    nodes,
                    found2[i],
                    found2,
                    i,
                )
            &&& forall|i: int|
                0 <= i < pending2.len() && (#[trigger] pending2[i]) != root ==> lies_in_one_of(
                    nodes,
                    pending2[i],
                    found2,
                    found2.len() as int,
                )
        }),
{
    reveal(orderly);
    let dir = pending.last();
    let rest = pending.drop_last();
    let found2 = found.push(dir);
    let pending2 = rest + dirs;
    assert(pending[pending.len() - 1] == dir);
    assert forall|i: int| 0 <= i < found2.len() && (#[trigger] found2[i]) != root implies lies_in_one_of(
        nodes,
        found2[i],
        found2,
        i,
    ) by {
        if i < found.len() {
            assert(found2[i] == found[i]);
            lemma_lies_in_one_more(nodes, found[i], found, i, dir);
        } else {
            lemma_lies_in_one_more(nodes, dir, found, found.len() as int, dir);
        }
    }
    assert forall|i: int|
        0 <= i < pending2.len() && (#[trigger] pending2[i]) != root implies lies_in_one_of(
        nodes,
        pending2[i],
        found2,
        found2.len() as int,
    ) by {
        if i < rest.len() {
            assert(pending2[i] == pending[i]);
            lemma_lies_in_one_more(nodes, pending[i], found, found.len() as int, dir);
        } else {
            assert(pending2[i] == dirs[i - rest.len()]);
            assert(found2[found.len() as int] == dir);
        }
    }
}

/// A work list stays free of duplicates when its last directory is taken off
/// and directories that are new and in rising order are put on.
proof fn lemma_work_list_step(found: Seq<usize>, pending: Seq<usize>, dirs: Seq<usize>)
    requires
        pending.len() > 0,
        found.no_duplicates(),
        pending.no_duplicates(),
        found.disjoint(pending),
        found.disjoint(dirs),
        pending.disjoint(dirs),
        forall|i: int, j: int| 0 <= i < j < dirs.len() ==> dirs[i] < dirs[j],
    ensures
        found.push(pending.last()).no_duplicates(),
        (pending.drop_last() + dirs).no_duplicates(),
        found.push(pending.last()).disjoint(pending.drop_last() + dirs),
{
    let dir = pending.last();
    let rest = pending.drop_last();
    let found2 = found.push(dir);
    let pending2 = rest + dirs;
    assert(pending[pending.len() - 1] == dir);
    assert forall|i: int, j: int|
        0 <= i < found2.len() && 0 <= j < found2.len() && i != j implies found2[i]
        != found2[j] by {
        if i < found.len() && j < found.len() {
            assert(found[i] != found[j]);
        } else if i < found.len() {
            assert(found[i] != pending[pending.len() - 1]);
        } else {
            assert(found[j] != pending[pending.len() - 1]);
        }
    }
    assert forall|i: int, j: int|
        0 <= i < pending2.len() && 0 <= j < pending2.len() && i != j implies pending2[i]
        != pending2[j] by {
        if i < rest.len() && j < rest.len() {
            assert(pending[i] != pending[j]);
        } else if i < rest.len() {
            assert(pending[i] != dirs[j - rest.len()]);
        } else if j < rest.len() {
            assert(pending[j] != dirs[i - rest.len()]);
        } else if i < j {
            assert(dirs[i - rest.len()] < dirs[j - rest.len()]);
        } else {
            assert(dirs[j - rest.len()] < dirs[i - rest.len()]);
        }
    }
    assert forall|i: int, j: int|
        0 <= i < found2.len() && 0 <= j < pending2.len() implies found2[i] != pending2[j] by {
        if i < found.len() && j < rest.len() {
            assert(found[i] != pending[j]);
        } else if i < found.len() {
            assert(found[i] != dirs[j - rest.len()]);
        } else if j < rest.len() {
            assert(pending[j] != pending[pending.len() - 1]);
        } else {
            assert(pending[pending.len() - 1] != dirs[j - rest.len()]);
        }
    }
}

/// A listing keeps what was found and the work list orderly.
proof fn lemma_orderly_step(
    nodes: Seq<Node>,
    root: usize,
    found: Seq<usize>,
    pending: Seq<usize>,
    dirs: Seq<usize>,
)
    requires
        well_formed(nodes),
        orderly(nodes, root, found, pending),
        pending.len() > 0,
        forall|i: int|
            0 <= i < dirs.len() ==> (#[trigger] dirs[i]) < nodes.len() && is_subdirectory(
                nodes,
                dirs[i],
                pending.last(),
            ),
        forall|i: int, j: int| 0 <= i < j < dirs.len() ==> dirs[i] < dirs[j],
    ensures
        orderly(nodes, root, found.push(pending.last()), pending.drop_last() + dirs),
{
    reveal(orderly);
    let dir = pending.last();
    let rest = pending.drop_last();
    let found2 = found.push(dir);
    let pending2 = rest + dirs;
    lemma_listed_are_new(nodes, root, found, pending, dirs);
    lemma_listed_lie_in_found(nodes, root, found, pending, dirs);
    lemma_work_list_step(found, pending, dirs);
    assert(root <= pending[pending.len() - 1] < nodes.len());
    assert forall|i: int| 0 <= i < found2.len() implies root <= (#[trigger] found2[i])
        < nodes.len() by {
        if i < found.len() {
            assert(found2[i] == found[i]);
        }
    }
    assert forall|i: int| 0 <= i < pending2.len() implies root <= (#[trigger] pending2[i])
        < nodes.len() by {
        if i < rest.len() {
            assert(pending2[i] == pending[i]);
        } else {
            assert(pending2[i] == dirs[i - rest.len()]);
        }
    }
}

/// From an orderly state on, a walk that lists what is left has listed no
/// directory twice, and none before the directory that it lies in.
proof fn lemma_walk_is_orderly(
    nodes: Seq<Node>,
    root: usize,
    found: Seq<usize>,
    pending: Seq<usize>,
)
    requires
        well_formed(nodes),
        orderly(nodes, root, found, pending),
        found + discovery_of_all(nodes, pending) == discovery(nodes, root),
    ensures
        orderly(nodes, root, discovery(nodes, root), Seq::empty()),
    decreases discovery_of_all(nodes, pending).len(),
{
    if pending.len() == 0 {
        assert(found + discovery_of_all(nodes, pending) =~= found);
        assert(pending =~= Seq::empty());
    } else {
        let dir = pending.last();
        let rest = pending.drop_last();
        let dirs = if list_error(nodes, dir) is None {
            subdirectories(entry_kinds(nodes, dir))
        } else {
            Seq::empty()
        };
        let bound = nodes.len() as usize;
        lemma_listed_subdirectories(nodes, dir, bound);
        lemma_discovery_of_subdirectories(nodes, dir, bound);
        lemma_discovery_of_all_concat(nodes, rest, dirs);
        lemma_orderly_step(nodes, root, found, pending, dirs);
        assert(discovery_of_all(nodes, dirs) + discovery_of_all(nodes, rest) =~= discovery(
            nodes,
            dir,
        ).skip(1) + discovery_of_all(nodes, rest));
        assert(found.push(dir) + discovery_of_all(nodes, rest + dirs) =~= found
            + discovery_of_all(nodes, pending));
        lemma_walk_is_orderly(nodes, root, found.push(dir), rest + dirs);
    }
}

/// A walk lists no directory twice, and none before the directory that it lies in.
pub proof fn lemma_discovery_is_orderly(nodes: Seq<Node>, root: usize)
    requires
        well_formed(nodes),
    ensures
        discovery(nodes, root).no_duplicates(),
        forall|a: int, b: int|
            0 <= a < b < discovery(nodes, root).len() ==> nodes[discovery(
                nodes,
                root,
            )[a] as int].parent != Some(discovery(nodes, root)[b]),
        forall|i: int|
            0 < i < discovery(nodes, root).len() ==> lies_in_one_of(
                nodes,
                #[trigger] discovery(nodes, root)[i],
                discovery(nodes, root),
                i,
            ),
{
    reveal(orderly);
    let order = discovery(nodes, root);
    if root < nodes.len() {
        let found = Seq::<usize>::empty();
        let pending = seq![root];
        assert(pending.drop_last() =~= Seq::<usize>::empty());
        assert(discovery_of_all(nodes, pending.drop_last()) =~= Seq::<usize>::empty());
        assert(found + discovery_of_all(nodes, pending) =~= order);
        lemma_walk_is_orderly(nodes, root, found, pending);
        assert(order[0] == root);
        assert forall|i: int| 0 < i < order.len() implies lies_in_one_of(
            nodes,
            #[trigger] order[i],
            order,
            i,
        ) by {
            assert(order[i] != order[0]);
        }
        assert forall|a: int, b: int| 0 <= a < b < order.len() implies nodes[order[a] as int].parent
            != Some(order[b]) by {
            if order[a] != root {
                assert(lies_in_one_of(nodes, order[a], order, a));
            }
        }
    } else {
        assert(order =~= seq![root]);
    }
}

/// A listing of `dir` shows every subdirectory of `dir`.
pub proof fn lemma_listed_subdirectories_complete(
    nodes: Seq<Node>,
    dir: usize,
    bound: usize,
    node: usize,
)
    requires
        bound <= nodes.len(),
        node < bound,
        is_subdirectory(nodes, node, dir),
    ensures
        subdirectories(
            children_below(nodes, dir, bound).map_values(|n: usize| entry_of(nodes, n)),
        ).contains(node),
    decreases bound,
{
    let entry = |n: usize| entry_of(nodes, n);
    let last = (bound - 1) as usize;
    let before = children_below(nodes, dir, last);
    let dirs_before = subdirectories(before.map_values(entry));
    let dirs = subdirectories(children_below(nodes, dir, bound).map_values(entry));
    if nodes[last as int].parent == Some(dir) {
        let listed = before.push(last).map_values(entry);
        assert(listed.drop_last() =~= before.map_values(entry));
        assert(listed.last() == entry_of(nodes, last));
    }
    if node == last {
        assert(dirs == dirs_before.push(node));
        assert(dirs[dirs.len() - 1] == node);
    } else {
        lemma_listed_subdirectories_complete(nodes, dir, last, node);
        let k = choose|k: int| 0 <= k < dirs_before.len() && dirs_before[k] == node;
        assert(dirs[k] == node);
    }
}

/// Every subdirectory of `dir` is among `found` or `pending`.
pub open spec fn covered(nodes: Seq<Node>, dir: usize, found: Seq<usize>, pending: Seq<usize>) -> bool {
    forall|node: usize|
        node < nodes.len() && #[trigger] is_subdirectory(nodes, node, dir) ==> found.contains(
            node,
        ) || pending.contains(node)
}

/// Every subdirectory of a directory that was found and can be listed is found or known.
#[verifier::opaque]
pub open spec fn covering(nodes: Seq<Node>, found: Seq<usize>, pending: Seq<usize>) -> bool {
    forall|i: int|
        0 <= i < found.len() && list_error(nodes, #[trigger] found[i]) is None ==> covered(
            nodes,
            found[i],
            found,
            pending,
        )
}

/// A listing keeps the subdirectories of what was found in sight.
proof fn lemma_covering_step(nodes: Seq<Node>, found: Seq<usize>, pending: Seq<usize>)
    requires
        nodes.len() <= usize::MAX,
        covering(nodes, found, pending),
        pending.len() > 0,
    ensures
        covering(
            nodes,
            found.push(pending.last()),
            pending.drop_last() + if list_error(nodes, pending.last()) is None {
                subdirectories(entry_kinds(nodes, pending.last()))
            } else {
                Seq::empty()
            },
        ),
{
    reveal(covering);
    let dir = pending.last();
    let rest = pending.drop_last();
    let dirs = if list_error(nodes, dir) is None {
        subdirectories(entry_kinds(nodes, dir))
    } else {
        Seq::empty()
    };
    let found2 = found.push(dir);
    let pending2 = rest + dirs;
    assert forall|i: int|
        0 <= i < found2.len() && list_error(nodes, #[trigger] found2[i]) is None implies covered(
        nodes,
        found2[i],
        found2,
        pending2,
    ) by {
        assert forall|node: usize|
            node < nodes.len() && #[trigger] is_subdirectory(
                nodes,
                node,
                found2[i],
            ) implies found2.contains(node) || pending2.contains(node) by {
            if i < found.len() {
                assert(found2[i] == found[i]);
                assert(covered(nodes, found[i], found, pending));
                if found.contains(node) {
                    let k = choose|k: int| 0 <= k < found.len() && found[k] == node;
                    assert(found2[k] == node);
                } else {
                    let k = choose|k: int| 0 <= k < pending.len() && pending[k] == node;
                    if k < rest.len() {
                        assert(pending2[k] == node);
                    } else {
                        assert(found2[found.len() as int] == node);
                    }
                }
            } else {
                lemma_listed_subdirectories_complete(nodes, dir, nodes.len() as usize, node);
                let k = choose|k: int| 0 <= k < dirs.len() && dirs[k] == node;
                assert(pending2[rest.len() + k] == node);
            }
        }
    }
}

/// A walk that lists what is left has listed every subdirectory of every
/// directory that it listed.
proof fn lemma_walk_covers(nodes: Seq<Node>, root: usize, found: Seq<usize>, pending: Seq<usize>)
    requires
        well_formed(nodes),
        covering(nodes, found, pending),
        found + discovery_of_all(nodes, pending) == discovery(nodes, root),
    ensures
        covering(nodes, discovery(nodes, root), Seq::empty()),
    decreases discovery_of_all(nodes, pending).len(),
{
    if pending.len() == 0 {
        assert(found + discovery_of_all(nodes, pending) =~= found);
        assert(pending =~= Seq::empty());
    } else {
        let dir = pending.last();
        let rest = pending.drop_last();
        let dirs = if list_error(nodes, dir) is None {
            subdirectories(entry_kinds(nodes, dir))
        } else {
            Seq::empty()
        };
        let bound = nodes.len() as usize;
        lemma_discovery_of_subdirectories(nodes, dir, bound);
        lemma_discovery_of_all_concat(nodes, rest, dirs);
        lemma_covering_step(nodes, found, pending);
        assert(discovery_of_all(nodes, dirs) + discovery_of_all(nodes, rest) =~= discovery(
            nodes,
            dir,
        ).skip(1) + discovery_of_all(nodes, rest));
        assert(found.push(dir) + discovery_of_all(nodes, rest + dirs) =~= found
            + discovery_of_all(nodes, pending));
        lemma_walk_covers(nodes, root, found.push(dir), rest + dirs);
    }
}

/// A walk lists every subdirectory of every directory that it lists.
pub proof fn lemma_discovery_is_complete(nodes: Seq<Node>, root: usize)
    requires
        well_formed(nodes),
    ensures
        forall|i: int|
            0 <= i < discovery(nodes, root).len() && list_error(
                nodes,
                #[trigger] discovery(nodes, root)[i],
            ) is None ==> covered(
                nodes,
                discovery(nodes, root)[i],
                discovery(nodes, root),
                Seq::empty(),
            ),
{
    reveal(covering);
    let found = Seq::<usize>::empty();
    let pending = seq![root];
    assert(pending.drop_last() =~= Seq::<usize>::empty());
    assert(discovery_of_all(nodes, pending.drop_last()) =~= Seq::<usize>::empty());
    assert(found + discovery_of_all(nodes, pending) =~= discovery(nodes, root));
    lemma_walk_covers(nodes, root, found, pending);
}

} // verus!
