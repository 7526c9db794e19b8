use crate::date::{extremal, extremal_exists, is_extremal, Date};
use crate::order::{
    after_fix, after_fixes, after_walk, discovery, first_list_error, fix_error, fix_order,
    fixes_error, is_subdirectory, lemma_discovery_is_complete, lemma_discovery_is_orderly,
    lemma_fixes_stop, lies_in_one_of, walk_error,
};
use crate::tree::{
    children, entry_times, lemma_children_below, lemma_entry_times_agree, list_error, time_of,
    touch_error, touched, well_formed, Node,
};
use vstd::prelude::*;

verus! {

/// `node` is an entry of `dir` whose metadata can be read.
pub open spec fn is_readable_entry(nodes: Seq<Node>, node: usize, dir: usize) -> bool {
    &&& node < nodes.len()
    &&& nodes[node as int].parent == Some(dir)
    &&& nodes[node as int].access.stat
}

/// A time is extremal among the listed times of `dir` exactly when it is the
/// time of a readable entry of `dir` and no readable entry is chosen over it.
pub proof fn extremal_among_entries(nodes: Seq<Node>, dir: usize, date: Date, time: crate::time::Timestamp)
    requires
        well_formed(nodes),
    ensures
        is_extremal(entry_times(nodes, dir), date, time) <==> {
            &&& exists|node: usize|
                is_readable_entry(nodes, node, dir) && (#[trigger] nodes[node as int]).modified
                    == time
            &&& forall|node: usize|
                is_readable_entry(nodes, node, dir) ==> date.prefers(
                    time,
                    (#[trigger] nodes[node as int]).modified,
                )
        },
{
    let entries = children(nodes, dir);
    let times = entry_times(nodes, dir);
    lemma_children_below(nodes, dir, nodes.len() as usize);
    assert forall|i: int| 0 <= i < times.len() implies times[i] == time_of(nodes, entries[i])
        && entries[i] < nodes.len() && nodes[entries[i] as int].parent == Some(dir) by {}
    if is_extremal(times, date, time) {
        let i = choose|i: int| 0 <= i < times.len() && times[i] == Some(time);
        assert(is_readable_entry(nodes, entries[i], dir) && nodes[entries[i] as int].modified
            == time);
        assert forall|node: usize| is_readable_entry(nodes, node, dir) implies date.prefers(
            time,
            (#[trigger] nodes[node as int]).modified,
        ) by {
            assert(entries.contains(node));
            let k = choose|k: int| 0 <= k < entries.len() && entries[k] == node;
            assert(times[k] is Some);
        }
    }
    if (exists|node: usize|
        is_readable_entry(nodes, node, dir) && (#[trigger] nodes[node as int]).modified == time)
        && (forall|node: usize|
        is_readable_entry(nodes, node, dir) ==> date.prefers(
            time,
            (#[trigger] nodes[node as int]).modified,
        )) {
        let node = choose|node: usize|
            is_readable_entry(nodes, node, dir) && (#[trigger] nodes[node as int]).modified
                == time;
        assert(entries.contains(node));
        let k = choose|k: int| 0 <= k < entries.len() && entries[k] == node;
        assert(times[k] == Some(time));
        assert forall|i: int| 0 <= i < times.len() && (#[trigger] times[i]) is Some implies date.prefers(
            time,
            times[i]->0,
        ) by {
            assert(is_readable_entry(nodes, entries[i], dir));
            assert(nodes[entries[i] as int].modified == times[i]->0);
        }
    }
}

/// Fixing a directory that can be listed, that allows its time to be set and
/// that has an entry whose metadata can be read succeeds, changes nothing but
/// the time of that directory, and leaves it with the time of one of those
/// entries, as they were before, over which none of them is chosen: the
/// earliest of them under `Date::Earliest`, the latest under `Date::Latest`.
pub proof fn fix_gives_the_extremal_time(nodes: Seq<Node>, dir: usize, date: Date)
    requires
        well_formed(nodes),
        list_error(nodes, dir) is None,
        touch_error(nodes, dir) is None,
        exists|node: usize| is_readable_entry(nodes, node, dir),
    ensures
        fix_error(nodes, dir, date) is None,
        ({
            let time = after_fix(nodes, dir, date)[dir as int].modified;
            &&& after_fix(nodes, dir, date) == touched(nodes, dir, time)
            &&& exists|node: usize|
                is_readable_entry(nodes, node, dir) && (#[trigger] nodes[node as int]).modified
                    == time
            &&& forall|node: usize|
                is_readable_entry(nodes, node, dir) ==> date.prefers(
                    time,
                    (#[trigger] nodes[node as int]).modified,
                )
        }),
{
    let entries = children(nodes, dir);
    let times = entry_times(nodes, dir);
    lemma_children_below(nodes, dir, nodes.len() as usize);
    let node = choose|node: usize| is_readable_entry(nodes, node, dir);
    assert(nodes[node as int].parent == Some(dir));
    assert(entries.contains(node));
    let k = choose|k: int| 0 <= k < entries.len() && entries[k] == node;
    assert(times[k] is Some);
    extremal_exists(times, date);
    extremal_among_entries(nodes, dir, date, extremal(times, date)->0);
}

/// Fixing a directory that has no entry whose metadata can be read, an empty
/// one above all, changes nothing, whatever the setting; and it succeeds
/// wherever the directory can be listed.
pub proof fn fix_leaves_a_directory_without_readable_entries(
    nodes: Seq<Node>,
    dir: usize,
    date: Date,
)
    requires
        well_formed(nodes),
        forall|node: usize| !is_readable_entry(nodes, node, dir),
    ensures
        after_fix(nodes, dir, date) == nodes,
        fix_error(nodes, dir, date) == list_error(nodes, dir),
{
    let times = entry_times(nodes, dir);
    assert forall|time: crate::time::Timestamp| !is_extremal(times, date, time) by {
        extremal_among_entries(nodes, dir, date, time);
    }
}

/// Two trees hold the same nodes in the same places, with the same kinds and
/// the same permissions; they differ in modification times at most.
pub open spec fn same_shape(a: Seq<Node>, b: Seq<Node>) -> bool {
    &&& a.len() == b.len()
    &&& forall|i: int|
        0 <= i < a.len() ==> (#[trigger] a[i]).parent == b[i].parent && a[i].kind == b[i].kind
            && a[i].access == b[i].access
}

/// In `after` the directory `dir` is as a fix leaves it: it has the extremal
/// time of its entries as they are in `after`, or, where no entry's time can
/// be read, the time that it had in `before`.
pub open spec fn is_fixed(before: Seq<Node>, after: Seq<Node>, dir: usize, date: Date) -> bool {
    after[dir as int].modified == match extremal(entry_times(after, dir), date) {
        Some(time) => time,
        None => before[dir as int].modified,
    }
}

/// A fix keeps the shape of the tree and touches no node but the directory,
/// which it leaves fixed where it succeeds.
pub proof fn fix_changes_one_time(nodes: Seq<Node>, dir: usize, date: Date)
    requires
        well_formed(nodes),
    ensures
        well_formed(after_fix(nodes, dir, date)),
        same_shape(after_fix(nodes, dir, date), nodes),
        forall|i: int|
            0 <= i < nodes.len() && i != dir ==> (#[trigger] after_fix(nodes, dir, date)[i])
                == nodes[i],
        fix_error(nodes, dir, date) is None ==> is_fixed(
            nodes,
            after_fix(nodes, dir, date),
            dir,
            date,
        ),
{
    let after = after_fix(nodes, dir, date);
    if fix_error(nodes, dir, date) is None {
        assert(nodes[dir as int].parent != Some(dir));
        lemma_entry_times_agree(after, nodes, dir);
    }
}

/// Directories that are fixed one after the other, none of them twice and
/// none before one that lies in it, are all fixed in the end, and nothing
/// else has changed.
pub proof fn fixes_in_order_leave_every_directory_fixed(
    nodes: Seq<Node>,
    dirs: Seq<usize>,
    date: Date,
)
    requires
        well_formed(nodes),
        dirs.no_duplicates(),
        forall|i: int, j: int|
            0 <= i < j < dirs.len() ==> nodes[dirs[j] as int].parent != Some(dirs[i]),
        fixes_error(nodes, dirs, date) is None,
    ensures
        well_formed(after_fixes(nodes, dirs, date)),
        same_shape(after_fixes(nodes, dirs, date), nodes),
        forall|i: int| 0 <= i < dirs.len() ==> (#[trigger] dirs[i]) < nodes.len(),
        forall|node: usize|
            node < nodes.len() && !dirs.contains(node) ==> (#[trigger] after_fixes(
                nodes,
                dirs,
                date,
            )[node as int]) == nodes[node as int],
        forall|i: int|
            0 <= i < dirs.len() ==> is_fixed(
                nodes,
                after_fixes(nodes, dirs, date),
                #[trigger] dirs[i],
                date,
            ),
    decreases dirs.len(),
{
    if dirs.len() > 0 {
        let earlier = dirs.drop_last();
        let dir = dirs.last();
        let mid = after_fixes(nodes, earlier, date);
        let after = after_fixes(nodes, dirs, date);
        fixes_in_order_leave_every_directory_fixed(nodes, earlier, date);
        fix_changes_one_time(mid, dir, date);
        assert(after == after_fix(mid, dir, date));
        assert(dir < nodes.len());
        assert(dirs[dirs.len() - 1] == dir);
        assert forall|i: int| 0 <= i < dirs.len() implies (#[trigger] dirs[i]) < nodes.len() by {
            if i < earlier.len() {
                assert(earlier[i] == dirs[i]);
            }
        }
        assert forall|node: usize| node < nodes.len() && !dirs.contains(node) implies (
        #[trigger] after[node as int]) == nodes[node as int] by {
            if earlier.contains(node) {
                let k = choose|k: int| 0 <= k < earlier.len() && earlier[k] == node;
                assert(dirs[k] == node);
            }
            assert(mid[node as int] == nodes[node as int]);
        }
        assert forall|i: int| 0 <= i < dirs.len() implies is_fixed(
            nodes,
            after,
            #[trigger] dirs[i],
            date,
        ) by {
            if i < earlier.len() {
                let d = dirs[i];
                assert(earlier[i] == d);
                assert(d < nodes.len() && d != dir);
                assert(is_fixed(nodes, mid, d, date));
                assert(nodes[dir as int].parent != Some(d));
                assert(mid[dir as int].parent == nodes[dir as int].parent);
                lemma_entry_times_agree(after, mid, d);
                assert(after[d as int] == mid[d as int]);
            } else {
                if earlier.contains(dir) {
                    let k = choose|k: int| 0 <= k < earlier.len() && earlier[k] == dir;
                    assert(dirs[k] == dir);
                }
                assert(mid[dir as int] == nodes[dir as int]);
            }
        }
    }
}

/// A walk lists `root` first; every other directory that it lists is a
/// subdirectory of one that it listed before; and it lists every subdirectory
/// of every directory that it lists and that can be listed. So it lists what
/// can be reached from `root` through listings, and nothing else.
pub proof fn walk_lists_the_directories_below_root(nodes: Seq<Node>, root: usize)
    requires
        well_formed(nodes),
    ensures
        discovery(nodes, root).len() > 0,
        discovery(nodes, root)[0] == root,
        forall|i: int|
            0 < i < discovery(nodes, root).len() ==> exists|k: int|
                0 <= k < i && is_subdirectory(
                    nodes,
                    #[trigger] discovery(nodes, root)[i],
                    #[trigger] discovery(nodes, root)[k],
                ),
        forall|i: int, node: usize|
            0 <= i < discovery(nodes, root).len() && list_error(nodes, discovery(nodes, root)[i])
                is None && node < nodes.len() && #[trigger] is_subdirectory(
                nodes,
                node,
                #[trigger] discovery(nodes, root)[i],
            ) ==> discovery(nodes, root).contains(node),
{
    let listed = discovery(nodes, root);
    lemma_discovery_is_orderly(nodes, root);
    lemma_discovery_is_complete(nodes, root);
    assert forall|i: int| 0 < i < listed.len() implies exists|k: int|
        0 <= k < i && is_subdirectory(nodes, #[trigger] listed[i], #[trigger] listed[k]) by {
        assert(lies_in_one_of(nodes, listed[i], listed, i));
        let k = choose|k: int| 0 <= k < i && is_subdirectory(nodes, listed[i], #[trigger] listed[k]);
        assert(is_subdirectory(nodes, listed[i], listed[k]));
    }
    assert forall|i: int, node: usize|
        0 <= i < listed.len() && list_error(nodes, listed[i]) is None && node < nodes.len()
            && #[trigger] is_subdirectory(nodes, node, #[trigger] listed[i]) implies listed.contains(
        node,
    ) by {
        assert(crate::order::covered(nodes, listed[i], listed, Seq::empty()));
    }
}

/// A walk fixes no directory twice, and none before a directory that lies in it.
pub proof fn walk_fixes_each_directory_once_and_after_its_entries(nodes: Seq<Node>, root: usize)
    requires
        well_formed(nodes),
    ensures
        fix_order(nodes, root).no_duplicates(),
        fix_order(nodes, root).len() > 0,
        fix_order(nodes, root).last() == root,
        forall|i: int, j: int|
            0 <= i < j < fix_order(nodes, root).len() ==> nodes[fix_order(
                nodes,
                root,
            )[j] as int].parent != Some(fix_order(nodes, root)[i]),
{
    let listed = discovery(nodes, root);
    let order = fix_order(nodes, root);
    lemma_discovery_is_orderly(nodes, root);
    assert(listed[0] == root);
    assert forall|i: int, j: int| 0 <= i < order.len() && 0 <= j < order.len() && i != j implies order[i]
        != order[j] by {
        assert(order[i] == listed[listed.len() - 1 - i]);
        assert(order[j] == listed[listed.len() - 1 - j]);
    }
    assert forall|i: int, j: int| 0 <= i < j < order.len() implies nodes[order[j] as int].parent
        != Some(order[i]) by {
        assert(order[i] == listed[listed.len() - 1 - i]);
        assert(order[j] == listed[listed.len() - 1 - j]);
    }
}

/// After a walk that succeeded, every directory that it listed is fixed: it
/// has the extremal time of its entries as the walk left them, or, where no
/// entry's time can be read, the time that it had. The walk has changed
/// nothing else: the tree has its shape, and every node that was not listed,
/// every file among them, is as it was.
pub proof fn walk_leaves_every_directory_fixed(nodes: Seq<Node>, root: usize, date: Date)
    requires
        well_formed(nodes),
        walk_error(nodes, root, date) is None,
    ensures
        same_shape(after_walk(nodes, root, date), nodes),
        forall|node: usize|
            node < nodes.len() && !discovery(nodes, root).contains(node) ==> (#[trigger] after_walk(
                nodes,
                root,
                date,
            )[node as int]) == nodes[node as int],
        forall|i: int|
            0 <= i < discovery(nodes, root).len() ==> is_fixed(
                nodes,
                after_walk(nodes, root, date),
                #[trigger] discovery(nodes, root)[i],
                date,
            ),
{
    let listed = discovery(nodes, root);
    let order = fix_order(nodes, root);
    let after = after_walk(nodes, root, date);
    walk_fixes_each_directory_once_and_after_its_entries(nodes, root);
    fixes_in_order_leave_every_directory_fixed(nodes, order, date);
    assert forall|node: usize| node < nodes.len() && !listed.contains(node) implies (
    #[trigger] after[node as int]) == nodes[node as int] by {
        if order.contains(node) {
            let k = choose|k: int| 0 <= k < order.len() && order[k] == node;
            assert(listed[listed.len() - 1 - k] == node);
        }
    }
    assert forall|i: int| 0 <= i < listed.len() implies is_fixed(
        nodes,
        after,
        #[trigger] listed[i],
        date,
    ) by {
        assert(order[listed.len() - 1 - i] == listed[i]);
    }
}

/// Some directory among `dirs` cannot be listed exactly when listing them one
/// after the other meets an error.
pub proof fn first_list_error_is_some(nodes: Seq<Node>, dirs: Seq<usize>)
    ensures
        first_list_error(nodes, dirs) is Some <==> exists|i: int|
            0 <= i < dirs.len() && list_error(nodes, #[trigger] dirs[i]) is Some,
    decreases dirs.len(),
{
    if dirs.len() > 0 {
        let earlier = dirs.drop_last();
        first_list_error_is_some(nodes, earlier);
        if first_list_error(nodes, dirs) is Some {
            if first_list_error(nodes, earlier) is Some {
                let i = choose|i: int|
                    0 <= i < earlier.len() && list_error(nodes, #[trigger] earlier[i]) is Some;
                assert(dirs[i] == earlier[i]);
            } else {
                assert(list_error(nodes, dirs[dirs.len() - 1]) is Some);
            }
        }
        if exists|i: int| 0 <= i < dirs.len() && list_error(nodes, #[trigger] dirs[i]) is Some {
            let i = choose|i: int|
                0 <= i < dirs.len() && list_error(nodes, #[trigger] dirs[i]) is Some;
            if i < earlier.len() {
                assert(earlier[i] == dirs[i]);
            }
        }
    }
}

/// A walk that comes upon a directory that cannot be listed fails, and has
/// changed nothing: all listing is done before the first fix.
pub proof fn walk_fails_where_a_directory_cannot_be_listed(
    nodes: Seq<Node>,
    root: usize,
    date: Date,
    at: int,
)
    requires
        0 <= at < discovery(nodes, root).len(),
        list_error(nodes, discovery(nodes, root)[at]) is Some,
    ensures
        walk_error(nodes, root, date) is Some,
        after_walk(nodes, root, date) == nodes,
{
    first_list_error_is_some(nodes, discovery(nodes, root));
}

/// A walk in which every directory can be listed and the fix of the
/// directory at place `at` of the order is the first to fail ends with the
/// error of that fix. The directories before it in the order are fixed and
/// stay so; that directory and those after it are as they were.
pub proof fn walk_stops_at_the_first_failed_fix(
    nodes: Seq<Node>,
    root: usize,
    date: Date,
    at: int,
)
    requires
        well_formed(nodes),
        first_list_error(nodes, discovery(nodes, root)) is None,
        0 <= at < fix_order(nodes, root).len(),
        fixes_error(nodes, fix_order(nodes, root).take(at), date) is None,
        fix_error(
            after_fixes(nodes, fix_order(nodes, root).take(at), date),
            fix_order(nodes, root)[at],
            date,
        ) is Some,
    ensures
        walk_error(nodes, root, date) == fix_error(
            after_fixes(nodes, fix_order(nodes, root).take(at), date),
            fix_order(nodes, root)[at],
            date,
        ),
        after_walk(nodes, root, date) == after_fixes(
            nodes,
            fix_order(nodes, root).take(at),
            date,
        ),
        forall|i: int|
            0 <= i < at ==> is_fixed(
                nodes,
                after_walk(nodes, root, date),
                #[trigger] fix_order(nodes, root)[i],
                date,
            ),
        forall|i: int|
            at <= i < fix_order(nodes, root).len() ==> fix_order(nodes, root)[i] < nodes.len()
                ==> after_walk(nodes, root, date)[(#[trigger] fix_order(nodes, root)[i]) as int]
                == nodes[fix_order(nodes, root)[i] as int],
{
    let order = fix_order(nodes, root);
    let done = order.take(at);
    let next = order.take(at + 1);
    assert(next.drop_last() =~= done);
    assert(next.last() == order[at]);
    lemma_fixes_stop(nodes, order, at + 1, date);
    walk_fixes_each_directory_once_and_after_its_entries(nodes, root);
    fixes_in_order_leave_every_directory_fixed(nodes, done, date);
    assert forall|i: int| 0 <= i < at implies is_fixed(
        nodes,
        after_walk(nodes, root, date),
        #[trigger] order[i],
        date,
    ) by {
        assert(done[i] == order[i]);
    }
    assert forall|i: int| at <= i < order.len() && order[i] < nodes.len() implies after_walk(
        nodes,
        root,
        date,
    )[(#[trigger] order[i]) as int] == nodes[order[i] as int] by {
        if done.contains(order[i]) {
            let k = choose|k: int| 0 <= k < done.len() && done[k] == order[i];
            assert(order[k] == order[i]);
        }
    }
}

} // verus!
