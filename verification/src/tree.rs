use crate::error::{Error, ErrorKind};
use crate::time::Timestamp;
use crate::walk::Entry;
use vstd::prelude::*;

verus! {

/// What a node is.
#[derive(Debug, Clone, Copy, PartialEq, Eq, Structural)]
pub enum Kind {
    Directory,
    File,
}

/// What a node allows.
#[derive(Debug, Clone, Copy, PartialEq, Eq, Structural)]
pub struct Access {
    /// Its metadata can be read.
    pub stat: bool,
    /// Its entries can be listed.
    pub list: bool,
    /// Its modification time can be set.
    pub touch: bool,
}

/// One file or directory of a tree.
#[derive(Debug, Clone, Copy, PartialEq, Eq, Structural)]
pub struct Node {
    /// The directory that holds the node; `None` for the root.
    pub parent: Option<usize>,
    pub kind: Kind,
    /// When the node was last modified.
    pub modified: Timestamp,
    pub access: Access,
}

/// Every node can be numbered, and every node but a root lies in a node that
/// was there before it.
pub open spec fn well_formed(nodes: Seq<Node>) -> bool {
    &&& nodes.len() <= usize::MAX
    &&& forall|i: int|
        0 <= i < nodes.len() ==> ((#[trigger] nodes[i]).parent matches Some(p) ==> p < i)
}

/// The error with which listing `dir` fails, if it fails.
pub open spec fn list_error(nodes: Seq<Node>, dir: usize) -> Option<Error> {
    if dir >= nodes.len() {
        Some(Error { kind: ErrorKind::NotFound, node: dir })
    } else if nodes[dir as int].kind != Kind::Directory {
        Some(Error { kind: ErrorKind::NotADirectory, node: dir })
    } else if !nodes[dir as int].access.list {
        Some(Error { kind: ErrorKind::PermissionDenied, node: dir })
    } else {
        None
    }
}

/// The error with which setting the modification time of `node` fails, if it fails.
pub open spec fn touch_error(nodes: Seq<Node>, node: usize) -> Option<Error> {
    if node >= nodes.len() {
        Some(Error { kind: ErrorKind::NotFound, node })
    } else if !nodes[node as int].access.touch {
        Some(Error { kind: ErrorKind::PermissionDenied, node })
    } else {
        None
    }
}

/// The tree in which `node` was last modified at `time` and all else is as in `nodes`.
pub open spec fn touched(nodes: Seq<Node>, node: usize, time: Timestamp) -> Seq<Node> {
    nodes.update(
        node as int,
        Node {
            parent: nodes[node as int].parent,
            kind: nodes[node as int].kind,
            modified: time,
            access: nodes[node as int].access,
        },
    )
}

/// The entries of `dir` among the first `bound` nodes, in the order in which they were added.
pub open spec fn children_below(nodes: Seq<Node>, dir: usize, bound: usize) -> Seq<usize>
    decreases bound,
{
    if bound == 0 {
        Seq::empty()
    } else {
        let node = (bound - 1) as usize;
        let before = children_below(nodes, dir, node);
        if nodes[node as int].parent == Some(dir) {
            before.push(node)
        } else {
            before
        }
    }
}

/// The entries of `dir`, in the order in which they were added.
pub open spec fn children(nodes: Seq<Node>, dir: usize) -> Seq<usize> {
    children_below(nodes, dir, nodes.len() as usize)
}

/// The modification time that the metadata of `node` shows, if it can be read.
pub open spec fn time_of(nodes: Seq<Node>, node: usize) -> Option<Timestamp> {
    if nodes[node as int].access.stat {
        Some(nodes[node as int].modified)
    } else {
        None
    }
}

/// What a listing shows of `node`.
pub open spec fn entry_of(nodes: Seq<Node>, node: usize) -> Entry<usize> {
    if !nodes[node as int].access.stat {
        Entry::Unresolved
    } else if nodes[node as int].kind == Kind::Directory {
        Entry::Directory(node)
    } else {
        Entry::Other
    }
}

/// The modification times of the entries of `dir`, as far as they can be read.
pub open spec fn entry_times(nodes: Seq<Node>, dir: usize) -> Seq<Option<Timestamp>> {
    children(nodes, dir).map_values(|node: usize| time_of(nodes, node))
}

/// The listing of `dir`.
pub open spec fn entry_kinds(nodes: Seq<Node>, dir: usize) -> Seq<Entry<usize>> {
    children(nodes, dir).map_values(|node: usize| entry_of(nodes, node))
}

/// The entries of `dir` among the first `bound` nodes are the nodes among
/// them that lie in `dir`, each once and in rising order.
pub proof fn lemma_children_below(nodes: Seq<Node>, dir: usize, bound: usize)
    requires
        bound <= nodes.len(),
    ensures
        forall|i: int|
            0 <= i < children_below(nodes, dir, bound).len() ==> {
                let node = #[trigger] children_below(nodes, dir, bound)[i];
                node < bound && nodes[node as int].parent == Some(dir)
            },
        forall|i: int, j: int|
            0 <= i < j < children_below(nodes, dir, bound).len() ==> children_below(
                nodes,
                dir,
                bound,
            )[i] < children_below(nodes, dir, bound)[j],
        forall|node: usize|
            node < bound && (#[trigger] nodes[node as int]).parent == Some(dir)
                ==> children_below(nodes, dir, bound).contains(node),
    decreases bound,
{
    if bound > 0 {
        let last = (bound - 1) as usize;
        let before = children_below(nodes, dir, last);
        let all = children_below(nodes, dir, bound);
        lemma_children_below(nodes, dir, last);
        assert forall|node: usize|
            node < bound && (#[trigger] nodes[node as int]).parent == Some(dir) implies all.contains(
            node,
        ) by {
            if node == last {
                assert(all[all.len() - 1] == node);
            } else {
                let i = choose|i: int| 0 <= i < before.len() && before[i] == node;
                assert(all[i] == node);
            }
        }
    }
}

/// The entries of a directory depend on where the nodes lie, and on nothing else.
pub proof fn lemma_children_agree(a: Seq<Node>, b: Seq<Node>, dir: usize, bound: usize)
    requires
        a.len() == b.len(),
        bound <= a.len(),
        forall|i: int| 0 <= i < a.len() ==> (#[trigger] a[i]).parent == b[i].parent,
    ensures
        children_below(a, dir, bound) == children_below(b, dir, bound),
    decreases bound,
{
    if bound > 0 {
        let last = (bound - 1) as usize;
        lemma_children_agree(a, b, dir, last);
        assert(a[last as int].parent == b[last as int].parent);
    }
}

/// Two trees of one shape in which the entries of `dir` show the same times
/// give the same listing of times for `dir`.
pub proof fn lemma_entry_times_agree(a: Seq<Node>, b: Seq<Node>, dir: usize)
    requires
        a.len() == b.len(),
        a.len() <= usize::MAX,
        forall|i: int| 0 <= i < a.len() ==> (#[trigger] a[i]).parent == b[i].parent,
        forall|i: int|
            0 <= i < a.len() && (#[trigger] a[i]).parent == Some(dir) ==> time_of(a, i as usize)
                == time_of(b, i as usize),
    ensures
        entry_times(a, dir) == entry_times(b, dir),
{
    let bound = a.len() as usize;
    lemma_children_agree(a, b, dir, bound);
    lemma_children_below(a, dir, bound);
    let entries = children(a, dir);
    assert forall|i: int| 0 <= i < entries.len() implies time_of(a, entries[i]) == time_of(
        b,
        entries[i],
    ) by {
        assert(a[entries[i] as int].parent == Some(dir));
    }
    assert(entry_times(a, dir) =~= entry_times(b, dir));
}

impl Access {
    /// Everything is allowed.
    pub fn full() -> (access: Access)
        ensures
            access == (Access { stat: true, list: true, touch: true }),
    {
        Access { stat: true, list: true, touch: true }
    }
}

/// A tree of files and directories in memory, with what a walk reads and
/// writes of each: where it lies, what it is, when it was last modified, and
/// what it allows. A node is named by the number that `add` gave it; the root
/// is node 0.
pub struct FileTree {
    nodes: Vec<Node>,
}

impl View for FileTree {
    type V = Seq<Node>;

    closed spec fn view(&self) -> Seq<Node> {
        self.nodes@
    }
}

impl FileTree {
    /// The tree is well formed.
    pub open spec fn wf(&self) -> bool {
        well_formed(self@)
    }

    /// A tree that holds a root directory and nothing else.
    pub fn new(modified: Timestamp) -> (tree: FileTree)
        ensures
            tree.wf(),
            tree@ == seq![
                Node {
                    parent: None,
                    kind: Kind::Directory,
                    modified,
                    access: Access { stat: true, list: true, touch: true },
                },
            ],
    {
        let mut nodes: Vec<Node> = Vec::new();
        nodes.push(
            Node { parent: None, kind: Kind::Directory, modified, access: Access::full() },
        );
        let tree = FileTree { nodes };
        assert(tree@ =~= seq![
            Node {
                parent: None,
                kind: Kind::Directory,
                modified,
                access: Access { stat: true, list: true, touch: true },
            },
        ]);
        tree
    }

    /// Adds a node that allows everything as the last entry of `parent`, and
    /// returns its number. Fails, and changes nothing, where `parent` is no
    /// directory of the tree.
    pub fn add(&mut self, parent: usize, kind: Kind, modified: Timestamp) -> (added: Result<
        usize,
        Error,
    >)
        requires
            old(self).wf(),
        ensures
            final(self).wf(),
            match added {
                Ok(node) => {
                    &&& parent < old(self)@.len()
                    &&& old(self)@[parent as int].kind == Kind::Directory
                    &&& node == old(self)@.len()
                    &&& final(self)@ == old(self)@.push(
                        Node {
                            parent: Some(parent),
                            kind,
                            modified,
                            access: Access { stat: true, list: true, touch: true },
                        },
                    )
                },
                Err(e) => {
                    &&& final(self)@ == old(self)@
                    &&& e.node == parent
                    &&& e.kind == if parent >= old(self)@.len() {
                        ErrorKind::NotFound
                    } else {
                        ErrorKind::NotADirectory
                    }
                    &&& parent < old(self)@.len() ==> old(self)@[parent as int].kind
                        != Kind::Directory
                },
            },
    {
        if parent >= self.nodes.len() {
            return Err(Error { kind: ErrorKind::NotFound, node: parent });
        }
        match self.nodes[parent].kind {
            Kind::Directory => {},
            Kind::File => {
                return Err(Error { kind: ErrorKind::NotADirectory, node: parent });
            },
        }
        let node: usize = self.nodes.len();
        self.nodes.push(Node { parent: Some(parent), kind, modified, access: Access::full() });
        assert(self.nodes@.len() == self.nodes.len());
        Ok(node)
    }

    /// Says what `node` allows from now on. Fails, and changes nothing, where
    /// the tree has no such node.
    pub fn restrict(&mut self, node: usize, access: Access) -> (done: Result<(), Error>)
        requires
            old(self).wf(),
        ensures
            final(self).wf(),
            node < old(self)@.len() ==> done == Ok::<(), Error>(()) && final(self)@ == old(
                self,
            )@.update(
                node as int,
                Node {
                    parent: old(self)@[node as int].parent,
                    kind: old(self)@[node as int].kind,
                    modified: old(self)@[node as int].modified,
                    access,
                },
            ),
            node >= old(self)@.len() ==> done == Err::<(), Error>(
                Error { kind: ErrorKind::NotFound, node },
            ) && final(self)@ == old(self)@,
    {
        if node >= self.nodes.len() {
            return Err(Error { kind: ErrorKind::NotFound, node });
        }
        let before: Node = self.nodes[node];
        self.nodes.set(
            node,
            Node { parent: before.parent, kind: before.kind, modified: before.modified, access },
        );
        Ok(())
    }

    /// When `node` was last modified; `None` where the tree has no such node.
    pub fn modified(&self, node: usize) -> (time: Option<Timestamp>)
        ensures
            time == if node < self@.len() {
                Some(self@[node as int].modified)
            } else {
                None
            },
    {
        if node < self.nodes.len() {
            Some(self.nodes[node].modified)
        } else {
            None
        }
    }

    /// Checks that `dir` can be listed.
    fn check_listable(&self, dir: usize) -> (checked: Result<(), Error>)
        ensures
            checked == match list_error(self@, dir) {
                Some(e) => Err::<(), Error>(e),
                None => Ok(()),
            },
    {
        if dir >= self.nodes.len() {
            return Err(Error { kind: ErrorKind::NotFound, node: dir });
        }
        match self.nodes[dir].kind {
            Kind::Directory => {},
            Kind::File => {
                return Err(Error { kind: ErrorKind::NotADirectory, node: dir });
            },
        }
        if !self.nodes[dir].access.list {
            return Err(Error { kind: ErrorKind::PermissionDenied, node: dir });
        }
        Ok(())
    }

    /// Whether `node` is an entry of `dir`.
    fn lies_in(&self, node: usize, dir: usize) -> (inside: bool)
        requires
            node < self@.len(),
        ensures
            inside == (self@[node as int].parent == Some(dir)),
    {
        match self.nodes[node].parent {
            Some(parent) => parent == dir,
            None => false,
        }
    }

    /// Lists `dir` and reads the modification time of each entry. An entry
    /// whose metadata cannot be read is shown as `None`.
    pub fn entry_times(&self, dir: usize) -> (listed: Result<Vec<Option<Timestamp>>, Error>)
        ensures
            match listed {
                Ok(times) => list_error(self@, dir) is None && times@ == entry_times(self@, dir),
                Err(e) => list_error(self@, dir) == Some(e),
            },
    {
        match self.check_listable(dir) {
            Err(e) => {
                return Err(e);
            },
            Ok(()) => {},
        }
        let mut times: Vec<Option<Timestamp>> = Vec::new();
        let mut node: usize = 0;
        while node < self.nodes.len()
            invariant
                node <= self@.len(),
                times@ == children_below(self@, dir, node).map_values(
                    |n: usize| time_of(self@, n),
                ),
            decreases self@.len() - node,
        {
            if self.lies_in(node, dir) {
                let time = if self.nodes[node].access.stat {
                    Some(self.nodes[node].modified)
                } else {
                    None
                };
                times.push(time);
            }
            node = node + 1;
        }
        Ok(times)
    }

    /// Lists `dir` and finds out which entries are directories.
    pub fn entry_kinds(&self, dir: usize) -> (listed: Result<Vec<Entry<usize>>, Error>)
        ensures
            match listed {
                Ok(entries) => list_error(self@, dir) is None && entries@ == entry_kinds(
                    self@,
                    dir,
                ),
                Err(e) => list_error(self@, dir) == Some(e),
            },
    {
        match self.check_listable(dir) {
            Err(e) => {
                return Err(e);
            },
            Ok(()) => {},
        }
        let mut entries: Vec<Entry<usize>> = Vec::new();
        let mut node: usize = 0;
        while node < self.nodes.len()
            invariant
                node <= self@.len(),
                entries@ == children_below(self@, dir, node).map_values(
                    |n: usize| entry_of(self@, n),
                ),
            decreases self@.len() - node,
        {
            if self.lies_in(node, dir) {
                let entry = if !self.nodes[node].access.stat {
                    Entry::Unresolved
                } else {
                    match self.nodes[node].kind {
                        Kind::Directory => Entry::Directory(node),
                        Kind::File => Entry::Other,
                    }
                };
                entries.push(entry);
            }
            node = node + 1;
        }
        Ok(entries)
    }

    /// Sets the modification time of `node`. Fails, and changes nothing, where
    /// the tree has no such node or the node does not allow it.
    pub fn set_modified(&mut self, node: usize, time: Timestamp) -> (done: Result<(), Error>)
        requires
            old(self).wf(),
        ensures
            final(self).wf(),
            match touch_error(old(self)@, node) {
                Some(e) => done == Err::<(), Error>(e) && final(self)@ == old(self)@,
                None => done == Ok::<(), Error>(()) && final(self)@ == touched(
                    old(self)@,
                    node,
                    time,
                ),
            },
    {
        if node >= self.nodes.len() {
            return Err(Error { kind: ErrorKind::NotFound, node });
        }
        let before: Node = self.nodes[node];
        if !before.access.touch {
            return Err(Error { kind: ErrorKind::PermissionDenied, node });
        }
        self.nodes.set(
            node,
            Node { parent: before.parent, kind: before.kind, modified: time, access: before.access },
        );
        Ok(())
    }
}

} // verus!
