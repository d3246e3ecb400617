use vstd::prelude::*;

verus! {

/// Device and inode pair that identifies a live filesystem object.
#[derive(Clone, Copy, Debug, PartialEq, Eq, Structural)]
pub struct Identity {
    pub dev: u64,
    pub ino: u64,
}

/// One node of the tree: a single path component below its parent.
///
/// Nodes live in the arena of a [`Tree`]; `parent` is the arena index of the
/// enclosing node, a pure lookup relation, and `None` for the root.
#[derive(Debug)]
pub struct DirEntry {
    pub name: Vec<u8>,
    pub parent: Option<usize>,
    pub is_dir: bool,
    pub identity: Identity,
    pub loop_flag: bool,
    pub cycle_flag: bool,
}

impl DirEntry {
    /// A fresh node: no identity yet, no flag set.
    pub fn new(name: Vec<u8>, parent: Option<usize>) -> (r: DirEntry)
        ensures
            r.name == name,
            r.parent == parent,
            !r.is_dir,
            r.identity == (Identity { dev: 0, ino: 0 }),
            !r.loop_flag,
            !r.cycle_flag,
    {
        DirEntry {
            name,
            parent,
            is_dir: false,
            identity: Identity { dev: 0, ino: 0 },
            loop_flag: false,
            cycle_flag: false,
        }
    }
}

/// A copy of `bytes`.
pub fn copy_bytes(bytes: &Vec<u8>) -> (r: Vec<u8>)
    ensures
        r@ == bytes@,
{
    let mut r: Vec<u8> = Vec::new();
    let mut i: usize = 0;
    while i < bytes.len()
        invariant
            i <= bytes@.len(),
            r@ == bytes@.take(i as int),
        decreases bytes@.len() - i,
    {
        r.push(bytes[i]);
        assert(bytes@.take(i as int).push(bytes@[i as int]) == bytes@.take(i + 1));
        i = i + 1;
    }
    assert(bytes@.take(bytes@.len() as int) == bytes@);
    r
}

/// Every node but the first has a parent that was created before it; the
/// first node is the root.
pub open spec fn links_ok(nodes: Seq<DirEntry>) -> bool {
    &&& nodes.len() >= 1
    &&& nodes[0].parent is None
    &&& forall|i: int|
        1 <= i < nodes.len() ==> (#[trigger] nodes[i]).parent is Some && nodes[i].parent->0 < i
}

/// The node `i` followed by its ancestors, nearest first, ending at the root.
pub open spec fn lineage(nodes: Seq<DirEntry>, i: int) -> Seq<int>
    decreases i,
{
    if 0 <= i < nodes.len() && nodes[i].parent is Some && nodes[i].parent->0 < i {
        seq![i] + lineage(nodes, nodes[i].parent->0 as int)
    } else {
        seq![i]
    }
}

/// How many ancestors node `i` has.
pub open spec fn depth(nodes: Seq<DirEntry>, i: int) -> nat {
    (lineage(nodes, i).len() - 1) as nat
}

/// Whether the identity of node `i` is that of one of its ancestors: the
/// directory contains itself.
#[verifier::opaque]
pub open spec fn repeats_ancestor(nodes: Seq<DirEntry>, i: int) -> bool {
    exists|k: int|
        1 <= k < lineage(nodes, i).len() && nodes[#[trigger] lineage(nodes, i)[k]].identity
            == nodes[i].identity
}

/// The root repeats no ancestor: it has none.
pub proof fn lemma_root_repeats_nothing(nodes: Seq<DirEntry>)
    requires
        nodes.len() >= 1,
    ensures
        !repeats_ancestor(nodes, 0),
{
    reveal(repeats_ancestor);
    lemma_lineage_shape(nodes, 0);
}

/// The children of node `i`, in the order in which they were attached.
pub open spec fn children(nodes: Seq<DirEntry>, i: int) -> Seq<int>
    decreases nodes.len(),
{
    if nodes.len() == 0 {
        Seq::empty()
    } else {
        let rest = children(nodes.drop_last(), i);
        if nodes.last().parent == Some(i as usize) && 0 <= i <= usize::MAX {
            rest.push(nodes.len() - 1)
        } else {
            rest
        }
    }
}

/// The children of a node are nodes of the arena whose parent it is, each
/// of them listed, in rising order.
pub proof fn lemma_children_members(nodes: Seq<DirEntry>, i: int)
    requires
        0 <= i <= usize::MAX,
    ensures
        forall|k: int|
            0 <= k < children(nodes, i).len() ==> {
                let j = #[trigger] children(nodes, i)[k];
                0 <= j < nodes.len() && nodes[j].parent == Some(i as usize)
            },
        forall|k: int, l: int|
            0 <= k < l < children(nodes, i).len() ==> children(nodes, i)[k] < children(nodes, i)[l],
        forall|j: int|
            0 <= j < nodes.len() && (#[trigger] nodes[j]).parent == Some(i as usize)
                ==> children(nodes, i).contains(j),
    decreases nodes.len(),
{
    if nodes.len() > 0 {
        let front = nodes.drop_last();
        lemma_children_members(front, i);
        let rest = children(front, i);
        let all = children(nodes, i);
        assert forall|j: int|
            0 <= j < nodes.len() && (#[trigger] nodes[j]).parent == Some(i as usize) implies all.contains(
            j,
        ) by {
            if j < nodes.len() - 1 {
                assert(front[j].parent == Some(i as usize));
                let k = choose|k: int| 0 <= k < rest.len() && rest[k] == j;
                assert(all[k] == j);
            } else {
                assert(all[all.len() - 1] == j);
            }
        }
    }
}

/// A node that is attached last becomes the last child of its parent, and no
/// other node gains or loses a child.
pub proof fn lemma_children_grow(nodes: Seq<DirEntry>, child: DirEntry, i: int)
    requires
        0 <= i <= usize::MAX,
    ensures
        children(nodes.push(child), i) == if child.parent == Some(i as usize) {
            children(nodes, i).push(nodes.len() as int)
        } else {
            children(nodes, i)
        },
{
    assert(nodes.push(child).drop_last() == nodes);
}

/// The lineage of a node starts with the node, holds only nodes of the arena,
/// and descends strictly.
pub proof fn lemma_lineage_shape(nodes: Seq<DirEntry>, i: int)
    requires
        0 <= i < nodes.len(),
    ensures
        lineage(nodes, i).len() >= 1,
        lineage(nodes, i).len() <= i + 1,
        lineage(nodes, i)[0] == i,
        forall|k: int|
            0 <= k < lineage(nodes, i).len() ==> 0 <= #[trigger] lineage(nodes, i)[k] <= i,
        links_ok(nodes) ==> lineage(nodes, i).last() == 0,
    decreases i,
{
    if nodes[i].parent is Some && nodes[i].parent->0 < i {
        let p = nodes[i].parent->0 as int;
        lemma_lineage_shape(nodes, p);
        assert forall|k: int| 0 <= k < lineage(nodes, i).len() implies 0 <= #[trigger] lineage(
            nodes,
            i,
        )[k] <= i by {
            if k > 0 {
                assert(lineage(nodes, i)[k] == lineage(nodes, p)[k - 1]);
            }
        }
        assert(lineage(nodes, i).last() == lineage(nodes, p).last());
    }
}

/// The lineage of a node depends only on the parent links at and below it.
pub proof fn lemma_lineage_agrees(a: Seq<DirEntry>, b: Seq<DirEntry>, i: int)
    requires
        0 <= i < a.len(),
        i < b.len(),
        forall|j: int| 0 <= j <= i ==> (#[trigger] a[j]).parent == b[j].parent,
    ensures
        lineage(a, i) == lineage(b, i),
    decreases i,
{
    if a[i].parent is Some && a[i].parent->0 < i {
        lemma_lineage_agrees(a, b, a[i].parent->0 as int);
    }
}

/// Whether a node repeats an ancestor depends only on the parent links and
/// identities at and below it.
pub proof fn lemma_repeats_agrees(a: Seq<DirEntry>, b: Seq<DirEntry>, i: int)
    requires
        0 <= i < a.len(),
        i < b.len(),
        forall|j: int|
            0 <= j <= i ==> (#[trigger] a[j]).parent == b[j].parent && a[j].identity
                == b[j].identity,
    ensures
        repeats_ancestor(a, i) == repeats_ancestor(b, i),
{
    reveal(repeats_ancestor);
    lemma_lineage_agrees(a, b, i);
    lemma_lineage_shape(a, i);
    if repeats_ancestor(a, i) {
        let k = choose|k: int|
            1 <= k < lineage(a, i).len() && a[#[trigger] lineage(a, i)[k]].identity
                == a[i].identity;
        assert(b[lineage(b, i)[k]].identity == b[i].identity);
    }
    if repeats_ancestor(b, i) {
        let k = choose|k: int|
            1 <= k < lineage(b, i).len() && b[#[trigger] lineage(b, i)[k]].identity
                == b[i].identity;
        assert(a[lineage(a, i)[k]].identity == a[i].identity);
    }
}

/// From any node of a lineage on, the lineage is that node's own.
pub proof fn lemma_lineage_suffix(nodes: Seq<DirEntry>, b: int, k: int)
    requires
        0 <= b < nodes.len(),
        0 <= k < lineage(nodes, b).len(),
    ensures
        lineage(nodes, lineage(nodes, b)[k]) == lineage(nodes, b).subrange(
            k,
            lineage(nodes, b).len() as int,
        ),
    decreases b,
{
    let line = lineage(nodes, b);
    if k == 0 {
        assert(line.subrange(0, line.len() as int) == line);
    } else {
        let p = nodes[b].parent->0 as int;
        let up = lineage(nodes, p);
        assert(line == seq![b] + up);
        assert(line[k] == up[k - 1]);
        lemma_lineage_suffix(nodes, p, k - 1);
        assert(up.subrange(k - 1, up.len() as int) == line.subrange(k, line.len() as int));
    }
}

/// Whether `a` is `b` or an ancestor of `b`.
pub open spec fn on_path(nodes: Seq<DirEntry>, a: int, b: int) -> bool {
    lineage(nodes, b).contains(a)
}

/// A node is on its own path.
pub proof fn lemma_on_path_self(nodes: Seq<DirEntry>, b: int)
    ensures
        on_path(nodes, b, b),
{
    assert(lineage(nodes, b)[0] == b);
}

/// What is on the path of a node's parent is on the path of the node.
pub proof fn lemma_on_path_child(nodes: Seq<DirEntry>, a: int, c: int)
    requires
        0 <= c < nodes.len(),
        nodes[c].parent is Some,
        nodes[c].parent->0 < c,
        on_path(nodes, a, nodes[c].parent->0 as int),
    ensures
        on_path(nodes, a, c),
{
    let p = nodes[c].parent->0 as int;
    let k = choose|k: int| 0 <= k < lineage(nodes, p).len() && lineage(nodes, p)[k] == a;
    assert(lineage(nodes, c)[k + 1] == a);
}

/// The parent of what is on the path of a node is on that path too.
pub proof fn lemma_on_path_parent(nodes: Seq<DirEntry>, a: int, b: int)
    requires
        links_ok(nodes),
        0 <= b < nodes.len(),
        1 <= a < nodes.len(),
        on_path(nodes, a, b),
    ensures
        on_path(nodes, nodes[a].parent->0 as int, b),
    decreases b,
{
    let k = choose|k: int| 0 <= k < lineage(nodes, b).len() && lineage(nodes, b)[k] == a;
    let pa = nodes[a].parent->0 as int;
    if a == b {
        lemma_on_path_self(nodes, pa);
        lemma_on_path_child(nodes, pa, b);
    } else {
        assert(lineage(nodes, b)[0] == b);
        assert(k >= 1);
        let pb = nodes[b].parent->0 as int;
        assert(lineage(nodes, pb)[k - 1] == a);
        lemma_on_path_parent(nodes, a, pb);
        lemma_on_path_child(nodes, pa, b);
    }
}

/// The tree that a walk builds: an arena of nodes, the root first, each
/// node after its parent.
#[derive(Debug)]
pub struct Tree {
    pub nodes: Vec<DirEntry>,
}

impl Tree {
    /// The parent links are sound.
    pub open spec fn wf(&self) -> bool {
        links_ok(self.nodes@)
    }

    /// A tree of one node, the root, named `name`.
    pub fn new(name: Vec<u8>) -> (r: Tree)
        ensures
            r.wf(),
            r.nodes@.len() == 1,
            r.nodes@[0].name == name,
            r.nodes@[0].parent is None,
            r.nodes@[0].is_dir,
            r.nodes@[0].identity == (Identity { dev: 0, ino: 0 }),
            !r.nodes@[0].loop_flag,
            !r.nodes@[0].cycle_flag,
    {
        let mut root = DirEntry::new(name, None);
        root.is_dir = true;
        let mut nodes: Vec<DirEntry> = Vec::new();
        nodes.push(root);
        Tree { nodes }
    }

    /// The nodes from the root down to `node`, in that order: the components
    /// through which a handle on `node` is opened, each relative to the one
    /// before it.
    pub fn path_to(&self, node: usize) -> (r: Vec<usize>)
        requires
            self.wf(),
            node < self.nodes@.len(),
        ensures
            r@.len() == lineage(self.nodes@, node as int).len(),
            forall|k: int|
                0 <= k < r@.len() ==> #[trigger] r@[k] as int == lineage(self.nodes@, node as int)[r@.len()
                    - 1 - k],
            r@[0] == 0,
            r@[r@.len() - 1] == node,
    {
        let ghost full = lineage(self.nodes@, node as int);
        let mut up: Vec<usize> = Vec::new();
        let mut cur: usize = node;
        proof {
            lemma_lineage_shape(self.nodes@, node as int);
        }
        loop
            invariant_except_break
                up@.len() + lineage(self.nodes@, cur as int).len() == full.len(),
                forall|k: int| 0 <= k < up@.len() ==> #[trigger] up@[k] as int == full[k],
                forall|k: int|
                    0 <= k < lineage(self.nodes@, cur as int).len() ==> #[trigger] lineage(
                        self.nodes@,
                        cur as int,
                    )[k] == full[up@.len() + k],
            invariant
                self.wf(),
                cur < self.nodes@.len(),
                full == lineage(self.nodes@, node as int),
            ensures
                up@.len() == full.len(),
                forall|k: int| 0 <= k < up@.len() ==> #[trigger] up@[k] as int == full[k],
            decreases cur,
        {
            let ghost line = lineage(self.nodes@, cur as int);
            proof {
                lemma_lineage_shape(self.nodes@, cur as int);
            }
            up.push(cur);
            match self.nodes[cur].parent {
                Some(p) => {
                    assert(cur >= 1);
                    assert(p < cur);
                    proof {
                        let pl = lineage(self.nodes@, p as int);
                        assert(line == seq![cur as int] + pl);
                        assert forall|k: int| 0 <= k < pl.len() implies #[trigger] pl[k] == full[up@.len()
                            + k] by {
                            assert(pl[k] == line[k + 1]);
                        }
                    }
                    cur = p;
                },
                None => {
                    assert(line == seq![cur as int]);
                    break ;
                },
            }
        }
        let n: usize = up.len();
        let mut r: Vec<usize> = Vec::new();
        let mut i: usize = 0;
        while i < n
            invariant
                n == up@.len(),
                i <= n,
                r@.len() == i,
                forall|k: int| 0 <= k < i ==> #[trigger] r@[k] == up@[n - 1 - k],
            decreases n - i,
        {
            r.push(up[n - 1 - i]);
            i = i + 1;
        }
        r
    }

    /// Whether `node` has the identity of one of its ancestors.
    pub fn repeats_ancestor(&self, node: usize) -> (r: bool)
        requires
            self.wf(),
            node < self.nodes@.len(),
        ensures
            r == repeats_ancestor(self.nodes@, node as int),
    {
        let path = self.path_to(node);
        let ghost line = lineage(self.nodes@, node as int);
        proof {
            reveal(repeats_ancestor);
            lemma_lineage_shape(self.nodes@, node as int);
        }
        let n: usize = path.len();
        let mut i: usize = 0;
        while i < n - 1
            invariant
                n >= 1,
                self.wf(),
                node < self.nodes@.len(),
                n == path@.len(),
                n == line.len(),
                line == lineage(self.nodes@, node as int),
                forall|k: int| 0 <= k < n ==> #[trigger] path@[k] as int == line[n - 1 - k],
                forall|k: int| 0 <= k < n ==> 0 <= #[trigger] line[k] <= node,
                forall|k: int|
                    n - i <= k < n ==> self.nodes@[#[trigger] line[k]].identity
                        != self.nodes@[node as int].identity,
            decreases n - i,
        {
            let a: usize = path[i];
            assert(a as int == line[n - 1 - i]);
            if self.nodes[a].identity == self.nodes[node].identity {
                proof {
                    reveal(repeats_ancestor);
                    assert(self.nodes@[line[n - 1 - i]].identity == self.nodes@[node as int].identity);
                }
                return true;
            }
            i = i + 1;
        }
        proof {
            reveal(repeats_ancestor);
        }
        false
    }

    /// The children of `node`, in the order in which they were attached.
    pub fn children(&self, node: usize) -> (r: Vec<usize>)
        ensures
            r@.len() == children(self.nodes@, node as int).len(),
            forall|k: int| 0 <= k < r@.len() ==> #[trigger] r@[k] as int == children(self.nodes@, node as int)[k],
    {
        let mut r: Vec<usize> = Vec::new();
        let mut j: usize = 0;
        while j < self.nodes.len()
            invariant
                j <= self.nodes@.len(),
                r@.len() == children(self.nodes@.take(j as int), node as int).len(),
                forall|k: int|
                    0 <= k < r@.len() ==> #[trigger] r@[k] as int == children(
                        self.nodes@.take(j as int),
                        node as int,
                    )[k],
            decreases self.nodes@.len() - j,
        {
            assert(self.nodes@.take(j + 1).drop_last() == self.nodes@.take(j as int));
            assert(self.nodes@.take(j + 1).last() == self.nodes@[j as int]);
            let is_child = match self.nodes[j].parent {
                Some(p) => p == node,
                None => false,
            };
            if is_child {
                r.push(j);
            }
            j = j + 1;
        }
        assert(self.nodes@.take(self.nodes@.len() as int) == self.nodes@);
        r
    }

    /// How many ancestors `node` has.
    pub fn depth(&self, node: usize) -> (r: usize)
        requires
            self.wf(),
            node < self.nodes@.len(),
        ensures
            r == depth(self.nodes@, node as int),
    {
        let mut cur: usize = node;
        let mut d: usize = 0;
        proof {
            lemma_lineage_shape(self.nodes@, node as int);
        }
        loop
            invariant
                self.wf(),
                cur < self.nodes@.len(),
                d + lineage(self.nodes@, cur as int).len() == lineage(self.nodes@, node as int).len(),
                lineage(self.nodes@, node as int).len() <= node + 1,
            ensures
                d + 1 == lineage(self.nodes@, node as int).len(),
            decreases cur,
        {
            proof {
                lemma_lineage_shape(self.nodes@, cur as int);
            }
            match self.nodes[cur].parent {
                Some(p) => {
                    assert(cur >= 1);
                    assert(lineage(self.nodes@, cur as int) == seq![cur as int] + lineage(
                        self.nodes@,
                        p as int,
                    ));
                    d = d + 1;
                    cur = p;
                },
                None => {
                    break ;
                },
            }
        }
        d
    }
}

} // verus!
