use vstd::prelude::*;
use crate::config::{Config, ConfigError, OpenMode};
use crate::entry::{
    copy_bytes, lemma_lineage_agrees, lemma_on_path_child, lemma_on_path_parent,
    lemma_on_path_self, lemma_repeats_agrees, lemma_root_repeats_nothing, lineage, links_ok,
    on_path, repeats_ancestor, DirEntry, Identity, Tree,
};

verus! {

/// What the walker waits for.
#[derive(Clone, Copy, Debug, PartialEq, Eq, Structural)]
pub enum Phase {
    /// The identity of the root.
    Root,
    /// The listing of the directory on top of the stack.
    Listing,
    /// The first examination of the next pending entry, which does not
    /// follow symbolic links.
    Stat,
    /// The second examination of the same entry, which follows them.
    Target,
    /// Nothing: the tree is complete.
    Done,
    /// Nothing: the walk was given up.
    Failed,
}

/// What the operating system answered to the last request.
#[derive(Debug)]
pub enum Event {
    /// The identity of the object behind a handle.
    Identity(Identity),
    /// The names in a directory, in the order in which they were read.
    Entries(Vec<Vec<u8>>),
    /// An entry was examined.
    Found { is_dir: bool, identity: Identity },
    /// The entry is gone since the directory was listed.
    Vanished,
    /// Resolving the entry met too many levels of symbolic links.
    TooManyLinks,
    /// Any other failure.
    Failed,
}

/// What the walker asks for next.
#[derive(Debug)]
pub enum Action {
    /// Open a handle on `node` and report the identity behind it.
    Examine { node: usize },
    /// Open a handle on `node` and report the names in it.
    List { node: usize },
    /// Open a handle on `dir` and examine the entry `name` in it, following
    /// symbolic links or not.
    Stat { dir: usize, name: Vec<u8>, follow: bool },
    /// The tree is complete.
    Finish,
    /// The walk cannot go on.
    Abort,
}

/// A directory whose entries are being classified.
#[derive(Debug)]
pub struct Frame {
    pub node: usize,
    /// The names that were listed, without `.` and `..`.
    pub pending: Vec<Vec<u8>>,
    /// How many of them were dealt with.
    pub next: usize,
}

/// One component on the way to a handle, and how it is opened.
#[derive(Clone, Copy, Debug)]
pub struct OpenStep {
    pub node: usize,
    pub mode: OpenMode,
}

/// The state of a walk between two requests.
#[derive(Debug)]
pub struct Walker {
    pub config: Config,
    pub tree: Tree,
    /// The directories in flight, the root first.
    pub stack: Vec<Frame>,
    pub phase: Phase,
}

/// The byte strings that a list of names holds.
pub open spec fn names_of(v: Seq<Vec<u8>>) -> Seq<Seq<u8>> {
    Seq::new(v.len(), |i: int| v[i]@)
}

/// Whether a name is `.` or `..`.
pub open spec fn is_dot_entry(name: Seq<u8>) -> bool {
    name == seq![46u8] || name == seq![46u8, 46u8]
}

/// The names of a listing without `.` and `..`, in the same order.
pub open spec fn real_entries(names: Seq<Seq<u8>>) -> Seq<Seq<u8>>
    decreases names.len(),
{
    if names.len() == 0 {
        names
    } else if is_dot_entry(names.last()) {
        real_entries(names.drop_last())
    } else {
        real_entries(names.drop_last()).push(names.last())
    }
}

/// The stack without the directories on top of it that have no entry left.
pub open spec fn settled(stack: Seq<Frame>) -> Seq<Frame>
    decreases stack.len(),
{
    if stack.len() == 0 {
        stack
    } else if stack.last().next < stack.last().pending@.len() {
        stack
    } else {
        settled(stack.drop_last())
    }
}

/// The stack after one more entry of the directory on top was dealt with.
pub open spec fn bumped(stack: Seq<Frame>) -> Seq<Frame>
    recommends
        stack.len() > 0,
{
    stack.drop_last().push(
        Frame {
            node: stack.last().node,
            pending: stack.last().pending,
            next: (stack.last().next + 1) as usize,
        },
    )
}

/// The walk goes on from `stack`: finished directories leave it, and the
/// next pending entry of the one on top is examined, or the walk is over.
pub open spec fn resumes(post: Walker, action: Action, stack: Seq<Frame>) -> bool {
    let s = settled(stack);
    &&& post.stack@ == s
    &&& if s.len() == 0 {
        post.phase == Phase::Done && action is Finish
    } else {
        &&& post.phase == Phase::Stat
        &&& action matches Action::Stat { dir, name, follow }
        &&& dir == s.last().node
        &&& name@ == s.last().pending@[s.last().next as int]@
        &&& !follow
    }
}

/// The tree gained one node, the entry that the directory on top of the
/// stack was examining, and nothing else changed in it.
pub open spec fn attached(pre: Walker, post: Walker, is_dir: bool, identity: Identity) -> bool {
    let top = pre.stack@.last();
    let old_nodes = pre.tree.nodes@;
    let nodes = post.tree.nodes@;
    let child = nodes.last();
    &&& nodes.len() == old_nodes.len() + 1
    &&& nodes.drop_last() == old_nodes
    &&& child.name@ == top.pending@[top.next as int]@
    &&& child.parent == Some(top.node)
    &&& child.is_dir == is_dir
    &&& child.identity == identity
    &&& child.loop_flag == (is_dir && repeats_ancestor(nodes, nodes.len() - 1))
    &&& !child.cycle_flag
}

/// What one call of [`walk`] does, for each phase and each answer.
pub open spec fn steps(pre: Walker, event: Event, post: Walker, action: Action) -> bool {
    let top = pre.stack@.last();
    &&& post.config == pre.config
    &&& match (pre.phase, event) {
        (Phase::Root, Event::Identity(identity)) => {
            &&& post.tree.nodes@.len() == 1
            &&& post.tree.nodes@[0] == (DirEntry { identity, ..pre.tree.nodes@[0] })
            &&& post.stack@.len() == 1
            &&& post.stack@[0].node == 0
            &&& post.stack@[0].pending@.len() == 0
            &&& post.stack@[0].next == 0
            &&& post.phase == Phase::Listing
            &&& action == (Action::List { node: 0 })
        },
        (Phase::Listing, Event::Entries(names)) => {
            let kept = real_entries(names_of(names@));
            &&& post.tree.nodes@ == pre.tree.nodes@
            &&& if kept.len() == 0 {
                resumes(post, action, pre.stack@.drop_last())
            } else {
                &&& post.stack@.len() == pre.stack@.len()
                &&& post.stack@.drop_last() == pre.stack@.drop_last()
                &&& post.stack@.last().node == top.node
                &&& names_of(post.stack@.last().pending@) == kept
                &&& post.stack@.last().next == 0
                &&& post.phase == Phase::Stat
                &&& action matches Action::Stat { dir, name, follow }
                &&& dir == top.node
                &&& name@ == kept[0]
                &&& !follow
            }
        },
        (Phase::Stat, Event::Found { is_dir, identity }) if is_dir && pre.config.follow_symlinks => {
            &&& post.tree.nodes@ == pre.tree.nodes@
            &&& post.stack@ == pre.stack@
            &&& post.phase == Phase::Target
            &&& action matches Action::Stat { dir, name, follow }
            &&& dir == top.node
            &&& name@ == top.pending@[top.next as int]@
            &&& follow
        },
        (Phase::Stat, Event::Found { is_dir, identity }) => grows(
            pre,
            post,
            action,
            is_dir,
            identity,
        ),
        (Phase::Target, Event::Found { is_dir, identity }) => grows(
            pre,
            post,
            action,
            true,
            identity,
        ),
        (Phase::Stat, Event::Vanished) | (Phase::Target, Event::Vanished) => {
            &&& post.tree.nodes@ == pre.tree.nodes@
            &&& resumes(post, action, bumped(pre.stack@))
        },
        (Phase::Stat, Event::TooManyLinks) | (Phase::Target, Event::TooManyLinks) => {
            &&& post.tree.nodes@ == pre.tree.nodes@.update(
                top.node as int,
                DirEntry { cycle_flag: true, ..pre.tree.nodes@[top.node as int] },
            )
            &&& resumes(post, action, bumped(pre.stack@))
        },
        (Phase::Done, _) => {
            &&& post.tree.nodes@ == pre.tree.nodes@
            &&& post.stack@ == pre.stack@
            &&& post.phase == Phase::Done
            &&& action is Finish
        },
        _ => {
            &&& post.tree.nodes@ == pre.tree.nodes@
            &&& post.stack@ == pre.stack@
            &&& post.phase == Phase::Failed
            &&& action is Abort
        },
    }
}

/// The examined entry becomes a node. A directory that is not its own
/// ancestor is entered next; after anything else the walk resumes with the
/// entry's siblings.
pub open spec fn grows(
    pre: Walker,
    post: Walker,
    action: Action,
    is_dir: bool,
    identity: Identity,
) -> bool {
    let child = post.tree.nodes@.last();
    &&& attached(pre, post, is_dir, identity)
    &&& if is_dir && !child.loop_flag {
        &&& post.stack@.len() == pre.stack@.len() + 1
        &&& post.stack@.drop_last() == bumped(pre.stack@)
        &&& post.stack@.last().node == pre.tree.nodes@.len()
        &&& post.stack@.last().pending@.len() == 0
        &&& post.stack@.last().next == 0
        &&& post.phase == Phase::Listing
        &&& action == (Action::List { node: pre.tree.nodes@.len() as usize })
    } else {
        resumes(post, action, bumped(pre.stack@))
    }
}

/// Whether a name is `.` or `..`.
pub fn is_dot(name: &Vec<u8>) -> (r: bool)
    ensures
        r == is_dot_entry(name@),
{
    let n: usize = name.len();
    if n == 1 {
        let r = name[0] == 46u8;
        assert(r ==> name@ =~= seq![46u8]);
        assert(!r ==> name@[0] != seq![46u8][0]);
        r
    } else if n == 2 {
        let r = name[0] == 46u8 && name[1] == 46u8;
        assert(r ==> name@ =~= seq![46u8, 46u8]);
        assert(!r ==> name@[0] != seq![46u8, 46u8][0] || name@[1] != seq![46u8, 46u8][1]);
        r
    } else {
        assert(seq![46u8].len() == 1);
        assert(seq![46u8, 46u8].len() == 2);
        false
    }
}

/// The names of a listing without `.` and `..`, in the same order.
pub fn real_names(names: &Vec<Vec<u8>>) -> (r: Vec<Vec<u8>>)
    ensures
        names_of(r@) == real_entries(names_of(names@)),
{
    let mut r: Vec<Vec<u8>> = Vec::new();
    let mut i: usize = 0;
    let ghost all = names_of(names@);
    assert(names_of(r@) =~= real_entries(all.take(0)));
    while i < names.len()
        invariant
            i <= names@.len(),
            all == names_of(names@),
            names_of(r@) == real_entries(all.take(i as int)),
        decreases names@.len() - i,
    {
        let ghost before = names_of(r@);
        assert(all.take(i + 1).drop_last() == all.take(i as int));
        assert(all.take(i + 1).last() == names@[i as int]@);
        if !is_dot(&names[i]) {
            r.push(copy_bytes(&names[i]));
            assert(names_of(r@) =~= before.push(names@[i as int]@));
        }
        i = i + 1;
    }
    assert(all.take(names@.len() as int) == all);
    r
}

/// Identities and parent links agree on the nodes of the shorter arena, so
/// the same nodes repeat an ancestor in both.
proof fn lemma_repeats_kept(a: Seq<DirEntry>, b: Seq<DirEntry>)
    requires
        a.len() <= b.len(),
        forall|j: int|
            0 <= j < a.len() ==> (#[trigger] a[j]).parent == b[j].parent && a[j].identity
                == b[j].identity,
    ensures
        forall|i: int| 0 <= i < a.len() ==> repeats_ancestor(a, i) == #[trigger] repeats_ancestor(b, i),
{
    assert forall|i: int| 0 <= i < a.len() implies repeats_ancestor(a, i)
        == #[trigger] repeats_ancestor(b, i) by {
        lemma_repeats_agrees(a, b, i);
    }
}

/// The parent of node `i` is a directory that is not its own ancestor.
pub open spec fn parent_enters(nodes: Seq<DirEntry>, i: int) -> bool {
    let p = nodes[i].parent->0 as int;
    nodes[p].is_dir && !nodes[p].loop_flag
}

/// Node `i` was attached below the node before it or below one of that
/// node's ancestors: the arena lists the tree depth first, each directory
/// with all that is below it before its next sibling.
pub open spec fn follows(nodes: Seq<DirEntry>, i: int) -> bool {
    on_path(nodes, nodes[i].parent->0 as int, i - 1)
}

/// The directory of frame `k` is a child of the directory of the frame
/// below it.
pub open spec fn linked(nodes: Seq<DirEntry>, stack: Seq<Frame>, k: int) -> bool {
    nodes[stack[k].node as int].parent == Some(stack[k - 1].node)
}

/// The tree is in depth-first order, and the directories in flight are the
/// path from the root to the one on top, which is the node attached last or
/// one of its ancestors.
pub open spec fn ordered(nodes: Seq<DirEntry>, stack: Seq<Frame>) -> bool {
    &&& forall|i: int| 1 <= i < nodes.len() ==> #[trigger] follows(nodes, i)
    &&& forall|k: int| 1 <= k < stack.len() ==> #[trigger] linked(nodes, stack, k)
    &&& stack.len() > 0 ==> stack[0].node == 0 && on_path(
        nodes,
        stack.last().node as int,
        nodes.len() - 1,
    )
}

/// The order holds of another arena with the same parent links, and of
/// another stack with the same directories.
pub proof fn lemma_ordered_kept(a: Seq<DirEntry>, s: Seq<Frame>, b: Seq<DirEntry>, t: Seq<Frame>)
    requires
        ordered(a, s),
        a.len() == b.len(),
        a.len() >= 1,
        forall|j: int| 0 <= j < a.len() ==> (#[trigger] a[j]).parent == b[j].parent,
        s.len() == t.len(),
        forall|k: int|
            0 <= k < s.len() ==> (#[trigger] s[k]).node == t[k].node && s[k].node < a.len(),
    ensures
        ordered(b, t),
{
    assert forall|i: int| 1 <= i < b.len() implies #[trigger] follows(b, i) by {
        assert(follows(a, i));
        lemma_lineage_agrees(a, b, i - 1);
    }
    assert forall|k: int| 1 <= k < t.len() implies #[trigger] linked(b, t, k) by {
        assert(linked(a, s, k));
        assert(a[s[k].node as int].parent == b[s[k].node as int].parent);
    }
    if s.len() > 0 {
        lemma_lineage_agrees(a, b, a.len() - 1);
    }
}

/// The order holds after the directory on top of the stack has left it.
pub proof fn lemma_ordered_pop(nodes: Seq<DirEntry>, s: Seq<Frame>)
    requires
        links_ok(nodes),
        ordered(nodes, s),
        s.len() > 0,
        forall|k: int| 0 <= k < s.len() ==> (#[trigger] s[k]).node < nodes.len(),
    ensures
        ordered(nodes, s.drop_last()),
{
    let t = s.drop_last();
    assert forall|k: int| 1 <= k < t.len() implies #[trigger] linked(nodes, t, k) by {
        assert(linked(nodes, s, k));
    }
    if t.len() > 0 {
        let top = s.last().node as int;
        assert(linked(nodes, s, s.len() - 1));
        assert(s[s.len() - 1].node < nodes.len());
        assert(nodes[top].parent is Some);
        assert(top >= 1);
        lemma_on_path_parent(nodes, top, nodes.len() - 1);
    }
}

/// The order holds after a node was attached below the directory on top of
/// the stack.
pub proof fn lemma_ordered_attach(a: Seq<DirEntry>, s: Seq<Frame>, b: Seq<DirEntry>)
    requires
        links_ok(b),
        ordered(a, s),
        s.len() > 0,
        a.len() >= 1,
        b.len() == a.len() + 1,
        forall|j: int| 0 <= j < a.len() ==> (#[trigger] a[j]).parent == b[j].parent,
        forall|k: int| 0 <= k < s.len() ==> (#[trigger] s[k]).node < a.len(),
        b.last().parent == Some(s.last().node),
    ensures
        ordered(b, s),
{
    let c = a.len() as int;
    assert(s[s.len() - 1].node < a.len());
    assert forall|i: int| 1 <= i < b.len() implies #[trigger] follows(b, i) by {
        if i < c {
            assert(follows(a, i));
        }
        lemma_lineage_agrees(a, b, i - 1);
    }
    assert forall|k: int| 1 <= k < s.len() implies #[trigger] linked(b, s, k) by {
        assert(linked(a, s, k));
        assert(a[s[k].node as int].parent == b[s[k].node as int].parent);
    }
    lemma_on_path_self(b, s.last().node as int);
    lemma_on_path_child(b, s.last().node as int, c);
}

/// The order holds after the node attached last, a child of the directory
/// on top of the stack, was entered.
proof fn lemma_ordered_enter(nodes: Seq<DirEntry>, s: Seq<Frame>, enter: Frame)
    requires
        ordered(nodes, s),
        s.len() > 0,
        nodes.len() >= 1,
        nodes.last().parent == Some(s.last().node),
        enter.node == nodes.len() - 1,
    ensures
        ordered(nodes, s.push(enter)),
{
    let t = s.push(enter);
    assert forall|k: int| 1 <= k < t.len() implies #[trigger] linked(nodes, t, k) by {
        if k < s.len() {
            assert(linked(nodes, s, k));
            assert(t[k] == s[k] && t[k - 1] == s[k - 1]);
        } else {
            assert(t[k] == enter && t[k - 1] == s.last());
        }
    }
    assert(t[0] == s[0]);
    lemma_on_path_self(nodes, nodes.len() - 1);
}

impl Walker {
    /// The tree is sound: only directories that are not their own ancestor
    /// have children, and the flags say what they are meant to say.
    pub open spec fn tree_ok(&self) -> bool {
        let nodes = self.tree.nodes@;
        &&& self.config.valid()
        &&& links_ok(nodes)
        &&& nodes[0].is_dir
        &&& forall|i: int| 1 <= i < nodes.len() ==> #[trigger] parent_enters(nodes, i)
        &&& forall|i: int|
            0 <= i < nodes.len() ==> (#[trigger] nodes[i]).loop_flag == (nodes[i].is_dir
                && repeats_ancestor(nodes, i))
        &&& forall|i: int|
            0 <= i < nodes.len() && (#[trigger] nodes[i]).cycle_flag ==> nodes[i].is_dir
                && !nodes[i].loop_flag
    }

    /// Every directory in flight is a directory of the tree that is not its
    /// own ancestor.
    pub open spec fn frames_ok(&self) -> bool {
        let nodes = self.tree.nodes@;
        forall|k: int|
            0 <= k < self.stack@.len() ==> {
                let f = #[trigger] self.stack@[k];
                &&& f.node < nodes.len()
                &&& nodes[f.node as int].is_dir
                &&& !nodes[f.node as int].loop_flag
                &&& f.next <= f.pending@.len()
            }
    }

    /// The state is one that a walk can be in.
    pub open spec fn wf(&self) -> bool {
        &&& self.tree_ok()
        &&& self.frames_ok()
        &&& ordered(self.tree.nodes@, self.stack@)
        &&& self.phase == Phase::Root ==> self.tree.nodes@.len() == 1 && self.stack@.len() == 0
        &&& self.phase == Phase::Listing ==> self.stack@.len() > 0 && self.stack@.last().next == 0
            && self.stack@.last().pending@.len() == 0
        &&& self.phase == Phase::Stat || self.phase == Phase::Target ==> self.stack@.len() > 0
            && self.stack@.last().next < self.stack@.last().pending@.len()
        &&& self.phase == Phase::Done ==> self.stack@.len() == 0
    }

    /// A walk of the tree below `root`, and its first request: the identity
    /// of the root. A policy that is not valid is refused, and nothing is
    /// requested.
    pub fn new(root: Vec<u8>, config: Config) -> (r: Result<(Walker, Action), ConfigError>)
        ensures
            r is Ok <==> config.valid(),
            r is Err ==> r->Err_0 == ConfigError::RelaxedLoopNeedsFollow,
            r is Ok ==> {
                let (w, action) = r->Ok_0;
                &&& w.wf()
                &&& w.config == config
                &&& w.phase == Phase::Root
                &&& w.stack@.len() == 0
                &&& w.tree.nodes@.len() == 1
                &&& w.tree.nodes@[0].name == root
                &&& w.tree.nodes@[0].parent is None
                &&& w.tree.nodes@[0].is_dir
                &&& !w.tree.nodes@[0].loop_flag
                &&& !w.tree.nodes@[0].cycle_flag
                &&& action == (Action::Examine { node: 0 })
            },
    {
        if !config.is_valid() {
            return Err(ConfigError::RelaxedLoopNeedsFollow);
        }
        let tree = Tree::new(root);
        proof {
            lemma_root_repeats_nothing(tree.nodes@);
        }
        let w = Walker { config, tree, stack: Vec::new(), phase: Phase::Root };
        Ok((w, Action::Examine { node: 0 }))
    }

    /// The components through which a handle on `node` is opened, from the
    /// root down, each relative to the one before it, with the mode of each.
    pub fn open_steps(&self, node: usize) -> (r: Vec<OpenStep>)
        requires
            self.tree.wf(),
            node < self.tree.nodes@.len(),
        ensures
            r@.len() == lineage(self.tree.nodes@, node as int).len(),
            forall|k: int|
                0 <= k < r@.len() ==> {
                    &&& (#[trigger] r@[k]).node as int == lineage(self.tree.nodes@, node as int)[r@.len()
                        - 1 - k]
                    &&& r@[k].mode.read_only
                    &&& r@[k].mode.directory_only
                    &&& r@[k].mode.no_follow == (k == 0 || !self.config.follow_symlinks)
                },
            r@[0].node == 0,
            r@[r@.len() - 1].node == node,
    {
        let path = self.tree.path_to(node);
        let mut r: Vec<OpenStep> = Vec::new();
        let mut i: usize = 0;
        while i < path.len()
            invariant
                i <= path@.len(),
                r@.len() == i,
                forall|k: int|
                    0 <= k < i ==> {
                        &&& (#[trigger] r@[k]).node == path@[k]
                        &&& r@[k].mode.read_only
                        &&& r@[k].mode.directory_only
                        &&& r@[k].mode.no_follow == (k == 0 || !self.config.follow_symlinks)
                    },
            decreases path@.len() - i,
        {
            r.push(OpenStep { node: path[i], mode: self.config.open_mode(i == 0) });
            i = i + 1;
        }
        r
    }
}

/// One more entry of the directory on top of the stack was dealt with.
fn bump(w: &mut Walker)
    requires
        old(w).tree_ok(),
        old(w).frames_ok(),
        ordered(old(w).tree.nodes@, old(w).stack@),
        old(w).stack@.len() > 0,
        old(w).stack@.last().next < old(w).stack@.last().pending@.len(),
    ensures
        final(w).tree_ok(),
        final(w).frames_ok(),
        ordered(final(w).tree.nodes@, final(w).stack@),
        final(w).tree == old(w).tree,
        final(w).config == old(w).config,
        final(w).phase == old(w).phase,
        final(w).stack@ == bumped(old(w).stack@),
{
    let top = w.stack.pop().unwrap();
    let limit: usize = top.pending.len();
    assert(top.next < limit);
    w.stack.push(Frame { node: top.node, pending: top.pending, next: top.next + 1 });
    proof {
        lemma_ordered_kept(old(w).tree.nodes@, old(w).stack@, w.tree.nodes@, w.stack@);
    }
}

/// Finished directories leave the stack; the next pending entry of the one
/// on top is examined, or the walk is over.
fn resume(w: &mut Walker) -> (action: Action)
    requires
        old(w).tree_ok(),
        old(w).frames_ok(),
        ordered(old(w).tree.nodes@, old(w).stack@),
    ensures
        final(w).wf(),
        final(w).tree == old(w).tree,
        final(w).config == old(w).config,
        resumes(*final(w), action, old(w).stack@),
{
    loop
        invariant
            w.tree_ok(),
            w.frames_ok(),
            ordered(w.tree.nodes@, w.stack@),
            w.tree == old(w).tree,
            w.config == old(w).config,
            settled(w.stack@) == settled(old(w).stack@),
        decreases w.stack@.len(),
    {
        let n: usize = w.stack.len();
        if n == 0 {
            w.phase = Phase::Done;
            return Action::Finish;
        }
        let next: usize = w.stack[n - 1].next;
        if next < w.stack[n - 1].pending.len() {
            let dir: usize = w.stack[n - 1].node;
            let name = copy_bytes(&w.stack[n - 1].pending[next]);
            w.phase = Phase::Stat;
            return Action::Stat { dir, name, follow: false };
        }
        proof {
            lemma_ordered_pop(w.tree.nodes@, w.stack@);
        }
        w.stack.pop();
    }
}

/// Nothing can be done with the answer: a finished walk stays finished, any
/// other is given up.
fn stall(w: &mut Walker) -> (action: Action)
    requires
        old(w).wf(),
    ensures
        final(w).wf(),
        final(w).tree == old(w).tree,
        final(w).config == old(w).config,
        final(w).stack == old(w).stack,
        old(w).phase == Phase::Done ==> final(w).phase == Phase::Done && action is Finish,
        old(w).phase != Phase::Done ==> final(w).phase == Phase::Failed && action is Abort,
{
    if w.phase == Phase::Done {
        Action::Finish
    } else {
        w.phase = Phase::Failed;
        Action::Abort
    }
}

/// The entry that was examined becomes the last child of the directory on
/// top of the stack.
fn attach(w: &mut Walker, is_dir: bool, identity: Identity) -> (action: Action)
    requires
        old(w).wf(),
        old(w).phase == Phase::Stat || old(w).phase == Phase::Target,
    ensures
        final(w).wf(),
        final(w).config == old(w).config,
        grows(*old(w), *final(w), action, is_dir, identity),
{
    let n: usize = w.stack.len();
    let dir: usize = w.stack[n - 1].node;
    let name = copy_bytes(&w.stack[n - 1].pending[w.stack[n - 1].next]);
    let mut child = DirEntry::new(name, Some(dir));
    child.is_dir = is_dir;
    child.identity = identity;
    let index: usize = w.tree.nodes.len();
    let ghost before = w.tree.nodes@;
    w.tree.nodes.push(child);
    let ghost pushed = w.tree.nodes@;
    let looped = is_dir && w.tree.repeats_ancestor(index);
    if looped {
        w.tree.nodes[index].loop_flag = true;
    }
    proof {
        let nodes = w.tree.nodes@;
        assert(nodes.drop_last() =~= before);
        lemma_repeats_kept(before, nodes);
        lemma_repeats_agrees(pushed, nodes, index as int);
        assert forall|i: int| 1 <= i < nodes.len() implies #[trigger] parent_enters(nodes, i) by {
            if i < before.len() {
                assert(parent_enters(before, i));
            }
        }
        lemma_ordered_attach(before, w.stack@, nodes);
    }
    bump(w);
    if is_dir && !looped {
        let ghost below = w.stack@;
        w.stack.push(Frame { node: index, pending: Vec::new(), next: 0 });
        w.phase = Phase::Listing;
        assert(w.stack@.drop_last() =~= bumped(old(w).stack@));
        proof {
            lemma_ordered_enter(w.tree.nodes@, below, w.stack@.last());
        }
        Action::List { node: index }
    } else {
        resume(w)
    }
}

/// Takes the answer to the last request, updates the tree, and says what
/// to ask for next.
pub fn walk(w: &mut Walker, event: Event) -> (action: Action)
    requires
        old(w).wf(),
    ensures
        final(w).wf(),
        steps(*old(w), event, *final(w), action),
{
    let phase = w.phase;
    match event {
        Event::Identity(identity) => {
            if phase == Phase::Root {
                proof {
                    lemma_root_repeats_nothing(w.tree.nodes@);
                }
                w.tree.nodes[0].identity = identity;
                w.stack.push(Frame { node: 0, pending: Vec::new(), next: 0 });
                w.phase = Phase::Listing;
                proof {
                    lemma_root_repeats_nothing(w.tree.nodes@);
                    lemma_on_path_self(w.tree.nodes@, 0);
                }
                Action::List { node: 0 }
            } else {
                stall(w)
            }
        },
        Event::Entries(names) => {
            if phase == Phase::Listing {
                let kept = real_names(&names);
                let top = w.stack.pop().unwrap();
                w.stack.push(Frame { node: top.node, pending: kept, next: 0 });
                assert(w.stack@.drop_last() =~= old(w).stack@.drop_last());
                proof {
                    lemma_ordered_kept(old(w).tree.nodes@, old(w).stack@, w.tree.nodes@, w.stack@);
                }
                resume(w)
            } else {
                stall(w)
            }
        },
        Event::Found { is_dir, identity } => {
            if phase == Phase::Stat && is_dir && w.config.follow_symlinks {
                let n: usize = w.stack.len();
                let dir: usize = w.stack[n - 1].node;
                let name = copy_bytes(&w.stack[n - 1].pending[w.stack[n - 1].next]);
                w.phase = Phase::Target;
                Action::Stat { dir, name, follow: true }
            } else if phase == Phase::Stat {
                attach(w, is_dir, identity)
            } else if phase == Phase::Target {
                attach(w, true, identity)
            } else {
                stall(w)
            }
        },
        Event::Vanished => {
            if phase == Phase::Stat || phase == Phase::Target {
                bump(w);
                resume(w)
            } else {
                stall(w)
            }
        },
        Event::TooManyLinks => {
            if phase == Phase::Stat || phase == Phase::Target {
                let n: usize = w.stack.len();
                let dir: usize = w.stack[n - 1].node;
                let ghost before = w.tree.nodes@;
                w.tree.nodes[dir].cycle_flag = true;
                proof {
                    lemma_repeats_kept(before, w.tree.nodes@);
                    assert forall|i: int| 1 <= i < before.len() implies #[trigger] parent_enters(
                        w.tree.nodes@,
                        i,
                    ) by {
                        assert(parent_enters(before, i));
                    }
                    lemma_ordered_kept(before, w.stack@, w.tree.nodes@, w.stack@);
                    assert(w.tree.nodes@ =~= before.update(
                        dir as int,
                        DirEntry { cycle_flag: true, ..before[dir as int] },
                    ));
                }
                bump(w);
                resume(w)
            } else {
                stall(w)
            }
        },
        Event::Failed => stall(w),
    }
}

} // verus!
