use vstd::prelude::*;
use crate::entry::{
    children, lemma_children_grow, lemma_children_members, lemma_lineage_shape,
    lemma_lineage_suffix, lineage, repeats_ancestor, Identity,
};
use crate::walker::{
    attached, bumped, follows, grows, parent_enters, resumes, steps, Action, Event, Phase, Walker,
};

verus! {

/// In every state of a walk, a node carries the loop flag exactly when it is
/// a directory whose identity is that of one of its ancestors, and such a
/// node has no children.
pub proof fn law_loop_flag(w: Walker, node: usize)
    requires
        w.wf(),
        node < w.tree.nodes@.len(),
    ensures
        w.tree.nodes@[node as int].loop_flag == (w.tree.nodes@[node as int].is_dir
            && repeats_ancestor(w.tree.nodes@, node as int)),
        w.tree.nodes@[node as int].loop_flag ==> children(w.tree.nodes@, node as int).len() == 0,
{
    let i = node as int;
    let nodes = w.tree.nodes@;
    lemma_children_members(nodes, i);
    if nodes[i].loop_flag && children(nodes, i).len() > 0 {
        let j = children(nodes, i)[0];
        assert(nodes[j].parent == Some(node));
        assert(parent_enters(nodes, j));
    }
}

/// In every state of a walk, only directories have children.
pub proof fn law_leaves(w: Walker, node: usize)
    requires
        w.wf(),
        node < w.tree.nodes@.len(),
        !w.tree.nodes@[node as int].is_dir,
    ensures
        children(w.tree.nodes@, node as int).len() == 0,
{
    let i = node as int;
    let nodes = w.tree.nodes@;
    lemma_children_members(nodes, i);
    if children(nodes, i).len() > 0 {
        let j = children(nodes, i)[0];
        assert(nodes[j].parent == Some(node));
        assert(parent_enters(nodes, j));
    }
}

/// In every state of a walk, no two ancestors of a node have the same
/// identity: a directory is only entered when it repeats none of its own
/// ancestors, so a path in the tree is never longer than there are
/// directories to tell apart.
pub proof fn law_distinct_ancestors(w: Walker, node: usize, j: int, k: int)
    requires
        w.wf(),
        node < w.tree.nodes@.len(),
        1 <= j < k < lineage(w.tree.nodes@, node as int).len(),
    ensures
        w.tree.nodes@[lineage(w.tree.nodes@, node as int)[j]].identity
            != w.tree.nodes@[lineage(w.tree.nodes@, node as int)[k]].identity,
{
    let nodes = w.tree.nodes@;
    let line = lineage(nodes, node as int);
    let a = line[j];
    let c = line[j - 1];
    lemma_lineage_shape(nodes, node as int);
    lemma_lineage_suffix(nodes, node as int, j - 1);
    lemma_lineage_suffix(nodes, node as int, j);
    assert(lineage(nodes, c).len() >= 2);
    assert(lineage(nodes, c)[1] == a);
    let p = nodes[c].parent->0 as int;
    assert(lineage(nodes, c) == seq![c] + lineage(nodes, p));
    assert(lineage(nodes, p)[0] == p);
    assert(nodes[c].parent == Some(a as usize));
    assert(parent_enters(nodes, c));
    assert(!repeats_ancestor(nodes, a));
    reveal(repeats_ancestor);
    assert(lineage(nodes, a)[k - j] == line[k]);
}

/// In every state of a walk the arena lists the tree depth first: each node
/// but the root was attached below the node before it or below one of that
/// node's ancestors, so a directory and all that is below it come before its
/// next sibling.
pub proof fn law_depth_first(w: Walker, node: usize)
    requires
        w.wf(),
        1 <= node < w.tree.nodes@.len(),
    ensures
        follows(w.tree.nodes@, node as int),
{
}

/// A directory is listed once: the only request to list is for the root,
/// after its identity is known, or for the node that the step has just
/// attached.
pub proof fn law_listed_once(pre: Walker, event: Event, post: Walker, action: Action)
    requires
        pre.wf(),
        steps(pre, event, post, action),
        action is List,
    ensures
        action->List_node == post.tree.nodes@.len() - 1,
        pre.phase == Phase::Root || post.tree.nodes@.len() == pre.tree.nodes@.len() + 1,
        pre.phase == Phase::Root ==> post.tree.nodes@.len() == 1,
{
}

/// One step sets the cycle flag of a node exactly when the answer is that an
/// entry of that node met too many levels of symbolic links; it clears none,
/// and a node that the step attaches starts without it.
pub proof fn law_cycle_flag(pre: Walker, event: Event, post: Walker, action: Action, i: int)
    requires
        pre.wf(),
        steps(pre, event, post, action),
        0 <= i < post.tree.nodes@.len(),
    ensures
        pre.tree.nodes@.len() <= post.tree.nodes@.len() <= pre.tree.nodes@.len() + 1,
        i < pre.tree.nodes@.len() ==> post.tree.nodes@[i].cycle_flag == (pre.tree.nodes@[i].cycle_flag
            || (event is TooManyLinks && (pre.phase == Phase::Stat || pre.phase == Phase::Target)
            && pre.stack@.last().node == i)),
        i >= pre.tree.nodes@.len() ==> !post.tree.nodes@[i].cycle_flag,
{
    if i < pre.tree.nodes@.len() && post.tree.nodes@.len() == pre.tree.nodes@.len() + 1 {
        assert(post.tree.nodes@.drop_last()[i] == post.tree.nodes@[i]);
    }
}

/// An entry that is gone when it is examined leaves the tree as it was, and
/// the walk goes on with the entries after it.
pub proof fn law_vanished(pre: Walker, post: Walker, action: Action)
    requires
        pre.wf(),
        pre.phase == Phase::Stat || pre.phase == Phase::Target,
        steps(pre, Event::Vanished, post, action),
    ensures
        post.tree.nodes@ == pre.tree.nodes@,
        post.phase == Phase::Stat || post.phase == Phase::Done,
        !(action is Abort),
        resumes(post, action, bumped(pre.stack@)),
{
}

/// An entry that is found becomes the last child of the directory in which
/// it was listed, under its name and with the identity that was reported;
/// the children of every other node stay as they were.
pub proof fn law_found(
    pre: Walker,
    is_dir: bool,
    identity: Identity,
    post: Walker,
    action: Action,
    node: usize,
)
    requires
        pre.wf(),
        pre.phase == Phase::Target || (pre.phase == Phase::Stat && !(is_dir
            && pre.config.follow_symlinks)),
        steps(pre, Event::Found { is_dir, identity }, post, action),
        node < pre.tree.nodes@.len(),
    ensures
        post.tree.nodes@.len() == pre.tree.nodes@.len() + 1,
        post.tree.nodes@.last().name@ == pre.stack@.last().pending@[pre.stack@.last().next as int]@,
        post.tree.nodes@.last().identity == identity,
        children(post.tree.nodes@, node as int) == if node == pre.stack@.last().node {
            children(pre.tree.nodes@, node as int).push(pre.tree.nodes@.len() as int)
        } else {
            children(pre.tree.nodes@, node as int)
        },
        !(action is Abort),
{
    let kind = if pre.phase == Phase::Target {
        true
    } else {
        is_dir
    };
    assert(grows(pre, post, action, kind, identity));
    assert(attached(pre, post, kind, identity));
    let nodes = post.tree.nodes@;
    assert(nodes == pre.tree.nodes@.push(nodes.last()));
    lemma_children_grow(pre.tree.nodes@, nodes.last(), node as int);
}

/// A walk is given up only on an answer that is a failure or that does not
/// fit the request; a finished walk never is.
pub proof fn law_abort(pre: Walker, event: Event, post: Walker, action: Action)
    requires
        pre.wf(),
        steps(pre, event, post, action),
    ensures
        action is Abort <==> post.phase == Phase::Failed,
        action is Abort <==> pre.phase != Phase::Done && !({
            ||| pre.phase == Phase::Root && event is Identity
            ||| pre.phase == Phase::Listing && event is Entries
            ||| (pre.phase == Phase::Stat || pre.phase == Phase::Target) && (event is Found
                || event is Vanished || event is TooManyLinks)
        }),
{
}

/// The answer `events[k]` takes the walk from `states[k]` to
/// `states[k + 1]`, which asks for `actions[k]`.
pub open spec fn step_ok(
    states: Seq<Walker>,
    events: Seq<Event>,
    actions: Seq<Action>,
    k: int,
) -> bool {
    states[k + 1].wf() && steps(states[k], events[k], states[k + 1], actions[k])
}

/// A walk from its start: the states that it goes through, the answers that
/// take it from each to the next, and the requests that it makes.
pub open spec fn is_run(states: Seq<Walker>, events: Seq<Event>, actions: Seq<Action>) -> bool {
    &&& states.len() == events.len() + 1
    &&& actions.len() == events.len()
    &&& states[0].wf()
    &&& states[0].phase == Phase::Root
    &&& !states[0].tree.nodes@[0].cycle_flag
    &&& forall|k: int| 0 <= k < events.len() ==> #[trigger] step_ok(states, events, actions, k)
}

/// The answer `events[k]` says that an entry of the directory `node` met too
/// many levels of symbolic links.
pub open spec fn hits_link_limit(
    states: Seq<Walker>,
    events: Seq<Event>,
    k: int,
    node: usize,
) -> bool {
    &&& events[k] is TooManyLinks
    &&& states[k].phase == Phase::Stat || states[k].phase == Phase::Target
    &&& states[k].stack@.last().node == node
}

/// Along a walk every state is sound and the tree never shrinks.
pub proof fn lemma_run_grows(
    states: Seq<Walker>,
    events: Seq<Event>,
    actions: Seq<Action>,
    k: int,
)
    requires
        is_run(states, events, actions),
        0 <= k <= events.len(),
    ensures
        states[k].wf(),
        states[k].tree.nodes@.len() <= states.last().tree.nodes@.len(),
    decreases events.len() - k,
{
    if k > 0 {
        assert(step_ok(states, events, actions, k - 1));
    }
    if k < events.len() {
        assert(step_ok(states, events, actions, k));
        lemma_run_grows(states, events, actions, k + 1);
        assert(states[k + 1].tree.nodes@.len() >= 1);
        law_cycle_flag(states[k], events[k], states[k + 1], actions[k], 0);
    }
}

/// At the end of any walk from its start, a node carries the cycle flag
/// exactly when at least one answer said that an entry of that node met too
/// many levels of symbolic links, whatever became of its other entries.
pub proof fn law_cycle_flag_history(
    states: Seq<Walker>,
    events: Seq<Event>,
    actions: Seq<Action>,
    node: usize,
)
    requires
        is_run(states, events, actions),
        node < states.last().tree.nodes@.len(),
    ensures
        states.last().tree.nodes@[node as int].cycle_flag <==> exists|k: int|
            0 <= k < events.len() && #[trigger] hits_link_limit(states, events, k, node),
    decreases events.len(),
{
    let n = events.len() as int;
    if n > 0 {
        let pre = states[n - 1];
        let post = states[n];
        let s0 = states.drop_last();
        let e0 = events.drop_last();
        let a0 = actions.drop_last();
        assert(step_ok(states, events, actions, n - 1));
        assert forall|k: int| 0 <= k < e0.len() implies #[trigger] step_ok(s0, e0, a0, k) by {
            assert(step_ok(states, events, actions, k));
        }
        assert(is_run(s0, e0, a0));
        lemma_run_grows(s0, e0, a0, n - 1);
        law_cycle_flag(pre, events[n - 1], post, actions[n - 1], node as int);
        if node < pre.tree.nodes@.len() {
            law_cycle_flag_history(s0, e0, a0, node);
            if exists|k: int| 0 <= k < e0.len() && #[trigger] hits_link_limit(s0, e0, k, node) {
                let k = choose|k: int| 0 <= k < e0.len() && #[trigger] hits_link_limit(s0, e0, k, node);
                assert(hits_link_limit(states, events, k, node));
            }
            if hits_link_limit(states, events, n - 1, node) {
            }
            if exists|k: int| 0 <= k < n && #[trigger] hits_link_limit(states, events, k, node) {
                let k = choose|k: int| 0 <= k < n && #[trigger] hits_link_limit(states, events, k, node);
                if k < n - 1 {
                    assert(hits_link_limit(s0, e0, k, node));
                }
            }
        } else {
            assert forall|k: int| 0 <= k < n implies !#[trigger] hits_link_limit(
                states,
                events,
                k,
                node,
            ) by {
                lemma_run_grows(s0, e0, a0, k);
                if hits_link_limit(states, events, k, node) {
                    assert(s0[k].frames_ok());
                    assert(s0[k].stack@[s0[k].stack@.len() - 1].node < s0[k].tree.nodes@.len());
                }
            }
        }
    }
}

/// One step leaves the name, the parent, the kind and the loop flag of every
/// node as they were, and its identity too, but for the root when its
/// identity is first reported.
pub proof fn law_nodes_stable(pre: Walker, event: Event, post: Walker, action: Action, node: usize)
    requires
        pre.wf(),
        steps(pre, event, post, action),
        node < pre.tree.nodes@.len(),
    ensures
        node < post.tree.nodes@.len(),
        post.tree.nodes@[node as int].name == pre.tree.nodes@[node as int].name,
        post.tree.nodes@[node as int].parent == pre.tree.nodes@[node as int].parent,
        post.tree.nodes@[node as int].is_dir == pre.tree.nodes@[node as int].is_dir,
        post.tree.nodes@[node as int].loop_flag == pre.tree.nodes@[node as int].loop_flag,
        !(pre.phase == Phase::Root && event is Identity) ==> post.tree.nodes@[node as int].identity
            == pre.tree.nodes@[node as int].identity,
{
    if post.tree.nodes@.len() == pre.tree.nodes@.len() + 1 {
        assert(post.tree.nodes@.drop_last()[node as int] == post.tree.nodes@[node as int]);
    }
}

/// The answer `events[k]` found the entry that became `node`, as it stands
/// in the tree `last` at the end: under the directory that was being
/// examined, with the entry's name and the identity that was reported.
pub open spec fn found_at(
    states: Seq<Walker>,
    events: Seq<Event>,
    k: int,
    node: usize,
    last: Walker,
) -> bool {
    let top = states[k].stack@.last();
    let entry = last.tree.nodes@[node as int];
    &&& events[k] is Found
    &&& states[k].phase == Phase::Stat || states[k].phase == Phase::Target
    &&& states[k].tree.nodes@.len() == node
    &&& entry.parent == Some(top.node)
    &&& entry.name@ == top.pending@[top.next as int]@
    &&& entry.identity == events[k]->Found_identity
}

/// At the end of any walk from its start, every node but the root stems
/// from an answer that found an entry: nothing that vanished, met too many
/// levels of symbolic links or failed is in the tree.
pub proof fn law_node_origin(
    states: Seq<Walker>,
    events: Seq<Event>,
    actions: Seq<Action>,
    node: usize,
)
    requires
        is_run(states, events, actions),
        1 <= node < states.last().tree.nodes@.len(),
    ensures
        exists|k: int|
            0 <= k < events.len() && #[trigger] found_at(states, events, k, node, states.last()),
    decreases events.len(),
{
    let n = events.len() as int;
    if n > 0 {
        let pre = states[n - 1];
        let post = states[n];
        let s0 = states.drop_last();
        let e0 = events.drop_last();
        let a0 = actions.drop_last();
        assert(step_ok(states, events, actions, n - 1));
        assert forall|k: int| 0 <= k < e0.len() implies #[trigger] step_ok(s0, e0, a0, k) by {
            assert(step_ok(states, events, actions, k));
        }
        assert(is_run(s0, e0, a0));
        lemma_run_grows(s0, e0, a0, n - 1);
        if node < pre.tree.nodes@.len() {
            law_node_origin(s0, e0, a0, node);
            let k = choose|k: int| 0 <= k < e0.len() && #[trigger] found_at(s0, e0, k, node, pre);
            law_nodes_stable(pre, events[n - 1], post, actions[n - 1], node);
            assert(found_at(states, events, k, node, post));
        } else {
            law_cycle_flag(pre, events[n - 1], post, actions[n - 1], node as int);
            assert(found_at(states, events, n - 1, node, post));
        }
    }
}

} // verus!
