use vstd::prelude::*;
use crate::entry::{
    children, lemma_children_grow, lemma_children_members, links_ok, DirEntry, Identity,
};
use crate::laws::{is_run, lemma_run_grows, step_ok};
use crate::walker::{
    attached, bumped, grows, lemma_ordered_attach, lemma_ordered_kept, lemma_ordered_pop, linked,
    names_of, ordered, real_entries, settled, steps, Action, Event, Frame, Phase, Walker,
};

verus! {

/// The names of the children of node `i`, in the order in which they were
/// attached.
pub open spec fn child_names(nodes: Seq<DirEntry>, i: int) -> Seq<Seq<u8>> {
    Seq::new(children(nodes, i).len(), |k: int| nodes[children(nodes, i)[k]].name@)
}

/// The children of the directory of `frame` are, by name and in order, the
/// entries of its listing that were dealt with.
pub open spec fn frame_mirrors(nodes: Seq<DirEntry>, frame: Frame) -> bool {
    child_names(nodes, frame.node as int) == names_of(frame.pending@).take(frame.next as int)
}

/// Every directory in flight mirrors its listing as far as it was dealt
/// with.
pub open spec fn mirrors(nodes: Seq<DirEntry>, stack: Seq<Frame>) -> bool {
    forall|k: int| 0 <= k < stack.len() ==> #[trigger] frame_mirrors(nodes, stack[k])
}

/// Whether the directory `node` is in flight.
pub open spec fn in_flight(stack: Seq<Frame>, node: usize) -> bool {
    exists|k: int| 0 <= k < stack.len() && (#[trigger] stack[k]).node == node
}

/// A settled stack is the lower part of the stack that it was settled from,
/// and the directories that left had no entry left.
pub proof fn lemma_settled_prefix(s: Seq<Frame>)
    ensures
        settled(s).len() <= s.len(),
        forall|k: int| 0 <= k < settled(s).len() ==> #[trigger] settled(s)[k] == s[k],
        forall|k: int|
            settled(s).len() <= k < s.len() ==> (#[trigger] s[k]).next >= s[k].pending@.len(),
    decreases s.len(),
{
    if s.len() > 0 && !(s.last().next < s.last().pending@.len()) {
        let front = s.drop_last();
        lemma_settled_prefix(front);
        assert forall|k: int| settled(s).len() <= k < s.len() implies (#[trigger] s[k]).next
            >= s[k].pending@.len() by {
            if k < s.len() - 1 {
                assert(s[k] == front[k]);
            }
        }
    }
}

/// The children of a node depend only on the parent links.
pub proof fn lemma_children_agree(a: Seq<DirEntry>, b: Seq<DirEntry>, i: int)
    requires
        a.len() == b.len(),
        forall|j: int| 0 <= j < a.len() ==> (#[trigger] a[j]).parent == b[j].parent,
    ensures
        children(a, i) == children(b, i),
    decreases a.len(),
{
    if a.len() > 0 {
        assert(a.last().parent == b.last().parent);
        lemma_children_agree(a.drop_last(), b.drop_last(), i);
    }
}

/// The node attached last has no children.
pub proof fn lemma_last_is_leaf(nodes: Seq<DirEntry>)
    requires
        links_ok(nodes),
        nodes.len() - 1 <= usize::MAX,
    ensures
        children(nodes, nodes.len() - 1).len() == 0,
{
    let i = nodes.len() - 1;
    lemma_children_members(nodes, i);
    if children(nodes, i).len() > 0 {
        let j = children(nodes, i)[0];
        assert(nodes[j].parent == Some(i as usize));
    }
}

/// The directories in flight come in rising order of their nodes.
pub proof fn lemma_stack_rises(nodes: Seq<DirEntry>, s: Seq<Frame>, k: int, m: int)
    requires
        links_ok(nodes),
        ordered(nodes, s),
        forall|j: int| 0 <= j < s.len() ==> (#[trigger] s[j]).node < nodes.len(),
        0 <= k < m < s.len(),
    ensures
        s[k].node < s[m].node,
    decreases m - k,
{
    assert(linked(nodes, s, m));
    assert(s[m].node < nodes.len());
    assert(nodes[s[m].node as int].parent is Some);
    assert(s[m].node >= 1);
    if k < m - 1 {
        lemma_stack_rises(nodes, s, k, m - 1);
    }
}

/// After an entry was attached below the directory on top of the stack,
/// and counted as dealt with, every directory in flight mirrors its listing
/// as before.
pub proof fn lemma_mirror_attach(pre: Walker, post: Walker, is_dir: bool, identity: Identity)
    requires
        pre.wf(),
        pre.phase == Phase::Stat || pre.phase == Phase::Target,
        mirrors(pre.tree.nodes@, pre.stack@),
        attached(pre, post, is_dir, identity),
    ensures
        mirrors(post.tree.nodes@, bumped(pre.stack@)),
{
    let a = pre.tree.nodes@;
    let b = post.tree.nodes@;
    let s = pre.stack@;
    let top = s.last();
    let child = b.last();
    let up = bumped(s);
    assert(s.len() > 0);
    assert(up.len() == s.len());
    assert(b == a.push(child));
    assert forall|k: int| 0 <= k < up.len() implies #[trigger] frame_mirrors(b, up[k]) by {
        let x = up[k].node;
        assert(s[k].node < a.len());
        lemma_children_grow(a, child, x as int);
        lemma_children_members(a, x as int);
        assert(frame_mirrors(a, s[k]));
        if k < s.len() - 1 {
            lemma_stack_rises(a, s, k, s.len() - 1);
            assert(up[k] == s[k]);
            assert(child_names(b, x as int) =~= child_names(a, x as int));
        } else {
            assert(top.pending.len() == top.pending@.len());
            assert(up[k].next == top.next + 1);
            assert(up[k].pending == top.pending);
            assert(x == top.node);
            assert(child_names(b, x as int) =~= child_names(a, x as int).push(child.name@));
            assert(names_of(top.pending@).take(top.next + 1) =~= names_of(top.pending@).take(
                top.next as int,
            ).push(top.pending@[top.next as int]@));
        }
    }
}

/// Whether a step with this answer attaches a node.
pub open spec fn attaches(pre: Walker, event: Event) -> bool {
    event is Found && (pre.phase == Phase::Target || (pre.phase == Phase::Stat && !(
    event->Found_is_dir && pre.config.follow_symlinks)))
}

/// Whether the node that a step with this answer attaches is a directory.
pub open spec fn attaches_dir(pre: Walker, event: Event) -> bool {
    pre.phase == Phase::Target || event->Found_is_dir
}

/// One step of a walk keeps every directory in flight a mirror of its
/// listing, unless the answer is that an entry vanished or met too many
/// levels of symbolic links: each entry that was listed and dealt with is a
/// child, under its name and in the order of the listing.
pub proof fn law_mirror_step(pre: Walker, event: Event, post: Walker, action: Action)
    requires
        pre.wf(),
        post.wf(),
        mirrors(pre.tree.nodes@, pre.stack@),
        steps(pre, event, post, action),
        !(event is Vanished),
        !(event is TooManyLinks),
    ensures
        mirrors(post.tree.nodes@, post.stack@),
{
    let a = pre.tree.nodes@;
    let b = post.tree.nodes@;
    let s = pre.stack@;
    let t = post.stack@;
    if attaches(pre, event) {
        let kind = attaches_dir(pre, event);
        assert(grows(pre, post, action, kind, event->Found_identity));
        let child = b.last();
        let up = bumped(s);
        lemma_mirror_attach(pre, post, kind, event->Found_identity);
        if kind && !child.loop_flag {
            lemma_last_is_leaf(b);
            assert forall|k: int| 0 <= k < t.len() implies #[trigger] frame_mirrors(b, t[k]) by {
                if k < t.len() - 1 {
                    assert(t[k] == t.drop_last()[k]);
                    assert(frame_mirrors(b, up[k]));
                } else {
                    assert(child_names(b, t[k].node as int) =~= names_of(t[k].pending@).take(0));
                }
            }
        } else {
            lemma_settled_prefix(up);
            assert forall|k: int| 0 <= k < t.len() implies #[trigger] frame_mirrors(b, t[k]) by {
                assert(frame_mirrors(b, up[k]));
            }
        }
    } else {
        assert(a.len() == b.len());
        assert forall|x: usize| child_names(b, x as int) == #[trigger] child_names(a, x as int) by {
            lemma_children_agree(a, b, x as int);
            lemma_children_members(a, x as int);
            assert(child_names(b, x as int) =~= child_names(a, x as int));
        }
        if pre.phase == Phase::Root && event is Identity {
            lemma_last_is_leaf(b);
            assert(child_names(b, 0) =~= names_of(t[0].pending@).take(0));
        } else if pre.phase == Phase::Listing && event is Entries {
            let top = s.last();
            assert(frame_mirrors(a, s[s.len() - 1]));
            lemma_settled_prefix(s.drop_last());
            assert forall|k: int| 0 <= k < t.len() implies #[trigger] frame_mirrors(b, t[k]) by {
                if k < s.len() - 1 {
                    assert(frame_mirrors(a, s[k]));
                    assert(t[k] == s[k]) by {
                        if t.len() == s.len() {
                            assert(t[k] == t.drop_last()[k]);
                            assert(s[k] == s.drop_last()[k]);
                        } else {
                            assert(s[k] == s.drop_last()[k]);
                        }
                    }
                } else {
                    assert(names_of(top.pending@).take(0) =~= names_of(t[k].pending@).take(0));
                }
            }
        } else {
            assert forall|k: int| 0 <= k < t.len() implies #[trigger] frame_mirrors(b, t[k]) by {
                assert(frame_mirrors(a, s[k]));
            }
        }
    }
}

/// Once a directory has left the stack it is never entered again, and its
/// children stay as they are.
pub proof fn law_closed_step(pre: Walker, event: Event, post: Walker, action: Action, node: usize)
    requires
        pre.wf(),
        steps(pre, event, post, action),
        pre.phase != Phase::Root,
        node < pre.tree.nodes@.len(),
        !in_flight(pre.stack@, node),
    ensures
        !in_flight(post.stack@, node),
        children(post.tree.nodes@, node as int) == children(pre.tree.nodes@, node as int),
        child_names(post.tree.nodes@, node as int) == child_names(pre.tree.nodes@, node as int),
{
    let a = pre.tree.nodes@;
    let b = post.tree.nodes@;
    let s = pre.stack@;
    let t = post.stack@;
    lemma_settled_prefix(s.drop_last());
    if s.len() > 0 {
        lemma_settled_prefix(bumped(s));
        assert(s[s.len() - 1].node != node);
    }
    if b.len() == a.len() {
        lemma_children_agree(a, b, node as int);
    } else {
        assert(b == a.push(b.last()));
        lemma_children_grow(a, b.last(), node as int);
    }
    lemma_children_members(a, node as int);
    assert(child_names(b, node as int) =~= child_names(a, node as int));
    if in_flight(t, node) {
        let k = choose|k: int| 0 <= k < t.len() && (#[trigger] t[k]).node == node;
        if k < s.len() {
            if t.len() == s.len() + 1 {
                assert(t[k] == t.drop_last()[k]);
            } else if t.len() == s.len() && pre.phase == Phase::Listing && k < s.len() - 1 {
                assert(t[k] == t.drop_last()[k]);
                assert(s[k] == s.drop_last()[k]);
            }
            assert(s[k].node == node);
        }
    }
}

/// The directory `node` is in flight with `listing` as its listing.
pub open spec fn holds_listing(stack: Seq<Frame>, node: usize, listing: Seq<Seq<u8>>) -> bool {
    exists|p: int|
        0 <= p < stack.len() && (#[trigger] stack[p]).node == node && names_of(stack[p].pending@)
            == listing
}

/// The directory `node` is on its way to mirror `listing`: while it is in
/// flight, `listing` is what it works through; once it has left the stack,
/// its children are, by name and in order, the entries of `listing`.
pub open spec fn tracks(w: Walker, node: usize, listing: Seq<Seq<u8>>) -> bool {
    if in_flight(w.stack@, node) {
        listing.len() > 0 && holds_listing(w.stack@, node, listing)
    } else {
        child_names(w.tree.nodes@, node as int) == listing
    }
}

/// No answer says that an entry vanished or met too many levels of symbolic
/// links.
pub open spec fn no_skips(events: Seq<Event>) -> bool {
    forall|j: int|
        0 <= j < events.len() ==> !((#[trigger] events[j]) is Vanished) && !(events[j] is TooManyLinks)
}

/// A directory in flight that was the last to keep its entries has left a
/// settled stack with all of them as its children.
proof fn lemma_tracks_settle(
    nodes: Seq<DirEntry>,
    u: Seq<Frame>,
    p: int,
    node: usize,
    listing: Seq<Seq<u8>>,
)
    requires
        links_ok(nodes),
        ordered(nodes, u),
        mirrors(nodes, u),
        forall|j: int|
            0 <= j < u.len() ==> (#[trigger] u[j]).node < nodes.len() && u[j].next
                <= u[j].pending@.len(),
        0 <= p < u.len(),
        u[p].node == node,
        names_of(u[p].pending@) == listing,
        listing.len() > 0,
    ensures
        in_flight(settled(u), node) ==> holds_listing(settled(u), node, listing),
        !in_flight(settled(u), node) ==> child_names(nodes, node as int) == listing,
{
    let t = settled(u);
    lemma_settled_prefix(u);
    if p < t.len() {
        assert(t[p] == u[p]);
    } else {
        assert(frame_mirrors(nodes, u[p]));
        assert(u[p].next == u[p].pending@.len());
        assert(listing.take(listing.len() as int) == listing);
        if in_flight(t, node) {
            let k = choose|k: int| 0 <= k < t.len() && (#[trigger] t[k]).node == node;
            assert(t[k] == u[k]);
            lemma_stack_rises(nodes, u, k, p);
        }
    }
}

/// One step of a walk keeps a directory on its way to mirror its listing,
/// unless the answer is that an entry vanished or met too many levels of
/// symbolic links.
pub proof fn lemma_tracks_step(
    pre: Walker,
    event: Event,
    post: Walker,
    action: Action,
    node: usize,
    listing: Seq<Seq<u8>>,
)
    requires
        pre.wf(),
        post.wf(),
        mirrors(pre.tree.nodes@, pre.stack@),
        steps(pre, event, post, action),
        !(event is Vanished),
        !(event is TooManyLinks),
        pre.phase != Phase::Root,
        node < pre.tree.nodes@.len(),
        tracks(pre, node, listing),
    ensures
        tracks(post, node, listing),
{
    let a = pre.tree.nodes@;
    let b = post.tree.nodes@;
    let s = pre.stack@;
    let t = post.stack@;
    if !in_flight(s, node) {
        law_closed_step(pre, event, post, action, node);
    } else {
        let p = choose|p: int|
            0 <= p < s.len() && (#[trigger] s[p]).node == node && names_of(s[p].pending@) == listing;
        assert(s[p].pending@.len() > 0);
        if attaches(pre, event) {
            let kind = attaches_dir(pre, event);
            assert(grows(pre, post, action, kind, event->Found_identity));
            let up = bumped(s);
            lemma_mirror_attach(pre, post, kind, event->Found_identity);
            assert(up.len() == s.len());
            assert(up[p].node == node && up[p].pending == s[p].pending);
            assert(s[s.len() - 1].pending.len() == s[s.len() - 1].pending@.len());
            assert(b == a.push(b.last()));
            if kind && !b.last().loop_flag {
                assert(t[p] == t.drop_last()[p]);
                assert(t[p].node == node);
            } else {
                assert forall|j: int| 0 <= j < up.len() implies (#[trigger] up[j]).node < b.len()
                    && up[j].next <= up[j].pending@.len() by {
                    assert(s[j].node < a.len());
                }
                lemma_ordered_attach(a, s, b);
                assert(ordered(b, up)) by {
                    lemma_ordered_kept(b, s, b, up);
                }
                lemma_tracks_settle(b, up, p, node, listing);
            }
        } else if pre.phase == Phase::Listing && event is Entries {
            let u = s.drop_last();
            assert(p < s.len() - 1);
            assert(u[p] == s[p]);
            if real_entries(names_of(event->Entries_0@)).len() > 0 {
                assert(t[p] == t.drop_last()[p]);
                assert(t[p].node == node);
            } else {
                assert forall|j: int| 0 <= j < u.len() implies (#[trigger] u[j]).node < a.len()
                    && u[j].next <= u[j].pending@.len() by {
                    assert(u[j] == s[j]);
                }
                assert(mirrors(a, u)) by {
                    assert forall|j: int| 0 <= j < u.len() implies #[trigger] frame_mirrors(a, u[j]) by {
                        assert(frame_mirrors(a, s[j]));
                    }
                }
                lemma_ordered_pop(a, s);
                lemma_tracks_settle(a, u, p, node, listing);
            }
        } else {
            assert(t == s);
            assert(t[p].node == node);
        }
    }
}

/// At the end of any walk from its start in which no entry vanished or met
/// too many levels of symbolic links, every directory in flight mirrors its
/// listing as far as it was dealt with.
pub proof fn law_mirror_history(states: Seq<Walker>, events: Seq<Event>, actions: Seq<Action>)
    requires
        is_run(states, events, actions),
        no_skips(events),
    ensures
        mirrors(states.last().tree.nodes@, states.last().stack@),
    decreases events.len(),
{
    let n = events.len() as int;
    if n > 0 {
        let s0 = states.drop_last();
        let e0 = events.drop_last();
        let a0 = actions.drop_last();
        assert(step_ok(states, events, actions, n - 1));
        assert forall|k: int| 0 <= k < e0.len() implies #[trigger] step_ok(s0, e0, a0, k) by {
            assert(step_ok(states, events, actions, k));
        }
        assert(no_skips(e0)) by {
            assert forall|j: int| 0 <= j < e0.len() implies !((#[trigger] e0[j]) is Vanished) && !(
            e0[j] is TooManyLinks) by {
                assert(e0[j] == events[j]);
            }
        }
        law_mirror_history(s0, e0, a0);
        lemma_run_grows(s0, e0, a0, n - 1);
        law_mirror_step(states[n - 1], events[n - 1], states[n], actions[n - 1]);
    }
}

/// The tree mirrors what was listed. At the end of any walk from its start
/// in which no entry vanished or met too many levels of symbolic links, a
/// directory whose listing was the answer `events[k]` is on its way to
/// mirror that listing without `.` and `..`; when the walk is complete, the
/// children of that directory are, by name and in order, exactly the entries
/// of that listing.
pub proof fn law_tree_mirrors(
    states: Seq<Walker>,
    events: Seq<Event>,
    actions: Seq<Action>,
    k: int,
)
    requires
        is_run(states, events, actions),
        no_skips(events),
        0 <= k < events.len(),
        states[k].phase == Phase::Listing,
        events[k] is Entries,
    ensures
        tracks(
            states.last(),
            states[k].stack@.last().node,
            real_entries(names_of(events[k]->Entries_0@)),
        ),
        states.last().phase == Phase::Done ==> child_names(
            states.last().tree.nodes@,
            states[k].stack@.last().node as int,
        ) == real_entries(names_of(events[k]->Entries_0@)),
    decreases events.len(),
{
    let n = events.len() as int;
    let node = states[k].stack@.last().node;
    let listing = real_entries(names_of(events[k]->Entries_0@));
    let pre = states[n - 1];
    let post = states[n];
    let s0 = states.drop_last();
    let e0 = events.drop_last();
    let a0 = actions.drop_last();
    assert(step_ok(states, events, actions, n - 1));
    assert forall|j: int| 0 <= j < e0.len() implies #[trigger] step_ok(s0, e0, a0, j) by {
        assert(step_ok(states, events, actions, j));
    }
    assert(no_skips(e0)) by {
        assert forall|j: int| 0 <= j < e0.len() implies !((#[trigger] e0[j]) is Vanished) && !(
        e0[j] is TooManyLinks) by {
            assert(e0[j] == events[j]);
        }
    }
    law_mirror_history(s0, e0, a0);
    lemma_run_grows(s0, e0, a0, n - 1);
    lemma_run_grows(s0, e0, a0, k);
    let a = pre.tree.nodes@;
    if k == n - 1 {
        let s = pre.stack@;
        let t = post.stack@;
        assert(frame_mirrors(a, s[s.len() - 1]));
        if listing.len() == 0 {
            lemma_settled_prefix(s.drop_last());
            if in_flight(t, node) {
                let j = choose|j: int| 0 <= j < t.len() && (#[trigger] t[j]).node == node;
                assert(t[j] == s.drop_last()[j]);
                assert(s[j].node < a.len());
                lemma_stack_rises(a, s, j, s.len() - 1);
            }
            assert(child_names(a, node as int) =~= listing);
        } else {
            assert(t[t.len() - 1].node == node);
        }
    } else {
        law_tree_mirrors(s0, e0, a0, k);
        assert(step_ok(states, events, actions, n - 2));
        assert(states[k].stack@[states[k].stack@.len() - 1].node < states[k].tree.nodes@.len());
        lemma_tracks_step(pre, events[n - 1], post, actions[n - 1], node, listing);
    }
}

} // verus!
