use vstd::prelude::*;
use crate::entry::{depth, lemma_lineage_shape, DirEntry, Tree};

verus! {

/// The text ` (loop)`: it follows the name of a directory that is its own
/// ancestor.
pub open spec fn loop_mark() -> Seq<u8> {
    seq![32u8, 40u8, 108u8, 111u8, 111u8, 112u8, 41u8]
}

/// The text ` (cycle)`: it follows the name of a directory in which an entry
/// met too many levels of symbolic links.
pub open spec fn cycle_mark() -> Seq<u8> {
    seq![32u8, 40u8, 99u8, 121u8, 99u8, 108u8, 101u8, 41u8]
}

/// `n` spaces.
pub open spec fn spaces(n: nat) -> Seq<u8> {
    Seq::new(n, |k: int| 32u8)
}

/// The line of node `i`: two spaces for each ancestor after `level` spaces,
/// the name, and the marks of the flags that are set.
pub open spec fn line_of(nodes: Seq<DirEntry>, i: int, level: nat) -> Seq<u8> {
    spaces(level + 2 * depth(nodes, i)) + nodes[i].name@ + (if nodes[i].loop_flag {
        loop_mark()
    } else {
        Seq::empty()
    }) + (if nodes[i].cycle_flag {
        cycle_mark()
    } else {
        Seq::empty()
    })
}

/// Appends `src` to `dst`.
fn append(dst: &mut Vec<u8>, src: &Vec<u8>)
    ensures
        final(dst)@ == old(dst)@ + src@,
{
    let mut i: usize = 0;
    while i < src.len()
        invariant
            i <= src@.len(),
            dst@ == old(dst)@ + src@.take(i as int),
        decreases src@.len() - i,
    {
        dst.push(src[i]);
        assert(src@.take(i + 1) == src@.take(i as int).push(src@[i as int]));
        i = i + 1;
    }
    assert(src@.take(src@.len() as int) == src@);
}

/// The text ` (loop)`.
fn loop_text() -> (r: Vec<u8>)
    ensures
        r@ == loop_mark(),
{
    let mut r: Vec<u8> = Vec::new();
    r.push(32u8);
    r.push(40u8);
    r.push(108u8);
    r.push(111u8);
    r.push(111u8);
    r.push(112u8);
    r.push(41u8);
    assert(r@ =~= loop_mark());
    r
}

/// The text ` (cycle)`.
fn cycle_text() -> (r: Vec<u8>)
    ensures
        r@ == cycle_mark(),
{
    let mut r: Vec<u8> = Vec::new();
    r.push(32u8);
    r.push(40u8);
    r.push(99u8);
    r.push(121u8);
    r.push(99u8);
    r.push(108u8);
    r.push(101u8);
    r.push(41u8);
    assert(r@ =~= cycle_mark());
    r
}

/// `n` spaces.
fn indent(n: usize) -> (r: Vec<u8>)
    ensures
        r@ == spaces(n as nat),
{
    let mut r: Vec<u8> = Vec::new();
    let mut i: usize = 0;
    while i < n
        invariant
            i <= n,
            r@ == spaces(i as nat),
        decreases n - i,
    {
        r.push(32u8);
        assert(r@ =~= spaces((i + 1) as nat));
        i = i + 1;
    }
    r
}

/// The lines of the tree, one for each node in the order of the arena, the
/// root first at `level` spaces.
pub fn show(tree: &Tree, level: usize) -> (r: Vec<Vec<u8>>)
    requires
        tree.wf(),
        level + 2 * tree.nodes@.len() <= usize::MAX,
    ensures
        r@.len() == tree.nodes@.len(),
        forall|i: int| 0 <= i < r@.len() ==> (#[trigger] r@[i])@ == line_of(tree.nodes@, i, level as nat),
{
    let mut r: Vec<Vec<u8>> = Vec::new();
    let mut i: usize = 0;
    while i < tree.nodes.len()
        invariant
            tree.wf(),
            level + 2 * tree.nodes@.len() <= usize::MAX,
            i <= tree.nodes@.len(),
            r@.len() == i,
            forall|k: int| 0 <= k < i ==> (#[trigger] r@[k])@ == line_of(tree.nodes@, k, level as nat),
        decreases tree.nodes@.len() - i,
    {
        proof {
            lemma_lineage_shape(tree.nodes@, i as int);
        }
        let d: usize = tree.depth(i);
        let mut line = indent(level + 2 * d);
        append(&mut line, &tree.nodes[i].name);
        if tree.nodes[i].loop_flag {
            let mark = loop_text();
            append(&mut line, &mark);
        }
        if tree.nodes[i].cycle_flag {
            let mark = cycle_text();
            append(&mut line, &mark);
        }
        assert(line@ =~= line_of(tree.nodes@, i as int, level as nat));
        r.push(line);
        i = i + 1;
    }
    r
}

} // verus!
