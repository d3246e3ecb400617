use vstd::prelude::*;
use crate::entry::Identity;

verus! {

/// The components of a directory's path, the innermost first: the names
/// under which each directory was found in its parent on the way up.
#[derive(Debug)]
pub struct PathList {
    pub parts: Vec<Vec<u8>>,
}

/// The byte strings that a list of names holds.
pub open spec fn parts_of(v: Seq<Vec<u8>>) -> Seq<Seq<u8>> {
    Seq::new(v.len(), |i: int| v[i]@)
}

/// Each component after a slash, the last of `parts` first.
pub open spec fn joined(parts: Seq<Seq<u8>>) -> Seq<u8>
    decreases parts.len(),
{
    if parts.len() == 0 {
        Seq::empty()
    } else {
        seq![47u8] + parts.last() + joined(parts.drop_last())
    }
}

/// The path as text: a single slash for the root, else the components from
/// the outermost to the innermost, each after a slash.
pub open spec fn rendered(parts: Seq<Seq<u8>>) -> Seq<u8> {
    if parts.len() == 0 {
        seq![47u8]
    } else {
        joined(parts)
    }
}

/// Whether an entry of the parent directory is the directory that was just
/// left: a directory with the same identity.
pub fn leads_back(is_dir: bool, found: Identity, left: Identity) -> (r: bool)
    ensures
        r == (is_dir && found == left),
{
    is_dir && found.dev == left.dev && found.ino == left.ino
}

impl PathList {
    /// The components, as byte strings.
    pub open spec fn view(&self) -> Seq<Seq<u8>> {
        parts_of(self.parts@)
    }

    /// The path of the root: no component.
    pub fn new() -> (r: PathList)
        ensures
            r@.len() == 0,
    {
        PathList { parts: Vec::new() }
    }

    /// Takes the name under which the current directory was found in its
    /// parent. A name that is `.` or `..` says that the parent is the
    /// directory itself, the root: nothing is kept and the climb is over.
    pub fn climb(&mut self, name: Vec<u8>) -> (at_root: bool)
        ensures
            at_root == (name@ == seq![46u8] || name@ == seq![46u8, 46u8]),
            at_root ==> final(self)@ == old(self)@,
            !at_root ==> final(self)@ == old(self)@.push(name@),
    {
        let n: usize = name.len();
        let at_root = (n == 1 && name[0] == 46u8) || (n == 2 && name[0] == 46u8 && name[1] == 46u8);
        proof {
            assert(seq![46u8].len() == 1);
            assert(seq![46u8, 46u8].len() == 2);
            if at_root {
                if n == 1 {
                    assert(name@ =~= seq![46u8]);
                } else {
                    assert(name@ =~= seq![46u8, 46u8]);
                }
            } else {
                if n == 1 {
                    assert(name@[0] != seq![46u8][0]);
                }
                if n == 2 {
                    assert(name@[0] != seq![46u8, 46u8][0] || name@[1] != seq![46u8, 46u8][1]);
                }
            }
        }
        if !at_root {
            self.parts.push(name);
            assert(self@ =~= old(self)@.push(name@));
        }
        at_root
    }

    /// The path as text.
    pub fn render(&self) -> (r: Vec<u8>)
        ensures
            r@ == rendered(self@),
    {
        let mut r: Vec<u8> = Vec::new();
        let n: usize = self.parts.len();
        if n == 0 {
            r.push(47u8);
            assert(r@ =~= seq![47u8]);
            return r;
        }
        let mut i: usize = n;
        assert(self@.take(n as int) == self@);
        while i > 0
            invariant
                i <= n,
                n == self.parts@.len(),
                r@ + joined(self@.take(i as int)) == joined(self@),
            decreases i,
        {
            let ghost before = r@;
            let ghost head = self@.take(i as int);
            i = i - 1;
            r.push(47u8);
            let part = &self.parts[i];
            let mut k: usize = 0;
            while k < part.len()
                invariant
                    k <= part@.len(),
                    r@ == before + seq![47u8] + part@.take(k as int),
                decreases part@.len() - k,
            {
                r.push(part[k]);
                assert(part@.take(k + 1) == part@.take(k as int).push(part@[k as int]));
                k = k + 1;
            }
            proof {
                assert(part@.take(part@.len() as int) == part@);
                assert(head.last() == part@);
                assert(head.drop_last() == self@.take(i as int));
                assert(r@ + joined(self@.take(i as int)) =~= before + joined(head));
            }
        }
        assert(joined(self@.take(0)) =~= Seq::<u8>::empty());
        assert(r@ + Seq::<u8>::empty() =~= r@);
        r
    }
}

} // verus!
