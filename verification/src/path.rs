//! Paths as sequences of components.

use vstd::prelude::*;
use vstd::string::StringSliceAdditionalSpecFns;
use vstd::utf8::encode_utf8;

verus! {

/// A filesystem path, held as its components from the outermost inwards.
#[derive(Debug)]
pub struct EntryPath {
    pub components: Vec<String>,
}

impl View for EntryPath {
    type V = Seq<Seq<char>>;

    open spec fn view(&self) -> Seq<Seq<char>> {
        Seq::new(self.components@.len(), |i: int| self.components@[i]@)
    }
}

/// `a` equals `b` or lies above it: the components of `a` begin `b`.
pub open spec fn is_prefix(a: Seq<Seq<char>>, b: Seq<Seq<char>>) -> bool {
    a.len() <= b.len() && b.take(a.len() as int) == a
}

/// `a` lies strictly above `b`.
pub open spec fn is_strict_ancestor(a: Seq<Seq<char>>, b: Seq<Seq<char>>) -> bool {
    a.len() < b.len() && b.take(a.len() as int) == a
}

impl EntryPath {
    /// The path made of the given components.
    pub fn new(components: Vec<String>) -> (p: EntryPath)
        ensures
            p.components == components,
    {
        EntryPath { components }
    }

    /// How many components the path has.
    pub fn depth(&self) -> (n: usize)
        ensures
            n == self@.len(),
    {
        self.components.len()
    }

    /// A copy of the first `n` components.
    pub fn take(&self, n: usize) -> (p: EntryPath)
        requires
            n <= self@.len(),
        ensures
            p@ == self@.take(n as int),
    {
        let mut out: Vec<String> = Vec::new();
        let mut i: usize = 0;
        while i < n
            invariant
                i <= n <= self.components@.len(),
                out@.len() == i,
                forall|k: int| 0 <= k < i ==> out@[k]@ == self.components@[k]@,
            decreases n - i,
        {
            out.push(self.components[i].clone());
            i += 1;
        }
        let p = EntryPath { components: out };
        p
    }

    /// A copy of the whole path.
    pub fn duplicate(&self) -> (p: EntryPath)
        ensures
            p@ == self@,
    {
        let p = self.take(self.components.len());
        p
    }

    /// Whether the first `n` components of `self` are the first `n` of `other`.
    pub fn agrees_upto(&self, other: &EntryPath, n: usize) -> (r: bool)
        requires
            n <= self@.len(),
            n <= other@.len(),
        ensures
            r == (self@.take(n as int) == other@.take(n as int)),
    {
        let mut i: usize = 0;
        while i < n
            invariant
                i <= n,
                n <= self.components@.len(),
                n <= other.components@.len(),
                forall|k: int| 0 <= k < i ==> self@[k] == other@[k],
            decreases n - i,
        {
            if self.components[i] != other.components[i] {
                assert(self@.take(n as int)[i as int] != other@.take(n as int)[i as int]);
                return false;
            }
            i += 1;
        }
        assert(self@.take(n as int) =~= other@.take(n as int));
        true
    }

    /// Whether the two paths have the same components.
    pub fn same_as(&self, other: &EntryPath) -> (r: bool)
        ensures
            r == (self@ == other@),
    {
        if self.components.len() != other.components.len() {
            return false;
        }
        let r = self.agrees_upto(other, self.components.len());
        assert(self@.take(self@.len() as int) =~= self@);
        assert(other@.take(other@.len() as int) =~= other@);
        r
    }

    /// Whether `self` lies strictly above `other`.
    pub fn is_ancestor_of(&self, other: &EntryPath) -> (r: bool)
        ensures
            r == is_strict_ancestor(self@, other@),
    {
        if self.components.len() >= other.components.len() {
            return false;
        }
        let r = self.agrees_upto(other, self.components.len());
        assert(self@.take(self@.len() as int) =~= self@);
        r
    }
}

/// One step of the hash: the code so far, and the next byte.
pub open spec fn mix(h: u64, b: u8) -> u64 {
    ((h * 31 + b + 1) % 0x1FFF_FFFF_FFFF_FFFF) as u64
}

/// The hash code `h` carried on over the bytes.
pub open spec fn bytes_hash(h: u64, bytes: Seq<u8>) -> u64
    decreases bytes.len(),
{
    if bytes.len() == 0 {
        h
    } else {
        mix(bytes_hash(h, bytes.drop_last()), bytes.last())
    }
}

/// A hash code of a path: equal paths have equal codes.
pub open spec fn path_hash(p: Seq<Seq<char>>) -> u64
    decreases p.len(),
{
    if p.len() == 0 {
        0
    } else {
        bytes_hash(mix(path_hash(p.drop_last()), 0xFF), encode_utf8(p.last()))
    }
}

fn mixed(h: u64, b: u8) -> (r: u64)
    ensures
        r == mix(h, b),
{
    let wide: u128 = h as u128 * 31 + b as u128 + 1;
    (wide % 0x1FFF_FFFF_FFFF_FFFF) as u64
}

impl EntryPath {
    /// The hash codes of the path cut to its first 0, 1, 2, ... components.
    pub fn prefix_hashes(&self) -> (r: Vec<u64>)
        ensures
            r@.len() == self@.len() + 1,
            forall|k: int| 0 <= k <= self@.len() ==> (#[trigger] r@[k]) == path_hash(self@.take(k)),
    {
        let mut r: Vec<u64> = Vec::new();
        let mut h: u64 = 0;
        r.push(h);
        let mut i: usize = 0;
        while i < self.components.len()
            invariant
                i <= self.components@.len(),
                r@.len() == i + 1,
                h == path_hash(self@.take(i as int)),
                forall|k: int| 0 <= k <= i ==> (#[trigger] r@[k]) == path_hash(self@.take(k)),
            decreases self.components@.len() - i,
        {
            let bytes = self.components[i].as_str().as_bytes();
            let ghost all = encode_utf8(self@[i as int]);
            let mut g: u64 = mixed(h, 0xFF);
            let mut j: usize = 0;
            while j < bytes.len()
                invariant
                    j <= bytes@.len(),
                    bytes@ == all,
                    g == bytes_hash(mix(h, 0xFF), all.take(j as int)),
                decreases bytes@.len() - j,
            {
                proof {
                    assert(all.take(j + 1).drop_last() =~= all.take(j as int));
                }
                g = mixed(g, bytes[j]);
                j += 1;
            }
            proof {
                assert(all.take(all.len() as int) =~= all);
                assert(self@.take(i + 1).drop_last() =~= self@.take(i as int));
            }
            h = g;
            r.push(h);
            i += 1;
        }
        r
    }
}

} // verus!
