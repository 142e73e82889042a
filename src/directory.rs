//! A listing of the shared output directory: file names with their contents,
//! and the live part of it as a merge consumes files.
use vstd::prelude::*;
use crate::indent::append_bytes;

verus! {

/// One file of the output directory: its name and its contents.
pub struct Fragment {
    pub name: Vec<u8>,
    pub data: Vec<u8>,
}

/// No two entries of a listing share a name, as in a directory.
pub open spec fn distinct_names(frags: Seq<Fragment>) -> bool {
    forall|i: int, j: int|
        0 <= i < frags.len() && 0 <= j < frags.len() && i != j ==> frags[i].name@
            != frags[j].name@
}

/// The directory that a listing describes: each name mapped to its contents.
pub open spec fn listing_dir(frags: Seq<Fragment>) -> Map<Seq<u8>, Seq<u8>>
    decreases frags.len(),
{
    if frags.len() == 0 {
        Map::empty()
    } else {
        listing_dir(frags.drop_last()).insert(frags.last().name@, frags.last().data@)
    }
}

/// `dir` holds exactly the entries of `frags` that are still marked live.
pub open spec fn live_dir(
    frags: Seq<Fragment>,
    live: Seq<bool>,
    dir: Map<Seq<u8>, Seq<u8>>,
) -> bool {
    &&& live.len() == frags.len()
    &&& forall|n: Seq<u8>|
        dir.contains_key(n) <==> exists|i: int|
            0 <= i < frags.len() && live[i] && #[trigger] frags[i].name@ == n
    &&& forall|i: int|
        0 <= i < frags.len() && live[i] ==> dir[#[trigger] frags[i].name@] == frags[i].data@
}

/// `dir` with every name of `names` taken out, one after the other.
pub open spec fn remove_names(dir: Map<Seq<u8>, Seq<u8>>, names: Seq<Seq<u8>>) -> Map<
    Seq<u8>,
    Seq<u8>,
>
    decreases names.len(),
{
    if names.len() == 0 {
        dir
    } else {
        remove_names(dir, names.drop_last()).remove(names.last())
    }
}

pub proof fn lemma_remove_names(dir: Map<Seq<u8>, Seq<u8>>, names: Seq<Seq<u8>>, x: Seq<u8>)
    ensures
        remove_names(dir, names).contains_key(x) == (dir.contains_key(x) && !names.contains(x)),
        remove_names(dir, names).contains_key(x) ==> remove_names(dir, names)[x] == dir[x],
    decreases names.len(),
{
    if names.len() > 0 {
        lemma_remove_names(dir, names.drop_last(), x);
        assert(names.contains(x) == (names.drop_last().contains(x) || names.last() == x)) by {
            if names.contains(x) {
                let k = choose|k: int| 0 <= k < names.len() && names[k] == x;
                if k < names.len() - 1 {
                    assert(names.drop_last()[k] == x);
                }
            }
            if names.drop_last().contains(x) {
                let k = choose|k: int| 0 <= k < names.len() - 1 && names.drop_last()[k] == x;
                assert(names[k] == x);
            }
        }
    }
}

/// A listing with distinct names describes the map from each of its names
/// to that file's contents.
pub proof fn lemma_listing_dir(frags: Seq<Fragment>)
    requires
        distinct_names(frags),
    ensures
        live_dir(frags, Seq::new(frags.len(), |i: int| true), listing_dir(frags)),
    decreases frags.len(),
{
    let live = Seq::new(frags.len(), |i: int| true);
    if frags.len() > 0 {
        let f = frags.drop_last();
        lemma_listing_dir(f);
        let d = listing_dir(f);
        assert forall|n: Seq<u8>| listing_dir(frags).contains_key(n) <==> exists|i: int|
            0 <= i < frags.len() && live[i] && #[trigger] frags[i].name@ == n by {
            if d.contains_key(n) {
                let i = choose|i: int| 0 <= i < f.len() && true && #[trigger] f[i].name@ == n;
                assert(frags[i].name@ == n);
            }
            if exists|i: int| 0 <= i < frags.len() && live[i] && #[trigger] frags[i].name@ == n {
                let i = choose|i: int| 0 <= i < frags.len() && live[i] && #[trigger] frags[i].name@ == n;
                if i < frags.len() - 1 {
                    assert(f[i].name@ == n);
                    assert(Seq::new(f.len(), |i: int| true)[i]);
                }
            }
        }
        assert forall|i: int| 0 <= i < frags.len() && live[i] implies listing_dir(frags)[
            #[trigger] frags[i].name@] == frags[i].data@ by {
            if i < frags.len() - 1 {
                assert(f[i].name@ == frags[i].name@);
                assert(Seq::new(f.len(), |i: int| true)[i]);
            }
        }
    }
}

/// The live files of a listing, as a merge consumes them.
pub struct LiveDir {
    pub live: Vec<bool>,
    pub dir: Ghost<Map<Seq<u8>, Seq<u8>>>,
}

impl LiveDir {
    pub open spec fn inv(&self, frags: Seq<Fragment>) -> bool {
        distinct_names(frags) && live_dir(frags, self.live@, self.dir@)
    }

    /// Every file of the listing is live.
    pub fn new(frags: &Vec<Fragment>) -> (r: LiveDir)
        requires
            distinct_names(frags@),
        ensures
            r.inv(frags@),
            r.dir@ == listing_dir(frags@),
    {
        let mut live: Vec<bool> = Vec::new();
        let mut i: usize = 0;
        while i < frags.len()
            invariant
                i <= frags@.len(),
                live@ == Seq::new(i as nat, |k: int| true),
            decreases frags@.len() - i,
        {
            live.push(true);
            i = i + 1;
            assert(live@ =~= Seq::new(i as nat, |k: int| true));
        }
        proof {
            lemma_listing_dir(frags@);
        }
        LiveDir { live, dir: Ghost(listing_dir(frags@)) }
    }

    /// Finds the live file named `name`.
    pub fn find(&self, frags: &Vec<Fragment>, name: &[u8]) -> (r: Option<usize>)
        requires
            self.inv(frags@),
        ensures
            match r {
                Some(i) => i < frags@.len() && self.live@[i as int] && frags@[i as int].name@
                    == name@ && self.dir@.contains_key(name@) && self.dir@[name@]
                    == frags@[i as int].data@,
                None => !self.dir@.contains_key(name@),
            },
    {
        let mut i: usize = 0;
        while i < frags.len()
            invariant
                self.inv(frags@),
                i <= frags@.len(),
                forall|k: int| 0 <= k < i ==> !(self.live@[k] && frags@[k].name@ == name@),
            decreases frags@.len() - i,
        {
            if self.live[i] && bytes_eq(frags[i].name.as_slice(), name) {
                return Some(i);
            }
            i = i + 1;
        }
        None
    }

    /// Takes the file at index `i` out of the directory.
    pub fn consume(&mut self, frags: &Vec<Fragment>, i: usize)
        requires
            old(self).inv(frags@),
            i < frags@.len(),
            old(self).live@[i as int],
        ensures
            final(self).inv(frags@),
            final(self).dir@ == old(self).dir@.remove(frags@[i as int].name@),
    {
        let ghost n = frags@[i as int].name@;
        self.live.set(i, false);
        self.dir = Ghost(self.dir@.remove(n));
        proof {
            let live = self.live@;
            assert forall|x: Seq<u8>| self.dir@.contains_key(x) <==> exists|k: int|
                0 <= k < frags@.len() && live[k] && #[trigger] frags@[k].name@ == x by {
                if exists|k: int| 0 <= k < frags@.len() && live[k] && #[trigger] frags@[k].name@ == x {
                    let k = choose|k: int| 0 <= k < frags@.len() && live[k] && #[trigger] frags@[k].name@ == x;
                    assert(old(self).live@[k]);
                }
                if self.dir@.contains_key(x) {
                    let k = choose|k: int| 0 <= k < frags@.len() && old(self).live@[k] && #[trigger] frags@[k].name@ == x;
                    assert(k != i);
                    assert(live[k]);
                }
            }
        }
    }
}

impl LiveDir {
    /// Per file of the listing, whether it is no longer in the directory.
    pub fn consumed_flags(&self, frags: &Vec<Fragment>) -> (r: Vec<bool>)
        requires
            self.inv(frags@),
        ensures
            r@.len() == frags@.len(),
            forall|j: int|
                0 <= j < frags@.len() ==> r@[j] == !self.dir@.contains_key(
                    #[trigger] frags@[j].name@,
                ),
    {
        let mut r: Vec<bool> = Vec::new();
        let mut k: usize = 0;
        while k < frags.len()
            invariant
                distinct_names(frags@),
                live_dir(frags@, self.live@, self.dir@),
                k <= frags@.len(),
                r@.len() == k,
                forall|j: int|
                    0 <= j < k ==> r@[j] == !self.dir@.contains_key(#[trigger] frags@[j].name@),
            decreases frags@.len() - k,
        {
            proof {
                if self.dir@.contains_key(frags@[k as int].name@) {
                    let j = choose|j: int|
                        0 <= j < frags@.len() && self.live@[j] && #[trigger] frags@[j].name@
                            == frags@[k as int].name@;
                    assert(j == k);
                }
            }
            r.push(!self.live[k]);
            k = k + 1;
        }
        r
    }
}

/// Compares two byte strings.
pub fn bytes_eq(a: &[u8], b: &[u8]) -> (r: bool)
    ensures
        r == (a@ == b@),
{
    if a.len() != b.len() {
        return false;
    }
    let mut i: usize = 0;
    while i < a.len()
        invariant
            i <= a@.len(),
            a@.len() == b@.len(),
            forall|k: int| 0 <= k < i ==> a@[k] == b@[k],
        decreases a@.len() - i,
    {
        if a[i] != b[i] {
            return false;
        }
        i = i + 1;
    }
    assert(a@ =~= b@);
    true
}

/// A fresh copy of `src`.
pub fn copy_bytes(src: &[u8]) -> (r: Vec<u8>)
    ensures
        r@ == src@,
{
    let mut r: Vec<u8> = Vec::new();
    append_bytes(&mut r, src);
    assert(r@ =~= src@);
    r
}

/// `a` followed by `b`, as a new vector.
pub fn joined(a: &[u8], b: &[u8]) -> (r: Vec<u8>)
    ensures
        r@ == a@ + b@,
{
    let mut r: Vec<u8> = Vec::new();
    append_bytes(&mut r, a);
    append_bytes(&mut r, b);
    assert(r@ =~= a@ + b@);
    r
}

} // verus!
