use crate::order::{
    bytes_less, bytes_lt, lemma_bytes_lt_irreflexive, lemma_bytes_lt_total, lemma_bytes_lt_transitive,
    lemma_words_order, words_equal, words_less, words_lt, words_lt_seq,
};
use crate::path_order::{
    lemma_path_before_total, lemma_path_before_transitive, path_before, path_less,
};
use vstd::prelude::*;
use vstd::string::*;
use vstd::utf8::*;

verus! {

/// What a tree holds: paths of files, each with the hash of its content.
pub type Holdings = Set<(Seq<char>, Seq<u64>)>;

/// The bytes by which paths are ordered.
pub open spec fn path_key(path: Seq<char>) -> Seq<u8> {
    encode_utf8(path)
}

/// Paths with the same bytes are the same path.
pub proof fn lemma_path_key_injective(a: Seq<char>, b: Seq<char>)
    requires
        path_key(a) == path_key(b),
    ensures
        a == b,
{
    encode_utf8_decode_utf8(a);
    encode_utf8_decode_utf8(b);
}

/// Whether `path` is the directory `dir` or lies below it: the path goes on
/// behind the directory with a separator. Both are taken as they are
/// written: they should be absolute and without `.` and `..`.
pub open spec fn is_under(path: Seq<u8>, dir: Seq<u8>) -> bool {
    &&& dir.len() <= path.len()
    &&& path.subrange(0, dir.len() as int) == dir
    &&& (dir.len() == path.len() || (dir.len() > 0 && dir.last() == 47u8) || path[dir.len() as int]
        == 47u8)
}

/// Tells whether `path` is the directory `dir` or lies below it.
pub fn path_is_under(path: &str, dir: &str) -> (r: bool)
    ensures
        r == is_under(path_key(path@), path_key(dir@)),
{
    let p = path.as_bytes();
    let d = dir.as_bytes();
    assert(p@ == path_key(path@) && d@ == path_key(dir@));
    if d.len() > p.len() {
        return false;
    }
    let mut i: usize = 0;
    while i < d.len()
        invariant
            i <= d@.len() <= p@.len(),
            p@ == path_key(path@),
            d@ == path_key(dir@),
            forall|j: int| 0 <= j < i ==> p@[j] == d@[j],
        decreases d@.len() - i,
    {
        if p[i] != d[i] {
            assert(p@.subrange(0, d@.len() as int)[i as int] != d@[i as int]);
            return false;
        }
        i += 1;
    }
    assert(p@.subrange(0, d@.len() as int) =~= d@);
    d.len() == p.len() || (d.len() > 0 && d[d.len() - 1] == 47u8) || p[d.len()] == 47u8
}

/// The store after `path` was given the hash `hash`.
pub open spec fn with_entry(held: Holdings, path: Seq<char>, hash: Seq<u64>) -> Holdings {
    held.filter(|e: (Seq<char>, Seq<u64>)| e.0 != path).insert((path, hash))
}

/// The store without `path`.
pub open spec fn without_path(held: Holdings, path: Seq<char>) -> Holdings {
    held.filter(|e: (Seq<char>, Seq<u64>)| e.0 != path)
}

/// The store without the directory `dir` and all that lies below it.
pub open spec fn without_dir(held: Holdings, dir: Seq<char>) -> Holdings {
    held.filter(|e: (Seq<char>, Seq<u64>)| !is_under(path_key(e.0), path_key(dir)))
}

/// Whether the store holds `path`.
pub open spec fn holds_path(held: Holdings, path: Seq<char>) -> bool {
    exists|hash: Seq<u64>| held.contains((path, hash))
}

/// The index of files by the hash of their content: it knows of every path
/// one hash, and so tells which files are copies of each other.
#[derive(Clone, Default, Debug, PartialEq, Eq)]
pub struct DedupTree {
    files: Vec<(String, [u64; 4])>,
}

impl View for DedupTree {
    type V = Holdings;

    /// The paths that the tree knows, each with its hash.
    closed spec fn view(&self) -> Holdings {
        self.listing().to_set()
    }
}

impl DedupTree {
    /// The entries in the order in which they are kept.
    pub closed spec fn listing(&self) -> Seq<(Seq<char>, Seq<u64>)> {
        Seq::new(self.files@.len(), |i: int| (self.files@[i].0@, self.files@[i].1@))
    }

    /// Whether the entries are in ascending order of their paths: no path
    /// twice.
    pub closed spec fn wf(&self) -> bool {
        forall|i: int, j: int|
            0 <= i < j < self.listing().len() ==> bytes_lt(
                path_key(#[trigger] self.listing()[i].0),
                path_key(#[trigger] self.listing()[j].0),
            )
    }

    /// A well-formed tree knows one hash of a path, and finitely many paths.
    pub proof fn lemma_one_hash_per_path(&self, path: Seq<char>, a: Seq<u64>, b: Seq<u64>)
        requires
            self.wf(),
            self@.contains((path, a)),
            self@.contains((path, b)),
        ensures
            a == b,
            self@.finite(),
    {
        let l = self.listing();
        let i = choose|i: int| 0 <= i < l.len() && l[i] == (path, a);
        let j = choose|j: int| 0 <= j < l.len() && l[j] == (path, b);
        lemma_bytes_lt_irreflexive(path_key(path));
        if i < j {
            assert(bytes_lt(path_key(l[i].0), path_key(l[j].0)));
        } else if j < i {
            assert(bytes_lt(path_key(l[j].0), path_key(l[i].0)));
        }
        vstd::seq_lib::seq_to_set_is_finite(l);
    }

    /// A tree that knows no file.
    pub fn new() -> (r: Self)
        ensures
            r.wf(),
            r@ == Holdings::empty(),
    {
        let r = DedupTree { files: Vec::new() };
        assert(r@ =~= Holdings::empty());
        r
    }

    /// The number of paths that the tree knows.
    pub fn len_paths(&self) -> (n: usize)
        requires
            self.wf(),
        ensures
            n == self@.len(),
    {
        proof {
            self.lemma_listing_is_distinct();
            self.listing().unique_seq_to_set();
        }
        self.files.len()
    }

    /// The entries of a well-formed tree are all different.
    proof fn lemma_listing_is_distinct(&self)
        requires
            self.wf(),
        ensures
            self.listing().no_duplicates(),
    {
        let l = self.listing();
        assert forall|i: int, j: int| 0 <= i < l.len() && 0 <= j < l.len() && i != j implies l[i]
            != l[j] by {
            lemma_bytes_lt_irreflexive(path_key(l[i].0));
            if i < j {
                assert(bytes_lt(path_key(l[i].0), path_key(l[j].0)));
            } else {
                assert(bytes_lt(path_key(l[j].0), path_key(l[i].0)));
            }
        }
    }

    /// Where `path` stands or would stand among the entries, and whether it
    /// stands there.
    fn find(&self, path: &str) -> (r: (usize, bool))
        requires
            self.wf(),
        ensures
            r.0 <= self.listing().len(),
            forall|j: int|
                0 <= j < r.0 ==> bytes_lt(path_key(#[trigger] self.listing()[j].0), path_key(path@)),
            forall|j: int|
                r.0 <= j < self.listing().len() ==> !bytes_lt(
                    path_key(#[trigger] self.listing()[j].0),
                    path_key(path@),
                ),
            r.1 == (r.0 < self.listing().len() && self.listing()[r.0 as int].0 == path@),
            r.1 == holds_path(self@, path@),
    {
        let mut i: usize = 0;
        while i < self.files.len() && bytes_less(
            self.files[i].0.as_str().as_bytes(),
            path.as_bytes(),
        )
            invariant
                i <= self.files@.len(),
                self.wf(),
                forall|j: int|
                    0 <= j < i ==> bytes_lt(
                        path_key(#[trigger] self.listing()[j].0),
                        path_key(path@),
                    ),
            decreases self.files@.len() - i,
        {
            i += 1;
        }
        let found = i < self.files.len() && !bytes_less(
            path.as_bytes(),
            self.files[i].0.as_str().as_bytes(),
        );
        proof {
            let l = self.listing();
            let key = path_key(path@);
            if i < l.len() {
                assert(!bytes_lt(path_key(l[i as int].0), key));
                lemma_bytes_lt_total(path_key(l[i as int].0), key);
                if found {
                    lemma_path_key_injective(l[i as int].0, path@);
                } else {
                    lemma_bytes_lt_irreflexive(key);
                }
                assert forall|j: int| i <= j < l.len() implies !bytes_lt(
                    path_key(#[trigger] l[j].0),
                    key,
                ) by {
                    if j > i && bytes_lt(path_key(l[j].0), key) {
                        assert(bytes_lt(path_key(l[i as int].0), path_key(l[j].0)));
                        lemma_bytes_lt_transitive(path_key(l[i as int].0), path_key(l[j].0), key);
                    }
                }
            }
            if found {
                assert(self@.contains(l[i as int]));
            } else {
                if holds_path(self@, path@) {
                    let hash = choose|hash: Seq<u64>| self@.contains((path@, hash));
                    let j = choose|j: int| 0 <= j < l.len() && l[j] == (path@, hash);
                    lemma_bytes_lt_irreflexive(key);
                    if j > i {
                        assert(bytes_lt(path_key(l[i as int].0), path_key(l[j].0)));
                    } else if j < i {
                        assert(bytes_lt(path_key(l[j].0), key));
                    }
                    assert(false);
                }
            }
        }
        (i, found)
    }
}

impl DedupTree {
    /// Gives `path` the hash `hash`: a path that the tree knows gets the new
    /// hash in place of the old one.
    pub fn update_entry(&mut self, path: String, hash: [u64; 4])
        requires
            old(self).wf(),
        ensures
            final(self).wf(),
            final(self)@ == with_entry(old(self)@, path@, hash@),
    {
        let (i, found) = self.find(path.as_str());
        let ghost before = self.listing();
        let ghost entry = (path@, hash@);
        if found {
            self.files[i] = (path, hash);
            proof {
                let after = self.listing();
                assert(after =~= before.update(i as int, entry));
                assert forall|a: int, b: int| 0 <= a < b < after.len() implies bytes_lt(
                    path_key(#[trigger] after[a].0),
                    path_key(#[trigger] after[b].0),
                ) by {
                    assert(bytes_lt(path_key(before[a].0), path_key(before[b].0)));
                }
                assert forall|x: (Seq<char>, Seq<u64>)|
                    after.to_set().contains(x) == with_entry(before.to_set(), path@, hash@).contains(
                        x,
                    ) by {
                    lemma_bytes_lt_irreflexive(path_key(path@));
                    if after.to_set().contains(x) {
                        let k = choose|k: int| 0 <= k < after.len() && after[k] == x;
                        if k != i {
                            assert(before[k] == x);
                            if k < i {
                                assert(bytes_lt(path_key(before[k].0), path_key(before[i as int].0)));
                            } else {
                                assert(bytes_lt(path_key(before[i as int].0), path_key(before[k].0)));
                            }
                        }
                    }
                    if with_entry(before.to_set(), path@, hash@).contains(x) {
                        if x != entry {
                            let k = choose|k: int| 0 <= k < before.len() && before[k] == x;
                            assert(after[k] == x);
                        } else {
                            assert(after[i as int] == x);
                        }
                    }
                }
                assert(self@ =~= with_entry(old(self)@, path@, hash@));
            }
        } else {
            self.files.insert(i, (path, hash));
            proof {
                let after = self.listing();
                assert(after =~= before.insert(i as int, entry));
                assert forall|a: int, b: int| 0 <= a < b < after.len() implies bytes_lt(
                    path_key(#[trigger] after[a].0),
                    path_key(#[trigger] after[b].0),
                ) by {
                    let key = path_key(path@);
                    if b == i {
                        assert(bytes_lt(path_key(before[a].0), key));
                    } else if a == i {
                        assert(!bytes_lt(path_key(before[b - 1].0), key));
                        lemma_bytes_lt_total(path_key(before[b - 1].0), key);
                        if path_key(before[b - 1].0) == key {
                            lemma_path_key_injective(before[b - 1].0, path@);
                            assert(old(self)@.contains(before[b - 1]));
                        }
                    } else {
                        let a0 = if a < i {
                            a
                        } else {
                            a - 1
                        };
                        let b0 = if b < i {
                            b
                        } else {
                            b - 1
                        };
                        assert(bytes_lt(path_key(before[a0].0), path_key(before[b0].0)));
                    }
                }
                assert forall|x: (Seq<char>, Seq<u64>)|
                    after.to_set().contains(x) == with_entry(before.to_set(), path@, hash@).contains(
                        x,
                    ) by {
                    if after.to_set().contains(x) {
                        let k = choose|k: int| 0 <= k < after.len() && after[k] == x;
                        if k < i {
                            assert(before[k] == x);
                        } else if k > i {
                            assert(before[k - 1] == x);
                        }
                        if k != i && x.0 == path@ {
                            assert(old(self)@.contains(x));
                        }
                    }
                    if with_entry(before.to_set(), path@, hash@).contains(x) {
                        if x != entry {
                            let k = choose|k: int| 0 <= k < before.len() && before[k] == x;
                            if k < i {
                                assert(after[k] == x);
                            } else {
                                assert(after[k + 1] == x);
                            }
                        } else {
                            assert(after[i as int] == x);
                        }
                    }
                }
                assert(self@ =~= with_entry(old(self)@, path@, hash@));
            }
        }
    }

    /// Forgets `path`, and tells whether the tree knew it.
    pub fn delete_file(&mut self, path: &str) -> (r: bool)
        requires
            old(self).wf(),
        ensures
            final(self).wf(),
            r == holds_path(old(self)@, path@),
            final(self)@ == without_path(old(self)@, path@),
    {
        let (i, found) = self.find(path);
        let ghost before = self.listing();
        if found {
            self.files.remove(i);
            proof {
                let after = self.listing();
                assert(after =~= before.remove(i as int));
                self.lemma_removed(*old(self), i as int);
                assert forall|x: (Seq<char>, Seq<u64>)|
                    self@.contains(x) == without_path(old(self)@, path@).contains(x) by {
                    lemma_bytes_lt_irreflexive(path_key(path@));
                    if old(self)@.contains(x) && x.0 == path@ && x != before[i as int] {
                        let k = choose|k: int| 0 <= k < before.len() && before[k] == x;
                        if k < i {
                            assert(bytes_lt(path_key(before[k].0), path_key(before[i as int].0)));
                        } else {
                            assert(bytes_lt(path_key(before[i as int].0), path_key(before[k].0)));
                        }
                    }
                }
                assert(self@ =~= without_path(old(self)@, path@));
            }
            true
        } else {
            proof {
                assert forall|x: (Seq<char>, Seq<u64>)| old(self)@.contains(x) implies x.0
                    != path@ by {
                    if x.0 == path@ {
                        assert(old(self)@.contains((path@, x.1)));
                    }
                }
                assert(self@ =~= without_path(old(self)@, path@));
            }
            false
        }
    }

    /// A tree whose entry at `i` was taken out is in order, and holds what
    /// the tree held but that entry.
    proof fn lemma_removed(&self, before: DedupTree, i: int)
        requires
            before.wf(),
            0 <= i < before.listing().len(),
            self.listing() == before.listing().remove(i),
        ensures
            self.wf(),
            forall|x: (Seq<char>, Seq<u64>)|
                self@.contains(x) <==> before@.contains(x) && x != before.listing()[i],
    {
        let l = before.listing();
        let after = self.listing();
        assert forall|a: int, b: int| 0 <= a < b < after.len() implies bytes_lt(
            path_key(#[trigger] after[a].0),
            path_key(#[trigger] after[b].0),
        ) by {
            let a0 = if a < i {
                a
            } else {
                a + 1
            };
            let b0 = if b < i {
                b
            } else {
                b + 1
            };
            assert(bytes_lt(path_key(l[a0].0), path_key(l[b0].0)));
        }
        before.lemma_listing_is_distinct();
        assert forall|x: (Seq<char>, Seq<u64>)|
            self@.contains(x) <==> before@.contains(x) && x != l[i] by {
            if self@.contains(x) {
                let k = choose|k: int| 0 <= k < after.len() && after[k] == x;
                let k0 = if k < i {
                    k
                } else {
                    k + 1
                };
                assert(l[k0] == x);
            }
            if before@.contains(x) && x != l[i] {
                let k = choose|k: int| 0 <= k < l.len() && l[k] == x;
                if k < i {
                    assert(after[k] == x);
                } else {
                    assert(after[k - 1] == x);
                }
            }
        }
    }

    /// Forgets the directory `dir` and all that lies below it, and tells
    /// whether anything was forgotten.
    pub fn delete_dir(&mut self, dir: &str) -> (r: bool)
        requires
            old(self).wf(),
        ensures
            final(self).wf(),
            final(self)@ == without_dir(old(self)@, dir@),
            r == (exists|x: (Seq<char>, Seq<u64>)|
                old(self)@.contains(x) && is_under(path_key(x.0), path_key(dir@))),
    {
        let mut deleted_something = false;
        let mut i: usize = 0;
        while i < self.files.len()
            invariant
                self.wf(),
                i <= self.listing().len(),
                forall|j: int|
                    0 <= j < i ==> !is_under(
                        path_key(#[trigger] self.listing()[j].0),
                        path_key(dir@),
                    ),
                forall|x: (Seq<char>, Seq<u64>)| self@.contains(x) ==> old(self)@.contains(x),
                forall|x: (Seq<char>, Seq<u64>)|
                    old(self)@.contains(x) && !is_under(path_key(x.0), path_key(dir@))
                        ==> self@.contains(x),
                !deleted_something ==> self@ == old(self)@,
                deleted_something ==> exists|x: (Seq<char>, Seq<u64>)|
                    old(self)@.contains(x) && is_under(path_key(x.0), path_key(dir@)),
            decreases self.listing().len() - i,
        {
            if path_is_under(self.files[i].0.as_str(), dir) {
                let ghost before = *self;
                proof {
                    assert(self@.contains(self.listing()[i as int]));
                }
                self.files.remove(i);
                proof {
                    assert(self.listing() =~= before.listing().remove(i as int));
                    self.lemma_removed(before, i as int);
                    assert forall|j: int| 0 <= j < i implies !is_under(
                        path_key(#[trigger] self.listing()[j].0),
                        path_key(dir@),
                    ) by {
                        assert(self.listing()[j] == before.listing()[j]);
                    }
                }
                deleted_something = true;
            } else {
                i += 1;
            }
        }
        proof {
            assert forall|x: (Seq<char>, Seq<u64>)|
                self@.contains(x) == without_dir(old(self)@, dir@).contains(x) by {
                if self@.contains(x) {
                    let k = choose|k: int| 0 <= k < self.listing().len() && self.listing()[k] == x;
                    assert(!is_under(path_key(self.listing()[k].0), path_key(dir@)));
                }
            }
            assert(self@ =~= without_dir(old(self)@, dir@));
            if !deleted_something {
                assert forall|x: (Seq<char>, Seq<u64>)| old(self)@.contains(x) implies !is_under(
                    path_key(x.0),
                    path_key(dir@),
                ) by {
                    let k = choose|k: int| 0 <= k < self.listing().len() && self.listing()[k] == x;
                    assert(!is_under(path_key(self.listing()[k].0), path_key(dir@)));
                }
            }
        }
        deleted_something
    }
}

/// The hashes that a store holds.
pub open spec fn hashes_of(held: Holdings) -> Set<Seq<u64>> {
    Set::new(|h: Seq<u64>| exists|p: Seq<char>| held.contains((p, h)))
}

/// Whether a store holds copies under `hash`: two different paths with that
/// hash.
pub open spec fn has_copies(held: Holdings, hash: Seq<u64>) -> bool {
    exists|p: Seq<char>, q: Seq<char>| p != q && held.contains((p, hash)) && held.contains((q, hash))
}

/// Whether paths stand in ascending order: in the order of paths, which
/// goes by their components.
pub open spec fn paths_ascend(paths: Seq<Seq<char>>) -> bool {
    forall|i: int, j: int|
        0 <= i < j < paths.len() ==> path_before(#[trigger] paths[i], #[trigger] paths[j])
}

/// Whether `groups` reports the copies that a store holds, with the hash of
/// each group in `hashes`: a group for every hash that two or more paths
/// share, the groups in ascending order of their hashes, and in each group
/// all the paths of its hash in ascending order.
pub open spec fn is_report(
    held: Holdings,
    hashes: Seq<[u64; 4]>,
    groups: Seq<Seq<Seq<char>>>,
) -> bool {
    &&& hashes.len() == groups.len()
    &&& forall|g: int|
        0 <= g < groups.len() ==> (#[trigger] groups[g]).len() >= 2 && paths_ascend(groups[g])
    &&& forall|g: int, p: Seq<char>|
        0 <= g < groups.len() ==> ((#[trigger] groups[g]).contains(p) <==> #[trigger] held.contains(
            (p, hashes[g]@),
        ))
    &&& forall|g: int, k: int|
        0 <= g < k < groups.len() ==> words_lt(#[trigger] hashes[g], #[trigger] hashes[k])
    &&& forall|h: Seq<u64>| #[trigger]
        has_copies(held, h) ==> exists|g: int| 0 <= g < hashes.len() && (#[trigger] hashes[g])@ == h
}

/// The texts of a list of groups of paths.
pub open spec fn group_texts(groups: Seq<Vec<&str>>) -> Seq<Seq<Seq<char>>> {
    Seq::new(groups.len(), |g: int| Seq::new(groups[g]@.len(), |k: int| groups[g]@[k]@))
}

impl DedupTree {
    /// The set of the hashes of the first `n` entries.
    spec fn hashes_to(&self, n: int) -> Set<Seq<u64>> {
        Set::new(|h: Seq<u64>| exists|k: int| 0 <= k < n && self.listing()[k].1 == h)
    }

    /// The number of different contents: of the hashes that the tree knows.
    pub fn len_unique(&self) -> (n: usize)
        requires
            self.wf(),
        ensures
            hashes_of(self@).finite(),
            n == hashes_of(self@).len(),
    {
        let mut count: usize = 0;
        let mut i: usize = 0;
        proof {
            assert(self.hashes_to(0) =~= Set::empty());
        }
        while i < self.files.len()
            invariant
                i <= self.files@.len(),
                count <= i,
                self.hashes_to(i as int).finite(),
                count == self.hashes_to(i as int).len(),
            decreases self.files@.len() - i,
        {
            let mut seen = false;
            let mut j: usize = 0;
            while j < i
                invariant
                    j <= i < self.files@.len(),
                    seen == (exists|k: int|
                        0 <= k < j && self.listing()[k].1 == self.listing()[i as int].1),
                decreases i - j,
            {
                let same = words_equal(&self.files[j].1, &self.files[i].1);
                proof {
                    assert(self.listing()[j as int].1 == self.files@[j as int].1@);
                    assert(self.listing()[i as int].1 == self.files@[i as int].1@);
                    assert(same == (self.listing()[j as int].1 == self.listing()[i as int].1));
                }
                if same {
                    seen = true;
                }
                j += 1;
            }
            proof {
                let h = self.listing()[i as int].1;
                assert(self.hashes_to(i + 1) =~= self.hashes_to(i as int).insert(h));
                assert(seen == self.hashes_to(i as int).contains(h));
            }
            if !seen {
                count += 1;
            }
            i += 1;
        }
        proof {
            assert forall|h: Seq<u64>|
                hashes_of(self@).contains(h) == self.hashes_to(i as int).contains(h) by {
                if hashes_of(self@).contains(h) {
                    let p = choose|p: Seq<char>| self@.contains((p, h));
                    let k = choose|k: int|
                        0 <= k < self.listing().len() && self.listing()[k] == (p, h);
                    assert(self.listing()[k].1 == h);
                }
                if self.hashes_to(i as int).contains(h) {
                    let k = choose|k: int| 0 <= k < i && self.listing()[k].1 == h;
                    assert(self@.contains(self.listing()[k]));
                    assert(self@.contains((self.listing()[k].0, h)));
                }
            }
            assert(hashes_of(self@) =~= self.hashes_to(i as int));
        }
        count
    }

    /// The entries of the tree, in ascending order of their paths.
    pub fn entries(&self) -> (r: Vec<(String, [u64; 4])>)
        requires
            self.wf(),
        ensures
            r@.len() == self@.len(),
            forall|i: int| 0 <= i < r@.len() ==> self@.contains(((#[trigger] r@[i]).0@, r@[i].1@)),
            forall|i: int, j: int|
                0 <= i < j < r@.len() ==> bytes_lt(
                    path_key((#[trigger] r@[i]).0@),
                    path_key((#[trigger] r@[j]).0@),
                ),
    {
        let mut out: Vec<(String, [u64; 4])> = Vec::new();
        let mut i: usize = 0;
        while i < self.files.len()
            invariant
                i <= self.files@.len(),
                out@.len() == i,
                forall|j: int|
                    0 <= j < i ==> (#[trigger] out@[j]).0@ == self.listing()[j].0 && out@[j].1@
                        == self.listing()[j].1,
            decreases self.files@.len() - i,
        {
            out.push((self.files[i].0.clone(), self.files[i].1));
            i += 1;
        }
        proof {
            self.lemma_listing_is_distinct();
            self.listing().unique_seq_to_set();
            assert forall|i: int| 0 <= i < out@.len() implies self@.contains(
                ((#[trigger] out@[i]).0@, out@[i].1@),
            ) by {
                assert(self.listing()[i] == (out@[i].0@, out@[i].1@));
            }
            assert forall|i: int, j: int| 0 <= i < j < out@.len() implies bytes_lt(
                path_key((#[trigger] out@[i]).0@),
                path_key((#[trigger] out@[j]).0@),
            ) by {
                assert(bytes_lt(path_key(self.listing()[i].0), path_key(self.listing()[j].0)));
            }
        }
        out
    }

    /// The tree that knows the given entries: of a path that comes more than
    /// once, the hash that comes last.
    pub fn from_entries(entries: Vec<(String, [u64; 4])>) -> (r: Self)
        ensures
            r.wf(),
            r@ == entries_folded(Holdings::empty(), entry_texts(entries@)),
    {
        let mut tree = DedupTree::new();
        let ghost all = entry_texts(entries@);
        let mut i: usize = 0;
        while i < entries.len()
            invariant
                i <= entries@.len(),
                all == entry_texts(entries@),
                tree.wf(),
                tree@ == entries_folded(Holdings::empty(), all.take(i as int)),
            decreases entries@.len() - i,
        {
            tree.update_entry(entries[i].0.clone(), entries[i].1);
            proof {
                assert(all.take(i + 1).drop_last() =~= all.take(i as int));
                assert(all.take(i + 1).last() == (entries@[i as int].0@, entries@[i as int].1@));
            }
            i += 1;
        }
        proof {
            assert(all.take(i as int) =~= all);
        }
        tree
    }
}

/// The paths and hashes of a list of entries.
pub open spec fn entry_texts(entries: Seq<(String, [u64; 4])>) -> Seq<(Seq<char>, Seq<u64>)> {
    Seq::new(entries.len(), |i: int| (entries[i].0@, entries[i].1@))
}

/// The store after the given entries were put into it one after the other.
pub open spec fn entries_folded(held: Holdings, entries: Seq<(Seq<char>, Seq<u64>)>) -> Holdings
    decreases entries.len(),
{
    if entries.len() == 0 {
        held
    } else {
        with_entry(entries_folded(held, entries.drop_last()), entries.last().0, entries.last().1)
    }
}

/// Whether `hash` lies behind `after`: behind it in the order of hashes, and
/// always where `after` is nothing.
pub open spec fn lies_behind(after: Option<[u64; 4]>, hash: Seq<u64>) -> bool {
    match after {
        Some(a) => words_lt_seq(a@, hash),
        None => true,
    }
}

/// How many of the first `n` entries have a hash behind `after`: all of them
/// while nothing has been passed yet.
pub open spec fn hashes_behind(
    entries: Seq<(Seq<char>, Seq<u64>)>,
    after: Option<Seq<u64>>,
    n: int,
) -> nat
    decreases n,
{
    if n <= 0 {
        0
    } else {
        hashes_behind(entries, after, n - 1) + (if after matches Some(a) && !words_lt_seq(
            a,
            entries[n - 1].1,
        ) {
            0nat
        } else {
            1nat
        })
    }
}

/// Passing on to a hash that lies behind leaves fewer hashes behind.
proof fn lemma_fewer_behind(
    entries: Seq<(Seq<char>, Seq<u64>)>,
    after: Option<Seq<u64>>,
    next: Seq<u64>,
    at: int,
    n: int,
)
    requires
        0 <= n <= entries.len(),
        forall|k: int| 0 <= k < entries.len() ==> (#[trigger] entries[k]).1.len() == 4,
        next.len() == 4,
        after matches Some(a) ==> a.len() == 4 && words_lt_seq(a, next),
        0 <= at < entries.len(),
        entries[at].1 == next,
    ensures
        hashes_behind(entries, Some(next), n) <= hashes_behind(entries, after, n),
        at < n ==> hashes_behind(entries, Some(next), n) < hashes_behind(entries, after, n),
    decreases n,
{
    if n > 0 {
        lemma_fewer_behind(entries, after, next, at, n - 1);
        let h = entries[n - 1].1;
        lemma_words_order(next, h, h);
        if after is Some {
            lemma_words_order(after->0, next, h);
        }
    }
}

impl DedupTree {
    /// Where the entry with the smallest hash behind `prev` stands, or with
    /// the smallest hash of all where `prev` is nothing: nothing where no
    /// hash lies behind `prev`.
    fn next_hash(&self, prev: Option<[u64; 4]>) -> (best: Option<usize>)
        ensures
            match best {
                Some(b) => {
                    &&& b < self.listing().len()
                    &&& lies_behind(prev, self.listing()[b as int].1)
                    &&& forall|k: int|
                        0 <= k < self.listing().len() && lies_behind(
                            prev,
                            (#[trigger] self.listing()[k]).1,
                        ) ==> !words_lt_seq(self.listing()[k].1, self.listing()[b as int].1)
                },
                None => forall|k: int|
                    0 <= k < self.listing().len() ==> !lies_behind(
                        prev,
                        (#[trigger] self.listing()[k]).1,
                    ),
            },
    {
        let n = self.files.len();
        let ghost l = self.listing();
        proof {
            assert forall|k: int| 0 <= k < l.len() implies (#[trigger] l[k]).1.len() == 4 by {
                assert(l[k].1 == self.files@[k].1@);
            }
        }
        // the entry with the smallest hash behind the last one
        let mut best: Option<usize> = None;
        let mut i: usize = 0;
        while i < n
            invariant
                i <= n,
                n == self.files@.len(),
                l == self.listing(),
                forall|k: int| 0 <= k < l.len() ==> (#[trigger] l[k]).1.len() == 4,
                best matches Some(b) ==> b < i && lies_behind(prev, l[b as int].1),
                best matches Some(b) ==> forall|k: int|
                    0 <= k < i && lies_behind(prev, (#[trigger] l[k]).1) ==> !words_lt_seq(
                        l[k].1,
                        l[b as int].1,
                    ),
                best is None ==> forall|k: int|
                    0 <= k < i ==> !lies_behind(prev, (#[trigger] l[k]).1),
            decreases n - i,
        {
            proof {
                assert(l[i as int].1 == self.files@[i as int].1@);
            }
            let behind = match prev {
                None => true,
                Some(pv) => words_less(&pv, &self.files[i].1),
            };
            if behind {
                match best {
                    None => {
                        best = Some(i);
                    },
                    Some(b) => {
                        proof {
                            assert(l[b as int].1 == self.files@[b as int].1@);
                        }
                        if words_less(&self.files[i].1, &self.files[b].1) {
                            proof {
                                assert forall|k: int|
                                    0 <= k < i && lies_behind(prev, (#[trigger] l[k]).1)
                                    implies !words_lt_seq(l[k].1, l[i as int].1) by {
                                    lemma_words_order(l[k].1, l[i as int].1, l[b as int].1);
                                }
                            }
                            best = Some(i);
                        }
                    },
                }
                proof {
                    lemma_words_order(l[i as int].1, l[i as int].1, l[i as int].1);
                }
            }
            i += 1;
        }
        proof {
            assert(l.len() == n && i == n);
        }
        best
    }
}

impl DedupTree {
    /// The paths that the tree knows with the hash `hash`, in the order of
    /// paths.
    fn paths_of(&self, hash: &[u64; 4]) -> (group: Vec<&str>)
        requires
            self.wf(),
        ensures
            paths_ascend(path_texts(group@)),
            forall|p: Seq<char>|
                path_texts(group@).contains(p) <==> self@.contains((p, hash@)),
    {
        let n = self.files.len();
        let ghost l = self.listing();
        // each path of the hash is put where it belongs in the order of paths
        let mut group: Vec<&str> = Vec::new();
        let ghost mut picked: Seq<int> = Seq::empty();
        let mut i: usize = 0;
        proof {
            self.lemma_listing_is_distinct();
        }
        while i < n
            invariant
                i <= n,
                n == self.files@.len(),
                l == self.listing(),
                l.no_duplicates(),
                group@.len() == picked.len(),
                forall|m: int|
                    0 <= m < picked.len() ==> 0 <= (#[trigger] picked[m]) < i
                        && l[picked[m]].1 == hash@ && group@[m]@ == l[picked[m]].0,
                forall|m: int, q: int|
                    0 <= m < q < group@.len() ==> path_before(
                        (#[trigger] group@[m])@,
                        (#[trigger] group@[q])@,
                    ),
                forall|k: int|
                    0 <= k < i && (#[trigger] l[k]).1 == hash@ ==> exists|m: int|
                        0 <= m < picked.len() && #[trigger] picked[m] == k,
            decreases n - i,
        {
            proof {
                assert(l[i as int].1 == self.files@[i as int].1@);
                assert(l[i as int].0 == self.files@[i as int].0@);
            }
            if words_equal(&self.files[i].1, hash) {
                let path = self.files[i].0.as_str();
                let mut at: usize = 0;
                let mut found = false;
                while at < group.len() && !found
                    invariant
                        at <= group@.len(),
                        found ==> at < group@.len() && path_before(
                            path@,
                            group@[at as int]@,
                        ),
                        forall|m: int|
                            0 <= m < at ==> !path_before(
                                path@,
                                (#[trigger] group@[m])@,
                            ),
                    decreases group@.len() - at + (if found {
                        0nat
                    } else {
                        1nat
                    }),
                {
                    if path_less(path, group[at]) {
                        found = true;
                    } else {
                        at += 1;
                    }
                }
                let ghost old_group = group@;
                let ghost old_picked = picked;
                group.insert(at, path);
                proof {
                    picked = picked.insert(at as int, i as int);
                    assert forall|m: int| 0 <= m < picked.len() implies 0 <= (
                    #[trigger] picked[m]) < i + 1 && l[picked[m]].1 == hash@
                        && group@[m]@ == l[picked[m]].0 by {
                        if m < at {
                            assert(picked[m] == old_picked[m]);
                            assert(group@[m] == old_group[m]);
                        } else if m > at {
                            assert(picked[m] == old_picked[m - 1]);
                            assert(group@[m] == old_group[m - 1]);
                        }
                    }
                    assert forall|m: int, q: int|
                        0 <= m < q < group@.len() implies path_before(
                        (#[trigger] group@[m])@,
                        (#[trigger] group@[q])@,
                    ) by {
                        let x = path@;
                        if q == at {
                            // what stands before the new path
                            assert(group@[m] == old_group[m]);
                            assert(old_group[m]@ == l[old_picked[m]].0);
                            assert(l[old_picked[m]] != l[i as int]);
                            lemma_path_before_total(old_group[m]@, x);
                        } else if m == at {
                            // what stands behind the new path
                            assert(group@[q] == old_group[q - 1]);
                            if q - 1 > at {
                                assert(path_before(
                                    old_group[at as int]@,
                                    old_group[q - 1]@,
                                ));
                                lemma_path_before_transitive(
                                    x,
                                    old_group[at as int]@,
                                    old_group[q - 1]@,
                                );
                            }
                        } else {
                            let m0 = if m < at {
                                m
                            } else {
                                m - 1
                            };
                            let q0 = if q < at {
                                q
                            } else {
                                q - 1
                            };
                            assert(group@[m] == old_group[m0]);
                            assert(group@[q] == old_group[q0]);
                        }
                    }
                    assert forall|k: int|
                        0 <= k < i + 1 && (#[trigger] l[k]).1 == hash@ implies exists|
                        m: int,
                    |
                        0 <= m < picked.len() && #[trigger] picked[m] == k by {
                        if k < i {
                            let m = choose|m: int|
                                0 <= m < old_picked.len() && #[trigger] old_picked[m]
                                    == k;
                            if m < at {
                                assert(picked[m] == k);
                            } else {
                                assert(picked[m + 1] == k);
                            }
                        } else {
                            assert(picked[at as int] == k);
                        }
                    }
                }
            }
            i += 1;
        }
        let ghost texts = path_texts(group@);
        proof {
            // the group holds exactly the paths of the hash
            assert forall|p: Seq<char>|
                texts.contains(p) <==> self@.contains((p, hash@)) by {
                if texts.contains(p) {
                    let m = choose|m: int| 0 <= m < texts.len() && texts[m] == p;
                    assert(l[picked[m]] == (p, hash@));
                }
                if self@.contains((p, hash@)) {
                    let k = choose|k: int| 0 <= k < l.len() && l[k] == (p, hash@);
                    let m = choose|m: int|
                        0 <= m < picked.len() && #[trigger] picked[m] == k;
                    assert(texts[m] == p);
                }
            }
            assert forall|a: int, c: int| 0 <= a < c < texts.len() implies path_before(
                #[trigger] texts[a],
                #[trigger] texts[c],
            ) by {
                assert(path_before(group@[a]@, group@[c]@));
            }
        }
        group
    }
}

/// The texts of a list of paths.
pub open spec fn path_texts(paths: Seq<&str>) -> Seq<Seq<char>> {
    Seq::new(paths.len(), |k: int| paths[k]@)
}

impl DedupTree {
    /// The groups of files with the same content: for every hash that two or
    /// more paths share a group of those paths. The groups come in ascending
    /// order of their hashes, the paths of a group in ascending order of
    /// their components.
    pub fn get_duplicates(&self) -> (r: Vec<Vec<&str>>)
        requires
            self.wf(),
        ensures
            exists|hashes: Seq<[u64; 4]>| is_report(self@, hashes, group_texts(r@)),
    {
        let n = self.files.len();
        let ghost l = self.listing();
        let mut result: Vec<Vec<&str>> = Vec::new();
        let ghost mut hashes: Seq<[u64; 4]> = Seq::empty();
        let mut prev: Option<[u64; 4]> = None;
        let mut more = true;
        proof {
            assert forall|k: int| 0 <= k < l.len() implies (#[trigger] l[k]).1.len() == 4 by {
                assert(l[k].1 == self.files@[k].1@);
            }
        }
        while more
            invariant
                self.wf(),
                n == self.files@.len(),
                l == self.listing(),
                forall|k: int| 0 <= k < l.len() ==> (#[trigger] l[k]).1.len() == 4,
                hashes.len() == result@.len(),
                prev is None ==> result@.len() == 0,
                forall|g: int|
                    0 <= g < result@.len() ==> (#[trigger] group_texts(result@)[g]).len() >= 2
                        && paths_ascend(group_texts(result@)[g]),
                forall|g: int, p: Seq<char>|
                    0 <= g < result@.len() ==> ((#[trigger] group_texts(result@)[g]).contains(p)
                        <==> #[trigger] self@.contains((p, hashes[g]@))),
                forall|g: int, k: int|
                    0 <= g < k < hashes.len() ==> words_lt(#[trigger] hashes[g], #[trigger] hashes[k]),
                forall|g: int|
                    0 <= g < hashes.len() ==> !lies_behind(prev, (#[trigger] hashes[g])@),
                forall|k: int|
                    0 <= k < l.len() && !lies_behind(prev, l[k].1)
                        && has_copies(self@, (#[trigger] l[k]).1) ==> exists|g: int|
                        0 <= g < hashes.len() && (#[trigger] hashes[g])@ == l[k].1,
                !more ==> forall|k: int|
                    0 <= k < l.len() ==> !lies_behind(prev, (#[trigger] l[k]).1),
            decreases
                    (if more {
                        1nat
                    } else {
                        0nat
                    }) + hashes_behind(
                        l,
                        match prev {
                            Some(pv) => Some(pv@),
                            None => None,
                        },
                        l.len() as int,
                    ),
        {
            let best = self.next_hash(prev);
            match best {
                None => {
                    more = false;
                },
                Some(b) => {
                    let hash = self.files[b].1;
                    proof {
                        assert(l[b as int].1 == hash@);
                    }
                    let group = self.paths_of(&hash);
                    let ghost texts = path_texts(group@);
                    proof {
                        // copies of the hash make a group of two or more
                        if has_copies(self@, hash@) {
                            let (p, q) = choose|p: Seq<char>, q: Seq<char>|
                                p != q && self@.contains((p, hash@)) && self@.contains((q, hash@));
                            assert(texts.contains(p) && texts.contains(q));
                            assert(texts.len() >= 2);
                        }
                        lemma_fewer_behind(
                            l,
                            match prev {
                                Some(pv) => Some(pv@),
                                None => None,
                            },
                            hash@,
                            b as int,
                            l.len() as int,
                        );
                    }
                    let ghost old_hashes = hashes;
                    let ghost old_groups = group_texts(result@);
                    let ghost old_prev = prev;
                    let keep = group.len() > 1;
                    if keep {
                        result.push(group);
                        proof {
                            hashes = hashes.push(hash);
                            assert(group_texts(result@) =~= old_groups.push(texts));
                        }
                    }
                    prev = Some(hash);
                    proof {
                        let groups = group_texts(result@);
                        assert forall|g: int| 0 <= g < hashes.len() implies !words_lt(
                            hash,
                            #[trigger] hashes[g],
                        ) by {
                            if g < old_hashes.len() {
                                let pv = old_prev->0;
                                lemma_words_order(hashes[g]@, pv@, hash@);
                                lemma_words_order(pv@, hash@, hashes[g]@);
                                lemma_words_order(hash@, hashes[g]@, pv@);
                            } else {
                                lemma_words_order(hash@, hash@, hash@);
                            }
                        }
                        assert forall|g: int, k: int| 0 <= g < k < hashes.len() implies words_lt(
                            #[trigger] hashes[g],
                            #[trigger] hashes[k],
                        ) by {
                            if k == old_hashes.len() {
                                let pv = old_prev->0;
                                lemma_words_order(hashes[g]@, pv@, hash@);
                                lemma_words_order(pv@, hash@, hashes[g]@);
                                lemma_words_order(pv@, hashes[g]@, hash@);
                            }
                        }
                        assert forall|g: int, p: Seq<char>| 0 <= g < result@.len() implies ((
                        #[trigger] groups[g]).contains(p) <==> #[trigger] self@.contains(
                            (p, hashes[g]@),
                        )) by {
                            if g < old_groups.len() {
                                assert(groups[g] == old_groups[g]);
                            }
                        }
                        assert forall|g: int| 0 <= g < result@.len() implies (
                        #[trigger] groups[g]).len() >= 2 && paths_ascend(groups[g]) by {
                            if g < old_groups.len() {
                                assert(groups[g] == old_groups[g]);
                            }
                        }
                        assert forall|k: int|
                            0 <= k < l.len() && !words_lt_seq(hash@, l[k].1) && has_copies(
                                self@,
                                (#[trigger] l[k]).1,
                            ) implies exists|g: int|
                            0 <= g < hashes.len() && (#[trigger] hashes[g])@ == l[k].1 by {
                            let h = l[k].1;
                            lemma_words_order(h, hash@, hash@);
                            if !lies_behind(old_prev, h) {
                                let g = choose|g: int|
                                    0 <= g < old_hashes.len() && (#[trigger] old_hashes[g])@ == h;
                                assert(hashes[g]@ == h);
                            } else {
                                // behind the last hash and not behind this one
                                assert(!words_lt_seq(h, hash@));
                                assert(h == hash@);
                                assert(keep);
                                assert(hashes[hashes.len() - 1]@ == h);
                            }
                        }
                    }
                },
            }
        }
        proof {
            assert forall|h: Seq<u64>| #[trigger] has_copies(self@, h) implies exists|g: int|
                0 <= g < hashes.len() && (#[trigger] hashes[g])@ == h by {
                let (p, q) = choose|p: Seq<char>, q: Seq<char>|
                    p != q && self@.contains((p, h)) && self@.contains((q, h));
                let k = choose|k: int| 0 <= k < l.len() && l[k] == (p, h);
                assert(l[k].1 == h);
            }
            assert(is_report(self@, hashes, group_texts(result@)));
        }
        result
    }
}

/// What a scan found: of each path the hash of its content, or nothing
/// where the file could not be read.
pub open spec fn scan_texts(scanned: Seq<(String, Result<[u64; 4], std::io::Error>)>) -> Seq<
    (Seq<char>, Option<Seq<u64>>),
> {
    Seq::new(
        scanned.len(),
        |i: int|
            (
                scanned[i].0@,
                match scanned[i].1 {
                    Ok(hash) => Some(hash@),
                    Err(_) => None,
                },
            ),
    )
}

/// The store after the files that a scan could read were put into it, one
/// after the other.
pub open spec fn scan_folded(held: Holdings, scanned: Seq<(Seq<char>, Option<Seq<u64>>)>) -> Holdings
    decreases scanned.len(),
{
    if scanned.len() == 0 {
        held
    } else {
        let before = scan_folded(held, scanned.drop_last());
        match scanned.last().1 {
            Some(hash) => with_entry(before, scanned.last().0, hash),
            None => before,
        }
    }
}

/// Whether a scan met `path`.
pub open spec fn was_scanned(scanned: Seq<(Seq<char>, Option<Seq<u64>>)>, path: Seq<char>) -> bool {
    exists|i: int| 0 <= i < scanned.len() && (#[trigger] scanned[i]).0 == path
}

/// The store without the files that lie under `root` and that a scan of
/// `root` did not meet again.
pub open spec fn without_orphans(
    held: Holdings,
    root: Seq<char>,
    scanned: Seq<(Seq<char>, Option<Seq<u64>>)>,
) -> Holdings {
    held.filter(
        |e: (Seq<char>, Seq<u64>)|
            !(is_under(path_key(e.0), path_key(root)) && !was_scanned(scanned, e.0)),
    )
}

/// How many files a scan could not read.
pub open spec fn scan_failures(scanned: Seq<(Seq<char>, Option<Seq<u64>>)>) -> nat
    decreases scanned.len(),
{
    if scanned.len() == 0 {
        0
    } else {
        scan_failures(scanned.drop_last()) + (if scanned.last().1 is None {
            1nat
        } else {
            0nat
        })
    }
}

impl DedupTree {
    /// Takes in what a scan of `root` found: the files that could be read
    /// get their hashes, the files under `root` that the scan did not meet
    /// again are forgotten, and the files that could not be read are left as
    /// they were and returned with their errors.
    pub fn update(
        &mut self,
        root: &str,
        scanned: Vec<(String, Result<[u64; 4], std::io::Error>)>,
    ) -> (r: Option<crate::MultipleIoErrors>)
        requires
            old(self).wf(),
        ensures
            final(self).wf(),
            final(self)@ == without_orphans(
                scan_folded(old(self)@, scan_texts(scanned@)),
                root@,
                scan_texts(scanned@),
            ),
            match r {
                None => scan_failures(scan_texts(scanned@)) == 0,
                Some(errors) => errors.0@.len() == scan_failures(scan_texts(scanned@))
                    && errors.0@.len() > 0,
            },
    {
        let ghost all = scan_texts(scanned@);
        let mut errors = crate::MultipleIoErrors::new();
        // the paths that the scan met
        let mut met: Vec<String> = Vec::new();
        let mut i: usize = 0;
        while i < scanned.len()
            invariant
                i <= scanned@.len(),
                met@.len() == i,
                forall|j: int| 0 <= j < i ==> (#[trigger] met@[j])@ == scanned@[j].0@,
            decreases scanned@.len() - i,
        {
            met.push(scanned[i].0.clone());
            i += 1;
        }
        // run through the scan and update the tree
        let mut rest = scanned;
        let mut pending: Vec<(String, Result<[u64; 4], std::io::Error>)> = Vec::new();
        while rest.len() > 0
            invariant
                pending@.len() + rest@.len() == all.len(),
                forall|j: int|
                    0 <= j < rest@.len() ==> scan_texts(rest@)[j] == #[trigger] all[j],
                forall|j: int|
                    0 <= j < pending@.len() ==> #[trigger] scan_texts(pending@)[j] == all[all.len()
                        - 1 - j],
            decreases rest@.len(),
        {
            let ghost old_rest = rest@;
            let ghost old_pending = pending@;
            match rest.pop() {
                Some(item) => {
                    pending.push(item);
                    proof {
                        assert(scan_texts(old_rest)[old_rest.len() - 1] == all[old_rest.len() - 1]);
                        assert forall|j: int| 0 <= j < pending@.len() implies #[trigger] scan_texts(
                            pending@,
                        )[j] == all[all.len() - 1 - j] by {
                            if j < old_pending.len() {
                                assert(scan_texts(pending@)[j] == scan_texts(old_pending)[j]);
                            } else {
                                assert(scan_texts(pending@)[j] == scan_texts(old_rest)[
                                    old_rest.len() - 1]);
                            }
                        }
                        assert forall|j: int| 0 <= j < rest@.len() implies scan_texts(rest@)[j]
                            == #[trigger] all[j] by {
                            assert(scan_texts(rest@)[j] == scan_texts(old_rest)[j]);
                        }
                    }
                },
                None => {},
            }
        }
        let mut taken: usize = 0;
        proof {
            assert(all.len() == met@.len());
            assert(all.take(0) =~= Seq::empty());
        }
        while pending.len() > 0
            invariant
                self.wf(),
                taken + pending@.len() == all.len(),
                all.len() <= usize::MAX,
                forall|j: int|
                    0 <= j < pending@.len() ==> #[trigger] scan_texts(pending@)[j] == all[all.len()
                        - 1 - j],
                self@ == scan_folded(old(self)@, all.take(taken as int)),
                errors.0@.len() == scan_failures(all.take(taken as int)),
            decreases pending@.len(),
        {
            let ghost before = pending@;
            match pending.pop() {
                Some((path, outcome)) => {
                    proof {
                        let item = scan_texts(before)[before.len() - 1];
                        assert(item == all[taken as int]);
                        assert(all.take(taken + 1).drop_last() =~= all.take(taken as int));
                        assert(all.take(taken + 1).last() == all[taken as int]);
                        assert forall|j: int| 0 <= j < pending@.len() implies #[trigger] scan_texts(
                            pending@,
                        )[j] == all[all.len() - 1 - j] by {
                            assert(scan_texts(pending@)[j] == scan_texts(before)[j]);
                        }
                    }
                    match outcome {
                        Ok(hash) => {
                            self.update_entry(path, hash);
                        },
                        Err(e) => {
                            errors.add(path, e);
                        },
                    }
                    taken += 1;
                },
                None => {},
            }
        }
        proof {
            assert(all.take(taken as int) =~= all);
        }
        // cleanup orphan entries
        let ghost updated = *self;
        let mut i: usize = 0;
        while i < self.files.len()
            invariant
                self.wf(),
                updated.wf(),
                i <= self.listing().len(),
                all == scan_texts(scanned@),
                met@.len() == all.len(),
                forall|j: int| 0 <= j < met@.len() ==> (#[trigger] met@[j])@ == all[j].0,
                forall|j: int|
                    0 <= j < i ==> !(is_under(
                        path_key(#[trigger] self.listing()[j].0),
                        path_key(root@),
                    ) && !was_scanned(all, self.listing()[j].0)),
                forall|x: (Seq<char>, Seq<u64>)| self@.contains(x) ==> updated@.contains(x),
                forall|x: (Seq<char>, Seq<u64>)|
                    updated@.contains(x) && !(is_under(path_key(x.0), path_key(root@))
                        && !was_scanned(all, x.0)) ==> self@.contains(x),
            decreases self.listing().len() - i,
        {
            let mut orphan = path_is_under(self.files[i].0.as_str(), root);
            if orphan {
                // file is in tree: was it found again?
                let mut j: usize = 0;
                while j < met.len()
                    invariant
                        j <= met@.len(),
                        i < self.files@.len(),
                        met@.len() == all.len(),
                        forall|k: int| 0 <= k < met@.len() ==> (#[trigger] met@[k])@ == all[k].0,
                        orphan == !(exists|k: int|
                            0 <= k < j && (#[trigger] all[k]).0 == self.files@[i as int].0@),
                    decreases met@.len() - j,
                {
                    if met[j] == self.files[i].0 {
                        proof {
                            assert(all[j as int].0 == self.files@[i as int].0@);
                        }
                        orphan = false;
                    }
                    j += 1;
                }
            }
            proof {
                assert(self.listing()[i as int].0 == self.files@[i as int].0@);
            }
            if orphan {
                let ghost before = *self;
                proof {
                    assert(self@.contains(self.listing()[i as int]));
                }
                self.files.remove(i);
                proof {
                    assert(self.listing() =~= before.listing().remove(i as int));
                    self.lemma_removed(before, i as int);
                    assert forall|j: int| 0 <= j < i implies !(is_under(
                        path_key(#[trigger] self.listing()[j].0),
                        path_key(root@),
                    ) && !was_scanned(all, self.listing()[j].0)) by {
                        assert(self.listing()[j] == before.listing()[j]);
                    }
                }
            } else {
                i += 1;
            }
        }
        proof {
            assert forall|x: (Seq<char>, Seq<u64>)|
                self@.contains(x) == without_orphans(updated@, root@, all).contains(x) by {
                if self@.contains(x) {
                    let k = choose|k: int| 0 <= k < self.listing().len() && self.listing()[k] == x;
                    assert(!(is_under(path_key(self.listing()[k].0), path_key(root@))
                        && !was_scanned(all, self.listing()[k].0)));
                }
            }
            assert(self@ =~= without_orphans(updated@, root@, all));
        }
        // error handling
        if errors.is_empty() {
            None
        } else {
            Some(errors)
        }
    }
}

impl DedupTree {
    /// Tells whether the tree is well-formed.
    pub fn check(&self) -> (r: bool)
        ensures
            r == self.wf(),
    {
        let n = self.files.len();
        let mut i: usize = 1;
        while i < n
            invariant
                1 <= i,
                n == self.files@.len(),
                forall|a: int, b: int|
                    0 <= a < b < i && b < n ==> bytes_lt(
                        path_key(#[trigger] self.listing()[a].0),
                        path_key(#[trigger] self.listing()[b].0),
                    ),
            decreases n - i,
        {
            proof {
                assert(self.listing()[i - 1].0 == self.files@[i - 1].0@);
                assert(self.listing()[i as int].0 == self.files@[i as int].0@);
            }
            if !bytes_less(
                self.files[i - 1].0.as_str().as_bytes(),
                self.files[i].0.as_str().as_bytes(),
            ) {
                return false;
            }
            proof {
                let l = self.listing();
                assert forall|a: int, b: int| 0 <= a < b < i + 1 && b < n implies bytes_lt(
                    path_key(#[trigger] l[a].0),
                    path_key(#[trigger] l[b].0),
                ) by {
                    if b == i && a < i - 1 {
                        assert(bytes_lt(path_key(l[a].0), path_key(l[i - 1].0)));
                        lemma_bytes_lt_transitive(
                            path_key(l[a].0),
                            path_key(l[i - 1].0),
                            path_key(l[i as int].0),
                        );
                    }
                }
            }
            i += 1;
        }
        true
    }
}

} // verus!
