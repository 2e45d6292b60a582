//! The managed directory tree.
//!
//! `FsTree` is an in-memory model of the slice of the filesystem that the
//! core manages: a set of directory paths and a map from file paths to
//! byte contents, each path a sequence of name components.  All recursive
//! tree operations (scan, copy, delete, create) are specified and proved
//! over the abstract `TreeView`; the host shell mirrors them onto disk.

use vstd::prelude::*;

use crate::errors::FsError;
use crate::text::{
    clone_bytes, clone_path, is_prefix_of, path_eq, path_has_prefix, path_view, paths_view,
    prefix_path,
};

verus! {

/// The key paths of a stored file-entry list, in storage order.
pub open spec fn file_keys(s: Seq<(Vec<Vec<u8>>, Vec<u8>)>) -> Seq<Seq<Seq<u8>>> {
    s.map_values(|e: (Vec<Vec<u8>>, Vec<u8>)| path_view(e.0@))
}

/// All initial segments of a path, the empty path and `p` itself included.
pub open spec fn prefixes_of(p: Seq<Seq<u8>>) -> Set<Seq<Seq<u8>>> {
    Set::new(|q: Seq<Seq<u8>>| exists|k: int| 0 <= k <= p.len() && q == #[trigger] p.take(k))
}

/// The abstract state of a managed tree: which paths are directories and
/// what bytes each file path holds.
#[verifier::ext_equal]
pub ghost struct TreeView {
    pub dirs: Set<Seq<Seq<u8>>>,
    pub files: Map<Seq<Seq<u8>>, Seq<u8>>,
}

impl TreeView {
    /// Well-formedness: directories are closed under parents, every file
    /// hangs under a directory, and no path is both a file and a directory.
    pub open spec fn wf(self) -> bool {
        &&& forall|p: Seq<Seq<u8>>|
            #[trigger] self.dirs.contains(p) && p.len() > 0 ==> self.dirs.contains(p.drop_last())
        &&& forall|p: Seq<Seq<u8>>|
            #[trigger] self.files.dom().contains(p) ==> p.len() > 0 && self.dirs.contains(
                p.drop_last(),
            ) && !self.dirs.contains(p)
    }

    /// The state after creating directory `p` and all its missing ancestors.
    pub open spec fn with_dir_chain(self, p: Seq<Seq<u8>>) -> TreeView {
        TreeView { dirs: self.dirs.union(prefixes_of(p)), files: self.files }
    }

    /// The state after writing `content` to file `p`, parent directories
    /// created as needed.
    pub open spec fn with_file(self, p: Seq<Seq<u8>>, content: Seq<u8>) -> TreeView {
        TreeView {
            dirs: self.dirs.union(prefixes_of(p.drop_last())),
            files: self.files.insert(p, content),
        }
    }

    /// The state after removing the single file `p`.
    pub open spec fn without_file(self, p: Seq<Seq<u8>>) -> TreeView {
        TreeView { dirs: self.dirs, files: self.files.remove(p) }
    }

    /// In a well-formed tree every initial segment of a directory path is
    /// itself a directory.
    pub proof fn lemma_dir_prefix_closure(self, d: Seq<Seq<u8>>, t: int)
        requires
            self.wf(),
            self.dirs.contains(d),
            0 <= t <= d.len(),
        ensures
            self.dirs.contains(d.take(t)),
        decreases d.len() - t,
    {
        if t == d.len() {
            assert(d.take(t) =~~= d);
        } else {
            self.lemma_dir_prefix_closure(d, t + 1);
            assert(d.take(t + 1).drop_last() =~~= d.take(t));
        }
    }

    /// The state after copying the whole subtree at `src` onto `dst`:
    /// every directory and file below `src` reappears below `dst`, files
    /// already at the target positions are overwritten, everything else
    /// stays.
    pub open spec fn copied_tree(self, src: Seq<Seq<u8>>, dst: Seq<Seq<u8>>) -> TreeView {
        TreeView {
            dirs: self.dirs.union(prefixes_of(dst)).union(
                Set::new(
                    |q: Seq<Seq<u8>>|
                        exists|d: Seq<Seq<u8>>|
                            #[trigger] self.dirs.contains(d) && is_prefix_of(src, d) && q == dst
                                + d.skip(src.len() as int),
                ),
            ),
            files: Map::new(
                |q: Seq<Seq<u8>>|
                    self.files.dom().contains(q) || exists|f: Seq<Seq<u8>>|
                        #[trigger] self.files.dom().contains(f) && is_prefix_of(src, f) && q == dst
                            + f.skip(src.len() as int),
                |q: Seq<Seq<u8>>|
                    if exists|f: Seq<Seq<u8>>|
                        #[trigger] self.files.dom().contains(f) && is_prefix_of(src, f) && q == dst
                            + f.skip(src.len() as int) {
                        self.files[choose|f: Seq<Seq<u8>>|
                            #[trigger] self.files.dom().contains(f) && is_prefix_of(src, f) && q
                                == dst + f.skip(src.len() as int)]
                    } else {
                        self.files[q]
                    },
            ),
        }
    }

    /// The state after removing `root` and everything below it.
    pub open spec fn without_subtree(self, root: Seq<Seq<u8>>) -> TreeView {
        TreeView {
            dirs: Set::new(|q: Seq<Seq<u8>>| self.dirs.contains(q) && !is_prefix_of(root, q)),
            files: Map::new(
                |q: Seq<Seq<u8>>| self.files.dom().contains(q) && !is_prefix_of(root, q),
                |q: Seq<Seq<u8>>| self.files[q],
            ),
        }
    }
}

/// The concrete managed tree: association lists of directory paths and of
/// file paths with their contents.
pub struct FsTree {
    pub dirs: Vec<Vec<Vec<u8>>>,
    pub files: Vec<(Vec<Vec<u8>>, Vec<u8>)>,
}

impl View for FsTree {
    type V = TreeView;

    open spec fn view(&self) -> TreeView {
        TreeView {
            dirs: Set::new(|p: Seq<Seq<u8>>| self.dir_seq().contains(p)),
            files: Map::new(
                |p: Seq<Seq<u8>>| self.file_key_seq().contains(p),
                |p: Seq<Seq<u8>>| self.files@[self.file_key_seq().index_of(p)].1@,
            ),
        }
    }
}

impl FsTree {
    /// The directory paths in storage order.
    pub open spec fn dir_seq(&self) -> Seq<Seq<Seq<u8>>> {
        self.dirs@.map_values(|d: Vec<Vec<u8>>| path_view(d@))
    }

    /// The file paths in storage order.
    pub open spec fn file_key_seq(&self) -> Seq<Seq<Seq<u8>>> {
        file_keys(self.files@)
    }

    /// Internal invariant: stored paths are duplicate-free and the view is
    /// well-formed.
    pub open spec fn inv(&self) -> bool {
        &&& forall|i: int, j: int|
            0 <= i < j < self.dir_seq().len() ==> #[trigger] self.dir_seq()[i]
                != #[trigger] self.dir_seq()[j]
        &&& forall|i: int, j: int|
            0 <= i < j < self.file_key_seq().len() ==> #[trigger] self.file_key_seq()[i]
                != #[trigger] self.file_key_seq()[j]
        &&& self@.wf()
    }

    /// A fresh tree holding only its root directory.
    pub fn new() -> (r: FsTree)
        ensures
            r.inv(),
            r@.dirs =~= Set::<Seq<Seq<u8>>>::empty().insert(Seq::empty()),
            r@.files =~= Map::<Seq<Seq<u8>>, Seq<u8>>::empty(),
    {
        let mut dirs: Vec<Vec<Vec<u8>>> = Vec::new();
        dirs.push(Vec::new());
        let r = FsTree { dirs, files: Vec::new() };
        proof {
            assert(r.dir_seq() =~~= seq![Seq::<Seq<u8>>::empty()]);
            assert(r.file_key_seq() =~= Seq::<Seq<Seq<u8>>>::empty());
            assert(r.dir_seq()[0] == Seq::<Seq<u8>>::empty());
            assert(r.dir_seq().contains(Seq::<Seq<u8>>::empty()));
            assert forall|p: Seq<Seq<u8>>| r.dir_seq().contains(p) implies p
                == Seq::<Seq<u8>>::empty() by {
                let i = choose|i: int| 0 <= i < r.dir_seq().len() && r.dir_seq()[i] == p;
                assert(i == 0);
            }
            assert(r@.dirs =~~= Set::<Seq<Seq<u8>>>::empty().insert(Seq::empty()));
            assert(r@.files =~= Map::<Seq<Seq<u8>>, Seq<u8>>::empty());
            assert(Seq::<Seq<u8>>::empty().len() == 0);
        }
        r
    }

    /// The index of directory path `p` in storage, if present.
    fn dir_index(&self, p: &Vec<Vec<u8>>) -> (r: Option<usize>)
        ensures
            match r {
                Some(i) => i < self.dirs@.len() && self.dir_seq()[i as int] == path_view(p@)
                    && self@.dirs.contains(path_view(p@)),
                None => !self@.dirs.contains(path_view(p@)),
            },
    {
        let mut i: usize = 0;
        while i < self.dirs.len()
            invariant
                0 <= i <= self.dirs@.len(),
                forall|j: int| 0 <= j < i ==> #[trigger] self.dir_seq()[j] != path_view(p@),
            decreases self.dirs@.len() - i,
        {
            if path_eq(&self.dirs[i], p) {
                assert(self.dir_seq()[i as int] == path_view(p@));
                return Some(i);
            }
            assert(self.dir_seq()[i as int] != path_view(p@));
            i += 1;
        }
        proof {
            if self@.dirs.contains(path_view(p@)) {
                let j = choose|j: int|
                    0 <= j < self.dir_seq().len() && self.dir_seq()[j] == path_view(p@);
                assert(self.dir_seq()[j] != path_view(p@));
            }
        }
        None
    }

    /// Whether `p` is a directory of the tree.
    pub fn has_dir(&self, p: &Vec<Vec<u8>>) -> (r: bool)
        ensures
            r == self@.dirs.contains(path_view(p@)),
    {
        match self.dir_index(p) {
            Some(_) => true,
            None => false,
        }
    }

    /// The unique index in storage and the stored content of the file at
    /// `p`, if any.
    fn file_index(&self, p: &Vec<Vec<u8>>) -> (r: Option<usize>)
        requires
            self.keys_distinct(),
        ensures
            match r {
                Some(i) => i < self.files@.len() && self.file_key_seq()[i as int] == path_view(p@)
                    && self@.files.dom().contains(path_view(p@)) && self@.files[path_view(p@)]
                    == self.files@[i as int].1@,
                None => !self@.files.dom().contains(path_view(p@)),
            },
    {
        let mut i: usize = 0;
        while i < self.files.len()
            invariant
                0 <= i <= self.files@.len(),
                self.keys_distinct(),
                forall|j: int| 0 <= j < i ==> #[trigger] self.file_key_seq()[j] != path_view(p@),
            decreases self.files@.len() - i,
        {
            if path_eq(&self.files[i].0, p) {
                assert(self.file_key_seq()[i as int] == path_view(p@));
                proof {
                    self.lemma_file_lookup(i as int);
                }
                return Some(i);
            }
            assert(self.file_key_seq()[i as int] != path_view(p@));
            i += 1;
        }
        proof {
            if self@.files.dom().contains(path_view(p@)) {
                let j = choose|j: int|
                    0 <= j < self.file_key_seq().len() && self.file_key_seq()[j] == path_view(p@);
                assert(self.file_key_seq()[j] != path_view(p@));
            }
        }
        None
    }

    /// File keys are duplicate-free.
    pub open spec fn keys_distinct(&self) -> bool {
        forall|i: int, j: int|
            0 <= i < j < self.file_key_seq().len() ==> #[trigger] self.file_key_seq()[i]
                != #[trigger] self.file_key_seq()[j]
    }

    /// With duplicate-free keys, position `i` in storage is what the view
    /// map returns for its key.
    pub proof fn lemma_file_lookup(&self, i: int)
        requires
            self.keys_distinct(),
            0 <= i < self.files@.len(),
        ensures
            self@.files.dom().contains(self.file_key_seq()[i]),
            self@.files[self.file_key_seq()[i]] == self.files@[i].1@,
    {
        let p = self.file_key_seq()[i];
        assert(self.file_key_seq().contains(p));
        let j = self.file_key_seq().index_of(p);
        assert(0 <= j < self.file_key_seq().len() && self.file_key_seq()[j] == p);
        if j < i {
            assert(self.file_key_seq()[j] != self.file_key_seq()[i]);
        } else if i < j {
            assert(self.file_key_seq()[i] != self.file_key_seq()[j]);
        }
        assert(j == i);
    }

    /// Whether `p` is a file of the tree.
    pub fn has_file(&self, p: &Vec<Vec<u8>>) -> (r: bool)
        requires
            self.keys_distinct(),
        ensures
            r == self@.files.dom().contains(path_view(p@)),
    {
        match self.file_index(p) {
            Some(_) => true,
            None => false,
        }
    }

    /// Inserts directory path `q` into storage unless already present.
    fn insert_dir_if_missing(&mut self, q: &Vec<Vec<u8>>)
        requires
            old(self).inv(),
            path_view(q@).len() > 0 ==> old(self)@.dirs.contains(path_view(q@).drop_last()),
            !old(self)@.files.dom().contains(path_view(q@)),
        ensures
            final(self).inv(),
            final(self)@.dirs == old(self)@.dirs.insert(path_view(q@)),
            final(self)@.files == old(self)@.files,
    {
        let ghost qv = path_view(q@);
        match self.dir_index(q) {
            Some(_) => {
                proof {
                    assert(self@.dirs =~~= self@.dirs.insert(qv));
                }
            },
            None => {
                let ghost pre = *self;
                self.dirs.push(clone_path(q));
                proof {
                    assert(self.files == pre.files);
                    assert(self.dir_seq().len() == pre.dir_seq().len() + 1);
                    assert forall|j: int| 0 <= j < self.dir_seq().len() implies self.dir_seq()[j]
                        == pre.dir_seq().push(qv)[j] by {
                        if j < pre.dir_seq().len() {
                            assert(self.dirs@[j] == pre.dirs@[j]);
                        } else {
                            assert(path_view(self.dirs@[j]@) == qv);
                        }
                    }
                    assert(self.dir_seq() =~~= pre.dir_seq().push(qv));
                    assert forall|x: Seq<Seq<u8>>| self.dir_seq().contains(x) implies
                        pre@.dirs.insert(qv).contains(x) by {
                        let j = choose|j: int|
                            0 <= j < self.dir_seq().len() && self.dir_seq()[j] == x;
                        if j < pre.dir_seq().len() {
                            assert(pre.dir_seq()[j] == x);
                        }
                    }
                    assert forall|x: Seq<Seq<u8>>| pre@.dirs.insert(qv).contains(x) implies
                        self.dir_seq().contains(x) by {
                        if x == qv {
                            assert(self.dir_seq()[pre.dir_seq().len() as int] == x);
                        } else {
                            let j = choose|j: int|
                                0 <= j < pre.dir_seq().len() && pre.dir_seq()[j] == x;
                            assert(self.dir_seq()[j] == x);
                        }
                    }
                    assert(self@.dirs =~~= pre@.dirs.insert(qv));
                    assert(self@.files =~~= pre@.files);
                    // storage stays duplicate-free
                    assert forall|i: int, j: int|
                        0 <= i < j < self.dir_seq().len() implies #[trigger] self.dir_seq()[i]
                        != #[trigger] self.dir_seq()[j] by {
                        if j == pre.dir_seq().len() {
                            assert(!pre@.dirs.contains(qv));
                            assert(pre.dir_seq()[i] != qv);
                        }
                    }
                    // the view stays well-formed
                    assert forall|x: Seq<Seq<u8>>|
                        #[trigger] self@.dirs.contains(x) && x.len() > 0 implies
                        self@.dirs.contains(x.drop_last()) by {
                        if x != qv {
                            assert(pre@.dirs.contains(x));
                        }
                    }
                    assert(self.inv());
                }
            },
        }
    }

    /// Creates directory `p` and all its missing ancestors.
    ///
    /// Callers must first rule out a file standing anywhere on the chain.
    pub fn add_dir_chain(&mut self, p: &Vec<Vec<u8>>)
        requires
            old(self).inv(),
            forall|k: int|
                0 <= k <= p@.len() ==> !old(self)@.files.dom().contains(
                    #[trigger] path_view(p@).take(k),
                ),
        ensures
            final(self).inv(),
            final(self)@ == old(self)@.with_dir_chain(path_view(p@)),
    {
        let ghost pv = path_view(p@);
        let ghost v0 = old(self)@;
        let mut q: Vec<Vec<u8>> = Vec::new();
        let mut k: usize = 0;
        proof {
            assert(path_view(q@) =~~= pv.take(0));
        }
        while k < p.len()
            invariant
                self.inv(),
                k <= p@.len(),
                pv == path_view(p@),
                v0 == old(self)@,
                forall|k0: int|
                    0 <= k0 <= p@.len() ==> !v0.files.dom().contains(#[trigger] pv.take(k0)),
                path_view(q@) == pv.take(k as int),
                self@.files == v0.files,
                forall|x: Seq<Seq<u8>>|
                    #[trigger] self@.dirs.contains(x) <==> v0.dirs.contains(x) || exists|k0: int|
                        0 <= k0 < k && x == #[trigger] pv.take(k0),
            decreases p@.len() - k,
        {
            proof {
                if path_view(q@).len() > 0 {
                    assert(path_view(q@).drop_last() =~~= pv.take(k - 1));
                }
            }
            self.insert_dir_if_missing(&q);
            q.push(clone_bytes(&p[k]));
            proof {
                assert(path_view(q@).len() == k + 1);
                assert forall|j: int| 0 <= j < k + 1 implies path_view(q@)[j] == pv.take(
                    k + 1,
                )[j] by {
                    if j < k {
                        assert(path_view(q@)[j] == pv.take(k as int)[j]);
                    } else {
                        assert(q@[j]@ == p@[k as int]@);
                    }
                }
                assert(path_view(q@) =~~= pv.take(k + 1));
            }
            k += 1;
        }
        proof {
            if path_view(q@).len() > 0 {
                assert(path_view(q@).drop_last() =~~= pv.take(p@.len() - 1));
            }
            assert(path_view(q@) == pv.take(p@.len() as int));
            assert(pv.take(p@.len() as int) =~~= pv);
        }
        self.insert_dir_if_missing(&q);
        proof {
            assert forall|x: Seq<Seq<u8>>| self@.dirs.contains(x) implies v0.with_dir_chain(
                pv,
            ).dirs.contains(x) by {
                if x == pv {
                    assert(prefixes_of(pv).contains(x)) by {
                        assert(x == pv.take(pv.len() as int));
                    }
                }
            }
            assert forall|x: Seq<Seq<u8>>| v0.with_dir_chain(pv).dirs.contains(x) implies
                self@.dirs.contains(x) by {
                if prefixes_of(pv).contains(x) {
                    let k0 = choose|k0: int| 0 <= k0 <= pv.len() && x == #[trigger] pv.take(k0);
                    if k0 == pv.len() {
                        assert(x == pv.take(pv.len() as int));
                        assert(pv.take(pv.len() as int) =~~= pv);
                    }
                }
            }
            assert(self@.dirs =~~= v0.with_dir_chain(pv).dirs);
            assert(self@ =~~= v0.with_dir_chain(pv));
        }
    }

    /// Writes `content` at file path `p`, creating missing parent
    /// directories and overwriting any existing file at `p`.
    pub fn put_file(&mut self, p: &Vec<Vec<u8>>, content: Vec<u8>)
        requires
            old(self).inv(),
            p@.len() > 0,
            !old(self)@.dirs.contains(path_view(p@)),
            forall|k: int|
                0 <= k < p@.len() ==> !old(self)@.files.dom().contains(
                    #[trigger] path_view(p@).take(k),
                ),
        ensures
            final(self).inv(),
            final(self)@ == old(self)@.with_file(path_view(p@), content@),
    {
        let ghost pv = path_view(p@);
        let ghost v0 = old(self)@;
        let parent = prefix_path(p, p.len() - 1);
        proof {
            assert(path_view(parent@) == pv.take(p@.len() - 1));
            assert(pv.take(p@.len() - 1) =~~= pv.drop_last());
            assert forall|k: int| 0 <= k <= path_view(parent@).len() implies !v0.files.dom(
            ).contains(#[trigger] path_view(parent@).take(k)) by {
                assert(path_view(parent@).take(k) =~~= pv.take(k));
            }
        }
        self.add_dir_chain(&parent);
        let ghost v1 = self@;
        proof {
            assert(v1.dirs.contains(pv.drop_last())) by {
                assert(prefixes_of(pv.drop_last()).contains(pv.drop_last())) by {
                    assert(pv.drop_last() == pv.drop_last().take(pv.drop_last().len() as int));
                }
            }
            assert(!v1.dirs.contains(pv)) by {
                if prefixes_of(pv.drop_last()).contains(pv) {
                    let k0 = choose|k0: int|
                        0 <= k0 <= pv.drop_last().len() && pv == #[trigger] pv.drop_last().take(
                            k0,
                        );
                    assert(pv.len() == k0);
                }
            }
            assert forall|k: int| 0 <= k < pv.len() implies !v1.files.dom().contains(
                #[trigger] pv.take(k),
            ) by {}
        }
        let cp = clone_path(p);
        match self.file_index(p) {
            Some(i) => {
                let ghost pre = *self;
                self.files.set(i, (cp, content));
                proof {
                    assert(self.dirs == pre.dirs);
                    assert(self.file_key_seq().len() == pre.file_key_seq().len());
                    assert forall|j: int| 0 <= j < self.file_key_seq().len() implies
                        self.file_key_seq()[j] == pre.file_key_seq()[j] by {
                        if j == i {
                            assert(path_view(cp@) == pv);
                        } else {
                            assert(self.files@[j] == pre.files@[j]);
                        }
                    }
                    assert(self.file_key_seq() =~~= pre.file_key_seq());
                    assert(self@.dirs =~~= v1.dirs);
                    assert(self.keys_distinct());
                    self.lemma_file_lookup(i as int);
                    assert(self@.files[pv] == content@);
                    assert forall|x: Seq<Seq<u8>>|
                        self@.files.dom().contains(x) && x != pv implies self@.files[x]
                        == v1.files[x] by {
                        let j = choose|j: int|
                            0 <= j < pre.file_key_seq().len() && pre.file_key_seq()[j] == x;
                        assert(j != i);
                        self.lemma_file_lookup(j);
                        pre.lemma_file_lookup(j);
                        assert(self.files@[j] == pre.files@[j]);
                    }
                    assert(self@.files =~~= v1.files.insert(pv, content@));
                    assert(self@ =~~= v0.with_file(pv, content@));
                    assert(self@.wf());
                }
            },
            None => {
                let ghost pre = *self;
                self.files.push((cp, content));
                proof {
                    assert(self.dirs == pre.dirs);
                    assert(self.file_key_seq().len() == pre.file_key_seq().len() + 1);
                    assert forall|j: int| 0 <= j < self.file_key_seq().len() implies
                        self.file_key_seq()[j] == pre.file_key_seq().push(pv)[j] by {
                        if j < pre.file_key_seq().len() {
                            assert(self.files@[j] == pre.files@[j]);
                        } else {
                            assert(path_view(cp@) == pv);
                        }
                    }
                    assert(self.file_key_seq() =~~= pre.file_key_seq().push(pv));
                    assert(self@.dirs =~~= v1.dirs);
                    assert forall|a: int, b: int|
                        0 <= a < b < self.file_key_seq().len() implies
                        #[trigger] self.file_key_seq()[a] != #[trigger] self.file_key_seq()[b] by {
                        if b == pre.file_key_seq().len() {
                            assert(pre.file_key_seq()[a] != pv);
                        }
                    }
                    assert(self.keys_distinct());
                    self.lemma_file_lookup(pre.file_key_seq().len() as int);
                    assert(self@.files[pv] == content@);
                    assert forall|x: Seq<Seq<u8>>|
                        self@.files.dom().contains(x) && x != pv implies v1.files.dom().contains(
                            x,
                        ) && self@.files[x] == v1.files[x] by {
                        let j = choose|j: int|
                            0 <= j < self.file_key_seq().len() && self.file_key_seq()[j] == x;
                        assert(j < pre.file_key_seq().len());
                        assert(pre.file_key_seq()[j] == x);
                        self.lemma_file_lookup(j);
                        pre.lemma_file_lookup(j);
                        assert(self.files@[j] == pre.files@[j]);
                    }
                    assert forall|x: Seq<Seq<u8>>|
                        v1.files.dom().contains(x) implies self@.files.dom().contains(x) by {
                        let j = choose|j: int|
                            0 <= j < pre.file_key_seq().len() && pre.file_key_seq()[j] == x;
                        assert(self.file_key_seq()[j] == x);
                    }
                    assert(self@.files =~~= v1.files.insert(pv, content@));
                    assert(self@ =~~= v0.with_file(pv, content@));
                    assert(self@.wf());
                }
            },
        }
    }

    /// Removes the file entry at storage position `i`.
    fn remove_file_entry(&mut self, i: usize)
        requires
            old(self).inv(),
            i < old(self).files@.len(),
        ensures
            final(self).inv(),
            final(self)@ == old(self)@.without_file(old(self).file_key_seq()[i as int]),
    {
        let ghost pre = *self;
        let ghost pv = pre.file_key_seq()[i as int];
        self.files.remove(i);
        proof {
            assert(self.dirs == pre.dirs);
            assert(self@.dirs =~~= pre@.dirs);
            assert(self.file_key_seq().len() == pre.file_key_seq().len() - 1);
            assert forall|j: int| 0 <= j < self.file_key_seq().len() implies self.file_key_seq()[j]
                == pre.file_key_seq().remove(i as int)[j] by {
                if j < i {
                    assert(self.files@[j] == pre.files@[j]);
                } else {
                    assert(self.files@[j] == pre.files@[j + 1]);
                }
            }
            assert(self.file_key_seq() =~~= pre.file_key_seq().remove(i as int));
            assert forall|a: int, b: int|
                0 <= a < b < self.file_key_seq().len() implies #[trigger] self.file_key_seq()[a]
                != #[trigger] self.file_key_seq()[b] by {
                let a0: int = if a < i { a } else { a + 1 };
                let b0: int = if b < i { b } else { b + 1 };
                assert(pre.file_key_seq()[a0] != pre.file_key_seq()[b0]);
            }
            assert(self.keys_distinct());
            assert forall|x: Seq<Seq<u8>>|
                self@.files.dom().contains(x) implies pre@.files.remove(pv).dom().contains(x)
                && self@.files[x] == pre@.files[x] by {
                let j = choose|j: int|
                    0 <= j < self.file_key_seq().len() && self.file_key_seq()[j] == x;
                let j0: int = if j < i { j } else { j + 1 };
                assert(pre.file_key_seq()[j0] == x);
                assert(j0 != i);
                assert(pre.file_key_seq()[j0] != pre.file_key_seq()[i as int]);
                self.lemma_file_lookup(j);
                pre.lemma_file_lookup(j0);
                assert(self.files@[j] == pre.files@[j0]);
            }
            assert forall|x: Seq<Seq<u8>>|
                pre@.files.remove(pv).dom().contains(x) implies self@.files.dom().contains(x) by {
                let j0 = choose|j0: int|
                    0 <= j0 < pre.file_key_seq().len() && pre.file_key_seq()[j0] == x;
                assert(j0 != i);
                let j: int = if j0 < i { j0 } else { j0 - 1 };
                assert(self.file_key_seq()[j] == x);
            }
            assert(self@.files =~~= pre@.files.remove(pv));
            assert(self@ =~~= pre@.without_file(pv));
            assert(self@.wf());
        }
    }

    /// Removes `root` and everything beneath it from the tree.
    #[verifier::rlimit(100)]
    #[verifier::spinoff_prover]
    pub fn remove_subtree(&mut self, root: &Vec<Vec<u8>>)
        requires
            old(self).inv(),
        ensures
            final(self).inv(),
            final(self)@ == old(self)@.without_subtree(path_view(root@)),
    {
        let ghost rv = path_view(root@);
        let ghost pre = *old(self);
        let mut nd: Vec<Vec<Vec<u8>>> = Vec::new();
        let mut i: usize = 0;
        while i < self.dirs.len()
            invariant
                *self == pre,
                pre.inv(),
                rv == path_view(root@),
                0 <= i <= self.dirs@.len(),
                forall|x: Seq<Seq<u8>>|
                    #[trigger] paths_view(nd@).contains(x) <==> exists|j: int|
                        0 <= j < i && #[trigger] pre.dir_seq()[j] == x && !is_prefix_of(rv, x),
                forall|a: int, b: int|
                    0 <= a < b < paths_view(nd@).len() ==> #[trigger] paths_view(nd@)[a]
                        != #[trigger] paths_view(nd@)[b],
            decreases self.dirs@.len() - i,
        {
            let ghost old_nd = nd@;
            if !path_has_prefix(&self.dirs[i], root) {
                nd.push(clone_path(&self.dirs[i]));
                proof {
                    assert(paths_view(nd@).len() == paths_view(old_nd).len() + 1);
                    assert forall|j: int| 0 <= j < paths_view(nd@).len() implies paths_view(
                        nd@,
                    )[j] == paths_view(old_nd).push(pre.dir_seq()[i as int])[j] by {
                        if j < paths_view(old_nd).len() {
                            assert(nd@[j] == old_nd[j]);
                        } else {
                            assert(path_view(nd@[j]@) == pre.dir_seq()[i as int]);
                        }
                    }
                    assert(paths_view(nd@) =~~= paths_view(old_nd).push(
                        pre.dir_seq()[i as int],
                    ));
                    assert forall|x: Seq<Seq<u8>>| #[trigger] paths_view(nd@).contains(x) implies
                        exists|j: int|
                        0 <= j < i + 1 && #[trigger] pre.dir_seq()[j] == x && !is_prefix_of(
                            rv,
                            x,
                        ) by {
                        let l = choose|l: int|
                            0 <= l < paths_view(nd@).len() && paths_view(nd@)[l] == x;
                        if l < paths_view(old_nd).len() {
                            assert(paths_view(old_nd).contains(x));
                        } else {
                            assert(pre.dir_seq()[i as int] == x);
                        }
                    }
                    assert forall|x: Seq<Seq<u8>>|
                        (exists|j: int|
                            0 <= j < i + 1 && #[trigger] pre.dir_seq()[j] == x && !is_prefix_of(
                                rv,
                                x,
                            )) implies #[trigger] paths_view(nd@).contains(x) by {
                        let j = choose|j: int|
                            0 <= j < i + 1 && pre.dir_seq()[j] == x && !is_prefix_of(rv, x);
                        if j < i {
                            assert(paths_view(old_nd).contains(x));
                            let l = choose|l: int|
                                0 <= l < paths_view(old_nd).len() && paths_view(old_nd)[l] == x;
                            assert(paths_view(nd@)[l] == x);
                        } else {
                            assert(paths_view(nd@)[paths_view(old_nd).len() as int] == x);
                        }
                    }
                    assert forall|a: int, b: int|
                        0 <= a < b < paths_view(nd@).len() implies #[trigger] paths_view(nd@)[a]
                        != #[trigger] paths_view(nd@)[b] by {
                        if b == paths_view(old_nd).len() {
                            if paths_view(nd@)[a] == pre.dir_seq()[i as int] {
                                assert(paths_view(old_nd).contains(pre.dir_seq()[i as int]));
                                let j = choose|j: int|
                                    0 <= j < i && pre.dir_seq()[j] == pre.dir_seq()[i as int]
                                        && !is_prefix_of(rv, pre.dir_seq()[j]);
                                assert(pre.dir_seq()[j] != pre.dir_seq()[i as int]);
                            }
                        }
                    }
                }
            } else {
                proof {
                    assert forall|x: Seq<Seq<u8>>| #[trigger] paths_view(nd@).contains(x) implies
                        exists|j: int|
                        0 <= j < i + 1 && #[trigger] pre.dir_seq()[j] == x && !is_prefix_of(
                            rv,
                            x,
                        ) by {}
                    assert forall|x: Seq<Seq<u8>>|
                        (exists|j: int|
                            0 <= j < i + 1 && #[trigger] pre.dir_seq()[j] == x && !is_prefix_of(
                                rv,
                                x,
                            )) implies #[trigger] paths_view(nd@).contains(x) by {
                        let j = choose|j: int|
                            0 <= j < i + 1 && pre.dir_seq()[j] == x && !is_prefix_of(rv, x);
                        assert(j < i);
                    }
                }
            }
            i += 1;
        }
        self.dirs = nd;
        let ghost mid = *self;
        proof {
            assert(mid.file_key_seq() == pre.file_key_seq());
        }
        let mut nf: Vec<(Vec<Vec<u8>>, Vec<u8>)> = Vec::new();
        let mut l: usize = 0;
        while l < self.files.len()
            invariant
                *self == mid,
                mid.files == pre.files,
                mid.dirs@ == nd@,
                pre.inv(),
                mid.keys_distinct(),
                rv == path_view(root@),
                0 <= l <= self.files@.len(),
                forall|x: Seq<Seq<u8>>|
                    #[trigger] mid.file_key_seq().contains(x) == pre.file_key_seq().contains(x),
                forall|m: int|
                    0 <= m < nf@.len() ==> !is_prefix_of(
                        rv,
                        #[trigger] path_view(nf@[m].0@),
                    ) && pre@.files.dom().contains(path_view(nf@[m].0@)) && nf@[m].1@
                        == pre@.files[path_view(nf@[m].0@)],
                forall|x: Seq<Seq<u8>>|
                    #[trigger] file_keys(nf@).contains(x) <==> exists|j: int|
                        0 <= j < l && #[trigger] pre.file_key_seq()[j] == x && !is_prefix_of(
                            rv,
                            x,
                        ),
                forall|a: int, b: int|
                    0 <= a < b < nf@.len() ==> #[trigger] path_view(nf@[a].0@)
                        != #[trigger] path_view(nf@[b].0@),
            decreases self.files@.len() - l,
        {
            let ghost old_nf = nf@;
            if !path_has_prefix(&self.files[l].0, root) {
                let ck = clone_path(&self.files[l].0);
                let cv = clone_bytes(&self.files[l].1);
                nf.push((ck, cv));
                proof {
                    mid.lemma_file_lookup(l as int);
                    assert(file_keys(nf@).len() == file_keys(old_nf).len() + 1);
                    assert forall|j: int| 0 <= j < file_keys(nf@).len() implies file_keys(nf@)[j]
                        == file_keys(old_nf).push(pre.file_key_seq()[l as int])[j] by {
                        if j < file_keys(old_nf).len() {
                            assert(nf@[j] == old_nf[j]);
                        } else {
                            assert(path_view(nf@[j].0@) == pre.file_key_seq()[l as int]);
                        }
                    }
                    assert(file_keys(nf@) =~~= file_keys(old_nf).push(
                        pre.file_key_seq()[l as int],
                    ));
                    assert forall|x: Seq<Seq<u8>>| #[trigger] file_keys(nf@).contains(x) implies
                        exists|j: int|
                        0 <= j < l + 1 && #[trigger] pre.file_key_seq()[j] == x && !is_prefix_of(
                            rv,
                            x,
                        ) by {
                        let m = choose|m: int|
                            0 <= m < file_keys(nf@).len() && file_keys(nf@)[m] == x;
                        if m < file_keys(old_nf).len() {
                            assert(file_keys(old_nf).contains(x));
                        } else {
                            assert(pre.file_key_seq()[l as int] == x);
                        }
                    }
                    assert forall|x: Seq<Seq<u8>>|
                        (exists|j: int|
                            0 <= j < l + 1 && #[trigger] pre.file_key_seq()[j] == x
                                && !is_prefix_of(rv, x)) implies #[trigger] file_keys(
                        nf@,
                    ).contains(x) by {
                        let j = choose|j: int|
                            0 <= j < l + 1 && pre.file_key_seq()[j] == x && !is_prefix_of(rv, x);
                        if j < l {
                            assert(file_keys(old_nf).contains(x));
                            let m = choose|m: int|
                                0 <= m < file_keys(old_nf).len() && file_keys(old_nf)[m] == x;
                            assert(file_keys(nf@)[m] == x);
                        } else {
                            assert(file_keys(nf@)[file_keys(old_nf).len() as int] == x);
                        }
                    }
                    assert forall|a: int, b: int|
                        0 <= a < b < nf@.len() implies #[trigger] path_view(nf@[a].0@)
                        != #[trigger] path_view(nf@[b].0@) by {
                        if b == old_nf.len() {
                            if path_view(nf@[a].0@) == pre.file_key_seq()[l as int] {
                                assert(file_keys(old_nf)[a] == path_view(old_nf[a].0@));
                                assert(file_keys(old_nf).contains(pre.file_key_seq()[l as int]));
                                let j = choose|j: int|
                                    0 <= j < l && pre.file_key_seq()[j]
                                        == pre.file_key_seq()[l as int] && !is_prefix_of(
                                        rv,
                                        pre.file_key_seq()[j],
                                    );
                                assert(pre.file_key_seq()[j] != pre.file_key_seq()[l as int]);
                            }
                        }
                    }
                }
            } else {
                proof {
                    assert forall|x: Seq<Seq<u8>>|
                        (exists|j: int|
                            0 <= j < l + 1 && #[trigger] pre.file_key_seq()[j] == x
                                && !is_prefix_of(rv, x)) implies #[trigger] file_keys(
                        nf@,
                    ).contains(x) by {
                        let j = choose|j: int|
                            0 <= j < l + 1 && pre.file_key_seq()[j] == x && !is_prefix_of(rv, x);
                        assert(j < l);
                    }
                }
            }
            l += 1;
        }
        self.files = nf;
        proof {
            let post = *self;
            assert(post.dir_seq() == paths_view(nd@));
            assert forall|j: int| 0 <= j < post.file_key_seq().len() implies
                post.file_key_seq()[j] == path_view(nf@[j].0@) by {}
            assert forall|x: Seq<Seq<u8>>| post@.dirs.contains(x) implies pre@.without_subtree(
                rv,
            ).dirs.contains(x) by {
                let j = choose|j: int|
                    0 <= j < post.dir_seq().len() && post.dir_seq()[j] == x;
                assert(paths_view(nd@).contains(x));
                let j2 = choose|j2: int|
                    0 <= j2 < pre.dir_seq().len() && pre.dir_seq()[j2] == x && !is_prefix_of(
                        rv,
                        x,
                    );
                assert(pre@.dirs.contains(x));
            }
            assert forall|x: Seq<Seq<u8>>| pre@.without_subtree(rv).dirs.contains(x) implies
                post@.dirs.contains(x) by {
                let j2 = choose|j2: int|
                    0 <= j2 < pre.dir_seq().len() && pre.dir_seq()[j2] == x;
                assert(paths_view(nd@).contains(x));
            }
            assert(post@.dirs =~~= pre@.without_subtree(rv).dirs);
            assert forall|a: int, b: int|
                0 <= a < b < post.file_key_seq().len() implies #[trigger] post.file_key_seq()[a]
                != #[trigger] post.file_key_seq()[b] by {
                assert(path_view(nf@[a].0@) != path_view(nf@[b].0@));
            }
            assert(post.keys_distinct());
            assert forall|x: Seq<Seq<u8>>|
                post@.files.dom().contains(x) implies pre@.without_subtree(rv).files.dom(
                ).contains(x) && post@.files[x] == pre@.files[x] by {
                let j = choose|j: int|
                    0 <= j < post.file_key_seq().len() && post.file_key_seq()[j] == x;
                post.lemma_file_lookup(j);
                assert(path_view(nf@[j].0@) == x);
                assert(!is_prefix_of(rv, x));
                assert(pre@.files.dom().contains(x));
                assert(post.files@[j].1@ == pre@.files[x]);
            }
            assert forall|x: Seq<Seq<u8>>|
                pre@.without_subtree(rv).files.dom().contains(x) implies post@.files.dom(
                ).contains(x) by {
                let j2 = choose|j2: int|
                    0 <= j2 < pre.file_key_seq().len() && pre.file_key_seq()[j2] == x;
                assert(file_keys(nf@).contains(x));
                let m = choose|m: int|
                    0 <= m < file_keys(nf@).len() && file_keys(nf@)[m] == x;
                assert(post.file_key_seq()[m] == x);
            }
            assert(post@.files =~~= pre@.without_subtree(rv).files);
            assert forall|x: Seq<Seq<u8>>|
                #[trigger] post@.dirs.contains(x) && x.len() > 0 implies post@.dirs.contains(
                    x.drop_last(),
                ) by {
                assert(pre@.dirs.contains(x.drop_last()));
                if is_prefix_of(rv, x.drop_last()) {
                    assert(is_prefix_of(rv, x));
                }
            }
            assert forall|x: Seq<Seq<u8>>| #[trigger] post@.files.dom().contains(x) implies x.len()
                > 0 && post@.dirs.contains(x.drop_last()) && !post@.dirs.contains(x) by {
                assert(pre@.files.dom().contains(x));
                assert(pre@.dirs.contains(x.drop_last()));
                if is_prefix_of(rv, x.drop_last()) {
                    assert(is_prefix_of(rv, x));
                }
                if post@.dirs.contains(x) {
                    assert(pre@.dirs.contains(x));
                }
            }
            assert(self@ =~~= pre@.without_subtree(rv));
        }
    }

    /// Returns the names of the immediate child directories of `root`.
    ///
    /// A missing `root` yields an empty list, not an error; a file at
    /// `root` cannot be scanned.
    pub fn scan_subdirectories(&self, root: &Vec<Vec<u8>>) -> (r: Result<Vec<Vec<u8>>, FsError>)
        requires
            self.inv(),
        ensures
            match r {
                Ok(names) => !self@.files.dom().contains(path_view(root@)) && (forall|
                    n: Seq<u8>,
                |
                    #[trigger] path_view(names@).contains(n) <==> self@.dirs.contains(
                        path_view(root@).push(n),
                    )) && (forall|a: int, b: int|
                    0 <= a < b < names@.len() ==> #[trigger] path_view(names@)[a]
                        != #[trigger] path_view(names@)[b]),
                Err(e) => e == FsError::IoFailure && self@.files.dom().contains(path_view(root@)),
            },
    {
        let ghost rv = path_view(root@);
        if self.has_file(root) {
            return Err(FsError::IoFailure);
        }
        let mut names: Vec<Vec<u8>> = Vec::new();
        let mut i: usize = 0;
        while i < self.dirs.len()
            invariant
                self.inv(),
                rv == path_view(root@),
                0 <= i <= self.dirs@.len(),
                forall|n: Seq<u8>|
                    #[trigger] path_view(names@).contains(n) <==> exists|j: int|
                        0 <= j < i && #[trigger] self.dir_seq()[j] == rv.push(n),
                forall|a: int, b: int|
                    0 <= a < b < names@.len() ==> #[trigger] path_view(names@)[a]
                        != #[trigger] path_view(names@)[b],
            decreases self.dirs@.len() - i,
        {
            let ghost old_names = names@;
            let d = &self.dirs[i];
            let dl = d.len();
            if dl > root.len() && dl - 1 == root.len() && path_has_prefix(d, root) {
                names.push(clone_bytes(&d[dl - 1]));
                proof {
                    let dv = self.dir_seq()[i as int];
                    assert(dv == path_view(d@));
                    assert(dv =~~= rv.push(dv.last()));
                    assert(path_view(names@).len() == path_view(old_names).len() + 1);
                    assert forall|j: int| 0 <= j < path_view(names@).len() implies path_view(
                        names@,
                    )[j] == path_view(old_names).push(dv.last())[j] by {
                        if j < path_view(old_names).len() {
                            assert(names@[j] == old_names[j]);
                        } else {
                            assert(names@[j]@ == d@[dl - 1]@);
                        }
                    }
                    assert(path_view(names@) =~~= path_view(old_names).push(dv.last()));
                    assert forall|n: Seq<u8>| #[trigger] path_view(names@).contains(n) implies
                        exists|j: int|
                        0 <= j < i + 1 && #[trigger] self.dir_seq()[j] == rv.push(n) by {
                        let m = choose|m: int|
                            0 <= m < path_view(names@).len() && path_view(names@)[m] == n;
                        if m < path_view(old_names).len() {
                            assert(path_view(old_names).contains(n));
                        } else {
                            assert(self.dir_seq()[i as int] == rv.push(n));
                        }
                    }
                    assert forall|n: Seq<u8>|
                        (exists|j: int|
                            0 <= j < i + 1 && #[trigger] self.dir_seq()[j] == rv.push(
                                n,
                            )) implies #[trigger] path_view(names@).contains(n) by {
                        let j = choose|j: int|
                            0 <= j < i + 1 && self.dir_seq()[j] == rv.push(n);
                        if j < i {
                            assert(path_view(old_names).contains(n));
                            let m = choose|m: int|
                                0 <= m < path_view(old_names).len() && path_view(old_names)[m]
                                    == n;
                            assert(path_view(names@)[m] == n);
                        } else {
                            assert(rv.push(n) == dv);
                            assert(n == dv.last());
                            assert(path_view(names@)[path_view(old_names).len() as int] == n);
                        }
                    }
                    assert forall|a: int, b: int|
                        0 <= a < b < names@.len() implies #[trigger] path_view(names@)[a]
                        != #[trigger] path_view(names@)[b] by {
                        if b == old_names.len() {
                            if path_view(names@)[a] == dv.last() {
                                assert(path_view(old_names).contains(dv.last()));
                                let j = choose|j: int|
                                    0 <= j < i && self.dir_seq()[j] == rv.push(dv.last());
                                assert(self.dir_seq()[j] != self.dir_seq()[i as int]);
                            }
                        }
                    }
                }
            } else {
                proof {
                    assert forall|n: Seq<u8>|
                        (exists|j: int|
                            0 <= j < i + 1 && #[trigger] self.dir_seq()[j] == rv.push(
                                n,
                            )) implies #[trigger] path_view(names@).contains(n) by {
                        let j = choose|j: int|
                            0 <= j < i + 1 && self.dir_seq()[j] == rv.push(n);
                        if j == i {
                            let dv = self.dir_seq()[i as int];
                            assert(dv == rv.push(n));
                            assert(dv.len() == rv.len() + 1);
                            assert(is_prefix_of(rv, dv));
                        }
                        assert(j < i);
                    }
                }
            }
            i += 1;
        }
        proof {
            assert forall|n: Seq<u8>| #[trigger] path_view(names@).contains(n) implies
                self@.dirs.contains(rv.push(n)) by {
                let j = choose|j: int|
                    0 <= j < self.dir_seq().len() && self.dir_seq()[j] == rv.push(n);
                assert(self.dir_seq().contains(rv.push(n)));
            }
            assert forall|n: Seq<u8>| self@.dirs.contains(rv.push(n)) implies #[trigger] path_view(
                names@,
            ).contains(n) by {
                let j = choose|j: int|
                    0 <= j < self.dir_seq().len() && self.dir_seq()[j] == rv.push(n);
            }
        }
        Ok(names)
    }

    /// Returns every file path at or below `root`.
    ///
    /// A missing `root` yields an empty list; a file at `root` cannot be
    /// walked as a directory.
    pub fn list_all_files(&self, root: &Vec<Vec<u8>>) -> (r: Result<Vec<Vec<Vec<u8>>>, FsError>)
        requires
            self.inv(),
        ensures
            match r {
                Ok(list) => !self@.files.dom().contains(path_view(root@)) && (forall|
                    q: Seq<Seq<u8>>,
                |
                    #[trigger] paths_view(list@).contains(q) <==> self@.files.dom().contains(q)
                        && is_prefix_of(path_view(root@), q)) && (forall|a: int, b: int|
                    0 <= a < b < list@.len() ==> #[trigger] paths_view(list@)[a]
                        != #[trigger] paths_view(list@)[b]),
                Err(e) => e == FsError::IoFailure && self@.files.dom().contains(path_view(root@)),
            },
    {
        let ghost rv = path_view(root@);
        if self.has_file(root) {
            return Err(FsError::IoFailure);
        }
        let mut list: Vec<Vec<Vec<u8>>> = Vec::new();
        let mut i: usize = 0;
        while i < self.files.len()
            invariant
                self.inv(),
                rv == path_view(root@),
                0 <= i <= self.files@.len(),
                forall|q: Seq<Seq<u8>>|
                    #[trigger] paths_view(list@).contains(q) <==> exists|j: int|
                        0 <= j < i && #[trigger] self.file_key_seq()[j] == q && is_prefix_of(
                            rv,
                            q,
                        ),
                forall|a: int, b: int|
                    0 <= a < b < list@.len() ==> #[trigger] paths_view(list@)[a]
                        != #[trigger] paths_view(list@)[b],
            decreases self.files@.len() - i,
        {
            let ghost old_list = list@;
            if path_has_prefix(&self.files[i].0, root) {
                list.push(clone_path(&self.files[i].0));
                proof {
                    let kv = self.file_key_seq()[i as int];
                    assert(paths_view(list@).len() == paths_view(old_list).len() + 1);
                    assert forall|j: int| 0 <= j < paths_view(list@).len() implies paths_view(
                        list@,
                    )[j] == paths_view(old_list).push(kv)[j] by {
                        if j < paths_view(old_list).len() {
                            assert(list@[j] == old_list[j]);
                        } else {
                            assert(path_view(list@[j]@) == kv);
                        }
                    }
                    assert(paths_view(list@) =~~= paths_view(old_list).push(kv));
                    assert forall|q: Seq<Seq<u8>>| #[trigger] paths_view(list@).contains(q)
                        implies exists|j: int|
                        0 <= j < i + 1 && #[trigger] self.file_key_seq()[j] == q && is_prefix_of(
                            rv,
                            q,
                        ) by {
                        let m = choose|m: int|
                            0 <= m < paths_view(list@).len() && paths_view(list@)[m] == q;
                        if m < paths_view(old_list).len() {
                            assert(paths_view(old_list).contains(q));
                        } else {
                            assert(self.file_key_seq()[i as int] == q);
                        }
                    }
                    assert forall|q: Seq<Seq<u8>>|
                        (exists|j: int|
                            0 <= j < i + 1 && #[trigger] self.file_key_seq()[j] == q
                                && is_prefix_of(rv, q)) implies #[trigger] paths_view(
                        list@,
                    ).contains(q) by {
                        let j = choose|j: int|
                            0 <= j < i + 1 && self.file_key_seq()[j] == q && is_prefix_of(rv, q);
                        if j < i {
                            assert(paths_view(old_list).contains(q));
                            let m = choose|m: int|
                                0 <= m < paths_view(old_list).len() && paths_view(old_list)[m]
                                    == q;
                            assert(paths_view(list@)[m] == q);
                        } else {
                            assert(paths_view(list@)[paths_view(old_list).len() as int] == q);
                        }
                    }
                    assert forall|a: int, b: int|
                        0 <= a < b < list@.len() implies #[trigger] paths_view(list@)[a]
                        != #[trigger] paths_view(list@)[b] by {
                        if b == old_list.len() {
                            if paths_view(list@)[a] == kv {
                                assert(paths_view(old_list).contains(kv));
                                let j = choose|j: int|
                                    0 <= j < i && self.file_key_seq()[j] == kv && is_prefix_of(
                                        rv,
                                        kv,
                                    );
                                assert(self.file_key_seq()[j] != self.file_key_seq()[i as int]);
                            }
                        }
                    }
                }
            } else {
                proof {
                    assert forall|q: Seq<Seq<u8>>|
                        (exists|j: int|
                            0 <= j < i + 1 && #[trigger] self.file_key_seq()[j] == q
                                && is_prefix_of(rv, q)) implies #[trigger] paths_view(
                        list@,
                    ).contains(q) by {
                        let j = choose|j: int|
                            0 <= j < i + 1 && self.file_key_seq()[j] == q && is_prefix_of(rv, q);
                        assert(j < i);
                    }
                }
            }
            i += 1;
        }
        proof {
            assert forall|q: Seq<Seq<u8>>| #[trigger] paths_view(list@).contains(q) implies
                self@.files.dom().contains(q) && is_prefix_of(rv, q) by {
                let j = choose|j: int|
                    0 <= j < self.file_key_seq().len() && self.file_key_seq()[j] == q
                        && is_prefix_of(rv, q);
                assert(self.file_key_seq().contains(q));
            }
        }
        Ok(list)
    }

    /// Reads the whole content of the file at `p`.
    pub fn read_file(&self, p: &Vec<Vec<u8>>) -> (r: Result<Vec<u8>, FsError>)
        requires
            self.inv(),
        ensures
            match r {
                Ok(c) => self@.files.dom().contains(path_view(p@)) && c@ == self@.files[path_view(
                    p@,
                )],
                Err(e) => !self@.files.dom().contains(path_view(p@)) && ((e == FsError::NotAFile)
                    <==> self@.dirs.contains(path_view(p@))) && ((e == FsError::NotFound) <==> !self@.dirs.contains(
                    path_view(p@),
                )),
            },
    {
        match self.file_index(p) {
            Some(i) => Ok(clone_bytes(&self.files[i].1)),
            None => {
                if self.has_dir(p) {
                    Err(FsError::NotAFile)
                } else {
                    Err(FsError::NotFound)
                }
            },
        }
    }

    /// The size in bytes of the file at `p`.
    pub fn file_size(&self, p: &Vec<Vec<u8>>) -> (r: Result<usize, FsError>)
        requires
            self.inv(),
        ensures
            match r {
                Ok(n) => self@.files.dom().contains(path_view(p@)) && n == self@.files[path_view(
                    p@,
                )].len(),
                Err(e) => !self@.files.dom().contains(path_view(p@)) && e == FsError::NotFound,
            },
    {
        match self.file_index(p) {
            Some(i) => Ok(self.files[i].1.len()),
            None => Err(FsError::NotFound),
        }
    }

    /// Creates directory `p` with all missing ancestors; a second call is
    /// harmless.  A file standing anywhere on the chain blocks creation.
    pub fn create_tree(&mut self, p: &Vec<Vec<u8>>) -> (r: Result<(), FsError>)
        requires
            old(self).inv(),
        ensures
            final(self).inv(),
            match r {
                Ok(()) => (forall|k: int|
                    0 <= k <= p@.len() ==> !old(self)@.files.dom().contains(
                        #[trigger] path_view(p@).take(k),
                    )) && final(self)@ == old(self)@.with_dir_chain(path_view(p@)),
                Err(e) => e == FsError::IoFailure && (exists|k: int|
                    0 <= k <= p@.len() && old(self)@.files.dom().contains(
                        #[trigger] path_view(p@).take(k),
                    )) && final(self)@ == old(self)@,
            },
    {
        let ghost pv = path_view(p@);
        let mut q: Vec<Vec<u8>> = Vec::new();
        let mut k: usize = 0;
        proof {
            assert(path_view(q@) =~~= pv.take(0));
        }
        while k < p.len()
            invariant
                self == old(self),
                self.inv(),
                pv == path_view(p@),
                k <= p@.len(),
                path_view(q@) == pv.take(k as int),
                forall|k0: int|
                    0 <= k0 < k ==> !self@.files.dom().contains(#[trigger] pv.take(k0)),
            decreases p@.len() - k,
        {
            if self.has_file(&q) {
                return Err(FsError::IoFailure);
            }
            let ghost old_q = q@;
            q.push(clone_bytes(&p[k]));
            proof {
                assert(path_view(old_q).len() == old_q.len());
                assert(q@.len() == old_q.len() + 1);
                assert(path_view(q@).len() == k + 1);
                assert forall|j: int| 0 <= j < k + 1 implies path_view(q@)[j] == pv.take(
                    k + 1,
                )[j] by {
                    if j < k {
                        assert(q@[j] == old_q[j]);
                        assert(path_view(old_q)[j] == pv.take(k as int)[j]);
                    } else {
                        assert(q@[j]@ == p@[k as int]@);
                    }
                }
                assert(path_view(q@) =~~= pv.take(k + 1));
            }
            k += 1;
        }
        if self.has_file(&q) {
            return Err(FsError::IoFailure);
        }
        proof {
            assert(pv.take(p@.len() as int) =~~= pv);
            assert forall|k0: int| 0 <= k0 <= p@.len() implies !self@.files.dom().contains(
                #[trigger] pv.take(k0),
            ) by {
                if k0 == p@.len() {
                    assert(pv.take(k0) == path_view(q@));
                }
            }
        }
        self.add_dir_chain(p);
        Ok(())
    }

    /// Removes directory `root` and its whole subtree.
    pub fn delete_tree(&mut self, root: &Vec<Vec<u8>>) -> (r: Result<(), FsError>)
        requires
            old(self).inv(),
        ensures
            final(self).inv(),
            match r {
                Ok(()) => old(self)@.dirs.contains(path_view(root@)) && final(self)@ == old(
                    self,
                )@.without_subtree(path_view(root@)),
                Err(e) => final(self)@ == old(self)@ && !old(self)@.dirs.contains(path_view(root@))
                    && ((e == FsError::NotADirectory) <==> old(self)@.files.dom().contains(
                    path_view(root@),
                )) && ((e == FsError::NotFound) <==> !old(self)@.files.dom().contains(
                    path_view(root@),
                )),
            },
    {
        if self.has_dir(root) {
            self.remove_subtree(root);
            Ok(())
        } else if self.has_file(root) {
            Err(FsError::NotADirectory)
        } else {
            Err(FsError::NotFound)
        }
    }

    /// A proper prefix of file path `p` that is itself a file blocks the
    /// write, since no directory chain can be created through it.
    pub open spec fn chain_blocked(v: TreeView, p: Seq<Seq<u8>>) -> bool {
        exists|k: int| 0 <= k < p.len() && v.files.dom().contains(#[trigger] p.take(k))
    }

    /// Decides `chain_blocked` for the current tree.
    fn find_blocking_file(&self, p: &Vec<Vec<u8>>) -> (r: bool)
        requires
            self.inv(),
        ensures
            r == Self::chain_blocked(self@, path_view(p@)),
    {
        let ghost pv = path_view(p@);
        let mut q: Vec<Vec<u8>> = Vec::new();
        let mut k: usize = 0;
        proof {
            assert(path_view(q@) =~~= pv.take(0));
        }
        while k < p.len()
            invariant
                self.inv(),
                pv == path_view(p@),
                k <= p@.len(),
                path_view(q@) == pv.take(k as int),
                forall|k0: int|
                    0 <= k0 < k ==> !self@.files.dom().contains(#[trigger] pv.take(k0)),
            decreases p@.len() - k,
        {
            if self.has_file(&q) {
                return true;
            }
            let ghost old_q = q@;
            q.push(clone_bytes(&p[k]));
            proof {
                assert(path_view(old_q).len() == old_q.len());
                assert(q@.len() == old_q.len() + 1);
                assert(path_view(q@).len() == k + 1);
                assert forall|j: int| 0 <= j < k + 1 implies path_view(q@)[j] == pv.take(
                    k + 1,
                )[j] by {
                    if j < k {
                        assert(q@[j] == old_q[j]);
                        assert(path_view(old_q)[j] == pv.take(k as int)[j]);
                    } else {
                        assert(q@[j]@ == p@[k as int]@);
                    }
                }
                assert(path_view(q@) =~~= pv.take(k + 1));
            }
            k += 1;
        }
        proof {
            if Self::chain_blocked(self@, pv) {
                let k0 = choose|k0: int|
                    0 <= k0 < pv.len() && self@.files.dom().contains(#[trigger] pv.take(k0));
                assert(!self@.files.dom().contains(pv.take(k0)));
            }
        }
        false
    }

    /// Writes `content` to the file at `p`, creating missing parent
    /// directories first and overwriting an existing file.
    pub fn write_file(&mut self, p: &Vec<Vec<u8>>, content: Vec<u8>) -> (r: Result<(), FsError>)
        requires
            old(self).inv(),
        ensures
            final(self).inv(),
            match r {
                Ok(()) => path_view(p@).len() > 0 && !old(self)@.dirs.contains(path_view(p@))
                    && !Self::chain_blocked(old(self)@, path_view(p@)) && final(self)@ == old(
                    self,
                )@.with_file(path_view(p@), content@),
                Err(e) => e == FsError::IoFailure && final(self)@ == old(self)@ && (path_view(
                    p@,
                ).len() == 0 || old(self)@.dirs.contains(path_view(p@)) || Self::chain_blocked(
                    old(self)@,
                    path_view(p@),
                )),
            },
    {
        if p.len() == 0 {
            return Err(FsError::IoFailure);
        }
        if self.has_dir(p) {
            return Err(FsError::IoFailure);
        }
        if self.find_blocking_file(p) {
            return Err(FsError::IoFailure);
        }
        self.put_file(p, content);
        Ok(())
    }

    /// Removes the single file at `p`.
    pub fn delete_file(&mut self, p: &Vec<Vec<u8>>) -> (r: Result<(), FsError>)
        requires
            old(self).inv(),
        ensures
            final(self).inv(),
            match r {
                Ok(()) => old(self)@.files.dom().contains(path_view(p@)) && final(self)@ == old(
                    self,
                )@.without_file(path_view(p@)),
                Err(e) => final(self)@ == old(self)@ && !old(self)@.files.dom().contains(
                    path_view(p@),
                ) && ((e == FsError::NotAFile) <==> old(self)@.dirs.contains(path_view(p@))) && ((
                e == FsError::NotFound) <==> !old(self)@.dirs.contains(path_view(p@))),
            },
    {
        match self.file_index(p) {
            Some(i) => {
                proof {
                    assert(old(self).file_key_seq()[i as int] == path_view(p@));
                }
                self.remove_file_entry(i);
                Ok(())
            },
            None => {
                if self.has_dir(p) {
                    Err(FsError::NotAFile)
                } else {
                    Err(FsError::NotFound)
                }
            },
        }
    }

    /// Copies the single file `from` to `to`, creating missing parent
    /// directories of `to` and overwriting an existing file there.
    pub fn copy_file(&mut self, from: &Vec<Vec<u8>>, to: &Vec<Vec<u8>>) -> (r: Result<
        (),
        FsError,
    >)
        requires
            old(self).inv(),
        ensures
            final(self).inv(),
            match r {
                Ok(()) => old(self)@.files.dom().contains(path_view(from@)) && path_view(
                    to@,
                ).len() > 0 && !old(self)@.dirs.contains(path_view(to@)) && !Self::chain_blocked(
                    old(self)@,
                    path_view(to@),
                ) && final(self)@ == old(self)@.with_file(
                    path_view(to@),
                    old(self)@.files[path_view(from@)],
                ),
                Err(e) => final(self)@ == old(self)@ && (e != FsError::IoFailure
                    ==> !old(self)@.files.dom().contains(path_view(from@))) && ((e
                    == FsError::NotAFile) <==> (!old(self)@.files.dom().contains(path_view(from@))
                    && old(self)@.dirs.contains(path_view(from@)))) && ((e == FsError::NotFound)
                    <==> (!old(self)@.files.dom().contains(path_view(from@)) && !old(
                    self,
                )@.dirs.contains(path_view(from@)))) && ((e == FsError::IoFailure) <==> (old(
                    self,
                )@.files.dom().contains(path_view(from@)) && (path_view(to@).len() == 0 || old(
                    self,
                )@.dirs.contains(path_view(to@)) || Self::chain_blocked(
                    old(self)@,
                    path_view(to@),
                )))),
            },
    {
        let content = match self.file_index(from) {
            Some(i) => clone_bytes(&self.files[i].1),
            None => {
                if self.has_dir(from) {
                    return Err(FsError::NotAFile);
                } else {
                    return Err(FsError::NotFound);
                }
            },
        };
        if to.len() == 0 {
            return Err(FsError::IoFailure);
        }
        if self.has_dir(to) {
            return Err(FsError::IoFailure);
        }
        if self.find_blocking_file(to) {
            return Err(FsError::IoFailure);
        }
        self.put_file(to, content);
        Ok(())
    }

    /// Appending to a common front is injective.
    pub proof fn lemma_concat_cancel(a: Seq<Seq<u8>>, x: Seq<Seq<u8>>, y: Seq<Seq<u8>>)
        requires
            a + x == a + y,
        ensures
            x == y,
    {
        assert(x.len() == y.len()) by {
            assert((a + x).len() == a.len() + x.len());
            assert((a + y).len() == a.len() + y.len());
        }
        assert forall|i: int| 0 <= i < x.len() implies x[i] == y[i] by {
            assert((a + x)[a.len() + i] == x[i]);
            assert((a + y)[a.len() + i] == y[i]);
        }
        assert(x =~~= y);
    }

    /// A path splits into a prefix of it and the rest.
    pub proof fn lemma_prefix_split(s: Seq<Seq<u8>>, q: Seq<Seq<u8>>)
        requires
            is_prefix_of(s, q),
        ensures
            q == s + q.skip(s.len() as int),
    {
        assert(q =~~= s + q.skip(s.len() as int));
    }

    /// Whether any entry, file or directory, sits at `p`.
    pub fn exists_path(&self, p: &Vec<Vec<u8>>) -> (r: bool)
        requires
            self.keys_distinct(),
        ensures
            r == (self@.dirs.contains(path_view(p@)) || self@.files.dom().contains(path_view(p@))),
    {
        if self.has_dir(p) {
            true
        } else {
            self.has_file(p)
        }
    }
}

/// Law: copying a subtree carries every file across by relative path,
/// byte for byte, and every directory likewise.
pub proof fn lemma_copied_tree_files(
    v: TreeView,
    src: Seq<Seq<u8>>,
    dst: Seq<Seq<u8>>,
    rel: Seq<Seq<u8>>,
)
    ensures
        v.files.dom().contains(src + rel) ==> v.copied_tree(src, dst).files.dom().contains(
            dst + rel,
        ) && v.copied_tree(src, dst).files[dst + rel] == v.files[src + rel],
        v.dirs.contains(src + rel) ==> v.copied_tree(src, dst).dirs.contains(dst + rel),
{
    if v.files.dom().contains(src + rel) {
        let f = src + rel;
        assert(is_prefix_of(src, f));
        assert(f.skip(src.len() as int) =~~= rel);
        assert(v.files.dom().contains(f) && is_prefix_of(src, f) && dst + rel == dst + f.skip(
            src.len() as int,
        ));
        assert(v.copied_tree(src, dst).files.dom().contains(dst + rel));
        let f0 = choose|f0: Seq<Seq<u8>>|
            #[trigger] v.files.dom().contains(f0) && is_prefix_of(src, f0) && dst + rel == dst
                + f0.skip(src.len() as int);
        FsTree::lemma_concat_cancel(dst, rel, f0.skip(src.len() as int));
        FsTree::lemma_prefix_split(src, f0);
        assert(f0 == src + rel);
        assert(v.copied_tree(src, dst).files[dst + rel] == v.files[f0]);
    }
    if v.dirs.contains(src + rel) {
        let d = src + rel;
        assert(is_prefix_of(src, d));
        assert(d.skip(src.len() as int) =~~= rel);
        assert(v.dirs.contains(d) && is_prefix_of(src, d) && dst + rel == dst + d.skip(
            src.len() as int,
        ));
    }
}

/// Law: creating a directory chain is idempotent; the second creation
/// leaves exactly the state the first one made.
pub proof fn lemma_create_tree_idempotent(v: TreeView, p: Seq<Seq<u8>>)
    ensures
        v.with_dir_chain(p).with_dir_chain(p) == v.with_dir_chain(p),
{
    assert(v.with_dir_chain(p).with_dir_chain(p).dirs =~~= v.with_dir_chain(p).dirs);
    assert(v.with_dir_chain(p).with_dir_chain(p) =~~= v.with_dir_chain(p));
}

} // verus!