use crate::parsing::{BuildFile, Manifest};
use vstd::prelude::*;
use vstd::string::*;

verus! {

/// Whether `entries` lists exactly the manifests of `world`, each with its
/// directory.
pub open spec fn lists(
    entries: Seq<(Seq<char>, Manifest)>,
    world: Map<Seq<char>, Manifest>,
) -> bool {
    &&& forall|i: int|
        0 <= i < entries.len() ==> world.contains_key((#[trigger] entries[i]).0)
            && world[entries[i].0] == entries[i].1
    &&& forall|dir: Seq<char>| #[trigger]
        world.contains_key(dir) ==> exists|i: int|
            0 <= i < entries.len() && (#[trigger] entries[i]).0 == dir
}

/// `entries` with the manifest of `dir` set to `manifest`: in its old place
/// where `dir` is listed, and at the end where it is not.
pub open spec fn with_entry(
    entries: Seq<(Seq<char>, Manifest)>,
    dir: Seq<char>,
    manifest: Manifest,
) -> Seq<(Seq<char>, Manifest)> {
    if exists|i: int| 0 <= i < entries.len() && (#[trigger] entries[i]).0 == dir {
        entries.update(
            choose|i: int| 0 <= i < entries.len() && (#[trigger] entries[i]).0 == dir,
            (dir, manifest),
        )
    } else {
        entries.push((dir, manifest))
    }
}

/// The manifests of a project, each under the directory that holds it.
#[derive(Debug)]
pub struct ManifestIndex {
    files: Vec<BuildFile>,
}

impl View for ManifestIndex {
    type V = Map<Seq<char>, Manifest>;

    /// The manifest of each directory that has one.
    closed spec fn view(&self) -> Map<Seq<char>, Manifest> {
        Map::new(
            |dir: Seq<char>|
                exists|i: int| 0 <= i < self.files@.len() && (#[trigger] self.files@[i]).path@ == dir,
            |dir: Seq<char>|
                self.files@[choose|i: int|
                    0 <= i < self.files@.len() && (#[trigger] self.files@[i]).path@
                        == dir].dependencies@,
        )
    }
}

impl ManifestIndex {
    #[verifier::type_invariant]
    spec fn distinct(self) -> bool {
        forall|i: int, j: int|
            0 <= i < j < self.files@.len() ==> (#[trigger] self.files@[i]).path@ != (
            #[trigger] self.files@[j]).path@
    }

    /// The directories and their manifests, in the order in which the
    /// directories were first inserted.
    pub closed spec fn entries(&self) -> Seq<(Seq<char>, Manifest)> {
        Seq::new(self.files@.len(), |i: int| (self.files@[i].path@, self.files@[i].dependencies@))
    }

    /// The index without manifests.
    pub fn new() -> (index: ManifestIndex)
        ensures
            index@ == Map::<Seq<char>, Manifest>::empty(),
            index.entries() == Seq::<(Seq<char>, Manifest)>::empty(),
    {
        let index = ManifestIndex { files: Vec::new() };
        assert(index@ =~= Map::<Seq<char>, Manifest>::empty());
        assert(index.entries() =~= Seq::<(Seq<char>, Manifest)>::empty());
        index
    }

    /// The number of manifests.
    pub fn len(&self) -> (n: usize)
        ensures
            n == self.entries().len(),
            lists(self.entries(), self@),
    {
        proof {
            use_type_invariant(self);
            let entries = self.entries();
            assert forall|i: int| 0 <= i < entries.len() implies self@.contains_key(
                (#[trigger] entries[i]).0,
            ) && self@[entries[i].0] == entries[i].1 by {
                assert(self.files@[i].path@ == entries[i].0);
                let k = choose|k: int|
                    0 <= k < self.files@.len() && (#[trigger] self.files@[k]).path@
                        == entries[i].0;
                assert(k == i);
            }
            assert forall|dir: Seq<char>| #[trigger] self@.contains_key(dir) implies exists|i: int|
                0 <= i < entries.len() && (#[trigger] entries[i]).0 == dir by {
                let k = choose|k: int|
                    0 <= k < self.files@.len() && (#[trigger] self.files@[k]).path@ == dir;
                assert(entries[k].0 == dir);
            }
        }
        self.files.len()
    }

    /// The manifest at position `i`, with its directory.
    pub fn get(&self, i: usize) -> (file: &BuildFile)
        requires
            i < self.entries().len(),
        ensures
            (file.path@, file.dependencies@) == self.entries()[i as int],
    {
        &self.files[i]
    }

    /// The manifest of the directory `dir`, if it has one.
    pub fn find(&self, dir: &str) -> (file: Option<&BuildFile>)
        ensures
            file is Some <==> self@.contains_key(dir@),
            file matches Some(f) ==> f.path@ == dir@ && f.dependencies@ == self@[dir@],
    {
        proof {
            use_type_invariant(self);
        }
        let wanted = String::from_str(dir);
        let mut i: usize = 0;
        while i < self.files.len()
            invariant
                i <= self.files@.len(),
                wanted@ == dir@,
                forall|k: int| 0 <= k < i ==> (#[trigger] self.files@[k]).path@ != dir@,
            decreases self.files.len() - i,
        {
            if self.files[i].path == wanted {
                proof {
                    use_type_invariant(self);
                    let k = choose|k: int|
                        0 <= k < self.files@.len() && (#[trigger] self.files@[k]).path@ == dir@;
                    assert(k == i);
                }
                return Some(&self.files[i]);
            }
            i = i + 1;
        }
        None
    }

    /// Puts the manifest `file` under its directory, in place of any manifest
    /// that the directory had.
    pub fn insert(&mut self, file: BuildFile)
        ensures
            final(self)@ == old(self)@.insert(file.path@, file.dependencies@),
            final(self).entries() == with_entry(
                old(self).entries(),
                file.path@,
                file.dependencies@,
            ),
    {
        proof {
            use_type_invariant(&*self);
        }
        let mut at: Option<usize> = None;
        let mut i: usize = 0;
        while i < self.files.len()
            invariant_except_break
                at is None,
                forall|k: int| 0 <= k < i ==> (#[trigger] self.files@[k]).path@ != file.path@,
            invariant
                i <= self.files@.len(),
            ensures
                match at {
                    Some(k) => k < self.files@.len() && self.files@[k as int].path@ == file.path@,
                    None => forall|k: int|
                        0 <= k < self.files@.len() ==> (#[trigger] self.files@[k]).path@
                            != file.path@,
                },
            decreases self.files.len() - i,
        {
            if self.files[i].path == file.path {
                at = Some(i);
                break ;
            }
            i = i + 1;
        }
        let ghost before = self.files@;
        let ghost dir = file.path@;
        let ghost manifest = file.dependencies@;
        let mut files: Vec<BuildFile> = Vec::new();
        std::mem::swap(&mut self.files, &mut files);
        match at {
            Some(k) => {
                files.set(k, file);
            },
            None => {
                files.push(file);
            },
        }
        proof {
            let after = files@;
            assert forall|a: int, b: int| 0 <= a < b < after.len() implies (#[trigger] after[a]).path@
                != (#[trigger] after[b]).path@ by {
                if a < before.len() && b < before.len() {
                    assert(before[a].path@ != before[b].path@);
                }
            }
        }
        self.files = files;
        proof {
            let after = self.files@;
            let goal = old(self)@.insert(dir, manifest);
            let at_dir = match at {
                Some(k) => k as int,
                None => before.len() as int,
            };
            assert(after[at_dir].path@ == dir && after[at_dir].dependencies@ == manifest);
            assert forall|d: Seq<char>| self@.dom().contains(d) <==> goal.dom().contains(d) by {
                if old(self)@.dom().contains(d) {
                    let k = choose|k: int| 0 <= k < before.len() && (#[trigger] before[k]).path@ == d;
                    assert(after[k].path@ == d);
                }
                if self@.dom().contains(d) && d != dir {
                    let k = choose|k: int| 0 <= k < after.len() && (#[trigger] after[k]).path@ == d;
                    assert(before[k].path@ == d);
                }
            }
            assert forall|d: Seq<char>| self@.dom().contains(d) implies self@[d] == goal[d] by {
                let k = choose|k: int| 0 <= k < after.len() && (#[trigger] after[k]).path@ == d;
                if d == dir {
                    assert(k == at_dir);
                } else {
                    assert(before[k].path@ == d);
                    let k0 = choose|k0: int|
                        0 <= k0 < before.len() && (#[trigger] before[k0]).path@ == d;
                    assert(after[k0].path@ == d);
                    assert(k0 == k);
                }
            }
            assert(self@ =~= goal);
            let listed = old(self).entries();
            match at {
                Some(k) => {
                    assert(listed[k as int].0 == dir);
                    let chosen = choose|i: int|
                        0 <= i < listed.len() && (#[trigger] listed[i]).0 == dir;
                    assert(before[chosen].path@ == dir);
                    assert(chosen == k);
                    assert(self.entries() =~= listed.update(k as int, (dir, manifest)));
                },
                None => {
                    assert forall|i: int| 0 <= i < listed.len() implies (#[trigger] listed[i]).0
                        != dir by {
                        assert(before[i].path@ != dir);
                    }
                    assert(self.entries() =~= listed.push((dir, manifest)));
                },
            }
        }
    }
}

} // verus!
