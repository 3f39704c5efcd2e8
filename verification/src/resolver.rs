use crate::parsing::{BuildDependencies, BuildFile, Manifest, ServiceDependencies};
use crate::path::{parent_dir, parent_of};
use crate::string_set::{lemma_with_all_set, with_all, StringSet};
use crate::text::views;
use vstd::prelude::*;
use vstd::string::*;

verus! {

/// How far a resolution has come, as plain sequences of texts.
pub struct Progress {
    /// The requirements gathered so far.
    pub requirements: Seq<Seq<char>>,
    /// The libraries gathered so far.
    pub libraries: Seq<Seq<char>>,
    /// The extra paths gathered so far.
    pub paths: Seq<Seq<char>>,
    /// The libraries that still have to be searched for manifests; the last
    /// one is searched next.
    pub pending: Seq<Seq<char>>,
    /// The directories whose manifests have been merged.
    pub visited: Seq<Seq<char>>,
}

/// `progress` with each library of `declared` that is not yet among the
/// gathered libraries added to them and queued for a search.
pub open spec fn queued(progress: Progress, declared: Seq<Seq<char>>) -> Progress
    decreases declared.len(),
{
    if declared.len() == 0 {
        progress
    } else {
        let before = queued(progress, declared.drop_last());
        if before.libraries.contains(declared.last()) {
            before
        } else {
            Progress {
                libraries: before.libraries.push(declared.last()),
                pending: before.pending.push(declared.last()),
                ..before
            }
        }
    }
}

/// The start of a resolution from the manifest `root`: all it declares is
/// gathered, and each of its libraries is queued once.
pub open spec fn started(root: Manifest) -> Progress {
    queued(
        Progress {
            requirements: with_all(Seq::empty(), root.requirements),
            libraries: Seq::empty(),
            paths: with_all(Seq::empty(), root.paths),
            pending: Seq::empty(),
            visited: Seq::empty(),
        },
        root.libraries,
    )
}

/// `progress` after the manifest found in directory `dir` is merged. A
/// directory that was merged before changes nothing. Otherwise the directory
/// is itself a library, the manifest's requirements and paths are gathered,
/// and each library it declares is queued unless it was gathered already.
pub open spec fn absorbed(progress: Progress, dir: Seq<char>, manifest: Manifest) -> Progress {
    if progress.visited.contains(dir) {
        progress
    } else {
        queued(
            Progress {
                requirements: with_all(progress.requirements, manifest.requirements),
                libraries: with_all(progress.libraries, seq![dir]),
                paths: with_all(progress.paths, manifest.paths),
                pending: progress.pending,
                visited: progress.visited.push(dir),
            },
            manifest.libraries,
        )
    }
}

/// A resolution in progress. Whoever drives it takes the next library with
/// `next_library`, searches it and all its subdirectories for manifests,
/// hands each manifest found to `absorb`, and goes on until no library is
/// left; `finish` then gives what was gathered.
pub struct Resolver {
    pub closure: ServiceDependencies,
    pub pending: Vec<String>,
    pub visited: StringSet,
}

impl View for Resolver {
    type V = Progress;

    open spec fn view(&self) -> Progress {
        Progress {
            requirements: self.closure.requirements.elements(),
            libraries: self.closure.libraries.elements(),
            paths: self.closure.paths.elements(),
            pending: views(self.pending@),
            visited: self.visited.elements(),
        }
    }
}

impl Resolver {
    fn queue(&mut self, declared: &Vec<String>)
        ensures
            final(self)@ == queued(old(self)@, views(declared@)),
    {
        let mut i: usize = 0;
        proof {
            assert(views(declared@).take(0) =~= Seq::<Seq<char>>::empty());
        }
        while i < declared.len()
            invariant
                i <= declared.len(),
                self@ == queued(old(self)@, views(declared@).take(i as int)),
            decreases declared.len() - i,
        {
            proof {
                let next = views(declared@).take(i + 1);
                assert(next.drop_last() =~= views(declared@).take(i as int));
                assert(next.last() == declared@[i as int]@);
            }
            let ghost before = views(self.pending@);
            if self.closure.libraries.insert(declared[i].clone()) {
                self.pending.push(declared[i].clone());
                assert(views(self.pending@) =~= before.push(declared@[i as int]@));
            }
            i = i + 1;
        }
        proof {
            assert(views(declared@).take(declared.len() as int) =~= views(declared@));
        }
    }

    /// Starts a resolution from the manifest of the service itself.
    pub fn start(root: &BuildDependencies) -> (resolver: Resolver)
        ensures
            resolver@ == started(root@),
    {
        let mut resolver = Resolver {
            closure: ServiceDependencies::default(),
            pending: Vec::new(),
            visited: StringSet::new(),
        };
        resolver.closure.requirements.extend(&root.requirements);
        resolver.closure.paths.extend(&root.paths);
        assert(views(resolver.pending@) =~= Seq::<Seq<char>>::empty());
        resolver.queue(&root.libraries);
        resolver
    }

    /// Takes the library to search next, if one is left.
    pub fn next_library(&mut self) -> (next: Option<String>)
        ensures
            old(self)@.pending.len() == 0 ==> next is None && final(self)@ == old(self)@,
            old(self)@.pending.len() > 0 ==> (next matches Some(library) && library@ == old(
                self,
            )@.pending.last() && final(self)@ == Progress {
                pending: old(self)@.pending.drop_last(),
                ..old(self)@
            }),
    {
        let ghost before = views(self.pending@);
        let next = self.pending.pop();
        proof {
            if before.len() > 0 {
                assert(views(self.pending@) =~= before.drop_last());
            } else {
                assert(views(self.pending@) =~= before);
            }
        }
        next
    }

    /// Whether the manifest file at `manifest_path` was merged before, so
    /// that it need not be read again.
    pub fn has_merged(&self, manifest_path: &str) -> (merged: bool)
        ensures
            merged == self@.visited.contains(parent_of(manifest_path@)),
    {
        self.visited.contains(&parent_dir(manifest_path))
    }

    /// Merges one manifest that the search of a library has found.
    pub fn absorb(&mut self, found: &BuildFile)
        ensures
            final(self)@ == absorbed(old(self)@, found.path@, found.dependencies@),
    {
        if self.visited.insert(found.path.clone()) {
            proof {
                assert(with_all(self.closure.libraries.elements(), seq![found.path@]) == if self.closure.libraries.elements().contains(
                    found.path@,
                ) {
                    self.closure.libraries.elements()
                } else {
                    self.closure.libraries.elements().push(found.path@)
                }) by {
                    let one = seq![found.path@];
                    assert(one.drop_last() =~= Seq::<Seq<char>>::empty());
                    assert(one.last() == found.path@);
                    assert(with_all(self.closure.libraries.elements(), one.drop_last())
                        == self.closure.libraries.elements());
                }
            }
            self.closure.libraries.insert(found.path.clone());
            self.closure.requirements.extend(&found.dependencies.requirements);
            self.closure.paths.extend(&found.dependencies.paths);
            self.queue(&found.dependencies.libraries);
        }
    }

    /// Ends the resolution and gives what was gathered.
    pub fn finish(self) -> (closure: ServiceDependencies)
        ensures
            closure.requirements.elements() == self@.requirements,
            closure.libraries.elements() == self@.libraries,
            closure.paths.elements() == self@.paths,
    {
        self.closure
    }
}

pub(crate) proof fn lemma_push_contains(s: Seq<Seq<char>>, a: Seq<char>)
    ensures
        forall|x: Seq<char>| #[trigger] s.push(a).contains(x) <==> s.contains(x) || x == a,
{
    assert forall|x: Seq<char>| #[trigger] s.push(a).contains(x) <==> s.contains(x) || x == a by {
        if s.contains(x) {
            let i = choose|i: int| 0 <= i < s.len() && s[i] == x;
            assert(s.push(a)[i] == x);
        }
        if x == a {
            assert(s.push(a)[s.len() as int] == a);
        }
        if s.push(a).contains(x) {
            let i = choose|i: int| 0 <= i < s.push(a).len() && s.push(a)[i] == x;
            if i < s.len() {
                assert(s[i] == x);
            }
        }
    }
}

pub(crate) proof fn lemma_drop_last_contains(s: Seq<Seq<char>>)
    requires
        s.len() > 0,
    ensures
        forall|x: Seq<char>| #[trigger] s.contains(x) <==> s.drop_last().contains(x) || x == s.last(),
{
    assert(s =~= s.drop_last().push(s.last()));
    lemma_push_contains(s.drop_last(), s.last());
}

pub(crate) proof fn lemma_with_all_contains(elems: Seq<Seq<char>>, names: Seq<Seq<char>>)
    ensures
        forall|x: Seq<char>| #[trigger]
            with_all(elems, names).contains(x) <==> elems.contains(x) || names.contains(x),
{
    lemma_with_all_set(elems, names);
    assert forall|x: Seq<char>| #[trigger]
        with_all(elems, names).contains(x) <==> elems.contains(x) || names.contains(x) by {
        assert(with_all(elems, names).to_set().contains(x) <==> elems.to_set().union(
            names.to_set(),
        ).contains(x));
    }
}

/// What queuing changes: nothing but the libraries and the queue; a library
/// is gathered afterwards where it was before or is declared; and each
/// declared library was gathered before or is queued now.
pub(crate) proof fn lemma_queued(p: Progress, declared: Seq<Seq<char>>)
    ensures
        ({
            let q = queued(p, declared);
            &&& q.requirements == p.requirements
            &&& q.paths == p.paths
            &&& q.visited == p.visited
            &&& forall|x: Seq<char>| #[trigger]
                q.libraries.contains(x) <==> p.libraries.contains(x) || declared.contains(x)
            &&& forall|x: Seq<char>| p.pending.contains(x) ==> #[trigger] q.pending.contains(x)
            &&& forall|x: Seq<char>| #[trigger]
                q.pending.contains(x) ==> p.pending.contains(x) || declared.contains(x)
            &&& forall|x: Seq<char>| #[trigger]
                declared.contains(x) ==> p.libraries.contains(x) || q.pending.contains(x)
            &&& q.libraries.len() - q.pending.len() == p.libraries.len() - p.pending.len()
            &&& p.libraries.no_duplicates() ==> q.libraries.no_duplicates()
        }),
    decreases declared.len(),
{
    if declared.len() > 0 {
        let b = queued(p, declared.drop_last());
        let q = queued(p, declared);
        lemma_queued(p, declared.drop_last());
        lemma_drop_last_contains(declared);
        lemma_push_contains(b.libraries, declared.last());
        lemma_push_contains(b.pending, declared.last());
        assert forall|x: Seq<char>| #[trigger]
            q.libraries.contains(x) <==> p.libraries.contains(x) || declared.contains(x) by {
            assert(b.libraries.contains(x) <==> p.libraries.contains(x)
                || declared.drop_last().contains(x));
        }
        assert forall|x: Seq<char>| p.pending.contains(x) implies #[trigger] q.pending.contains(
            x,
        ) by {
            assert(b.pending.contains(x));
        }
        assert forall|x: Seq<char>| #[trigger] q.pending.contains(x) implies p.pending.contains(x)
            || declared.contains(x) by {
            if b.pending.contains(x) {
            }
        }
        assert forall|x: Seq<char>| #[trigger] declared.contains(x) implies p.libraries.contains(x)
            || q.pending.contains(x) by {
            if declared.drop_last().contains(x) {
                assert(p.libraries.contains(x) || b.pending.contains(x));
            } else {
                assert(x == declared.last());
                if b.libraries.contains(x) {
                    assert(p.libraries.contains(x) || declared.drop_last().contains(x));
                }
            }
        }
    }
}

/// What merging a manifest from a directory not merged before changes.
pub(crate) proof fn lemma_absorbed(p: Progress, dir: Seq<char>, m: Manifest)
    requires
        !p.visited.contains(dir),
    ensures
        ({
            let a = absorbed(p, dir, m);
            &&& a.visited == p.visited.push(dir)
            &&& forall|x: Seq<char>| #[trigger]
                a.requirements.contains(x) <==> p.requirements.contains(x)
                    || m.requirements.contains(x)
            &&& forall|x: Seq<char>| #[trigger]
                a.paths.contains(x) <==> p.paths.contains(x) || m.paths.contains(x)
            &&& forall|x: Seq<char>| #[trigger]
                a.libraries.contains(x) <==> p.libraries.contains(x) || x == dir
                    || m.libraries.contains(x)
            &&& forall|x: Seq<char>| p.pending.contains(x) ==> #[trigger] a.pending.contains(x)
            &&& forall|x: Seq<char>| #[trigger]
                a.pending.contains(x) ==> p.pending.contains(x) || m.libraries.contains(x)
            &&& forall|x: Seq<char>| #[trigger]
                m.libraries.contains(x) ==> p.libraries.contains(x) || x == dir
                    || a.pending.contains(x)
            &&& a.libraries.len() - a.pending.len() >= p.libraries.len() - p.pending.len()
            &&& p.libraries.no_duplicates() ==> a.libraries.no_duplicates()
        }),
{
    let base = Progress {
        requirements: with_all(p.requirements, m.requirements),
        libraries: with_all(p.libraries, seq![dir]),
        paths: with_all(p.paths, m.paths),
        pending: p.pending,
        visited: p.visited.push(dir),
    };
    let a = absorbed(p, dir, m);
    assert(a == queued(base, m.libraries));
    lemma_queued(base, m.libraries);
    lemma_with_all_contains(p.requirements, m.requirements);
    lemma_with_all_contains(p.paths, m.paths);
    lemma_with_all_contains(p.libraries, seq![dir]);
    lemma_with_all_set(p.libraries, seq![dir]);
    assert forall|x: Seq<char>| seq![dir].contains(x) <==> x == dir by {
        if x == dir {
            assert(seq![dir][0] == x);
        }
    }
    assert(base.libraries.len() >= p.libraries.len()) by {
        assert(p.libraries.is_prefix_of(base.libraries));
    }
    assert forall|x: Seq<char>| #[trigger]
        a.libraries.contains(x) <==> p.libraries.contains(x) || x == dir || m.libraries.contains(
            x,
        ) by {
        assert(base.libraries.contains(x) <==> p.libraries.contains(x) || seq![dir].contains(x));
    }
    assert forall|x: Seq<char>| #[trigger] m.libraries.contains(x) implies p.libraries.contains(x)
        || x == dir || a.pending.contains(x) by {
        assert(base.libraries.contains(x) <==> p.libraries.contains(x) || seq![dir].contains(x));
    }
}

} // verus!
