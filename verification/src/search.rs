use crate::closure::{
    closure_of, is_extra_path, is_found, is_library, is_required, known, lemma_closed_holds_known,
    lemma_declared_library, lemma_is_under_order, lemma_root_library,
};
use crate::index::{lists, ManifestIndex};
use crate::parsing::{
    BuildDependencies, Manifest, ParseError, ResolveError, ServiceContext, ServiceDependencies,
};
use crate::path::{is_under, lies_under, manifest_of, manifest_path};
use crate::resolver::{
    absorbed, lemma_absorbed, lemma_drop_last_contains, lemma_push_contains, lemma_queued,
    lemma_with_all_contains, started, Progress, Resolver,
};
use crate::string_set::with_all;
use vstd::prelude::*;
use vstd::string::*;

verus! {

/// Everything gathered so far belongs to the closure.
spec fn sound(p: Progress, root: Manifest, world: Map<Seq<char>, Manifest>) -> bool {
    &&& forall|x: Seq<char>| #[trigger] p.requirements.contains(x) ==> is_required(root, world, x)
    &&& forall|x: Seq<char>| #[trigger] p.paths.contains(x) ==> is_extra_path(root, world, x)
    &&& forall|x: Seq<char>| #[trigger]
        p.libraries.contains(x) ==> is_library(root, world, x) || is_found(root, world, x)
    &&& forall|x: Seq<char>| #[trigger] p.pending.contains(x) ==> is_library(root, world, x)
    &&& forall|x: Seq<char>| #[trigger] p.visited.contains(x) ==> is_found(root, world, x)
}

/// Everything that the manifest `m` declares has been gathered.
spec fn merged(p: Progress, m: Manifest) -> bool {
    &&& forall|x: Seq<char>| #[trigger] m.requirements.contains(x) ==> p.requirements.contains(x)
    &&& forall|x: Seq<char>| #[trigger] m.paths.contains(x) ==> p.paths.contains(x)
    &&& forall|x: Seq<char>| #[trigger] m.libraries.contains(x) ==> p.libraries.contains(x)
}

/// Every manifest in or below `library` has been merged.
spec fn covered(p: Progress, world: Map<Seq<char>, Manifest>, library: Seq<char>) -> bool {
    forall|d: Seq<char>|
        world.contains_key(d) && #[trigger] is_under(d, library) ==> p.visited.contains(d)
}

/// Whether `x` lies in or below the library that is being searched.
spec fn in_search(x: Seq<char>, current: Option<Seq<char>>) -> bool {
    current matches Some(library) && is_under(x, library)
}

/// Nothing is forgotten: what the root and each merged manifest declare has
/// been gathered, and each gathered library is queued, fully searched, or
/// part of the search under way.
spec fn complete(
    p: Progress,
    root: Manifest,
    world: Map<Seq<char>, Manifest>,
    current: Option<Seq<char>>,
) -> bool {
    &&& merged(p, root)
    &&& forall|d: Seq<char>| #[trigger]
        p.visited.contains(d) ==> world.contains_key(d) && p.libraries.contains(d) && merged(
            p,
            world[d],
        )
    &&& forall|x: Seq<char>| #[trigger]
        p.libraries.contains(x) ==> p.pending.contains(x) || covered(p, world, x) || in_search(
            x,
            current,
        )
}

/// Every gathered library is one of `bound`.
spec fn bounded(p: Progress, bound: Seq<Seq<char>>) -> bool {
    forall|x: Seq<char>| #[trigger] p.libraries.contains(x) ==> bound.contains(x)
}

/// Every directory of `entries`, and every library that its manifests
/// declare.
spec fn declared_in(entries: Seq<(Seq<char>, Manifest)>) -> Seq<Seq<char>>
    decreases entries.len(),
{
    if entries.len() == 0 {
        Seq::empty()
    } else {
        declared_in(entries.drop_last()) + seq![entries.last().0] + entries.last().1.libraries
    }
}

proof fn lemma_declared_in(entries: Seq<(Seq<char>, Manifest)>, k: int)
    requires
        0 <= k < entries.len(),
    ensures
        declared_in(entries).contains(entries[k].0),
        forall|x: Seq<char>| #[trigger]
            entries[k].1.libraries.contains(x) ==> declared_in(entries).contains(x),
    decreases entries.len(),
{
    let before = declared_in(entries.drop_last());
    let all = declared_in(entries);
    let last = entries.last();
    if k < entries.len() - 1 {
        lemma_declared_in(entries.drop_last(), k);
        assert forall|x: Seq<char>| before.contains(x) implies all.contains(x) by {
            let i = choose|i: int| 0 <= i < before.len() && before[i] == x;
            assert(all[i] == x);
        }
        assert(entries.drop_last()[k] == entries[k]);
    } else {
        assert(all[before.len() as int] == last.0);
        assert forall|x: Seq<char>| #[trigger] last.1.libraries.contains(x) implies all.contains(
            x,
        ) by {
            let i = choose|i: int| 0 <= i < last.1.libraries.len() && last.1.libraries[i] == x;
            assert(all[before.len() + 1 + i] == x);
        }
    }
}

/// The libraries that a resolution can ever gather.
spec fn universe(root: Manifest, entries: Seq<(Seq<char>, Manifest)>) -> Seq<Seq<char>> {
    root.libraries + declared_in(entries)
}

/// How much work is left at most: the libraries not gathered yet, and those
/// gathered but still queued.
spec fn work_left(p: Progress, bound: Seq<Seq<char>>) -> int {
    bound.len() - p.libraries.len() + p.pending.len()
}

proof fn lemma_work_left(p: Progress, bound: Seq<Seq<char>>)
    requires
        bounded(p, bound),
        p.libraries.no_duplicates(),
    ensures
        p.libraries.len() <= bound.len(),
{
    p.libraries.unique_seq_to_set();
    bound.lemma_cardinality_of_set();
    vstd::seq_lib::seq_to_set_is_finite(bound);
    assert(p.libraries.to_set().subset_of(bound.to_set())) by {
        assert forall|x: Seq<char>| p.libraries.to_set().contains(x) implies bound.to_set().contains(
            x,
        ) by {
            assert(p.libraries.contains(x));
        }
    }
    vstd::set_lib::lemma_len_subset(p.libraries.to_set(), bound.to_set());
}

proof fn lemma_start(root: Manifest, world: Map<Seq<char>, Manifest>, bound: Seq<Seq<char>>)
    requires
        forall|x: Seq<char>| #[trigger] root.libraries.contains(x) ==> bound.contains(x),
    ensures
        sound(started(root), root, world),
        complete(started(root), root, world, None),
        bounded(started(root), bound),
        started(root).libraries.no_duplicates(),
{
    let base = Progress {
        requirements: with_all(Seq::empty(), root.requirements),
        libraries: Seq::empty(),
        paths: with_all(Seq::empty(), root.paths),
        pending: Seq::empty(),
        visited: Seq::empty(),
    };
    let p = started(root);
    lemma_queued(base, root.libraries);
    lemma_with_all_contains(Seq::empty(), root.requirements);
    lemma_with_all_contains(Seq::empty(), root.paths);
    assert forall|x: Seq<char>| #[trigger] p.pending.contains(x) implies is_library(
        root,
        world,
        x,
    ) by {
        lemma_root_library(root, world, x);
    }
    assert forall|x: Seq<char>| #[trigger] p.libraries.contains(x) implies is_library(
        root,
        world,
        x,
    ) && p.pending.contains(x) && bound.contains(x) by {
        assert(root.libraries.contains(x));
        lemma_root_library(root, world, x);
    }
}

proof fn lemma_pop(p: Progress, root: Manifest, world: Map<Seq<char>, Manifest>)
    requires
        sound(p, root, world),
        complete(p, root, world, None),
        p.pending.len() > 0,
    ensures
        ({
            let q = Progress { pending: p.pending.drop_last(), ..p };
            &&& sound(q, root, world)
            &&& complete(q, root, world, Some(p.pending.last()))
            &&& is_library(root, world, p.pending.last())
        }),
{
    let q = Progress { pending: p.pending.drop_last(), ..p };
    let library = p.pending.last();
    lemma_drop_last_contains(p.pending);
    assert(p.pending.contains(library)) by {
        assert(p.pending[p.pending.len() - 1] == library);
    }
    assert forall|x: Seq<char>| #[trigger] q.pending.contains(x) implies is_library(
        root,
        world,
        x,
    ) by {
        assert(p.pending.contains(x));
    }
    assert(sound(q, root, world));
    assert forall|x: Seq<char>| #[trigger] q.libraries.contains(x) implies q.pending.contains(x)
        || covered(q, world, x) || in_search(x, Some(library)) by {
        if !p.pending.contains(x) {
            assert(covered(p, world, x));
        } else if x == library {
            lemma_is_under_order(x, x, x);
        }
    }
    assert forall|d: Seq<char>| #[trigger] q.visited.contains(d) implies world.contains_key(d)
        && q.libraries.contains(d) && merged(q, world[d]) by {
        assert(merged(p, world[d]));
    }
}

proof fn lemma_absorb(
    p: Progress,
    root: Manifest,
    world: Map<Seq<char>, Manifest>,
    bound: Seq<Seq<char>>,
    library: Seq<char>,
    dir: Seq<char>,
)
    requires
        sound(p, root, world),
        complete(p, root, world, Some(library)),
        bounded(p, bound),
        p.libraries.no_duplicates(),
        is_library(root, world, library),
        world.contains_key(dir),
        is_under(dir, library),
        bound.contains(dir),
        forall|x: Seq<char>| #[trigger] world[dir].libraries.contains(x) ==> bound.contains(x),
    ensures
        ({
            let a = absorbed(p, dir, world[dir]);
            &&& sound(a, root, world)
            &&& complete(a, root, world, Some(library))
            &&& bounded(a, bound)
            &&& a.libraries.no_duplicates()
            &&& a.visited.contains(dir)
            &&& forall|x: Seq<char>| p.visited.contains(x) ==> #[trigger] a.visited.contains(x)
            &&& a.libraries.len() - a.pending.len() >= p.libraries.len() - p.pending.len()
        }),
{
    let m = world[dir];
    let a = absorbed(p, dir, m);
    if !p.visited.contains(dir) {
        lemma_absorbed(p, dir, m);
        lemma_push_contains(p.visited, dir);
        assert(is_found(root, world, dir));
        assert forall|x: Seq<char>| #[trigger] a.requirements.contains(x) implies is_required(
            root,
            world,
            x,
        ) by {
            if !p.requirements.contains(x) {
                assert(is_found(root, world, dir) && world[dir].requirements.contains(x));
            }
        }
        assert forall|x: Seq<char>| #[trigger] a.paths.contains(x) implies is_extra_path(
            root,
            world,
            x,
        ) by {
            if !p.paths.contains(x) {
                assert(is_found(root, world, dir) && world[dir].paths.contains(x));
            }
        }
        assert forall|x: Seq<char>| #[trigger] m.libraries.contains(x) implies is_library(
            root,
            world,
            x,
        ) by {
            lemma_declared_library(root, world, library, dir, x);
        }
        assert forall|x: Seq<char>| #[trigger] a.libraries.contains(x) implies is_library(
            root,
            world,
            x,
        ) || is_found(root, world, x) by {
            if p.libraries.contains(x) {
            } else if x == dir {
            } else {
                assert(m.libraries.contains(x));
            }
        }
        assert forall|x: Seq<char>| #[trigger] a.pending.contains(x) implies is_library(
            root,
            world,
            x,
        ) by {
            if !p.pending.contains(x) {
                assert(m.libraries.contains(x));
            }
        }
        assert forall|x: Seq<char>| #[trigger] a.visited.contains(x) implies is_found(
            root,
            world,
            x,
        ) by {
            if !p.visited.contains(x) {
                assert(x == dir);
            }
        }
        assert(sound(a, root, world));
        assert(merged(a, root)) by {
            assert(merged(p, root));
        }
        assert forall|d: Seq<char>| #[trigger] a.visited.contains(d) implies world.contains_key(d)
            && a.libraries.contains(d) && merged(a, world[d]) by {
            if p.visited.contains(d) {
                assert(merged(p, world[d]));
                assert(p.libraries.contains(d));
            } else {
                assert(d == dir);
            }
        }
        assert forall|x: Seq<char>| #[trigger] a.libraries.contains(x) implies a.pending.contains(
            x,
        ) || covered(a, world, x) || in_search(x, Some(library)) by {
            if p.libraries.contains(x) {
                if p.pending.contains(x) {
                } else if covered(p, world, x) {
                    assert forall|d: Seq<char>|
                        world.contains_key(d) && #[trigger] is_under(
                            d,
                            x,
                        ) implies a.visited.contains(d) by {
                        assert(p.visited.contains(d));
                    }
                }
            } else if x == dir {
            } else {
                assert(m.libraries.contains(x));
            }
        }
        assert forall|x: Seq<char>| #[trigger] a.libraries.contains(x) implies bound.contains(
            x,
        ) by {
            if p.libraries.contains(x) {
            } else if x == dir {
            } else {
                assert(m.libraries.contains(x));
            }
        }
    }
}

proof fn lemma_search_done(
    p: Progress,
    root: Manifest,
    world: Map<Seq<char>, Manifest>,
    library: Seq<char>,
)
    requires
        complete(p, root, world, Some(library)),
        covered(p, world, library),
    ensures
        complete(p, root, world, None),
{
    assert forall|x: Seq<char>| #[trigger] p.libraries.contains(x) implies p.pending.contains(x)
        || covered(p, world, x) by {
        if !p.pending.contains(x) && !covered(p, world, x) {
            assert(is_under(x, library));
            assert forall|d: Seq<char>|
                world.contains_key(d) && #[trigger] is_under(d, x) implies p.visited.contains(
                d,
            ) by {
                lemma_is_under_order(d, x, library);
                assert(is_under(d, library));
            }
        }
    }
}

proof fn lemma_finished(p: Progress, root: Manifest, world: Map<Seq<char>, Manifest>)
    requires
        sound(p, root, world),
        complete(p, root, world, None),
        p.pending.len() == 0,
    ensures
        p.requirements.to_set() == closure_of(root, world).requirements,
        p.libraries.to_set() == closure_of(root, world).libraries,
        p.paths.to_set() == closure_of(root, world).paths,
{
    let gathered = p.libraries.to_set();
    assert(merged(p, root));
    assert forall|x: Seq<char>| #[trigger] p.libraries.contains(x) implies covered(p, world, x) by {
        assert(!p.pending.contains(x));
    }
    assert forall|dir: Seq<char>, from: Seq<char>, library: Seq<char>|
        gathered.contains(from) && world.contains_key(dir) && #[trigger] is_under(dir, from)
            && #[trigger] world[dir].libraries.contains(library) implies gathered.contains(
        library,
    ) by {
        assert(p.libraries.contains(from));
        assert(covered(p, world, from));
        assert(p.visited.contains(dir));
        assert(merged(p, world[dir]));
    }
    assert forall|x: Seq<char>| is_library(root, world, x) implies p.libraries.contains(x) by {
        let rounds = choose|rounds: nat| (#[trigger] known(root, world, rounds)).contains(x);
        lemma_closed_holds_known(root, world, gathered, rounds);
    }
    assert forall|d: Seq<char>| is_found(root, world, d) implies p.visited.contains(d) by {
        let library = choose|library: Seq<char>| #[trigger]
            is_library(root, world, library) && is_under(d, library);
        assert(p.libraries.contains(library));
        assert(covered(p, world, library));
    }
    assert forall|x: Seq<char>| is_required(root, world, x) implies p.requirements.contains(x) by {
        if !root.requirements.contains(x) {
            let d = choose|d: Seq<char>| #[trigger]
                is_found(root, world, d) && world[d].requirements.contains(x);
            assert(p.visited.contains(d));
            assert(merged(p, world[d]));
        }
    }
    assert forall|x: Seq<char>| is_extra_path(root, world, x) implies p.paths.contains(x) by {
        if !root.paths.contains(x) {
            let d = choose|d: Seq<char>| #[trigger]
                is_found(root, world, d) && world[d].paths.contains(x);
            assert(p.visited.contains(d));
            assert(merged(p, world[d]));
        }
    }
    assert forall|x: Seq<char>| is_found(root, world, x) implies p.libraries.contains(x) by {
        assert(p.visited.contains(x));
    }
    assert(p.requirements.to_set() =~= closure_of(root, world).requirements);
    assert(p.libraries.to_set() =~= closure_of(root, world).libraries);
    assert(p.paths.to_set() =~= closure_of(root, world).paths);
}

/// Resolves the manifest `root` against the manifests of `index`: gathers
/// what `root` declares, then searches library after library, merging every
/// manifest that lies in or below it, until no library is left. The result
/// is the dependency closure of `root`, whatever the order of the search,
/// and the search ends also where libraries refer to each other in a circle.
pub fn resolve(root: &BuildDependencies, index: &ManifestIndex) -> (closure: ServiceDependencies)
    ensures
        closure@ == closure_of(root@, index@),
        closure.libraries.elements().no_duplicates(),
{
    let n = index.len();
    let ghost world = index@;
    let ghost entries = index.entries();
    let ghost bound = universe(root@, entries);
    let mut resolver = Resolver::start(root);
    proof {
        assert forall|x: Seq<char>| #[trigger] root@.libraries.contains(x) implies bound.contains(
            x,
        ) by {
            let i = choose|i: int| 0 <= i < root@.libraries.len() && root@.libraries[i] == x;
            assert(bound[i] == x);
        }
        lemma_start(root@, world, bound);
    }
    proof {
        lemma_work_left(resolver@, bound);
    }
    while resolver.pending.len() > 0
        invariant
            world == index@,
            entries == index.entries(),
            bound == universe(root@, entries),
            n == entries.len(),
            lists(entries, world),
            sound(resolver@, root@, world),
            complete(resolver@, root@, world, None),
            bounded(resolver@, bound),
            resolver@.libraries.no_duplicates(),
            resolver@.libraries.len() <= bound.len(),
        decreases work_left(resolver@, bound),
    {
        let ghost at_start = resolver@;
        let library = resolver.next_library().unwrap();
        proof {
            lemma_pop(at_start, root@, world);
        }
        let mut i: usize = 0;
        while i < n
            invariant
                world == index@,
                entries == index.entries(),
                bound == universe(root@, entries),
                n == entries.len(),
                i <= n,
                lists(entries, world),
                sound(resolver@, root@, world),
                complete(resolver@, root@, world, Some(library@)),
                bounded(resolver@, bound),
                resolver@.libraries.no_duplicates(),
                is_library(root@, world, library@),
                forall|k: int|
                    0 <= k < i && is_under((#[trigger] entries[k]).0, library@)
                        ==> resolver@.visited.contains(entries[k].0),
                resolver@.libraries.len() - resolver@.pending.len() >= at_start.libraries.len()
                    - at_start.pending.len() + 1,
            decreases n - i,
        {
            let file = index.get(i);
            if lies_under(file.path.as_str(), library.as_str()) {
                proof {
                    let dir = entries[i as int].0;
                    assert(world.contains_key(dir) && world[dir] == entries[i as int].1);
                    lemma_declared_in(entries, i as int);
                    assert forall|x: Seq<char>|
                        declared_in(entries).contains(x) implies bound.contains(x) by {
                        let j = choose|j: int|
                            0 <= j < declared_in(entries).len() && declared_in(entries)[j] == x;
                        assert(bound[root@.libraries.len() + j] == x);
                    }
                    lemma_absorb(resolver@, root@, world, bound, library@, dir);
                }
                resolver.absorb(file);
            }
            i = i + 1;
        }
        proof {
            assert forall|d: Seq<char>|
                world.contains_key(d) && #[trigger] is_under(
                    d,
                    library@,
                ) implies resolver@.visited.contains(d) by {
                let k = choose|k: int| 0 <= k < entries.len() && (#[trigger] entries[k]).0 == d;
                assert(is_under(entries[k].0, library@));
            }
            lemma_search_done(resolver@, root@, world, library@);
        }
        proof {
            lemma_work_left(resolver@, bound);
        }
    }
    proof {
        lemma_finished(resolver@, root@, world);
    }
    resolver.finish()
}

impl ServiceContext {
    /// The service in the directory `path`, resolved against the manifests
    /// of `index`. Fails where `index` has no manifest for `path`, and names
    /// the manifest file that is missing.
    pub fn from_index(path: &str, index: &ManifestIndex) -> (r: Result<
        ServiceContext,
        ResolveError,
    >)
        ensures
            r is Ok <==> index@.contains_key(path@),
            r matches Ok(service) ==> service.path@ == path@ && service.dependencies@
                == closure_of(index@[path@], index@)
                && service.dependencies.libraries.elements().no_duplicates(),
            r matches Err(e) ==> e.manifest_path@ == manifest_of(path@)
                && e.cause is ManifestNotFound,
    {
        match index.find(path) {
            Some(file) => Ok(
                ServiceContext {
                    path: String::from_str(path),
                    dependencies: resolve(&file.dependencies, index),
                },
            ),
            None => Err(
                ResolveError {
                    manifest_path: manifest_path(path),
                    cause: ParseError::ManifestNotFound,
                },
            ),
        }
    }
}

} // verus!
