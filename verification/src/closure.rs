use crate::parsing::{Closure, Manifest};
use crate::path::is_under;
use vstd::prelude::*;

verus! {

/// The libraries that a resolution from `root` knows after `rounds` rounds,
/// where `world` gives the manifest of each directory that has one. At first
/// these are the libraries that `root` declares. Each round adds the
/// libraries declared by the manifests that lie in or below a library known
/// before.
pub open spec fn known(
    root: Manifest,
    world: Map<Seq<char>, Manifest>,
    rounds: nat,
) -> Set<Seq<char>>
    decreases rounds,
{
    if rounds == 0 {
        root.libraries.to_set()
    } else {
        let before = known(root, world, (rounds - 1) as nat);
        Set::new(
            |library: Seq<char>|
                before.contains(library) || exists|dir: Seq<char>, from: Seq<char>|
                    before.contains(from) && world.contains_key(dir) && #[trigger] is_under(
                        dir,
                        from,
                    ) && world[dir].libraries.contains(library),
        )
    }
}

/// Whether `library` is declared by `root` or by a manifest that a
/// resolution from `root` reaches.
pub open spec fn is_library(
    root: Manifest,
    world: Map<Seq<char>, Manifest>,
    library: Seq<char>,
) -> bool {
    exists|rounds: nat| (#[trigger] known(root, world, rounds)).contains(library)
}

/// Whether `dir` holds a manifest that a resolution from `root` reaches: it
/// lies in or below a library of the resolution.
pub open spec fn is_found(root: Manifest, world: Map<Seq<char>, Manifest>, dir: Seq<char>) -> bool {
    world.contains_key(dir) && exists|library: Seq<char>| #[trigger]
        is_library(root, world, library) && is_under(dir, library)
}

/// Whether `requirement` is required by `root` or by a manifest that a
/// resolution from `root` reaches.
pub open spec fn is_required(
    root: Manifest,
    world: Map<Seq<char>, Manifest>,
    requirement: Seq<char>,
) -> bool {
    root.requirements.contains(requirement) || exists|dir: Seq<char>| #[trigger]
        is_found(root, world, dir) && world[dir].requirements.contains(requirement)
}

/// Whether `path` is an extra path of `root` or of a manifest that a
/// resolution from `root` reaches.
pub open spec fn is_extra_path(
    root: Manifest,
    world: Map<Seq<char>, Manifest>,
    path: Seq<char>,
) -> bool {
    root.paths.contains(path) || exists|dir: Seq<char>| #[trigger]
        is_found(root, world, dir) && world[dir].paths.contains(path)
}

/// The dependency closure of the manifest `root` in `world`: the
/// requirements and extra paths of `root` and of every manifest reached, and
/// as libraries every library declared along the way together with every
/// directory whose manifest was reached. References are taken as they are
/// written, from the root of the project: the library `libs/b`, declared by
/// the manifest in `libs/a`, is the directory `libs/b`.
pub open spec fn closure_of(root: Manifest, world: Map<Seq<char>, Manifest>) -> Closure {
    Closure {
        requirements: Set::new(|requirement: Seq<char>| is_required(root, world, requirement)),
        libraries: Set::new(
            |library: Seq<char>|
                is_library(root, world, library) || is_found(root, world, library),
        ),
        paths: Set::new(|path: Seq<char>| is_extra_path(root, world, path)),
    }
}

/// What `root` declares is a library of the resolution.
pub proof fn lemma_root_library(
    root: Manifest,
    world: Map<Seq<char>, Manifest>,
    library: Seq<char>,
)
    requires
        root.libraries.contains(library),
    ensures
        is_library(root, world, library),
{
    assert(known(root, world, 0).contains(library));
}

/// What a reached manifest declares is a library of the resolution.
pub proof fn lemma_declared_library(
    root: Manifest,
    world: Map<Seq<char>, Manifest>,
    from: Seq<char>,
    dir: Seq<char>,
    library: Seq<char>,
)
    requires
        is_library(root, world, from),
        world.contains_key(dir),
        is_under(dir, from),
        world[dir].libraries.contains(library),
    ensures
        is_library(root, world, library),
        is_found(root, world, dir),
{
    let rounds = choose|rounds: nat| (#[trigger] known(root, world, rounds)).contains(from);
    assert(known(root, world, rounds + 1).contains(library));
}

/// A set that holds what `root` declares, and with each library also what
/// the manifests in or below it declare, holds every library of the
/// resolution.
pub proof fn lemma_closed_holds_known(
    root: Manifest,
    world: Map<Seq<char>, Manifest>,
    closed: Set<Seq<char>>,
    rounds: nat,
)
    requires
        forall|library: Seq<char>| root.libraries.contains(library) ==> closed.contains(library),
        forall|dir: Seq<char>, from: Seq<char>, library: Seq<char>|
            closed.contains(from) && world.contains_key(dir) && #[trigger] is_under(dir, from)
                && #[trigger] world[dir].libraries.contains(library) ==> closed.contains(library),
    ensures
        forall|library: Seq<char>| #[trigger]
            known(root, world, rounds).contains(library) ==> closed.contains(library),
    decreases rounds,
{
    if rounds > 0 {
        lemma_closed_holds_known(root, world, closed, (rounds - 1) as nat);
        let before = known(root, world, (rounds - 1) as nat);
        assert forall|library: Seq<char>| #[trigger]
            known(root, world, rounds).contains(library) implies closed.contains(library) by {
            if !before.contains(library) {
                let (dir, from) = choose|dir: Seq<char>, from: Seq<char>|
                    before.contains(from) && world.contains_key(dir) && #[trigger] is_under(
                        dir,
                        from,
                    ) && world[dir].libraries.contains(library);
                assert(closed.contains(from));
                assert(is_under(dir, from) && world[dir].libraries.contains(library));
            }
        }
    }
}

/// A directory lies under itself, and what lies under a directory lies
/// under whatever that directory lies under.
pub proof fn lemma_is_under_order(a: Seq<char>, b: Seq<char>, c: Seq<char>)
    ensures
        is_under(a, a),
        is_under(a, b) && is_under(b, c) ==> is_under(a, c),
{
    if is_under(a, b) && is_under(b, c) && a != b && b != c {
        let cs = c + seq!['/'];
        let bs = b + seq!['/'];
        assert(b.subrange(0, cs.len() as int) == cs);
        assert(a.subrange(0, bs.len() as int) == bs);
        assert(a.subrange(0, cs.len() as int) =~= a.subrange(0, bs.len() as int).subrange(
            0,
            cs.len() as int,
        ));
        assert(bs.subrange(0, cs.len() as int) =~= b.subrange(0, cs.len() as int));
    }
}

/// A manifest that declares no library has only itself in its closure:
/// its own requirements and extra paths, and no library.
pub proof fn lemma_closure_without_libraries(root: Manifest, world: Map<Seq<char>, Manifest>)
    requires
        root.libraries.len() == 0,
    ensures
        closure_of(root, world).requirements == root.requirements.to_set(),
        closure_of(root, world).libraries == Set::<Seq<char>>::empty(),
        closure_of(root, world).paths == root.paths.to_set(),
{
    let none = Set::<Seq<char>>::empty();
    assert forall|library: Seq<char>| !is_library(root, world, library) by {
        if is_library(root, world, library) {
            let rounds = choose|rounds: nat| (#[trigger] known(root, world, rounds)).contains(
                library,
            );
            lemma_closed_holds_known(root, world, none, rounds);
        }
    }
    assert forall|dir: Seq<char>| !is_found(root, world, dir) by {}
    assert(closure_of(root, world).requirements =~= root.requirements.to_set());
    assert(closure_of(root, world).libraries =~= none);
    assert(closure_of(root, world).paths =~= root.paths.to_set());
}

/// Where every library of a resolution holds a manifest itself, the
/// libraries of the closure are exactly the directories whose manifests the
/// resolution reaches, however many ways lead to each.
pub proof fn lemma_libraries_are_found(root: Manifest, world: Map<Seq<char>, Manifest>)
    requires
        forall|library: Seq<char>|
            is_library(root, world, library) ==> world.contains_key(library),
    ensures
        closure_of(root, world).libraries == Set::new(
            |dir: Seq<char>| is_found(root, world, dir),
        ),
{
    assert forall|library: Seq<char>| is_library(root, world, library) implies is_found(
        root,
        world,
        library,
    ) by {
        lemma_is_under_order(library, library, library);
    }
    assert(closure_of(root, world).libraries =~= Set::new(
        |dir: Seq<char>| is_found(root, world, dir),
    ));
}

/// A reference that closes a circle changes nothing. Let two worlds differ
/// only in that the manifest of `dir` declares `library` in the one and not
/// in the other. If the resolution reaches `library` also without that
/// reference, both worlds give the same closure.
pub proof fn lemma_closing_reference(
    root: Manifest,
    with_reference: Map<Seq<char>, Manifest>,
    without: Map<Seq<char>, Manifest>,
    dir: Seq<char>,
    library: Seq<char>,
)
    requires
        with_reference.dom() == without.dom(),
        forall|d: Seq<char>|
            without.contains_key(d) && d != dir ==> with_reference[d] == without[d],
        with_reference[dir].requirements == without[dir].requirements,
        with_reference[dir].paths == without[dir].paths,
        forall|l: Seq<char>|
            with_reference[dir].libraries.contains(l) <==> without[dir].libraries.contains(l) || l
                == library,
        is_library(root, without, library),
    ensures
        closure_of(root, with_reference) == closure_of(root, without),
{
    let reached = Set::new(|l: Seq<char>| is_library(root, without, l));
    assert forall|l: Seq<char>| root.libraries.contains(l) implies reached.contains(l) by {
        lemma_root_library(root, without, l);
    }
    assert forall|d: Seq<char>, from: Seq<char>, l: Seq<char>|
        reached.contains(from) && with_reference.contains_key(d) && #[trigger] is_under(d, from)
            && #[trigger] with_reference[d].libraries.contains(l) implies reached.contains(l) by {
        assert(without.contains_key(d));
        if without[d].libraries.contains(l) {
            lemma_declared_library(root, without, from, d, l);
        }
    }
    assert forall|l: Seq<char>| is_library(root, with_reference, l) implies is_library(
        root,
        without,
        l,
    ) by {
        let rounds = choose|rounds: nat| (#[trigger] known(root, with_reference, rounds)).contains(
            l,
        );
        lemma_closed_holds_known(root, with_reference, reached, rounds);
        assert(reached.contains(l));
    }
    let reached_with = Set::new(|l: Seq<char>| is_library(root, with_reference, l));
    assert forall|l: Seq<char>| root.libraries.contains(l) implies reached_with.contains(l) by {
        lemma_root_library(root, with_reference, l);
    }
    assert forall|d: Seq<char>, from: Seq<char>, l: Seq<char>|
        reached_with.contains(from) && without.contains_key(d) && #[trigger] is_under(d, from)
            && #[trigger] without[d].libraries.contains(l) implies reached_with.contains(l) by {
        assert(with_reference.contains_key(d));
        assert(with_reference[d].libraries.contains(l));
        lemma_declared_library(root, with_reference, from, d, l);
    }
    assert forall|l: Seq<char>| is_library(root, without, l) implies is_library(
        root,
        with_reference,
        l,
    ) by {
        let rounds = choose|rounds: nat| (#[trigger] known(root, without, rounds)).contains(l);
        lemma_closed_holds_known(root, without, reached_with, rounds);
        assert(reached_with.contains(l));
    }
    assert forall|d: Seq<char>| is_found(root, with_reference, d) <==> is_found(
        root,
        without,
        d,
    ) by {
        assert(with_reference.contains_key(d) <==> without.contains_key(d));
        if is_found(root, with_reference, d) {
            let l = choose|l: Seq<char>| #[trigger]
                is_library(root, with_reference, l) && is_under(d, l);
            assert(is_library(root, without, l));
        }
        if is_found(root, without, d) {
            let l = choose|l: Seq<char>| #[trigger] is_library(root, without, l) && is_under(d, l);
            assert(is_library(root, with_reference, l));
        }
    }
    assert forall|d: Seq<char>| without.contains_key(d) implies with_reference[d].requirements
        == without[d].requirements && with_reference[d].paths == without[d].paths by {}
    assert forall|x: Seq<char>| is_required(root, with_reference, x) <==> is_required(
        root,
        without,
        x,
    ) by {
        if is_required(root, with_reference, x) && !root.requirements.contains(x) {
            let d = choose|d: Seq<char>| #[trigger]
                is_found(root, with_reference, d) && with_reference[d].requirements.contains(x);
            assert(is_found(root, without, d) && without[d].requirements.contains(x));
        }
        if is_required(root, without, x) && !root.requirements.contains(x) {
            let d = choose|d: Seq<char>| #[trigger]
                is_found(root, without, d) && without[d].requirements.contains(x);
            assert(is_found(root, with_reference, d) && with_reference[d].requirements.contains(
                x,
            ));
        }
    }
    assert forall|x: Seq<char>| is_extra_path(root, with_reference, x) <==> is_extra_path(
        root,
        without,
        x,
    ) by {
        if is_extra_path(root, with_reference, x) && !root.paths.contains(x) {
            let d = choose|d: Seq<char>| #[trigger]
                is_found(root, with_reference, d) && with_reference[d].paths.contains(x);
            assert(is_found(root, without, d) && without[d].paths.contains(x));
        }
        if is_extra_path(root, without, x) && !root.paths.contains(x) {
            let d = choose|d: Seq<char>| #[trigger]
                is_found(root, without, d) && without[d].paths.contains(x);
            assert(is_found(root, with_reference, d) && with_reference[d].paths.contains(x));
        }
    }
    assert(closure_of(root, with_reference).requirements =~= closure_of(
        root,
        without,
    ).requirements);
    assert(closure_of(root, with_reference).libraries =~= closure_of(root, without).libraries);
    assert(closure_of(root, with_reference).paths =~= closure_of(root, without).paths);
}

} // verus!
