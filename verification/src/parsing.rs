use crate::config::{Requirement, RequirementLockMap};
use crate::path::{parent_dir, parent_of};
use crate::source::{
    entries_of, lookup, nesting_bound, nests_within_limit, toml_value_at, Fault, Found, Lookup,
    MAX_NESTING,
};
use crate::string_set::{with_all, StringSet};
use crate::text::{
    append_all, join, join_strings, lemma_lex_order_total, lex_order, sort_strings, views,
};
use vstd::relations::sorted_by;
use vstd::seq_lib::lemma_sorted_unique;
use vstd::prelude::*;
use vstd::string::*;

verus! {

/// What one manifest declares, as plain sequences of texts.
pub struct Manifest {
    pub requirements: Seq<Seq<char>>,
    pub libraries: Seq<Seq<char>>,
    pub paths: Seq<Seq<char>>,
}

/// What one manifest declares: the packages it requires, the libraries it
/// refers to and the extra paths it wants included.
#[derive(Debug, PartialEq)]
pub struct BuildDependencies {
    pub requirements: Vec<String>,
    pub libraries: Vec<String>,
    pub paths: Vec<String>,
}

impl View for BuildDependencies {
    type V = Manifest;

    open spec fn view(&self) -> Manifest {
        Manifest {
            requirements: views(self.requirements@),
            libraries: views(self.libraries@),
            paths: views(self.paths@),
        }
    }
}

/// Why a manifest could not be read.
#[derive(Debug)]
pub enum ParseError {
    /// There is no manifest file.
    ManifestNotFound,
    /// The manifest is no TOML document, or is nested deeper than is read.
    ManifestUnreadable,
    /// What the manifest holds under `key` is no array of texts.
    ManifestMalformed { key: String },
}

impl ParseError {
    /// What is wrong with the text of the manifest, where it has one.
    pub open spec fn fault(&self) -> Option<Fault> {
        match self {
            ParseError::ManifestNotFound => None,
            ParseError::ManifestUnreadable => Some(Fault::Unreadable),
            ParseError::ManifestMalformed { key } => Some(Fault::Malformed(key@)),
        }
    }
}

/// A manifest that could not be read, and why.
#[derive(Debug)]
pub struct ResolveError {
    /// The path of the manifest file.
    pub manifest_path: String,
    pub cause: ParseError,
}

/// The texts that a manifest gives under one of its keys: none where the key
/// is missing, and those of the array where it holds an array of texts.
/// Anything else is at fault.
pub open spec fn texts_of(found: Found) -> Option<Seq<Seq<char>>> {
    match found {
        Found::Missing => Some(Seq::empty()),
        Found::List(entries) => if forall|i: int|
            0 <= i < entries.len() ==> (#[trigger] entries[i]) is Some {
            Some(Seq::new(entries.len(), |i: int| entries[i]->Some_0))
        } else {
            None
        },
        _ => None,
    }
}

/// What is wrong with what a manifest holds under `key`, if anything: the
/// whole text where it could not be read, and else the key where it holds
/// no array of texts.
pub open spec fn field_fault(found: Found, key: Seq<char>) -> Option<Fault> {
    if found is Invalid {
        Some(Fault::Unreadable)
    } else if texts_of(found) is None {
        Some(Fault::Malformed(key))
    } else {
        None
    }
}

/// What is wrong with a manifest, if anything: the fault of the first of
/// its three keys that has one.
pub open spec fn manifest_fault(requirements: Found, libraries: Found, paths: Found) -> Option<
    Fault,
> {
    if field_fault(requirements, "requirements"@) is Some {
        field_fault(requirements, "requirements"@)
    } else if field_fault(libraries, "libraries"@) is Some {
        field_fault(libraries, "libraries"@)
    } else {
        field_fault(paths, "paths"@)
    }
}

/// What reading a manifest gives, from what was found under its three keys.
pub open spec fn manifest_from(requirements: Found, libraries: Found, paths: Found) -> Result<
    Manifest,
    Fault,
> {
    match manifest_fault(requirements, libraries, paths) {
        Some(fault) => Err(fault),
        None => Ok(
            Manifest {
                requirements: texts_of(requirements)->Some_0,
                libraries: texts_of(libraries)->Some_0,
                paths: texts_of(paths)->Some_0,
            },
        ),
    }
}

/// What reading the manifest text `text` gives: its declarations, or what
/// is wrong with it. A text nested deeper than `MAX_NESTING` is not read.
pub open spec fn parsed_manifest(text: Seq<char>) -> Result<Manifest, Fault> {
    if nesting_bound(text) > MAX_NESTING {
        Err(Fault::Unreadable)
    } else {
        manifest_from(
            toml_value_at(text, "requirements"@),
            toml_value_at(text, "libraries"@),
            toml_value_at(text, "paths"@),
        )
    }
}

fn texts(found: Lookup, key: &str) -> (list: Result<Vec<String>, ParseError>)
    ensures
        list is Ok <==> field_fault(found@, key@) is None,
        list matches Ok(v) ==> views(v@) == texts_of(found@)->Some_0,
        list matches Err(e) ==> e.fault() == field_fault(found@, key@),
{
    match found {
        Lookup::Missing => {
            let v: Vec<String> = Vec::new();
            assert(views(v@) =~= Seq::<Seq<char>>::empty());
            Ok(v)
        },
        Lookup::Invalid => Err(ParseError::ManifestUnreadable),
        Lookup::List(items) => {
            let mut v: Vec<String> = Vec::new();
            let mut i: usize = 0;
            while i < items.len()
                invariant
                    found@ == Found::List(entries_of(items@)),
                    i <= items.len(),
                    v@.len() == i,
                    forall|k: int| 0 <= k < i ==> (#[trigger] entries_of(items@)[k]) is Some,
                    forall|k: int|
                        0 <= k < i ==> (#[trigger] v@[k])@ == entries_of(items@)[k]->Some_0,
                decreases items.len() - i,
            {
                match &items[i] {
                    Some(text) => {
                        v.push(text.clone());
                    },
                    None => {
                        assert(entries_of(items@)[i as int] is None);
                        return Err(ParseError::ManifestMalformed { key: String::from_str(key) });
                    },
                }
                i = i + 1;
            }
            assert(views(v@) =~= texts_of(found@)->Some_0);
            Ok(v)
        },
        _ => Err(ParseError::ManifestMalformed { key: String::from_str(key) }),
    }
}

impl BuildDependencies {
    /// A manifest that declares nothing.
    pub fn default() -> (deps: BuildDependencies)
        ensures
            deps@.requirements == Seq::<Seq<char>>::empty(),
            deps@.libraries == Seq::<Seq<char>>::empty(),
            deps@.paths == Seq::<Seq<char>>::empty(),
    {
        let deps = BuildDependencies {
            requirements: Vec::new(),
            libraries: Vec::new(),
            paths: Vec::new(),
        };
        assert(deps@.requirements =~= Seq::<Seq<char>>::empty());
        assert(deps@.libraries =~= Seq::<Seq<char>>::empty());
        assert(deps@.paths =~= Seq::<Seq<char>>::empty());
        deps
    }

    /// The manifest whose three keys hold `requirements`, `libraries` and
    /// `paths`. A missing key declares nothing. The keys are taken in this
    /// order, and the first one at fault decides the error: the text is
    /// unreadable where the key could not be looked up, and the key is
    /// malformed where it holds anything but an array of texts.
    pub fn from_lookups(requirements: Lookup, libraries: Lookup, paths: Lookup) -> (r: Result<
        BuildDependencies,
        ParseError,
    >)
        ensures
            r is Ok <==> manifest_fault(requirements@, libraries@, paths@) is None,
            r matches Ok(deps) ==> manifest_from(requirements@, libraries@, paths@) == Ok::<
                Manifest,
                Fault,
            >(deps@),
            r matches Err(e) ==> e.fault() == manifest_fault(requirements@, libraries@, paths@),
    {
        let requirements = match texts(requirements, "requirements") {
            Ok(list) => list,
            Err(e) => {
                return Err(e);
            },
        };
        let libraries = match texts(libraries, "libraries") {
            Ok(list) => list,
            Err(e) => {
                return Err(e);
            },
        };
        let paths = match texts(paths, "paths") {
            Ok(list) => list,
            Err(e) => {
                return Err(e);
            },
        };
        Ok(BuildDependencies { requirements, libraries, paths })
    }

    /// Reads a manifest from its text, a TOML document with the keys
    /// `requirements`, `libraries` and `paths`. Other keys are ignored.
    pub fn from_str(build_dependencies_str: &str) -> (r: Result<BuildDependencies, ParseError>)
        ensures
            r is Ok <==> parsed_manifest(build_dependencies_str@) is Ok,
            r matches Ok(deps) ==> parsed_manifest(build_dependencies_str@) == Ok::<
                Manifest,
                Fault,
            >(deps@),
            r matches Err(e) ==> e.fault() is Some && parsed_manifest(build_dependencies_str@)
                == Err::<Manifest, Fault>(e.fault()->Some_0),
    {
        if !nests_within_limit(build_dependencies_str) {
            return Err(ParseError::ManifestUnreadable);
        }
        let requirements = lookup(build_dependencies_str, "requirements");
        let libraries = lookup(build_dependencies_str, "libraries");
        let paths = lookup(build_dependencies_str, "paths");
        BuildDependencies::from_lookups(requirements, libraries, paths)
    }
}

/// A manifest together with the directory that holds it.
#[derive(Debug)]
pub struct BuildFile {
    pub path: String,
    pub dependencies: BuildDependencies,
}

impl BuildFile {
    /// The manifest file at `path`, read from `contents`, or from nothing
    /// where there is no such file. The manifest belongs to the directory that
    /// holds the file. A failure names the file.
    pub fn from_contents(path: &str, contents: Option<&str>) -> (r: Result<BuildFile, ResolveError>)
        ensures
            r is Ok <==> (contents matches Some(text) && parsed_manifest(text@) is Ok),
            r matches Ok(file) ==> (contents matches Some(text) && parsed_manifest(text@) == Ok::<
                Manifest,
                Fault,
            >(file.dependencies@) && file.path@ == parent_of(path@)),
            r matches Err(e) ==> e.manifest_path@ == path@ && match contents {
                None => e.cause is ManifestNotFound,
                Some(text) => e.cause.fault() is Some && parsed_manifest(text@) == Err::<
                    Manifest,
                    Fault,
                >(e.cause.fault()->Some_0),
            },
    {
        let text = match contents {
            Some(text) => text,
            None => {
                return Err(
                    ResolveError {
                        manifest_path: String::from_str(path),
                        cause: ParseError::ManifestNotFound,
                    },
                );
            },
        };
        match BuildDependencies::from_str(text) {
            Ok(dependencies) => Ok(BuildFile { path: parent_dir(path), dependencies }),
            Err(cause) => Err(ResolveError { manifest_path: String::from_str(path), cause }),
        }
    }
}

/// Everything a service depends on, as three sets of texts.
pub struct Closure {
    pub requirements: Set<Seq<char>>,
    pub libraries: Set<Seq<char>>,
    pub paths: Set<Seq<char>>,
}

/// The requirements, libraries and paths gathered for a service.
#[derive(Debug)]
pub struct ServiceDependencies {
    pub requirements: StringSet,
    pub libraries: StringSet,
    pub paths: StringSet,
}

impl View for ServiceDependencies {
    type V = Closure;

    open spec fn view(&self) -> Closure {
        Closure {
            requirements: self.requirements@,
            libraries: self.libraries@,
            paths: self.paths@,
        }
    }
}

impl ServiceDependencies {
    /// Nothing gathered yet.
    pub fn default() -> (deps: ServiceDependencies)
        ensures
            deps.requirements.elements() == Seq::<Seq<char>>::empty(),
            deps.libraries.elements() == Seq::<Seq<char>>::empty(),
            deps.paths.elements() == Seq::<Seq<char>>::empty(),
    {
        ServiceDependencies {
            requirements: StringSet::new(),
            libraries: StringSet::new(),
            paths: StringSet::new(),
        }
    }

    /// Adds everything that one manifest declares. What was gathered before
    /// stays in place, and each new text is appended once.
    pub fn extend(&mut self, build_file_dependencies: &BuildDependencies)
        ensures
            final(self).requirements.elements() == with_all(
                old(self).requirements.elements(),
                build_file_dependencies@.requirements,
            ),
            final(self).libraries.elements() == with_all(
                old(self).libraries.elements(),
                build_file_dependencies@.libraries,
            ),
            final(self).paths.elements() == with_all(
                old(self).paths.elements(),
                build_file_dependencies@.paths,
            ),
            final(self)@.requirements == old(self)@.requirements.union(
                build_file_dependencies@.requirements.to_set(),
            ),
            final(self)@.libraries == old(self)@.libraries.union(
                build_file_dependencies@.libraries.to_set(),
            ),
            final(self)@.paths == old(self)@.paths.union(build_file_dependencies@.paths.to_set()),
    {
        self.requirements.extend(&build_file_dependencies.requirements);
        self.libraries.extend(&build_file_dependencies.libraries);
        self.paths.extend(&build_file_dependencies.paths);
    }
}

/// A requirement for which the lock table has no version.
#[derive(Debug)]
pub struct UnlockedRequirement {
    pub name: String,
}

/// Whether the lock table has a version for every one of `names`.
pub open spec fn all_locked(names: Seq<Seq<char>>, lock: Map<Seq<char>, Seq<char>>) -> bool {
    forall|i: int| 0 <= i < names.len() ==> lock.contains_key(#[trigger] names[i])
}

/// Whether `name` is the first of `names` for which the lock table has no
/// version.
pub open spec fn is_first_unlocked(
    names: Seq<Seq<char>>,
    lock: Map<Seq<char>, Seq<char>>,
    name: Seq<char>,
) -> bool {
    exists|i: int|
        0 <= i < names.len() && #[trigger] names[i] == name && !lock.contains_key(name)
            && all_locked(names.take(i), lock)
}

/// One line per name, in the order of the names: the name followed at once
/// by its locked version.
pub open spec fn lock_lines(names: Seq<Seq<char>>, lock: Map<Seq<char>, Seq<char>>) -> Seq<
    Seq<char>,
> {
    Seq::new(names.len(), |i: int| names[i] + lock[names[i]])
}

/// The locked requirements: the lines of `lock_lines` in lexicographic
/// order.
pub open spec fn sorted_lock_lines(
    names: Seq<Seq<char>>,
    lock: Map<Seq<char>, Seq<char>>,
) -> Seq<Seq<char>> {
    lock_lines(names, lock).sort_by(lex_order())
}

/// The requirements listing: the locked requirements in lexicographic
/// order, one per line.
pub open spec fn requirements_listing(
    names: Seq<Seq<char>>,
    lock: Map<Seq<char>, Seq<char>>,
) -> Seq<char> {
    join(sorted_lock_lines(names, lock), seq!['\n'])
}

proof fn lemma_same_elements(a: Seq<Seq<char>>, b: Seq<Seq<char>>)
    requires
        a.no_duplicates(),
        b.no_duplicates(),
        a.to_set() == b.to_set(),
    ensures
        a.to_multiset() == b.to_multiset(),
{
    broadcast use vstd::seq_lib::group_to_multiset_ensures;

    a.lemma_multiset_has_no_duplicates();
    b.lemma_multiset_has_no_duplicates();
    assert forall|x: Seq<char>| a.to_multiset().count(x) == b.to_multiset().count(x) by {
        assert(a.contains(x) <==> a.to_set().contains(x));
        assert(b.contains(x) <==> b.to_set().contains(x));
        assert(a.to_multiset().contains(x) <==> a.to_multiset().count(x) > 0);
        assert(b.to_multiset().contains(x) <==> b.to_multiset().count(x) > 0);
    }
    assert(a.to_multiset() =~= b.to_multiset());
}

proof fn lemma_lines_rearranged(
    a: Seq<Seq<char>>,
    b: Seq<Seq<char>>,
    lock: Map<Seq<char>, Seq<char>>,
)
    requires
        a.to_multiset() == b.to_multiset(),
    ensures
        lock_lines(a, lock).to_multiset() == lock_lines(b, lock).to_multiset(),
    decreases a.len(),
{
    broadcast use vstd::seq_lib::group_to_multiset_ensures;

    if a.len() == 0 {
        vstd::seq_lib::to_multiset_len(a);
        vstd::seq_lib::to_multiset_len(b);
        assert(b.len() == 0);
        assert(lock_lines(a, lock) =~= lock_lines(b, lock));
    } else {
        let x = a.last();
        assert(a[a.len() - 1] == x);
        assert(a.contains(x));
        assert(b.to_multiset().count(x) > 0);
        assert(b.contains(x));
        let i = choose|i: int| 0 <= i < b.len() && b[i] == x;
        let a1 = a.drop_last();
        let b1 = b.remove(i);
        assert(a =~= a1.push(x));
        assert(a1.to_multiset() =~= a.to_multiset().remove(x));
        assert(b1.to_multiset() =~= b.to_multiset().remove(x));
        lemma_lines_rearranged(a1, b1, lock);
        let line = x + lock[x];
        assert(lock_lines(a, lock) =~= lock_lines(a1, lock).push(line));
        assert(lock_lines(b, lock) =~= lock_lines(b1, lock).insert(i, line));
    }
}

/// The requirements listing depends on the set of requirements and the
/// lock table alone, not on the order in which the requirements were
/// gathered, and its lines stand in lexicographic order.
pub proof fn lemma_listing_of_set(
    names: Seq<Seq<char>>,
    others: Seq<Seq<char>>,
    lock: Map<Seq<char>, Seq<char>>,
)
    requires
        names.no_duplicates(),
        others.no_duplicates(),
        names.to_set() == others.to_set(),
    ensures
        requirements_listing(names, lock) == requirements_listing(others, lock),
        sorted_lock_lines(names, lock) == sorted_lock_lines(others, lock),
        sorted_by(sorted_lock_lines(names, lock), lex_order()),
{
    lemma_same_elements(names, others);
    lemma_lines_rearranged(names, others, lock);
    lemma_lex_order_total();
    let lines = lock_lines(names, lock);
    let other_lines = lock_lines(others, lock);
    lines.lemma_sort_by_ensures(lex_order());
    other_lines.lemma_sort_by_ensures(lex_order());
    lemma_sorted_unique(lines.sort_by(lex_order()), other_lines.sort_by(lex_order()), lex_order());
}

/// A service: its directory and everything it depends on.
#[derive(Debug)]
pub struct ServiceContext {
    pub path: String,
    pub dependencies: ServiceDependencies,
}

impl ServiceContext {
    /// Every source path that the service is built from: its own directory,
    /// then its libraries, then its extra paths.
    pub fn get_all_paths(&self) -> (all: Vec<String>)
        ensures
            views(all@) == seq![self.path@] + self.dependencies.libraries.elements()
                + self.dependencies.paths.elements(),
    {
        let mut all: Vec<String> = Vec::new();
        all.push(self.path.clone());
        let libraries = self.dependencies.libraries.to_vec();
        let paths = self.dependencies.paths.to_vec();
        assert(views(all@) =~= seq![self.path@]);
        append_all(&mut all, &libraries);
        append_all(&mut all, &paths);
        all
    }

    /// Each requirement of the service with the version that `requirement_lock`
    /// gives it, in the order of the requirements. Fails on the first
    /// requirement that the table does not lock, and names it.
    pub fn get_versioned_requirements(&self, requirement_lock: &RequirementLockMap) -> (r: Result<
        Vec<Requirement>,
        UnlockedRequirement,
    >)
        ensures
            r is Ok <==> all_locked(self.dependencies.requirements.elements(), requirement_lock@),
            r matches Ok(list) ==> {
                &&& list@.len() == self.dependencies.requirements.elements().len()
                &&& forall|i: int|
                    0 <= i < list@.len() ==> {
                        &&& (#[trigger] list@[i]).name@
                            == self.dependencies.requirements.elements()[i]
                        &&& list@[i].version@ == requirement_lock@[list@[i].name@]
                    }
            },
            r matches Err(e) ==> is_first_unlocked(
                self.dependencies.requirements.elements(),
                requirement_lock@,
                e.name@,
            ),
    {
        let names = &self.dependencies.requirements;
        let mut list: Vec<Requirement> = Vec::new();
        let n = names.len();
        let mut i: usize = 0;
        while i < n
            invariant
                *names == self.dependencies.requirements,
                n == names.elements().len(),
                i <= n,
                list@.len() == i,
                all_locked(names.elements().take(i as int), requirement_lock@),
                forall|k: int|
                    0 <= k < i ==> {
                        &&& (#[trigger] list@[k]).name@ == names.elements()[k]
                        &&& list@[k].version@ == requirement_lock@[list@[k].name@]
                    },
            decreases n - i,
        {
            let name = names.get(i);
            match requirement_lock.get(name.as_str()) {
                Some(version) => {
                    list.push(Requirement { name: name.clone(), version: version.clone() });
                },
                None => {
                    proof {
                        let unlocked = names.elements()[i as int];
                        assert(unlocked == name@ && !requirement_lock@.contains_key(unlocked));
                    }
                    return Err(UnlockedRequirement { name: name.clone() });
                },
            }
            proof {
                let next = names.elements().take(i + 1);
                assert forall|k: int| 0 <= k < next.len() implies requirement_lock@.contains_key(
                    #[trigger] next[k],
                ) by {
                    if k < i {
                        assert(names.elements().take(i as int)[k] == next[k]);
                    }
                }
            }
            i = i + 1;
        }
        proof {
            assert(names.elements().take(n as int) =~= names.elements());
        }
        Ok(list)
    }

    /// One line per requirement of the service, the name followed at once by
    /// its locked version, in lexicographic order of the lines, whatever the
    /// order in which the requirements were gathered.
    pub fn get_requirements_list(&self, requirement_lock: &RequirementLockMap) -> (r: Result<
        Vec<String>,
        UnlockedRequirement,
    >)
        ensures
            r is Ok <==> all_locked(self.dependencies.requirements.elements(), requirement_lock@),
            r matches Ok(lines) ==> views(lines@) == sorted_lock_lines(
                self.dependencies.requirements.elements(),
                requirement_lock@,
            ),
            r matches Err(e) ==> is_first_unlocked(
                self.dependencies.requirements.elements(),
                requirement_lock@,
                e.name@,
            ),
    {
        let versioned_requirements = match self.get_versioned_requirements(requirement_lock) {
            Ok(list) => list,
            Err(e) => {
                return Err(e);
            },
        };
        let mut lines: Vec<String> = Vec::new();
        let mut i: usize = 0;
        while i < versioned_requirements.len()
            invariant
                i <= versioned_requirements.len(),
                lines@.len() == i,
                forall|k: int|
                    0 <= k < i ==> (#[trigger] lines@[k])@ == versioned_requirements@[k].name@
                        + versioned_requirements@[k].version@,
            decreases versioned_requirements.len() - i,
        {
            lines.push(versioned_requirements[i].to_string());
            i = i + 1;
        }
        assert(views(lines@) =~= lock_lines(
            self.dependencies.requirements.elements(),
            requirement_lock@,
        ));
        Ok(sort_strings(&lines))
    }

    /// The text of the service's requirements file: its locked requirements
    /// in lexicographic order, one per line, with no line break after the
    /// last. Fails, with nothing rendered, where a requirement is not locked.
    pub fn render_requirements(&self, requirement_lock: &RequirementLockMap) -> (r: Result<
        String,
        UnlockedRequirement,
    >)
        ensures
            r is Ok <==> all_locked(self.dependencies.requirements.elements(), requirement_lock@),
            r matches Ok(text) ==> text@ == requirements_listing(
                self.dependencies.requirements.elements(),
                requirement_lock@,
            ),
            r matches Err(e) ==> is_first_unlocked(
                self.dependencies.requirements.elements(),
                requirement_lock@,
                e.name@,
            ),
    {
        match self.get_requirements_list(requirement_lock) {
            Ok(lines) => {
                proof {
                    reveal_strlit("\n");
                    assert("\n"@ =~= seq!['\n']);
                }
                Ok(join_strings(&lines, "\n"))
            },
            Err(e) => Err(e),
        }
    }
}

} // verus!
