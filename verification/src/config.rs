use crate::source::{
    entry_at, entry_of, keys_of, lookup, nesting_bound, nests_within_limit, toml_value_at, Fault,
    Found, Lookup, MAX_NESTING,
};
use crate::text::{appended, views};
use vstd::prelude::*;
use vstd::string::*;

verus! {

/// Where a project keeps its services and its libraries.
#[derive(Debug)]
pub struct ProjectConfig {
    pub services_path: String,
    pub libraries_path: String,
}

/// A package together with the version it is locked to, as a lock table
/// gives it: with its comparison operator, such as `==1.2.3`.
#[derive(Debug)]
pub struct Requirement {
    pub name: String,
    pub version: String,
}

impl Requirement {
    /// The requirement as one line of a requirements listing: the name
    /// followed at once by the version, which brings its own comparison
    /// operator.
    pub fn to_string(&self) -> (r: String)
        ensures
            r@ == self.name@ + self.version@,
    {
        appended(self.name.as_str(), self.version.as_str())
    }
}

/// The version that `names` and `versions`, read side by side, give for
/// `name`.
pub open spec fn locked_version(
    names: Seq<Seq<char>>,
    versions: Seq<Seq<char>>,
    name: Seq<char>,
) -> Seq<char> {
    versions[names.index_of(name)]
}

/// The lock table: for each locked package name, its version string.
#[derive(Debug)]
pub struct RequirementLockMap {
    names: Vec<String>,
    versions: Vec<String>,
}

impl View for RequirementLockMap {
    type V = Map<Seq<char>, Seq<char>>;

    closed spec fn view(&self) -> Map<Seq<char>, Seq<char>> {
        Map::new(
            |name: Seq<char>| views(self.names@).contains(name),
            |name: Seq<char>| locked_version(views(self.names@), views(self.versions@), name),
        )
    }
}

impl RequirementLockMap {
    #[verifier::type_invariant]
    spec fn well_formed(self) -> bool {
        &&& self.names@.len() == self.versions@.len()
        &&& views(self.names@).no_duplicates()
    }

    /// The table without entries.
    pub fn new() -> (table: RequirementLockMap)
        ensures
            table@ == Map::<Seq<char>, Seq<char>>::empty(),
    {
        let table = RequirementLockMap { names: Vec::new(), versions: Vec::new() };
        assert(table@ =~= Map::<Seq<char>, Seq<char>>::empty());
        table
    }

    /// The number of locked packages.
    pub fn len(&self) -> (n: usize)
        ensures
            n == self@.len(),
            self@.dom().finite(),
    {
        proof {
            use_type_invariant(self);
            views(self.names@).unique_seq_to_set();
            assert(self@.dom() =~= views(self.names@).to_set());
        }
        self.names.len()
    }

    fn position(&self, name: &String) -> (at: Option<usize>)
        ensures
            match at {
                Some(i) => i < self.names@.len() && views(self.names@)[i as int] == name@,
                None => !views(self.names@).contains(name@),
            },
    {
        let mut i: usize = 0;
        while i < self.names.len()
            invariant
                i <= self.names.len(),
                forall|k: int| 0 <= k < i ==> views(self.names@)[k] != name@,
            decreases self.names.len() - i,
        {
            if self.names[i] == *name {
                return Some(i);
            }
            i = i + 1;
        }
        None
    }

    /// The version locked for `name`, if the table has one.
    pub fn get(&self, name: &str) -> (version: Option<&String>)
        ensures
            match version {
                Some(v) => self@.contains_key(name@) && v@ == self@[name@],
                None => !self@.contains_key(name@),
            },
    {
        proof {
            use_type_invariant(self);
        }
        let wanted = String::from_str(name);
        match self.position(&wanted) {
            Some(i) => {
                assert(views(self.names@).index_of(name@) == i);
                assert(views(self.versions@)[i as int] == self.versions@[i as int]@);
                Some(&self.versions[i])
            },
            None => None,
        }
    }

    /// Locks `name` to `version`, in place of any version it had.
    pub fn insert(&mut self, name: String, version: String)
        ensures
            final(self)@ == old(self)@.insert(name@, version@),
    {
        proof {
            use_type_invariant(&*self);
        }
        let ghost old_names = views(self.names@);
        let ghost old_versions = views(self.versions@);
        let at = self.position(&name);
        let mut taken = RequirementLockMap::new();
        std::mem::swap(self, &mut taken);
        let RequirementLockMap { mut names, mut versions } = taken;
        match at {
            Some(i) => {
                versions.set(i, version);
            },
            None => {
                names.push(name);
                versions.push(version);
            },
        }
        proof {
            let new_names = views(names@);
            let new_versions = views(versions@);
            match at {
                Some(i) => {
                    assert(new_names =~= old_names);
                    assert(new_versions =~= old_versions.update(i as int, version@));
                },
                None => {
                    assert(new_names =~= old_names.push(name@));
                    assert(new_versions =~= old_versions.push(version@));
                },
            }
            assert(new_names.no_duplicates());
        }
        *self = RequirementLockMap { names, versions };
        proof {
            let new_names = views(self.names@);
            let new_versions = views(self.versions@);
            let goal = old(self)@.insert(name@, version@);
            assert forall|k: Seq<char>| self@.dom().contains(k) <==> goal.dom().contains(k) by {
                if old_names.contains(k) {
                    let j = choose|j: int| 0 <= j < old_names.len() && old_names[j] == k;
                    assert(new_names[j] == k);
                }
                if new_names.contains(k) && k != name@ {
                    let j = choose|j: int| 0 <= j < new_names.len() && new_names[j] == k;
                    assert(old_names[j] == k);
                }
                if k == name@ {
                    match at {
                        Some(i) => {
                            assert(new_names[i as int] == k);
                        },
                        None => {
                            assert(new_names[old_names.len() as int] == k);
                        },
                    }
                }
            }
            assert forall|k: Seq<char>| self@.dom().contains(k) implies self@[k] == goal[k] by {
                let j = new_names.index_of(k);
                assert(0 <= j < new_names.len() && new_names[j] == k);
                if k == name@ {
                    match at {
                        Some(i) => {
                            assert(new_names[i as int] == k);
                        },
                        None => {
                            assert(new_names[old_names.len() as int] == k);
                        },
                    }
                } else {
                    assert(old_names[j] == k);
                    let j0 = old_names.index_of(k);
                    assert(0 <= j0 < old_names.len() && old_names[j0] == k);
                    assert(new_names[j0] == k);
                }
            }
            assert(self@ =~= goal);
        }
    }
}

/// A project's settings: its layout and its lock table.
#[derive(Debug)]
pub struct BobpyConfig {
    pub project: ProjectConfig,
    pub requirement_lock: RequirementLockMap,
}

/// A project's settings as plain values.
pub struct Settings {
    pub services_path: Seq<char>,
    pub libraries_path: Seq<char>,
    pub requirement_lock: Map<Seq<char>, Seq<char>>,
}

impl View for BobpyConfig {
    type V = Settings;

    open spec fn view(&self) -> Settings {
        Settings {
            services_path: self.project.services_path@,
            libraries_path: self.project.libraries_path@,
            requirement_lock: self.requirement_lock@,
        }
    }
}

/// Why settings could not be read.
#[derive(Debug)]
pub enum InvalidConfig {
    /// The settings are no TOML document, or are nested deeper than is read.
    Unreadable,
    /// What the settings hold under `key` is of the wrong kind.
    WrongKind { key: String },
}

impl InvalidConfig {
    /// What is wrong with the text of the settings.
    pub open spec fn fault(&self) -> Fault {
        match self {
            InvalidConfig::Unreadable => Fault::Unreadable,
            InvalidConfig::WrongKind { key } => Fault::Malformed(key@),
        }
    }
}

/// A path setting, from what stands under `project`: the default where the
/// table `project` is missing or lacks `key`, and the text where it holds
/// one under `key`. Anything else is at fault.
pub open spec fn path_setting(project: Found, key: Seq<char>, default: Seq<char>) -> Option<
    Seq<char>,
> {
    match project {
        Found::Missing => Some(default),
        Found::Table(table) => if table.contains_key(key) {
            table[key]
        } else {
            Some(default)
        },
        _ => None,
    }
}

/// The lock table setting: empty where the key is missing, and the table
/// where it holds a table of texts. Anything else is at fault.
pub open spec fn lock_setting(found: Found) -> Option<Map<Seq<char>, Seq<char>>> {
    match found {
        Found::Missing => Some(Map::empty()),
        Found::Table(table) => if forall|name: Seq<char>|
            table.contains_key(name) ==> (#[trigger] table[name]) is Some {
            Some(
                Map::new(
                    |name: Seq<char>| table.contains_key(name),
                    |name: Seq<char>| table[name]->Some_0,
                ),
            )
        } else {
            None
        },
        _ => None,
    }
}

/// What is wrong with settings, if anything, from what was found under
/// `project` and under `requirement_lock`. The project comes first: the
/// text is unreadable where it could not be looked up, `project` is at fault
/// where it is no table, and else the first of its two paths that is no
/// text. The lock table comes after it.
pub open spec fn settings_fault(project: Found, lock: Found) -> Option<Fault> {
    if project is Invalid {
        Some(Fault::Unreadable)
    } else if !(project is Missing || project is Table) {
        Some(Fault::Malformed("project"@))
    } else if path_setting(project, "services_path"@, "services"@) is None {
        Some(Fault::Malformed("project.services_path"@))
    } else if path_setting(project, "libraries_path"@, "libraries"@) is None {
        Some(Fault::Malformed("project.libraries_path"@))
    } else if lock is Invalid {
        Some(Fault::Unreadable)
    } else if lock_setting(lock) is None {
        Some(Fault::Malformed("requirement_lock"@))
    } else {
        None
    }
}

/// What reading settings gives, from what was found under `project` and
/// under `requirement_lock`: the settings, or what is wrong.
pub open spec fn settings_from(project: Found, lock: Found) -> Result<Settings, Fault> {
    match settings_fault(project, lock) {
        Some(fault) => Err(fault),
        None => Ok(
            Settings {
                services_path: path_setting(project, "services_path"@, "services"@)->Some_0,
                libraries_path: path_setting(project, "libraries_path"@, "libraries"@)->Some_0,
                requirement_lock: lock_setting(lock)->Some_0,
            },
        ),
    }
}

/// What reading the settings text `text` gives. A text nested deeper than
/// `MAX_NESTING` is not read.
pub open spec fn parsed_settings(text: Seq<char>) -> Result<Settings, Fault> {
    if nesting_bound(text) > MAX_NESTING {
        Err(Fault::Unreadable)
    } else {
        settings_from(toml_value_at(text, "project"@), toml_value_at(text, "requirement_lock"@))
    }
}

fn path_from(project: &Lookup, key: &str, default: &str) -> (path: Option<String>)
    ensures
        path is Some <==> path_setting(project@, key@, default@) is Some,
        path matches Some(p) ==> p@ == path_setting(project@, key@, default@)->Some_0,
{
    match project {
        Lookup::Missing => Some(String::from_str(default)),
        Lookup::Table(pairs) => match entry_at(pairs, key) {
            Some(Some(text)) => Some(text.clone()),
            Some(None) => None,
            None => Some(String::from_str(default)),
        },
        _ => None,
    }
}

fn lock_from(found: Lookup) -> (lock: Option<RequirementLockMap>)
    ensures
        lock is Some <==> lock_setting(found@) is Some,
        lock matches Some(table) ==> table@ == lock_setting(found@)->Some_0,
{
    match found {
        Lookup::Missing => Some(RequirementLockMap::new()),
        Lookup::Table(pairs) => {
            let ghost keys = keys_of(pairs@);
            let ghost table = found@->Table_0;
            let mut lock = RequirementLockMap::new();
            let mut i: usize = 0;
            while i < pairs.len()
                invariant
                    i <= pairs.len(),
                    keys == keys_of(pairs@),
                    found@ == Found::Table(table),
                    table == Lookup::Table(pairs)@->Table_0,
                    forall|name: Seq<char>|
                        lock@.contains_key(name) <==> exists|k: int|
                            0 <= k < i && #[trigger] keys[k] == name,
                    forall|name: Seq<char>| #[trigger]
                        lock@.contains_key(name) ==> table[name] == Some(lock@[name]),
                decreases pairs.len() - i,
            {
                let ghost before = lock@;
                let ghost name = keys[i as int];
                proof {
                    assert(name == pairs@[i as int].0@);
                    keys.index_of_first_ensures(name);
                }
                if lock.get(pairs[i].0.as_str()).is_none() {
                    proof {
                        let first = keys.index_of_first(name)->Some_0;
                        if first != i {
                            assert(keys[first] == name);
                        }
                        assert(table[name] == entry_of(pairs@[i as int].1));
                    }
                    match &pairs[i].1 {
                        Some(version) => {
                            lock.insert(pairs[i].0.clone(), version.clone());
                        },
                        None => {
                            assert(keys.contains(name));
                            assert(table.contains_key(name) && table[name] is None);
                            return None;
                        },
                    }
                }
                proof {
                    assert forall|other: Seq<char>| lock@.contains_key(other) <==> exists|k: int|
                        0 <= k < i + 1 && #[trigger] keys[k] == other by {
                        if before.contains_key(other) {
                            let k = choose|k: int| 0 <= k < i && #[trigger] keys[k] == other;
                            assert(0 <= k < i + 1 && keys[k] == other);
                        }
                        if other == name {
                            assert(0 <= i < i + 1 && keys[i as int] == other);
                        }
                        if exists|k: int| 0 <= k < i + 1 && #[trigger] keys[k] == other {
                            let k = choose|k: int| 0 <= k < i + 1 && #[trigger] keys[k] == other;
                            if k < i {
                                assert(before.contains_key(other));
                            }
                        }
                    }
                }
                i = i + 1;
            }
            proof {
                assert forall|name: Seq<char>| table.contains_key(name) implies lock@.contains_key(
                    name,
                ) by {
                    let k = choose|k: int| 0 <= k < keys.len() && keys[k] == name;
                    assert(keys[k] == name);
                }
                assert forall|name: Seq<char>| table.contains_key(name) implies (
                #[trigger] table[name]) is Some by {
                    assert(lock@.contains_key(name));
                }
                let goal = lock_setting(found@)->Some_0;
                assert forall|name: Seq<char>| lock@.contains_key(name) implies table.contains_key(
                    name,
                ) by {
                    let k = choose|k: int| 0 <= k < i && #[trigger] keys[k] == name;
                    assert(keys.contains(name));
                }
                assert(lock@ =~= goal);
            }
            Some(lock)
        },
        _ => None,
    }
}

impl BobpyConfig {
    /// The settings whose top table holds `project` and `requirement_lock`.
    /// The table `project` may hold `services_path` and `libraries_path`; a
    /// missing path is `services` or `libraries`. A missing lock table is
    /// empty. The first thing at fault decides the error.
    pub fn from_lookups(project: Lookup, requirement_lock: Lookup) -> (r: Result<
        BobpyConfig,
        InvalidConfig,
    >)
        ensures
            r is Ok <==> settings_fault(project@, requirement_lock@) is None,
            r matches Ok(settings) ==> settings_from(project@, requirement_lock@) == Ok::<
                Settings,
                Fault,
            >(settings@),
            r matches Err(e) ==> settings_fault(project@, requirement_lock@) == Some(e.fault()),
    {
        match &project {
            Lookup::Invalid => {
                return Err(InvalidConfig::Unreadable);
            },
            Lookup::Missing => {},
            Lookup::Table(_) => {},
            _ => {
                return Err(InvalidConfig::WrongKind { key: String::from_str("project") });
            },
        }
        let services_path = match path_from(&project, "services_path", "services") {
            Some(path) => path,
            None => {
                return Err(
                    InvalidConfig::WrongKind { key: String::from_str("project.services_path") },
                );
            },
        };
        let libraries_path = match path_from(&project, "libraries_path", "libraries") {
            Some(path) => path,
            None => {
                return Err(
                    InvalidConfig::WrongKind { key: String::from_str("project.libraries_path") },
                );
            },
        };
        match &requirement_lock {
            Lookup::Invalid => {
                return Err(InvalidConfig::Unreadable);
            },
            _ => {},
        }
        let requirement_lock = match lock_from(requirement_lock) {
            Some(lock) => lock,
            None => {
                return Err(
                    InvalidConfig::WrongKind { key: String::from_str("requirement_lock") },
                );
            },
        };
        Ok(BobpyConfig { project: ProjectConfig { services_path, libraries_path }, requirement_lock })
    }

    /// Reads settings from their text, a TOML document with the table
    /// `project`, which may hold `services_path` and `libraries_path`, and
    /// the table `requirement_lock`, which gives each locked package its
    /// version. Other keys are ignored.
    pub fn from_str(config_str: &str) -> (r: Result<BobpyConfig, InvalidConfig>)
        ensures
            r is Ok <==> parsed_settings(config_str@) is Ok,
            r matches Ok(settings) ==> parsed_settings(config_str@) == Ok::<Settings, Fault>(
                settings@,
            ),
            r matches Err(e) ==> parsed_settings(config_str@) == Err::<Settings, Fault>(e.fault()),
    {
        if !nests_within_limit(config_str) {
            return Err(InvalidConfig::Unreadable);
        }
        let project = lookup(config_str, "project");
        let requirement_lock = lookup(config_str, "requirement_lock");
        BobpyConfig::from_lookups(project, requirement_lock)
    }
}

} // verus!
