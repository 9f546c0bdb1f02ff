//! Process-wide in-memory cache of object snapshots and parsed modules.
//!
//! Snapshots are kept in insertion order; a lookup returns the most
//! recently inserted snapshot that matches, so the "latest" entry for an
//! identifier is the one inserted last, as checkpoints stream forward.

use vstd::prelude::*;

use crate::types::{IndexedPackage, MoveModule, Object};

verus! {

/// Most recently inserted snapshot with the given identifier and version.
pub open spec fn last_match_exact(s: Seq<Object>, id: u64, version: u64) -> Option<Object>
    decreases s.len(),
{
    if s.len() == 0 {
        None
    } else if s.last().id == id && s.last().version == version {
        Some(s.last())
    } else {
        last_match_exact(s.drop_last(), id, version)
    }
}

/// Most recently inserted snapshot with the given identifier.
pub open spec fn last_match_id(s: Seq<Object>, id: u64) -> Option<Object>
    decreases s.len(),
{
    if s.len() == 0 {
        None
    } else if s.last().id == id {
        Some(s.last())
    } else {
        last_match_id(s.drop_last(), id)
    }
}

/// Most recently inserted module under the given package and name.
pub open spec fn last_module_match(s: Seq<(u64, MoveModule)>, package: u64, name: u64) -> Option<
    MoveModule,
>
    decreases s.len(),
{
    if s.len() == 0 {
        None
    } else if s.last().0 == package && s.last().1.name == name {
        Some(s.last().1)
    } else {
        last_module_match(s.drop_last(), package, name)
    }
}

/// The modules of one package, each tagged with the package identifier.
pub open spec fn package_modules(p: IndexedPackage) -> Seq<(u64, MoveModule)> {
    p.move_package.modules@.map(|i: int, m: MoveModule| (p.package_id, m))
}

/// The tagged modules of a list of packages, in order.
pub open spec fn packages_modules(ps: Seq<IndexedPackage>) -> Seq<(u64, MoveModule)>
    decreases ps.len(),
{
    if ps.len() == 0 {
        Seq::empty()
    } else {
        packages_modules(ps.drop_last()) + package_modules(ps.last())
    }
}

/// A matched snapshot carries the identifier and version it was found by.
pub proof fn lemma_last_match_exact_fields(s: Seq<Object>, id: u64, version: u64)
    ensures
        last_match_exact(s, id, version) matches Some(o) ==> o.id == id && o.version == version,
    decreases s.len(),
{
    if s.len() > 0 {
        lemma_last_match_exact_fields(s.drop_last(), id, version);
    }
}

/// A matched snapshot carries the identifier it was found by.
pub proof fn lemma_last_match_id_fields(s: Seq<Object>, id: u64)
    ensures
        last_match_id(s, id) matches Some(o) ==> o.id == id,
    decreases s.len(),
{
    if s.len() > 0 {
        lemma_last_match_id_fields(s.drop_last(), id);
    }
}

/// In-memory index of objects (by id and by id-and-version) and of parsed
/// modules, populated as checkpoints stream through.
pub struct InMemObjectCache {
    entries: Vec<Object>,
    modules: Vec<(u64, MoveModule)>,
}

impl InMemObjectCache {
    /// All inserted snapshots, oldest first.
    pub closed spec fn objects(&self) -> Seq<Object> {
        self.entries@
    }

    /// All inserted modules, oldest first.
    pub closed spec fn modules_view(&self) -> Seq<(u64, MoveModule)> {
        self.modules@
    }

    /// An empty cache.
    pub fn new() -> (r: InMemObjectCache)
        ensures
            r.objects() == Seq::<Object>::empty(),
            r.modules_view() == Seq::<(u64, MoveModule)>::empty(),
    {
        InMemObjectCache { entries: Vec::new(), modules: Vec::new() }
    }

    /// Records one object snapshot; it becomes the latest entry both for
    /// its identifier and for its identifier-and-version.
    pub fn insert_object(&mut self, object: Object)
        ensures
            final(self).objects() == old(self).objects().push(object),
            final(self).modules_view() == old(self).modules_view(),
    {
        self.entries.push(object);
    }

    /// Records every module of every given package.
    pub fn insert_packages(&mut self, new_packages: &Vec<IndexedPackage>)
        ensures
            final(self).objects() == old(self).objects(),
            final(self).modules_view() == old(self).modules_view() + packages_modules(
                new_packages@,
            ),
    {
        let ghost orig = self.modules@;
        let mut i: usize = 0;
        proof {
            assert(orig + packages_modules(new_packages@.subrange(0, 0)) =~= orig);
        }
        while i < new_packages.len()
            invariant
                i <= new_packages.len(),
                self.entries@ == old(self).objects(),
                self.modules@ == orig + packages_modules(new_packages@.subrange(0, i as int)),
            decreases new_packages.len() - i,
        {
            let ghost mods_before = self.modules@;
            let pid: u64 = new_packages[i].package_id;
            let mut j: usize = 0;
            proof {
                assert(mods_before + package_modules(new_packages@[i as int]).subrange(0, 0)
                    =~= mods_before);
            }
            while j < new_packages[i].move_package.modules.len()
                invariant
                    i < new_packages.len(),
                    j <= new_packages@[i as int].move_package.modules.len(),
                    pid == new_packages@[i as int].package_id,
                    self.entries@ == old(self).objects(),
                    self.modules@ == mods_before + package_modules(new_packages@[i as int]).subrange(
                        0,
                        j as int,
                    ),
                decreases new_packages@[i as int].move_package.modules.len() - j,
            {
                let m: MoveModule = new_packages[i].move_package.modules[j];
                self.modules.push((pid, m));
                j = j + 1;
                proof {
                    assert(package_modules(new_packages@[i as int]).subrange(0, j as int)
                        =~= package_modules(new_packages@[i as int]).subrange(
                        0,
                        j - 1,
                    ).push((pid, m)));
                    assert(self.modules@ =~= mods_before + package_modules(
                        new_packages@[i as int],
                    ).subrange(0, j as int));
                }
            }
            i = i + 1;
            proof {
                assert(package_modules(new_packages@[i - 1]).subrange(
                    0,
                    package_modules(new_packages@[i - 1]).len() as int,
                ) =~= package_modules(new_packages@[i - 1]));
                assert(new_packages@.subrange(0, i as int).drop_last() =~= new_packages@.subrange(
                    0,
                    i as int - 1,
                ));
                assert(new_packages@.subrange(0, i as int).last() == new_packages@[i - 1]);
                assert(self.modules@ =~= orig + packages_modules(
                    new_packages@.subrange(0, i as int),
                ));
            }
        }
        proof {
            assert(new_packages@.subrange(0, new_packages@.len() as int) =~= new_packages@);
        }
    }

    /// Looks a snapshot up: by exact version when one is given, else the
    /// latest snapshot for the identifier.
    #[verifier::loop_isolation(false)]
    pub fn get(&self, id: u64, version: Option<u64>) -> (r: Option<&Object>)
        ensures
            version is Some ==> r is Some ==> last_match_exact(
                self.objects(),
                id,
                version->0,
            ) == Some(*r->0),
            version is Some ==> r is None ==> last_match_exact(
                self.objects(),
                id,
                version->0,
            ) is None,
            version is None ==> r is Some ==> last_match_id(self.objects(), id) == Some(*r->0),
            version is None ==> r is None ==> last_match_id(self.objects(), id) is None,
    {
        let mut i: usize = self.entries.len();
        proof {
            assert(self.entries@.subrange(0, self.entries@.len() as int) =~= self.entries@);
        }
        match version {
            Some(v) => {
                while i > 0
                    invariant
                        i <= self.entries.len(),
                        last_match_exact(self.entries@.subrange(0, i as int), id, v)
                            == last_match_exact(self.entries@, id, v),
                    decreases i,
                {
                    i = i - 1;
                    let o = &self.entries[i];
                    proof {
                        assert(self.entries@.subrange(0, i + 1).drop_last() =~= self.entries@.subrange(
                            0,
                            i as int,
                        ));
                        assert(self.entries@.subrange(0, i + 1).last() == self.entries@[i as int]);
                    }
                    if o.id == id && o.version == v {
                        proof {
                            assert(last_match_exact(self.entries@.subrange(0, i + 1), id, v)
                                == Some(self.entries@[i as int]));
                        }
                        return Some(o);
                    }
                }
                proof {
                    assert(self.entries@.subrange(0, 0) =~= Seq::<Object>::empty());
                }
                None
            },
            None => {
                while i > 0
                    invariant
                        i <= self.entries.len(),
                        last_match_id(self.entries@.subrange(0, i as int), id) == last_match_id(
                            self.entries@,
                            id,
                        ),
                    decreases i,
                {
                    i = i - 1;
                    let o = &self.entries[i];
                    proof {
                        assert(self.entries@.subrange(0, i + 1).drop_last() =~= self.entries@.subrange(
                            0,
                            i as int,
                        ));
                        assert(self.entries@.subrange(0, i + 1).last() == self.entries@[i as int]);
                    }
                    if o.id == id {
                        proof {
                            assert(last_match_id(self.entries@.subrange(0, i + 1), id) == Some(
                                self.entries@[i as int],
                            ));
                        }
                        return Some(o);
                    }
                }
                proof {
                    assert(self.entries@.subrange(0, 0) =~= Seq::<Object>::empty());
                }
                None
            },
        }
    }

    /// Looks a parsed module up by package and module name.
    pub fn get_module_by_id(&self, package: u64, name: u64) -> (r: Option<MoveModule>)
        ensures
            r == last_module_match(self.modules_view(), package, name),
    {
        find_module(&self.modules, package, name)
    }
}

/// Backward search for the most recently listed module under the given
/// package and name.
#[verifier::loop_isolation(false)]
pub fn find_module(entries: &Vec<(u64, MoveModule)>, package: u64, name: u64) -> (r: Option<
    MoveModule,
>)
    ensures
        r == last_module_match(entries@, package, name),
{
    let mut i: usize = entries.len();
    proof {
        assert(entries@.subrange(0, entries@.len() as int) =~= entries@);
    }
    while i > 0
        invariant
            i <= entries.len(),
            last_module_match(entries@.subrange(0, i as int), package, name) == last_module_match(
                entries@,
                package,
                name,
            ),
        decreases i,
    {
        i = i - 1;
        let entry = &entries[i];
        proof {
            assert(entries@.subrange(0, i + 1).drop_last() =~= entries@.subrange(0, i as int));
            assert(entries@.subrange(0, i + 1).last() == entries@[i as int]);
        }
        if entry.0 == package && entry.1.name == name {
            return Some(entry.1);
        }
    }
    proof {
        assert(entries@.subrange(0, 0) =~= Seq::<(u64, MoveModule)>::empty());
    }
    None
}

} // verus!
