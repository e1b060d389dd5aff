use vstd::prelude::*;

use crate::aur::strings_view;
use crate::package::{
    config_is_valid, ignore_lines, is_valid_upstream, upstream_keys, Config, Package, PackageError,
    PackageView,
};

verus! {

/// One entry of the packages directory, with what was read from it.
#[derive(Debug)]
pub struct PackageEntry {
    pub name: String,
    pub is_dir: bool,
    /// The settings, if the entry has a settings file.
    pub config: Option<Config>,
    /// The text of the namcap ignore file, if the entry has one.
    pub namcap_ignore: Option<String>,
}

/// The entries that are directories: only these hold packages.
pub open spec fn dir_entries(entries: Seq<PackageEntry>) -> Seq<PackageEntry> {
    entries.filter(|e: PackageEntry| e.is_dir)
}

/// A directory entry that can be loaded: its settings, if any, are valid.
pub open spec fn entry_is_valid(e: PackageEntry) -> bool {
    e.config matches Some(c) ==> config_is_valid(c)
}

/// The entry's settings name `k`, which is no known upstream kind.
pub open spec fn has_invalid_key(e: PackageEntry, k: Seq<char>) -> bool {
    match e.config {
        Some(c) => upstream_keys(c).contains(k) && !is_valid_upstream(k),
        None => false,
    }
}

/// The package that a directory entry holds.
pub open spec fn entry_package(e: PackageEntry) -> PackageView {
    PackageView { name: e.name@, namcap_ignores: ignore_lines(e.namcap_ignore) }
}

/// The packages of a local collection, read from one directory per package.
#[derive(Debug)]
pub struct PackageManager {
    packages: Vec<Package>,
    base_path: String,
}

/// Name and ignored checks of each package.
pub open spec fn package_views(p: Seq<Package>) -> Seq<PackageView> {
    p.map_values(|q: Package| q@)
}

/// The name of each package.
pub open spec fn package_names(p: Seq<Package>) -> Seq<Seq<char>> {
    p.map_values(|q: Package| q@.name)
}

impl PackageManager {
    /// The packages, in the order of the directory entries.
    pub closed spec fn spec_packages(&self) -> Seq<Package> {
        self.packages@
    }

    /// The directory the collection was read from.
    pub closed spec fn spec_base_path(&self) -> Seq<char> {
        self.base_path@
    }

    /// The collection under `base_path`, from the entries of its packages
    /// directory: each directory is a package, other entries are skipped.
    pub fn from_dir(base_path: &str, entries: Vec<PackageEntry>) -> (r: Result<
        PackageManager,
        PackageError,
    >)
        ensures
            r is Ok <==> forall|i: int|
                0 <= i < entries@.len() && (#[trigger] entries@[i]).is_dir ==> entry_is_valid(
                    entries@[i],
                ),
            r matches Ok(m) ==> (m.spec_base_path() == base_path@ && package_views(
                m.spec_packages(),
            ) == dir_entries(entries@).map_values(|e: PackageEntry| entry_package(e))),
            r matches Err(e) ==> (e matches PackageError::InvalidUpstream(k) && exists|i: int|
                0 <= i < entries@.len() && (#[trigger] entries@[i]).is_dir && has_invalid_key(
                    entries@[i],
                    k@,
                )),
    {
        let ghost all = entries@;
        let mut packages: Vec<Package> = Vec::new();
        let mut rest = entries;
        let mut taken: usize = 0;
        proof {
            assert(all.len() == rest.len());
            assert(all.subrange(0, 0) =~= Seq::<PackageEntry>::empty());
            reveal(Seq::filter);
            assert(dir_entries(Seq::<PackageEntry>::empty()) =~= Seq::<PackageEntry>::empty());
        }
        while rest.len() > 0
            invariant
                all.len() <= usize::MAX,
                all == entries@,
                taken <= all.len(),
                rest@ == all.subrange(taken as int, all.len() as int),
                package_views(packages@) == dir_entries(all.subrange(0, taken as int)).map_values(
                    |e: PackageEntry| entry_package(e),
                ),
                forall|i: int|
                    0 <= i < taken && (#[trigger] all[i]).is_dir ==> entry_is_valid(all[i]),
            decreases rest@.len(),
        {
            let entry = rest.remove(0);
            let ghost pre = all.subrange(0, taken as int);
            proof {
                assert(all[taken as int] == entry);
                assert(all.subrange(0, taken + 1) =~= pre.push(entry));
                pre.lemma_filter_push(entry, |e: PackageEntry| e.is_dir);
            }
            if entry.is_dir {
                let ghost d = dir_entries(pre);
                let ghost ec = entry.config;
                match Package::from_dir(entry.name.as_str(), entry.config, entry.namcap_ignore) {
                    Err(e) => {
                        proof {
                            assert(all[taken as int].config == ec);
                            assert(!entry_is_valid(all[taken as int]));
                            assert(all[taken as int].is_dir);
                            match &e {
                                PackageError::InvalidUpstream(k) => {
                                    assert(has_invalid_key(all[taken as int], k@));
                                },
                                _ => {},
                            }
                        }
                        return Err(e);
                    },
                    Ok(p) => {
                        let ghost before = packages@;
                        packages.push(p);
                        proof {
                            assert(package_views(packages@) =~= package_views(before).push(p@));
                            assert(dir_entries(all.subrange(0, taken + 1)).map_values(
                                |e: PackageEntry| entry_package(e),
                            ) =~= d.map_values(|e: PackageEntry| entry_package(e)).push(
                                entry_package(entry),
                            ));
                            assert(all[taken as int] == entry);
                        }
                    },
                }
            }
            taken += 1;
            proof {
                assert(rest@ =~= all.subrange(taken as int, all.len() as int));
            }
        }
        proof {
            assert(all.subrange(0, all.len() as int) =~= all);
        }
        Ok(PackageManager { packages, base_path: base_path.to_owned() })
    }

    /// The packages of the collection.
    pub fn packages(&self) -> (r: &Vec<Package>)
        ensures
            r@ == self.spec_packages(),
    {
        &self.packages
    }

    /// The packages of the collection.
    pub fn get_packages(&self) -> (r: &Vec<Package>)
        ensures
            r@ == self.spec_packages(),
    {
        &self.packages
    }

    /// The directory the collection was read from.
    pub fn base_path(&self) -> (r: &String)
        ensures
            r@ == self.spec_base_path(),
    {
        &self.base_path
    }

    /// The names of the packages, in order.
    pub fn get_package_names(&self) -> (r: Vec<String>)
        ensures
            strings_view(r@) == package_names(self.spec_packages()),
    {
        let mut names: Vec<String> = Vec::new();
        let mut i: usize = 0;
        while i < self.packages.len()
            invariant
                i <= self.packages@.len(),
                strings_view(names@) =~= package_names(self.packages@).subrange(0, i as int),
            decreases self.packages@.len() - i,
        {
            let n = self.packages[i].get_name().clone();
            let ghost before = names@;
            names.push(n);
            proof {
                assert(strings_view(names@) =~= strings_view(before).push(n@));
                assert(package_names(self.packages@)[i as int] == n@);
                assert(package_names(self.packages@).subrange(0, i + 1) =~= package_names(
                    self.packages@,
                ).subrange(0, i as int).push(n@));
            }
            i += 1;
        }
        proof {
            assert(package_names(self.packages@).subrange(0, self.packages@.len() as int)
                =~= package_names(self.packages@));
        }
        names
    }

    /// The first package with the given name.
    pub fn get_package_by_name(&self, name: &str) -> (r: Result<&Package, PackageError>)
        ensures
            r is Ok <==> package_names(self.spec_packages()).contains(name@),
            r matches Ok(p) ==> exists|i: int|
                0 <= i < self.spec_packages().len() && self.spec_packages()[i] == *p && p@.name
                    == name@ && forall|j: int|
                    0 <= j < i ==> #[trigger] self.spec_packages()[j]@.name != name@,
            r matches Err(e) ==> (e matches PackageError::NoSuchPackage(n) && n@ == name@),
    {
        let wanted = name.to_owned();
        let mut i: usize = 0;
        while i < self.packages.len()
            invariant
                wanted@ == name@,
                i <= self.packages@.len(),
                forall|j: int| 0 <= j < i ==> #[trigger] self.packages@[j]@.name != name@,
            decreases self.packages@.len() - i,
        {
            if *self.packages[i].get_name() == wanted {
                proof {
                    assert(package_names(self.packages@)[i as int] == name@);
                    assert(self.spec_packages() == self.packages@);
                    assert(forall|j: int|
                        0 <= j < i ==> #[trigger] self.spec_packages()[j]@.name != name@);
                }
                return Ok(&self.packages[i]);
            }
            i += 1;
        }
        proof {
            assert forall|j: int| 0 <= j < self.packages@.len() implies package_names(
                self.packages@,
            )[j] != name@ by {}
        }
        Err(PackageError::NoSuchPackage(wanted))
    }
}

} // verus!
