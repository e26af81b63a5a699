//! Package descriptors and the catalog that a manifest describes.
use vstd::prelude::*;
use crate::bytes::{bytes_eq, copy_bytes, copy_list, list_view};

verus! {

/// One entry of a manifest: a package, where its sources live, the pinned
/// revision to take, and the names of the packages it depends on.
pub struct Package {
    pub name: Vec<u8>,
    pub source: Vec<u8>,
    pub revision: Vec<u8>,
    pub dependencies: Vec<Vec<u8>>,
}

/// The mathematical value of a [`Package`].
pub struct PackageSpec {
    pub name: Seq<u8>,
    pub source: Seq<u8>,
    pub revision: Seq<u8>,
    pub deps: Seq<Seq<u8>>,
}

impl View for Package {
    type V = PackageSpec;

    open spec fn view(&self) -> PackageSpec {
        PackageSpec {
            name: self.name@,
            source: self.source@,
            revision: self.revision@,
            deps: list_view(self.dependencies@),
        }
    }
}

impl Package {
    /// A copy of this descriptor.
    pub fn copy(&self) -> (r: Package)
        ensures
            r@ == self@,
    {
        Package {
            name: copy_bytes(self.name.as_slice()),
            source: copy_bytes(self.source.as_slice()),
            revision: copy_bytes(self.revision.as_slice()),
            dependencies: copy_list(&self.dependencies),
        }
    }
}

/// The views of a list of packages.
pub open spec fn packages_view(v: Seq<Package>) -> Seq<PackageSpec> {
    v.map_values(|p: Package| p@)
}

/// No two packages share a name.
pub open spec fn unique_names(c: Seq<PackageSpec>) -> bool {
    forall|i: int, j: int|
        0 <= i < c.len() && 0 <= j < c.len() && i != j ==> #[trigger] c[i].name != #[trigger] c[j].name
}

/// Some package of the catalog is called `n`.
pub open spec fn has_package(c: Seq<PackageSpec>, n: Seq<u8>) -> bool {
    exists|i: int| 0 <= i < c.len() && (#[trigger] c[i]).name == n
}

/// `j` is the first index whose package shares its name with an earlier one.
pub open spec fn first_duplicate(c: Seq<PackageSpec>, j: int) -> bool {
    0 <= j < c.len() && (exists|i: int| 0 <= i < j && (#[trigger] c[i]).name == c[j].name)
        && (forall|k: int, i: int|
        0 <= i < k < j ==> #[trigger] c[i].name != #[trigger] c[k].name)
}

/// The set of packages that one manifest describes, keyed by name.
pub struct Catalog {
    packages: Vec<Package>,
}

impl View for Catalog {
    type V = Seq<PackageSpec>;

    closed spec fn view(&self) -> Seq<PackageSpec> {
        packages_view(self.packages@)
    }
}

/// Why a set of package records does not form a catalog.
pub enum ManifestError {
    /// The record on this line (counted from zero) cannot be decoded.
    Malformed { line: usize },
    /// Two records are named so.
    DuplicateName(Vec<u8>),
}

impl Catalog {
    /// Catalogs are keyed by name: no two packages share one.
    pub open spec fn wf(&self) -> bool {
        unique_names(self@)
    }

    /// Builds a catalog from package records, refusing a name given twice.
    pub fn from_packages(packages: Vec<Package>) -> (r: Result<Catalog, ManifestError>)
        ensures
            match r {
                Ok(c) => c.wf() && c@ == packages_view(packages@),
                Err(ManifestError::DuplicateName(n)) => exists|j: int|
                    first_duplicate(packages_view(packages@), j) && packages@[j].name@ == n@,
                Err(_) => false,
            },
            r is Ok <==> unique_names(packages_view(packages@)),
    {
        let ghost c = packages_view(packages@);
        let mut j: usize = 0;
        while j < packages.len()
            invariant
                c == packages_view(packages@),
                0 <= j <= packages@.len(),
                forall|k: int, i: int| 0 <= i < k < j ==> #[trigger] c[i].name != #[trigger] c[k].name,
            decreases packages@.len() - j,
        {
            let mut i: usize = 0;
            while i < j
                invariant
                    c == packages_view(packages@),
                    0 <= i <= j < packages@.len(),
                    forall|k: int, i2: int| 0 <= i2 < k < j ==> #[trigger] c[i2].name != #[trigger] c[k].name,
                    forall|i2: int| 0 <= i2 < i ==> #[trigger] c[i2].name != c[j as int].name,
                decreases j - i,
            {
                if bytes_eq(packages[i].name.as_slice(), packages[j].name.as_slice()) {
                    assert(c[i as int].name == c[j as int].name);
                    assert(first_duplicate(c, j as int));
                    let n = copy_bytes(packages[j].name.as_slice());
                    return Err(ManifestError::DuplicateName(n));
                }
                i += 1;
            }
            j += 1;
        }
        Ok(Catalog { packages })
    }

    /// The number of packages.
    pub fn len(&self) -> (r: usize)
        ensures
            r == self@.len(),
    {
        self.packages.len()
    }

    /// The package at position `i`.
    pub fn get(&self, i: usize) -> (r: &Package)
        requires
            i < self@.len(),
        ensures
            r@ == self@[i as int],
    {
        &self.packages[i]
    }

    /// The position of the package called `name`, if there is one.
    pub fn find(&self, name: &[u8]) -> (r: Option<usize>)
        requires
            self.wf(),
        ensures
            match r {
                Some(i) => i < self@.len() && self@[i as int].name == name@,
                None => !has_package(self@, name@),
            },
    {
        let mut i: usize = 0;
        while i < self.packages.len()
            invariant
                0 <= i <= self@.len(),
                forall|k: int| 0 <= k < i ==> (#[trigger] self@[k]).name != name@,
            decreases self@.len() - i,
        {
            if bytes_eq(self.packages[i].name.as_slice(), name) {
                return Some(i);
            }
            i += 1;
        }
        None
    }
}

} // verus!
