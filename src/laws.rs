//! Laws that relate the stages of a run.
use vstd::prelude::*;
use crate::cache::{fetch_ok, maps_to_installed, package_key, KeySpec};
use crate::install::manifest_ok;
use crate::layout::{key_path, law_key_paths_distinct};
use crate::manifest::{lines, records};
use crate::package::{has_package, PackageSpec};
use crate::resolve::{closure_names, is_closure, no_dangling, reach, reachable, roots_known};

verus! {

/// The names of the packages of a catalog, in order.
pub open spec fn all_names(c: Seq<PackageSpec>) -> Seq<Seq<u8>> {
    c.map_values(|p: PackageSpec| p.name)
}

proof fn lemma_reach_empty(c: Seq<PackageSpec>, k: nat)
    ensures
        reach(c, Set::empty(), k) == Set::<Seq<u8>>::empty(),
    decreases k,
{
    if k > 0 {
        lemma_reach_empty(c, (k - 1) as nat);
        assert(reach(c, Set::empty(), k) =~= Set::<Seq<u8>>::empty());
    }
}

/// A parsed manifest resolved with no roots: the resolution succeeds, and
/// its closure is empty.
pub proof fn law_no_roots_empty_closure(text: Seq<u8>, v: Seq<PackageSpec>)
    requires
        manifest_ok(text),
    ensures
        roots_known(records(lines(text)), Seq::empty()),
        no_dangling(records(lines(text)), Seq::empty()),
        is_closure(records(lines(text)), Seq::empty(), v) ==> v.len() == 0,
{
    let c = records(lines(text));
    let e = Seq::<Seq<u8>>::empty();
    assert(e.to_set() =~= Set::<Seq<u8>>::empty());
    assert forall|n: Seq<u8>| !reachable(c, e.to_set(), n) by {
        assert forall|k: nat| !(#[trigger] reach(c, e.to_set(), k).contains(n)) by {
            lemma_reach_empty(c, k);
        }
    }
    if is_closure(c, e, v) && v.len() > 0 {
        assert(closure_names(v).contains(v[0].name));
    }
}

/// A parsed manifest resolved with every name it holds as a root, no
/// dependency dangling: the resolution succeeds, and its closure holds
/// exactly the packages of the catalog.
pub proof fn law_all_roots_whole_catalog(text: Seq<u8>, v: Seq<PackageSpec>)
    requires
        manifest_ok(text),
        no_dangling(records(lines(text)), all_names(records(lines(text)))),
    ensures
        roots_known(records(lines(text)), all_names(records(lines(text)))),
        is_closure(records(lines(text)), all_names(records(lines(text))), v) ==> (forall|p: PackageSpec|
            v.contains(p) <==> records(lines(text)).contains(p)) && v.len() == records(lines(text)).len(),
{
    let c = records(lines(text));
    let rs = all_names(c);
    assert forall|j: int| 0 <= j < rs.len() implies has_package(c, #[trigger] rs[j]) by {
        assert(c[j].name == rs[j]);
    }
    if is_closure(c, rs, v) {
        assert forall|p: PackageSpec| v.contains(p) <==> c.contains(p) by {
            if c.contains(p) {
                let i = choose|i: int| 0 <= i < c.len() && c[i] == p;
                assert(rs[i] == p.name);
                assert(rs.to_set().contains(p.name));
                assert(reach(c, rs.to_set(), 0).contains(p.name));
                assert(closure_names(v).contains(p.name));
                let k = choose|k: int| 0 <= k < v.len() && (#[trigger] v[k]).name == p.name;
                assert(c.contains(v[k]));
                let i2 = choose|i2: int| 0 <= i2 < c.len() && c[i2] == v[k];
                assert(i2 == i);
                assert(v[k] == p);
            }
        }
        assert(v.no_duplicates()) by {
            assert forall|a: int, b: int| 0 <= a < v.len() && 0 <= b < v.len() && a != b implies v[a] != v[b] by {
                assert(v[a].name != v[b].name);
            }
        }
        assert(c.no_duplicates()) by {
            assert forall|a: int, b: int| 0 <= a < c.len() && 0 <= b < c.len() && a != b implies c[a] != c[b] by {
                assert(c[a].name != c[b].name);
            }
        }
        assert(v.to_set() =~= c.to_set()) by {
            assert forall|p: PackageSpec| v.to_set().contains(p) <==> c.to_set().contains(p) by {
                assert(v.contains(p) <==> c.contains(p));
            }
        }
        v.unique_seq_to_set();
        c.unique_seq_to_set();
    }
}

/// A run whose closure `v` had no key installed beforehand maps each package
/// to the cache path of its key: paths are never empty, and packages with
/// distinct keys get distinct paths.
pub proof fn law_fresh_paths_distinct<F: Fn(&[u8], &[u8], &[u8]) -> Result<(), Vec<u8>>>(
    fetch: F,
    before: Map<KeySpec, Seq<u8>>,
    after: Map<KeySpec, Seq<u8>>,
    v: Seq<PackageSpec>,
    m: Seq<(Vec<u8>, Vec<u8>)>,
)
    requires
        maps_to_installed(v, after, m),
        forall|j: int| 0 <= j < v.len() ==> !before.dom().contains(package_key(#[trigger] v[j])),
        forall|k: KeySpec| #[trigger] after.dom().contains(k) && !before.dom().contains(k) ==> fetch_ok(fetch, k, after[k]),
    ensures
        forall|j: int| 0 <= j < m.len() ==> (#[trigger] m[j]).1@ == key_path(v[j].source, v[j].revision) && m[j].1@.len() > 0,
        forall|i: int, j: int|
            0 <= i < m.len() && 0 <= j < m.len() && package_key(v[i]) != package_key(v[j]) ==> #[trigger] m[i].1@ != #[trigger] m[j].1@,
{
    assert forall|j: int| 0 <= j < m.len() implies (#[trigger] m[j]).1@ == key_path(v[j].source, v[j].revision) && m[j].1@.len() > 0 by {
        assert(m[j].0@ == v[j].name);
        assert(after.dom().contains(package_key(v[j])));
        law_key_paths_distinct(v[j].source, v[j].revision, v[j].source, v[j].revision);
    }
    assert forall|i: int, j: int|
        0 <= i < m.len() && 0 <= j < m.len() && package_key(v[i]) != package_key(v[j]) implies #[trigger] m[i].1@ != #[trigger] m[j].1@ by {
        assert(m[i].0@ == v[i].name && m[j].0@ == v[j].name);
        assert(after.dom().contains(package_key(v[i])));
        assert(after.dom().contains(package_key(v[j])));
        law_key_paths_distinct(v[i].source, v[i].revision, v[j].source, v[j].revision);
    }
}

} // verus!
