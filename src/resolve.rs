//! The transitive closure of a project's direct dependencies over a catalog.
//! Cycles are allowed: the walk keeps a set of the packages seen so far.
use vstd::prelude::*;
use vstd::set_lib::{lemma_int_range, lemma_len_subset, set_int_range};
use crate::bytes::{copy_bytes, list_view};
use crate::package::{has_package, packages_view, unique_names, Catalog, Package, PackageSpec};

verus! {

/// The package called `a` lists `b` among its dependencies.
pub open spec fn depends_on(c: Seq<PackageSpec>, a: Seq<u8>, b: Seq<u8>) -> bool {
    exists|i: int| 0 <= i < c.len() && (#[trigger] c[i]).name == a && c[i].deps.contains(b)
}

/// The names reached from `roots` in at most `k` dependency steps.
pub open spec fn reach(c: Seq<PackageSpec>, roots: Set<Seq<u8>>, k: nat) -> Set<Seq<u8>>
    decreases k,
{
    if k == 0 {
        roots
    } else {
        let r = reach(c, roots, (k - 1) as nat);
        r.union(Set::new(|b: Seq<u8>| exists|a: Seq<u8>| r.contains(a) && depends_on(c, a, b)))
    }
}

/// `n` is reached from `roots` in some number of dependency steps.
pub open spec fn reachable(c: Seq<PackageSpec>, roots: Set<Seq<u8>>, n: Seq<u8>) -> bool {
    exists|k: nat| #[trigger] reach(c, roots, k).contains(n)
}

/// Every root names a package of the catalog.
pub open spec fn roots_known(c: Seq<PackageSpec>, roots: Seq<Seq<u8>>) -> bool {
    forall|j: int| 0 <= j < roots.len() ==> has_package(c, #[trigger] roots[j])
}

/// Every name reached from the roots names a package of the catalog.
pub open spec fn no_dangling(c: Seq<PackageSpec>, roots: Seq<Seq<u8>>) -> bool {
    forall|n: Seq<u8>| reachable(c, roots.to_set(), n) ==> has_package(c, n)
}

/// `n` is the first root, in the order given, that the catalog lacks.
pub open spec fn first_unknown_root(c: Seq<PackageSpec>, roots: Seq<Seq<u8>>, n: Seq<u8>) -> bool {
    exists|j: int|
        0 <= j < roots.len() && roots[j] == n && !has_package(c, n) && roots_known(
            c,
            roots.subrange(0, j),
        )
}

/// `parent` is reached from the roots and depends on `missing`, which the
/// catalog lacks.
pub open spec fn dangling(
    c: Seq<PackageSpec>,
    roots: Seq<Seq<u8>>,
    parent: Seq<u8>,
    missing: Seq<u8>,
) -> bool {
    reachable(c, roots.to_set(), parent) && has_package(c, parent) && depends_on(c, parent, missing)
        && !has_package(c, missing)
}

/// `v` is the closure of `roots`: packages of the catalog, each once, whose
/// names are exactly those reached from the roots.
pub open spec fn is_closure(c: Seq<PackageSpec>, roots: Seq<Seq<u8>>, v: Seq<PackageSpec>) -> bool {
    &&& forall|k: int| 0 <= k < v.len() ==> c.contains(#[trigger] v[k])
    &&& forall|k1: int, k2: int|
        0 <= k1 < v.len() && 0 <= k2 < v.len() && k1 != k2 ==> #[trigger] v[k1].name
            != #[trigger] v[k2].name
    &&& forall|n: Seq<u8>| #[trigger] closure_names(v).contains(n) <==> reachable(c, roots.to_set(), n)
}

/// The names of a list of packages.
pub open spec fn closure_names(v: Seq<PackageSpec>) -> Set<Seq<u8>> {
    Set::new(|n: Seq<u8>| exists|k: int| 0 <= k < v.len() && (#[trigger] v[k]).name == n)
}

/// Why no closure can be computed.
pub enum ResolutionError {
    /// A root names no package of the catalog.
    UnknownRoot(Vec<u8>),
    /// A package of the closure depends on a name that the catalog lacks.
    UnknownDependency { parent: Vec<u8>, missing: Vec<u8> },
}

proof fn lemma_reach_step(c: Seq<PackageSpec>, roots: Set<Seq<u8>>, k: nat, a: Seq<u8>, b: Seq<u8>)
    requires
        reach(c, roots, k).contains(a),
        depends_on(c, a, b),
    ensures
        reach(c, roots, k + 1).contains(b),
{
    let r = reach(c, roots, k);
    assert(reach(c, roots, k + 1) == r.union(
        Set::new(|b: Seq<u8>| exists|a: Seq<u8>| r.contains(a) && depends_on(c, a, b)),
    ));
}

proof fn lemma_reach_within(c: Seq<PackageSpec>, roots: Set<Seq<u8>>, s: Set<Seq<u8>>, k: nat)
    requires
        roots.subset_of(s),
        forall|a: Seq<u8>, b: Seq<u8>| #[trigger] s.contains(a) && #[trigger] depends_on(c, a, b) ==> s.contains(b),
    ensures
        reach(c, roots, k).subset_of(s),
    decreases k,
{
    if k > 0 {
        lemma_reach_within(c, roots, s, (k - 1) as nat);
    }
}


/// The names of the visited packages.
spec fn visited_names(c: Seq<PackageSpec>, vis: Seq<usize>) -> Set<Seq<u8>> {
    Set::new(|n: Seq<u8>| exists|k: int| 0 <= k < vis.len() && c[#[trigger] vis[k] as int].name == n)
}

/// Invariant of the walk over the visited indices `vis` and the flags `seen`.
spec fn walk_inv(c: Seq<PackageSpec>, roots: Set<Seq<u8>>, vis: Seq<usize>, seen: Seq<bool>, gs: Set<int>) -> bool {
    &&& seen.len() == c.len()
    &&& gs.finite()
    &&& gs.len() == vis.len()
    &&& gs.subset_of(set_int_range(0, c.len() as int))
    &&& forall|k: int| 0 <= k < vis.len() ==> #[trigger] vis[k] < c.len()
    &&& forall|k: int| 0 <= k < vis.len() ==> gs.contains(#[trigger] vis[k] as int)
    &&& forall|i: int| gs.contains(i) ==> exists|k: int| 0 <= k < vis.len() && #[trigger] vis[k] == i
    &&& forall|i: int| 0 <= i < c.len() ==> (#[trigger] seen[i] <==> gs.contains(i))
    &&& forall|k1: int, k2: int|
        0 <= k1 < vis.len() && 0 <= k2 < vis.len() && k1 != k2 ==> #[trigger] vis[k1] != #[trigger] vis[k2]
    &&& forall|k: int| 0 <= k < vis.len() ==> reachable(c, roots, #[trigger] c[vis[k] as int].name)
}

proof fn lemma_visit(c: Seq<PackageSpec>, roots: Set<Seq<u8>>, vis: Seq<usize>, seen: Seq<bool>, gs: Set<int>, j: usize)
    requires
        walk_inv(c, roots, vis, seen, gs),
        j < c.len(),
        !seen[j as int],
        reachable(c, roots, c[j as int].name),
    ensures
        walk_inv(c, roots, vis.push(j), seen.update(j as int, true), gs.insert(j as int)),
        visited_names(c, vis.push(j)) == visited_names(c, vis).insert(c[j as int].name),
{
    let vis2 = vis.push(j);
    let gs2 = gs.insert(j as int);
    assert(vis2[vis.len() as int] == j);
    assert forall|i: int| gs2.contains(i) implies exists|k: int| 0 <= k < vis2.len() && #[trigger] vis2[k] == i by {
        if i == j as int {
            assert(vis2[vis.len() as int] == i);
        } else {
            let k = choose|k: int| 0 <= k < vis.len() && #[trigger] vis[k] == i;
            assert(vis2[k] == i);
        }
    }
    assert forall|k: int| 0 <= k < vis2.len() implies reachable(c, roots, #[trigger] c[vis2[k] as int].name) by {
        if k < vis.len() {
            assert(vis2[k] == vis[k]);
        }
    }
    assert forall|n: Seq<u8>| #[trigger] visited_names(c, vis2).contains(n) == visited_names(c, vis).insert(c[j as int].name).contains(n) by {
        if visited_names(c, vis).contains(n) {
            let k = choose|k: int| 0 <= k < vis.len() && c[#[trigger] vis[k] as int].name == n;
            assert(vis2[k] == vis[k]);
        }
        if n == c[j as int].name {
            assert(vis2[vis.len() as int] == j);
        }
        if visited_names(c, vis2).contains(n) {
            let k = choose|k: int| 0 <= k < vis2.len() && c[#[trigger] vis2[k] as int].name == n;
            if k < vis.len() {
                assert(vis2[k] == vis[k]);
            }
        }
    }
    assert(visited_names(c, vis2) =~= visited_names(c, vis).insert(c[j as int].name));
}

/// Computes the closure of `roots` over the catalog: the packages whose
/// names are reached from the roots through dependencies, cycles included.
pub fn resolve(catalog: &Catalog, roots: &Vec<Vec<u8>>) -> (r: Result<Vec<Package>, ResolutionError>)
    requires
        catalog.wf(),
    ensures
        match r {
            Ok(v) => is_closure(catalog@, list_view(roots@), packages_view(v@)),
            Err(ResolutionError::UnknownRoot(n)) => first_unknown_root(catalog@, list_view(roots@), n@),
            Err(ResolutionError::UnknownDependency { parent, missing }) => roots_known(
                catalog@,
                list_view(roots@),
            ) && dangling(catalog@, list_view(roots@), parent@, missing@),
        },
        r is Ok <==> roots_known(catalog@, list_view(roots@)) && no_dangling(catalog@, list_view(roots@)),
        (r matches Err(ResolutionError::UnknownRoot(_))) <==> !roots_known(catalog@, list_view(roots@)),
{
    let ghost c = catalog@;
    let ghost rs = list_view(roots@);
    let ghost rset = rs.to_set();
    let n = catalog.len();
    let mut seen: Vec<bool> = Vec::new();
    let mut i: usize = 0;
    while i < n
        invariant
            n == c.len(),
            seen@.len() == i,
            i <= n,
            forall|i2: int| 0 <= i2 < i ==> !(#[trigger] seen@[i2]),
        decreases n - i,
    {
        seen.push(false);
        i += 1;
    }
    let mut vis: Vec<usize> = Vec::new();
    let ghost mut gs: Set<int> = Set::empty();
    proof {
        lemma_int_range(0, n as int);
    }
    let mut j: usize = 0;
    while j < roots.len()
        invariant
            c == catalog@,
            catalog.wf(),
            rs == list_view(roots@),
            rset == rs.to_set(),
            n == c.len(),
            j <= roots@.len(),
            walk_inv(c, rset, vis@, seen@, gs),
            roots_known(c, rs.subrange(0, j as int)),
            forall|j2: int| 0 <= j2 < j ==> visited_names(c, vis@).contains(#[trigger] rs[j2]),
        decreases roots@.len() - j,
    {
        assert(rs[j as int] == roots@[j as int]@);
        match catalog.find(roots[j].as_slice()) {
            None => {
                assert(first_unknown_root(c, rs, roots@[j as int]@));
                assert(!roots_known(c, rs));
                return Err(ResolutionError::UnknownRoot(copy_bytes(roots[j].as_slice())));
            },
            Some(idx) => {
                assert(reach(c, rset, 0).contains(rs[j as int]));
                if !seen[idx] {
                    proof {
                        lemma_int_range(0, n as int);
                        lemma_len_subset(gs, set_int_range(0, n as int));
                        lemma_visit(c, rset, vis@, seen@, gs, idx);
                        gs = gs.insert(idx as int);
                    }
                    vis.push(idx);
                    seen.set(idx, true);
                } else {
                    let ghost k = choose|k: int| 0 <= k < vis@.len() && #[trigger] vis@[k] == idx as int;
                    assert(visited_names(c, vis@).contains(c[vis@[k] as int].name));
                }
                assert forall|j2: int| 0 <= j2 < j + 1 implies has_package(c, #[trigger] rs.subrange(0, j + 1)[j2]) by {
                    if j2 < j {
                        assert(rs.subrange(0, j as int)[j2] == rs[j2]);
                    } else {
                        assert(c[idx as int].name == rs[j2]);
                    }
                }
            },
        }
        j += 1;
    }
    assert(rs.subrange(0, j as int) =~= rs);
    let mut p: usize = 0;
    while p < vis.len()
        invariant
            c == catalog@,
            catalog.wf(),
            rs == list_view(roots@),
            rset == rs.to_set(),
            n == c.len(),
            roots_known(c, rs),
            walk_inv(c, rset, vis@, seen@, gs),
            p <= vis@.len(),
            forall|j2: int| 0 <= j2 < rs.len() ==> visited_names(c, vis@).contains(#[trigger] rs[j2]),
            forall|k: int, d: Seq<u8>|
                0 <= k < p && #[trigger] c[vis@[k] as int].deps.contains(d) ==> visited_names(c, vis@).contains(d),
        decreases n - p,
    {
        proof {
            lemma_int_range(0, n as int);
            lemma_len_subset(gs, set_int_range(0, n as int));
        }
        let a = vis[p];
        let pkg = catalog.get(a);
        let mut e: usize = 0;
        while e < pkg.dependencies.len()
            invariant
                c == catalog@,
                catalog.wf(),
                rs == list_view(roots@),
                rset == rs.to_set(),
                n == c.len(),
                roots_known(c, rs),
                walk_inv(c, rset, vis@, seen@, gs),
                p < vis@.len(),
                a == vis@[p as int],
                pkg@ == c[a as int],
                e <= pkg@.deps.len(),
                forall|j2: int| 0 <= j2 < rs.len() ==> visited_names(c, vis@).contains(#[trigger] rs[j2]),
                forall|k: int, d: Seq<u8>|
                    0 <= k < p && #[trigger] c[vis@[k] as int].deps.contains(d) ==> visited_names(c, vis@).contains(d),
                forall|e2: int| 0 <= e2 < e ==> visited_names(c, vis@).contains(#[trigger] pkg@.deps[e2]),
            decreases pkg@.deps.len() - e,
        {
            let d = &pkg.dependencies[e];
            assert(pkg@.deps[e as int] == d@);
            assert(pkg@.deps.contains(d@));
            assert(depends_on(c, c[a as int].name, d@));
            match catalog.find(d.as_slice()) {
                None => {
                    assert(dangling(c, rs, c[a as int].name, d@));
                    assert(!no_dangling(c, rs)) by {
                        let k = choose|k: nat| #[trigger] reach(c, rset, k).contains(c[a as int].name);
                        lemma_reach_step(c, rset, k, c[a as int].name, d@);
                    }
                    return Err(
                        ResolutionError::UnknownDependency {
                            parent: copy_bytes(pkg.name.as_slice()),
                            missing: copy_bytes(d.as_slice()),
                        },
                    );
                },
                Some(idx) => {
                    if !seen[idx] {
                        proof {
                            lemma_int_range(0, n as int);
                            lemma_len_subset(gs, set_int_range(0, n as int));
                            let k = choose|k: nat| #[trigger] reach(c, rset, k).contains(c[a as int].name);
                            lemma_reach_step(c, rset, k, c[a as int].name, d@);
                            lemma_visit(c, rset, vis@, seen@, gs, idx);
                            gs = gs.insert(idx as int);
                        }
                        vis.push(idx);
                        seen.set(idx, true);
                    } else {
                        let ghost k = choose|k: int| 0 <= k < vis@.len() && #[trigger] vis@[k] == idx as int;
                        assert(visited_names(c, vis@).contains(c[vis@[k] as int].name));
                    }
                },
            }
            e += 1;
        }
        assert forall|k: int, d: Seq<u8>|
            0 <= k < p + 1 && #[trigger] c[vis@[k] as int].deps.contains(d) implies visited_names(c, vis@).contains(d) by {
            if k == p {
                let e2 = choose|e2: int| 0 <= e2 < pkg@.deps.len() && pkg@.deps[e2] == d;
                assert(visited_names(c, vis@).contains(pkg@.deps[e2]));
            }
        }
        p += 1;
    }
    let ghost s = visited_names(c, vis@);
    proof {
        assert forall|a2: Seq<u8>, b: Seq<u8>| #[trigger] s.contains(a2) && #[trigger] depends_on(c, a2, b) implies s.contains(b) by {
            let k = choose|k: int| 0 <= k < vis@.len() && c[#[trigger] vis@[k] as int].name == a2;
            let i2 = choose|i2: int| 0 <= i2 < c.len() && (#[trigger] c[i2]).name == a2 && c[i2].deps.contains(b);
            assert(i2 == vis@[k] as int);
        }
        assert forall|x: Seq<u8>| rset.contains(x) implies s.contains(x) by {
            let j2 = choose|j2: int| 0 <= j2 < rs.len() && rs[j2] == x;
            assert(s.contains(rs[j2]));
        }
        assert forall|x: Seq<u8>| #[trigger] reachable(c, rset, x) implies s.contains(x) && has_package(c, x) by {
            let k = choose|k: nat| #[trigger] reach(c, rset, k).contains(x);
            lemma_reach_within(c, rset, s, k);
            let k2 = choose|k2: int| 0 <= k2 < vis@.len() && c[#[trigger] vis@[k2] as int].name == x;
            assert(c[vis@[k2] as int].name == x);
        }
        assert(no_dangling(c, rs));
    }
    let mut out: Vec<Package> = Vec::new();
    let mut q: usize = 0;
    while q < vis.len()
        invariant
            c == catalog@,
            catalog.wf(),
            walk_inv(c, rset, vis@, seen@, gs),
            q <= vis@.len(),
            out@.len() == q,
            forall|k: int| 0 <= k < q ==> (#[trigger] out@[k])@ == c[vis@[k] as int],
        decreases vis@.len() - q,
    {
        out.push(catalog.get(vis[q]).copy());
        q += 1;
    }
    let ghost v = packages_view(out@);
    proof {
        assert forall|k: int| 0 <= k < v.len() implies c.contains(#[trigger] v[k]) by {
            assert(c[vis@[k] as int] == v[k]);
        }
        assert forall|k1: int, k2: int|
            0 <= k1 < v.len() && 0 <= k2 < v.len() && k1 != k2 implies #[trigger] v[k1].name != #[trigger] v[k2].name by {
            assert(vis@[k1] != vis@[k2]);
        }
        assert forall|x: Seq<u8>| #[trigger] closure_names(v).contains(x) <==> reachable(c, rset, x) by {
            if closure_names(v).contains(x) {
                let k = choose|k: int| 0 <= k < v.len() && (#[trigger] v[k]).name == x;
                assert(reachable(c, rset, c[vis@[k] as int].name));
            }
            if reachable(c, rset, x) {
                assert(s.contains(x));
                let k = choose|k: int| 0 <= k < vis@.len() && c[#[trigger] vis@[k] as int].name == x;
                assert(v[k].name == x);
            }
        }
    }
    Ok(out)
}

} // verus!
