//! The whole run: parse the manifest, resolve the closure of the roots,
//! install every package of the closure, and map names to paths.
use vstd::prelude::*;
use crate::bytes::list_view;
use crate::cache::{
    fetch_callable, fetch_err, fetch_ok, key_list, key_set, log_extends, maps_to_installed, missing_keys, new_keys_of, package_key,
    FetchError, KeySpec, PackageCache,
};
use crate::manifest::{first_malformed, lines, malformed, parse, records};
use crate::package::{first_duplicate, packages_view, unique_names, ManifestError, PackageSpec};
use crate::resolve::{dangling, first_unknown_root, is_closure, no_dangling, resolve, roots_known, ResolutionError};

verus! {

/// The first error of a run, from the stage that raised it.
pub enum InstallError {
    Manifest(ManifestError),
    Resolution(ResolutionError),
    Fetch(FetchError),
}

/// The manifest has no malformed line and no name given twice.
pub open spec fn manifest_ok(text: Seq<u8>) -> bool {
    (forall|j: int| 0 <= j < lines(text).len() ==> !malformed(#[trigger] lines(text)[j]))
        && unique_names(records(lines(text)))
}

/// Installs the closure of `roots` over the manifest `text`, and maps the
/// name of each package of the closure to the path of its sources. Fails
/// with the first error met: in the manifest, in the resolution, or in the
/// fetches, whose failed keys are all named.
pub fn install<F>(cache: &mut PackageCache, text: &[u8], roots: &Vec<Vec<u8>>, fetch: &F) -> (r: Result<Vec<(Vec<u8>, Vec<u8>)>, InstallError>) where
    F: Fn(&[u8], &[u8], &[u8]) -> Result<(), Vec<u8>>,
    requires
        old(cache).wf(),
        forall|j: int| 0 <= j < records(lines(text@)).len() ==> !old(cache).in_flight().contains(package_key(#[trigger] records(lines(text@))[j])),
        fetch_callable(*fetch, old(cache).installed()),
    ensures
        final(cache).wf(),
        final(cache).in_flight() == old(cache).in_flight(),
        old(cache).installed().submap_of(final(cache).installed()),
        forall|k: KeySpec| #[trigger] final(cache).installed().dom().contains(k) && !old(cache).installed().dom().contains(k)
            ==> fetch_ok(*fetch, k, final(cache).installed()[k]),
        (r matches Err(InstallError::Manifest(_))) <==> !manifest_ok(text@),
        (r matches Err(InstallError::Manifest(ManifestError::Malformed { .. }))) <==> exists|j: int|
            0 <= j < lines(text@).len() && malformed(#[trigger] lines(text@)[j]),
        (r matches Err(InstallError::Resolution(ResolutionError::UnknownRoot(_)))) <==> manifest_ok(text@) && !roots_known(
            records(lines(text@)),
            list_view(roots@),
        ),
        (r matches Err(InstallError::Resolution(_))) <==> manifest_ok(text@) && !(roots_known(
            records(lines(text@)),
            list_view(roots@),
        ) && no_dangling(records(lines(text@)), list_view(roots@))),
        r is Err && !(r matches Err(InstallError::Fetch(_))) ==> final(cache).installed() == old(cache).installed(),
        !(r matches Err(InstallError::Fetch(_))) ==> final(cache).failure_log() == old(cache).failure_log(),
        match r {
            Ok(m) => exists|v: Seq<PackageSpec>|
                #[trigger] is_closure(records(lines(text@)), list_view(roots@), v) && missing_keys(v, final(cache).installed()).is_empty()
                    && maps_to_installed(v, final(cache).installed(), m@)
                    && new_keys_of(old(cache).installed(), final(cache).installed(), v),
            Err(InstallError::Manifest(ManifestError::Malformed { line })) => first_malformed(lines(text@), line as int),
            Err(InstallError::Manifest(ManifestError::DuplicateName(n))) => exists|j: int|
                first_duplicate(records(lines(text@)), j) && records(lines(text@))[j].name == n@,
            Err(InstallError::Resolution(ResolutionError::UnknownRoot(n))) => first_unknown_root(
                records(lines(text@)),
                list_view(roots@),
                n@,
            ),
            Err(InstallError::Resolution(ResolutionError::UnknownDependency { parent, missing })) => dangling(
                records(lines(text@)),
                list_view(roots@),
                parent@,
                missing@,
            ),
            Err(InstallError::Fetch(FetchError::BatchFailure(ks))) => exists|v: Seq<PackageSpec>|
                #[trigger] is_closure(records(lines(text@)), list_view(roots@), v) && !missing_keys(v, final(cache).installed()).is_empty()
                    && key_set(ks@) == missing_keys(v, final(cache).installed())
                    && new_keys_of(old(cache).installed(), final(cache).installed(), v)
                    && log_extends(old(cache).failure_log(), final(cache).failure_log(), key_list(ks@))
                    && forall|i: int| 0 <= i < ks@.len() ==> fetch_err(*fetch, #[trigger] ks@[i]@),
            Err(InstallError::Fetch(_)) => false,
        },
{
    let catalog = match parse(text) {
        Ok(c) => c,
        Err(e) => {
            return Err(InstallError::Manifest(e));
        },
    };
    let closure = match resolve(&catalog, roots) {
        Ok(v) => v,
        Err(e) => {
            return Err(InstallError::Resolution(e));
        },
    };
    let ghost v = packages_view(closure@);
    assert forall|j: int| 0 <= j < closure@.len() implies !cache.in_flight().contains(package_key(#[trigger] closure@[j]@)) by {
        assert(v[j] == closure@[j]@);
        assert(catalog@.contains(v[j]));
    }
    let res = cache.ensure_installed_all(&closure, fetch);
    assert(is_closure(records(lines(text@)), list_view(roots@), v));
    assert(new_keys_of(old(cache).installed(), cache.installed(), v)) by {
        assert forall|k: KeySpec| #[trigger] cache.installed().dom().contains(k) && !old(cache).installed().dom().contains(k)
            implies exists|j: int| 0 <= j < v.len() && package_key(#[trigger] v[j]) == k by {
            let j = choose|j: int| 0 <= j < closure@.len() && package_key(#[trigger] closure@[j]@) == k;
            assert(v[j] == closure@[j]@);
        }
    }
    match res {
        Ok(m) => {
            assert(is_closure(records(lines(text@)), list_view(roots@), v) && missing_keys(v, cache.installed()).is_empty()
                && maps_to_installed(v, cache.installed(), m@) && new_keys_of(old(cache).installed(), cache.installed(), v));
            Ok(m)
        },
        Err(e) => {
            assert(is_closure(records(lines(text@)), list_view(roots@), v) && new_keys_of(old(cache).installed(), cache.installed(), v));
            Err(InstallError::Fetch(e))
        },
    }
}

} // verus!
