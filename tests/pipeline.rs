use std::cell::{Cell, RefCell};
use vessel_sources::cache::{FetchError, Outcome, PackageCache, Step};
use vessel_sources::install::{install, InstallError};
use vessel_sources::layout::cache_path;
use vessel_sources::manifest::{keep_nonempty, parse, parse_roots, split_at_byte};
use vessel_sources::package::{Catalog, ManifestError, Package};
use vessel_sources::resolve::{resolve, ResolutionError};

fn b(s: &str) -> Vec<u8> {
    s.as_bytes().to_vec()
}

fn names(v: &[Package]) -> Vec<Vec<u8>> {
    let mut n: Vec<Vec<u8>> = v.iter().map(|p| p.name.clone()).collect();
    n.sort();
    n
}

fn pkg(name: &str, deps: &[&str]) -> Package {
    Package {
        name: b(name),
        source: b(&format!("https://example.org/{}", name)),
        revision: b("v1.0.0"),
        dependencies: deps.iter().map(|d| b(d)).collect(),
    }
}

#[test]
fn split_keeps_empty_pieces() {
    let parts = split_at_byte(b"a  b", b' ');
    assert_eq!(parts, vec![b("a"), b(""), b("b")]);
    assert_eq!(keep_nonempty(&parts), vec![b("a"), b("b")]);
    assert_eq!(split_at_byte(b"", b'\n'), vec![b("")]);
}

#[test]
fn parse_reads_records_and_skips_blank_lines() {
    let c = parse(b"A src-a r1 : B C\n\n  \nB src-b r2\nC src-c r3 :\n").ok().unwrap();
    assert_eq!(c.len(), 3);
    let a = c.get(0);
    assert_eq!(a.name, b("A"));
    assert_eq!(a.source, b("src-a"));
    assert_eq!(a.revision, b("r1"));
    assert_eq!(a.dependencies, vec![b("B"), b("C")]);
    assert_eq!(c.find(b"C"), Some(2));
    assert_eq!(c.find(b"D"), None);
}

#[test]
fn parse_missing_revision_is_malformed() {
    match parse(b"A src-a r1\nB src-b\n") {
        Err(ManifestError::Malformed { line }) => assert_eq!(line, 1),
        _ => panic!("expected Malformed"),
    }
}

#[test]
fn parse_rejects_wrong_field_counts() {
    for text in [&b"A src-a\n"[..], b"A src-a : B\n", b"A s r extra\n", b"A s r : B : C\n", b": B\n"] {
        match parse(text) {
            Err(ManifestError::Malformed { line }) => assert_eq!(line, 0),
            _ => panic!("expected Malformed"),
        }
    }
    assert_eq!(parse(b"\n\n").ok().unwrap().len(), 0);
    assert_eq!(parse(b"A s r :").ok().unwrap().get(0).dependencies.len(), 0);
}

#[test]
fn parse_duplicate_name() {
    match parse(b"A s1 r1\nB s2 r2\nA s3 r3\n") {
        Err(ManifestError::DuplicateName(n)) => assert_eq!(n, b("A")),
        _ => panic!("expected DuplicateName"),
    }
    assert!(Catalog::from_packages(vec![pkg("X", &[]), pkg("X", &[])]).is_err());
}

#[test]
fn empty_roots_give_empty_closure_and_all_roots_whole_catalog() {
    let c = parse(b"A s r : B\nB s r\nC s r : A\n").ok().unwrap();
    let v = resolve(&c, &vec![]).ok().unwrap();
    assert!(v.is_empty());
    let all = resolve(&c, &vec![b("A"), b("B"), b("C")]).ok().unwrap();
    assert_eq!(names(&all), vec![b("A"), b("B"), b("C")]);
}

#[test]
fn cycle_resolves_to_both() {
    let c = Catalog::from_packages(vec![pkg("A", &["B"]), pkg("B", &["A"]), pkg("Z", &[])]).ok().unwrap();
    let v = resolve(&c, &vec![b("A")]).ok().unwrap();
    assert_eq!(names(&v), vec![b("A"), b("B")]);
}

#[test]
fn unknown_root_is_named() {
    let c = Catalog::from_packages(vec![pkg("A", &[])]).ok().unwrap();
    match resolve(&c, &vec![b("A"), b("Q")]) {
        Err(ResolutionError::UnknownRoot(n)) => assert_eq!(n, b("Q")),
        _ => panic!("expected UnknownRoot"),
    }
}

#[test]
fn unknown_dependency_names_parent_and_missing() {
    let c = Catalog::from_packages(vec![pkg("A", &["B"]), pkg("B", &["M"])]).ok().unwrap();
    match resolve(&c, &vec![b("A")]) {
        Err(ResolutionError::UnknownDependency { parent, missing }) => {
            assert_eq!(parent, b("B"));
            assert_eq!(missing, b("M"));
        }
        _ => panic!("expected UnknownDependency"),
    }
}

#[test]
fn second_request_is_served_from_cache() {
    let calls = Cell::new(0usize);
    let fetch = |s: &[u8], r: &[u8], _dest: &[u8]| -> Result<(), Vec<u8>> {
        calls.set(calls.get() + 1);
        Ok(())
    };
    let mut cache = PackageCache::new();
    let first_path = cache.ensure_installed(b"src", b"r1", &fetch).ok().unwrap();
    assert_eq!(calls.get(), 1);
    let second_path = cache.ensure_installed(b"src", b"r1", &fetch).ok().unwrap();
    assert_eq!(calls.get(), 1);
    assert_eq!(first_path, second_path);
    assert_eq!(first_path, cache_path(b"src", b"r1"));
    assert_eq!(first_path, b("737263/7231"));
    assert_eq!(cache.lookup(b"src", b"r1"), Some(cache_path(b"src", b"r1")));
}

#[test]
fn failed_fetch_is_not_cached() {
    let calls = Cell::new(0usize);
    let fetch = |_: &[u8], _: &[u8], _dest: &[u8]| -> Result<(), Vec<u8>> {
        calls.set(calls.get() + 1);
        Err(b("offline"))
    };
    let mut cache = PackageCache::new();
    match cache.ensure_installed(b"src", b"r1", &fetch) {
        Err(FetchError::TransportFailure { source, revision, cause }) => {
            assert_eq!(source, b("src"));
            assert_eq!(revision, b("r1"));
            assert_eq!(cause, b("offline"));
        }
        _ => panic!("expected TransportFailure"),
    }
    assert_eq!(cache.lookup(b"src", b"r1"), None);
    assert!(cache.ensure_installed(b"src", b"r1", &fetch).is_err());
    assert_eq!(calls.get(), 2);
}

#[test]
fn concurrent_requests_share_one_fetch() {
    let mut cache = PackageCache::new();
    let n = 5;
    let mut fetches = 0;
    let mut waiters = 0;
    for _ in 0..n {
        match cache.begin(b"src", b"r1") {
            Step::Fetch => fetches += 1,
            Step::Wait => waiters += 1,
            Step::Ready(_) => panic!("nothing is installed yet"),
        }
    }
    assert_eq!(fetches, 1);
    assert_eq!(waiters, n - 1);
    let settled = cache.finish(b"src", b"r1", Ok(b("/cache/a"))).ok().unwrap();
    assert_eq!(settled, b("/cache/a"));
    for _ in 0..waiters {
        match cache.begin(b"src", b"r1") {
            Step::Ready(p) => assert_eq!(p, settled),
            _ => panic!("a waiter must find the fetched path"),
        }
    }
}

#[test]
fn concurrent_requests_share_one_failure() {
    let mut cache = PackageCache::new();
    assert!(matches!(cache.begin(b"src", b"r1"), Step::Fetch));
    assert!(matches!(cache.begin(b"src", b"r1"), Step::Wait));
    assert!(matches!(cache.begin(b"other", b"r1"), Step::Fetch));
    assert!(matches!(cache.outcome(b"src", b"r1"), Outcome::InFlight));
    assert!(matches!(cache.outcome(b"never", b"r1"), Outcome::Unknown));
    match cache.finish(b"src", b"r1", Err(b("timeout"))) {
        Err(FetchError::TransportFailure { cause, .. }) => assert_eq!(cause, b("timeout")),
        _ => panic!("expected TransportFailure"),
    }
    for _ in 0..2 {
        match cache.outcome(b"src", b"r1") {
            Outcome::Failed(c) => assert_eq!(c, b("timeout")),
            _ => panic!("a waiter must find the shared failure"),
        }
    }
    assert!(cache.finish(b"other", b"r1", Ok(b("/cache/o"))).is_ok());
    match cache.outcome(b"other", b"r1") {
        Outcome::Installed(p) => assert_eq!(p, b("/cache/o")),
        _ => panic!("expected Installed"),
    }
    assert!(matches!(cache.begin(b"src", b"r1"), Step::Fetch));
}

#[test]
fn batch_partial_failure_names_failed_key() {
    let calls = RefCell::new(Vec::<Vec<u8>>::new());
    let fetch = |s: &[u8], r: &[u8], _dest: &[u8]| -> Result<(), Vec<u8>> {
        calls.borrow_mut().push(s.to_vec());
        if s == b"https://example.org/mid" {
            Err(b("connection reset"))
        } else {
            Ok(())
        }
    };
    let pkgs = vec![pkg("left", &[]), pkg("mid", &[]), pkg("right", &[])];
    let mut cache = PackageCache::new();
    match cache.ensure_installed_all(&pkgs, &fetch) {
        Err(FetchError::BatchFailure(ks)) => {
            assert_eq!(ks.len(), 1);
            assert_eq!(ks[0].source, b("https://example.org/mid"));
            assert_eq!(ks[0].revision, b("v1.0.0"));
        }
        _ => panic!("expected BatchFailure"),
    }
    assert_eq!(calls.borrow().len(), 3);
    assert!(cache.lookup(b"https://example.org/left", b"v1.0.0").is_some());
    assert!(cache.lookup(b"https://example.org/right", b"v1.0.0").is_some());
    assert!(cache.lookup(b"https://example.org/mid", b"v1.0.0").is_none());
    let first_path = cache.ensure_installed(b"https://example.org/left", b"v1.0.0", &fetch).ok().unwrap();
    let third_path = cache.ensure_installed(b"https://example.org/right", b"v1.0.0", &fetch).ok().unwrap();
    assert_eq!(calls.borrow().len(), 3);
    assert_eq!(first_path, cache_path(b"https://example.org/left", b"v1.0.0"));
    assert_eq!(third_path, cache_path(b"https://example.org/right", b"v1.0.0"));
}

#[test]
fn batch_lists_every_failed_key_once() {
    let fetch = |_: &[u8], _: &[u8], _dest: &[u8]| -> Result<(), Vec<u8>> { Err(b("down")) };
    let mut same = pkg("Q", &[]);
    same.source = b("https://example.org/left");
    let pkgs = vec![pkg("left", &[]), pkg("mid", &[]), same];
    let mut cache = PackageCache::new();
    match cache.ensure_installed_all(&pkgs, &fetch) {
        Err(FetchError::BatchFailure(ks)) => {
            let srcs: Vec<Vec<u8>> = ks.iter().map(|k| k.source.clone()).collect();
            assert_eq!(srcs, vec![b("https://example.org/left"), b("https://example.org/mid")]);
        }
        _ => panic!("expected BatchFailure"),
    }
}

#[test]
fn end_to_end_install() {
    let calls = Cell::new(0usize);
    let fetch = |s: &[u8], r: &[u8], _dest: &[u8]| -> Result<(), Vec<u8>> {
        calls.set(calls.get() + 1);
        Ok(())
    };
    let mut cache = PackageCache::new();
    let m = install(&mut cache, b"A src-a rev-a : B\nB src-b rev-b\n", &vec![b("A")], &fetch).ok().unwrap();
    let mut m = m;
    m.sort();
    assert_eq!(m.len(), 2);
    assert_eq!(m[0].0, b("A"));
    assert_eq!(m[1].0, b("B"));
    assert!(!m[0].1.is_empty() && !m[1].1.is_empty());
    assert_ne!(m[0].1, m[1].1);
    assert_eq!(m[0].1, cache_path(b"src-a", b"rev-a"));
    assert_eq!(m[1].1, cache_path(b"src-b", b"rev-b"));
    assert_eq!(calls.get(), 2);
    let again = install(&mut cache, b"A src-a rev-a : B\nB src-b rev-b\n", &vec![b("A")], &fetch).ok().unwrap();
    assert_eq!(again.len(), 2);
    assert_eq!(calls.get(), 2);
}

#[test]
fn malformed_manifest_never_fetches() {
    let calls = Cell::new(0usize);
    let fetch = |s: &[u8], r: &[u8], _dest: &[u8]| -> Result<(), Vec<u8>> {
        calls.set(calls.get() + 1);
        Ok(())
    };
    let mut cache = PackageCache::new();
    match install(&mut cache, b"A src-a : B\nB src-b rev-b\n", &vec![b("A")], &fetch) {
        Err(InstallError::Manifest(ManifestError::Malformed { line })) => assert_eq!(line, 0),
        _ => panic!("expected Malformed"),
    }
    assert_eq!(calls.get(), 0);
}

#[test]
fn install_reports_resolution_errors() {
    let fetch = |s: &[u8], r: &[u8], _dest: &[u8]| -> Result<(), Vec<u8>> { Ok(()) };
    let mut cache = PackageCache::new();
    match install(&mut cache, b"A s r\n", &vec![b("Nope")], &fetch) {
        Err(InstallError::Resolution(ResolutionError::UnknownRoot(n))) => assert_eq!(n, b("Nope")),
        _ => panic!("expected UnknownRoot"),
    }
    match install(&mut cache, b"A s r : X\n", &vec![b("A")], &fetch) {
        Err(InstallError::Resolution(ResolutionError::UnknownDependency { parent, missing })) => {
            assert_eq!(parent, b("A"));
            assert_eq!(missing, b("X"));
        }
        _ => panic!("expected UnknownDependency"),
    }
}

#[test]
fn cached_run_never_calls_transport() {
    let ok = |s: &[u8], r: &[u8], _dest: &[u8]| -> Result<(), Vec<u8>> { Ok(()) };
    let text = b"A sA rA : B\nB sB rB\n";
    let mut cache = PackageCache::new();
    let mut first = install(&mut cache, text, &vec![b("A")], &ok).ok().unwrap();
    let refuse = |_: &[u8], _: &[u8], _dest: &[u8]| -> Result<(), Vec<u8>> { panic!("no fetch expected") };
    let mut second = install(&mut cache, text, &vec![b("A")], &refuse).ok().unwrap();
    first.sort();
    second.sort();
    assert_eq!(first, second);
    let empty = install(&mut cache, b"A sA rA\n", &vec![], &refuse).ok().unwrap();
    assert!(empty.is_empty());
    assert!(install(&mut cache, b"A sA\n", &vec![b("A")], &refuse).is_err());
    assert!(install(&mut cache, b"A sA rA\n", &vec![b("Q")], &refuse).is_err());
}

#[test]
fn retry_after_partial_failure_fetches_only_the_failed_key() {
    let text = b"A sA rA : B C\nB sB rB\nC sC rC\n";
    let flaky = |s: &[u8], r: &[u8], _dest: &[u8]| -> Result<(), Vec<u8>> {
        if s == b"sB" { Err(b("unreachable host")) } else { Ok(()) }
    };
    let mut cache = PackageCache::new();
    match install(&mut cache, text, &vec![b("A")], &flaky) {
        Err(InstallError::Fetch(FetchError::BatchFailure(ks))) => {
            assert_eq!(ks.len(), 1);
            assert_eq!(ks[0].source, b("sB"));
            assert_eq!(ks[0].revision, b("rB"));
        }
        _ => panic!("expected BatchFailure"),
    }
    let calls = RefCell::new(Vec::<Vec<u8>>::new());
    let counting = |s: &[u8], r: &[u8], _dest: &[u8]| -> Result<(), Vec<u8>> {
        calls.borrow_mut().push(s.to_vec());
        Ok(())
    };
    let m = install(&mut cache, text, &vec![b("A")], &counting).ok().unwrap();
    assert_eq!(m.len(), 3);
    assert_eq!(*calls.borrow(), vec![b("sB")]);
}

#[test]
fn unknown_root_wins_over_dangling_dependency() {
    let ok = |s: &[u8], r: &[u8], _dest: &[u8]| -> Result<(), Vec<u8>> { Ok(()) };
    let mut cache = PackageCache::new();
    match install(&mut cache, b"A s r : X\n", &vec![b("A"), b("Z")], &ok) {
        Err(InstallError::Resolution(ResolutionError::UnknownRoot(n))) => assert_eq!(n, b("Z")),
        _ => panic!("expected UnknownRoot"),
    }
}

#[test]
fn cache_paths_are_hex_and_distinct() {
    assert_eq!(cache_path(b"ab", b"r"), b("6162/72"));
    assert_eq!(cache_path(b"", b""), b("/"));
    assert_ne!(cache_path(b"a", b"bc"), cache_path(b"ab", b"c"));
    assert_eq!(cache_path(b"\xff\x0a", b"z"), b("ff0a/7a"));
}

#[test]
fn roots_are_the_words_of_every_line() {
    assert_eq!(parse_roots(b"base  json\n\nmatchers\n"), vec![b("base"), b("json"), b("matchers")]);
    assert!(parse_roots(b"").is_empty());
}

#[test]
fn transport_is_handed_the_cache_path() {
    let seen = RefCell::new(Vec::<Vec<u8>>::new());
    let fetch = |_: &[u8], _: &[u8], dest: &[u8]| -> Result<(), Vec<u8>> {
        seen.borrow_mut().push(dest.to_vec());
        Ok(())
    };
    let mut cache = PackageCache::new();
    let path = cache.ensure_installed(b"ab", b"r", &fetch).ok().unwrap();
    assert_eq!(*seen.borrow(), vec![b("6162/72")]);
    assert_eq!(path, b("6162/72"));
}
