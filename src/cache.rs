//! The package cache: one entry per `(source, revision)` key, filled at most
//! once, with at most one fetch in flight per key. Requests for a key that is
//! being fetched wait for that fetch and then share its outcome.
use vstd::prelude::*;
use crate::bytes::{bytes_eq, copy_bytes};
use crate::layout::{cache_path, key_path};
use crate::package::{packages_view, Package, PackageSpec};

verus! {

/// A cache key: a source locator and a pinned revision.
pub type KeySpec = (Seq<u8>, Seq<u8>);

/// The key of a source locator and a revision.
pub struct CacheKey {
    pub source: Vec<u8>,
    pub revision: Vec<u8>,
}

impl View for CacheKey {
    type V = KeySpec;

    open spec fn view(&self) -> KeySpec {
        (self.source@, self.revision@)
    }
}

/// The local path where the sources of one key were installed.
pub struct CacheEntry {
    pub key: CacheKey,
    pub path: Vec<u8>,
}

/// What a requester of a key is to do next.
pub enum Step {
    /// The key is installed at this path: nothing is fetched.
    Ready(Vec<u8>),
    /// Another requester is fetching the key: wait for its outcome.
    Wait,
    /// This requester fetches the key and reports the outcome with `finish`.
    Fetch,
}

/// The mathematical value of a [`Step`].
pub enum StepSpec {
    Ready(Seq<u8>),
    Wait,
    Fetch,
}

impl View for Step {
    type V = StepSpec;

    open spec fn view(&self) -> StepSpec {
        match self {
            Step::Ready(p) => StepSpec::Ready(p@),
            Step::Wait => StepSpec::Wait,
            Step::Fetch => StepSpec::Fetch,
        }
    }
}

/// The answer to a request for `key`, given the installed keys and the keys
/// in flight.
pub open spec fn answer(installed: Map<KeySpec, Seq<u8>>, in_flight: Set<KeySpec>, key: KeySpec) -> StepSpec {
    if installed.dom().contains(key) {
        StepSpec::Ready(installed[key])
    } else if in_flight.contains(key) {
        StepSpec::Wait
    } else {
        StepSpec::Fetch
    }
}

/// The keys in flight after a request for `key` that was answered `a`.
pub open spec fn flights_after(in_flight: Set<KeySpec>, key: KeySpec, a: StepSpec) -> Set<KeySpec> {
    if a is Fetch {
        in_flight.insert(key)
    } else {
        in_flight
    }
}

/// The keys in flight after `n` requests for `key`, no fetch finishing.
pub open spec fn flights_after_requests(
    installed: Map<KeySpec, Seq<u8>>,
    in_flight: Set<KeySpec>,
    key: KeySpec,
    n: nat,
) -> Set<KeySpec>
    decreases n,
{
    if n == 0 {
        in_flight
    } else {
        let f = flights_after_requests(installed, in_flight, key, (n - 1) as nat);
        flights_after(f, key, answer(installed, f, key))
    }
}

/// How many of `n` requests for `key`, no fetch finishing, are answered
/// with a fetch.
pub open spec fn fetches_among_requests(
    installed: Map<KeySpec, Seq<u8>>,
    in_flight: Set<KeySpec>,
    key: KeySpec,
    n: nat,
) -> nat
    decreases n,
{
    if n == 0 {
        0
    } else {
        let f = flights_after_requests(installed, in_flight, key, (n - 1) as nat);
        fetches_among_requests(installed, in_flight, key, (n - 1) as nat) + if answer(installed, f, key) is Fetch {
            1nat
        } else {
            0nat
        }
    }
}

/// Why sources could not be installed.
pub enum FetchError {
    /// The transport failed to fetch one key.
    TransportFailure { source: Vec<u8>, revision: Vec<u8>, cause: Vec<u8> },
    /// Fetches of a batch failed: every failed key, each once.
    BatchFailure(Vec<CacheKey>),
}

/// `path` is the cache path of `key`, and `fetch`, asked to put the sources
/// of `key` there, may succeed.
pub open spec fn fetch_ok<F: Fn(&[u8], &[u8], &[u8]) -> Result<(), Vec<u8>>>(fetch: F, key: KeySpec, path: Seq<u8>) -> bool {
    path == key_path(key.0, key.1) && exists|s: &[u8], v: &[u8], d: &[u8], o: Result<(), Vec<u8>>|
        s@ == key.0 && v@ == key.1 && d@ == path && o is Ok && #[trigger] fetch.ensures((s, v, d), o)
}

/// `fetch`, asked to put the sources of `key` at its cache path, may fail.
pub open spec fn fetch_err<F: Fn(&[u8], &[u8], &[u8]) -> Result<(), Vec<u8>>>(fetch: F, key: KeySpec) -> bool {
    exists|s: &[u8], v: &[u8], d: &[u8], o: Vec<u8>|
        s@ == key.0 && v@ == key.1 && d@ == key_path(key.0, key.1) && #[trigger] fetch.ensures((s, v, d), Err(o))
}

/// `fetch` may be asked for every key that `installed` lacks.
pub open spec fn fetch_callable<F: Fn(&[u8], &[u8], &[u8]) -> Result<(), Vec<u8>>>(fetch: F, installed: Map<KeySpec, Seq<u8>>) -> bool {
    forall|s: &[u8], v: &[u8], d: &[u8]| !installed.dom().contains((s@, v@)) ==> #[trigger] fetch.requires((s, v, d))
}

/// The cache key of a package.
pub open spec fn package_key(p: PackageSpec) -> KeySpec {
    (p.source, p.revision)
}

/// Every key that `after` holds and `before` lacks is the key of a package
/// of `pkgs`.
pub open spec fn new_keys_of(before: Map<KeySpec, Seq<u8>>, after: Map<KeySpec, Seq<u8>>, pkgs: Seq<PackageSpec>) -> bool {
    forall|k: KeySpec| #[trigger] after.dom().contains(k) && !before.dom().contains(k)
        ==> exists|j: int| 0 <= j < pkgs.len() && package_key(#[trigger] pkgs[j]) == k
}

/// The values of a list of keys.
pub open spec fn key_list(ks: Seq<CacheKey>) -> Seq<KeySpec> {
    ks.map_values(|k: CacheKey| k@)
}

/// `after` is the log `before` followed by one failure of each key of `ks`,
/// in order.
pub open spec fn log_extends(before: Seq<(KeySpec, Seq<u8>)>, after: Seq<(KeySpec, Seq<u8>)>, ks: Seq<KeySpec>) -> bool {
    &&& after.len() == before.len() + ks.len()
    &&& after.subrange(0, before.len() as int) == before
    &&& forall|i: int| 0 <= i < ks.len() ==> after[before.len() + i].0 == #[trigger] ks[i]
}

proof fn lemma_log_push(
    before: Seq<(KeySpec, Seq<u8>)>,
    log: Seq<(KeySpec, Seq<u8>)>,
    ks: Seq<KeySpec>,
    key: KeySpec,
    cause: Seq<u8>,
)
    requires
        log_extends(before, log, ks),
    ensures
        log_extends(before, log.push((key, cause)), ks.push(key)),
{
    let after = log.push((key, cause));
    assert(after.subrange(0, before.len() as int) =~= log.subrange(0, before.len() as int));
    assert forall|i: int| 0 <= i < ks.len() + 1 implies after[before.len() + i].0 == #[trigger] ks.push(key)[i] by {
        if i < ks.len() {
            assert(ks.push(key)[i] == ks[i]);
        }
    }
}

/// The keys of a list of keys.
pub open spec fn key_set(ks: Seq<CacheKey>) -> Set<KeySpec> {
    Set::new(|k: KeySpec| exists|i: int| 0 <= i < ks.len() && (#[trigger] ks[i])@ == k)
}

/// The keys of the packages `pkgs` that `installed` lacks.
pub open spec fn missing_keys(pkgs: Seq<PackageSpec>, installed: Map<KeySpec, Seq<u8>>) -> Set<KeySpec> {
    Set::new(
        |k: KeySpec|
            exists|j: int| 0 <= j < pkgs.len() && package_key(#[trigger] pkgs[j]) == k && !installed.dom().contains(k),
    )
}

/// `m` maps the name of each package of `pkgs`, in order, to its installed path.
pub open spec fn maps_to_installed(
    pkgs: Seq<PackageSpec>,
    installed: Map<KeySpec, Seq<u8>>,
    m: Seq<(Vec<u8>, Vec<u8>)>,
) -> bool {
    m.len() == pkgs.len() && forall|j: int|
        0 <= j < pkgs.len() ==> (#[trigger] m[j]).0@ == pkgs[j].name && installed.dom().contains(
            package_key(pkgs[j]),
        ) && m[j].1@ == installed[package_key(pkgs[j])]
}

proof fn lemma_extend_mapping(
    pv: Seq<PackageSpec>,
    k: int,
    before: Map<KeySpec, Seq<u8>>,
    after: Map<KeySpec, Seq<u8>>,
    prev: Seq<(Vec<u8>, Vec<u8>)>,
    m: Seq<(Vec<u8>, Vec<u8>)>,
)
    requires
        0 <= k < pv.len(),
        maps_to_installed(pv.subrange(0, k), before, prev),
        before.submap_of(after),
        m.len() == prev.len() + 1,
        forall|j: int| 0 <= j < prev.len() ==> m[j] == prev[j],
        m[k].0@ == pv[k].name,
        after.dom().contains(package_key(pv[k])),
        m[k].1@ == after[package_key(pv[k])],
    ensures
        maps_to_installed(pv.subrange(0, k + 1), after, m),
{
    assert forall|j: int| 0 <= j < k + 1 implies (#[trigger] m[j]).0@ == pv.subrange(0, k + 1)[j].name
        && after.dom().contains(package_key(pv.subrange(0, k + 1)[j]))
        && m[j].1@ == after[package_key(pv.subrange(0, k + 1)[j])] by {
        if j < k {
            assert(m[j] == prev[j]);
            assert(pv.subrange(0, k + 1)[j] == pv.subrange(0, k)[j]);
            assert(before.dom().contains(package_key(pv.subrange(0, k)[j])));
        } else {
            assert(pv.subrange(0, k + 1)[j] == pv[k]);
        }
    }
}

proof fn lemma_missing_step(
    pv: Seq<PackageSpec>,
    k: int,
    before: Map<KeySpec, Seq<u8>>,
    after: Map<KeySpec, Seq<u8>>,
    prev: Set<KeySpec>,
    now: Set<KeySpec>,
)
    requires
        0 <= k < pv.len(),
        prev == missing_keys(pv.subrange(0, k), before),
        before.submap_of(after),
        forall|x: KeySpec| prev.contains(x) ==> !after.dom().contains(x),
        now == if after.dom().contains(package_key(pv[k])) {
            prev
        } else {
            prev.insert(package_key(pv[k]))
        },
    ensures
        now == missing_keys(pv.subrange(0, k + 1), after),
{
    let pk = package_key(pv[k]);
    assert forall|x: KeySpec| #[trigger] now.contains(x) == missing_keys(pv.subrange(0, k + 1), after).contains(x) by {
        if prev.contains(x) {
            let j = choose|j: int| 0 <= j < k && package_key(#[trigger] pv.subrange(0, k)[j]) == x && !before.dom().contains(x);
            assert(pv.subrange(0, k + 1)[j] == pv.subrange(0, k)[j]);
        }
        if x == pk && !after.dom().contains(x) {
            assert(pv.subrange(0, k + 1)[k] == pv[k]);
        }
        if missing_keys(pv.subrange(0, k + 1), after).contains(x) {
            let j = choose|j: int| 0 <= j < k + 1 && package_key(#[trigger] pv.subrange(0, k + 1)[j]) == x && !after.dom().contains(x);
            if j < k {
                assert(pv.subrange(0, k + 1)[j] == pv.subrange(0, k)[j]);
                assert(!before.dom().contains(x));
                assert(missing_keys(pv.subrange(0, k), before).contains(x));
            }
        }
    }
    assert(now =~= missing_keys(pv.subrange(0, k + 1), after));
}

/// The paths recorded in a list of entries, by key.
pub open spec fn entry_map(es: Seq<CacheEntry>) -> Map<KeySpec, Seq<u8>> {
    Map::new(
        |k: KeySpec| exists|i: int| 0 <= i < es.len() && (#[trigger] es[i]).key@ == k,
        |k: KeySpec| es[choose|i: int| 0 <= i < es.len() && (#[trigger] es[i]).key@ == k].path@,
    )
}

proof fn lemma_entry_map_at(es: Seq<CacheEntry>, i: int)
    requires
        0 <= i < es.len(),
        forall|i1: int, j1: int|
            0 <= i1 < es.len() && 0 <= j1 < es.len() && i1 != j1 ==> #[trigger] es[i1].key@ != #[trigger] es[j1].key@,
    ensures
        entry_map(es).dom().contains(es[i].key@),
        entry_map(es)[es[i].key@] == es[i].path@,
{
    let k = es[i].key@;
    assert(entry_map(es).dom().contains(k));
    let j = choose|j: int| 0 <= j < es.len() && (#[trigger] es[j]).key@ == k;
    assert(i == j);
}

/// The keys of a list of flights.
pub open spec fn flight_set(fs: Seq<CacheKey>) -> Set<KeySpec> {
    Set::new(|k: KeySpec| exists|i: int| 0 <= i < fs.len() && (#[trigger] fs[i])@ == k)
}

/// The cause of the latest failed fetch of `k` in a log of failures.
pub open spec fn last_failure(fs: Seq<(KeySpec, Seq<u8>)>, k: KeySpec) -> Option<Seq<u8>>
    decreases fs.len(),
{
    if fs.len() == 0 {
        None
    } else if fs.last().0 == k {
        Some(fs.last().1)
    } else {
        last_failure(fs.drop_last(), k)
    }
}

/// What the requesters of a key that were told to wait find once woken.
pub enum Outcome {
    /// The key is installed at this path.
    Installed(Vec<u8>),
    /// The key is being fetched.
    InFlight,
    /// The latest fetch of the key failed with this cause.
    Failed(Vec<u8>),
    /// The key was never fetched.
    Unknown,
}

/// The cache of installed sources and the fetches in flight.
pub struct PackageCache {
    entries: Vec<CacheEntry>,
    flights: Vec<CacheKey>,
    failures: Vec<(CacheKey, Vec<u8>)>,
}

impl PackageCache {
    /// The installed keys and their paths.
    pub closed spec fn installed(&self) -> Map<KeySpec, Seq<u8>> {
        entry_map(self.entries@)
    }

    /// The failed fetches, oldest first: each key and cause.
    pub closed spec fn failure_log(&self) -> Seq<(KeySpec, Seq<u8>)> {
        self.failures@.map_values(|f: (CacheKey, Vec<u8>)| (f.0@, f.1@))
    }

    /// The cause of the latest failed fetch of `k`, if any.
    pub open spec fn failure(&self, k: KeySpec) -> Option<Seq<u8>> {
        last_failure(self.failure_log(), k)
    }

    /// The keys being fetched.
    pub closed spec fn in_flight(&self) -> Set<KeySpec> {
        flight_set(self.flights@)
    }

    /// Each key is recorded once, and no key is both installed and in flight.
    pub closed spec fn wf(&self) -> bool {
        &&& forall|i: int, j: int|
            0 <= i < self.entries@.len() && 0 <= j < self.entries@.len() && i != j
                ==> #[trigger] self.entries@[i].key@ != #[trigger] self.entries@[j].key@
        &&& forall|i: int, j: int|
            0 <= i < self.flights@.len() && 0 <= j < self.flights@.len() && i != j
                ==> #[trigger] self.flights@[i]@ != #[trigger] self.flights@[j]@
        &&& forall|k: KeySpec| #[trigger] self.installed().dom().contains(k) ==> !self.in_flight().contains(k)
    }

    /// An empty cache.
    pub fn new() -> (r: PackageCache)
        ensures
            r.wf(),
            r.installed() == Map::<KeySpec, Seq<u8>>::empty(),
            r.in_flight() == Set::<KeySpec>::empty(),
            r.failure_log() == Seq::<(KeySpec, Seq<u8>)>::empty(),
    {
        let r = PackageCache { entries: Vec::new(), flights: Vec::new(), failures: Vec::new() };
        assert(r.failure_log() =~= Seq::<(KeySpec, Seq<u8>)>::empty());
        assert(r.installed() =~= Map::<KeySpec, Seq<u8>>::empty());
        assert(r.in_flight() =~= Set::<KeySpec>::empty());
        r
    }

    proof fn lemma_entry(&self, i: int)
        requires
            self.wf(),
            0 <= i < self.entries@.len(),
        ensures
            self.installed().dom().contains(self.entries@[i].key@),
            self.installed()[self.entries@[i].key@] == self.entries@[i].path@,
    {
        lemma_entry_map_at(self.entries@, i);
    }

    fn find_entry(&self, source: &[u8], revision: &[u8]) -> (r: Option<usize>)
        requires
            self.wf(),
        ensures
            match r {
                Some(i) => i < self.entries@.len() && self.entries@[i as int].key@ == (source@, revision@),
                None => !self.installed().dom().contains((source@, revision@)),
            },
    {
        let mut i: usize = 0;
        while i < self.entries.len()
            invariant
                i <= self.entries@.len(),
                forall|j: int| 0 <= j < i ==> (#[trigger] self.entries@[j]).key@ != (source@, revision@),
            decreases self.entries@.len() - i,
        {
            let e = &self.entries[i];
            if bytes_eq(e.key.source.as_slice(), source) && bytes_eq(e.key.revision.as_slice(), revision) {
                return Some(i);
            }
            i += 1;
        }
        None
    }

    fn find_flight(&self, source: &[u8], revision: &[u8]) -> (r: Option<usize>)
        ensures
            match r {
                Some(i) => i < self.flights@.len() && self.flights@[i as int]@ == (source@, revision@),
                None => !self.in_flight().contains((source@, revision@)),
            },
    {
        let mut i: usize = 0;
        while i < self.flights.len()
            invariant
                i <= self.flights@.len(),
                forall|j: int| 0 <= j < i ==> (#[trigger] self.flights@[j])@ != (source@, revision@),
            decreases self.flights@.len() - i,
        {
            let f = &self.flights[i];
            if bytes_eq(f.source.as_slice(), source) && bytes_eq(f.revision.as_slice(), revision) {
                return Some(i);
            }
            i += 1;
        }
        None
    }

    /// The path where a key is installed, if it is.
    pub fn lookup(&self, source: &[u8], revision: &[u8]) -> (r: Option<Vec<u8>>)
        requires
            self.wf(),
        ensures
            match r {
                Some(p) => self.installed().dom().contains((source@, revision@))
                    && self.installed()[(source@, revision@)] == p@,
                None => !self.installed().dom().contains((source@, revision@)),
            },
    {
        match self.find_entry(source, revision) {
            Some(i) => {
                proof {
                    self.lemma_entry(i as int);
                }
                Some(copy_bytes(self.entries[i].path.as_slice()))
            },
            None => None,
        }
    }

    /// Asks for a key: it is installed (nothing to fetch), another requester
    /// is fetching it (wait), or this requester is to fetch it, and the key
    /// is then in flight.
    pub fn begin(&mut self, source: &[u8], revision: &[u8]) -> (r: Step)
        requires
            old(self).wf(),
        ensures
            final(self).wf(),
            final(self).installed() == old(self).installed(),
            final(self).failure_log() == old(self).failure_log(),
            r@ == answer(old(self).installed(), old(self).in_flight(), (source@, revision@)),
            final(self).in_flight() == flights_after(old(self).in_flight(), (source@, revision@), r@),
    {
        if let Some(p) = self.lookup(source, revision) {
            return Step::Ready(p);
        }
        if let Some(_) = self.find_flight(source, revision) {
            return Step::Wait;
        }
        let ghost fs = self.flights@;
        let key = CacheKey { source: copy_bytes(source), revision: copy_bytes(revision) };
        self.flights.push(key);
        proof {
            let k = (source@, revision@);
            let fs2 = self.flights@;
            assert(fs2[fs.len() as int]@ == k);
            assert forall|x: KeySpec| #[trigger] flight_set(fs2).contains(x) == flight_set(fs).insert(k).contains(x) by {
                if flight_set(fs).contains(x) {
                    let i = choose|i: int| 0 <= i < fs.len() && (#[trigger] fs[i])@ == x;
                    assert(fs2[i] == fs[i]);
                }
                if flight_set(fs2).contains(x) {
                    let i = choose|i: int| 0 <= i < fs2.len() && (#[trigger] fs2[i])@ == x;
                    if i < fs.len() {
                        assert(fs2[i] == fs[i]);
                    }
                }
            }
            assert(flight_set(fs2) =~= flight_set(fs).insert(k));
            assert forall|i: int, j: int|
                0 <= i < fs2.len() && 0 <= j < fs2.len() && i != j implies #[trigger] fs2[i]@ != #[trigger] fs2[j]@ by {
                if i < fs.len() && j < fs.len() {
                    assert(fs2[i] == fs[i] && fs2[j] == fs[j]);
                } else if i < fs.len() {
                    assert(fs2[i] == fs[i]);
                    assert(flight_set(fs).contains(fs[i]@));
                } else if j < fs.len() {
                    assert(fs2[j] == fs[j]);
                    assert(flight_set(fs).contains(fs[j]@));
                }
            }
        }
        Step::Fetch
    }

    /// Reports the outcome of the fetch of a key in flight: the key leaves
    /// the flights, and is installed at the fetched path where the fetch
    /// succeeded; a failure is appended to the failure log, where requesters
    /// that were told to wait find it through `outcome`.
    pub fn finish(&mut self, source: &[u8], revision: &[u8], outcome: Result<Vec<u8>, Vec<u8>>) -> (r: Result<Vec<u8>, FetchError>)
        requires
            old(self).wf(),
            old(self).in_flight().contains((source@, revision@)),
        ensures
            final(self).wf(),
            final(self).in_flight() == old(self).in_flight().remove((source@, revision@)),
            match outcome {
                Ok(p) => final(self).installed() == old(self).installed().insert((source@, revision@), p@)
                    && final(self).failure_log() == old(self).failure_log() && (r matches Ok(q) && q@ == p@),
                Err(cause) => final(self).installed() == old(self).installed()
                    && final(self).failure_log() == old(self).failure_log().push(((source@, revision@), cause@))
                    && (r matches Err(FetchError::TransportFailure { source: s, revision: v, cause: m })
                        && s@ == source@ && v@ == revision@ && m@ == cause@),
            },
    {
        let k: Ghost<KeySpec> = Ghost((source@, revision@));
        assert(!self.installed().dom().contains(k@));
        let idx = match self.find_flight(source, revision) {
            Some(i) => i,
            None => {
                assert(false);
                0
            },
        };
        let ghost fs = self.flights@;
        let _ = self.flights.remove(idx);
        proof {
            let fs2 = self.flights@;
            assert forall|x: KeySpec| #[trigger] flight_set(fs2).contains(x) == flight_set(fs).remove(k@).contains(x) by {
                if flight_set(fs).contains(x) && x != k@ {
                    let i = choose|i: int| 0 <= i < fs.len() && (#[trigger] fs[i])@ == x;
                    if i < idx {
                        assert(fs2[i] == fs[i]);
                    } else {
                        assert(i != idx);
                        assert(fs2[i - 1] == fs[i]);
                    }
                }
                if flight_set(fs2).contains(x) {
                    let i = choose|i: int| 0 <= i < fs2.len() && (#[trigger] fs2[i])@ == x;
                    if i < idx {
                        assert(fs2[i] == fs[i]);
                    } else {
                        assert(fs2[i] == fs[i + 1]);
                    }
                }
            }
            assert(flight_set(fs2) =~= flight_set(fs).remove(k@));
            assert forall|i: int, j: int|
                0 <= i < fs2.len() && 0 <= j < fs2.len() && i != j implies #[trigger] fs2[i]@ != #[trigger] fs2[j]@ by {
                let i1 = if i < idx { i } else { i + 1 };
                let j1 = if j < idx { j } else { j + 1 };
                assert(fs2[i] == fs[i1] && fs2[j] == fs[j1]);
            }
        }
        match outcome {
            Ok(path) => {
                let ghost es = self.entries@;
                let ghost old_map = self.installed();
                let r = copy_bytes(path.as_slice());
                let key = CacheKey { source: copy_bytes(source), revision: copy_bytes(revision) };
                self.entries.push(CacheEntry { key, path });
                proof {
                    let es2 = self.entries@;
                    assert(es2[es.len() as int].key@ == k@);
                    assert forall|i: int, j: int|
                        0 <= i < es2.len() && 0 <= j < es2.len() && i != j implies #[trigger] es2[i].key@ != #[trigger] es2[j].key@ by {
                        if i < es.len() && j < es.len() {
                            assert(es2[i] == es[i] && es2[j] == es[j]);
                        } else if i < es.len() {
                            assert(es2[i] == es[i]);
                            assert(entry_map(es).dom().contains(es[i].key@));
                        } else if j < es.len() {
                            assert(es2[j] == es[j]);
                            assert(entry_map(es).dom().contains(es[j].key@));
                        }
                    }
                    assert forall|x: KeySpec| #[trigger] entry_map(es2).dom().contains(x) == old_map.insert(k@, r@).dom().contains(x) by {
                        if entry_map(es).dom().contains(x) {
                            let i = choose|i: int| 0 <= i < es.len() && (#[trigger] es[i]).key@ == x;
                            assert(es2[i] == es[i]);
                        }
                        if entry_map(es2).dom().contains(x) {
                            let i = choose|i: int| 0 <= i < es2.len() && (#[trigger] es2[i]).key@ == x;
                            if i < es.len() {
                                assert(es2[i] == es[i]);
                            }
                        }
                    }
                    assert forall|x: KeySpec| #[trigger] entry_map(es2).dom().contains(x) implies entry_map(es2)[x] == old_map.insert(k@, r@)[x] by {
                        let i = choose|i: int| 0 <= i < es2.len() && (#[trigger] es2[i]).key@ == x;
                        lemma_entry_map_at(es2, i);
                        if i < es.len() {
                            assert(es2[i] == es[i]);
                            lemma_entry_map_at(es, i);
                        }
                    }
                    assert(entry_map(es2) =~= old_map.insert(k@, r@));
                }
                Ok(r)
            },
            Err(cause) => {
                let key = CacheKey { source: copy_bytes(source), revision: copy_bytes(revision) };
                let ghost log = self.failure_log();
                self.failures.push((key, copy_bytes(cause.as_slice())));
                assert(self.failure_log() =~= log.push(((source@, revision@), cause@)));
                Err(FetchError::TransportFailure { source: copy_bytes(source), revision: copy_bytes(revision), cause })
            },
        }
    }

    /// What a requester that was told to wait for a key finds: the path
    /// where the fetch installed it, or the cause with which the latest
    /// fetch failed, or that a fetch is still in flight.
    pub fn outcome(&self, source: &[u8], revision: &[u8]) -> (r: Outcome)
        requires
            self.wf(),
        ensures
            match r {
                Outcome::Installed(p) => self.installed().dom().contains((source@, revision@))
                    && self.installed()[(source@, revision@)] == p@,
                Outcome::InFlight => !self.installed().dom().contains((source@, revision@))
                    && self.in_flight().contains((source@, revision@)),
                Outcome::Failed(c) => !self.installed().dom().contains((source@, revision@))
                    && !self.in_flight().contains((source@, revision@))
                    && self.failure((source@, revision@)) == Some(c@),
                Outcome::Unknown => !self.installed().dom().contains((source@, revision@))
                    && !self.in_flight().contains((source@, revision@))
                    && self.failure((source@, revision@)) is None,
            },
    {
        if let Some(p) = self.lookup(source, revision) {
            return Outcome::Installed(p);
        }
        if let Some(_) = self.find_flight(source, revision) {
            return Outcome::InFlight;
        }
        let ghost log = self.failure_log();
        let mut i: usize = self.failures.len();
        assert(log.subrange(0, i as int) =~= log);
        while i > 0
            invariant
                i <= self.failures@.len(),
                log.len() == self.failures@.len(),
                log == self.failure_log(),
                !self.installed().dom().contains((source@, revision@)),
                !self.in_flight().contains((source@, revision@)),
                last_failure(log, (source@, revision@)) == last_failure(log.subrange(0, i as int), (source@, revision@)),
            decreases i,
        {
            let f = &self.failures[i - 1];
            assert(log.subrange(0, i as int).last() == (f.0@, f.1@));
            assert(log.subrange(0, i as int).drop_last() =~= log.subrange(0, i - 1));
            let ghost sub = log.subrange(0, i as int);
            let same_source = bytes_eq(f.0.source.as_slice(), source);
            let same_revision = bytes_eq(f.0.revision.as_slice(), revision);
            if same_source && same_revision {
                assert(last_failure(sub, (source@, revision@)) == Some(f.1@));
                return Outcome::Failed(copy_bytes(f.1.as_slice()));
            }
            assert(sub.last().0 != (source@, revision@));
            assert(last_failure(sub, (source@, revision@)) == last_failure(sub.drop_last(), (source@, revision@)));
            i -= 1;
        }
        Outcome::Unknown
    }

    /// Installs the sources of one key: the cached path where the key is
    /// installed, without calling `fetch`; otherwise one call of `fetch`,
    /// asked to put the sources at the key's `cache_path`, whose outcome is
    /// recorded as `finish` does.
    pub fn ensure_installed<F>(&mut self, source: &[u8], revision: &[u8], fetch: &F) -> (r: Result<Vec<u8>, FetchError>) where
        F: Fn(&[u8], &[u8], &[u8]) -> Result<(), Vec<u8>>,
        requires
            old(self).wf(),
            !old(self).in_flight().contains((source@, revision@)),
            !old(self).installed().dom().contains((source@, revision@)) ==> forall|d: &[u8]| #[trigger] fetch.requires((source, revision, d)),
        ensures
            final(self).wf(),
            final(self).in_flight() == old(self).in_flight(),
            old(self).installed().dom().contains((source@, revision@)) ==> final(self).installed() == old(self).installed()
                && final(self).failure_log() == old(self).failure_log()
                && (r matches Ok(p) && p@ == old(self).installed()[(source@, revision@)]),
            !old(self).installed().dom().contains((source@, revision@)) ==> match r {
                Ok(p) => final(self).installed() == old(self).installed().insert((source@, revision@), p@)
                    && final(self).failure_log() == old(self).failure_log()
                    && fetch_ok(*fetch, (source@, revision@), p@),
                Err(FetchError::TransportFailure { source: s, revision: v, cause }) => final(self).installed()
                    == old(self).installed() && s@ == source@ && v@ == revision@ && fetch_err(*fetch, (source@, revision@))
                    && final(self).failure_log() == old(self).failure_log().push(((source@, revision@), cause@))
                    && exists|d: &[u8], o: Vec<u8>| o@ == cause@ && #[trigger] fetch.ensures((source, revision, d), Err(o)),
                Err(_) => false,
            },
    {
        match self.begin(source, revision) {
            Step::Ready(p) => Ok(p),
            Step::Wait => {
                assert(false);
                Err(FetchError::BatchFailure(Vec::new()))
            },
            Step::Fetch => {
                let dest = cache_path(source, revision);
                let d = dest.as_slice();
                let fetched = fetch(source, revision, d);
                let ghost o = fetched;
                proof {
                    match o {
                        Ok(_) => {
                            assert(fetch.ensures((source, revision, d), o));
                            assert(fetch_ok(*fetch, (source@, revision@), dest@));
                        },
                        Err(c) => {
                            assert(fetch.ensures((source, revision, d), Err(c)));
                            assert(fetch_err(*fetch, (source@, revision@)));
                        },
                    }
                }
                let outcome = match fetched {
                    Ok(()) => Ok(dest),
                    Err(c) => Err(c),
                };
                let r = self.finish(source, revision, outcome);
                assert(self.in_flight() =~= old(self).in_flight());
                r
            },
        }
    }

    /// Installs the sources of every package of `pkgs`, each key fetched at
    /// most once. Keys that were installed stay installed, and every key
    /// fetched with success is installed, whatever the other fetches gave.
    /// Succeeds with each package's name and path, in order, if every key is
    /// then installed; else fails with every key that is not, each once.
    pub fn ensure_installed_all<F>(&mut self, pkgs: &Vec<Package>, fetch: &F) -> (r: Result<Vec<(Vec<u8>, Vec<u8>)>, FetchError>) where
        F: Fn(&[u8], &[u8], &[u8]) -> Result<(), Vec<u8>>,
        requires
            old(self).wf(),
            forall|j: int| 0 <= j < pkgs@.len() ==> !old(self).in_flight().contains(package_key(#[trigger] pkgs@[j]@)),
            fetch_callable(*fetch, old(self).installed()),
        ensures
            final(self).wf(),
            final(self).in_flight() == old(self).in_flight(),
            old(self).installed().submap_of(final(self).installed()),
            forall|k: KeySpec| #[trigger] final(self).installed().dom().contains(k) && !old(self).installed().dom().contains(k)
                ==> exists|j: int| 0 <= j < pkgs@.len() && package_key(#[trigger] pkgs@[j]@) == k,
            forall|k: KeySpec| #[trigger] final(self).installed().dom().contains(k) && !old(self).installed().dom().contains(k)
                ==> fetch_ok(*fetch, k, final(self).installed()[k]),
            match r {
                Ok(m) => missing_keys(packages_view(pkgs@), final(self).installed()).is_empty()
                    && maps_to_installed(packages_view(pkgs@), final(self).installed(), m@)
                    && final(self).failure_log() == old(self).failure_log(),
                Err(FetchError::BatchFailure(ks)) => !missing_keys(packages_view(pkgs@), final(self).installed()).is_empty()
                    && log_extends(old(self).failure_log(), final(self).failure_log(), key_list(ks@))
                    && key_set(ks@) == missing_keys(packages_view(pkgs@), final(self).installed())
                    && (forall|i: int, j: int| 0 <= i < ks@.len() && 0 <= j < ks@.len() && i != j ==> #[trigger] ks@[i]@ != #[trigger] ks@[j]@)
                    && forall|i: int| 0 <= i < ks@.len() ==> fetch_err(*fetch, #[trigger] ks@[i]@),
                Err(_) => false,
            },
    {
        let ghost pv = packages_view(pkgs@);
        let mut failed: Vec<CacheKey> = Vec::new();
        assert(self.failure_log().subrange(0, self.failure_log().len() as int) =~= self.failure_log());
        assert(key_list(failed@) =~= Seq::<KeySpec>::empty());
        let mut out: Vec<(Vec<u8>, Vec<u8>)> = Vec::new();
        let mut k: usize = 0;
        while k < pkgs.len()
            invariant
                pv == packages_view(pkgs@),
                k <= pkgs@.len(),
                self.wf(),
                self.in_flight() == old(self).in_flight(),
                forall|j: int| 0 <= j < pkgs@.len() ==> !old(self).in_flight().contains(package_key(#[trigger] pkgs@[j]@)),
                fetch_callable(*fetch, old(self).installed()),
                forall|i: int| 0 <= i < failed@.len() ==> fetch_err(*fetch, #[trigger] failed@[i]@),
                log_extends(old(self).failure_log(), self.failure_log(), key_list(failed@)),
                forall|x: KeySpec| #[trigger] self.installed().dom().contains(x) && !old(self).installed().dom().contains(x)
                    ==> fetch_ok(*fetch, x, self.installed()[x]),
                old(self).installed().submap_of(self.installed()),
                forall|x: KeySpec| #[trigger] self.installed().dom().contains(x) && !old(self).installed().dom().contains(x)
                    ==> exists|j: int| 0 <= j < pkgs@.len() && package_key(#[trigger] pkgs@[j]@) == x,
                forall|i: int| 0 <= i < failed@.len() ==> !self.installed().dom().contains(#[trigger] failed@[i]@),
                forall|i: int, j: int| 0 <= i < failed@.len() && 0 <= j < failed@.len() && i != j ==> #[trigger] failed@[i]@ != #[trigger] failed@[j]@,
                key_set(failed@) == missing_keys(pv.subrange(0, k as int), self.installed()),
                failed@.len() == 0 ==> maps_to_installed(pv.subrange(0, k as int), self.installed(), out@),
            decreases pkgs@.len() - k,
        {
            let p = &pkgs[k];
            let ghost before = self.installed();
            let ghost pk = package_key(pv[k as int]);
            assert(pv[k as int] == p@);
            let mut already_failed = false;
            let mut i: usize = 0;
            while i < failed.len()
                invariant
                    i <= failed@.len(),
                    already_failed <==> exists|i2: int| 0 <= i2 < i && (#[trigger] failed@[i2])@ == (p.source@, p.revision@),
                decreases failed@.len() - i,
            {
                if bytes_eq(failed[i].source.as_slice(), p.source.as_slice()) && bytes_eq(failed[i].revision.as_slice(), p.revision.as_slice()) {
                    already_failed = true;
                }
                i += 1;
            }
            assert(pv.subrange(0, k + 1) =~= pv.subrange(0, k as int).push(pv[k as int]));
            if !already_failed {
                let ghost log0 = self.failure_log();
                let res = self.ensure_installed(p.source.as_slice(), p.revision.as_slice(), fetch);
                match res {
                    Ok(path) => {
                        let ghost prev_out = out@;
                        out.push((copy_bytes(p.name.as_slice()), path));
                        proof {
                            assert(self.installed().dom().contains(pk));
                            assert forall|x: KeySpec| #[trigger] self.installed().dom().contains(x) && !old(self).installed().dom().contains(x)
                                implies exists|j: int| 0 <= j < pkgs@.len() && package_key(#[trigger] pkgs@[j]@) == x by {
                                if x == pk {
                                    assert(package_key(pkgs@[k as int]@) == x);
                                } else {
                                    assert(before.dom().contains(x));
                                }
                            }
                            assert forall|i2: int| 0 <= i2 < failed@.len() implies !self.installed().dom().contains(#[trigger] failed@[i2]@) by {
                                assert(failed@[i2]@ != pk);
                            }
                            lemma_missing_step(pv, k as int, before, self.installed(), key_set(failed@), key_set(failed@));
                            if failed@.len() == 0 {
                                lemma_extend_mapping(pv, k as int, before, self.installed(), prev_out, out@);
                            }
                        }
                    },
                    Err(e) => {
                        let ghost prev_failed = failed@;
                        failed.push(CacheKey { source: copy_bytes(p.source.as_slice()), revision: copy_bytes(p.revision.as_slice()) });
                        proof {
                            if let FetchError::TransportFailure { cause, .. } = e {
                                lemma_log_push(old(self).failure_log(), log0, key_list(prev_failed), pk, cause@);
                            }
                            assert(key_list(failed@) =~= key_list(prev_failed).push(pk));
                            assert(self.installed() == before);
                            assert(failed@[prev_failed.len() as int]@ == pk);
                            assert forall|i2: int| 0 <= i2 < failed@.len() implies !self.installed().dom().contains(#[trigger] failed@[i2]@) by {
                                if i2 < prev_failed.len() {
                                    assert(failed@[i2] == prev_failed[i2]);
                                }
                            }
                            assert forall|i2: int, j: int| 0 <= i2 < failed@.len() && 0 <= j < failed@.len() && i2 != j implies #[trigger] failed@[i2]@ != #[trigger] failed@[j]@ by {
                                if i2 < prev_failed.len() {
                                    assert(failed@[i2] == prev_failed[i2]);
                                }
                                if j < prev_failed.len() {
                                    assert(failed@[j] == prev_failed[j]);
                                }
                            }
                            assert(key_set(failed@) =~= key_set(prev_failed).insert(pk)) by {
                                assert forall|x: KeySpec| #[trigger] key_set(failed@).contains(x) == key_set(prev_failed).insert(pk).contains(x) by {
                                    if key_set(failed@).contains(x) {
                                        let i2 = choose|i2: int| 0 <= i2 < failed@.len() && (#[trigger] failed@[i2])@ == x;
                                        if i2 < prev_failed.len() {
                                            assert(failed@[i2] == prev_failed[i2]);
                                        }
                                    }
                                    if key_set(prev_failed).contains(x) {
                                        let i2 = choose|i2: int| 0 <= i2 < prev_failed.len() && (#[trigger] prev_failed[i2])@ == x;
                                        assert(failed@[i2] == prev_failed[i2]);
                                    }
                                }
                            }
                            assert forall|x: KeySpec| key_set(prev_failed).contains(x) implies !self.installed().dom().contains(x) by {
                                let i2 = choose|i2: int| 0 <= i2 < prev_failed.len() && (#[trigger] prev_failed[i2])@ == x;
                                assert(failed@[i2] == prev_failed[i2]);
                            }
                            lemma_missing_step(pv, k as int, before, self.installed(), key_set(prev_failed), key_set(failed@));
                        }
                    },
                }
            } else {
                proof {
                    let i2 = choose|i2: int| 0 <= i2 < failed@.len() && (#[trigger] failed@[i2])@ == (p.source@, p.revision@);
                    assert(!self.installed().dom().contains(pk));
                    assert(key_set(failed@).contains(pk));
                    assert(key_set(failed@).insert(pk) =~= key_set(failed@));
                    lemma_missing_step(pv, k as int, self.installed(), self.installed(), key_set(failed@), key_set(failed@));
                }
            }
            k += 1;
        }
        assert(pv.subrange(0, k as int) =~= pv);
        if failed.len() == 0 {
            assert(key_set(failed@) =~= Set::<KeySpec>::empty());
            Ok(out)
        } else {
            assert(key_set(failed@).contains(failed@[0]@));
            Err(FetchError::BatchFailure(failed))
        }
    }
}

/// Once the fetch of a key has succeeded, the next request for the key is
/// answered from the cache with the fetched path, and fetches nothing.
pub proof fn law_fetched_key_is_served_from_cache(
    installed: Map<KeySpec, Seq<u8>>,
    in_flight: Set<KeySpec>,
    key: KeySpec,
    path: Seq<u8>,
)
    ensures
        answer(installed.insert(key, path), in_flight.remove(key), key) == StepSpec::Ready(path),
{
}

proof fn lemma_in_flight_after_requests(
    installed: Map<KeySpec, Seq<u8>>,
    in_flight: Set<KeySpec>,
    key: KeySpec,
    n: nat,
)
    requires
        !installed.dom().contains(key),
        n >= 1 || in_flight.contains(key),
    ensures
        flights_after_requests(installed, in_flight, key, n).contains(key),
    decreases n,
{
    if n > 1 {
        lemma_in_flight_after_requests(installed, in_flight, key, (n - 1) as nat);
    } else if n == 1 {
        let f = flights_after_requests(installed, in_flight, key, 0);
        assert(f == in_flight);
    }
}

/// Of `n` requests for one key, none finishing, at most one fetches: exactly
/// one where the key is neither installed nor in flight, none otherwise. The
/// others are answered from the cache or wait for the fetch in flight.
pub proof fn law_one_fetch_per_key(
    installed: Map<KeySpec, Seq<u8>>,
    in_flight: Set<KeySpec>,
    key: KeySpec,
    n: nat,
)
    ensures
        fetches_among_requests(installed, in_flight, key, n) == if n >= 1 && !installed.dom().contains(key)
            && !in_flight.contains(key) {
            1nat
        } else {
            0nat
        },
    decreases n,
{
    if n > 0 {
        law_one_fetch_per_key(installed, in_flight, key, (n - 1) as nat);
        let f = flights_after_requests(installed, in_flight, key, (n - 1) as nat);
        if !installed.dom().contains(key) && (n >= 2 || in_flight.contains(key)) {
            lemma_in_flight_after_requests(installed, in_flight, key, (n - 1) as nat);
        }
        if n == 1 {
            assert(f == in_flight);
        }
    }
}

/// Once the fetch of a key has failed, every requester that waited for it
/// finds that fetch's cause until another fetch of the key is made.
pub proof fn law_failure_shared_with_waiters(log: Seq<(KeySpec, Seq<u8>)>, key: KeySpec, cause: Seq<u8>)
    ensures
        last_failure(log.push((key, cause)), key) == Some(cause),
{
    assert(log.push((key, cause)).last() == (key, cause));
}

/// A key in flight is never installed, so every other request for it waits
/// for the fetch in flight.
pub proof fn law_in_flight_waits(cache: PackageCache, key: KeySpec)
    requires
        cache.wf(),
        cache.in_flight().contains(key),
    ensures
        answer(cache.installed(), cache.in_flight(), key) == StepSpec::Wait,
{
}

} // verus!
