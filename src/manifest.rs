//! The manifest format: one package record per line, blank lines skipped.
//! A record is the package's name, its source locator and its pinned
//! revision, as words separated by spaces, optionally followed by `:` and
//! the names of its dependencies:
//!
//! ```text
//! base https://example.org/base v0.6.2
//! json https://example.org/json v1.0.0 : base
//! ```
use vstd::prelude::*;
use crate::bytes::{copy_bytes, list_view};
use crate::package::{first_duplicate, packages_view, unique_names, Catalog, ManifestError, Package, PackageSpec};

verus! {

/// The pieces of `s` between occurrences of `sep`, empty ones included.
pub open spec fn split(s: Seq<u8>, sep: u8) -> Seq<Seq<u8>>
    decreases s.len(),
{
    if s.len() == 0 {
        seq![Seq::empty()]
    } else {
        let r = split(s.drop_last(), sep);
        if s.last() == sep {
            r.push(Seq::empty())
        } else {
            r.update(r.len() - 1, r.last().push(s.last()))
        }
    }
}

/// The non-empty members of `ts`, in order.
pub open spec fn nonempty(ts: Seq<Seq<u8>>) -> Seq<Seq<u8>>
    decreases ts.len(),
{
    if ts.len() == 0 {
        Seq::empty()
    } else if ts.last().len() == 0 {
        nonempty(ts.drop_last())
    } else {
        nonempty(ts.drop_last()).push(ts.last())
    }
}

/// The words of a line.
pub open spec fn words(line: Seq<u8>) -> Seq<Seq<u8>> {
    nonempty(split(line, 0x20))
}

/// The lines of a text.
pub open spec fn lines(text: Seq<u8>) -> Seq<Seq<u8>> {
    split(text, 0x0a)
}

/// The parts of a line around the separator of the dependencies.
pub open spec fn fields(line: Seq<u8>) -> Seq<Seq<u8>> {
    split(line, 0x3a)
}

/// A line without words and without separator.
pub open spec fn blank(line: Seq<u8>) -> bool {
    fields(line).len() == 1 && words(fields(line)[0]).len() == 0
}

/// A line that is not blank and not a record: other than three words before
/// the separator, or more than one separator.
pub open spec fn malformed(line: Seq<u8>) -> bool {
    !blank(line) && (fields(line).len() > 2 || words(fields(line)[0]).len() != 3)
}

/// The record of a line that is neither blank nor malformed.
pub open spec fn record(line: Seq<u8>) -> PackageSpec {
    let w = words(fields(line)[0]);
    PackageSpec {
        name: w[0],
        source: w[1],
        revision: w[2],
        deps: if fields(line).len() == 2 {
            words(fields(line)[1])
        } else {
            Seq::empty()
        },
    }
}

/// The records of the lines `ls`, blank lines skipped.
pub open spec fn records(ls: Seq<Seq<u8>>) -> Seq<PackageSpec>
    decreases ls.len(),
{
    if ls.len() == 0 {
        Seq::empty()
    } else if blank(ls.last()) {
        records(ls.drop_last())
    } else {
        records(ls.drop_last()).push(record(ls.last()))
    }
}

/// Line `j` is the first malformed line of `ls`.
pub open spec fn first_malformed(ls: Seq<Seq<u8>>, j: int) -> bool {
    0 <= j < ls.len() && malformed(ls[j]) && forall|i: int| 0 <= i < j ==> !malformed(#[trigger] ls[i])
}

/// Splits `s` at each occurrence of `sep`.
pub fn split_at_byte(s: &[u8], sep: u8) -> (r: Vec<Vec<u8>>)
    ensures
        list_view(r@) == split(s@, sep),
        r@.len() >= 1,
{
    let mut parts: Vec<Vec<u8>> = Vec::new();
    let mut cur: Vec<u8> = Vec::new();
    let mut i: usize = 0;
    while i < s.len()
        invariant
            i <= s@.len(),
            list_view(parts@).push(cur@) == split(s@.subrange(0, i as int), sep),
        decreases s@.len() - i,
    {
        let b = s[i];
        let ghost pre = s@.subrange(0, i as int);
        assert(s@.subrange(0, i + 1).drop_last() =~= pre);
        assert(s@.subrange(0, i + 1).last() == b);
        if b == sep {
            let done = cur;
            parts.push(done);
            cur = Vec::new();
            assert(list_view(parts@) =~= list_view(parts@.drop_last()).push(done@));
            assert(list_view(parts@).push(cur@) =~= split(s@.subrange(0, i + 1), sep));
        } else {
            let ghost old_cur = cur@;
            cur.push(b);
            assert(list_view(parts@).push(cur@) =~= split(pre, sep).update(split(pre, sep).len() - 1, old_cur.push(b)));
        }
        i += 1;
    }
    assert(s@.subrange(0, i as int) =~= s@);
    parts.push(cur);
    assert(list_view(parts@) =~= list_view(parts@.drop_last()).push(parts@.last()@));
    parts
}

/// The non-empty members of `ts`, in order.
pub fn keep_nonempty(ts: &Vec<Vec<u8>>) -> (r: Vec<Vec<u8>>)
    ensures
        list_view(r@) == nonempty(list_view(ts@)),
{
    let ghost all = list_view(ts@);
    let mut r: Vec<Vec<u8>> = Vec::new();
    let mut i: usize = 0;
    while i < ts.len()
        invariant
            all == list_view(ts@),
            i <= ts@.len(),
            list_view(r@) == nonempty(all.subrange(0, i as int)),
        decreases ts@.len() - i,
    {
        let t = &ts[i];
        assert(t@ == all[i as int]);
        assert(all.subrange(0, i + 1).drop_last() =~= all.subrange(0, i as int));
        if t.len() > 0 {
            r.push(copy_bytes(t.as_slice()));
            assert(list_view(r@) =~= list_view(r@.drop_last()).push(t@));
        }
        i += 1;
    }
    assert(all.subrange(0, i as int) =~= all);
    r
}

/// Parses a manifest into a catalog. Fails with the first malformed line,
/// else with the first name given twice.
pub fn parse(text: &[u8]) -> (r: Result<Catalog, ManifestError>)
    ensures
        match r {
            Ok(c) => c.wf() && c@ == records(lines(text@)),
            Err(ManifestError::Malformed { line }) => first_malformed(lines(text@), line as int),
            Err(ManifestError::DuplicateName(n)) => exists|j: int|
                first_duplicate(records(lines(text@)), j) && records(lines(text@))[j].name == n@,
        },
        (r matches Err(ManifestError::Malformed { .. })) <==> exists|j: int|
            0 <= j < lines(text@).len() && malformed(#[trigger] lines(text@)[j]),
        r is Ok <==> (forall|j: int| 0 <= j < lines(text@).len() ==> !malformed(#[trigger] lines(text@)[j]))
            && unique_names(records(lines(text@))),
{
    let ls = split_at_byte(text, 0x0a);
    let ghost lv = list_view(ls@);
    assert(lv == lines(text@));
    let mut pkgs: Vec<Package> = Vec::new();
    let mut j: usize = 0;
    while j < ls.len()
        invariant
            lv == list_view(ls@),
            lv == lines(text@),
            j <= ls@.len(),
            packages_view(pkgs@) == records(lv.subrange(0, j as int)),
            forall|i: int| 0 <= i < j ==> !malformed(#[trigger] lv[i]),
        decreases ls@.len() - j,
    {
        assert(lv[j as int] == ls@[j as int]@);
        assert(lv.subrange(0, j + 1).drop_last() =~= lv.subrange(0, j as int));
        let line = ls[j].as_slice();
        let parts = split_at_byte(line, 0x3a);
        assert(list_view(parts@) == fields(lv[j as int]));
        assert(list_view(parts@)[0] == parts@[0]@);
        let head = keep_nonempty(&split_at_byte(parts[0].as_slice(), 0x20));
        let ghost hv = list_view(head@);
        assert(hv == words(fields(lv[j as int])[0]));
        let is_blank = parts.len() == 1 && head.len() == 0;
        if !is_blank {
            if parts.len() > 2 || head.len() != 3 {
                assert(first_malformed(lv, j as int));
                return Err(ManifestError::Malformed { line: j });
            }
            let dependencies = if parts.len() == 2 {
                keep_nonempty(&split_at_byte(parts[1].as_slice(), 0x20))
            } else {
                Vec::new()
            };
            let p = Package {
                name: copy_bytes(head[0].as_slice()),
                source: copy_bytes(head[1].as_slice()),
                revision: copy_bytes(head[2].as_slice()),
                dependencies,
            };
            assert(p@ == record(lv[j as int])) by {
                if parts.len() == 1 {
                    assert(list_view(p.dependencies@) =~= Seq::<Seq<u8>>::empty());
                }
            }
            pkgs.push(p);
            assert(packages_view(pkgs@) =~= packages_view(pkgs@.drop_last()).push(p@));
        }
        j += 1;
    }
    assert(lv.subrange(0, j as int) =~= lv);
    Catalog::from_packages(pkgs)
}

/// The words of the lines `ls`, in order.
pub open spec fn all_words(ls: Seq<Seq<u8>>) -> Seq<Seq<u8>>
    decreases ls.len(),
{
    if ls.len() == 0 {
        Seq::empty()
    } else {
        all_words(ls.drop_last()) + words(ls.last())
    }
}

/// Reads a list of root names: the words of the text, on any number of
/// lines.
pub fn parse_roots(text: &[u8]) -> (r: Vec<Vec<u8>>)
    ensures
        list_view(r@) == all_words(lines(text@)),
{
    let ls = split_at_byte(text, 0x0a);
    let ghost lv = list_view(ls@);
    let mut out: Vec<Vec<u8>> = Vec::new();
    let mut j: usize = 0;
    while j < ls.len()
        invariant
            lv == list_view(ls@),
            lv == lines(text@),
            j <= ls@.len(),
            list_view(out@) == all_words(lv.subrange(0, j as int)),
        decreases ls@.len() - j,
    {
        assert(lv[j as int] == ls@[j as int]@);
        assert(lv.subrange(0, j + 1).drop_last() =~= lv.subrange(0, j as int));
        let w = keep_nonempty(&split_at_byte(ls[j].as_slice(), 0x20));
        let ghost before = list_view(out@);
        let mut i: usize = 0;
        while i < w.len()
            invariant
                j < ls@.len(),
                list_view(out@) == before + list_view(w@).subrange(0, i as int),
                i <= w@.len(),
            decreases w@.len() - i,
        {
            let ghost prev = out@;
            out.push(copy_bytes(w[i].as_slice()));
            assert(out@.drop_last() == prev);
            assert(list_view(out@) =~= list_view(prev).push(w@[i as int]@));
            assert(list_view(out@) =~= before + list_view(w@).subrange(0, i + 1));
            i += 1;
        }
        assert(list_view(w@).subrange(0, i as int) =~= list_view(w@));
        j += 1;
    }
    assert(lv.subrange(0, j as int) =~= lv);
    out
}

} // verus!
