//! Where the sources of a key live inside the cache directory: the hex
//! encoding of the source locator, a `/`, and the hex encoding of the
//! revision. Distinct keys get distinct paths, and a key always gets the same.
use vstd::prelude::*;

verus! {

/// The lower-case hex digit of `n`, for `n < 16`.
pub open spec fn hex_digit(n: u8) -> u8 {
    if n < 10 {
        (48 + n) as u8
    } else {
        (87 + n) as u8
    }
}

/// Two hex digits per byte, most significant first.
pub open spec fn hex(s: Seq<u8>) -> Seq<u8>
    decreases s.len(),
{
    if s.len() == 0 {
        Seq::empty()
    } else {
        hex(s.drop_last()) + seq![hex_digit(s.last() / 16), hex_digit(s.last() % 16)]
    }
}

/// The relative path of the sources of `(source, revision)`.
pub open spec fn key_path(source: Seq<u8>, revision: Seq<u8>) -> Seq<u8> {
    hex(source) + seq![0x2fu8] + hex(revision)
}

proof fn lemma_hex_shape(s: Seq<u8>)
    ensures
        hex(s).len() == 2 * s.len(),
        forall|i: int| 0 <= i < hex(s).len() ==> #[trigger] hex(s)[i] != 0x2f,
    decreases s.len(),
{
    if s.len() > 0 {
        lemma_hex_shape(s.drop_last());
    }
}

proof fn lemma_hex_injective(a: Seq<u8>, b: Seq<u8>)
    requires
        hex(a) == hex(b),
    ensures
        a == b,
    decreases a.len(),
{
    lemma_hex_shape(a);
    lemma_hex_shape(b);
    if a.len() > 0 {
        let n = hex(a).len();
        let x = a.last();
        let y = b.last();
        assert(hex(a)[n - 2] == hex_digit(x / 16) && hex(a)[n - 1] == hex_digit(x % 16));
        assert(hex(b)[n - 2] == hex_digit(y / 16) && hex(b)[n - 1] == hex_digit(y % 16));
        assert(x / 16 == y / 16 && x % 16 == y % 16);
        assert(x == y) by (nonlinear_arith)
            requires
                x / 16 == y / 16,
                x % 16 == y % 16,
        {
        }
        lemma_hex_shape(a.drop_last());
        lemma_hex_shape(b.drop_last());
        assert(hex(a.drop_last()) =~= hex(a).subrange(0, n - 2));
        assert(hex(b.drop_last()) =~= hex(b).subrange(0, n - 2));
        lemma_hex_injective(a.drop_last(), b.drop_last());
        assert(a =~= a.drop_last().push(x));
        assert(b =~= b.drop_last().push(y));
    }
}

/// Distinct keys are stored at distinct paths, and every path is non-empty.
pub proof fn law_key_paths_distinct(s1: Seq<u8>, r1: Seq<u8>, s2: Seq<u8>, r2: Seq<u8>)
    ensures
        key_path(s1, r1).len() > 0,
        key_path(s1, r1) == key_path(s2, r2) ==> s1 == s2 && r1 == r2,
{
    lemma_hex_shape(s1);
    lemma_hex_shape(s2);
    lemma_hex_shape(r1);
    lemma_hex_shape(r2);
    let p = key_path(s1, r1);
    let q = key_path(s2, r2);
    let n1 = hex(s1).len() as int;
    let n2 = hex(s2).len() as int;
    assert(p[n1] == 0x2f);
    assert(q[n2] == 0x2f);
    if p == q {
        if n1 < n2 {
            assert(q[n1] == hex(s2)[n1]);
        } else if n2 < n1 {
            assert(p[n2] == hex(s1)[n2]);
        }
        assert(hex(s1) =~= p.subrange(0, n1));
        assert(hex(s2) =~= q.subrange(0, n2));
        assert(hex(r1) =~= p.subrange(n1 + 1, p.len() as int));
        assert(hex(r2) =~= q.subrange(n2 + 1, q.len() as int));
        lemma_hex_injective(s1, s2);
        lemma_hex_injective(r1, r2);
    }
}

fn hex_digit_of(n: u8) -> (r: u8)
    requires
        n < 16,
    ensures
        r == hex_digit(n),
{
    if n < 10 {
        48 + n
    } else {
        87 + n
    }
}

fn push_hex(out: &mut Vec<u8>, s: &[u8])
    ensures
        final(out)@ == old(out)@ + hex(s@),
{
    let mut i: usize = 0;
    while i < s.len()
        invariant
            i <= s@.len(),
            out@ == old(out)@ + hex(s@.subrange(0, i as int)),
        decreases s@.len() - i,
    {
        let b = s[i];
        assert(s@.subrange(0, i + 1).drop_last() =~= s@.subrange(0, i as int));
        out.push(hex_digit_of(b / 16));
        out.push(hex_digit_of(b % 16));
        assert(out@ =~= old(out)@ + hex(s@.subrange(0, i + 1)));
        i += 1;
    }
    assert(s@.subrange(0, i as int) =~= s@);
}

/// The relative path, inside the cache directory, of the sources of a key.
pub fn cache_path(source: &[u8], revision: &[u8]) -> (r: Vec<u8>)
    ensures
        r@ == key_path(source@, revision@),
{
    let mut r: Vec<u8> = Vec::new();
    push_hex(&mut r, source);
    r.push(0x2f);
    push_hex(&mut r, revision);
    assert(r@ =~= key_path(source@, revision@));
    r
}

} // verus!
