//! Byte-wise lexicographic order on byte sequences.

use vstd::prelude::*;
use core::cmp::Ordering;

verus! {

/// Plain lexicographic order: the first differing byte decides, and a proper
/// prefix sorts before the longer sequence.
pub open spec fn lex_cmp(a: Seq<u8>, b: Seq<u8>) -> Ordering
    decreases a.len(),
{
    if a.len() == 0 {
        if b.len() == 0 {
            Ordering::Equal
        } else {
            Ordering::Less
        }
    } else if b.len() == 0 {
        Ordering::Greater
    } else if a[0] < b[0] {
        Ordering::Less
    } else if a[0] > b[0] {
        Ordering::Greater
    } else {
        lex_cmp(a.drop_first(), b.drop_first())
    }
}

/// Order of two lengths.
pub open spec fn len_cmp(m: nat, n: nat) -> Ordering {
    if m < n {
        Ordering::Less
    } else if m > n {
        Ordering::Greater
    } else {
        Ordering::Equal
    }
}

/// `s` followed by zero bytes up to length `n` (no change when `s` is as long).
pub open spec fn zero_pad(s: Seq<u8>, n: nat) -> Seq<u8> {
    Seq::new(n, |i: int| if i < s.len() { s[i] } else { 0u8 })
}

/// Comparing from position `i` on decides the whole comparison when the
/// first `i` bytes agree.
pub proof fn lemma_lex_cmp_skip(a: Seq<u8>, b: Seq<u8>, i: int)
    requires
        0 <= i <= a.len(),
        i <= b.len(),
        a.subrange(0, i) == b.subrange(0, i),
    ensures
        lex_cmp(a, b) == lex_cmp(a.skip(i), b.skip(i)),
    decreases i,
{
    if i > 0 {
        assert(a[0] == a.subrange(0, i)[0]);
        assert(b[0] == b.subrange(0, i)[0]);
        assert(a.drop_first().subrange(0, i - 1) =~= a.subrange(0, i).drop_first());
        assert(b.drop_first().subrange(0, i - 1) =~= b.subrange(0, i).drop_first());
        lemma_lex_cmp_skip(a.drop_first(), b.drop_first(), i - 1);
        assert(a.drop_first().skip(i - 1) =~= a.skip(i));
        assert(b.drop_first().skip(i - 1) =~= b.skip(i));
    } else {
        assert(a.skip(0) =~= a);
        assert(b.skip(0) =~= b);
    }
}

/// Two sequences compare equal exactly when they are the same sequence.
pub proof fn lemma_lex_cmp_equal(a: Seq<u8>, b: Seq<u8>)
    ensures
        lex_cmp(a, b) == Ordering::Equal <==> a == b,
    decreases a.len(),
{
    if a.len() > 0 && b.len() > 0 && a[0] == b[0] {
        lemma_lex_cmp_equal(a.drop_first(), b.drop_first());
        if a.drop_first() == b.drop_first() {
            assert(a =~= seq![a[0]] + a.drop_first());
            assert(b =~= seq![b[0]] + b.drop_first());
        } else {
            assert(a.drop_first() =~= a.skip(1));
            assert(b.drop_first() =~= b.skip(1));
        }
    } else if a.len() == 0 && b.len() == 0 {
        assert(a =~= b);
    }
}

/// When two sequences of one length differ, they decide the order of
/// anything that follows them; when they agree, what follows decides.
pub proof fn lemma_lex_cmp_concat(x: Seq<u8>, y: Seq<u8>, p: Seq<u8>, q: Seq<u8>)
    requires
        x.len() == y.len(),
    ensures
        lex_cmp(x + p, y + q) == (if x == y {
            lex_cmp(p, q)
        } else {
            lex_cmp(x, y)
        }),
    decreases x.len(),
{
    if x.len() == 0 {
        assert(x + p =~= p);
        assert(y + q =~= q);
        assert(x =~= y);
    } else {
        assert((x + p)[0] == x[0]);
        assert((y + q)[0] == y[0]);
        assert((x + p).drop_first() =~= x.drop_first() + p);
        assert((y + q).drop_first() =~= y.drop_first() + q);
        lemma_lex_cmp_concat(x.drop_first(), y.drop_first(), p, q);
        if x[0] == y[0] {
            if x.drop_first() == y.drop_first() {
                assert(x =~= seq![x[0]] + x.drop_first());
                assert(y =~= seq![y[0]] + y.drop_first());
            }
        }
    }
}

/// Padding both sides with zero bytes to one length keeps their order,
/// except that it may erase a difference in length alone.
pub proof fn lemma_lex_cmp_zero_pad(a: Seq<u8>, b: Seq<u8>, n: nat)
    requires
        a.len() <= n,
        b.len() <= n,
    ensures
        lex_cmp(a, b) == (if zero_pad(a, n) == zero_pad(b, n) {
            len_cmp(a.len(), b.len())
        } else {
            lex_cmp(zero_pad(a, n), zero_pad(b, n))
        }),
    decreases n,
{
    if a.len() == 0 && b.len() == 0 {
        assert(zero_pad(a, n) =~= zero_pad(b, n));
    } else {
        let a1 = if a.len() > 0 { a.drop_first() } else { a };
        let b1 = if b.len() > 0 { b.drop_first() } else { b };
        let pa = zero_pad(a, n);
        let pb = zero_pad(b, n);
        assert(pa.drop_first() =~= zero_pad(a1, (n - 1) as nat));
        assert(pb.drop_first() =~= zero_pad(b1, (n - 1) as nat));
        lemma_lex_cmp_zero_pad(a1, b1, (n - 1) as nat);
        if pa[0] == pb[0] {
            if pa.drop_first() == pb.drop_first() {
                assert(pa =~= seq![pa[0]] + pa.drop_first());
                assert(pb =~= seq![pb[0]] + pb.drop_first());
            }
            if a.len() == 0 && b1.len() == 0 {
                assert(zero_pad(a1, (n - 1) as nat) =~= zero_pad(b1, (n - 1) as nat));
            }
            if b.len() == 0 && a1.len() == 0 {
                assert(zero_pad(a1, (n - 1) as nat) =~= zero_pad(b1, (n - 1) as nat));
            }
        } else {
            assert(pa != pb);
        }
    }
}

/// At most the first `k` bytes of `s`.
pub open spec fn trunc(s: Seq<u8>, k: nat) -> Seq<u8> {
    if s.len() <= k {
        s
    } else {
        s.take(k as int)
    }
}

/// The first `k` bytes decide the order when they differ.
pub proof fn lemma_lex_cmp_trunc(a: Seq<u8>, b: Seq<u8>, k: nat)
    requires
        lex_cmp(trunc(a, k), trunc(b, k)) != Ordering::Equal,
    ensures
        lex_cmp(a, b) == lex_cmp(trunc(a, k), trunc(b, k)),
    decreases k,
{
    let ta = trunc(a, k);
    let tb = trunc(b, k);
    if k == 0 {
        assert(ta =~= tb);
        lemma_lex_cmp_equal(ta, tb);
    } else if a.len() > 0 && b.len() > 0 {
        assert(ta[0] == a[0]);
        assert(tb[0] == b[0]);
        if a[0] == b[0] {
            assert(ta.drop_first() =~= trunc(a.drop_first(), (k - 1) as nat));
            assert(tb.drop_first() =~= trunc(b.drop_first(), (k - 1) as nat));
            lemma_lex_cmp_trunc(a.drop_first(), b.drop_first(), (k - 1) as nat);
        }
    } else if a.len() == 0 {
        assert(ta.len() == 0);
    } else {
        assert(tb.len() == 0);
    }
}

/// Swapping the two sides turns `Less` into `Greater`.
pub proof fn lemma_lex_cmp_reverse(a: Seq<u8>, b: Seq<u8>)
    ensures
        lex_cmp(a, b) == Ordering::Less <==> lex_cmp(b, a) == Ordering::Greater,
    decreases a.len(),
{
    if a.len() > 0 && b.len() > 0 && a[0] == b[0] {
        lemma_lex_cmp_reverse(a.drop_first(), b.drop_first());
    }
}

/// Compares two byte slices lexicographically.
pub fn compare_bytes(a: &[u8], b: &[u8]) -> (r: Ordering)
    ensures
        r == lex_cmp(a@, b@),
{
    let n: usize = if a.len() < b.len() { a.len() } else { b.len() };
    let mut i: usize = 0;
    while i < n
        invariant
            n <= a@.len(),
            n <= b@.len(),
            n == a@.len() || n == b@.len(),
            i <= n,
            a@.subrange(0, i as int) == b@.subrange(0, i as int),
        decreases n - i,
    {
        if a[i] != b[i] {
            proof {
                lemma_lex_cmp_skip(a@, b@, i as int);
                assert(a@.skip(i as int)[0] == a@[i as int]);
                assert(b@.skip(i as int)[0] == b@[i as int]);
            }
            if a[i] < b[i] {
                return Ordering::Less;
            } else {
                return Ordering::Greater;
            }
        }
        assert(a@.subrange(0, i + 1) =~= a@.subrange(0, i as int).push(a@[i as int]));
        assert(b@.subrange(0, i + 1) =~= b@.subrange(0, i as int).push(b@[i as int]));
        i = i + 1;
    }
    proof {
        lemma_lex_cmp_skip(a@, b@, n as int);
    }
    if a.len() < b.len() {
        Ordering::Less
    } else if a.len() > b.len() {
        Ordering::Greater
    } else {
        Ordering::Equal
    }
}

/// Tells whether two byte slices hold the same bytes.
pub fn bytes_equal(a: &[u8], b: &[u8]) -> (r: bool)
    ensures
        r == (a@ == b@),
{
    if a.len() != b.len() {
        return false;
    }
    let mut i: usize = 0;
    while i < a.len()
        invariant
            a@.len() == b@.len(),
            i <= a@.len(),
            forall|j: int| 0 <= j < i ==> a@[j] == b@[j],
        decreases a@.len() - i,
    {
        if a[i] != b[i] {
            return false;
        }
        i = i + 1;
    }
    assert(a@ =~= b@);
    true
}

} // verus!
