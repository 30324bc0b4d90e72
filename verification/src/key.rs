//! Key ordering: a pluggable strict total order over byte-sequence
//! keys, consumed by every search and insert of the index. Two
//! standard policies are provided: plain byte-wise lexicographic
//! order, and a fixed-length-suffix order for keys carrying an
//! embedded fixed-width trailing field.

use vstd::prelude::*;

verus! {

/// Outcome of comparing two keys.
#[derive(Clone, Copy, Debug, PartialEq, Eq, Structural)]
pub enum KeyOrd {
    Less,
    Equal,
    Greater,
}

/// The opposite outcome: used to express a descending order.
pub open spec fn flip_ord(o: KeyOrd) -> KeyOrd {
    match o {
        KeyOrd::Less => KeyOrd::Greater,
        KeyOrd::Equal => KeyOrd::Equal,
        KeyOrd::Greater => KeyOrd::Less,
    }
}

/// Lexicographic comparison of byte sequences: a strict prefix sorts
/// before any longer key sharing it.
pub open spec fn lex_cmp(a: Seq<u8>, b: Seq<u8>) -> KeyOrd
    decreases a.len(),
{
    if a.len() == 0 && b.len() == 0 {
        KeyOrd::Equal
    } else if a.len() == 0 {
        KeyOrd::Less
    } else if b.len() == 0 {
        KeyOrd::Greater
    } else if a[0] < b[0] {
        KeyOrd::Less
    } else if a[0] > b[0] {
        KeyOrd::Greater
    } else {
        lex_cmp(a.drop_first(), b.drop_first())
    }
}

/// Lexicographic order finds two sequences equal exactly when they
/// are the same sequence.
pub proof fn lemma_lex_equal(a: Seq<u8>, b: Seq<u8>)
    ensures
        (lex_cmp(a, b) == KeyOrd::Equal) <==> (a == b),
    decreases a.len(),
{
    if a.len() == 0 && b.len() == 0 {
        assert(a =~= b);
    } else if a.len() == 0 || b.len() == 0 {
    } else {
        lemma_lex_equal(a.drop_first(), b.drop_first());
        if a[0] == b[0] && a.drop_first() == b.drop_first() {
            assert forall|i: int| 0 <= i < a.len() implies a[i] == b[i] by {
                if i > 0 {
                    assert(a[i] == a.drop_first()[i - 1]);
                    assert(b[i] == b.drop_first()[i - 1]);
                }
            }
            assert(a =~= b);
        }
        if a == b {
            assert(a.drop_first() =~= b.drop_first());
        }
    }
}

/// Lexicographic order is antisymmetric: `a` sorts below `b` exactly
/// when `b` sorts above `a`.
pub proof fn lemma_lex_flip(a: Seq<u8>, b: Seq<u8>)
    ensures
        (lex_cmp(a, b) == KeyOrd::Less) <==> (lex_cmp(b, a) == KeyOrd::Greater),
    decreases a.len(),
{
    if a.len() > 0 && b.len() > 0 {
        lemma_lex_flip(a.drop_first(), b.drop_first());
    }
}

/// Lexicographic order is transitive.
pub proof fn lemma_lex_trans(a: Seq<u8>, b: Seq<u8>, c: Seq<u8>)
    requires
        lex_cmp(a, b) == KeyOrd::Less,
        lex_cmp(b, c) == KeyOrd::Less,
    ensures
        lex_cmp(a, c) == KeyOrd::Less,
    decreases a.len(),
{
    if a.len() > 0 && b.len() > 0 && c.len() > 0 {
        if a[0] == b[0] && b[0] == c[0] {
            lemma_lex_trans(a.drop_first(), b.drop_first(), c.drop_first());
        }
    }
}

/// Compares two byte slices lexicographically.
pub fn lex_compare(a: &[u8], b: &[u8]) -> (r: KeyOrd)
    ensures
        r == lex_cmp(a@, b@),
{
    let alen: usize = a.len();
    let blen: usize = b.len();
    proof {
        assert(a@.skip(0) =~= a@);
        assert(b@.skip(0) =~= b@);
    }
    let mut i: usize = 0;
    while i < alen && i < blen
        invariant
            i <= alen,
            i <= blen,
            alen == a@.len(),
            blen == b@.len(),
            lex_cmp(a@, b@) == lex_cmp(a@.skip(i as int), b@.skip(i as int)),
        decreases alen - i,
    {
        proof {
            assert(a@.skip(i as int).drop_first() =~= a@.skip(i + 1));
            assert(b@.skip(i as int).drop_first() =~= b@.skip(i + 1));
        }
        if a[i] < b[i] {
            return KeyOrd::Less;
        }
        if a[i] > b[i] {
            return KeyOrd::Greater;
        }
        i = i + 1;
    }
    if alen == blen {
        KeyOrd::Equal
    } else if alen < blen {
        KeyOrd::Less
    } else {
        KeyOrd::Greater
    }
}

/// A strict total order over byte-sequence keys. Every search and
/// insert of the index consults one implementation; the index's
/// structural invariants hold only because these laws do.
pub trait KeyComparator: Sized {
    /// The order, as contracts see it.
    spec fn spec_compare(&self, a: Seq<u8>, b: Seq<u8>) -> KeyOrd;

    /// Two keys compare equal exactly when they are the same bytes.
    proof fn law_equal(&self, a: Seq<u8>, b: Seq<u8>)
        ensures
            (self.spec_compare(a, b) == KeyOrd::Equal) <==> (a == b),
    ;

    /// The order is antisymmetric.
    proof fn law_flip(&self, a: Seq<u8>, b: Seq<u8>)
        ensures
            (self.spec_compare(a, b) == KeyOrd::Less) <==> (self.spec_compare(b, a)
                == KeyOrd::Greater),
    ;

    /// The order is transitive.
    proof fn law_trans(&self, a: Seq<u8>, b: Seq<u8>, c: Seq<u8>)
        requires
            self.spec_compare(a, b) == KeyOrd::Less,
            self.spec_compare(b, c) == KeyOrd::Less,
        ensures
            self.spec_compare(a, c) == KeyOrd::Less,
    ;

    /// Compares two keys; the result is exactly `spec_compare`.
    fn compare(&self, a: &[u8], b: &[u8]) -> (r: KeyOrd)
        ensures
            r == self.spec_compare(a@, b@),
    ;
}

/// Plain lexicographic comparison of raw key bytes.
#[derive(Clone, Copy)]
pub struct ByteWiseComparator {}

impl KeyComparator for ByteWiseComparator {
    open spec fn spec_compare(&self, a: Seq<u8>, b: Seq<u8>) -> KeyOrd {
        lex_cmp(a, b)
    }

    proof fn law_equal(&self, a: Seq<u8>, b: Seq<u8>) {
        lemma_lex_equal(a, b);
    }

    proof fn law_flip(&self, a: Seq<u8>, b: Seq<u8>) {
        lemma_lex_flip(a, b);
    }

    proof fn law_trans(&self, a: Seq<u8>, b: Seq<u8>, c: Seq<u8>) {
        lemma_lex_trans(a, b, c);
    }

    fn compare(&self, a: &[u8], b: &[u8]) -> (r: KeyOrd) {
        lex_compare(a, b)
    }
}

/// The leading variable-length portion of a key whose last `n` bytes
/// are a fixed-width suffix. A key shorter than `n` is all leading
/// portion.
pub open spec fn lead_of(k: Seq<u8>, n: nat) -> Seq<u8> {
    if k.len() >= n {
        k.subrange(0, k.len() - n)
    } else {
        k
    }
}

/// The trailing fixed-width suffix of a key, empty for a key shorter
/// than `n`.
pub open spec fn suffix_of(k: Seq<u8>, n: nat) -> Seq<u8> {
    if k.len() >= n {
        k.subrange(k.len() - n, k.len() as int)
    } else {
        Seq::<u8>::empty()
    }
}

/// A key is its leading portion followed by its suffix.
pub proof fn lemma_lead_suffix(k: Seq<u8>, n: nat)
    ensures
        lead_of(k, n) + suffix_of(k, n) =~= k,
{
}

/// Orders keys by their leading portion first; keys with equal
/// leading portions are ordered by their trailing fixed-width suffix,
/// ascending or descending as configured. This lets one comparator
/// express "most recent version sorts first" without a second index.
#[derive(Clone, Copy)]
pub struct FixedLengthSuffixComparator {
    /// Width in bytes of the trailing suffix.
    pub fixed_len: usize,
    /// Whether the suffix tie-break is ascending.
    pub ascending: bool,
}

impl FixedLengthSuffixComparator {
    /// A comparator for keys whose last `fixed_len` bytes are an
    /// embedded fixed-width field, tie-broken in the given direction.
    pub fn new(fixed_len: usize, ascending: bool) -> (r: FixedLengthSuffixComparator)
        ensures
            r.fixed_len == fixed_len,
            r.ascending == ascending,
    {
        FixedLengthSuffixComparator { fixed_len, ascending }
    }
}

impl KeyComparator for FixedLengthSuffixComparator {
    open spec fn spec_compare(&self, a: Seq<u8>, b: Seq<u8>) -> KeyOrd {
        let lc = lex_cmp(lead_of(a, self.fixed_len as nat), lead_of(b, self.fixed_len as nat));
        if lc != KeyOrd::Equal {
            lc
        } else {
            let sc = lex_cmp(
                suffix_of(a, self.fixed_len as nat),
                suffix_of(b, self.fixed_len as nat),
            );
            if self.ascending {
                sc
            } else {
                flip_ord(sc)
            }
        }
    }

    proof fn law_equal(&self, a: Seq<u8>, b: Seq<u8>) {
        let n = self.fixed_len as nat;
        lemma_lex_equal(lead_of(a, n), lead_of(b, n));
        lemma_lex_equal(suffix_of(a, n), suffix_of(b, n));
        lemma_lead_suffix(a, n);
        lemma_lead_suffix(b, n);
        if a == b {
            assert(lead_of(a, n) =~= lead_of(b, n));
            assert(suffix_of(a, n) =~= suffix_of(b, n));
        }
    }

    proof fn law_flip(&self, a: Seq<u8>, b: Seq<u8>) {
        let n = self.fixed_len as nat;
        lemma_lex_flip(lead_of(a, n), lead_of(b, n));
        lemma_lex_flip(lead_of(b, n), lead_of(a, n));
        lemma_lex_equal(lead_of(a, n), lead_of(b, n));
        lemma_lex_equal(lead_of(b, n), lead_of(a, n));
        lemma_lex_flip(suffix_of(a, n), suffix_of(b, n));
        lemma_lex_flip(suffix_of(b, n), suffix_of(a, n));
        lemma_lex_equal(suffix_of(a, n), suffix_of(b, n));
        lemma_lex_equal(suffix_of(b, n), suffix_of(a, n));
    }

    proof fn law_trans(&self, a: Seq<u8>, b: Seq<u8>, c: Seq<u8>) {
        let n = self.fixed_len as nat;
        let la = lead_of(a, n);
        let lb = lead_of(b, n);
        let lc = lead_of(c, n);
        let sa = suffix_of(a, n);
        let sb = suffix_of(b, n);
        let sc = suffix_of(c, n);
        lemma_lex_equal(la, lb);
        lemma_lex_equal(lb, lc);
        if lex_cmp(la, lb) == KeyOrd::Less && lex_cmp(lb, lc) == KeyOrd::Less {
            lemma_lex_trans(la, lb, lc);
        }
        if lex_cmp(la, lb) == KeyOrd::Equal && lex_cmp(lb, lc) == KeyOrd::Equal {
            if self.ascending {
                if lex_cmp(sa, sb) == KeyOrd::Less && lex_cmp(sb, sc) == KeyOrd::Less {
                    lemma_lex_trans(sa, sb, sc);
                }
            } else {
                lemma_lex_flip(sa, sb);
                lemma_lex_flip(sb, sa);
                lemma_lex_flip(sb, sc);
                lemma_lex_flip(sc, sb);
                if lex_cmp(sb, sa) == KeyOrd::Less && lex_cmp(sc, sb) == KeyOrd::Less {
                    lemma_lex_trans(sc, sb, sa);
                }
                lemma_lex_flip(sa, sc);
                lemma_lex_flip(sc, sa);
            }
        }
    }

    fn compare(&self, a: &[u8], b: &[u8]) -> (r: KeyOrd) {
        let n = self.fixed_len;
        let ghost gn = n as nat;
        let (alead, asuf) = if a.len() >= n {
            (
                vstd::slice::slice_subrange(a, 0, a.len() - n),
                vstd::slice::slice_subrange(a, a.len() - n, a.len()),
            )
        } else {
            (vstd::slice::slice_subrange(a, 0, a.len()), vstd::slice::slice_subrange(a, 0, 0))
        };
        let (blead, bsuf) = if b.len() >= n {
            (
                vstd::slice::slice_subrange(b, 0, b.len() - n),
                vstd::slice::slice_subrange(b, b.len() - n, b.len()),
            )
        } else {
            (vstd::slice::slice_subrange(b, 0, b.len()), vstd::slice::slice_subrange(b, 0, 0))
        };
        proof {
            assert(alead@ =~= lead_of(a@, gn));
            assert(asuf@ =~= suffix_of(a@, gn));
            assert(blead@ =~= lead_of(b@, gn));
            assert(bsuf@ =~= suffix_of(b@, gn));
        }
        let lc = lex_compare(alead, blead);
        match lc {
            KeyOrd::Equal => {
                let sc = lex_compare(asuf, bsuf);
                if self.ascending {
                    sc
                } else {
                    match sc {
                        KeyOrd::Less => KeyOrd::Greater,
                        KeyOrd::Equal => KeyOrd::Equal,
                        KeyOrd::Greater => KeyOrd::Less,
                    }
                }
            },
            _ => lc,
        }
    }
}

/// The byte-wise policy is exactly raw lexicographic byte order.
pub proof fn lemma_bytewise_is_lexicographic(c: ByteWiseComparator, a: Seq<u8>, b: Seq<u8>)
    ensures
        c.spec_compare(a, b) == lex_cmp(a, b),
{
}

/// Two keys with identical leading portions are ordered strictly by
/// the configured suffix rule: the suffix comparison alone, in the
/// configured direction, decides.
pub proof fn lemma_suffix_rule(c: FixedLengthSuffixComparator, a: Seq<u8>, b: Seq<u8>)
    requires
        lead_of(a, c.fixed_len as nat) == lead_of(b, c.fixed_len as nat),
    ensures
        c.spec_compare(a, b) == (if c.ascending {
            lex_cmp(suffix_of(a, c.fixed_len as nat), suffix_of(b, c.fixed_len as nat))
        } else {
            flip_ord(lex_cmp(suffix_of(a, c.fixed_len as nat), suffix_of(b, c.fixed_len as nat)))
        }),
{
    lemma_lex_equal(lead_of(a, c.fixed_len as nat), lead_of(b, c.fixed_len as nat));
}

} // verus!
