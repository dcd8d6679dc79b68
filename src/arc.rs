//! The string value: a length, a four-byte prefix, and either the whole
//! content inline or a shared buffer that holds it.

use vstd::prelude::*;
use vstd::slice::slice_subrange;
use vstd::std_specs::cmp::{PartialEqSpec, PartialOrdSpec};
use vstd::string::*;
use vstd::utf8::*;
use core::cmp::Ordering;
use std::sync::Arc;
use crate::lex::{
    bytes_equal, compare_bytes, len_cmp, lemma_lex_cmp_concat, lemma_lex_cmp_equal,
    lemma_lex_cmp_reverse, lemma_lex_cmp_skip, lemma_lex_cmp_trunc, lemma_lex_cmp_zero_pad,
    lex_cmp, trunc, zero_pad,
};

verus! {

broadcast use vstd::utf8::encode_utf8_valid_utf8, vstd::utf8::encode_utf8_decode_utf8;

/// Longest content, in bytes, that is kept inline.
pub const MAX_INLINE: usize = 12;

/// Bytes compared before any other part of the content.
pub const PREFIX_LEN: usize = 4;

/// Where the content lives; which variant is in use follows from the length.
#[derive(Debug, Hash)]
pub enum UmbraArcExtra {
    /// The whole content, zero padded (lengths up to `MAX_INLINE`).
    Data([u8; 12]),
    /// A shared, never mutated buffer with the whole content (longer lengths).
    Ptr(Arc<String>),
}

/// An immutable string: short content inline, long content in one shared,
/// atomically reference-counted buffer that clones point to.
#[derive(Debug, Hash)]
pub struct UmbraArcString {
    len: u32,
    prefix: [u8; 4],
    extra: UmbraArcExtra,
}

/// The content could not be stored: its byte length does not fit in `u32`.
#[derive(Debug, PartialEq, Eq, Structural)]
pub struct ContentTooLarge {
    pub len: usize,
}

/// The first `PREFIX_LEN` bytes of `s`, zero padded.
pub open spec fn prefix_of(s: Seq<u8>) -> Seq<u8> {
    zero_pad(s, 4)
}

/// The bytes of `s` after its prefix.
pub open spec fn suffix_of(s: Seq<u8>) -> Seq<u8> {
    if s.len() <= 4 {
        Seq::empty()
    } else {
        s.skip(4)
    }
}

/// Relies on `core::str::from_utf8`: well-formed UTF-8 is accepted, and the
/// string handed back holds exactly the given bytes.
#[verifier::external_body]
fn str_from_utf8<'a>(v: &'a [u8]) -> (r: Option<&'a str>)
    ensures
        valid_utf8(v@) ==> r is Some,
        r matches Some(s) ==> s.spec_bytes() == v@,
{
    core::str::from_utf8(v).ok()
}

impl View for UmbraArcString {
    type V = Seq<u8>;

    /// The content as bytes.
    closed spec fn view(&self) -> Seq<u8> {
        match self.extra {
            UmbraArcExtra::Data(buf) => buf@.take(self.len as int),
            UmbraArcExtra::Ptr(s) => encode_utf8(s@),
        }
    }
}

impl UmbraArcString {
    /// The layout's invariant: the prefix and the length agree with the
    /// content, the content is UTF-8, and the length picks the variant.
    #[verifier::type_invariant]
    pub closed spec fn well_formed(self) -> bool {
        &&& self.prefix@ == prefix_of(self@)
        &&& self@.len() == self.len
        &&& valid_utf8(self@)
        &&& match self.extra {
            UmbraArcExtra::Data(buf) => self.len <= 12 && buf@ == zero_pad(self@, 12),
            UmbraArcExtra::Ptr(_) => self.len > 12,
        }
    }

    /// The content as text.
    pub closed spec fn text(&self) -> Seq<char> {
        decode_utf8(self@)
    }

    /// Builds the value for `val`, or reports that it is too long to store.
    pub fn try_new(val: &str) -> (r: Result<Self, ContentTooLarge>)
        ensures
            val.spec_bytes().len() <= u32::MAX ==> (r matches Ok(u) && u@ == val.spec_bytes()
                && u.text() == val@),
            val.spec_bytes().len() > u32::MAX ==> (r matches Err(e) && e.len
                == val.spec_bytes().len()),
    {
        let n = val.as_bytes().len();
        if n > u32::MAX as usize {
            Err(ContentTooLarge { len: n })
        } else {
            Ok(Self::new(val))
        }
    }

    /// Builds the value for `val`.
    pub fn new(val: &str) -> (r: Self)
        requires
            val.spec_bytes().len() <= u32::MAX,
        ensures
            r@ == val.spec_bytes(),
            r.text() == val@,
    {
        let bytes = val.as_bytes();
        let n = bytes.len();
        proof {
            encode_utf8_decode_utf8(val@);
        }
        if n <= MAX_INLINE {
            let mut buf: [u8; 12] = [0u8; 12];
            let mut i: usize = 0;
            while i < n
                invariant
                    n <= 12,
                    bytes@.len() == n,
                    i <= n,
                    forall|j: int| 0 <= j < i ==> buf@[j] == bytes@[j],
                    forall|j: int| i <= j < 12 ==> buf@[j] == 0u8,
                decreases n - i,
            {
                buf[i] = bytes[i];
                i = i + 1;
            }
            let prefix: [u8; 4] = [buf[0], buf[1], buf[2], buf[3]];
            assert(buf@.take(n as int) =~= bytes@);
            assert(buf@ =~= zero_pad(bytes@, 12));
            assert(prefix@ =~= prefix_of(bytes@));
            UmbraArcString { len: n as u32, prefix, extra: UmbraArcExtra::Data(buf) }
        } else {
            let prefix: [u8; 4] = [bytes[0], bytes[1], bytes[2], bytes[3]];
            assert(prefix@ =~= prefix_of(bytes@));
            let shared = Arc::new(val.to_owned());
            UmbraArcString { len: n as u32, prefix, extra: UmbraArcExtra::Ptr(shared) }
        }
    }

    /// Tells whether the content is stored inline.
    pub fn is_inline(&self) -> (r: bool)
        ensures
            r == (self@.len() <= MAX_INLINE),
    {
        proof {
            use_type_invariant(self);
        }
        self.len <= MAX_INLINE as u32
    }

    /// The content's length in bytes.
    pub fn len(&self) -> (r: usize)
        ensures
            r == self@.len(),
            r <= u32::MAX,
    {
        proof {
            use_type_invariant(self);
        }
        self.len as usize
    }

    /// The content, borrowed for as long as the value lives; no bytes are copied.
    pub fn as_str(&self) -> (r: &str)
        ensures
            r.spec_bytes() == self@,
            r@ == self.text(),
    {
        proof {
            use_type_invariant(self);
        }
        match &self.extra {
            UmbraArcExtra::Data(buf) => {
                let bytes = slice_subrange(buf.as_slice(), 0, self.len as usize);
                assert(bytes@ =~= self@);
                match str_from_utf8(bytes) {
                    Some(t) => {
                        proof {
                            encode_utf8_decode_utf8(t@);
                        }
                        t
                    },
                    None => "",
                }
            },
            UmbraArcExtra::Ptr(shared) => {
                let t = shared.as_str();
                proof {
                    encode_utf8_decode_utf8(t@);
                }
                t
            },
        }
    }

    /// The content's bytes after the prefix.
    fn suffix_bytes(&self) -> (r: &[u8])
        ensures
            r@ == suffix_of(self@),
    {
        proof {
            use_type_invariant(self);
        }
        match &self.extra {
            UmbraArcExtra::Data(buf) => {
                let start: usize = if self.len < 4 { self.len as usize } else { PREFIX_LEN };
                let r = slice_subrange(buf.as_slice(), start, self.len as usize);
                assert(r@ =~= suffix_of(self@));
                r
            },
            UmbraArcExtra::Ptr(shared) => {
                let r = slice_subrange(shared.as_str().as_bytes(), PREFIX_LEN, self.len as usize);
                assert(r@ =~= suffix_of(self@));
                r
            },
        }
    }

    /// Orders two values byte-wise: prefixes first; then the lengths where
    /// both contents fit in the prefix, the inline tails and lengths where
    /// both are inline, or else the bytes after the prefix.
    pub fn cmp(&self, other: &Self) -> (r: Ordering)
        ensures
            r == lex_cmp(self@, other@),
    {
        proof {
            use_type_invariant(self);
            use_type_invariant(other);
        }
        let by_prefix = compare_bytes(self.prefix.as_slice(), other.prefix.as_slice());
        match by_prefix {
            Ordering::Equal => {},
            _ => {
                proof {
                    lemma_prefix_decides(self@, other@);
                }
                return by_prefix;
            },
        }
        proof {
            lemma_lex_cmp_equal(prefix_of(self@), prefix_of(other@));
        }
        if self.len <= 4 && other.len <= 4 {
            proof {
                lemma_lex_cmp_zero_pad(self@, other@, 4);
            }
            return if self.len < other.len {
                Ordering::Less
            } else if self.len > other.len {
                Ordering::Greater
            } else {
                Ordering::Equal
            };
        }
        match (&self.extra, &other.extra) {
            (UmbraArcExtra::Data(a), UmbraArcExtra::Data(b)) => {
                let tail_a = slice_subrange(a.as_slice(), 4, 12);
                let tail_b = slice_subrange(b.as_slice(), 4, 12);
                let by_tail = compare_bytes(tail_a, tail_b);
                proof {
                    assert(tail_a@ =~= zero_pad(self@, 12).skip(4));
                    assert(tail_b@ =~= zero_pad(other@, 12).skip(4));
                    lemma_lex_cmp_equal(tail_a@, tail_b@);
                    lemma_inline_order(self@, other@);
                }
                match by_tail {
                    Ordering::Equal => {
                        if self.len < other.len {
                            Ordering::Less
                        } else if self.len > other.len {
                            Ordering::Greater
                        } else {
                            Ordering::Equal
                        }
                    },
                    _ => by_tail,
                }
            },
            _ => {
                proof {
                    lemma_suffix_decides(self@, other@);
                }
                compare_bytes(self.suffix_bytes(), other.suffix_bytes())
            },
        }
    }
}

/// Where the prefixes differ, they give the order of the whole contents.
proof fn lemma_prefix_decides(a: Seq<u8>, b: Seq<u8>)
    requires
        lex_cmp(prefix_of(a), prefix_of(b)) != Ordering::Equal,
    ensures
        lex_cmp(a, b) == lex_cmp(prefix_of(a), prefix_of(b)),
{
    let ta = trunc(a, 4);
    let tb = trunc(b, 4);
    assert(prefix_of(a) =~= zero_pad(ta, 4));
    assert(prefix_of(b) =~= zero_pad(tb, 4));
    lemma_lex_cmp_equal(prefix_of(a), prefix_of(b));
    lemma_lex_cmp_zero_pad(ta, tb, 4);
    lemma_lex_cmp_trunc(a, b, 4);
}

/// For two inline contents with equal prefixes: the zero-padded tails
/// decide, and where they agree, the lengths do.
proof fn lemma_inline_order(a: Seq<u8>, b: Seq<u8>)
    requires
        a.len() <= 12,
        b.len() <= 12,
        prefix_of(a) == prefix_of(b),
    ensures
        lex_cmp(a, b) == (if zero_pad(a, 12).skip(4) == zero_pad(b, 12).skip(4) {
            len_cmp(a.len(), b.len())
        } else {
            lex_cmp(zero_pad(a, 12).skip(4), zero_pad(b, 12).skip(4))
        }),
{
    let pa = zero_pad(a, 12);
    let pb = zero_pad(b, 12);
    assert(pa =~= prefix_of(a) + pa.skip(4));
    assert(pb =~= prefix_of(b) + pb.skip(4));
    lemma_lex_cmp_concat(prefix_of(a), prefix_of(b), pa.skip(4), pb.skip(4));
    lemma_lex_cmp_zero_pad(a, b, 12);
}

/// With equal prefixes, unless both contents fit in the prefix, the bytes
/// after the prefix give the order of the whole contents.
proof fn lemma_suffix_decides(a: Seq<u8>, b: Seq<u8>)
    requires
        prefix_of(a) == prefix_of(b),
        !(a.len() <= 4 && b.len() <= 4),
    ensures
        lex_cmp(a, b) == lex_cmp(suffix_of(a), suffix_of(b)),
{
    if a.len() >= 4 && b.len() >= 4 {
        assert(a.subrange(0, 4) =~= b.subrange(0, 4)) by {
            assert forall|i: int| 0 <= i < 4 implies a[i] == b[i] by {
                assert(zero_pad(a, 4)[i] == zero_pad(b, 4)[i]);
            }
        }
        lemma_lex_cmp_skip(a, b, 4);
        if a.len() == 4 {
            assert(a.skip(4) =~= suffix_of(a));
        }
        if b.len() == 4 {
            assert(b.skip(4) =~= suffix_of(b));
        }
    } else if a.len() < 4 {
        assert(a.subrange(0, a.len() as int) =~= b.subrange(0, a.len() as int)) by {
            assert forall|i: int| 0 <= i < a.len() implies a[i] == b[i] by {
                assert(zero_pad(a, 4)[i] == zero_pad(b, 4)[i]);
            }
        }
        lemma_lex_cmp_skip(a, b, a.len() as int);
        assert(a.skip(a.len() as int).len() == 0);
    } else {
        assert(a.subrange(0, b.len() as int) =~= b.subrange(0, b.len() as int)) by {
            assert forall|i: int| 0 <= i < b.len() implies a[i] == b[i] by {
                assert(zero_pad(a, 4)[i] == zero_pad(b, 4)[i]);
            }
        }
        lemma_lex_cmp_skip(a, b, b.len() as int);
        assert(b.skip(b.len() as int).len() == 0);
    }
}

impl Clone for UmbraArcString {
    /// Copies inline content; for shared content, takes one more reference
    /// to the same buffer.
    fn clone(&self) -> (r: Self)
        ensures
            r@ == self@,
    {
        proof {
            use_type_invariant(self);
        }
        match &self.extra {
            UmbraArcExtra::Data(buf) => UmbraArcString {
                len: self.len,
                prefix: self.prefix,
                extra: UmbraArcExtra::Data(*buf),
            },
            UmbraArcExtra::Ptr(shared) => UmbraArcString {
                len: self.len,
                prefix: self.prefix,
                extra: UmbraArcExtra::Ptr(shared.clone()),
            },
        }
    }
}

impl PartialEq for UmbraArcString {
    /// Equality by content: lengths and prefixes first, then the inline tails
    /// or the bytes after the prefix.
    fn eq(&self, other: &Self) -> (r: bool) {
        proof {
            use_type_invariant(self);
            use_type_invariant(other);
        }
        if self.len != other.len || !bytes_equal(self.prefix.as_slice(), other.prefix.as_slice()) {
            proof {
                if self@ == other@ {
                    assert(self.prefix@ == other.prefix@);
                }
            }
            return false;
        }
        match (&self.extra, &other.extra) {
            (UmbraArcExtra::Data(a), UmbraArcExtra::Data(b)) => {
                let tail_a = slice_subrange(a.as_slice(), 4, 12);
                let tail_b = slice_subrange(b.as_slice(), 4, 12);
                let r = bytes_equal(tail_a, tail_b);
                proof {
                    assert(a@ =~= self.prefix@ + tail_a@);
                    assert(b@ =~= other.prefix@ + tail_b@);
                    if r {
                        assert(self@ =~= a@.take(self.len as int));
                        assert(other@ =~= b@.take(other.len as int));
                    }
                    if self@ == other@ {
                        assert(tail_a@ =~= tail_b@);
                    }
                }
                r
            },
            _ => {
                let r = bytes_equal(self.suffix_bytes(), other.suffix_bytes());
                proof {
                    assert(self@ =~= self@.take(4) + suffix_of(self@));
                    assert(other@ =~= other@.take(4) + suffix_of(other@));
                    assert(self@.take(4) =~= self.prefix@);
                    assert(other@.take(4) =~= other.prefix@);
                }
                r
            },
        }
    }
}

impl vstd::std_specs::cmp::PartialEqSpecImpl for UmbraArcString {
    open spec fn obeys_eq_spec() -> bool {
        true
    }

    open spec fn eq_spec(&self, other: &Self) -> bool {
        self@ == other@
    }
}

impl Eq for UmbraArcString {

}

impl PartialEq<&str> for UmbraArcString {
    fn eq(&self, other: &&str) -> (r: bool) {
        bytes_equal(self.as_str().as_bytes(), other.as_bytes())
    }
}

impl vstd::std_specs::cmp::PartialEqSpecImpl<&str> for UmbraArcString {
    open spec fn obeys_eq_spec() -> bool {
        true
    }

    open spec fn eq_spec(&self, other: &&str) -> bool {
        self@ == other.spec_bytes()
    }
}

impl PartialOrd for UmbraArcString {
    fn partial_cmp(&self, other: &Self) -> (r: Option<Ordering>) {
        Some(self.cmp(other))
    }
}

impl vstd::std_specs::cmp::PartialOrdSpecImpl for UmbraArcString {
    open spec fn obeys_partial_cmp_spec() -> bool {
        true
    }

    open spec fn partial_cmp_spec(&self, other: &Self) -> Option<Ordering> {
        Some(lex_cmp(self@, other@))
    }
}

impl PartialOrd<&str> for UmbraArcString {
    fn partial_cmp(&self, other: &&str) -> (r: Option<Ordering>) {
        Some(compare_bytes(self.as_str().as_bytes(), other.as_bytes()))
    }
}

impl vstd::std_specs::cmp::PartialOrdSpecImpl<&str> for UmbraArcString {
    open spec fn obeys_partial_cmp_spec() -> bool {
        true
    }

    open spec fn partial_cmp_spec(&self, other: &&str) -> Option<Ordering> {
        Some(lex_cmp(self@, other.spec_bytes()))
    }
}

impl core::ops::Deref for UmbraArcString {
    type Target = str;

    fn deref(&self) -> (r: &str)
        ensures
            r.spec_bytes() == self@,
    {
        self.as_str()
    }
}

impl AsRef<str> for UmbraArcString {
    fn as_ref(&self) -> (r: &str)
        ensures
            r.spec_bytes() == self@,
    {
        self.as_str()
    }
}

impl UmbraArcString {
    /// What the derived `Hash` reads: the length, the prefix, which variant
    /// holds the content, and the bytes that variant holds.
    pub closed spec fn hashed_parts(&self) -> (u32, Seq<u8>, bool, Seq<u8>) {
        match self.extra {
            UmbraArcExtra::Data(buf) => (self.len, self.prefix@, true, buf@),
            UmbraArcExtra::Ptr(shared) => (self.len, self.prefix@, false, encode_utf8(shared@)),
        }
    }
}

/// Reading back a value built from `s` gives `s` itself, and its length is
/// `s`'s length in bytes.
pub proof fn lemma_round_trip(s: &str, u: UmbraArcString)
    requires
        u@ == s.spec_bytes(),
    ensures
        u.text() == s@,
        u@.len() == s.spec_bytes().len(),
{
    encode_utf8_decode_utf8(s@);
}

/// Two values built from `s1` and `s2` are equal exactly when `s1` and `s2`
/// are, whichever way each one stores its content.
pub proof fn lemma_eq_iff_same_text(s1: &str, s2: &str, a: UmbraArcString, b: UmbraArcString)
    requires
        a@ == s1.spec_bytes(),
        b@ == s2.spec_bytes(),
    ensures
        a.eq_spec(&b) <==> s1@ == s2@,
{
    encode_utf8_decode_utf8(s1@);
    encode_utf8_decode_utf8(s2@);
}

/// The order of two values is the byte-wise lexicographic order of their
/// contents, whichever way each one stores them.
pub proof fn lemma_order_is_byte_order(a: UmbraArcString, b: UmbraArcString)
    ensures
        a.partial_cmp_spec(&b) == Some(lex_cmp(a@, b@)),
{
}

/// The order is consistent with equality: two values compare `Equal`
/// exactly when they are equal, and swapping them reverses the order.
pub proof fn lemma_order_agrees_with_eq(a: UmbraArcString, b: UmbraArcString)
    ensures
        (a.partial_cmp_spec(&b) == Some(Ordering::Equal)) <==> a.eq_spec(&b),
        a.partial_cmp_spec(&b) == Some(Ordering::Less) <==> b.partial_cmp_spec(&a) == Some(
            Ordering::Greater,
        ),
{
    lemma_lex_cmp_equal(a@, b@);
    lemma_lex_cmp_reverse(a@, b@);
}

/// Equal values agree on everything that their hash reads, so they hash alike.
pub proof fn lemma_equal_values_hash_alike(a: UmbraArcString, b: UmbraArcString)
    requires
        a.well_formed(),
        b.well_formed(),
        a.eq_spec(&b),
    ensures
        a.hashed_parts() == b.hashed_parts(),
{
}

} // verus!
