use std::cmp::Ordering;
use std::collections::hash_map::DefaultHasher;
use std::hash::{Hash, Hasher};
use umbra_string::UmbraArcString;

fn hash_of(u: &UmbraArcString) -> u64 {
    let mut h = DefaultHasher::new();
    u.hash(&mut h);
    h.finish()
}

#[test]
fn basic_test() {
    let inlinable = "abcdefghijkl";
    let umbra = UmbraArcString::new(inlinable);

    assert_eq!(umbra.len(), 12);

    assert_eq!(umbra, inlinable)
}

#[test]
fn overflow_test() {
    let overflow = "abcdefghijklmnopqr";
    let umbra = UmbraArcString::new(overflow);

    assert_eq!(umbra, overflow)
}

#[test]
fn hello_is_inline() {
    let u = UmbraArcString::new("hello");
    assert_eq!(u.len(), 5);
    assert!(u.is_inline());
    assert_eq!(u.as_str(), "hello");
    assert_eq!(u, "hello");
}

#[test]
fn twelve_bytes_inline_thirteen_shared() {
    let a = UmbraArcString::new("abcdefghijkl");
    assert!(a.is_inline());
    assert_eq!(a.len(), 12);
    assert_eq!(a.as_str(), "abcdefghijkl");

    let b = UmbraArcString::new("abcdefghijklm");
    assert!(!b.is_inline());
    assert_eq!(b.len(), 13);
    assert_eq!(b.as_str(), "abcdefghijklm");
}

#[test]
fn empty_string() {
    let u = UmbraArcString::new("");
    assert_eq!(u.len(), 0);
    assert!(u.is_inline());
    assert_eq!(u.as_str(), "");
    assert_eq!(u, "");
}

#[test]
fn round_trip_various() {
    for s in [
        "", "a", "abc", "abcd", "abcde", "héllo", "日本語のテキスト", "a\0b", "xyzw\0\0\0\0\0\0\0\0",
        "a string well beyond the inline limit",
    ] {
        let u = UmbraArcString::new(s);
        assert_eq!(u.as_str(), s);
        assert_eq!(u.len(), s.len());
        assert_eq!(u.is_inline(), s.len() <= 12);
        let deref: &str = &u;
        assert_eq!(deref, s);
        assert_eq!(AsRef::<str>::as_ref(&u), s);
    }
}

#[test]
fn try_new_accepts_ordinary_input() {
    let u = UmbraArcString::try_new("some text").unwrap();
    assert_eq!(u.as_str(), "some text");
    let v = UmbraArcString::try_new("some longer text for the heap").unwrap();
    assert_eq!(v.as_str(), "some longer text for the heap");
}

#[test]
fn separately_built_shared_values_agree() {
    let a = UmbraArcString::new("same content over twelve bytes");
    let b = UmbraArcString::new("same content over twelve bytes");
    assert!(!a.is_inline());
    assert_eq!(a, b);
    assert_eq!(hash_of(&a), hash_of(&b));
    assert_eq!(a.cmp(&b), Ordering::Equal);
    assert_eq!(a.partial_cmp(&b), Some(Ordering::Equal));
}

#[test]
fn equality_follows_content() {
    let inline12 = UmbraArcString::new("abcdefghijkl");
    let shared13 = UmbraArcString::new("abcdefghijklm");
    assert_ne!(inline12, shared13);
    assert_ne!(UmbraArcString::new("abcdefghijklmn"), shared13);
    assert_ne!(UmbraArcString::new("abcdefghijklmz"), UmbraArcString::new("abcdefghijklmy"));
    assert_ne!(UmbraArcString::new("abcdefgh"), UmbraArcString::new("abcdefgi"));
    assert_ne!(UmbraArcString::new("ab"), UmbraArcString::new("ab\0"));
    assert_eq!(UmbraArcString::new("abcdefgh"), UmbraArcString::new("abcdefgh"));
    assert_ne!(shared13, "abcdefghijklx");
    assert_ne!(inline12, "abcdefghijk");
}

#[test]
fn equal_values_hash_alike() {
    let pairs = ["", "hi", "abcdefghijkl", "a shared buffer of some length"];
    for s in pairs {
        let a = UmbraArcString::new(s);
        let b = UmbraArcString::new(s);
        assert_eq!(hash_of(&a), hash_of(&b));
        assert_eq!(hash_of(&a), hash_of(&a.clone()));
    }
}

#[test]
fn order_matches_byte_order() {
    let samples = [
        "", "a", "ab", "abc", "abcd", "abcde", "abcdefghijkl", "abcdefghijklm", "abcdefghijklmn",
        "abcdz", "abd", "b", "zzzzzzzzzzzzzzzz", "abcd\0", "abcdefghijk\0", "abcdefghijkl\0",
        "héllo wörld, long enough", "\u{7f}", "\u{80}", "a\0", "\0", "ab\0\0",
    ];
    for x in samples {
        for y in samples {
            let a = UmbraArcString::new(x);
            let b = UmbraArcString::new(y);
            let expected = x.as_bytes().cmp(y.as_bytes());
            assert_eq!(a.cmp(&b), expected, "{:?} vs {:?}", x, y);
            assert_eq!(a.partial_cmp(&b), Some(expected));
            assert_eq!(a.partial_cmp(&y), Some(expected));
            assert_eq!(a == b, x == y);
            assert_eq!(a == y, x == y);
        }
    }
}

#[test]
fn order_inline_tail_then_length() {
    let a = UmbraArcString::new("abcde");
    let b = UmbraArcString::new("abcde\0");
    assert_eq!(a.cmp(&b), Ordering::Less);
    assert_eq!(b.cmp(&a), Ordering::Greater);
    assert!(a < b);
    let c = UmbraArcString::new("abcdf");
    assert_eq!(b.cmp(&c), Ordering::Less);
}

#[test]
fn order_mixed_representations() {
    let inline = UmbraArcString::new("abcdefgh");
    let shared = UmbraArcString::new("abcdefgh\0\0\0\0\0");
    assert_eq!(inline.cmp(&shared), Ordering::Less);
    assert_eq!(shared.cmp(&inline), Ordering::Greater);
    let short = UmbraArcString::new("ab");
    let long = UmbraArcString::new("ab\0\0 and more after that");
    assert_eq!(short.cmp(&long), Ordering::Less);
    assert_eq!(long.cmp(&short), Ordering::Greater);
}

#[test]
fn short_contents_differing_in_trailing_zeros_order_by_length() {
    let a = UmbraArcString::new("a");
    let b = UmbraArcString::new("a\0");
    assert_eq!(a.cmp(&b), Ordering::Less);
    assert_eq!(b.cmp(&a), Ordering::Greater);
    assert_eq!(a.partial_cmp(&b), Some(Ordering::Less));
    assert_ne!(a, b);
    let e = UmbraArcString::new("");
    let z = UmbraArcString::new("\0");
    assert_eq!(e.cmp(&z), Ordering::Less);
    assert_eq!(z.cmp(&e), Ordering::Greater);
}

#[test]
fn order_consistent_with_equality() {
    let samples = ["", "\0", "a", "a\0", "a\0\0\0", "abcd", "abcd\0", "abcdefghijklm", "abcdefghijklm\0"];
    for x in samples {
        for y in samples {
            let a = UmbraArcString::new(x);
            let b = UmbraArcString::new(y);
            assert_eq!(a.cmp(&b) == Ordering::Equal, a == b);
            assert_eq!(a.cmp(&b), b.cmp(&a).reverse());
            assert_eq!(a.cmp(&b), x.as_bytes().cmp(y.as_bytes()));
        }
    }
}

#[test]
fn clones_share_the_buffer() {
    let a = UmbraArcString::new("shared content that lives on the heap");
    let b = a.clone();
    assert_eq!(a, b);
    assert_eq!(a.as_str().as_ptr(), b.as_str().as_ptr());
    let c = UmbraArcString::new("inline");
    let d = c.clone();
    assert_eq!(c, d);
    assert_eq!(d.as_str(), "inline");
}

#[test]
fn many_clones_then_drops() {
    for round in 0..200 {
        let original = UmbraArcString::new("a heap-backed value that is cloned many times");
        let mut clones = Vec::new();
        for _ in 0..(round % 17 + 1) {
            clones.push(original.clone());
        }
        while let Some(c) = clones.pop() {
            assert_eq!(c.as_str(), "a heap-backed value that is cloned many times");
            drop(c);
        }
        let survivor = original.clone();
        drop(original);
        assert_eq!(survivor.as_str(), "a heap-backed value that is cloned many times");
    }
}
