use std::borrow::Cow;
use std::collections::HashMap;
use std::hash::{DefaultHasher, Hash, Hasher};

use pulz_schedule::interned::{InternedStr, Interner};

#[test]
fn static_strings_are_deduplicated() {
    let mut interner = Interner::new();
    let a = InternedStr::from_static(&mut interner, "hello");
    let b = InternedStr::from_static(&mut interner, "hello");
    assert_eq!(a, b);
    assert_eq!(a.as_str(&interner), "hello");
}

#[test]
fn static_strings_with_different_content_differ() {
    let mut interner = Interner::new();
    let a = InternedStr::from_static(&mut interner, "hello");
    let b = InternedStr::from_static(&mut interner, "world");
    assert_ne!(a, b);
}

#[test]
fn from_string_deduplicates_by_content() {
    let mut interner = Interner::new();
    let a = InternedStr::from_string(&mut interner, String::from("dedup"));
    let b = InternedStr::from_string(&mut interner, String::from("dedup"));
    assert_eq!(a, b);
}

#[test]
fn from_ref_deduplicates_by_content() {
    let mut interner = Interner::new();
    let a = InternedStr::from_ref(&mut interner, "ref_test");
    let b = InternedStr::from_ref(&mut interner, "ref_test");
    assert_eq!(a, b);
}

#[test]
fn from_cow_borrowed_is_zero_cost() {
    let mut interner = Interner::new();
    let s: &'static str = "cow_static";
    let a = InternedStr::from_cow(&mut interner, Cow::Borrowed(s));
    let b = InternedStr::from_cow(&mut interner, Cow::Borrowed(s));
    assert_eq!(a, b);
}

#[test]
fn from_cow_owned_deduplicates() {
    let mut interner = Interner::new();
    let a = InternedStr::from_cow(&mut interner, Cow::Owned(String::from("cow_owned")));
    let b = InternedStr::from_cow(&mut interner, Cow::Owned(String::from("cow_owned")));
    assert_eq!(a, b);
}

/// The hash value of a handle.
fn hash_value(v: &InternedStr) -> u64 {
    let mut hasher = DefaultHasher::new();
    v.hash(&mut hasher);
    hasher.finish()
}

#[test]
fn hash_is_by_index() {
    let mut interner = Interner::new();
    let a = InternedStr::from_static(&mut interner, "same");
    let b = InternedStr::from_static(&mut interner, "same");
    assert_eq!(hash_value(&a), hash_value(&b));

    let c = InternedStr::from_static(&mut interner, "different");
    assert_ne!(a, c);
}

#[test]
fn handles_work_as_map_keys() {
    let mut interner = Interner::new();
    let mut map: HashMap<InternedStr, i32> = HashMap::new();
    let key = InternedStr::from_static(&mut interner, "key");

    map.insert(key, 42);
    assert_eq!(map.get(&key), Some(&42));

    // Re-interning the same string produces an equal handle.
    let key2 = InternedStr::from_static(&mut interner, "key");
    assert_eq!(map.get(&key2), Some(&42));
}

#[test]
fn debug_and_display() {
    let mut interner = Interner::new();
    let s = InternedStr::from_static(&mut interner, "display_test");
    assert_eq!(s.as_str(&interner).to_string(), "display_test");
    assert_eq!(
        format!("InternedStr({:?})", s.as_str(&interner)),
        "InternedStr(\"display_test\")"
    );
}

#[test]
fn copy_and_clone() {
    let mut interner = Interner::new();
    let a = InternedStr::from_static(&mut interner, "copied");
    let b: InternedStr = a; // Copy (implicit)
    let c = a.clone(); // Clone
    assert_eq!(a, b);
    assert_eq!(a, c);
}

#[test]
fn as_ref_and_deref() {
    let mut interner = Interner::new();
    let s = InternedStr::from_static(&mut interner, "asref_test");
    let _s: &str = s.as_str(&interner);
    assert_eq!(s.as_str(&interner), "asref_test");
}

#[test]
fn partial_eq_with_str() {
    let mut interner = Interner::new();
    let s = InternedStr::from_static(&mut interner, "eq_test");
    assert_eq!(s.as_str(&interner), "eq_test");
    assert_ne!(s.as_str(&interner), "other");
}

// --- further cases ---

#[test]
fn handles_count_from_one_in_order() {
    let mut interner = Interner::new();
    let a = InternedStr::from_ref(&mut interner, "a");
    let b = InternedStr::from_ref(&mut interner, "b");
    let a2 = InternedStr::from_string(&mut interner, "a".to_string());
    assert_eq!(a, InternedStr(1));
    assert_eq!(b, InternedStr(2));
    assert_eq!(a2, a);
    assert_eq!(interner.len(), 2);
    assert_eq!(interner.lookup("b"), Some(b));
    assert_eq!(interner.lookup("c"), None);
}

#[test]
fn from_static_array_interns_all_with_one_lock() {
    let mut interner = Interner::new();
    let labels = InternedStr::from_static_array(&mut interner, &["First", "Second", "Third"]);
    assert_eq!(labels.len(), 3);
    assert_eq!(labels[0].as_str(&interner), "First");
    assert_eq!(labels[1].as_str(&interner), "Second");
    assert_eq!(labels[2].as_str(&interner), "Third");

    // Re-interning the same array should produce identical handles.
    let labels2 = InternedStr::from_static_array(&mut interner, &["First", "Second", "Third"]);
    assert_eq!(labels, labels2);
}

#[test]
fn from_static_array_reuses_known_strings() {
    let mut interner = Interner::new();
    let known = InternedStr::from_static(&mut interner, "Second");
    let labels = InternedStr::from_static_array(&mut interner, &["First", "Second", "First"]);
    assert_eq!(labels[1], known);
    assert_eq!(labels[0], labels[2]);
    assert_eq!(interner.len(), 2);
}
