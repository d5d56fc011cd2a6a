use sto::ids::{executable_id, frame_id, node_id, ID_BOUND};
use sto::symcache::SymbolCache;

fn some(s: &str) -> Option<String> {
    Some(s.to_string())
}

#[test]
fn frame_id_is_stable_and_63_bit() {
    let a = frame_id("main", &some("/src/main.c"), Some(12), &None);
    let b = frame_id("main", &some("/src/main.c"), Some(12), &None);
    assert_eq!(a, b);
    assert!(a < ID_BOUND);
    assert!((a as i64) >= 0);
}

#[test]
fn frame_id_depends_on_every_field() {
    let base = frame_id("main", &some("/src/main.c"), Some(12), &None);
    assert_ne!(base, frame_id("main2", &some("/src/main.c"), Some(12), &None));
    assert_ne!(base, frame_id("main", &None, Some(12), &None));
    assert_ne!(base, frame_id("main", &some("/src/main.c"), Some(13), &None));
    assert_ne!(base, frame_id("main", &some("/src/main.c"), None, &None));
    assert_ne!(base, frame_id("main", &some("/src/main.c"), Some(12), &some("a.out")));
}

#[test]
fn frame_id_fields_do_not_run_together() {
    // "ab" + "c" and "a" + "bc" must hash from different bytes.
    assert_ne!(frame_id("ab", &some("c"), None, &None), frame_id("a", &some("bc"), None, &None));
}

#[test]
fn node_id_is_stable_and_scoped_by_seed() {
    let f = frame_id("main", &None, None, &None);
    let a = node_id(None, f, 7);
    assert_eq!(a, node_id(None, f, 7));
    assert!(a < ID_BOUND);
    assert_ne!(a, node_id(None, f, 8));
    assert_ne!(a, node_id(Some(0), f, 7));
    let child = node_id(Some(a), f, 7);
    assert_ne!(child, a);
    assert_eq!(child, node_id(Some(a), f, 7));
}

#[test]
fn executable_id_uses_name_and_version() {
    let plain = executable_id("server", &None);
    assert_eq!(plain, executable_id("server", &None));
    assert!(plain < ID_BOUND);
    assert_ne!(plain, executable_id("server", &some("1.2")));
    assert_ne!(plain, executable_id("client", &None));
}

#[test]
fn cache_demangles_and_keeps_plain_names() {
    let mut cache = SymbolCache::new(4);
    assert_eq!(cache.demangle("_ZN3foo3barEv"), "foo::bar");
    assert_eq!(cache.demangle("_ZN3foo3barEv"), "foo::bar");
    assert_eq!(cache.demangle("unknown"), "unknown");
}

#[test]
fn cache_frame_id_matches_direct_hash_across_evictions() {
    let mut cache = SymbolCache::new(1);
    let file = some("/x.c");
    let direct_a = frame_id("a", &file, Some(1), &None);
    let direct_b = frame_id("b", &file, Some(2), &None);
    assert_eq!(cache.frame_id("a", &file, Some(1), &None), direct_a);
    assert_eq!(cache.frame_id("b", &file, Some(2), &None), direct_b);
    assert_eq!(cache.frame_id("a", &file, Some(1), &None), direct_a);
    assert_eq!(cache.frame_id("a", &file, Some(1), &None), direct_a);
}
