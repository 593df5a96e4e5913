use domain_lookup::DomainLookup;
use domain_lookup::domain_rseg;

fn s(x: &str) -> Option<String> {
    Some(x.to_string())
}

#[test]
fn exact_match() {
    let mut tree = DomainLookup::new();
    tree.insert("api.twitter.com");
    assert_eq!(tree.lookup("api.twitter.com"), s("api.twitter.com"));
}

#[test]
fn no_partial_match() {
    // Interior nodes of a longer pattern are no match of their own, and
    // neither is anything below a registered exact domain.
    let mut tree = DomainLookup::new();
    tree.insert("api.twitter.com");
    assert_eq!(tree.lookup("twitter.com"), None);
    assert_eq!(tree.lookup("com"), None);
    assert_eq!(tree.lookup("beta.api.twitter.com"), None);
    assert_eq!(tree.lookup("api.github.com"), None);
}

#[test]
fn wildcard_match() {
    let mut tree = DomainLookup::new();
    tree.insert(".twitter.com");
    assert_eq!(tree.lookup("api.twitter.com"), s(".twitter.com"));
    assert_eq!(tree.lookup("a.b.twitter.com"), s(".twitter.com"));
}

#[test]
fn wildcard_boundary_itself() {
    // The boundary requires at least one label below it: the concrete
    // suffix itself, absent a separate exact insertion, is no match.
    let mut tree = DomainLookup::new();
    tree.insert(".twitter.com");
    assert_eq!(tree.lookup("twitter.com"), None);
    assert_eq!(tree.lookup("com"), None);
    assert_eq!(tree.lookup("org"), None);
}

#[test]
fn exact_and_wildcard_on_one_node() {
    // One node can be both a terminal and a boundary: the exact pattern
    // answers for the domain itself, the wildcard for everything below.
    let mut tree = DomainLookup::new();
    tree.insert("twitter.com");
    tree.insert(".twitter.com");
    assert_eq!(tree.lookup("twitter.com"), s("twitter.com"));
    assert_eq!(tree.lookup("x.twitter.com"), s(".twitter.com"));
}

#[test]
fn exact_beats_wildcard() {
    let mut tree = DomainLookup::new();
    tree.insert(".twitter.com");
    tree.insert("api.twitter.com");
    assert_eq!(tree.lookup("api.twitter.com"), s("api.twitter.com"));
    assert_eq!(tree.lookup("beta.twitter.com"), s(".twitter.com"));
}

#[test]
fn deepest_wildcard_wins() {
    let mut tree = DomainLookup::new();
    tree.insert(".com");
    tree.insert(".twitter.com");
    assert_eq!(tree.lookup("api.twitter.com"), s(".twitter.com"));
    assert_eq!(tree.lookup("api.github.com"), s(".com"));
}

#[test]
fn fallback_suffix_is_the_boundary() {
    // The fallback reports the boundary's own suffix, not the deeper
    // labels the walk happened to pass before stopping.
    let mut tree = DomainLookup::new();
    tree.insert(".twitter.com");
    tree.insert("api.twitter.com");
    assert_eq!(tree.lookup("beta.api.twitter.com"), s(".twitter.com"));
}

#[test]
fn wildcard_marks_existing_node() {
    // A wildcard insertion marks its boundary also where the node already
    // exists from an earlier exact insertion.
    let mut tree = DomainLookup::new();
    tree.insert("api.twitter.com");
    tree.insert(".twitter.com");
    assert_eq!(tree.lookup("beta.twitter.com"), s(".twitter.com"));
    assert_eq!(tree.lookup("api.twitter.com"), s("api.twitter.com"));
}

#[test]
fn idempotent_insert() {
    let mut once = DomainLookup::new();
    once.insert(".twitter.com");
    once.insert("api.twitter.com");
    let mut twice = DomainLookup::new();
    twice.insert(".twitter.com");
    twice.insert(".twitter.com");
    twice.insert("api.twitter.com");
    twice.insert("api.twitter.com");
    for q in ["api.twitter.com", "beta.twitter.com", "twitter.com", "com", "x.org"] {
        assert_eq!(once.lookup(q), twice.lookup(q));
    }
}

#[test]
fn insert_leaves_unmatched_lookups_alone() {
    let mut tree = DomainLookup::new();
    tree.insert(".twitter.com");
    assert_eq!(tree.lookup("a.twitter.com"), s(".twitter.com"));
    tree.insert("api.github.com");
    assert_eq!(tree.lookup("a.twitter.com"), s(".twitter.com"));
    assert_eq!(tree.lookup("github.com"), None);
    assert_eq!(tree.lookup("twitter.com"), None);
}

#[test]
fn unknown_domain() {
    let tree = DomainLookup::new();
    assert_eq!(tree.lookup("nonexistent.org"), None);
}

#[test]
fn single_label() {
    let mut tree = DomainLookup::new();
    tree.insert("localhost");
    assert_eq!(tree.lookup("localhost"), s("localhost"));
    assert_eq!(tree.lookup("a.localhost"), None);
    tree.insert(".com");
    assert_eq!(tree.lookup("x.com"), s(".com"));
    assert_eq!(tree.lookup("y.x.com"), s(".com"));
    assert_eq!(tree.lookup("com"), None);
    assert_eq!(tree.lookup("net"), None);
}

#[test]
fn traverse_exposes_suffix() {
    let mut tree = DomainLookup::new();
    tree.insert(".twitter.com");
    let hit = tree.traverse("api.twitter.com");
    assert!(hit.is_some());
    assert_eq!(hit.unwrap().0, "twitter.com".to_string());
    assert!(tree.traverse("api.github.com").is_none());
}

#[test]
fn empty_labels_are_ordinary_keys() {
    // Malformed patterns are stored silently: empty labels are keys.
    let mut tree = DomainLookup::new();
    tree.insert("");
    assert_eq!(tree.lookup(""), s(""));
    tree.insert(".");
    assert_eq!(tree.lookup("a."), s("."));
    assert_eq!(tree.lookup("a"), None);
}

#[test]
fn splits_rightmost_first() {
    let segs = domain_rseg("api.twitter.com");
    assert_eq!(segs, vec!["com".to_string(), "twitter".to_string(), "api".to_string()]);
    assert_eq!(domain_rseg(""), vec![String::new()]);
    assert_eq!(domain_rseg(".x"), vec!["x".to_string(), String::new()]);
    assert_eq!(domain_rseg("a..b"), vec!["b".to_string(), String::new(), "a".to_string()]);
}
