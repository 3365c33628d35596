use markov_brain::vocab::Vocabulary;

#[test]
fn intern_assigns_dense_sequential_ids() {
    let mut v = Vocabulary::new();
    assert_eq!(v.intern("alpha"), 0);
    assert_eq!(v.intern("beta"), 1);
    assert_eq!(v.intern("gamma"), 2);
    assert_eq!(v.len(), 3);
}

#[test]
fn intern_twice_returns_same_id() {
    let mut v = Vocabulary::new();
    let first = v.intern("token");
    let second = v.intern("token");
    assert_eq!(first, second);
    assert_eq!(v.len(), 1);
}

#[test]
fn resolve_returns_original_string() {
    let mut v = Vocabulary::new();
    let a = v.intern("alpha");
    let b = v.intern("β-ray");
    assert_eq!(v.resolve(a), "alpha");
    assert_eq!(v.resolve(b), "β-ray");
}

#[test]
fn resolution_is_stable_under_growth() {
    let mut v = Vocabulary::new();
    let a = v.intern("alpha");
    for i in 0..50 {
        v.intern(&format!("filler{i}"));
    }
    assert_eq!(v.resolve(a), "alpha");
    assert_eq!(v.lookup("alpha"), Some(a));
}

#[test]
fn lookup_unknown_is_none() {
    let mut v = Vocabulary::new();
    v.intern("known");
    assert_eq!(v.lookup("unknown"), None);
    assert_eq!(v.lookup("known"), Some(0));
}
