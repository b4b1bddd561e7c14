use assets::index_map::IndexMap;
use assets::Name;

fn n(s: &str) -> Name {
    s.parse().unwrap()
}

#[test]
fn insert_then_find() {
    let mut m = IndexMap::new();
    let names: Vec<Name> = (0..100).map(|i| n(&format!("t:e{}", i))).collect();
    for (i, name) in names.iter().enumerate() {
        let h = IndexMap::fixed_hash_of(name);
        assert_eq!(m.insert_by_hash_unchecked(h, name.clone()), i as u32);
    }
    assert_eq!(m.len(), 100);
    for (i, name) in names.iter().enumerate() {
        assert_eq!(m.find(name), Some(i as u32));
        assert_eq!(m[i], *name);
    }
    assert_eq!(m.find(&n("t:absent")), None);
    assert_eq!(m.iter().len(), 100);
}

#[test]
fn empty_map_finds_nothing() {
    let m: IndexMap<Name> = IndexMap::default();
    assert_eq!(m.find(&n("t:a")), None);
    assert_eq!(m.len(), 0);
}

#[test]
fn find_by_hash_needs_the_inserted_hash() {
    let mut m = IndexMap::new();
    m.insert_by_hash_unchecked(42, n("t:a"));
    assert_eq!(m.find_by_hash(42, &n("t:a")), Some(0));
    assert_eq!(m.find_by_hash(43, &n("t:a")), None);
    assert_eq!(m.find_by_hash(42, &n("t:b")), None);
}

#[test]
fn colliding_hashes_are_told_apart() {
    let mut m = IndexMap::new();
    for i in 0..20 {
        m.insert_by_hash_unchecked(7, n(&format!("t:c{}", i)));
    }
    for i in 0..20 {
        assert_eq!(m.find_by_hash(7, &n(&format!("t:c{}", i))), Some(i));
    }
}
