use assets::{BuildErrorKind, Facet, Kind, Name, Registries, RegistriesError, Storage};

struct Block;
impl Kind for Block {
    type Key = &'static str;
    const KEY: &'static &'static str = &"block";
}

struct Item;
impl Kind for Item {
    type Key = &'static str;
    const KEY: &'static &'static str = &"item";
}

struct Fluid;

struct Hardness(u32);
impl Facet for Hardness {
    const NAME: &'static str = "Hardness";
}

struct Model();
impl Facet for Model {
    const NAME: &'static str = "Model";
    const STORAGE: Storage<Self> = Storage::Required;
}

fn n(s: &str) -> Name {
    s.parse().unwrap()
}

#[test]
fn tests_two_kinds_roundtrip() {
    let mut b = Registries::builder();
    b.add_kind::<Block>(n("t:block"), |k| {
        k.create(n("t:stone")).unwrap().with(Hardness(5));
    })
    .unwrap()
    .add_kind::<Item>(n("t:item"), |k| {
        k.create(n("t:stick")).unwrap();
    })
    .unwrap();
    let r = b.build().unwrap();
    let blocks = r.get::<Block>().unwrap();
    let stone = blocks.id("t:stone").unwrap();
    assert_eq!(blocks.column::<Hardness>().unwrap()[stone].0, 5);
    assert_eq!(r.get::<Item>().unwrap().len(), 1);
    assert_eq!(r.kind_stable_id::<Block>().unwrap().as_str(), "t:block");
    assert!(r.get::<Fluid>().is_none());
    assert_eq!(r.kind_stable_id::<Fluid>(), None);
}

#[test]
fn tests_duplicate_kind() {
    let mut b = Registries::builder();
    b.add_kind::<Block>(n("t:block"), |_| {}).unwrap();
    assert_eq!(
        b.add_kind::<Block>(n("t:other"), |_| {}).err().unwrap(),
        RegistriesError::DuplicateKind(*<Block as Kind>::KEY)
    )
}

#[test]
fn tests_duplicate_kind_name() {
    let mut b = Registries::builder();
    b.add_kind::<Block>(n("t:block"), |_| {}).unwrap();
    assert_eq!(
        b.add_kind::<Item>(n("t:block"), |_| {}).err().unwrap(),
        RegistriesError::DuplicateKindStableId(n("t:block"))
    )
}

#[test]
fn tests_build_error_names_the_kind() {
    let mut b = Registries::builder();
    b.add_kind::<Block>(n("t:block"), |k| {
        k.declare::<Model>();
        k.create(n("t:stone")).unwrap();
    })
    .unwrap()
    .add_kind::<Item>(n("t:item"), |k| {
        k.create(n("t:stick")).unwrap();
    })
    .unwrap();
    let e = b.build().map(|_| ()).unwrap_err();
    assert_eq!(e.errors().len(), 1);
    assert_eq!(e.errors()[0].stable_id, n("t:block"));
    assert_eq!(
        e.errors()[0].build.errors().to_vec(),
        vec![BuildErrorKind::MissingComponent {
            entry: n("t:stone"),
            component: Model::NAME
        }]
    );
}

#[test]
fn tests_two_failing_kinds_both_reported() {
    let mut b = Registries::builder();
    b.add_kind::<Block>(n("t:block"), |k| {
        k.declare::<Model>();
        k.create(n("t:stone")).unwrap();
    })
    .unwrap()
    .add_kind::<Item>(n("t:item"), |k| {
        k.declare::<Model>();
        k.create(n("t:stick")).unwrap();
    })
    .unwrap();
    assert_eq!(b.build().map(|_| ()).unwrap_err().errors().len(), 2)
}

#[test]
fn registries_two_kinds_roundtrip() {
    let mut b = Registries::builder();
    b.add_kind::<Block>(n("t:block"), |k| {
        k.create(n("t:stone")).unwrap().with(Hardness(5));
    })
    .unwrap()
    .add_kind::<Item>(n("t:item"), |k| {
        k.create(n("t:stick")).unwrap();
    })
    .unwrap();
    let r = b.build().unwrap();
    let blocks = r.get::<Block>().unwrap();
    let stone = blocks.id("t:stone").unwrap();
    assert_eq!(blocks.column::<Hardness>().unwrap()[stone].0, 5);
    assert_eq!(r.get::<Item>().unwrap().len(), 1);
    assert_eq!(r.kind_stable_id::<Block>().unwrap().as_str(), "t:block");
    assert!(r.get::<Fluid>().is_none());
    assert_eq!(r.kind_stable_id::<Fluid>(), None);
}

#[test]
fn registries_duplicate_kind() {
    let mut b = Registries::builder();
    b.add_kind::<Block>(n("t:block"), |_| {}).unwrap();
    assert_eq!(
        b.add_kind::<Block>(n("t:other"), |_| {}).err().unwrap(),
        RegistriesError::DuplicateKind(*<Block as Kind>::KEY)
    )
}

#[test]
fn registries_duplicate_kind_name() {
    let mut b = Registries::builder();
    b.add_kind::<Block>(n("t:block"), |_| {}).unwrap();
    assert_eq!(
        b.add_kind::<Item>(n("t:block"), |_| {}).err().unwrap(),
        RegistriesError::DuplicateKindStableId(n("t:block"))
    )
}

#[test]
fn registries_build_error_names_the_kind() {
    let mut b = Registries::builder();
    b.add_kind::<Block>(n("t:block"), |k| {
        k.declare::<Model>();
        k.create(n("t:stone")).unwrap();
    })
    .unwrap()
    .add_kind::<Item>(n("t:item"), |k| {
        k.create(n("t:stick")).unwrap();
    })
    .unwrap();
    let e = b.build().map(|_| ()).unwrap_err();
    assert_eq!(e.errors().len(), 1);
    assert_eq!(e.errors()[0].stable_id, n("t:block"));
    assert_eq!(
        e.errors()[0].build.errors().to_vec(),
        vec![BuildErrorKind::MissingComponent {
            entry: n("t:stone"),
            component: Model::NAME
        }]
    );
}

#[test]
fn registries_two_failing_kinds_both_reported() {
    let mut b = Registries::builder();
    b.add_kind::<Block>(n("t:block"), |k| {
        k.declare::<Model>();
        k.create(n("t:stone")).unwrap();
    })
    .unwrap()
    .add_kind::<Item>(n("t:item"), |k| {
        k.declare::<Model>();
        k.create(n("t:stick")).unwrap();
    })
    .unwrap();
    assert_eq!(b.build().map(|_| ()).unwrap_err().errors().len(), 2)
}
