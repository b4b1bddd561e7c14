use assets::{
    BuildErrorKind, Facet, Kind, Name, NameError, Registries, RegistriesError, RegistryBuilder,
    RegistryError, Storage,
};

struct Block;
impl Kind for Block {
    type Key = &'static str;
    const KEY: &'static &'static str = &"block";
}

struct Item;
impl Kind for Item {
    type Key = &'static str;
    const KEY: &'static &'static str = &"item";
}

struct Model();
impl Facet for Model {
    const NAME: &'static str = "Model";
    const STORAGE: Storage<Self> = Storage::Required;
}

struct Hardness(u32);
impl Facet for Hardness {
    const NAME: &'static str = "Hardness";
}

fn n(s: &str) -> Name {
    s.parse().unwrap()
}

fn parse_err(s: &str) -> NameError {
    s.parse::<Name>().err().unwrap()
}

#[test]
fn name_error_messages() {
    assert_eq!(parse_err("abc").to_string(), "missing ':' separator");
    assert_eq!(parse_err("t:Ab").to_string(), "invalid character 'A' at byte 2");
    assert_eq!(parse_err("t:a\nb").to_string(), "invalid character '\\n' at byte 3");
    assert_eq!(parse_err("t:a'b").to_string(), "invalid character '\\'' at byte 3");
    assert_eq!(parse_err("t:a//b").to_string(), "empty segment at byte 4");
    assert_eq!(parse_err(":a").to_string(), "empty namespace");
    assert_eq!(parse_err("tt:xyzxyzxyz Q").to_string(), "invalid character ' ' at byte 12");
}

#[test]
fn name_shows_its_text() {
    assert_eq!(n("ns:a/b").to_string(), "ns:a/b");
    assert_eq!(n("ns:a/b").as_ref(), "ns:a/b");
}

#[test]
fn build_error_kind_messages() {
    let a = || n("t:a");
    let b = || n("t:b");
    let cases = vec![
        (BuildErrorKind::MissingComponent { entry: a(), component: "Model" }, "t:a missing Model"),
        (BuildErrorKind::DuplicateComponent { entry: a(), component: "Model" }, "t:a has duplicate Model"),
        (
            BuildErrorKind::PinOutOfRange { entry: a(), slot: 5, len: 2 },
            "t:a pinned to 5 but registry has 2 entries",
        ),
        (
            BuildErrorKind::PinConflict { first: a(), second: b(), slot: 0 },
            "slot 0 pinned to both t:a and t:b",
        ),
        (
            BuildErrorKind::DoublePin { entry: a(), first: 1, second: 12 },
            "t:a pinned to both 1 and 12 slots",
        ),
        (BuildErrorKind::DuplicateColumn { component: "Hardness" }, "Hardness already exists"),
        (
            BuildErrorKind::InsertOutOfRange { component: "Model", id: 4294967295, len: 10 },
            "Model value for id 4294967295 but registry has 10 entries",
        ),
        (BuildErrorKind::CapExceeded { len: 2, cap: 1 }, "registry has 2 entries but cap is 1"),
        (
            BuildErrorKind::DuplicateProperty { entry: b(), property: "Lit" },
            "t:b has duplicate property Lit",
        ),
        (BuildErrorKind::TooManyStates { entry: a() }, "t:a state count overflows u32"),
        (BuildErrorKind::TooManyStatesTotal { entry: a() }, "total state count overflows u32 at t:a"),
    ];
    for (e, m) in cases {
        assert_eq!(e.to_string(), m);
    }
}

#[test]
fn build_error_message_counts_and_joins() {
    let mut b = RegistryBuilder::<Block>::new();
    b.declare::<Model>();
    b.create(n("t:a")).unwrap();
    let e = b.build().map(|_| ()).unwrap_err();
    assert_eq!(e.to_string(), "1 build error: t:a missing Model");

    let mut b = RegistryBuilder::<Block>::new().with_cap(1);
    b.create(n("t:a")).unwrap().with(Hardness(1)).with(Hardness(2));
    b.create(n("t:b")).unwrap();
    let e = b.build().map(|_| ()).unwrap_err();
    assert_eq!(
        e.to_string(),
        "2 build errors: registry has 2 entries but cap is 1; t:a has duplicate Hardness"
    );
}

#[test]
fn registry_error_message() {
    let mut b = RegistryBuilder::<Block>::new();
    b.create(n("t:a")).unwrap();
    let e = b.create(n("t:a")).err().unwrap();
    assert_eq!(e, RegistryError::DuplicateStableId(n("t:a")));
    assert_eq!(e.to_string(), "t:a already in registry");
}

#[test]
fn registries_error_messages() {
    let mut b = Registries::builder();
    b.add_kind::<Block>(n("t:block"), |_| {}).unwrap();
    let e = b.add_kind::<Block>(n("t:other"), |_| {}).err().unwrap();
    assert_eq!(e.to_string(), "block kind already exists");
    let e = b.add_kind::<Item>(n("t:block"), |_| {}).err().unwrap();
    assert_eq!(e, RegistriesError::DuplicateKindStableId(n("t:block")));
    assert_eq!(e.to_string(), "t:block kind stable id already exists under different kind");
}

#[test]
fn registries_build_error_messages() {
    let mut b = Registries::builder();
    b.add_kind::<Block>(n("t:block"), |k| {
        k.declare::<Model>();
        k.create(n("t:stone")).unwrap();
    })
    .unwrap()
    .add_kind::<Item>(n("t:item"), |k| {
        k.declare::<Model>();
        k.create(n("t:stick")).unwrap();
    })
    .unwrap();
    let e = b.build().map(|_| ()).unwrap_err();
    assert_eq!(e.to_string(), "failed to build this many kinds 2");
    assert_eq!(e.errors()[0].to_string(), "failed to build kind t:block");
    assert_eq!(e.errors()[1].to_string(), "failed to build kind t:item");
    assert_eq!(
        e.errors()[1].source().unwrap().to_string(),
        "1 build error: t:stick missing Model"
    );
}
