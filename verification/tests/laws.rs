use assets::{
    BuildErrorKind, Column, Facet, Id, Name, NameError, Property, Registries, RegistryBuilder,
    StateId, Storage,
};

#[derive(Debug)]
struct Block;

#[derive(Debug, PartialEq, Clone)]
struct Hardness(u32);
impl Facet for Hardness {
    const NAME: &'static str = "Hardness";
}

#[derive(Debug, PartialEq)]
struct Model(u32);
impl Facet for Model {
    const NAME: &'static str = "Model";
    const STORAGE: Storage<Self> = Storage::Required;
}

#[derive(Debug, PartialEq)]
struct Solid(bool);
impl Facet for Solid {
    const NAME: &'static str = "Solid";
    const STORAGE: Storage<Self> = Storage::Dense(Solid(false));
}

#[derive(Debug, PartialEq, Clone, Copy)]
struct Level(u32);
impl Property for Level {
    const NAME: &'static str = "Level";
    const COUNT: u32 = 3;
    fn to_raw(self) -> u32 {
        self.0
    }
    fn from_raw(raw: u32) -> Self {
        Level(raw)
    }
}

#[derive(Debug, PartialEq, Clone, Copy)]
struct Lit(bool);
impl Property for Lit {
    const NAME: &'static str = "Lit";
    const COUNT: u32 = 2;
    fn to_raw(self) -> u32 {
        u32::from(self.0)
    }
    fn from_raw(raw: u32) -> Self {
        Lit(raw == 1)
    }
}

#[derive(Debug, PartialEq, Clone, Copy)]
struct Axis(u32);
impl Property for Axis {
    const NAME: &'static str = "Axis";
    const COUNT: u32 = 5;
    fn to_raw(self) -> u32 {
        self.0
    }
    fn from_raw(raw: u32) -> Self {
        Axis(raw)
    }
}

fn n(s: &str) -> Name {
    s.parse().unwrap()
}

#[test]
fn ids_are_a_permutation_with_pins() {
    let mut b = RegistryBuilder::<Block>::new();
    for s in ["t:q", "t:w", "t:e", "t:r", "t:t", "t:y"] {
        b.create(n(s)).unwrap();
    }
    b.entry(n("t:y")).get().unwrap().pin(Id::from_raw(0));
    b.entry(n("t:e")).get().unwrap().pin(Id::from_raw(4));
    let r = b.build().unwrap();
    let mut seen = vec![false; 6];
    for (id, name) in r.iter() {
        assert_eq!(r.id(name.as_str()), Some(id));
        assert!(!seen[id.index()]);
        seen[id.index()] = true;
    }
    assert_eq!(r.id("t:y").unwrap().raw(), 0);
    assert_eq!(r.id("t:e").unwrap().raw(), 4);
    // the others follow name order in the free slots 1, 2, 3, 5
    assert_eq!(r.id("t:q").unwrap().raw(), 1);
    assert_eq!(r.id("t:r").unwrap().raw(), 2);
    assert_eq!(r.id("t:t").unwrap().raw(), 3);
    assert_eq!(r.id("t:w").unwrap().raw(), 5);
}

#[test]
fn set_then_read_keeps_other_properties() {
    let mut b = RegistryBuilder::<Block>::new();
    b.create(n("t:a")).unwrap();
    b.create(n("t:m"))
        .unwrap()
        .property::<Level>()
        .property::<Lit>()
        .property::<Axis>();
    let r = b.build().unwrap();
    let id = r.id("t:m").unwrap();
    assert_eq!(r.state_count(id), 30);
    let base = r.default_state(id);
    for lv in 0..3 {
        for lit in [false, true] {
            for ax in 0..5 {
                let s = r.set(base, Level(lv)).unwrap();
                let s = r.set(s, Lit(lit)).unwrap();
                let s = r.set(s, Axis(ax)).unwrap();
                assert_eq!(r.entry_of(s), id);
                assert_eq!(r.property::<Level>(s), Some(Level(lv)));
                assert_eq!(r.property::<Lit>(s), Some(Lit(lit)));
                assert_eq!(r.property::<Axis>(s), Some(Axis(ax)));
                // change the middle one back and forth
                let t = r.set(s, Lit(!lit)).unwrap();
                assert_eq!(r.property::<Level>(t), Some(Level(lv)));
                assert_eq!(r.property::<Axis>(t), Some(Axis(ax)));
                assert_eq!(r.set(t, Lit(lit)).unwrap(), s);
            }
        }
    }
    // a value past the count is refused
    assert!(r.set(base, Level(3)).is_none());
}

#[test]
fn entry_of_default_state_is_the_entry() {
    let mut b = RegistryBuilder::<Block>::new();
    b.create(n("t:a")).unwrap().property::<Axis>();
    b.create(n("t:b")).unwrap();
    b.create(n("t:c")).unwrap().property::<Lit>();
    let r = b.build().unwrap();
    assert_eq!(r.total_states(), 8);
    for (id, _) in r.iter() {
        assert_eq!(r.entry_of(r.default_state(id)), id);
    }
    assert_eq!(r.entry_of(StateId::from_raw(7)), r.id("t:c").unwrap());
}

#[test]
fn range_lists_prefixed_names_in_order() {
    let mut b = RegistryBuilder::<Block>::new();
    for s in ["t:stone", "t:sand", "t:stick", "u:stone", "t:apple", "t:st"] {
        b.create(n(s)).unwrap();
    }
    let r = b.build().unwrap();
    let got: Vec<&str> = r.range("t:st").into_iter().map(|(_, nm)| nm.as_str()).collect();
    assert_eq!(got, vec!["t:st", "t:stick", "t:stone"]);
    for (id, nm) in r.range("t:s") {
        assert_eq!(r.name(id), Some(nm));
    }
    assert_eq!(r.range("x").len(), 0);
    assert_eq!(r.range("").len(), 6);
    assert_eq!(r.range("t:é").len(), 0);
}

#[test]
fn names_and_lookups() {
    let mut b = RegistryBuilder::<Block>::new();
    b.create(n("t:b")).unwrap();
    b.create(n("t:a")).unwrap();
    assert!(b.contains(&n("t:a")));
    assert!(!b.contains(&n("t:z")));
    let order: Vec<(u32, String)> = b.iter().into_iter().map(|(i, nm)| (i, nm.as_str().to_string())).collect();
    assert_eq!(order, vec![(1, "t:a".to_string()), (0, "t:b".to_string())]);
    let r = b.build().unwrap();
    assert_eq!(r.len(), 2);
    assert!(!r.is_empty());
    assert_eq!(r.names().len(), 2);
    assert_eq!(r.names()[0].as_str(), "t:a");
    assert_eq!(r.name(Id::from_raw(2)), None);
    let remap = r.remap(&[n("t:a"), n("t:q")]);
    assert!(!remap.is_complete());
    assert_eq!(remap.missing, vec![(1, n("t:q"))]);
    assert!(r.remap(&[n("t:b")]).is_complete());
}

#[test]
fn no_properties_means_states_are_ids() {
    let mut b = RegistryBuilder::<Block>::new();
    for s in ["t:a", "t:b", "t:c", "t:d"] {
        b.create(n(s)).unwrap();
    }
    let r = b.build().unwrap();
    for (id, _) in r.iter() {
        assert_eq!(r.default_state(id).raw(), id.raw());
    }
    assert_eq!(r.total_states(), 4);
}

#[test]
fn permute_places_items_at_their_ids() {
    let mut b = RegistryBuilder::<Block>::new();
    b.create(n("t:c")).unwrap();
    b.create(n("t:a")).unwrap();
    b.create(n("t:b")).unwrap();
    let init = b.build_init().unwrap();
    let perm = init.perm();
    assert_eq!(perm.id(0).raw(), 2);
    assert_eq!(perm.id(1).raw(), 0);
    assert_eq!(perm.id(2).raw(), 1);
    assert_eq!(perm.permute(vec!["c", "a", "b"]), vec!["a", "b", "c"]);
}

#[test]
fn insert_column_errors() {
    let mut b = RegistryBuilder::<Block>::new();
    b.create(n("t:a")).unwrap().with(Hardness(1));
    b.create(n("t:b")).unwrap();
    let mut init = b.build_init().unwrap();
    let a = init.id("t:a").unwrap();
    let e = init.insert_column(vec![(a, Hardness(2))]).unwrap_err();
    assert_eq!(e.errors().to_vec(), vec![BuildErrorKind::DuplicateColumn { component: Hardness::NAME }]);
    let e = init
        .insert_column(vec![(Id::from_raw(9), Model(1)), (a, Model(2)), (a, Model(3))])
        .unwrap_err();
    assert_eq!(
        e.errors().to_vec(),
        vec![
            BuildErrorKind::InsertOutOfRange { component: Model::NAME, id: 9, len: 2 },
            BuildErrorKind::DuplicateComponent { entry: n("t:a"), component: Model::NAME },
            BuildErrorKind::MissingComponent { entry: n("t:b"), component: Model::NAME },
        ]
    );
    init.insert_column(vec![(a, Solid(true))]).unwrap();
    let r = init.build();
    let col = r.column::<Solid>().unwrap();
    assert_eq!(col[r.id("t:b").unwrap()], Solid(false));
    assert_eq!(col.len(), 2);
    assert!(r.column::<Model>().is_none());
}

#[test]
fn errors_come_in_order() {
    let mut b = RegistryBuilder::<Block>::new().with_cap(1);
    b.create(n("t:a")).unwrap().pin(Id::from_raw(5)).with(Hardness(1)).with(Hardness(2));
    b.create(n("t:b")).unwrap().property::<Lit>().property::<Lit>();
    let e = b.build().map(|_| ()).unwrap_err();
    assert_eq!(
        e.errors().to_vec(),
        vec![
            BuildErrorKind::CapExceeded { len: 2, cap: 1 },
            BuildErrorKind::PinOutOfRange { entry: n("t:a"), slot: 5, len: 2 },
            BuildErrorKind::DuplicateComponent { entry: n("t:a"), component: Hardness::NAME },
            BuildErrorKind::DuplicateProperty { entry: n("t:b"), property: Lit::NAME },
        ]
    );
}

#[test]
fn columns_by_hand() {
    let dense: Column<Block, Hardness> = Column::dense(vec![Hardness(1), Hardness(2)]);
    assert_eq!(dense.get(Id::from_raw(1)), Some(&Hardness(2)));
    assert_eq!(dense.get(Id::from_raw(2)), None);
    assert_eq!(dense.as_slice().unwrap().len(), 2);
    let sparse: Column<Block, Hardness> = Column::sparse(vec![3, 7], vec![Hardness(30), Hardness(70)]);
    assert_eq!(sparse.get(Id::from_raw(7)), Some(&Hardness(70)));
    assert_eq!(sparse.get(Id::from_raw(4)), None);
    assert!(sparse.as_slice().is_none());
    assert!(!sparse.is_empty());
    let mut it = sparse.iter();
    let (i, v) = it.next().unwrap();
    assert_eq!((i.raw(), v), (3, &Hardness(30)));
    let (i, v) = it.next().unwrap();
    assert_eq!((i.raw(), v), (7, &Hardness(70)));
    assert!(it.next().is_none());
}

#[test]
fn raw_id_steps() {
    let id: Id<Block> = Id::from_raw(5);
    assert_eq!(id.next().unwrap().raw(), 6);
    assert_eq!(id.next().unwrap().prev().unwrap(), id);
    assert!(Id::<Block>::from_raw(0).prev().is_none());
    assert!(Id::<Block>::from_raw(u32::MAX).next().is_none());
    assert_eq!(id.erase().into_typed::<Block>(), id);
    assert_eq!(id.index(), 5);
}

#[test]
fn name_parts() {
    let name = n("lib:block/wood/oak");
    assert_eq!(name.namespace(), "lib");
    assert_eq!(name.path(), "block/wood/oak");
    assert_eq!(name.segments(), vec!["block", "wood", "oak"]);
    assert_eq!(NameError::BadChar { ch: 'é', at: 3 }.span(), Some((3, 2)));
    assert_eq!(NameError::EmptySegment { at: 4 }.span(), Some((4, 1)));
    assert_eq!(NameError::MissingColon.span(), None);
}

struct Fluid;
impl assets::Kind for Fluid {
    type Key = &'static str;
    const KEY: &'static &'static str = &"fluid";
}

#[test]
fn registries_kind_mut_and_init() {
    let mut b = Registries::builder();
    b.add_kind::<Fluid>(n("t:fluid"), |_| {}).unwrap();
    assert!(b.kind_mut::<Fluid, _>(|k| {
        k.create(n("t:water")).unwrap();
    }));
    assert!(!b.kind_mut::<Block, _>(|_| {}));
    let mut init = b.build_init().unwrap();
    assert_eq!(init.get::<Fluid>().unwrap().len(), 1);
    let k = init.kind_mut::<Fluid>().unwrap();
    let w = k.id("t:water").unwrap();
    k.insert_column(vec![(w, Hardness(9))]).unwrap();
    let r = init.build();
    let fluids = r.get::<Fluid>().unwrap();
    assert_eq!(fluids.column::<Hardness>().unwrap()[w].0, 9);
}

#[test]
fn registries_failures_carry_each_builders_errors() {
    let mut b = Registries::builder();
    b.add_kind::<Fluid>(n("t:fluid"), |k| {
        k.create(n("t:a")).unwrap().pin(Id::from_raw(3));
    })
    .unwrap();
    let e = b.build_init().map(|_| ()).unwrap_err();
    assert_eq!(e.errors().len(), 1);
    assert_eq!(e.errors()[0].stable_id, n("t:fluid"));
    assert_eq!(
        e.errors()[0].build.errors().to_vec(),
        vec![BuildErrorKind::PinOutOfRange { entry: n("t:a"), slot: 3, len: 1 }]
    );
}
