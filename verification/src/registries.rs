//! A family of registries, one per kind, each under a stable id.
use core::any::TypeId;
use core::marker::PhantomData;
use vstd::prelude::*;
use crate::erased::{AnyBox, same_type, type_key};
use crate::name::Name;
use crate::registry::error::{BuildError, BuildErrorKind};
use crate::registry::kind::Kind;
use crate::registry::builder::{BuilderData, RegistryBuilder};
use crate::registry::plan::BuilderView;
use crate::registry::table::{Registry, RegistryInit};

pub mod error;

pub use error::{RegistriesBuildError, RegistriesBuildErrorKind, RegistriesError};

verus! {

/// Gives a built registry its kind and boxes it.
pub(crate) trait BuildKind: Send + Sync {
    /// Boxes `init` as a `RegistryInit` of this kind.
    fn wrap(&self, init: RegistryInit<(), Name>) -> AnyBox;
}

/// The build steps of registries of kind `K`.
pub(crate) struct KindFns<K> {
    pub(crate) _k: PhantomData<K>,
}

impl<K: Send + Sync + 'static> BuildKind for KindFns<K> {
    fn wrap(&self, init: RegistryInit<(), Name>) -> AnyBox {
        AnyBox::new(init.retype::<K>())
    }
}

/// The build steps of one kind: a `Box<dyn BuildKind>`. Verus cannot reason
/// about sequences of trait objects, so the box is kept behind a struct whose
/// body it does not read.
#[verifier::external_body]
pub(crate) struct KindOps {
    f: Box<dyn BuildKind>,
}

impl KindOps {
    /// Wraps the trait object; nothing is claimed of it.
    #[verifier::external_body]
    pub(crate) fn new(f: Box<dyn BuildKind>) -> KindOps {
        KindOps { f }
    }

    /// The trait object, borrowed.
    #[verifier::external_body]
    pub(crate) fn get(&self) -> &dyn BuildKind {
        &*self.f
    }
}

/// One kind: its type key, its label, its stable id, its builder contents
/// (`D = BuilderData`) or its boxed built registry (`D = AnyBox`), and its
/// build step.
pub(crate) struct KindSlot<D> {
    pub(crate) key: TypeId,
    pub(crate) label: &'static str,
    pub(crate) stable_id: Name,
    pub(crate) data: D,
    pub(crate) ops: KindOps,
}

/// The type key and stable id of each kind, in the order added.
pub(crate) open spec fn slots_view<D>(kinds: Seq<KindSlot<D>>) -> Seq<(TypeId, Seq<char>)> {
    kinds.map_values(|k: KindSlot<D>| (k.key, k.stable_id@))
}

/// The builder of each kind, in the order added.
pub(crate) open spec fn builders_view(kinds: Seq<KindSlot<BuilderData>>) -> Seq<BuilderView> {
    kinds.map_values(|k: KindSlot<BuilderData>| k.data@)
}

/// The kinds among the first `k` whose builder reports problems, each with
/// its stable id and those problems, in the order added.
pub open spec fn build_failures(
    kinds: Seq<(TypeId, Seq<char>)>,
    builders: Seq<BuilderView>,
    k: int,
) -> Seq<(Seq<char>, Seq<BuildErrorKind<Seq<char>>>)>
    decreases k,
{
    if k <= 0 {
        Seq::empty()
    } else {
        build_failures(kinds, builders, k - 1) + if builders[k - 1].errors().len() > 0 {
            seq![(kinds[k - 1].1, builders[k - 1].errors())]
        } else {
            Seq::empty()
        }
    }
}

/// Whether every builder among the first `k` reports no problem.
pub open spec fn all_build(builders: Seq<BuilderView>, k: int) -> bool {
    forall|i: int| 0 <= i < k ==> (#[trigger] builders[i]).errors().len() == 0
}

/// Without a failing builder among the first `k`, there is no failure.
proof fn lemma_no_failures(kinds: Seq<(TypeId, Seq<char>)>, builders: Seq<BuilderView>, k: int)
    requires
        all_build(builders, k),
    ensures
        build_failures(kinds, builders, k).len() == 0,
    decreases k,
{
    if k > 0 {
        assert(builders[k - 1].errors().len() == 0);
        lemma_no_failures(kinds, builders, k - 1);
    }
}

/// A failing builder among the first `k` gives a failure.
proof fn lemma_some_failure(kinds: Seq<(TypeId, Seq<char>)>, builders: Seq<BuilderView>, k: int)
    requires
        !all_build(builders, k),
    ensures
        build_failures(kinds, builders, k).len() > 0,
    decreases k,
{
    if k > 0 {
        if builders[k - 1].errors().len() == 0 {
            assert(!all_build(builders, k - 1)) by {
                let i = choose|i: int| 0 <= i < k && (#[trigger] builders[i]).errors().len() != 0;
                assert(i != k - 1);
            }
            lemma_some_failure(kinds, builders, k - 1);
        }
    }
}

/// Whether some kind has type key `key`.
pub open spec fn has_key(kinds: Seq<(TypeId, Seq<char>)>, key: TypeId) -> bool {
    exists|j: int| 0 <= j < kinds.len() && kinds[j].0 == key
}

/// Whether some kind has stable id `name`.
pub open spec fn has_stable_id(kinds: Seq<(TypeId, Seq<char>)>, name: Seq<char>) -> bool {
    exists|j: int| 0 <= j < kinds.len() && kinds[j].1 == name
}

/// The first kind with type key `key`.
pub open spec fn first_with_key(kinds: Seq<(TypeId, Seq<char>)>, key: TypeId) -> Option<int> {
    if has_key(kinds, key) {
        Some(choose|j: int| 0 <= j < kinds.len() && kinds[j].0 == key && forall|x: int| 0 <= x < j ==> kinds[x].0 != key)
    } else {
        None
    }
}

/// Position of the first kind with type key `key`.
fn find_kind<D>(kinds: &Vec<KindSlot<D>>, key: &TypeId) -> (r: Option<usize>)
    ensures
        match r {
            Some(j) => j < kinds@.len() && kinds@[j as int].key == *key && forall|x: int| 0 <= x < j ==> kinds@[x].key != *key,
            None => !has_key(slots_view(kinds@), *key),
        },
{
    let mut j: usize = 0;
    while j < kinds.len()
        invariant
            j <= kinds@.len(),
            forall|x: int| 0 <= x < j ==> kinds@[x].key != *key,
        decreases kinds@.len() - j,
    {
        if same_type(&kinds[j].key, key) {
            return Some(j);
        }
        j = j + 1;
    }
    proof {
        if has_key(slots_view(kinds@), *key) {
            let x = choose|x: int| 0 <= x < slots_view(kinds@).len() && slots_view(kinds@)[x].0 == *key;
            assert(kinds@[x].key == *key);
        }
    }
    None
}

/// Whether a kind has stable id `name`.
fn find_stable_id<D>(kinds: &Vec<KindSlot<D>>, name: &Name) -> (r: bool)
    ensures
        r == has_stable_id(slots_view(kinds@), name@),
{
    let key = name.chars();
    let mut j: usize = 0;
    while j < kinds.len()
        invariant
            j <= kinds@.len(),
            key@ == name@,
            forall|x: int| 0 <= x < j ==> kinds@[x].stable_id@ != name@,
        decreases kinds@.len() - j,
    {
        match crate::order::compare_texts(kinds[j].stable_id.chars(), key) {
            crate::order::Rank::Same => {
                proof {
                    assert(slots_view(kinds@)[j as int].1 == name@);
                }
                return true;
            },
            _ => {
                proof {
                    crate::order::lemma_lt_irreflexive(name@);
                }
            },
        }
        j = j + 1;
    }
    proof {
        if has_stable_id(slots_view(kinds@), name@) {
            let x = choose|x: int| 0 <= x < slots_view(kinds@).len() && slots_view(kinds@)[x].1 == name@;
            assert(kinds@[x].stable_id@ == name@);
        }
    }
    false
}

/// Collects one registry builder per kind.
pub struct RegistriesBuilder<S = Name> {
    kinds: Vec<KindSlot<BuilderData>>,
    _s: PhantomData<S>,
}

impl<S> RegistriesBuilder<S> {
    /// Every kind's builder is well formed.
    #[verifier::type_invariant]
    spec fn registries_builder_inv(self) -> bool {
        forall|i: int| 0 <= i < self.kinds@.len() ==> (#[trigger] self.kinds@[i]).data@.wf()
    }
}

/// Registries built, to which columns can still be added.
pub struct RegistriesInit<S = Name> {
    kinds: Vec<KindSlot<AnyBox>>,
    _s: PhantomData<S>,
}

/// One registry per kind.
pub struct Registries<S = Name> {
    kinds: Vec<KindSlot<AnyBox>>,
    _s: PhantomData<S>,
}

impl View for RegistriesBuilder<Name> {
    type V = Seq<(TypeId, Seq<char>)>;

    closed spec fn view(&self) -> Seq<(TypeId, Seq<char>)> {
        slots_view(self.kinds@)
    }
}

impl View for RegistriesInit<Name> {
    type V = Seq<(TypeId, Seq<char>)>;

    closed spec fn view(&self) -> Seq<(TypeId, Seq<char>)> {
        slots_view(self.kinds@)
    }
}

impl View for Registries<Name> {
    type V = Seq<(TypeId, Seq<char>)>;

    closed spec fn view(&self) -> Seq<(TypeId, Seq<char>)> {
        slots_view(self.kinds@)
    }
}

impl RegistriesBuilder<Name> {
    /// The builder of each kind, in the order added.
    pub closed spec fn builders(&self) -> Seq<BuilderView> {
        builders_view(self.kinds@)
    }

    /// No kinds.
    pub fn new() -> (r: Self)
        ensures
            r@ == Seq::<(TypeId, Seq<char>)>::empty(),
            r.builders() == Seq::<BuilderView>::empty(),
    {
        let r = RegistriesBuilder { kinds: Vec::new(), _s: PhantomData };
        proof {
            assert(r@ =~= Seq::<(TypeId, Seq<char>)>::empty());
            assert(r.builders() =~= Seq::<BuilderView>::empty());
        }
        r
    }

    /// Adds a kind with type key `key` under `stable_id`; refuses a key or a
    /// stable id already present.
    pub(crate) fn insert_slot(&mut self, key: TypeId, label: &'static str, stable_id: Name, data: BuilderData, ops: KindOps) -> (r: Result<(), RegistriesError<Name>>)
        requires
            data@.wf(),
        ensures
            has_key(old(self)@, key) ==> r == Err::<(), RegistriesError<Name>>(RegistriesError::DuplicateKind(label))
                && final(self)@ == old(self)@ && final(self).builders() == old(self).builders(),
            !has_key(old(self)@, key) && has_stable_id(old(self)@, stable_id@) ==> (r matches Err(e)
                && e@ == RegistriesError::DuplicateKindStableId(stable_id@) && final(self)@ == old(self)@
                && final(self).builders() == old(self).builders()),
            !has_key(old(self)@, key) && !has_stable_id(old(self)@, stable_id@) ==> r is Ok && final(self)@
                == old(self)@.push((key, stable_id@)) && final(self).builders() == old(self).builders().push(data@),
    {
        proof {
            use_type_invariant(&*self);
        }
        if let Some(j) = find_kind(&self.kinds, &key) {
            proof {
                assert(slots_view(self.kinds@)[j as int].0 == key);
            }
            return Err(RegistriesError::DuplicateKind(label));
        }
        if find_stable_id(&self.kinds, &stable_id) {
            return Err(RegistriesError::DuplicateKindStableId(stable_id));
        }
        let ghost sid = stable_id@;
        let ghost dv = data@;
        let mut ks: Vec<KindSlot<BuilderData>> = Vec::new();
        core::mem::swap(&mut ks, &mut self.kinds);
        ks.push(KindSlot { key, label, stable_id, data, ops });
        self.kinds = ks;
        proof {
            assert(self@ =~= old(self)@.push((key, sid)));
            assert(self.builders() =~= old(self).builders().push(dv));
        }
        Ok(())
    }

    /// Adds the builder of kind `K` under `stable_id`; refuses a kind or a
    /// stable id already present.
    pub fn insert_kind<K: Kind<Key = &'static str> + Send + Sync + 'static>(&mut self, stable_id: Name, builder: RegistryBuilder<K, Name>) -> (r: Result<&mut Self, RegistriesError<Name>>)
        ensures
            exists|key: TypeId|
                {
                    &&& has_key(old(self)@, key) ==> (r matches Err(e) && e == RegistriesError::<Name>::DuplicateKind(*K::KEY)
                        && final(self)@ == old(self)@ && final(self).builders() == old(self).builders())
                    &&& !has_key(old(self)@, key) && has_stable_id(old(self)@, stable_id@) ==> (r matches Err(e)
                        && e@ == RegistriesError::DuplicateKindStableId(stable_id@) && final(self)@ == old(self)@
                        && final(self).builders() == old(self).builders())
                    &&& !has_key(old(self)@, key) && !has_stable_id(old(self)@, stable_id@) ==> (r matches Ok(s)
                        && s@ == old(self)@.push((key, stable_id@)) && s.builders() == old(self).builders().push(builder@)
                        && *final(s) == *final(self))
                },
    {
        let key = type_key::<K>();
        let label: &'static str = *K::KEY;
        let f: Box<dyn BuildKind> = Box::new(KindFns::<K> { _k: PhantomData });
        match self.insert_slot(key, label, stable_id, builder.into_data(), KindOps::new(f)) {
            Ok(()) => Ok(self),
            Err(e) => Err(e),
        }
    }

    /// Adds a new builder of kind `K`, filled by `f`, under `stable_id`;
    /// refuses a kind or a stable id already present.
    pub fn add_kind<K: Kind<Key = &'static str> + Send + Sync + 'static>(&mut self, stable_id: Name, f: impl FnOnce(&mut RegistryBuilder<K, Name>)) -> (r: Result<&mut Self, RegistriesError<Name>>)
        requires
            forall|b: &mut RegistryBuilder<K, Name>| call_requires(f, (b,)),
        ensures
            exists|key: TypeId|
                {
                    &&& has_key(old(self)@, key) ==> (r matches Err(e) && e == RegistriesError::<Name>::DuplicateKind(*K::KEY)
                        && final(self)@ == old(self)@ && final(self).builders() == old(self).builders())
                    &&& !has_key(old(self)@, key) && has_stable_id(old(self)@, stable_id@) ==> (r matches Err(e)
                        && e@ == RegistriesError::DuplicateKindStableId(stable_id@) && final(self)@ == old(self)@
                        && final(self).builders() == old(self).builders())
                    &&& !has_key(old(self)@, key) && !has_stable_id(old(self)@, stable_id@) ==> (r matches Ok(s)
                        && s@ == old(self)@.push((key, stable_id@)) && s.builders().len() == old(self).builders().len() + 1
                        && s.builders().drop_last() == old(self).builders() && *final(s) == *final(self))
                },
    {
        let mut builder = RegistryBuilder::<K, Name>::new();
        f(&mut builder);
        self.insert_kind(stable_id, builder)
    }

    /// Passes the builder of kind `K`, if it was added, to `f`; tells whether
    /// it was there. Only that kind's builder can change.
    pub fn kind_mut<K: Send + Sync + 'static, F: FnOnce(&mut RegistryBuilder<K, Name>)>(&mut self, f: F) -> (r: bool)
        requires
            forall|b: &mut RegistryBuilder<K, Name>| call_requires(f, (b,)),
        ensures
            final(self)@ == old(self)@,
            final(self).builders().len() == old(self).builders().len(),
            exists|key: TypeId|
                #![trigger has_key(old(self)@, key)]
                {
                    &&& r == has_key(old(self)@, key)
                    &&& forall|i: int|
                        0 <= i < old(self)@.len() && old(self)@[i].0 != key ==> #[trigger] final(self).builders()[i]
                            == old(self).builders()[i]
                    &&& r ==> exists|j: int, m: &mut RegistryBuilder<K, Name>|
                        #![trigger call_ensures(f, (m,), ()), old(self)@[j]]
                        {
                            &&& 0 <= j < old(self)@.len()
                            &&& old(self)@[j].0 == key
                            &&& (*m)@ == old(self).builders()[j]
                            &&& (*final(m))@ == final(self).builders()[j]
                            &&& call_ensures(f, (m,), ())
                        }
                },
    {
        proof {
            use_type_invariant(&*self);
        }
        let key = type_key::<K>();
        match find_kind(&self.kinds, &key) {
            Some(j) => {
                let ghost ks = self.kinds@;
                let mut kinds: Vec<KindSlot<BuilderData>> = Vec::new();
                core::mem::swap(&mut kinds, &mut self.kinds);
                let slot = kinds.remove(j);
                let KindSlot { key: k2, label, stable_id, data, ops } = slot;
                proof {
                    assert(ks[j as int].data@.wf());
                }
                let mut b = RegistryBuilder::<K, Name>::from_data(data);
                let ghost pre = b;
                f(&mut b);
                proof {
                    assert(exists|m: &mut RegistryBuilder<K, Name>|
                        #![trigger call_ensures(f, (m,), ())]
                        *m == pre && *final(m) == b && call_ensures(f, (m,), ()));
                }
                let ghost post = b;
                let data = b.into_data();
                kinds.insert(j, KindSlot { key: k2, label, stable_id, data, ops });
                proof {
                    assert forall|i: int| 0 <= i < kinds@.len() implies (#[trigger] kinds@[i]).data@.wf() by {
                        if i != j {
                            if i < j {
                                assert(kinds@[i] == ks[i]);
                            } else {
                                assert(kinds@[i] == ks[i]);
                            }
                        }
                    }
                }
                self.kinds = kinds;
                proof {
                    assert(slots_view(self.kinds@) =~= slots_view(ks));
                    assert(has_key(slots_view(ks), key)) by {
                        assert(slots_view(ks)[j as int].0 == key);
                    }
                    assert forall|i: int|
                        0 <= i < ks.len() && slots_view(ks)[i].0 != key implies #[trigger] builders_view(self.kinds@)[i]
                            == builders_view(ks)[i] by {
                        assert(i != j);
                        if i < j {
                            assert(self.kinds@[i] == ks[i]);
                        } else {
                            assert(self.kinds@[i] == ks[i]);
                        }
                    }
                }
                proof {
                    assert(self@ =~= old(self)@);
                    assert(has_key(old(self)@, key));
                    assert(old(self)@[j as int].0 == key);
                    assert(post@ == self.builders()[j as int]);
                    assert(pre@ == old(self).builders()[j as int]);
                    assert(forall|i: int|
                        0 <= i < old(self)@.len() && old(self)@[i].0 != key ==> #[trigger] self.builders()[i]
                            == old(self).builders()[i]);
                }
                true
            },
            None => {
                proof {
                    assert(!has_key(old(self)@, key));
                    assert(forall|i: int|
                        0 <= i < old(self)@.len() && old(self)@[i].0 != key ==> #[trigger] self.builders()[i]
                            == old(self).builders()[i]);
                }
                false
            },
        }
    }

    /// Builds every kind's registry, in the order added. Fails exactly when
    /// some kind's builder reports problems, with each such kind's stable id
    /// and problems, in the order added.
    pub fn build_init(self) -> (r: Result<RegistriesInit<Name>, RegistriesBuildError<Name>>)
        ensures
            r is Ok <==> all_build(self.builders(), self@.len() as int),
            match r {
                Ok(init) => init@ == self@,
                Err(e) => e@ == build_failures(self@, self.builders(), self@.len() as int) && e@.len() > 0,
            },
    {
        proof {
            use_type_invariant(&self);
        }
        let ghost v = self@;
        let ghost bs = self.builders();
        let ghost orig = self.kinds@;
        let RegistriesBuilder { kinds, _s } = self;
        let total = kinds.len();
        let mut rest = kinds;
        let mut inits: Vec<KindSlot<AnyBox>> = Vec::new();
        let mut errors: Vec<RegistriesBuildErrorKind<Name>> = Vec::new();
        let mut i: usize = 0;
        proof {
            assert(errors@.map_values(|e: RegistriesBuildErrorKind<Name>| e@) =~= Seq::empty());
            assert(rest@ =~= orig.subrange(0, total as int));
        }
        while rest.len() > 0
            invariant
                i + rest@.len() == total,
                total == orig.len(),
                v == slots_view(orig),
                bs == builders_view(orig),
                v.len() == total,
                rest@ == orig.subrange(i as int, total as int),
                forall|k: int| 0 <= k < orig.len() ==> (#[trigger] orig[k]).data@.wf(),
                all_build(bs, i as int) ==> slots_view(inits@) == v.take(i as int),
                errors@.map_values(|e: RegistriesBuildErrorKind<Name>| e@) == build_failures(v, bs, i as int),
            decreases rest@.len(),
        {
            let ghost rest0 = rest@;
            let slot = rest.remove(0);
            proof {
                assert(slot == orig[i as int]);
                assert(rest@ =~= orig.subrange(i as int + 1, total as int));
            }
            let KindSlot { key, label, stable_id, data, ops } = slot;
            let ghost sid = stable_id@;
            let ghost bv = data@;
            proof {
                assert(v[i as int] == (key, sid));
                assert(bs[i as int] == bv);
            }
            let builder = RegistryBuilder::<(), Name>::from_data(data);
            match builder.build_init() {
                Ok(init) => {
                    let boxed = ops.get().wrap(init);
                    inits.push(KindSlot { key, label, stable_id, data: boxed, ops });
                    proof {
                        if all_build(bs, i as int + 1) {
                            assert(slots_view(inits@) =~= v.take(i as int + 1));
                        }
                        assert(build_failures(v, bs, i as int + 1) =~= build_failures(v, bs, i as int));
                    }
                },
                Err(e) => {
                    let ghost before = errors@;
                    errors.push(RegistriesBuildErrorKind { stable_id, build: e });
                    proof {
                        let ev = errors@.map_values(|e: RegistriesBuildErrorKind<Name>| e@);
                        let bev = before.map_values(|e: RegistriesBuildErrorKind<Name>| e@);
                        assert(ev =~= bev.push(errors@[before.len() as int]@));
                        assert(errors@[before.len() as int]@ == (sid, bv.errors()));
                        assert(ev =~= build_failures(v, bs, i as int + 1));
                        assert(!all_build(bs, i as int + 1));
                    }
                },
            }
            proof {
                if all_build(bs, i as int + 1) {
                    assert(all_build(bs, i as int));
                }
            }
            i = i + 1;
        }
        if errors.len() == 0 {
            proof {
                assert(v.take(total as int) =~= v);
                if !all_build(bs, total as int) {
                    lemma_some_failure(v, bs, total as int);
                    assert(false);
                }
            }
            let init = RegistriesInit { kinds: inits, _s: PhantomData };
            proof {
                assert(init@ == slots_view(inits@));
            }
            Ok(init)
        } else {
            let err = RegistriesBuildError::new(errors);
            proof {
                if all_build(bs, total as int) {
                    lemma_no_failures(v, bs, total as int);
                }
            }
            Err(err)
        }
    }

    /// Builds every kind's registry; fails exactly as `build_init` does.
    pub fn build(self) -> (r: Result<Registries<Name>, RegistriesBuildError<Name>>)
        ensures
            r is Ok <==> all_build(self.builders(), self@.len() as int),
            match r {
                Ok(reg) => reg@ == self@,
                Err(e) => e@ == build_failures(self@, self.builders(), self@.len() as int) && e@.len() > 0,
            },
    {
        match self.build_init() {
            Ok(init) => Ok(init.build()),
            Err(e) => Err(e),
        }
    }
}

impl RegistriesInit<Name> {
    /// The registry of kind `K`, if there is one.
    pub fn get<K: Send + Sync + 'static>(&self) -> (r: Option<&Registry<K, Name>>)
        ensures
            r is Some ==> exists|key: TypeId| has_key(self@, key),
    {
        let key = type_key::<K>();
        match find_kind(&self.kinds, &key) {
            Some(j) => match {
                proof {
                    assert(slots_view(self.kinds@)[j as int].0 == key);
                    assert(has_key(self@, key));
                }
                self.kinds[j].data.downcast_ref::<RegistryInit<K, Name>>()
            } {
                Some(init) => Some(init.as_registry()),
                None => None,
            },
            None => None,
        }
    }

    /// The registry of kind `K`, to add columns to, if there is one.
    pub fn kind_mut<K: Send + Sync + 'static>(&mut self) -> (r: Option<&mut RegistryInit<K, Name>>)
        ensures
            r is Some ==> exists|key: TypeId| has_key(old(self)@, key),
    {
        let key = type_key::<K>();
        match find_kind(&self.kinds, &key) {
            Some(j) => {
                proof {
                    assert(slots_view(self.kinds@)[j as int].0 == key);
                    assert(has_key(self@, key));
                }
                self.kinds[j].data.downcast_mut::<RegistryInit<K, Name>>()
            },
            None => None,
        }
    }

    /// The registries, with no more columns to add. Each kind keeps its
    /// registry as built, with the columns added since.
    pub fn build(self) -> (r: Registries<Name>)
        ensures
            r@ == self@,
    {
        let RegistriesInit { kinds, _s } = self;
        Registries { kinds, _s: PhantomData }
    }
}

impl Registries<Name> {
    /// A builder for a family of registries.
    pub fn builder() -> (r: RegistriesBuilder<Name>)
        ensures
            r@ == Seq::<(TypeId, Seq<char>)>::empty(),
    {
        RegistriesBuilder::new()
    }

    /// The registry of kind `K`, if there is one.
    pub fn get<K: Send + Sync + 'static>(&self) -> (r: Option<&Registry<K, Name>>)
        ensures
            r is Some ==> exists|key: TypeId| has_key(self@, key),
    {
        let key = type_key::<K>();
        match find_kind(&self.kinds, &key) {
            Some(j) => {
                proof {
                    assert(slots_view(self.kinds@)[j as int].0 == key);
                    assert(has_key(self@, key));
                }
                match self.kinds[j].data.downcast_ref::<RegistryInit<K, Name>>() {
                    Some(init) => Some(init.as_registry()),
                    None => None,
                }
            },
            None => None,
        }
    }

    /// The stable id of kind `K`, if there is one.
    pub fn kind_stable_id<K: Send + Sync + 'static>(&self) -> (r: Option<&Name>)
        ensures
            exists|key: TypeId|
                match r {
                    Some(n) => #[trigger] first_with_key(self@, key) matches Some(j) && self@[j].1 == n@,
                    None => !has_key(self@, key),
                },
    {
        let key = type_key::<K>();
        match find_kind(&self.kinds, &key) {
            Some(j) => {
                proof {
                    assert(self@[j as int].1 == self.kinds@[j as int].stable_id@);
                    assert(has_key(self@, key)) by {
                        assert(self@[j as int].0 == key);
                    }
                    let j0 = first_with_key(self@, key)->0;
                    if j0 < j {
                        assert(self@[j0].0 == self.kinds@[j0].key);
                    } else if j0 > j {
                        assert(self@[j as int].0 == key);
                    }
                }
                Some(&self.kinds[j].stable_id)
            },
            None => {
                proof {
                    assert(first_with_key(self@, key) is None);
                }
                None
            },
        }
    }
}

} // verus!
