//! The type registry and its data model: atomic, struct and union type
//! definitions, stored under unique names, validated on insertion.
//!
//! The registry is append-only and keeps its entries in insertion order.
//! A struct or union may only refer to names registered before it, so no
//! type can refer to itself, directly or through other types; every
//! recursive walk over member types therefore terminates.

use vstd::prelude::*;

verus! {

/// A type name.
pub type Name = String;

/// A list of type names.
pub type TypeList = Vec<Name>;

/// The registry's storage: name/definition pairs in insertion order.
pub type TypeTable = Vec<(Name, Type)>;

/// An atomic (leaf) type: a stored size and alignment, both in bytes.
#[derive(Debug)]
pub struct Atomic {
    pub representation: usize,
    pub alignment: usize,
}

/// A struct type: an ordered list of member type names.
#[derive(Debug)]
pub struct Struct {
    pub members: TypeList,
}

/// A union type: a list of alternative type names.
#[derive(Debug)]
pub struct Union {
    pub variants: TypeList,
}

/// Every possible type definition.
#[derive(Debug)]
pub enum Type {
    Atomic(Atomic),
    Struct(Struct),
    Union(Union),
}

/// Every possible registration or lookup error.
#[derive(Debug, PartialEq, Eq)]
pub enum TypeError {
    TypeRedefinition,
    NoZeroAlign,
    NoZeroSizedType,
    EmptyCompoundType,
    TypeDoesNotExist(Name),
}

/// The manager object holding all registered types.
pub struct TypeManager {
    types: TypeTable,
}

/// The mathematical shape of a type definition: names as character
/// sequences, sizes as unbounded naturals.
pub enum TypeV {
    Atomic { rep: nat, align: nat },
    Struct { members: Seq<Seq<char>> },
    Union { variants: Seq<Seq<char>> },
}

/// The mathematical shape of a `TypeError`.
pub enum TypeErrorV {
    TypeRedefinition,
    NoZeroAlign,
    NoZeroSizedType,
    EmptyCompoundType,
    TypeDoesNotExist(Seq<char>),
}

/// The mathematical shape of the registry: name/definition pairs in
/// insertion order.
pub type RegView = Seq<(Seq<char>, TypeV)>;

impl View for Type {
    type V = TypeV;

    open spec fn view(&self) -> TypeV {
        match self {
            Type::Atomic(a) => TypeV::Atomic {
                rep: a.representation as nat,
                align: a.alignment as nat,
            },
            Type::Struct(s) => TypeV::Struct { members: s.members.deep_view() },
            Type::Union(u) => TypeV::Union { variants: u.variants.deep_view() },
        }
    }
}

impl View for TypeError {
    type V = TypeErrorV;

    open spec fn view(&self) -> TypeErrorV {
        match self {
            TypeError::TypeRedefinition => TypeErrorV::TypeRedefinition,
            TypeError::NoZeroAlign => TypeErrorV::NoZeroAlign,
            TypeError::NoZeroSizedType => TypeErrorV::NoZeroSizedType,
            TypeError::EmptyCompoundType => TypeErrorV::EmptyCompoundType,
            TypeError::TypeDoesNotExist(n) => TypeErrorV::TypeDoesNotExist(n@),
        }
    }
}

impl View for TypeManager {
    type V = RegView;

    closed spec fn view(&self) -> RegView {
        self.types@.map_values(|e: (Name, Type)| (e.0@, e.1@))
    }
}

/// Whether some entry is registered under the name `n`.
pub open spec fn contains_name(entries: RegView, n: Seq<char>) -> bool {
    exists|i: int| 0 <= i < entries.len() && (#[trigger] entries[i]).0 == n
}

/// The first index holding the name `n`, or the registry's length if the
/// name is absent.
pub open spec fn idx_of(entries: RegView, n: Seq<char>) -> int
    decreases entries.len(),
{
    if entries.len() == 0 {
        0
    } else if entries[0].0 == n {
        0
    } else {
        1 + idx_of(entries.drop_first(), n)
    }
}

pub broadcast proof fn lemma_idx_of(entries: RegView, n: Seq<char>)
    ensures
        #![trigger idx_of(entries, n)]
        contains_name(entries, n) ==> {
            &&& 0 <= idx_of(entries, n) < entries.len()
            &&& entries[idx_of(entries, n)].0 == n
            &&& forall|j: int| 0 <= j < idx_of(entries, n) ==> (#[trigger] entries[j]).0 != n
        },
        !contains_name(entries, n) ==> idx_of(entries, n) == entries.len(),
    decreases entries.len(),
{
    if entries.len() == 0 {
    } else if entries[0].0 == n {
    } else {
        let rest = entries.drop_first();
        lemma_idx_of(rest, n);
        assert(forall|j: int| 0 <= j < rest.len() ==> (#[trigger] rest[j]) == entries[j + 1]);
        if contains_name(entries, n) {
            let w = choose|i: int| 0 <= i < entries.len() && (#[trigger] entries[i]).0 == n;
            assert(rest[w - 1] == entries[w]);
            assert(contains_name(rest, n));
        }
        if contains_name(rest, n) {
            let w = choose|i: int| 0 <= i < rest.len() && (#[trigger] rest[i]).0 == n;
            assert(entries[w + 1] == rest[w]);
            assert(contains_name(entries, n));
        }
        if contains_name(entries, n) {
            assert(entries[idx_of(entries, n)] == rest[idx_of(rest, n)]);
            assert forall|j: int| 0 <= j < idx_of(entries, n) implies (#[trigger] entries[j]).0
                != n by {
                if j > 0 {
                    assert(entries[j] == rest[j - 1]);
                }
            }
        }
    }
}

/// Whether `n` is registered at some index strictly below `b`.
pub open spec fn name_before(entries: RegView, n: Seq<char>, b: int) -> bool {
    contains_name(entries, n) && 0 <= idx_of(entries, n) < b
}

/// Validity of a definition whose member references must all resolve below
/// index `b`: positive size and alignment for atomics, a non-empty list of
/// resolvable names for structs and unions.
pub open spec fn type_ok(entries: RegView, t: TypeV, b: int) -> bool {
    match t {
        TypeV::Atomic { rep, align } => rep > 0 && align > 0,
        TypeV::Struct { members } => members.len() > 0 && forall|j: int|
            0 <= j < members.len() ==> name_before(entries, #[trigger] members[j], b),
        TypeV::Union { variants } => variants.len() > 0 && forall|j: int|
            0 <= j < variants.len() ==> name_before(entries, #[trigger] variants[j], b),
    }
}

/// The entry at index `i` carries a fresh name and a definition whose
/// references all resolve to earlier entries.
pub open spec fn entry_ok(entries: RegView, i: int) -> bool {
    &&& forall|j: int| 0 <= j < i ==> (#[trigger] entries[j]).0 != entries[i].0
    &&& type_ok(entries, entries[i].1, i)
}

/// The registry invariant: every entry is well formed.  Names are unique,
/// and every stored member reference resolves to an earlier entry.
pub open spec fn reg_wf(entries: RegView) -> bool {
    forall|i: int| 0 <= i < entries.len() ==> #[trigger] entry_ok(entries, i)
}

/// A definition all of whose direct references resolve somewhere in the
/// registry.
pub open spec fn valid_type(entries: RegView, t: TypeV) -> bool {
    type_ok(entries, t, entries.len() as int)
}

/// The first position in `names` whose name is not registered, or the list's
/// length if all are.
pub open spec fn first_missing_idx(entries: RegView, names: Seq<Seq<char>>) -> int
    decreases names.len(),
{
    if names.len() == 0 {
        0
    } else if !contains_name(entries, names[0]) {
        0
    } else {
        1 + first_missing_idx(entries, names.drop_first())
    }
}

pub broadcast proof fn lemma_first_missing(entries: RegView, names: Seq<Seq<char>>)
    ensures
        #![trigger first_missing_idx(entries, names)]
        0 <= first_missing_idx(entries, names) <= names.len(),
        first_missing_idx(entries, names) < names.len() ==> !contains_name(
            entries,
            names[first_missing_idx(entries, names)],
        ),
        forall|j: int|
            0 <= j < first_missing_idx(entries, names) ==> contains_name(
                entries,
                #[trigger] names[j],
            ),
    decreases names.len(),
{
    if names.len() == 0 {
    } else if !contains_name(entries, names[0]) {
    } else {
        let rest = names.drop_first();
        lemma_first_missing(entries, rest);
        assert(forall|j: int| 0 <= j < rest.len() ==> (#[trigger] rest[j]) == names[j + 1]);
        assert forall|j: int| 0 <= j < first_missing_idx(entries, names) implies contains_name(
            entries,
            #[trigger] names[j],
        ) by {
            if j > 0 {
                assert(names[j] == rest[j - 1]);
            }
        }
        if first_missing_idx(entries, names) < names.len() {
            assert(names[first_missing_idx(entries, names)] == rest[first_missing_idx(
                entries,
                rest,
            )]);
        }
    }
}

/// The validation error, if any, for registering a compound definition with
/// the given member list: an empty list is rejected first, then the first
/// unregistered member name is reported.
pub open spec fn compound_err(entries: RegView, names: Seq<Seq<char>>) -> Option<TypeErrorV> {
    if names.len() == 0 {
        Some(TypeErrorV::EmptyCompoundType)
    } else if first_missing_idx(entries, names) < names.len() {
        Some(TypeErrorV::TypeDoesNotExist(names[first_missing_idx(entries, names)]))
    } else {
        None
    }
}

/// The validation error, if any, for registering `t` under the name `n`,
/// with the checks in their fixed order: redefinition first; for atomics the
/// size check before the alignment check; for compounds as in
/// [`compound_err`].
pub open spec fn register_err(entries: RegView, n: Seq<char>, t: TypeV) -> Option<TypeErrorV> {
    if contains_name(entries, n) {
        Some(TypeErrorV::TypeRedefinition)
    } else {
        match t {
            TypeV::Atomic { rep, align } => if rep == 0 {
                Some(TypeErrorV::NoZeroSizedType)
            } else if align == 0 {
                Some(TypeErrorV::NoZeroAlign)
            } else {
                None
            },
            TypeV::Struct { members } => compound_err(entries, members),
            TypeV::Union { variants } => compound_err(entries, variants),
        }
    }
}

/// Appending an entry leaves the position of every already registered name
/// unchanged.
pub proof fn lemma_push_keeps_names(entries: RegView, e: (Seq<char>, TypeV), n: Seq<char>)
    requires
        contains_name(entries, n),
    ensures
        contains_name(entries.push(e), n),
        idx_of(entries.push(e), n) == idx_of(entries, n),
{
    broadcast use lemma_idx_of;

    let p = entries.push(e);
    let i = idx_of(entries, n);
    assert(p[i] == entries[i]);
    assert(contains_name(p, n));
    let k = idx_of(p, n);
    assert(forall|j: int| 0 <= j < i ==> (#[trigger] p[j]) == entries[j]);
    if k < i {
        assert(entries[k] == p[k]);
    }
    if k > i {
        assert(p[i].0 != n);
    }
}

/// A registration that passes validation preserves the registry invariant.
pub proof fn lemma_register_preserves_wf(entries: RegView, n: Seq<char>, t: TypeV)
    requires
        reg_wf(entries),
        register_err(entries, n, t) is None,
    ensures
        reg_wf(entries.push((n, t))),
{
    broadcast use lemma_idx_of;
    broadcast use lemma_first_missing;

    let p = entries.push((n, t));
    assert forall|i: int| 0 <= i < p.len() implies entry_ok(p, i) by {
        if i < entries.len() {
            assert(entry_ok(entries, i));
            assert(forall|j: int| 0 <= j <= i ==> (#[trigger] p[j]) == entries[j]);
            assert(type_ok(p, p[i].1, i)) by {
                match entries[i].1 {
                    TypeV::Atomic { rep, align } => {},
                    TypeV::Struct { members } => {
                        assert forall|j: int| 0 <= j < members.len() implies name_before(
                            p,
                            #[trigger] members[j],
                            i,
                        ) by {
                            assert(name_before(entries, members[j], i));
                            lemma_push_keeps_names(entries, (n, t), members[j]);
                        }
                    },
                    TypeV::Union { variants } => {
                        assert forall|j: int| 0 <= j < variants.len() implies name_before(
                            p,
                            #[trigger] variants[j],
                            i,
                        ) by {
                            assert(name_before(entries, variants[j], i));
                            lemma_push_keeps_names(entries, (n, t), variants[j]);
                        }
                    },
                }
            }
        } else {
            assert(i == entries.len());
            assert(p[i] == (n, t));
            assert(forall|j: int| 0 <= j < i ==> (#[trigger] p[j]) == entries[j]);
            assert(forall|j: int| 0 <= j < i ==> (#[trigger] p[j]).0 != n);
            assert(type_ok(p, t, i)) by {
                match t {
                    TypeV::Atomic { rep, align } => {},
                    TypeV::Struct { members } => {
                        assert(first_missing_idx(entries, members) == members.len());
                        assert forall|j: int| 0 <= j < members.len() implies name_before(
                            p,
                            #[trigger] members[j],
                            i,
                        ) by {
                            assert(contains_name(entries, members[j]));
                            lemma_push_keeps_names(entries, (n, t), members[j]);
                        }
                    },
                    TypeV::Union { variants } => {
                        assert(first_missing_idx(entries, variants) == variants.len());
                        assert forall|j: int| 0 <= j < variants.len() implies name_before(
                            p,
                            #[trigger] variants[j],
                            i,
                        ) by {
                            assert(contains_name(entries, variants[j]));
                            lemma_push_keeps_names(entries, (n, t), variants[j]);
                        }
                    },
                }
            }
        }
    }
}

/// Validity only asks that references resolve below the bound, so any
/// larger bound serves as well.
pub proof fn lemma_type_ok_mono(entries: RegView, t: TypeV, b1: int, b2: int)
    requires
        type_ok(entries, t, b1),
        b1 <= b2,
    ensures
        type_ok(entries, t, b2),
{
    match t {
        TypeV::Atomic { rep, align } => {},
        TypeV::Struct { members } => {
            assert forall|j: int| 0 <= j < members.len() implies name_before(
                entries,
                #[trigger] members[j],
                b2,
            ) by {
                assert(name_before(entries, members[j], b1));
            }
        },
        TypeV::Union { variants } => {
            assert forall|j: int| 0 <= j < variants.len() implies name_before(
                entries,
                #[trigger] variants[j],
                b2,
            ) by {
                assert(name_before(entries, variants[j], b1));
            }
        },
    }
}

impl Atomic {
    /// Create a new atomic type from its stored size and alignment.
    pub fn new(representation: usize, alignment: usize) -> (a: Atomic)
        ensures
            a.representation == representation,
            a.alignment == alignment,
    {
        Atomic { representation, alignment }
    }

    /// The stored size.
    pub fn size(&self) -> (s: usize)
        ensures
            s == self.representation,
    {
        self.representation
    }

    /// The stored alignment.
    pub fn align(&self) -> (a: usize)
        ensures
            a == self.alignment,
    {
        self.alignment
    }
}

impl Struct {
    /// Create a new struct type from its member list.
    pub fn new(members: TypeList) -> (s: Struct)
        ensures
            s.members == members,
    {
        Struct { members }
    }
}

impl Union {
    /// Create a new union type from its list of variants.
    pub fn new(variants: TypeList) -> (u: Union)
        ensures
            u.variants == variants,
    {
        Union { variants }
    }
}

impl TypeManager {
    /// The registry invariant, on the manager itself.
    pub open spec fn wf(&self) -> bool {
        reg_wf(self@)
    }

    /// Create a new, empty type manager.
    pub fn new() -> (m: TypeManager)
        ensures
            m.wf(),
            m@ == Seq::<(Seq<char>, TypeV)>::empty(),
    {
        let m = TypeManager { types: Vec::new() };
        proof {
            assert(m@ =~= Seq::<(Seq<char>, TypeV)>::empty());
        }
        m
    }

    /// The index of `name` in the stored table, or the table's length if the
    /// name is not registered.
    fn index_of(&self, name: &Name) -> (r: usize)
        ensures
            r <= self@.len(),
            contains_name(self@, name@) ==> r < self@.len() && r == idx_of(self@, name@),
            !contains_name(self@, name@) ==> r == self@.len(),
    {
        proof {
            broadcast use lemma_idx_of;

        }
        let n: usize = self.types.len();
        let mut i: usize = 0;
        while i < n
            invariant
                n == self.types@.len(),
                self@.len() == n,
                0 <= i <= n,
                forall|j: int| 0 <= j < i ==> (#[trigger] self@[j]).0 != name@,
            decreases n - i,
        {
            let e = &self.types[i];
            if e.0 == *name {
                proof {
                    broadcast use lemma_idx_of;

                    assert(self@[i as int] == (self.types@[i as int].0@, self.types@[i as int].1@));
                    assert(self@[i as int].0 == name@);
                    assert(contains_name(self@, name@));
                    let k = idx_of(self@, name@);
                    if k < i {
                        assert(self@[k].0 != name@);
                    }
                }
                return i;
            }
            proof {
                assert(self@[i as int] == (self.types@[i as int].0@, self.types@[i as int].1@));
            }
            i += 1;
        }
        proof {
            broadcast use lemma_idx_of;

            if contains_name(self@, name@) {
                let w = choose|w: int| 0 <= w < self@.len() && (#[trigger] self@[w]).0 == name@;
                assert(false);
            }
        }
        n
    }

    /// Look a type up by name.  Pure and infallible: an absent name yields
    /// `None`, a registered name yields the stored definition.
    pub fn get(&self, typename: &Name) -> (r: Option<&Type>)
        ensures
            match r {
                Some(t) => contains_name(self@, typename@) && t@ == self@[idx_of(
                    self@,
                    typename@,
                )].1,
                None => !contains_name(self@, typename@),
            },
    {
        let i = self.index_of(typename);
        if i < self.types.len() {
            proof {
                assert(self@[i as int] == (self.types@[i as int].0@, self.types@[i as int].1@));
            }
            Some(&self.types[i].1)
        } else {
            None
        }
    }

    /// Validate a member or variant list for a new compound definition.
    fn check_members(&self, names: &TypeList) -> (r: Result<(), TypeError>)
        ensures
            ({
                let errv = compound_err(self@, names.deep_view());
                match r {
                    Ok(()) => errv is None,
                    Err(e) => errv == Some(e@),
                }
            }),
    {
        proof {
            broadcast use lemma_first_missing;

        }
        let ghost dv = names.deep_view();
        if names.len() == 0 {
            return Err(TypeError::EmptyCompoundType);
        }
        let n: usize = names.len();
        let mut j: usize = 0;
        while j < n
            invariant
                n == names@.len(),
                dv == names.deep_view(),
                dv.len() == n,
                0 <= j <= n,
                forall|j2: int| 0 <= j2 < j ==> contains_name(self@, #[trigger] dv[j2]),
            decreases n - j,
        {
            proof {
                assert(dv[j as int] == names@[j as int]@);
            }
            let idx = self.index_of(&names[j]);
            if idx == self.types.len() {
                proof {
                    broadcast use lemma_first_missing;

                    let f = first_missing_idx(self@, dv);
                    assert(!contains_name(self@, dv[j as int]));
                    if f < j {
                        assert(contains_name(self@, dv[f]));
                        assert(false);
                    }
                    if f > j {
                        assert(contains_name(self@, dv[j as int]));
                        assert(false);
                    }
                }
                return Err(TypeError::TypeDoesNotExist(names[j].clone()));
            }
            j += 1;
        }
        proof {
            broadcast use lemma_first_missing;

            let f = first_missing_idx(self@, dv);
            if f < dv.len() {
                assert(contains_name(self@, dv[f]));
                assert(false);
            }
        }
        Ok(())
    }

    /// Check whether the given definition may be registered under the given
    /// name, reporting the first failing check.
    fn check_new_type(&self, name: &Name, type_data: &Type) -> (r: Result<(), TypeError>)
        ensures
            ({
                let errv = register_err(self@, name@, type_data@);
                match r {
                    Ok(()) => errv is None,
                    Err(e) => errv == Some(e@),
                }
            }),
    {
        if self.index_of(name) < self.types.len() {
            return Err(TypeError::TypeRedefinition);
        }
        match type_data {
            Type::Atomic(a) => {
                if a.representation == 0 {
                    Err(TypeError::NoZeroSizedType)
                } else if a.alignment == 0 {
                    Err(TypeError::NoZeroAlign)
                } else {
                    Ok(())
                }
            },
            Type::Struct(s) => self.check_members(&s.members),
            Type::Union(u) => self.check_members(&u.variants),
        }
    }

    /// Try to add a new type under the given name.  Validation failures
    /// leave the registry unchanged; on success exactly the new entry is
    /// appended.
    pub fn add(&mut self, typename: Name, new_type: Type) -> (r: Result<(), TypeError>)
        requires
            old(self).wf(),
        ensures
            final(self).wf(),
            r is Ok <==> register_err(old(self)@, typename@, new_type@) is None,
            r is Ok ==> final(self)@ == old(self)@.push((typename@, new_type@)),
            r is Err ==> final(self)@ == old(self)@ && register_err(
                old(self)@,
                typename@,
                new_type@,
            ) == Some(r->Err_0@),
    {
        let ghost pre = self@;
        if let Err(e) = self.check_new_type(&typename, &new_type) {
            return Err(e);
        }
        proof {
            lemma_register_preserves_wf(pre, typename@, new_type@);
        }
        let ghost nv = typename@;
        let ghost tv = new_type@;
        self.types.push((typename, new_type));
        proof {
            assert(self@ =~= pre.push((nv, tv)));
        }
        Ok(())
    }
}

/// Registering an atomic type with positive size and alignment under a
/// fresh name is accepted, and exactly once: any further registration under
/// the same name is rejected as a redefinition.
pub proof fn lemma_atomic_registered_once(
    entries: RegView,
    n: Seq<char>,
    rep: nat,
    align: nat,
    t2: TypeV,
)
    requires
        !contains_name(entries, n),
        rep > 0,
        align > 0,
    ensures
        register_err(entries, n, TypeV::Atomic { rep, align }) is None,
        register_err(entries.push((n, TypeV::Atomic { rep, align })), n, t2) == Some(
            TypeErrorV::TypeRedefinition,
        ),
{
    let p = entries.push((n, TypeV::Atomic { rep, align }));
    assert(p[entries.len() as int].0 == n);
    assert(contains_name(p, n));
}

/// For an atomic under a fresh name, a zero size is rejected as
/// `NoZeroSizedType` even when the alignment is zero as well: the size
/// check precedes the alignment check.  A zero alignment alone is rejected
/// as `NoZeroAlign`.
pub proof fn lemma_atomic_zero_checks(entries: RegView, n: Seq<char>, rep: nat, align: nat)
    requires
        !contains_name(entries, n),
    ensures
        rep == 0 ==> register_err(entries, n, TypeV::Atomic { rep, align }) == Some(
            TypeErrorV::NoZeroSizedType,
        ),
        rep > 0 && align == 0 ==> register_err(entries, n, TypeV::Atomic { rep, align }) == Some(
            TypeErrorV::NoZeroAlign,
        ),
{
}

/// For a compound definition under a fresh name: an empty member list is
/// rejected as `EmptyCompoundType` without resolving any name; otherwise a
/// reference to an unregistered name is rejected as `TypeDoesNotExist`,
/// reporting the first missing name in declaration order; a non-empty list
/// of registered names is accepted.  Structs and unions follow the same
/// rule.
pub proof fn lemma_compound_checks(entries: RegView, n: Seq<char>, names: Seq<Seq<char>>)
    requires
        !contains_name(entries, n),
    ensures
        names.len() == 0 ==> register_err(entries, n, TypeV::Struct { members: names }) == Some(
            TypeErrorV::EmptyCompoundType,
        ) && register_err(entries, n, TypeV::Union { variants: names }) == Some(
            TypeErrorV::EmptyCompoundType,
        ),
        names.len() > 0 && (exists|j: int|
            0 <= j < names.len() && !contains_name(entries, #[trigger] names[j])) ==> {
            let f = first_missing_idx(entries, names);
            &&& 0 <= f < names.len()
            &&& !contains_name(entries, names[f])
            &&& forall|j: int| 0 <= j < f ==> contains_name(entries, #[trigger] names[j])
            &&& register_err(entries, n, TypeV::Struct { members: names }) == Some(
                TypeErrorV::TypeDoesNotExist(names[f]),
            )
            &&& register_err(entries, n, TypeV::Union { variants: names }) == Some(
                TypeErrorV::TypeDoesNotExist(names[f]),
            )
        },
        names.len() > 0 && (forall|j: int|
            0 <= j < names.len() ==> contains_name(entries, #[trigger] names[j])) ==> register_err(
            entries,
            n,
            TypeV::Struct { members: names },
        ) is None && register_err(entries, n, TypeV::Union { variants: names }) is None,
{
    broadcast use lemma_first_missing;

    let f = first_missing_idx(entries, names);
    if names.len() > 0 && exists|j: int|
        0 <= j < names.len() && !contains_name(entries, #[trigger] names[j]) {
        let w = choose|j: int| 0 <= j < names.len() && !contains_name(entries, #[trigger] names[j]);
        if f >= names.len() {
            assert(contains_name(entries, names[w]));
        }
    }
    if names.len() > 0 && forall|j: int|
        0 <= j < names.len() ==> contains_name(entries, #[trigger] names[j]) {
        if f < names.len() {
            assert(contains_name(entries, names[f]));
        }
    }
}

} // verus!
