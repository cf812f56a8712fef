//! The value language: paths, references to properties, and the tagged values that
//! properties hold.

use vstd::prelude::*;
use crate::decimal::Decimal;
use crate::text::chars_of;
use crate::text::lemma_text_lt_total;
use crate::text::lemma_text_lt_transitive;
use crate::text::text_before;
use crate::text::text_lt;

verus! {

/// The identity of an entity. Identities start at 1.
pub type EntityId = u64;

/// Where to look for an entity, seen from the entity that asks.
#[derive(PartialEq, Eq, Debug, Hash)]
pub enum EntityPath {
    /// The asking entity itself.
    This,
    /// Its parent.
    Parent,
    /// The entity with this unique name, anywhere in the document.
    Named(String),
    /// The entity with this unique name among the entity that the inner path leads to
    /// and its descendants.
    Search(Box<EntityPath>, String),
}

pub ghost enum EntityPathView {
    This,
    Parent,
    Named(Seq<char>),
    Search(Box<EntityPathView>, Seq<char>),
}

impl EntityPath {
    pub open spec fn model(&self) -> EntityPathView
        decreases self,
    {
        match self {
            EntityPath::This => EntityPathView::This,
            EntityPath::Parent => EntityPathView::Parent,
            EntityPath::Named(name) => EntityPathView::Named(name@),
            EntityPath::Search(inner, name) => EntityPathView::Search(Box::new(inner.model()), name@),
        }
    }
}

impl View for EntityPath {
    type V = EntityPathView;

    open spec fn view(&self) -> EntityPathView {
        self.model()
    }
}

impl Clone for EntityPath {
    fn clone(&self) -> (r: Self)
        ensures
            r@ == self@,
        decreases self,
    {
        match self {
            EntityPath::This => EntityPath::This,
            EntityPath::Parent => EntityPath::Parent,
            EntityPath::Named(name) => EntityPath::Named(name.clone()),
            EntityPath::Search(inner, name) => {
                let path: &EntityPath = &**inner;
                EntityPath::Search(Box::new(path.clone()), name.clone())
            },
        }
    }
}

/// A property named by the path to its entity and its key: not yet resolved.
#[derive(PartialEq, Eq, Debug, Hash)]
pub struct NamedPropRef {
    pub entity_path: EntityPath,
    pub property_key: String,
}

pub ghost struct NamedPropRefView {
    pub entity_path: EntityPathView,
    pub property_key: Seq<char>,
}

impl View for NamedPropRef {
    type V = NamedPropRefView;

    open spec fn view(&self) -> NamedPropRefView {
        NamedPropRefView { entity_path: self.entity_path@, property_key: self.property_key@ }
    }
}

impl Clone for NamedPropRef {
    fn clone(&self) -> (r: Self)
        ensures
            r@ == self@,
    {
        NamedPropRef { entity_path: self.entity_path.clone(), property_key: self.property_key.clone() }
    }
}

impl NamedPropRef {
    pub fn new(entity_path: EntityPath, property_key: &str) -> (r: NamedPropRef)
        ensures
            r@ == (NamedPropRefView { entity_path: entity_path@, property_key: property_key@ }),
    {
        NamedPropRef { entity_path: entity_path, property_key: property_key.to_owned() }
    }
}

/// A property of a known entity: the resolved form of a `NamedPropRef`.
#[derive(PartialEq, Eq, Debug, Hash)]
pub struct PropRef {
    pub entity_id: EntityId,
    pub property_key: String,
}

pub ghost struct PropRefView {
    pub entity_id: EntityId,
    pub property_key: Seq<char>,
}

impl View for PropRef {
    type V = PropRefView;

    open spec fn view(&self) -> PropRefView {
        PropRefView { entity_id: self.entity_id, property_key: self.property_key@ }
    }
}

impl Clone for PropRef {
    fn clone(&self) -> (r: Self)
        ensures
            r@ == self@,
    {
        PropRef { entity_id: self.entity_id, property_key: self.property_key.clone() }
    }
}

impl PropRef {
    pub fn new(entity_id: &EntityId, property_key: &str) -> (r: PropRef)
        ensures
            r@ == (PropRefView { entity_id: *entity_id, property_key: property_key@ }),
    {
        PropRef { entity_id: *entity_id, property_key: property_key.to_owned() }
    }

    /// Whether both name the same property: the same entity and the same key.
    pub fn same(&self, other: &PropRef) -> (r: bool)
        ensures
            r == (self@ == other@),
    {
        self.entity_id == other.entity_id && self.property_key == other.property_key
    }
}

/// The views of a list of resolved references.
pub open spec fn prop_ref_views(refs: Seq<PropRef>) -> Seq<PropRefView> {
    Seq::new(refs.len(), |i: int| refs[i]@)
}

/// The views of a list of named references.
pub open spec fn named_ref_views(refs: Seq<NamedPropRef>) -> Seq<NamedPropRefView> {
    Seq::new(refs.len(), |i: int| refs[i]@)
}

/// A value under a constructor's name, such as `translate { x: 1.0 }`.
#[derive(PartialEq, Eq, Debug, Hash)]
pub struct TypedPon {
    pub name: String,
    pub data: Pon,
}

impl Clone for TypedPon {
    fn clone(&self) -> (r: Self)
        ensures
            r.name@ == self.name@,
            r.data@ == self.data@,
        decreases self,
    {
        TypedPon { name: self.name.clone(), data: self.data.clone() }
    }
}

/// What a live reference was bound to: the property it reads, and the slot of the
/// document's table of values in which that property keeps its expression.
#[derive(PartialEq, Eq, Debug, Hash)]
pub struct ResolvedDependency {
    pub prop_ref: PropRef,
    pub cell: usize,
}

pub ghost struct ResolvedView {
    pub prop_ref: PropRefView,
    pub cell: nat,
}

impl View for ResolvedDependency {
    type V = ResolvedView;

    open spec fn view(&self) -> ResolvedView {
        ResolvedView { prop_ref: self.prop_ref@, cell: self.cell as nat }
    }
}

impl Clone for ResolvedDependency {
    fn clone(&self) -> (r: Self)
        ensures
            r@ == self@,
    {
        ResolvedDependency { prop_ref: self.prop_ref.clone(), cell: self.cell }
    }
}

/// One field of an object.
#[derive(PartialEq, Eq, Debug, Hash)]
pub struct Field {
    pub key: String,
    pub value: Pon,
}

impl Clone for Field {
    fn clone(&self) -> (r: Self)
        ensures
            r.key@ == self.key@,
            r.value@ == self.value@,
        decreases self,
    {
        Field { key: self.key.clone(), value: self.value.clone() }
    }
}

/// The fields of an object: a map from keys to values. No key occurs twice, and the
/// fields are kept in the dictionary order of their keys, so that two objects are equal
/// exactly when they map the same keys to the same values.
#[derive(PartialEq, Eq, Debug, Hash)]
pub struct PonObject {
    pub(crate) fields: Vec<Field>,
}

/// A value.
#[derive(PartialEq, Eq, Debug, Hash)]
pub enum Pon {
    TypedPon(Box<TypedPon>),
    /// A live reference: it is read anew each time the value is read. The second part
    /// is filled in when the value is stored in a document.
    DependencyReference(NamedPropRef, Option<ResolvedDependency>),
    /// A reference that is read once by whoever consumes the value.
    Reference(NamedPropRef),
    Array(Vec<Pon>),
    FloatArray(Vec<Decimal>),
    IntegerArray(Vec<i64>),
    Object(PonObject),
    Float(Decimal),
    Integer(i64),
    String(String),
    Boolean(bool),
    Nil,
}

pub ghost enum PonView {
    Typed { name: Seq<char>, data: Box<PonView> },
    DependencyReference(NamedPropRefView, Option<ResolvedView>),
    Reference(NamedPropRefView),
    Array(Seq<PonView>),
    FloatArray(Seq<Decimal>),
    IntegerArray(Seq<i64>),
    Object(Seq<(Seq<char>, PonView)>),
    Float(Decimal),
    Integer(i64),
    String(Seq<char>),
    Boolean(bool),
    Nil,
}

/// Whether the keys of `fields` stand in strictly rising dictionary order.
pub open spec fn keys_sorted(fields: Seq<(Seq<char>, PonView)>) -> bool {
    forall|i: int, j: int| 0 <= i < j < fields.len() ==> text_lt(#[trigger] fields[i].0, #[trigger] fields[j].0)
}

/// How many of the first keys of `fields` come before `key`: the place at which a field
/// with that key belongs.
pub open spec fn lower_bound(fields: Seq<(Seq<char>, PonView)>, key: Seq<char>) -> nat
    decreases fields.len(),
{
    if fields.len() > 0 && text_lt(fields[0].0, key) {
        1 + lower_bound(fields.drop_first(), key)
    } else {
        0
    }
}

/// The value that `fields` holds under `key`.
pub open spec fn object_get(fields: Seq<(Seq<char>, PonView)>, key: Seq<char>) -> Option<PonView>
    decreases fields.len(),
{
    if fields.len() == 0 {
        None
    } else if fields[0].0 == key {
        Some(fields[0].1)
    } else {
        object_get(fields.drop_first(), key)
    }
}

/// `fields` with `value` under `key`, in place of what was there under that key.
pub open spec fn object_insert(fields: Seq<(Seq<char>, PonView)>, key: Seq<char>, value: PonView) -> Seq<
    (Seq<char>, PonView),
> {
    let at = lower_bound(fields, key) as int;
    if at < fields.len() && fields[at].0 == key {
        fields.update(at, (key, value))
    } else {
        fields.insert(at, (key, value))
    }
}

impl Pon {
    pub open(crate) spec fn model(&self) -> PonView
        decreases self,
    {
        match self {
            Pon::TypedPon(typed) => PonView::Typed { name: typed.name@, data: Box::new(typed.data.model()) },
            Pon::DependencyReference(path, resolved) => PonView::DependencyReference(
                path@,
                match resolved {
                    Some(r) => Some(r@),
                    None => None,
                },
            ),
            Pon::Reference(path) => PonView::Reference(path@),
            Pon::Array(items) => PonView::Array(
                Seq::new(
                    items.len() as nat,
                    |i: int|
                        if 0 <= i < items.len() {
                            items[i].model()
                        } else {
                            PonView::Nil
                        },
                ),
            ),
            Pon::FloatArray(items) => PonView::FloatArray(items@),
            Pon::IntegerArray(items) => PonView::IntegerArray(items@),
            Pon::Object(object) => PonView::Object(
                Seq::new(
                    object.fields.len() as nat,
                    |i: int|
                        if 0 <= i < object.fields.len() {
                            (object.fields[i].key@, object.fields[i].value.model())
                        } else {
                            (Seq::empty(), PonView::Nil)
                        },
                ),
            ),
            Pon::Float(x) => PonView::Float(*x),
            Pon::Integer(x) => PonView::Integer(*x),
            Pon::String(s) => PonView::String(s@),
            Pon::Boolean(b) => PonView::Boolean(*b),
            Pon::Nil => PonView::Nil,
        }
    }
}

impl View for Pon {
    type V = PonView;

    open(crate) spec fn view(&self) -> PonView {
        self.model()
    }
}

impl View for Field {
    type V = (Seq<char>, PonView);

    open spec fn view(&self) -> (Seq<char>, PonView) {
        (self.key@, self.value@)
    }
}

/// The views of a list of values.
pub open spec fn pon_views(items: Seq<Pon>) -> Seq<PonView> {
    Seq::new(items.len(), |i: int| items[i]@)
}

/// The views of a list of fields.
pub open spec fn field_views(fields: Seq<Field>) -> Seq<(Seq<char>, PonView)> {
    Seq::new(fields.len(), |i: int| fields[i]@)
}

/// An array's view is the list of its items' views.
pub proof fn lemma_array_view(items: Vec<Pon>)
    ensures
        Pon::Array(items)@ == PonView::Array(pon_views(items@)),
{
    assert(Pon::Array(items)@->Array_0 =~= pon_views(items@));
}

/// An object's view is the list of its fields' views.
pub proof fn lemma_object_view(object: PonObject)
    ensures
        Pon::Object(object)@ == PonView::Object(object@),
{
    assert(Pon::Object(object)@->Object_0 =~= object@);
}

impl View for PonObject {
    type V = Seq<(Seq<char>, PonView)>;

    open(crate) spec fn view(&self) -> Seq<(Seq<char>, PonView)> {
        field_views(self.fields@)
    }
}

impl Clone for PonObject {
    fn clone(&self) -> (r: Self)
        ensures
            r@ == self@,
        decreases self,
    {
        proof {
            use_type_invariant(self);
        }
        let mut out: Vec<Field> = Vec::new();
        let mut i: usize = 0;
        while i < self.fields.len()
            invariant
                i <= self.fields.len(),
                out.len() == i,
                forall|j: int| 0 <= j < i ==> out[j]@ == self.fields[j]@,
            decreases self.fields.len() - i,
        {
            let field = self.fields[i].clone();
            out.push(field);
            i += 1;
        }
        assert(field_views(out@) =~= self@);
        PonObject { fields: out }
    }
}

impl Clone for Pon {
    #[verifier::loop_isolation(false)]
    fn clone(&self) -> (r: Pon)
        ensures
            r@ == self@,
        decreases self,
    {
        match self {
            Pon::TypedPon(typed) => Pon::TypedPon(Box::new(TypedPon { name: typed.name.clone(), data: typed.data.clone() })),
            Pon::DependencyReference(path, resolved) => {
                let bound = match resolved {
                    Some(r) => Some(r.clone()),
                    None => None,
                };
                Pon::DependencyReference(path.clone(), bound)
            },
            Pon::Reference(path) => Pon::Reference(path.clone()),
            Pon::Array(items) => {
                let mut out: Vec<Pon> = Vec::new();
                let mut i: usize = 0;
                while i < items.len()
                    invariant
                        i <= items.len(),
                        out.len() == i,
                        forall|j: int| 0 <= j < i ==> out[j]@ == items[j]@,
                    decreases items.len() - i,
                {
                    let item = items[i].clone();
                    out.push(item);
                    i += 1;
                }
                let r = Pon::Array(out);
                assert(r@->Array_0 =~= self@->Array_0);
                r
            },
            Pon::FloatArray(items) => {
                let mut out: Vec<Decimal> = Vec::new();
                let mut i: usize = 0;
                while i < items.len()
                    invariant
                        i <= items.len(),
                        out@ == items@.subrange(0, i as int),
                    decreases items.len() - i,
                {
                    out.push(items[i]);
                    assert(items@.subrange(0, i + 1) =~= items@.subrange(0, i as int).push(items@[i as int]));
                    i += 1;
                }
                assert(items@.subrange(0, items.len() as int) =~= items@);
                Pon::FloatArray(out)
            },
            Pon::IntegerArray(items) => {
                let mut out: Vec<i64> = Vec::new();
                let mut i: usize = 0;
                while i < items.len()
                    invariant
                        i <= items.len(),
                        out@ == items@.subrange(0, i as int),
                    decreases items.len() - i,
                {
                    out.push(items[i]);
                    assert(items@.subrange(0, i + 1) =~= items@.subrange(0, i as int).push(items@[i as int]));
                    i += 1;
                }
                assert(items@.subrange(0, items.len() as int) =~= items@);
                Pon::IntegerArray(out)
            },
            Pon::Object(object) => {
                let copy = object.clone();
                proof {
                    lemma_object_view(*object);
                    lemma_object_view(copy);
                }
                Pon::Object(copy)
            },
            Pon::Float(x) => Pon::Float(*x),
            Pon::Integer(x) => Pon::Integer(*x),
            Pon::String(s) => Pon::String(s.clone()),
            Pon::Boolean(b) => Pon::Boolean(*b),
            Pon::Nil => Pon::Nil,
        }
    }
}

/// The place where a key belongs is within the fields, and every key before it comes
/// before the key.
pub proof fn lemma_lower_bound(fields: Seq<(Seq<char>, PonView)>, key: Seq<char>)
    ensures
        lower_bound(fields, key) <= fields.len(),
        forall|i: int| 0 <= i < lower_bound(fields, key) ==> text_lt(#[trigger] fields[i].0, key),
        lower_bound(fields, key) < fields.len() ==> !text_lt(fields[lower_bound(fields, key) as int].0, key),
    decreases fields.len(),
{
    if fields.len() > 0 && text_lt(fields[0].0, key) {
        let rest = fields.drop_first();
        lemma_lower_bound(rest, key);
        assert forall|i: int| 0 <= i < lower_bound(fields, key) implies text_lt(#[trigger] fields[i].0, key) by {
            if i > 0 {
                assert(fields[i] == rest[i - 1]);
            }
        }
        let at = lower_bound(rest, key) as int;
        if at < rest.len() {
            assert(fields[at + 1] == rest[at]);
        }
    }
}

/// A key that comes after every key of the fields belongs at their end.
pub proof fn lemma_lower_bound_at_end(fields: Seq<(Seq<char>, PonView)>, key: Seq<char>)
    requires
        forall|i: int| 0 <= i < fields.len() ==> text_lt(#[trigger] fields[i].0, key),
    ensures
        lower_bound(fields, key) == fields.len(),
    decreases fields.len(),
{
    if fields.len() > 0 {
        let rest = fields.drop_first();
        assert forall|i: int| 0 <= i < rest.len() implies text_lt(#[trigger] rest[i].0, key) by {
            assert(rest[i] == fields[i + 1]);
        }
        lemma_lower_bound_at_end(rest, key);
    }
}

/// Putting a field into sorted fields leaves them sorted, with the value under the key
/// and every other key as it was.
pub proof fn lemma_object_insert(fields: Seq<(Seq<char>, PonView)>, key: Seq<char>, value: PonView)
    requires
        keys_sorted(fields),
    ensures
        keys_sorted(object_insert(fields, key, value)),
{
    let at = lower_bound(fields, key) as int;
    let out = object_insert(fields, key, value);
    lemma_lower_bound(fields, key);
    if at < fields.len() && fields[at].0 == key {
        assert forall|i: int, j: int| 0 <= i < j < out.len() implies text_lt(#[trigger] out[i].0, #[trigger] out[j].0) by {
            assert(text_lt(fields[i].0, fields[j].0));
        }
    } else {
        assert forall|i: int, j: int| 0 <= i < j < out.len() implies text_lt(#[trigger] out[i].0, #[trigger] out[j].0) by {
            if j < at {
                assert(text_lt(fields[i].0, fields[j].0));
            } else if j == at {
                assert(text_lt(fields[i].0, key));
            } else if i == at {
                // fields[at] does not come before the key and is not the key
                lemma_text_lt_total(fields[at].0, key);
                if j - 1 > at {
                    assert(text_lt(fields[at].0, fields[j - 1].0));
                    lemma_text_lt_transitive(key, fields[at].0, fields[j - 1].0);
                }
            } else if i < at {
                assert(text_lt(fields[i].0, fields[j - 1].0));
            } else {
                assert(text_lt(fields[i - 1].0, fields[j - 1].0));
            }
        }
    }
}

impl PonObject {
    #[verifier::type_invariant]
    pub open(crate) spec fn wf(self) -> bool {
        keys_sorted(self@)
    }

    /// The object without fields.
    pub fn new() -> (r: PonObject)
        ensures
            r@ == Seq::<(Seq<char>, PonView)>::empty(),
    {
        let fields: Vec<Field> = Vec::new();
        assert(field_views(fields@) =~= Seq::<(Seq<char>, PonView)>::empty());
        PonObject { fields }
    }

    /// The number of fields.
    pub fn len(&self) -> (n: usize)
        ensures
            n == self@.len(),
    {
        self.fields.len()
    }

    /// The fields, in the dictionary order of their keys.
    pub fn fields(&self) -> (r: &Vec<Field>)
        ensures
            field_views(r@) == self@,
            keys_sorted(self@),
    {
        proof {
            use_type_invariant(self);
        }
        &self.fields
    }

    /// The value under `key`.
    pub fn get(&self, key: &str) -> (r: Option<&Pon>)
        ensures
            match r {
                Some(value) => object_get(self@, key@) == Some(value@),
                None => object_get(self@, key@) is None,
            },
    {
        let wanted = key.to_owned();
        let mut i: usize = 0;
        assert(self@.subrange(0, self@.len() as int) =~= self@);
        while i < self.fields.len()
            invariant
                i <= self.fields.len(),
                wanted@ == key@,
                object_get(self@, key@) == object_get(self@.subrange(i as int, self@.len() as int), key@),
            decreases self.fields.len() - i,
        {
            let ghost rest = self@.subrange(i as int, self@.len() as int);
            assert(rest[0] == self@[i as int]);
            if self.fields[i].key == wanted {
                return Some(&self.fields[i].value);
            }
            assert(rest.drop_first() =~= self@.subrange(i + 1, self@.len() as int));
            i += 1;
        }
        None
    }

    /// Puts `value` under `key`, in place of what was there under that key.
    pub fn insert(&mut self, key: String, value: Pon)
        ensures
            final(self)@ == object_insert(old(self)@, key@, value@),
    {
        proof {
            use_type_invariant(&*self);
        }
        let wanted = chars_of(key.as_str());
        let mut at: usize = 0;
        assert(self@.subrange(0, self@.len() as int) =~= self@);
        while at < self.fields.len() && text_before(&chars_of(self.fields[at].key.as_str()), &wanted)
            invariant
                at <= self.fields.len(),
                wanted@ == key@,
                *self == *old(self),
                lower_bound(self@, key@) == at + lower_bound(self@.subrange(at as int, self@.len() as int), key@),
            decreases self.fields.len() - at,
        {
            let ghost rest = self@.subrange(at as int, self@.len() as int);
            assert(rest[0] == self@[at as int]);
            assert(rest.drop_first() =~= self@.subrange(at + 1, self@.len() as int));
            at += 1;
        }
        assert(at == lower_bound(self@, key@)) by {
            let rest = self@.subrange(at as int, self@.len() as int);
            if at < self.fields.len() {
                assert(rest[0] == self@[at as int]);
            }
        }
        proof {
            lemma_object_insert(self@, key@, value@);
        }
        let ghost before = self@;
        if at < self.fields.len() && self.fields[at].key == key {
            let mut fields: Vec<Field> = Vec::new();
            core::mem::swap(&mut fields, &mut self.fields);
            fields.set(at, Field { key, value });
            assert(field_views(fields@) =~= object_insert(before, key@, value@));
            self.fields = fields;
        } else {
            let mut fields: Vec<Field> = Vec::new();
            core::mem::swap(&mut fields, &mut self.fields);
            fields.insert(at, Field { key, value });
            assert(field_views(fields@) =~= object_insert(before, key@, value@));
            self.fields = fields;
        }
    }
}

impl Pon {
    /// The value `data` under the constructor's name `name`.
    pub fn new_typed_pon(name: &str, data: Pon) -> (r: Pon)
        ensures
            r@ == (PonView::Typed { name: name@, data: Box::new(data@) }),
    {
        Pon::TypedPon(Box::new(TypedPon { name: name.to_owned(), data: data }))
    }
}


/// The live references of a value, in the order in which they stand in it: those of a
/// typed value's data, of an array's items and of an object's fields. One-shot
/// references are not among them.
pub open spec fn dependency_refs(pon: PonView) -> Seq<NamedPropRefView>
    decreases pon,
{
    match pon {
        PonView::Typed { data, .. } => dependency_refs(*data),
        PonView::DependencyReference(reference, _) => seq![reference],
        PonView::Object(fields) => fields_refs(fields),
        PonView::Array(items) => items_refs(items),
        _ => Seq::empty(),
    }
}

/// The live references of the items of an array, in order.
pub open spec fn items_refs(items: Seq<PonView>) -> Seq<NamedPropRefView>
    decreases items,
{
    if items.len() == 0 {
        Seq::empty()
    } else {
        items_refs(items.drop_last()) + dependency_refs(items.last())
    }
}

/// The live references of the fields of an object, in order.
pub open spec fn fields_refs(fields: Seq<(Seq<char>, PonView)>) -> Seq<NamedPropRefView>
    decreases fields,
{
    if fields.len() == 0 {
        Seq::empty()
    } else {
        fields_refs(fields.drop_last()) + dependency_refs(fields.last().1)
    }
}

impl Pon {
    /// Appends the live references of the value to `references`, in the order in which
    /// they stand in it.
    #[verifier::loop_isolation(false)]
    pub fn get_dependency_references(&self, references: &mut Vec<NamedPropRef>)
        ensures
            named_ref_views(final(references)@) == named_ref_views(old(references)@) + dependency_refs(self@),
        decreases self,
    {
        let ghost before = named_ref_views(references@);
        match self {
            Pon::TypedPon(typed) => {
                typed.data.get_dependency_references(references);
            },
            Pon::DependencyReference(reference, _) => {
                references.push(reference.clone());
                assert(named_ref_views(references@) =~= before + dependency_refs(self@));
            },
            Pon::Object(object) => {
                proof {
                    lemma_object_view(*object);
                }
                let ghost views = object@;
                let mut i: usize = 0;
                assert(views.subrange(0, 0) =~= Seq::<(Seq<char>, PonView)>::empty());
                assert(before + Seq::<NamedPropRefView>::empty() =~= before);
                while i < object.fields.len()
                    invariant
                        i <= object.fields.len(),
                        named_ref_views(references@) == before + fields_refs(views.subrange(0, i as int)),
                    decreases object.fields.len() - i,
                {
                    let ghost head = views.subrange(0, i + 1);
                    assert(head.drop_last() =~= views.subrange(0, i as int));
                    assert(head.last() == object.fields[i as int]@);
                    let ghost so_far = fields_refs(views.subrange(0, i as int));
                    object.fields[i].value.get_dependency_references(references);
                    assert(named_ref_views(references@) =~= before + fields_refs(head)) by {
                        assert((before + so_far) + dependency_refs(head.last().1) =~= before + (so_far
                            + dependency_refs(head.last().1)));
                    }
                    i += 1;
                }
                assert(views.subrange(0, object.fields.len() as int) =~= views);
            },
            Pon::Array(items) => {
                proof {
                    lemma_array_view(*items);
                }
                let ghost views = pon_views(items@);
                let mut i: usize = 0;
                assert(views.subrange(0, 0) =~= Seq::<PonView>::empty());
                assert(before + Seq::<NamedPropRefView>::empty() =~= before);
                while i < items.len()
                    invariant
                        i <= items.len(),
                        named_ref_views(references@) == before + items_refs(views.subrange(0, i as int)),
                    decreases items.len() - i,
                {
                    let ghost head = views.subrange(0, i + 1);
                    assert(head.drop_last() =~= views.subrange(0, i as int));
                    assert(head.last() == items[i as int]@);
                    let ghost so_far = items_refs(views.subrange(0, i as int));
                    items[i].get_dependency_references(references);
                    assert(named_ref_views(references@) =~= before + items_refs(head)) by {
                        assert((before + so_far) + dependency_refs(head.last()) =~= before + (so_far
                            + dependency_refs(head.last())));
                    }
                    i += 1;
                }
                assert(views.subrange(0, items.len() as int) =~= views);
            },
            _ => {
                assert(before + Seq::<NamedPropRefView>::empty() =~= before);
            },
        }
    }
}

} // verus!
