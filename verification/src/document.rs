//! The document: a tree of entities, each with properties that hold expressions.

use vstd::prelude::*;
use crate::pon::EntityId;
use crate::pon::EntityPath;
use crate::pon::EntityPathView;
use crate::pon::NamedPropRef;
use crate::pon::NamedPropRefView;
use crate::pon::Pon;
use crate::pon::PonView;
use crate::pon::PropRef;
use crate::pon::PropRefView;
use crate::pon::prop_ref_views;
use crate::pon::dependency_refs;
use crate::pon::field_views;
use crate::pon::lemma_array_view;
use crate::pon::lemma_object_view;
use crate::pon::named_ref_views;
use crate::pon::pon_views;
use crate::pon::Field;
use crate::pon::PonObject;
use crate::pon::ResolvedDependency;
use crate::pon::TypedPon;
use crate::pon_translations::PonTranslateErr;
use crate::pon_translations::PonTranslateErrView;
use crate::text::same_text;

verus! {

/// Why the document could not do what was asked.
#[derive(PartialEq, Eq, Debug)]
pub enum DocError {
    PonTranslateErr(PonTranslateErr),
    NoSuchProperty(String),
    NoSuchEntity(EntityId),
    CantFindEntityByName(String),
    InvalidParent,
}

pub ghost enum DocErrorView {
    PonTranslateErr(PonTranslateErrView),
    NoSuchProperty(Seq<char>),
    NoSuchEntity(EntityId),
    CantFindEntityByName(Seq<char>),
    InvalidParent,
}

impl View for DocError {
    type V = DocErrorView;

    open spec fn view(&self) -> DocErrorView {
        match self {
            DocError::PonTranslateErr(e) => DocErrorView::PonTranslateErr(e@),
            DocError::NoSuchProperty(key) => DocErrorView::NoSuchProperty(key@),
            DocError::NoSuchEntity(id) => DocErrorView::NoSuchEntity(*id),
            DocError::CantFindEntityByName(name) => DocErrorView::CantFindEntityByName(name@),
            DocError::InvalidParent => DocErrorView::InvalidParent,
        }
    }
}

impl Clone for DocError {
    fn clone(&self) -> (r: Self)
        ensures
            r@ == self@,
    {
        match self {
            DocError::PonTranslateErr(e) => DocError::PonTranslateErr(e.clone()),
            DocError::NoSuchProperty(key) => DocError::NoSuchProperty(key.clone()),
            DocError::NoSuchEntity(id) => DocError::NoSuchEntity(*id),
            DocError::CantFindEntityByName(name) => DocError::CantFindEntityByName(name.clone()),
            DocError::InvalidParent => DocError::InvalidParent,
        }
    }
}

impl From<PonTranslateErr> for DocError {
    fn from(err: PonTranslateErr) -> (r: DocError) {
        DocError::PonTranslateErr(err)
    }
}

impl vstd::std_specs::convert::FromSpecImpl<PonTranslateErr> for DocError {
    open spec fn obeys_from_spec() -> bool {
        true
    }

    open spec fn from_spec(err: PonTranslateErr) -> DocError {
        DocError::PonTranslateErr(err)
    }
}

/// A property: a key, the slot of the document's table of values that holds its
/// expression, and the properties that read it through a live reference.
#[derive(Debug)]
pub struct Property {
    pub(crate) key: String,
    pub(crate) cell: usize,
    pub(crate) dependants: Vec<PropRef>,
}

pub ghost struct PropertyView {
    pub key: Seq<char>,
    pub cell: nat,
    pub dependants: Seq<PropRefView>,
}

impl View for Property {
    type V = PropertyView;

    open(crate) spec fn view(&self) -> PropertyView {
        PropertyView { key: self.key@, cell: self.cell as nat, dependants: prop_ref_views(self.dependants@) }
    }
}

/// The views of a list of properties.
pub open(crate) spec fn property_views(properties: Seq<Property>) -> Seq<PropertyView> {
    Seq::new(properties.len(), |i: int| properties[i]@)
}

/// An entity of the tree.
#[derive(Debug)]
pub struct Entity {
    pub(crate) id: EntityId,
    pub(crate) kind: String,
    pub(crate) name: Option<String>,
    pub(crate) parent_id: Option<EntityId>,
    pub(crate) children_ids: Vec<EntityId>,
    pub(crate) properties: Vec<Property>,
}

pub ghost struct EntityView {
    pub id: EntityId,
    pub kind: Seq<char>,
    pub name: Option<Seq<char>>,
    pub parent_id: Option<EntityId>,
    pub children_ids: Seq<EntityId>,
    pub properties: Seq<PropertyView>,
}

impl View for Entity {
    type V = EntityView;

    open(crate) spec fn view(&self) -> EntityView {
        EntityView {
            id: self.id,
            kind: self.kind@,
            name: match self.name {
                Some(name) => Some(name@),
                None => None,
            },
            parent_id: self.parent_id,
            children_ids: self.children_ids@,
            properties: property_views(self.properties@),
        }
    }
}

/// The views of a list of entities.
pub open(crate) spec fn entity_views(entities: Seq<Entity>) -> Seq<EntityView> {
    Seq::new(entities.len(), |i: int| entities[i]@)
}

/// The views of a table of values.
pub open(crate) spec fn cell_views(cells: Seq<Option<Pon>>) -> Seq<Option<PonView>> {
    Seq::new(
        cells.len(),
        |i: int|
            match cells[i] {
                Some(pon) => Some(pon@),
                None => None,
            },
    )
}

/// The document.
///
/// Entities are never removed and keep the order in which they were appended. The
/// expression of every property lives in a slot of one table of values, and a live
/// reference that was bound holds the number of the slot it reads: it sees what is
/// stored there later without being resolved again.
#[derive(Debug)]
pub struct Document {
    pub(crate) id_counter: EntityId,
    pub(crate) root: Option<EntityId>,
    pub(crate) entities: Vec<Entity>,
    pub(crate) cells: Vec<Option<Pon>>,
    pub(crate) recording: bool,
    pub(crate) added_entities: Vec<EntityId>,
    pub(crate) changed_properties: Vec<PropRef>,
}

pub ghost struct DocumentView {
    /// The identity that was given out last.
    pub id_counter: EntityId,
    pub root: Option<EntityId>,
    /// The entities, in the order in which they were appended.
    pub entities: Seq<EntityView>,
    /// The table of values.
    pub cells: Seq<Option<PonView>>,
    /// Whether changes are recorded for an observer.
    pub recording: bool,
    /// The entities appended since the observer last asked, oldest first.
    pub added_entities: Seq<EntityId>,
    /// The properties set since the observer last asked, oldest first.
    pub changed_properties: Seq<PropRefView>,
}

impl View for Document {
    type V = DocumentView;

    open(crate) spec fn view(&self) -> DocumentView {
        DocumentView {
            id_counter: self.id_counter,
            root: self.root,
            entities: entity_views(self.entities@),
            cells: cell_views(self.cells@),
            recording: self.recording,
            added_entities: self.added_entities@,
            changed_properties: prop_ref_views(self.changed_properties@),
        }
    }
}

/// The place of the first entity with identity `id`.
pub open spec fn index_of_entity(entities: Seq<EntityView>, id: EntityId) -> Option<int>
    decreases entities.len(),
{
    if entities.len() == 0 {
        None
    } else if entities[0].id == id {
        Some(0)
    } else {
        match index_of_entity(entities.drop_first(), id) {
            Some(i) => Some(i + 1),
            None => None,
        }
    }
}

/// The place of the first property with key `key`.
pub open spec fn index_of_property(properties: Seq<PropertyView>, key: Seq<char>) -> Option<int>
    decreases properties.len(),
{
    if properties.len() == 0 {
        None
    } else if properties[0].key == key {
        Some(0)
    } else {
        match index_of_property(properties.drop_first(), key) {
            Some(i) => Some(i + 1),
            None => None,
        }
    }
}

/// The identity of the last entity that was appended under the name `name`.
pub open spec fn named_entity(entities: Seq<EntityView>, name: Seq<char>) -> Option<EntityId>
    decreases entities.len(),
{
    if entities.len() == 0 {
        None
    } else if entities.last().name == Some(name) {
        Some(entities.last().id)
    } else {
        named_entity(entities.drop_last(), name)
    }
}

/// What `index_of_entity` finds is the first entity with that identity.
pub proof fn lemma_index_of_entity(entities: Seq<EntityView>, id: EntityId)
    ensures
        match index_of_entity(entities, id) {
            Some(i) => 0 <= i < entities.len() && entities[i].id == id && forall|j: int|
                0 <= j < i ==> (#[trigger] entities[j]).id != id,
            None => forall|j: int| 0 <= j < entities.len() ==> (#[trigger] entities[j]).id != id,
        },
    decreases entities.len(),
{
    if entities.len() > 0 && entities[0].id != id {
        let rest = entities.drop_first();
        lemma_index_of_entity(rest, id);
        match index_of_entity(rest, id) {
            Some(i) => {
                assert(rest[i] == entities[i + 1]);
                assert forall|j: int| 0 <= j < i + 1 implies (#[trigger] entities[j]).id != id by {
                    if j > 0 {
                        assert(rest[j - 1] == entities[j]);
                    }
                }
            },
            None => {
                assert forall|j: int| 0 <= j < entities.len() implies (#[trigger] entities[j]).id != id by {
                    if j > 0 {
                        assert(rest[j - 1] == entities[j]);
                    }
                }
            },
        }
    }
}

/// The first entity with the identity is what `index_of_entity` finds.
pub proof fn lemma_entity_found(entities: Seq<EntityView>, id: EntityId, i: int)
    requires
        0 <= i < entities.len(),
        entities[i].id == id,
        forall|j: int| 0 <= j < i ==> (#[trigger] entities[j]).id != id,
    ensures
        index_of_entity(entities, id) == Some(i),
{
    lemma_index_of_entity(entities, id);
}

/// Where no entity has the identity, `index_of_entity` finds none.
pub proof fn lemma_entity_absent(entities: Seq<EntityView>, id: EntityId)
    requires
        forall|j: int| 0 <= j < entities.len() ==> (#[trigger] entities[j]).id != id,
    ensures
        index_of_entity(entities, id) is None,
{
    lemma_index_of_entity(entities, id);
}

/// What `index_of_property` finds is the first property with that key.
pub proof fn lemma_index_of_property(properties: Seq<PropertyView>, key: Seq<char>)
    ensures
        match index_of_property(properties, key) {
            Some(i) => 0 <= i < properties.len() && properties[i].key == key && forall|j: int|
                0 <= j < i ==> (#[trigger] properties[j]).key != key,
            None => forall|j: int| 0 <= j < properties.len() ==> (#[trigger] properties[j]).key != key,
        },
    decreases properties.len(),
{
    if properties.len() > 0 && properties[0].key != key {
        let rest = properties.drop_first();
        lemma_index_of_property(rest, key);
        match index_of_property(rest, key) {
            Some(i) => {
                assert(rest[i] == properties[i + 1]);
                assert forall|j: int| 0 <= j < i + 1 implies (#[trigger] properties[j]).key != key by {
                    if j > 0 {
                        assert(rest[j - 1] == properties[j]);
                    }
                }
            },
            None => {
                assert forall|j: int| 0 <= j < properties.len() implies (#[trigger] properties[j]).key != key by {
                    if j > 0 {
                        assert(rest[j - 1] == properties[j]);
                    }
                }
            },
        }
    }
}

/// The first property with the key is what `index_of_property` finds.
pub proof fn lemma_property_found(properties: Seq<PropertyView>, key: Seq<char>, i: int)
    requires
        0 <= i < properties.len(),
        properties[i].key == key,
        forall|j: int| 0 <= j < i ==> (#[trigger] properties[j]).key != key,
    ensures
        index_of_property(properties, key) == Some(i),
{
    lemma_index_of_property(properties, key);
}

/// Where no property has the key, `index_of_property` finds none.
pub proof fn lemma_property_absent(properties: Seq<PropertyView>, key: Seq<char>)
    requires
        forall|j: int| 0 <= j < properties.len() ==> (#[trigger] properties[j]).key != key,
    ensures
        index_of_property(properties, key) is None,
{
    lemma_index_of_property(properties, key);
}

impl DocumentView {
    /// The place of the entity `id` among the entities.
    pub open spec fn entity_index(self, id: EntityId) -> Option<int> {
        index_of_entity(self.entities, id)
    }

    /// Whether the document holds the entity `id`.
    pub open spec fn has_entity(self, id: EntityId) -> bool {
        self.entity_index(id) is Some
    }

    /// The entity `id`.
    pub open spec fn entity(self, id: EntityId) -> EntityView
        recommends
            self.has_entity(id),
    {
        self.entities[self.entity_index(id)->0]
    }

    /// The property `key` of the entity `id`, where the entity has it.
    pub open spec fn property(self, id: EntityId, key: Seq<char>) -> Option<PropertyView> {
        if self.has_entity(id) {
            match index_of_property(self.entity(id).properties, key) {
                Some(k) => Some(self.entity(id).properties[k]),
                None => None,
            }
        } else {
            None
        }
    }

    /// What the slot `cell` of the table of values holds.
    pub open spec fn cell_value(self, cell: nat) -> Option<PonView> {
        if cell < self.cells.len() {
            self.cells[cell as int]
        } else {
            None
        }
    }

    /// The entity with the unique name `name`: the last one that was appended under it.
    pub open spec fn entity_by_name(self, name: Seq<char>) -> Option<EntityId> {
        named_entity(self.entities, name)
    }

    /// The expression of the property `key` of the entity `id`.
    pub open spec fn get_property(self, id: EntityId, key: Seq<char>) -> Result<PonView, DocErrorView> {
        if !self.has_entity(id) {
            Err(DocErrorView::NoSuchEntity(id))
        } else {
            match self.property(id, key) {
                Some(property) => match self.cell_value(property.cell) {
                    Some(expression) => Ok(expression),
                    None => Err(DocErrorView::NoSuchProperty(key)),
                },
                None => Err(DocErrorView::NoSuchProperty(key)),
            }
        }
    }

    /// Whether the property `key` of the entity `id` holds an expression.
    pub open spec fn has_property(self, id: EntityId, key: Seq<char>) -> Result<bool, DocErrorView> {
        if !self.has_entity(id) {
            Err(DocErrorView::NoSuchEntity(id))
        } else {
            match self.property(id, key) {
                Some(property) => Ok(self.cell_value(property.cell) is Some),
                None => Ok(false),
            }
        }
    }

    /// The properties that read the property `key` of the entity `id`.
    pub open spec fn dependants(self, id: EntityId, key: Seq<char>) -> Result<Seq<PropRefView>, DocErrorView> {
        if !self.has_entity(id) {
            Err(DocErrorView::NoSuchEntity(id))
        } else {
            match self.property(id, key) {
                Some(property) => Ok(property.dependants),
                None => Err(DocErrorView::NoSuchProperty(key)),
            }
        }
    }

    /// The first entity named `name` among the entity `id` and its descendants,
    /// depth first, the entity itself before its children.
    pub open spec fn search(self, id: EntityId, name: Seq<char>) -> Result<EntityId, DocErrorView>
        decreases self.id_counter - id, 1nat, 0nat,
    {
        match self.entity_index(id) {
            None => Err(DocErrorView::NoSuchEntity(id)),
            Some(i) => {
                if self.entities[i].name == Some(name) {
                    Ok(id)
                } else {
                    self.search_among(self.entities[i].children_ids, id, name)
                }
            },
        }
    }

    /// The first entity named `name` below the children `children` of `parent`.
    pub open spec fn search_among(self, children: Seq<EntityId>, parent: EntityId, name: Seq<char>) -> Result<
        EntityId,
        DocErrorView,
    >
        decreases self.id_counter - parent, 0nat, children.len(),
    {
        if children.len() == 0 {
            Err(DocErrorView::CantFindEntityByName(name))
        } else {
            let found = if parent < children[0] <= self.id_counter {
                self.search(children[0], name)
            } else {
                Err(DocErrorView::NoSuchEntity(children[0]))
            };
            match found {
                Ok(id) => Ok(id),
                Err(_) => self.search_among(children.drop_first(), parent, name),
            }
        }
    }

    /// The entity that `path` leads to from the entity `start`.
    pub open spec fn resolve_path(self, start: EntityId, path: EntityPathView) -> Result<EntityId, DocErrorView>
        decreases path,
    {
        match path {
            EntityPathView::This => Ok(start),
            EntityPathView::Parent => match self.entity_index(start) {
                Some(i) => match self.entities[i].parent_id {
                    Some(parent) => Ok(parent),
                    None => Err(DocErrorView::InvalidParent),
                },
                None => Err(DocErrorView::NoSuchEntity(start)),
            },
            EntityPathView::Named(name) => match self.entity_by_name(name) {
                Some(id) => Ok(id),
                None => Err(DocErrorView::CantFindEntityByName(name)),
            },
            EntityPathView::Search(inner, name) => match self.resolve_path(start, *inner) {
                Ok(id) => self.search(id, name),
                Err(e) => Err(e),
            },
        }
    }

    /// The property that `reference` names, seen from the entity `start`.
    pub open spec fn resolve(self, start: EntityId, reference: NamedPropRefView) -> Result<PropRefView, DocErrorView> {
        match self.resolve_path(start, reference.entity_path) {
            Ok(id) => Ok(PropRefView { entity_id: id, property_key: reference.property_key }),
            Err(e) => Err(e),
        }
    }

    /// The identities rise along the entities and none is above the counter.
    pub open spec fn ids_wf(self) -> bool {
        &&& forall|i: int| 0 <= i < self.entities.len() ==> 1 <= (#[trigger] self.entities[i]).id <= self.id_counter
        &&& forall|i: int, j: int|
            0 <= i < j < self.entities.len() ==> (#[trigger] self.entities[i]).id < (#[trigger] self.entities[j]).id
    }

    /// The root is the first entity, every other entity has a parent that was
    /// appended before it, and every child was appended after its parent.
    pub open spec fn tree_wf(self) -> bool {
        &&& self.root is Some <==> self.entities.len() > 0
        &&& self.entities.len() > 0 ==> self.root == Some(self.entities[0].id) && self.entities[0].parent_id is None
        &&& forall|i: int|
            0 < i < self.entities.len() ==> (#[trigger] self.entities[i]).parent_id is Some
                && self.entities[i].parent_id->0 < self.entities[i].id && self.has_entity(
                self.entities[i].parent_id->0,
            ) && self.entity(self.entities[i].parent_id->0).children_ids.contains(self.entities[i].id)
        &&& forall|i: int, k: int|
            0 <= i < self.entities.len() && 0 <= k < self.entities[i].children_ids.len() ==> {
                let child = #[trigger] self.entities[i].children_ids[k];
                &&& self.entities[i].id < child
                &&& self.has_entity(child)
                &&& self.entity(child).parent_id == Some(self.entities[i].id)
            }
    }

    /// No entity has two properties with one key, every property has a slot of the table
    /// of values, and no two properties share a slot.
    pub open spec fn properties_wf(self) -> bool {
        &&& forall|i: int, k: int, l: int|
            0 <= i < self.entities.len() && 0 <= k < l < self.entities[i].properties.len()
                ==> (#[trigger] self.entities[i].properties[k]).key != (
            #[trigger] self.entities[i].properties[l]).key
        &&& forall|i: int, k: int|
            0 <= i < self.entities.len() && 0 <= k < self.entities[i].properties.len()
                ==> (#[trigger] self.entities[i].properties[k]).cell < self.cells.len()
        &&& forall|i: int, k: int, j: int, l: int|
            0 <= i < self.entities.len() && 0 <= k < self.entities[i].properties.len() && 0 <= j
                < self.entities.len() && 0 <= l < self.entities[j].properties.len() && (i != j || k != l)
                ==> (#[trigger] self.entities[i].properties[k]).cell != (
            #[trigger] self.entities[j].properties[l]).cell
    }

    /// Whether the document is well formed.
    pub open spec fn wf(self) -> bool {
        &&& self.ids_wf()
        &&& self.tree_wf()
        &&& self.properties_wf()
    }
}

impl Document {
    /// Whether the document is well formed. Every document that this library hands out
    /// is.
    pub open spec fn wf(&self) -> bool {
        self@.wf()
    }

    /// The view of the empty document.
    pub open spec fn new_view() -> DocumentView {
        DocumentView {
            id_counter: 0,
            root: None,
            entities: Seq::empty(),
            cells: Seq::empty(),
            recording: false,
            added_entities: Seq::empty(),
            changed_properties: Seq::empty(),
        }
    }

    /// The empty document.
    pub fn new() -> (doc: Document)
        ensures
            doc.wf(),
            doc@ == Document::new_view(),
    {
        let doc = Document {
            id_counter: 0,
            root: None,
            entities: Vec::new(),
            cells: Vec::new(),
            recording: false,
            added_entities: Vec::new(),
            changed_properties: Vec::new(),
        };
        assert(doc@.entities =~= Seq::empty());
        assert(doc@.cells =~= Seq::empty());
        assert(doc@.changed_properties =~= Seq::empty());
        doc
    }

    /// The place of the entity `id` among the entities.
    pub(crate) fn find_entity(&self, id: EntityId) -> (r: Option<usize>)
        ensures
            match r {
                Some(i) => self@.entity_index(id) == Some(i as int) && i < self.entities.len()
                    && self.entities[i as int].id == id,
                None => self@.entity_index(id) is None,
            },
    {
        let mut i: usize = 0;
        while i < self.entities.len()
            invariant
                i <= self.entities.len(),
                forall|j: int| 0 <= j < i ==> (#[trigger] self@.entities[j]).id != id,
            decreases self.entities.len() - i,
        {
            if self.entities[i].id == id {
                proof {
                    lemma_entity_found(self@.entities, id, i as int);
                }
                return Some(i);
            }
            i += 1;
        }
        proof {
            lemma_entity_absent(self@.entities, id);
        }
        None
    }

    /// The entity with the unique name `name`.
    pub fn get_entity_by_name(&self, name: &str) -> (r: Option<EntityId>)
        ensures
            r == self@.entity_by_name(name@),
    {
        let mut i: usize = self.entities.len();
        assert(self@.entities.subrange(0, i as int) =~= self@.entities);
        while i > 0
            invariant
                i <= self.entities.len(),
                self@.entity_by_name(name@) == named_entity(self@.entities.subrange(0, i as int), name@),
            decreases i,
        {
            let ghost head = self@.entities.subrange(0, i as int);
            assert(head.last() == self@.entities[i - 1]);
            assert(head.drop_last() =~= self@.entities.subrange(0, i - 1));
            i -= 1;
            let found = match &self.entities[i].name {
                Some(n) => same_text(n.as_str(), name),
                None => false,
            };
            if found {
                return Some(self.entities[i].id);
            }
        }
        None
    }

    /// The identities of all entities, in the order in which they were appended.
    pub fn entities_iter(&self) -> (ids: Vec<EntityId>)
        ensures
            ids@.len() == self@.entities.len(),
            forall|i: int| 0 <= i < ids@.len() ==> ids@[i] == (#[trigger] self@.entities[i]).id,
    {
        let mut ids: Vec<EntityId> = Vec::new();
        let mut i: usize = 0;
        while i < self.entities.len()
            invariant
                i <= self.entities.len(),
                ids@.len() == i,
                forall|j: int| 0 <= j < i ==> ids@[j] == (#[trigger] self@.entities[j]).id,
            decreases self.entities.len() - i,
        {
            ids.push(self.entities[i].id);
            i += 1;
        }
        ids
    }

    /// The root entity, once there is one.
    pub fn get_root(&self) -> (r: Option<EntityId>)
        ensures
            r == self@.root,
    {
        self.root
    }

    /// The place of the property `key` among the properties of the entity at `at`.
    #[verifier::loop_isolation(false)]
    pub(crate) fn find_property(&self, at: usize, key: &str) -> (r: Option<usize>)
        requires
            at < self.entities.len(),
        ensures
            match r {
                Some(k) => index_of_property(self@.entities[at as int].properties, key@) == Some(k as int) && k
                    < self.entities[at as int].properties.len(),
                None => index_of_property(self@.entities[at as int].properties, key@) is None,
            },
    {
        let entity = &self.entities[at];
        let ghost properties = self@.entities[at as int].properties;
        let mut k: usize = 0;
        while k < entity.properties.len()
            invariant
                k <= entity.properties.len(),
                properties == property_views(entity.properties@),
                forall|j: int| 0 <= j < k ==> (#[trigger] properties[j]).key != key@,
            decreases entity.properties.len() - k,
        {
            if same_text(entity.properties[k].key.as_str(), key) {
                proof {
                    lemma_property_found(properties, key@, k as int);
                }
                return Some(k);
            }
            k += 1;
        }
        proof {
            lemma_property_absent(properties, key@);
        }
        None
    }

    /// The expression of the property `property_key` of the entity `entity_id`.
    pub fn get_property(&self, entity_id: &EntityId, property_key: &str) -> (r: Result<&Pon, DocError>)
        ensures
            match r {
                Ok(expression) => self@.get_property(*entity_id, property_key@) == Ok::<PonView, DocErrorView>(
                    expression@,
                ),
                Err(e) => self@.get_property(*entity_id, property_key@) == Err::<PonView, DocErrorView>(e@),
            },
    {
        match self.find_entity(*entity_id) {
            Some(at) => match self.find_property(at, property_key) {
                Some(k) => {
                    let cell = self.entities[at].properties[k].cell;
                    if cell < self.cells.len() {
                        match &self.cells[cell] {
                            Some(expression) => Ok(expression),
                            None => Err(DocError::NoSuchProperty(property_key.to_owned())),
                        }
                    } else {
                        Err(DocError::NoSuchProperty(property_key.to_owned()))
                    }
                },
                None => Err(DocError::NoSuchProperty(property_key.to_owned())),
            },
            None => Err(DocError::NoSuchEntity(*entity_id)),
        }
    }

    /// Whether the property `name` of the entity `entity_id` holds an expression.
    pub fn has_property(&self, entity_id: &EntityId, name: &str) -> (r: Result<bool, DocError>)
        ensures
            match r {
                Ok(b) => self@.has_property(*entity_id, name@) == Ok::<bool, DocErrorView>(b),
                Err(e) => self@.has_property(*entity_id, name@) == Err::<bool, DocErrorView>(e@),
            },
    {
        match self.find_entity(*entity_id) {
            Some(at) => match self.find_property(at, name) {
                Some(k) => {
                    let cell = self.entities[at].properties[k].cell;
                    if cell < self.cells.len() {
                        Ok(self.cells[cell].is_some())
                    } else {
                        Ok(false)
                    }
                },
                None => Ok(false),
            },
            None => Err(DocError::NoSuchEntity(*entity_id)),
        }
    }

    /// The properties of the entity `entity_id`, in the order in which they came to be.
    pub fn get_properties(&self, entity_id: &EntityId) -> (r: Result<Vec<PropRef>, DocError>)
        ensures
            match r {
                Ok(refs) => self@.has_entity(*entity_id) && refs@.len() == self@.entity(*entity_id).properties.len()
                    && forall|k: int|
                    0 <= k < refs@.len() ==> (#[trigger] refs@[k])@ == (PropRefView {
                        entity_id: *entity_id,
                        property_key: self@.entity(*entity_id).properties[k].key,
                    }),
                Err(e) => !self@.has_entity(*entity_id) && e@ == DocErrorView::NoSuchEntity(*entity_id),
            },
    {
        match self.find_entity(*entity_id) {
            Some(at) => {
                let entity = &self.entities[at];
                let mut refs: Vec<PropRef> = Vec::new();
                let mut k: usize = 0;
                while k < entity.properties.len()
                    invariant
                        k <= entity.properties.len(),
                        refs@.len() == k,
                        forall|j: int|
                            0 <= j < k ==> (#[trigger] refs@[j])@ == (PropRefView {
                                entity_id: *entity_id,
                                property_key: entity.properties[j].key@,
                            }),
                    decreases entity.properties.len() - k,
                {
                    refs.push(PropRef { entity_id: *entity_id, property_key: entity.properties[k].key.clone() });
                    k += 1;
                }
                Ok(refs)
            },
            None => Err(DocError::NoSuchEntity(*entity_id)),
        }
    }

    /// The children of the entity `entity_id`, in the order in which they were appended.
    pub fn get_children(&self, entity_id: &EntityId) -> (r: Result<&Vec<EntityId>, DocError>)
        ensures
            match r {
                Ok(children) => self@.has_entity(*entity_id) && children@ == self@.entity(*entity_id).children_ids,
                Err(e) => !self@.has_entity(*entity_id) && e@ == DocErrorView::NoSuchEntity(*entity_id),
            },
    {
        match self.find_entity(*entity_id) {
            Some(at) => Ok(&self.entities[at].children_ids),
            None => Err(DocError::NoSuchEntity(*entity_id)),
        }
    }

    /// The type tag of the entity `entity_id`.
    pub fn get_entity_type_name(&self, entity_id: &EntityId) -> (r: Result<&String, DocError>)
        ensures
            match r {
                Ok(kind) => self@.has_entity(*entity_id) && kind@ == self@.entity(*entity_id).kind,
                Err(e) => !self@.has_entity(*entity_id) && e@ == DocErrorView::NoSuchEntity(*entity_id),
            },
    {
        match self.find_entity(*entity_id) {
            Some(at) => Ok(&self.entities[at].kind),
            None => Err(DocError::NoSuchEntity(*entity_id)),
        }
    }

    /// The properties that read the property `property_key` of the entity `entity_id`
    /// through a live reference, in the order in which they were registered.
    pub fn get_property_dependants(&self, entity_id: &EntityId, property_key: &str) -> (r: Result<
        &Vec<PropRef>,
        DocError,
    >)
        ensures
            match r {
                Ok(refs) => self@.dependants(*entity_id, property_key@) == Ok::<Seq<PropRefView>, DocErrorView>(
                    prop_ref_views(refs@),
                ),
                Err(e) => self@.dependants(*entity_id, property_key@) == Err::<Seq<PropRefView>, DocErrorView>(e@),
            },
    {
        match self.find_entity(*entity_id) {
            Some(at) => match self.find_property(at, property_key) {
                Some(k) => Ok(&self.entities[at].properties[k].dependants),
                None => Err(DocError::NoSuchProperty(property_key.to_owned())),
            },
            None => Err(DocError::NoSuchEntity(*entity_id)),
        }
    }

    /// The first entity named `name` among the entity `entity_id` and its descendants:
    /// depth first, the entity itself before its children.
    #[verifier::loop_isolation(false)]
    pub fn search_children(&self, entity_id: &EntityId, name: &str) -> (r: Result<EntityId, DocError>)
        requires
            self.wf(),
        ensures
            match r {
                Ok(id) => self@.search(*entity_id, name@) == Ok::<EntityId, DocErrorView>(id),
                Err(e) => self@.search(*entity_id, name@) == Err::<EntityId, DocErrorView>(e@),
            },
        decreases self@.id_counter - *entity_id,
    {
        match self.find_entity(*entity_id) {
            Some(at) => {
                let entity = &self.entities[at];
                let named = match &entity.name {
                    Some(n) => same_text(n.as_str(), name),
                    None => false,
                };
                if named {
                    return Ok(entity.id);
                }
                let ghost children = self@.entities[at as int].children_ids;
                let mut k: usize = 0;
                assert(children.subrange(0, children.len() as int) =~= children);
                while k < entity.children_ids.len()
                    invariant
                        k <= entity.children_ids.len(),
                        self@.search_among(children, *entity_id, name@) == self@.search_among(
                            children.subrange(k as int, children.len() as int),
                            *entity_id,
                            name@,
                        ),
                    decreases entity.children_ids.len() - k,
                {
                    let ghost rest = children.subrange(k as int, children.len() as int);
                    assert(rest[0] == children[k as int]);
                    assert(rest.drop_first() =~= children.subrange(k + 1, children.len() as int));
                    let child = entity.children_ids[k];
                    assert(child == self@.entities[at as int].children_ids[k as int]);
                    proof {
                        lemma_index_of_entity(self@.entities, child);
                    }
                    match self.search_children(&child, name) {
                        Ok(id) => {
                            return Ok(id);
                        },
                        Err(_) => {},
                    }
                    k += 1;
                }
                Err(DocError::CantFindEntityByName(name.to_owned()))
            },
            None => Err(DocError::NoSuchEntity(*entity_id)),
        }
    }

    /// The entity that `path` leads to from the entity `start_entity_id`.
    pub fn resolve_entity_path(&self, start_entity_id: &EntityId, path: &EntityPath) -> (r: Result<
        EntityId,
        DocError,
    >)
        requires
            self.wf(),
        ensures
            match r {
                Ok(id) => self@.resolve_path(*start_entity_id, path@) == Ok::<EntityId, DocErrorView>(id),
                Err(e) => self@.resolve_path(*start_entity_id, path@) == Err::<EntityId, DocErrorView>(e@),
            },
        decreases path,
    {
        match path {
            EntityPath::This => Ok(*start_entity_id),
            EntityPath::Parent => match self.find_entity(*start_entity_id) {
                Some(at) => match self.entities[at].parent_id {
                    Some(parent) => Ok(parent),
                    None => Err(DocError::InvalidParent),
                },
                None => Err(DocError::NoSuchEntity(*start_entity_id)),
            },
            EntityPath::Named(name) => match self.get_entity_by_name(name.as_str()) {
                Some(id) => Ok(id),
                None => Err(DocError::CantFindEntityByName(name.clone())),
            },
            EntityPath::Search(inner, name) => match self.resolve_entity_path(start_entity_id, inner) {
                Ok(id) => self.search_children(&id, name.as_str()),
                Err(e) => Err(e),
            },
        }
    }

    /// The property that `named_prop_ref` names, seen from the entity `start_entity_id`.
    pub fn resolve_named_prop_ref(&self, start_entity_id: &EntityId, named_prop_ref: &NamedPropRef) -> (r: Result<
        PropRef,
        DocError,
    >)
        requires
            self.wf(),
        ensures
            match r {
                Ok(prop_ref) => self@.resolve(*start_entity_id, named_prop_ref@) == Ok::<PropRefView, DocErrorView>(
                    prop_ref@,
                ),
                Err(e) => self@.resolve(*start_entity_id, named_prop_ref@) == Err::<PropRefView, DocErrorView>(e@),
            },
    {
        match self.resolve_entity_path(start_entity_id, &named_prop_ref.entity_path) {
            Ok(id) => Ok(PropRef { entity_id: id, property_key: named_prop_ref.property_key.clone() }),
            Err(e) => Err(e),
        }
    }
}


/// Entities with the same identities are found at the same places.
pub proof fn lemma_index_same_ids(a: Seq<EntityView>, b: Seq<EntityView>, id: EntityId)
    requires
        a.len() == b.len(),
        forall|i: int| 0 <= i < a.len() ==> (#[trigger] a[i]).id == (#[trigger] b[i]).id,
    ensures
        index_of_entity(a, id) == index_of_entity(b, id),
{
    lemma_index_of_entity(a, id);
    lemma_index_of_entity(b, id);
    match index_of_entity(a, id) {
        Some(i) => {
            assert(b[i].id == a[i].id);
            assert forall|j: int| 0 <= j < i implies (#[trigger] b[j]).id != id by {
                assert(a[j].id == b[j].id);
            }
            lemma_entity_found(b, id, i);
        },
        None => {
            assert forall|j: int| 0 <= j < b.len() implies (#[trigger] b[j]).id != id by {
                assert(a[j].id == b[j].id);
            }
            lemma_entity_absent(b, id);
        },
    }
}

/// An entity appended under a new identity is found at the end, and the others where
/// they were.
pub proof fn lemma_index_push(entities: Seq<EntityView>, entity: EntityView, id: EntityId)
    requires
        forall|i: int| 0 <= i < entities.len() ==> (#[trigger] entities[i]).id != entity.id,
    ensures
        index_of_entity(entities.push(entity), id) == (if id == entity.id {
            Some(entities.len() as int)
        } else {
            index_of_entity(entities, id)
        }),
{
    let more = entities.push(entity);
    lemma_index_of_entity(entities, id);
    if id == entity.id {
        assert forall|j: int| 0 <= j < entities.len() implies (#[trigger] more[j]).id != id by {
            assert(more[j] == entities[j]);
        }
        lemma_entity_found(more, id, entities.len() as int);
    } else {
        match index_of_entity(entities, id) {
            Some(i) => {
                assert(more[i] == entities[i]);
                assert forall|j: int| 0 <= j < i implies (#[trigger] more[j]).id != id by {
                    assert(more[j] == entities[j]);
                }
                lemma_entity_found(more, id, i);
            },
            None => {
                assert forall|j: int| 0 <= j < more.len() implies (#[trigger] more[j]).id != id by {
                    if j < entities.len() {
                        assert(more[j] == entities[j]);
                    }
                }
                lemma_entity_absent(more, id);
            },
        }
    }
}

impl DocumentView {
    /// The document with a property `key` at the entity at place `at`: where the entity
    /// has none, it gets one with a new, empty slot of the table of values.
    pub open spec fn with_property(self, at: int, key: Seq<char>) -> DocumentView
        recommends
            0 <= at < self.entities.len(),
    {
        match index_of_property(self.entities[at].properties, key) {
            Some(_) => self,
            None => DocumentView {
                entities: self.entities.update(
                    at,
                    EntityView {
                        properties: self.entities[at].properties.push(
                            PropertyView { key, cell: self.cells.len(), dependants: Seq::empty() },
                        ),
                        ..self.entities[at]
                    },
                ),
                cells: self.cells.push(None),
                ..self
            },
        }
    }

    /// The document with `dependant` registered at the property at place `k` of the
    /// entity at place `at`.
    pub open spec fn with_dependant_at(self, at: int, k: int, dependant: PropRefView) -> DocumentView
        recommends
            0 <= at < self.entities.len(),
            0 <= k < self.entities[at].properties.len(),
    {
        DocumentView {
            entities: self.entities.update(
                at,
                EntityView {
                    properties: self.entities[at].properties.update(
                        k,
                        PropertyView {
                            dependants: self.entities[at].properties[k].dependants.push(dependant),
                            ..self.entities[at].properties[k]
                        },
                    ),
                    ..self.entities[at]
                },
            ),
            ..self
        }
    }

    /// The document with `dependant` registered as a reader of the property `target`,
    /// which comes to be where it is not there.
    pub open spec fn with_dependant(self, target: PropRefView, dependant: PropRefView) -> (
        DocumentView,
        Result<(), DocErrorView>,
    ) {
        match self.entity_index(target.entity_id) {
            Some(at) => {
                let with = self.with_property(at, target.property_key);
                let k = index_of_property(with.entities[at].properties, target.property_key)->0;
                (with.with_dependant_at(at, k, dependant), Ok(()))
            },
            None => (self, Err(DocErrorView::NoSuchEntity(target.entity_id))),
        }
    }

    /// The document with `dependant` registered at each of `targets`, first to last,
    /// up to the first that fails.
    pub open spec fn register_all(self, targets: Seq<PropRefView>, dependant: PropRefView) -> (
        DocumentView,
        Result<(), DocErrorView>,
    )
        decreases targets.len(),
    {
        if targets.len() == 0 {
            (self, Ok(()))
        } else {
            match self.with_dependant(targets[0], dependant) {
                (next, Ok(_)) => next.register_all(targets.drop_first(), dependant),
                (next, Err(e)) => (next, Err(e)),
            }
        }
    }

    /// The properties that `references` name, seen from `start`; the first error where
    /// one cannot be resolved.
    pub open spec fn resolve_all(self, start: EntityId, references: Seq<NamedPropRefView>) -> Result<
        Seq<PropRefView>,
        DocErrorView,
    >
        decreases references.len(),
    {
        if references.len() == 0 {
            Ok(Seq::empty())
        } else {
            match self.resolve_all(start, references.drop_last()) {
                Ok(targets) => match self.resolve(start, references.last()) {
                    Ok(target) => Ok(targets.push(target)),
                    Err(e) => Err(e),
                },
                Err(e) => Err(e),
            }
        }
    }

    /// `pon` with every live reference bound to the slot of the property it names,
    /// seen from `start`; and the document, in which those properties have come to be.
    pub open spec fn bind(self, start: EntityId, pon: PonView) -> (DocumentView, Result<PonView, DocErrorView>)
        decreases pon,
    {
        match pon {
            PonView::Typed { name, data } => match self.bind(start, *data) {
                (next, Ok(value)) => (next, Ok(PonView::Typed { name, data: Box::new(value) })),
                (next, Err(e)) => (next, Err(e)),
            },
            PonView::DependencyReference(path, _) => match self.resolve(start, path) {
                Ok(target) => match self.entity_index(target.entity_id) {
                    Some(at) => {
                        let with = self.with_property(at, target.property_key);
                        let k = index_of_property(with.entities[at].properties, target.property_key)->0;
                        (
                            with,
                            Ok(
                                PonView::DependencyReference(
                                    path,
                                    Some(
                                        crate::pon::ResolvedView {
                                            prop_ref: target,
                                            cell: with.entities[at].properties[k].cell,
                                        },
                                    ),
                                ),
                            ),
                        )
                    },
                    None => (self, Err(DocErrorView::NoSuchEntity(target.entity_id))),
                },
                Err(e) => (self, Err(e)),
            },
            PonView::Object(fields) => match self.bind_fields(start, fields) {
                (next, Ok(values)) => (next, Ok(PonView::Object(values))),
                (next, Err(e)) => (next, Err(e)),
            },
            PonView::Array(items) => match self.bind_items(start, items) {
                (next, Ok(values)) => (next, Ok(PonView::Array(values))),
                (next, Err(e)) => (next, Err(e)),
            },
            _ => (self, Ok(pon)),
        }
    }

    /// The items `items` bound one after the other, first to last.
    pub open spec fn bind_items(self, start: EntityId, items: Seq<PonView>) -> (
        DocumentView,
        Result<Seq<PonView>, DocErrorView>,
    )
        decreases items,
    {
        if items.len() == 0 {
            (self, Ok(Seq::empty()))
        } else {
            match self.bind(start, items[0]) {
                (next, Ok(value)) => match next.bind_items(start, items.drop_first()) {
                    (last, Ok(values)) => (last, Ok(seq![value] + values)),
                    (last, Err(e)) => (last, Err(e)),
                },
                (next, Err(e)) => (next, Err(e)),
            }
        }
    }

    /// The values of the fields `fields` bound one after the other, first to last.
    pub open spec fn bind_fields(self, start: EntityId, fields: Seq<(Seq<char>, PonView)>) -> (
        DocumentView,
        Result<Seq<(Seq<char>, PonView)>, DocErrorView>,
    )
        decreases fields,
    {
        if fields.len() == 0 {
            (self, Ok(Seq::empty()))
        } else {
            match self.bind(start, fields[0].1) {
                (next, Ok(value)) => match next.bind_fields(start, fields.drop_first()) {
                    (last, Ok(values)) => (last, Ok(seq![(fields[0].0, value)] + values)),
                    (last, Err(e)) => (last, Err(e)),
                },
                (next, Err(e)) => (next, Err(e)),
            }
        }
    }

    /// The document with `expression` stored in the property `key` of the entity at
    /// place `at`, which comes to be where it is not there; the change is recorded.
    pub open spec fn store(self, at: int, key: Seq<char>, expression: PonView) -> DocumentView
        recommends
            0 <= at < self.entities.len(),
    {
        let with = self.with_property(at, key);
        let k = index_of_property(with.entities[at].properties, key)->0;
        let cell = with.entities[at].properties[k].cell;
        DocumentView {
            cells: if cell < with.cells.len() {
                with.cells.update(cell as int, Some(expression))
            } else {
                with.cells
            },
            changed_properties: if with.recording {
                with.changed_properties.push(PropRefView { entity_id: with.entities[at].id, property_key: key })
            } else {
                with.changed_properties
            },
            ..with
        }
    }

    /// Setting the property `key` of the entity `id` to `expression`: the live
    /// references of the expression are resolved from the entity; the property is
    /// registered as a reader of each property that they name; the references are
    /// bound; the expression is stored. What is returned is the document after the
    /// steps that were taken, and the error of the step that failed.
    pub open spec fn set_property(self, id: EntityId, key: Seq<char>, expression: PonView) -> (
        DocumentView,
        Result<(), DocErrorView>,
    ) {
        match self.entity_index(id) {
            None => (self, Err(DocErrorView::NoSuchEntity(id))),
            Some(at) => match self.resolve_all(id, crate::pon::dependency_refs(expression)) {
                Err(e) => (self, Err(e)),
                Ok(targets) => match self.register_all(targets, PropRefView { entity_id: id, property_key: key }) {
                    (registered, Err(e)) => (registered, Err(e)),
                    (registered, Ok(_)) => match registered.bind(id, expression) {
                        (bound, Err(e)) => (bound, Err(e)),
                        (bound, Ok(value)) => (bound.store(at, key, value), Ok(())),
                    },
                },
            },
        }
    }

    /// Appending an entity of type `kind` under `parent`: the entity gets the next
    /// identity, becomes the last child of its parent, or the root where it has none,
    /// and is recorded. Where the parent is not there, only the identity is used up.
    pub open spec fn append_entity(self, parent: Option<EntityId>, kind: Seq<char>, name: Option<Seq<char>>) -> (
        DocumentView,
        Result<EntityId, DocErrorView>,
    )
        recommends
            self.id_counter < u64::MAX,
            parent is None ==> self.root is None,
    {
        let id = (self.id_counter + 1) as EntityId;
        let entity = EntityView {
            id,
            kind,
            name,
            parent_id: parent,
            children_ids: Seq::empty(),
            properties: Seq::empty(),
        };
        let added = if self.recording {
            self.added_entities.push(id)
        } else {
            self.added_entities
        };
        match parent {
            Some(p) => match self.entity_index(p) {
                Some(at) => (
                    DocumentView {
                        id_counter: id,
                        entities: self.entities.update(
                            at,
                            EntityView { children_ids: self.entities[at].children_ids.push(id), ..self.entities[at] },
                        ).push(entity),
                        added_entities: added,
                        ..self
                    },
                    Ok(id),
                ),
                None => (DocumentView { id_counter: id, ..self }, Err(DocErrorView::InvalidParent)),
            },
            None => (
                DocumentView {
                    id_counter: id,
                    root: Some(id),
                    entities: self.entities.push(entity),
                    added_entities: added,
                    ..self
                },
                Ok(id),
            ),
        }
    }
}

/// Giving an entity a property leaves the document well formed, its entities where
/// they were, and every property that was there as it was.
pub proof fn lemma_with_property(d: DocumentView, at: int, key: Seq<char>)
    requires
        d.wf(),
        0 <= at < d.entities.len(),
    ensures
        d.with_property(at, key).wf(),
        d.with_property(at, key).same_tree(d),
        index_of_property(d.with_property(at, key).entities[at].properties, key) is Some,
{
    let w = d.with_property(at, key);
    lemma_index_of_property(d.entities[at].properties, key);
    if index_of_property(d.entities[at].properties, key) is None {
        let added = PropertyView { key, cell: d.cells.len(), dependants: Seq::empty() };
        let props = d.entities[at].properties.push(added);
        assert(w.entities[at].properties == props);
        lemma_property_found(props, key, d.entities[at].properties.len() as int);
        lemma_same_tree_wf(d, w);
        assert(w.properties_wf()) by {
            assert forall|i: int, k: int|
                0 <= i < w.entities.len() && 0 <= k < w.entities[i].properties.len() implies (
            #[trigger] w.entities[i].properties[k]).cell < w.cells.len() by {
                if i == at && k == d.entities[at].properties.len() {
                } else {
                    assert(w.entities[i].properties[k] == d.entities[i].properties[k]);
                }
            }
            assert forall|i: int, k: int, l: int|
                0 <= i < w.entities.len() && 0 <= k < l < w.entities[i].properties.len() implies (
            #[trigger] w.entities[i].properties[k]).key != (#[trigger] w.entities[i].properties[l]).key by {
                assert(w.entities[i].properties[k] == d.entities[i].properties[k]);
                if i == at && l == d.entities[at].properties.len() {
                } else {
                    assert(w.entities[i].properties[l] == d.entities[i].properties[l]);
                }
            }
            assert forall|i: int, k: int, j: int, l: int|
                0 <= i < w.entities.len() && 0 <= k < w.entities[i].properties.len() && 0 <= j < w.entities.len()
                    && 0 <= l < w.entities[j].properties.len() && (i != j || k != l) implies (
            #[trigger] w.entities[i].properties[k]).cell != (#[trigger] w.entities[j].properties[l]).cell by {
                let first_new = i == at && k == d.entities[at].properties.len();
                let second_new = j == at && l == d.entities[at].properties.len();
                if !first_new {
                    assert(w.entities[i].properties[k] == d.entities[i].properties[k]);
                }
                if !second_new {
                    assert(w.entities[j].properties[l] == d.entities[j].properties[l]);
                }
            }
        }
    } else {
        lemma_same_tree_refl(d);
    }
}

/// Registering a reader leaves the document well formed and its entities where they
/// were.
pub proof fn lemma_with_dependant_at(d: DocumentView, at: int, k: int, dependant: PropRefView)
    requires
        d.wf(),
        0 <= at < d.entities.len(),
        0 <= k < d.entities[at].properties.len(),
    ensures
        d.with_dependant_at(at, k, dependant).wf(),
        d.with_dependant_at(at, k, dependant).same_tree(d),
{
    let w = d.with_dependant_at(at, k, dependant);
    lemma_same_tree_wf(d, w);
    assert(w.properties_wf()) by {
        assert forall|i: int, a: int|
            0 <= i < w.entities.len() && 0 <= a < w.entities[i].properties.len() implies (
        #[trigger] w.entities[i].properties[a]).cell == d.entities[i].properties[a].cell && w.entities[i].properties[a].key
            == d.entities[i].properties[a].key by {}
        assert forall|i: int, a: int, l: int|
            0 <= i < w.entities.len() && 0 <= a < l < w.entities[i].properties.len() implies (
        #[trigger] w.entities[i].properties[a]).key != (#[trigger] w.entities[i].properties[l]).key by {
            assert(d.entities[i].properties[a].key != d.entities[i].properties[l].key);
        }
        assert forall|i: int, a: int, j: int, l: int|
            0 <= i < w.entities.len() && 0 <= a < w.entities[i].properties.len() && 0 <= j < w.entities.len() && 0
                <= l < w.entities[j].properties.len() && (i != j || a != l) implies (
        #[trigger] w.entities[i].properties[a]).cell != (#[trigger] w.entities[j].properties[l]).cell by {
            assert(d.entities[i].properties[a].cell != d.entities[j].properties[l].cell);
        }
    }
}

/// Two documents with the same tree: the same entities with the same names, parents
/// and children, the same counter and root. Only properties, values and records differ.
pub proof fn lemma_same_tree_wf(d: DocumentView, w: DocumentView)
    requires
        d.wf(),
        w.same_tree(d),
    ensures
        w.ids_wf(),
        w.tree_wf(),
        forall|id: EntityId| w.entity_index(id) == d.entity_index(id),
{
    assert forall|id: EntityId| w.entity_index(id) == d.entity_index(id) by {
        lemma_index_same_ids(w.entities, d.entities, id);
    }
    assert(w.ids_wf()) by {
        assert forall|i: int| 0 <= i < w.entities.len() implies 1 <= (#[trigger] w.entities[i]).id <= w.id_counter by {
            assert(w.entities[i].id == d.entities[i].id);
        }
        assert forall|i: int, j: int| 0 <= i < j < w.entities.len() implies (#[trigger] w.entities[i]).id < (
        #[trigger] w.entities[j]).id by {
            assert(w.entities[i].id == d.entities[i].id);
            assert(w.entities[j].id == d.entities[j].id);
        }
    }
    assert(w.tree_wf()) by {
        assert forall|i: int| 0 < i < w.entities.len() implies (#[trigger] w.entities[i]).parent_id is Some
            && w.entities[i].parent_id->0 < w.entities[i].id && w.has_entity(w.entities[i].parent_id->0)
            && w.entity(w.entities[i].parent_id->0).children_ids.contains(w.entities[i].id) by {
            assert(d.entities[i].parent_id is Some);
            assert(w.entities[i].parent_id == d.entities[i].parent_id);
            assert(w.entities[i].id == d.entities[i].id);
            let parent = d.entities[i].parent_id->0;
            assert(d.has_entity(parent));
            lemma_index_of_entity(d.entities, parent);
            let at = d.entity_index(parent)->0;
            assert(w.entities[at].children_ids == d.entities[at].children_ids);
        }
        assert forall|i: int, k: int|
            0 <= i < w.entities.len() && 0 <= k < w.entities[i].children_ids.len() implies {
                let child = #[trigger] w.entities[i].children_ids[k];
                &&& w.entities[i].id < child
                &&& w.has_entity(child)
                &&& w.entity(child).parent_id == Some(w.entities[i].id)
            } by {
            assert(w.entities[i].children_ids == d.entities[i].children_ids);
            let child = d.entities[i].children_ids[k];
            assert(d.has_entity(child));
            lemma_index_of_entity(d.entities, child);
            let c = d.entity_index(child)->0;
            assert(w.entities[c].parent_id == d.entities[c].parent_id);
        }
    }
}

pub proof fn lemma_same_tree_refl(d: DocumentView)
    ensures
        d.same_tree(d),
{
}

pub proof fn lemma_same_tree_trans(a: DocumentView, b: DocumentView, c: DocumentView)
    requires
        a.same_tree(b),
        b.same_tree(c),
    ensures
        a.same_tree(c),
{
    assert forall|i: int| 0 <= i < a.entities.len() implies (#[trigger] a.entities[i]).id == c.entities[i].id
        && a.entities[i].kind == c.entities[i].kind && a.entities[i].name == c.entities[i].name
        && a.entities[i].parent_id == c.entities[i].parent_id && a.entities[i].children_ids
        == c.entities[i].children_ids by {
        assert(b.entities[i].id == c.entities[i].id);
    }
}

impl DocumentView {
    /// Whether this document has the tree of `other`: the same entities with the same
    /// types, names, parents and children, and the same counter and root.
    pub open spec fn same_tree(self, other: DocumentView) -> bool {
        &&& self.id_counter == other.id_counter
        &&& self.root == other.root
        &&& self.recording == other.recording
        &&& self.added_entities == other.added_entities
        &&& self.entities.len() == other.entities.len()
        &&& forall|i: int|
            0 <= i < self.entities.len() ==> (#[trigger] self.entities[i]).id == other.entities[i].id
                && self.entities[i].kind == other.entities[i].kind && self.entities[i].name
                == other.entities[i].name && self.entities[i].parent_id == other.entities[i].parent_id
                && self.entities[i].children_ids == other.entities[i].children_ids
    }
}


/// Appending an entity leaves the document well formed.
pub proof fn lemma_append_entity(d: DocumentView, parent: Option<EntityId>, kind: Seq<char>, name: Option<Seq<char>>)
    requires
        d.wf(),
        d.id_counter < u64::MAX,
        parent is None ==> d.root is None,
    ensures
        d.append_entity(parent, kind, name).0.wf(),
{
    let w = d.append_entity(parent, kind, name).0;
    let id = (d.id_counter + 1) as EntityId;
    let n = d.entities.len() as int;
    match parent {
        Some(p) => {
            lemma_index_of_entity(d.entities, p);
            match d.entity_index(p) {
                Some(at) => {
                    let linked = d.entities.update(
                        at,
                        EntityView { children_ids: d.entities[at].children_ids.push(id), ..d.entities[at] },
                    );
                    let entity = w.entities[n];
                    assert(w.entities == linked.push(entity));
                    assert forall|x: EntityId| w.entity_index(x) == (if x == id {
                        Some(n)
                    } else {
                        d.entity_index(x)
                    }) by {
                        assert forall|i: int| 0 <= i < linked.len() implies (#[trigger] linked[i]).id != entity.id by {
                            assert(linked[i].id == d.entities[i].id);
                        }
                        lemma_index_push(linked, entity, x);
                        lemma_index_same_ids(linked, d.entities, x);
                    }
                    assert(w.ids_wf()) by {
                        assert forall|i: int| 0 <= i < w.entities.len() implies 1 <= (#[trigger] w.entities[i]).id
                            <= w.id_counter by {
                            if i < n {
                                assert(w.entities[i].id == d.entities[i].id);
                            }
                        }
                        assert forall|i: int, j: int| 0 <= i < j < w.entities.len() implies (
                        #[trigger] w.entities[i]).id < (#[trigger] w.entities[j]).id by {
                            assert(w.entities[i].id == d.entities[i].id);
                            if j < n {
                                assert(w.entities[j].id == d.entities[j].id);
                            }
                        }
                    }
                    assert(w.tree_wf()) by {
                        assert(w.entities[0].id == d.entities[0].id);
                        assert(w.entities[0].parent_id == d.entities[0].parent_id);
                        assert forall|i: int| 0 < i < w.entities.len() implies (#[trigger] w.entities[i]).parent_id is Some
                            && w.entities[i].parent_id->0 < w.entities[i].id && w.has_entity(
                            w.entities[i].parent_id->0,
                        ) && w.entity(w.entities[i].parent_id->0).children_ids.contains(w.entities[i].id) by {
                            if i < n {
                                assert(d.entities[i].parent_id is Some);
                                assert(w.entities[i].parent_id == d.entities[i].parent_id);
                                assert(w.entities[i].id == d.entities[i].id);
                                let parent = d.entities[i].parent_id->0;
                                assert(d.has_entity(parent));
                                lemma_index_of_entity(d.entities, parent);
                                let j = d.entity_index(parent)->0;
                                let children = d.entities[j].children_ids;
                                let c = choose|c: int| 0 <= c < children.len() && children[c] == d.entities[i].id;
                                assert(w.entities[j].children_ids[c] == children[c]);
                            } else {
                                assert(d.entities[at].id == p);
                                assert(w.entities[at].children_ids[d.entities[at].children_ids.len() as int] == id);
                            }
                        }
                        assert forall|i: int, k: int|
                            0 <= i < w.entities.len() && 0 <= k < w.entities[i].children_ids.len() implies {
                                let child = #[trigger] w.entities[i].children_ids[k];
                                &&& w.entities[i].id < child
                                &&& w.has_entity(child)
                                &&& w.entity(child).parent_id == Some(w.entities[i].id)
                            } by {
                            if i == at && k == d.entities[at].children_ids.len() {
                                assert(w.entities[at].children_ids[k] == id);
                                assert(w.entities[at].id == p);
                            } else {
                                assert(w.entities[i].id == d.entities[i].id);
                                let child = d.entities[i].children_ids[k];
                                assert(w.entities[i].children_ids[k] == child);
                                assert(d.has_entity(child));
                                lemma_index_of_entity(d.entities, child);
                                let c = d.entity_index(child)->0;
                                assert(w.entities[c].parent_id == d.entities[c].parent_id);
                                assert(d.entity(child).parent_id == Some(d.entities[i].id));
                            }
                        }
                    }
                    assert(w.properties_wf()) by {
                        assert forall|i: int| 0 <= i < n implies (#[trigger] w.entities[i]).properties
                            == d.entities[i].properties by {}
                        assert forall|i: int, k: int, l: int|
                            0 <= i < w.entities.len() && 0 <= k < l < w.entities[i].properties.len() implies (
                        #[trigger] w.entities[i].properties[k]).key != (#[trigger] w.entities[i].properties[l]).key by {
                            assert(w.entities[i].properties == d.entities[i].properties);
                            assert(d.entities[i].properties[k].key != d.entities[i].properties[l].key);
                        }
                        assert forall|i: int, k: int|
                            0 <= i < w.entities.len() && 0 <= k < w.entities[i].properties.len() implies (
                        #[trigger] w.entities[i].properties[k]).cell < w.cells.len() by {
                            assert(w.entities[i].properties == d.entities[i].properties);
                            assert(d.entities[i].properties[k].cell < d.cells.len());
                        }
                        assert forall|i: int, k: int, j: int, l: int|
                            0 <= i < w.entities.len() && 0 <= k < w.entities[i].properties.len() && 0 <= j
                                < w.entities.len() && 0 <= l < w.entities[j].properties.len() && (i != j || k != l) implies (
                        #[trigger] w.entities[i].properties[k]).cell != (#[trigger] w.entities[j].properties[l]).cell by {
                            assert(w.entities[i].properties == d.entities[i].properties);
                            assert(w.entities[j].properties == d.entities[j].properties);
                            assert(d.entities[i].properties[k].cell != d.entities[j].properties[l].cell);
                        }
                    }
                },
                None => {
                    lemma_same_tree_counter(d, w);
                },
            }
        },
        None => {
            assert(d.entities.len() == 0);
            assert(w.entities.len() == 1);
            lemma_entity_found(w.entities, id, 0);
        },
    }
}

/// Raising the counter leaves the document well formed.
pub proof fn lemma_same_tree_counter(d: DocumentView, w: DocumentView)
    requires
        d.wf(),
        w == (DocumentView { id_counter: w.id_counter, ..d }),
        d.id_counter <= w.id_counter,
    ensures
        w.wf(),
{
    assert forall|i: int| 0 <= i < w.entities.len() implies 1 <= (#[trigger] w.entities[i]).id <= w.id_counter by {
        assert(1 <= d.entities[i].id <= d.id_counter);
    }
}

/// The view of a name that may be missing.
pub open spec fn text_option(name: Option<String>) -> Option<Seq<char>> {
    match name {
        Some(n) => Some(n@),
        None => None,
    }
}

/// The view of what a step of the document returned.
pub open spec fn outcome<T: View>(r: Result<T, DocError>) -> Result<T::V, DocErrorView> {
    match r {
        Ok(value) => Ok(value@),
        Err(e) => Err(e@),
    }
}

/// What is left of binding a list when `done` are the values bound so far.
pub open spec fn after_items(done: Seq<PonView>, rest: (DocumentView, Result<Seq<PonView>, DocErrorView>)) -> (
    DocumentView,
    Result<Seq<PonView>, DocErrorView>,
) {
    match rest {
        (last, Ok(values)) => (last, Ok(done + values)),
        (last, Err(e)) => (last, Err(e)),
    }
}

/// What is left of binding the fields of an object when `done` are the fields bound so
/// far.
pub open spec fn after_fields(
    done: Seq<(Seq<char>, PonView)>,
    rest: (DocumentView, Result<Seq<(Seq<char>, PonView)>, DocErrorView>),
) -> (DocumentView, Result<Seq<(Seq<char>, PonView)>, DocErrorView>) {
    match rest {
        (last, Ok(values)) => (last, Ok(done + values)),
        (last, Err(e)) => (last, Err(e)),
    }
}

impl Document {
    /// The place of the property `key` of the entity at place `at`; the property comes
    /// to be, with an empty slot of its own, where the entity has none.
    pub(crate) fn ensure_property(&mut self, at: usize, key: &str) -> (k: usize)
        requires
            old(self).wf(),
            at < old(self).entities.len(),
        ensures
            final(self).wf(),
            final(self)@ == old(self)@.with_property(at as int, key@),
            final(self)@.same_tree(old(self)@),
            index_of_property(final(self)@.entities[at as int].properties, key@) == Some(k as int),
            k < final(self).entities[at as int].properties.len(),
            final(self).entities.len() == old(self).entities.len(),
    {
        proof {
            lemma_with_property(self@, at as int, key@);
        }
        match self.find_property(at, key) {
            Some(k) => k,
            None => {
                let cell = self.cells.len();
                let k = self.entities[at].properties.len();
                let ghost before = self@;
                self.cells.push(None);
                self.entities[at].properties.push(Property { key: key.to_owned(), cell, dependants: Vec::new() });
                proof {
                    let target = before.with_property(at as int, key@);
                    assert(self@.cells =~= target.cells);
                    assert(self@.entities[at as int].properties =~= target.entities[at as int].properties) by {
                        assert(prop_ref_views(self.entities[at as int].properties[k as int].dependants@)
                            =~= Seq::<PropRefView>::empty());
                    }
                    assert(self@.entities[at as int] == target.entities[at as int]);
                    assert(self@.entities =~= target.entities);
                    assert(self@.changed_properties =~= target.changed_properties);
                    lemma_property_found_after(before, at as int, key@);
                }
                k
            },
        }
    }

    /// Registers `dependant` as a reader of the property `target`.
    pub(crate) fn register(&mut self, target: &PropRef, dependant: &PropRef) -> (r: Result<(), DocError>)
        requires
            old(self).wf(),
        ensures
            final(self).wf(),
            (final(self)@, outcome(r)) == old(self)@.with_dependant(target@, dependant@),
            final(self)@.same_tree(old(self)@),
    {
        match self.find_entity(target.entity_id) {
            Some(at) => {
                let k = self.ensure_property(at, target.property_key.as_str());
                let ghost with = self@;
                proof {
                    lemma_with_dependant_at(with, at as int, k as int, dependant@);
                    lemma_same_tree_trans(with.with_dependant_at(at as int, k as int, dependant@), with, old(self)@);
                }
                self.entities[at].properties[k].dependants.push(dependant.clone());
                proof {
                    let goal = with.with_dependant_at(at as int, k as int, dependant@);
                    assert(self@.entities[at as int].properties[k as int].dependants
                        =~= goal.entities[at as int].properties[k as int].dependants);
                    assert(self@.entities[at as int].properties =~= goal.entities[at as int].properties);
                    assert(self@.entities[at as int] == goal.entities[at as int]);
                    assert(self@.entities =~= goal.entities);
                    assert(self@.cells =~= goal.cells);
                    assert(self@.changed_properties =~= goal.changed_properties);
                }
                Ok(())
            },
            None => {
                proof {
                    lemma_same_tree_refl(self@);
                }
                Err(DocError::NoSuchEntity(target.entity_id))
            },
        }
    }

    /// A copy of `pon` in which every live reference is bound to the slot of the
    /// property it names, seen from the entity `start`.
    #[verifier::loop_isolation(false)]
    pub(crate) fn resolve_pon_dependencies(&mut self, start: &EntityId, pon: &Pon) -> (r: Result<Pon, DocError>)
        requires
            old(self).wf(),
        ensures
            final(self).wf(),
            (final(self)@, outcome(r)) == old(self)@.bind(*start, pon@),
            final(self)@.same_tree(old(self)@),
        decreases pon,
    {
        proof {
            lemma_same_tree_refl(self@);
        }
        match pon {
            Pon::TypedPon(typed) => match self.resolve_pon_dependencies(start, &typed.data) {
                Ok(data) => Ok(Pon::TypedPon(Box::new(TypedPon { name: typed.name.clone(), data }))),
                Err(e) => Err(e),
            },
            Pon::DependencyReference(path, _) => match self.resolve_named_prop_ref(start, path) {
                Ok(target) => match self.find_entity(target.entity_id) {
                    Some(at) => {
                        let k = self.ensure_property(at, target.property_key.as_str());
                        let cell = self.entities[at].properties[k].cell;
                        Ok(Pon::DependencyReference(path.clone(), Some(ResolvedDependency { prop_ref: target, cell })))
                    },
                    None => Err(DocError::NoSuchEntity(target.entity_id)),
                },
                Err(e) => Err(e),
            },
            Pon::Object(object) => {
                proof {
                    lemma_object_view(*object);
                    use_type_invariant(object);
                }
                let ghost views = object@;
                let ghost first = self@;
                let mut out: Vec<Field> = Vec::new();
                let mut i: usize = 0;
                assert(views.subrange(0, views.len() as int) =~= views);
                assert(field_views(out@) =~= Seq::<(Seq<char>, PonView)>::empty());
                assert(Seq::<(Seq<char>, PonView)>::empty() + first.bind_fields(*start, views).1->Ok_0
                    =~= first.bind_fields(*start, views).1->Ok_0);
                while i < object.fields.len()
                    invariant
                        i <= object.fields.len(),
                        out.len() == i,
                        self.wf(),
                        self@.same_tree(first),
                        forall|j: int| 0 <= j < i ==> (#[trigger] out[j]).key@ == views[j].0,
                        first.bind_fields(*start, views) == after_fields(
                            field_views(out@),
                            self@.bind_fields(*start, views.subrange(i as int, views.len() as int)),
                        ),
                    decreases object.fields.len() - i,
                {
                    let ghost rest = views.subrange(i as int, views.len() as int);
                    let ghost here = self@;
                    assert(rest[0] == object.fields[i as int]@);
                    assert(rest.drop_first() =~= views.subrange(i + 1, views.len() as int));
                    match self.resolve_pon_dependencies(start, &object.fields[i].value) {
                        Ok(value) => {
                            let ghost done = field_views(out@);
                            out.push(Field { key: object.fields[i].key.clone(), value });
                            proof {
                                lemma_same_tree_trans(self@, here, first);
                                let next = self@.bind_fields(*start, rest.drop_first());
                                assert(field_views(out@) =~= done.push((rest[0].0, value@)));
                                if next.1 is Ok {
                                    assert(done + (seq![(rest[0].0, value@)] + next.1->Ok_0) =~= field_views(out@)
                                        + next.1->Ok_0);
                                }
                            }
                        },
                        Err(e) => {
                            proof {
                                lemma_same_tree_trans(self@, here, first);
                            }
                            return Err(e);
                        },
                    }
                    i += 1;
                }
                assert(field_views(out@) + Seq::<(Seq<char>, PonView)>::empty() =~= field_views(out@));
                assert(crate::pon::keys_sorted(field_views(out@))) by {
                    assert forall|a: int, b: int| 0 <= a < b < out.len() implies crate::text::text_lt(
                        #[trigger] field_views(out@)[a].0,
                        #[trigger] field_views(out@)[b].0,
                    ) by {
                        assert(out[a].key@ == views[a].0);
                        assert(out[b].key@ == views[b].0);
                    }
                }
                let copy = PonObject { fields: out };
                proof {
                    lemma_object_view(copy);
                }
                Ok(Pon::Object(copy))
            },
            Pon::Array(items) => {
                proof {
                    lemma_array_view(*items);
                }
                let ghost views = pon_views(items@);
                let ghost first = self@;
                let mut out: Vec<Pon> = Vec::new();
                let mut i: usize = 0;
                assert(views.subrange(0, views.len() as int) =~= views);
                assert(pon_views(out@) =~= Seq::<PonView>::empty());
                assert(Seq::<PonView>::empty() + first.bind_items(*start, views).1->Ok_0 =~= first.bind_items(
                    *start,
                    views,
                ).1->Ok_0);
                while i < items.len()
                    invariant
                        i <= items.len(),
                        out.len() == i,
                        self.wf(),
                        self@.same_tree(first),
                        first.bind_items(*start, views) == after_items(
                            pon_views(out@),
                            self@.bind_items(*start, views.subrange(i as int, views.len() as int)),
                        ),
                    decreases items.len() - i,
                {
                    let ghost rest = views.subrange(i as int, views.len() as int);
                    let ghost here = self@;
                    assert(rest[0] == items[i as int]@);
                    assert(rest.drop_first() =~= views.subrange(i + 1, views.len() as int));
                    match self.resolve_pon_dependencies(start, &items[i]) {
                        Ok(value) => {
                            let ghost done = pon_views(out@);
                            let ghost v = value@;
                            out.push(value);
                            proof {
                                lemma_same_tree_trans(self@, here, first);
                                let next = self@.bind_items(*start, rest.drop_first());
                                assert(pon_views(out@) =~= done.push(v));
                                if next.1 is Ok {
                                    assert(done + (seq![v] + next.1->Ok_0) =~= pon_views(out@) + next.1->Ok_0);
                                }
                            }
                        },
                        Err(e) => {
                            proof {
                                lemma_same_tree_trans(self@, here, first);
                            }
                            return Err(e);
                        },
                    }
                    i += 1;
                }
                assert(pon_views(out@) + Seq::<PonView>::empty() =~= pon_views(out@));
                proof {
                    lemma_array_view(out);
                }
                Ok(Pon::Array(out))
            },
            _ => Ok(pon.clone()),
        }
    }

    /// Stores `expression` in the property `key` of the entity at place `at`.
    pub(crate) fn store(&mut self, at: usize, key: &str, expression: Pon)
        requires
            old(self).wf(),
            at < old(self).entities.len(),
        ensures
            final(self).wf(),
            final(self)@ == old(self)@.store(at as int, key@, expression@),
    {
        let k = self.ensure_property(at, key);
        let cell = self.entities[at].properties[k].cell;
        let ghost with = self@;
        assert(cell < self.cells.len());
        self.cells.set(cell, Some(expression));
        if self.recording {
            let changed = PropRef { entity_id: self.entities[at].id, property_key: key.to_owned() };
            self.changed_properties.push(changed);
        }
        proof {
            let goal = old(self)@.store(at as int, key@, expression@);
            assert(self@.cells =~= goal.cells);
            assert(self@.changed_properties =~= goal.changed_properties);
            assert(self@.entities =~= goal.entities);
            lemma_same_properties_wf(with, self@);
        }
    }

    /// Sets the property `property_key` of the entity `entity_id` to `expression`.
    ///
    /// The live references of the expression are resolved from the entity; the property
    /// is registered as a reader of every property they name, which comes to be where
    /// it is not there yet; the references are bound to the slots of those properties;
    /// then the expression is stored and the change recorded.
    #[verifier::loop_isolation(false)]
    pub fn set_property(&mut self, entity_id: &EntityId, property_key: &str, expression: Pon) -> (r: Result<
        (),
        DocError,
    >)
        requires
            old(self).wf(),
        ensures
            final(self).wf(),
            (final(self)@, outcome(r)) == old(self)@.set_property(*entity_id, property_key@, expression@),
    {
        let at = match self.find_entity(*entity_id) {
            Some(at) => at,
            None => {
                return Err(DocError::NoSuchEntity(*entity_id));
            },
        };
        let targets = match self.build_property_node_dependencies(entity_id, &expression) {
            Ok(targets) => targets,
            Err(e) => {
                return Err(e);
            },
        };
        let dependant = PropRef { entity_id: *entity_id, property_key: property_key.to_owned() };
        let ghost first = self@;
        let ghost all = prop_ref_views(targets@);
        let mut i: usize = 0;
        assert(all.subrange(0, all.len() as int) =~= all);
        proof {
            lemma_same_tree_refl(first);
        }
        while i < targets.len()
            invariant
                i <= targets.len(),
                self.wf(),
                self@.same_tree(first),
                all == prop_ref_views(targets@),
                first.register_all(all, dependant@) == self@.register_all(
                    all.subrange(i as int, all.len() as int),
                    dependant@,
                ),
            decreases targets.len() - i,
        {
            let ghost rest = all.subrange(i as int, all.len() as int);
            let ghost here = self@;
            assert(rest[0] == targets[i as int]@);
            assert(rest.drop_first() =~= all.subrange(i + 1, all.len() as int));
            match self.register(&targets[i], &dependant) {
                Ok(_) => {
                    proof {
                        lemma_same_tree_trans(self@, here, first);
                    }
                },
                Err(e) => {
                    return Err(e);
                },
            }
            i += 1;
        }
        let ghost registered = self@;
        let bound = match self.resolve_pon_dependencies(entity_id, &expression) {
            Ok(bound) => bound,
            Err(e) => {
                return Err(e);
            },
        };
        proof {
            lemma_same_tree_trans(self@, registered, first);
            lemma_same_tree_wf(first, self@);
        }
        self.store(at, property_key, bound);
        Ok(())
    }

    /// The properties that the live references of `node` name, seen from the entity
    /// `entity_id`, in the order of the references.
    #[verifier::loop_isolation(false)]
    pub(crate) fn build_property_node_dependencies(&self, entity_id: &EntityId, node: &Pon) -> (r: Result<
        Vec<PropRef>,
        DocError,
    >)
        requires
            self.wf(),
        ensures
            match r {
                Ok(targets) => self@.resolve_all(*entity_id, dependency_refs(node@)) == Ok::<
                    Seq<PropRefView>,
                    DocErrorView,
                >(prop_ref_views(targets@)),
                Err(e) => self@.resolve_all(*entity_id, dependency_refs(node@)) == Err::<
                    Seq<PropRefView>,
                    DocErrorView,
                >(e@),
            },
    {
        let mut named_refs: Vec<NamedPropRef> = Vec::new();
        assert(named_ref_views(named_refs@) =~= Seq::<NamedPropRefView>::empty());
        node.get_dependency_references(&mut named_refs);
        let ghost all = named_ref_views(named_refs@);
        assert(all =~= dependency_refs(node@));
        let mut refs: Vec<PropRef> = Vec::new();
        let mut i: usize = 0;
        assert(all.subrange(0, 0) =~= Seq::<NamedPropRefView>::empty());
        assert(prop_ref_views(refs@) =~= Seq::<PropRefView>::empty());
        while i < named_refs.len()
            invariant
                i <= named_refs.len(),
                self.wf(),
                all == named_ref_views(named_refs@),
                self@.resolve_all(*entity_id, all.subrange(0, i as int)) == Ok::<Seq<PropRefView>, DocErrorView>(
                    prop_ref_views(refs@),
                ),
            decreases named_refs.len() - i,
        {
            let ghost head = all.subrange(0, i + 1);
            assert(head.drop_last() =~= all.subrange(0, i as int));
            assert(head.last() == named_refs[i as int]@);
            match self.resolve_named_prop_ref(entity_id, &named_refs[i]) {
                Ok(target) => {
                    let ghost done = prop_ref_views(refs@);
                    let ghost t = target@;
                    refs.push(target);
                    assert(prop_ref_views(refs@) =~= done.push(t));
                },
                Err(e) => {
                    proof {
                        lemma_resolve_all_error(self@, *entity_id, all, i as int);
                    }
                    return Err(e);
                },
            }
            i += 1;
        }
        assert(all.subrange(0, named_refs.len() as int) =~= all);
        Ok(refs)
    }

    /// Whether an entity can be appended under `parent_id`: an identity is left, and
    /// where `parent_id` is `None` the document has no root yet.
    pub fn can_append(&self, parent_id: Option<EntityId>) -> (r: bool)
        ensures
            r == (self@.id_counter < u64::MAX && (parent_id is None ==> self@.root is None)),
    {
        self.id_counter < u64::MAX && (parent_id.is_some() || self.root.is_none())
    }

    /// Appends an entity of type `kind` under the entity `parent_id`, or as the root
    /// where `parent_id` is `None`.
    ///
    /// A document has one root for its lifetime: to append a second one is a mistake of
    /// the caller.
    pub fn append_entity(&mut self, parent_id: Option<EntityId>, kind: &str, name: Option<String>) -> (r: Result<
        EntityId,
        DocError,
    >)
        requires
            old(self).wf(),
            old(self)@.id_counter < u64::MAX,
            parent_id is None ==> old(self)@.root is None,
        ensures
            final(self).wf(),
            (final(self)@, outcome(r)) == old(self)@.append_entity(parent_id, kind@, text_option(name)),
    {
        let ghost name_view = text_option(name);
        proof {
            lemma_append_entity(self@, parent_id, kind@, name_view);
        }
        let ghost before = self@;
        self.id_counter = self.id_counter + 1;
        let id = self.id_counter;
        let entity = Entity {
            id,
            kind: kind.to_owned(),
            name,
            parent_id,
            children_ids: Vec::new(),
            properties: Vec::new(),
        };
        assert(entity@.properties =~= Seq::<PropertyView>::empty());
        match parent_id {
            Some(parent) => {
                match self.find_entity(parent) {
                    Some(at) => {
                        self.entities[at].children_ids.push(id);
                    },
                    None => {
                        assert(self@.entities =~= before.entities);
                        return Err(DocError::InvalidParent);
                    },
                }
            },
            None => {
                self.root = Some(id);
            },
        }
        self.entities.push(entity);
        if self.recording {
            self.added_entities.push(id);
        }
        proof {
            let goal = before.append_entity(parent_id, kind@, name_view).0;
            assert(self@.entities =~= goal.entities);
            assert(self@.cells =~= goal.cells);
            assert(self@.changed_properties =~= goal.changed_properties);
        }
        Ok(id)
    }

    /// From now on every entity that is appended and every property that is set is
    /// recorded, for an observer to take.
    pub fn record_changes(&mut self)
        ensures
            final(self)@ == (DocumentView { recording: true, ..old(self)@ }),
    {
        self.recording = true;
    }

    /// The entities appended since they were last taken, oldest first.
    pub fn take_added_entities(&mut self) -> (taken: Vec<EntityId>)
        ensures
            taken@ == old(self)@.added_entities,
            final(self)@ == (DocumentView { added_entities: Seq::empty(), ..old(self)@ }),
    {
        let mut taken: Vec<EntityId> = Vec::new();
        core::mem::swap(&mut taken, &mut self.added_entities);
        taken
    }

    /// The properties set since they were last taken, oldest first.
    pub fn take_changed_properties(&mut self) -> (taken: Vec<PropRef>)
        ensures
            prop_ref_views(taken@) == old(self)@.changed_properties,
            final(self)@ == (DocumentView { changed_properties: Seq::empty(), ..old(self)@ }),
    {
        let mut taken: Vec<PropRef> = Vec::new();
        core::mem::swap(&mut taken, &mut self.changed_properties);
        assert(prop_ref_views(self.changed_properties@) =~= Seq::<PropRefView>::empty());
        taken
    }
}

/// After `with_property` the property is found at the end of the properties, where it
/// was not there before.
pub proof fn lemma_property_found_after(d: DocumentView, at: int, key: Seq<char>)
    requires
        0 <= at < d.entities.len(),
        index_of_property(d.entities[at].properties, key) is None,
    ensures
        index_of_property(d.with_property(at, key).entities[at].properties, key) == Some(
            d.entities[at].properties.len() as int,
        ),
{
    lemma_index_of_property(d.entities[at].properties, key);
    let props = d.with_property(at, key).entities[at].properties;
    assert forall|j: int| 0 <= j < d.entities[at].properties.len() implies (#[trigger] props[j]).key != key by {
        assert(props[j] == d.entities[at].properties[j]);
    }
    lemma_property_found(props, key, d.entities[at].properties.len() as int);
}

/// Two documents with the same entities and as many slots are well formed together.
pub proof fn lemma_same_properties_wf(d: DocumentView, w: DocumentView)
    requires
        d.wf(),
        w.entities == d.entities,
        w.cells.len() == d.cells.len(),
        w.id_counter == d.id_counter,
        w.root == d.root,
    ensures
        w.wf(),
{
    assert forall|id: EntityId| w.has_entity(id) == d.has_entity(id) && w.entity(id) == d.entity(id) by {}
}

/// Where a reference cannot be resolved and all before it can, resolving the list
/// fails with the error of that reference.
pub proof fn lemma_resolve_all_error(d: DocumentView, start: EntityId, references: Seq<NamedPropRefView>, at: int)
    requires
        0 <= at < references.len(),
        d.resolve_all(start, references.subrange(0, at)) is Ok,
        d.resolve(start, references[at]) is Err,
    ensures
        d.resolve_all(start, references) == Err::<Seq<PropRefView>, DocErrorView>(
            d.resolve(start, references[at])->Err_0,
        ),
    decreases references.len(),
{
    if at == references.len() - 1 {
        assert(references.drop_last() =~= references.subrange(0, at));
    } else {
        assert(references.drop_last().subrange(0, at) =~= references.subrange(0, at));
        lemma_resolve_all_error(d, start, references.drop_last(), at);
    }
}

} // verus!
