//! Building a document from a tree of elements with attributes, as an XML text holds
//! one: every element becomes an entity, its `name` attribute the entity's unique name,
//! and every other attribute a property whose expression is read from the attribute's
//! value.

use vstd::prelude::*;
use crate::document::DocError;
use crate::document::DocErrorView;
use crate::document::Document;
use crate::document::DocumentView;
use crate::parser::parse_text;
use crate::parser::PonParseError;
use crate::pon::EntityId;
use crate::pon::Pon;
use crate::document::EntityView;
use crate::document::PropertyView;
use crate::render::pon_text;
use crate::text::chars_of;
use crate::text::lemma_text_lt_transitive;
use crate::text::same_text;
use crate::text::text_before;
use crate::text::text_lt;

verus! {

/// An attribute of an element.
#[derive(PartialEq, Eq, Debug)]
pub struct Attribute {
    pub name: String,
    pub value: String,
}

impl Clone for Attribute {
    fn clone(&self) -> (r: Self)
        ensures
            r@ == self@,
    {
        Attribute { name: self.name.clone(), value: self.value.clone() }
    }
}

impl View for Attribute {
    type V = (Seq<char>, Seq<char>);

    open spec fn view(&self) -> (Seq<char>, Seq<char>) {
        (self.name@, self.value@)
    }
}

/// The views of a list of attributes.
pub open spec fn attribute_views(attributes: Seq<Attribute>) -> Seq<(Seq<char>, Seq<char>)> {
    Seq::new(attributes.len(), |i: int| attributes[i]@)
}

/// What a reader of a tree of elements comes upon, in the order of the text.
#[derive(PartialEq, Eq, Debug, Clone)]
pub enum DocEvent {
    /// An element begins.
    StartElement { name: String, attributes: Vec<Attribute> },
    /// The element that began last and has not ended yet ends.
    EndElement,
    /// The text is broken here.
    Error(String),
    /// Anything else: text, comments, the beginning and the end of the document.
    Other,
}

pub ghost enum DocEventView {
    StartElement { name: Seq<char>, attributes: Seq<(Seq<char>, Seq<char>)> },
    EndElement,
    Error(Seq<char>),
    Other,
}

impl View for DocEvent {
    type V = DocEventView;

    open spec fn view(&self) -> DocEventView {
        match self {
            DocEvent::StartElement { name, attributes } => DocEventView::StartElement {
                name: name@,
                attributes: attribute_views(attributes@),
            },
            DocEvent::EndElement => DocEventView::EndElement,
            DocEvent::Error(message) => DocEventView::Error(message@),
            DocEvent::Other => DocEventView::Other,
        }
    }
}

/// The views of a list of events.
pub open spec fn event_views(events: Seq<DocEvent>) -> Seq<DocEventView> {
    Seq::new(events.len(), |i: int| events[i]@)
}

/// Something that went wrong while a document was built and did not stop the building.
#[derive(PartialEq, Eq, Debug)]
#[allow(inconsistent_fields)]
pub enum LoadWarning {
    /// An element of type `kind` stands beside the root: it and its attributes are
    /// left out.
    SecondRoot { kind: String },
    /// No identity is left for an element of type `kind`.
    OutOfIdentities { kind: String },
    /// The entity for an element of type `kind` could not be appended.
    AppendFailed { kind: String, error: DocError },
    /// The property `property` of an entity of type `kind` could not be set.
    SetPropertyFailed { property: String, kind: String, error: DocError },
    /// The value `text` of the attribute `property` of an element of type `kind` is
    /// no expression.
    ParseFailed { property: String, kind: String, text: String, error: PonParseError },
    /// The text of the tree is broken.
    Xml(String),
}

pub ghost enum LoadWarningView {
    SecondRoot { kind: Seq<char> },
    OutOfIdentities { kind: Seq<char> },
    AppendFailed { kind: Seq<char>, error: DocErrorView },
    SetPropertyFailed { property: Seq<char>, kind: Seq<char>, error: DocErrorView },
    ParseFailed { property: Seq<char>, kind: Seq<char>, text: Seq<char>, offset: int },
    Xml(Seq<char>),
}

impl View for LoadWarning {
    type V = LoadWarningView;

    open spec fn view(&self) -> LoadWarningView {
        match self {
            LoadWarning::SecondRoot { kind } => LoadWarningView::SecondRoot { kind: kind@ },
            LoadWarning::OutOfIdentities { kind } => LoadWarningView::OutOfIdentities { kind: kind@ },
            LoadWarning::AppendFailed { kind, error } => LoadWarningView::AppendFailed { kind: kind@, error: error@ },
            LoadWarning::SetPropertyFailed { property, kind, error } => LoadWarningView::SetPropertyFailed {
                property: property@,
                kind: kind@,
                error: error@,
            },
            LoadWarning::ParseFailed { property, kind, text, error } => LoadWarningView::ParseFailed {
                property: property@,
                kind: kind@,
                text: text@,
                offset: error.offset as int,
            },
            LoadWarning::Xml(message) => LoadWarningView::Xml(message@),
        }
    }
}

/// The views of a list of warnings.
pub open spec fn warning_views(warnings: Seq<LoadWarning>) -> Seq<LoadWarningView> {
    Seq::new(warnings.len(), |i: int| warnings[i]@)
}

/// The name of the attribute that gives an entity its unique name.
pub open spec fn name_key() -> Seq<char> {
    seq!['n', 'a', 'm', 'e']
}

/// The value of the first attribute called `name`.
pub open spec fn name_attribute(attributes: Seq<(Seq<char>, Seq<char>)>) -> Option<Seq<char>>
    decreases attributes.len(),
{
    if attributes.len() == 0 {
        None
    } else if attributes[0].0 == name_key() {
        Some(attributes[0].1)
    } else {
        name_attribute(attributes.drop_first())
    }
}

/// Where the building of a document stands: the document, the entities whose elements
/// have begun and not ended, outermost first, and the warnings so far.
pub ghost struct LoadState {
    pub doc: DocumentView,
    pub stack: Seq<EntityId>,
    pub warnings: Seq<LoadWarningView>,
}

/// Sets the properties of the entity `id`, of type `kind`, from `attributes`, first to
/// last: every attribute but `name` is read as an expression and set. What cannot be
/// read or set gives a warning, and the next attribute is taken.
pub open spec fn set_attributes(
    doc: DocumentView,
    id: EntityId,
    kind: Seq<char>,
    attributes: Seq<(Seq<char>, Seq<char>)>,
    warnings: Seq<LoadWarningView>,
) -> (DocumentView, Seq<LoadWarningView>)
    decreases attributes.len(),
{
    if attributes.len() == 0 {
        (doc, warnings)
    } else {
        let (name, value) = attributes[0];
        let rest = attributes.drop_first();
        if name == name_key() {
            set_attributes(doc, id, kind, rest, warnings)
        } else {
            match parse_text(value) {
                Ok(expression) => match doc.set_property(id, name, expression) {
                    (next, Ok(_)) => set_attributes(next, id, kind, rest, warnings),
                    (next, Err(error)) => set_attributes(
                        next,
                        id,
                        kind,
                        rest,
                        warnings.push(LoadWarningView::SetPropertyFailed { property: name, kind, error }),
                    ),
                },
                Err(offset) => set_attributes(
                    doc,
                    id,
                    kind,
                    rest,
                    warnings.push(LoadWarningView::ParseFailed { property: name, kind, text: value, offset }),
                ),
            }
        }
    }
}

/// Takes one event: an element that begins becomes an entity under the entity whose
/// element is open, with its attributes as properties, and is open from then on; an
/// element that ends closes the innermost open one; a break in the text gives a warning.
pub open spec fn apply_event(state: LoadState, event: DocEventView) -> LoadState {
    match event {
        DocEventView::StartElement { name, attributes } => {
            let parent = if state.stack.len() > 0 {
                Some(state.stack.last())
            } else {
                None
            };
            if parent is None && state.doc.root is Some {
                LoadState { warnings: state.warnings.push(LoadWarningView::SecondRoot { kind: name }), ..state }
            } else if state.doc.id_counter == u64::MAX {
                LoadState { warnings: state.warnings.push(LoadWarningView::OutOfIdentities { kind: name }), ..state }
            } else {
                match state.doc.append_entity(parent, name, name_attribute(attributes)) {
                    (doc, Ok(id)) => {
                        let (set, warnings) = set_attributes(doc, id, name, attributes, state.warnings);
                        LoadState { doc: set, stack: state.stack.push(id), warnings }
                    },
                    (doc, Err(error)) => LoadState {
                        doc,
                        stack: state.stack,
                        warnings: state.warnings.push(LoadWarningView::AppendFailed { kind: name, error }),
                    },
                }
            }
        },
        DocEventView::EndElement => LoadState {
            stack: if state.stack.len() > 0 {
                state.stack.drop_last()
            } else {
                state.stack
            },
            ..state
        },
        DocEventView::Error(message) => LoadState {
            warnings: state.warnings.push(LoadWarningView::Xml(message)),
            ..state
        },
        DocEventView::Other => state,
    }
}

/// Takes the events `events`, first to last.
pub open spec fn load(state: LoadState, events: Seq<DocEventView>) -> LoadState
    decreases events.len(),
{
    if events.len() == 0 {
        state
    } else {
        load(apply_event(state, events[0]), events.drop_first())
    }
}

/// The events of an XML text, in the order of the text.
pub uninterp spec fn xml_events_of(text: Seq<char>) -> Seq<DocEventView>;

/// Reads `text` with `xml::reader::EventReader` and gives its events in order: for an
/// element that begins, its local name and the local names and values of its
/// attributes; for an error, its message. The contract claims only that the events
/// depend on the text alone.
#[verifier::external_body]
fn xml_events(text: &str) -> (events: Vec<DocEvent>)
    ensures
        event_views(events@) == xml_events_of(text@),
{
    let mut events = Vec::new();
    for event in xml::reader::EventReader::from_str(text) {
        events.push(match event {
            Ok(xml::reader::XmlEvent::StartElement { name, attributes, .. }) => DocEvent::StartElement {
                name: name.local_name,
                attributes: attributes.into_iter().map(|a| Attribute { name: a.name.local_name, value: a.value }).collect(),
            },
            Ok(xml::reader::XmlEvent::EndElement { .. }) => DocEvent::EndElement,
            Ok(_) => DocEvent::Other,
            Err(error) => DocEvent::Error(error.to_string()),
        });
    }
    events
}

/// The value of the first attribute called `name`.
pub fn find_name(attributes: &Vec<Attribute>) -> (r: Option<String>)
    ensures
        crate::document::text_option(r) == name_attribute(attribute_views(attributes@)),
{
    let ghost all = attribute_views(attributes@);
    proof {
        reveal_strlit("name");
        assert("name"@ =~= name_key());
    }
    let mut i: usize = 0;
    assert(all.subrange(0, all.len() as int) =~= all);
    while i < attributes.len()
        invariant
            i <= attributes.len(),
            all == attribute_views(attributes@),
            "name"@ == name_key(),
            name_attribute(all) == name_attribute(all.subrange(i as int, all.len() as int)),
        decreases attributes.len() - i,
    {
        let ghost rest = all.subrange(i as int, all.len() as int);
        assert(rest[0] == attributes[i as int]@);
        assert(rest.drop_first() =~= all.subrange(i + 1, all.len() as int));
        if same_text(attributes[i].name.as_str(), "name") {
            return Some(attributes[i].value.clone());
        }
        i += 1;
    }
    None
}

impl Document {
    /// Sets the properties of the entity `id`, of type `kind`, from `attributes`.
    pub fn set_from_attributes(
        &mut self,
        id: EntityId,
        kind: &str,
        attributes: &Vec<Attribute>,
        warnings: &mut Vec<LoadWarning>,
    )
        requires
            old(self).wf(),
        ensures
            final(self).wf(),
            (final(self)@, warning_views(final(warnings)@)) == set_attributes(
                old(self)@,
                id,
                kind@,
                attribute_views(attributes@),
                warning_views(old(warnings)@),
            ),
    {
        let ghost all = attribute_views(attributes@);
        let ghost first = self@;
        let ghost first_warnings = warning_views(warnings@);
        proof {
            reveal_strlit("name");
            assert("name"@ =~= name_key());
        }
        let mut i: usize = 0;
        assert(all.subrange(0, all.len() as int) =~= all);
        while i < attributes.len()
            invariant
                i <= attributes.len(),
                self.wf(),
                all == attribute_views(attributes@),
                "name"@ == name_key(),
                set_attributes(first, id, kind@, all, first_warnings) == set_attributes(
                    self@,
                    id,
                    kind@,
                    all.subrange(i as int, all.len() as int),
                    warning_views(warnings@),
                ),
            decreases attributes.len() - i,
        {
            let ghost rest = all.subrange(i as int, all.len() as int);
            let ghost so_far = warning_views(warnings@);
            assert(rest[0] == attributes[i as int]@);
            assert(rest.drop_first() =~= all.subrange(i + 1, all.len() as int));
            let attribute = &attributes[i];
            if !same_text(attribute.name.as_str(), "name") {
                match Pon::from_string(attribute.value.as_str()) {
                    Ok(expression) => match self.set_property(&id, attribute.name.as_str(), expression) {
                        Ok(_) => {},
                        Err(error) => {
                            let ghost e = error@;
                            warnings.push(
                                LoadWarning::SetPropertyFailed {
                                    property: attribute.name.clone(),
                                    kind: kind.to_owned(),
                                    error,
                                },
                            );
                            assert(warning_views(warnings@) =~= so_far.push(
                                LoadWarningView::SetPropertyFailed { property: attribute.name@, kind: kind@, error: e },
                            ));
                        },
                    },
                    Err(error) => {
                        warnings.push(
                            LoadWarning::ParseFailed {
                                property: attribute.name.clone(),
                                kind: kind.to_owned(),
                                text: attribute.value.clone(),
                                error,
                            },
                        );
                        assert(warning_views(warnings@) =~= so_far.push(
                            LoadWarningView::ParseFailed {
                                property: attribute.name@,
                                kind: kind@,
                                text: attribute.value@,
                                offset: error.offset as int,
                            },
                        ));
                    },
                }
            }
            i += 1;
        }
    }

    /// Takes one event of a tree of elements.
    pub fn append_from_event(&mut self, entity_stack: &mut Vec<EntityId>, event: &DocEvent, warnings: &mut Vec<LoadWarning>)
        requires
            old(self).wf(),
        ensures
            final(self).wf(),
            (LoadState {
                doc: final(self)@,
                stack: final(entity_stack)@,
                warnings: warning_views(final(warnings)@),
            }) == apply_event(
                LoadState { doc: old(self)@, stack: old(entity_stack)@, warnings: warning_views(old(warnings)@) },
                event@,
            ),
    {
        let ghost so_far = warning_views(warnings@);
        match event {
            DocEvent::StartElement { name, attributes } => {
                let parent = if entity_stack.len() > 0 {
                    Some(entity_stack[entity_stack.len() - 1])
                } else {
                    None
                };
                if parent.is_none() && self.root.is_some() {
                    warnings.push(LoadWarning::SecondRoot { kind: name.clone() });
                    assert(warning_views(warnings@) =~= so_far.push(LoadWarningView::SecondRoot { kind: name@ }));
                } else if self.id_counter == u64::MAX {
                    warnings.push(LoadWarning::OutOfIdentities { kind: name.clone() });
                    assert(warning_views(warnings@) =~= so_far.push(LoadWarningView::OutOfIdentities { kind: name@ }));
                } else {
                    let entity_name = find_name(attributes);
                    match self.append_entity(parent, name.as_str(), entity_name) {
                        Ok(id) => {
                            self.set_from_attributes(id, name.as_str(), attributes, warnings);
                            entity_stack.push(id);
                        },
                        Err(error) => {
                            let ghost e = error@;
                            warnings.push(LoadWarning::AppendFailed { kind: name.clone(), error });
                            assert(warning_views(warnings@) =~= so_far.push(
                                LoadWarningView::AppendFailed { kind: name@, error: e },
                            ));
                        },
                    }
                }
            },
            DocEvent::EndElement => {
                if entity_stack.len() > 0 {
                    entity_stack.pop();
                }
            },
            DocEvent::Error(message) => {
                warnings.push(LoadWarning::Xml(message.clone()));
                assert(warning_views(warnings@) =~= so_far.push(LoadWarningView::Xml(message@)));
            },
            DocEvent::Other => {},
        }
    }

    /// Takes the events of a tree of elements, first to last. Nothing stops the
    /// building: what goes wrong is appended to `warnings`.
    pub fn append_from_events(
        &mut self,
        entity_stack: &mut Vec<EntityId>,
        events: &Vec<DocEvent>,
        warnings: &mut Vec<LoadWarning>,
    ) -> (r: Result<(), DocError>)
        requires
            old(self).wf(),
        ensures
            final(self).wf(),
            r is Ok,
            (LoadState {
                doc: final(self)@,
                stack: final(entity_stack)@,
                warnings: warning_views(final(warnings)@),
            }) == load(
                LoadState { doc: old(self)@, stack: old(entity_stack)@, warnings: warning_views(old(warnings)@) },
                event_views(events@),
            ),
    {
        let ghost all = event_views(events@);
        let ghost first = LoadState { doc: self@, stack: entity_stack@, warnings: warning_views(warnings@) };
        let mut i: usize = 0;
        assert(all.subrange(0, all.len() as int) =~= all);
        while i < events.len()
            invariant
                i <= events.len(),
                self.wf(),
                all == event_views(events@),
                load(first, all) == load(
                    LoadState { doc: self@, stack: entity_stack@, warnings: warning_views(warnings@) },
                    all.subrange(i as int, all.len() as int),
                ),
            decreases events.len() - i,
        {
            let ghost rest = all.subrange(i as int, all.len() as int);
            assert(rest[0] == events[i as int]@);
            assert(rest.drop_first() =~= all.subrange(i + 1, all.len() as int));
            self.append_from_event(entity_stack, &events[i], warnings);
            i += 1;
        }
        Ok(())
    }

    /// The document that the events `events` build, and the warnings of the building.
    pub fn from_events(events: &Vec<DocEvent>) -> (r: (Document, Vec<LoadWarning>))
        ensures
            r.0.wf(),
            r.0@ == load(
                LoadState { doc: Document::new_view(), stack: Seq::empty(), warnings: Seq::empty() },
                event_views(events@),
            ).doc,
            warning_views(r.1@) == load(
                LoadState { doc: Document::new_view(), stack: Seq::empty(), warnings: Seq::empty() },
                event_views(events@),
            ).warnings,
    {
        let mut doc = Document::new();
        let mut stack: Vec<EntityId> = Vec::new();
        let mut warnings: Vec<LoadWarning> = Vec::new();
        assert(warning_views(warnings@) =~= Seq::<LoadWarningView>::empty());
        let _ = doc.append_from_events(&mut stack, events, &mut warnings);
        (doc, warnings)
    }

    /// The document that the XML text `string` describes. What goes wrong on the way is
    /// left out of the document; `load` also gives the warnings.
    pub fn from_string(string: &str) -> (r: Result<Document, DocError>)
        ensures
            r matches Ok(doc) && doc.wf() && doc@ == load(
                LoadState { doc: Document::new_view(), stack: Seq::empty(), warnings: Seq::empty() },
                xml_events_of(string@),
            ).doc,
    {
        let events = xml_events(string);
        let (doc, _) = Document::from_events(&events);
        Ok(doc)
    }

    /// The document that the XML text `string` describes, and the warnings of the
    /// building.
    pub fn load(string: &str) -> (r: (Document, Vec<LoadWarning>))
        ensures
            r.0.wf(),
            r.0@ == load(
                LoadState { doc: Document::new_view(), stack: Seq::empty(), warnings: Seq::empty() },
                xml_events_of(string@),
            ).doc,
            warning_views(r.1@) == load(
                LoadState { doc: Document::new_view(), stack: Seq::empty(), warnings: Seq::empty() },
                xml_events_of(string@),
            ).warnings,
    {
        let events = xml_events(string);
        Document::from_events(&events)
    }
}


/// How many of the first attributes of `attributes` do not come after `name`: the place
/// behind the attributes among which a new attribute of that name does not belong.
pub open spec fn upper_bound(attributes: Seq<(Seq<char>, Seq<char>)>, name: Seq<char>) -> nat
    decreases attributes.len(),
{
    if attributes.len() > 0 && !text_lt(name, attributes[0].0) {
        1 + upper_bound(attributes.drop_first(), name)
    } else {
        0
    }
}

/// `attributes` with `attribute` behind the attributes that do not come after it.
pub open spec fn attribute_insert(attributes: Seq<(Seq<char>, Seq<char>)>, attribute: (Seq<char>, Seq<char>)) -> Seq<
    (Seq<char>, Seq<char>),
> {
    attributes.insert(upper_bound(attributes, attribute.0) as int, attribute)
}

/// `attributes` in the dictionary order of their names; attributes of one name keep
/// their order.
pub open spec fn sorted_attributes(attributes: Seq<(Seq<char>, Seq<char>)>) -> Seq<(Seq<char>, Seq<char>)>
    decreases attributes.len(),
{
    if attributes.len() == 0 {
        Seq::empty()
    } else {
        attribute_insert(sorted_attributes(attributes.drop_last()), attributes.last())
    }
}

/// Whether no attribute comes before an attribute that stands before it.
pub open spec fn names_ordered(attributes: Seq<(Seq<char>, Seq<char>)>) -> bool {
    forall|i: int, j: int|
        0 <= i < j < attributes.len() ==> !text_lt(#[trigger] attributes[j].0, #[trigger] attributes[i].0)
}

pub proof fn lemma_upper_bound(attributes: Seq<(Seq<char>, Seq<char>)>, name: Seq<char>)
    ensures
        upper_bound(attributes, name) <= attributes.len(),
        forall|i: int| 0 <= i < upper_bound(attributes, name) ==> !text_lt(name, #[trigger] attributes[i].0),
        upper_bound(attributes, name) < attributes.len() ==> text_lt(
            name,
            attributes[upper_bound(attributes, name) as int].0,
        ),
    decreases attributes.len(),
{
    if attributes.len() > 0 && !text_lt(name, attributes[0].0) {
        let rest = attributes.drop_first();
        lemma_upper_bound(rest, name);
        assert forall|i: int| 0 <= i < upper_bound(attributes, name) implies !text_lt(
            name,
            #[trigger] attributes[i].0,
        ) by {
            if i > 0 {
                assert(attributes[i] == rest[i - 1]);
            }
        }
        let at = upper_bound(rest, name) as int;
        if at < rest.len() {
            assert(attributes[at + 1] == rest[at]);
        }
    }
}

/// Putting an attribute into ordered attributes leaves them ordered.
pub proof fn lemma_attribute_insert(attributes: Seq<(Seq<char>, Seq<char>)>, attribute: (Seq<char>, Seq<char>))
    requires
        names_ordered(attributes),
    ensures
        names_ordered(attribute_insert(attributes, attribute)),
{
    let name = attribute.0;
    let at = upper_bound(attributes, name) as int;
    let out = attribute_insert(attributes, attribute);
    lemma_upper_bound(attributes, name);
    assert forall|i: int, j: int| 0 <= i < j < out.len() implies !text_lt(#[trigger] out[j].0, #[trigger] out[i].0) by {
        if j < at {
            assert(!text_lt(attributes[j].0, attributes[i].0));
        } else if j == at {
            // out[i] stands before the place: the name does not come before it
            assert(!text_lt(name, attributes[i].0));
        } else if i == at {
            // out[j] stands behind the place: it does not come before the name
            let first = attributes[at].0;
            let other = attributes[j - 1].0;
            if text_lt(other, name) {
                lemma_text_lt_transitive(other, name, first);
                if j - 1 == at {
                    crate::text::lemma_text_lt_irreflexive(first);
                } else {
                    assert(!text_lt(attributes[j - 1].0, attributes[at].0));
                }
            }
        } else if i < at {
            assert(!text_lt(attributes[j - 1].0, attributes[i].0));
        } else {
            assert(!text_lt(attributes[j - 1].0, attributes[i - 1].0));
        }
    }
}

/// Sorted attributes are ordered.
pub proof fn lemma_sorted_attributes(attributes: Seq<(Seq<char>, Seq<char>)>)
    ensures
        names_ordered(sorted_attributes(attributes)),
        sorted_attributes(attributes).len() == attributes.len(),
    decreases attributes.len(),
{
    if attributes.len() > 0 {
        lemma_sorted_attributes(attributes.drop_last());
        lemma_attribute_insert(sorted_attributes(attributes.drop_last()), attributes.last());
        lemma_upper_bound(sorted_attributes(attributes.drop_last()), attributes.last().0);
    }
}

/// The attributes that stand for the properties `properties`: for each property that
/// holds an expression, its key and the text of the expression.
pub open spec fn property_attributes(d: DocumentView, properties: Seq<PropertyView>) -> Seq<(Seq<char>, Seq<char>)>
    decreases properties.len(),
{
    if properties.len() == 0 {
        Seq::empty()
    } else {
        let before = property_attributes(d, properties.drop_last());
        match d.cell_value(properties.last().cell) {
            Some(expression) => before.push((properties.last().key, pon_text(expression))),
            None => before,
        }
    }
}

/// The attributes of the element that stands for `entity`: those of its properties and
/// its name, in the dictionary order of their names.
pub open spec fn entity_attributes(d: DocumentView, entity: EntityView) -> Seq<(Seq<char>, Seq<char>)> {
    let properties = property_attributes(d, entity.properties);
    sorted_attributes(
        match entity.name {
            Some(name) => properties.push((name_key(), name)),
            None => properties,
        },
    )
}

impl DocumentView {
    /// The events that stand for the entity `id` and what is below it: its element
    /// begins, the events of its children follow in their order, its element ends.
    pub open spec fn elements_of(self, id: EntityId) -> Seq<DocEventView>
        decreases self.id_counter - id, 1nat, 0nat,
    {
        match self.entity_index(id) {
            Some(i) => seq![
                DocEventView::StartElement {
                    name: self.entities[i].kind,
                    attributes: entity_attributes(self, self.entities[i]),
                },
            ] + self.children_elements(self.entities[i].children_ids, id) + seq![DocEventView::EndElement],
            None => Seq::empty(),
        }
    }

    /// The events that stand for the children `children` of the entity `parent`.
    pub open spec fn children_elements(self, children: Seq<EntityId>, parent: EntityId) -> Seq<DocEventView>
        decreases self.id_counter - parent, 0nat, children.len(),
    {
        if children.len() == 0 {
            Seq::empty()
        } else {
            (if parent < children[0] <= self.id_counter {
                self.elements_of(children[0])
            } else {
                Seq::empty()
            }) + self.children_elements(children.drop_first(), parent)
        }
    }

    /// The events that stand for the whole document.
    pub open spec fn elements(self) -> Seq<DocEventView> {
        match self.root {
            Some(root) => self.elements_of(root),
            None => Seq::empty(),
        }
    }
}

/// `attributes` in the dictionary order of their names.
pub fn sort_attributes(attributes: &Vec<Attribute>) -> (sorted: Vec<Attribute>)
    ensures
        attribute_views(sorted@) == sorted_attributes(attribute_views(attributes@)),
        names_ordered(attribute_views(sorted@)),
{
    let ghost all = attribute_views(attributes@);
    let mut sorted: Vec<Attribute> = Vec::new();
    let mut i: usize = 0;
    assert(all.subrange(0, 0) =~= Seq::<(Seq<char>, Seq<char>)>::empty());
    assert(attribute_views(sorted@) =~= Seq::<(Seq<char>, Seq<char>)>::empty());
    while i < attributes.len()
        invariant
            i <= attributes.len(),
            all == attribute_views(attributes@),
            attribute_views(sorted@) == sorted_attributes(all.subrange(0, i as int)),
        decreases attributes.len() - i,
    {
        let ghost head = all.subrange(0, i + 1);
        assert(head.drop_last() =~= all.subrange(0, i as int));
        assert(head.last() == attributes[i as int]@);
        let ghost so_far = attribute_views(sorted@);
        let name = chars_of(attributes[i].name.as_str());
        let mut at: usize = 0;
        assert(so_far.subrange(0, so_far.len() as int) =~= so_far);
        while at < sorted.len() && !text_before(&name, &chars_of(sorted[at].name.as_str()))
            invariant
                at <= sorted.len(),
                so_far == attribute_views(sorted@),
                name@ == attributes[i as int].name@,
                upper_bound(so_far, name@) == at + upper_bound(so_far.subrange(at as int, so_far.len() as int), name@),
            decreases sorted.len() - at,
        {
            let ghost rest = so_far.subrange(at as int, so_far.len() as int);
            assert(rest[0] == so_far[at as int]);
            assert(rest.drop_first() =~= so_far.subrange(at + 1, so_far.len() as int));
            at += 1;
        }
        assert(at == upper_bound(so_far, name@)) by {
            let rest = so_far.subrange(at as int, so_far.len() as int);
            if at < sorted.len() {
                assert(rest[0] == so_far[at as int]);
            }
        }
        sorted.insert(at, attributes[i].clone());
        assert(attribute_views(sorted@) =~= attribute_insert(so_far, attributes[i as int]@));
        i += 1;
    }
    assert(all.subrange(0, attributes.len() as int) =~= all);
    proof {
        lemma_sorted_attributes(all);
    }
    sorted
}

impl Document {
    /// The attributes of the element that stands for the entity at place `at`.
    pub(crate) fn attributes_at(&self, at: usize) -> (attributes: Vec<Attribute>)
        requires
            at < self.entities.len(),
        ensures
            attribute_views(attributes@) == entity_attributes(self@, self@.entities[at as int]),
    {
        let entity = &self.entities[at];
        let ghost properties = self@.entities[at as int].properties;
        let mut all: Vec<Attribute> = Vec::new();
        let mut k: usize = 0;
        assert(properties.subrange(0, 0) =~= Seq::<PropertyView>::empty());
        assert(attribute_views(all@) =~= Seq::<(Seq<char>, Seq<char>)>::empty());
        while k < entity.properties.len()
            invariant
                k <= entity.properties.len(),
                at < self.entities.len(),
                entity == &self.entities[at as int],
                properties == self@.entities[at as int].properties,
                attribute_views(all@) == property_attributes(self@, properties.subrange(0, k as int)),
            decreases entity.properties.len() - k,
        {
            let ghost head = properties.subrange(0, k + 1);
            assert(head.drop_last() =~= properties.subrange(0, k as int));
            assert(head.last() == entity.properties[k as int]@);
            let ghost so_far = attribute_views(all@);
            let cell = entity.properties[k].cell;
            if cell < self.cells.len() {
                match &self.cells[cell] {
                    Some(expression) => {
                        let attribute = Attribute { name: entity.properties[k].key.clone(), value: expression.to_string() };
                        all.push(attribute);
                        assert(attribute_views(all@) =~= so_far.push(
                            (entity.properties[k as int].key@, pon_text(expression@)),
                        ));
                    },
                    None => {},
                }
            }
            k += 1;
        }
        assert(properties.subrange(0, entity.properties.len() as int) =~= properties);
        let ghost so_far = attribute_views(all@);
        match &entity.name {
            Some(name) => {
                proof {
                    reveal_strlit("name");
                    assert("name"@ =~= name_key());
                }
                all.push(Attribute { name: "name".to_owned(), value: name.clone() });
                assert(attribute_views(all@) =~= so_far.push((name_key(), name@)));
            },
            None => {},
        }
        sort_attributes(&all)
    }

    /// Appends the events that stand for the entity `entity_id` and what is below it to
    /// `out`.
    #[verifier::loop_isolation(false)]
    pub fn entity_to_xml(&self, entity_id: &EntityId, out: &mut Vec<DocEvent>)
        requires
            self.wf(),
        ensures
            event_views(final(out)@) == event_views(old(out)@) + self@.elements_of(*entity_id),
        decreases self@.id_counter - *entity_id,
    {
        let ghost before = event_views(out@);
        match self.find_entity(*entity_id) {
            Some(at) => {
                let entity = &self.entities[at];
                let start = DocEvent::StartElement { name: entity.kind.clone(), attributes: self.attributes_at(at) };
                let ghost first = start@;
                out.push(start);
                assert(event_views(out@) =~= before + seq![first]);
                let ghost children = self@.entities[at as int].children_ids;
                let mut k: usize = 0;
                assert(children.subrange(0, children.len() as int) =~= children);
                while k < entity.children_ids.len()
                    invariant
                        k <= entity.children_ids.len(),
                        event_views(out@) + self@.children_elements(
                            children.subrange(k as int, children.len() as int),
                            *entity_id,
                        ) == before + seq![first] + self@.children_elements(children, *entity_id),
                    decreases entity.children_ids.len() - k,
                {
                    let ghost rest = children.subrange(k as int, children.len() as int);
                    let ghost so_far = event_views(out@);
                    assert(rest[0] == children[k as int]);
                    assert(rest.drop_first() =~= children.subrange(k + 1, children.len() as int));
                    let child = entity.children_ids[k];
                    assert(child == self@.entities[at as int].children_ids[k as int]);
                    proof {
                        crate::document::lemma_index_of_entity(self@.entities, child);
                    }
                    self.entity_to_xml(&child, out);
                    assert(event_views(out@) + self@.children_elements(rest.drop_first(), *entity_id) =~= so_far
                        + self@.children_elements(rest, *entity_id));
                    k += 1;
                }
                let ghost so_far = event_views(out@);
                out.push(DocEvent::EndElement);
                assert(event_views(out@) =~= before + self@.elements_of(*entity_id)) by {
                    assert(event_views(out@) =~= so_far.push(DocEventView::EndElement));
                    assert(so_far + Seq::<DocEventView>::empty() =~= so_far);
                }
            },
            None => {
                assert(before + Seq::<DocEventView>::empty() =~= before);
            },
        }
    }

    /// The events that stand for the document: read in order, they build a document
    /// with the same tree and the same expressions.
    pub fn to_events(&self) -> (events: Vec<DocEvent>)
        requires
            self.wf(),
        ensures
            event_views(events@) == self@.elements(),
    {
        let mut events: Vec<DocEvent> = Vec::new();
        assert(event_views(events@) =~= Seq::<DocEventView>::empty());
        match self.root {
            Some(root) => {
                self.entity_to_xml(&root, &mut events);
                assert(Seq::<DocEventView>::empty() + self@.elements_of(root) =~= self@.elements_of(root));
            },
            None => {},
        }
        events
    }
}

} // verus!
