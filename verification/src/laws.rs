//! What holds of the library as a whole: laws that relate several of its functions,
//! stated over the models that their contracts speak of.

use vstd::prelude::*;
use crate::decimal::Decimal;
use crate::document::index_of_property;
use crate::document::lemma_index_of_entity;
use crate::document::lemma_index_of_property;
use crate::document::lemma_property_absent;
use crate::document::lemma_property_found;
use crate::document::lemma_same_properties_wf;
use crate::document::lemma_same_tree_wf;
use crate::document::lemma_with_dependant_at;
use crate::document::lemma_with_property;
use crate::document::PropertyView;
use crate::pon::fields_refs;
use crate::pon::items_refs;
use crate::pon_translations::concretized;
use crate::pon_translations::too_deep;
use crate::pon_translations::concretized_fields;
use crate::pon_translations::concretized_items;
use crate::document::named_entity;
use crate::document::DocErrorView;
use crate::document::DocumentView;
use crate::pon::dependency_refs;
use crate::pon::EntityId;
use crate::pon::EntityPathView;
use crate::pon::NamedPropRefView;
use crate::pon::PonView;
use crate::pon::PropRefView;
use crate::pon::ResolvedView;
use crate::pon_translations::integer_items;
use crate::pon_translations::translated;
use crate::pon_translations::translated_items;
use crate::pon_translations::PonTranslateErrView;
use crate::system::cascade;
use crate::system::reached;
use crate::system::reached_in;
use crate::system::reads;

verus! {

/// An integer reads as the number of the same value.
pub proof fn law_integer_reads_as_number(x: i64, cells: Seq<Option<PonView>>, budget: nat)
    ensures
        translated::<Decimal>(PonView::Integer(x), cells, budget) == Ok::<Decimal, PonTranslateErrView>(
            Decimal::whole(x),
        ),
{
}

/// The items of an array of integers read as the integers.
pub proof fn lemma_integer_items(xs: Seq<i64>, cells: Seq<Option<PonView>>, budget: nat)
    ensures
        translated_items::<i64>(integer_items(xs), cells, budget) == Ok::<Seq<i64>, PonTranslateErrView>(xs),
    decreases xs.len(),
{
    if xs.len() == 0 {
        assert(xs =~= Seq::<i64>::empty());
    } else {
        lemma_integer_items(xs.drop_last(), cells, budget);
        assert(integer_items(xs).drop_last() =~= integer_items(xs.drop_last()));
        assert(integer_items(xs).last() == PonView::Integer(xs.last()));
        assert(xs.drop_last().push(xs.last()) =~= xs);
    }
}

/// An array of integers reads as a list of integers, and as the same list as the list
/// of those integers does.
pub proof fn law_integer_array_reads_as_list(xs: Seq<i64>, cells: Seq<Option<PonView>>, budget: nat)
    ensures
        translated::<Vec<i64>>(PonView::Array(integer_items(xs)), cells, budget) == Ok::<
            Seq<i64>,
            PonTranslateErrView,
        >(xs),
        translated::<Vec<i64>>(PonView::IntegerArray(xs), cells, budget) == translated::<Vec<i64>>(
            PonView::Array(integer_items(xs)),
            cells,
            budget,
        ),
{
    lemma_integer_items(xs, cells, budget);
}

/// Where a live reference of an expression cannot be resolved, setting the property
/// fails with the error of the first such reference, and the document stays as it was.
pub proof fn law_unresolved_reference_changes_nothing(
    d: DocumentView,
    id: EntityId,
    key: Seq<char>,
    expression: PonView,
)
    requires
        d.has_entity(id),
        d.resolve_all(id, dependency_refs(expression)) is Err,
    ensures
        d.set_property(id, key, expression) == (
            d,
            Err::<(), DocErrorView>(d.resolve_all(id, dependency_refs(expression))->Err_0),
        ),
{
}

/// A live reference to an entity of a name that the document does not know: setting
/// the property fails, the document stays as it was, and a property that held nothing
/// holds nothing still.
pub proof fn law_unknown_name_leaves_property_unset(
    d: DocumentView,
    id: EntityId,
    key: Seq<char>,
    name: Seq<char>,
    target_key: Seq<char>,
    bound: Option<ResolvedView>,
)
    requires
        d.has_entity(id),
        d.entity_by_name(name) is None,
        d.get_property(id, key) is Err,
    ensures
        d.set_property(
            id,
            key,
            PonView::DependencyReference(
                NamedPropRefView { entity_path: EntityPathView::Named(name), property_key: target_key },
                bound,
            ),
        ) == (d, Err::<(), DocErrorView>(DocErrorView::CantFindEntityByName(name))),
        d.get_property(id, key) == Err::<PonView, DocErrorView>(DocErrorView::NoSuchProperty(key)),
{
    let reference = NamedPropRefView { entity_path: EntityPathView::Named(name), property_key: target_key };
    let refs = dependency_refs(PonView::DependencyReference(reference, bound));
    assert(refs =~= seq![reference]);
    assert(refs.drop_last() =~= Seq::<NamedPropRefView>::empty());
    assert(d.resolve_all(id, refs.drop_last()) == Ok::<Seq<PropRefView>, DocErrorView>(Seq::empty()));
    assert(d.resolve(id, refs.last()) == Err::<PropRefView, DocErrorView>(DocErrorView::CantFindEntityByName(name)));
}

/// What a change makes stale: the properties that were changed, and every property
/// that reads one that is stale.
pub proof fn law_cascade_unfolds(d: DocumentView, roots: Set<PropRefView>, p: PropRefView)
    ensures
        cascade(d, roots).contains(p) <==> (roots.contains(p) || exists|q: PropRefView|
            cascade(d, roots).contains(q) && reads(d, q, p)),
{
    if cascade(d, roots).contains(p) {
        let steps = choose|steps: nat| reached_in(d, roots, p, steps);
        if steps > 0 {
            let q = choose|q: PropRefView| reached_in(d, roots, q, (steps - 1) as nat) && reads(d, q, p);
            assert(reached(d, roots, q));
            assert(cascade(d, roots).contains(q) && reads(d, q, p));
        }
    }
    if roots.contains(p) {
        assert(reached_in(d, roots, p, 0));
    }
    if exists|q: PropRefView| cascade(d, roots).contains(q) && reads(d, q, p) {
        let q = choose|q: PropRefView| cascade(d, roots).contains(q) && reads(d, q, p);
        let steps = choose|steps: nat| reached_in(d, roots, q, steps);
        assert(reached_in(d, roots, p, steps + 1));
    }
}

/// With `y` a reader of `x` and `z` a reader of `y`, a change of `x` makes all three
/// stale.
pub proof fn law_cascade_follows_a_chain(d: DocumentView, x: PropRefView, y: PropRefView, z: PropRefView)
    requires
        reads(d, x, y),
        reads(d, y, z),
    ensures
        cascade(d, set![x]).contains(x),
        cascade(d, set![x]).contains(y),
        cascade(d, set![x]).contains(z),
{
    let roots = set![x];
    assert(reached_in(d, roots, x, 0));
    assert(reached_in(d, roots, y, 1));
    assert(reached_in(d, roots, z, 2));
}

/// A change of a property that nothing reads makes only that property stale.
pub proof fn law_cascade_of_an_unread_property(d: DocumentView, u: PropRefView)
    requires
        forall|p: PropRefView| !reads(d, u, p),
    ensures
        cascade(d, set![u]) == set![u],
{
    let roots = set![u];
    assert forall|p: PropRefView| cascade(d, roots).contains(p) implies p == u by {
        let steps = choose|steps: nat| reached_in(d, roots, p, steps);
        lemma_unread_stays(d, u, p, steps);
    }
    assert(reached_in(d, roots, u, 0));
    assert(cascade(d, roots) =~= roots);
}

proof fn lemma_unread_stays(d: DocumentView, u: PropRefView, p: PropRefView, steps: nat)
    requires
        forall|q: PropRefView| !reads(d, u, q),
        reached_in(d, set![u], p, steps),
    ensures
        p == u,
    decreases steps,
{
    if steps > 0 {
        let q = choose|q: PropRefView| reached_in(d, set![u], q, (steps - 1) as nat) && reads(d, q, p);
        lemma_unread_stays(d, u, q, (steps - 1) as nat);
    }
}

/// A property that was not changed and reads nothing that is stale is not stale.
pub proof fn law_cascade_spares_the_unrelated(d: DocumentView, roots: Set<PropRefView>, p: PropRefView)
    requires
        !roots.contains(p),
        forall|q: PropRefView| reads(d, q, p) ==> !cascade(d, roots).contains(q),
    ensures
        !cascade(d, roots).contains(p),
{
    law_cascade_unfolds(d, roots, p);
}

/// Whether the entity `id` is the entity `top` or stands below it in the tree.
pub open spec fn is_within(d: DocumentView, id: EntityId, top: EntityId) -> bool
    decreases id,
{
    id == top || (d.has_entity(id) && d.entity(id).parent_id is Some && d.entity(id).parent_id->0 < id
        && is_within(d, d.entity(id).parent_id->0, top))
}

/// The path `parent` leads to the one entity that has the entity among its children.
pub proof fn law_parent_is_the_immediate_parent(d: DocumentView, start: EntityId, other: EntityId)
    requires
        d.wf(),
        d.has_entity(start),
    ensures
        match d.resolve_path(start, EntityPathView::Parent) {
            Ok(parent) => d.has_entity(parent) && d.entity(parent).children_ids.contains(start) && (d.has_entity(
                other,
            ) && d.entity(other).children_ids.contains(start) ==> other == parent),
            Err(e) => e == DocErrorView::InvalidParent && d.root == Some(start) && !(d.has_entity(other)
                && d.entity(other).children_ids.contains(start)),
        },
{
    lemma_index_of_entity(d.entities, start);
    let at = d.entity_index(start)->0;
    if d.has_entity(other) && d.entity(other).children_ids.contains(start) {
        lemma_index_of_entity(d.entities, other);
        let o = d.entity_index(other)->0;
        let k = choose|k: int| 0 <= k < d.entities[o].children_ids.len() && d.entities[o].children_ids[k] == start;
        assert(d.entity(d.entities[o].children_ids[k]).parent_id == Some(d.entities[o].id));
    }
    if at > 0 {
        assert(d.entities[at].parent_id is Some);
    }
}

/// A name leads to the same entity from everywhere: the last entity that was appended
/// under that name.
pub proof fn law_name_resolves_anywhere(d: DocumentView, from: EntityId, elsewhere: EntityId, name: Seq<char>)
    ensures
        d.resolve_path(from, EntityPathView::Named(name)) == d.resolve_path(elsewhere, EntityPathView::Named(name)),
        match d.resolve_path(from, EntityPathView::Named(name)) {
            Ok(id) => exists|i: int|
                0 <= i < d.entities.len() && (#[trigger] d.entities[i]).id == id && d.entities[i].name == Some(name)
                    && forall|j: int| i < j < d.entities.len() ==> (#[trigger] d.entities[j]).name != Some(name),
            Err(e) => e == DocErrorView::CantFindEntityByName(name) && forall|i: int|
                0 <= i < d.entities.len() ==> (#[trigger] d.entities[i]).name != Some(name),
        },
{
    lemma_named_entity(d.entities, name);
}

/// What `named_entity` finds is the last entity of that name.
pub proof fn lemma_named_entity(entities: Seq<crate::document::EntityView>, name: Seq<char>)
    ensures
        match named_entity(entities, name) {
            Some(id) => exists|i: int|
                0 <= i < entities.len() && (#[trigger] entities[i]).id == id && entities[i].name == Some(name)
                    && forall|j: int| i < j < entities.len() ==> (#[trigger] entities[j]).name != Some(name),
            None => forall|i: int| 0 <= i < entities.len() ==> (#[trigger] entities[i]).name != Some(name),
        },
    decreases entities.len(),
{
    if entities.len() > 0 {
        if entities.last().name == Some(name) {
            let i = entities.len() - 1;
            assert(entities[i].id == entities.last().id);
        } else {
            let rest = entities.drop_last();
            lemma_named_entity(rest, name);
            match named_entity(rest, name) {
                Some(id) => {
                    let i = choose|i: int|
                        0 <= i < rest.len() && (#[trigger] rest[i]).id == id && rest[i].name == Some(name) && forall|
                            j: int,
                        | i < j < rest.len() ==> (#[trigger] rest[j]).name != Some(name);
                    assert(entities[i] == rest[i]);
                    assert forall|j: int| i < j < entities.len() implies (#[trigger] entities[j]).name != Some(
                        name,
                    ) by {
                        if j < rest.len() {
                            assert(entities[j] == rest[j]);
                        }
                    }
                },
                None => {
                    assert forall|i: int| 0 <= i < entities.len() implies (#[trigger] entities[i]).name != Some(
                        name,
                    ) by {
                        if i < rest.len() {
                            assert(entities[i] == rest[i]);
                        }
                    }
                },
            }
        }
    }
}

/// A search from an entity finds the entity itself where it bears the name, and
/// otherwise an entity of that name below it.
pub proof fn law_search_prefers_the_entity_itself(d: DocumentView, start: EntityId, name: Seq<char>)
    requires
        d.wf(),
        d.has_entity(start),
    ensures
        d.entity(start).name == Some(name) ==> d.resolve_path(
            start,
            EntityPathView::Search(Box::new(EntityPathView::This), name),
        ) == Ok::<EntityId, DocErrorView>(start),
        match d.resolve_path(start, EntityPathView::Search(Box::new(EntityPathView::This), name)) {
            Ok(found) => d.has_entity(found) && d.entity(found).name == Some(name) && is_within(d, found, start),
            Err(e) => e == DocErrorView::CantFindEntityByName(name) && d.entity(start).name != Some(name),
        },
{
    lemma_search(d, start, name);
    assert(d.resolve_path(start, EntityPathView::This) == Ok::<EntityId, DocErrorView>(start));
    assert(d.resolve_path(start, EntityPathView::Search(Box::new(EntityPathView::This), name)) == d.search(
        start,
        name,
    ));
}

/// What a search finds bears the name and stands at or below the entity from which the
/// search began.
pub proof fn lemma_search(d: DocumentView, id: EntityId, name: Seq<char>)
    requires
        d.wf(),
    ensures
        match d.search(id, name) {
            Ok(found) => d.has_entity(found) && d.entity(found).name == Some(name) && is_within(d, found, id),
            Err(e) => if d.has_entity(id) {
                e == DocErrorView::CantFindEntityByName(name) && d.entity(id).name != Some(name)
            } else {
                e == DocErrorView::NoSuchEntity(id)
            },
        },
    decreases d.id_counter - id, 1nat, 0nat,
{
    lemma_index_of_entity(d.entities, id);
    match d.entity_index(id) {
        Some(i) => {
            if d.entities[i].name != Some(name) {
                lemma_search_among(d, i, d.entities[i].children_ids.len() as int, name);
                assert(d.entities[i].children_ids.subrange(0, d.entities[i].children_ids.len() as int)
                    =~= d.entities[i].children_ids);
            }
        },
        None => {},
    }
}

/// What a search among the last `n` children of the entity at place `i` finds bears the
/// name and stands below that entity.
pub proof fn lemma_search_among(d: DocumentView, i: int, n: int, name: Seq<char>)
    requires
        d.wf(),
        0 <= i < d.entities.len(),
        0 <= n <= d.entities[i].children_ids.len(),
    ensures
        match d.search_among(
            d.entities[i].children_ids.subrange(d.entities[i].children_ids.len() - n, d.entities[i].children_ids.len() as int),
            d.entities[i].id,
            name,
        ) {
            Ok(found) => d.has_entity(found) && d.entity(found).name == Some(name) && found != d.entities[i].id
                && is_within(d, found, d.entities[i].id),
            Err(e) => e == DocErrorView::CantFindEntityByName(name),
        },
    decreases d.id_counter - d.entities[i].id, 0nat, n,
{
    let all = d.entities[i].children_ids;
    let children = all.subrange(all.len() - n, all.len() as int);
    let parent = d.entities[i].id;
    if n > 0 {
        let child = children[0];
        assert(child == all[all.len() - n]);
        assert(parent < child);
        assert(d.has_entity(child));
        lemma_index_of_entity(d.entities, child);
        assert(child <= d.id_counter);
        lemma_search(d, child, name);
        assert(children.drop_first() =~= all.subrange(all.len() - (n - 1), all.len() as int));
        lemma_search_among(d, i, n - 1, name);
        match d.search(child, name) {
            Ok(found) => {
                lemma_within_child(d, found, child, parent);
            },
            Err(_) => {},
        }
    }
}

/// What stands at or below a child of an entity stands below the entity.
pub proof fn lemma_within_child(d: DocumentView, id: EntityId, child: EntityId, parent: EntityId)
    requires
        d.has_entity(child),
        d.entity(child).parent_id == Some(parent),
        parent < child,
        is_within(d, id, child),
    ensures
        is_within(d, id, parent),
        id != parent,
    decreases id,
{
    assert(is_within(d, parent, parent));
    lemma_within_above(d, id, child);
    if id != child {
        let up = d.entity(id).parent_id->0;
        lemma_within_child(d, up, child, parent);
    }
}

/// What stands at or below an entity does not have a smaller identity.
pub proof fn lemma_within_above(d: DocumentView, id: EntityId, top: EntityId)
    requires
        is_within(d, id, top),
    ensures
        id >= top,
    decreases id,
{
    if id != top {
        lemma_within_above(d, d.entity(id).parent_id->0, top);
    }
}


/// Whether a value holds no live reference: not itself, nor in the data of a typed
/// value, in an item of an array or in a field of an object.
pub open spec fn reference_free(pon: PonView) -> bool
    decreases pon,
{
    match pon {
        PonView::Typed { data, .. } => reference_free(*data),
        PonView::DependencyReference(_, _) => false,
        PonView::Array(items) => forall|i: int| 0 <= i < items.len() ==> reference_free(#[trigger] items[i]),
        PonView::Object(fields) => forall|i: int| 0 <= i < fields.len() ==> reference_free((#[trigger] fields[i]).1),
        _ => true,
    }
}

/// A value without live references has none to register, is bound as it stands, and
/// is its own snapshot.
pub proof fn lemma_reference_free(
    pon: PonView,
    d: DocumentView,
    start: EntityId,
    cells: Seq<Option<PonView>>,
    budget: nat,
)
    requires
        reference_free(pon),
    ensures
        dependency_refs(pon) == Seq::<NamedPropRefView>::empty(),
        d.bind(start, pon) == (d, Ok::<PonView, DocErrorView>(pon)),
        concretized(pon, cells, budget) == Ok::<PonView, PonTranslateErrView>(pon),
    decreases pon, 1nat,
{
    match pon {
        PonView::Typed { name, data } => {
            lemma_reference_free(*data, d, start, cells, budget);
        },
        PonView::Array(items) => {
            lemma_reference_free_items(items, items.len() as int, d, start, cells, budget);
            assert(items.subrange(0, items.len() as int) =~= items);
        },
        PonView::Object(fields) => {
            lemma_reference_free_fields(fields, fields.len() as int, d, start, cells, budget);
            assert(fields.subrange(0, fields.len() as int) =~= fields);
        },
        _ => {},
    }
}

/// The first `n` items of a list without live references, and its last `n` items.
pub proof fn lemma_reference_free_items(
    items: Seq<PonView>,
    n: int,
    d: DocumentView,
    start: EntityId,
    cells: Seq<Option<PonView>>,
    budget: nat,
)
    requires
        0 <= n <= items.len(),
        forall|i: int| 0 <= i < items.len() ==> reference_free(#[trigger] items[i]),
    ensures
        items_refs(items.subrange(0, n)) == Seq::<NamedPropRefView>::empty(),
        concretized_items(items.subrange(0, n), cells, budget) == Ok::<Seq<PonView>, PonTranslateErrView>(
            items.subrange(0, n),
        ),
        d.bind_items(start, items.subrange(items.len() - n, items.len() as int)) == (
            d,
            Ok::<Seq<PonView>, DocErrorView>(items.subrange(items.len() - n, items.len() as int)),
        ),
    decreases items, 0nat, n,
{
    let head = items.subrange(0, n);
    let tail = items.subrange(items.len() - n, items.len() as int);
    if n == 0 {
        assert(head =~= Seq::<PonView>::empty());
        assert(tail =~= Seq::<PonView>::empty());
    } else {
        lemma_reference_free_items(items, n - 1, d, start, cells, budget);
        assert(head.drop_last() =~= items.subrange(0, n - 1));
        assert(head.last() == items[n - 1]);
        lemma_reference_free(items[n - 1], d, start, cells, budget);
        assert(head.drop_last().push(head.last()) =~= head);
        assert(tail.drop_first() =~= items.subrange(items.len() - (n - 1), items.len() as int));
        assert(tail[0] == items[items.len() - n]);
        lemma_reference_free(items[items.len() - n], d, start, cells, budget);
        assert(seq![tail[0]] + tail.drop_first() =~= tail);
        assert(items_refs(head.drop_last()) + dependency_refs(head.last()) =~= Seq::<NamedPropRefView>::empty());
    }
}

/// The first `n` fields of an object without live references, and its last `n` fields.
pub proof fn lemma_reference_free_fields(
    fields: Seq<(Seq<char>, PonView)>,
    n: int,
    d: DocumentView,
    start: EntityId,
    cells: Seq<Option<PonView>>,
    budget: nat,
)
    requires
        0 <= n <= fields.len(),
        forall|i: int| 0 <= i < fields.len() ==> reference_free((#[trigger] fields[i]).1),
    ensures
        fields_refs(fields.subrange(0, n)) == Seq::<NamedPropRefView>::empty(),
        concretized_fields(fields.subrange(0, n), cells, budget) == Ok::<
            Seq<(Seq<char>, PonView)>,
            PonTranslateErrView,
        >(fields.subrange(0, n)),
        d.bind_fields(start, fields.subrange(fields.len() - n, fields.len() as int)) == (
            d,
            Ok::<Seq<(Seq<char>, PonView)>, DocErrorView>(fields.subrange(fields.len() - n, fields.len() as int)),
        ),
    decreases fields, 0nat, n,
{
    let head = fields.subrange(0, n);
    let tail = fields.subrange(fields.len() - n, fields.len() as int);
    if n == 0 {
        assert(head =~= Seq::<(Seq<char>, PonView)>::empty());
        assert(tail =~= Seq::<(Seq<char>, PonView)>::empty());
    } else {
        lemma_reference_free_fields(fields, n - 1, d, start, cells, budget);
        assert(head.drop_last() =~= fields.subrange(0, n - 1));
        assert(head.last() == fields[n - 1]);
        lemma_reference_free(fields[n - 1].1, d, start, cells, budget);
        assert(head.drop_last().push((head.last().0, head.last().1)) =~= head);
        assert(tail.drop_first() =~= fields.subrange(fields.len() - (n - 1), fields.len() as int));
        assert(tail[0] == fields[fields.len() - n]);
        lemma_reference_free(fields[fields.len() - n].1, d, start, cells, budget);
        assert(seq![(tail[0].0, tail[0].1)] + tail.drop_first() =~= tail);
        assert(fields_refs(head.drop_last()) + dependency_refs(head.last().1) =~= Seq::<NamedPropRefView>::empty());
    }
}

/// The property `key` of the entity `id` as it is once it has come to be: what it is,
/// or a new property with the next slot of the table of values and no readers.
pub open spec fn ensured(d: DocumentView, id: EntityId, key: Seq<char>) -> PropertyView {
    match d.property(id, key) {
        Some(property) => property,
        None => PropertyView { key, cell: d.cells.len(), dependants: Seq::empty() },
    }
}

/// The table of values once the property `key` of the entity `id` has come to be.
pub open spec fn ensured_cells(d: DocumentView, id: EntityId, key: Seq<char>) -> Seq<Option<PonView>> {
    if d.property(id, key) is Some {
        d.cells
    } else {
        d.cells.push(None)
    }
}

/// Whether `w` differs from `d` only in the property `key` of the entity `id`, which
/// is `property` in `w`, and in the table of values, which is `cells` in `w`.
pub open spec fn differs_at(w: DocumentView, d: DocumentView, id: EntityId, key: Seq<char>, property: PropertyView, cells: Seq<Option<PonView>>) -> bool {
    &&& w.wf()
    &&& w.same_tree(d)
    &&& w.cells == cells
    &&& w.property(id, key) == Some(property)
    &&& forall|other: EntityId, k: Seq<char>|
        (other != id || k != key) ==> #[trigger] w.property(other, k) == d.property(other, k)
}

/// A property that is appended is found at the end, and the others where they were.
pub proof fn lemma_property_pushed(properties: Seq<PropertyView>, added: PropertyView, key: Seq<char>)
    requires
        index_of_property(properties, added.key) is None,
    ensures
        index_of_property(properties.push(added), key) == (if key == added.key {
            Some(properties.len() as int)
        } else {
            index_of_property(properties, key)
        }),
{
    let more = properties.push(added);
    lemma_index_of_property(properties, key);
    lemma_index_of_property(properties, added.key);
    if key == added.key {
        assert forall|j: int| 0 <= j < properties.len() implies (#[trigger] more[j]).key != key by {
            assert(more[j] == properties[j]);
        }
        lemma_property_found(more, key, properties.len() as int);
    } else {
        match index_of_property(properties, key) {
            Some(i) => {
                assert(more[i] == properties[i]);
                assert forall|j: int| 0 <= j < i implies (#[trigger] more[j]).key != key by {
                    assert(more[j] == properties[j]);
                }
                lemma_property_found(more, key, i);
            },
            None => {
                assert forall|j: int| 0 <= j < more.len() implies (#[trigger] more[j]).key != key by {
                    if j < properties.len() {
                        assert(more[j] == properties[j]);
                    }
                }
                lemma_property_absent(more, key);
            },
        }
    }
}

/// Properties with the same keys are found at the same places.
pub proof fn lemma_property_same_keys(a: Seq<PropertyView>, b: Seq<PropertyView>, key: Seq<char>)
    requires
        a.len() == b.len(),
        forall|i: int| 0 <= i < a.len() ==> (#[trigger] a[i]).key == (#[trigger] b[i]).key,
    ensures
        index_of_property(a, key) == index_of_property(b, key),
{
    lemma_index_of_property(a, key);
    lemma_index_of_property(b, key);
    match index_of_property(a, key) {
        Some(i) => {
            assert(b[i].key == a[i].key);
            assert forall|j: int| 0 <= j < i implies (#[trigger] b[j]).key != key by {
                assert(a[j].key == b[j].key);
            }
            lemma_property_found(b, key, i);
        },
        None => {
            assert forall|j: int| 0 <= j < b.len() implies (#[trigger] b[j]).key != key by {
                assert(a[j].key == b[j].key);
            }
            lemma_property_absent(b, key);
        },
    }
}

/// In a well-formed document an entity is found at its place.
pub proof fn lemma_entity_at(d: DocumentView, at: int)
    requires
        d.wf(),
        0 <= at < d.entities.len(),
    ensures
        d.entity_index(d.entities[at].id) == Some(at),
{
    assert forall|j: int| 0 <= j < at implies (#[trigger] d.entities[j]).id != d.entities[at].id by {
        assert(d.entities[j].id < d.entities[at].id);
    }
    crate::document::lemma_entity_found(d.entities, d.entities[at].id, at);
}

/// What giving an entity a property does.
pub proof fn lemma_with_property_effect(d: DocumentView, at: int, key: Seq<char>)
    requires
        d.wf(),
        0 <= at < d.entities.len(),
    ensures
        differs_at(
            d.with_property(at, key),
            d,
            d.entities[at].id,
            key,
            ensured(d, d.entities[at].id, key),
            ensured_cells(d, d.entities[at].id, key),
        ),
        d.with_property(at, key).entities[at].properties[index_of_property(
            d.with_property(at, key).entities[at].properties,
            key,
        )->0] == ensured(d, d.entities[at].id, key),
        d.with_property(at, key).changed_properties == d.changed_properties,
{
    let w = d.with_property(at, key);
    let id = d.entities[at].id;
    lemma_with_property(d, at, key);
    lemma_same_tree_wf(d, w);
    lemma_entity_at(d, at);
    lemma_index_of_property(d.entities[at].properties, key);
    if index_of_property(d.entities[at].properties, key) is None {
        let added = PropertyView { key, cell: d.cells.len(), dependants: Seq::empty() };
        lemma_property_pushed(d.entities[at].properties, added, key);
        assert forall|other: EntityId, k: Seq<char>| (other != id || k != key) implies #[trigger] w.property(
            other,
            k,
        ) == d.property(other, k) by {
            lemma_index_of_entity(d.entities, other);
            if d.has_entity(other) {
                let i = d.entity_index(other)->0;
                if i == at {
                    lemma_property_pushed(d.entities[at].properties, added, k);
                    lemma_index_of_property(d.entities[at].properties, k);
                }
            }
        }
    }
}

/// What registering a reader at a property does.
pub proof fn lemma_with_dependant_at_effect(d: DocumentView, at: int, k: int, dependant: PropRefView)
    requires
        d.wf(),
        0 <= at < d.entities.len(),
        0 <= k < d.entities[at].properties.len(),
    ensures
        differs_at(
            d.with_dependant_at(at, k, dependant),
            d,
            d.entities[at].id,
            d.entities[at].properties[k].key,
            PropertyView {
                dependants: d.entities[at].properties[k].dependants.push(dependant),
                ..d.entities[at].properties[k]
            },
            d.cells,
        ),
        d.with_dependant_at(at, k, dependant).changed_properties == d.changed_properties,
{
    let w = d.with_dependant_at(at, k, dependant);
    let id = d.entities[at].id;
    let key = d.entities[at].properties[k].key;
    lemma_with_dependant_at(d, at, k, dependant);
    lemma_same_tree_wf(d, w);
    lemma_entity_at(d, at);
    assert forall|j: int| 0 <= j < k implies (#[trigger] d.entities[at].properties[j]).key != key by {}
    lemma_property_found(d.entities[at].properties, key, k);
    lemma_property_same_keys(w.entities[at].properties, d.entities[at].properties, key);
    assert forall|other: EntityId, key2: Seq<char>| (other != id || key2 != key) implies #[trigger] w.property(
        other,
        key2,
    ) == d.property(other, key2) by {
        lemma_index_of_entity(d.entities, other);
        if d.has_entity(other) {
            let i = d.entity_index(other)->0;
            if i == at {
                lemma_property_same_keys(w.entities[at].properties, d.entities[at].properties, key2);
                lemma_index_of_property(d.entities[at].properties, key2);
            }
        }
    }
}

/// What storing an expression in a property does: the property comes to be where it
/// was not there, its slot holds the expression, and nothing else changes but the
/// record of changes.
pub proof fn lemma_store_effect(d: DocumentView, at: int, key: Seq<char>, expression: PonView)
    requires
        d.wf(),
        0 <= at < d.entities.len(),
    ensures
        differs_at(
            d.store(at, key, expression),
            d,
            d.entities[at].id,
            key,
            ensured(d, d.entities[at].id, key),
            ensured_cells(d, d.entities[at].id, key).update(
                ensured(d, d.entities[at].id, key).cell as int,
                Some(expression),
            ),
        ),
        ensured(d, d.entities[at].id, key).cell < ensured_cells(d, d.entities[at].id, key).len(),
{
    let w = d.with_property(at, key);
    let s = d.store(at, key, expression);
    let id = d.entities[at].id;
    lemma_with_property_effect(d, at, key);
    lemma_index_of_property(w.entities[at].properties, key);
    let k = index_of_property(w.entities[at].properties, key)->0;
    assert(w.entities[at].properties[k].cell < w.cells.len());
    lemma_same_properties_wf(w, s);
    assert forall|other: EntityId, k2: Seq<char>| #[trigger] s.property(other, k2) == w.property(other, k2) by {}
}

/// What setting a property to a value without live references does.
pub proof fn lemma_set_plain(d: DocumentView, id: EntityId, key: Seq<char>, value: PonView)
    requires
        d.wf(),
        d.has_entity(id),
        reference_free(value),
    ensures
        d.set_property(id, key, value).1 is Ok,
        differs_at(
            d.set_property(id, key, value).0,
            d,
            id,
            key,
            ensured(d, id, key),
            ensured_cells(d, id, key).update(ensured(d, id, key).cell as int, Some(value)),
        ),
        ensured(d, id, key).cell < ensured_cells(d, id, key).len(),
{
    lemma_index_of_entity(d.entities, id);
    let at = d.entity_index(id)->0;
    lemma_reference_free(value, d, id, d.cells, 0);
    lemma_store_effect(d, at, key, value);
}

/// The live reference to the property `key` of the entity that holds the expression.
pub open spec fn this_reference(key: Seq<char>) -> NamedPropRefView {
    NamedPropRefView { entity_path: EntityPathView::This, property_key: key }
}

/// What setting the property `y` of an entity to a live reference to its property `x`
/// does: `x` comes to be where it was not there and has `y` as a reader more; `y` comes
/// to be where it was not there and holds the reference, bound to the slot of `x`.
pub proof fn lemma_set_this_reference(
    d: DocumentView,
    id: EntityId,
    x: Seq<char>,
    y: Seq<char>,
    bound: Option<ResolvedView>,
)
    requires
        d.wf(),
        d.has_entity(id),
        x != y,
    ensures
        ({
            let (s, r) = d.set_property(id, y, PonView::DependencyReference(this_reference(x), bound));
            let px = ensured(d, id, x);
            let cells_x = ensured_cells(d, id, x);
            let py = match d.property(id, y) {
                Some(property) => property,
                None => PropertyView { key: y, cell: cells_x.len(), dependants: Seq::empty() },
            };
            let cells_y = if d.property(id, y) is Some {
                cells_x
            } else {
                cells_x.push(None)
            };
            let stored = PonView::DependencyReference(
                this_reference(x),
                Some(ResolvedView { prop_ref: PropRefView { entity_id: id, property_key: x }, cell: px.cell }),
            );
            &&& r is Ok
            &&& s.wf()
            &&& s.same_tree(d)
            &&& s.property(id, x) == Some(
                PropertyView {
                    dependants: px.dependants.push(PropRefView { entity_id: id, property_key: y }),
                    ..px
                },
            )
            &&& s.property(id, y) == Some(py)
            &&& px.cell != py.cell
            &&& px.cell < cells_y.len()
            &&& py.cell < cells_y.len()
            &&& s.cells == cells_y.update(py.cell as int, Some(stored))
            &&& forall|other: EntityId, k: Seq<char>|
                (other != id || (k != x && k != y)) ==> #[trigger] s.property(other, k) == d.property(other, k)
        }),
{
    let reference = this_reference(x);
    let expression = PonView::DependencyReference(reference, bound);
    let target = PropRefView { entity_id: id, property_key: x };
    let reader = PropRefView { entity_id: id, property_key: y };
    lemma_index_of_entity(d.entities, id);
    let at = d.entity_index(id)->0;
    lemma_entity_at(d, at);

    // the one reference resolves to the property `x` of the entity
    let refs = dependency_refs(expression);
    assert(refs =~= seq![reference]);
    assert(refs.drop_last() =~= Seq::<NamedPropRefView>::empty());
    assert(d.resolve_all(id, refs.drop_last()) == Ok::<Seq<PropRefView>, DocErrorView>(Seq::empty()));
    assert(d.resolve(id, reference) == Ok::<PropRefView, DocErrorView>(target));
    let targets = seq![target];
    assert(Seq::<PropRefView>::empty().push(target) =~= targets);
    assert(d.resolve_all(id, refs) == Ok::<Seq<PropRefView>, DocErrorView>(targets));

    // the property `y` is registered as a reader of `x`
    let w = d.with_property(at, x);
    lemma_with_property(d, at, x);
    lemma_with_property_effect(d, at, x);
    lemma_index_of_property(w.entities[at].properties, x);
    let k = index_of_property(w.entities[at].properties, x)->0;
    let registered = w.with_dependant_at(at, k, reader);
    lemma_with_dependant_at_effect(w, at, k, reader);
    assert(d.with_dependant(target, reader) == (registered, Ok::<(), DocErrorView>(())));
    assert(targets.drop_first() =~= Seq::<PropRefView>::empty());
    assert(registered.register_all(targets.drop_first(), reader) == (registered, Ok::<(), DocErrorView>(())));
    assert(d.register_all(targets, reader) == (registered, Ok::<(), DocErrorView>(())));

    // the reference is bound to the slot of `x`
    lemma_same_tree_wf(w, registered);
    lemma_same_tree_wf(d, w);
    assert(registered.entity_index(id) == Some(at));
    assert(registered.resolve(id, reference) == Ok::<PropRefView, DocErrorView>(target));
    lemma_with_property_effect(registered, at, x);
    let again = registered.with_property(at, x);
    assert(again == registered);
    let px = ensured(d, id, x);
    let stored = PonView::DependencyReference(reference, Some(ResolvedView { prop_ref: target, cell: px.cell }));
    assert(registered.bind(id, expression) == (registered, Ok::<PonView, DocErrorView>(stored)));

    // the expression is stored in `y`
    lemma_store_effect(registered, at, y, stored);
    let s = registered.store(at, y, stored);
    assert(d.set_property(id, y, expression) == (s, Ok::<(), DocErrorView>(())));
    crate::document::lemma_same_tree_trans(registered, w, d);
    crate::document::lemma_same_tree_trans(s, registered, d);
    assert(registered.property(id, y) == d.property(id, y));
    if d.property(id, y) is Some {
        // the slots of two properties differ
        lemma_two_cells(registered, id, x, y);
    }
    assert forall|other: EntityId, key: Seq<char>| (other != id || (key != x && key != y)) implies #[trigger] s.property(
        other,
        key,
    ) == d.property(other, key) by {
        assert(s.property(other, key) == registered.property(other, key));
        assert(registered.property(other, key) == w.property(other, key));
        assert(w.property(other, key) == d.property(other, key));
    }
}

/// The slots of two properties of a well-formed document differ and lie in the table.
pub proof fn lemma_two_cells(d: DocumentView, id: EntityId, x: Seq<char>, y: Seq<char>)
    requires
        d.wf(),
        x != y,
        d.property(id, x) is Some,
        d.property(id, y) is Some,
    ensures
        d.property(id, x)->0.cell != d.property(id, y)->0.cell,
        d.property(id, x)->0.cell < d.cells.len(),
        d.property(id, y)->0.cell < d.cells.len(),
{
    lemma_index_of_entity(d.entities, id);
    let at = d.entity_index(id)->0;
    lemma_index_of_property(d.entities[at].properties, x);
    lemma_index_of_property(d.entities[at].properties, y);
    let a = index_of_property(d.entities[at].properties, x)->0;
    let b = index_of_property(d.entities[at].properties, y)->0;
    assert(a != b);
    assert(d.entities[at].properties[a].cell != d.entities[at].properties[b].cell);
}

/// A property can be made to read another before the other holds anything: setting
/// `y` to a live reference to a property `x` that holds nothing succeeds; a snapshot of
/// `y` then fails because the reference leads to nothing; and once `x` is set to a
/// value, a snapshot of `y` is that value.
pub proof fn law_forward_reference(
    d: DocumentView,
    id: EntityId,
    x: Seq<char>,
    y: Seq<char>,
    bound: Option<ResolvedView>,
    value: PonView,
)
    requires
        d.wf(),
        d.has_entity(id),
        x != y,
        d.get_property(id, x) is Err,
        reference_free(value),
    ensures
        ({
            let (first, set_y) = d.set_property(id, y, PonView::DependencyReference(this_reference(x), bound));
            let (second, set_x) = first.set_property(id, x, value);
            &&& set_y is Ok
            &&& first.get_property(id, y) is Ok
            &&& first.get_property(id, x) is Err
            &&& concretized(first.get_property(id, y)->Ok_0, first.cells, first.cells.len()) == Err::<
                PonView,
                PonTranslateErrView,
            >(PonTranslateErrView::ReferenceToNonExistentProperty(this_reference(x)))
            &&& set_x is Ok
            &&& second.get_property(id, y) is Ok
            &&& concretized(second.get_property(id, y)->Ok_0, second.cells, second.cells.len()) == Ok::<
                PonView,
                PonTranslateErrView,
            >(value)
        }),
{
    let (first, set_y) = d.set_property(id, y, PonView::DependencyReference(this_reference(x), bound));
    lemma_set_this_reference(d, id, x, y, bound);
    if d.property(id, x) is Some {
        lemma_two_cells_valid(d, id, x);
    }
    let (second, set_x) = first.set_property(id, x, value);
    lemma_set_plain(first, id, x, value);
    lemma_same_tree_wf(d, first);
    assert(second.property(id, y) == first.property(id, y));
    lemma_reference_free(value, d, id, second.cells, (second.cells.len() - 1) as nat);
}

/// The slot of a property of a well-formed document lies in the table of values.
pub proof fn lemma_two_cells_valid(d: DocumentView, id: EntityId, x: Seq<char>)
    requires
        d.wf(),
        d.property(id, x) is Some,
    ensures
        d.property(id, x)->0.cell < d.cells.len(),
{
    lemma_index_of_entity(d.entities, id);
    let at = d.entity_index(id)->0;
    lemma_index_of_property(d.entities[at].properties, x);
}

/// A live reference sees what is stored later: with `x` set to a value and `y` to a
/// live reference to `x`, a snapshot of `y` is that value; after `x` is set to another
/// value it is the other value, and the readers of `x` are as they were.
pub proof fn law_live_update(
    d: DocumentView,
    id: EntityId,
    x: Seq<char>,
    y: Seq<char>,
    bound: Option<ResolvedView>,
    before: PonView,
    after: PonView,
)
    requires
        d.wf(),
        d.has_entity(id),
        x != y,
        reference_free(before),
        reference_free(after),
    ensures
        ({
            let (first, set_x) = d.set_property(id, x, before);
            let (second, set_y) = first.set_property(id, y, PonView::DependencyReference(this_reference(x), bound));
            let (third, set_again) = second.set_property(id, x, after);
            &&& set_x is Ok
            &&& set_y is Ok
            &&& set_again is Ok
            &&& second.get_property(id, y) is Ok
            &&& concretized(second.get_property(id, y)->Ok_0, second.cells, second.cells.len()) == Ok::<
                PonView,
                PonTranslateErrView,
            >(before)
            &&& third.get_property(id, y) is Ok
            &&& concretized(third.get_property(id, y)->Ok_0, third.cells, third.cells.len()) == Ok::<
                PonView,
                PonTranslateErrView,
            >(after)
            &&& third.dependants(id, x) == second.dependants(id, x)
        }),
{
    let (first, set_x) = d.set_property(id, x, before);
    lemma_set_plain(d, id, x, before);
    lemma_same_tree_wf(d, first);
    let (second, set_y) = first.set_property(id, y, PonView::DependencyReference(this_reference(x), bound));
    lemma_set_this_reference(first, id, x, y, bound);
    lemma_same_tree_wf(first, second);
    lemma_two_cells(second, id, x, y);
    lemma_reference_free(before, d, id, second.cells, (second.cells.len() - 1) as nat);
    let (third, set_again) = second.set_property(id, x, after);
    lemma_set_plain(second, id, x, after);
    assert(third.property(id, y) == second.property(id, y));
    lemma_reference_free(after, d, id, third.cells, (third.cells.len() - 1) as nat);
}


/// Whether `w` keeps what `d` holds: every property of `d` is a property of `w` with
/// the same slot and at least the same readers, and the table of values is not shorter.
pub open spec fn keeps(w: DocumentView, d: DocumentView) -> bool {
    &&& d.cells.len() <= w.cells.len()
    &&& forall|id: EntityId, key: Seq<char>| #[trigger]
        d.property(id, key) is Some ==> w.property(id, key) is Some && w.property(id, key)->0.cell == d.property(
            id,
            key,
        )->0.cell && forall|p: PropRefView|
            d.property(id, key)->0.dependants.contains(p) ==> w.property(id, key)->0.dependants.contains(p)
}

pub proof fn lemma_keeps_trans(a: DocumentView, b: DocumentView, c: DocumentView)
    requires
        keeps(a, b),
        keeps(b, c),
    ensures
        keeps(a, c),
{
    assert forall|id: EntityId, key: Seq<char>| #[trigger] c.property(id, key) is Some implies a.property(id, key) is Some
        && a.property(id, key)->0.cell == c.property(id, key)->0.cell && forall|p: PropRefView|
        c.property(id, key)->0.dependants.contains(p) ==> a.property(id, key)->0.dependants.contains(p) by {
        assert(b.property(id, key) is Some);
    }
}

/// A document that keeps what another holds keeps its readers.
pub proof fn lemma_keeps_readers(w: DocumentView, d: DocumentView, from: PropRefView, to: PropRefView)
    requires
        keeps(w, d),
        w.same_tree(d),
        d.wf(),
        reads(d, from, to),
    ensures
        reads(w, from, to),
{
    lemma_same_tree_wf(d, w);
    assert(d.property(from.entity_id, from.property_key) is Some);
}

/// A document that differs from another in one property, which has the slot and at
/// least the readers that it had, keeps what the other holds.
pub proof fn lemma_differs_keeps(
    w: DocumentView,
    d: DocumentView,
    id: EntityId,
    key: Seq<char>,
    property: PropertyView,
    cells: Seq<Option<PonView>>,
)
    requires
        differs_at(w, d, id, key, property, cells),
        d.cells.len() <= cells.len(),
        d.property(id, key) is Some ==> property.cell == d.property(id, key)->0.cell && forall|p: PropRefView|
            d.property(id, key)->0.dependants.contains(p) ==> property.dependants.contains(p),
    ensures
        keeps(w, d),
{
    assert forall|other: EntityId, k: Seq<char>| #[trigger] d.property(other, k) is Some implies w.property(other, k) is Some
        && w.property(other, k)->0.cell == d.property(other, k)->0.cell && forall|p: PropRefView|
        d.property(other, k)->0.dependants.contains(p) ==> w.property(other, k)->0.dependants.contains(p) by {
        if other != id || k != key {
            assert(w.property(other, k) == d.property(other, k));
        }
    }
}

/// Whether every live reference of a value is bound to the slot of the property that
/// it names.
pub open spec fn well_bound(pon: PonView, d: DocumentView) -> bool
    decreases pon,
{
    match pon {
        PonView::Typed { data, .. } => well_bound(*data, d),
        PonView::DependencyReference(_, bound) => bound is Some && d.property(
            bound->0.prop_ref.entity_id,
            bound->0.prop_ref.property_key,
        ) is Some && d.property(bound->0.prop_ref.entity_id, bound->0.prop_ref.property_key)->0.cell == bound->0.cell,
        PonView::Array(items) => forall|i: int| 0 <= i < items.len() ==> well_bound(#[trigger] items[i], d),
        PonView::Object(fields) => forall|i: int| 0 <= i < fields.len() ==> well_bound((#[trigger] fields[i]).1, d),
        _ => true,
    }
}

/// A value that is well bound in a document is well bound in every document that
/// keeps what that document holds.
pub proof fn lemma_well_bound_kept(pon: PonView, d: DocumentView, w: DocumentView)
    requires
        well_bound(pon, d),
        keeps(w, d),
    ensures
        well_bound(pon, w),
    decreases pon,
{
    match pon {
        PonView::Typed { data, .. } => {
            lemma_well_bound_kept(*data, d, w);
        },
        PonView::DependencyReference(_, bound) => {
            assert(d.property(bound->0.prop_ref.entity_id, bound->0.prop_ref.property_key) is Some);
        },
        PonView::Array(items) => {
            assert forall|i: int| 0 <= i < items.len() implies well_bound(#[trigger] items[i], w) by {
                lemma_well_bound_kept(items[i], d, w);
            }
        },
        PonView::Object(fields) => {
            assert forall|i: int| 0 <= i < fields.len() implies well_bound((#[trigger] fields[i]).1, w) by {
                lemma_well_bound_kept(fields[i].1, d, w);
            }
        },
        _ => {},
    }
}

/// Giving an entity a property keeps what the document holds.
pub proof fn lemma_with_property_keeps(d: DocumentView, at: int, key: Seq<char>)
    requires
        d.wf(),
        0 <= at < d.entities.len(),
    ensures
        d.with_property(at, key).wf(),
        d.with_property(at, key).same_tree(d),
        keeps(d.with_property(at, key), d),
        d.with_property(at, key).property(d.entities[at].id, key) is Some,
{
    let id = d.entities[at].id;
    lemma_with_property_effect(d, at, key);
    lemma_differs_keeps(d.with_property(at, key), d, id, key, ensured(d, id, key), ensured_cells(d, id, key));
}

/// Registering a reader keeps what the document holds, and the reader reads the
/// property from then on.
pub proof fn lemma_with_dependant_keeps(d: DocumentView, target: PropRefView, reader: PropRefView)
    requires
        d.wf(),
    ensures
        d.with_dependant(target, reader).0.wf(),
        d.with_dependant(target, reader).0.same_tree(d),
        keeps(d.with_dependant(target, reader).0, d),
        d.with_dependant(target, reader).1 is Ok ==> reads(d.with_dependant(target, reader).0, target, reader),
{
    lemma_index_of_entity(d.entities, target.entity_id);
    match d.entity_index(target.entity_id) {
        Some(at) => {
            let key = target.property_key;
            let w = d.with_property(at, key);
            lemma_with_property(d, at, key);
            lemma_with_property_keeps(d, at, key);
            lemma_with_property_effect(d, at, key);
            lemma_index_of_property(w.entities[at].properties, key);
            let k = index_of_property(w.entities[at].properties, key)->0;
            let r = w.with_dependant_at(at, k, reader);
            lemma_with_dependant_at_effect(w, at, k, reader);
            let old = w.entities[at].properties[k];
            let new = PropertyView { dependants: old.dependants.push(reader), ..old };
            lemma_same_tree_wf(d, w);
            assert(w.property(target.entity_id, key) == Some(old));
            assert forall|p: PropRefView| old.dependants.contains(p) implies new.dependants.contains(p) by {
                let i = choose|i: int| 0 <= i < old.dependants.len() && old.dependants[i] == p;
                assert(new.dependants[i] == p);
            }
            lemma_differs_keeps(r, w, target.entity_id, key, new, w.cells);
            lemma_keeps_trans(r, w, d);
            crate::document::lemma_same_tree_trans(r, w, d);
            assert(new.dependants[old.dependants.len() as int] == reader);
            lemma_same_tree_wf(w, r);
        },
        None => {
            crate::document::lemma_same_tree_refl(d);
        },
    }
}

/// Registering a reader at each of a list of properties keeps what the document
/// holds, and the reader reads each of them from then on.
pub proof fn lemma_register_all_keeps(d: DocumentView, targets: Seq<PropRefView>, reader: PropRefView)
    requires
        d.wf(),
    ensures
        d.register_all(targets, reader).0.wf(),
        d.register_all(targets, reader).0.same_tree(d),
        keeps(d.register_all(targets, reader).0, d),
        d.register_all(targets, reader).1 is Ok ==> forall|i: int|
            0 <= i < targets.len() ==> reads(d.register_all(targets, reader).0, #[trigger] targets[i], reader),
    decreases targets.len(),
{
    if targets.len() == 0 {
        crate::document::lemma_same_tree_refl(d);
    } else {
        let (next, first) = d.with_dependant(targets[0], reader);
        lemma_with_dependant_keeps(d, targets[0], reader);
        if first is Ok {
            let rest = targets.drop_first();
            let (last, all) = next.register_all(rest, reader);
            lemma_register_all_keeps(next, rest, reader);
            lemma_keeps_trans(last, next, d);
            crate::document::lemma_same_tree_trans(last, next, d);
            if all is Ok {
                assert forall|i: int| 0 <= i < targets.len() implies reads(last, #[trigger] targets[i], reader) by {
                    if i == 0 {
                        lemma_keeps_readers(last, next, targets[0], reader);
                    } else {
                        assert(rest[i - 1] == targets[i]);
                    }
                }
            }
        }
    }
}

/// Binding the live references of a value keeps what the document holds, and the
/// bound value is well bound.
pub proof fn lemma_bind_keeps(d: DocumentView, start: EntityId, pon: PonView)
    requires
        d.wf(),
    ensures
        d.bind(start, pon).0.wf(),
        d.bind(start, pon).0.same_tree(d),
        keeps(d.bind(start, pon).0, d),
        d.bind(start, pon).1 is Ok ==> well_bound(d.bind(start, pon).1->Ok_0, d.bind(start, pon).0),
    decreases pon, 1nat,
{
    crate::document::lemma_same_tree_refl(d);
    match pon {
        PonView::Typed { name, data } => {
            lemma_bind_keeps(d, start, *data);
        },
        PonView::DependencyReference(path, _) => {
            match d.resolve(start, path) {
                Ok(target) => {
                    lemma_index_of_entity(d.entities, target.entity_id);
                    match d.entity_index(target.entity_id) {
                        Some(at) => {
                            let w = d.with_property(at, target.property_key);
                            lemma_with_property(d, at, target.property_key);
                            lemma_with_property_keeps(d, at, target.property_key);
                            lemma_with_property_effect(d, at, target.property_key);
                            lemma_same_tree_wf(d, w);
                        },
                        None => {},
                    }
                },
                Err(_) => {},
            }
        },
        PonView::Object(fields) => {
            lemma_bind_fields_keeps(d, start, fields);
        },
        PonView::Array(items) => {
            lemma_bind_items_keeps(d, start, items);
        },
        _ => {},
    }
}

/// Binding the items of an array keeps what the document holds, and the bound items
/// are well bound.
pub proof fn lemma_bind_items_keeps(d: DocumentView, start: EntityId, items: Seq<PonView>)
    requires
        d.wf(),
    ensures
        d.bind_items(start, items).0.wf(),
        d.bind_items(start, items).0.same_tree(d),
        keeps(d.bind_items(start, items).0, d),
        d.bind_items(start, items).1 is Ok ==> forall|i: int|
            0 <= i < d.bind_items(start, items).1->Ok_0.len() ==> well_bound(
                #[trigger] d.bind_items(start, items).1->Ok_0[i],
                d.bind_items(start, items).0,
            ),
    decreases items, 0nat,
{
    if items.len() == 0 {
        crate::document::lemma_same_tree_refl(d);
    } else {
        let (next, first) = d.bind(start, items[0]);
        lemma_bind_keeps(d, start, items[0]);
        if first is Ok {
            let (last, rest) = next.bind_items(start, items.drop_first());
            lemma_bind_items_keeps(next, start, items.drop_first());
            lemma_keeps_trans(last, next, d);
            crate::document::lemma_same_tree_trans(last, next, d);
            if rest is Ok {
                let all = seq![first->Ok_0] + rest->Ok_0;
                assert forall|i: int| 0 <= i < all.len() implies well_bound(#[trigger] all[i], last) by {
                    if i == 0 {
                        lemma_well_bound_kept(first->Ok_0, next, last);
                    } else {
                        assert(all[i] == rest->Ok_0[i - 1]);
                    }
                }
            }
        }
    }
}

/// Binding the fields of an object keeps what the document holds, and the bound
/// values are well bound.
pub proof fn lemma_bind_fields_keeps(d: DocumentView, start: EntityId, fields: Seq<(Seq<char>, PonView)>)
    requires
        d.wf(),
    ensures
        d.bind_fields(start, fields).0.wf(),
        d.bind_fields(start, fields).0.same_tree(d),
        keeps(d.bind_fields(start, fields).0, d),
        d.bind_fields(start, fields).1 is Ok ==> forall|i: int|
            0 <= i < d.bind_fields(start, fields).1->Ok_0.len() ==> well_bound(
                (#[trigger] d.bind_fields(start, fields).1->Ok_0[i]).1,
                d.bind_fields(start, fields).0,
            ),
    decreases fields, 0nat,
{
    if fields.len() == 0 {
        crate::document::lemma_same_tree_refl(d);
    } else {
        let (next, first) = d.bind(start, fields[0].1);
        lemma_bind_keeps(d, start, fields[0].1);
        if first is Ok {
            let (last, rest) = next.bind_fields(start, fields.drop_first());
            lemma_bind_fields_keeps(next, start, fields.drop_first());
            lemma_keeps_trans(last, next, d);
            crate::document::lemma_same_tree_trans(last, next, d);
            if rest is Ok {
                let all = seq![(fields[0].0, first->Ok_0)] + rest->Ok_0;
                assert forall|i: int| 0 <= i < all.len() implies well_bound((#[trigger] all[i]).1, last) by {
                    if i == 0 {
                        lemma_well_bound_kept(first->Ok_0, next, last);
                    } else {
                        assert(all[i] == rest->Ok_0[i - 1]);
                    }
                }
            }
        }
    }
}

/// Storing an expression keeps what the document holds.
pub proof fn lemma_store_keeps(d: DocumentView, at: int, key: Seq<char>, expression: PonView)
    requires
        d.wf(),
        0 <= at < d.entities.len(),
    ensures
        d.store(at, key, expression).wf(),
        d.store(at, key, expression).same_tree(d),
        keeps(d.store(at, key, expression), d),
        d.store(at, key, expression).get_property(d.entities[at].id, key) == Ok::<PonView, DocErrorView>(expression),
{
    let id = d.entities[at].id;
    lemma_store_effect(d, at, key, expression);
    lemma_differs_keeps(
        d.store(at, key, expression),
        d,
        id,
        key,
        ensured(d, id, key),
        ensured_cells(d, id, key).update(ensured(d, id, key).cell as int, Some(expression)),
    );
    lemma_entity_at(d, at);
    lemma_same_tree_wf(d, d.store(at, key, expression));
}

/// Setting a property keeps what the document holds, whatever comes of it: the
/// properties that were there keep their slots and their readers.
pub proof fn law_set_property_keeps(d: DocumentView, id: EntityId, key: Seq<char>, expression: PonView)
    requires
        d.wf(),
    ensures
        d.set_property(id, key, expression).0.wf(),
        d.set_property(id, key, expression).0.same_tree(d),
        keeps(d.set_property(id, key, expression).0, d),
{
    crate::document::lemma_same_tree_refl(d);
    lemma_index_of_entity(d.entities, id);
    match d.entity_index(id) {
        Some(at) => match d.resolve_all(id, dependency_refs(expression)) {
            Ok(targets) => {
                let reader = PropRefView { entity_id: id, property_key: key };
                let (registered, first) = d.register_all(targets, reader);
                lemma_register_all_keeps(d, targets, reader);
                if first is Ok {
                    let (bound, second) = registered.bind(id, expression);
                    lemma_bind_keeps(registered, id, expression);
                    lemma_keeps_trans(bound, registered, d);
                    crate::document::lemma_same_tree_trans(bound, registered, d);
                    if second is Ok {
                        let stored = bound.store(at, key, second->Ok_0);
                        lemma_store_keeps(bound, at, key, second->Ok_0);
                        lemma_keeps_trans(stored, bound, d);
                        crate::document::lemma_same_tree_trans(stored, bound, d);
                    }
                }
            },
            Err(_) => {},
        },
        None => {},
    }
}

/// Once a property is set with success, it is registered as a reader of every property
/// that a live reference of its expression names, and every live reference of the
/// stored expression is bound to the slot of the property that it names.
pub proof fn law_set_property_registers_and_binds(
    d: DocumentView,
    id: EntityId,
    key: Seq<char>,
    expression: PonView,
)
    requires
        d.wf(),
        d.set_property(id, key, expression).1 is Ok,
    ensures
        ({
            let after = d.set_property(id, key, expression).0;
            let targets = d.resolve_all(id, dependency_refs(expression));
            &&& targets is Ok
            &&& forall|i: int|
                0 <= i < targets->Ok_0.len() ==> reads(
                    after,
                    #[trigger] targets->Ok_0[i],
                    PropRefView { entity_id: id, property_key: key },
                )
            &&& after.get_property(id, key) is Ok
            &&& well_bound(after.get_property(id, key)->Ok_0, after)
        }),
{
    lemma_index_of_entity(d.entities, id);
    let at = d.entity_index(id)->0;
    let targets = d.resolve_all(id, dependency_refs(expression))->Ok_0;
    let reader = PropRefView { entity_id: id, property_key: key };
    let (registered, first) = d.register_all(targets, reader);
    lemma_register_all_keeps(d, targets, reader);
    let (bound, second) = registered.bind(id, expression);
    lemma_bind_keeps(registered, id, expression);
    let stored = bound.store(at, key, second->Ok_0);
    lemma_store_keeps(bound, at, key, second->Ok_0);
    lemma_keeps_trans(stored, bound, registered);
    crate::document::lemma_same_tree_trans(stored, bound, registered);
    lemma_well_bound_kept(second->Ok_0, bound, stored);
    lemma_same_tree_wf(d, registered);
    lemma_same_tree_wf(registered, bound);
    assert(bound.entities[at].id == id);
    assert forall|i: int| 0 <= i < targets.len() implies reads(stored, #[trigger] targets[i], reader) by {
        lemma_keeps_readers(stored, registered, targets[i], reader);
    }
}

/// What is well bound stays well bound when a property is set.
pub proof fn law_binding_survives_set_property(
    pon: PonView,
    d: DocumentView,
    id: EntityId,
    key: Seq<char>,
    expression: PonView,
)
    requires
        d.wf(),
        well_bound(pon, d),
    ensures
        well_bound(pon, d.set_property(id, key, expression).0),
{
    law_set_property_keeps(d, id, key, expression);
    lemma_well_bound_kept(pon, d, d.set_property(id, key, expression).0);
}


/// Whether the table of values of `w` begins with that of `d` and holds nothing behind
/// it, and every property of `w` that is none of `d` has its slot behind it.
pub open spec fn slots_kept(w: DocumentView, d: DocumentView) -> bool {
    &&& d.cells.len() <= w.cells.len()
    &&& forall|c: int| 0 <= c < d.cells.len() ==> #[trigger] w.cells[c] == d.cells[c]
    &&& forall|c: int| d.cells.len() <= c < w.cells.len() ==> (#[trigger] w.cells[c]) is None
    &&& forall|id: EntityId, key: Seq<char>| #[trigger]
        w.property(id, key) is Some && d.property(id, key) is None ==> d.cells.len() <= w.property(id, key)->0.cell
}

pub proof fn lemma_slots_kept_trans(a: DocumentView, b: DocumentView, c: DocumentView)
    requires
        slots_kept(a, b),
        keeps(a, b),
        slots_kept(b, c),
    ensures
        slots_kept(a, c),
{
    assert forall|i: int| 0 <= i < c.cells.len() implies #[trigger] a.cells[i] == c.cells[i] by {
        assert(b.cells[i] == c.cells[i]);
    }
    assert forall|i: int| c.cells.len() <= i < a.cells.len() implies (#[trigger] a.cells[i]) is None by {
        if i < b.cells.len() {
            assert(b.cells[i] is None);
        }
    }
    assert forall|id: EntityId, key: Seq<char>| #[trigger]
        a.property(id, key) is Some && c.property(id, key) is None implies c.cells.len() <= a.property(id, key)->0.cell by {
        if b.property(id, key) is Some {
            assert(a.property(id, key)->0.cell == b.property(id, key)->0.cell);
        }
    }
}

/// A document that differs from another in one property, whose slot is the next one
/// where the property is new, keeps the slots of the other.
pub proof fn lemma_differs_slots(w: DocumentView, d: DocumentView, id: EntityId, key: Seq<char>, property: PropertyView)
    requires
        differs_at(w, d, id, key, property, ensured_cells(d, id, key)),
        d.property(id, key) is None ==> property.cell == d.cells.len(),
    ensures
        slots_kept(w, d),
{
    assert forall|other: EntityId, k: Seq<char>| #[trigger]
        w.property(other, k) is Some && d.property(other, k) is None implies d.cells.len() <= w.property(other, k)->0.cell by {
        if other != id || k != key {
            assert(w.property(other, k) == d.property(other, k));
        }
    }
}

/// Giving an entity a property keeps the slots.
pub proof fn lemma_with_property_slots(d: DocumentView, at: int, key: Seq<char>)
    requires
        d.wf(),
        0 <= at < d.entities.len(),
    ensures
        slots_kept(d.with_property(at, key), d),
{
    let id = d.entities[at].id;
    lemma_with_property_effect(d, at, key);
    lemma_differs_slots(d.with_property(at, key), d, id, key, ensured(d, id, key));
}

/// Registering a reader keeps the slots.
pub proof fn lemma_with_dependant_slots(d: DocumentView, target: PropRefView, reader: PropRefView)
    requires
        d.wf(),
    ensures
        slots_kept(d.with_dependant(target, reader).0, d),
{
    lemma_index_of_entity(d.entities, target.entity_id);
    match d.entity_index(target.entity_id) {
        Some(at) => {
            let key = target.property_key;
            let w = d.with_property(at, key);
            lemma_with_property(d, at, key);
            lemma_with_property_slots(d, at, key);
            lemma_with_property_keeps(d, at, key);
            lemma_index_of_property(w.entities[at].properties, key);
            let k = index_of_property(w.entities[at].properties, key)->0;
            let r = w.with_dependant_at(at, k, reader);
            lemma_with_dependant_at_effect(w, at, k, reader);
            let old = w.entities[at].properties[k];
            lemma_same_tree_wf(d, w);
            assert(w.property(target.entity_id, key) == Some(old));
            assert(slots_kept(r, w)) by {
                assert forall|other: EntityId, k2: Seq<char>| #[trigger]
                    r.property(other, k2) is Some && w.property(other, k2) is None implies w.cells.len() <= r.property(
                    other,
                    k2,
                )->0.cell by {
                    if other != target.entity_id || k2 != key {
                        assert(r.property(other, k2) == w.property(other, k2));
                    }
                }
            }
            lemma_with_dependant_keeps(d, target, reader);
            assert(keeps(r, w)) by {
                assert forall|other: EntityId, k2: Seq<char>| #[trigger] w.property(other, k2) is Some implies r.property(
                    other,
                    k2,
                ) is Some && r.property(other, k2)->0.cell == w.property(other, k2)->0.cell && forall|p: PropRefView|
                    w.property(other, k2)->0.dependants.contains(p) ==> r.property(other, k2)->0.dependants.contains(
                        p,
                    ) by {
                    if other != target.entity_id || k2 != key {
                        assert(r.property(other, k2) == w.property(other, k2));
                    } else {
                        assert forall|p: PropRefView| old.dependants.contains(p) implies old.dependants.push(
                            reader,
                        ).contains(p) by {
                            let i = choose|i: int| 0 <= i < old.dependants.len() && old.dependants[i] == p;
                            assert(old.dependants.push(reader)[i] == p);
                        }
                    }
                }
            }
            lemma_slots_kept_trans(r, w, d);
        },
        None => {},
    }
}

pub proof fn lemma_register_all_slots(d: DocumentView, targets: Seq<PropRefView>, reader: PropRefView)
    requires
        d.wf(),
    ensures
        slots_kept(d.register_all(targets, reader).0, d),
    decreases targets.len(),
{
    if targets.len() > 0 {
        let (next, first) = d.with_dependant(targets[0], reader);
        lemma_with_dependant_keeps(d, targets[0], reader);
        lemma_with_dependant_slots(d, targets[0], reader);
        if first is Ok {
            let rest = targets.drop_first();
            lemma_register_all_slots(next, rest, reader);
            lemma_register_all_keeps(next, rest, reader);
            lemma_slots_kept_trans(next.register_all(rest, reader).0, next, d);
        }
    }
}

/// Binding keeps the slots.
pub proof fn lemma_bind_slots(d: DocumentView, start: EntityId, pon: PonView)
    requires
        d.wf(),
    ensures
        slots_kept(d.bind(start, pon).0, d),
    decreases pon, 1nat,
{
    match pon {
        PonView::Typed { name, data } => {
            lemma_bind_slots(d, start, *data);
        },
        PonView::DependencyReference(path, _) => {
            match d.resolve(start, path) {
                Ok(target) => {
                    lemma_index_of_entity(d.entities, target.entity_id);
                    match d.entity_index(target.entity_id) {
                        Some(at) => {
                            lemma_with_property_slots(d, at, target.property_key);
                        },
                        None => {},
                    }
                },
                Err(_) => {},
            }
        },
        PonView::Object(fields) => {
            lemma_bind_fields_slots(d, start, fields);
        },
        PonView::Array(items) => {
            lemma_bind_items_slots(d, start, items);
        },
        _ => {},
    }
}

pub proof fn lemma_bind_items_slots(d: DocumentView, start: EntityId, items: Seq<PonView>)
    requires
        d.wf(),
    ensures
        slots_kept(d.bind_items(start, items).0, d),
    decreases items, 0nat,
{
    if items.len() > 0 {
        let (next, first) = d.bind(start, items[0]);
        lemma_bind_keeps(d, start, items[0]);
        lemma_bind_slots(d, start, items[0]);
        if first is Ok {
            let rest = items.drop_first();
            lemma_bind_items_slots(next, start, rest);
            lemma_bind_items_keeps(next, start, rest);
            lemma_slots_kept_trans(next.bind_items(start, rest).0, next, d);
        }
    }
}

pub proof fn lemma_bind_fields_slots(d: DocumentView, start: EntityId, fields: Seq<(Seq<char>, PonView)>)
    requires
        d.wf(),
    ensures
        slots_kept(d.bind_fields(start, fields).0, d),
    decreases fields, 0nat,
{
    if fields.len() > 0 {
        let (next, first) = d.bind(start, fields[0].1);
        lemma_bind_keeps(d, start, fields[0].1);
        lemma_bind_slots(d, start, fields[0].1);
        if first is Ok {
            let rest = fields.drop_first();
            lemma_bind_fields_slots(next, start, rest);
            lemma_bind_fields_keeps(next, start, rest);
            lemma_slots_kept_trans(next.bind_fields(start, rest).0, next, d);
        }
    }
}

/// The slots of two different properties of a well-formed document differ.
pub proof fn lemma_distinct_cells(
    d: DocumentView,
    id: EntityId,
    key: Seq<char>,
    other: EntityId,
    other_key: Seq<char>,
)
    requires
        d.wf(),
        d.property(id, key) is Some,
        d.property(other, other_key) is Some,
        id != other || key != other_key,
    ensures
        d.property(id, key)->0.cell != d.property(other, other_key)->0.cell,
        d.property(id, key)->0.cell < d.cells.len(),
        d.property(other, other_key)->0.cell < d.cells.len(),
{
    lemma_index_of_entity(d.entities, id);
    lemma_index_of_entity(d.entities, other);
    let i = d.entity_index(id)->0;
    let j = d.entity_index(other)->0;
    lemma_index_of_property(d.entities[i].properties, key);
    lemma_index_of_property(d.entities[j].properties, other_key);
    let a = index_of_property(d.entities[i].properties, key)->0;
    let b = index_of_property(d.entities[j].properties, other_key)->0;
    assert(i != j || a != b);
    assert(d.entities[i].properties[a].cell != d.entities[j].properties[b].cell);
}

/// The document in which `set_property` stores the expression: the document after the
/// live references were registered and bound; or, where a step before the storing
/// fails, the document that `set_property` returns.
pub open spec fn before_store(d: DocumentView, id: EntityId, key: Seq<char>, expression: PonView) -> DocumentView {
    if d.set_property(id, key, expression).1 is Ok {
        d.register_all(
            d.resolve_all(id, dependency_refs(expression))->Ok_0,
            PropRefView { entity_id: id, property_key: key },
        ).0.bind(id, expression).0
    } else {
        d.set_property(id, key, expression).0
    }
}

/// Up to the storing, setting a property keeps what the document holds and its slots.
pub proof fn lemma_before_store(d: DocumentView, id: EntityId, key: Seq<char>, expression: PonView)
    requires
        d.wf(),
    ensures
        before_store(d, id, key, expression).wf(),
        before_store(d, id, key, expression).same_tree(d),
        keeps(before_store(d, id, key, expression), d),
        slots_kept(before_store(d, id, key, expression), d),
{
    crate::document::lemma_same_tree_refl(d);
    if d.entity_index(id) is Some && d.resolve_all(id, dependency_refs(expression)) is Ok {
        let targets = d.resolve_all(id, dependency_refs(expression))->Ok_0;
        let reader = PropRefView { entity_id: id, property_key: key };
        let (registered, first) = d.register_all(targets, reader);
        lemma_register_all_keeps(d, targets, reader);
        lemma_register_all_slots(d, targets, reader);
        if first is Ok {
            let bound = registered.bind(id, expression).0;
            lemma_bind_keeps(registered, id, expression);
            lemma_bind_slots(registered, id, expression);
            lemma_slots_kept_trans(bound, registered, d);
            lemma_keeps_trans(bound, registered, d);
            crate::document::lemma_same_tree_trans(bound, registered, d);
        }
    }
}

/// Setting a property changes the expression of no other property: what another
/// property held it holds, and a property that held nothing holds nothing.
pub proof fn law_set_property_changes_one_expression(
    d: DocumentView,
    id: EntityId,
    key: Seq<char>,
    expression: PonView,
    other: EntityId,
    other_key: Seq<char>,
)
    requires
        d.wf(),
        other != id || other_key != key,
    ensures
        d.set_property(id, key, expression).0.get_property(other, other_key) == d.get_property(other, other_key),
{
    let after = d.set_property(id, key, expression).0;
    let before = before_store(d, id, key, expression);
    lemma_before_store(d, id, key, expression);
    lemma_same_tree_wf(d, before);
    law_set_property_keeps(d, id, key, expression);
    lemma_same_tree_wf(d, after);
    if d.has_entity(other) {
        // what the property holds before the storing is what it held
        assert(before.get_property(other, other_key) == d.get_property(other, other_key)) by {
            match d.property(other, other_key) {
                Some(property) => {
                    lemma_two_cells_valid(d, other, other_key);
                },
                None => {
                    if before.property(other, other_key) is Some {
                        lemma_two_cells_valid(before, other, other_key);
                    }
                },
            }
        }
        if d.set_property(id, key, expression).1 is Ok {
            lemma_index_of_entity(d.entities, id);
            let at = d.entity_index(id)->0;
            let value = d.register_all(
                d.resolve_all(id, dependency_refs(expression))->Ok_0,
                PropRefView { entity_id: id, property_key: key },
            ).0.bind(id, expression).1->Ok_0;
            assert(before.entities[at].id == id);
            assert(after == before.store(at, key, value));
            lemma_store_effect(before, at, key, value);
            assert(after.property(other, other_key) == before.property(other, other_key));
            if before.property(other, other_key) is Some {
                lemma_distinct_cells(after, id, key, other, other_key);
                lemma_two_cells_valid(before, other, other_key);
            }
        }
    }
}

/// A bound live reference reads its target: a snapshot of a well-bound live reference
/// fails where the property that it names holds nothing, and is otherwise the
/// snapshot of what that property holds.
pub proof fn law_live_reference_reads_its_target(
    d: DocumentView,
    path: NamedPropRefView,
    bound: Option<ResolvedView>,
    budget: nat,
)
    requires
        d.wf(),
        well_bound(PonView::DependencyReference(path, bound), d),
    ensures
        concretized(PonView::DependencyReference(path, bound), d.cells, budget) == (match d.get_property(
            bound->0.prop_ref.entity_id,
            bound->0.prop_ref.property_key,
        ) {
            Ok(value) => if budget == 0 {
                Err(too_deep())
            } else {
                concretized(value, d.cells, (budget - 1) as nat)
            },
            Err(_) => Err(PonTranslateErrView::ReferenceToNonExistentProperty(path)),
        }),
{
    lemma_two_cells_valid(d, bound->0.prop_ref.entity_id, bound->0.prop_ref.property_key);
}

} // verus!
