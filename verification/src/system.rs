//! The driver's side of a document: what has changed since the observers were last
//! told, and which properties a change reaches.

use vstd::prelude::*;
use crate::document::Document;
use crate::document::DocumentView;
use crate::pon::prop_ref_views;
use crate::pon::EntityId;
use crate::pon::PropRef;
use crate::pon::PropRefView;

verus! {

/// Whether `to` reads `from` through a live reference: `to` is registered as a reader
/// of `from`. A property that the document does not hold has no readers.
pub open spec fn reads(d: DocumentView, from: PropRefView, to: PropRefView) -> bool {
    match d.dependants(from.entity_id, from.property_key) {
        Ok(readers) => readers.contains(to),
        Err(_) => false,
    }
}

/// Whether `p` is reached from one of `roots` in exactly `steps` steps from a property
/// to one of its readers.
pub open spec fn reached_in(d: DocumentView, roots: Set<PropRefView>, p: PropRefView, steps: nat) -> bool
    decreases steps,
{
    if steps == 0 {
        roots.contains(p)
    } else {
        exists|q: PropRefView| reached_in(d, roots, q, (steps - 1) as nat) && reads(d, q, p)
    }
}

/// Whether a change of `roots` reaches `p`: `p` is one of them, or reads, directly or
/// through other properties, one of them.
pub open spec fn reached(d: DocumentView, roots: Set<PropRefView>, p: PropRefView) -> bool {
    exists|steps: nat| reached_in(d, roots, p, steps)
}

/// The properties that a change of `roots` makes stale: `roots` and everything that
/// reads them, directly or through other properties.
pub open spec fn cascade(d: DocumentView, roots: Set<PropRefView>) -> Set<PropRefView> {
    Set::new(|p: PropRefView| reached(d, roots, p))
}

/// The readers of all properties of one entity, one list after the other.
pub open spec fn entity_readers(properties: Seq<crate::document::PropertyView>) -> Seq<PropRefView>
    decreases properties.len(),
{
    if properties.len() == 0 {
        Seq::empty()
    } else {
        entity_readers(properties.drop_last()) + properties.last().dependants
    }
}

/// The readers of all properties of the document, one list after the other.
pub open spec fn all_readers(entities: Seq<crate::document::EntityView>) -> Seq<PropRefView>
    decreases entities.len(),
{
    if entities.len() == 0 {
        Seq::empty()
    } else {
        all_readers(entities.drop_last()) + entity_readers(entities.last().properties)
    }
}

proof fn lemma_entity_readers(properties: Seq<crate::document::PropertyView>, k: int, j: int)
    requires
        0 <= k < properties.len(),
        0 <= j < properties[k].dependants.len(),
    ensures
        entity_readers(properties).contains(properties[k].dependants[j]),
    decreases properties.len(),
{
    let head = entity_readers(properties.drop_last());
    let tail = properties.last().dependants;
    if k == properties.len() - 1 {
        assert((head + tail)[head.len() + j] == tail[j]);
    } else {
        lemma_entity_readers(properties.drop_last(), k, j);
        let at = choose|at: int| 0 <= at < head.len() && head[at] == properties[k].dependants[j];
        assert((head + tail)[at] == head[at]);
    }
}

proof fn lemma_all_readers(entities: Seq<crate::document::EntityView>, i: int, k: int, j: int)
    requires
        0 <= i < entities.len(),
        0 <= k < entities[i].properties.len(),
        0 <= j < entities[i].properties[k].dependants.len(),
    ensures
        all_readers(entities).contains(entities[i].properties[k].dependants[j]),
    decreases entities.len(),
{
    let head = all_readers(entities.drop_last());
    let tail = entity_readers(entities.last().properties);
    let p = entities[i].properties[k].dependants[j];
    if i == entities.len() - 1 {
        lemma_entity_readers(entities.last().properties, k, j);
        let at = choose|at: int| 0 <= at < tail.len() && tail[at] == p;
        assert((head + tail)[head.len() + at] == tail[at]);
    } else {
        lemma_all_readers(entities.drop_last(), i, k, j);
        let at = choose|at: int| 0 <= at < head.len() && head[at] == p;
        assert((head + tail)[at] == head[at]);
    }
}

/// Every reader of a property is among the readers of the document.
proof fn lemma_reader_known(d: DocumentView, from: PropRefView, to: PropRefView)
    requires
        reads(d, from, to),
    ensures
        all_readers(d.entities).contains(to),
{
    crate::document::lemma_index_of_entity(d.entities, from.entity_id);
    let i = d.entity_index(from.entity_id)->0;
    crate::document::lemma_index_of_property(d.entities[i].properties, from.property_key);
    let k = crate::document::index_of_property(d.entities[i].properties, from.property_key)->0;
    let readers = d.entities[i].properties[k].dependants;
    let j = choose|j: int| 0 <= j < readers.len() && readers[j] == to;
    lemma_all_readers(d.entities, i, k, j);
}

/// A list without repetitions whose items all stand in `universe` is no longer than
/// `universe`.
proof fn lemma_bounded(list: Seq<PropRefView>, universe: Seq<PropRefView>)
    requires
        list.no_duplicates(),
        forall|i: int| 0 <= i < list.len() ==> universe.contains(#[trigger] list[i]),
    ensures
        list.len() <= universe.to_set().len(),
        universe.to_set().finite(),
{
    vstd::seq_lib::seq_to_set_is_finite(universe);
    list.unique_seq_to_set();
    assert(list.to_set().subset_of(universe.to_set())) by {
        assert forall|p: PropRefView| list.to_set().contains(p) implies universe.to_set().contains(p) by {
            let i = choose|i: int| 0 <= i < list.len() && list[i] == p;
            assert(universe.contains(list[i]));
        }
    }
    vstd::set_lib::lemma_len_subset(list.to_set(), universe.to_set());
}

/// A set that holds the roots and, with every property, its readers holds everything
/// that a change of the roots reaches.
proof fn lemma_closed(d: DocumentView, roots: Set<PropRefView>, found: Set<PropRefView>, p: PropRefView, steps: nat)
    requires
        roots.subset_of(found),
        forall|x: PropRefView, y: PropRefView| found.contains(x) && reads(d, x, y) ==> found.contains(y),
        reached_in(d, roots, p, steps),
    ensures
        found.contains(p),
    decreases steps,
{
    if steps > 0 {
        let q = choose|q: PropRefView| reached_in(d, roots, q, (steps - 1) as nat) && reads(d, q, p);
        lemma_closed(d, roots, found, q, (steps - 1) as nat);
    }
}

/// Whether `list` holds a reference to the property that `p` names.
pub fn contains_ref(list: &Vec<PropRef>, p: &PropRef) -> (r: bool)
    ensures
        r == prop_ref_views(list@).contains(p@),
{
    let mut i: usize = 0;
    while i < list.len()
        invariant
            i <= list.len(),
            forall|j: int| 0 <= j < i ==> prop_ref_views(list@)[j] != p@,
        decreases list.len() - i,
    {
        if list[i].same(p) {
            assert(prop_ref_views(list@)[i as int] == p@);
            return true;
        }
        i += 1;
    }
    false
}

/// A document together with what a driver needs to keep its observers up to date.
pub struct System {
    pub(crate) document: Document,
    pub running: bool,
}

impl System {
    /// The document of the system.
    pub open(crate) spec fn doc(&self) -> DocumentView {
        self.document@
    }

    /// Whether the driver is to go on.
    pub open(crate) spec fn is_running(&self) -> bool {
        self.running
    }

    /// Whether the document of the system is well formed.
    pub open(crate) spec fn wf(&self) -> bool {
        self.document.wf()
    }

    /// A running system with an empty document.
    pub fn new() -> (system: System)
        ensures
            system.wf(),
            system.is_running(),
            system.doc() == Document::new_view(),
    {
        System { document: Document::new(), running: true }
    }

    /// Puts `document` in place of the system's document. From then on its changes
    /// are recorded.
    pub fn set_document(&mut self, document: Document)
        requires
            document.wf(),
        ensures
            final(self).wf(),
            final(self).doc() == (DocumentView { recording: true, ..document@ }),
            final(self).is_running() == old(self).is_running(),
    {
        self.document = document;
        self.document.record_changes();
        proof {
            crate::document::lemma_same_properties_wf(document@, self.document@);
        }
    }

    pub fn document(&self) -> (document: &Document)
        ensures
            document@ == self.doc(),
    {
        &self.document
    }

    pub fn document_mut(&mut self) -> (document: &mut Document)
        ensures
            document@ == old(self).doc(),
            final(self).doc() == final(document)@,
            final(self).is_running() == old(self).is_running(),
    {
        &mut self.document
    }

    /// Asks the driver to stop.
    pub fn exit(&mut self)
        ensures
            !final(self).is_running(),
            final(self).doc() == old(self).doc(),
    {
        self.running = false;
    }

    /// Whether entities were appended or properties set that the observers were not
    /// told of yet.
    pub fn has_pending(&self) -> (r: bool)
        ensures
            r == (self.doc().changed_properties.len() > 0 || self.doc().added_entities.len() > 0),
    {
        self.document.changed_properties.len() > 0 || self.document.added_entities.len() > 0
    }

    /// The entities that were appended since they were last taken, oldest first.
    pub fn take_added_entities(&mut self) -> (taken: Vec<EntityId>)
        ensures
            taken@ == old(self).doc().added_entities,
            final(self).doc() == (DocumentView { added_entities: Seq::empty(), ..old(self).doc() }),
            final(self).is_running() == old(self).is_running(),
    {
        self.document.take_added_entities()
    }

    /// The properties that the changes since the last call make stale: every property
    /// that was set, and every property that reads one of them, directly or through
    /// other properties. None comes twice. The changes count as told.
    #[verifier::loop_isolation(false)]
    pub fn build_property_cascades(&mut self) -> (stale: Vec<PropRef>)
        ensures
            prop_ref_views(stale@).no_duplicates(),
            prop_ref_views(stale@).to_set() == cascade(old(self).doc(), old(self).doc().changed_properties.to_set()),
            final(self).doc() == (DocumentView { changed_properties: Seq::empty(), ..old(self).doc() }),
            final(self).is_running() == old(self).is_running(),
    {
        let ghost before = self.doc();
        let changed = self.document.take_changed_properties();
        let ghost d = self.doc();
        let ghost roots = before.changed_properties.to_set();
        let ghost universe = before.changed_properties + all_readers(d.entities);
        assert forall|a: PropRefView, b: PropRefView| reads(d, a, b) == reads(before, a, b) by {}
        assert forall|p: PropRefView, n: nat| reached_in(d, roots, p, n) == reached_in(before, roots, p, n) by {
            lemma_same_reach(d, before, roots, p, n);
        }

        let mut found: Vec<PropRef> = Vec::new();
        let mut queue: Vec<PropRef> = Vec::new();
        let mut i: usize = 0;
        while i < changed.len()
            invariant
                i <= changed.len(),
                prop_ref_views(found@).no_duplicates(),
                prop_ref_views(queue@) == prop_ref_views(found@),
                forall|j: int| 0 <= j < found.len() ==> roots.contains(#[trigger] prop_ref_views(found@)[j]),
                forall|j: int| 0 <= j < i ==> prop_ref_views(found@).contains(#[trigger] prop_ref_views(changed@)[j]),
            decreases changed.len() - i,
        {
            let ghost old_found = prop_ref_views(found@);
            if !contains_ref(&found, &changed[i]) {
                found.push(changed[i].clone());
                queue.push(changed[i].clone());
                assert(prop_ref_views(found@) =~= old_found.push(changed[i as int]@));
                assert(prop_ref_views(queue@) =~= prop_ref_views(found@));
                assert(before.changed_properties[i as int] == changed[i as int]@);
            }
            assert forall|j: int| 0 <= j < i + 1 implies prop_ref_views(found@).contains(
                #[trigger] prop_ref_views(changed@)[j],
            ) by {
                if j < i {
                    let at = choose|at: int| 0 <= at < old_found.len() && old_found[at] == prop_ref_views(changed@)[j];
                    assert(prop_ref_views(found@)[at] == old_found[at]);
                } else if old_found.contains(changed[i as int]@) {
                    let at = choose|at: int| 0 <= at < old_found.len() && old_found[at] == changed[i as int]@;
                    assert(prop_ref_views(found@)[at] == old_found[at]);
                } else {
                    assert(prop_ref_views(found@)[old_found.len() as int] == changed[i as int]@);
                }
            }
            i += 1;
        }
        assert(roots.subset_of(prop_ref_views(found@).to_set())) by {
            assert forall|p: PropRefView| roots.contains(p) implies prop_ref_views(found@).to_set().contains(p) by {
                let j = choose|j: int| 0 <= j < before.changed_properties.len() && before.changed_properties[j] == p;
                assert(prop_ref_views(changed@)[j] == p);
            }
        }
        assert forall|j: int| 0 <= j < found.len() implies reached(d, roots, #[trigger] prop_ref_views(found@)[j]) by {
            assert(reached_in(d, roots, prop_ref_views(found@)[j], 0));
        }
        assert forall|j: int| 0 <= j < found.len() implies universe.contains(#[trigger] prop_ref_views(found@)[j]) by {
            let p = prop_ref_views(found@)[j];
            let at = choose|at: int| 0 <= at < before.changed_properties.len() && before.changed_properties[at] == p;
            assert(universe[at] == p);
        }
        proof {
            lemma_bounded(prop_ref_views(found@), universe);
        }

        while queue.len() > 0
            invariant
                self.doc() == d,
                prop_ref_views(found@).no_duplicates(),
                roots.subset_of(prop_ref_views(found@).to_set()),
                universe.to_set().finite(),
                found.len() <= universe.to_set().len(),
                forall|j: int| 0 <= j < found.len() ==> reached(d, roots, #[trigger] prop_ref_views(found@)[j]),
                forall|j: int| 0 <= j < found.len() ==> universe.contains(#[trigger] prop_ref_views(found@)[j]),
                forall|j: int| 0 <= j < queue.len() ==> prop_ref_views(found@).contains(#[trigger] prop_ref_views(queue@)[j]),
                forall|x: PropRefView, y: PropRefView|
                    prop_ref_views(found@).contains(x) && !prop_ref_views(queue@).contains(x) && #[trigger] reads(d, x, y)
                        ==> prop_ref_views(found@).contains(y),
            decreases universe.to_set().len() - found.len(), queue.len(),
        {
            let ghost found_0 = prop_ref_views(found@);
            let ghost queue_0 = prop_ref_views(queue@);
            let prop_ref = queue.pop().unwrap();
            let ghost x = prop_ref@;
            let ghost queue_1 = prop_ref_views(queue@);
            assert(queue_1 =~= queue_0.drop_last());
            assert(queue_0.last() == x);
            assert(found_0.contains(x));
            match self.document.get_property_dependants(&prop_ref.entity_id, prop_ref.property_key.as_str()) {
                Ok(deps) => {
                    let ghost readers = prop_ref_views(deps@);
                    let mut k: usize = 0;
                    while k < deps.len()
                        invariant
                            k <= deps.len(),
                            readers == prop_ref_views(deps@),
                            d.dependants(x.entity_id, x.property_key) == Ok::<Seq<PropRefView>, crate::document::DocErrorView>(
                                readers,
                            ),
                            found.len() >= found_0.len(),
                            queue.len() >= queue_1.len(),
                            found.len() - found_0.len() == queue.len() - queue_1.len(),
                            prop_ref_views(found@).subrange(0, found_0.len() as int) == found_0,
                            prop_ref_views(queue@).subrange(0, queue_1.len() as int) == queue_1,
                            prop_ref_views(found@).no_duplicates(),
                            found.len() <= universe.to_set().len(),
                            forall|j: int| 0 <= j < found.len() ==> reached(d, roots, #[trigger] prop_ref_views(found@)[j]),
                            forall|j: int| 0 <= j < found.len() ==> universe.contains(#[trigger] prop_ref_views(found@)[j]),
                            forall|j: int|
                                queue_1.len() <= j < queue.len() ==> #[trigger] prop_ref_views(queue@)[j] == prop_ref_views(
                                    found@,
                                )[found_0.len() + (j - queue_1.len())],
                            forall|j: int| 0 <= j < k ==> prop_ref_views(found@).contains(#[trigger] readers[j]),
                        decreases deps.len() - k,
                    {
                        let ghost found_k = prop_ref_views(found@);
                        let ghost queue_k = prop_ref_views(queue@);
                        let ghost y = deps[k as int]@;
                        assert(readers[k as int] == y);
                        assert(reads(d, x, y));
                        if !contains_ref(&found, &deps[k]) {
                            found.push(deps[k].clone());
                            queue.push(deps[k].clone());
                            proof {
                                assert(prop_ref_views(found@) =~= found_k.push(y));
                                assert(prop_ref_views(queue@) =~= queue_k.push(y));
                                assert(prop_ref_views(found@).subrange(0, found_0.len() as int) =~= found_k.subrange(
                                    0,
                                    found_0.len() as int,
                                ));
                                assert(prop_ref_views(queue@).subrange(0, queue_1.len() as int) =~= queue_k.subrange(
                                    0,
                                    queue_1.len() as int,
                                ));
                                lemma_step(d, roots, x, y);
                                lemma_reader_known(d, x, y);
                                let at = choose|at: int|
                                    0 <= at < all_readers(d.entities).len() && all_readers(d.entities)[at] == y;
                                assert(universe[before.changed_properties.len() + at] == y);
                                assert forall|j: int| 0 <= j < found.len() implies universe.contains(
                                    #[trigger] prop_ref_views(found@)[j],
                                ) by {
                                    if j < found_k.len() {
                                        assert(prop_ref_views(found@)[j] == found_k[j]);
                                    }
                                }
                                assert forall|j: int| 0 <= j < found.len() implies reached(
                                    d,
                                    roots,
                                    #[trigger] prop_ref_views(found@)[j],
                                ) by {
                                    if j < found_k.len() {
                                        assert(prop_ref_views(found@)[j] == found_k[j]);
                                    }
                                }
                                lemma_bounded(prop_ref_views(found@), universe);
                            }
                        }
                        assert forall|j: int| 0 <= j < k + 1 implies prop_ref_views(found@).contains(
                            #[trigger] readers[j],
                        ) by {
                            if j < k {
                                let at = choose|at: int| 0 <= at < found_k.len() && found_k[at] == readers[j];
                                assert(prop_ref_views(found@)[at] == found_k[at]);
                            } else if found_k.contains(y) {
                                let at = choose|at: int| 0 <= at < found_k.len() && found_k[at] == y;
                                assert(prop_ref_views(found@)[at] == found_k[at]);
                            } else {
                                assert(prop_ref_views(found@)[found_k.len() as int] == y);
                            }
                        }
                        k += 1;
                    }
                    proof {
                        let found_2 = prop_ref_views(found@);
                        let queue_2 = prop_ref_views(queue@);
                        lemma_after_visit(d, x, found_0, queue_0, found_2, queue_2, readers);
                    }
                },
                Err(_) => {
                    proof {
                        let none = Seq::<PropRefView>::empty();
                        assert(prop_ref_views(found@).subrange(0, found_0.len() as int) =~= found_0);
                        assert(prop_ref_views(queue@).subrange(0, queue_1.len() as int) =~= queue_1);
                        lemma_after_visit(d, x, found_0, queue_0, prop_ref_views(found@), prop_ref_views(queue@), none);
                    }
                },
            }
        }
        proof {
            let all = prop_ref_views(found@).to_set();
            assert(all =~= cascade(before, roots)) by {
                assert forall|p: PropRefView| all.contains(p) == cascade(before, roots).contains(p) by {
                    if all.contains(p) {
                        let j = choose|j: int| 0 <= j < found.len() && prop_ref_views(found@)[j] == p;
                        assert(reached(d, roots, prop_ref_views(found@)[j]));
                        let n = choose|n: nat| reached_in(d, roots, p, n);
                        assert(reached_in(before, roots, p, n));
                    }
                    if cascade(before, roots).contains(p) {
                        let n = choose|n: nat| reached_in(before, roots, p, n);
                        assert(reached_in(d, roots, p, n));
                        assert(prop_ref_views(queue@).len() == 0);
                        assert forall|x: PropRefView, y: PropRefView| all.contains(x) && reads(d, x, y) implies all.contains(
                            y,
                        ) by {
                            assert(prop_ref_views(found@).contains(x));
                            assert(!prop_ref_views(queue@).contains(x));
                        }
                        lemma_closed(d, roots, all, p, n);
                    }
                }
            }
        }
        found
    }
}

/// What one step from a property to a reader reaches is reached.
proof fn lemma_step(d: DocumentView, roots: Set<PropRefView>, x: PropRefView, y: PropRefView)
    requires
        reached(d, roots, x),
        reads(d, x, y),
    ensures
        reached(d, roots, y),
{
    let n = choose|n: nat| reached_in(d, roots, x, n);
    assert(reached_in(d, roots, y, n + 1));
}

/// Documents with the same entities reach the same properties.
proof fn lemma_same_reach(d: DocumentView, e: DocumentView, roots: Set<PropRefView>, p: PropRefView, steps: nat)
    requires
        d.entities == e.entities,
    ensures
        reached_in(d, roots, p, steps) == reached_in(e, roots, p, steps),
    decreases steps,
{
    if steps > 0 {
        let less = (steps - 1) as nat;
        if reached_in(d, roots, p, steps) {
            let q = choose|q: PropRefView| reached_in(d, roots, q, less) && reads(d, q, p);
            lemma_same_reach(d, e, roots, q, less);
            assert(reached_in(e, roots, q, less) && reads(e, q, p));
        }
        if reached_in(e, roots, p, steps) {
            let q = choose|q: PropRefView| reached_in(e, roots, q, less) && reads(e, q, p);
            lemma_same_reach(d, e, roots, q, less);
            assert(reached_in(d, roots, q, less) && reads(d, q, p));
        }
    }
}

/// After the readers of `x` were looked at, every property that was found and does not
/// wait has all its readers among the found ones.
proof fn lemma_after_visit(
    d: DocumentView,
    x: PropRefView,
    found_0: Seq<PropRefView>,
    queue_0: Seq<PropRefView>,
    found_2: Seq<PropRefView>,
    queue_2: Seq<PropRefView>,
    readers: Seq<PropRefView>,
)
    requires
        queue_0.len() > 0,
        queue_0.last() == x,
        found_0.len() <= found_2.len(),
        queue_0.len() - 1 <= queue_2.len(),
        found_2.subrange(0, found_0.len() as int) == found_0,
        queue_2.subrange(0, queue_0.len() - 1) == queue_0.drop_last(),
        found_2.len() - found_0.len() == queue_2.len() - (queue_0.len() - 1),
        forall|j: int|
            queue_0.len() - 1 <= j < queue_2.len() ==> #[trigger] queue_2[j] == found_2[found_0.len() + (j - (
            queue_0.len() - 1))],
        forall|j: int| 0 <= j < queue_0.len() ==> found_0.contains(#[trigger] queue_0[j]),
        forall|a: PropRefView, b: PropRefView|
            found_0.contains(a) && !queue_0.contains(a) && #[trigger] reads(d, a, b) ==> found_0.contains(b),
        match d.dependants(x.entity_id, x.property_key) {
            Ok(all) => all == readers,
            Err(_) => readers.len() == 0,
        },
        forall|j: int| 0 <= j < readers.len() ==> found_2.contains(#[trigger] readers[j]),
    ensures
        forall|j: int| 0 <= j < queue_2.len() ==> found_2.contains(#[trigger] queue_2[j]),
        forall|a: PropRefView, b: PropRefView|
            found_2.contains(a) && !queue_2.contains(a) && #[trigger] reads(d, a, b) ==> found_2.contains(b),
{
    assert forall|p: PropRefView| found_0.contains(p) implies found_2.contains(p) by {
        let at = choose|at: int| 0 <= at < found_0.len() && found_0[at] == p;
        assert(found_2.subrange(0, found_0.len() as int)[at] == found_2[at]);
    }
    assert forall|j: int| 0 <= j < queue_2.len() implies found_2.contains(#[trigger] queue_2[j]) by {
        if j < queue_0.len() - 1 {
            assert(queue_2.subrange(0, queue_0.len() - 1)[j] == queue_2[j]);
            assert(queue_0.drop_last()[j] == queue_0[j]);
            assert(found_0.contains(queue_0[j]));
        } else {
            assert(found_2[found_0.len() + (j - (queue_0.len() - 1))] == queue_2[j]);
        }
    }
    assert forall|a: PropRefView, b: PropRefView|
        found_2.contains(a) && !queue_2.contains(a) && #[trigger] reads(d, a, b) implies found_2.contains(b) by {
        let at = choose|at: int| 0 <= at < found_2.len() && found_2[at] == a;
        if at >= found_0.len() {
            // a was found in this visit: it waits
            let j = (queue_0.len() - 1) + (at - found_0.len());
            assert(queue_2[j] == found_2[at]);
            assert(queue_2.contains(a));
        } else {
            assert(found_2.subrange(0, found_0.len() as int)[at] == found_2[at]);
            assert(found_0.contains(a));
            if a == x {
                let j = choose|j: int| 0 <= j < readers.len() && readers[j] == b;
                assert(found_2.contains(readers[j]));
            } else {
                if queue_0.contains(a) {
                    let j = choose|j: int| 0 <= j < queue_0.len() && queue_0[j] == a;
                    assert(j < queue_0.len() - 1);
                    assert(queue_0.drop_last()[j] == queue_0[j]);
                    assert(queue_2.subrange(0, queue_0.len() - 1)[j] == queue_2[j]);
                    assert(queue_2.contains(a));
                }
                assert(found_0.contains(b));
            }
        }
    }
}

} // verus!
