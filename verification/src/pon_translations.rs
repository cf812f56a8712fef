//! Reading typed values out of a `Pon`: the errors, the context, and the conversions.

use vstd::prelude::*;
use crate::decimal::Decimal;
use crate::document::Document;
use crate::pon::lemma_array_view;
use crate::pon::lemma_object_view;
use crate::pon::object_get;
use crate::pon::Field;
use crate::pon::NamedPropRef;
use crate::pon::NamedPropRefView;
use crate::pon::Pon;
use crate::pon::PonObject;
use crate::pon::PonView;
use crate::pon::ResolvedDependency;
use crate::pon::ResolvedView;
use crate::pon::TypedPon;
use crate::render::pon_text;

verus! {

/// Why a value could not be read as what was asked for.
#[derive(PartialEq, Eq, Debug)]
pub enum PonTranslateErr {
    /// The value is of another kind than the one asked for. `found` is the text of the
    /// value.
    MismatchType { expected: String, found: String },
    NoSuchField { field: String },
    InvalidValue { value: String },
    UnrecognizedType(String),
    /// A live reference leads to a property that holds no expression.
    ReferenceToNonExistentProperty(NamedPropRef),
    /// Reading `in_pon` as a `trying_to_translate_to` failed with `error`.
    InnerError { in_pon: Pon, error: Box<PonTranslateErr>, trying_to_translate_to: String },
    Generic(String),
}

pub ghost enum PonTranslateErrView {
    MismatchType { expected: Seq<char>, found: Seq<char> },
    NoSuchField { field: Seq<char> },
    InvalidValue { value: Seq<char> },
    UnrecognizedType(Seq<char>),
    ReferenceToNonExistentProperty(NamedPropRefView),
    InnerError { in_pon: PonView, error: Box<PonTranslateErrView>, trying_to_translate_to: Seq<char> },
    Generic(Seq<char>),
}

impl PonTranslateErr {
    pub open spec fn model(&self) -> PonTranslateErrView
        decreases self,
    {
        match self {
            PonTranslateErr::MismatchType { expected, found } => PonTranslateErrView::MismatchType {
                expected: expected@,
                found: found@,
            },
            PonTranslateErr::NoSuchField { field } => PonTranslateErrView::NoSuchField { field: field@ },
            PonTranslateErr::InvalidValue { value } => PonTranslateErrView::InvalidValue { value: value@ },
            PonTranslateErr::UnrecognizedType(name) => PonTranslateErrView::UnrecognizedType(name@),
            PonTranslateErr::ReferenceToNonExistentProperty(reference) => PonTranslateErrView::ReferenceToNonExistentProperty(reference@),
            PonTranslateErr::InnerError { in_pon, error, trying_to_translate_to } => PonTranslateErrView::InnerError {
                in_pon: in_pon@,
                error: Box::new(error.model()),
                trying_to_translate_to: trying_to_translate_to@,
            },
            PonTranslateErr::Generic(message) => PonTranslateErrView::Generic(message@),
        }
    }
}

impl View for PonTranslateErr {
    type V = PonTranslateErrView;

    open spec fn view(&self) -> PonTranslateErrView {
        self.model()
    }
}

impl Clone for PonTranslateErr {
    fn clone(&self) -> (r: Self)
        ensures
            r@ == self@,
        decreases self,
    {
        match self {
            PonTranslateErr::MismatchType { expected, found } => PonTranslateErr::MismatchType {
                expected: expected.clone(),
                found: found.clone(),
            },
            PonTranslateErr::NoSuchField { field } => PonTranslateErr::NoSuchField { field: field.clone() },
            PonTranslateErr::InvalidValue { value } => PonTranslateErr::InvalidValue { value: value.clone() },
            PonTranslateErr::UnrecognizedType(name) => PonTranslateErr::UnrecognizedType(name.clone()),
            PonTranslateErr::ReferenceToNonExistentProperty(reference) => PonTranslateErr::ReferenceToNonExistentProperty(reference.clone()),
            PonTranslateErr::InnerError { in_pon, error, trying_to_translate_to } => {
                let inner: &PonTranslateErr = &**error;
                PonTranslateErr::InnerError {
                    in_pon: in_pon.clone(),
                    error: Box::new(inner.clone()),
                    trying_to_translate_to: trying_to_translate_to.clone(),
                }
            },
            PonTranslateErr::Generic(message) => PonTranslateErr::Generic(message.clone()),
        }
    }
}


impl View for Decimal {
    type V = Decimal;

    open spec fn view(&self) -> Decimal {
        *self
    }
}

/// What a conversion may look at besides the value itself: the document whose table of
/// values live references lead into, and how many live references may still be followed
/// on the way to a value.
pub struct TranslateContext<'a> {
    pub document: Option<&'a Document>,
    pub budget: usize,
}

impl<'a> TranslateContext<'a> {
    /// The table of values that live references lead into.
    pub open spec fn cells(&self) -> Seq<Option<PonView>> {
        match self.document {
            Some(document) => document@.cells,
            None => Seq::empty(),
        }
    }

    /// The context without a document: every live reference leads nowhere.
    pub fn empty() -> (r: TranslateContext<'a>)
        ensures
            r.document is None,
            r.budget == 0,
    {
        TranslateContext { document: None, budget: 0 }
    }

    /// The context of `document`. A chain of live references that is longer than the
    /// table of values returns to a slot it has left: so many may be followed.
    pub fn from_doc(document: &'a Document) -> (r: TranslateContext<'a>)
        ensures
            r.document == Some(document),
            r.budget == document@.cells.len(),
    {
        TranslateContext { document: Some(document), budget: document.cells.len() }
    }

    /// This context with one live reference less to follow.
    pub fn deeper(&self) -> (r: TranslateContext<'a>)
        requires
            self.budget > 0,
        ensures
            r.document == self.document,
            r.budget == self.budget - 1,
    {
        TranslateContext { document: self.document, budget: self.budget - 1 }
    }

    /// What the slot that a live reference was bound to holds.
    pub fn target(&self, bound: &Option<ResolvedDependency>) -> (r: Option<&'a Pon>)
        ensures
            match r {
                Some(pon) => target_of(pon_bound(*bound), self.cells()) == Some(pon@),
                None => target_of(pon_bound(*bound), self.cells()) is None,
            },
    {
        match bound {
            Some(resolved) => match self.document {
                Some(document) => {
                    if resolved.cell < document.cells.len() {
                        match &document.cells[resolved.cell] {
                            Some(pon) => Some(pon),
                            None => None,
                        }
                    } else {
                        None
                    }
                },
                None => None,
            },
            None => None,
        }
    }
}

/// The view of what a live reference was bound to.
pub open spec fn pon_bound(bound: Option<ResolvedDependency>) -> Option<ResolvedView> {
    match bound {
        Some(resolved) => Some(resolved@),
        None => None,
    }
}

/// What a live reference reads: the content of the slot it was bound to. An unbound
/// reference, a slot outside the table and an empty slot read nothing.
pub open spec fn target_of(bound: Option<ResolvedView>, cells: Seq<Option<PonView>>) -> Option<PonView> {
    match bound {
        Some(resolved) => if resolved.cell < cells.len() {
            cells[resolved.cell as int]
        } else {
            None
        },
        None => None,
    }
}

/// The error for a chain of live references that is longer than the budget.
pub open spec fn too_deep() -> PonTranslateErrView {
    PonTranslateErrView::Generic("live references lead in a circle"@)
}

/// The error for a value of another kind than `expected`.
pub open spec fn mismatch(expected: Seq<char>, found: PonView) -> PonTranslateErrView {
    PonTranslateErrView::MismatchType { expected, found: pon_text(found) }
}

/// The value at the end of the chain of live references that starts at `pon`, and the
/// budget that is left there.
pub open spec fn resolved(pon: PonView, cells: Seq<Option<PonView>>, budget: nat) -> Result<
    (PonView, nat),
    PonTranslateErrView,
>
    decreases budget,
{
    match pon {
        PonView::DependencyReference(path, bound) => match target_of(bound, cells) {
            Some(value) => if budget == 0 {
                Err(too_deep())
            } else {
                resolved(value, cells, (budget - 1) as nat)
            },
            None => Err(PonTranslateErrView::ReferenceToNonExistentProperty(path)),
        },
        _ => Ok((pon, budget)),
    }
}

/// `pon` with the current value in place of every live reference.
pub open spec fn concretized(pon: PonView, cells: Seq<Option<PonView>>, budget: nat) -> Result<
    PonView,
    PonTranslateErrView,
>
    decreases budget, pon,
{
    match pon {
        PonView::DependencyReference(path, bound) => match target_of(bound, cells) {
            Some(value) => if budget == 0 {
                Err(too_deep())
            } else {
                concretized(value, cells, (budget - 1) as nat)
            },
            None => Err(PonTranslateErrView::ReferenceToNonExistentProperty(path)),
        },
        PonView::Typed { name, data } => match concretized(*data, cells, budget) {
            Ok(value) => Ok(PonView::Typed { name, data: Box::new(value) }),
            Err(e) => Err(e),
        },
        PonView::Array(items) => match concretized_items(items, cells, budget) {
            Ok(values) => Ok(PonView::Array(values)),
            Err(e) => Err(e),
        },
        PonView::Object(fields) => match concretized_fields(fields, cells, budget) {
            Ok(values) => Ok(PonView::Object(values)),
            Err(e) => Err(e),
        },
        _ => Ok(pon),
    }
}

/// The items `items`, each concretized; the first error where there is one.
pub open spec fn concretized_items(items: Seq<PonView>, cells: Seq<Option<PonView>>, budget: nat) -> Result<
    Seq<PonView>,
    PonTranslateErrView,
>
    decreases budget, items,
{
    if items.len() == 0 {
        Ok(Seq::empty())
    } else {
        match concretized_items(items.drop_last(), cells, budget) {
            Ok(values) => match concretized(items.last(), cells, budget) {
                Ok(value) => Ok(values.push(value)),
                Err(e) => Err(e),
            },
            Err(e) => Err(e),
        }
    }
}

/// The fields `fields`, each with its value concretized; the first error where there
/// is one.
pub open spec fn concretized_fields(
    fields: Seq<(Seq<char>, PonView)>,
    cells: Seq<Option<PonView>>,
    budget: nat,
) -> Result<Seq<(Seq<char>, PonView)>, PonTranslateErrView>
    decreases budget, fields,
{
    if fields.len() == 0 {
        Ok(Seq::empty())
    } else {
        match concretized_fields(fields.drop_last(), cells, budget) {
            Ok(values) => match concretized(fields.last().1, cells, budget) {
                Ok(value) => Ok(values.push((fields.last().0, value))),
                Err(e) => Err(e),
            },
            Err(e) => Err(e),
        }
    }
}

/// The view of the outcome of a conversion.
pub open spec fn outcome_view<T: View>(r: Result<T, PonTranslateErr>) -> Result<T::V, PonTranslateErrView> {
    match r {
        Ok(value) => Ok(value@),
        Err(e) => Err(e@),
    }
}

/// A kind of value that can be read out of a `Pon`. The library reads numbers, texts,
/// truth values and lists of them; a consumer adds kinds of its own.
pub trait Translatable<T: View>: View<V = PonView> {
    /// The name of the kind, for error messages.
    spec fn target_name() -> Seq<char>;

    /// What `pon`, which is no live reference, reads as.
    spec fn inner_translated(pon: PonView, cells: Seq<Option<PonView>>, budget: nat) -> Result<
        T::V,
        PonTranslateErrView,
    >;

    fn target_label() -> (s: String)
        ensures
            s@ == Self::target_name(),
    ;

    fn inner_translate(&self, context: &TranslateContext) -> (r: Result<T, PonTranslateErr>)
        ensures
            outcome_view(r) == Self::inner_translated(self@, context.cells(), context.budget as nat),
    ;
}

/// What `pon` reads as: live references are followed to the value they lead to, and
/// an error of reading that value is wrapped with the value and the kind asked for.
pub open spec fn translated<T: View>(pon: PonView, cells: Seq<Option<PonView>>, budget: nat) -> Result<
    T::V,
    PonTranslateErrView,
> where Pon: Translatable<T> {
    match resolved(pon, cells, budget) {
        Ok((value, left)) => match <Pon as Translatable<T>>::inner_translated(value, cells, left) {
            Ok(x) => Ok(x),
            Err(e) => Err(
                PonTranslateErrView::InnerError {
                    in_pon: value,
                    error: Box::new(e),
                    trying_to_translate_to: <Pon as Translatable<T>>::target_name(),
                },
            ),
        },
        Err(e) => Err(e),
    }
}

/// The items `items`, each read as a `T`; the first error where there is one.
pub open spec fn translated_items<T: View>(items: Seq<PonView>, cells: Seq<Option<PonView>>, budget: nat) -> Result<
    Seq<T::V>,
    PonTranslateErrView,
> where Pon: Translatable<T>
    decreases items.len(),
{
    if items.len() == 0 {
        Ok(Seq::empty())
    } else {
        match translated_items::<T>(items.drop_last(), cells, budget) {
            Ok(values) => match translated::<T>(items.last(), cells, budget) {
                Ok(value) => Ok(values.push(value)),
                Err(e) => Err(e),
            },
            Err(e) => Err(e),
        }
    }
}

/// The field `field` of the object `pon`.
pub open spec fn field_of(pon: PonView, field: Seq<char>) -> Result<PonView, PonTranslateErrView> {
    match pon {
        PonView::Object(fields) => match object_get(fields, field) {
            Some(value) => Ok(value),
            None => Err(PonTranslateErrView::NoSuchField { field }),
        },
        _ => Err(mismatch("Object"@, pon)),
    }
}

/// The error for the value `pon`, which is of another kind than `expected`.
pub fn mismatch_error(expected: &str, pon: &Pon) -> (e: PonTranslateErr)
    ensures
        e@ == mismatch(expected@, pon@),
{
    PonTranslateErr::MismatchType { expected: expected.to_owned(), found: pon.to_string() }
}

impl Pon {
    /// Follows the chain of live references that starts at this value to the value at
    /// its end, and gives the context at that place.
    pub fn resolve<'a>(&'a self, context: &TranslateContext<'a>) -> (r: Result<
        (&'a Pon, TranslateContext<'a>),
        PonTranslateErr,
    >)
        ensures
            match r {
                Ok((pon, inner)) => resolved(self@, context.cells(), context.budget as nat) == Ok::<
                    (PonView, nat),
                    PonTranslateErrView,
                >((pon@, inner.budget as nat)) && inner.document == context.document && !(pon@ is DependencyReference),
                Err(e) => resolved(self@, context.cells(), context.budget as nat) == Err::<
                    (PonView, nat),
                    PonTranslateErrView,
                >(e@),
            },
    {
        let mut current: &'a Pon = self;
        let mut budget: usize = context.budget;
        loop
            invariant
                resolved(self@, context.cells(), context.budget as nat) == resolved(
                    current@,
                    context.cells(),
                    budget as nat,
                ),
            decreases budget,
        {
            match current {
                Pon::DependencyReference(path, bound) => {
                    match context.target(bound) {
                        Some(value) => {
                            if budget == 0 {
                                return Err(PonTranslateErr::Generic("live references lead in a circle".to_owned()));
                            }
                            budget = budget - 1;
                            current = value;
                        },
                        None => {
                            return Err(PonTranslateErr::ReferenceToNonExistentProperty(path.clone()));
                        },
                    }
                },
                _ => {
                    return Ok((current, TranslateContext { document: context.document, budget }));
                },
            }
        }
    }

    /// Reads the value as a `T`.
    pub fn translate<T: View>(&self, context: &TranslateContext) -> (r: Result<T, PonTranslateErr>) where
        Pon: Translatable<T>,

        ensures
            outcome_view(r) == translated::<T>(self@, context.cells(), context.budget as nat),
    {
        match self.resolve(context) {
            Ok((value, inner)) => match value.inner_translate(&inner) {
                Ok(x) => Ok(x),
                Err(e) => Err(
                    PonTranslateErr::InnerError {
                        in_pon: value.clone(),
                        error: Box::new(e),
                        trying_to_translate_to: <Pon as Translatable<T>>::target_label(),
                    },
                ),
            },
            Err(e) => Err(e),
        }
    }

    /// The field `field` of the object.
    pub fn field(&self, field: &str) -> (r: Result<&Pon, PonTranslateErr>)
        ensures
            match r {
                Ok(value) => field_of(self@, field@) == Ok::<PonView, PonTranslateErrView>(value@),
                Err(e) => field_of(self@, field@) == Err::<PonView, PonTranslateErrView>(e@),
            },
    {
        match self {
            Pon::Object(object) => {
                proof {
                    lemma_object_view(*object);
                }
                match object.get(field) {
                    Some(value) => Ok(value),
                    None => Err(PonTranslateErr::NoSuchField { field: field.to_owned() }),
                }
            },
            _ => Err(mismatch_error("Object", self)),
        }
    }

    /// The field `field` of the object, read as a `T`.
    pub fn field_as<T: View>(&self, field: &str, context: &TranslateContext) -> (r: Result<T, PonTranslateErr>) where
        Pon: Translatable<T>,

        ensures
            outcome_view(r) == (match field_of(self@, field@) {
                Ok(value) => translated::<T>(value, context.cells(), context.budget as nat),
                Err(e) => Err(e),
            }),
    {
        match self.field(field) {
            Ok(value) => value.translate(context),
            Err(e) => Err(e),
        }
    }

    /// The field `field` of the object, read as a `T`; `or` where the object has no
    /// such field.
    pub fn field_as_or<T: View>(&self, field: &str, or: T, context: &TranslateContext) -> (r: Result<
        T,
        PonTranslateErr,
    >) where Pon: Translatable<T>
        ensures
            outcome_view(r) == (match field_of(self@, field@) {
                Ok(value) => translated::<T>(value, context.cells(), context.budget as nat),
                Err(PonTranslateErrView::NoSuchField { .. }) => Ok(or@),
                Err(e) => Err(e),
            }),
    {
        match self.field(field) {
            Ok(value) => value.translate(context),
            Err(PonTranslateErr::NoSuchField { .. }) => Ok(or),
            Err(e) => Err(e),
        }
    }

    /// A copy of the value with the current value in place of every live reference.
    #[verifier::loop_isolation(false)]
    pub fn concretize(&self, context: &TranslateContext) -> (r: Result<Pon, PonTranslateErr>)
        ensures
            match r {
                Ok(pon) => concretized(self@, context.cells(), context.budget as nat) == Ok::<
                    PonView,
                    PonTranslateErrView,
                >(pon@),
                Err(e) => concretized(self@, context.cells(), context.budget as nat) == Err::<
                    PonView,
                    PonTranslateErrView,
                >(e@),
            },
        decreases context.budget, self,
    {
        match self {
            Pon::DependencyReference(path, bound) => match context.target(bound) {
                Some(value) => {
                    if context.budget == 0 {
                        Err(PonTranslateErr::Generic("live references lead in a circle".to_owned()))
                    } else {
                        let inner = context.deeper();
                        value.concretize(&inner)
                    }
                },
                None => Err(PonTranslateErr::ReferenceToNonExistentProperty(path.clone())),
            },
            Pon::TypedPon(typed) => match typed.data.concretize(context) {
                Ok(data) => Ok(Pon::TypedPon(Box::new(TypedPon { name: typed.name.clone(), data }))),
                Err(e) => Err(e),
            },
            Pon::Array(items) => {
                let ghost views = self@->Array_0;
                let mut out: Vec<Pon> = Vec::new();
                let mut i: usize = 0;
                assert(views.subrange(0, 0) =~= Seq::<PonView>::empty());
                assert(crate::pon::pon_views(out@) =~= Seq::<PonView>::empty());
                while i < items.len()
                    invariant
                        i <= items.len(),
                        out.len() == i,
                        concretized_items(views.subrange(0, i as int), context.cells(), context.budget as nat) == Ok::<
                            Seq<PonView>,
                            PonTranslateErrView,
                        >(crate::pon::pon_views(out@)),
                    decreases items.len() - i,
                {
                    let ghost head = views.subrange(0, i + 1);
                    assert(head.drop_last() =~= views.subrange(0, i as int));
                    assert(head.last() == items[i as int]@);
                    match items[i].concretize(context) {
                        Ok(value) => {
                            let ghost before = crate::pon::pon_views(out@);
                            out.push(value);
                            assert(crate::pon::pon_views(out@) =~= before.push(value@));
                        },
                        Err(e) => {
                            proof {
                                lemma_concretized_items_error(views, i as int, context.cells(), context.budget as nat);
                            }
                            return Err(e);
                        },
                    }
                    i += 1;
                }
                assert(views.subrange(0, items.len() as int) =~= views);
                proof {
                    lemma_array_view(out);
                }
                Ok(Pon::Array(out))
            },
            Pon::Object(object) => {
                proof {
                    lemma_object_view(*object);
                    use_type_invariant(object);
                }
                let ghost views = object@;
                let mut out: Vec<Field> = Vec::new();
                let mut i: usize = 0;
                assert(views.subrange(0, 0) =~= Seq::<(Seq<char>, PonView)>::empty());
                assert(crate::pon::field_views(out@) =~= Seq::<(Seq<char>, PonView)>::empty());
                while i < object.fields.len()
                    invariant
                        i <= object.fields.len(),
                        out.len() == i,
                        forall|j: int| 0 <= j < i ==> (#[trigger] out[j]).key@ == views[j].0,
                        concretized_fields(views.subrange(0, i as int), context.cells(), context.budget as nat) == Ok::<
                            Seq<(Seq<char>, PonView)>,
                            PonTranslateErrView,
                        >(crate::pon::field_views(out@)),
                    decreases object.fields.len() - i,
                {
                    let ghost head = views.subrange(0, i + 1);
                    assert(head.drop_last() =~= views.subrange(0, i as int));
                    assert(head.last() == object.fields[i as int]@);
                    match object.fields[i].value.concretize(context) {
                        Ok(value) => {
                            let ghost before = crate::pon::field_views(out@);
                            let field = Field { key: object.fields[i].key.clone(), value };
                            out.push(field);
                            assert(crate::pon::field_views(out@) =~= before.push((views[i as int].0, value@)));
                        },
                        Err(e) => {
                            proof {
                                lemma_concretized_fields_error(views, i as int, context.cells(), context.budget as nat);
                            }
                            return Err(e);
                        },
                    }
                    i += 1;
                }
                assert(views.subrange(0, object.fields.len() as int) =~= views);
                assert(crate::pon::keys_sorted(crate::pon::field_views(out@))) by {
                    assert forall|a: int, b: int| 0 <= a < b < out.len() implies crate::text::text_lt(
                        #[trigger] crate::pon::field_views(out@)[a].0,
                        #[trigger] crate::pon::field_views(out@)[b].0,
                    ) by {
                        assert(out[a].key@ == views[a].0);
                        assert(out[b].key@ == views[b].0);
                    }
                }
                let copy = PonObject { fields: out };
                proof {
                    lemma_object_view(copy);
                }
                Ok(Pon::Object(copy))
            },
            _ => Ok(self.clone()),
        }
    }

    /// Hands the value at the end of the chain of live references that starts at this
    /// value to `func`.
    pub fn as_resolved<'a, T, F: FnOnce(&Pon) -> Result<T, PonTranslateErr>>(
        &'a self,
        context: &TranslateContext<'a>,
        func: F,
    ) -> (r: Result<T, PonTranslateErr>)
        requires
            forall|pon: &Pon| call_requires(func, (pon,)),
        ensures
            match resolved(self@, context.cells(), context.budget as nat) {
                Ok((value, _)) => exists|pon: &Pon| pon@ == value && call_ensures(func, (pon,), r),
                Err(e) => r matches Err(x) && x@ == e,
            },
    {
        match self.resolve(context) {
            Ok((pon, _)) => func(pon),
            Err(e) => Err(e),
        }
    }

    /// Hands the typed value at the end of the chain to `func`.
    pub fn as_typed<'a, T, F: FnOnce(&TypedPon) -> Result<T, PonTranslateErr>>(
        &'a self,
        context: &TranslateContext<'a>,
        func: F,
    ) -> (r: Result<T, PonTranslateErr>)
        requires
            forall|typed: &TypedPon| call_requires(func, (typed,)),
        ensures
            match resolved(self@, context.cells(), context.budget as nat) {
                Ok((value, _)) => match value {
                    PonView::Typed { name, data } => exists|typed: &TypedPon|
                        typed.name@ == name && typed.data@ == *data && call_ensures(func, (typed,), r),
                    _ => r matches Err(x) && x@ == mismatch("TypedPon"@, value),
                },
                Err(e) => r matches Err(x) && x@ == e,
            },
    {
        match self.resolve(context) {
            Ok((pon, _)) => match pon {
                Pon::TypedPon(typed) => {
                    let t: &TypedPon = &**typed;
                    func(t)
                },
                _ => Err(mismatch_error("TypedPon", pon)),
            },
            Err(e) => Err(e),
        }
    }

    /// Hands the items of the array at the end of the chain to `func`.
    pub fn as_array<'a, T, F: FnOnce(&Vec<Pon>) -> Result<T, PonTranslateErr>>(
        &'a self,
        context: &TranslateContext<'a>,
        func: F,
    ) -> (r: Result<T, PonTranslateErr>)
        requires
            forall|items: &Vec<Pon>| call_requires(func, (items,)),
        ensures
            match resolved(self@, context.cells(), context.budget as nat) {
                Ok((value, _)) => match value {
                    PonView::Array(views) => exists|items: &Vec<Pon>|
                        crate::pon::pon_views(items@) == views && call_ensures(func, (items,), r),
                    _ => r matches Err(x) && x@ == mismatch("Array"@, value),
                },
                Err(e) => r matches Err(x) && x@ == e,
            },
    {
        match self.resolve(context) {
            Ok((pon, _)) => match pon {
                Pon::Array(items) => {
                    proof {
                        lemma_array_view(*items);
                    }
                    func(items)
                },
                _ => Err(mismatch_error("Array", pon)),
            },
            Err(e) => Err(e),
        }
    }

    /// Hands the fields of the object at the end of the chain to `func`.
    pub fn as_object<'a, T, F: FnOnce(&PonObject) -> Result<T, PonTranslateErr>>(
        &'a self,
        context: &TranslateContext<'a>,
        func: F,
    ) -> (r: Result<T, PonTranslateErr>)
        requires
            forall|object: &PonObject| call_requires(func, (object,)),
        ensures
            match resolved(self@, context.cells(), context.budget as nat) {
                Ok((value, _)) => match value {
                    PonView::Object(fields) => exists|object: &PonObject|
                        object@ == fields && call_ensures(func, (object,), r),
                    _ => r matches Err(x) && x@ == mismatch("Object"@, value),
                },
                Err(e) => r matches Err(x) && x@ == e,
            },
    {
        match self.resolve(context) {
            Ok((pon, _)) => match pon {
                Pon::Object(object) => {
                    proof {
                        lemma_object_view(*object);
                    }
                    func(object)
                },
                _ => Err(mismatch_error("Object", pon)),
            },
            Err(e) => Err(e),
        }
    }

    /// The reference that the value is.
    pub fn as_reference(&self) -> (r: Result<&NamedPropRef, PonTranslateErr>)
        ensures
            match r {
                Ok(reference) => self@ == PonView::Reference(reference@),
                Err(e) => !(self@ is Reference) && e@ == mismatch("Reference"@, self@),
            },
    {
        match self {
            Pon::Reference(reference) => Ok(reference),
            _ => Err(mismatch_error("Reference", self)),
        }
    }
}

/// Where an item cannot be concretized and all before it can, the list fails with the
/// error of that item.
pub proof fn lemma_concretized_items_error(items: Seq<PonView>, at: int, cells: Seq<Option<PonView>>, budget: nat)
    requires
        0 <= at < items.len(),
        concretized_items(items.subrange(0, at), cells, budget) is Ok,
        concretized(items[at], cells, budget) is Err,
    ensures
        concretized_items(items, cells, budget) == Err::<Seq<PonView>, PonTranslateErrView>(
            concretized(items[at], cells, budget)->Err_0,
        ),
    decreases items.len(),
{
    if at == items.len() - 1 {
        assert(items.drop_last() =~= items.subrange(0, at));
    } else {
        assert(items.drop_last().subrange(0, at) =~= items.subrange(0, at));
        lemma_concretized_items_error(items.drop_last(), at, cells, budget);
    }
}

/// Where the value of a field cannot be concretized and all before it can, the fields
/// fail with the error of that value.
pub proof fn lemma_concretized_fields_error(
    fields: Seq<(Seq<char>, PonView)>,
    at: int,
    cells: Seq<Option<PonView>>,
    budget: nat,
)
    requires
        0 <= at < fields.len(),
        concretized_fields(fields.subrange(0, at), cells, budget) is Ok,
        concretized(fields[at].1, cells, budget) is Err,
    ensures
        concretized_fields(fields, cells, budget) == Err::<Seq<(Seq<char>, PonView)>, PonTranslateErrView>(
            concretized(fields[at].1, cells, budget)->Err_0,
        ),
    decreases fields.len(),
{
    if at == fields.len() - 1 {
        assert(fields.drop_last() =~= fields.subrange(0, at));
    } else {
        assert(fields.drop_last().subrange(0, at) =~= fields.subrange(0, at));
        lemma_concretized_fields_error(fields.drop_last(), at, cells, budget);
    }
}


/// Where an item cannot be read and all before it can, the list fails with the error
/// of that item.
pub proof fn lemma_translated_items_error<T: View>(
    items: Seq<PonView>,
    at: int,
    cells: Seq<Option<PonView>>,
    budget: nat,
) where Pon: Translatable<T>
    requires
        0 <= at < items.len(),
        translated_items::<T>(items.subrange(0, at), cells, budget) is Ok,
        translated::<T>(items[at], cells, budget) is Err,
    ensures
        translated_items::<T>(items, cells, budget) == Err::<Seq<T::V>, PonTranslateErrView>(
            translated::<T>(items[at], cells, budget)->Err_0,
        ),
    decreases items.len(),
{
    if at == items.len() - 1 {
        assert(items.drop_last() =~= items.subrange(0, at));
    } else {
        assert(items.drop_last().subrange(0, at) =~= items.subrange(0, at));
        lemma_translated_items_error::<T>(items.drop_last(), at, cells, budget);
    }
}

/// The views of a list of values of kind `T`.
pub open spec fn value_views<T: View>(values: Seq<T>) -> Seq<T::V> {
    Seq::new(values.len(), |i: int| values[i]@)
}

/// Reads every item of `items` as a `T`, in order, and stops at the first that fails.
pub fn translate_items<T: View>(items: &Vec<Pon>, context: &TranslateContext) -> (r: Result<
    Vec<T>,
    PonTranslateErr,
>) where Pon: Translatable<T>
    ensures
        match r {
            Ok(values) => translated_items::<T>(
                crate::pon::pon_views(items@),
                context.cells(),
                context.budget as nat,
            ) == Ok::<Seq<T::V>, PonTranslateErrView>(value_views(values@)),
            Err(e) => translated_items::<T>(
                crate::pon::pon_views(items@),
                context.cells(),
                context.budget as nat,
            ) == Err::<Seq<T::V>, PonTranslateErrView>(e@),
        },
{
    let ghost views = crate::pon::pon_views(items@);
    let mut out: Vec<T> = Vec::new();
    let mut i: usize = 0;
    assert(views.subrange(0, 0) =~= Seq::<PonView>::empty());
    assert(value_views(out@) =~= Seq::<T::V>::empty());
    while i < items.len()
        invariant
            i <= items.len(),
            out.len() == i,
            views == crate::pon::pon_views(items@),
            translated_items::<T>(views.subrange(0, i as int), context.cells(), context.budget as nat) == Ok::<
                Seq<T::V>,
                PonTranslateErrView,
            >(value_views(out@)),
        decreases items.len() - i,
    {
        let ghost head = views.subrange(0, i + 1);
        assert(head.drop_last() =~= views.subrange(0, i as int));
        assert(head.last() == items[i as int]@);
        match items[i].translate::<T>(context) {
            Ok(value) => {
                let ghost before = value_views(out@);
                let ghost v = value@;
                out.push(value);
                assert(value_views(out@) =~= before.push(v));
            },
            Err(e) => {
                proof {
                    lemma_translated_items_error::<T>(views, i as int, context.cells(), context.budget as nat);
                }
                return Err(e);
            },
        }
        i += 1;
    }
    assert(views.subrange(0, items.len() as int) =~= views);
    Ok(out)
}

impl Translatable<Decimal> for Pon {
    open spec fn target_name() -> Seq<char> {
        "Float"@
    }

    /// A number reads as itself, and an integer as the number of the same value.
    open spec fn inner_translated(pon: PonView, cells: Seq<Option<PonView>>, budget: nat) -> Result<
        Decimal,
        PonTranslateErrView,
    > {
        match pon {
            PonView::Float(x) => Ok(x),
            PonView::Integer(x) => Ok(Decimal::whole(x)),
            _ => Err(mismatch("Float"@, pon)),
        }
    }

    fn target_label() -> (s: String) {
        "Float".to_owned()
    }

    fn inner_translate(&self, context: &TranslateContext) -> (r: Result<Decimal, PonTranslateErr>) {
        match self {
            Pon::Float(x) => Ok(*x),
            Pon::Integer(x) => Ok(Decimal::from_integer(*x)),
            _ => Err(mismatch_error("Float", self)),
        }
    }
}

impl Translatable<i64> for Pon {
    open spec fn target_name() -> Seq<char> {
        "Integer"@
    }

    open spec fn inner_translated(pon: PonView, cells: Seq<Option<PonView>>, budget: nat) -> Result<
        i64,
        PonTranslateErrView,
    > {
        match pon {
            PonView::Integer(x) => Ok(x),
            _ => Err(mismatch("Integer"@, pon)),
        }
    }

    fn target_label() -> (s: String) {
        "Integer".to_owned()
    }

    fn inner_translate(&self, context: &TranslateContext) -> (r: Result<i64, PonTranslateErr>) {
        match self {
            Pon::Integer(x) => Ok(*x),
            _ => Err(mismatch_error("Integer", self)),
        }
    }
}

impl Translatable<String> for Pon {
    open spec fn target_name() -> Seq<char> {
        "String"@
    }

    open spec fn inner_translated(pon: PonView, cells: Seq<Option<PonView>>, budget: nat) -> Result<
        Seq<char>,
        PonTranslateErrView,
    > {
        match pon {
            PonView::String(s) => Ok(s),
            _ => Err(mismatch("String"@, pon)),
        }
    }

    fn target_label() -> (s: String) {
        "String".to_owned()
    }

    fn inner_translate(&self, context: &TranslateContext) -> (r: Result<String, PonTranslateErr>) {
        match self {
            Pon::String(s) => Ok(s.clone()),
            _ => Err(mismatch_error("String", self)),
        }
    }
}

impl Translatable<bool> for Pon {
    open spec fn target_name() -> Seq<char> {
        "Boolean"@
    }

    open spec fn inner_translated(pon: PonView, cells: Seq<Option<PonView>>, budget: nat) -> Result<
        bool,
        PonTranslateErrView,
    > {
        match pon {
            PonView::Boolean(b) => Ok(b),
            _ => Err(mismatch("Boolean"@, pon)),
        }
    }

    fn target_label() -> (s: String) {
        "Boolean".to_owned()
    }

    fn inner_translate(&self, context: &TranslateContext) -> (r: Result<bool, PonTranslateErr>) {
        match self {
            Pon::Boolean(b) => Ok(*b),
            _ => Err(mismatch_error("Boolean", self)),
        }
    }
}

impl Translatable<Vec<Decimal>> for Pon {
    open spec fn target_name() -> Seq<char> {
        "FloatArray"@
    }

    /// An array reads item by item, and a list of numbers as it stands.
    open spec fn inner_translated(pon: PonView, cells: Seq<Option<PonView>>, budget: nat) -> Result<
        Seq<Decimal>,
        PonTranslateErrView,
    > {
        match pon {
            PonView::Array(items) => translated_items::<Decimal>(items, cells, budget),
            PonView::FloatArray(values) => Ok(values),
            _ => Err(mismatch("Array or FloatArray"@, pon)),
        }
    }

    fn target_label() -> (s: String) {
        "FloatArray".to_owned()
    }

    fn inner_translate(&self, context: &TranslateContext) -> (r: Result<Vec<Decimal>, PonTranslateErr>) {
        match self {
            Pon::Array(items) => {
                proof {
                    lemma_array_view(*items);
                }
                match translate_items::<Decimal>(items, context) {
                    Ok(values) => {
                        assert(value_views(values@) =~= values@);
                        Ok(values)
                    },
                    Err(e) => Err(e),
                }
            },
            Pon::FloatArray(values) => Ok(values.clone()),
            _ => Err(mismatch_error("Array or FloatArray", self)),
        }
    }
}

impl Translatable<Vec<i64>> for Pon {
    open spec fn target_name() -> Seq<char> {
        "IntegerArray"@
    }

    /// An array reads item by item, and a list of integers as it stands.
    open spec fn inner_translated(pon: PonView, cells: Seq<Option<PonView>>, budget: nat) -> Result<
        Seq<i64>,
        PonTranslateErrView,
    > {
        match pon {
            PonView::Array(items) => translated_items::<i64>(items, cells, budget),
            PonView::IntegerArray(values) => Ok(values),
            _ => Err(mismatch("Array or IntegerArray"@, pon)),
        }
    }

    fn target_label() -> (s: String) {
        "IntegerArray".to_owned()
    }

    fn inner_translate(&self, context: &TranslateContext) -> (r: Result<Vec<i64>, PonTranslateErr>) {
        match self {
            Pon::Array(items) => {
                proof {
                    lemma_array_view(*items);
                }
                match translate_items::<i64>(items, context) {
                    Ok(values) => {
                        assert(value_views(values@) =~= values@);
                        Ok(values)
                    },
                    Err(e) => Err(e),
                }
            },
            Pon::IntegerArray(values) => Ok(values.clone()),
            _ => Err(mismatch_error("Array or IntegerArray", self)),
        }
    }
}

/// A list whose items are each read as a `T`.
pub struct PonAutoVec<T>(pub Vec<T>);

impl<T: View> View for PonAutoVec<T> {
    type V = Seq<T::V>;

    open spec fn view(&self) -> Seq<T::V> {
        value_views(self.0@)
    }
}

impl<T: View> Translatable<PonAutoVec<T>> for Pon where Pon: Translatable<T> {
    open spec fn target_name() -> Seq<char> {
        "Array"@
    }

    /// The array at the end of the chain of live references reads item by item.
    open spec fn inner_translated(pon: PonView, cells: Seq<Option<PonView>>, budget: nat) -> Result<
        Seq<T::V>,
        PonTranslateErrView,
    > {
        match resolved(pon, cells, budget) {
            Ok((value, left)) => match value {
                PonView::Array(items) => translated_items::<T>(items, cells, left),
                _ => Err(mismatch("Array"@, value)),
            },
            Err(e) => Err(e),
        }
    }

    fn target_label() -> (s: String) {
        "Array".to_owned()
    }

    fn inner_translate(&self, context: &TranslateContext) -> (r: Result<PonAutoVec<T>, PonTranslateErr>) {
        match self.resolve(context) {
            Ok((pon, inner)) => match pon {
                Pon::Array(items) => {
                    proof {
                        lemma_array_view(*items);
                    }
                    match translate_items::<T>(items, &inner) {
                        Ok(values) => Ok(PonAutoVec(values)),
                        Err(e) => Err(e),
                    }
                },
                _ => Err(mismatch_error("Array", pon)),
            },
            Err(e) => Err(e),
        }
    }
}


/// How much of the text of a value an error message shows.
pub const SHOWN: usize = 50;

/// The text of `text` as an error message shows it: all of it where it has fewer than
/// `SHOWN` characters, else its first `SHOWN` characters and three points.
pub open spec fn shortened(text: Seq<char>) -> Seq<char> {
    if text.len() < SHOWN {
        text
    } else {
        text.subrange(0, SHOWN as int) + "..."@
    }
}

/// The message of an error.
pub open spec fn error_text(e: PonTranslateErrView) -> Seq<char>
    decreases e,
{
    match e {
        PonTranslateErrView::MismatchType { expected, found } => "Expected "@ + expected + ", found "@ + found,
        PonTranslateErrView::NoSuchField { field } => "No such field: "@ + field,
        PonTranslateErrView::InvalidValue { value } => "Invalid value: "@ + value,
        PonTranslateErrView::UnrecognizedType(name) => "Unrecognized type: "@ + name,
        PonTranslateErrView::ReferenceToNonExistentProperty(reference) => "Reference to a property that holds nothing: "@
            + crate::render::reference_text(reference),
        PonTranslateErrView::InnerError { in_pon, error, trying_to_translate_to } => "while trying to translate "@
            + shortened(pon_text(in_pon)) + " to "@ + trying_to_translate_to + " got error: "@ + error_text(*error),
        PonTranslateErrView::Generic(message) => "Generic error: "@ + message,
    }
}

impl PonTranslateErr {
    /// The message of the error.
    pub fn to_string(&self) -> (s: String)
        ensures
            s@ == error_text(self@),
        decreases self,
    {
        match self {
            PonTranslateErr::MismatchType { expected, found } => {
                let mut s = "Expected ".to_owned();
                s.append(expected.as_str());
                s.append(", found ");
                s.append(found.as_str());
                s
            },
            PonTranslateErr::NoSuchField { field } => {
                let mut s = "No such field: ".to_owned();
                s.append(field.as_str());
                s
            },
            PonTranslateErr::InvalidValue { value } => {
                let mut s = "Invalid value: ".to_owned();
                s.append(value.as_str());
                s
            },
            PonTranslateErr::UnrecognizedType(name) => {
                let mut s = "Unrecognized type: ".to_owned();
                s.append(name.as_str());
                s
            },
            PonTranslateErr::ReferenceToNonExistentProperty(reference) => {
                let mut s = "Reference to a property that holds nothing: ".to_owned();
                let r = reference.to_string();
                s.append(r.as_str());
                s
            },
            PonTranslateErr::InnerError { in_pon, error, trying_to_translate_to } => {
                let text = in_pon.to_string();
                let chars = crate::text::chars_of(text.as_str());
                let mut s = "while trying to translate ".to_owned();
                if chars.len() < SHOWN {
                    s.append(text.as_str());
                } else {
                    let head = crate::text::text_between(&chars, 0, SHOWN);
                    s.append(head.as_str());
                    s.append("...");
                }
                assert(s@ =~= "while trying to translate "@ + shortened(pon_text(in_pon@)));
                s.append(" to ");
                s.append(trying_to_translate_to.as_str());
                s.append(" got error: ");
                let inner = error.to_string();
                s.append(inner.as_str());
                s
            },
            PonTranslateErr::Generic(message) => {
                let mut s = "Generic error: ".to_owned();
                s.append(message.as_str());
                s
            },
        }
    }
}

/// What can be written down as a value.
pub trait ToPon {
    /// The value that stands for this.
    spec fn pon_of(&self) -> PonView;

    fn to_pon(&self) -> (pon: Pon)
        ensures
            pon@ == self.pon_of(),
    ;
}

impl ToPon for Pon {
    open spec fn pon_of(&self) -> PonView {
        self@
    }

    fn to_pon(&self) -> (pon: Pon) {
        self.clone()
    }
}

impl ToPon for Decimal {
    open spec fn pon_of(&self) -> PonView {
        PonView::Float(*self)
    }

    fn to_pon(&self) -> (pon: Pon) {
        Pon::Float(*self)
    }
}

/// The array whose items are the numbers `values`.
pub open spec fn float_items(values: Seq<Decimal>) -> Seq<PonView> {
    Seq::new(values.len(), |i: int| PonView::Float(values[i]))
}

/// The array whose items are the integers `values`.
pub open spec fn integer_items(values: Seq<i64>) -> Seq<PonView> {
    Seq::new(values.len(), |i: int| PonView::Integer(values[i]))
}

impl ToPon for Vec<Decimal> {
    open spec fn pon_of(&self) -> PonView {
        PonView::Array(float_items(self@))
    }

    fn to_pon(&self) -> (pon: Pon) {
        let mut items: Vec<Pon> = Vec::new();
        let mut i: usize = 0;
        while i < self.len()
            invariant
                i <= self.len(),
                items.len() == i,
                forall|j: int| 0 <= j < i ==> (#[trigger] items[j])@ == PonView::Float(self[j]),
            decreases self.len() - i,
        {
            items.push(Pon::Float(self[i]));
            i += 1;
        }
        proof {
            lemma_array_view(items);
            assert(crate::pon::pon_views(items@) =~= float_items(self@));
        }
        Pon::Array(items)
    }
}

impl ToPon for Vec<i64> {
    open spec fn pon_of(&self) -> PonView {
        PonView::Array(integer_items(self@))
    }

    fn to_pon(&self) -> (pon: Pon) {
        let mut items: Vec<Pon> = Vec::new();
        let mut i: usize = 0;
        while i < self.len()
            invariant
                i <= self.len(),
                items.len() == i,
                forall|j: int| 0 <= j < i ==> (#[trigger] items[j])@ == PonView::Integer(self[j]),
            decreases self.len() - i,
        {
            items.push(Pon::Integer(self[i]));
            i += 1;
        }
        proof {
            lemma_array_view(items);
            assert(crate::pon::pon_views(items@) =~= integer_items(self@));
        }
        Pon::Array(items)
    }
}

} // verus!
