//! The text of paths, references and values. What is rendered here reads back as the
//! same value.

use vstd::prelude::*;
use crate::decimal::integer_text;
use crate::decimal::digits_vec;
use crate::decimal::magnitude_of;
use crate::decimal::Decimal;
use crate::pon::EntityPath;
use crate::pon::EntityPathView;
use crate::pon::NamedPropRef;
use crate::pon::NamedPropRefView;
use crate::pon::Pon;
use crate::pon::PonView;
use crate::pon::TypedPon;
use crate::text::push_chars;

verus! {

/// The longest list that is written on one line.
pub const LINE_WIDTH: usize = 120;

/// The texts `texts` with `sep` between each two of them.
pub open spec fn join_texts(texts: Seq<Seq<char>>, sep: Seq<char>) -> Seq<char>
    decreases texts.len(),
{
    if texts.len() == 0 {
        Seq::empty()
    } else if texts.len() == 1 {
        texts[0]
    } else {
        join_texts(texts.drop_last(), sep) + sep + texts.last()
    }
}

/// The separator of a list that fits on a line: a comma and a space.
pub open spec fn narrow_sep() -> Seq<char> {
    seq![',', ' ']
}

/// The separator of a longer list: a comma and a line break.
pub open spec fn wide_sep() -> Seq<char> {
    seq![',', '\n']
}

/// The texts of the items of a list, separated by commas: on one line where that line
/// has at most `LINE_WIDTH` characters, else one item per line.
pub open spec fn listed(texts: Seq<Seq<char>>) -> Seq<char> {
    if join_texts(texts, narrow_sep()).len() > LINE_WIDTH {
        join_texts(texts, wide_sep())
    } else {
        join_texts(texts, narrow_sep())
    }
}

/// The text of a path: `this`, `parent`, a name, or a path, a colon and a name.
pub open spec fn path_text(path: EntityPathView) -> Seq<char>
    decreases path,
{
    match path {
        EntityPathView::This => seq!['t', 'h', 'i', 's'],
        EntityPathView::Parent => seq!['p', 'a', 'r', 'e', 'n', 't'],
        EntityPathView::Named(name) => name,
        EntityPathView::Search(inner, name) => path_text(*inner) + seq![':'] + name,
    }
}

/// The text of a reference: the path, a point and the key.
pub open spec fn reference_text(reference: NamedPropRefView) -> Seq<char> {
    path_text(reference.entity_path) + seq!['.'] + reference.property_key
}

/// The text of a truth value.
pub open spec fn boolean_text(b: bool) -> Seq<char> {
    if b {
        seq!['t', 'r', 'u', 'e']
    } else {
        seq!['f', 'a', 'l', 's', 'e']
    }
}

/// The texts of the items of an array.
pub open spec fn item_texts(items: Seq<PonView>) -> Seq<Seq<char>>
    decreases items, 0nat,
{
    Seq::new(
        items.len(),
        |i: int|
            if 0 <= i < items.len() {
                pon_text(items[i])
            } else {
                Seq::empty()
            },
    )
}

/// The texts of the fields of an object: the key, a colon, a space and the value.
pub open spec fn field_texts(fields: Seq<(Seq<char>, PonView)>) -> Seq<Seq<char>>
    decreases fields, 0nat,
{
    Seq::new(
        fields.len(),
        |i: int|
            if 0 <= i < fields.len() {
                fields[i].0 + seq![':', ' '] + pon_text(fields[i].1)
            } else {
                Seq::empty()
            },
    )
}

/// The texts of a list of numbers.
pub open spec fn decimal_texts(items: Seq<Decimal>) -> Seq<Seq<char>> {
    Seq::new(items.len(), |i: int| items[i].text())
}

/// The texts of a list of integers.
pub open spec fn integer_texts(items: Seq<i64>) -> Seq<Seq<char>> {
    Seq::new(items.len(), |i: int| integer_text(items[i] as int))
}

/// The text of a value.
pub open spec fn pon_text(pon: PonView) -> Seq<char>
    decreases pon, 1nat,
{
    match pon {
        PonView::Typed { name, data } => name + seq![' '] + pon_text(*data),
        PonView::DependencyReference(reference, _) => seq!['@'] + reference_text(reference),
        PonView::Reference(reference) => reference_text(reference),
        PonView::Array(items) => seq!['['] + listed(item_texts(items)) + seq![']'],
        PonView::FloatArray(items) => seq!['['] + listed(decimal_texts(items)) + seq![']'],
        PonView::IntegerArray(items) => seq!['['] + listed(integer_texts(items)) + seq![']'],
        PonView::Object(fields) => seq!['{', ' '] + listed(field_texts(fields)) + seq![' ', '}'],
        PonView::Float(x) => x.text(),
        PonView::Integer(x) => integer_text(x as int),
        PonView::String(s) => seq!['\''] + s + seq!['\''],
        PonView::Boolean(b) => boolean_text(b),
        PonView::Nil => seq!['(', ')'],
    }
}

/// The views of a list of texts.
pub open spec fn text_views(texts: Seq<String>) -> Seq<Seq<char>> {
    Seq::new(texts.len(), |i: int| texts[i]@)
}

/// The texts `texts` with `sep` between each two of them.
pub fn join(texts: &Vec<String>, sep: &Vec<char>) -> (s: String)
    ensures
        s@ == join_texts(text_views(texts@), sep@),
{
    let ghost all = text_views(texts@);
    let mut s = String::new();
    let mut i: usize = 0;
    assert(all.subrange(0, 0) =~= Seq::<Seq<char>>::empty());
    while i < texts.len()
        invariant
            i <= texts.len(),
            all == text_views(texts@),
            s@ == join_texts(all.subrange(0, i as int), sep@),
        decreases texts.len() - i,
    {
        let ghost before = all.subrange(0, i as int);
        let ghost after = all.subrange(0, i + 1);
        assert(after.drop_last() =~= before);
        assert(after.last() == texts[i as int]@);
        if i > 0 {
            push_chars(&mut s, sep);
        }
        s.append(texts[i].as_str());
        assert(s@ =~= join_texts(after, sep@));
        i += 1;
    }
    assert(all.subrange(0, texts.len() as int) =~= all);
    s
}

/// The texts of the items of a list as `listed` lays them out.
pub fn list(texts: &Vec<String>) -> (s: String)
    ensures
        s@ == listed(text_views(texts@)),
{
    let mut narrow: Vec<char> = Vec::new();
    narrow.push(',');
    narrow.push(' ');
    assert(narrow@ =~= narrow_sep());
    let line = join(texts, &narrow);
    if line.as_str().unicode_len() > LINE_WIDTH {
        let mut wide: Vec<char> = Vec::new();
        wide.push(',');
        wide.push('\n');
        assert(wide@ =~= wide_sep());
        join(texts, &wide)
    } else {
        line
    }
}

/// The text of an integer.
pub fn integer_to_string(x: i64) -> (s: String)
    ensures
        s@ == integer_text(x as int),
{
    let mut s = String::new();
    if x < 0 {
        s.push('-');
    }
    let digits = digits_vec(magnitude_of(x));
    push_chars(&mut s, &digits);
    assert(s@ =~= integer_text(x as int));
    s
}

impl EntityPath {
    /// The text of the path.
    pub fn to_string(&self) -> (s: String)
        ensures
            s@ == path_text(self@),
        decreases self,
    {
        match self {
            EntityPath::This => {
                proof {
                    reveal_strlit("this");
                }
                let s = "this".to_owned();
                assert(s@ =~= path_text(self@));
                s
            },
            EntityPath::Parent => {
                proof {
                    reveal_strlit("parent");
                }
                let s = "parent".to_owned();
                assert(s@ =~= path_text(self@));
                s
            },
            EntityPath::Named(name) => name.clone(),
            EntityPath::Search(inner, name) => {
                let mut s = inner.to_string();
                s.push(':');
                s.append(name.as_str());
                s
            },
        }
    }
}

impl NamedPropRef {
    /// The text of the reference.
    pub fn to_string(&self) -> (s: String)
        ensures
            s@ == reference_text(self@),
    {
        let mut s = self.entity_path.to_string();
        s.push('.');
        s.append(self.property_key.as_str());
        s
    }
}

impl TypedPon {
    /// The text of the value: the name, a space and the data.
    pub fn to_string(&self) -> (s: String)
        ensures
            s@ == self.name@ + seq![' '] + pon_text(self.data@),
    {
        let mut s = self.name.clone();
        s.push(' ');
        let data = self.data.to_string();
        s.append(data.as_str());
        s
    }
}

impl Pon {
    /// The text of the value.
    #[verifier::loop_isolation(false)]
    pub fn to_string(&self) -> (s: String)
        ensures
            s@ == pon_text(self@),
        decreases self,
    {
        match self {
            Pon::TypedPon(typed) => {
                let mut s = typed.name.clone();
                s.push(' ');
                let data = typed.data.to_string();
                s.append(data.as_str());
                s
            },
            Pon::DependencyReference(reference, _) => {
                let mut s = String::new();
                s.push('@');
                let r = reference.to_string();
                s.append(r.as_str());
                assert(s@ =~= pon_text(self@));
                s
            },
            Pon::Reference(reference) => reference.to_string(),
            Pon::Array(items) => {
                let mut texts: Vec<String> = Vec::new();
                let mut i: usize = 0;
                while i < items.len()
                    invariant
                        i <= items.len(),
                        texts.len() == i,
                        forall|j: int| 0 <= j < i ==> texts[j]@ == pon_text(items[j]@),
                    decreases items.len() - i,
                {
                    let t = items[i].to_string();
                    texts.push(t);
                    i += 1;
                }
                assert(text_views(texts@) =~= item_texts(self@->Array_0));
                let mut s = String::new();
                s.push('[');
                let inner = list(&texts);
                s.append(inner.as_str());
                s.push(']');
                assert(s@ =~= pon_text(self@));
                s
            },
            Pon::FloatArray(items) => {
                let mut texts: Vec<String> = Vec::new();
                let mut i: usize = 0;
                while i < items.len()
                    invariant
                        i <= items.len(),
                        texts.len() == i,
                        forall|j: int| 0 <= j < i ==> texts[j]@ == items[j].text(),
                    decreases items.len() - i,
                {
                    let t = items[i].to_string();
                    texts.push(t);
                    i += 1;
                }
                assert(text_views(texts@) =~= decimal_texts(items@));
                let mut s = String::new();
                s.push('[');
                let inner = list(&texts);
                s.append(inner.as_str());
                s.push(']');
                assert(s@ =~= pon_text(self@));
                s
            },
            Pon::IntegerArray(items) => {
                let mut texts: Vec<String> = Vec::new();
                let mut i: usize = 0;
                while i < items.len()
                    invariant
                        i <= items.len(),
                        texts.len() == i,
                        forall|j: int| 0 <= j < i ==> texts[j]@ == integer_text(items[j] as int),
                    decreases items.len() - i,
                {
                    let t = integer_to_string(items[i]);
                    texts.push(t);
                    i += 1;
                }
                assert(text_views(texts@) =~= integer_texts(items@));
                let mut s = String::new();
                s.push('[');
                let inner = list(&texts);
                s.append(inner.as_str());
                s.push(']');
                assert(s@ =~= pon_text(self@));
                s
            },
            Pon::Object(object) => {
                let mut texts: Vec<String> = Vec::new();
                let mut i: usize = 0;
                while i < object.fields.len()
                    invariant
                        i <= object.fields.len(),
                        texts.len() == i,
                        forall|j: int|
                            0 <= j < i ==> texts[j]@ == object.fields[j].key@ + seq![':', ' '] + pon_text(
                                object.fields[j].value@,
                            ),
                    decreases object.fields.len() - i,
                {
                    let mut t = object.fields[i].key.clone();
                    t.push(':');
                    t.push(' ');
                    let v = object.fields[i].value.to_string();
                    t.append(v.as_str());
                    assert(t@ =~= object.fields[i as int].key@ + seq![':', ' '] + pon_text(
                        object.fields[i as int].value@,
                    ));
                    texts.push(t);
                    i += 1;
                }
                assert(text_views(texts@) =~= field_texts(self@->Object_0));
                let mut s = String::new();
                s.push('{');
                s.push(' ');
                let inner = list(&texts);
                s.append(inner.as_str());
                s.push(' ');
                s.push('}');
                assert(s@ =~= pon_text(self@));
                s
            },
            Pon::Float(x) => x.to_string(),
            Pon::Integer(x) => integer_to_string(*x),
            Pon::String(text) => {
                let mut s = String::new();
                s.push('\'');
                s.append(text.as_str());
                s.push('\'');
                assert(s@ =~= pon_text(self@));
                s
            },
            Pon::Boolean(b) => {
                if *b {
                    proof {
                        reveal_strlit("true");
                    }
                    let s = "true".to_owned();
                    assert(s@ =~= pon_text(self@));
                    s
                } else {
                    proof {
                        reveal_strlit("false");
                    }
                    let s = "false".to_owned();
                    assert(s@ =~= pon_text(self@));
                    s
                }
            },
            Pon::Nil => {
                let mut s = String::new();
                s.push('(');
                s.push(')');
                assert(s@ =~= pon_text(self@));
                s
            },
        }
    }
}

} // verus!
