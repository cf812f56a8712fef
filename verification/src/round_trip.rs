//! Reading and writing agree: the text of a value reads back as the value.

use vstd::prelude::*;
use crate::decimal::decimal_of;
use crate::decimal::drop_digits;
use crate::decimal::in_lowest_terms;
use crate::decimal::integer_text;
use crate::decimal::lemma_decimal_round_trip;
use crate::decimal::lemma_integer_round_trip;
use crate::decimal::magnitude;
use crate::decimal::Decimal;
use crate::parser::in_class;
use crate::parser::is_name;
use crate::parser::is_name_char;
use crate::parser::is_name_start;
use crate::parser::is_space;
use crate::parser::lemma_scan;
use crate::parser::lemma_scan_exact;
use crate::parser::parse_number;
use crate::parser::parse_reference;
use crate::parser::parse_reference_rest;
use crate::parser::path_segment;
use crate::parser::scan;
use crate::parser::word_false;
use crate::parser::word_parent;
use crate::parser::word_this;
use crate::parser::word_true;
use crate::parser::CharClass;
use crate::parser::parse_fields;
use crate::parser::parse_items;
use crate::parser::parse_text;
use crate::parser::parse_value;
use crate::decimal::lemma_strip_zeros;
use crate::decimal::strip_zeros;
use crate::parser::lemma_last_digit;
use crate::pon::keys_sorted;
use crate::pon::lemma_lower_bound;
use crate::pon::lemma_object_insert;
use crate::pon::lemma_lower_bound_at_end;
use crate::pon::lower_bound;
use crate::pon::object_insert;
use crate::render::field_texts;
use crate::render::item_texts;
use crate::render::join_texts;
use crate::render::listed;
use crate::render::narrow_sep;
use crate::render::wide_sep;
use crate::pon::EntityPathView;
use crate::pon::NamedPropRefView;
use crate::pon::PonView;
use crate::render::path_text;
use crate::render::pon_text;
use crate::render::reference_text;
use crate::text::digits_of;
use crate::text::fixed_digits;
use crate::text::is_digit;
use crate::text::lemma_digits_of;
use crate::text::lemma_fixed_digits;

verus! {

/// Whether a path is one that a text can stand for: its names are names, and a name
/// that stands alone is neither `this` nor `parent`.
pub open spec fn canonical_path(path: EntityPathView) -> bool
    decreases path,
{
    match path {
        EntityPathView::This => true,
        EntityPathView::Parent => true,
        EntityPathView::Named(name) => is_name(name) && name != word_this() && name != word_parent(),
        EntityPathView::Search(inner, name) => canonical_path(*inner) && is_name(name),
    }
}

/// Whether a reference is one that a text can stand for.
pub open spec fn canonical_reference(reference: NamedPropRefView) -> bool {
    canonical_path(reference.entity_path) && is_name(reference.property_key)
}

/// Whether a value is one that a text can stand for: names are names, a constructor
/// is called neither `true` nor `false`, references are canonical and live ones
/// unbound, texts hold no quote, numbers are in lowest terms, the fields of objects are
/// sorted, and there are no lists of bare numbers.
pub open spec fn canonical(pon: PonView) -> bool
    decreases pon,
{
    match pon {
        PonView::Typed { name, data } => is_name(name) && name != word_true() && name != word_false() && canonical(
            *data,
        ),
        PonView::DependencyReference(reference, bound) => canonical_reference(reference) && bound is None,
        PonView::Reference(reference) => canonical_reference(reference),
        PonView::Array(items) => forall|i: int| 0 <= i < items.len() ==> canonical(#[trigger] items[i]),
        PonView::FloatArray(_) => false,
        PonView::IntegerArray(_) => false,
        PonView::Object(fields) => keys_sorted(fields) && forall|i: int|
            0 <= i < fields.len() ==> is_name((#[trigger] fields[i]).0) && canonical(fields[i].1),
        PonView::Float(x) => x.wf(),
        PonView::Integer(_) => true,
        PonView::String(s) => forall|i: int| 0 <= i < s.len() ==> #[trigger] s[i] != '\'',
        PonView::Boolean(_) => true,
        PonView::Nil => true,
    }
}

/// Whether a value can end before `c`: a comma, a closing bracket or brace, or a blank.
pub open spec fn is_stop(c: char) -> bool {
    c == ',' || c == ']' || c == '}' || is_space(c)
}

/// Whether a value can end at `pos`: the text ends there, or a character follows before
/// which a value can end.
pub open spec fn boundary(s: Seq<char>, pos: int) -> bool {
    pos == s.len() || (0 <= pos < s.len() && is_stop(s[pos]))
}

/// Whether the text `t` stands in `s` at `pos`.
pub open spec fn stands_at(s: Seq<char>, pos: int, t: Seq<char>) -> bool {
    0 <= pos && pos + t.len() <= s.len() && s.subrange(pos, pos + t.len()) == t
}

/// The characters of a text that stands in `s` are the characters of `s` there.
pub proof fn lemma_stands_at(s: Seq<char>, pos: int, t: Seq<char>)
    requires
        stands_at(s, pos, t),
    ensures
        forall|i: int| 0 <= i < t.len() ==> #[trigger] s[pos + i] == t[i],
{
    assert forall|i: int| 0 <= i < t.len() implies #[trigger] s[pos + i] == t[i] by {
        assert(s.subrange(pos, pos + t.len())[i] == s[pos + i]);
    }
}

/// Where two texts stand one after the other, each stands at its place.
pub proof fn lemma_stands_split(s: Seq<char>, pos: int, a: Seq<char>, b: Seq<char>)
    requires
        stands_at(s, pos, a + b),
    ensures
        stands_at(s, pos, a),
        stands_at(s, pos + a.len(), b),
{
    lemma_stands_at(s, pos, a + b);
    assert(s.subrange(pos, pos + a.len()) =~= a) by {
        assert forall|i: int| 0 <= i < a.len() implies s.subrange(pos, pos + a.len())[i] == a[i] by {
            assert(s[pos + i] == (a + b)[i]);
        }
    }
    assert(s.subrange(pos + a.len(), pos + a.len() + b.len()) =~= b) by {
        assert forall|i: int| 0 <= i < b.len() implies s.subrange(pos + a.len(), pos + a.len() + b.len())[i]
            == b[i] by {
            assert(s[pos + (a.len() + i)] == (a + b)[a.len() + i]);
        }
    }
}

/// A run of characters of one class that stands in `s` and is followed by a character
/// of another class, or by nothing, is scanned to its end.
pub proof fn lemma_scan_run(s: Seq<char>, pos: int, t: Seq<char>, class: CharClass)
    requires
        stands_at(s, pos, t),
        forall|i: int| 0 <= i < t.len() ==> in_class(class, #[trigger] t[i]),
        pos + t.len() < s.len() ==> !in_class(class, s[pos + t.len()]),
    ensures
        scan(s, pos, class) == pos + t.len(),
{
    lemma_stands_at(s, pos, t);
    assert forall|i: int| pos <= i < pos + t.len() implies in_class(class, #[trigger] s[i]) by {
        assert(s[pos + (i - pos)] == t[i - pos]);
    }
    lemma_scan_exact(s, pos, pos + t.len(), class);
}

/// Where no blank stands, no blank is skipped.
pub proof fn lemma_no_space(s: Seq<char>, pos: int)
    requires
        0 <= pos <= s.len(),
        pos < s.len() ==> !is_space(s[pos]),
    ensures
        scan(s, pos, CharClass::Space) == pos,
{
}

/// The text of an integer reads back as the integer.
pub proof fn lemma_integer_reads_back(x: i64, s: Seq<char>, pos: int)
    requires
        stands_at(s, pos, integer_text(x as int)),
        boundary(s, pos + integer_text(x as int).len()),
    ensures
        parse_number(s, pos) == Ok::<(PonView, int), int>(
            (PonView::Integer(x), pos + integer_text(x as int).len()),
        ),
        integer_text(x as int).len() > 0,
        integer_text(x as int)[0] == '-' || is_digit(integer_text(x as int)[0]),
{
    let t = integer_text(x as int);
    let digits = digits_of(magnitude(x as int));
    lemma_digits_of(magnitude(x as int));
    lemma_integer_round_trip(x);
    lemma_stands_at(s, pos, t);
    let sign = if x < 0 {
        seq!['-']
    } else {
        Seq::<char>::empty()
    };
    assert(t == sign + digits);
    lemma_stands_split(s, pos, sign, digits);
    let start = pos + sign.len();
    assert(s[pos + 0] == t[0]);
    if x < 0 {
        assert(t[0] == '-');
    } else {
        assert(t[0] == digits[0]);
        assert(is_digit(digits[0]));
    }
    assert forall|i: int| 0 <= i < digits.len() implies in_class(CharClass::Digit, #[trigger] digits[i]) by {}
    lemma_scan_run(s, start, digits, CharClass::Digit);
    assert(s.subrange(start, start + digits.len()) == digits);
}

/// The text of a number in lowest terms reads back as the number.
pub proof fn lemma_decimal_reads_back(x: Decimal, s: Seq<char>, pos: int)
    requires
        x.wf(),
        stands_at(s, pos, x.text()),
        boundary(s, pos + x.text().len()),
    ensures
        parse_number(s, pos) == Ok::<(PonView, int), int>((PonView::Float(x), pos + x.text().len())),
        x.text().len() > 0,
        x.text()[0] == '-' || is_digit(x.text()[0]),
{
    let t = x.text();
    let m = magnitude(x.spec_mantissa());
    let scale = x.spec_scale();
    let whole = digits_of(drop_digits(m, scale));
    let fraction = if scale == 0 {
        seq!['0']
    } else {
        fixed_digits(m, scale)
    };
    let sign = if x.spec_mantissa() < 0 {
        seq!['-']
    } else {
        Seq::<char>::empty()
    };
    lemma_digits_of(drop_digits(m, scale));
    lemma_fixed_digits(m, scale);
    lemma_decimal_round_trip(x.mantissa, x.scale);
    assert(t == sign + whole + seq!['.'] + fraction);
    assert(t =~= sign + (whole + (seq!['.'] + fraction)));
    lemma_stands_at(s, pos, t);
    lemma_stands_split(s, pos, sign, whole + (seq!['.'] + fraction));
    let start = pos + sign.len();
    lemma_stands_split(s, start, whole, seq!['.'] + fraction);
    let end = start + whole.len();
    lemma_stands_split(s, end, seq!['.'], fraction);
    lemma_stands_at(s, end, seq!['.']);
    assert(s[end + 0] == '.');
    assert(s[pos + 0] == t[0]);
    if x.spec_mantissa() < 0 {
        assert(t[0] == '-');
    } else {
        assert(t[0] == whole[0]);
        assert(is_digit(whole[0]));
    }
    assert forall|i: int| 0 <= i < whole.len() implies in_class(CharClass::Digit, #[trigger] whole[i]) by {}
    lemma_scan_run(s, start, whole, CharClass::Digit);
    assert forall|i: int| 0 <= i < fraction.len() implies in_class(CharClass::Digit, #[trigger] fraction[i]) by {}
    lemma_scan_run(s, end + 1, fraction, CharClass::Digit);
    lemma_stands_at(s, end + 1, fraction);
    assert(s[end + 1 + 0] == fraction[0]);
    assert(is_digit(fraction[0]));
    assert(s.subrange(start, end) == whole);
    assert(s.subrange(end + 1, end + 1 + fraction.len()) == fraction);
    assert(Decimal::of(x.mantissa, x.scale) == x);
}

/// The text of a canonical path is not empty, begins like a name, and holds only
/// characters of names and colons.
pub proof fn lemma_path_text(path: EntityPathView)
    requires
        canonical_path(path),
    ensures
        path_text(path).len() > 0,
        is_name_start(path_text(path)[0]),
        forall|i: int|
            0 <= i < path_text(path).len() ==> is_name_char(#[trigger] path_text(path)[i]) || path_text(path)[i] == ':',
    decreases path,
{
    match path {
        EntityPathView::Search(inner, name) => {
            lemma_path_text(*inner);
        },
        _ => {},
    }
}

/// Reading a reference comes through the text of a canonical path to the place behind
/// it with that path in hand.
pub proof fn lemma_path_reads_back(path: EntityPathView, s: Seq<char>, pos: int)
    requires
        canonical_path(path),
        stands_at(s, pos, path_text(path)),
        pos + path_text(path).len() < s.len(),
        s[pos + path_text(path).len()] == ':' || s[pos + path_text(path).len()] == '.',
    ensures
        parse_reference(s, pos) == parse_reference_rest(s, pos + path_text(path).len(), path),
        scan(s, pos, CharClass::Name) < s.len(),
        s[scan(s, pos, CharClass::Name)] == ':' || s[scan(s, pos, CharClass::Name)] == '.',
    decreases path,
{
    let t = path_text(path);
    lemma_path_text(path);
    lemma_stands_at(s, pos, t);
    assert(s[pos + 0] == t[0]);
    match path {
        EntityPathView::Search(inner, name) => {
            let head = path_text(*inner);
            assert(t =~= head + (seq![':'] + name));
            lemma_stands_split(s, pos, head, seq![':'] + name);
            let colon = pos + head.len();
            lemma_stands_split(s, colon, seq![':'], name);
            lemma_stands_at(s, colon, seq![':']);
            assert(s[colon + 0] == ':');
            lemma_path_reads_back(*inner, s, pos);
            lemma_stands_at(s, colon + 1, name);
            assert(s[colon + 1 + 0] == name[0]);
            assert forall|i: int| 0 <= i < name.len() implies in_class(CharClass::Name, #[trigger] name[i]) by {}
            lemma_scan_run(s, colon + 1, name, CharClass::Name);
            assert(s.subrange(colon + 1, colon + 1 + name.len()) == name);
        },
        _ => {
            assert forall|i: int| 0 <= i < t.len() implies in_class(CharClass::Name, #[trigger] t[i]) by {}
            lemma_scan_run(s, pos, t, CharClass::Name);
            assert(s.subrange(pos, pos + t.len()) == t);
            assert(path_segment(t) == path);
        },
    }
}

/// The text of a canonical reference reads back as the reference.
pub proof fn lemma_reference_reads_back(reference: NamedPropRefView, s: Seq<char>, pos: int)
    requires
        canonical_reference(reference),
        stands_at(s, pos, reference_text(reference)),
        boundary(s, pos + reference_text(reference).len()),
    ensures
        parse_reference(s, pos) == Ok::<(NamedPropRefView, int), int>(
            (reference, pos + reference_text(reference).len()),
        ),
        scan(s, pos, CharClass::Name) < s.len(),
        s[scan(s, pos, CharClass::Name)] == ':' || s[scan(s, pos, CharClass::Name)] == '.',
        reference_text(reference).len() > 0,
        is_name_start(reference_text(reference)[0]),
{
    let path = path_text(reference.entity_path);
    let key = reference.property_key;
    let t = reference_text(reference);
    lemma_path_text(reference.entity_path);
    assert(t =~= path + (seq!['.'] + key));
    lemma_stands_split(s, pos, path, seq!['.'] + key);
    let point = pos + path.len();
    lemma_stands_split(s, point, seq!['.'], key);
    lemma_stands_at(s, point, seq!['.']);
    assert(s[point + 0] == '.');
    lemma_path_reads_back(reference.entity_path, s, pos);
    lemma_stands_at(s, point + 1, key);
    assert(s[point + 1 + 0] == key[0]);
    assert forall|i: int| 0 <= i < key.len() implies in_class(CharClass::Name, #[trigger] key[i]) by {}
    lemma_scan_run(s, point + 1, key, CharClass::Name);
    assert(s.subrange(point + 1, point + 1 + key.len()) == key);
    assert(t[0] == path[0]);
}


/// Whether a value can begin with `c`.
pub open spec fn is_head(c: char) -> bool {
    c == '@' || c == '[' || c == '{' || c == '(' || c == '\'' || c == '-' || is_digit(c) || is_name_start(c)
}

/// The text of a canonical value is not empty and begins as a value begins.
pub proof fn lemma_text_head(pon: PonView)
    requires
        canonical(pon),
    ensures
        pon_text(pon).len() > 0,
        is_head(pon_text(pon)[0]),
{
    match pon {
        PonView::Typed { name, data } => {},
        PonView::DependencyReference(reference, _) => {},
        PonView::Reference(reference) => {
            lemma_path_text(reference.entity_path);
            assert(reference_text(reference)[0] == path_text(reference.entity_path)[0]);
        },
        PonView::Array(items) => {},
        PonView::Object(fields) => {},
        PonView::Float(x) => {
            let m = magnitude(x.spec_mantissa());
            lemma_digits_of(drop_digits(m, x.spec_scale()));
            let whole = digits_of(drop_digits(m, x.spec_scale()));
            assert(is_digit(whole[0]));
            if x.spec_mantissa() >= 0 {
                assert(x.text()[0] == whole[0]);
            }
        },
        PonView::Integer(x) => {
            lemma_digits_of(magnitude(x as int));
            let digits = digits_of(magnitude(x as int));
            assert(is_digit(digits[0]));
            if x >= 0 {
                assert(integer_text(x as int)[0] == digits[0]);
            }
        },
        PonView::String(_) => {},
        PonView::Boolean(_) => {},
        PonView::Nil => {},
        _ => {},
    }
}

/// A list of texts that are joined begins with the first text, which the separator and
/// the rest follow.
pub proof fn lemma_join_front(texts: Seq<Seq<char>>, sep: Seq<char>)
    requires
        texts.len() >= 2,
    ensures
        join_texts(texts, sep) == texts[0] + (sep + join_texts(texts.drop_first(), sep)),
    decreases texts.len(),
{
    let rest = texts.drop_first();
    if texts.len() == 2 {
        assert(texts.drop_last().len() == 1);
        assert(join_texts(texts.drop_last(), sep) == texts[0]);
        assert(join_texts(rest, sep) == texts[1]);
        assert(texts[0] + sep + texts[1] =~= texts[0] + (sep + texts[1]));
    } else {
        lemma_join_front(texts.drop_last(), sep);
        assert(texts.drop_last().drop_first() =~= rest.drop_last());
        assert(texts.drop_last()[0] == texts[0]);
        assert(rest.last() == texts.last());
        let inner = join_texts(rest.drop_last(), sep);
        assert((texts[0] + (sep + inner)) + sep + texts.last() =~= texts[0] + (sep + (inner + sep + texts.last())));
    }
}

/// Whether `sep` is one of the two separators of a list.
pub open spec fn is_separator(sep: Seq<char>) -> bool {
    sep == narrow_sep() || sep == wide_sep()
}

/// The text of a canonical value reads back as the value.
pub proof fn lemma_value_reads_back(pon: PonView, s: Seq<char>, pos: int)
    requires
        canonical(pon),
        stands_at(s, pos, pon_text(pon)),
        boundary(s, pos + pon_text(pon).len()),
    ensures
        parse_value(s, pos) == Ok::<(PonView, int), int>((pon, pos + pon_text(pon).len())),
    decreases pon, 0nat, 0nat,
{
    match pon {
        PonView::Typed { name, data } => {
            lemma_typed_reads_back(name, *data, s, pos);
        },
        PonView::DependencyReference(reference, bound) => {
            lemma_live_reference_reads_back(reference, s, pos);
        },
        PonView::Reference(reference) => {
            lemma_plain_reference_reads_back(reference, s, pos);
        },
        PonView::Array(items) => {
            lemma_array_reads_back(items, s, pos);
        },
        PonView::Object(fields) => {
            lemma_object_reads_back(fields, s, pos);
        },
        PonView::Float(x) => {
            lemma_text_head(pon);
            lemma_stands_at(s, pos, pon_text(pon));
            assert(s[pos + 0] == pon_text(pon)[0]);
            lemma_decimal_reads_back(x, s, pos);
        },
        PonView::Integer(x) => {
            lemma_text_head(pon);
            lemma_stands_at(s, pos, pon_text(pon));
            assert(s[pos + 0] == pon_text(pon)[0]);
            lemma_integer_reads_back(x, s, pos);
        },
        PonView::String(text) => {
            lemma_string_reads_back(text, s, pos);
        },
        PonView::Boolean(b) => {
            lemma_boolean_reads_back(b, s, pos);
        },
        PonView::Nil => {
            let t = pon_text(pon);
            lemma_stands_at(s, pos, t);
            assert(s[pos + 0] == t[0]);
            assert(s[pos + 1] == t[1]);
        },
        _ => {},
    }
}

/// The text of a typed value reads back.
pub proof fn lemma_typed_reads_back(name: Seq<char>, data: PonView, s: Seq<char>, pos: int)
    requires
        canonical(PonView::Typed { name, data: Box::new(data) }),
        stands_at(s, pos, pon_text(PonView::Typed { name, data: Box::new(data) })),
        boundary(s, pos + pon_text(PonView::Typed { name, data: Box::new(data) }).len()),
    ensures
        parse_value(s, pos) == Ok::<(PonView, int), int>(
            (
                PonView::Typed { name, data: Box::new(data) },
                pos + pon_text(PonView::Typed { name, data: Box::new(data) }).len(),
            ),
        ),
    decreases data, 1nat, 0nat,
{
    let pon = PonView::Typed { name, data: Box::new(data) };
    let t = pon_text(pon);
    let rest = pon_text(data);
    assert(canonical(data));
    assert(t =~= name + (seq![' '] + rest));
    lemma_stands_at(s, pos, t);
    assert(s[pos + 0] == t[0]);
    assert(t[0] == name[0]);
    lemma_stands_split(s, pos, name, seq![' '] + rest);
    let blank = pos + name.len();
    lemma_stands_split(s, blank, seq![' '], rest);
    lemma_stands_at(s, blank, seq![' ']);
    assert(s[blank + 0] == ' ');
    assert forall|i: int| 0 <= i < name.len() implies in_class(CharClass::Name, #[trigger] name[i]) by {}
    lemma_scan_run(s, pos, name, CharClass::Name);
    assert(s.subrange(pos, blank) == name);
    lemma_text_head(data);
    lemma_stands_at(s, blank + 1, rest);
    assert(s[blank + 1 + 0] == rest[0]);
    lemma_scan_exact(s, blank, blank + 1, CharClass::Space);
    lemma_value_reads_back(data, s, blank + 1);
    assert(scan(s, pos, CharClass::Name) == blank);
    assert(scan(s, blank, CharClass::Space) == blank + 1);
    assert(parse_value(s, blank + 1) == Ok::<(PonView, int), int>((data, blank + 1 + rest.len())));
    assert(is_name_start(s[pos]));
}

/// The text of a live reference reads back.
pub proof fn lemma_live_reference_reads_back(reference: NamedPropRefView, s: Seq<char>, pos: int)
    requires
        canonical_reference(reference),
        stands_at(s, pos, pon_text(PonView::DependencyReference(reference, None))),
        boundary(s, pos + pon_text(PonView::DependencyReference(reference, None)).len()),
    ensures
        parse_value(s, pos) == Ok::<(PonView, int), int>(
            (
                PonView::DependencyReference(reference, None),
                pos + pon_text(PonView::DependencyReference(reference, None)).len(),
            ),
        ),
{
    let t = pon_text(PonView::DependencyReference(reference, None));
    let rest = reference_text(reference);
    lemma_stands_at(s, pos, t);
    assert(s[pos + 0] == t[0]);
    lemma_stands_split(s, pos, seq!['@'], rest);
    lemma_reference_reads_back(reference, s, pos + 1);
}

/// The text of a reference reads back.
pub proof fn lemma_plain_reference_reads_back(reference: NamedPropRefView, s: Seq<char>, pos: int)
    requires
        canonical_reference(reference),
        stands_at(s, pos, pon_text(PonView::Reference(reference))),
        boundary(s, pos + pon_text(PonView::Reference(reference)).len()),
    ensures
        parse_value(s, pos) == Ok::<(PonView, int), int>(
            (PonView::Reference(reference), pos + pon_text(PonView::Reference(reference)).len()),
        ),
{
    let t = pon_text(PonView::Reference(reference));
    lemma_stands_at(s, pos, t);
    lemma_reference_reads_back(reference, s, pos);
    assert(s[pos + 0] == t[0]);
}

/// A text in quotes reads back.
pub proof fn lemma_string_reads_back(text: Seq<char>, s: Seq<char>, pos: int)
    requires
        canonical(PonView::String(text)),
        stands_at(s, pos, pon_text(PonView::String(text))),
    ensures
        parse_value(s, pos) == Ok::<(PonView, int), int>(
            (PonView::String(text), pos + pon_text(PonView::String(text)).len()),
        ),
{
    let t = pon_text(PonView::String(text));
    lemma_stands_at(s, pos, t);
    assert(s[pos + 0] == t[0]);
    assert(t =~= seq!['\''] + (text + seq!['\'']));
    lemma_stands_split(s, pos, seq!['\''], text + seq!['\'']);
    lemma_stands_split(s, pos + 1, text, seq!['\'']);
    lemma_stands_at(s, pos + 1 + text.len(), seq!['\'']);
    assert(s[pos + 1 + text.len() + 0] == '\'');
    assert forall|i: int| 0 <= i < text.len() implies in_class(CharClass::Quoted, #[trigger] text[i]) by {}
    lemma_scan_run(s, pos + 1, text, CharClass::Quoted);
    assert(s.subrange(pos + 1, pos + 1 + text.len()) == text);
}

/// The text of a truth value reads back.
pub proof fn lemma_boolean_reads_back(b: bool, s: Seq<char>, pos: int)
    requires
        stands_at(s, pos, pon_text(PonView::Boolean(b))),
        boundary(s, pos + pon_text(PonView::Boolean(b)).len()),
    ensures
        parse_value(s, pos) == Ok::<(PonView, int), int>(
            (PonView::Boolean(b), pos + pon_text(PonView::Boolean(b)).len()),
        ),
{
    let t = pon_text(PonView::Boolean(b));
    lemma_stands_at(s, pos, t);
    assert(s[pos + 0] == t[0]);
    assert forall|i: int| 0 <= i < t.len() implies in_class(CharClass::Name, #[trigger] t[i]) by {}
    lemma_scan_run(s, pos, t, CharClass::Name);
    assert(s.subrange(pos, pos + t.len()) == t);
    assert(word_true() != word_false()) by {
        assert(word_true().len() != word_false().len());
    }
}

/// The text of an array reads back.
pub proof fn lemma_array_reads_back(items: Seq<PonView>, s: Seq<char>, pos: int)
    requires
        canonical(PonView::Array(items)),
        stands_at(s, pos, pon_text(PonView::Array(items))),
    ensures
        parse_value(s, pos) == Ok::<(PonView, int), int>(
            (PonView::Array(items), pos + pon_text(PonView::Array(items)).len()),
        ),
    decreases items, items.len() + 1, 0nat,
{
    let t = pon_text(PonView::Array(items));
    let texts = item_texts(items);
    let inner = listed(texts);
    lemma_stands_at(s, pos, t);
    assert(s[pos + 0] == t[0]);
    assert(t =~= seq!['['] + (inner + seq![']']));
    lemma_stands_split(s, pos, seq!['['], inner + seq![']']);
    if items.len() == 0 {
        assert(texts =~= Seq::<Seq<char>>::empty());
        assert(inner =~= Seq::<char>::empty());
        lemma_stands_at(s, pos + 1, inner + seq![']']);
        assert(s[pos + 1 + 0] == ']');
        lemma_no_space(s, pos + 1);
        assert(items =~= Seq::<PonView>::empty());
        assert(parse_items(s, pos + 1, Seq::empty()) == Ok::<(PonView, int), int>((PonView::Array(items), pos + 2)));
    } else {
        let sep = if join_texts(texts, narrow_sep()).len() > crate::render::LINE_WIDTH {
            wide_sep()
        } else {
            narrow_sep()
        };
        assert(texts.subrange(0, texts.len() as int) =~= texts);
        lemma_text_head(items[0]);
        lemma_list_head(texts, sep);
        lemma_stands_at(s, pos + 1, inner + seq![']']);
        assert(s[pos + 1 + 0] == (inner + seq![']'])[0]);
        lemma_no_space(s, pos + 1);
        assert(items.subrange(0, 0) =~= Seq::<PonView>::empty());
        lemma_items_read_back(items, 0, s, pos + 1, pos + 1, sep);
        assert(parse_items(s, pos + 1, Seq::empty()) == Ok::<(PonView, int), int>(
            (PonView::Array(items), pos + 1 + inner.len() + 1),
        ));
    }
}

/// The text of an object reads back.
pub proof fn lemma_object_reads_back(fields: Seq<(Seq<char>, PonView)>, s: Seq<char>, pos: int)
    requires
        canonical(PonView::Object(fields)),
        stands_at(s, pos, pon_text(PonView::Object(fields))),
    ensures
        parse_value(s, pos) == Ok::<(PonView, int), int>(
            (PonView::Object(fields), pos + pon_text(PonView::Object(fields)).len()),
        ),
    decreases fields, fields.len() + 1, 0nat,
{
    let t = pon_text(PonView::Object(fields));
    let texts = field_texts(fields);
    let inner = listed(texts);
    lemma_stands_at(s, pos, t);
    assert(s[pos + 0] == t[0]);
    assert(t =~= seq!['{', ' '] + (inner + seq![' ', '}']));
    lemma_stands_split(s, pos, seq!['{', ' '], inner + seq![' ', '}']);
    lemma_stands_at(s, pos, seq!['{', ' ']);
    assert(s[pos + 1] == ' ');
    if fields.len() == 0 {
        assert(texts =~= Seq::<Seq<char>>::empty());
        assert(inner =~= Seq::<char>::empty());
        lemma_stands_at(s, pos + 2, inner + seq![' ', '}']);
        assert(s[pos + 2 + 0] == ' ');
        assert(s[pos + 2 + 1] == '}');
        lemma_scan_exact(s, pos + 1, pos + 3, CharClass::Space);
        assert(fields =~= Seq::<(Seq<char>, PonView)>::empty());
        assert(parse_fields(s, pos + 1, Seq::empty()) == Ok::<(PonView, int), int>(
            (PonView::Object(fields), pos + 4),
        ));
    } else {
        let sep = if join_texts(texts, narrow_sep()).len() > crate::render::LINE_WIDTH {
            wide_sep()
        } else {
            narrow_sep()
        };
        assert(texts.subrange(0, texts.len() as int) =~= texts);
        assert(texts[0] == fields[0].0 + seq![':', ' '] + pon_text(fields[0].1));
        assert(texts[0][0] == fields[0].0[0]);
        lemma_list_head(texts, sep);
        lemma_stands_at(s, pos + 2, inner + seq![' ', '}']);
        assert(s[pos + 2 + 0] == (inner + seq![' ', '}'])[0]);
        lemma_scan_exact(s, pos + 1, pos + 2, CharClass::Space);
        assert(fields.subrange(0, 0) =~= Seq::<(Seq<char>, PonView)>::empty());
        lemma_fields_read_back(fields, 0, s, pos + 1, pos + 2, sep);
        assert(parse_fields(s, pos + 1, Seq::empty()) == Ok::<(PonView, int), int>(
            (PonView::Object(fields), pos + 2 + inner.len() + 2),
        ));
    }
}

/// A joined list of texts begins with the first of them.
pub proof fn lemma_list_head(texts: Seq<Seq<char>>, sep: Seq<char>)
    requires
        texts.len() > 0,
        texts[0].len() > 0,
    ensures
        join_texts(texts, sep).len() > 0,
        join_texts(texts, sep)[0] == texts[0][0],
{
    if texts.len() >= 2 {
        lemma_join_front(texts, sep);
    }
}

/// The texts of the items of an array from the item `k` on, followed by the closing
/// bracket, read back as those items behind the items before them.
pub proof fn lemma_items_read_back(items: Seq<PonView>, k: int, s: Seq<char>, pos: int, start: int, sep: Seq<char>)
    requires
        0 <= k < items.len(),
        forall|i: int| 0 <= i < items.len() ==> canonical(#[trigger] items[i]),
        is_separator(sep),
        0 <= pos <= start,
        scan(s, pos, CharClass::Space) == start,
        stands_at(s, start, join_texts(item_texts(items).subrange(k, items.len() as int), sep) + seq![']']),
    ensures
        parse_items(s, pos, items.subrange(0, k)) == Ok::<(PonView, int), int>(
            (
                PonView::Array(items),
                start + join_texts(item_texts(items).subrange(k, items.len() as int), sep).len() + 1,
            ),
        ),
    decreases items, items.len() - k, 0nat,
{
    let n = items.len() as int;
    let texts = item_texts(items).subrange(k, n);
    let joined = join_texts(texts, sep);
    let done = items.subrange(0, k);
    let t = pon_text(items[k]);
    assert(texts[0] == t);
    lemma_text_head(items[k]);
    lemma_stands_split(s, start, joined, seq![']']);
    lemma_stands_at(s, start + joined.len(), seq![']']);
    assert(s[start + joined.len() + 0] == ']');
    if k == n - 1 {
        assert(texts.len() == 1);
        assert(joined == t);
        lemma_stands_at(s, start, t);
        assert(s[start + 0] == t[0]);
        lemma_value_reads_back(items[k], s, start);
        lemma_no_space(s, start + t.len());
        assert(done.push(items[k]) =~= items);
    } else {
        lemma_join_front(texts, sep);
        let rest = join_texts(texts.drop_first(), sep);
        assert(texts.drop_first() =~= item_texts(items).subrange(k + 1, n));
        lemma_stands_split(s, start, t, sep + rest);
        lemma_stands_at(s, start, t);
        assert(s[start + 0] == t[0]);
        let comma = start + t.len();
        lemma_stands_split(s, comma, sep, rest);
        lemma_stands_at(s, comma, sep);
        assert(s[comma + 0] == sep[0]);
        assert(s[comma + 1] == sep[1]);
        lemma_value_reads_back(items[k], s, start);
        lemma_no_space(s, comma);
        lemma_text_head(items[k + 1]);
        assert(texts.drop_first()[0] == pon_text(items[k + 1]));
        lemma_list_head(texts.drop_first(), sep);
        lemma_stands_at(s, comma + 2, rest);
        assert(s[comma + 2 + 0] == rest[0]);
        lemma_scan_exact(s, comma + 1, comma + 2, CharClass::Space);
        assert(done.push(items[k]) =~= items.subrange(0, k + 1));
        assert(joined + seq![']'] =~= (t + sep) + (rest + seq![']']));
        lemma_stands_split(s, start, t + sep, rest + seq![']']);
        lemma_items_read_back(items, k + 1, s, comma + 1, comma + 2, sep);
    }
}

/// The texts of the fields of an object from the field `k` on, followed by a blank and
/// the closing brace, read back as those fields behind the fields before them.
pub proof fn lemma_fields_read_back(
    fields: Seq<(Seq<char>, PonView)>,
    k: int,
    s: Seq<char>,
    pos: int,
    start: int,
    sep: Seq<char>,
)
    requires
        0 <= k < fields.len(),
        keys_sorted(fields),
        forall|i: int| 0 <= i < fields.len() ==> is_name((#[trigger] fields[i]).0) && canonical(fields[i].1),
        is_separator(sep),
        0 <= pos <= start,
        scan(s, pos, CharClass::Space) == start,
        stands_at(
            s,
            start,
            join_texts(field_texts(fields).subrange(k, fields.len() as int), sep) + seq![' ', '}'],
        ),
    ensures
        parse_fields(s, pos, fields.subrange(0, k)) == Ok::<(PonView, int), int>(
            (
                PonView::Object(fields),
                start + join_texts(field_texts(fields).subrange(k, fields.len() as int), sep).len() + 2,
            ),
        ),
    decreases fields, fields.len() - k, 0nat,
{
    let n = fields.len() as int;
    let texts = field_texts(fields).subrange(k, n);
    let joined = join_texts(texts, sep);
    let done = fields.subrange(0, k);
    let key = fields[k].0;
    let value = fields[k].1;
    let v = pon_text(value);
    let t = key + seq![':', ' '] + v;
    assert(texts[0] == t);
    assert(t =~= key + (seq![':', ' '] + v));
    lemma_text_head(value);
    lemma_stands_split(s, start, joined, seq![' ', '}']);
    lemma_stands_at(s, start + joined.len(), seq![' ', '}']);
    assert(s[start + joined.len() + 0] == ' ');
    assert(s[start + joined.len() + 1] == '}');
    // the new field belongs behind all fields that were read
    assert forall|i: int| 0 <= i < done.len() implies crate::text::text_lt(#[trigger] done[i].0, key) by {
        assert(done[i] == fields[i]);
    }
    lemma_lower_bound_at_end(done, key);
    assert(done.insert(done.len() as int, (key, value)) =~= done.push((key, value)));
    assert(object_insert(done, key, value) == done.push((key, value))) by {
        if lower_bound(done, key) < done.len() {
        }
    }
    assert(done.push(fields[k]) =~= fields.subrange(0, k + 1));
    if k == n - 1 {
        assert(texts.len() == 1);
        assert(joined == t);
        lemma_field_reads_back(key, value, s, start);
        let end = start + t.len();
        lemma_value_reads_back(value, s, start + key.len() + 2);
        lemma_scan_exact(s, end, end + 1, CharClass::Space);
        assert(fields.subrange(0, k + 1) =~= fields);
    } else {
        lemma_join_front(texts, sep);
        let rest = join_texts(texts.drop_first(), sep);
        assert(texts.drop_first() =~= field_texts(fields).subrange(k + 1, n));
        lemma_stands_split(s, start, t, sep + rest);
        let comma = start + t.len();
        lemma_stands_split(s, comma, sep, rest);
        lemma_stands_at(s, comma, sep);
        assert(s[comma + 0] == sep[0]);
        assert(s[comma + 1] == sep[1]);
        lemma_field_reads_back(key, value, s, start);
        lemma_value_reads_back(value, s, start + key.len() + 2);
        lemma_no_space(s, comma);
        let next_key = fields[k + 1].0;
        assert(texts.drop_first()[0] == next_key + seq![':', ' '] + pon_text(fields[k + 1].1));
        assert(texts.drop_first()[0][0] == next_key[0]);
        lemma_list_head(texts.drop_first(), sep);
        lemma_stands_at(s, comma + 2, rest);
        assert(s[comma + 2 + 0] == rest[0]);
        lemma_scan_exact(s, comma + 1, comma + 2, CharClass::Space);
        assert(joined + seq![' ', '}'] =~= (t + sep) + (rest + seq![' ', '}']));
        lemma_stands_split(s, start, t + sep, rest + seq![' ', '}']);
        lemma_fields_read_back(fields, k + 1, s, comma + 1, comma + 2, sep);
    }
}

/// Where the text of a field stands, its key is scanned to the colon, and the value
/// stands behind the colon and a blank.
pub proof fn lemma_field_reads_back(key: Seq<char>, value: PonView, s: Seq<char>, start: int)
    requires
        is_name(key),
        canonical(value),
        stands_at(s, start, key + seq![':', ' '] + pon_text(value)),
    ensures
        is_name_start(s[start]),
        scan(s, start, CharClass::Name) == start + key.len(),
        s.subrange(start, start + key.len()) == key,
        s[start + key.len()] == ':',
        scan(s, start + key.len(), CharClass::Space) == start + key.len(),
        scan(s, start + key.len() + 1, CharClass::Space) == start + key.len() + 2,
        stands_at(s, start + key.len() + 2, pon_text(value)),
{
    let v = pon_text(value);
    let t = key + seq![':', ' '] + v;
    assert(t =~= key + (seq![':', ' '] + v));
    lemma_text_head(value);
    lemma_stands_split(s, start, key, seq![':', ' '] + v);
    lemma_stands_at(s, start, key);
    assert(s[start + 0] == key[0]);
    let colon = start + key.len();
    lemma_stands_split(s, colon, seq![':', ' '], v);
    lemma_stands_at(s, colon, seq![':', ' ']);
    assert(s[colon + 0] == ':');
    assert(s[colon + 1] == ' ');
    lemma_stands_at(s, colon + 2, v);
    assert(s[colon + 2 + 0] == v[0]);
    assert forall|i: int| 0 <= i < key.len() implies in_class(CharClass::Name, #[trigger] key[i]) by {}
    lemma_scan_run(s, start, key, CharClass::Name);
    lemma_no_space(s, colon);
    lemma_scan_exact(s, colon + 1, colon + 2, CharClass::Space);
}

/// The text of a canonical value reads back as the value.
pub proof fn law_text_reads_back(pon: PonView)
    requires
        canonical(pon),
    ensures
        parse_text(pon_text(pon)) == Ok::<PonView, int>(pon),
{
    let t = pon_text(pon);
    lemma_text_head(pon);
    assert(t.subrange(0, t.len() as int) =~= t);
    lemma_no_space(t, 0);
    lemma_value_reads_back(pon, t, 0);
    lemma_no_space(t, t.len() as int);
}


/// A run of name characters that begins like a name is a name.
pub proof fn lemma_scanned_name(s: Seq<char>, pos: int)
    requires
        0 <= pos < s.len(),
        is_name_start(s[pos]),
    ensures
        pos < scan(s, pos, CharClass::Name) <= s.len(),
        is_name(s.subrange(pos, scan(s, pos, CharClass::Name))),
{
    lemma_scan(s, pos, CharClass::Name);
    lemma_scan(s, pos + 1, CharClass::Name);
    let end = scan(s, pos, CharClass::Name);
    let name = s.subrange(pos, end);
    assert(name[0] == s[pos]);
    assert forall|i: int| 0 <= i < name.len() implies is_name_char(#[trigger] name[i]) by {
        assert(name[i] == s[pos + i]);
        assert(in_class(CharClass::Name, s[pos + i]));
    }
}

/// What is read as the rest of a reference behind a canonical path is a canonical
/// reference.
pub proof fn lemma_reference_rest_is_canonical(s: Seq<char>, pos: int, path: EntityPathView)
    requires
        canonical_path(path),
    ensures
        parse_reference_rest(s, pos, path) matches Ok((reference, end)) ==> canonical_reference(reference) && pos
            < end <= s.len(),
    decreases s.len() - pos,
{
    if 0 <= pos < s.len() && (s[pos] == ':' || s[pos] == '.') {
        let end = scan(s, pos + 1, CharClass::Name);
        if pos + 1 < s.len() && is_name_start(s[pos + 1]) && end > pos {
            lemma_scanned_name(s, pos + 1);
            if s[pos] != '.' {
                lemma_reference_rest_is_canonical(
                    s,
                    end,
                    EntityPathView::Search(Box::new(path), s.subrange(pos + 1, end)),
                );
            }
        }
    }
}

/// What is read as a reference is a canonical reference.
pub proof fn lemma_reference_is_canonical(s: Seq<char>, pos: int)
    ensures
        parse_reference(s, pos) matches Ok((reference, end)) ==> canonical_reference(reference) && pos < end
            <= s.len(),
{
    if 0 <= pos < s.len() && is_name_start(s[pos]) {
        lemma_scanned_name(s, pos);
        let end = scan(s, pos, CharClass::Name);
        lemma_reference_rest_is_canonical(s, end, path_segment(s.subrange(pos, end)));
    }
}

/// What is read as a number is in lowest terms.
pub proof fn lemma_number_is_canonical(s: Seq<char>, pos: int)
    requires
        0 <= pos < s.len(),
    ensures
        parse_number(s, pos) matches Ok((value, end)) ==> canonical(value) && pos < end <= s.len(),
{
    let negative = s[pos] == '-';
    let start = if negative {
        pos + 1
    } else {
        pos
    };
    lemma_scan(s, start, CharClass::Digit);
    let end = scan(s, start, CharClass::Digit);
    if end > start && end + 1 < s.len() && s[end] == '.' && is_digit(s[end + 1]) {
        lemma_scan(s, end + 1, CharClass::Digit);
        let last = scan(s, end + 1, CharClass::Digit);
        let whole = s.subrange(start, end);
        let fraction = s.subrange(end + 1, last);
        let kept = strip_zeros(fraction);
        lemma_strip_zeros(fraction);
        if decimal_of(negative, whole, fraction) is Some {
            let (mantissa, scale) = decimal_of(negative, whole, fraction)->0;
            if scale > 0 {
                assert forall|i: int| 0 <= i < kept.len() implies is_digit(#[trigger] kept[i]) by {
                    assert(kept[i] == fraction.subrange(0, kept.len() as int)[i]);
                    assert(fraction[i] == s[end + 1 + i]);
                    assert(in_class(CharClass::Digit, s[end + 1 + i]));
                }
                lemma_last_digit(whole, kept);
                let m = crate::text::digits_value(whole + kept) as int;
                if negative {
                    assert((-m) % 10 != 0) by (nonlinear_arith)
                        requires
                            m % 10 != 0,
                    ;
                }
            }
            assert(in_lowest_terms(mantissa, scale));
            assert(Decimal::of(mantissa as i64, scale as u8).wf());
        }
    }
}

/// Every field of an object into which a field was put is that field or was there.
pub proof fn lemma_inserted_fields(fields: Seq<(Seq<char>, PonView)>, key: Seq<char>, value: PonView)
    ensures
        forall|j: int|
            0 <= j < object_insert(fields, key, value).len() ==> (#[trigger] object_insert(fields, key, value)[j]) == (
                key,
                value,
            ) || exists|i: int| 0 <= i < fields.len() && fields[i] == object_insert(fields, key, value)[j],
{
    lemma_lower_bound(fields, key);
    let at = lower_bound(fields, key) as int;
    let out = object_insert(fields, key, value);
    assert forall|j: int| 0 <= j < out.len() implies (#[trigger] out[j]) == (key, value) || exists|i: int|
        0 <= i < fields.len() && fields[i] == out[j] by {
        if at < fields.len() && fields[at].0 == key {
            if j != at {
                assert(fields[j] == out[j]);
            }
        } else {
            if j < at {
                assert(fields[j] == out[j]);
            } else if j > at {
                assert(fields[j - 1] == out[j]);
            }
        }
    }
}

/// What is read as a value is canonical, and reading moves on.
pub proof fn lemma_value_is_canonical(s: Seq<char>, pos: int)
    ensures
        parse_value(s, pos) matches Ok((value, end)) ==> canonical(value) && pos < end <= s.len(),
    decreases s.len() - pos, 0nat,
{
    if 0 <= pos < s.len() {
        if s[pos] == '@' {
            lemma_reference_is_canonical(s, pos + 1);
        } else if s[pos] == '[' {
            lemma_items_are_canonical(s, pos + 1, Seq::empty());
        } else if s[pos] == '{' {
            lemma_fields_are_canonical(s, pos + 1, Seq::empty());
        } else if s[pos] == '(' {
        } else if s[pos] == '\'' {
            lemma_scan(s, pos + 1, CharClass::Quoted);
            let end = scan(s, pos + 1, CharClass::Quoted);
            let text = s.subrange(pos + 1, end);
            assert forall|i: int| 0 <= i < text.len() implies #[trigger] text[i] != '\'' by {
                assert(text[i] == s[pos + 1 + i]);
                assert(in_class(CharClass::Quoted, s[pos + 1 + i]));
            }
        } else if s[pos] == '-' || is_digit(s[pos]) {
            lemma_number_is_canonical(s, pos);
        } else if is_name_start(s[pos]) {
            lemma_scanned_name(s, pos);
            let end = scan(s, pos, CharClass::Name);
            if end < s.len() && (s[end] == '.' || s[end] == ':') {
                lemma_reference_is_canonical(s, pos);
            } else {
                lemma_scan(s, end, CharClass::Space);
                let next = scan(s, end, CharClass::Space);
                if next > pos {
                    lemma_value_is_canonical(s, next);
                }
            }
        }
    }
}

/// What is read as the rest of an array behind canonical items is a canonical array.
pub proof fn lemma_items_are_canonical(s: Seq<char>, pos: int, done: Seq<PonView>)
    requires
        forall|i: int| 0 <= i < done.len() ==> canonical(#[trigger] done[i]),
    ensures
        parse_items(s, pos, done) matches Ok((value, end)) ==> canonical(value) && pos < end <= s.len(),
    decreases s.len() - pos, 1nat,
{
    if 0 <= pos <= s.len() {
        lemma_scan(s, pos, CharClass::Space);
        let first = scan(s, pos, CharClass::Space);
        if !(done.len() == 0 && first < s.len() && s[first] == ']') {
            lemma_value_is_canonical(s, first);
            match parse_value(s, first) {
                Ok((item, end)) => {
                    lemma_scan(s, end, CharClass::Space);
                    let next = scan(s, end, CharClass::Space);
                    let more = done.push(item);
                    assert forall|i: int| 0 <= i < more.len() implies canonical(#[trigger] more[i]) by {
                        if i < done.len() {
                            assert(more[i] == done[i]);
                        }
                    }
                    if end > pos && 0 <= next < s.len() && s[next] == ',' && next >= end {
                        lemma_items_are_canonical(s, next + 1, more);
                    }
                },
                Err(_) => {},
            }
        }
    }
}

/// What is read as the rest of an object behind canonical, sorted fields is a
/// canonical object.
pub proof fn lemma_fields_are_canonical(s: Seq<char>, pos: int, done: Seq<(Seq<char>, PonView)>)
    requires
        keys_sorted(done),
        forall|i: int| 0 <= i < done.len() ==> is_name((#[trigger] done[i]).0) && canonical(done[i].1),
    ensures
        parse_fields(s, pos, done) matches Ok((value, end)) ==> canonical(value) && pos < end <= s.len(),
    decreases s.len() - pos, 1nat,
{
    if 0 <= pos <= s.len() {
        lemma_scan(s, pos, CharClass::Space);
        let first = scan(s, pos, CharClass::Space);
        if !(done.len() == 0 && first < s.len() && s[first] == '}') && first < s.len() && is_name_start(s[first]) {
            lemma_scanned_name(s, first);
            let key_end = scan(s, first, CharClass::Name);
            let key = s.subrange(first, key_end);
            lemma_scan(s, key_end, CharClass::Space);
            let colon = scan(s, key_end, CharClass::Space);
            if key_end > first && 0 <= colon < s.len() && s[colon] == ':' && colon >= key_end {
                lemma_scan(s, colon + 1, CharClass::Space);
                let start = scan(s, colon + 1, CharClass::Space);
                if start > colon {
                    lemma_value_is_canonical(s, start);
                    match parse_value(s, start) {
                        Ok((value, end)) => {
                            lemma_scan(s, end, CharClass::Space);
                            let next = scan(s, end, CharClass::Space);
                            let more = object_insert(done, key, value);
                            lemma_object_insert(done, key, value);
                            lemma_inserted_fields(done, key, value);
                            assert forall|i: int| 0 <= i < more.len() implies is_name((#[trigger] more[i]).0)
                                && canonical(more[i].1) by {
                                if more[i] != (key, value) {
                                    let j = choose|j: int| 0 <= j < done.len() && done[j] == more[i];
                                    assert(is_name(done[j].0));
                                }
                            }
                            if end > pos && 0 <= next < s.len() && s[next] == ',' && next >= end {
                                lemma_fields_are_canonical(s, next + 1, more);
                            }
                        },
                        Err(_) => {},
                    }
                }
            }
        }
    }
}

/// What a text reads as is canonical.
pub proof fn law_what_is_read_is_canonical(text: Seq<char>)
    ensures
        parse_text(text) matches Ok(value) ==> canonical(value),
{
    lemma_value_is_canonical(text, scan(text, 0, CharClass::Space));
}

/// Reading, writing and reading again gives what reading gave: the text of a value
/// that was read reads back as that value.
pub proof fn law_round_trip(text: Seq<char>)
    ensures
        parse_text(text) matches Ok(value) ==> parse_text(pon_text(value)) == Ok::<PonView, int>(value),
{
    law_what_is_read_is_canonical(text);
    match parse_text(text) {
        Ok(value) => {
            law_text_reads_back(value);
        },
        Err(_) => {},
    }
}

} // verus!
