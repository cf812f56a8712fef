//! Reading a value from its text.
//!
//! The grammar: a value is a live reference `@path.key`, a reference `path.key`, an
//! array `[a, b]`, an object `{ key: value }`, the empty value `()`, a text in single
//! quotes, an integer `-5`, a number `5.0`, `true`, `false`, or a name followed by a
//! value. A path is `this`, `parent` or a name, followed by any number of `:name`.
//! Blanks and line breaks may stand around values and separators.

use vstd::prelude::*;
use crate::decimal::accumulate_digits;
use crate::decimal::decimal_of;
use crate::decimal::integer_of;
use crate::decimal::lemma_strip_zeros;
use crate::decimal::signed;
use crate::decimal::strip_zeros;
use crate::decimal::Decimal;
use crate::decimal::MAX_MAGNITUDE;
use crate::pon::lemma_array_view;
use crate::pon::lemma_object_view;
use crate::pon::object_insert;
use crate::pon::pon_views;
use crate::pon::EntityPath;
use crate::pon::EntityPathView;
use crate::pon::NamedPropRef;
use crate::pon::NamedPropRefView;
use crate::pon::Pon;
use crate::pon::PonObject;
use crate::pon::PonView;
use crate::pon::TypedPon;
use crate::text::all_digits;
use crate::text::chars_of;
use crate::text::digits_value;
use crate::text::is_digit;
use crate::text::lemma_digits_value_concat;
use crate::text::lemma_pow10_positive;
use crate::text::pow10;
use crate::text::text_between;

verus! {

/// Why a text is no value: the place, counted in characters, at which reading could
/// not go on.
#[derive(PartialEq, Eq, Debug, Clone, Copy)]
pub struct PonParseError {
    pub offset: usize,
}

/// A class of characters.
#[derive(PartialEq, Eq, Debug, Clone, Copy)]
pub enum CharClass {
    /// Blanks, tabs and line breaks.
    Space,
    /// Letters, digits and the underscore.
    Name,
    /// The ten digits.
    Digit,
    /// Everything but the single quote.
    Quoted,
}

pub open spec fn is_space(c: char) -> bool {
    c == ' ' || c == '\n' || c == '\t' || c == '\r'
}

/// Whether a name can begin with `c`: a letter or the underscore.
pub open spec fn is_name_start(c: char) -> bool {
    ('a' <= c <= 'z') || ('A' <= c <= 'Z') || c == '_'
}

/// Whether `c` can stand in a name: a letter, a digit or the underscore.
pub open spec fn is_name_char(c: char) -> bool {
    is_name_start(c) || is_digit(c)
}

/// Whether `s` is a name.
pub open spec fn is_name(s: Seq<char>) -> bool {
    &&& s.len() > 0
    &&& is_name_start(s[0])
    &&& forall|i: int| 0 <= i < s.len() ==> is_name_char(#[trigger] s[i])
}

pub open spec fn in_class(class: CharClass, c: char) -> bool {
    match class {
        CharClass::Space => is_space(c),
        CharClass::Name => is_name_char(c),
        CharClass::Digit => is_digit(c),
        CharClass::Quoted => c != '\'',
    }
}

/// The end of the longest run of characters of `class` that begins at `pos`.
pub open spec fn scan(s: Seq<char>, pos: int, class: CharClass) -> int
    decreases s.len() - pos,
{
    if 0 <= pos < s.len() && in_class(class, s[pos]) {
        scan(s, pos + 1, class)
    } else {
        pos
    }
}

pub proof fn lemma_scan(s: Seq<char>, pos: int, class: CharClass)
    requires
        0 <= pos <= s.len(),
    ensures
        pos <= scan(s, pos, class) <= s.len(),
        forall|i: int| pos <= i < scan(s, pos, class) ==> in_class(class, #[trigger] s[i]),
        scan(s, pos, class) < s.len() ==> !in_class(class, s[scan(s, pos, class)]),
    decreases s.len() - pos,
{
    if pos < s.len() && in_class(class, s[pos]) {
        lemma_scan(s, pos + 1, class);
    }
}

/// A run that is followed by a character of another class, or by nothing, ends there.
pub proof fn lemma_scan_exact(s: Seq<char>, pos: int, end: int, class: CharClass)
    requires
        0 <= pos <= end <= s.len(),
        forall|i: int| pos <= i < end ==> in_class(class, #[trigger] s[i]),
        end < s.len() ==> !in_class(class, s[end]),
    ensures
        scan(s, pos, class) == end,
    decreases end - pos,
{
    if pos < end {
        lemma_scan_exact(s, pos + 1, end, class);
    }
}

pub open spec fn word_this() -> Seq<char> {
    seq!['t', 'h', 'i', 's']
}

pub open spec fn word_parent() -> Seq<char> {
    seq!['p', 'a', 'r', 'e', 'n', 't']
}

pub open spec fn word_true() -> Seq<char> {
    seq!['t', 'r', 'u', 'e']
}

pub open spec fn word_false() -> Seq<char> {
    seq!['f', 'a', 'l', 's', 'e']
}

/// The path that a single name stands for.
pub open spec fn path_segment(name: Seq<char>) -> EntityPathView {
    if name == word_this() {
        EntityPathView::This
    } else if name == word_parent() {
        EntityPathView::Parent
    } else {
        EntityPathView::Named(name)
    }
}

/// What reading a value gives: the value and the place behind it, or the place at
/// which reading could not go on.
pub type Parsed<T> = Result<(T, int), int>;

/// Reads the rest of a reference: any number of `:name`, then `.key`.
pub open spec fn parse_reference_rest(s: Seq<char>, pos: int, path: EntityPathView) -> Parsed<NamedPropRefView>
    decreases s.len() - pos,
{
    if 0 <= pos < s.len() && (s[pos] == ':' || s[pos] == '.') {
        let end = scan(s, pos + 1, CharClass::Name);
        if pos + 1 < s.len() && is_name_start(s[pos + 1]) && end > pos {
            let name = s.subrange(pos + 1, end);
            if s[pos] == '.' {
                Ok((NamedPropRefView { entity_path: path, property_key: name }, end))
            } else {
                proof {
                    lemma_scan(s, pos + 1, CharClass::Name);
                }
                parse_reference_rest(s, end, EntityPathView::Search(Box::new(path), name))
            }
        } else {
            Err(pos + 1)
        }
    } else {
        Err(pos)
    }
}

/// Reads a reference that begins at `pos`: a path, a point and a key.
pub open spec fn parse_reference(s: Seq<char>, pos: int) -> Parsed<NamedPropRefView> {
    if 0 <= pos < s.len() && is_name_start(s[pos]) {
        let end = scan(s, pos, CharClass::Name);
        parse_reference_rest(s, end, path_segment(s.subrange(pos, end)))
    } else {
        Err(pos)
    }
}

/// Reads a number that begins at `pos`: a sign, digits, and a point and digits where
/// it is no integer.
pub open spec fn parse_number(s: Seq<char>, pos: int) -> Parsed<PonView> {
    let negative = 0 <= pos < s.len() && s[pos] == '-';
    let start = if negative {
        pos + 1
    } else {
        pos
    };
    let end = scan(s, start, CharClass::Digit);
    if end <= start {
        Err(start)
    } else if end + 1 < s.len() && s[end] == '.' && is_digit(s[end + 1]) {
        let last = scan(s, end + 1, CharClass::Digit);
        match decimal_of(negative, s.subrange(start, end), s.subrange(end + 1, last)) {
            Some((mantissa, scale)) => Ok((PonView::Float(Decimal::of(mantissa as i64, scale as u8)), last)),
            None => Err(pos),
        }
    } else {
        match integer_of(negative, s.subrange(start, end)) {
            Some(x) => Ok((PonView::Integer(x), end)),
            None => Err(pos),
        }
    }
}

/// Reads a value that begins at `pos`.
pub open spec fn parse_value(s: Seq<char>, pos: int) -> Parsed<PonView>
    decreases s.len() - pos, 0nat,
{
    if !(0 <= pos < s.len()) {
        Err(pos)
    } else if s[pos] == '@' {
        match parse_reference(s, pos + 1) {
            Ok((reference, end)) => Ok((PonView::DependencyReference(reference, None), end)),
            Err(at) => Err(at),
        }
    } else if s[pos] == '[' {
        parse_items(s, pos + 1, Seq::empty())
    } else if s[pos] == '{' {
        parse_fields(s, pos + 1, Seq::empty())
    } else if s[pos] == '(' {
        if pos + 1 < s.len() && s[pos + 1] == ')' {
            Ok((PonView::Nil, pos + 2))
        } else {
            Err(pos + 1)
        }
    } else if s[pos] == '\'' {
        let end = scan(s, pos + 1, CharClass::Quoted);
        if pos < end < s.len() {
            Ok((PonView::String(s.subrange(pos + 1, end)), end + 1))
        } else {
            Err(end)
        }
    } else if s[pos] == '-' || is_digit(s[pos]) {
        parse_number(s, pos)
    } else if is_name_start(s[pos]) {
        let end = scan(s, pos, CharClass::Name);
        let name = s.subrange(pos, end);
        if end < s.len() && (s[end] == '.' || s[end] == ':') {
            match parse_reference(s, pos) {
                Ok((reference, last)) => Ok((PonView::Reference(reference), last)),
                Err(at) => Err(at),
            }
        } else if name == word_true() {
            Ok((PonView::Boolean(true), end))
        } else if name == word_false() {
            Ok((PonView::Boolean(false), end))
        } else {
            let next = scan(s, end, CharClass::Space);
            if next > pos {
                proof {
                    lemma_scan(s, pos, CharClass::Name);
                    lemma_scan(s, end, CharClass::Space);
                }
                match parse_value(s, next) {
                    Ok((data, last)) => Ok((PonView::Typed { name, data: Box::new(data) }, last)),
                    Err(at) => Err(at),
                }
            } else {
                Err(next)
            }
        }
    } else {
        Err(pos)
    }
}

/// Reads the items of an array from `pos` on, behind the items `done`, up to the
/// closing bracket.
pub open spec fn parse_items(s: Seq<char>, pos: int, done: Seq<PonView>) -> Parsed<PonView>
    decreases s.len() - pos, 1nat,
{
    let first = scan(s, pos, CharClass::Space);
    if !(0 <= pos <= s.len()) {
        Err(pos)
    } else if done.len() == 0 && 0 <= first < s.len() && s[first] == ']' {
        Ok((PonView::Array(done), first + 1))
    } else {
        proof {
            lemma_scan(s, pos, CharClass::Space);
        }
        match parse_value(s, first) {
            Ok((item, end)) => {
                let next = scan(s, end, CharClass::Space);
                if end > pos && 0 <= next < s.len() && s[next] == ',' && next >= end {
                    parse_items(s, next + 1, done.push(item))
                } else if end > pos && 0 <= next < s.len() && s[next] == ']' {
                    Ok((PonView::Array(done.push(item)), next + 1))
                } else {
                    Err(next)
                }
            },
            Err(at) => Err(at),
        }
    }
}

/// Reads the fields of an object from `pos` on, behind the fields `done`, up to the
/// closing brace. A key that occurs again takes the place of the earlier one.
pub open spec fn parse_fields(s: Seq<char>, pos: int, done: Seq<(Seq<char>, PonView)>) -> Parsed<PonView>
    decreases s.len() - pos, 1nat,
{
    let first = scan(s, pos, CharClass::Space);
    if !(0 <= pos <= s.len()) {
        Err(pos)
    } else if done.len() == 0 && 0 <= first < s.len() && s[first] == '}' {
        Ok((PonView::Object(done), first + 1))
    } else if 0 <= first < s.len() && is_name_start(s[first]) {
        let key_end = scan(s, first, CharClass::Name);
        let key = s.subrange(first, key_end);
        let colon = scan(s, key_end, CharClass::Space);
        if key_end > first && 0 <= colon < s.len() && s[colon] == ':' && colon >= key_end {
            let start = scan(s, colon + 1, CharClass::Space);
            if start > colon {
                proof {
                    lemma_scan(s, pos, CharClass::Space);
                    lemma_scan(s, first, CharClass::Name);
                    lemma_scan(s, colon + 1, CharClass::Space);
                }
                match parse_value(s, start) {
                    Ok((value, end)) => {
                        let next = scan(s, end, CharClass::Space);
                        if end > pos && 0 <= next < s.len() && s[next] == ',' && next >= end {
                            parse_fields(s, next + 1, object_insert(done, key, value))
                        } else if end > pos && 0 <= next < s.len() && s[next] == '}' {
                            Ok((PonView::Object(object_insert(done, key, value)), next + 1))
                        } else {
                            Err(next)
                        }
                    },
                    Err(at) => Err(at),
                }
            } else {
                Err(start)
            }
        } else {
            Err(colon)
        }
    } else {
        Err(first)
    }
}

/// Reads the text `s` as one value, with blanks around it.
pub open spec fn parse_text(s: Seq<char>) -> Result<PonView, int> {
    match parse_value(s, scan(s, 0, CharClass::Space)) {
        Ok((value, end)) => {
            let last = scan(s, end, CharClass::Space);
            if last == s.len() {
                Ok(value)
            } else {
                Err(last)
            }
        },
        Err(at) => Err(at),
    }
}

/// Whether `c` is of the class `class`.
pub fn char_in_class(class: CharClass, c: char) -> (r: bool)
    ensures
        r == in_class(class, c),
{
    match class {
        CharClass::Space => c == ' ' || c == '\n' || c == '\t' || c == '\r',
        CharClass::Name => name_start(c) || ('0' <= c && c <= '9'),
        CharClass::Digit => '0' <= c && c <= '9',
        CharClass::Quoted => c != '\'',
    }
}

/// Whether a name can begin with `c`.
pub fn name_start(c: char) -> (r: bool)
    ensures
        r == is_name_start(c),
{
    ('a' <= c && c <= 'z') || ('A' <= c && c <= 'Z') || c == '_'
}

/// The end of the longest run of characters of `class` that begins at `pos`.
pub fn scan_chars(chars: &Vec<char>, pos: usize, class: CharClass) -> (end: usize)
    requires
        pos <= chars.len(),
    ensures
        end == scan(chars@, pos as int, class),
        pos <= end <= chars.len(),
{
    let mut end: usize = pos;
    while end < chars.len() && char_in_class(class, chars[end])
        invariant
            pos <= end <= chars.len(),
            scan(chars@, pos as int, class) == scan(chars@, end as int, class),
        decreases chars.len() - end,
    {
        end += 1;
    }
    end
}

/// The outcome of reading, seen as the grammar states it.
pub open spec fn parsed_view<T: View>(r: Result<(T, usize), PonParseError>) -> Parsed<T::V> {
    match r {
        Ok((value, end)) => Ok((value@, end as int)),
        Err(e) => Err(e.offset as int),
    }
}

/// The error of a place at which reading could not go on.
pub fn stuck<T>(at: usize) -> (r: Result<T, PonParseError>)
    ensures
        r == Err::<T, PonParseError>(PonParseError { offset: at }),
{
    Err(PonParseError { offset: at })
}

/// The path that the name `chars[from..to]` stands for.
pub fn segment(chars: &Vec<char>, from: usize, to: usize) -> (path: EntityPath)
    requires
        from <= to <= chars.len(),
    ensures
        path@ == path_segment(chars@.subrange(from as int, to as int)),
{
    let name = text_between(chars, from, to);
    proof {
        reveal_strlit("this");
        reveal_strlit("parent");
        assert("this"@ =~= word_this());
        assert("parent"@ =~= word_parent());
    }
    if crate::text::same_text(name.as_str(), "this") {
        EntityPath::This
    } else if crate::text::same_text(name.as_str(), "parent") {
        EntityPath::Parent
    } else {
        EntityPath::Named(name)
    }
}

/// Reads the rest of a reference: any number of `:name`, then `.key`.
pub fn read_reference_rest(chars: &Vec<char>, pos: usize, path: EntityPath) -> (r: Result<
    (NamedPropRef, usize),
    PonParseError,
>)
    requires
        pos <= chars.len(),
    ensures
        parsed_view(r) == parse_reference_rest(chars@, pos as int, path@),
        r matches Ok((_, end)) ==> pos < end <= chars.len(),
    decreases chars.len() - pos,
{
    if pos < chars.len() && (chars[pos] == ':' || chars[pos] == '.') {
        let end = scan_chars(chars, pos + 1, CharClass::Name);
        if pos + 1 < chars.len() && name_start(chars[pos + 1]) && end > pos {
            let name = text_between(chars, pos + 1, end);
            if chars[pos] == '.' {
                Ok((NamedPropRef { entity_path: path, property_key: name }, end))
            } else {
                read_reference_rest(chars, end, EntityPath::Search(Box::new(path), name))
            }
        } else {
            stuck(pos + 1)
        }
    } else {
        stuck(pos)
    }
}

/// Reads a reference that begins at `pos`.
pub fn read_reference(chars: &Vec<char>, pos: usize) -> (r: Result<(NamedPropRef, usize), PonParseError>)
    requires
        pos <= chars.len(),
    ensures
        parsed_view(r) == parse_reference(chars@, pos as int),
        r matches Ok((_, end)) ==> pos < end <= chars.len(),
{
    if pos < chars.len() && name_start(chars[pos]) {
        let end = scan_chars(chars, pos, CharClass::Name);
        let path = segment(chars, pos, end);
        read_reference_rest(chars, end, path)
    } else {
        stuck(pos)
    }
}

/// The place behind the last digit of `chars[from..to]` that is no zero at the end.
pub fn significant_end(chars: &Vec<char>, from: usize, to: usize) -> (end: usize)
    requires
        from <= to <= chars.len(),
    ensures
        from <= end <= to,
        chars@.subrange(from as int, end as int) == strip_zeros(chars@.subrange(from as int, to as int)),
{
    let mut end: usize = to;
    assert(chars@.subrange(from as int, to as int) =~= chars@.subrange(from as int, end as int));
    while end > from && chars[end - 1] == '0'
        invariant
            from <= end <= to <= chars.len(),
            strip_zeros(chars@.subrange(from as int, to as int)) == strip_zeros(chars@.subrange(from as int, end as int)),
        decreases end,
    {
        assert(chars@.subrange(from as int, end as int).drop_last() =~= chars@.subrange(from as int, end - 1));
        end -= 1;
    }
    end
}

/// A run of digits that ends in a digit other than zero stands for a number that ten
/// does not divide.
pub proof fn lemma_last_digit(whole: Seq<char>, kept: Seq<char>)
    requires
        all_digits(kept),
        kept.len() > 0,
        kept.last() != '0',
    ensures
        digits_value(whole + kept) % 10 != 0,
{
    assert((whole + kept).drop_last() =~= whole + kept.drop_last());
    assert((whole + kept).last() == kept.last());
    assert(is_digit(kept.last()));
}

/// The number that the digits `chars[start..end]` and `chars[from..cut]` write down one
/// after the other; `None` exactly where it is above the largest magnitude.
pub fn read_magnitude(chars: &Vec<char>, start: usize, end: usize, from: usize, cut: usize) -> (r: Option<u64>)
    requires
        start <= end <= chars.len(),
        from <= cut <= chars.len(),
        all_digits(chars@.subrange(start as int, end as int)),
        all_digits(chars@.subrange(from as int, cut as int)),
    ensures
        match r {
            Some(m) => m == digits_value(
                chars@.subrange(start as int, end as int) + chars@.subrange(from as int, cut as int),
            ) && m <= MAX_MAGNITUDE,
            None => digits_value(chars@.subrange(start as int, end as int) + chars@.subrange(from as int, cut as int))
                > MAX_MAGNITUDE,
        },
{
    let ghost whole = chars@.subrange(start as int, end as int);
    let ghost kept = chars@.subrange(from as int, cut as int);
    proof {
        lemma_digits_value_concat(whole, kept);
        lemma_pow10_positive(kept.len());
        assert(pow10(0) == 1);
    }
    match accumulate_digits(0, chars, start, end) {
        Some(w) => accumulate_digits(w, chars, from, cut),
        None => {
            proof {
                let w = digits_value(whole);
                let p = pow10(kept.len());
                assert(w * p >= w) by (nonlinear_arith)
                    requires
                        p >= 1,
                        w >= 0,
                ;
            }
            None
        },
    }
}

/// Reads a number that begins at `pos`.
pub fn read_number(chars: &Vec<char>, pos: usize) -> (r: Result<(Pon, usize), PonParseError>)
    requires
        pos < chars.len(),
    ensures
        parsed_view(r) == parse_number(chars@, pos as int),
        r matches Ok((_, end)) ==> pos < end <= chars.len(),
{
    let negative = chars[pos] == '-';
    let start = if negative {
        pos + 1
    } else {
        pos
    };
    let end = scan_chars(chars, start, CharClass::Digit);
    if end <= start {
        return stuck(start);
    }
    let ghost whole = chars@.subrange(start as int, end as int);
    proof {
        lemma_scan(chars@, start as int, CharClass::Digit);
        assert(all_digits(whole));
    }
    if end < chars.len() && chars[end] == '.' && end + 1 < chars.len() && char_in_class(
        CharClass::Digit,
        chars[end + 1],
    ) {
        let last = scan_chars(chars, end + 1, CharClass::Digit);
        let cut = significant_end(chars, end + 1, last);
        let ghost fraction = chars@.subrange(end + 1, last as int);
        let ghost kept = chars@.subrange(end + 1, cut as int);
        proof {
            lemma_scan(chars@, end + 1, CharClass::Digit);
            assert(all_digits(kept));
            lemma_strip_zeros(fraction);
        }
        match read_magnitude(chars, start, end, end + 1, cut) {
            Some(m) => {
                if cut - (end + 1) > 255 {
                    return stuck(pos);
                }
                match signed(negative, m) {
                    Some(mantissa) => {
                        let scale = (cut - (end + 1)) as u8;
                        proof {
                            if scale > 0 {
                                lemma_last_digit(whole, kept);
                                if negative {
                                    assert((-(m as int)) % 10 != 0) by (nonlinear_arith)
                                        requires
                                            (m as int) % 10 != 0,
                                    ;
                                }
                            }
                        }
                        Ok((Pon::Float(Decimal { mantissa, scale }), last))
                    },
                    None => stuck(pos),
                }
            },
            None => stuck(pos),
        }
    } else {
        proof {
            assert(whole + Seq::<char>::empty() =~= whole);
        }
        match read_magnitude(chars, start, end, end, end) {
            Some(m) => match signed(negative, m) {
                Some(x) => Ok((Pon::Integer(x), end)),
                None => stuck(pos),
            },
            None => stuck(pos),
        }
    }
}

/// Reads a value that begins at `pos`.
pub fn read_value(chars: &Vec<char>, pos: usize) -> (r: Result<(Pon, usize), PonParseError>)
    requires
        pos <= chars.len(),
    ensures
        parsed_view(r) == parse_value(chars@, pos as int),
        r matches Ok((_, end)) ==> pos < end <= chars.len(),
    decreases chars.len() - pos, 0nat,
{
    if pos >= chars.len() {
        return stuck(pos);
    }
    let c = chars[pos];
    if c == '@' {
        match read_reference(chars, pos + 1) {
            Ok((reference, end)) => Ok((Pon::DependencyReference(reference, None), end)),
            Err(e) => Err(e),
        }
    } else if c == '[' {
        let items: Vec<Pon> = Vec::new();
        assert(pon_views(items@) =~= Seq::<PonView>::empty());
        read_items(chars, pos + 1, items)
    } else if c == '{' {
        read_fields(chars, pos + 1, PonObject::new())
    } else if c == '(' {
        if pos + 1 < chars.len() && chars[pos + 1] == ')' {
            Ok((Pon::Nil, pos + 2))
        } else {
            stuck(pos + 1)
        }
    } else if c == '\'' {
        let end = scan_chars(chars, pos + 1, CharClass::Quoted);
        if end < chars.len() {
            Ok((Pon::String(text_between(chars, pos + 1, end)), end + 1))
        } else {
            stuck(end)
        }
    } else if c == '-' || char_in_class(CharClass::Digit, c) {
        read_number(chars, pos)
    } else if name_start(c) {
        let end = scan_chars(chars, pos, CharClass::Name);
        if end < chars.len() && (chars[end] == '.' || chars[end] == ':') {
            return match read_reference(chars, pos) {
                Ok((reference, last)) => Ok((Pon::Reference(reference), last)),
                Err(e) => Err(e),
            };
        }
        let name = text_between(chars, pos, end);
        proof {
            reveal_strlit("true");
            reveal_strlit("false");
            assert("true"@ =~= word_true());
            assert("false"@ =~= word_false());
            lemma_scan(chars@, pos as int, CharClass::Name);
        }
        if crate::text::same_text(name.as_str(), "true") {
            Ok((Pon::Boolean(true), end))
        } else if crate::text::same_text(name.as_str(), "false") {
            Ok((Pon::Boolean(false), end))
        } else {
            let next = scan_chars(chars, end, CharClass::Space);
            match read_value(chars, next) {
                Ok((data, last)) => Ok((Pon::TypedPon(Box::new(TypedPon { name, data })), last)),
                Err(e) => Err(e),
            }
        }
    } else {
        stuck(pos)
    }
}

/// Reads the items of an array from `pos` on, behind the items `done`.
pub fn read_items(chars: &Vec<char>, pos: usize, done: Vec<Pon>) -> (r: Result<(Pon, usize), PonParseError>)
    requires
        pos <= chars.len(),
    ensures
        parsed_view(r) == parse_items(chars@, pos as int, pon_views(done@)),
        r matches Ok((_, end)) ==> pos < end <= chars.len(),
    decreases chars.len() - pos, 1nat,
{
    let mut done = done;
    let first = scan_chars(chars, pos, CharClass::Space);
    if done.len() == 0 && first < chars.len() && chars[first] == ']' {
        proof {
            lemma_array_view(done);
        }
        return Ok((Pon::Array(done), first + 1));
    }
    match read_value(chars, first) {
        Ok((item, end)) => {
            let next = scan_chars(chars, end, CharClass::Space);
            let ghost before = pon_views(done@);
            let ghost v = item@;
            if next < chars.len() && chars[next] == ',' {
                done.push(item);
                assert(pon_views(done@) =~= before.push(v));
                read_items(chars, next + 1, done)
            } else if next < chars.len() && chars[next] == ']' {
                done.push(item);
                assert(pon_views(done@) =~= before.push(v));
                proof {
                    lemma_array_view(done);
                }
                Ok((Pon::Array(done), next + 1))
            } else {
                stuck(next)
            }
        },
        Err(e) => Err(e),
    }
}

/// Reads the fields of an object from `pos` on, behind the fields `done`.
pub fn read_fields(chars: &Vec<char>, pos: usize, done: PonObject) -> (r: Result<(Pon, usize), PonParseError>)
    requires
        pos <= chars.len(),
    ensures
        parsed_view(r) == parse_fields(chars@, pos as int, done@),
        r matches Ok((_, end)) ==> pos < end <= chars.len(),
    decreases chars.len() - pos, 1nat,
{
    let mut done = done;
    let first = scan_chars(chars, pos, CharClass::Space);
    if done.len() == 0 && first < chars.len() && chars[first] == '}' {
        proof {
            lemma_object_view(done);
        }
        return Ok((Pon::Object(done), first + 1));
    }
    if first < chars.len() && name_start(chars[first]) {
        let key_end = scan_chars(chars, first, CharClass::Name);
        let colon = scan_chars(chars, key_end, CharClass::Space);
        proof {
            lemma_scan(chars@, first as int, CharClass::Name);
        }
        if colon < chars.len() && chars[colon] == ':' {
            let start = scan_chars(chars, colon + 1, CharClass::Space);
            match read_value(chars, start) {
                Ok((value, end)) => {
                    let next = scan_chars(chars, end, CharClass::Space);
                    if next < chars.len() && chars[next] == ',' {
                        done.insert(text_between(chars, first, key_end), value);
                        read_fields(chars, next + 1, done)
                    } else if next < chars.len() && chars[next] == '}' {
                        done.insert(text_between(chars, first, key_end), value);
                        proof {
                            lemma_object_view(done);
                        }
                        Ok((Pon::Object(done), next + 1))
                    } else {
                        stuck(next)
                    }
                },
                Err(e) => Err(e),
            }
        } else {
            stuck(colon)
        }
    } else {
        stuck(first)
    }
}

impl Pon {
    /// Reads the text `string` as one value.
    pub fn from_string(string: &str) -> (r: Result<Pon, PonParseError>)
        ensures
            match r {
                Ok(pon) => parse_text(string@) == Ok::<PonView, int>(pon@) && crate::round_trip::canonical(pon@),
                Err(e) => parse_text(string@) == Err::<PonView, int>(e.offset as int),
            },
    {
        proof {
            crate::round_trip::law_what_is_read_is_canonical(string@);
        }
        let chars = chars_of(string);
        let start = scan_chars(&chars, 0, CharClass::Space);
        match read_value(&chars, start) {
            Ok((value, end)) => {
                let last = scan_chars(&chars, end, CharClass::Space);
                if last == chars.len() {
                    Ok(value)
                } else {
                    Err(PonParseError { offset: last })
                }
            },
            Err(e) => Err(e),
        }
    }
}

} // verus!
