//! Normalization of one opened file into `FileMetadata`: attribute values
//! are collapsed to canonical display strings, dimensions and variables are
//! extracted in declaration order, and each variable's attribute map is
//! built with a fixed priority probe followed by full enumeration.

use vstd::prelude::*;

use crate::errors::{concat3, concat_strs, NetCDFError};
use crate::models::{AttrMap, Dimension, FileMetadata, Variable};
use crate::reader::{AttrValue, OpenOutcome, RawAttr, RawDim, RawFile, RawVar};
use crate::strutil::{dec_str, dec_str_signed, dec_string_i64, dec_string_u64, str_eq};

verus! {

/// Views of a sequence of strings.
pub open spec fn str_views(s: Seq<String>) -> Seq<Seq<char>> {
    Seq::new(s.len(), |i: int| s[i]@)
}

/// Decimal renderings of unsigned 8-bit values.
pub open spec fn dec_views_u8(s: Seq<u8>) -> Seq<Seq<char>> {
    Seq::new(s.len(), |i: int| dec_str(s[i] as int))
}

/// Decimal renderings of signed 8-bit values.
pub open spec fn dec_views_i8(s: Seq<i8>) -> Seq<Seq<char>> {
    Seq::new(s.len(), |i: int| dec_str_signed(s[i] as int))
}

/// Decimal renderings of unsigned 16-bit values.
pub open spec fn dec_views_u16(s: Seq<u16>) -> Seq<Seq<char>> {
    Seq::new(s.len(), |i: int| dec_str(s[i] as int))
}

/// Decimal renderings of signed 16-bit values.
pub open spec fn dec_views_i16(s: Seq<i16>) -> Seq<Seq<char>> {
    Seq::new(s.len(), |i: int| dec_str_signed(s[i] as int))
}

/// Decimal renderings of unsigned 32-bit values.
pub open spec fn dec_views_u32(s: Seq<u32>) -> Seq<Seq<char>> {
    Seq::new(s.len(), |i: int| dec_str(s[i] as int))
}

/// Decimal renderings of signed 32-bit values.
pub open spec fn dec_views_i32(s: Seq<i32>) -> Seq<Seq<char>> {
    Seq::new(s.len(), |i: int| dec_str_signed(s[i] as int))
}

/// Decimal renderings of unsigned 64-bit values.
pub open spec fn dec_views_u64(s: Seq<u64>) -> Seq<Seq<char>> {
    Seq::new(s.len(), |i: int| dec_str(s[i] as int))
}

/// Decimal renderings of signed 64-bit values.
pub open spec fn dec_views_i64(s: Seq<i64>) -> Seq<Seq<char>> {
    Seq::new(s.len(), |i: int| dec_str_signed(s[i] as int))
}

/// The items joined with `", "`.
pub open spec fn join_comma(items: Seq<Seq<char>>) -> Seq<char>
    decreases items.len(),
{
    if items.len() == 0 {
        Seq::empty()
    } else if items.len() == 1 {
        items[0]
    } else {
        items[0] + ", "@ + join_comma(items.drop_first())
    }
}

/// The bracketed list rendering of the items: `[a, b, c]`.
pub open spec fn spec_list(items: Seq<Seq<char>>) -> Seq<char> {
    "["@ + join_comma(items) + "]"@
}

/// Joining one more item appends a separator exactly when the list was
/// non-empty.
proof fn lemma_join_push(items: Seq<Seq<char>>, x: Seq<char>)
    ensures
        join_comma(items.push(x)) =~= if items.len() == 0 {
            x
        } else {
            join_comma(items) + ", "@ + x
        },
    decreases items.len(),
{
    if items.len() == 0 {
        assert(items.push(x)[0] == x);
    } else if items.len() == 1 {
        assert(items.push(x).drop_first() =~= seq![x]);
        assert(items.push(x)[0] == items[0]);
        assert(join_comma(seq![x]) == x);
    } else {
        assert(items.push(x).drop_first() =~= items.drop_first().push(x));
        lemma_join_push(items.drop_first(), x);
        assert(items.push(x)[0] == items[0]);
        assert(join_comma(items.push(x)) == items[0] + ", "@ + join_comma(
            items.drop_first().push(x),
        ));
        assert(items[0] + ", "@ + (join_comma(items.drop_first()) + ", "@ + x) =~= (items[0] + ", "@
            + join_comma(items.drop_first())) + ", "@ + x);
    }
}

/// Renders `[p_0, p_1, ...]` from already-rendered parts.
fn join_list(parts: &Vec<String>) -> (r: String)
    ensures
        r@ == spec_list(str_views(parts@)),
{
    let ghost items = str_views(parts@);
    let mut acc = "[".to_owned();
    let mut i: usize = 0;
    while i < parts.len()
        invariant
            items == str_views(parts@),
            i <= parts@.len(),
            acc@ == "["@ + join_comma(items.take(i as int)),
        decreases parts@.len() - i,
    {
        if i > 0 {
            acc.append(", ");
        }
        acc.append(parts[i].as_str());
        proof {
            assert(items.take(i + 1) =~= items.take(i as int).push(items[i as int]));
            lemma_join_push(items.take(i as int), items[i as int]);
            assert(items[i as int] == parts@[i as int]@);
            if i == 0 {
                assert(acc@ =~= "["@ + join_comma(items.take(i + 1)));
            } else {
                assert(acc@ =~= "["@ + join_comma(items.take(i + 1)));
            }
        }
        i = i + 1;
    }
    acc.append("]");
    proof {
        assert(items.take(parts@.len() as int) =~= items);
        assert(acc@ =~= spec_list(items));
    }
    acc
}

/// Names what the standard `Debug` formatting renders a string list to
/// (quoted, escaped elements in brackets).
pub uninterp spec fn debug_strs_of(items: Seq<Seq<char>>) -> Seq<char>;

/// Relies on the `Debug` formatting of `Vec<String>`: a bracketed,
/// comma-separated list of the quoted, escaped elements, a function of the
/// element strings alone.
#[verifier::external_body]
fn debug_string_list(v: &Vec<String>) -> (r: String)
    ensures
        r@ == debug_strs_of(str_views(v@)),
{
    format!("{:?}", v)
}

/// Renders a list of unsigned 8-bit values.
fn render_u8s(v: &Vec<u8>) -> (r: String)
    ensures
        r@ == spec_list(dec_views_u8(v@)),
{
    let mut parts: Vec<String> = Vec::new();
    let mut i: usize = 0;
    while i < v.len()
        invariant
            parts@.len() == i,
            i <= v@.len(),
            forall|j: int| 0 <= j < i ==> (#[trigger] parts@[j])@ == dec_str(v@[j] as int),
        decreases v@.len() - i,
    {
        parts.push(dec_string_u64(v[i] as u64));
        i = i + 1;
    }
    proof {
        assert(str_views(parts@) =~= dec_views_u8(v@));
    }
    join_list(&parts)
}

/// Renders a list of signed 8-bit values.
fn render_i8s(v: &Vec<i8>) -> (r: String)
    ensures
        r@ == spec_list(dec_views_i8(v@)),
{
    let mut parts: Vec<String> = Vec::new();
    let mut i: usize = 0;
    while i < v.len()
        invariant
            parts@.len() == i,
            i <= v@.len(),
            forall|j: int| 0 <= j < i ==> (#[trigger] parts@[j])@ == dec_str_signed(v@[j] as int),
        decreases v@.len() - i,
    {
        parts.push(dec_string_i64(v[i] as i64));
        i = i + 1;
    }
    proof {
        assert(str_views(parts@) =~= dec_views_i8(v@));
    }
    join_list(&parts)
}

/// Renders a list of unsigned 16-bit values.
fn render_u16s(v: &Vec<u16>) -> (r: String)
    ensures
        r@ == spec_list(dec_views_u16(v@)),
{
    let mut parts: Vec<String> = Vec::new();
    let mut i: usize = 0;
    while i < v.len()
        invariant
            parts@.len() == i,
            i <= v@.len(),
            forall|j: int| 0 <= j < i ==> (#[trigger] parts@[j])@ == dec_str(v@[j] as int),
        decreases v@.len() - i,
    {
        parts.push(dec_string_u64(v[i] as u64));
        i = i + 1;
    }
    proof {
        assert(str_views(parts@) =~= dec_views_u16(v@));
    }
    join_list(&parts)
}

/// Renders a list of signed 16-bit values.
fn render_i16s(v: &Vec<i16>) -> (r: String)
    ensures
        r@ == spec_list(dec_views_i16(v@)),
{
    let mut parts: Vec<String> = Vec::new();
    let mut i: usize = 0;
    while i < v.len()
        invariant
            parts@.len() == i,
            i <= v@.len(),
            forall|j: int| 0 <= j < i ==> (#[trigger] parts@[j])@ == dec_str_signed(v@[j] as int),
        decreases v@.len() - i,
    {
        parts.push(dec_string_i64(v[i] as i64));
        i = i + 1;
    }
    proof {
        assert(str_views(parts@) =~= dec_views_i16(v@));
    }
    join_list(&parts)
}

/// Renders a list of unsigned 32-bit values.
fn render_u32s(v: &Vec<u32>) -> (r: String)
    ensures
        r@ == spec_list(dec_views_u32(v@)),
{
    let mut parts: Vec<String> = Vec::new();
    let mut i: usize = 0;
    while i < v.len()
        invariant
            parts@.len() == i,
            i <= v@.len(),
            forall|j: int| 0 <= j < i ==> (#[trigger] parts@[j])@ == dec_str(v@[j] as int),
        decreases v@.len() - i,
    {
        parts.push(dec_string_u64(v[i] as u64));
        i = i + 1;
    }
    proof {
        assert(str_views(parts@) =~= dec_views_u32(v@));
    }
    join_list(&parts)
}

/// Renders a list of signed 32-bit values.
fn render_i32s(v: &Vec<i32>) -> (r: String)
    ensures
        r@ == spec_list(dec_views_i32(v@)),
{
    let mut parts: Vec<String> = Vec::new();
    let mut i: usize = 0;
    while i < v.len()
        invariant
            parts@.len() == i,
            i <= v@.len(),
            forall|j: int| 0 <= j < i ==> (#[trigger] parts@[j])@ == dec_str_signed(v@[j] as int),
        decreases v@.len() - i,
    {
        parts.push(dec_string_i64(v[i] as i64));
        i = i + 1;
    }
    proof {
        assert(str_views(parts@) =~= dec_views_i32(v@));
    }
    join_list(&parts)
}

/// Renders a list of unsigned 64-bit values.
fn render_u64s(v: &Vec<u64>) -> (r: String)
    ensures
        r@ == spec_list(dec_views_u64(v@)),
{
    let mut parts: Vec<String> = Vec::new();
    let mut i: usize = 0;
    while i < v.len()
        invariant
            parts@.len() == i,
            i <= v@.len(),
            forall|j: int| 0 <= j < i ==> (#[trigger] parts@[j])@ == dec_str(v@[j] as int),
        decreases v@.len() - i,
    {
        parts.push(dec_string_u64(v[i]));
        i = i + 1;
    }
    proof {
        assert(str_views(parts@) =~= dec_views_u64(v@));
    }
    join_list(&parts)
}

/// Renders a list of signed 64-bit values.
fn render_i64s(v: &Vec<i64>) -> (r: String)
    ensures
        r@ == spec_list(dec_views_i64(v@)),
{
    let mut parts: Vec<String> = Vec::new();
    let mut i: usize = 0;
    while i < v.len()
        invariant
            parts@.len() == i,
            i <= v@.len(),
            forall|j: int| 0 <= j < i ==> (#[trigger] parts@[j])@ == dec_str_signed(v@[j] as int),
        decreases v@.len() - i,
    {
        parts.push(dec_string_i64(v[i]));
        i = i + 1;
    }
    proof {
        assert(str_views(parts@) =~= dec_views_i64(v@));
    }
    join_list(&parts)
}

/// The canonical display string of one decoded attribute value: scalars
/// render as their decimal (or verbatim) text, arrays as a bracketed list.
pub open spec fn spec_render(v: AttrValue) -> Seq<char> {
    match v {
        AttrValue::Str(s) => s@,
        AttrValue::Strs(items) => debug_strs_of(str_views(items@)),
        AttrValue::Uchar(x) => dec_str(x as int),
        AttrValue::Uchars(xs) => spec_list(dec_views_u8(xs@)),
        AttrValue::Schar(x) => dec_str_signed(x as int),
        AttrValue::Schars(xs) => spec_list(dec_views_i8(xs@)),
        AttrValue::Ushort(x) => dec_str(x as int),
        AttrValue::Ushorts(xs) => spec_list(dec_views_u16(xs@)),
        AttrValue::Short(x) => dec_str_signed(x as int),
        AttrValue::Shorts(xs) => spec_list(dec_views_i16(xs@)),
        AttrValue::Uint(x) => dec_str(x as int),
        AttrValue::Uints(xs) => spec_list(dec_views_u32(xs@)),
        AttrValue::Int(x) => dec_str_signed(x as int),
        AttrValue::Ints(xs) => spec_list(dec_views_i32(xs@)),
        AttrValue::Ulonglong(x) => dec_str(x as int),
        AttrValue::Ulonglongs(xs) => spec_list(dec_views_u64(xs@)),
        AttrValue::Longlong(x) => dec_str_signed(x as int),
        AttrValue::Longlongs(xs) => spec_list(dec_views_i64(xs@)),
        AttrValue::Float { bits, text } => text@,
        AttrValue::Floats { texts } => spec_list(str_views(texts@)),
        AttrValue::Double { bits, text } => text@,
        AttrValue::Doubles { texts } => spec_list(str_views(texts@)),
    }
}

/// The canonical display string of an attribute whose value the reader may
/// have failed to decode: absent exactly when the value is absent.
pub open spec fn spec_render_opt(v: Option<AttrValue>) -> Option<Seq<char>> {
    match v {
        None => None,
        Some(av) => Some(spec_render(av)),
    }
}

/// Converts one attribute to its canonical display string; an attribute the
/// reader could not decode yields nothing rather than an error.
pub fn attribute_to_string(attr: &RawAttr) -> (r: Option<String>)
    ensures
        crate::coordinates::opt_view(r) == spec_render_opt(attr.value),
{
    let value = match &attr.value {
        None => {
            return None;
        },
        Some(v) => v,
    };
    let rendered = match value {
        AttrValue::Str(s) => s.clone(),
        AttrValue::Strs(items) => debug_string_list(items),
        AttrValue::Uchar(x) => dec_string_u64(*x as u64),
        AttrValue::Uchars(xs) => render_u8s(xs),
        AttrValue::Schar(x) => dec_string_i64(*x as i64),
        AttrValue::Schars(xs) => render_i8s(xs),
        AttrValue::Ushort(x) => dec_string_u64(*x as u64),
        AttrValue::Ushorts(xs) => render_u16s(xs),
        AttrValue::Short(x) => dec_string_i64(*x as i64),
        AttrValue::Shorts(xs) => render_i16s(xs),
        AttrValue::Uint(x) => dec_string_u64(*x as u64),
        AttrValue::Uints(xs) => render_u32s(xs),
        AttrValue::Int(x) => dec_string_i64(*x as i64),
        AttrValue::Ints(xs) => render_i32s(xs),
        AttrValue::Ulonglong(x) => dec_string_u64(*x),
        AttrValue::Ulonglongs(xs) => render_u64s(xs),
        AttrValue::Longlong(x) => dec_string_i64(*x),
        AttrValue::Longlongs(xs) => render_i64s(xs),
        AttrValue::Float { bits: _, text } => text.clone(),
        AttrValue::Floats { texts } => join_list(texts),
        AttrValue::Double { bits: _, text } => text.clone(),
        AttrValue::Doubles { texts } => join_list(texts),
    };
    Some(rendered)
}

/// The display string of the first attribute of that name whose value the
/// reader decoded, scanning in enumeration order.
pub open spec fn spec_attr_value(attrs: Seq<RawAttr>, k: Seq<char>) -> Option<Seq<char>>
    decreases attrs.len(),
{
    if attrs.len() == 0 {
        None
    } else if attrs[0].name@ == k && attrs[0].value is Some {
        Some(spec_render(attrs[0].value->Some_0))
    } else {
        spec_attr_value(attrs.drop_first(), k)
    }
}

/// The render outcome of the first attribute of that name, decoded or not.
pub open spec fn first_occ_render(attrs: Seq<RawAttr>, k: Seq<char>) -> Option<Seq<char>>
    decreases attrs.len(),
{
    if attrs.len() == 0 {
        None
    } else if attrs[0].name@ == k {
        spec_render_opt(attrs[0].value)
    } else {
        first_occ_render(attrs.drop_first(), k)
    }
}

/// Some attribute of that name was decoded.
pub open spec fn has_decodable(attrs: Seq<RawAttr>, k: Seq<char>) -> bool {
    exists|j: int| 0 <= j < attrs.len() && attrs[j].name@ == k && attrs[j].value is Some
}

/// The display string of the last decoded attribute of that name (an
/// unguarded insertion scan keeps the last occurrence).
pub open spec fn spec_global_attr(attrs: Seq<RawAttr>, k: Seq<char>) -> Option<Seq<char>>
    decreases attrs.len(),
{
    if attrs.len() == 0 {
        None
    } else if attrs.last().name@ == k && attrs.last().value is Some {
        Some(spec_render(attrs.last().value->Some_0))
    } else {
        spec_global_attr(attrs.drop_last(), k)
    }
}

/// A name probed before general attribute enumeration.
pub open spec fn is_priority(k: Seq<char>) -> bool {
    ||| k == "units"@
    ||| k == "long_name"@
    ||| k == "standard_name"@
    ||| k == "_FillValue"@
    ||| k == "missing_value"@
    ||| k == "valid_min"@
    ||| k == "valid_max"@
}

/// `spec_attr_value` binds a key exactly when some attribute of that name
/// was decoded.
proof fn lemma_attr_value_decodable(attrs: Seq<RawAttr>, k: Seq<char>)
    ensures
        (spec_attr_value(attrs, k) is Some) == has_decodable(attrs, k),
    decreases attrs.len(),
{
    if attrs.len() > 0 {
        let sub = attrs.drop_first();
        lemma_attr_value_decodable(sub, k);
        if attrs[0].name@ == k && attrs[0].value is Some {
        } else {
            if has_decodable(sub, k) {
                let j = choose|j: int| 0 <= j < sub.len() && sub[j].name@ == k && sub[j].value
                    is Some;
                assert(attrs[j + 1] == sub[j]);
                assert(has_decodable(attrs, k));
            }
            if has_decodable(attrs, k) {
                let j = choose|j: int| 0 <= j < attrs.len() && attrs[j].name@ == k
                    && attrs[j].value is Some;
                assert(j >= 1);
                assert(sub[j - 1] == attrs[j]);
                assert(has_decodable(sub, k));
            }
        }
    }
}

/// When index `i` holds the first decoded attribute of name `k`, its
/// rendering is the attribute value.
proof fn lemma_first_decodable(attrs: Seq<RawAttr>, k: Seq<char>, i: int)
    requires
        0 <= i < attrs.len(),
        attrs[i].name@ == k,
        attrs[i].value is Some,
        forall|j: int| 0 <= j < i ==> !(attrs[j].name@ == k && attrs[j].value is Some),
    ensures
        spec_attr_value(attrs, k) == Some(spec_render(attrs[i].value->Some_0)),
    decreases i,
{
    if i > 0 {
        let sub = attrs.drop_first();
        assert(sub[i - 1] == attrs[i]);
        assert forall|j: int| 0 <= j < i - 1 implies !(sub[j].name@ == k && sub[j].value
            is Some) by {
            assert(sub[j] == attrs[j + 1]);
        }
        lemma_first_decodable(sub, k, i - 1);
    }
}

/// A decoded first occurrence is the first decoded occurrence.
proof fn lemma_first_occ_decodable(attrs: Seq<RawAttr>, k: Seq<char>)
    requires
        first_occ_render(attrs, k) is Some,
    ensures
        spec_attr_value(attrs, k) == first_occ_render(attrs, k),
        has_decodable(attrs, k),
    decreases attrs.len(),
{
    if attrs.len() > 0 {
        if attrs[0].name@ == k {
            assert(has_decodable(attrs, k));
        } else {
            let sub = attrs.drop_first();
            lemma_first_occ_decodable(sub, k);
            let j = choose|j: int| 0 <= j < sub.len() && sub[j].name@ == k && sub[j].value
                is Some;
            assert(attrs[j + 1] == sub[j]);
            assert(has_decodable(attrs, k));
        }
    }
}

/// Index of the first attribute of that name, scanning in order.
pub(crate) fn find_attr(attrs: &Vec<RawAttr>, name: &str) -> (r: Option<usize>)
    ensures
        match r {
            Some(j) => 0 <= j < attrs@.len() && attrs@[j as int].name@ == name@ && (forall|j2: int|
                0 <= j2 < j ==> attrs@[j2].name@ != name@) && first_occ_render(attrs@, name@)
                == spec_render_opt(attrs@[j as int].value),
            None => (forall|j: int| 0 <= j < attrs@.len() ==> attrs@[j].name@ != name@)
                && first_occ_render(attrs@, name@) is None,
        },
{
    let mut i: usize = 0;
    while i < attrs.len()
        invariant
            i <= attrs@.len(),
            forall|j: int| 0 <= j < i ==> attrs@[j].name@ != name@,
        decreases attrs@.len() - i,
    {
        if str_eq(attrs[i].name.as_str(), name) {
            proof {
                lemma_first_occ_at(attrs@, name@, i as int);
            }
            return Some(i);
        }
        i = i + 1;
    }
    proof {
        lemma_no_occ(attrs@, name@);
    }
    None
}

/// When index `j` holds the first attribute of name `k`, `first_occ_render`
/// renders it.
proof fn lemma_first_occ_at(attrs: Seq<RawAttr>, k: Seq<char>, j: int)
    requires
        0 <= j < attrs.len(),
        attrs[j].name@ == k,
        forall|j2: int| 0 <= j2 < j ==> attrs[j2].name@ != k,
    ensures
        first_occ_render(attrs, k) == spec_render_opt(attrs[j].value),
    decreases j,
{
    if j > 0 {
        let sub = attrs.drop_first();
        assert(sub[j - 1] == attrs[j]);
        assert forall|j2: int| 0 <= j2 < j - 1 implies sub[j2].name@ != k by {
            assert(sub[j2] == attrs[j2 + 1]);
        }
        lemma_first_occ_at(sub, k, j - 1);
    }
}

/// When no attribute carries the name, nothing renders.
proof fn lemma_no_occ(attrs: Seq<RawAttr>, k: Seq<char>)
    requires
        forall|j: int| 0 <= j < attrs.len() ==> attrs[j].name@ != k,
    ensures
        first_occ_render(attrs, k) is None,
        spec_attr_value(attrs, k) is None,
    decreases attrs.len(),
{
    if attrs.len() > 0 {
        let sub = attrs.drop_first();
        assert forall|j: int| 0 <= j < sub.len() implies sub[j].name@ != k by {
            assert(sub[j] == attrs[j + 1]);
        }
        lemma_no_occ(sub, k);
    }
}

/// Probes one priority attribute name and, when its first occurrence
/// decodes, inserts its display string under that name.
fn apply_priority(map: &mut AttrMap, attrs: &Vec<RawAttr>, name: &str)
    requires
        old(map).wf(),
    ensures
        final(map).wf(),
        forall|k: Seq<char>| #![auto] final(map).spec_get(k) == if k == name@ && first_occ_render(
            attrs@,
            name@,
        ) is Some {
            first_occ_render(attrs@, name@)
        } else {
            old(map).spec_get(k)
        },
{
    if let Some(j) = find_attr(attrs, name) {
        if let Some(value) = attribute_to_string(&attrs[j]) {
            map.insert(name.to_owned(), value);
            return ;
        }
    }
}

/// A decodable occurrence below `i` is one below `i + 1`.
proof fn lemma_exists_mono(attrs: Seq<RawAttr>, k: Seq<char>, i: int)
    ensures
        (exists|j: int| 0 <= j < i && attrs[j].name@ == k && attrs[j].value is Some) ==> (exists|
            j: int,
        | 0 <= j < i + 1 && attrs[j].name@ == k && attrs[j].value is Some),
{
    if exists|j: int| 0 <= j < i && attrs[j].name@ == k && attrs[j].value is Some {
        let j = choose|j: int| 0 <= j < i && attrs[j].name@ == k && attrs[j].value is Some;
        assert(0 <= j < i + 1 && attrs[j].name@ == k && attrs[j].value is Some);
    }
}

/// When index `i` contributes no decodable binding of `k`, the decodable
/// occurrences below `i + 1` are those below `i`.
proof fn lemma_exists_step(attrs: Seq<RawAttr>, k: Seq<char>, i: int)
    requires
        0 <= i < attrs.len(),
        attrs[i].name@ != k || attrs[i].value is None,
    ensures
        (exists|j: int| 0 <= j < i + 1 && attrs[j].name@ == k && attrs[j].value is Some) == (
        exists|j: int| 0 <= j < i && attrs[j].name@ == k && attrs[j].value is Some),
{
    lemma_exists_mono(attrs, k, i);
    if exists|j: int| 0 <= j < i + 1 && attrs[j].name@ == k && attrs[j].value is Some {
        let j = choose|j: int| 0 <= j < i + 1 && attrs[j].name@ == k && attrs[j].value is Some;
        assert(j < i);
        assert(0 <= j < i && attrs[j].name@ == k && attrs[j].value is Some);
    }
}

/// Either a priority probe or scanning the first `i` attributes has bound
/// the key.
spec fn covered(attrs: Seq<RawAttr>, k: Seq<char>, i: int) -> bool {
    (is_priority(k) && first_occ_render(attrs, k) is Some) || (exists|j: int|
        0 <= j < i && attrs[j].name@ == k && attrs[j].value is Some)
}

/// The invariant carried while one variable's attribute map is built: every
/// priority name whose first occurrence decodes is bound, as is every name
/// with a decodable occurrence among the first `i` attributes, always to the
/// value `spec_attr_value` assigns; nothing else is bound.
spec fn partial_attr_map(map: AttrMap, attrs: Seq<RawAttr>, i: int) -> bool {
    forall|k: Seq<char>|
        #![trigger spec_attr_value(attrs, k)]
        map.spec_get(k) == if covered(attrs, k, i) {
            spec_attr_value(attrs, k)
        } else {
            None::<Seq<char>>
        }
}

/// Builds one variable's attribute map: the fixed priority names first,
/// then every remaining attribute, each present name bound exactly once, to
/// the display string of its first decoded occurrence.
fn build_attr_map(attrs: &Vec<RawAttr>) -> (r: AttrMap)
    ensures
        r.wf(),
        forall|k: Seq<char>| #[trigger] r.spec_get(k) == spec_attr_value(attrs@, k),
{
    let mut map = AttrMap::new();
    apply_priority(&mut map, attrs, "units");
    apply_priority(&mut map, attrs, "long_name");
    apply_priority(&mut map, attrs, "standard_name");
    apply_priority(&mut map, attrs, "_FillValue");
    apply_priority(&mut map, attrs, "missing_value");
    apply_priority(&mut map, attrs, "valid_min");
    apply_priority(&mut map, attrs, "valid_max");
    proof {
        reveal_strlit("units");
        reveal_strlit("long_name");
        reveal_strlit("standard_name");
        reveal_strlit("_FillValue");
        reveal_strlit("missing_value");
        reveal_strlit("valid_min");
        reveal_strlit("valid_max");
        assert forall|k: Seq<char>|
            #![trigger spec_attr_value(attrs@, k)]
            map.spec_get(k) == if covered(attrs@, k, 0) {
                spec_attr_value(attrs@, k)
            } else {
                None::<Seq<char>>
            } by {
            if is_priority(k) && first_occ_render(attrs@, k) is Some {
                lemma_first_occ_decodable(attrs@, k);
            }
        }
        assert(partial_attr_map(map, attrs@, 0));
    }
    let mut i: usize = 0;
    while i < attrs.len()
        invariant
            map.wf(),
            i <= attrs@.len(),
            partial_attr_map(map, attrs@, i as int),
        decreases attrs@.len() - i,
    {
        let ghost nm = attrs@[i as int].name@;
        let present = map.contains_key(attrs[i].name.as_str());
        if !present {
            if let Some(value) = attribute_to_string(&attrs[i]) {
                proof {
                    let ghost sv = spec_attr_value(attrs@, nm);
                    assert(map.spec_get(nm) is None);
                    assert(attrs@[i as int].value is Some);
                    if exists|j: int| 0 <= j < i && attrs@[j].name@ == nm && attrs@[j].value
                        is Some {
                        assert(covered(attrs@, nm, i as int));
                        assert(map.spec_get(nm) == sv);
                        let j = choose|j: int| 0 <= j < i && attrs@[j].name@ == nm
                            && attrs@[j].value is Some;
                        lemma_attr_value_decodable(attrs@, nm);
                        assert(0 <= j < attrs@.len() && attrs@[j].name@ == nm && attrs@[j].value
                            is Some);
                        assert(false);
                    }
                    lemma_first_decodable(attrs@, nm, i as int);
                }
                let ghost pre = map;
                map.insert(attrs[i].name.clone(), value);
                proof {
                    assert forall|k: Seq<char>|
                        #![trigger spec_attr_value(attrs@, k)]
                        map.spec_get(k) == if covered(attrs@, k, i + 1) {
                            spec_attr_value(attrs@, k)
                        } else {
                            None::<Seq<char>>
                        } by {
                        if k == nm {
                            assert(0 <= i < i + 1 && attrs@[i as int].name@ == k
                                && attrs@[i as int].value is Some);
                            assert(map.spec_get(k) == Some(value@));
                        } else {
                            assert(map.spec_get(k) == pre.spec_get(k));
                            lemma_exists_step(attrs@, k, i as int);
                        }
                    }
                    assert(partial_attr_map(map, attrs@, i + 1));
                }
            } else {
                proof {
                    assert(attrs@[i as int].value is None);
                    assert forall|k: Seq<char>|
                        #![trigger spec_attr_value(attrs@, k)]
                        map.spec_get(k) == if covered(attrs@, k, i + 1) {
                            spec_attr_value(attrs@, k)
                        } else {
                            None::<Seq<char>>
                        } by {
                        lemma_exists_step(attrs@, k, i as int);
                    }
                    assert(partial_attr_map(map, attrs@, i + 1));
                }
            }
        } else {
            proof {
                assert forall|k: Seq<char>|
                    #![trigger spec_attr_value(attrs@, k)]
                    map.spec_get(k) == if covered(attrs@, k, i + 1) {
                        spec_attr_value(attrs@, k)
                    } else {
                        None::<Seq<char>>
                    } by {
                    if k == nm {
                        assert(map.spec_get(nm) is Some);
                        lemma_exists_mono(attrs@, k, i as int);
                    } else {
                        lemma_exists_step(attrs@, k, i as int);
                    }
                }
                assert(partial_attr_map(map, attrs@, i + 1));
            }
        }
        i = i + 1;
    }
    proof {
        assert forall|k: Seq<char>| #[trigger] map.spec_get(k) == spec_attr_value(attrs@, k) by {
            let ghost sv = spec_attr_value(attrs@, k);
            lemma_attr_value_decodable(attrs@, k);
            if is_priority(k) && first_occ_render(attrs@, k) is Some {
                lemma_first_occ_decodable(attrs@, k);
            }
            if spec_attr_value(attrs@, k) is Some {
                let j = choose|j: int| 0 <= j < attrs@.len() && attrs@[j].name@ == k
                    && attrs@[j].value is Some;
                assert(0 <= j < attrs@.len() && attrs@[j].name@ == k && attrs@[j].value
                    is Some);
            }
        }
    }
    map
}

/// The extracted dimension mirrors the reader's.
pub open spec fn dim_matches_raw(d: Dimension, raw: RawDim) -> bool {
    d.name@ == raw.name@ && d.size == raw.size && d.is_unlimited == raw.is_unlimited
}

/// The extracted variable mirrors the reader's: same name, the canonical
/// type tag, one dimension name and one shape entry per attached dimension,
/// and the normalized attribute map.
pub open spec fn var_matches_raw(v: Variable, raw: RawVar) -> bool {
    &&& v.name@ == raw.name@
    &&& v.data_type@ == raw.kind.spec_label()
    &&& v.dimensions@.len() == raw.dims@.len()
    &&& v.shape@.len() == raw.dims@.len()
    &&& forall|d: int|
        0 <= d < raw.dims@.len() ==> (#[trigger] v.dimensions@[d])@ == raw.dims@[d].name@
            && v.shape@[d] == raw.dims@[d].size
    &&& v.attributes.wf()
    &&& forall|k: Seq<char>| #[trigger] v.attributes.spec_get(k) == spec_attr_value(raw.attrs@, k)
}

/// Extracts every dimension of the file, in declaration order.
pub fn extract_dimensions(dims: &Vec<RawDim>) -> (r: Result<Vec<Dimension>, NetCDFError>)
    ensures
        r matches Ok(ds) && ds@.len() == dims@.len() && forall|i: int|
            0 <= i < dims@.len() ==> dim_matches_raw(#[trigger] ds@[i], dims@[i]),
{
    let mut out: Vec<Dimension> = Vec::new();
    let mut i: usize = 0;
    while i < dims.len()
        invariant
            i <= dims@.len(),
            out@.len() == i,
            forall|j: int| 0 <= j < i ==> dim_matches_raw(#[trigger] out@[j], dims@[j]),
        decreases dims@.len() - i,
    {
        out.push(
            Dimension {
                name: dims[i].name.clone(),
                size: dims[i].size,
                is_unlimited: dims[i].is_unlimited,
            },
        );
        i = i + 1;
    }
    Ok(out)
}

/// Converts one reader variable into the normalized model.
fn convert_variable(raw: &RawVar) -> (v: Variable)
    ensures
        var_matches_raw(v, *raw),
        v.wf(),
{
    let mut dimensions: Vec<String> = Vec::new();
    let mut shape: Vec<usize> = Vec::new();
    let mut d: usize = 0;
    while d < raw.dims.len()
        invariant
            d <= raw.dims@.len(),
            dimensions@.len() == d,
            shape@.len() == d,
            forall|j: int|
                0 <= j < d ==> (#[trigger] dimensions@[j])@ == raw.dims@[j].name@ && shape@[j]
                    == raw.dims@[j].size,
        decreases raw.dims@.len() - d,
    {
        let ghost pd = dimensions@;
        let ghost ps = shape@;
        dimensions.push(raw.dims[d].name.clone());
        shape.push(raw.dims[d].size);
        proof {
            assert forall|j: int|
                0 <= j < d + 1 implies (#[trigger] dimensions@[j])@ == raw.dims@[j].name@
                && shape@[j] == raw.dims@[j].size by {
                if j < d {
                    assert(dimensions@[j] == pd[j]);
                    assert(shape@[j] == ps[j]);
                    assert((pd[j])@ == raw.dims@[j].name@ && ps[j] == raw.dims@[j].size);
                } else {
                    assert(dimensions@[j] == pd.push(dimensions@[j]).last());
                }
            }
        }
        d = d + 1;
    }
    Variable {
        name: raw.name.clone(),
        data_type: raw.kind.label(),
        dimensions,
        shape,
        attributes: build_attr_map(&raw.attrs),
    }
}

/// Extracts every variable of the file, in declaration order; each one's
/// shape has exactly one entry per dimension.
pub fn extract_variables(vars: &Vec<RawVar>) -> (r: Result<Vec<Variable>, NetCDFError>)
    ensures
        r matches Ok(vs) && vs@.len() == vars@.len() && forall|i: int|
            0 <= i < vars@.len() ==> var_matches_raw(#[trigger] vs@[i], vars@[i]) && vs@[i].wf(),
{
    let mut out: Vec<Variable> = Vec::new();
    let mut i: usize = 0;
    while i < vars.len()
        invariant
            i <= vars@.len(),
            out@.len() == i,
            forall|j: int|
                0 <= j < i ==> var_matches_raw(#[trigger] out@[j], vars@[j]) && out@[j].wf(),
        decreases vars@.len() - i,
    {
        out.push(convert_variable(&vars[i]));
        i = i + 1;
    }
    Ok(out)
}

/// Extracts the file's global attributes: every decodable attribute under
/// its own name, a repeated name keeping its last decodable occurrence.
pub fn extract_global_attributes(attrs: &Vec<RawAttr>) -> (r: Result<AttrMap, NetCDFError>)
    ensures
        r matches Ok(m) && m.wf() && forall|k: Seq<char>| #[trigger] m.spec_get(k)
            == spec_global_attr(attrs@, k),
{
    let mut map = AttrMap::new();
    let mut i: usize = 0;
    while i < attrs.len()
        invariant
            map.wf(),
            i <= attrs@.len(),
            forall|k: Seq<char>| #[trigger] map.spec_get(k) == spec_global_attr(
                attrs@.take(i as int),
                k,
            ),
        decreases attrs@.len() - i,
    {
        let ghost pre = map;
        if let Some(value) = attribute_to_string(&attrs[i]) {
            map.insert(attrs[i].name.clone(), value);
        }
        proof {
            let t1 = attrs@.take(i + 1);
            assert(t1.drop_last() =~= attrs@.take(i as int));
            assert(t1.last() == attrs@[i as int]);
            assert forall|k: Seq<char>| #[trigger] map.spec_get(k) == spec_global_attr(t1, k) by {
                if attrs@[i as int].value is Some {
                    if k == attrs@[i as int].name@ {
                        assert(map.spec_get(k) == Some(spec_render(t1.last().value->Some_0)));
                    } else {
                        assert(map.spec_get(k) == pre.spec_get(k));
                    }
                } else {
                    assert(map.spec_get(k) == pre.spec_get(k));
                }
            }
        }
        i = i + 1;
    }
    proof {
        assert(attrs@.take(attrs@.len() as int) =~= attrs@);
    }
    Ok(map)
}

/// In well-formed metadata every variable's shape has exactly one entry
/// per dimension name.
pub proof fn lemma_shape_matches_dimensions(m: FileMetadata)
    requires
        m.wf(),
    ensures
        forall|i: int|
            0 <= i < m.variables@.len() ==> (#[trigger] m.variables@[i]).shape@.len()
                == m.variables@[i].dimensions@.len(),
{
}

/// The normalized metadata mirrors what the reader yielded: every
/// dimension and variable elementwise, the global attribute map, the path,
/// and well-formedness (one shape entry per dimension).
pub open spec fn metadata_matches_raw(meta: FileMetadata, path: Seq<char>, raw: RawFile) -> bool {
    &&& meta.file_path@ == path
    &&& meta.dimensions@.len() == raw.dimensions@.len()
    &&& forall|i: int|
        0 <= i < raw.dimensions@.len() ==> dim_matches_raw(
            #[trigger] meta.dimensions@[i],
            raw.dimensions@[i],
        )
    &&& meta.variables@.len() == raw.variables@.len()
    &&& forall|i: int|
        0 <= i < raw.variables@.len() ==> var_matches_raw(
            #[trigger] meta.variables@[i],
            raw.variables@[i],
        )
    &&& forall|k: Seq<char>| #[trigger] meta.global_attrs.spec_get(k) == spec_global_attr(
        raw.global_attrs@,
        k,
    )
    &&& meta.wf()
}

/// Opens a file through the external reader (whose outcome the caller
/// supplies) and normalizes everything it yielded into `FileMetadata`.
///
/// A missing path and a rejected file both fail with `FileOpenError`, the
/// former naming the path, the latter carrying the reader's message; on
/// success every dimension and variable is extracted in declaration order,
/// every variable's shape has one entry per dimension, and `coordinates` is
/// left unset for later enrichment.
pub fn open_netcdf(path: &str, outcome: OpenOutcome) -> (r: Result<FileMetadata, NetCDFError>)
    ensures
        match outcome {
            OpenOutcome::Missing => r matches Err(NetCDFError::FileOpenError(m)) && m@
                == "File not found: "@ + path@,
            OpenOutcome::Rejected(e) => r matches Err(NetCDFError::FileOpenError(m)) && m@
                == "Failed to open "@ + path@ + ": "@ + e@,
            OpenOutcome::Opened(raw) => r matches Ok(meta) && metadata_matches_raw(
                meta,
                path@,
                raw,
            ) && meta.coordinates is None,
        },
{
    let raw = match outcome {
        OpenOutcome::Missing => {
            return Err(NetCDFError::FileOpenError(concat_strs("File not found: ", path)));
        },
        OpenOutcome::Rejected(e) => {
            let msg = concat3("Failed to open ", path, ": ");
            return Err(NetCDFError::FileOpenError(concat_strs(msg.as_str(), e.as_str())));
        },
        OpenOutcome::Opened(raw) => raw,
    };
    let dimensions = match extract_dimensions(&raw.dimensions) {
        Ok(ds) => ds,
        Err(e) => {
            return Err(e);
        },
    };
    let variables = match extract_variables(&raw.variables) {
        Ok(vs) => vs,
        Err(e) => {
            return Err(e);
        },
    };
    let global_attrs = match extract_global_attributes(&raw.global_attrs) {
        Ok(m) => m,
        Err(e) => {
            return Err(e);
        },
    };
    Ok(
        FileMetadata {
            file_path: path.to_owned(),
            dimensions,
            variables,
            global_attrs,
            coordinates: None,
        },
    )
}

/// Serves a metadata request end to end: normalizes what the reader
/// yielded and enriches the result with the detected coordinates.
pub fn open_netcdf_file(path: &str, outcome: OpenOutcome) -> (r: Result<
    FileMetadata,
    NetCDFError,
>)
    ensures
        match outcome {
            OpenOutcome::Missing => r matches Err(NetCDFError::FileOpenError(m)) && m@
                == "File not found: "@ + path@,
            OpenOutcome::Rejected(e) => r matches Err(NetCDFError::FileOpenError(m)) && m@
                == "Failed to open "@ + path@ + ": "@ + e@,
            OpenOutcome::Opened(raw) => r matches Ok(meta) && {
                &&& metadata_matches_raw(meta, path@, raw)
                &&& meta.coordinates matches Some(c) && (
                crate::coordinates::opt_view(c.time_var),
                crate::coordinates::opt_view(c.lat_var),
                crate::coordinates::opt_view(c.lon_var),
                crate::coordinates::opt_view(c.time_units),
                ) == crate::coordinates::spec_detect(meta.variables@)
            },
        },
{
    let mut meta = match open_netcdf(path, outcome) {
        Ok(m) => m,
        Err(e) => {
            return Err(e);
        },
    };
    let coords = crate::coordinates::detect_coordinates(&meta);
    meta.coordinates = Some(coords);
    Ok(meta)
}

} // verus!
