//! Typed reads: dispatch on the on-disk element kind, coercion of every
//! supported numeric kind to double precision, missing-value detection,
//! character-array decoding, and validation of rectangular subset requests.

use vstd::prelude::*;

use crate::errors::{concat3, concat_strs, NetCDFError};
use crate::floatbits::{
    is_exact_int, is_nan64, is_nan_bits, is_rounded_int, is_widened, encode_i64, encode_mag,
    widen_f32,
};
use crate::loader::str_views;
use crate::models::{VariableData, VariableDataResponse};
use crate::reader::{AttrValue, RawAttr, RawDim, RawValues, RawVariable, VarFetch, VarKind};
use crate::strutil::{dec_str, dec_string_usize, utf8_lossy, utf8_lossy_of};

verus! {

/// The decoded value of the first attribute of that name, when the reader
/// decoded one.
pub open spec fn first_attr_value(attrs: Seq<RawAttr>, k: Seq<char>) -> Option<AttrValue>
    decreases attrs.len(),
{
    if attrs.len() == 0 {
        None
    } else if attrs[0].name@ == k {
        attrs[0].value
    } else {
        first_attr_value(attrs.drop_first(), k)
    }
}

/// When index `j` holds the first attribute of name `k`, `first_attr_value`
/// yields its value.
proof fn lemma_first_attr_value_at(attrs: Seq<RawAttr>, k: Seq<char>, j: int)
    requires
        0 <= j < attrs.len(),
        attrs[j].name@ == k,
        forall|j2: int| 0 <= j2 < j ==> attrs[j2].name@ != k,
    ensures
        first_attr_value(attrs, k) == attrs[j].value,
    decreases j,
{
    if j > 0 {
        let sub = attrs.drop_first();
        assert(sub[j - 1] == attrs[j]);
        assert forall|j2: int| 0 <= j2 < j - 1 implies sub[j2].name@ != k by {
            assert(sub[j2] == attrs[j2 + 1]);
        }
        lemma_first_attr_value_at(sub, k, j - 1);
    }
}

/// When no attribute carries the name, there is no value.
proof fn lemma_no_attr_value(attrs: Seq<RawAttr>, k: Seq<char>)
    requires
        forall|j: int| 0 <= j < attrs.len() ==> attrs[j].name@ != k,
    ensures
        first_attr_value(attrs, k) is None,
    decreases attrs.len(),
{
    if attrs.len() > 0 {
        let sub = attrs.drop_first();
        assert forall|j: int| 0 <= j < sub.len() implies sub[j].name@ != k by {
            assert(sub[j] == attrs[j + 1]);
        }
        lemma_no_attr_value(sub, k);
    }
}

/// The attribute value is a scalar of a kind the fill-value probe accepts.
pub open spec fn is_numeric_fill(v: AttrValue) -> bool {
    ||| v is Double
    ||| v is Float
    ||| v is Int
    ||| v is Short
    ||| v is Schar
    ||| v is Uint
    ||| v is Ushort
    ||| v is Uchar
}

/// A variable has a usable fill value exactly when its first `_FillValue`
/// attribute decoded to a supported numeric scalar.
pub open spec fn spec_has_fill(attrs: Seq<RawAttr>) -> bool {
    match first_attr_value(attrs, "_FillValue"@) {
        Some(v) => is_numeric_fill(v),
        None => false,
    }
}

/// The returned fill bit pattern is the attribute's value coerced to double
/// precision.
pub open spec fn fill_bits_ok(v: AttrValue, b: u64) -> bool {
    match v {
        AttrValue::Double { bits, text } => b == bits,
        AttrValue::Float { bits, text } => is_widened(b, bits),
        AttrValue::Int(x) => is_exact_int(b, x as int),
        AttrValue::Short(x) => is_exact_int(b, x as int),
        AttrValue::Schar(x) => is_exact_int(b, x as int),
        AttrValue::Uint(x) => is_exact_int(b, x as int),
        AttrValue::Ushort(x) => is_exact_int(b, x as int),
        AttrValue::Uchar(x) => is_exact_int(b, x as int),
        _ => false,
    }
}

/// Extracts a variable's fill value: the `_FillValue` attribute, when
/// present and of a supported numeric scalar kind, coerced to double
/// precision.
pub fn get_fill_value(attrs: &Vec<RawAttr>) -> (r: Option<u64>)
    ensures
        (r is Some) == spec_has_fill(attrs@),
        r matches Some(b) ==> fill_bits_ok(first_attr_value(attrs@, "_FillValue"@)->Some_0, b),
{
    let found = crate::loader::find_attr(attrs, "_FillValue");
    let j = match found {
        Some(j) => j,
        None => {
            proof {
                lemma_no_attr_value(attrs@, "_FillValue"@);
            }
            return None;
        },
    };
    proof {
        lemma_first_attr_value_at(attrs@, "_FillValue"@, j as int);
    }
    let value = match &attrs[j].value {
        Some(v) => v,
        None => {
            return None;
        },
    };
    match value {
        AttrValue::Double { bits, text: _ } => Some(*bits),
        AttrValue::Float { bits, text: _ } => Some(widen_f32(*bits)),
        AttrValue::Int(x) => Some(encode_i64(*x as i64)),
        AttrValue::Short(x) => Some(encode_i64(*x as i64)),
        AttrValue::Schar(x) => Some(encode_i64(*x as i64)),
        AttrValue::Uint(x) => Some(encode_i64(*x as i64)),
        AttrValue::Ushort(x) => Some(encode_i64(*x as i64)),
        AttrValue::Uchar(x) => Some(encode_i64(*x as i64)),
        _ => None,
    }
}

/// The element at index `i` counts as missing: it is the not-a-number value
/// or, when a fill value is present, the boundary reported it within
/// tolerance of the fill value.
pub open spec fn spec_is_missing(vals: Seq<u64>, has_fill: bool, flags: Seq<bool>, i: int) -> bool {
    is_nan64(vals[i]) || (has_fill && 0 <= i < flags.len() && flags[i])
}

/// Number of missing elements among the first `n`.
pub open spec fn spec_missing_count(vals: Seq<u64>, has_fill: bool, flags: Seq<bool>, n: int) -> int
    decreases n,
{
    if n <= 0 {
        0
    } else {
        spec_missing_count(vals, has_fill, flags, n - 1) + if spec_is_missing(
            vals,
            has_fill,
            flags,
            n - 1,
        ) {
            1int
        } else {
            0int
        }
    }
}

/// Counts the elements that are missing: not-a-number values always, and
/// values the boundary flagged as within tolerance of the fill value when
/// one is present.
pub fn count_missing(values: &Vec<u64>, fill: Option<u64>, near_fill: &Vec<bool>) -> (n: usize)
    ensures
        n == spec_missing_count(values@, fill is Some, near_fill@, values@.len() as int),
        n <= values@.len(),
{
    let has_fill = fill.is_some();
    let mut n: usize = 0;
    let mut i: usize = 0;
    while i < values.len()
        invariant
            i <= values@.len(),
            has_fill == (fill is Some),
            n == spec_missing_count(values@, has_fill, near_fill@, i as int),
            n <= i,
        decreases values@.len() - i,
    {
        let flagged = has_fill && i < near_fill.len() && near_fill[i];
        if is_nan_bits(values[i]) || flagged {
            n = n + 1;
        }
        i = i + 1;
    }
    n
}

/// Every element of an all-not-a-number read counts as missing, whether or
/// not a fill value is present: the reported count is the full length.
pub proof fn lemma_missing_count_all_nan(vals: Seq<u64>, has_fill: bool, flags: Seq<bool>)
    requires
        forall|i: int| 0 <= i < vals.len() ==> is_nan64(#[trigger] vals[i]),
    ensures
        spec_missing_count(vals, has_fill, flags, vals.len() as int) == vals.len(),
{
    lemma_missing_count_all_nan_to(vals, has_fill, flags, vals.len() as int);
}

/// Helper for the all-not-a-number law, by prefix length.
proof fn lemma_missing_count_all_nan_to(vals: Seq<u64>, has_fill: bool, flags: Seq<bool>, n: int)
    requires
        n <= vals.len(),
        forall|i: int| 0 <= i < vals.len() ==> is_nan64(#[trigger] vals[i]),
    ensures
        n >= 0 ==> spec_missing_count(vals, has_fill, flags, n) == n,
    decreases n,
{
    if n > 0 {
        lemma_missing_count_all_nan_to(vals, has_fill, flags, n - 1);
    }
}

/// With no fill value present and no not-a-number element, nothing counts
/// as missing: the reported count is zero.
pub proof fn lemma_missing_count_zero(vals: Seq<u64>, flags: Seq<bool>)
    requires
        forall|i: int| 0 <= i < vals.len() ==> !is_nan64(#[trigger] vals[i]),
    ensures
        spec_missing_count(vals, false, flags, vals.len() as int) == 0,
{
    lemma_missing_count_zero_to(vals, flags, vals.len() as int);
}

/// With no `_FillValue` attribute and no not-a-number element, a read of
/// the variable reports zero missing values.
pub proof fn lemma_no_fill_attribute_no_missing(
    attrs: Seq<RawAttr>,
    vals: Seq<u64>,
    flags: Seq<bool>,
)
    requires
        first_attr_value(attrs, "_FillValue"@) is None,
        forall|i: int| 0 <= i < vals.len() ==> !is_nan64(#[trigger] vals[i]),
    ensures
        !spec_has_fill(attrs),
        spec_missing_count(vals, spec_has_fill(attrs), flags, vals.len() as int) == 0,
{
    lemma_missing_count_zero(vals, flags);
}

/// Helper for the nothing-missing law, by prefix length.
proof fn lemma_missing_count_zero_to(vals: Seq<u64>, flags: Seq<bool>, n: int)
    requires
        n <= vals.len(),
        forall|i: int| 0 <= i < vals.len() ==> !is_nan64(#[trigger] vals[i]),
    ensures
        n >= 0 ==> spec_missing_count(vals, false, flags, n) == 0,
    decreases n,
{
    if n > 0 {
        lemma_missing_count_zero_to(vals, flags, n - 1);
    }
}

/// Translates a validated request into per-dimension half-open read
/// extents: entry `i` is the pair `(start[i], start[i] + count[i])`,
/// selecting the indices of `[start[i], start[i] + count[i])` for the
/// external reader.  Ends past `usize` are excluded up front; the sizes
/// themselves are deliberately not checked against the dimensions (see
/// `validate_subset`).
pub fn subset_extents(start: &Vec<usize>, count: &Vec<usize>) -> (r: Vec<(usize, usize)>)
    requires
        start@.len() == count@.len(),
        forall|i: int| 0 <= i < start@.len() ==> start@[i] + count@[i] <= usize::MAX,
    ensures
        r@.len() == start@.len(),
        forall|i: int|
            0 <= i < r@.len() ==> (#[trigger] r@[i]) == (start@[i], (start@[i] + count@[i]) as usize),
{
    let mut out: Vec<(usize, usize)> = Vec::new();
    let mut i: usize = 0;
    while i < start.len()
        invariant
            start@.len() == count@.len(),
            forall|j: int| 0 <= j < start@.len() ==> start@[j] + count@[j] <= usize::MAX,
            i <= start@.len(),
            out@.len() == i,
            forall|j: int|
                0 <= j < i ==> (#[trigger] out@[j]) == (start@[j], (start@[j] + count@[j]) as usize),
        decreases start@.len() - i,
    {
        out.push((start[i], start[i] + count[i]));
        i = i + 1;
    }
    out
}

/// The message a mismatched subset request fails with.
pub open spec fn spec_subset_message(ndims: int, nstart: int, ncount: int) -> Seq<char> {
    "Variable has "@ + dec_str(ndims) + " dimensions, but got start="@ + dec_str(nstart)
        + " and count="@ + dec_str(ncount)
}

/// Validates a subset request against a variable's dimensionality: the one
/// check is that `start` and `count` both carry exactly one entry per
/// dimension.  Sizes are not checked; out-of-range extents are left to the
/// external reader.
pub fn validate_subset(ndims: usize, start: &Vec<usize>, count: &Vec<usize>) -> (r: Result<
    (),
    NetCDFError,
>)
    ensures
        (r is Ok) == (start@.len() == ndims && count@.len() == ndims),
        r matches Err(e) ==> e matches NetCDFError::InvalidSubsetRequest(m) && m@
            == spec_subset_message(ndims as int, start@.len() as int, count@.len() as int),
{
    if start.len() != ndims || count.len() != ndims {
        let p1 = concat_strs("Variable has ", dec_string_usize(ndims).as_str());
        let p2 = concat3(p1.as_str(), " dimensions, but got start=", dec_string_usize(
            start.len(),
        ).as_str());
        let msg = concat3(p2.as_str(), " and count=", dec_string_usize(count.len()).as_str());
        proof {
            assert(msg@ =~= spec_subset_message(
                ndims as int,
                start@.len() as int,
                count@.len() as int,
            ));
        }
        return Err(NetCDFError::InvalidSubsetRequest(msg));
    }
    Ok(())
}

/// The output sequence is the input array coerced elementwise to double
/// precision: exactly for every kind of at most 32 bits, to nearest for
/// 64-bit integers, exactly (as a widening) for single precision, and
/// unchanged for double precision.
pub open spec fn converted_ok(data: RawValues, out: Seq<u64>) -> bool {
    match data {
        RawValues::I8(v) => out.len() == v@.len() && forall|i: int|
            0 <= i < v@.len() ==> is_exact_int(#[trigger] out[i], v@[i] as int),
        RawValues::U8(v) => out.len() == v@.len() && forall|i: int|
            0 <= i < v@.len() ==> is_exact_int(#[trigger] out[i], v@[i] as int),
        RawValues::I16(v) => out.len() == v@.len() && forall|i: int|
            0 <= i < v@.len() ==> is_exact_int(#[trigger] out[i], v@[i] as int),
        RawValues::U16(v) => out.len() == v@.len() && forall|i: int|
            0 <= i < v@.len() ==> is_exact_int(#[trigger] out[i], v@[i] as int),
        RawValues::I32(v) => out.len() == v@.len() && forall|i: int|
            0 <= i < v@.len() ==> is_exact_int(#[trigger] out[i], v@[i] as int),
        RawValues::U32(v) => out.len() == v@.len() && forall|i: int|
            0 <= i < v@.len() ==> is_exact_int(#[trigger] out[i], v@[i] as int),
        RawValues::I64(v) => out.len() == v@.len() && forall|i: int|
            0 <= i < v@.len() ==> is_rounded_int(#[trigger] out[i], v@[i] as int),
        RawValues::U64(v) => out.len() == v@.len() && forall|i: int|
            0 <= i < v@.len() ==> is_rounded_int(#[trigger] out[i], v@[i] as int),
        RawValues::F32(v) => out.len() == v@.len() && forall|i: int|
            0 <= i < v@.len() ==> is_widened(#[trigger] out[i], v@[i]),
        RawValues::F64(v) => out == v@,
    }
}

/// Coerces one raw typed array to double-precision bit patterns.
fn convert_to_bits(data: &RawValues) -> (out: Vec<u64>)
    ensures
        converted_ok(*data, out@),
{
    let mut out: Vec<u64> = Vec::new();
    match data {
        RawValues::I8(v) => {
            let mut i: usize = 0;
            while i < v.len()
                invariant
                    i <= v@.len(),
                    out@.len() == i,
                    forall|j: int| 0 <= j < i ==> is_exact_int(#[trigger] out@[j], v@[j] as int),
                decreases v@.len() - i,
            {
                out.push(encode_i64(v[i] as i64));
                i = i + 1;
            }
        },
        RawValues::U8(v) => {
            let mut i: usize = 0;
            while i < v.len()
                invariant
                    i <= v@.len(),
                    out@.len() == i,
                    forall|j: int| 0 <= j < i ==> is_exact_int(#[trigger] out@[j], v@[j] as int),
                decreases v@.len() - i,
            {
                out.push(encode_i64(v[i] as i64));
                i = i + 1;
            }
        },
        RawValues::I16(v) => {
            let mut i: usize = 0;
            while i < v.len()
                invariant
                    i <= v@.len(),
                    out@.len() == i,
                    forall|j: int| 0 <= j < i ==> is_exact_int(#[trigger] out@[j], v@[j] as int),
                decreases v@.len() - i,
            {
                out.push(encode_i64(v[i] as i64));
                i = i + 1;
            }
        },
        RawValues::U16(v) => {
            let mut i: usize = 0;
            while i < v.len()
                invariant
                    i <= v@.len(),
                    out@.len() == i,
                    forall|j: int| 0 <= j < i ==> is_exact_int(#[trigger] out@[j], v@[j] as int),
                decreases v@.len() - i,
            {
                out.push(encode_i64(v[i] as i64));
                i = i + 1;
            }
        },
        RawValues::I32(v) => {
            let mut i: usize = 0;
            while i < v.len()
                invariant
                    i <= v@.len(),
                    out@.len() == i,
                    forall|j: int| 0 <= j < i ==> is_exact_int(#[trigger] out@[j], v@[j] as int),
                decreases v@.len() - i,
            {
                out.push(encode_i64(v[i] as i64));
                i = i + 1;
            }
        },
        RawValues::U32(v) => {
            let mut i: usize = 0;
            while i < v.len()
                invariant
                    i <= v@.len(),
                    out@.len() == i,
                    forall|j: int| 0 <= j < i ==> is_exact_int(#[trigger] out@[j], v@[j] as int),
                decreases v@.len() - i,
            {
                out.push(encode_i64(v[i] as i64));
                i = i + 1;
            }
        },
        RawValues::I64(v) => {
            let mut i: usize = 0;
            while i < v.len()
                invariant
                    i <= v@.len(),
                    out@.len() == i,
                    forall|j: int| 0 <= j < i ==> is_rounded_int(#[trigger] out@[j], v@[j] as int),
                decreases v@.len() - i,
            {
                out.push(encode_i64(v[i]));
                i = i + 1;
            }
        },
        RawValues::U64(v) => {
            let mut i: usize = 0;
            while i < v.len()
                invariant
                    i <= v@.len(),
                    out@.len() == i,
                    forall|j: int| 0 <= j < i ==> is_rounded_int(#[trigger] out@[j], v@[j] as int),
                decreases v@.len() - i,
            {
                out.push(encode_mag(v[i]));
                i = i + 1;
            }
        },
        RawValues::F32(v) => {
            let mut i: usize = 0;
            while i < v.len()
                invariant
                    i <= v@.len(),
                    out@.len() == i,
                    forall|j: int| 0 <= j < i ==> is_widened(#[trigger] out@[j], v@[j]),
                decreases v@.len() - i,
            {
                out.push(widen_f32(v[i]));
                i = i + 1;
            }
        },
        RawValues::F64(v) => {
            let mut i: usize = 0;
            while i < v.len()
                invariant
                    i <= v@.len(),
                    out@.len() == i,
                    forall|j: int| 0 <= j < i ==> out@[j] == v@[j],
                decreases v@.len() - i,
            {
                out.push(v[i]);
                i = i + 1;
            }
            proof {
                assert(out@ =~= v@);
            }
        },
    }
    out
}

/// The kind names one of the supported numeric element kinds.
pub open spec fn is_numeric_kind(k: VarKind) -> bool {
    ||| k is Byte
    ||| k is Ubyte
    ||| k is Short
    ||| k is Ushort
    ||| k is Int
    ||| k is Uint
    ||| k is Int64
    ||| k is Uint64
    ||| k is Float
    ||| k is Double
}

/// What a numeric read of one resolved variable must come to, given the
/// error message prefix for unsupported kinds.
pub open spec fn numeric_read_ok(
    var: RawVariable,
    prefix: Seq<char>,
    r: Result<(Vec<u64>, usize), NetCDFError>,
) -> bool {
    if !is_numeric_kind(var.meta.kind) {
        r matches Err(NetCDFError::ConversionError(m)) && m@ == prefix + var.meta.kind.spec_label()
    } else {
        match var.read {
            Err(e) => r matches Err(NetCDFError::VariableReadError(n, d)) && n@ == var.meta.name@
                && d@ == e@,
            Ok(data) => r matches Ok((bits, cnt)) && converted_ok(data, bits@) && cnt
                == spec_missing_count(
                bits@,
                spec_has_fill(var.meta.attrs@),
                var.near_fill@,
                bits@.len() as int,
            ),
        }
    }
}

/// Reads one variable's full extent as double-precision bit patterns with
/// its missing-value count: dispatches on the element kind, coerces, and
/// counts not-a-number and near-fill elements.
pub fn read_variable_as_f64(var: &RawVariable) -> (r: Result<(Vec<u64>, usize), NetCDFError>)
    ensures
        numeric_read_ok(*var, "Unsupported variable type: "@, r),
{
    numeric_read(var, false)
}

/// Reads one variable's validated subset as double-precision bit patterns
/// with its missing-value count.
pub fn read_variable_subset_as_f64(var: &RawVariable) -> (r: Result<
    (Vec<u64>, usize),
    NetCDFError,
>)
    ensures
        numeric_read_ok(*var, "Unsupported variable type for subset: "@, r),
{
    numeric_read(var, true)
}

/// Shared body of the two numeric read paths.
fn numeric_read(var: &RawVariable, subset: bool) -> (r: Result<(Vec<u64>, usize), NetCDFError>)
    ensures
        numeric_read_ok(
            *var,
            if subset {
                "Unsupported variable type for subset: "@
            } else {
                "Unsupported variable type: "@
            },
            r,
        ),
{
    let fill = get_fill_value(&var.meta.attrs);
    let supported = match var.meta.kind {
        VarKind::Byte => true,
        VarKind::Ubyte => true,
        VarKind::Short => true,
        VarKind::Ushort => true,
        VarKind::Int => true,
        VarKind::Uint => true,
        VarKind::Int64 => true,
        VarKind::Uint64 => true,
        VarKind::Float => true,
        VarKind::Double => true,
        _ => false,
    };
    if !supported {
        let label = var.meta.kind.label();
        let msg = if subset {
            concat_strs("Unsupported variable type for subset: ", label.as_str())
        } else {
            concat_strs("Unsupported variable type: ", label.as_str())
        };
        return Err(NetCDFError::ConversionError(msg));
    }
    let data = match &var.read {
        Err(e) => {
            return Err(
                NetCDFError::VariableReadError(var.meta.name.clone(), e.clone()),
            );
        },
        Ok(data) => data,
    };
    let bits = convert_to_bits(data);
    let cnt = count_missing(&bits, fill, &var.near_fill);
    Ok((bits, cnt))
}

/// The byte sequence with its trailing NUL bytes removed.
pub open spec fn trim_nuls(b: Seq<u8>) -> Seq<u8>
    decreases b.len(),
{
    if b.len() > 0 && b.last() == 0 {
        trim_nuls(b.drop_last())
    } else {
        b
    }
}

/// The sizes of a variable's attached dimensions, in order.
pub open spec fn spec_dim_sizes(dims: Seq<RawDim>) -> Seq<usize> {
    Seq::new(dims.len(), |i: int| dims[i].size)
}

/// The strings a character read decodes to, chunked by the given shape: a
/// scalar decodes its bytes as one string; one dimension decodes all bytes
/// as one NUL-trimmed string; with more dimensions the last one is the
/// per-string byte length and each chunk decodes independently.
pub open spec fn spec_char_strings(data: Seq<u8>, dims: Seq<usize>) -> Seq<Seq<char>> {
    if dims.len() == 0 {
        seq![utf8_lossy_of(data)]
    } else if dims.len() == 1 {
        seq![utf8_lossy_of(trim_nuls(data))]
    } else {
        let l = dims.last() as int;
        Seq::new((data.len() as int / l) as nat, |i: int| utf8_lossy_of(trim_nuls(data.subrange(i
            * l, (i + 1) * l))))
    }
}

/// Removes trailing NUL bytes in place.
fn trim_nul_bytes(chunk: &mut Vec<u8>)
    ensures
        final(chunk)@ == trim_nuls(old(chunk)@),
{
    let ghost orig = chunk@;
    let mut end: usize = chunk.len();
    proof {
        assert(orig.take(orig.len() as int) =~= orig);
    }
    while end > 0 && chunk[end - 1] == 0
        invariant
            orig == chunk@,
            end <= chunk@.len(),
            trim_nuls(orig) == trim_nuls(orig.take(end as int)),
        decreases end,
    {
        proof {
            assert(orig.take(end as int).last() == 0);
            assert(orig.take(end as int).drop_last() =~= orig.take(end - 1));
        }
        end = end - 1;
    }
    chunk.truncate(end);
    proof {
        assert(chunk@ =~= orig.take(end as int));
        if end > 0 {
            assert(orig.take(end as int).last() != 0);
        }
        assert(trim_nuls(orig.take(end as int)) == orig.take(end as int));
    }
}

/// Decodes a flat character buffer into strings, chunked by the shape.
fn decode_char_data(data: &Vec<u8>, dims: &Vec<usize>) -> (r: Vec<String>)
    requires
        dims@.len() >= 2 ==> dims@.last() > 0,
    ensures
        str_views(r@) == spec_char_strings(data@, dims@),
{
    let mut out: Vec<String> = Vec::new();
    if dims.len() == 0 {
        out.push(utf8_lossy(data));
        proof {
            assert(str_views(out@) =~= spec_char_strings(data@, dims@));
        }
    } else if dims.len() == 1 {
        let mut chunk: Vec<u8> = Vec::new();
        let mut i: usize = 0;
        while i < data.len()
            invariant
                i <= data@.len(),
                chunk@ == data@.take(i as int),
            decreases data@.len() - i,
        {
            chunk.push(data[i]);
            proof {
                assert(chunk@ =~= data@.take(i + 1));
            }
            i = i + 1;
        }
        proof {
            assert(chunk@ =~= data@);
        }
        trim_nul_bytes(&mut chunk);
        out.push(utf8_lossy(&chunk));
        proof {
            assert(str_views(out@) =~= spec_char_strings(data@, dims@));
        }
    } else {
        let str_len: usize = dims[dims.len() - 1];
        let num_strings: usize = data.len() / str_len;
        let ghost l = str_len as int;
        let mut i: usize = 0;
        while i < num_strings
            invariant
                str_len == dims@.last(),
                str_len > 0,
                dims@.len() >= 2,
                num_strings == data@.len() as int / l,
                l == str_len as int,
                data@.len() <= usize::MAX,
                i <= num_strings,
                out@.len() == i,
                forall|j: int| 0 <= j < i ==> (#[trigger] out@[j])@ == utf8_lossy_of(
                    trim_nuls(data@.subrange(j * l, (j + 1) * l)),
                ),
            decreases num_strings - i,
        {
            proof {
                assert((i + 1) * l <= num_strings * l) by (nonlinear_arith)
                    requires
                        i + 1 <= num_strings,
                        l > 0,
                ;
                assert(num_strings * l <= data@.len()) by (nonlinear_arith)
                    requires
                        num_strings == data@.len() as int / l,
                        l > 0,
                        data@.len() >= 0,
                ;
                assert(i * l >= 0) by (nonlinear_arith)
                    requires
                        i >= 0,
                        l > 0,
                ;
                assert(i * l < (i + 1) * l) by (nonlinear_arith)
                    requires
                        l > 0,
                ;
                assert((i + 1) * l == i * l + l) by (nonlinear_arith);
            }
            let start: usize = i * str_len;
            let end: usize = start + str_len;
            let mut chunk: Vec<u8> = Vec::new();
            let mut j: usize = start;
            while j < end
                invariant
                    start <= j <= end,
                    end <= data@.len(),
                    chunk@ == data@.subrange(start as int, j as int),
                decreases end - j,
            {
                chunk.push(data[j]);
                proof {
                    assert(chunk@ =~= data@.subrange(start as int, j + 1));
                }
                j = j + 1;
            }
            trim_nul_bytes(&mut chunk);
            out.push(utf8_lossy(&chunk));
            proof {
                assert((i + 1) * l == i * l + l) by (nonlinear_arith);
                assert(out@[i as int]@ == utf8_lossy_of(
                    trim_nuls(data@.subrange(i * l, (i + 1) * l)),
                ));
            }
            i = i + 1;
        }
        proof {
            assert(str_views(out@) =~= spec_char_strings(data@, dims@));
        }
    }
    out
}

/// A resolved variable's payload is consistent with its kind: character
/// data arrives as bytes, and a character array of two or more dimensions
/// has a positive per-string length.
pub open spec fn char_read_ok(var: RawVariable) -> bool {
    var.meta.kind is Char ==> {
        &&& (var.read matches Ok(d) ==> d is U8)
        &&& (var.meta.dims@.len() >= 2 ==> var.meta.dims@.last().size > 0)
    }
}

/// What a text read of one resolved variable must come to, chunked by the
/// given shape (the variable's own for full reads, the requested count for
/// subset reads).
pub open spec fn text_read_ok(
    var: RawVariable,
    chunk_dims: Seq<usize>,
    subset: bool,
    r: Result<Vec<String>, NetCDFError>,
) -> bool {
    if !(var.meta.kind is Char) {
        r matches Err(NetCDFError::ConversionError(m)) && m@ == (if subset {
            "String variable subset reading not yet implemented for type: "@
        } else {
            "String variable reading not yet implemented for type: "@
        }) + var.meta.kind.spec_label()
    } else {
        match var.read {
            Err(e) => r matches Err(NetCDFError::VariableReadError(n, d)) && n@ == var.meta.name@
                && d@ == e@,
            Ok(data) => r matches Ok(strs) && str_views(strs@) == spec_char_strings(
                data->U8_0@,
                chunk_dims,
            ),
        }
    }
}

/// Collects the sizes of a variable's dimensions.
fn dim_sizes_vec(dims: &Vec<RawDim>) -> (r: Vec<usize>)
    ensures
        r@ == spec_dim_sizes(dims@),
{
    let mut out: Vec<usize> = Vec::new();
    let mut i: usize = 0;
    while i < dims.len()
        invariant
            i <= dims@.len(),
            out@.len() == i,
            forall|j: int| 0 <= j < i ==> out@[j] == dims@[j].size,
        decreases dims@.len() - i,
    {
        out.push(dims[i].size);
        i = i + 1;
    }
    proof {
        assert(out@ =~= spec_dim_sizes(dims@));
    }
    out
}

/// Reads one character variable's full extent as text, chunked by the
/// variable's own shape; a true variable-length string kind is recognized
/// but its reading is not implemented.
pub fn read_variable_as_string(var: &RawVariable) -> (r: Result<Vec<String>, NetCDFError>)
    requires
        char_read_ok(*var),
    ensures
        text_read_ok(*var, spec_dim_sizes(var.meta.dims@), false, r),
{
    let is_char = match var.meta.kind {
        VarKind::Char => true,
        _ => false,
    };
    if !is_char {
        let label = var.meta.kind.label();
        return Err(
            NetCDFError::ConversionError(
                concat_strs(
                    "String variable reading not yet implemented for type: ",
                    label.as_str(),
                ),
            ),
        );
    }
    let data = match &var.read {
        Err(e) => {
            return Err(
                NetCDFError::VariableReadError(var.meta.name.clone(), e.clone()),
            );
        },
        Ok(RawValues::U8(data)) => data,
        Ok(_) => {
            proof {
                assert(false);
            }
            return Err(NetCDFError::ConversionError(String::new()));
        },
    };
    let shape = dim_sizes_vec(&var.meta.dims);
    Ok(decode_char_data(data, &shape))
}

/// Reads one character variable's validated subset as text, chunked by the
/// requested count.
pub fn read_variable_subset_as_string(var: &RawVariable, count: &Vec<usize>) -> (r: Result<
    Vec<String>,
    NetCDFError,
>)
    requires
        var.meta.kind is Char ==> (var.read matches Ok(d) ==> d is U8),
        var.meta.kind is Char && count@.len() >= 2 ==> count@.last() > 0,
    ensures
        text_read_ok(*var, count@, true, r),
{
    let is_char = match var.meta.kind {
        VarKind::Char => true,
        _ => false,
    };
    if !is_char {
        let label = var.meta.kind.label();
        return Err(
            NetCDFError::ConversionError(
                concat_strs(
                    "String variable subset reading not yet implemented for type: ",
                    label.as_str(),
                ),
            ),
        );
    }
    let data = match &var.read {
        Err(e) => {
            return Err(
                NetCDFError::VariableReadError(var.meta.name.clone(), e.clone()),
            );
        },
        Ok(RawValues::U8(data)) => data,
        Ok(_) => {
            proof {
                assert(false);
            }
            return Err(NetCDFError::ConversionError(String::new()));
        },
    };
    Ok(decode_char_data(data, count))
}

/// What serving a resolved variable must come to: the response carries the
/// request's variable name, the given shape, text with no missing count for
/// character data, and coerced numbers with their missing count otherwise;
/// unsupported kinds and reader failures surface as errors.
pub open spec fn found_response_ok(
    v: RawVariable,
    var_name: Seq<char>,
    shape: Seq<usize>,
    subset: bool,
    r: Result<VariableDataResponse, NetCDFError>,
) -> bool {
    if v.meta.kind.spec_is_text() {
        if !(v.meta.kind is Char) {
            r matches Err(NetCDFError::ConversionError(m)) && m@ == (if subset {
                "String variable subset reading not yet implemented for type: "@
            } else {
                "String variable reading not yet implemented for type: "@
            }) + v.meta.kind.spec_label()
        } else {
            match v.read {
                Err(e) => r matches Err(NetCDFError::VariableReadError(n, d)) && n@
                    == v.meta.name@ && d@ == e@,
                Ok(data) => r matches Ok(resp) && {
                    &&& resp.var_name@ == var_name
                    &&& resp.shape@ == shape
                    &&& resp.missing_count == 0
                    &&& resp.values matches VariableData::Text(strs) && str_views(strs@)
                        == spec_char_strings(data->U8_0@, shape)
                },
            }
        }
    } else {
        if !is_numeric_kind(v.meta.kind) {
            r matches Err(NetCDFError::ConversionError(m)) && m@ == (if subset {
                "Unsupported variable type for subset: "@
            } else {
                "Unsupported variable type: "@
            }) + v.meta.kind.spec_label()
        } else {
            match v.read {
                Err(e) => r matches Err(NetCDFError::VariableReadError(n, d)) && n@
                    == v.meta.name@ && d@ == e@,
                Ok(data) => r matches Ok(resp) && {
                    &&& resp.var_name@ == var_name
                    &&& resp.shape@ == shape
                    &&& resp.values matches VariableData::Numeric(bits) && converted_ok(
                        data,
                        bits@,
                    ) && resp.missing_count == spec_missing_count(
                        bits@,
                        spec_has_fill(v.meta.attrs@),
                        v.near_fill@,
                        bits@.len() as int,
                    )
                },
            }
        }
    }
}

/// Serves a full-variable data request from what the reader yielded:
/// resolves the fetch outcome, dispatches on the element kind, and packages
/// the data with the variable's full shape.
pub fn get_variable_data(path: &str, var_name: &str, fetch: &VarFetch) -> (r: Result<
    VariableDataResponse,
    NetCDFError,
>)
    requires
        *fetch matches VarFetch::Found(v) ==> char_read_ok(v),
    ensures
        match *fetch {
            VarFetch::Missing => r matches Err(NetCDFError::FileOpenError(m)) && m@
                == "File not found: "@ + path@,
            VarFetch::Rejected(e) => r matches Err(NetCDFError::FileOpenError(m)) && m@
                == "Failed to open "@ + path@ + ": "@ + e@,
            VarFetch::NoSuchVar => r matches Err(NetCDFError::VariableNotFound(n)) && n@
                == var_name@,
            VarFetch::Found(v) => found_response_ok(
                v,
                var_name@,
                spec_dim_sizes(v.meta.dims@),
                false,
                r,
            ),
        },
{
    let var = match fetch {
        VarFetch::Missing => {
            return Err(NetCDFError::FileOpenError(concat_strs("File not found: ", path)));
        },
        VarFetch::Rejected(e) => {
            let msg = concat3("Failed to open ", path, ": ");
            return Err(NetCDFError::FileOpenError(concat_strs(msg.as_str(), e.as_str())));
        },
        VarFetch::NoSuchVar => {
            return Err(NetCDFError::VariableNotFound(var_name.to_owned()));
        },
        VarFetch::Found(v) => v,
    };
    let shape = dim_sizes_vec(&var.meta.dims);
    if var.meta.kind.is_text() {
        match read_variable_as_string(var) {
            Ok(strs) => Ok(
                VariableDataResponse {
                    var_name: var_name.to_owned(),
                    values: VariableData::Text(strs),
                    shape,
                    missing_count: 0,
                },
            ),
            Err(e) => Err(e),
        }
    } else {
        match read_variable_as_f64(var) {
            Ok((bits, cnt)) => Ok(
                VariableDataResponse {
                    var_name: var_name.to_owned(),
                    values: VariableData::Numeric(bits),
                    shape,
                    missing_count: cnt,
                },
            ),
            Err(e) => Err(e),
        }
    }
}

/// Serves a subset data request: resolves the fetch outcome, validates the
/// request's dimensionality against the variable (sizes are not checked),
/// dispatches on the element kind, and reports the requested count as the
/// shape of what comes back.
pub fn get_variable_subset(
    path: &str,
    var_name: &str,
    start: &Vec<usize>,
    count: &Vec<usize>,
    fetch: &VarFetch,
) -> (r: Result<VariableDataResponse, NetCDFError>)
    requires
        *fetch matches VarFetch::Found(v) ==> {
            &&& (v.meta.kind is Char ==> (v.read matches Ok(d) ==> d is U8))
            &&& (v.meta.kind is Char && count@.len() >= 2 ==> count@.last() > 0)
        },
    ensures
        match *fetch {
            VarFetch::Missing => r matches Err(NetCDFError::FileOpenError(m)) && m@
                == "File not found: "@ + path@,
            VarFetch::Rejected(e) => r matches Err(NetCDFError::FileOpenError(m)) && m@
                == "Failed to open "@ + path@ + ": "@ + e@,
            VarFetch::NoSuchVar => r matches Err(NetCDFError::VariableNotFound(n)) && n@
                == var_name@,
            VarFetch::Found(v) => if start@.len() != v.meta.dims@.len() || count@.len()
                != v.meta.dims@.len() {
                r matches Err(NetCDFError::InvalidSubsetRequest(m)) && m@ == spec_subset_message(
                    v.meta.dims@.len() as int,
                    start@.len() as int,
                    count@.len() as int,
                )
            } else {
                found_response_ok(v, var_name@, count@, true, r)
            },
        },
{
    let var = match fetch {
        VarFetch::Missing => {
            return Err(NetCDFError::FileOpenError(concat_strs("File not found: ", path)));
        },
        VarFetch::Rejected(e) => {
            let msg = concat3("Failed to open ", path, ": ");
            return Err(NetCDFError::FileOpenError(concat_strs(msg.as_str(), e.as_str())));
        },
        VarFetch::NoSuchVar => {
            return Err(NetCDFError::VariableNotFound(var_name.to_owned()));
        },
        VarFetch::Found(v) => v,
    };
    if let Err(e) = validate_subset(var.meta.dims.len(), start, count) {
        return Err(e);
    }
    let shape = clone_usizes(count);
    if var.meta.kind.is_text() {
        match read_variable_subset_as_string(var, count) {
            Ok(strs) => Ok(
                VariableDataResponse {
                    var_name: var_name.to_owned(),
                    values: VariableData::Text(strs),
                    shape,
                    missing_count: 0,
                },
            ),
            Err(e) => Err(e),
        }
    } else {
        match read_variable_subset_as_f64(var) {
            Ok((bits, cnt)) => Ok(
                VariableDataResponse {
                    var_name: var_name.to_owned(),
                    values: VariableData::Numeric(bits),
                    shape,
                    missing_count: cnt,
                },
            ),
            Err(e) => Err(e),
        }
    }
}

/// Copies a vector of sizes.
fn clone_usizes(v: &Vec<usize>) -> (r: Vec<usize>)
    ensures
        r@ == v@,
{
    let mut out: Vec<usize> = Vec::new();
    let mut i: usize = 0;
    while i < v.len()
        invariant
            i <= v@.len(),
            out@ == v@.take(i as int),
        decreases v@.len() - i,
    {
        out.push(v[i]);
        proof {
            assert(out@ =~= v@.take(i + 1));
        }
        i = i + 1;
    }
    proof {
        assert(out@ =~= v@);
    }
    out
}

} // verus!
