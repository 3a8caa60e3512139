//! Heuristic classification of time, latitude and longitude coordinate
//! variables: three independent single-pass scans over the variables in
//! declaration order, each returning the first match.

use vstd::prelude::*;

use crate::models::{CoordinateInfo, FileMetadata, Variable};
use crate::strutil::{
    contains_seq, contains_lowered, contains_sub, eq_lowered, lower_contains, lower_eq, str_eq,
};

verus! {

/// Index of the first variable satisfying `p`, scanning in declaration
/// order.
pub open spec fn first_match(vars: Seq<Variable>, p: spec_fn(Variable) -> bool) -> Option<int>
    decreases vars.len(),
{
    if vars.len() == 0 {
        None
    } else if p(vars[0]) {
        Some(0int)
    } else {
        match first_match(vars.drop_first(), p) {
            Some(i) => Some(i + 1),
            None => None,
        }
    }
}

/// `first_match` returns the least matching index, and `None` exactly when
/// nothing matches.
pub proof fn lemma_first_match(vars: Seq<Variable>, p: spec_fn(Variable) -> bool)
    ensures
        match first_match(vars, p) {
            Some(i) => 0 <= i < vars.len() && p(vars[i]) && forall|j: int|
                0 <= j < i ==> !p(vars[j]),
            None => forall|j: int| 0 <= j < vars.len() ==> !p(vars[j]),
        },
    decreases vars.len(),
{
    if vars.len() > 0 && !p(vars[0]) {
        let sub = vars.drop_first();
        lemma_first_match(sub, p);
        match first_match(sub, p) {
            Some(i0) => {
                assert(vars[i0 + 1] == sub[i0]);
                assert(first_match(vars, p) == Some(i0 + 1));
                assert forall|j: int| 0 <= j < i0 + 1 implies !p(vars[j]) by {
                    if j >= 1 {
                        assert(vars[j] == sub[j - 1]);
                        assert(!p(sub[j - 1]));
                    }
                }
            },
            None => {
                assert forall|j: int| 0 <= j < vars.len() implies !p(vars[j]) by {
                    if j >= 1 {
                        assert(vars[j] == sub[j - 1]);
                        assert(!p(sub[j - 1]));
                    }
                }
            },
        }
    }
}

/// The time rule, as a first-class predicate.
pub open spec fn time_pred() -> spec_fn(Variable) -> bool {
    |v: Variable| is_time_match(v)
}

/// The latitude rule, as a first-class predicate.
pub open spec fn lat_pred() -> spec_fn(Variable) -> bool {
    |v: Variable| is_lat_match(v)
}

/// The longitude rule, as a first-class predicate.
pub open spec fn lon_pred() -> spec_fn(Variable) -> bool {
    |v: Variable| is_lon_match(v)
}

/// Carrying a given name, as a first-class predicate.
pub open spec fn name_pred(n: Seq<char>) -> spec_fn(Variable) -> bool {
    |v: Variable| v.name@ == n
}

/// When index `i` matches and nothing before it does, `first_match` is `i`.
pub proof fn lemma_first_match_at(vars: Seq<Variable>, p: spec_fn(Variable) -> bool, i: int)
    requires
        0 <= i < vars.len(),
        p(vars[i]),
        forall|j: int| 0 <= j < i ==> !p(vars[j]),
    ensures
        first_match(vars, p) == Some(i),
{
    lemma_first_match(vars, p);
}

/// The variable is recognized as the time coordinate: its `standard_name`
/// contains `"time"`, or its lowercased name is one of the conventional
/// time names, or its lowercased `units` contains a time-like keyword.
pub open spec fn is_time_match(v: Variable) -> bool {
    ||| match v.attributes.spec_get("standard_name"@) {
        Some(sn) => contains_seq(sn, "time"@),
        None => false,
    }
    ||| lower_eq(v.name@, "time"@)
    ||| lower_eq(v.name@, "time_counter"@)
    ||| lower_eq(v.name@, "t"@)
    ||| match v.attributes.spec_get("units"@) {
        Some(u) => lower_contains(u, "since"@) || lower_contains(u, "seconds"@) || lower_contains(
            u,
            "days"@,
        ) || lower_contains(u, "hours"@),
        None => false,
    }
}

/// The variable is recognized as the latitude coordinate.
pub open spec fn is_lat_match(v: Variable) -> bool {
    ||| v.attributes.spec_get("standard_name"@) == Some("latitude"@)
    ||| lower_eq(v.name@, "latitude"@)
    ||| lower_eq(v.name@, "lat"@)
    ||| lower_eq(v.name@, "y"@)
    ||| lower_eq(v.name@, "nav_lat"@)
    ||| match v.attributes.spec_get("units"@) {
        Some(u) => lower_eq(u, "degrees_north"@) || lower_eq(u, "degree_north"@) || lower_eq(
            u,
            "degree_n"@,
        ) || lower_eq(u, "degrees_n"@),
        None => false,
    }
}

/// The variable is recognized as the longitude coordinate.
pub open spec fn is_lon_match(v: Variable) -> bool {
    ||| v.attributes.spec_get("standard_name"@) == Some("longitude"@)
    ||| lower_eq(v.name@, "longitude"@)
    ||| lower_eq(v.name@, "lon"@)
    ||| lower_eq(v.name@, "x"@)
    ||| lower_eq(v.name@, "nav_lon"@)
    ||| match v.attributes.spec_get("units"@) {
        Some(u) => lower_eq(u, "degrees_east"@) || lower_eq(u, "degree_east"@) || lower_eq(
            u,
            "degree_e"@,
        ) || lower_eq(u, "degrees_e"@),
        None => false,
    }
}

/// Name of the first variable matching `p`, or nothing.
pub open spec fn first_match_name(vars: Seq<Variable>, p: spec_fn(Variable) -> bool) -> Option<
    Seq<char>,
> {
    match first_match(vars, p) {
        Some(i) => Some(vars[i].name@),
        None => None,
    }
}

/// Name of the detected time variable.
pub open spec fn spec_time_var(vars: Seq<Variable>) -> Option<Seq<char>> {
    first_match_name(vars, time_pred())
}

/// Name of the detected latitude variable.
pub open spec fn spec_lat_var(vars: Seq<Variable>) -> Option<Seq<char>> {
    first_match_name(vars, lat_pred())
}

/// Name of the detected longitude variable.
pub open spec fn spec_lon_var(vars: Seq<Variable>) -> Option<Seq<char>> {
    first_match_name(vars, lon_pred())
}

/// Raw `units` string of the detected time variable: looked up on the first
/// variable carrying the detected name.
pub open spec fn spec_time_units(vars: Seq<Variable>) -> Option<Seq<char>> {
    match spec_time_var(vars) {
        None => None,
        Some(n) => match first_match(vars, name_pred(n)) {
            Some(i) => vars[i].attributes.spec_get("units"@),
            None => None,
        },
    }
}

/// View of an optional string.
pub open spec fn opt_view(o: Option<String>) -> Option<Seq<char>> {
    match o {
        Some(s) => Some(s@),
        None => None,
    }
}

/// The full detection result over a variable sequence, as one value:
/// time variable, latitude variable, longitude variable, time units.
pub open spec fn spec_detect(vars: Seq<Variable>) -> (
    Option<Seq<char>>,
    Option<Seq<char>>,
    Option<Seq<char>>,
    Option<Seq<char>>,
) {
    (spec_time_var(vars), spec_lat_var(vars), spec_lon_var(vars), spec_time_units(vars))
}

/// Whether `v` is recognized as the time coordinate.
fn time_match(v: &Variable) -> (r: bool)
    ensures
        r == is_time_match(*v),
{
    if let Some(sn) = v.attributes.get("standard_name") {
        if contains_sub(sn.as_str(), "time") {
            return true;
        }
    }
    if eq_lowered(v.name.as_str(), "time") || eq_lowered(v.name.as_str(), "time_counter")
        || eq_lowered(v.name.as_str(), "t") {
        return true;
    }
    if let Some(u) = v.attributes.get("units") {
        if contains_lowered(u.as_str(), "since") || contains_lowered(u.as_str(), "seconds")
            || contains_lowered(u.as_str(), "days") || contains_lowered(u.as_str(), "hours") {
            return true;
        }
    }
    false
}

/// Whether `v` is recognized as the latitude coordinate.
fn lat_match(v: &Variable) -> (r: bool)
    ensures
        r == is_lat_match(*v),
{
    if let Some(sn) = v.attributes.get("standard_name") {
        if str_eq(sn.as_str(), "latitude") {
            return true;
        }
    }
    if eq_lowered(v.name.as_str(), "latitude") || eq_lowered(v.name.as_str(), "lat") || eq_lowered(
        v.name.as_str(),
        "y",
    ) || eq_lowered(v.name.as_str(), "nav_lat") {
        return true;
    }
    if let Some(u) = v.attributes.get("units") {
        if eq_lowered(u.as_str(), "degrees_north") || eq_lowered(u.as_str(), "degree_north")
            || eq_lowered(u.as_str(), "degree_n") || eq_lowered(u.as_str(), "degrees_n") {
            return true;
        }
    }
    false
}

/// Whether `v` is recognized as the longitude coordinate.
fn lon_match(v: &Variable) -> (r: bool)
    ensures
        r == is_lon_match(*v),
{
    if let Some(sn) = v.attributes.get("standard_name") {
        if str_eq(sn.as_str(), "longitude") {
            return true;
        }
    }
    if eq_lowered(v.name.as_str(), "longitude") || eq_lowered(v.name.as_str(), "lon") || eq_lowered(
        v.name.as_str(),
        "x",
    ) || eq_lowered(v.name.as_str(), "nav_lon") {
        return true;
    }
    if let Some(u) = v.attributes.get("units") {
        if eq_lowered(u.as_str(), "degrees_east") || eq_lowered(u.as_str(), "degree_east")
            || eq_lowered(u.as_str(), "degree_e") || eq_lowered(u.as_str(), "degrees_e") {
            return true;
        }
    }
    false
}

/// Detects the time coordinate variable: the first variable, in declaration
/// order, that satisfies the time rule.
pub fn detect_time_coordinate(metadata: &FileMetadata) -> (r: Option<String>)
    ensures
        opt_view(r) == spec_time_var(metadata.variables@),
{
    let ghost p = time_pred();
    let mut i: usize = 0;
    while i < metadata.variables.len()
        invariant
            p == time_pred(),
            i <= metadata.variables@.len(),
            forall|j: int| 0 <= j < i ==> !is_time_match(metadata.variables@[j]),
        decreases metadata.variables@.len() - i,
    {
        if time_match(&metadata.variables[i]) {
            proof {
                lemma_first_match_at(metadata.variables@, p, i as int);
            }
            return Some(metadata.variables[i].name.clone());
        }
        i = i + 1;
    }
    proof {
        lemma_first_match(metadata.variables@, p);
    }
    None
}

/// Detects the latitude coordinate variable: the first variable, in
/// declaration order, that satisfies the latitude rule.
pub fn detect_latitude_coordinate(metadata: &FileMetadata) -> (r: Option<String>)
    ensures
        opt_view(r) == spec_lat_var(metadata.variables@),
{
    let ghost p = lat_pred();
    let mut i: usize = 0;
    while i < metadata.variables.len()
        invariant
            p == lat_pred(),
            i <= metadata.variables@.len(),
            forall|j: int| 0 <= j < i ==> !is_lat_match(metadata.variables@[j]),
        decreases metadata.variables@.len() - i,
    {
        if lat_match(&metadata.variables[i]) {
            proof {
                lemma_first_match_at(metadata.variables@, p, i as int);
            }
            return Some(metadata.variables[i].name.clone());
        }
        i = i + 1;
    }
    proof {
        lemma_first_match(metadata.variables@, p);
    }
    None
}

/// Detects the longitude coordinate variable: the first variable, in
/// declaration order, that satisfies the longitude rule.
pub fn detect_longitude_coordinate(metadata: &FileMetadata) -> (r: Option<String>)
    ensures
        opt_view(r) == spec_lon_var(metadata.variables@),
{
    let ghost p = lon_pred();
    let mut i: usize = 0;
    while i < metadata.variables.len()
        invariant
            p == lon_pred(),
            i <= metadata.variables@.len(),
            forall|j: int| 0 <= j < i ==> !is_lon_match(metadata.variables@[j]),
        decreases metadata.variables@.len() - i,
    {
        if lon_match(&metadata.variables[i]) {
            proof {
                lemma_first_match_at(metadata.variables@, p, i as int);
            }
            return Some(metadata.variables[i].name.clone());
        }
        i = i + 1;
    }
    proof {
        lemma_first_match(metadata.variables@, p);
    }
    None
}

/// Extracts the raw `units` string of the detected time variable.
pub fn detect_time_units(metadata: &FileMetadata) -> (r: Option<String>)
    ensures
        opt_view(r) == spec_time_units(metadata.variables@),
{
    let time_var_name = match detect_time_coordinate(metadata) {
        Some(n) => n,
        None => {
            return None;
        },
    };
    let ghost q = name_pred(time_var_name@);
    let mut i: usize = 0;
    while i < metadata.variables.len()
        invariant
            q == name_pred(time_var_name@),
            spec_time_var(metadata.variables@) == Some(time_var_name@),
            i <= metadata.variables@.len(),
            forall|j: int| 0 <= j < i ==> metadata.variables@[j].name@ != time_var_name@,
        decreases metadata.variables@.len() - i,
    {
        if str_eq(metadata.variables[i].name.as_str(), time_var_name.as_str()) {
            proof {
                lemma_first_match_at(metadata.variables@, q, i as int);
            }
            return match metadata.variables[i].attributes.get("units") {
                Some(u) => Some(u.clone()),
                None => None,
            };
        }
        i = i + 1;
    }
    proof {
        lemma_first_match(metadata.variables@, q);
    }
    None
}

/// Runs all four detections over the metadata and packages the result.
pub fn detect_coordinates(metadata: &FileMetadata) -> (r: CoordinateInfo)
    ensures
        (opt_view(r.time_var), opt_view(r.lat_var), opt_view(r.lon_var), opt_view(r.time_units))
            == spec_detect(metadata.variables@),
{
    CoordinateInfo {
        time_var: detect_time_coordinate(metadata),
        lat_var: detect_latitude_coordinate(metadata),
        lon_var: detect_longitude_coordinate(metadata),
        time_units: detect_time_units(metadata),
    }
}

/// `metadata` with its `coordinates` field replaced.
pub open spec fn with_coordinates(m: FileMetadata, c: CoordinateInfo) -> FileMetadata {
    FileMetadata {
        coordinates: Some(c),
        ..m
    }
}

/// Detection is idempotent: it reads only the variables, so enriching the
/// metadata with a detection result and detecting again yields the same
/// `CoordinateInfo` as the first run.
pub proof fn lemma_detect_idempotent(m: FileMetadata, c: CoordinateInfo)
    ensures
        spec_detect(with_coordinates(m, c).variables@) == spec_detect(m.variables@),
{
}

/// Detection respects declaration order: when a variable matches the
/// latitude rule and no earlier variable does, its name is the detected
/// latitude variable — in particular, of two matching variables the one
/// declared first wins.
pub proof fn lemma_lat_first_match_wins(vars: Seq<Variable>, i: int)
    requires
        0 <= i < vars.len(),
        is_lat_match(vars[i]),
        forall|j: int| 0 <= j < i ==> !is_lat_match(vars[j]),
    ensures
        spec_lat_var(vars) == Some(vars[i].name@),
{
    lemma_first_match_at(vars, lat_pred(), i);
}

/// Whenever any variable matches the latitude rule, the detector returns
/// the name of a matching variable declared no later.
pub proof fn lemma_lat_detects_earliest(vars: Seq<Variable>, i: int)
    requires
        0 <= i < vars.len(),
        is_lat_match(vars[i]),
    ensures
        exists|k: int|
            0 <= k <= i && is_lat_match(#[trigger] vars[k]) && spec_lat_var(vars) == Some(
                vars[k].name@,
            ),
{
    lemma_first_match(vars, lat_pred());
    let r = first_match(vars, lat_pred());
    match r {
        Some(k) => {
            assert(k <= i);
            assert(0 <= k <= i && is_lat_match(vars[k]) && spec_lat_var(vars) == Some(
                vars[k].name@,
            ));
        },
        None => {
            assert(false);
        },
    }
}

} // verus!
