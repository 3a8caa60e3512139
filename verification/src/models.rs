//! The uniform, serializable model a file is normalized into: dimensions,
//! variables, attribute maps, detected coordinates, and data responses.
//!
//! Numeric data is carried as IEEE 754 double-precision bit patterns
//! (`u64`), the one canonical representation every supported on-disk numeric
//! element kind is coerced into.

use vstd::prelude::*;

use crate::strutil::str_eq;

verus! {

/// An ordered name-to-string map with unique keys and stable insertion
/// order, standing in for a hash map at the crate's boundary.
pub struct AttrMap {
    pairs: Vec<(String, String)>,
}

/// First value bound to key `k` in an association sequence.
pub open spec fn assoc_get(ps: Seq<(Seq<char>, Seq<char>)>, k: Seq<char>) -> Option<Seq<char>>
    decreases ps.len(),
{
    if ps.len() == 0 {
        None
    } else if ps[0].0 == k {
        Some(ps[0].1)
    } else {
        assoc_get(ps.drop_first(), k)
    }
}

impl View for AttrMap {
    type V = Seq<(Seq<char>, Seq<char>)>;

    closed spec fn view(&self) -> Seq<(Seq<char>, Seq<char>)> {
        self.pairs@.map_values(|p: (String, String)| (p.0@, p.1@))
    }
}

/// `assoc_get` over an association sequence extended on the right: the left
/// part wins wherever it binds the key.
pub proof fn lemma_assoc_get_push(ps: Seq<(Seq<char>, Seq<char>)>, k: Seq<char>, v: Seq<char>, q: Seq<char>)
    ensures
        assoc_get(ps.push((k, v)), q) == if assoc_get(ps, q) is Some {
            assoc_get(ps, q)
        } else if q == k {
            Some(v)
        } else {
            None
        },
    decreases ps.len(),
{
    if ps.len() == 0 {
        assert(ps.push((k, v)).drop_first() =~= Seq::empty());
    } else {
        assert(ps.push((k, v)).drop_first() =~= ps.drop_first().push((k, v)));
        lemma_assoc_get_push(ps.drop_first(), k, v, q);
    }
}

/// `assoc_get` after replacing the first binding of `k` (no earlier binding
/// of `k` exists before index `i`).
proof fn lemma_assoc_get_update(
    ps: Seq<(Seq<char>, Seq<char>)>,
    i: int,
    k: Seq<char>,
    v: Seq<char>,
    q: Seq<char>,
)
    requires
        0 <= i < ps.len(),
        ps[i].0 == k,
        forall|j: int| 0 <= j < i ==> ps[j].0 != k,
    ensures
        assoc_get(ps.update(i, (k, v)), q) == if q == k {
            Some(v)
        } else {
            assoc_get(ps, q)
        },
    decreases i,
{
    if i == 0 {
        if q != k {
            assert(ps.update(0, (k, v)).drop_first() =~= ps.drop_first());
        }
    } else {
        assert(ps.update(i, (k, v)).drop_first() =~= ps.drop_first().update(i - 1, (k, v)));
        lemma_assoc_get_update(ps.drop_first(), i - 1, k, v, q);
    }
}

impl AttrMap {
    /// Keys are pairwise distinct.
    pub open spec fn wf(&self) -> bool {
        forall|i: int, j: int|
            #![trigger self@[i].0, self@[j].0]
            0 <= i < j < self@.len() ==> self@[i].0 != self@[j].0
    }

    /// Value bound to `k`, as a specification.
    pub open spec fn spec_get(&self, k: Seq<char>) -> Option<Seq<char>> {
        assoc_get(self@, k)
    }

    /// Whether `k` is bound.
    pub open spec fn spec_contains_key(&self, k: Seq<char>) -> bool {
        self.spec_get(k) is Some
    }

    /// The empty map.
    pub fn new() -> (r: AttrMap)
        ensures
            r.wf(),
            r@ == Seq::<(Seq<char>, Seq<char>)>::empty(),
    {
        let r = AttrMap { pairs: Vec::new() };
        proof {
            assert(r@ =~= Seq::<(Seq<char>, Seq<char>)>::empty());
        }
        r
    }

    /// Number of bindings.
    pub fn len(&self) -> (n: usize)
        ensures
            n == self@.len(),
    {
        self.pairs.len()
    }

    /// Binds `k` to `v`: replaces the value in place when `k` is already
    /// bound, appends a new binding otherwise.
    pub fn insert(&mut self, k: String, v: String)
        requires
            old(self).wf(),
        ensures
            final(self).wf(),
            forall|q: Seq<char>| #![auto] final(self).spec_get(q) == if q == k@ {
                Some(v@)
            } else {
                old(self).spec_get(q)
            },
            final(self)@.len() == if old(self).spec_contains_key(k@) {
                old(self)@.len()
            } else {
                old(self)@.len() + 1
            },
    {
        let mut i: usize = 0;
        while i < self.pairs.len()
            invariant
                self == old(self),
                old(self).wf(),
                i <= self@.len(),
                forall|j: int| 0 <= j < i ==> self@[j].0 != k@,
            decreases self@.len() - i,
        {
            if str_eq(self.pairs[i].0.as_str(), k.as_str()) {
                let ghost prev = self@;
                proof {
                    assert(prev[i as int].0 == k@);
                    assert(forall|a: int, b: int|
                        #![trigger prev[a].0, prev[b].0]
                        0 <= a < b < prev.len() ==> prev[a].0 != prev[b].0);
                }
                self.pairs[i] = (k, v);
                proof {
                    assert(self@ =~= prev.update(i as int, (k@, v@)));
                    assert forall|q: Seq<char>| #![auto] self.spec_get(q) == if q == k@ {
                        Some(v@)
                    } else {
                        old(self).spec_get(q)
                    } by {
                        lemma_assoc_get_update(prev, i as int, k@, v@, q);
                    }
                    lemma_assoc_get_update(prev, i as int, k@, v@, k@);
                    lemma_assoc_first_match(prev, k@, i as int);
                    assert forall|a: int, b: int| 0 <= a < b < self@.len() implies self@[a].0
                        != self@[b].0 by {
                        assert(prev[a].0 != prev[b].0);
                        if a == i as int {
                            assert(self@[a].0 == k@ && prev[a].0 == k@);
                        } else {
                            assert(self@[a] == prev[a]);
                        }
                        if b == i as int {
                            assert(self@[b].0 == k@ && prev[b].0 == k@);
                        } else {
                            assert(self@[b] == prev[b]);
                        }
                    }
                }
                return ;
            }
            i = i + 1;
        }
        let ghost prev = self@;
        self.pairs.push((k, v));
        proof {
            assert(self@ =~= prev.push((k@, v@)));
            assert forall|q: Seq<char>| #![auto] self.spec_get(q) == if q == k@ {
                Some(v@)
            } else {
                old(self).spec_get(q)
            } by {
                lemma_assoc_get_push(prev, k@, v@, q);
                if assoc_get(prev, q) is Some {
                    lemma_assoc_some_implies_key_present(prev, q);
                }
            }
            lemma_assoc_get_push(prev, k@, v@, k@);
            lemma_assoc_no_match(prev, k@);
        }
    }

    /// Looks `k` up.
    pub fn get(&self, k: &str) -> (r: Option<&String>)
        ensures
            match r {
                Some(v) => self.spec_get(k@) == Some(v@),
                None => self.spec_get(k@) is None,
            },
    {
        let mut i: usize = 0;
        while i < self.pairs.len()
            invariant
                i <= self@.len(),
                forall|j: int| 0 <= j < i ==> self@[j].0 != k@,
            decreases self@.len() - i,
        {
            if str_eq(self.pairs[i].0.as_str(), k) {
                proof {
                    lemma_assoc_first_match(self@, k@, i as int);
                }
                return Some(&self.pairs[i].1);
            }
            i = i + 1;
        }
        proof {
            lemma_assoc_no_match(self@, k@);
        }
        None
    }

    /// Whether `k` is bound.
    pub fn contains_key(&self, k: &str) -> (r: bool)
        ensures
            r == self.spec_contains_key(k@),
    {
        self.get(k).is_some()
    }

    /// The bindings in order, for callers that serialize the map.
    pub fn entries(&self) -> (r: &Vec<(String, String)>)
        ensures
            r@.len() == self@.len(),
            forall|i: int|
                0 <= i < r@.len() ==> r@[i].0@ == self@[i].0 && r@[i].1@ == self@[i].1,
    {
        &self.pairs
    }
}

/// A bound key is bound at some index.
proof fn lemma_assoc_some_implies_key_present(ps: Seq<(Seq<char>, Seq<char>)>, q: Seq<char>)
    requires
        assoc_get(ps, q) is Some,
    ensures
        exists|i: int| 0 <= i < ps.len() && ps[i].0 == q,
    decreases ps.len(),
{
    if ps.len() > 0 && ps[0].0 != q {
        lemma_assoc_some_implies_key_present(ps.drop_first(), q);
    }
}

/// When index `i` holds the first binding of `k`, `assoc_get` returns it.
proof fn lemma_assoc_first_match(ps: Seq<(Seq<char>, Seq<char>)>, k: Seq<char>, i: int)
    requires
        0 <= i < ps.len(),
        ps[i].0 == k,
        forall|j: int| 0 <= j < i ==> ps[j].0 != k,
    ensures
        assoc_get(ps, k) == Some(ps[i].1),
    decreases i,
{
    if i > 0 {
        lemma_assoc_first_match(ps.drop_first(), k, i - 1);
    }
}

/// When no index binds `k`, `assoc_get` returns nothing.
proof fn lemma_assoc_no_match(ps: Seq<(Seq<char>, Seq<char>)>, k: Seq<char>)
    requires
        forall|j: int| 0 <= j < ps.len() ==> ps[j].0 != k,
    ensures
        assoc_get(ps, k) is None,
    decreases ps.len(),
{
    if ps.len() > 0 {
        lemma_assoc_no_match(ps.drop_first(), k);
    }
}

/// A named axis length; an unlimited dimension may grow between opens, so
/// the recorded size is a snapshot.
pub struct Dimension {
    /// Dimension name.
    pub name: String,
    /// Size of the dimension at open time.
    pub size: usize,
    /// Whether this is an unlimited dimension.
    pub is_unlimited: bool,
}

/// A named, typed, shaped array of the file, with its attributes.
pub struct Variable {
    /// Variable name.
    pub name: String,
    /// Canonical tag of the on-disk element kind.
    pub data_type: String,
    /// Names of the dimensions that define this variable's shape.
    pub dimensions: Vec<String>,
    /// Size along each dimension; as long as `dimensions`.
    pub shape: Vec<usize>,
    /// Variable attributes (units, long_name, and the rest).
    pub attributes: AttrMap,
}

impl Variable {
    /// The shape has one entry per dimension and the attribute map is well
    /// formed.
    pub open spec fn wf(&self) -> bool {
        self.shape@.len() == self.dimensions@.len() && self.attributes.wf()
    }
}

/// Names of the detected coordinate variables, all independently optional.
pub struct CoordinateInfo {
    /// Name of the time coordinate variable, when one was detected.
    pub time_var: Option<String>,
    /// Name of the latitude coordinate variable, when one was detected.
    pub lat_var: Option<String>,
    /// Name of the longitude coordinate variable, when one was detected.
    pub lon_var: Option<String>,
    /// Raw units string of the detected time variable.
    pub time_units: Option<String>,
}

/// The normalized model of one file: a snapshot owned by the caller for the
/// duration of one request.
pub struct FileMetadata {
    /// Path the file was opened from.
    pub file_path: String,
    /// Every dimension of the file, in declaration order.
    pub dimensions: Vec<Dimension>,
    /// Every variable of the file, in declaration order.
    pub variables: Vec<Variable>,
    /// Global attributes.
    pub global_attrs: AttrMap,
    /// Detected coordinates; absent until detection runs.
    pub coordinates: Option<CoordinateInfo>,
}

impl FileMetadata {
    /// Every variable and the global attribute map are well formed.
    pub open spec fn wf(&self) -> bool {
        self.global_attrs.wf() && forall|i: int|
            0 <= i < self.variables@.len() ==> (#[trigger] self.variables@[i]).wf()
    }
}

/// A request for a rectangular subset of one variable.
pub struct VariableSubsetRequest {
    /// Path to the file.
    pub file_path: String,
    /// Variable name.
    pub var_name: String,
    /// Starting index along each dimension.
    pub start: Vec<usize>,
    /// Element count along each dimension.
    pub count: Vec<usize>,
}

/// Payload of a read: numeric or text, never mixed within one variable.
pub enum VariableData {
    /// Numeric data coerced to double precision, as IEEE 754 bit patterns.
    Numeric(Vec<u64>),
    /// Text data.
    Text(Vec<String>),
}

/// One variable's data together with its reported shape.
pub struct VariableDataResponse {
    /// Variable name.
    pub var_name: String,
    /// The data read.
    pub values: VariableData,
    /// Shape of the returned data: the full shape for full reads, the
    /// requested count for subset reads.
    pub shape: Vec<usize>,
    /// Number of missing or fill values; 0 for text data.
    pub missing_count: usize,
}

} // verus!
