//! Payload filters: boolean combinations of conditions on a vector's
//! metadata fields, and their evaluation.
use vstd::prelude::*;

verus! {

/// A 64-bit float carried by its order key: for finite floats `a` and `b`
/// (zero of either sign counted once), `a < b` exactly when
/// `key(a) < key(b)`.
pub type NumberKey = i64;

/// A metadata value, as far as filters read it.
#[derive(Debug, Clone)]
pub enum FieldValue {
    Null,
    Bool(bool),
    /// A number: its integer value when it is an integer that fits `i64`,
    /// and the order key of its value as a float.
    Number { int: Option<i64>, key: NumberKey },
    Text(String),
    /// An array, by its length.
    Array(usize),
    /// An object, with the order keys of its `lat` and `lon` fields when
    /// both are numbers.
    Object { point: Option<(NumberKey, NumberKey)> },
}

/// One metadata field.
#[derive(Debug, Clone)]
pub struct MetadataEntry {
    pub key: String,
    pub value: FieldValue,
}

/// A vector's metadata: fields with distinct keys.
pub type Metadata = Vec<MetadataEntry>;

/// A value to match exactly.
#[derive(Debug, Clone)]
pub enum MatchValue {
    Keyword(String),
    Integer(i64),
    Bool(bool),
}

#[derive(Debug, Clone)]
pub struct MatchKeyword {
    pub key: String,
    pub value: MatchValue,
}

#[derive(Debug, Clone)]
pub struct MatchAny {
    pub key: String,
    pub any: Vec<MatchValue>,
}

/// Case-insensitive substring match.
#[derive(Debug, Clone)]
pub struct MatchText {
    pub key: String,
    pub text: String,
}

/// Numeric bounds, as order keys.
#[derive(Debug, Clone)]
pub struct RangeCondition {
    pub key: String,
    pub gte: Option<NumberKey>,
    pub gt: Option<NumberKey>,
    pub lte: Option<NumberKey>,
    pub lt: Option<NumberKey>,
}

/// A point, by the order keys of its latitude and longitude.
#[derive(Debug, Clone, Copy)]
pub struct GeoPoint {
    pub lat: NumberKey,
    pub lon: NumberKey,
}

#[derive(Debug, Clone)]
pub struct GeoBoundingBox {
    pub key: String,
    pub top_left: GeoPoint,
    pub bottom_right: GeoPoint,
}

/// Bounds on the length of an array field.
#[derive(Debug, Clone)]
pub struct ValuesCount {
    pub key: String,
    pub gte: Option<usize>,
    pub gt: Option<usize>,
    pub lte: Option<usize>,
    pub lt: Option<usize>,
}

/// The field exists and is an empty string or an empty array.
#[derive(Debug, Clone)]
pub struct IsEmpty {
    pub key: String,
}

/// The field exists and is null.
#[derive(Debug, Clone)]
pub struct IsNull {
    pub key: String,
}

#[derive(Debug, Clone)]
pub enum FieldCondition {
    MatchKeyword(MatchKeyword),
    MatchAny(MatchAny),
    MatchText(MatchText),
    Range(RangeCondition),
    GeoBoundingBox(GeoBoundingBox),
    ValuesCount(ValuesCount),
    IsEmpty(IsEmpty),
    IsNull(IsNull),
}

#[derive(Debug)]
pub enum Condition {
    Match(FieldCondition),
    Filter(Box<Filter>),
}

#[derive(Debug)]
pub enum Filter {
    /// All conditions hold.
    Must(Vec<Condition>),
    /// At least one condition holds.
    Should(Vec<Condition>),
    /// No condition holds.
    MustNot(Vec<Condition>),
    /// At least `min_count` conditions hold.
    MinShould { conditions: Vec<Condition>, min_count: usize },
}

/// Lower-cased text.
pub uninterp spec fn lower_of(s: Seq<char>) -> Seq<char>;

/// Relies on `str::to_lowercase`: the result depends on the characters alone.
#[verifier::external_body]
fn lowercase(s: &str) -> (r: String)
    ensures
        r@ == lower_of(s@),
{
    s.to_lowercase()
}

/// The value of the first field named `key`.
pub open spec fn lookup(m: Seq<MetadataEntry>, key: Seq<char>) -> Option<FieldValue>
    decreases m.len(),
{
    if m.len() == 0 {
        None
    } else if m[0].key@ == key {
        Some(m[0].value)
    } else {
        lookup(m.skip(1), key)
    }
}

/// `needle` occurs in `hay` as a contiguous run.
pub open spec fn contains_run(hay: Seq<char>, needle: Seq<char>) -> bool {
    exists|i: int| 0 <= i <= hay.len() - needle.len() && #[trigger] hay.subrange(i, i + needle.len()) == needle
}

pub open spec fn value_matches(v: FieldValue, mv: MatchValue) -> bool {
    match (mv, v) {
        (MatchValue::Keyword(k), FieldValue::Text(t)) => t@ == k@,
        (MatchValue::Integer(i), FieldValue::Number { int: Some(j), .. }) => i == j,
        (MatchValue::Bool(b), FieldValue::Bool(c)) => b == c,
        _ => false,
    }
}

pub open spec fn within_keys(x: i64, gte: Option<i64>, gt: Option<i64>, lte: Option<i64>, lt: Option<i64>) -> bool {
    &&& (gte matches Some(g) ==> x >= g)
    &&& (gt matches Some(g) ==> x > g)
    &&& (lte matches Some(g) ==> x <= g)
    &&& (lt matches Some(g) ==> x < g)
}

pub open spec fn within_counts(x: usize, gte: Option<usize>, gt: Option<usize>, lte: Option<usize>, lt: Option<usize>) -> bool {
    &&& (gte matches Some(g) ==> x >= g)
    &&& (gt matches Some(g) ==> x > g)
    &&& (lte matches Some(g) ==> x <= g)
    &&& (lt matches Some(g) ==> x < g)
}

/// Whether a field condition holds of metadata `m`; every one of them
/// needs the field to exist.
pub open spec fn field_holds(c: FieldCondition, m: Seq<MetadataEntry>) -> bool {
    match c {
        FieldCondition::MatchKeyword(k) => match lookup(m, k.key@) {
            Some(v) => value_matches(v, k.value),
            None => false,
        },
        FieldCondition::MatchAny(a) => match lookup(m, a.key@) {
            Some(v) => exists|i: int| 0 <= i < a.any@.len() && value_matches(v, #[trigger] a.any@[i]),
            None => false,
        },
        FieldCondition::MatchText(t) => match lookup(m, t.key@) {
            Some(FieldValue::Text(s)) => contains_run(lower_of(s@), lower_of(t.text@)),
            _ => false,
        },
        FieldCondition::Range(r) => match lookup(m, r.key@) {
            Some(FieldValue::Number { key, .. }) => within_keys(key, r.gte, r.gt, r.lte, r.lt),
            _ => false,
        },
        FieldCondition::GeoBoundingBox(g) => match lookup(m, g.key@) {
            Some(FieldValue::Object { point: Some((lat, lon)) }) => lat <= g.top_left.lat && lat
                >= g.bottom_right.lat && lon >= g.top_left.lon && lon <= g.bottom_right.lon,
            _ => false,
        },
        FieldCondition::ValuesCount(vc) => match lookup(m, vc.key@) {
            Some(FieldValue::Array(n)) => within_counts(n, vc.gte, vc.gt, vc.lte, vc.lt),
            _ => false,
        },
        FieldCondition::IsEmpty(e) => match lookup(m, e.key@) {
            Some(FieldValue::Array(n)) => n == 0,
            Some(FieldValue::Text(s)) => s@.len() == 0,
            _ => false,
        },
        FieldCondition::IsNull(n) => lookup(m, n.key@) matches Some(FieldValue::Null),
    }
}

/// Whether filter `f` holds of present metadata `m`.
pub open spec fn filter_holds(f: Filter, m: Seq<MetadataEntry>) -> bool
    decreases f, 0int,
{
    match f {
        Filter::Must(cs) => count_holding(cs@, m, cs@.len() as int) == cs@.len(),
        Filter::Should(cs) => count_holding(cs@, m, cs@.len() as int) > 0,
        Filter::MustNot(cs) => count_holding(cs@, m, cs@.len() as int) == 0,
        Filter::MinShould { conditions, min_count } => count_holding(
            conditions@,
            m,
            conditions@.len() as int,
        ) >= min_count,
    }
}

/// Whether condition `c` holds of present metadata `m`.
pub open spec fn condition_holds(c: Condition, m: Seq<MetadataEntry>) -> bool
    decreases c, 0int,
{
    match c {
        Condition::Match(fc) => field_holds(fc, m),
        Condition::Filter(f) => filter_holds(*f, m),
    }
}

/// How many of the first `k` conditions hold.
pub open spec fn count_holding(cs: Seq<Condition>, m: Seq<MetadataEntry>, k: int) -> nat
    decreases cs, k,
{
    if k <= 0 || k > cs.len() {
        0
    } else {
        count_holding(cs, m, k - 1) + if condition_holds(cs[k - 1], m) {
            1nat
        } else {
            0nat
        }
    }
}

/// What a filter says of a vector's metadata: absent metadata never matches.
pub open spec fn evaluates(f: Filter, m: Option<Metadata>) -> bool {
    match m {
        Some(entries) => filter_holds(f, entries@),
        None => false,
    }
}


/// Whether `needle` occurs in `hay` as a contiguous run.
pub fn has_run(hay: &Vec<char>, needle: &Vec<char>) -> (r: bool)
    ensures
        r == contains_run(hay@, needle@),
{
    if needle.len() > hay.len() {
        return false;
    }
    if needle.len() == 0 {
        assert(hay@.subrange(0, 0 + needle@.len() as int) =~= needle@);
        return true;
    }
    let hl = hay.len();
    let end = hay.len() - needle.len() + 1;
    let mut i: usize = 0;
    while i < end
        invariant
            end == hay@.len() - needle@.len() + 1,
            hl == hay@.len(),
            needle@.len() <= hay@.len(),
            i <= end,
            forall|k: int| 0 <= k < i ==> #[trigger] hay@.subrange(k, k + needle@.len()) != needle@,
        decreases end - i,
    {
        let mut j: usize = 0;
        let mut same = true;
        while j < needle.len()
            invariant
                i < end,
                hl == hay@.len(),
                end == hay@.len() - needle@.len() + 1,
                j <= needle@.len(),
                same == forall|q: int| 0 <= q < j ==> hay@[i + q] == needle@[q],
            decreases needle@.len() - j,
        {
            if hay[i + j] != needle[j] {
                same = false;
            }
            j = j + 1;
        }
        if same {
            assert(hay@.subrange(i as int, i + needle@.len()) =~= needle@);
            return true;
        }
        proof {
            let q = choose|q: int| 0 <= q < needle@.len() && hay@[i + q] != needle@[q];
            assert(hay@.subrange(i as int, i + needle@.len())[q] != needle@[q]);
        }
        i = i + 1;
    }
    false
}

/// Whether `needle` occurs in `text`; the text condition applies it to
/// both sides lower-cased.
pub fn text_contains(text: &str, needle: &str) -> (r: bool)
    ensures
        r == contains_run(text@, needle@),
{
    let hay = crate::text::chars_of(text);
    let pat = crate::text::chars_of(needle);
    has_run(&hay, &pat)
}

/// The value of the first field named `key`.
fn find_field<'a>(m: &'a Vec<MetadataEntry>, key: &String) -> (r: Option<&'a FieldValue>)
    ensures
        match r {
            Some(v) => lookup(m@, key@) == Some(*v),
            None => lookup(m@, key@) is None,
        },
{
    let mut i: usize = 0;
    assert(m@.skip(0) =~= m@);
    while i < m.len()
        invariant
            i <= m@.len(),
            lookup(m@, key@) == lookup(m@.skip(i as int), key@),
        decreases m@.len() - i,
    {
        assert(m@.skip(i as int)[0] == m@[i as int]);
        assert(m@.skip(i as int).skip(1) =~= m@.skip(i + 1));
        if m[i].key == *key {
            return Some(&m[i].value);
        }
        i = i + 1;
    }
    None
}

fn value_matches_exec(v: &FieldValue, mv: &MatchValue) -> (r: bool)
    ensures
        r == value_matches(*v, *mv),
{
    match (mv, v) {
        (MatchValue::Keyword(k), FieldValue::Text(t)) => *t == *k,
        (MatchValue::Integer(i), FieldValue::Number { int: Some(j), .. }) => *i == *j,
        (MatchValue::Bool(b), FieldValue::Bool(c)) => *b == *c,
        _ => false,
    }
}

fn opt_ge_i64(x: i64, b: Option<i64>) -> (r: bool)
    ensures r == (b matches Some(g) ==> x >= g),
{
    match b { Some(g) => x >= g, None => true }
}

fn opt_ge_usize(x: usize, b: Option<usize>) -> (r: bool)
    ensures r == (b matches Some(g) ==> x >= g),
{
    match b { Some(g) => x >= g, None => true }
}

fn within_keys_exec(x: i64, gte: Option<i64>, gt: Option<i64>, lte: Option<i64>, lt: Option<i64>) -> (r: bool)
    ensures
        r == within_keys(x, gte, gt, lte, lt),
{
    let a = opt_ge_i64(x, gte);
    let b = match gt { Some(g) => x > g, None => true };
    let c = match lte { Some(g) => x <= g, None => true };
    let d = match lt { Some(g) => x < g, None => true };
    a && b && c && d
}

fn within_counts_exec(x: usize, gte: Option<usize>, gt: Option<usize>, lte: Option<usize>, lt: Option<usize>) -> (r: bool)
    ensures
        r == within_counts(x, gte, gt, lte, lt),
{
    let a = opt_ge_usize(x, gte);
    let b = match gt { Some(g) => x > g, None => true };
    let c = match lte { Some(g) => x <= g, None => true };
    let d = match lt { Some(g) => x < g, None => true };
    a && b && c && d
}

fn any_matches(v: &FieldValue, any: &Vec<MatchValue>) -> (r: bool)
    ensures
        r == exists|i: int| 0 <= i < any@.len() && value_matches(*v, #[trigger] any@[i]),
{
    let mut i: usize = 0;
    while i < any.len()
        invariant
            i <= any@.len(),
            forall|j: int| 0 <= j < i ==> !value_matches(*v, #[trigger] any@[j]),
        decreases any@.len() - i,
    {
        if value_matches_exec(v, &any[i]) {
            assert(value_matches(*v, any@[i as int]));
            return true;
        }
        i = i + 1;
    }
    false
}

/// Whether a field condition holds of metadata `m`.
pub fn evaluate_field_condition(c: &FieldCondition, m: &Vec<MetadataEntry>) -> (r: bool)
    ensures
        r == field_holds(*c, m@),
{
    match c {
        FieldCondition::MatchKeyword(k) => match find_field(m, &k.key) {
            Some(v) => value_matches_exec(v, &k.value),
            None => false,
        },
        FieldCondition::MatchAny(a) => match find_field(m, &a.key) {
            Some(v) => any_matches(v, &a.any),
            None => false,
        },
        FieldCondition::MatchText(t) => match find_field(m, &t.key) {
            Some(FieldValue::Text(s)) => {
                let hay = lowercase(s.as_str());
                let needle = lowercase(t.text.as_str());
                text_contains(hay.as_str(), needle.as_str())
            },
            _ => false,
        },
        FieldCondition::Range(rc) => match find_field(m, &rc.key) {
            Some(FieldValue::Number { key, .. }) => within_keys_exec(*key, rc.gte, rc.gt, rc.lte, rc.lt),
            _ => false,
        },
        FieldCondition::GeoBoundingBox(g) => match find_field(m, &g.key) {
            Some(FieldValue::Object { point: Some((lat, lon)) }) => *lat <= g.top_left.lat && *lat
                >= g.bottom_right.lat && *lon >= g.top_left.lon && *lon <= g.bottom_right.lon,
            _ => false,
        },
        FieldCondition::ValuesCount(vc) => match find_field(m, &vc.key) {
            Some(FieldValue::Array(n)) => within_counts_exec(*n, vc.gte, vc.gt, vc.lte, vc.lt),
            _ => false,
        },
        FieldCondition::IsEmpty(e) => match find_field(m, &e.key) {
            Some(FieldValue::Array(n)) => *n == 0,
            Some(FieldValue::Text(s)) => s.as_str().is_empty(),
            _ => false,
        },
        FieldCondition::IsNull(n) => match find_field(m, &n.key) {
            Some(FieldValue::Null) => true,
            _ => false,
        },
    }
}

/// How many of the conditions hold of `m`.
fn count_conditions(cs: &Vec<Condition>, m: &Vec<MetadataEntry>) -> (r: usize)
    ensures
        r == count_holding(cs@, m@, cs@.len() as int),
    decreases cs, 0int,
{
    let mut k: usize = 0;
    let mut n: usize = 0;
    while k < cs.len()
        invariant
            k <= cs@.len(),
            n == count_holding(cs@, m@, k as int),
            n <= k,
        decreases cs@.len() - k,
    {
        proof {
            vstd::std_specs::vec::axiom_vec_index_decreases(*cs, k as int);
        }
        if evaluate_condition(&cs[k], m) {
            n = n + 1;
        }
        k = k + 1;
    }
    n
}

/// Whether a condition holds of present metadata `m`.
fn evaluate_condition(c: &Condition, m: &Vec<MetadataEntry>) -> (r: bool)
    ensures
        r == condition_holds(*c, m@),
    decreases c, 0int,
{
    match c {
        Condition::Match(fc) => evaluate_field_condition(fc, m),
        Condition::Filter(f) => evaluate_present(f, m),
    }
}

/// Whether a filter holds of present metadata `m`.
fn evaluate_present(f: &Filter, m: &Vec<MetadataEntry>) -> (r: bool)
    ensures
        r == filter_holds(*f, m@),
    decreases f, 0int,
{
    match f {
        Filter::Must(cs) => count_conditions(cs, m) == cs.len(),
        Filter::Should(cs) => count_conditions(cs, m) > 0,
        Filter::MustNot(cs) => count_conditions(cs, m) == 0,
        Filter::MinShould { conditions, min_count } => count_conditions(conditions, m) >= *min_count,
    }
}

/// Whether `filter` accepts a vector with this metadata; a vector without
/// metadata is never accepted.
pub fn evaluate_filter(filter: &Filter, metadata: &Option<Metadata>) -> (r: bool)
    ensures
        r == evaluates(*filter, *metadata),
        metadata.is_none() ==> !r,
{
    match metadata {
        Some(m) => evaluate_present(filter, m),
        None => false,
    }
}

/// Excluding a single condition is the negation of requiring it, on any
/// metadata that is present.
pub proof fn law_must_not_negates_must(cs: Vec<Condition>, m: Metadata)
    requires
        cs@.len() == 1,
    ensures
        evaluates(Filter::MustNot(cs), Some(m)) == !evaluates(Filter::Must(cs), Some(m)),
{
    assert(count_holding(cs@, m@, 0) == 0);
}

/// No filter accepts a vector without metadata.
pub proof fn law_absent_metadata_never_matches(f: Filter)
    ensures
        !evaluates(f, None),
{
}
} // verus!
