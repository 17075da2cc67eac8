use vstd::prelude::*;

verus! {

/// Outcomes of the grouping machinery. The per-candidate ones (`AllGroupsFull`,
/// `BadKeyType`, `KeyNotFound`, `GroupFull`) only drop a candidate; `EnoughGroups`
/// is a stop signal; `InvalidRequest` and `SourceFailure` end a whole request.
#[derive(PartialEq, Eq, Structural, Debug, Clone, Copy)]
pub enum AggregatorError {
    AllGroupsFull,
    BadKeyType,
    KeyNotFound,
    GroupFull,
    EnoughGroups,
    InvalidRequest,
    SourceFailure,
}

/// A payload value, reduced to what grouping reads from it.
///
/// Numbers keep the three shapes a JSON number can take: a non-negative integer,
/// a negative integer, or a floating-point value held as its IEEE-754 bit pattern
/// (with both zeros written as positive zero).
#[derive(Debug, Clone)]
pub enum PayloadValue {
    Null,
    Bool(bool),
    PosInt(u64),
    NegInt(i64),
    Float(u64),
    Str(String),
    Array,
    Object,
}

/// One named entry of a candidate's payload.
#[derive(Debug, Clone)]
pub struct PayloadField {
    pub name: String,
    pub value: PayloadValue,
}

/// A scored search result as the search source hands it over.
///
/// `score` is an order-preserving integer encoding of the relevance score:
/// a larger value is a more relevant point.
#[derive(Debug, Clone)]
pub struct ScoredPoint {
    pub id: u64,
    pub version: u64,
    pub score: i64,
    pub payload: Option<Vec<PayloadField>>,
}

/// The identity under which points are deduplicated.
#[derive(PartialEq, Eq, Structural, Debug, Clone, Copy, Hash)]
pub struct PointIdentity {
    pub id: u64,
    pub version: u64,
}

/// The minimal form of a point kept inside groups: identity and score, no payload.
#[derive(PartialEq, Eq, Structural, Debug, Clone, Copy, Hash)]
pub struct HashablePoint {
    pub id: u64,
    pub version: u64,
    pub score: i64,
}

impl HashablePoint {
    pub open spec fn identity_spec(self) -> PointIdentity {
        PointIdentity { id: self.id, version: self.version }
    }

    pub open spec fn of_spec(point: ScoredPoint) -> HashablePoint {
        HashablePoint { id: point.id, version: point.version, score: point.score }
    }

    /// Keeps only the identity and the score of `point`.
    pub fn minimal_from(point: &ScoredPoint) -> (r: HashablePoint)
        ensures
            r == HashablePoint::of_spec(*point),
    {
        HashablePoint { id: point.id, version: point.version, score: point.score }
    }

    pub fn identity(&self) -> (r: PointIdentity)
        ensures
            r == self.identity_spec(),
    {
        PointIdentity { id: self.id, version: self.version }
    }
}

/// `a` comes no later than `b` in a group: higher score first, then lower
/// identifier, then lower version.
pub open spec fn precedes(a: HashablePoint, b: HashablePoint) -> bool {
    a.score > b.score || (a.score == b.score && (a.id < b.id || (a.id == b.id
        && a.version <= b.version)))
}

pub fn precedes_exec(a: &HashablePoint, b: &HashablePoint) -> (r: bool)
    ensures
        r == precedes(*a, *b),
{
    a.score > b.score || (a.score == b.score && (a.id < b.id || (a.id == b.id && a.version
        <= b.version)))
}

/// The mathematical value of a group key.
pub enum KeyModel {
    Str(Seq<char>),
    PosInt(u64),
    NegInt(i64),
    Float(u64),
}

/// A grouping key: a string or a number taken from a payload value.
#[derive(Debug, Clone, Hash)]
pub enum GroupKey {
    Str(String),
    PosInt(u64),
    NegInt(i64),
    Float(u64),
}

impl View for GroupKey {
    type V = KeyModel;

    open spec fn view(&self) -> KeyModel {
        match self {
            GroupKey::Str(s) => KeyModel::Str(s@),
            GroupKey::PosInt(n) => KeyModel::PosInt(*n),
            GroupKey::NegInt(n) => KeyModel::NegInt(*n),
            GroupKey::Float(b) => KeyModel::Float(*b),
        }
    }
}

impl PartialEq for GroupKey {
    fn eq(&self, other: &GroupKey) -> (r: bool) {
        match (self, other) {
            (GroupKey::Str(a), GroupKey::Str(b)) => a.eq(b),
            (GroupKey::PosInt(a), GroupKey::PosInt(b)) => *a == *b,
            (GroupKey::NegInt(a), GroupKey::NegInt(b)) => *a == *b,
            (GroupKey::Float(a), GroupKey::Float(b)) => *a == *b,
            _ => false,
        }
    }
}

impl vstd::std_specs::cmp::PartialEqSpecImpl for GroupKey {
    open spec fn obeys_eq_spec() -> bool {
        true
    }

    open spec fn eq_spec(&self, other: &GroupKey) -> bool {
        self@ == other@
    }
}

impl Eq for GroupKey {

}

/// What a payload value gives as a key: strings and numbers are keys, every
/// other kind of value is rejected.
pub open spec fn key_of_value(v: PayloadValue) -> Result<KeyModel, AggregatorError> {
    match v {
        PayloadValue::Str(s) => Ok(KeyModel::Str(s@)),
        PayloadValue::PosInt(n) => Ok(KeyModel::PosInt(n)),
        PayloadValue::NegInt(n) => Ok(KeyModel::NegInt(n)),
        PayloadValue::Float(b) => Ok(KeyModel::Float(b)),
        _ => Err(AggregatorError::BadKeyType),
    }
}

pub open spec fn key_result_view(r: Result<GroupKey, AggregatorError>) -> Result<
    KeyModel,
    AggregatorError,
> {
    match r {
        Ok(k) => Ok(k@),
        Err(e) => Err(e),
    }
}

impl GroupKey {
    /// Converts a payload value into a key; only strings and numbers convert.
    pub fn try_from_value(value: &PayloadValue) -> (r: Result<GroupKey, AggregatorError>)
        ensures
            key_result_view(r) == key_of_value(*value),
    {
        match value {
            PayloadValue::Str(s) => Ok(GroupKey::Str(s.clone())),
            PayloadValue::PosInt(n) => Ok(GroupKey::PosInt(*n)),
            PayloadValue::NegInt(n) => Ok(GroupKey::NegInt(*n)),
            PayloadValue::Float(b) => Ok(GroupKey::Float(*b)),
            _ => Err(AggregatorError::BadKeyType),
        }
    }

    /// The key of a string value.
    pub fn from_text(s: String) -> (r: GroupKey)
        ensures
            r@ == KeyModel::Str(s@),
    {
        GroupKey::Str(s)
    }

    /// The key of an integer value, in the shape a JSON number gives it.
    pub fn from_i64(n: i64) -> (r: GroupKey)
        ensures
            n >= 0 ==> r@ == KeyModel::PosInt(n as u64),
            n < 0 ==> r@ == KeyModel::NegInt(n),
    {
        if n >= 0 {
            GroupKey::PosInt(n as u64)
        } else {
            GroupKey::NegInt(n)
        }
    }
}

/// The value stored under `name` in `fields`, the first such entry if several.
pub open spec fn field_lookup(fields: Seq<PayloadField>, name: Seq<char>) -> Option<PayloadValue>
    decreases fields.len(),
{
    if fields.len() == 0 {
        None
    } else if fields[0].name@ == name {
        Some(fields[0].value)
    } else {
        field_lookup(fields.drop_first(), name)
    }
}

/// The key a candidate with this payload has under the field `name`.
pub open spec fn payload_key(payload: Option<Vec<PayloadField>>, name: Seq<char>) -> Result<
    KeyModel,
    AggregatorError,
> {
    match payload {
        None => Err(AggregatorError::KeyNotFound),
        Some(fields) => match field_lookup(fields@, name) {
            None => Err(AggregatorError::KeyNotFound),
            Some(v) => key_of_value(v),
        },
    }
}

pub open spec fn candidate_key(point: ScoredPoint, name: Seq<char>) -> Result<
    KeyModel,
    AggregatorError,
> {
    payload_key(point.payload, name)
}

proof fn lemma_lookup_skip(fields: Seq<PayloadField>, name: Seq<char>, i: int)
    requires
        0 <= i < fields.len(),
        forall|j: int| 0 <= j < i ==> fields[j].name@ != name,
    ensures
        field_lookup(fields, name) == field_lookup(fields.subrange(i, fields.len() as int), name),
    decreases i,
{
    if i > 0 {
        assert(fields.drop_first().subrange(i - 1, fields.len() - 1) =~= fields.subrange(
            i,
            fields.len() as int,
        ));
        lemma_lookup_skip(fields.drop_first(), name, i - 1);
    } else {
        assert(fields.subrange(0, fields.len() as int) =~= fields);
    }
}

proof fn lemma_lookup_absent(fields: Seq<PayloadField>, name: Seq<char>)
    requires
        forall|j: int| 0 <= j < fields.len() ==> fields[j].name@ != name,
    ensures
        field_lookup(fields, name) is None,
    decreases fields.len(),
{
    if fields.len() > 0 {
        lemma_lookup_absent(fields.drop_first(), name);
    }
}

/// Derives the grouping key of a candidate's payload under the field `name`.
/// A missing payload or field gives `KeyNotFound`; a value that is neither a
/// string nor a number gives `BadKeyType`.
pub fn extract_key(payload: &Option<Vec<PayloadField>>, name: &String) -> (r: Result<
    GroupKey,
    AggregatorError,
>)
    ensures
        key_result_view(r) == payload_key(*payload, name@),
{
    match *payload {
        None => Err(AggregatorError::KeyNotFound),
        Some(ref fields) => {
            let mut i: usize = 0;
            while i < fields.len()
                invariant
                    0 <= i <= fields.len(),
                    *payload == Some(*fields),
                    forall|j: int| 0 <= j < i ==> fields@[j].name@ != name@,
                decreases fields.len() - i,
            {
                if fields[i].name.eq(name) {
                    proof {
                        lemma_lookup_skip(fields@, name@, i as int);
                        let sub = fields@.subrange(i as int, fields@.len() as int);
                        assert(sub[0] == fields@[i as int]);
                    }
                    let r = GroupKey::try_from_value(&fields[i].value);
                    return r;
                }
                i = i + 1;
            }
            proof {
                lemma_lookup_absent(fields@, name@);
            }
            Err(AggregatorError::KeyNotFound)
        },
    }
}

} // verus!
