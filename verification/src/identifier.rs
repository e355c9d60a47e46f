use vstd::prelude::*;
use vstd::string::StrSliceExecFns;

verus! {

/// What the hyphenated textual rendering of a 128-bit unique identifier is.
/// It is a function of the value alone; the trusted items below state the few
/// facts the library needs of it.
pub uninterp spec fn uuid_text(n: u128) -> Seq<char>;

/// What parsing a candidate textual identifier yields: the 128-bit value it
/// denotes, or nothing when the text is not an accepted form.
pub uninterp spec fn uuid_parse(s: Seq<char>) -> Option<u128>;

/// Relies on `uuid::Uuid::new_v4` and `Uuid::as_u128`: a freshly generated
/// random identifier. Nothing is assumed of the value.
#[verifier::external_body]
pub(crate) fn fresh_uuid() -> u128 {
    uuid::Uuid::new_v4().as_u128()
}

/// Relies on `uuid::Uuid::from_u128` and its `Display` impl: the hyphenated
/// lowercase rendering of the 128-bit value, 36 characters, a function of the
/// value alone; `Uuid::parse_str` accepts this rendering and inverts it.
#[verifier::external_body]
pub(crate) fn uuid_text_of(n: u128) -> (r: String)
    ensures
        r@ == uuid_text(n),
        r@.len() == 36,
        uuid_parse(r@) == Some(n),
{
    uuid::Uuid::from_u128(n).to_string()
}

/// Relies on `uuid::Uuid::parse_str` and `Uuid::as_u128`: whether the text is
/// one of the accepted textual identifier forms, a function of the text alone.
#[verifier::external_body]
pub(crate) fn uuid_parse_text(s: &str) -> (r: Option<u128>)
    ensures
        r == uuid_parse(s@),
{
    match uuid::Uuid::parse_str(s) {
        Ok(u) => Some(u.as_u128()),
        Err(_) => None,
    }
}

/// Character-by-character string comparison.
pub fn str_eq(a: &str, b: &str) -> (r: bool)
    ensures
        r == (a@ == b@),
{
    let alen = a.unicode_len();
    let blen = b.unicode_len();
    if alen != blen {
        return false;
    }
    let mut i: usize = 0;
    while i < alen
        invariant
            alen == a@.len(),
            blen == b@.len(),
            alen == blen,
            i <= alen,
            forall|j: int| 0 <= j < i ==> a@[j] == b@[j],
        decreases alen - i,
    {
        if a.get_char(i) != b.get_char(i) {
            return false;
        }
        i += 1;
    }
    proof {
        assert(a@ =~= b@);
    }
    true
}

/// An entity identity, usable either as the 128-bit universally-unique value
/// or as its short textual form. Comparison is canonical: by textual form.
#[derive(Clone, Debug)]
pub enum Identifier {
    Uuid(u128),
    Id(String),
}

impl Identifier {
    /// The canonical textual form of this identifier.
    pub open spec fn spec_text(self) -> Seq<char> {
        match self {
            Identifier::Uuid(n) => uuid_text(n),
            Identifier::Id(s) => s@,
        }
    }

    /// Whether this identifier denotes the entity whose unique id is `id`:
    /// the textual forms coincide.
    pub open spec fn spec_matches(self, id: u128) -> bool {
        match self {
            Identifier::Uuid(n) => n == id,
            Identifier::Id(s) => s@ == uuid_text(id),
        }
    }

    /// Whether this identifier denotes the entity whose unique id is `id`.
    pub fn matches_id(&self, id: u128) -> (r: bool)
        ensures
            r == self.spec_matches(id),
    {
        match self {
            Identifier::Uuid(n) => *n == id,
            Identifier::Id(s) => {
                let t = uuid_text_of(id);
                str_eq(s.as_str(), t.as_str())
            },
        }
    }

    /// The canonical textual form.
    pub fn to_text(&self) -> (r: String)
        ensures
            r@ == self.spec_text(),
    {
        match self {
            Identifier::Uuid(n) => uuid_text_of(*n),
            Identifier::Id(s) => s.as_str().to_string(),
        }
    }

    /// The universally-unique form, when this identifier has one.
    pub fn to_unique(&self) -> (r: Option<u128>)
        ensures
            r == match *self {
                Identifier::Uuid(n) => Some(n),
                Identifier::Id(s) => uuid_parse(s@),
            },
    {
        match self {
            Identifier::Uuid(n) => Some(*n),
            Identifier::Id(s) => uuid_parse_text(s.as_str()),
        }
    }
}

impl PartialEq for Identifier {
    /// Identifiers are equal iff their canonical textual forms are equal.
    fn eq(&self, other: &Self) -> (r: bool) {
        let a = self.to_text();
        let b = other.to_text();
        str_eq(a.as_str(), b.as_str())
    }
}

impl vstd::std_specs::cmp::PartialEqSpecImpl for Identifier {
    open spec fn obeys_eq_spec() -> bool {
        true
    }

    open spec fn eq_spec(&self, other: &Self) -> bool {
        self.spec_text() == other.spec_text()
    }
}

} // verus!
