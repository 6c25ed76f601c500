use vstd::prelude::*;
use vstd::string::StrSliceExecFns;

verus! {

/// `c` is an ASCII decimal digit.
pub open spec fn is_digit(c: char) -> bool {
    '0' <= c <= '9'
}

/// The number that the decimal digits `s` spell.
pub open spec fn digits_value(s: Seq<char>) -> int
    decreases s.len(),
{
    if s.len() == 0 {
        0
    } else {
        digits_value(s.drop_last()) * 10 + (s.last() as int - '0' as int)
    }
}

/// The decimal digits of `n`, without leading zeros.
pub open spec fn decimal_digits(n: nat) -> Seq<char>
    decreases n,
{
    if n < 10 {
        seq![('0' as int + n) as char]
    } else {
        decimal_digits(n / 10).push(('0' as int + n % 10) as char)
    }
}

/// What reading `s` as a `u64` gives: an optional `+` followed by one or
/// more ASCII digits whose value fits.
pub open spec fn u64_of(s: Seq<char>) -> Option<u64> {
    let d = if s.len() > 0 && s[0] == '+' {
        s.drop_first()
    } else {
        s
    };
    if d.len() > 0 && (forall|i: int| 0 <= i < d.len() ==> is_digit(#[trigger] d[i])) && digits_value(
        d,
    ) <= u64::MAX {
        Some(digits_value(d) as u64)
    } else {
        None
    }
}

/// Relies on `str::parse::<u64>`: an optional `+` and at least one ASCII
/// digit, whose value fits in a `u64`; anything else is an error.
#[verifier::external_body]
fn parse_u64(s: &str) -> (r: Option<u64>)
    ensures
        r == u64_of(s@),
{
    s.parse::<u64>().ok()
}

/// Relies on `format!` with `char` and `u64` arguments: the character, then
/// the number's decimal digits.
#[verifier::external_body]
fn tagged_decimal(tag: char, n: u64) -> (r: String)
    ensures
        r@ == seq![tag] + decimal_digits(n as nat),
{
    format!("{}{}", tag, n)
}

/// Why text is not a catalog item ID.
#[derive(Clone, Copy, Debug, PartialEq, Eq, Structural)]
pub enum ParseIdError {
    /// Shorter than two characters, or not in a known namespace.
    Malformed,
    /// What follows the namespace is not a `u64`.
    InvalidNumber,
}

/// The identifier of an item within the catalog.
#[derive(Clone, Copy, Debug, PartialEq, Eq, Structural, PartialOrd, Ord, Hash)]
pub enum CatalogItemId {
    /// System namespace.
    System(u64),
    /// User namespace.
    User(u64),
    /// Transient item.
    Transient(u64),
}

/// The identifier of a collection: the same namespaces as a catalog item.
#[derive(Clone, Copy, Debug, PartialEq, Eq, Structural, PartialOrd, Ord, Hash)]
pub enum GlobalId {
    System(u64),
    User(u64),
    Transient(u64),
}

/// The namespace letter of an ID.
pub open spec fn namespace_tag(id: CatalogItemId) -> char {
    match id {
        CatalogItemId::System(_) => 's',
        CatalogItemId::User(_) => 'u',
        CatalogItemId::Transient(_) => 't',
    }
}

/// The number of an ID.
pub open spec fn id_number(id: CatalogItemId) -> u64 {
    match id {
        CatalogItemId::System(x) => x,
        CatalogItemId::User(x) => x,
        CatalogItemId::Transient(x) => x,
    }
}

/// The text of an ID: its namespace letter and then its number in decimal.
pub open spec fn id_text(id: CatalogItemId) -> Seq<char> {
    seq![namespace_tag(id)] + decimal_digits(id_number(id) as nat)
}

/// What reading `s` as an ID gives: a namespace letter (`s`, `u` or `t`)
/// followed by a `u64`.
pub open spec fn parse_id(s: Seq<char>) -> Result<CatalogItemId, ParseIdError> {
    if s.len() < 2 {
        Err(ParseIdError::Malformed)
    } else {
        match u64_of(s.drop_first()) {
            None => Err(ParseIdError::InvalidNumber),
            Some(v) => if s[0] == 's' {
                Ok(CatalogItemId::System(v))
            } else if s[0] == 'u' {
                Ok(CatalogItemId::User(v))
            } else if s[0] == 't' {
                Ok(CatalogItemId::Transient(v))
            } else {
                Err(ParseIdError::Malformed)
            },
        }
    }
}

proof fn lemma_decimal_digits(n: nat)
    ensures
        decimal_digits(n).len() > 0,
        forall|i: int|
            0 <= i < decimal_digits(n).len() ==> is_digit(#[trigger] decimal_digits(n)[i]),
        digits_value(decimal_digits(n)) == n,
    decreases n,
{
    let d = decimal_digits(n);
    if n >= 10 {
        lemma_decimal_digits(n / 10);
        assert(d.drop_last() =~= decimal_digits(n / 10));
        assert(n == (n / 10) * 10 + n % 10) by (nonlinear_arith);
        assert(d.last() as int - '0' as int == n % 10);
        assert(digits_value(d) == digits_value(d.drop_last()) * 10 + (d.last() as int - '0' as int));
        assert(digits_value(d.drop_last()) == n / 10);
    } else {
        assert(d.last() as int - '0' as int == n);
        assert(digits_value(d) == digits_value(d.drop_last()) * 10 + (d.last() as int - '0' as int));
        assert(d.drop_last() =~= Seq::<char>::empty());
    }
}

/// Reading back the text of an ID gives the ID.
pub proof fn lemma_id_text_round_trip(id: CatalogItemId)
    ensures
        parse_id(id_text(id)) == Ok::<CatalogItemId, ParseIdError>(id),
{
    let digits = decimal_digits(id_number(id) as nat);
    lemma_decimal_digits(id_number(id) as nat);
    let t = id_text(id);
    assert(t.drop_first() =~= digits);
    assert(is_digit(digits[0]));
}

impl CatalogItemId {
    /// Reads an ID from its text: a namespace letter (`s`, `u` or `t`)
    /// followed by a `u64`.
    pub fn parse(s: &str) -> (r: Result<CatalogItemId, ParseIdError>)
        ensures
            r == parse_id(s@),
    {
        let n = s.unicode_len();
        if n < 2 {
            return Err(ParseIdError::Malformed);
        }
        let val = match parse_u64(s.substring_char(1, n)) {
            Some(v) => v,
            None => {
                proof {
                    assert(s@.subrange(1, n as int) =~= s@.drop_first());
                }
                return Err(ParseIdError::InvalidNumber);
            },
        };
        proof {
            assert(s@.subrange(1, n as int) =~= s@.drop_first());
        }
        let c = s.get_char(0);
        if c == 's' {
            Ok(CatalogItemId::System(val))
        } else if c == 'u' {
            Ok(CatalogItemId::User(val))
        } else if c == 't' {
            Ok(CatalogItemId::Transient(val))
        } else {
            Err(ParseIdError::Malformed)
        }
    }

    /// The text of this ID: `s`, `u` or `t`, then the number in decimal.
    pub fn to_string(&self) -> (r: String)
        ensures
            r@ == id_text(*self),
    {
        match *self {
            CatalogItemId::System(x) => tagged_decimal('s', x),
            CatalogItemId::User(x) => tagged_decimal('u', x),
            CatalogItemId::Transient(x) => tagged_decimal('t', x),
        }
    }

    /// Reports whether this ID is in the system namespace.
    pub fn is_system(&self) -> (r: bool)
        ensures
            r == (*self is System),
    {
        matches!(self, CatalogItemId::System(_))
    }

    /// Reports whether this ID is in the user namespace.
    pub fn is_user(&self) -> (r: bool)
        ensures
            r == (*self is User),
    {
        matches!(self, CatalogItemId::User(_))
    }

    /// Reports whether this ID is for a transient item.
    pub fn is_transient(&self) -> (r: bool)
        ensures
            r == (*self is Transient),
    {
        matches!(self, CatalogItemId::Transient(_))
    }

    /// The global ID in the same namespace with the same number.
    pub fn to_global_id(&self) -> (r: GlobalId)
        ensures
            r == match *self {
                CatalogItemId::System(x) => GlobalId::System(x),
                CatalogItemId::User(x) => GlobalId::User(x),
                CatalogItemId::Transient(x) => GlobalId::Transient(x),
            },
    {
        match self {
            CatalogItemId::User(x) => GlobalId::User(*x),
            CatalogItemId::System(x) => GlobalId::System(*x),
            CatalogItemId::Transient(x) => GlobalId::Transient(*x),
        }
    }
}

} // verus!
