use vstd::prelude::*;

verus! {

/// The largest percentage.
pub const MAX_PERCENT: u8 = 100;

/// Why a number is no percentage.
#[derive(Clone, Copy, Debug, PartialEq, Eq, Structural)]
pub enum PercentError {
    /// The number is larger than 100.
    OutOfRange,
}

impl PercentError {
    /// The error in words.
    pub fn message(&self) -> (r: &'static str)
        ensures
            r == "must be an integer between 0 and 100",
    {
        "must be an integer between 0 and 100"
    }
}

/// Lets an integer read from a document through if it is a percentage.
pub fn deserialize_pct_0_to_100(v: u8) -> (r: Result<u8, PercentError>)
    ensures
        v <= MAX_PERCENT ==> r == Ok::<u8, PercentError>(v),
        v > MAX_PERCENT ==> r == Err::<u8, PercentError>(PercentError::OutOfRange),
{
    if v > MAX_PERCENT {
        return Err(PercentError::OutOfRange);
    }
    Ok(v)
}

/// An integer between 0 and 100.
#[derive(Debug, Clone, Copy, PartialEq, Eq, Structural, PartialOrd, Ord, Hash)]
pub struct Value(u8);

impl Value {
    #[verifier::type_invariant]
    spec fn in_range(self) -> bool {
        self.0 <= MAX_PERCENT
    }

    /// The percentage as a number.
    pub closed spec fn percent(self) -> u8 {
        self.0
    }

    /// The percentage `v`, if `v` is one.
    pub fn new(v: u8) -> (r: Result<Value, PercentError>)
        ensures
            v <= MAX_PERCENT ==> r is Ok && r->Ok_0.percent() == v,
            v > MAX_PERCENT ==> r == Err::<Value, PercentError>(PercentError::OutOfRange),
    {
        match deserialize_pct_0_to_100(v) {
            Ok(v) => Ok(Value(v)),
            Err(e) => Err(e),
        }
    }

    pub fn get(&self) -> (r: u8)
        ensures
            r == self.percent(),
            r <= MAX_PERCENT,
    {
        proof {
            use_type_invariant(self);
        }
        self.0
    }
}

/// Two percentages of the same number are the same percentage.
pub proof fn lemma_value_by_number(a: Value, b: Value)
    requires
        a.percent() == b.percent(),
    ensures
        a == b,
{
}

} // verus!
