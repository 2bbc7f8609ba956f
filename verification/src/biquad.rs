use vstd::prelude::*;

verus! {

/// Filter kinds, in the order of their numeric codes 0..=5.
#[derive(Clone, Copy, PartialEq, Eq, Debug, Structural)]
pub enum FilterType {
    Peaking,
    LowShelf,
    HighShelf,
    LowPass,
    HighPass,
    Notch,
}

/// The numeric code of each filter kind (the code the front end sends).
pub open spec fn filter_code(t: FilterType) -> int {
    match t {
        FilterType::Peaking => 0,
        FilterType::LowShelf => 1,
        FilterType::HighShelf => 2,
        FilterType::LowPass => 3,
        FilterType::HighPass => 4,
        FilterType::Notch => 5,
    }
}

/// The filter kind a numeric code denotes; codes other than 1..=5 mean `Peaking`.
pub open spec fn spec_filter_from_code(v: int) -> FilterType {
    if v == 1 {
        FilterType::LowShelf
    } else if v == 2 {
        FilterType::HighShelf
    } else if v == 3 {
        FilterType::LowPass
    } else if v == 4 {
        FilterType::HighPass
    } else if v == 5 {
        FilterType::Notch
    } else {
        FilterType::Peaking
    }
}

impl FilterType {
    /// Decode a numeric filter code; unknown codes fall back to `Peaking`.
    pub fn from_i32(v: i32) -> (t: FilterType)
        ensures
            t == spec_filter_from_code(v as int),
    {
        match v {
            1 => FilterType::LowShelf,
            2 => FilterType::HighShelf,
            3 => FilterType::LowPass,
            4 => FilterType::HighPass,
            5 => FilterType::Notch,
            _ => FilterType::Peaking,
        }
    }
}

/// Decoding the code of a filter kind gives that kind back: the codes 0..=5
/// name the six kinds one to one.
pub proof fn law_filter_code_roundtrip(t: FilterType)
    ensures
        spec_filter_from_code(filter_code(t)) == t,
        0 <= filter_code(t) <= 5,
{
}

} // verus!
