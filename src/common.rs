use vstd::prelude::*;
use num_traits::FromPrimitive;

verus! {

/// The English name of month `m` (1 is January), or nothing for a number
/// that is no month.
pub open spec fn month_name(m: int) -> Seq<char> {
    if m == 1 { "January"@ }
    else if m == 2 { "February"@ }
    else if m == 3 { "March"@ }
    else if m == 4 { "April"@ }
    else if m == 5 { "May"@ }
    else if m == 6 { "June"@ }
    else if m == 7 { "July"@ }
    else if m == 8 { "August"@ }
    else if m == 9 { "September"@ }
    else if m == 10 { "October"@ }
    else if m == 11 { "November"@ }
    else if m == 12 { "December"@ }
    else { Seq::empty() }
}

/// Relies on chrono's `Month::from_u32` (1 to 12 are January to December,
/// anything else is no month) and `Month::name` (the month's English name).
#[verifier::external_body]
fn chrono_month_name(m: u32) -> (r: String)
    ensures
        r@ == month_name(m as int),
{
    match chrono::Month::from_u32(m) {
        Some(month) => month.name().to_owned(),
        None => String::new(),
    }
}

/// The English name of month `month_idx` (1 is January); empty for a number
/// that is no month.
pub fn to_name(month_idx: u32) -> (r: String)
    ensures
        r@ == month_name(month_idx as int),
{
    chrono_month_name(month_idx)
}

} // verus!
