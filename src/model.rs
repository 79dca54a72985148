use vstd::prelude::*;

verus! {

/// A day of the proleptic Gregorian calendar.
#[derive(Clone, Copy, Debug, PartialEq, Eq, Structural)]
pub struct Date {
    pub year: i32,
    pub month: u32,
    pub day: u32,
}

pub open spec fn is_leap_year(y: int) -> bool {
    y % 4 == 0 && (y % 100 != 0 || y % 400 == 0)
}

pub open spec fn days_in_month(y: int, m: int) -> int {
    if m == 2 {
        if is_leap_year(y) { 29 } else { 28 }
    } else if m == 4 || m == 6 || m == 9 || m == 11 {
        30
    } else {
        31
    }
}

/// `(y, m, d)` names a day that exists in the calendar.
pub open spec fn is_calendar_date(y: int, m: int, d: int) -> bool {
    1 <= m <= 12 && 1 <= d <= days_in_month(y, m)
}

/// The earliest and the latest year a date can have.
pub const MIN_YEAR: i32 = -262143;
pub const MAX_YEAR: i32 = 262142;

impl Date {
    /// A real calendar day, in a year from `MIN_YEAR` to `MAX_YEAR`.
    pub open spec fn wf(&self) -> bool {
        MIN_YEAR <= self.year <= MAX_YEAR && is_calendar_date(self.year as int, self.month as int, self.day as int)
    }
}

/// One ledger line: what was bought, when, for how much, and by whom.
#[derive(Clone, Debug, PartialEq)]
pub struct FinItem {
    pub date: Date,
    pub item: String,
    /// `None` (or an empty label) is shown and grouped as the category `"None"`.
    pub category: Option<String>,
    /// The price, in billionths of the currency unit; negative for refunds.
    pub price: i64,
    /// Who paid.
    pub owner: String,
    /// The payer's share of the price, in billionths (`500_000_000` is one half).
    pub ratio: i64,
    /// View state only: never written to text and never read by the totals.
    pub editable: bool,
}

/// The mathematical content of a [`FinItem`].
pub struct ItemView {
    pub date: Date,
    pub item: Seq<char>,
    pub category: Option<Seq<char>>,
    pub price: i64,
    pub owner: Seq<char>,
    pub ratio: i64,
    pub editable: bool,
}

pub open spec fn opt_view(o: Option<String>) -> Option<Seq<char>> {
    match o {
        Some(s) => Some(s@),
        None => None,
    }
}

impl View for FinItem {
    type V = ItemView;

    open spec fn view(&self) -> ItemView {
        ItemView {
            date: self.date,
            item: self.item@,
            category: opt_view(self.category),
            price: self.price,
            owner: self.owner@,
            ratio: self.ratio,
            editable: self.editable,
        }
    }
}

/// Why a line of text is not a ledger entry.
#[derive(Clone, Copy, Debug, PartialEq, Eq, Structural)]
pub enum DecodeFailure {
    /// The line does not split into exactly six fields.
    FieldCount,
    /// The first field is not a `YYYY-MM-DD` calendar date.
    Date,
    /// The price field is not a decimal number.
    Price,
    /// The ratio field is not a decimal number.
    Ratio,
}

/// A line of text could not be read as a [`FinItem`].
#[derive(Clone, Copy, Debug, PartialEq, Eq, Structural)]
pub struct ParseFinItemError {
    pub reason: DecodeFailure,
}

/// The text used for an absent or empty category.
pub open spec fn none_label() -> Seq<char> {
    seq!['N', 'o', 'n', 'e']
}

/// The category an entry is grouped under.
pub open spec fn category_key(c: Option<Seq<char>>) -> Seq<char> {
    match c {
        Some(s) => if s.len() > 0 { s } else { none_label() },
        None => none_label(),
    }
}

/// The category label of an entry, with `"None"` standing for an absent or empty one.
pub fn category_label(e: &FinItem) -> (r: String)
    ensures
        r@ == category_key(e@.category),
{
    match &e.category {
        Some(c) => {
            if c.as_str().unicode_len() > 0 {
                return c.clone();
            }
        },
        None => {},
    }
    let r = String::from_str("None");
    proof {
        reveal_strlit("None");
    }
    assert(r@ =~= none_label());
    r
}

/// A copy of an entry that keeps every field.
pub fn copy_item(e: &FinItem) -> (r: FinItem)
    ensures
        r == *e,
{
    let category = match &e.category {
        Some(c) => Some(c.clone()),
        None => None,
    };
    FinItem {
        date: e.date,
        item: e.item.clone(),
        category,
        price: e.price,
        owner: e.owner.clone(),
        ratio: e.ratio,
        editable: e.editable,
    }
}

} // verus!
