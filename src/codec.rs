use vstd::prelude::*;
use chrono::Datelike;
use crate::model::{Date, DecodeFailure, FinItem, ItemView, ParseFinItemError, MIN_YEAR, MAX_YEAR, is_calendar_date, none_label};
use crate::number::{abs, all_digits, digit_char, digits, is_digit, lemma_digits, lemma_padded, padded_digits, fixed_text, fixed_to_text, fixed_value, lemma_digit_char, lemma_fixed_round_trip, lemma_fixed_text_chars, number_char, parse_fixed};
use crate::text::texts;

verus! {

/// The character between the fields of a line.
pub const FIELD_SEPARATOR: char = ',';

/// A currency sign that may follow a price; it is dropped when reading.
pub const CURRENCY_GLYPH: char = '\u{20AC}';

/// The pieces of `s` between occurrences of `sep`, as `str::split` cuts them:
/// `n` separators give `n + 1` pieces, empty ones included.
pub open spec fn split_text(s: Seq<char>, sep: char) -> Seq<Seq<char>>
    decreases s.len(),
{
    if s.len() == 0 {
        seq![Seq::empty()]
    } else {
        let init = split_text(s.drop_last(), sep);
        if s.last() == sep {
            init.push(Seq::empty())
        } else {
            init.update(init.len() - 1, init.last().push(s.last()))
        }
    }
}

/// The fields joined with `sep` between each two of them.
pub open spec fn join_fields(f: Seq<Seq<char>>, sep: char) -> Seq<char>
    decreases f.len(),
{
    if f.len() <= 1 {
        if f.len() == 1 { f[0] } else { Seq::empty() }
    } else {
        f[0] + seq![sep] + join_fields(f.drop_first(), sep)
    }
}

pub open spec fn free_of(s: Seq<char>, c: char) -> bool {
    forall|i: int| 0 <= i < s.len() ==> s[i] != c
}

pub proof fn lemma_split_len(s: Seq<char>, sep: char)
    ensures
        split_text(s, sep).len() >= 1,
    decreases s.len(),
{
    if s.len() > 0 {
        lemma_split_len(s.drop_last(), sep);
    }
}

proof fn lemma_split_plain(a: Seq<char>, sep: char)
    requires
        free_of(a, sep),
    ensures
        split_text(a, sep) == seq![a],
    decreases a.len(),
{
    if a.len() == 0 {
        assert(a =~= Seq::<char>::empty());
        assert(split_text(a, sep) =~= seq![a]);
    } else {
        assert(free_of(a.drop_last(), sep)) by {
            assert forall|i: int| 0 <= i < a.drop_last().len() implies a.drop_last()[i] != sep by {
                assert(a.drop_last()[i] == a[i]);
            }
        }
        assert(a.last() != sep);
        lemma_split_plain(a.drop_last(), sep);
        assert(a.drop_last().push(a.last()) =~= a);
        assert(split_text(a, sep) =~= seq![a]);
    }
}

proof fn lemma_split_after(a: Seq<char>, b: Seq<char>, sep: char)
    requires
        free_of(a, sep),
    ensures
        split_text(a + seq![sep] + b, sep) == seq![a] + split_text(b, sep),
    decreases b.len(),
{
    let s = a + seq![sep] + b;
    if b.len() == 0 {
        assert(s.drop_last() =~= a);
        lemma_split_plain(a, sep);
        assert(split_text(s, sep) =~= seq![a] + split_text(b, sep));
    } else {
        lemma_split_after(a, b.drop_last(), sep);
        assert(s.drop_last() =~= a + seq![sep] + b.drop_last());
        lemma_split_len(b.drop_last(), sep);
        assert(split_text(s, sep) =~= seq![a] + split_text(b, sep));
    }
}

/// Splitting what was joined gives back the fields, when none holds the separator.
pub proof fn lemma_split_join(f: Seq<Seq<char>>, sep: char)
    requires
        f.len() >= 1,
        forall|i: int| 0 <= i < f.len() ==> free_of(#[trigger] f[i], sep),
    ensures
        split_text(join_fields(f, sep), sep) == f,
    decreases f.len(),
{
    if f.len() == 1 {
        lemma_split_plain(f[0], sep);
        assert(seq![f[0]] =~= f);
    } else {
        let rest = f.drop_first();
        assert forall|i: int| 0 <= i < rest.len() implies free_of(#[trigger] rest[i], sep) by {
            assert(rest[i] == f[i + 1]);
        }
        lemma_split_join(rest, sep);
        assert(free_of(f[0], sep));
        lemma_split_after(f[0], join_fields(rest, sep), sep);
        assert(seq![f[0]] + rest =~= f);
    }
}

/// Cuts `line` at every separator.
pub fn split_fields(line: &str) -> (r: Vec<String>)
    ensures
        texts(r@) == split_text(line@, FIELD_SEPARATOR),
{
    let n = line.unicode_len();
    let mut fields: Vec<String> = Vec::new();
    let mut start: usize = 0;
    let mut i: usize = 0;
    assert(line@.subrange(0, 0) =~= Seq::<char>::empty());
    assert(texts(fields@).push(line@.subrange(0, 0)) =~= seq![Seq::<char>::empty()]);
    while i < n
        invariant
            n == line@.len(),
            start <= i <= n,
            split_text(line@.subrange(0, i as int), FIELD_SEPARATOR) == texts(fields@).push(
                line@.subrange(start as int, i as int),
            ),
        decreases n - i,
    {
        let c = line.get_char(i);
        let ghost pre = line@.subrange(0, i as int);
        assert(line@.subrange(0, i + 1).drop_last() =~= pre);
        if c == FIELD_SEPARATOR {
            let ghost before = texts(fields@);
            fields.push(String::from_str(line.substring_char(start, i)));
            assert(texts(fields@) =~= before.push(line@.subrange(start as int, i as int)));
            start = i + 1;
            assert(line@.subrange(start as int, start as int) =~= Seq::<char>::empty());
        } else {
            assert(line@.subrange(start as int, i as int).push(c) =~= line@.subrange(start as int, i + 1));
        }
        i = i + 1;
    }
    let ghost before = texts(fields@);
    fields.push(String::from_str(line.substring_char(start, n)));
    assert(texts(fields@) =~= before.push(line@.subrange(start as int, n as int)));
    assert(line@.subrange(0, n as int) =~= line@);
    fields
}

/// Unicode white space, as `char::is_whitespace` tells it.
pub open spec fn is_blank(c: char) -> bool {
    let u = c as int;
    (0x09 <= u <= 0x0d) || u == 0x20 || u == 0x85 || u == 0xa0 || u == 0x1680 || (0x2000 <= u
        <= 0x200a) || u == 0x2028 || u == 0x2029 || u == 0x202f || u == 0x205f || u == 0x3000
}

fn blank_char(c: char) -> (r: bool)
    ensures
        r == is_blank(c),
{
    let u = c as u32;
    (0x09 <= u && u <= 0x0d) || u == 0x20 || u == 0x85 || u == 0xa0 || u == 0x1680 || (0x2000 <= u
        && u <= 0x200a) || u == 0x2028 || u == 0x2029 || u == 0x202f || u == 0x205f || u == 0x3000
}

pub open spec fn trim_glyphs(s: Seq<char>) -> Seq<char>
    decreases s.len(),
{
    if s.len() > 0 && s.last() == CURRENCY_GLYPH {
        trim_glyphs(s.drop_last())
    } else {
        s
    }
}

pub open spec fn trim_blanks(s: Seq<char>) -> Seq<char>
    decreases s.len(),
{
    if s.len() > 0 && is_blank(s.last()) {
        trim_blanks(s.drop_last())
    } else {
        s
    }
}

/// The number inside a price field: trailing currency signs dropped, then
/// trailing blanks.
pub open spec fn price_digits(s: Seq<char>) -> Seq<char> {
    trim_blanks(trim_glyphs(s))
}

/// The price field with trailing currency signs and then trailing white space removed.
pub fn price_number(field: &str) -> (r: String)
    ensures
        r@ == price_digits(field@),
{
    let mut e: usize = field.unicode_len();
    assert(field@.subrange(0, e as int) =~= field@);
    while e > 0 && field.get_char(e - 1) == CURRENCY_GLYPH
        invariant
            e <= field@.len(),
            trim_glyphs(field@) == trim_glyphs(field@.subrange(0, e as int)),
        decreases e,
    {
        assert(field@.subrange(0, e as int).drop_last() =~= field@.subrange(0, e - 1));
        e = e - 1;
    }
    let ghost g = field@.subrange(0, e as int);
    assert(trim_glyphs(field@) == g);
    while e > 0 && blank_char(field.get_char(e - 1))
        invariant
            e <= g.len(),
            g.len() <= field@.len(),
            g == field@.subrange(0, g.len() as int),
            trim_blanks(g) == trim_blanks(field@.subrange(0, e as int)),
        decreases e,
    {
        assert(field@.subrange(0, e as int).drop_last() =~= field@.subrange(0, e - 1));
        e = e - 1;
    }
    String::from_str(field.substring_char(0, e))
}

/// How a year is written: four digits for years 0 to 9999; otherwise a sign
/// and at least four digits.
pub open spec fn year_text(y: int) -> Seq<char> {
    if 0 <= y <= 9999 {
        padded_digits(y as nat, 4)
    } else {
        (if y < 0 { seq!['-'] } else { seq!['+'] }) + if abs(y) <= 9999 {
            padded_digits(abs(y) as nat, 4)
        } else {
            digits(abs(y) as nat)
        }
    }
}

/// `YYYY-MM-DD`, each part zero-padded; a year outside 0 to 9999 carries its sign.
pub open spec fn date_text(d: Date) -> Seq<char> {
    let (m, dd) = (d.month as int, d.day as int);
    year_text(d.year as int) + seq![
        '-',
        digit_char(m / 10),
        digit_char(m % 10),
        '-',
        digit_char(dd / 10),
        digit_char(dd % 10),
    ]
}

/// What chrono reads from a text as a `NaiveDate`, as year, month and day.
pub uninterp spec fn naive_date_of(s: Seq<char>) -> Option<(i32, u32, u32)>;

/// Relies on chrono's `FromStr for NaiveDate` (format `%Y-%m-%d`): the result
/// depends on the text alone; every date it returns is a real calendar day of a
/// year from `MIN_YEAR` to `MAX_YEAR` (the range of `NaiveDate`); and the text
/// that chrono's `Display` writes for a date (`%Y-%m-%d`, the format documented
/// as shared by both) reads back as that date.
#[verifier::external_body]
fn parse_naive_date(s: &str) -> (r: Option<(i32, u32, u32)>)
    ensures
        r == naive_date_of(s@),
        r matches Some((y, m, d)) ==> is_calendar_date(y as int, m as int, d as int) && MIN_YEAR <= y
            <= MAX_YEAR,
        forall|d: Date| d.wf() && s@ == #[trigger] date_text(d) ==> r == Some((d.year, d.month, d.day)),
{
    match s.parse::<chrono::NaiveDate>() {
        Ok(d) => Some((d.year(), d.month(), d.day())),
        Err(_) => None,
    }
}

/// Relies on chrono's `Display for NaiveDate`: `YYYY-MM-DD`, each part
/// zero-padded, a year outside 0 to 9999 written with its sign and at least four
/// digits (`{:+05}`); `from_ymd_opt` accepts every real calendar day from
/// `MIN_YEAR` to `MAX_YEAR`.
#[verifier::external_body]
fn naive_date_text(y: i32, m: u32, d: u32) -> (r: String)
    requires
        MIN_YEAR <= y <= MAX_YEAR,
        is_calendar_date(y as int, m as int, d as int),
    ensures
        r@ == date_text(Date { year: y, month: m, day: d }),
{
    match chrono::NaiveDate::from_ymd_opt(y, m, d) {
        Some(date) => date.to_string(),
        None => String::new(),
    }
}

/// The date a field names, when chrono reads one.
pub open spec fn date_from_text(s: Seq<char>) -> Option<Date> {
    match naive_date_of(s) {
        Some((y, m, d)) => Some(Date { year: y, month: m, day: d }),
        None => None,
    }
}

/// Reads a `YYYY-MM-DD` date field.
pub fn parse_date(field: &str) -> (r: Option<Date>)
    ensures
        r == date_from_text(field@),
        r matches Some(d) ==> d.wf(),
        forall|d: Date| d.wf() && field@ == #[trigger] date_text(d) ==> r == Some(d),
{
    match parse_naive_date(field) {
        Some((y, m, d)) => Some(Date { year: y, month: m, day: d }),
        None => None,
    }
}

/// Writes a date as `YYYY-MM-DD`.
pub fn date_to_text(d: Date) -> (r: String)
    requires
        d.wf(),
    ensures
        r@ == date_text(d),
{
    naive_date_text(d.year, d.month, d.day)
}

/// How a category is written: its text, or `None` when it is absent.
pub open spec fn category_text(c: Option<Seq<char>>) -> Seq<char> {
    match c {
        Some(s) => s,
        None => none_label(),
    }
}

/// The six fields of an entry's line, in order.
pub open spec fn line_fields(v: ItemView) -> Seq<Seq<char>> {
    seq![
        date_text(v.date),
        v.item,
        category_text(v.category),
        fixed_text(v.price as int),
        v.owner,
        fixed_text(v.ratio as int),
    ]
}

/// The line an entry is written as.
pub open spec fn encoded(v: ItemView) -> Seq<char> {
    join_fields(line_fields(v), FIELD_SEPARATOR)
}

/// The entry a well-formed line is read as, from its fields and the date read
/// from the first one: the category is always present; `editable` is false.
pub open spec fn item_of_fields(f: Seq<Seq<char>>, date: Option<Date>) -> Result<ItemView, ParseFinItemError> {
    match date {
        None => Err(ParseFinItemError { reason: DecodeFailure::Date }),
        Some(d) => match fixed_value(price_digits(f[3])) {
            None => Err(ParseFinItemError { reason: DecodeFailure::Price }),
            Some(p) => match fixed_value(f[5]) {
                None => Err(ParseFinItemError { reason: DecodeFailure::Ratio }),
                Some(q) => Ok(
                    ItemView {
                        date: d,
                        item: f[1],
                        category: Some(f[2]),
                        price: p as i64,
                        owner: f[4],
                        ratio: q as i64,
                        editable: false,
                    },
                ),
            },
        },
    }
}

/// What reading a line gives.
pub open spec fn decoded(line: Seq<char>) -> Result<ItemView, ParseFinItemError> {
    let f = split_text(line, FIELD_SEPARATOR);
    if f.len() != 6 {
        Err(ParseFinItemError { reason: DecodeFailure::FieldCount })
    } else {
        item_of_fields(f, date_from_text(f[0]))
    }
}

pub open spec fn item_result_view(r: Result<FinItem, ParseFinItemError>) -> Result<ItemView, ParseFinItemError> {
    match r {
        Ok(e) => Ok(e@),
        Err(x) => Err(x),
    }
}

/// An entry whose line reads back as itself: a date the format can carry, a
/// category present, and no separator inside a text field.
pub open spec fn round_trips(v: ItemView) -> bool {
    &&& v.date.wf()
    &&& v.category is Some
    &&& free_of(v.item, FIELD_SEPARATOR)
    &&& free_of(v.category->0, FIELD_SEPARATOR)
    &&& free_of(v.owner, FIELD_SEPARATOR)
}

pub open spec fn without_edit_flag(v: ItemView) -> ItemView {
    ItemView { editable: false, ..v }
}

proof fn lemma_fixed_text_shape(v: int)
    ensures
        free_of(fixed_text(v), FIELD_SEPARATOR),
        fixed_text(v).len() > 0,
        number_char(fixed_text(v).last()),
{
    lemma_fixed_text_chars(v);
    let t = fixed_text(v);
    assert(number_char(t[t.len() - 1]));
    assert forall|i: int| 0 <= i < t.len() implies t[i] != FIELD_SEPARATOR by {
        assert(number_char(t[i]));
    }
}

proof fn lemma_date_text_shape(d: Date)
    requires
        d.wf(),
    ensures
        free_of(date_text(d), FIELD_SEPARATOR),
{
    let y = d.year as int;
    let (m, dd) = (d.month as int, d.day as int);
    let yt = year_text(y);
    let a = abs(y);
    lemma_padded(a as nat, 4);
    lemma_digits(a as nat);
    let body: Seq<char> = if a <= 9999 { padded_digits(a as nat, 4) } else { digits(a as nat) };
    assert(all_digits(body));
    assert forall|i: int| 0 <= i < yt.len() implies yt[i] != FIELD_SEPARATOR by {
        if 0 <= y <= 9999 {
            assert(yt == body);
            assert(is_digit(yt[i]));
        } else if i > 0 {
            assert(yt[i] == body[i - 1]);
            assert(is_digit(body[i - 1]));
        }
    }
    lemma_digit_char(m / 10);
    lemma_digit_char(m % 10);
    lemma_digit_char(dd / 10);
    lemma_digit_char(dd % 10);
    let t = date_text(d);
    assert forall|i: int| 0 <= i < t.len() implies t[i] != FIELD_SEPARATOR by {
        if i < yt.len() {
            assert(t[i] == yt[i]);
        }
    }
}

proof fn lemma_trim_digit_end(s: Seq<char>)
    requires
        s.len() > 0,
        number_char(s.last()),
    ensures
        price_digits(s) == s,
{
    assert(s.last() != CURRENCY_GLYPH);
    assert(!is_blank(s.last()));
}

proof fn lemma_fields_free(v: ItemView)
    requires
        round_trips(v),
    ensures
        forall|i: int| 0 <= i < line_fields(v).len() ==> free_of(#[trigger] line_fields(v)[i], FIELD_SEPARATOR),
{
    lemma_date_text_shape(v.date);
    lemma_fixed_text_shape(v.price as int);
    lemma_fixed_text_shape(v.ratio as int);
    let f = line_fields(v);
    assert(f[0] == date_text(v.date));
    assert(f[1] == v.item);
    assert(f[2] == v.category->0);
    assert(f[3] == fixed_text(v.price as int));
    assert(f[4] == v.owner);
    assert(f[5] == fixed_text(v.ratio as int));
}

/// What the fields of a written line are, and that its numbers read back.
proof fn lemma_encoded_fields(v: ItemView)
    requires
        round_trips(v),
    ensures
        split_text(encoded(v), FIELD_SEPARATOR) == line_fields(v),
        price_digits(fixed_text(v.price as int)) == fixed_text(v.price as int),
        fixed_value(fixed_text(v.price as int)) == Some(v.price as int),
        fixed_value(fixed_text(v.ratio as int)) == Some(v.ratio as int),
{
    lemma_fields_free(v);
    lemma_split_join(line_fields(v), FIELD_SEPARATOR);
    lemma_fixed_text_shape(v.price as int);
    lemma_trim_digit_end(fixed_text(v.price as int));
    lemma_fixed_round_trip(v.price);
    lemma_fixed_round_trip(v.ratio);
}

proof fn lemma_read_back(v: ItemView, f: Seq<Seq<char>>, date: Option<Date>)
    requires
        round_trips(v),
        f == line_fields(v),
        date == Some(v.date),
    ensures
        item_of_fields(f, date) == Ok::<ItemView, ParseFinItemError>(without_edit_flag(v)),
{
    lemma_encoded_fields(v);
    assert(f[3] == fixed_text(v.price as int));
    assert(f[5] == fixed_text(v.ratio as int));
}

proof fn lemma_line_round_trip(
    line: Seq<char>,
    f: Seq<Seq<char>>,
    date: Option<Date>,
    rv: Result<ItemView, ParseFinItemError>,
    v: ItemView,
)
    requires
        f == split_text(line, FIELD_SEPARATOR),
        f.len() == 6,
        rv == item_of_fields(f, date),
        forall|d: Date| d.wf() && f[0] == #[trigger] date_text(d) ==> date == Some(d),
        round_trips(v),
        line == encoded(v),
    ensures
        rv == Ok::<ItemView, ParseFinItemError>(without_edit_flag(v)),
{
    lemma_encoded_fields(v);
    assert(f[0] == date_text(v.date));
    lemma_read_back(v, f, date);
}

proof fn lemma_join_six(f: Seq<Seq<char>>, sep: char)
    requires
        f.len() == 6,
    ensures
        join_fields(f, sep) == f[0] + seq![sep] + f[1] + seq![sep] + f[2] + seq![sep] + f[3] + seq![sep]
            + f[4] + seq![sep] + f[5],
{
    let f1 = f.drop_first();
    let f2 = f1.drop_first();
    let f3 = f2.drop_first();
    let f4 = f3.drop_first();
    let f5 = f4.drop_first();
    assert(join_fields(f5, sep) == f[5]);
    assert(join_fields(f4, sep) == f[4] + seq![sep] + f[5]);
    assert(join_fields(f3, sep) == f[3] + seq![sep] + join_fields(f4, sep));
    assert(join_fields(f2, sep) == f[2] + seq![sep] + join_fields(f3, sep));
    assert(join_fields(f1, sep) == f[1] + seq![sep] + join_fields(f2, sep));
    assert(join_fields(f, sep) == f[0] + seq![sep] + join_fields(f1, sep));
    assert(join_fields(f, sep) =~= f[0] + seq![sep] + f[1] + seq![sep] + f[2] + seq![sep] + f[3] + seq![sep]
            + f[4] + seq![sep] + f[5]);
}

/// Builds an entry from the six fields of a line and the date read from the
/// first of them.
pub fn item_from_fields(fields: &Vec<String>, date: Option<Date>) -> (r: Result<FinItem, ParseFinItemError>)
    requires
        fields.len() == 6,
    ensures
        item_result_view(r) == item_of_fields(texts(fields@), date),
{
    let d = match date {
        Some(d) => d,
        None => return Err(ParseFinItemError { reason: DecodeFailure::Date }),
    };
    let number = price_number(fields[3].as_str());
    let price = match parse_fixed(number.as_str()) {
        Some(p) => p,
        None => return Err(ParseFinItemError { reason: DecodeFailure::Price }),
    };
    let ratio = match parse_fixed(fields[5].as_str()) {
        Some(q) => q,
        None => return Err(ParseFinItemError { reason: DecodeFailure::Ratio }),
    };
    let e = FinItem {
        date: d,
        item: fields[1].clone(),
        category: Some(fields[2].clone()),
        price,
        owner: fields[4].clone(),
        ratio,
        editable: false,
    };
    assert(e@ == item_of_fields(texts(fields@), date)->Ok_0);
    Ok(e)
}

/// What is known of the date chrono reads from the first of six fields: it
/// is a real day, and the text of a day reads back as that day.
pub open spec fn first_field_date_facts(line: Seq<char>) -> bool {
    let f = split_text(line, FIELD_SEPARATOR);
    f.len() == 6 ==> {
        &&& (date_from_text(f[0]) matches Some(d) ==> d.wf())
        &&& forall|d: Date| d.wf() && f[0] == #[trigger] date_text(d) ==> date_from_text(f[0]) == Some(d)
    }
}

impl FinItem {
    /// Reads an entry from one line: `date,item,category,price,owner,ratio`.
    /// A line that an entry was written as reads back as that entry, with
    /// `editable` false.
    pub fn from_line(line: &str) -> (r: Result<FinItem, ParseFinItemError>)
        ensures
            item_result_view(r) == decoded(line@),
            forall|v: ItemView|
                round_trips(v) && line@ == #[trigger] encoded(v) ==> item_result_view(r) == Ok::<
                    ItemView,
                    ParseFinItemError,
                >(without_edit_flag(v)),
            first_field_date_facts(line@),
            r is Ok ==> r->Ok_0.date.wf(),
    {
        let fields = split_fields(line);
        if fields.len() != 6 {
            proof {
                assert forall|v: ItemView| round_trips(v) && line@ == #[trigger] encoded(v) implies false by {
                    lemma_encoded_fields(v);
                }
            }
            return Err(ParseFinItemError { reason: DecodeFailure::FieldCount });
        }
        let date = parse_date(fields[0].as_str());
        let r = item_from_fields(&fields, date);
        proof {
            let f = texts(fields@);
            let rv = item_result_view(r);
            assert forall|v: ItemView| round_trips(v) && line@ == #[trigger] encoded(v) implies rv
                == Ok::<ItemView, ParseFinItemError>(without_edit_flag(v)) by {
                lemma_line_round_trip(line@, f, date, rv, v);
            }
        }
        r
    }

    /// Writes the entry as one line: `date,item,category,price,owner,ratio`,
    /// with `None` for an absent category and each number in its shortest form.
    pub fn to_line(&self) -> (r: String)
        requires
            self.date.wf(),
        ensures
            r@ == encoded(self@),
    {
        let mut out = date_to_text(self.date);
        let sep = ",";
        proof {
            reveal_strlit(",");
        }
        out.append(sep);
        out.append(self.item.as_str());
        out.append(sep);
        match &self.category {
            Some(c) => out.append(c.as_str()),
            None => {
                out.append("None");
                proof {
                    reveal_strlit("None");
                }
            },
        }
        out.append(sep);
        let price = fixed_to_text(self.price);
        out.append(price.as_str());
        out.append(sep);
        out.append(self.owner.as_str());
        out.append(sep);
        let ratio = fixed_to_text(self.ratio);
        out.append(ratio.as_str());
        let ghost f = line_fields(self@);
        proof {
            lemma_join_six(f, FIELD_SEPARATOR);
        }
        assert(out@ =~= encoded(self@));
        out
    }
}

/// The entries read from the lines that are well formed, in order.
pub open spec fn decoded_items(lines: Seq<Seq<char>>) -> Seq<ItemView>
    decreases lines.len(),
{
    if lines.len() == 0 {
        Seq::empty()
    } else {
        let init = decoded_items(lines.drop_last());
        match decoded(lines.last()) {
            Ok(v) => init.push(v),
            Err(_) => init,
        }
    }
}

/// The 0-based index and the error of each line that is not, in order.
pub open spec fn decode_failures(lines: Seq<Seq<char>>) -> Seq<(usize, ParseFinItemError)>
    decreases lines.len(),
{
    if lines.len() == 0 {
        Seq::empty()
    } else {
        let init = decode_failures(lines.drop_last());
        match decoded(lines.last()) {
            Ok(_) => init,
            Err(x) => init.push(((lines.len() - 1) as usize, x)),
        }
    }
}

pub open spec fn item_views(s: Seq<FinItem>) -> Seq<ItemView> {
    s.map_values(|e: FinItem| e@)
}

/// Reads every line on its own: a line that is not an entry is reported with
/// its index and skipped, and the lines around it are still read.
pub fn decode_all(lines: &Vec<String>) -> (r: (Vec<FinItem>, Vec<(usize, ParseFinItemError)>))
    ensures
        item_views(r.0@) == decoded_items(texts(lines@)),
        r.1@ == decode_failures(texts(lines@)),
        forall|i: int| 0 <= i < lines.len() ==> first_field_date_facts(#[trigger] lines@[i]@),
        forall|i: int| 0 <= i < r.0.len() ==> (#[trigger] r.0@[i]).date.wf(),
{
    let mut items: Vec<FinItem> = Vec::new();
    let mut failures: Vec<(usize, ParseFinItemError)> = Vec::new();
    let mut i: usize = 0;
    while i < lines.len()
        invariant
            i <= lines.len(),
            item_views(items@) == decoded_items(texts(lines@.subrange(0, i as int))),
            failures@ == decode_failures(texts(lines@.subrange(0, i as int))),
            forall|j: int| 0 <= j < i ==> first_field_date_facts(#[trigger] lines@[j]@),
            forall|j: int| 0 <= j < items.len() ==> (#[trigger] items@[j]).date.wf(),
        decreases lines.len() - i,
    {
        let ghost next = texts(lines@.subrange(0, i + 1));
        assert(next.drop_last() =~= texts(lines@.subrange(0, i as int)));
        assert(next.last() == lines@[i as int]@);
        let ghost before = item_views(items@);
        match FinItem::from_line(lines[i].as_str()) {
            Ok(e) => {
                items.push(e);
                assert(item_views(items@) =~= before.push(e@));
            },
            Err(x) => {
                failures.push((i, x));
            },
        }
        i = i + 1;
    }
    assert(lines@.subrange(0, lines.len() as int) =~= lines@);
    (items, failures)
}

impl core::str::FromStr for FinItem {
    type Err = ParseFinItemError;

    /// Reads an entry from one line, as [`FinItem::from_line`] does.
    fn from_str(s: &str) -> (r: Result<FinItem, ParseFinItemError>)
        ensures
            item_result_view(r) == decoded(s@),
            forall|v: ItemView|
                round_trips(v) && s@ == #[trigger] encoded(v) ==> item_result_view(r) == Ok::<
                    ItemView,
                    ParseFinItemError,
                >(without_edit_flag(v)),
            first_field_date_facts(s@),
            r is Ok ==> r->Ok_0.date.wf(),
    {
        FinItem::from_line(s)
    }
}

} // verus!
