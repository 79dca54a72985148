use fin_ledger::aggregate::{
    average, by_category, by_payer, comparison_pair, owed_between, payers_in_order, total_spend,
    weights_fit, MissingPayer,
};
use fin_ledger::codec::{date_to_text, decode_all, item_from_fields, parse_date, price_number, split_fields};
use fin_ledger::text::text_less;
use fin_ledger::common::to_name;
use fin_ledger::model::{category_label, Date, DecodeFailure, FinItem, ParseFinItemError};
use fin_ledger::number::{amount_to_text, fixed_to_text, parse_fixed};
use fin_ledger::period::{entries_in_period, positions_in_period, select_year, years_present, Period};

fn entry(y: i32, m: u32, d: u32, item: &str, cat: Option<&str>, price: i64, owner: &str, ratio: i64) -> FinItem {
    FinItem {
        date: Date { year: y, month: m, day: d },
        item: item.to_string(),
        category: cat.map(|c| c.to_string()),
        price,
        owner: owner.to_string(),
        ratio,
        editable: false,
    }
}

const U: i64 = 1_000_000_000;

fn example_entries() -> Vec<FinItem> {
    vec![
        entry(2023, 3, 1, "coffee", Some("food"), 45 * U / 10, "A", U / 2),
        entry(2023, 3, 2, "rent", Some("housing"), 1000 * U, "B", U / 2),
        entry(2023, 4, 1, "snack", Some("food"), 2 * U, "A", U),
    ]
}

#[test]
fn example_scenario_march() {
    let all = example_entries();
    let march = entries_in_period(&all, 2023, 3);
    assert_eq!(march.len(), 2);
    assert_eq!(total_spend(&march), 1_004_500_000_000);
    let payers = by_payer(&march);
    assert_eq!(payers.len(), 2);
    assert_eq!(payers[0].payer, "A");
    assert_eq!(payers[0].paid, 4_500_000_000);
    assert_eq!(payers[0].weighted, 2_250_000_000_000_000_000);
    assert_eq!(payers[1].payer, "B");
    assert_eq!(payers[1].paid, 1_000_000_000_000);
    assert_eq!(payers[1].weighted, 500_000_000_000_000_000_000);
    let cats = by_category(&march);
    assert_eq!(cats.len(), 2);
    assert_eq!(cats[0].category, "food");
    assert_eq!(cats[0].amount, 4_500_000_000);
    assert_eq!(cats[1].category, "housing");
    assert_eq!(cats[1].amount, 1_000_000_000_000);
    assert_eq!(years_present(&all), vec![2023]);
}

#[test]
fn example_entries_are_written_in_shortest_form() {
    let all = example_entries();
    assert_eq!(all[0].to_line(), "2023-03-01,coffee,food,4.5,A,0.5");
    assert_eq!(all[1].to_line(), "2023-03-02,rent,housing,1000,B,0.5");
    assert_eq!(all[2].to_line(), "2023-04-01,snack,food,2,A,1");
    let line = "2023-03-01,coffee,food,4.5,A,0.5";
    assert_eq!(FinItem::from_line(line).unwrap().to_line(), line);
}

#[test]
fn best_effort_import_skips_bad_line() {
    let lines: Vec<String> = vec![
        "2023-03-01,coffee,food,4.50,A,0.5".to_string(),
        "2023-03-02,rent,housing,1000.00,B,0.5".to_string(),
        "2023-03-03,broken,food,1.00,A".to_string(),
        "2023-04-01,snack,food,2.00,A,1.0".to_string(),
        "2023-04-02,tea,food,3.25,B,0.33333334".to_string(),
    ];
    let (items, failures) = decode_all(&lines);
    assert_eq!(items.len(), 4);
    assert_eq!(failures, vec![(2usize, ParseFinItemError { reason: DecodeFailure::FieldCount })]);
    assert_eq!(items[2].item, "snack");
    assert_eq!(items[3].price, 3_250_000_000);
    assert_eq!(items[3].ratio, 333_333_340);
}

#[test]
fn round_trip_of_one_entry() {
    let e = FinItem { editable: true, ..entry(2024, 2, 29, "bread", Some("food"), -1_234_000_000, "Kim", 333_333_333) };
    let line = e.to_line();
    assert_eq!(line, "2024-02-29,bread,food,-1.234,Kim,0.333333333");
    let back = FinItem::from_line(&line).unwrap();
    assert_eq!(back, FinItem { editable: false, ..e });
}

#[test]
fn absent_category_is_written_as_none() {
    let e = entry(2023, 1, 5, "bus", None, 25 * U / 10, "A", U);
    assert_eq!(e.to_line(), "2023-01-05,bus,None,2.5,A,1");
    let back: FinItem = "2023-01-05,bus,None,2.5,A,1".parse().unwrap();
    assert_eq!(back.category, Some("None".to_string()));
    let refund = entry(2023, 3, 5, "refund", Some("food"), -35 * U / 10, "A", 15 * U / 10);
    assert_eq!(refund.to_line(), "2023-03-05,refund,food,-3.5,A,1.5");
}

#[test]
fn decode_errors_by_kind() {
    let err = |line: &str| FinItem::from_line(line).unwrap_err().reason;
    assert_eq!(err("2023-03-01,a,b,1.00,A"), DecodeFailure::FieldCount);
    assert_eq!(err("2023-03-01,a,b,1.00,A,0.5,x"), DecodeFailure::FieldCount);
    assert_eq!(err(""), DecodeFailure::FieldCount);
    assert_eq!(err("2023-02-30,a,b,1.00,A,0.5"), DecodeFailure::Date);
    assert_eq!(err("yesterday,a,b,1.00,A,0.5"), DecodeFailure::Date);
    assert_eq!(err("2023-03-01,a,b,one,A,0.5"), DecodeFailure::Price);
    assert_eq!(err("2023-03-01,a,b,1..0,A,0.5"), DecodeFailure::Price);
    assert_eq!(err("2023-03-01,a,b,1.00,A,half"), DecodeFailure::Ratio);
    assert_eq!(err("2023-03-01,a,b,1.00,A,."), DecodeFailure::Ratio);
}

#[test]
fn price_may_carry_currency_sign() {
    let e = FinItem::from_line("2023-03-01,lunch,food,12.50\u{20AC},A,0.5").unwrap();
    assert_eq!(e.price, 12_500_000_000);
    let e = FinItem::from_line("2023-03-01,lunch,food,12.50 \u{20AC},A,0.5").unwrap();
    assert_eq!(e.price, 12_500_000_000);
    let e = FinItem::from_line("2023-03-01,lunch,food,12.50\u{a0}\u{20AC},A,0.5").unwrap();
    assert_eq!(e.price, 12_500_000_000);
    let e = FinItem::from_line("2023-03-01,lunch,food,12.5,A,1").unwrap();
    assert_eq!(e.price, 12_500_000_000);
    assert_eq!(e.ratio, U);
}

#[test]
fn fixed_point_text() {
    assert_eq!(fixed_to_text(-12_500_000_000), "-12.5");
    assert_eq!(fixed_to_text(50_000_000), "0.05");
    assert_eq!(fixed_to_text(1), "0.000000001");
    assert_eq!(fixed_to_text(0), "0");
    assert_eq!(fixed_to_text(1000 * U), "1000");
    assert_eq!(fixed_to_text(i64::MIN), "-9223372036.854775808");
    assert_eq!(parse_fixed("-9223372036.854775808"), Some(i64::MIN));
    assert_eq!(parse_fixed("9223372036.854775808"), None);
    assert_eq!(parse_fixed("+3.1"), Some(3_100_000_000));
    assert_eq!(parse_fixed("007"), Some(7 * U));
    assert_eq!(parse_fixed(".5"), Some(U / 2));
    assert_eq!(parse_fixed("5."), Some(5 * U));
    assert_eq!(parse_fixed("1.001"), Some(1_001_000_000));
    assert_eq!(parse_fixed("0.333"), Some(333_000_000));
    assert_eq!(parse_fixed("0.1234567891"), Some(123_456_789));
    assert_eq!(parse_fixed("-"), None);
    assert_eq!(parse_fixed("."), None);
    assert_eq!(parse_fixed(""), None);
    assert_eq!(parse_fixed("1.2.3"), None);
}

#[test]
fn split_keeps_empty_fields() {
    assert_eq!(split_fields("a,,b,"), vec!["a", "", "b", ""]);
    assert_eq!(split_fields(""), vec![""]);
}

#[test]
fn partition_puts_each_entry_in_one_period() {
    let all = example_entries();
    let mut seen = 0;
    for y in 2022..=2024 {
        for m in 1..=12u32 {
            let part = entries_in_period(&all, y, m);
            for e in &part {
                assert_eq!((e.date.year, e.date.month), (y, m));
            }
            seen += part.len();
        }
    }
    assert_eq!(seen, all.len());
    assert_eq!(entries_in_period(&all, 2023, 4)[0].item, "snack");
}

#[test]
fn sums_agree() {
    let mut all = example_entries();
    all.push(entry(2023, 3, 9, "refund", None, -3 * U, "C", U / 2));
    all.push(entry(2023, 3, 9, "misc", Some(""), 75 * U / 100, "A", 0));
    let march = entries_in_period(&all, 2023, 3);
    let total = total_spend(&march);
    assert_eq!(total, 1_002_250_000_000);
    let cat_sum: i128 = by_category(&march).iter().map(|c| c.amount).sum();
    let paid_sum: i128 = by_payer(&march).iter().map(|p| p.paid).sum();
    assert_eq!(cat_sum, total);
    assert_eq!(paid_sum, total);
    let cats = by_category(&march);
    assert_eq!(cats[0].category, "None");
    assert_eq!(cats[0].amount, -2_250_000_000);
}

#[test]
fn empty_period_totals() {
    let none: Vec<FinItem> = Vec::new();
    assert_eq!(total_spend(&none), 0);
    assert!(by_payer(&none).is_empty());
    assert!(by_category(&none).is_empty());
    assert!(years_present(&none).is_empty());
}

#[test]
fn navigation_stops_at_the_ends() {
    let years = vec![2022, 2023];
    let mut c = Period { year: 2023, month: 12 };
    for _ in 0..3 {
        c.advance(&years);
        assert_eq!(c, Period { year: 2023, month: 12 });
    }
    let mut c = Period { year: 2022, month: 1 };
    for _ in 0..3 {
        c.retreat(&years);
        assert_eq!(c, Period { year: 2022, month: 1 });
    }
    let mut c = Period { year: 2022, month: 12 };
    c.advance(&years);
    assert_eq!(c, Period { year: 2023, month: 1 });
    c.retreat(&years);
    assert_eq!(c, Period { year: 2022, month: 12 });
    c.retreat(&years);
    assert_eq!(c, Period { year: 2022, month: 11 });
}

#[test]
fn year_selection_policy() {
    assert_eq!(select_year(&vec![2021, 2023], 2021, 2030), 2021);
    assert_eq!(select_year(&vec![2021, 2023], 2022, 2030), 2023);
    assert_eq!(select_year(&vec![], 2022, 2030), 2030);
    let all = vec![
        entry(2021, 5, 1, "x", None, 1, "A", 0),
        entry(2019, 5, 1, "y", None, 1, "A", 0),
        entry(2021, 6, 1, "z", None, 1, "A", 0),
    ];
    assert_eq!(years_present(&all), vec![2019, 2021]);
}

#[test]
fn owed_between_payers() {
    let march = entries_in_period(&example_entries(), 2023, 3);
    let totals = by_payer(&march);
    let a = "A".to_string();
    let b = "B".to_string();
    assert_eq!(owed_between(&totals, &a, &b), Ok(497_750_000_000_000_000_000));
    assert_eq!(owed_between(&totals, &b, &a), Ok(-497_750_000_000_000_000_000));
    assert_eq!(owed_between(&totals, &a, &"Z".to_string()), Err(MissingPayer));
}

#[test]
fn average_rounds_down() {
    assert_eq!(average(7, 2), 3);
    assert_eq!(average(-7, 2), -4);
    assert_eq!(average(-8, 2), -4);
    assert_eq!(average(1_004_500_000_000, 2), 502_250_000_000);
}

#[test]
fn weight_overflow_is_detected() {
    let big = vec![
        entry(2023, 1, 1, "a", None, i64::MAX, "A", i64::MAX),
        entry(2023, 1, 1, "b", None, i64::MIN, "A", i64::MAX),
        entry(2023, 1, 1, "c", None, i64::MAX, "A", i64::MIN),
    ];
    assert!(!weights_fit(&big));
    assert!(weights_fit(&example_entries()));
}

#[test]
fn month_names() {
    assert_eq!(to_name(1), "January");
    assert_eq!(to_name(3), "March");
    assert_eq!(to_name(12), "December");
    assert_eq!(to_name(0), "");
    assert_eq!(to_name(13), "");
}

#[test]
fn payer_order_and_default_pair() {
    let all = vec![
        entry(2023, 1, 1, "a", None, 1, "Zoe", 0),
        entry(2023, 1, 2, "b", None, 1, "Al", 0),
        entry(2023, 1, 3, "c", None, 1, "Zoe", 0),
    ];
    let order = payers_in_order(&all);
    assert_eq!(order, vec!["Zoe", "Al"]);
    let none = "None".to_string();
    assert_eq!(comparison_pair(&order, &none, &none), ("Zoe".to_string(), "Al".to_string()));
    let keep = ("Al".to_string(), "Zoe".to_string());
    assert_eq!(comparison_pair(&order, &keep.0, &keep.1), keep);
    assert_eq!(comparison_pair(&vec!["Zoe".to_string()], &none, &none), (none.clone(), none.clone()));
}

#[test]
fn category_label_substitutes_none() {
    assert_eq!(category_label(&entry(2023, 1, 1, "a", None, 1, "A", 0)), "None");
    assert_eq!(category_label(&entry(2023, 1, 1, "a", Some(""), 1, "A", 0)), "None");
    assert_eq!(category_label(&entry(2023, 1, 1, "a", Some("fun"), 1, "A", 0)), "fun");
}

#[test]
fn positions_of_a_period() {
    let all = example_entries();
    assert_eq!(positions_in_period(&all, 2023, 3), vec![0, 1]);
    assert_eq!(positions_in_period(&all, 2023, 4), vec![2]);
    assert!(positions_in_period(&all, 2022, 4).is_empty());
}

#[test]
fn dates_through_text() {
    assert_eq!(parse_date("2023-03-01"), Some(Date { year: 2023, month: 3, day: 1 }));
    assert_eq!(parse_date("2023-13-01"), None);
    assert_eq!(parse_date("2023-02-29"), None);
    assert_eq!(parse_date("2024-02-29"), Some(Date { year: 2024, month: 2, day: 29 }));
    assert_eq!(date_to_text(Date { year: 7, month: 1, day: 9 }), "0007-01-09");
    assert_eq!(parse_date("0007-01-09"), Some(Date { year: 7, month: 1, day: 9 }));
}

#[test]
fn fields_to_entry() {
    let fields: Vec<String> = vec!["x", "tea", "", "3.00 \u{20AC}\u{20AC}", "B", "-.5"]
        .into_iter()
        .map(String::from)
        .collect();
    let date = Date { year: 2020, month: 6, day: 30 };
    let e = item_from_fields(&fields, Some(date)).unwrap();
    assert_eq!(e.date, date);
    assert_eq!(e.category, Some(String::new()));
    assert_eq!(e.price, 3 * U);
    assert_eq!(e.ratio, -U / 2);
    assert_eq!(
        item_from_fields(&fields, None),
        Err(ParseFinItemError { reason: DecodeFailure::Date })
    );
    assert_eq!(price_number("3.00 \u{20AC}"), "3.00");
    assert_eq!(price_number("3.00\u{20AC} "), "3.00\u{20AC}");
}

#[test]
fn text_order() {
    assert!(text_less("Al", "Zoe"));
    assert!(text_less("A", "AB"));
    assert!(!text_less("b", "B"));
    assert!(!text_less("same", "same"));
    assert!(text_less("", "a"));
}

#[test]
fn signed_years_round_trip() {
    let far = entry(10000, 1, 2, "x", Some("c"), U, "A", U);
    assert_eq!(far.to_line(), "+10000-01-02,x,c,1,A,1");
    assert_eq!(FinItem::from_line(&far.to_line()).unwrap(), far);
    let early = entry(-1, 12, 31, "y", Some("c"), -U, "B", 0);
    assert_eq!(early.to_line(), "-0001-12-31,y,c,-1,B,0");
    assert_eq!(FinItem::from_line(&early.to_line()).unwrap(), early);
}

#[test]
fn from_str_reads_lines() {
    let e: FinItem = "2023-03-05,refund,food,-3.5,A,1.5".parse().unwrap();
    assert_eq!(e, entry(2023, 3, 5, "refund", Some("food"), -35 * U / 10, "A", 15 * U / 10));
    let e: FinItem = "2023-03-01,coffee,,4.5,A,0.5".parse().unwrap();
    assert_eq!(e.category, Some(String::new()));
    let with_sign: FinItem = "2023-03-01,coffee,food,12.50\u{20AC},A,0.5".parse().unwrap();
    let without: FinItem = "2023-03-01,coffee,food,12.50,A,0.5".parse().unwrap();
    assert_eq!(with_sign, without);
    assert_eq!(without.price, 12_500_000_000);
    let bad = |s: &str| s.parse::<FinItem>().unwrap_err().reason;
    assert_eq!(bad("2023-03-01,coffee,food,4.5,A"), DecodeFailure::FieldCount);
    assert_eq!(bad("2023-03-01,coffee,large,food,4.5,A,0.5"), DecodeFailure::FieldCount);
    assert_eq!(bad("2023-02-30,coffee,food,4.5,A,0.5"), DecodeFailure::Date);
    assert_eq!(bad("03/01/2023,coffee,food,4.5,A,0.5"), DecodeFailure::Date);
    assert_eq!(bad("2023-03-01,coffee,food,abc,A,0.5"), DecodeFailure::Price);
    assert_eq!(bad("2023-03-01,coffee,food,4.5,A,half"), DecodeFailure::Ratio);
    let rent = FinItem { editable: true, ..example_entries()[1].clone() };
    let back: FinItem = rent.to_line().parse().unwrap();
    assert_eq!(back, FinItem { editable: false, ..rent });
}

#[test]
fn wide_totals_as_text() {
    assert_eq!(amount_to_text(i128::MIN), "-170141183460469231731687303715.884105728");
    assert_eq!(amount_to_text(10 * i64::MAX as i128), "92233720368.54775807");
    assert_eq!(amount_to_text(-5 * U as i128 / 2), "-2.5");
}
