use inventory::catalog::Catalog;
use inventory::expiry::parse_date;

fn chars(s: &str) -> Vec<char> {
    s.chars().collect()
}

fn day_number_of(y: i64, m: i64, d: i64) -> i64 {
    parse_date(&chars(&format!("{:04}-{:02}-{:02}", y, m, d))).unwrap()
}

fn leap_year(y: i64) -> bool {
    day_number_of(y, 3, 1) - day_number_of(y, 2, 28) == 2
}

fn dated(dates: &[&str]) -> Catalog {
    let mut c = Catalog::new();
    let s = c.create_section("S".to_string()).unwrap();
    let t = c.create_type("T".to_string(), s).unwrap();
    let p = c.create_product("P".to_string(), t).unwrap();
    for d in dates {
        c.create_batch(p, d.to_string(), 1, 0).unwrap();
    }
    c
}

fn expiring(c: &Catalog, today: i64, days: i64) -> Vec<i64> {
    c.batches_expiring_within(today, days).into_iter().map(|b| b.id).collect()
}

#[test]
fn days_are_counted_from_1970() {
    assert_eq!(day_number_of(1970, 1, 1), 0);
    assert_eq!(day_number_of(1970, 1, 2), 1);
    assert_eq!(day_number_of(1969, 12, 31), -1);
    assert_eq!(day_number_of(1970, 12, 31), 364);
    assert_eq!(day_number_of(1972, 2, 29), 789);
    assert_eq!(day_number_of(1972, 3, 1), 790);
    assert_eq!(day_number_of(2000, 1, 1), 10957);
    assert_eq!(day_number_of(2000, 3, 1), 11017);
    assert_eq!(day_number_of(2025, 1, 1), 20089);
    assert_eq!(day_number_of(2100, 3, 1), 47541);
    assert_eq!(day_number_of(0, 1, 1), -719528);
    assert_eq!(day_number_of(9999, 12, 31), 2932896);
}

#[test]
fn consecutive_days_have_consecutive_numbers() {
    let lengths = [31, 28, 31, 30, 31, 30, 31, 31, 30, 31, 30, 31];
    let mut expected = day_number_of(1899, 12, 31);
    for y in 1900..2105 {
        for m in 1..=12i64 {
            let mut n = lengths[(m - 1) as usize];
            if m == 2 && leap_year(y) {
                n = 29;
            }
            for d in 1..=n {
                expected += 1;
                assert_eq!(day_number_of(y, m, d), expected);
            }
        }
    }
}

#[test]
fn leap_years_follow_the_gregorian_rule() {
    assert!(leap_year(2024));
    assert!(leap_year(2000));
    assert!(leap_year(0));
    assert!(!leap_year(1900));
    assert!(!leap_year(2100));
    assert!(!leap_year(2025));
}

#[test]
fn a_day_past_the_end_of_its_month_runs_into_the_next() {
    assert_eq!(day_number_of(2025, 2, 30), day_number_of(2025, 3, 2));
    assert_eq!(day_number_of(2024, 2, 30), day_number_of(2024, 3, 1));
    assert_eq!(day_number_of(2025, 4, 31), day_number_of(2025, 5, 1));
}

#[test]
fn date_is_read_from_ten_characters() {
    assert_eq!(parse_date(&chars("2025-01-01")), Some(20089));
    assert_eq!(parse_date(&chars("1970-01-01")), Some(0));
    assert_eq!(parse_date(&chars("0000-01-01")), Some(-719528));
    assert_eq!(parse_date(&chars("2025-12-31")), Some(20453));
    assert_eq!(parse_date(&chars("2025-02-31")), Some(20089 + 31 + 30));
    assert_eq!(parse_date(&chars("2025-00-10")), None);
    assert_eq!(parse_date(&chars("2025-13-10")), None);
    assert_eq!(parse_date(&chars("2025-01-00")), None);
    assert_eq!(parse_date(&chars("2025-01-32")), None);
    assert_eq!(parse_date(&chars("2025-1-01")), None);
    assert_eq!(parse_date(&chars("2025/01/01")), None);
    assert_eq!(parse_date(&chars("25-01-01")), None);
    assert_eq!(parse_date(&chars("2025-01-01 ")), None);
    assert_eq!(parse_date(&chars("2025-01-0a")), None);
    assert_eq!(parse_date(&chars("01/01/2025")), None);
    assert_eq!(parse_date(&chars("")), None);
    assert_eq!(parse_date(&chars("\u{662}025-01-01")), None);
    assert_eq!(parse_date(&chars("1907-07-09")), parse_date(&chars("1907-07-08")).map(|d| d + 1));
}

#[test]
fn batches_expiring_within_days_are_found() {
    let c = dated(&["2025-01-10", "2025-01-11", "2025-01-12", "2025-02-01", "2024-12-25"]);
    let today = day_number_of(2025, 1, 10);
    assert_eq!(expiring(&c, today, 0), vec![1, 5]);
    assert_eq!(expiring(&c, today, 1), vec![1, 2, 5]);
    assert_eq!(expiring(&c, today, 2), vec![1, 2, 3, 5]);
    assert_eq!(expiring(&c, today, 21), vec![1, 2, 3, 5]);
    assert_eq!(expiring(&c, today, 22), vec![1, 2, 3, 4, 5]);
}

#[test]
fn expired_batches_are_among_the_expiring() {
    let c = dated(&["2020-01-01", "2030-01-01"]);
    let today = day_number_of(2025, 1, 10);
    assert_eq!(expiring(&c, today, 30), vec![1]);
    assert_eq!(expiring(&c, today, -1000), vec![1]);
    assert_eq!(expiring(&c, today, -2000), Vec::<i64>::new());
    assert_eq!(expiring(&c, today, i64::MAX), vec![1, 2]);
    assert_eq!(expiring(&c, i64::MIN, i64::MIN), Vec::<i64>::new());
    assert_eq!(expiring(&c, i64::MAX, i64::MIN), Vec::<i64>::new());
    assert_eq!(expiring(&c, i64::MIN, i64::MAX), Vec::<i64>::new());
    assert_eq!(expiring(&c, -1, i64::MAX), vec![1, 2]);
}

#[test]
fn batches_without_a_date_never_expire() {
    let c = dated(&["amanha", "", "2025-01-10", "10/01/2025"]);
    assert_eq!(expiring(&c, 0, i64::MAX), vec![3]);
}

#[test]
fn expiring_batches_come_with_all_their_fields() {
    let mut c = dated(&["2025-01-10"]);
    c.set_shelf_quantity(1, 1);
    let found = c.batches_expiring_within(day_number_of(2025, 1, 1), 9);
    assert_eq!(found.len(), 1);
    assert_eq!(found[0], c.batches()[0]);
    assert!(c.batches_expiring_within(day_number_of(2025, 1, 1), 8).is_empty());
    assert!(Catalog::new().batches_expiring_within(0, 0).is_empty());
}
