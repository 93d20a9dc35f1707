use exercises::change::dp_rec_mc;
use exercises::converter::{convert_base, str_to_int, try_convert_base};
use exercises::fibonacci::odd_fibnacci_sum;
use exercises::goldbach::{goldbach_conjecture, goldbach_exceptions, is_prime, is_prime_plus_twice_square};
use exercises::provinces::{comes_before, count_groups, count_provinces, CitySet};
use exercises::retirement::{retire_time, retirement, staff_of, try_retire_time, Staff};
use exercises::text::{chars_of, parse_u32, split, string_of};

#[test]
fn test_odd_fibnacci_sum() {
    assert_eq!(odd_fibnacci_sum(20), 23);
    assert_eq!(odd_fibnacci_sum(22), 44);
    assert_eq!(odd_fibnacci_sum(100), 188);
    assert_eq!(odd_fibnacci_sum(1000), 1785);
}

#[test]
fn test_odd_fibnacci_sum_counts_the_ones_always() {
    assert_eq!(odd_fibnacci_sum(0), 2);
    assert_eq!(odd_fibnacci_sum(1), 2);
    assert_eq!(odd_fibnacci_sum(2), 2);
    assert_eq!(odd_fibnacci_sum(3), 2);
    assert_eq!(odd_fibnacci_sum(4), 5);
}

#[test]
fn test_odd_fibnacci_sum_at_the_largest_threshold() {
    assert_eq!(odd_fibnacci_sum(2_971_215_073), 3_321_919_439);
    assert_eq!(odd_fibnacci_sum(1_836_311_903), 1_485_607_536);
}

#[test]
fn test_dp_rec_mc() {
    assert_eq!(dp_rec_mc(0), 0);
    assert_eq!(dp_rec_mc(1), 1);
    assert_eq!(dp_rec_mc(2), 1);
    assert_eq!(dp_rec_mc(3), 2);
    assert_eq!(dp_rec_mc(90), 3);
    assert_eq!(dp_rec_mc(93), 5);
    assert_eq!(dp_rec_mc(100), 1);
    assert_eq!(dp_rec_mc(101), 2);
    assert_eq!(dp_rec_mc(1000), 10);
}

#[test]
fn test_dp_rec_mc_beats_the_greedy_choice() {
    // Greedy pays 60 as 50 + 10 and 40 as 30 + 10; two coins either way,
    // but 80 is 50 + 30 and not 50 + 20 + 10.
    assert_eq!(dp_rec_mc(60), 2);
    assert_eq!(dp_rec_mc(40), 2);
    assert_eq!(dp_rec_mc(80), 2);
}

#[test]
fn test_goldbach_conjecture() {
    assert_eq!(goldbach_conjecture(), "5777,5993");
}

#[test]
fn test_goldbach_exceptions_stop_at_the_bound() {
    assert_eq!(goldbach_exceptions(2, 5777), Vec::<i32>::new());
    assert_eq!(goldbach_exceptions(2, 5778), vec![5777]);
    assert_eq!(goldbach_exceptions(1, 10_000), vec![5777]);
    assert_eq!(goldbach_exceptions(0, 10_000), Vec::<i32>::new());
    assert_eq!(goldbach_exceptions(3, 5994), vec![5777, 5993]);
}

#[test]
fn test_trial_division() {
    for n in [2, 3, 5, 7, 97, 7919, 2_147_483_647] {
        assert!(is_prime(n), "{} is prime", n);
    }
    for n in [-7, 0, 1, 4, 9, 25, 5777, 2_147_483_646] {
        assert!(!is_prime(n), "{} is not prime", n);
    }
}

#[test]
fn test_prime_plus_twice_square() {
    assert!(is_prime_plus_twice_square(9));
    assert!(is_prime_plus_twice_square(33));
    assert!(is_prime_plus_twice_square(4));
    assert!(!is_prime_plus_twice_square(3));
    assert!(!is_prime_plus_twice_square(5777));
    assert!(!is_prime_plus_twice_square(5993));
    assert!(!is_prime_plus_twice_square(i32::MIN));
}

#[test]
fn test_retire_time() {
    assert_eq!(retire_time("1971-04", "原法定退休年龄55周岁女职工"), "2026-08,55.33,4");
    assert_eq!(retire_time("1995-12", "原法定退休年龄50周岁女职工"), "2050-12,55,60");
    assert_eq!(retire_time("1995-12", "男职工"), "2058-12,63,36");
    assert_eq!(retire_time("2000-12", "原法定退休年龄55周岁女职工"), "2058-12,58,36");
    assert_eq!(retire_time("2000-12", "男职工"), "2063-12,63,36");
    assert_eq!(retire_time("1965-12", "男职工"), "2026-03,60.25,3");
    assert_eq!(retire_time("1963-12", "男职工"), "2023-12,60,0");
    assert_eq!(retire_time("1965-01", "男职工"), "2025-02,60.08,1");
}

#[test]
fn test_retire_time_counts_a_bad_number_as_zero() {
    assert_eq!(retire_time("x-y", "男职工"), "60-00,60,0");
    assert_eq!(retire_time("1970-", "男职工"), "2031-03,61.25,15");
}

#[test]
fn test_try_retire_time_has_no_answer() {
    assert_eq!(try_retire_time("1971", "男职工"), None);
    assert_eq!(try_retire_time("1971-04-01", "男职工"), None);
    assert_eq!(try_retire_time("1971-04", "女职工"), None);
    assert_eq!(try_retire_time("4294967295-04", "男职工"), None);
    assert_eq!(try_retire_time("1971-4294967295", "男职工"), None);
    assert_eq!(
        try_retire_time("1971-04", "男职工"),
        Some("2032-11,61.58,19".to_string())
    );
}

#[test]
fn test_staff_rules() {
    assert_eq!(staff_of("男职工"), Some(Staff::Male));
    assert_eq!(staff_of("原法定退休年龄55周岁女职工"), Some(Staff::Female55));
    assert_eq!(staff_of("原法定退休年龄50周岁女职工"), Some(Staff::Female50));
    assert_eq!(staff_of(""), None);
    assert_eq!(Staff::Male.rule(), (60, 63, 4));
    assert_eq!(Staff::Female55.rule(), (55, 58, 4));
    assert_eq!(Staff::Female50.rule(), (50, 55, 2));
}

#[test]
fn test_retirement_rounds_the_age_to_hundredths() {
    let expected = [0, 8, 17, 25, 33, 42, 50, 58, 67, 75, 83, 92];
    for delay in 1u32..=11 {
        // A man born in 1965 would have retired in 2025: he retires one
        // month later for every four months after its beginning.
        let r = retirement(1965, 4 * delay, Staff::Male).unwrap();
        assert_eq!(r.delay_months, delay);
        assert_eq!(r.age_years, 60);
        assert_eq!(r.age_hundredths, expected[delay as usize]);
        let age = format!("{:.2}", 60.0f32 + delay as f32 / 12.0);
        assert_eq!(age, format!("60.{:02}", r.age_hundredths));
    }
}

#[test]
fn test_convert_base() {
    assert_eq!(convert_base("10(2)", 10), "2");
    assert_eq!(convert_base("9(10)", 8), "11");
    assert_eq!(convert_base("1111(2)", 15), "10");
    assert_eq!(convert_base("10(7)", 9), "7");
    assert_eq!(convert_base("12(10)", 16), "c");
    assert_eq!(convert_base("ff(16)", 2), "11111111");
    assert_eq!(convert_base("zz(16)", 36), "yy");
}

#[test]
fn test_convert_base_gives_nothing() {
    assert_eq!(convert_base("0(10)", 2), "");
    assert_eq!(convert_base("10", 2), "");
    assert_eq!(convert_base("1(0(2)", 2), "");
    assert_eq!(convert_base("10(1)", 2), "");
    assert_eq!(convert_base("10(17)", 2), "");
    assert_eq!(convert_base("", 2), "");
}

#[test]
fn test_convert_base_trims_every_closing_bracket() {
    assert_eq!(convert_base("10(2)))", 10), "2");
    assert_eq!(convert_base("10(2", 10), "2");
}

#[test]
fn test_convert_base_of_a_negative_number() {
    // A character below `0` counts as a negative digit; the remainders are
    // negative then, and so are the digits that they give.
    assert_eq!(str_to_int("/", 10), -1);
    assert_eq!(convert_base("/(10)", 10), "/");
    assert_eq!(str_to_int("a", 10), 49);
    assert_eq!(str_to_int("a", 11), 10);
}

#[test]
fn test_try_convert_base_has_no_answer() {
    assert_eq!(try_convert_base("10(x)", 2), None);
    assert_eq!(try_convert_base("10()", 2), None);
    assert_eq!(try_convert_base("11111111(16)", 2), None);
    assert_eq!(try_convert_base("1111111(16)", 2).map(|s| s.len()), Some(25));
    assert_eq!(try_convert_base("10(2)", 1), None);
    assert_eq!(try_convert_base("10(2)", 0), None);
    assert_eq!(try_convert_base("10(2)", u32::MAX), None);
    assert_eq!(try_convert_base("10(2)", 2_147_483_560), Some("2".to_string()));
}

#[test]
fn test_text_round_trip() {
    let chars = chars_of("a-b–c");
    assert_eq!(chars, vec!['a', '-', 'b', '–', 'c']);
    assert_eq!(string_of(&chars), "a-b–c");
    assert_eq!(split(&chars, '-'), vec![vec!['a'], vec!['b', '–', 'c']]);
    assert_eq!(split(&Vec::new(), '-'), vec![Vec::<char>::new()]);
    assert_eq!(split(&chars_of("--"), '-').len(), 3);
}

#[test]
fn test_parse_u32() {
    assert_eq!(parse_u32(&chars_of("0")), Some(0));
    assert_eq!(parse_u32(&chars_of("007")), Some(7));
    assert_eq!(parse_u32(&chars_of("+42")), Some(42));
    assert_eq!(parse_u32(&chars_of("4294967295")), Some(u32::MAX));
    assert_eq!(parse_u32(&chars_of("4294967296")), None);
    assert_eq!(parse_u32(&chars_of("99999999999999999999999")), None);
    assert_eq!(parse_u32(&chars_of("")), None);
    assert_eq!(parse_u32(&chars_of("+")), None);
    assert_eq!(parse_u32(&chars_of("-1")), None);
    assert_eq!(parse_u32(&chars_of("1 ")), None);
    assert_eq!(parse_u32(&chars_of("١")), None);
    for text in ["0", "007", "+42", "4294967296", "", "+", "-1", "++1", "1_0"] {
        assert_eq!(parse_u32(&chars_of(text)), text.parse::<u32>().ok());
    }
}

fn entry(city: &str, related: &[&str]) -> (String, Vec<String>) {
    (city.to_string(), related.iter().map(|s| s.to_string()).collect())
}

#[test]
fn test_count_groups() {
    assert_eq!(count_groups(&vec![]), Some(0));
    assert_eq!(count_groups(&vec![entry("a", &[])]), Some(1));
    assert_eq!(count_groups(&vec![entry("a", &["b"]), entry("c", &["d"])]), Some(2));
    assert_eq!(count_groups(&vec![entry("a", &["b"]), entry("b", &["c"])]), Some(1));
}

#[test]
fn test_count_groups_takes_one_off_for_groups_that_meet_later() {
    // The third entry joins the first group, which then shares `c` with the
    // second: two groups, one pair that meets.
    let entries = vec![entry("a", &["b"]), entry("c", &["d"]), entry("b", &["c"])];
    assert_eq!(count_groups(&entries), Some(1));
}

#[test]
fn test_count_groups_can_fall_below_zero() {
    // Four groups, then for every pair of them a city that goes to the later
    // group first and to the earlier one after it: six pairs that meet.
    let anchors = ["a", "b", "c", "d"];
    let mut entries: Vec<(String, Vec<String>)> = anchors.iter().map(|a| entry(a, &[])).collect();
    for i in 0..4 {
        for j in i + 1..4 {
            let shared = format!("{}{}", anchors[i], anchors[j]);
            entries.push(entry(anchors[j], &[&shared]));
            entries.push(entry(anchors[i], &[&shared]));
        }
    }
    assert_eq!(count_groups(&entries[..4].to_vec()), Some(4));
    assert_eq!(count_groups(&entries[..12].to_vec()), Some(0));
    assert_eq!(count_groups(&entries), None);
    let districts = vec![("one".to_string(), vec![entry("a", &[])]), ("two".to_string(), entries)];
    assert_eq!(count_provinces(&districts), None);
}

#[test]
fn test_count_provinces() {
    let districts = vec![
        ("3".to_string(), vec![entry("a", &["b"]), entry("c", &[])]),
        ("1".to_string(), vec![]),
        ("2".to_string(), vec![entry("x", &["y", "z"]), entry("z", &["w"])]),
    ];
    assert_eq!(count_provinces(&districts), Some("0,1,2".to_string()));
    assert_eq!(count_provinces(&vec![]), Some(String::new()));
}

#[test]
fn test_count_provinces_orders_the_districts_by_name() {
    let one = |n: usize| (0..n).map(|i| entry(&i.to_string(), &[])).collect::<Vec<_>>();
    let names = ["b", "ab", "", "a", "ä", "B", "aa", "b"];
    let districts: Vec<_> =
        names.iter().enumerate().map(|(i, name)| (name.to_string(), one(i))).collect();
    let mut sorted: Vec<(&str, usize)> = names.iter().map(|n| *n).zip(0..).collect();
    sorted.sort();
    let expected: Vec<String> = sorted.iter().map(|(_, i)| i.to_string()).collect();
    assert_eq!(count_provinces(&districts), Some(expected.join(",")));
    assert_eq!(count_provinces(&districts), Some("2,5,3,6,1,0,7,4".to_string()));
}

#[test]
fn test_comes_before() {
    assert!(comes_before(&"".to_string(), &"a".to_string()));
    assert!(!comes_before(&"a".to_string(), &"".to_string()));
    assert!(!comes_before(&"a".to_string(), &"a".to_string()));
    assert!(comes_before(&"a".to_string(), &"ab".to_string()));
    assert!(comes_before(&"ab".to_string(), &"b".to_string()));
    assert!(comes_before(&"z".to_string(), &"ä".to_string()));
    for (a, b) in [("x", "y"), ("yx", "y"), ("é", "z"), ("10", "9")] {
        assert_eq!(comes_before(&a.to_string(), &b.to_string()), a < b);
    }
}

#[test]
fn test_city_set() {
    let mut a = CitySet::new();
    a.insert("x".to_string());
    a.insert("y".to_string());
    a.insert("x".to_string());
    let mut b = CitySet::new();
    b.insert("z".to_string());
    assert!(a.contains(&"x".to_string()));
    assert!(!a.contains(&"z".to_string()));
    assert!(!a.intersects(&b));
    b.extend(&a);
    assert!(a.intersects(&b));
    assert!(b.contains(&"y".to_string()));
}

#[test]
fn test_retirement_age_text_agrees_with_floating_point() {
    let kinds = [
        (Staff::Male, "男职工", 1965u32),
        (Staff::Female55, "原法定退休年龄55周岁女职工", 1970),
        (Staff::Female50, "原法定退休年龄50周岁女职工", 1975),
    ];
    for (staff, label, year) in kinds {
        let (former_age, max_age, step) = staff.rule();
        let limit = (max_age - former_age) * 12;
        for delay in 0..=limit {
            let time = format!("{}-{}", year, delay * step);
            let line = retire_time(&time, label);
            let fields: Vec<&str> = line.split(',').collect();
            assert_eq!(fields.len(), 3);
            let age = former_age as f32 + delay as f32 / 12.0;
            let expected = if age.fract() > 0.0 {
                format!("{:.2}", age)
            } else {
                format!("{:.0}", age)
            };
            assert_eq!(fields[1], expected, "age after {} months for {}", delay, label);
            assert_eq!(fields[2], delay.to_string());
        }
    }
}
