use finiterain::config::parse_i64_as_u32;
use finiterain::rational::{min_of, Rat};
use finiterain::report::format_levels;

#[test]
fn parse_accepts_u32() {
    assert_eq!(parse_i64_as_u32("0").unwrap(), 0);
    assert_eq!(parse_i64_as_u32("42").unwrap(), 42);
    assert_eq!(parse_i64_as_u32("+7").unwrap(), 7);
    assert_eq!(parse_i64_as_u32("007").unwrap(), 7);
    assert_eq!(parse_i64_as_u32("4294967295").unwrap(), 4294967295);
}

#[test]
fn parse_refuses_others() {
    assert!(parse_i64_as_u32("").is_err());
    assert!(parse_i64_as_u32("+").is_err());
    assert!(parse_i64_as_u32("-1").is_err());
    assert!(parse_i64_as_u32(" 1").is_err());
    assert!(parse_i64_as_u32("1.5").is_err());
    assert!(parse_i64_as_u32("4294967296").is_err());
}

#[test]
fn rationals_are_reduced() {
    let a = Rat::new(1, 2);
    let b = Rat::new(1, 3);
    assert_eq!(Rat::new(2, 4), Rat { num: 1, den: 2 });
    assert_eq!(Rat::new(-6, 4), Rat { num: -3, den: 2 });
    assert_eq!(Rat::new(0, 7), Rat { num: 0, den: 1 });
    assert_eq!(Rat::from_integer(-5), Rat { num: -5, den: 1 });
    assert_eq!(min_of(a, b), b);
    assert_eq!(min_of(a, Rat::new(2, 4)), a);
    assert_eq!(min_of(Rat::new(-1, 2), b), Rat::new(-1, 2));
}

#[test]
fn levels_are_formatted() {
    let levels = vec![Rat::new(17, 3), Rat::from_integer(5), Rat::new(-1, 2)];
    assert_eq!(format_levels(&levels), "17/3, 5, -1/2");
    assert_eq!(format_levels(&vec![]), "");
    assert_eq!(format_levels(&vec![Rat::from_integer(11)]), "11");
}
