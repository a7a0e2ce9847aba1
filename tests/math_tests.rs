use lidar_nav::arith::{isqrt, scale_to_length};
use lidar_nav::frames::{bevy_to_mid360, frd_to_bevy, mid360_to_bevy, mid360_to_frd};
use lidar_nav::geometry::{get_index, Point3};
use lidar_nav::input::{parse_char, parse_u32, DefaultHandling, FromInput, InputHandling};

#[test]
fn frames_round_trip() {
    let p = (1234, -567, 89);
    let b = mid360_to_bevy(p.0, p.1, p.2);
    assert_eq!(b, (567, 89, -1234));
    assert_eq!(bevy_to_mid360(b.0, b.1, b.2), p);
    let f = mid360_to_frd(p.0, p.1, p.2);
    assert_eq!(f, (1234, 567, -89));
    assert_eq!(mid360_to_frd(f.0, f.1, f.2), p);
    assert_eq!(frd_to_bevy(f.0, f.1, f.2), b);
}

#[test]
fn integer_square_root() {
    assert_eq!(isqrt(0), 0);
    assert_eq!(isqrt(1), 1);
    assert_eq!(isqrt(15), 3);
    assert_eq!(isqrt(16), 4);
    assert_eq!(isqrt(u128::MAX), u64::MAX);
    assert_eq!(isqrt(1u128 << 100), 1u64 << 50);
}

#[test]
fn scaling_to_length() {
    assert_eq!(scale_to_length(3, 4, 0, 1000), Some(Point3::new(600, 800, 0)));
    assert_eq!(scale_to_length(-7, 0, 0, 100), Some(Point3::new(-100, 0, 0)));
    assert_eq!(scale_to_length(0, 0, 0, 100), None);
    let big = 1i128 << 100;
    assert_eq!(scale_to_length(big, 0, -big, 1000), Some(Point3::new(707, 0, -707)));
}

#[test]
fn octant_index_follows_bit_rule() {
    let c = Point3::new(0, 0, 0);
    assert_eq!(get_index(&c, &Point3::new(1, -1, -1)), 1);
    assert_eq!(get_index(&c, &Point3::new(0, 1, 0)), 2);
    assert_eq!(get_index(&c, &Point3::new(0, 0, 1)), 4);
    assert_eq!(get_index(&c, &Point3::new(5, 5, 5)), 7);
}

#[test]
fn reading_input_values() {
    assert_eq!(parse_u32("42"), Ok(42));
    assert_eq!(parse_u32("+7"), Ok(7));
    assert_eq!(parse_u32("4294967295"), Ok(u32::MAX));
    assert!(parse_u32("4294967296").is_err());
    assert!(parse_u32("").is_err());
    assert!(parse_u32("+").is_err());
    assert!(parse_u32("1a").is_err());
    assert!(parse_u32("-1").is_err());
    assert_eq!(parse_char("xyz"), Ok('x'));
    assert!(parse_char("").is_err());
    assert_eq!(<u32 as FromInput>::from_input("12"), Ok(12));
    assert_eq!(<String as FromInput>::from_input("abc"), Ok("abc".to_string()));
    assert_eq!(<char as FromInput>::from_input("q"), Ok('q'));
    assert!(<u32 as DefaultHandling>::handle_default() == InputHandling::Accept);
    assert!(<String as DefaultHandling>::handle_default() == InputHandling::Ignore);
}

#[test]
fn vector_length_and_direction() {
    let v = Point3::new(300, -400, 1200);
    assert_eq!(v.norm(), 1300);
    assert_eq!(v.normalize(13), Some(Point3::new(3, -4, 12)));
    assert_eq!(Point3::new(0, 0, 0).normalize(5), None);
    assert_eq!(v.sub(&Point3::new(1, 1, 1)), Point3::new(299, -401, 1199));
    assert_eq!(Point3::new(2, 3, 6).norm_sq(), 49);
}
