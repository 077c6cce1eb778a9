use clef::gcd;
use clef::is_power_of_2;

#[test]
fn test_gcd() {
    assert_eq!(gcd(11, 21), 1);
    assert_eq!(gcd(14, 35), 7);
    assert_eq!(gcd(35, 14), 7);
    assert_eq!(gcd(14, -35), 7);
    assert_eq!(gcd(-35, 14), 7);
    assert_eq!(gcd(-35, -14), 7);
    assert_eq!(gcd(0, 0), 0);
    assert_eq!(gcd(0, 14), 14);
    assert_eq!(gcd(14, 0), 14);
    assert_eq!(gcd(-14, 0), 14);
    assert_eq!(gcd(0, -14), 14);
}

#[test]
fn test_is_power_of_2() {
    assert!(is_power_of_2(1));
    assert!(is_power_of_2(128));
    assert!(!is_power_of_2(0));
    assert!(!is_power_of_2(1023));
}
