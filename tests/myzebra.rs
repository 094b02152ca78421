use rust8queens::myzebra::{distance, is_immediately_to_the_right, is_next_to};

#[test]
pub fn test_distance() {
    assert_eq!(2, distance("1", "3"));
}

#[test]
fn distance_signed_values() {
    assert_eq!(-4, distance("+3", "-1"));
    assert_eq!(0, distance("5", "5"));
}

#[test]
fn neighbour_relations() {
    assert!(is_immediately_to_the_right("2", "3"));
    assert!(!is_immediately_to_the_right("3", "2"));
    assert!(is_next_to("3", "2"));
    assert!(is_next_to("4", "5"));
    assert!(!is_next_to("1", "3"));
    assert!(!is_next_to("1", "x"));
    assert!(!is_immediately_to_the_right("", "1"));
}
