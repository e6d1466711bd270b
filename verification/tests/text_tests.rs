use delivery_planner::geo::DeliveryCommand;
use delivery_planner::text::{digit, miles, number};

#[test]
fn digits() {
    let all: Vec<&str> = (0..10u8).map(digit).collect();
    assert_eq!(all, vec!["0", "1", "2", "3", "4", "5", "6", "7", "8", "9"]);
}

#[test]
fn numbers_are_written_in_decimal() {
    for n in [0u128, 1, 9, 10, 11, 99, 100, 101, 1234567890, u64::MAX as u128, u128::MAX] {
        assert_eq!(number(n), format!("{}", n));
    }
    assert_eq!(number(1004), "1004");
}

#[test]
fn miles_have_two_digits_behind_the_point() {
    assert_eq!(miles(0), "0.00");
    assert_eq!(miles(4_999), "0.00");
    assert_eq!(miles(5_000), "0.01");
    assert_eq!(miles(14_999), "0.01");
    assert_eq!(miles(100_000), "0.10");
    assert_eq!(miles(994_999), "0.99");
    assert_eq!(miles(995_000), "1.00");
    assert_eq!(miles(1_000_000), "1.00");
    assert_eq!(miles(69_093_370), "69.09");
    assert_eq!(miles(123_456_789_012), "123456.79");
    assert_eq!(miles(u128::MAX), "340282366920938463463374607431768.21");
}

#[test]
fn commands_as_the_driver_reads_them() {
    let p = DeliveryCommand::new_proceed("north".to_string(), "Elm St".to_string(), 1_234_567);
    assert_eq!(p.describe(), "Proceed north on Elm St for 1.23 miles");
    let t = DeliveryCommand::new_turn("left".to_string(), "Oak Ave".to_string());
    assert_eq!(t.describe(), "Turn left on Oak Ave");
    let d = DeliveryCommand::new_deliver("Two books".to_string());
    assert_eq!(d.describe(), "Deliver Two books");
    assert_eq!(DeliveryCommand::default().describe(), "<invalid>");
    let mut c = DeliveryCommand::new_deliver("Book".to_string());
    c.init_turn("right".to_string(), "Elm".to_string());
    assert_eq!(c.describe(), "Turn right on Elm");
}
