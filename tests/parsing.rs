use knapsack::{KnapsackInput, KnapsackInputError, KnapsackItem};

fn parse(text: &str) -> Result<KnapsackInput, KnapsackInputError> {
    KnapsackInput::parse_input(text.as_bytes())
}

fn err(text: &str) -> KnapsackInputError {
    match parse(text) {
        Err(e) => e,
        Ok(_) => panic!("accepted {:?}", text),
    }
}

#[test]
fn parse_known_input() {
    let input = parse("3\n50\n60 10\n100 20\n120 30\n").unwrap();
    assert_eq!(
        input.items(),
        &vec![KnapsackItem::new(10, 60), KnapsackItem::new(20, 100), KnapsackItem::new(30, 120)]
    );
    assert_eq!(input.capacity(), 50);
    assert_eq!(input.granularity(), 1);
}

#[test]
fn parse_skips_blank_lines_and_trims() {
    let input = parse("\n  2  \r\n\n 9\t\n   \n4   5\r\n 6\t7 \nextra line\n").unwrap();
    assert_eq!(input.items(), &vec![KnapsackItem::new(5, 4), KnapsackItem::new(7, 6)]);
    assert_eq!(input.capacity(), 9);
}

#[test]
fn parse_zero_items() {
    let input = parse("0\n5\n").unwrap();
    assert!(input.items().is_empty());
    assert_eq!(input.capacity(), 5);
}

#[test]
fn parse_missing_item_count() {
    assert_eq!(err(""), KnapsackInputError::MissingItemCount);
    assert_eq!(err("  \n\n"), KnapsackInputError::MissingItemCount);
}

#[test]
fn parse_invalid_item_count() {
    assert_eq!(err("x\n5\n"), KnapsackInputError::InvalidItemCount);
    assert_eq!(err("-1\n5\n"), KnapsackInputError::InvalidItemCount);
    assert_eq!(err("1 2\n5\n"), KnapsackInputError::InvalidItemCount);
}

#[test]
fn parse_missing_capacity() {
    assert_eq!(err("2\n"), KnapsackInputError::MissingCapacity);
}

#[test]
fn parse_invalid_capacity() {
    assert_eq!(err("1\nabc\n1 1\n"), KnapsackInputError::InvalidCapacity);
    assert_eq!(err("1\n18446744073709551616\n1 1\n"), KnapsackInputError::InvalidCapacity);
    assert_eq!(err("1\n0\n1 1\n"), KnapsackInputError::InvalidCapacity);
}

#[test]
fn parse_largest_capacity() {
    let input = parse("0\n18446744073709551615\n").unwrap();
    assert_eq!(input.capacity(), u64::MAX);
}

#[test]
fn parse_invalid_item_specification() {
    assert_eq!(err("1\n5\n1 2 3\n"), KnapsackInputError::InvalidItemSpecification);
    assert_eq!(err("1\n5\n7\n"), KnapsackInputError::InvalidItemSpecification);
}

#[test]
fn parse_invalid_item_value() {
    assert_eq!(err("1\n5\nx 2\n"), KnapsackInputError::InvalidItemValue);
}

#[test]
fn parse_invalid_item_weight() {
    assert_eq!(err("1\n5\n1 y\n"), KnapsackInputError::InvalidItemWeight);
}

#[test]
fn parse_insufficient_items() {
    assert_eq!(err("2\n5\n1 2\n"), KnapsackInputError::InsufficientItems);
}

#[test]
fn parse_item_errors_come_before_zero_capacity() {
    assert_eq!(err("1\n0\n1 y\n"), KnapsackInputError::InvalidItemWeight);
}
