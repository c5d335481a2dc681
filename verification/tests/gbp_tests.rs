use tax_calculator::gbp::Gbp;
use tax_calculator::gbp::ParseError;
use tax_calculator::gbp::Rate;

#[test]
fn new_keeps_pounds_and_pence() {
    let amount = Gbp::new(1, 99);
    assert_eq!(amount, Gbp::new(1, 99));
    assert_eq!(amount.to_display_string(), "£1.99");
}

#[test]
fn new_normalizes_pence_overflow() {
    assert_eq!(Gbp::new(0, 150), Gbp::new(1, 50));
    assert_eq!(Gbp::new(2, 255), Gbp::new(4, 55));
}

#[test]
fn from_pounds_has_zero_pence() {
    assert_eq!(Gbp::from_pounds(100), Gbp::new(100, 0));
}

#[test]
fn add_without_carry() {
    let balance = Gbp::new(735, 62);
    let deposit = Gbp::new(437, 83);
    assert_eq!(balance.add(&deposit), Gbp::new(1173, 45));
}

#[test]
fn add_carries_at_exactly_one_pound() {
    let a = Gbp::new(0, 50);
    let b = Gbp::new(0, 50);
    assert_eq!(a.add(&b), Gbp::new(1, 0));
}

#[test]
fn subtract_with_borrow() {
    let balance = Gbp::new(1000, 0);
    let cost = Gbp::new(437, 83);
    assert_eq!(balance.subtract(cost), Gbp::new(562, 17));
}

#[test]
fn subtract_assign_matches_subtract() {
    let mut balance = Gbp::new(1000, 0);
    let cost = Gbp::new(437, 83);
    balance.subtract_assign(cost);
    assert_eq!(balance, Gbp::new(562, 17));
}

#[test]
fn subtract_add_round_trip() {
    let a = Gbp::new(1000, 25);
    let b = Gbp::new(437, 83);
    assert_eq!(a.subtract(b).add(&b), a);
}

#[test]
fn multiply_exact_case() {
    let cost = Gbp::new(0, 99);
    let total = cost.multiply_by_rate(Rate::from_basis_points(50000));
    assert_eq!(total, Gbp::new(4, 95));
}

#[test]
fn multiply_rounds_ties_away_from_zero() {
    // 5 pence at one half: 2.5 pence rounds to 3 pence, away from zero.
    let amount = Gbp::new(0, 5);
    assert_eq!(amount.multiply_by_rate(Rate::from_basis_points(5000)), Gbp::new(0, 3));
}

#[test]
fn rate_from_percent_is_hundred_basis_points() {
    assert_eq!(Rate::from_percent(20).basis_points(), 2000);
}

#[test]
fn sum_adds_from_zero() {
    let amounts = vec![Gbp::new(5, 0), Gbp::new(0, 63)];
    assert_eq!(Gbp::sum(&amounts), Gbp::new(5, 63));
}

#[test]
fn sum_of_nothing_is_zero() {
    let amounts: Vec<Gbp> = vec![];
    assert_eq!(Gbp::sum(&amounts), Gbp::from_pounds(0));
}

#[test]
fn display_groups_thousands() {
    let amount = Gbp::new(1_234_567, 89);
    assert_eq!(amount.to_display_string(), "£1,234,567.89");
}

#[test]
fn display_small_amounts() {
    assert_eq!(Gbp::from_pounds(0).to_display_string(), "£0.00");
    assert_eq!(Gbp::new(100, 5).to_display_string(), "£100.05");
    assert_eq!(Gbp::from_pounds(1000).to_display_string(), "£1,000.00");
}

#[test]
fn display_is_deterministic() {
    let amount = Gbp::new(43, 21);
    assert_eq!(amount.to_display_string(), amount.to_display_string());
}

#[test]
fn parse_full_form() {
    let amount: Gbp = Gbp::parse("£1,234,567.89").unwrap();
    assert_eq!(amount, Gbp::new(1_234_567, 89));
}

#[test]
fn parse_bare_integer() {
    assert_eq!(Gbp::parse("100").unwrap(), Gbp::new(100, 0));
}

#[test]
fn parse_short_decimal_is_invalid() {
    assert!(matches!(Gbp::parse("1.5"), Err(ParseError::InvalidDecimal)));
}

#[test]
fn parse_long_decimal_is_invalid() {
    assert!(matches!(Gbp::parse("1.505"), Err(ParseError::InvalidDecimal)));
}

#[test]
fn parse_letters_is_invalid_number() {
    assert!(matches!(Gbp::parse("abc"), Err(ParseError::InvalidNumber)));
}

#[test]
fn parse_errors_have_messages() {
    assert_eq!(
        Gbp::parse("abc").unwrap_err().message(),
        "Invalid number for GBP value"
    );
    assert_eq!(
        Gbp::parse("1.5").unwrap_err().message(),
        "Invalid decimal for GBP value"
    );
}

#[test]
fn parse_empty_is_invalid_number() {
    assert!(matches!(Gbp::parse(""), Err(ParseError::InvalidNumber)));
    assert!(matches!(Gbp::parse("£"), Err(ParseError::InvalidNumber)));
}

#[test]
fn parse_non_digit_fraction_is_invalid_number() {
    assert!(matches!(Gbp::parse("1.x9"), Err(ParseError::InvalidNumber)));
}

#[test]
fn parse_overflow_is_invalid_number() {
    assert!(matches!(Gbp::parse("4294967296"), Err(ParseError::InvalidNumber)));
    assert_eq!(Gbp::parse("4294967295").unwrap(), Gbp::from_pounds(4_294_967_295));
}

#[test]
fn parse_display_round_trip() {
    for &(pounds, pence) in
        &[(0u32, 0u8), (1, 1), (99, 99), (1000, 0), (1_234_567, 89), (4_294_967_295, 99)]
    {
        let v = Gbp::new(pounds, pence);
        assert_eq!(Gbp::parse(&v.to_display_string()).unwrap(), v);
    }
}

#[test]
fn comparison_follows_value() {
    assert!(Gbp::new(1, 0) < Gbp::new(1, 1));
    assert!(Gbp::new(0, 99) < Gbp::new(1, 0));
    assert_eq!(Gbp::new(2, 50).min_of(Gbp::new(2, 49)), Gbp::new(2, 49));
}

#[test]
fn max_value_displays_fully() {
    assert_eq!(Gbp::max_value().to_display_string(), "£4,294,967,295.99");
}
