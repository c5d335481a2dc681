use tax_calculator::gbp::Gbp;
use tax_calculator::gbp::Rate;
use tax_calculator::tax::Band;
use tax_calculator::tax::Schedule;

fn schedule_2017() -> Schedule {
    Schedule::new(
        11500,
        ("Higher rate", Rate::from_basis_points(4000)),
        vec![("Basic rate", 31500, Rate::from_basis_points(2000))],
    )
}

fn schedule_2018() -> Schedule {
    Schedule::new(
        11850,
        ("Top rate", Rate::from_basis_points(4600)),
        vec![
            ("Starter rate", 2000, Rate::from_basis_points(1900)),
            ("Basic rate", 12150, Rate::from_basis_points(2000)),
            ("Intermediate rate", 31580, Rate::from_basis_points(2100)),
            ("Higher rate", 150000, Rate::from_basis_points(4000)),
        ],
    )
}

#[test]
fn band_applies_up_to_its_width() {
    let basic_rate = Band::new(
        "Basic rate".to_string(),
        Gbp::from_pounds(11500),
        Rate::from_basis_points(2000),
    );
    assert_eq!(
        basic_rate.apply(Gbp::from_pounds(10000)),
        (Gbp::from_pounds(10000), Gbp::from_pounds(2000))
    );
    assert_eq!(
        basic_rate.apply(Gbp::from_pounds(15000)),
        (Gbp::from_pounds(11500), Gbp::from_pounds(2300))
    );
}

#[test]
fn band_getters() {
    let band = Band::new(
        "Basic rate".to_string(),
        Gbp::from_pounds(11500),
        Rate::from_basis_points(2000),
    );
    assert_eq!(band.name(), "Basic rate");
    assert_eq!(band.affected_income(), Gbp::from_pounds(11500));
    assert_eq!(band.rate().basis_points(), 2000);
}

#[test]
fn schedule_keeps_allowance() {
    assert_eq!(schedule_2017().tax_free_allowance(), Gbp::from_pounds(11500));
}

#[test]
fn schedule_band_widths_follow_thresholds() {
    // Widths: first band is its threshold; each later band spans from the
    // previous threshold, less one pound; the final band absorbs the rest.
    let schedule = schedule_2018();
    let breakdown = schedule.apply(Gbp::from_pounds(11850));
    let widths: Vec<Gbp> = breakdown.iter().map(|(b, _, _)| b.affected_income()).collect();
    assert_eq!(
        widths,
        vec![
            Gbp::from_pounds(2000),
            Gbp::from_pounds(10149),
            Gbp::from_pounds(19429),
            Gbp::from_pounds(118419),
            Gbp::max_value(),
        ]
    );
    // Non-final widths sum to the last threshold minus the number of
    // later bands: 150000 - 3.
    assert_eq!(
        Gbp::sum(&widths[..widths.len() - 1].to_vec()),
        Gbp::from_pounds(150000 - 3)
    );
}

#[test]
fn two_band_schedule_splits_income() {
    let tax_year_2017 = schedule_2017();
    let income = Gbp::from_pounds(83000);
    let tax: Vec<(&str, Gbp, Gbp)> = tax_year_2017
        .apply(income)
        .iter()
        .map(|(b, a, t)| (b.name(), *a, *t))
        .collect();
    assert_eq!(
        tax,
        vec![
            ("Basic rate", Gbp::from_pounds(31500), Gbp::from_pounds(6300)),
            ("Higher rate", Gbp::from_pounds(40000), Gbp::from_pounds(16000)),
        ]
    );
}

#[test]
fn worked_example_2018() {
    let tax_year_2018 = schedule_2018();
    let income = Gbp::from_pounds(43500);
    let tax = tax_year_2018.apply(income);

    let rows: Vec<(&str, Gbp, Gbp)> = tax.iter().map(|(b, a, t)| (b.name(), *a, *t)).collect();
    assert_eq!(
        rows,
        vec![
            ("Starter rate", Gbp::new(2000, 0), Gbp::new(380, 0)),
            ("Basic rate", Gbp::new(10149, 0), Gbp::new(2029, 80)),
            ("Intermediate rate", Gbp::new(19429, 0), Gbp::new(4080, 9)),
            ("Higher rate", Gbp::new(72, 0), Gbp::new(28, 80)),
            ("Top rate", Gbp::new(0, 0), Gbp::new(0, 0)),
        ]
    );

    let taxes: Vec<Gbp> = tax.iter().map(|(_, _, t)| *t).collect();
    assert_eq!(Gbp::sum(&taxes), Gbp::new(6518, 69));
}

#[test]
fn income_at_allowance_owes_nothing() {
    let tax_year_2018 = schedule_2018();
    let breakdown = tax_year_2018.apply(Gbp::from_pounds(11850));
    assert_eq!(breakdown.len(), 5);
    for (_, affected, tax) in breakdown {
        assert_eq!(affected, Gbp::from_pounds(0));
        assert_eq!(tax, Gbp::from_pounds(0));
    }
}

#[test]
fn every_pound_above_thresholds_reaches_top_rate() {
    let tax_year_2017 = schedule_2017();
    let income = Gbp::from_pounds(1_000_000);
    let breakdown = tax_year_2017.apply(income);
    let affected: Vec<Gbp> = breakdown.iter().map(|(_, a, _)| *a).collect();
    // All taxable income is consumed: the affected amounts sum to the
    // taxable income exactly.
    assert_eq!(
        Gbp::sum(&affected),
        income.subtract(tax_year_2017.tax_free_allowance())
    );
}
