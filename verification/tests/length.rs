use ferrocad::{Length, ToLength};

#[test]
fn units_convert_to_micrometers() {
    assert_eq!(1.mm(), 1_000.um());
    assert_eq!(1.cm(), 10.mm());
    assert_eq!(1.m(), 1_000.mm());
    assert_eq!(1.m(), 100.cm());
}

#[test]
fn integer_suffix_constructs_length() {
    assert_eq!(100.um(), Length::um(100));
    assert_eq!(5.mm(), Length::mm(5));
    assert_eq!(2.cm(), Length::cm(2));
    assert_eq!(1.m(), Length::m(1));
}

#[test]
fn arithmetic_stays_in_micrometers() {
    assert_eq!(10.mm() + 2.cm(), 30.mm());
    assert_eq!(1.m() - 1.cm(), 990.mm());
    assert_eq!(10.mm() * 3, 30.mm());
    assert_eq!(2 * 10.mm(), 20.mm());
    assert_eq!(10.mm() / 2, 5.mm());
    assert_eq!(5.mm() / 2, 2_500.um());
    assert_eq!(-4.mm(), Length::mm(-4));
}

#[test]
fn micrometers_round_trip_through_as_um() {
    assert_eq!(Length::mm(7).as_um(), 7_000);
    assert_eq!(Length::cm(-3).as_um(), -30_000);
    assert_eq!(Length::m(2).as_um(), 2_000_000);
    assert_eq!(Length::um(-17).as_um(), -17);
}

#[test]
fn zero_and_default_are_zero_micrometers() {
    assert_eq!(Length::zero().as_um(), 0);
    assert_eq!(Length::default(), Length::zero());
}

#[test]
fn division_rounds_toward_zero() {
    assert_eq!(Length::um(7) / 2, Length::um(3));
    assert_eq!(Length::um(-7) / 2, Length::um(-3));
    assert_eq!(Length::um(7) / -2, Length::um(-3));
    assert_eq!(Length::um(-7) / -2, Length::um(3));
}

#[test]
fn halved_rounds_toward_zero() {
    assert_eq!(Length::um(5).halved(), Length::um(2));
    assert_eq!(Length::um(-5).halved(), Length::um(-2));
    assert_eq!(Length::mm(5).halved(), Length::um(2_500));
}

#[test]
fn compound_assignment_adds_and_subtracts() {
    let mut length = 1.cm();
    length += 5.mm();
    assert_eq!(length, 15.mm());
    length -= 20.mm();
    assert_eq!(length, Length::mm(-5));
}

#[test]
fn adding_then_subtracting_gives_the_length_back() {
    let a = Length::um(123_456);
    let b = Length::um(-98_765);
    assert_eq!((a + b) - b, a);
    assert_eq!(-(-a), a);
}

#[test]
fn lengths_order_by_micrometers() {
    assert!(1.mm() < 1.cm());
    assert!(Length::um(-1) < Length::zero());
    assert!(1.m() > 999.mm());
}

#[test]
fn whole_millimeters_print_in_millimeters() {
    assert_eq!(5.mm().to_string(), "5 mm");
    assert_eq!(Length::zero().to_string(), "0 mm");
    assert_eq!(Length::mm(-12).to_string(), "-12 mm");
    assert_eq!(2.m().to_string(), "2000 mm");
}

#[test]
fn other_lengths_print_in_micrometers() {
    assert_eq!(2_500.um().to_string(), "2500 \u{b5}m");
    assert_eq!(Length::um(-7).to_string(), "-7 \u{b5}m");
}
