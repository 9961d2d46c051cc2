use core::ops::Neg;

use geometrid::flip_axes::FlipAxes;
use geometrid::quarter_turns::QuarterTurns;
use geometrid::vector::Vector;

type V = Vector;

#[test]
pub fn test_display() {
    assert_eq!("Zero", Vector::new(0, 0).to_string());
    assert_eq!("North", Vector::new(0, -1).to_string());
    assert_eq!("Vector { x: 0, y: -2 }", Vector::new(0, -2).to_string());
}

#[test]
pub fn vector_test_flip() {
    assert_eq!(V::north_east().flip(FlipAxes::Vertical), V::south_east());
    assert_eq!(V::north_east().flip(FlipAxes::Horizontal), V::north_west());
    assert_eq!(V::north_east().flip(FlipAxes::Both), V::south_west());
    assert_eq!(V::north_east().flip(FlipAxes::NoFlip), V::north_east());
}

#[test]
pub fn vector_test_rotate() {
    assert_eq!(V::north().rotate(QuarterTurns::One), V::east());
    assert_eq!(V::north().rotate(QuarterTurns::Two), V::south());
    assert_eq!(V::north().rotate(QuarterTurns::Three), V::west());
    assert_eq!(V::north().rotate(QuarterTurns::Zero), V::north());

    assert_eq!(V::north_west().rotate(QuarterTurns::One), V::north_east());
    assert_eq!(V::north_west().rotate(QuarterTurns::Two), V::south_east());
    assert_eq!(V::north_west().rotate(QuarterTurns::Three), V::south_west());
    assert_eq!(V::north_west().rotate(QuarterTurns::Zero), V::north_west());
}

#[test]
pub fn test_conditions() {
    assert_eq!(V::zero().is_zero(), true);
    assert_eq!(V::north().is_zero(), false);

    assert_eq!(V::zero().is_unit(), false);
    assert_eq!(V::north().is_unit(), true);
    assert_eq!((V::north().const_mul(2)).is_unit(), false);

    assert_eq!(V::zero().is_diagonal(), false);
    assert_eq!(V::north().is_diagonal(), false);
    assert_eq!(V::north_east().is_diagonal(), true);
}

#[test]
pub fn test_functions() {
    assert_eq!(V::north().neg(), V::south());
    assert_eq!((&V::north()).neg(), V::south());
    assert_eq!(V::north() + V::east(), V::north_east());
    assert_eq!(&V::north() + &V::east(), V::north_east());
    assert_eq!(V::north() - V::east(), V::north_west());
    assert_eq!(&V::north() - &V::east(), V::north_west());
    assert_eq!(V::north() * -1i8, V::south());
    assert_eq!(V::north() * -1isize, V::south());
    assert_eq!(V::north() * 2usize, V::new(0, -2));
}

#[test]
fn quarter_turns_test_add() {
    let arr = [
        (0, QuarterTurns::Zero),
        (1, QuarterTurns::One),
        (2, QuarterTurns::Two),
        (3, QuarterTurns::Three),
    ];
    for (i, qi) in arr.iter().cloned() {
        for (j, qj) in arr.iter().cloned() {
            let sum = i + j;
            let q_sum = qi + qj;

            let expected = match q_sum {
                QuarterTurns::Zero => 0,
                QuarterTurns::One => 1,
                QuarterTurns::Two => 2,
                QuarterTurns::Three => 3,
            };

            assert_eq!(sum % 4, expected);
        }
    }
}

#[test]
fn unit_names_match_text() {
    let names = Vector::unit_names();
    let units = Vector::units();
    for i in 0..8 {
        assert_eq!(units[i].to_string(), names[i]);
    }
    assert_eq!(names[1], "North East");
}
