use dice_engine::DiceRoll;
use dice_engine::DiceRollError;
use dice_engine::DiceRollOp;
use dice_engine::parse_dice_expression;

#[test]
fn test_expression_parsing_basic() {
    let group = DiceRoll::from_expression("2d6+3").unwrap();
    assert_eq!(group.die.sides, 6);
    assert_eq!(group.die_count, 2);
    assert_eq!(group.operation, None);
    assert_eq!(group.modifier, Some(3));
    assert_eq!(group.to_notation(), "2d6+3");

    let negative = DiceRoll::from_expression("1d20-2").unwrap();
    assert_eq!(negative.die.sides, 20);
    assert_eq!(negative.die_count, 1);
    assert_eq!(negative.modifier, Some(-2));
    assert_eq!(negative.to_notation(), "1d20-2");

    let plain = parse_dice_expression("3d8").unwrap();
    assert_eq!(plain.die.sides, 8);
    assert_eq!(plain.die_count, 3);
    assert_eq!(plain.operation, None);
    assert_eq!(plain.modifier, None);
    assert_eq!(plain.to_notation(), "3d8");
}

#[test]
fn test_expression_parsing_selection() {
    let highest = DiceRoll::from_expression("4d6kh3").unwrap();
    assert_eq!(highest.die.sides, 6);
    assert_eq!(highest.die_count, 4);
    assert_eq!(highest.operation, Some(DiceRollOp::KeepHighest(3)));
    assert_eq!(highest.modifier, None);
    assert_eq!(highest.to_notation(), "4d6kh3");

    let lowest = DiceRoll::from_expression("2d20kl1+5").unwrap();
    assert_eq!(lowest.die.sides, 20);
    assert_eq!(lowest.die_count, 2);
    assert_eq!(lowest.operation, Some(DiceRollOp::KeepLowest(1)));
    assert_eq!(lowest.modifier, Some(5));
    assert_eq!(lowest.to_notation(), "2d20kl1+5");
}

#[test]
fn test_expression_parsing_trims() {
    let group = DiceRoll::from_expression("  2d6+1\t").unwrap();
    assert_eq!(group.die_count, 2);
    assert_eq!(group.die.sides, 6);
    assert_eq!(group.modifier, Some(1));
}

#[test]
fn test_expression_rejects_malformed() {
    for text in [
        "not-dice", "", "d20", "2d", "2d6kh", "2d6k3", "2d6kx3", "2d6kh3kl2", "2d6+", "2d6+3x",
        "2 d 6", "2d6 +3", "-2d6", "2d-6", "x2d6",
    ] {
        let err = DiceRoll::from_expression(text).unwrap_err();
        assert_eq!(err, format!("Failed to parse dice expression: {}", text.trim()));
    }
}

#[test]
fn test_expression_field_errors() {
    assert_eq!(
        DiceRoll::from_expression("99999999999d6").unwrap_err(),
        "Invalid die count"
    );
    assert_eq!(
        DiceRoll::from_expression("2d99999999999").unwrap_err(),
        "Invalid die sides"
    );
    assert_eq!(
        DiceRoll::from_expression("2d6kh99999999999").unwrap_err(),
        "Invalid operation value"
    );
    assert_eq!(
        DiceRoll::from_expression("2d6+99999999999").unwrap_err(),
        "Invalid modifier value"
    );
    assert_eq!(
        DiceRoll::from_expression("2d6-2147483648").unwrap_err(),
        "Invalid modifier value"
    );
    let just_fits = DiceRoll::from_expression("2d6+2147483647").unwrap();
    assert_eq!(just_fits.modifier, Some(2147483647));
}

#[test]
fn test_expression_bound_errors() {
    assert_eq!(
        DiceRoll::from_expression("2d0").unwrap_err(),
        "Die must have at least 1 side"
    );
    assert_eq!(
        DiceRoll::from_expression("0d6").unwrap_err(),
        "Must roll at least 1 die"
    );
    assert_eq!(
        DiceRoll::from_expression("4d6kh0").unwrap_err(),
        "KeepHighest must be at least 1"
    );
    assert_eq!(
        DiceRoll::from_expression("4d6kl0").unwrap_err(),
        "KeepLowest must be at least 1"
    );
}

#[test]
fn test_expression_roundtrip_samples() {
    for text in ["2d6+3", "1d20-2", "3d8", "4d6kh3", "2d20kl1+5", "6d10kh2-4"] {
        let parsed = DiceRoll::from_expression(text).unwrap();
        assert_eq!(parsed.to_notation(), text);
        let again = DiceRoll::from_expression(&parsed.to_notation()).unwrap();
        assert_eq!(again.die.sides, parsed.die.sides);
        assert_eq!(again.die_count, parsed.die_count);
        assert_eq!(again.operation, parsed.operation);
        assert_eq!(again.modifier, parsed.modifier);
    }
}

#[test]
fn test_create_validates() {
    let ok = DiceRoll::create(6, 2, Some(DiceRollOp::KeepHighest(1)), Some(-2)).unwrap();
    assert_eq!(ok.die.sides, 6);
    assert_eq!(ok.die_count, 2);
    assert_eq!(ok.operation, Some(DiceRollOp::KeepHighest(1)));
    assert_eq!(ok.modifier, Some(-2));

    assert_eq!(DiceRoll::create(0, 2, None, None).unwrap_err(), DiceRollError::InvalidDie);
    assert_eq!(DiceRoll::create(6, 0, None, None).unwrap_err(), DiceRollError::InvalidCount);
    assert_eq!(
        DiceRoll::create(6, 2, Some(DiceRollOp::KeepLowest(0)), None).unwrap_err(),
        DiceRollError::InvalidSelectionSize
    );
    // The first failed check names the error.
    assert_eq!(
        DiceRoll::create(0, 0, Some(DiceRollOp::KeepLowest(0)), None).unwrap_err(),
        DiceRollError::InvalidDie
    );
}
