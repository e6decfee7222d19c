use dice_engine::notation::DiceRoll;
use dice_engine::notation::d10;
use dice_engine::notation::d100;
use dice_engine::notation::d12;
use dice_engine::notation::d20;
use dice_engine::notation::d4;
use dice_engine::notation::d6;
use dice_engine::notation::d8;
use dice_engine::notation::invalid_notation_message;

#[test]
fn test_dice_creation() {
    let dice = DiceRoll::new(2, 6, 3);
    assert_eq!(dice.count, 2);
    assert_eq!(dice.sides, 6);
    assert_eq!(dice.modifier, 3);
}

#[test]
fn test_dice_display() {
    let dice1 = DiceRoll::new(2, 6, 3);
    assert_eq!(dice1.to_notation(), "2d6+3");

    let dice2 = DiceRoll::new(1, 20, -2);
    assert_eq!(dice2.to_notation(), "1d20-2");

    let dice3 = DiceRoll::new(3, 8, 0);
    assert_eq!(dice3.to_notation(), "3d8");
}

#[test]
fn test_dice_notation_parsing() {
    // Test basic notation
    let dice1 = DiceRoll::from_notation("2d6+3").unwrap();
    assert_eq!(dice1.count, 2);
    assert_eq!(dice1.sides, 6);
    assert_eq!(dice1.modifier, 3);

    // Test with spaces
    let dice2 = DiceRoll::from_notation("2 d 6 + 3").unwrap();
    assert_eq!(dice2.count, 2);
    assert_eq!(dice2.sides, 6);
    assert_eq!(dice2.modifier, 3);

    // Test negative modifier
    let dice3 = DiceRoll::from_notation("1d20-2").unwrap();
    assert_eq!(dice3.count, 1);
    assert_eq!(dice3.sides, 20);
    assert_eq!(dice3.modifier, -2);

    // Test no modifier
    let dice4 = DiceRoll::from_notation("3d8").unwrap();
    assert_eq!(dice4.count, 3);
    assert_eq!(dice4.sides, 8);
    assert_eq!(dice4.modifier, 0);

    // Test implicit count (d20 is equivalent to 1d20)
    let dice5 = DiceRoll::from_notation("d20").unwrap();
    assert_eq!(dice5.count, 1);
    assert_eq!(dice5.sides, 20);
    assert_eq!(dice5.modifier, 0);
}

#[test]
fn test_notation_rejects_malformed() {
    assert!(DiceRoll::from_notation("not-dice").is_none());
    assert!(DiceRoll::from_notation("").is_none());
    assert!(DiceRoll::from_notation("20").is_none());
    assert!(DiceRoll::from_notation("2x6").is_none());
    assert!(DiceRoll::from_notation("2d6d8").is_none());
    assert!(DiceRoll::from_notation("2d6+3+4").is_none());
    assert!(DiceRoll::from_notation("2d6+").is_none());
    assert!(DiceRoll::from_notation("2d+3").is_none());
    assert!(DiceRoll::from_notation("d").is_none());
    assert!(DiceRoll::from_notation("2d6-3-4").is_none());
    assert!(DiceRoll::from_notation("+2d6").is_none());
}

#[test]
fn test_notation_rejects_zero_fields() {
    // A die with no sides, or an explicit count of zero, never yields a
    // roll; only the omitted count defaults to 1.
    assert!(DiceRoll::from_notation("0d6").is_none());
    assert!(DiceRoll::from_notation("1d0").is_none());
    assert!(DiceRoll::from_notation("0d0").is_none());
    assert!(DiceRoll::from_notation("d0").is_none());
    assert!(DiceRoll::from_notation("0d6+3").is_none());
    assert!(DiceRoll::from_notation("2d0-1").is_none());
    assert!(DiceRoll::from_notation("00d6").is_none());
    let one = DiceRoll::from_notation("01d6").unwrap();
    assert_eq!(one.count, 1);
}

#[test]
fn test_notation_parsing_edges() {
    // A magnitude just inside and just outside the 32-bit range.
    let big = DiceRoll::from_notation("1d6+2147483647").unwrap();
    assert_eq!(big.modifier, 2147483647);
    assert!(DiceRoll::from_notation("1d6+2147483648").is_none());
    assert!(DiceRoll::from_notation("4294967296d6").is_none());
    let max_count = DiceRoll::from_notation("4294967295d6").unwrap();
    assert_eq!(max_count.count, 4294967295);

    // Leading zeros are read, and the canonical form drops them.
    let padded = DiceRoll::from_notation("02d06+003").unwrap();
    assert_eq!(padded.count, 2);
    assert_eq!(padded.sides, 6);
    assert_eq!(padded.modifier, 3);
    assert_eq!(padded.to_notation(), "2d6+3");
}

#[test]
fn test_notation_strips_any_whitespace() {
    // Whitespace anywhere in the string is stripped, not just plain spaces.
    let tabbed = DiceRoll::from_notation("2\td6 +\u{a0}3\n").unwrap();
    assert_eq!(tabbed.count, 2);
    assert_eq!(tabbed.sides, 6);
    assert_eq!(tabbed.modifier, 3);
}

#[test]
fn test_notation_roundtrip_samples() {
    for text in ["2d6+3", "1d20-2", "3d8", "10d100+99", "7d12-1"] {
        let parsed = DiceRoll::from_notation(text).unwrap();
        assert_eq!(parsed.to_notation(), text);
        let again = DiceRoll::from_notation(&parsed.to_notation()).unwrap();
        assert_eq!(again.count, parsed.count);
        assert_eq!(again.sides, parsed.sides);
        assert_eq!(again.modifier, parsed.modifier);
    }
}

#[test]
fn test_common_dice() {
    let dice = [d4(), d6(), d8(), d10(), d12(), d20(), d100()];
    let sides = [4, 6, 8, 10, 12, 20, 100];
    for (die, expected) in dice.iter().zip(sides.iter()) {
        assert_eq!(die.count, 1);
        assert_eq!(die.sides, *expected);
        assert_eq!(die.modifier, 0);
    }
    assert_eq!(d20().to_notation(), "1d20");
}

#[test]
fn test_simple_roll_bounds() {
    let dice = DiceRoll::new(4, 6, 2);
    for _ in 0..50 {
        let result = dice.roll_with_details();
        assert_eq!(result.individual_rolls.len(), 4);
        for value in result.individual_rolls.iter() {
            assert!((1..=6).contains(value));
        }
        let sum: i32 = result.individual_rolls.iter().map(|v| *v as i32).sum();
        assert_eq!(result.total, sum + 2);
        assert!((6..=26).contains(&result.total));
        assert!((6..=26).contains(&dice.roll()));
    }
}

#[test]
fn test_simple_roll_deterministic_on_one_sided_dice() {
    // A one-sided die always shows 1, so the total is exact.
    let dice = DiceRoll::new(10, 1, 5);
    assert_eq!(dice.roll(), 15);
    let details = dice.roll_with_details();
    assert_eq!(details.total, 15);
    assert_eq!(details.individual_rolls, vec![1; 10]);
}

#[test]
fn test_roll_result_render() {
    let result = dice_engine::notation::RollResult {
        dice_roll: DiceRoll::new(2, 6, 3),
        individual_rolls: vec![4, 5],
        total: 12,
    };
    assert_eq!(result.render(), "2d6+3 → [4, 5] + 3 = 12");

    let negative = dice_engine::notation::RollResult {
        dice_roll: DiceRoll::new(1, 20, -2),
        individual_rolls: vec![7],
        total: 5,
    };
    assert_eq!(negative.render(), "1d20-2 → [7] - 2 = 5");

    let plain = dice_engine::notation::RollResult {
        dice_roll: DiceRoll::new(1, 4, 0),
        individual_rolls: vec![3],
        total: 3,
    };
    assert_eq!(plain.render(), "1d4 → [3] = 3");
}

#[test]
fn test_invalid_notation_message() {
    assert_eq!(invalid_notation_message("nope"), "Invalid dice notation: nope");
}
