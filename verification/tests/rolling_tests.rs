use dice_engine::DiceRoll;
use dice_engine::DiceRollOp;
use dice_engine::DiceRollResult;
use dice_engine::Die;
use dice_engine::DieRollResult;
use dice_engine::roll_dice;

fn outcome(sides: u32, value: u32) -> DieRollResult {
    DieRollResult { die: Die { sides }, result: value, keep: true }
}

#[test]
fn test_die_roll_in_range() {
    let die = Die { sides: 6 };
    for _ in 0..100 {
        let value = die.roll();
        assert!((1..=6).contains(&value));
    }
    let trivial = Die { sides: 1 };
    assert_eq!(trivial.roll(), 1);
}

#[test]
fn test_create_keep_highest_with_injected_values() {
    // 4d6kh3 with injected outcomes [5, 2, 6, 1] keeps {5, 2, 6}: the three
    // highest values are 6, 5 and 2, and the total is 13.
    let rolled = vec![outcome(6, 5), outcome(6, 2), outcome(6, 6), outcome(6, 1)];
    let result = DiceRollResult::create(rolled, Some(DiceRollOp::KeepHighest(3)), None);
    assert_eq!(result.result, 13);
    let values: Vec<u32> = result.dice_results.iter().map(|d| d.result).collect();
    let kept: Vec<bool> = result.dice_results.iter().map(|d| d.keep).collect();
    assert_eq!(values, vec![6, 5, 2, 1]);
    assert_eq!(kept, vec![true, true, true, false]);
    assert_eq!(result.operation, Some(DiceRollOp::KeepHighest(3)));
    assert_eq!(result.modifier, None);
}

#[test]
fn test_create_keep_lowest_with_injected_values() {
    let rolled = vec![outcome(8, 5), outcome(8, 2), outcome(8, 6), outcome(8, 1)];
    let result = DiceRollResult::create(rolled, Some(DiceRollOp::KeepLowest(2)), Some(4));
    let values: Vec<u32> = result.dice_results.iter().map(|d| d.result).collect();
    let kept: Vec<bool> = result.dice_results.iter().map(|d| d.keep).collect();
    assert_eq!(values, vec![1, 2, 5, 6]);
    assert_eq!(kept, vec![true, true, false, false]);
    assert_eq!(result.result, 1 + 2 + 4);
}

#[test]
fn test_create_without_operation_keeps_order() {
    let rolled = vec![outcome(6, 5), outcome(6, 2), outcome(6, 6)];
    let result = DiceRollResult::create(rolled, None, Some(-2));
    let values: Vec<u32> = result.dice_results.iter().map(|d| d.result).collect();
    assert_eq!(values, vec![5, 2, 6]);
    assert!(result.dice_results.iter().all(|d| d.keep));
    assert_eq!(result.result, 5 + 2 + 6 - 2);
}

#[test]
fn test_tiebreak_earliest_rolled_wins() {
    // Two dice show the tied value 3; the earlier-rolled one (the d6) wins
    // the keep. The dice are distinguishable by their side counts.
    let rolled = vec![
        DieRollResult { die: Die { sides: 6 }, result: 3, keep: true },
        DieRollResult { die: Die { sides: 8 }, result: 3, keep: true },
        DieRollResult { die: Die { sides: 10 }, result: 5, keep: true },
    ];
    let result = DiceRollResult::create(rolled, Some(DiceRollOp::KeepHighest(2)), None);
    let order: Vec<(u32, u32, bool)> =
        result.dice_results.iter().map(|d| (d.die.sides, d.result, d.keep)).collect();
    assert_eq!(order, vec![(10, 5, true), (6, 3, true), (8, 3, false)]);
    assert_eq!(result.result, 8);

    // The same draws under keep-lowest: the tied 3s sit first, again in
    // roll order, and again the earlier-rolled d6 wins the keep.
    let rolled = vec![
        DieRollResult { die: Die { sides: 6 }, result: 3, keep: true },
        DieRollResult { die: Die { sides: 8 }, result: 3, keep: true },
        DieRollResult { die: Die { sides: 10 }, result: 5, keep: true },
    ];
    let result = DiceRollResult::create(rolled, Some(DiceRollOp::KeepLowest(1)), None);
    let order: Vec<(u32, u32, bool)> =
        result.dice_results.iter().map(|d| (d.die.sides, d.result, d.keep)).collect();
    assert_eq!(order, vec![(6, 3, true), (8, 3, false), (10, 5, false)]);
    assert_eq!(result.result, 3);
}

#[test]
fn test_group_roll_with_injected_values() {
    // 4d6kh3 rolled against the injected values [5, 2, 6, 1]: the three
    // highest are kept and the total is 13, deterministically.
    let group = DiceRoll::from_expression("4d6kh3").unwrap();
    let result = group.roll_with_values(&vec![5, 2, 6, 1]);
    assert_eq!(result.result, 13);
    let marks: Vec<(u32, bool)> = result.dice_results.iter().map(|d| (d.result, d.keep)).collect();
    assert_eq!(marks, vec![(6, true), (5, true), (2, true), (1, false)]);
}

#[test]
fn test_keep_count_caps_at_count() {
    let rolled = vec![outcome(6, 2), outcome(6, 4)];
    let result = DiceRollResult::create(rolled, Some(DiceRollOp::KeepHighest(5)), None);
    assert!(result.dice_results.iter().all(|d| d.keep));
    assert_eq!(result.result, 6);
}

#[test]
fn test_group_roll_properties() {
    // One outcome per die, every value on the die's faces, and the total
    // is the modifier plus the kept values.
    let group = DiceRoll::from_expression("5d6+2").unwrap();
    for _ in 0..50 {
        let result = group.roll();
        assert_eq!(result.dice_results.len(), 5);
        for d in result.dice_results.iter() {
            assert_eq!(d.die.sides, 6);
            assert!((1..=6).contains(&d.result));
            assert!(d.keep);
        }
        let kept: i32 =
            result.dice_results.iter().filter(|d| d.keep).map(|d| d.result as i32).sum();
        assert_eq!(result.result, kept + 2);
    }
}

#[test]
fn test_group_roll_keep_count() {
    // Exactly min(n, count) outcomes are kept.
    let group = DiceRoll::from_expression("6d10kh2").unwrap();
    for _ in 0..50 {
        let result = group.roll();
        assert_eq!(result.dice_results.iter().filter(|d| d.keep).count(), 2);
        let kept: i32 =
            result.dice_results.iter().filter(|d| d.keep).map(|d| d.result as i32).sum();
        assert_eq!(result.result, kept);
        // Sorted descending: every kept value is at least every discarded one.
        let values: Vec<u32> = result.dice_results.iter().map(|d| d.result).collect();
        assert!(values.windows(2).all(|w| w[0] >= w[1]));
    }
}

#[test]
fn test_group_roll_deterministic_on_one_sided_dice() {
    let group = DiceRoll::from_expression("4d1kh2+3").unwrap();
    let result = group.roll();
    let kept: Vec<bool> = result.dice_results.iter().map(|d| d.keep).collect();
    assert_eq!(kept, vec![true, true, false, false]);
    assert_eq!(result.result, 2 + 3);
}

#[test]
fn test_roll_dice_end_to_end() {
    let result = roll_dice("3d1-1").unwrap();
    assert_eq!(result.result, 2);
    assert_eq!(result.dice_results.len(), 3);

    let err = roll_dice("nonsense").unwrap_err();
    assert_eq!(err, "Failed to parse dice expression: nonsense");

    let too_large = roll_dice("100000d100000").unwrap_err();
    assert_eq!(too_large, "Dice roll is too large to evaluate");
}

#[test]
fn test_combine_results() {
    let first = DiceRollResult::create(vec![outcome(6, 4), outcome(6, 2)], None, Some(1));
    let second = DiceRollResult::create(vec![outcome(20, 19)], None, Some(-3));
    let combined = DiceRollResult::combine(&vec![first, second]);
    assert_eq!(combined.result, 7 + 16);
    assert_eq!(combined.operation, None);
    assert_eq!(combined.modifier, Some(-2));
    let values: Vec<u32> = combined.dice_results.iter().map(|d| d.result).collect();
    assert_eq!(values, vec![4, 2, 19]);
}

#[test]
fn test_result_render() {
    let rolled = vec![outcome(6, 6), outcome(6, 5), outcome(6, 2)];
    let result = DiceRollResult::create(rolled, Some(DiceRollOp::KeepHighest(2)), Some(3));
    assert_eq!(result.render(), "[6], [5], (2: discarded) (keeping highest 2) + 3 = 14");

    let rolled = vec![outcome(4, 1), outcome(4, 3)];
    let result = DiceRollResult::create(rolled, Some(DiceRollOp::KeepLowest(1)), Some(-2));
    assert_eq!(result.render(), "[1], (3: discarded) (keeping lowest 1) - 2 = -1");

    let rolled = vec![outcome(8, 7)];
    let result = DiceRollResult::create(rolled, None, None);
    assert_eq!(result.render(), "[7] = 7");
}

#[test]
fn test_die_outcome_render() {
    let kept = DieRollResult { die: Die { sides: 6 }, result: 5, keep: true };
    assert_eq!(kept.render(), "[5]");
    let discarded = DieRollResult { die: Die { sides: 6 }, result: 2, keep: false };
    assert_eq!(discarded.render(), "(2: discarded)");
    assert_eq!(Die { sides: 20 }.to_notation(), "d20");
}
