use dice_engine::DamageType;
use dice_engine::DiceHistoryEntry;
use dice_engine::DiceHistoryStore;
use dice_engine::DiceRollResult;
use dice_engine::Die;
use dice_engine::DieRollResult;

fn result_with_total(total: u32) -> DiceRollResult {
    let rolled = vec![DieRollResult { die: Die { sides: 100 }, result: total, keep: true }];
    DiceRollResult::create(rolled, None, None)
}

#[test]
fn test_history_keeps_ten_most_recent() {
    // Rolling 11 times appends 11 outcomes, but the visible history retains
    // only the 10 most recent, most recent first.
    let mut store = DiceHistoryStore::new();
    assert_eq!(store.get_history().len(), 0);
    for i in 1..=11u32 {
        store.add_roll(vec![result_with_total(i)]);
    }
    let history = store.get_history();
    assert_eq!(history.len(), 10);
    for (slot, entry) in history.iter().enumerate() {
        let expected = 11 - slot as u32;
        assert_eq!(entry.roll_results.len(), 1);
        assert_eq!(entry.roll_results[0].result, expected as i32);
    }
}

#[test]
fn test_history_clear() {
    let mut store = DiceHistoryStore::new();
    store.add_roll(vec![result_with_total(7)]);
    store.add_roll(vec![result_with_total(9)]);
    assert_eq!(store.get_history().len(), 2);
    assert_eq!(store.get_history()[0].roll_results[0].result, 9);
    store.clear();
    assert_eq!(store.get_history().len(), 0);
}

#[test]
fn test_history_entry_render() {
    // 1 hour, 1 minute and 1 second past midnight.
    let entry = DiceHistoryEntry { timestamp: 3661, roll_results: vec![result_with_total(7)] };
    assert_eq!(entry.render(), "[01H:01:01] [7] = 7");

    let busy = DiceHistoryEntry {
        timestamp: 23 * 3600 + 59 * 60 + 59,
        roll_results: vec![result_with_total(1), result_with_total(2)],
    };
    assert_eq!(busy.render(), "[23H:59:59] [1] = 1, [2] = 2");
}

#[test]
fn test_history_entry_new_keeps_results() {
    let entry = DiceHistoryEntry::new(vec![result_with_total(4)]);
    assert_eq!(entry.roll_results.len(), 1);
    assert_eq!(entry.roll_results[0].result, 4);
}

#[test]
fn test_damage_type_names() {
    assert_eq!(DamageType::Acid.name(), "Acid");
    assert_eq!(DamageType::Bludgeoning.name(), "Bludgeoning");
    assert_eq!(DamageType::Thunder.name(), "Thunder");
    assert_eq!(DamageType::Fire, DamageType::Fire);
    assert!(DamageType::Cold != DamageType::Fire);
}
