use std::collections::BTreeMap;

use fm_offline_pos::ecash::{combine_note_strings, parse_notes, split_notes_by_denomination};
use fm_offline_pos::oob_notes::encode_single_note_v1_oob;
use fm_offline_pos::storage::{pop_many, Wallet};

use base64::Engine;

/// A wallet with made-up notes: `name` of the denomination and a number.
fn wallet(counts: &[(u64, usize)]) -> Wallet {
    let notes = counts
        .iter()
        .map(|(d, n)| (*d, (0..*n).map(|i| format!("{}-{}", d, i)).collect()))
        .collect();
    Wallet { notes }
}

fn real_note(d: u64, fill: u8) -> String {
    let bytes = encode_single_note_v1_oob(&[1, 2, 3, 4], d, &vec![fill; 80]);
    base64::engine::general_purpose::URL_SAFE.encode(bytes)
}

fn counts(pairs: &[(u64, usize)]) -> BTreeMap<u64, usize> {
    pairs.iter().cloned().collect()
}

#[test]
fn totals_and_counts() {
    let w = wallet(&[(1, 3), (8, 0), (1024, 2)]);
    assert_eq!(w.total_msats(), 3 + 2048);
    assert_eq!(w.checked_total_msats(), Some(3 + 2048));
    assert_eq!(w.denomination_counts(), counts(&[(1, 3), (1024, 2)]));
    assert_eq!(w.denomination_info(), "1 msat x3, 1024 msat x2");
    assert_eq!(w.smallest_denomination(), Some(1));
    assert_eq!(wallet(&[(8, 0)]).smallest_denomination(), None);
    assert_eq!(wallet(&[(8, 0), (9, 1)]).smallest_denomination(), Some(9));
    assert_eq!(Wallet::default().denomination_info(), "");
    assert_eq!(wallet(&[(u64::MAX, 2)]).checked_total_msats(), None);
    assert_eq!(wallet(&[(u64::MAX, 1)]).total_msats(), u64::MAX);
}

#[test]
fn a_missing_wallet_is_empty() {
    assert!(Wallet::load(None).notes.is_empty());
    assert_eq!(Wallet::load(Some(wallet(&[(4, 1)]))).notes, wallet(&[(4, 1)]).notes);
}

#[test]
fn deposits_go_to_the_end() {
    let mut w = wallet(&[(1, 1)]);
    let split = BTreeMap::from([
        (1, vec!["a".to_string(), "b".to_string()]),
        (2, vec!["c".to_string()]),
    ]);
    assert!(!w.contains_any(&split));
    w.deposit(split.clone());
    assert_eq!(w.notes[&1], vec!["1-0", "a", "b"]);
    assert_eq!(w.notes[&2], vec!["c"]);
    assert!(w.contains_any(&split));
    assert!(w.contains_any(&BTreeMap::from([(2, vec!["x".to_string(), "c".to_string()])])));
    assert!(!w.contains_any(&BTreeMap::from([(1, vec!["c".to_string()])])));
    assert!(!w.contains_any(&BTreeMap::new()));
}

#[test]
fn popping_takes_the_last_first() {
    let mut list = vec![1, 2, 3, 4];
    assert_eq!(pop_many(&mut list, 3), vec![4, 3, 2]);
    assert_eq!(list, vec![1]);
    assert_eq!(pop_many(&mut list, 0), vec![]);
}

#[test]
fn plans_take_the_largest_first() {
    let w = Wallet::default();
    let have = counts(&[(1000, 5), (4000, 1), (16000, 2)]);
    assert_eq!(
        w.plan_withdrawal(39_000, &have),
        Some(counts(&[(1000, 3), (4000, 1), (16000, 2)]))
    );
    assert_eq!(w.plan_withdrawal(0, &have), Some(counts(&[])));
    assert_eq!(w.plan_withdrawal(16_999, &have), Some(counts(&[(16000, 1)])));
}

#[test]
fn up_to_a_sat_may_be_missing() {
    let w = Wallet::default();
    let have = counts(&[(4000, 1)]);
    assert_eq!(w.plan_withdrawal(5000, &have), Some(counts(&[(4000, 1)])));
    assert_eq!(w.plan_withdrawal(5001, &have), None);
    assert_eq!(w.plan_withdrawal(1000, &counts(&[])), Some(counts(&[])));
    assert_eq!(w.plan_withdrawal(1001, &counts(&[])), None);
}

#[test]
fn one_note_more_may_be_added() {
    let w = Wallet::default();
    // 4000 fits once and leaves 3500; a second 4000 is 500 too much.
    assert_eq!(
        w.plan_withdrawal(7500, &counts(&[(4000, 2)])),
        Some(counts(&[(4000, 2)]))
    );
    // What is below the note that is added is dropped.
    assert_eq!(
        w.plan_withdrawal(7500, &counts(&[(500, 1), (4000, 2)])),
        Some(counts(&[(4000, 2)]))
    );
    // The smallest denomination that is near enough is taken.
    assert_eq!(
        w.plan_withdrawal(7900, &counts(&[(4000, 2), (8000, 1)])),
        Some(counts(&[(4000, 2)]))
    );
    assert_eq!(
        w.plan_withdrawal(7900, &counts(&[(4000, 1), (8000, 1)])),
        Some(counts(&[(8000, 1)]))
    );
    assert_eq!(w.plan_withdrawal(6000, &counts(&[(4000, 1), (8000, 1)])), None);
}

#[test]
fn notes_worth_nothing_are_not_planned() {
    let w = Wallet::default();
    assert_eq!(w.plan_withdrawal(8, &counts(&[(0, 3), (8, 1)])), Some(counts(&[(8, 1)])));
    assert_eq!(w.plan_withdrawal(5000, &counts(&[(0, 3)])), None);
}

#[test]
fn a_plan_for_the_largest_amount_does_not_overflow() {
    let w = Wallet::default();
    let have = counts(&[(u64::MAX - 5000, 1), (u64::MAX, 1)]);
    assert_eq!(w.plan_withdrawal(u64::MAX, &have), Some(counts(&[(u64::MAX, 1)])));
    assert_eq!(
        w.plan_withdrawal(u64::MAX - 1, &have),
        Some(counts(&[(u64::MAX, 1)]))
    );
}

#[test]
fn withdrawing_exactly() {
    let mut w = wallet(&[(1000, 3), (4000, 2)]);
    let notes = w.withdraw_exact(6000).unwrap();
    assert_eq!(notes, vec!["1000-2", "1000-1", "4000-1"]);
    assert_eq!(w.notes[&1000], vec!["1000-0"]);
    assert_eq!(w.notes[&4000], vec!["4000-0"]);
    assert_eq!(w.total_msats(), 5000);
    let before = w.notes.clone();
    assert_eq!(w.withdraw_exact(50_000), None);
    assert_eq!(w.notes, before);
    assert_eq!(w.withdraw_exact(5000).unwrap(), vec!["1000-0", "4000-0"]);
    assert_eq!(w.notes, BTreeMap::from([(1000, vec![]), (4000, vec![])]));
}

#[test]
fn powers_of_two_give_exact_change_where_it_can_be_given() {
    let all = [(1u64, 1usize), (2, 3), (4, 0), (8, 2), (1024, 1), (2048, 2)];
    let units: Vec<u64> = all.iter().flat_map(|(d, n)| vec![*d; *n]).collect();
    for mask in 0u32..1 << units.len() {
        let amount: u64 = (0..units.len()).filter(|i| mask >> i & 1 == 1).map(|i| units[i]).sum();
        let mut w = wallet(&all);
        let before = w.total_msats();
        assert!(w.withdraw_exact(amount).is_some());
        assert_eq!(before - w.total_msats(), amount);
    }
}

#[test]
fn withdrawing_at_least() {
    let mut w = wallet(&[(1000, 1), (4000, 2), (16000, 1)]);
    assert_eq!(w.withdraw_at_least(5000).unwrap(), vec!["1000-0", "4000-1"]);
    assert_eq!(w.withdraw_at_least(1).unwrap(), vec!["4000-0"]);
    assert_eq!(w.withdraw_at_least(15_999).unwrap(), vec!["16000-0"]);
    assert_eq!(w.withdraw_at_least(0).unwrap(), Vec::<String>::new());
    assert_eq!(w.total_msats(), 0);
    assert_eq!(w.withdraw_at_least(1), None);
}

#[test]
fn at_least_takes_the_smallest_denominations_first() {
    let mut w = wallet(&[(1, 2), (2, 1)]);
    assert_eq!(w.withdraw_at_least(2).unwrap(), vec!["1-1", "1-0"]);
    assert_eq!(w.notes, BTreeMap::from([(1, vec![]), (2, vec!["2-0".to_string()])]));
    let mut w = wallet(&[(1, 3), (5, 1)]);
    assert_eq!(w.withdraw_at_least(2).unwrap(), vec!["1-2", "1-1"]);
}

#[test]
fn at_least_is_exact_where_it_can_be() {
    let mut w = wallet(&[(1, 1), (2, 1)]);
    assert_eq!(w.withdraw_at_least(2).unwrap(), vec!["2-0"]);
    let mut w = wallet(&[(1, 3), (4, 1)]);
    assert_eq!(w.withdraw_at_least(5).unwrap(), vec!["1-2", "4-0"]);
    for amount in 0..=31 {
        let mut w = wallet(&[(1, 1), (2, 1), (4, 1), (8, 1), (16, 1)]);
        assert!(w.withdraw_at_least(amount).is_some());
        assert_eq!(w.total_msats(), 31 - amount);
    }
}

#[test]
fn at_least_finds_an_exact_choice_of_odd_denominations() {
    let odd = [(3, 2), (4, 1)];
    assert_eq!(wallet(&odd).withdraw_at_least(4).unwrap(), vec!["4-0"]);
    assert_eq!(wallet(&odd).withdraw_at_least(6).unwrap(), vec!["3-1", "3-0"]);
    assert_eq!(wallet(&odd).withdraw_at_least(7).unwrap(), vec!["3-1", "4-0"]);
    assert_eq!(wallet(&odd).withdraw_at_least(5).unwrap(), vec!["3-1", "3-0"]);
}

#[test]
fn at_least_goes_up_where_it_cannot_be_exact() {
    let mut w = wallet(&[(1, 1), (4, 1)]);
    assert_eq!(w.withdraw_at_least(2).unwrap(), vec!["1-0", "4-0"]);
    assert_eq!(w.notes, BTreeMap::from([(1, vec![]), (4, vec![])]));
    let mut w = wallet(&[(2, 1), (8, 1), (16, 1)]);
    assert_eq!(w.withdraw_at_least(13).unwrap(), vec!["2-0", "8-0", "16-0"]);
    let mut w = wallet(&[(2, 1), (8, 3), (16, 1)]);
    assert_eq!(w.withdraw_at_least(9).unwrap(), vec!["2-0", "8-2"]);
    let mut w = wallet(&[(u64::MAX, 3)]);
    assert_eq!(w.withdraw_at_least(u64::MAX).unwrap().len(), 1);
    assert_eq!(w.withdraw_at_least(1).unwrap().len(), 1);
}

#[test]
fn at_least_hands_out_what_is_worth_nothing() {
    let worthless = [(0, 2), (8, 2)];
    assert_eq!(
        wallet(&worthless).withdraw_at_least(9).unwrap(),
        vec!["0-1", "0-0", "8-1", "8-0"]
    );
    assert_eq!(
        wallet(&worthless).withdraw_at_least(8).unwrap(),
        vec!["0-1", "0-0", "8-1"]
    );
    assert_eq!(
        wallet(&worthless).withdraw_at_least(0).unwrap(),
        Vec::<String>::new()
    );
}

#[test]
fn looking_for_an_exact_choice_does_not_take_long() {
    let mut many: Vec<(u64, usize)> = (10..40).map(|e| (1 << e, 20)).collect();
    many.push((1, 3));
    let mut w = wallet(&many);
    let amount = (1 << 42) + 500;
    let before = w.total_msats();
    assert!(w.withdraw_at_least(amount).is_some());
    assert!(before - w.total_msats() > amount);
    assert!(w.notes[&1].is_empty());
    let before = w.total_msats();
    assert!(w.withdraw_at_least(1 << 43).is_some());
    assert_eq!(before - w.total_msats(), 1 << 43);
}

#[test]
fn a_wallet_without_enough_stays_as_it_is() {
    let mut w = wallet(&[(4, 2), (8, 1), (16, 0)]);
    assert_eq!(w.withdraw_at_least(17), None);
    assert_eq!(w.notes, wallet(&[(4, 2), (8, 1), (16, 0)]).notes);
    let mut w = wallet(&[(8, 1)]);
    assert_eq!(w.withdraw_at_least(100), None);
    assert_eq!(w.notes, wallet(&[(8, 1)]).notes);
}

#[test]
fn gaps_in_the_change() {
    assert!(!wallet(&[]).has_change_gaps());
    assert!(!wallet(&[(1, 0), (2, 5)]).has_change_gaps());
    assert!(wallet(&[(1, 0), (2, 5), (4, 1)]).has_change_gaps());
    assert!(!wallet(&[(1, 1), (2, 5), (4, 1)]).has_change_gaps());
    // Of five denominations the lowest four count.
    let five = [(1, 1), (2, 1), (4, 1), (8, 1), (32, 1)];
    assert!(!wallet(&five).has_change_gaps());
    let mut with_high_gap = five.to_vec();
    with_high_gap.push((16, 0));
    assert!(!wallet(&with_high_gap).has_change_gaps());
    let mut with_low_gap = five.to_vec();
    with_low_gap.push((3, 0));
    assert!(wallet(&with_low_gap).has_change_gaps());
    // Of four, all do.
    assert!(wallet(&[(1, 1), (2, 1), (4, 1), (16, 1), (8, 0)]).has_change_gaps());
}

#[test]
fn notes_keep_their_worth_on_their_way_through_the_wallet() {
    let mut w = Wallet::default();
    for (d, fill) in [(1u64, 1u8), (2, 2), (4, 3), (4, 4), (1 << 20, 5)] {
        let notes = parse_notes(&real_note(d, fill)).unwrap();
        w.deposit(split_notes_by_denomination(&notes));
    }
    assert_eq!(w.total_msats(), 11 + (1 << 20));
    let taken = w.withdraw_exact((1 << 20) + 7).unwrap();
    let text = combine_note_strings(&taken).unwrap();
    assert_eq!(parse_notes(&text).unwrap().total_msats(), (1 << 20) + 7);
    assert_eq!(w.total_msats(), 4);
}
