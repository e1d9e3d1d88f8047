use std::collections::BTreeMap;

use fm_offline_pos::ecash::parse_notes;
use fm_offline_pos::ledger::{
    add_transaction, format_date, group_by_date, is_before, Entry, Transaction, TxType,
};
use fm_offline_pos::oob_notes::encode_multi_note_v1_oob;
use fm_offline_pos::qr::{
    after_frame, can_draw, frame_label, frame_result, generate_qr_svg, holds_notes, next_frame,
    qr_payload, split_for_animated_qr, ProcessResult, ScanAction,
};
use fm_offline_pos::rates::{currency_list, first_currency, is_fresh, quoted_currency};
use fm_offline_pos::storage::Wallet;
use fm_offline_pos::till::{
    process_deposit, process_payment, process_withdrawal, read_own_notes, take_out, Outcome,
    TakenNotes,
};
use fm_offline_pos::views::{initial_view, AppView, SetupStep};

use base64::Engine;

const PREFIX: [u8; 4] = [1, 2, 3, 4];

fn own_id() -> String {
    format!("01020304{}", "00".repeat(28))
}

/// A bundle with notes that differ from one another in `seed`.
fn ecash_of(prefix: [u8; 4], counts: &[(u64, usize)], seed: u8) -> String {
    let mut next = seed;
    let mut notes = BTreeMap::new();
    for (d, n) in counts {
        let list: Vec<Vec<u8>> = (0..*n)
            .map(|_| {
                next = next.wrapping_add(1);
                vec![next; 80]
            })
            .collect();
        notes.insert(*d, list);
    }
    base64::engine::general_purpose::URL_SAFE.encode(encode_multi_note_v1_oob(&prefix, &notes))
}

fn ecash(counts: &[(u64, usize)], seed: u8) -> String {
    ecash_of(PREFIX, counts, seed)
}

fn error(outcome: Option<Outcome>) -> String {
    let outcome = outcome.unwrap();
    assert!(outcome.entry.is_none());
    assert!(outcome.view.is_none());
    outcome.error.unwrap()
}

fn filled(counts: &[(u64, usize)], seed: u8) -> Wallet {
    let mut wallet = Wallet::default();
    let outcome = process_deposit(&mut wallet, Some(&own_id()), &ecash(counts, seed)).unwrap();
    assert!(outcome.error.is_none());
    wallet
}

#[test]
fn a_deposit_adds_the_notes() {
    let mut wallet = Wallet::default();
    let text = ecash(&[(1024, 2), (4, 1)], 0);
    let outcome = process_deposit(&mut wallet, Some(&own_id()), &text).unwrap();
    assert!(outcome.error.is_none());
    assert!(matches!(outcome.view, Some(AppView::Pos)));
    assert_eq!(
        outcome.entry,
        Some(Entry {
            amount_msats: 2052,
            change_msats: 0,
            paid_msats: 0,
            tx_type: TxType::Deposit
        })
    );
    assert_eq!(wallet.total_msats(), 2052);
    assert_eq!(
        error(process_deposit(&mut wallet, Some(&own_id()), &text)),
        "These notes are already in the wallet!"
    );
    assert_eq!(wallet.total_msats(), 2052);
}

#[test]
fn deposits_that_are_refused() {
    let mut wallet = Wallet::default();
    let text = ecash(&[(8, 1)], 0);
    assert_eq!(error(process_deposit(&mut wallet, None, &text)), "No config");
    assert_eq!(
        error(process_deposit(&mut wallet, Some(&"0".to_string()), &text)),
        "Invalid federation ID hex: Odd number of digits"
    );
    assert_eq!(
        error(process_deposit(&mut wallet, Some(&own_id()), "?")),
        "Could not decode ecash string"
    );
    let other = ecash_of([9, 9, 9, 9], &[(8, 1)], 0);
    assert_eq!(
        error(process_deposit(&mut wallet, Some(&own_id()), &other)),
        "Wrong federation!"
    );
    let too_much = ecash(&[(u64::MAX, 2)], 0);
    assert!(process_deposit(&mut wallet, Some(&own_id()), &too_much).is_none());
    assert!(wallet.notes.is_empty());
    assert!(read_own_notes(Some(&own_id()), &text, "no").is_ok());
    assert_eq!(read_own_notes(Some(&own_id()), &other, "no").unwrap_err(), "no");
}

#[test]
fn an_exact_payment_needs_no_change() {
    let mut wallet = Wallet::default();
    let text = ecash(&[(2000, 1), (3000, 1)], 0);
    let outcome = process_payment(&mut wallet, Some(&own_id()), 5000, 4950, &text).unwrap();
    assert!(outcome.error.is_none());
    assert_eq!(
        outcome.entry,
        Some(Entry {
            amount_msats: 5000,
            change_msats: 0,
            paid_msats: 5000,
            tx_type: TxType::Sale
        })
    );
    match outcome.view {
        Some(AppView::PaymentSuccess { received_sats, change_sats }) => {
            assert_eq!((received_sats, change_sats), (5, 0));
        }
        other => panic!("{:?}", other),
    }
    assert_eq!(wallet.total_msats(), 5000);
    assert_eq!(
        error(process_payment(&mut wallet, Some(&own_id()), 5000, 4950, &text)),
        "These notes are already in the wallet! Possible double-spend attempt."
    );
}

#[test]
fn change_is_given() {
    let mut wallet = filled(&[(1000, 3), (2000, 2)], 0);
    let text = ecash(&[(8000, 1)], 100);
    let outcome = process_payment(&mut wallet, Some(&own_id()), 5000, 4950, &text).unwrap();
    assert!(outcome.error.is_none());
    assert_eq!(outcome.entry.unwrap().change_msats, 3000);
    match outcome.view {
        Some(AppView::GiveChange { ecash_str, received_sats, change_sats }) => {
            assert_eq!((received_sats, change_sats), (8, 3));
            let change = parse_notes(&ecash_str).unwrap();
            assert_eq!(change.total_msats(), 3000);
            assert_eq!(change.denominations, BTreeMap::from([(1000, 1), (2000, 1)]));
        }
        other => panic!("{:?}", other),
    }
    assert_eq!(wallet.total_msats(), 7000 + 5000);
}

#[test]
fn a_payment_without_change_at_hand_is_accepted() {
    let mut wallet = Wallet::default();
    let text = ecash(&[(8000, 1)], 0);
    let outcome = process_payment(&mut wallet, Some(&own_id()), 5000, 4950, &text).unwrap();
    assert_eq!(
        outcome.error.unwrap(),
        "Payment accepted! Could not give exact change of 3 sats."
    );
    assert_eq!(outcome.entry.unwrap().paid_msats, 8000);
    assert!(matches!(
        outcome.view,
        Some(AppView::PaymentSuccess { received_sats: 8, change_sats: 0 })
    ));
    assert_eq!(wallet.total_msats(), 8000);
    // Change of less than a sat is planned as no note at all.
    let mut wallet = Wallet::default();
    let text = ecash(&[(5900, 1)], 0);
    let outcome = process_payment(&mut wallet, Some(&own_id()), 5000, 4950, &text).unwrap();
    assert_eq!(
        outcome.error.unwrap(),
        "Payment accepted! Could not give exact change of 0 sats."
    );
    assert_eq!(wallet.total_msats(), 5900);
}

#[test]
fn payments_that_are_refused() {
    let mut wallet = filled(&[(1000, 1)], 0);
    let low = ecash(&[(1000, 4)], 50);
    assert_eq!(
        error(process_payment(&mut wallet, Some(&own_id()), 5999, 5000, &low)),
        "Received 4 sats but expected 5 sats. Too low!"
    );
    assert_eq!(
        error(process_payment(&mut wallet, None, 5000, 4950, &low)),
        "No config"
    );
    let other = ecash_of([9, 9, 9, 9], &[(8000, 1)], 0);
    assert_eq!(
        error(process_payment(&mut wallet, Some(&own_id()), 5000, 4950, &other)),
        "Wrong federation! Ecash rejected."
    );
    assert_eq!(
        error(process_payment(&mut wallet, Some(&own_id()), 5000, 4950, "")),
        "Could not decode ecash string"
    );
    let too_much = ecash(&[(u64::MAX, 2)], 0);
    assert!(process_payment(&mut wallet, Some(&own_id()), 5000, 4950, &too_much).is_none());
    assert_eq!(wallet.total_msats(), 1000);
    // A little less than was asked for is accepted.
    let outcome = process_payment(&mut wallet, Some(&own_id()), 4010, 3969, &low).unwrap();
    assert!(outcome.error.is_none());
    assert_eq!(wallet.total_msats(), 5000);
}

#[test]
fn withdrawals_leave_what_they_should() {
    let mut wallet = filled(&[(1_000_000, 20)], 0);
    let outcome = process_withdrawal(&mut wallet, "5000").unwrap();
    assert_eq!(
        outcome.entry,
        Some(Entry {
            amount_msats: 15_000_000,
            change_msats: 0,
            paid_msats: 0,
            tx_type: TxType::Withdrawal
        })
    );
    match outcome.view {
        Some(AppView::AdminWithdraw(text)) => {
            assert_eq!(parse_notes(&text).unwrap().total_msats(), 15_000_000);
        }
        other => panic!("{:?}", other),
    }
    assert_eq!(wallet.total_msats(), 5_000_000);
    // Nothing happens where there is no more than that, and ten thousand sats stay by default.
    for leave in ["5000", "", "x", "-1"] {
        let outcome = process_withdrawal(&mut wallet, leave).unwrap();
        assert!(outcome.entry.is_none() && outcome.view.is_none() && outcome.error.is_none());
    }
    assert!(process_withdrawal(&mut wallet, "18446744073709551615").is_none());
    let outcome = process_withdrawal(&mut wallet, "0").unwrap();
    assert_eq!(outcome.entry.unwrap().amount_msats, 5_000_000);
    assert_eq!(wallet.total_msats(), 0);
}

#[test]
fn a_withdrawal_without_a_plan_does_nothing() {
    let mut wallet = filled(&[(8_000_000, 1)], 0);
    let outcome = process_withdrawal(&mut wallet, "2").unwrap();
    assert!(outcome.entry.is_none() && outcome.view.is_none());
    assert_eq!(wallet.total_msats(), 8_000_000);
}

#[test]
fn notes_that_cannot_be_put_together_leave_the_wallet() {
    let mut wallet = Wallet::default();
    wallet.notes.insert(2_048_000, vec!["nonsense".to_string()]);
    let outcome = process_withdrawal(&mut wallet, "0").unwrap();
    assert!(outcome.entry.is_none() && outcome.view.is_none() && outcome.error.is_none());
    assert_eq!(wallet.total_msats(), 0);
}

#[test]
fn taking_notes_out() {
    let mut wallet = filled(&[(1000, 2)], 0);
    assert!(matches!(take_out(&mut wallet, 9000), TakenNotes::Nothing));
    assert!(matches!(take_out(&mut wallet, 0), TakenNotes::Apart));
    match take_out(&mut wallet, 2000) {
        TakenNotes::Text(text) => assert_eq!(parse_notes(&text).unwrap().total_msats(), 2000),
        other => panic!("{:?}", other),
    }
    wallet.notes.insert(1000, vec!["nonsense".to_string()]);
    assert!(matches!(take_out(&mut wallet, 1000), TakenNotes::Apart));
    assert!(wallet.notes[&1000].is_empty());
}

#[test]
fn the_first_view() {
    assert!(matches!(initial_view(true), AppView::Pos));
    assert!(matches!(initial_view(false), AppView::Setup(SetupStep::Federation)));
}

fn tx(timestamp: u64, tx_type: TxType) -> Transaction<u8> {
    let entry = Entry { amount_msats: 12_999, change_msats: 1, paid_msats: 2, tx_type };
    Transaction::in_sats(timestamp, entry, 7)
}

#[test]
fn transactions_are_described() {
    let sale = tx(5, TxType::Sale);
    assert_eq!(sale.timestamp, 5);
    assert_eq!(sale.amount_msats, 12_999);
    assert_eq!(sale.currency, "sat");
    assert_eq!(sale.fiat_amount, 7);
    assert_eq!(sale.change_msats, 1);
    assert_eq!(sale.paid_msats, 2);
    assert_eq!(sale.amount_text(), "+12 sats");
    assert_eq!(tx(0, TxType::Withdrawal).amount_text(), "-12 sats");
    assert_eq!(TxType::Sale.name(), "Sale");
    assert_eq!(TxType::Deposit.name(), "Deposit");
    assert_eq!(TxType::Withdrawal.name(), "Withdrawal");
    assert_eq!(TxType::Sale.sign_and_color(), ("+", "#059669"));
    assert_eq!(TxType::Deposit.sign_and_color(), ("+", "#2563eb"));
    assert_eq!(TxType::Withdrawal.sign_and_color(), ("-", "#dc2626"));
    let mut all = vec![tx(1, TxType::Sale)];
    add_transaction(&mut all, tx(2, TxType::Deposit));
    assert_eq!(all.len(), 2);
    assert_eq!(all[1].timestamp, 2);
}

#[test]
fn dates_are_written_year_first() {
    assert_eq!(format_date(2024, 0, 5), "2024-01-05");
    assert_eq!(format_date(2024, 11, 31), "2024-12-31");
    assert_eq!(format_date(99, 8, 9), "99-09-09");
}

#[test]
fn texts_are_ordered_as_in_a_dictionary() {
    let texts = ["", "2023-12-31", "2024-01-01", "2024-01-010", "2024-02", "9", "\u{e9}"];
    for a in texts {
        for b in texts {
            assert_eq!(is_before(a, b), a < b, "{} {}", a, b);
        }
    }
}

#[test]
fn transactions_are_grouped_by_date() {
    let dates = ["2024-01-02", "2023-12-31", "2024-01-02", "2024-01-01", "2024-01-02"];
    let txs: Vec<Transaction<u8>> = (0..5).map(|i| tx(i, TxType::Sale)).collect();
    let groups = group_by_date(txs, dates.iter().map(|d| d.to_string()).collect());
    let shown: Vec<(String, Vec<u64>)> = groups
        .into_iter()
        .map(|g| (g.date, g.txs.into_iter().map(|t| t.timestamp).collect()))
        .collect();
    assert_eq!(
        shown,
        vec![
            ("2023-12-31".to_string(), vec![1]),
            ("2024-01-01".to_string(), vec![3]),
            ("2024-01-02".to_string(), vec![4, 2, 0]),
        ]
    );
    assert!(group_by_date(Vec::<Transaction<u8>>::new(), vec![]).is_empty());
}

#[test]
fn qr_codes_are_drawn() {
    let picture = generate_qr_svg("hello").unwrap();
    let want = qrcode::QrCode::new(b"hello")
        .unwrap()
        .render()
        .min_dimensions(200, 200)
        .dark_color(qrcode::render::svg::Color("#000000"))
        .light_color(qrcode::render::svg::Color("#ffffff"))
        .build();
    assert_eq!(picture, want);
    assert!(picture.starts_with("<?xml"));
    assert_ne!(generate_qr_svg("hellp").unwrap(), want);
    assert_eq!(
        generate_qr_svg(&"x".repeat(5597)),
        Err("QR encode error: data too long".to_string())
    );
}

#[test]
fn only_small_qr_codes_are_drawn() {
    assert!(can_draw(""));
    assert!(can_draw(&"x".repeat(264)));
    assert!(!can_draw(&"x".repeat(265)));
    assert!(!can_draw(&"1".repeat(5596)));
    assert!(can_draw(&"1".repeat(5597)));
    // The text that takes the most bits for its length.
    let data = "12\u{7d93}".repeat(52);
    assert!(can_draw(&data));
    let code = qrcode::QrCode::new(data.as_bytes()).unwrap();
    assert!(code.width() <= 77);
    assert!(generate_qr_svg(&data).is_ok());
    assert!(generate_qr_svg(&"1".repeat(264)).is_ok());
    assert_eq!(
        generate_qr_svg(&"1".repeat(5597)),
        Err("QR encode error: data too long".to_string())
    );
}

#[test]
fn payloads_of_frames() {
    assert_eq!(qr_payload("-_8="), vec![0xfb, 0xff]);
    assert_eq!(qr_payload("+/8="), vec![0xfb, 0xff]);
    assert_eq!(qr_payload("-_8"), b"-_8".to_vec());
    assert_eq!(qr_payload(""), Vec::<u8>::new());
    let text = ecash(&[(8, 1)], 0);
    match frame_result(1u8, true, Some(qr_payload(&text))) {
        ProcessResult::Complete(back) => assert_eq!(back, text),
        other => panic!("{:?}", other),
    }
}

#[test]
fn frames_to_show() {
    let frames = vec!["a".to_string(), "b".to_string()];
    assert_eq!(split_for_animated_qr("x", Some(frames.clone())), frames);
    assert_eq!(split_for_animated_qr("x", Some(vec![])), vec!["x"]);
    assert_eq!(split_for_animated_qr("x", None), vec!["x"]);
    assert_eq!(next_frame(0, 3), 1);
    assert_eq!(next_frame(2, 3), 0);
    assert_eq!(frame_label(0, 3), "Frame 1/3");
}

#[test]
fn scanned_frames() {
    assert!(matches!(frame_result(7u8, false, Some(vec![1])), ProcessResult::Progress(7)));
    assert!(matches!(frame_result(7u8, true, None), ProcessResult::Progress(7)));
    assert!(holds_notes(&ecash(&[(8, 1)], 0)));
    assert!(!holds_notes("AAAA"));
    match after_frame(Some(ProcessResult::<u8>::Complete("t".to_string()))) {
        ScanAction::Finish(text) => assert_eq!(text, "t"),
        other => panic!("{:?}", other),
    }
    assert!(matches!(after_frame(Some(ProcessResult::Progress(3u8))), ScanAction::Show(3)));
    assert!(matches!(after_frame(Some(ProcessResult::<u8>::NotAFrame)), ScanAction::ScanOn));
    assert!(matches!(after_frame::<u8>(None), ScanAction::ScanOn));
}

#[test]
fn currencies() {
    assert_eq!(quoted_currency("EUR/USD"), Some("EUR".to_string()));
    assert_eq!(quoted_currency("/USD"), Some("".to_string()));
    for key in ["BTC/USD", "USD/USD", "sat/USD", "EUR", "EUR/GBP", "A/B/USD", "EUR/USD/", "USD"] {
        assert_eq!(quoted_currency(key), None, "{}", key);
    }
    let list = |l: &[&str]| l.iter().map(|s| s.to_string()).collect::<Vec<String>>();
    assert_eq!(currency_list(list(&["EUR", "USD"])), list(&["sat", "EUR", "USD"]));
    assert_eq!(currency_list(list(&["EUR", "sat"])), list(&["EUR", "sat"]));
    assert_eq!(first_currency(Some(&"EUR".to_string())), "EUR");
    assert_eq!(first_currency(None), "sat");
}

#[test]
fn rates_are_good_for_a_day() {
    assert!(is_fresh(86_400_000, 0));
    assert!(!is_fresh(86_400_001, 0));
    assert!(is_fresh(5, 5));
}
