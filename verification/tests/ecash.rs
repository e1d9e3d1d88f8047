use std::collections::BTreeMap;

use fm_offline_pos::base32::{base32hex_decode, base32hex_encode};
use fm_offline_pos::ecash::{
    check_federation, checked_combine_note_strings, combine_note_strings, decode_all_variants,
    decode_fedimint_base32, federation_id_to_prefix, gather_notes, parse_decodings,
    parse_invite_code, parse_notes, split_notes_by_denomination,
};
use fm_offline_pos::ecash_fields::{
    encode_multi_note_v2_ecash, encode_single_note_v2_ecash, parse_v2_ecash,
};
use fm_offline_pos::invite::{extract_federation_id_from_invite, parse_invite_bytes};
use fm_offline_pos::notes::{NoteFormat, ParsedNotes};
use fm_offline_pos::oob_notes::{
    encode_multi_note_v1_oob, encode_single_note_v1_oob, parse_v1_oob_notes, parse_v1_tiered_multi,
};
use fm_offline_pos::varint::{read_varint, write_varint, Reader};

use base64::Engine;

const PREFIX: [u8; 4] = [1, 2, 3, 4];

fn url_safe(bytes: &[u8]) -> String {
    base64::engine::general_purpose::URL_SAFE.encode(bytes)
}

fn varint(n: u64) -> Vec<u8> {
    let mut out = Vec::new();
    write_varint(&mut out, n);
    out
}

fn part(tag: u64, body: &[u8]) -> Vec<u8> {
    let mut out = varint(tag);
    out.extend(varint(body.len() as u64));
    out.extend_from_slice(body);
    out
}

fn list(parts: &[Vec<u8>]) -> Vec<u8> {
    let mut out = varint(parts.len() as u64);
    for p in parts {
        out.extend_from_slice(p);
    }
    out
}

fn v1_note(fill: u8) -> Vec<u8> {
    vec![fill; 80]
}

fn v2_note(power: u8, fill: u8) -> Vec<u8> {
    let mut note = vec![fill; 81];
    note[0] = power;
    note
}

fn tiers(entries: &[(u64, Vec<Vec<u8>>)]) -> BTreeMap<u64, Vec<Vec<u8>>> {
    entries.iter().cloned().collect()
}

fn message(result: Result<ParsedNotes, String>) -> String {
    match result {
        Ok(notes) => panic!("parsed as {:?}", notes),
        Err(e) => e,
    }
}

#[test]
fn varints_are_written_in_the_fewest_bytes() {
    assert_eq!(varint(0), vec![0]);
    assert_eq!(varint(0xfc), vec![0xfc]);
    assert_eq!(varint(0xfd), vec![0xfd, 0x00, 0xfd]);
    assert_eq!(varint(0xffff), vec![0xfd, 0xff, 0xff]);
    assert_eq!(varint(0x1_0000), vec![0xfe, 0, 1, 0, 0]);
    assert_eq!(varint(0xffff_ffff), vec![0xfe, 0xff, 0xff, 0xff, 0xff]);
    assert_eq!(varint(0x1_0000_0000), vec![0xff, 0, 0, 0, 1, 0, 0, 0, 0]);
    assert_eq!(varint(u64::MAX), vec![0xff; 9]);
}

#[test]
fn varints_are_read_back() {
    for n in [0, 1, 0xfc, 0xfd, 0xfe, 0xff, 0x100, 0xffff, 0x1_0000, 0xffff_ffff, 1 << 40, u64::MAX]
    {
        let mut bytes = varint(n);
        bytes.push(77);
        let mut r = Reader::new(&bytes);
        assert_eq!(read_varint(&mut r), Ok(n));
        assert_eq!(r.read_exact(1), Some(vec![77]));
        assert_eq!(r.read_exact(1), None);
        assert_eq!(r.read_exact(0), Some(vec![]));
    }
}

#[test]
fn varints_need_not_be_minimal() {
    let bytes = [0xfd, 0, 5];
    assert_eq!(read_varint(&mut Reader::new(&bytes)), Ok(5));
}

#[test]
fn a_varint_that_is_cut_off_is_an_error() {
    let want = Err("Read error: failed to fill whole buffer".to_string());
    for bytes in [&[][..], &[0xfd, 1][..], &[0xfe, 1, 2, 3][..], &[0xff, 1, 2, 3, 4, 5, 6, 7][..]] {
        assert_eq!(read_varint(&mut Reader::new(bytes)), want);
    }
}

#[test]
fn base32_is_base32hex() {
    let pairs = [
        ("", ""),
        ("f", "co"),
        ("fo", "cpng"),
        ("foo", "cpnmu"),
        ("foob", "cpnmuog"),
        ("fooba", "cpnmuoj1"),
        ("foobar", "cpnmuoj1e8"),
        ("hello", "d1imor3f"),
    ];
    for (bytes, text) in pairs {
        assert_eq!(base32hex_encode(bytes.as_bytes()), text);
        assert_eq!(base32hex_decode(text.as_bytes()), Ok(bytes.as_bytes().to_vec()));
    }
    assert_eq!(base32hex_encode(b"\xff"), "vs");
    assert_eq!(base32hex_encode(&[0, 1, 2, 3, 4, 5, 6, 7, 8, 9]), "000g40o40k30e209");
    // Bits behind the last byte do not matter.
    assert_eq!(base32hex_decode(b"cp"), Ok(b"f".to_vec()));
    assert_eq!(base32hex_decode(b"c"), Ok(vec![]));
}

#[test]
fn base32_round_trips() {
    for n in 0..40usize {
        let bytes: Vec<u8> = (0..n).map(|i| (i * 37 + 11) as u8).collect();
        let text = base32hex_encode(&bytes);
        assert_eq!(text.len(), (8 * n + 4) / 5);
        assert_eq!(base32hex_decode(text.as_bytes()), Ok(bytes));
    }
}

#[test]
fn base32_names_the_first_bad_character() {
    assert_eq!(
        base32hex_decode(b"01w!"),
        Err("Invalid base32 character: 'w'".to_string())
    );
    assert_eq!(
        base32hex_decode(&[0xe9]),
        Err("Invalid base32 character: '\u{e9}'".to_string())
    );
    assert_eq!(
        base32hex_decode(b"A"),
        Err("Invalid base32 character: 'A'".to_string())
    );
}

#[test]
fn fedimint_text_needs_its_word() {
    assert_eq!(decode_fedimint_base32("fedimintd1imor3f"), Ok(b"hello".to_vec()));
    assert_eq!(
        decode_fedimint_base32("fedid1imor3f"),
        Err("Missing fedimint prefix".to_string())
    );
    assert_eq!(
        decode_fedimint_base32("fedimint-"),
        Err("Invalid base32 character: '-'".to_string())
    );
}

#[test]
fn decodings_are_listed_once() {
    assert_eq!(decode_all_variants("AAAA"), vec![vec![0, 0, 0]]);
    assert_eq!(decode_all_variants("-_-_"), vec![vec![0xfb, 0xff, 0xbf]]);
    assert_eq!(decode_all_variants("+/+/"), vec![vec![0xfb, 0xff, 0xbf]]);
    assert_eq!(decode_all_variants("-_8="), vec![vec![0xfb, 0xff]]);
    assert_eq!(decode_all_variants("-_8"), vec![vec![0xfb, 0xff]]);
    assert_eq!(decode_all_variants("+/8="), vec![vec![0xfb, 0xff]]);
    assert_eq!(decode_all_variants("+/8"), vec![vec![0xfb, 0xff]]);
    assert!(decode_all_variants("").is_empty());
    assert!(decode_all_variants("!").is_empty());
    assert!(decode_all_variants("AB").is_empty());
    assert!(decode_all_variants("QQ=").is_empty());
    assert!(decode_all_variants("QQ==QQ==").is_empty());
    assert_eq!(
        decode_all_variants("FEDIMINTD1IMOR3F"),
        vec![
            b"hello".to_vec(),
            base64::engine::general_purpose::STANDARD.decode("FEDIMINTD1IMOR3F").unwrap()
        ]
    );
}

#[test]
fn base64_of_every_short_text_is_what_the_encoder_gives() {
    let alphabet = ['A', 'B', 'Q', 'g', 'w', '9', '-', '_', '+', '/', '='];
    let engine = base64::engine::general_purpose::URL_SAFE;
    for a in alphabet {
        for b in alphabet {
            for c in alphabet {
                for d in alphabet {
                    let text: String = [a, b, c, d].iter().collect();
                    match engine.decode(&text) {
                        Ok(bytes) => assert_eq!(engine.encode(&bytes), text),
                        Err(_) => {
                            let known = decode_all_variants(&text);
                            assert!(known.iter().all(|bytes| engine.encode(bytes) != text));
                        }
                    }
                }
            }
        }
    }
}

#[test]
fn v1_bundle_of_one_note() {
    let text = "AgEEAQIDBABVAf0EAAEHBwcHBwcHBwcHBwcHBwcHBwcHBwcHBwcHBwcHBwcHBwcHBwcHBwcHBwcHBwcH\
                BwcHBwcHBwcHBwcHBwcHBwcHBwcHBwcHBwcHBwcHBwcHBw==";
    let notes = parse_notes(text).unwrap();
    assert_eq!(notes.federation_id_prefix, PREFIX);
    assert_eq!(notes.format, NoteFormat::V1);
    assert_eq!(notes.denominations, BTreeMap::from([(1024, 1)]));
    assert_eq!(notes.raw_notes, tiers(&[(1024, vec![v1_note(7)])]));
    assert_eq!(notes.total_msats(), 1024);
    assert_eq!(notes.checked_total_msats(), Some(1024));
    let again = split_notes_by_denomination(&notes);
    assert_eq!(again, BTreeMap::from([(1024, vec![text.to_string()])]));
}

#[test]
fn white_space_does_not_matter() {
    let bytes = encode_single_note_v1_oob(&PREFIX, 8, &v1_note(1));
    let text = url_safe(&bytes);
    let spaced: String = text.chars().flat_map(|c| [c, '\n', '\u{2003}', ' ']).collect();
    assert_eq!(
        parse_notes(&spaced).unwrap().raw_notes,
        parse_notes(&text).unwrap().raw_notes
    );
    let squashed = decode_all_variants(&spaced);
    assert!(squashed.is_empty());
}

#[test]
fn all_forms_of_text_are_read() {
    let bytes = encode_single_note_v1_oob(&PREFIX, 8, &v1_note(0xfb));
    let forms = [
        url_safe(&bytes),
        base64::engine::general_purpose::URL_SAFE_NO_PAD.encode(&bytes),
        base64::engine::general_purpose::STANDARD.encode(&bytes),
        base64::engine::general_purpose::STANDARD_NO_PAD.encode(&bytes),
        format!("fedimint{}", base32hex_encode(&bytes)),
        format!("fedimint{}", base32hex_encode(&bytes)).to_uppercase(),
        format!("FediMint{}", base32hex_encode(&bytes).to_uppercase()),
    ];
    for form in forms {
        let notes = parse_notes(&form).unwrap();
        assert_eq!(notes.raw_notes, tiers(&[(8, vec![v1_note(0xfb)])]), "{}", form);
    }
}

#[test]
fn v1_round_trips() {
    let notes = tiers(&[
        (1, vec![v1_note(1), v1_note(2)]),
        (2, vec![v1_note(3)]),
        (1 << 40, vec![v1_note(4); 3]),
    ]);
    let parsed = parse_v1_oob_notes(&encode_multi_note_v1_oob(&PREFIX, &notes)).unwrap();
    assert_eq!(parsed.raw_notes, notes);
    assert_eq!(parsed.federation_id_prefix, PREFIX);
    assert_eq!(parsed.total_msats(), 1 + 1 + 2 + 3 * (1 << 40));
}

#[test]
fn v2_round_trips() {
    let notes = tiers(&[
        (1, vec![v2_note(0, 1), v2_note(0, 2)]),
        (1024, vec![v2_note(10, 3)]),
    ]);
    let parsed = parse_v2_ecash(&encode_multi_note_v2_ecash(&PREFIX, &notes)).unwrap();
    assert_eq!(parsed.raw_notes, notes);
    assert_eq!(parsed.format, NoteFormat::V2);
    assert_eq!(parsed.federation_id_prefix, PREFIX);
    assert_eq!(parsed.total_msats(), 1026);
    let single = encode_single_note_v2_ecash(&PREFIX, &v2_note(3, 9));
    assert_eq!(single, encode_multi_note_v2_ecash(&PREFIX, &tiers(&[(8, vec![v2_note(3, 9)])])));
    assert_eq!(&single[..4], &[2, 0, 32, 1]);
    assert_eq!(single.len(), 3 + 32 + 2 + 81);
}

#[test]
fn a_v2_bundle_may_look_like_a_v1_bundle() {
    let prefix = [1, 9, 0, 0];
    let bytes = encode_single_note_v2_ecash(&prefix, &v2_note(3, 9));
    let misread = parse_v1_oob_notes(&bytes).unwrap();
    assert_eq!(misread.denominations, BTreeMap::from([(9, 0)]));
    assert_eq!(parse_notes(&url_safe(&bytes)).unwrap().format, NoteFormat::V1);
    assert_eq!(parse_v2_ecash(&bytes).unwrap().denominations, BTreeMap::from([(8, 1)]));
}

#[test]
fn v2_denominations_wrap_around() {
    let body = v2_note(64 + 5, 1);
    let bytes = list(&[part(0, &[7; 32]), part(1, &body)]);
    assert_eq!(parse_v2_ecash(&bytes).unwrap().denominations, BTreeMap::from([(32, 1)]));
}

#[test]
fn v1_errors() {
    let short = "Read error: failed to fill whole buffer";
    assert_eq!(message(parse_v1_oob_notes(&[])), short);
    assert_eq!(message(parse_v1_oob_notes(&[0])), "Invalid v1 part count: 0");
    assert_eq!(message(parse_v1_oob_notes(&[101])), "Invalid v1 part count: 101");
    assert_eq!(
        message(parse_v1_oob_notes(&varint(u64::MAX))),
        "Invalid v1 part count: 18446744073709551615"
    );
    assert_eq!(message(parse_v1_oob_notes(&[1, 1])), short);
    assert_eq!(message(parse_v1_oob_notes(&[1, 1, 5, 0])), short);
    let mut huge = vec![1, 1];
    huge.extend(varint(10_000_001));
    assert_eq!(message(parse_v1_oob_notes(&huge)), "Body too large");
    assert_eq!(
        message(parse_v1_oob_notes(&list(&[part(1, &[1, 2, 3])]))),
        "FederationIdPrefix too short"
    );
    assert_eq!(
        message(parse_v1_oob_notes(&list(&[part(9, &[])]))),
        "No federation ID in v1 notes"
    );
    assert_eq!(
        message(parse_v1_oob_notes(&list(&[part(1, &PREFIX)]))),
        "No notes in v1 data"
    );
    assert_eq!(
        message(parse_v1_oob_notes(&list(&[part(0, &varint(1001)), part(1, &PREFIX)]))),
        "Too many tiers"
    );
    let mut many = vec![1, 8];
    many.extend(varint(100_001));
    assert_eq!(
        message(parse_v1_oob_notes(&list(&[part(0, &many)]))),
        "Too many notes in tier"
    );
    let mut cut = vec![1, 8, 2];
    cut.extend(vec![0; 159]);
    assert_eq!(
        message(parse_v1_oob_notes(&list(&[part(0, &cut)]))),
        "Failed to read v1 note: failed to fill whole buffer"
    );
    assert_eq!(message(parse_v1_oob_notes(&list(&[part(0, &[1])]))), short);
    assert_eq!(message(parse_v1_oob_notes(&list(&[part(0, &[1, 8])]))), short);
    assert_eq!(message(parse_v1_oob_notes(&list(&[part(0, &[])]))), short);
}

#[test]
fn v1_tiers_add_up_and_may_be_empty() {
    let mut body = vec![3, 8, 1];
    body.extend(v1_note(1));
    body.extend([16, 0, 8, 1]);
    body.extend(v1_note(2));
    let bytes = list(&[part(0, &body), part(1, &PREFIX), part(7, &[1, 2, 3])]);
    let notes = parse_v1_oob_notes(&bytes).unwrap();
    assert_eq!(notes.denominations, BTreeMap::from([(8, 2), (16, 0)]));
    assert_eq!(notes.raw_notes, tiers(&[(8, vec![v1_note(1), v1_note(2)])]));
    let all = parse_v1_tiered_multi(&body, tiers(&[(8, vec![v1_note(0)])])).unwrap();
    assert_eq!(
        all,
        tiers(&[(8, vec![v1_note(0), v1_note(1), v1_note(2)]), (16, vec![])])
    );
}

#[test]
fn v1_prefix_may_come_from_an_invite() {
    let mut invite = vec![1, 0, 3];
    invite.extend(b"url");
    invite.extend([5, 6, 7, 8]);
    invite.extend([9; 28]);
    let mut body = vec![1, 8, 1];
    body.extend(v1_note(1));
    let from_invite = list(&[part(0, &body), part(2, &invite)]);
    assert_eq!(
        parse_v1_oob_notes(&from_invite).unwrap().federation_id_prefix,
        [5, 6, 7, 8]
    );
    let known_first = list(&[part(1, &PREFIX), part(0, &body), part(2, &invite)]);
    assert_eq!(parse_v1_oob_notes(&known_first).unwrap().federation_id_prefix, PREFIX);
    let known_last = list(&[part(2, &invite), part(0, &body), part(1, &PREFIX)]);
    assert_eq!(parse_v1_oob_notes(&known_last).unwrap().federation_id_prefix, PREFIX);
    let broken = list(&[part(2, &[1]), part(0, &body)]);
    assert_eq!(message(parse_v1_oob_notes(&broken)), "No federation ID in v1 notes");
}

#[test]
fn v2_errors() {
    let short = "Read error: failed to fill whole buffer";
    assert_eq!(message(parse_v2_ecash(&[])), short);
    assert_eq!(message(parse_v2_ecash(&[0])), "Invalid v2 field count: 0");
    assert_eq!(
        message(parse_v2_ecash(&varint(100_001))),
        "Invalid v2 field count: 100001"
    );
    assert_eq!(message(parse_v2_ecash(&[1, 0])), short);
    assert_eq!(
        message(parse_v2_ecash(&[1, 0, 9, 0])),
        "Read v2 error: failed to fill whole buffer"
    );
    let mut huge = vec![1, 1];
    huge.extend(varint(10_000_001));
    assert_eq!(message(parse_v2_ecash(&huge)), "Body too large");
    assert_eq!(
        message(parse_v2_ecash(&list(&[part(0, &[1; 31]), part(1, &v2_note(1, 1))]))),
        "No federation ID in v2 ecash"
    );
    assert_eq!(
        message(parse_v2_ecash(&list(&[part(0, &[1; 32]), part(1, &[1; 80]), part(5, &[])]))),
        "No notes in v2 ecash"
    );
}

#[test]
fn what_holds_no_notes_is_described() {
    assert_eq!(
        message(parse_notes("AAAA")),
        "Parse failed: Invalid v2 field count: 0 (input_len: 4, starts: \"AAAA\", decodings: 1, \
         first_decode_len: 3, first_bytes: [00, 00, 00])"
    );
    assert_eq!(
        message(parse_notes(" fedimint 8bpo6 mtdabcdefghi ")),
        "Parse failed: Read v2 error: failed to fill whole buffer (input_len: 25, starts: \
         \"fedimint8bpo6mtdabcd\", decodings: 1, first_decode_len: 10, first_bytes: \
         [42, f3, 83, 5b, ad, 52, d8, d7, 3e, 11])"
    );
    assert_eq!(
        message(parse_notes("/////////////////////w==")),
        "Parse failed: Invalid v2 field count: 18446744073709551615 (input_len: 24, starts: \
         \"////////////////////\", decodings: 1, first_decode_len: 16, first_bytes: \
         [ff, ff, ff, ff, ff, ff, ff, ff, ff, ff, ff, ff])"
    );
    assert_eq!(message(parse_notes("")), "Could not decode ecash string");
    assert_eq!(message(parse_notes("not ecash!")), "Could not decode ecash string");
}

#[test]
fn the_start_of_the_text_ends_with_a_whole_character() {
    // The Kelvin sign becomes a plain `k` in lower case.
    let text = format!("fedimint{}", "\u{212a}".repeat(8));
    assert_eq!(
        message(parse_notes(&text)),
        format!(
            "Parse failed: {} (input_len: 32, starts: \"fedimint{}\", decodings: 1, \
             first_decode_len: 5, first_bytes: [a5, 29, 4a, 52, 94])",
            "Read v2 error: failed to fill whole buffer",
            "\u{212a}".repeat(4)
        )
    );
}

#[test]
fn the_first_decoding_that_is_a_bundle_counts() {
    let good = encode_single_note_v1_oob(&PREFIX, 8, &v1_note(1));
    let notes = parse_decodings(&vec![vec![0], good, vec![1]]).unwrap();
    assert_eq!(notes.total_msats(), 8);
    assert_eq!(message(parse_decodings(&vec![])), "");
    assert_eq!(
        message(parse_decodings(&vec![vec![0], vec![1]])),
        "Read error: failed to fill whole buffer"
    );
}

#[test]
fn federations_are_told_apart() {
    let notes = parse_v1_oob_notes(&encode_single_note_v1_oob(&PREFIX, 8, &v1_note(1))).unwrap();
    assert!(check_federation(&notes, &PREFIX));
    assert!(!check_federation(&notes, &[1, 2, 3, 5]));
    let mut id = [0u8; 32];
    id[..5].copy_from_slice(&[9, 8, 7, 6, 5]);
    assert_eq!(federation_id_to_prefix(&id), [9, 8, 7, 6]);
}

#[test]
fn split_and_combine_are_inverse() {
    let all = tiers(&[
        (1, vec![v1_note(1), v1_note(2)]),
        (4096, vec![v1_note(3)]),
    ]);
    let text = url_safe(&encode_multi_note_v1_oob(&PREFIX, &all));
    let notes = parse_notes(&text).unwrap();
    let split = split_notes_by_denomination(&notes);
    assert_eq!(split[&1].len(), 2);
    assert_eq!(split[&4096].len(), 1);
    for (d, list) in &split {
        for single in list {
            assert_eq!(parse_notes(single).unwrap().total_msats(), *d);
        }
    }
    let strings: Vec<String> = split.into_values().flatten().collect();
    assert_eq!(combine_note_strings(&strings), Ok(text.clone()));
    assert_eq!(checked_combine_note_strings(&strings), Some(Ok(text)));
}

#[test]
fn v2_notes_are_split_and_combined_too() {
    let all = tiers(&[
        (2, vec![v2_note(1, 1), v2_note(1, 2)]),
        (1024, vec![v2_note(10, 3)]),
    ]);
    let text = url_safe(&encode_multi_note_v2_ecash(&PREFIX, &all));
    let notes = parse_notes(&text).unwrap();
    assert_eq!(notes.format, NoteFormat::V2);
    let split = split_notes_by_denomination(&notes);
    let strings: Vec<String> = split.into_values().flatten().collect();
    assert_eq!(strings.len(), 3);
    assert_eq!(combine_note_strings(&strings), Ok(text));
}

#[test]
fn notes_of_several_bundles_are_read_back_together() {
    let mut strings = Vec::new();
    for (d, fill) in [(8, 1), (2, 2), (8, 3), (1, 4)] {
        strings.push(url_safe(&encode_single_note_v1_oob(&PREFIX, d, &v1_note(fill))));
    }
    let notes = parse_notes(&combine_note_strings(&strings).unwrap()).unwrap();
    assert_eq!(notes.federation_id_prefix, PREFIX);
    assert_eq!(notes.denominations, BTreeMap::from([(1, 1), (2, 1), (8, 2)]));
    assert_eq!(notes.raw_notes[&8], vec![v1_note(1), v1_note(3)]);
    let strings: Vec<String> = [(3u8, 1u8), (0, 2), (3, 3)]
        .iter()
        .map(|(e, fill)| url_safe(&encode_single_note_v2_ecash(&PREFIX, &v2_note(*e, *fill))))
        .collect();
    let notes = parse_notes(&combine_note_strings(&strings).unwrap()).unwrap();
    assert_eq!(notes.denominations, BTreeMap::from([(1, 1), (8, 2)]));
}

#[test]
fn combining_fails_as_it_should() {
    let mine = url_safe(&encode_single_note_v1_oob(&PREFIX, 8, &v1_note(1)));
    let other = url_safe(&encode_single_note_v1_oob(&[9, 9, 9, 9], 8, &v1_note(2)));
    assert_eq!(combine_note_strings(&[]), Err("No notes to combine".to_string()));
    assert_eq!(
        checked_combine_note_strings(&[]),
        Some(Err("No notes to combine".to_string()))
    );
    assert_eq!(
        combine_note_strings(&[mine.clone(), "nonsense".to_string()]),
        Err("Could not parse note for combining".to_string())
    );
    assert_eq!(
        combine_note_strings(&[mine.clone(), other]),
        Err("Mixed federation notes".to_string())
    );
    let second = url_safe(&encode_single_note_v2_ecash(&PREFIX, &v2_note(3, 1)));
    for mixed in [[mine.clone(), second.clone()], [second.clone(), mine.clone()]] {
        assert_eq!(combine_note_strings(&mixed), Err("Mixed note formats".to_string()));
        assert_eq!(
            checked_combine_note_strings(&mixed),
            Some(Err("Mixed note formats".to_string()))
        );
    }
    assert_eq!(
        combine_note_strings(&[format!(" {}", mine)]),
        Err("Could not parse note for combining".to_string())
    );
    let gathered = gather_notes(&[mine.clone(), mine]).unwrap();
    assert_eq!(gathered.notes, tiers(&[(8, vec![v1_note(1), v1_note(1)])]));
    assert!(gathered.is_writable());
}

#[test]
fn totals_that_do_not_fit_are_noticed() {
    let all = tiers(&[(u64::MAX, vec![v1_note(1), v1_note(2)])]);
    let notes = parse_v1_oob_notes(&encode_multi_note_v1_oob(&PREFIX, &all)).unwrap();
    assert_eq!(notes.checked_total_msats(), None);
}

fn invite_bytes(id: &[u8]) -> Vec<u8> {
    list(&[part(0, b"wss://example.org"), part(1, id), part(2, &[1])])
}

#[test]
fn invite_codes_in_both_forms() {
    let id: Vec<u8> = (0..32).collect();
    let want: [u8; 32] = id.clone().try_into().unwrap();
    assert_eq!(
        parse_invite_code("fedimint040i0001081g81860s40i2gb1g6gs3og2491650l2obhg68q3ce1q7gv"),
        Ok(want)
    );
    let bytes = invite_bytes(&id);
    let base32 = format!("fedimint{}", base32hex_encode(&bytes));
    assert_eq!(parse_invite_code(&base32), Ok(want));
    assert_eq!(parse_invite_code(&format!(" \n{}\t", base32.to_uppercase())), Ok(want));
    let hrp = bech32::Hrp::parse("fed").unwrap();
    let bech = bech32::encode::<bech32::Bech32m>(hrp, &bytes).unwrap();
    assert!(bech.starts_with("fed1"));
    assert_eq!(parse_invite_code(&bech), Ok(want));
    assert_eq!(parse_invite_code(&bech.to_uppercase()), Ok(want));
    let old = bech32::encode::<bech32::Bech32>(hrp, &bytes).unwrap();
    assert_eq!(parse_invite_code(&old), Ok(want));
}

#[test]
fn invite_codes_that_are_refused() {
    assert_eq!(
        parse_invite_code("lnbc1"),
        Err("Invite code must start with 'fed1' or 'fedimint'".to_string())
    );
    assert_eq!(
        parse_invite_code("fedimint!"),
        Err("Invalid base32 character: '!'".to_string())
    );
    let wrong = bech32::decode("fed1qqqqqqqqqqqqqq").unwrap_err();
    assert_eq!(
        parse_invite_code("fed1qqqqqqqqqqqqqq"),
        Err(format!("Invalid invite code: {}", wrong))
    );
    assert_eq!(
        parse_invite_bytes(&invite_bytes(&[1; 31])),
        Err("No FederationId found in invite code".to_string())
    );
    assert_eq!(
        parse_invite_bytes(&[]),
        Err("Read error: failed to fill whole buffer".to_string())
    );
    assert_eq!(
        parse_invite_bytes(&[1, 1, 9]),
        Err("Read: failed to fill whole buffer".to_string())
    );
    assert_eq!(
        parse_invite_bytes(&varint(u64::MAX)),
        Err("Read error: failed to fill whole buffer".to_string())
    );
    let mut huge = vec![1, 1];
    huge.extend(varint(u64::MAX));
    assert_eq!(
        parse_invite_bytes(&huge),
        Err("Read: failed to fill whole buffer".to_string())
    );
}

#[test]
fn federation_id_behind_the_peers() {
    let mut body = vec![2, 0, 1, b'a', 1, 2, b'b', b'c'];
    let id: Vec<u8> = (100..132).collect();
    body.extend(&id);
    assert_eq!(extract_federation_id_from_invite(&body), Ok(id.try_into().unwrap()));
    assert_eq!(
        extract_federation_id_from_invite(&[0, 1, 2]),
        Err("Read fed_id: failed to fill whole buffer".to_string())
    );
    assert_eq!(
        extract_federation_id_from_invite(&[1, 0, 9]),
        Err("Read: failed to fill whole buffer".to_string())
    );
    assert_eq!(
        extract_federation_id_from_invite(&[1]),
        Err("Read error: failed to fill whole buffer".to_string())
    );
}
