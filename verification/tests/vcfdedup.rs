use vcfdedup::Error;
use vcfdedup::dedup::dedup;
use vcfdedup::entry::VcardEntry;
use vcfdedup::parsing::Parser;
use vcfdedup::serialize::serialize;
use vcfdedup::vcard::Vcard;

fn parse_text(s: &str) -> Result<Vec<Vcard>, Error> {
    Parser::new(s.to_string()).parse()
}

fn lines(v: &[&str]) -> Vec<String> {
    v.iter().map(|s| s.to_string()).collect()
}

#[test]
fn empty_input_gives_no_records_and_no_output() {
    let cards = parse_text("").unwrap();
    assert_eq!(cards.len(), 0);
    let merged = dedup(cards);
    assert_eq!(merged.len(), 0);
    let out = serialize(&merged);
    assert_eq!(out.len(), 0);
}

#[test]
fn missing_version_is_a_format_error() {
    let r = parse_text("BEGIN:VCARD\nEND:VCARD");
    assert_eq!(r.err(), Some(Error::Format));
}

#[test]
fn missing_begin_is_a_format_error() {
    let r = parse_text("VERSION:3.0\nN:Doe\nEND:VCARD");
    assert_eq!(r.err(), Some(Error::Format));
}

#[test]
fn truncated_record_is_a_format_error() {
    let r = parse_text("BEGIN:VCARD\nVERSION:3.0\nN:Doe");
    assert_eq!(r.err(), Some(Error::Format));
}

#[test]
fn truncated_continuation_is_a_format_error() {
    let r = parse_text("BEGIN:VCARD\nVERSION:3.0\nN:Doe\n extra");
    assert_eq!(r.err(), Some(Error::Format));
}

#[test]
fn nested_begin_is_read_as_an_entry() {
    // A second BEGIN inside an open record is an ordinary property line for
    // the body reader, never a new record.
    let cards = parse_text("BEGIN:VCARD\nVERSION:3.0\nN:Doe\nBEGIN:VCARD\nEND:VCARD").unwrap();
    assert_eq!(cards.len(), 1);
    assert_eq!(cards[0].print(), lines(&["N:Doe", "BEGIN:VCARD"]));
}

#[test]
fn two_records_with_one_name_merge_into_one() {
    let input = "BEGIN:VCARD\nVERSION:3.0\nN:Doe\nEND:VCARD\nBEGIN:VCARD\nVERSION:3.0\nN:Doe\nTEL:123\nEND:VCARD";
    let cards = parse_text(input).unwrap();
    assert_eq!(cards.len(), 2);
    let merged = dedup(cards);
    assert_eq!(merged.len(), 1);
    let out = serialize(&merged);
    assert_eq!(out, lines(&["BEGIN:VCARD", "VERSION:3.0", "N:Doe", "TEL:123", "END:VCARD"]));
}

#[test]
fn shared_entries_appear_once_after_a_merge() {
    let input = "BEGIN:VCARD\nVERSION:3.0\nN:Doe\nTEL:123\nEND:VCARD\nBEGIN:VCARD\nVERSION:3.0\nN:Doe\nTEL:123\nADR:Here\nEND:VCARD";
    let merged = dedup(parse_text(input).unwrap());
    let out = serialize(&merged);
    assert_eq!(
        out,
        lines(&["BEGIN:VCARD", "VERSION:3.0", "N:Doe", "TEL:123", "ADR:Here", "END:VCARD"])
    );
}

#[test]
fn first_seen_version_is_kept_on_merge() {
    let input = "BEGIN:VCARD\nVERSION:2.1\nN:Doe\nEND:VCARD\nBEGIN:VCARD\nVERSION:3.0\nN:Doe\nEND:VCARD";
    let merged = dedup(parse_text(input).unwrap());
    assert_eq!(merged.len(), 1);
    assert_eq!(merged[0].version_line().as_str(), "VERSION:2.1");
}

#[test]
fn record_without_name_entry_is_dropped() {
    let input = "BEGIN:VCARD\nVERSION:3.0\nTEL:999\nEND:VCARD\nBEGIN:VCARD\nVERSION:3.0\nN:Doe\nEND:VCARD";
    let merged = dedup(parse_text(input).unwrap());
    assert_eq!(merged.len(), 1);
    let out = serialize(&merged);
    assert_eq!(out, lines(&["BEGIN:VCARD", "VERSION:3.0", "N:Doe", "END:VCARD"]));
}

#[test]
fn three_records() {
    let input = "BEGIN:VCARD\nVERSION:3.0\nN:A\nEND:VCARD\nBEGIN:VCARD\nVERSION:3.0\nADR:Nowhere\nEND:VCARD\nBEGIN:VCARD\nVERSION:3.0\nN:B\nEND:VCARD";
    let merged = dedup(parse_text(input).unwrap());
    assert_eq!(merged.len(), 2);
    let out = serialize(&merged);
    assert_eq!(
        out,
        lines(&[
            "BEGIN:VCARD",
            "VERSION:3.0",
            "N:A",
            "END:VCARD",
            "BEGIN:VCARD",
            "VERSION:3.0",
            "N:B",
            "END:VCARD",
        ])
    );
}

#[test]
fn entry_equality_is_exact_over_all_lines() {
    let mut folded = VcardEntry::new();
    folded.push("N:Smith");
    folded.push("  extra");
    assert_eq!(folded.line_count(), 2);
    assert_eq!(folded.line_at(0).as_str(), "N:Smith");
    assert_eq!(folded.line_at(1).as_str(), "  extra");
    let mut plain = VcardEntry::new();
    plain.push("N:Smith");
    assert!(folded != plain);
    let mut folded_again = VcardEntry::new();
    folded_again.push("N:Smith");
    folded_again.push("  extra");
    assert!(folded == folded_again);
}

#[test]
fn folded_entries_with_different_folding_stay_distinct() {
    // The same logical content folded differently keys two distinct groups.
    let input = "BEGIN:VCARD\nVERSION:3.0\nN:Smith\n  extra\nEND:VCARD\nBEGIN:VCARD\nVERSION:3.0\nN:Smith\nEND:VCARD";
    let merged = dedup(parse_text(input).unwrap());
    assert_eq!(merged.len(), 2);
}

#[test]
fn continuation_lines_survive_a_round_trip() {
    let input = "BEGIN:VCARD\nVERSION:3.0\nN:Doe\nADR:Line one\n line two\n\tnot a continuation";
    // Tab does not continue a line: only a leading space does. So the input
    // above is truncated (no END) and must fail.
    assert_eq!(parse_text(input).err(), Some(Error::Format));
    let good = "BEGIN:VCARD\nVERSION:3.0\nN:Doe\nADR:Line one\n line two\nEND:VCARD";
    let cards = parse_text(good).unwrap();
    let out = serialize(&cards);
    assert_eq!(
        out,
        lines(&["BEGIN:VCARD", "VERSION:3.0", "N:Doe", "ADR:Line one", " line two", "END:VCARD"])
    );
}

#[test]
fn serialized_output_parses_back_to_the_same_records() {
    let input = "BEGIN:VCARD\nVERSION:3.0\nN:A\nADR:Somewhere\n folded\nEND:VCARD\nBEGIN:VCARD\nVERSION:2.1\nN:B\nEND:VCARD";
    let cards = parse_text(input).unwrap();
    let written = serialize(&cards).join("\n");
    let reparsed = parse_text(&written).unwrap();
    assert_eq!(serialize(&reparsed), serialize(&cards));
}

#[test]
fn deduplication_is_idempotent() {
    let input = "BEGIN:VCARD\nVERSION:3.0\nN:A\nTEL:1\nEND:VCARD\nBEGIN:VCARD\nVERSION:3.0\nN:A\nTEL:2\nEND:VCARD\nBEGIN:VCARD\nVERSION:3.0\nN:B\nEND:VCARD";
    let once = dedup(parse_text(input).unwrap());
    let first = serialize(&once);
    let twice = dedup(once);
    assert_eq!(serialize(&twice), first);
}

#[test]
fn windows_line_endings_are_stripped_at_newlines() {
    let input = "BEGIN:VCARD\r\nVERSION:3.0\r\nN:Doe\r\nEND:VCARD\r\n";
    let cards = parse_text(input).unwrap();
    assert_eq!(cards.len(), 1);
    let out = serialize(&cards);
    assert_eq!(out, lines(&["BEGIN:VCARD", "VERSION:3.0", "N:Doe", "END:VCARD"]));
}

#[test]
fn get_finds_the_first_entry_with_the_prefix() {
    let mut card = Vcard::new();
    card.set_version("VERSION:3.0");
    let mut tel = VcardEntry::new();
    tel.push("TEL:123");
    card.insert(tel);
    let mut name = VcardEntry::new();
    name.push("N:Doe");
    card.insert(name.clone());
    assert!(card.get("X") .is_none());
    let found = card.get("N").unwrap();
    assert!(*found == name);
}

#[test]
fn note_entries_also_match_the_name_prefix() {
    // The merge key is any entry whose property line starts with `N`, so a
    // NOTE entry can serve as one: a record holding only NOTE is kept.
    let input = "BEGIN:VCARD\nVERSION:3.0\nNOTE:hello\nEND:VCARD";
    let merged = dedup(parse_text(input).unwrap());
    assert_eq!(merged.len(), 1);
}

#[test]
fn duplicate_entry_in_one_record_is_stored_once() {
    let input = "BEGIN:VCARD\nVERSION:3.0\nN:Doe\nTEL:1\nTEL:1\nEND:VCARD";
    let cards = parse_text(input).unwrap();
    assert_eq!(cards[0].print(), lines(&["N:Doe", "TEL:1"]));
}

#[test]
fn record_version_line_is_stored_verbatim() {
    let cards = parse_text("BEGIN:VCARD\nVERSION:4.0 draft\nN:Doe\nEND:VCARD").unwrap();
    assert_eq!(cards[0].version_line().as_str(), "VERSION:4.0 draft");
}
