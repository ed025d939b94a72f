use stagefold::parse::{parse_map_block, parse_seeds, ParseError};
use stagefold::text::{chars_of, parse_number, separates, split_words};

fn lines(text: &str) -> Vec<String> {
    text.lines().map(|l| l.to_string()).collect()
}

#[test]
fn parse_seeds_reads_pairs() {
    assert_eq!(parse_seeds("seeds: 79 14 55 13\n"), Ok(vec![(79, 14), (55, 13)]));
}

#[test]
fn parse_seeds_without_numbers_is_empty() {
    assert_eq!(parse_seeds("seeds:"), Ok(vec![]));
}

#[test]
fn parse_seeds_wants_the_marker() {
    assert_eq!(parse_seeds(""), Err(ParseError::NoSeedsMarker));
    assert_eq!(parse_seeds("seed: 1 2"), Err(ParseError::NoSeedsMarker));
    assert_eq!(parse_seeds("seeds:1 2"), Err(ParseError::NoSeedsMarker));
}

#[test]
fn parse_seeds_names_the_first_bad_word() {
    assert_eq!(parse_seeds("seeds: 1 2 x 4 y"), Err(ParseError::BadSeed(3)));
    assert_eq!(parse_seeds("seeds: -1 2"), Err(ParseError::BadSeed(1)));
    assert_eq!(parse_seeds("seeds: 1 18446744073709551616"), Err(ParseError::BadSeed(2)));
}

#[test]
fn parse_seeds_wants_whole_pairs() {
    assert_eq!(parse_seeds("seeds: 1 2 3"), Err(ParseError::HalfSeed));
}

#[test]
fn parse_number_reads_digits_and_a_plus() {
    let line = chars_of("+5 18446744073709551615 007 + 1a");
    let found = split_words(&line);
    let read: Vec<Option<u64>> = found.iter().map(|w| parse_number(&line, w.0, w.1)).collect();
    assert_eq!(read, vec![Some(5), Some(u64::MAX), Some(7), None, None]);
}

#[test]
fn split_words_skips_separators() {
    let line = chars_of("  ab\tc \r\n");
    assert_eq!(split_words(&line), vec![(2, 4), (5, 6)]);
    assert_eq!(split_words(&chars_of("")), vec![]);
}

#[test]
fn parse_map_block_reads_a_block() {
    let text = lines("seed-to-soil map:\n50 98 2\n52 50 48\n\nsoil-to-fertilizer map:\n0 15 37\n");
    let (stage, next) = parse_map_block(&text, 0).unwrap().unwrap();
    assert_eq!(stage.from, "seed");
    assert_eq!(stage.to, "soil");
    assert_eq!(stage.mappings, vec![(50, 98, 2), (52, 50, 48)]);
    assert_eq!(next, 4);
    let (stage, next) = parse_map_block(&text, next).unwrap().unwrap();
    assert_eq!(stage.from, "soil");
    assert_eq!(stage.to, "fertilizer");
    assert_eq!(stage.mappings, vec![(0, 15, 37)]);
    assert_eq!(next, 6);
    assert!(parse_map_block(&text, next).unwrap().is_none());
}

#[test]
fn parse_map_block_stops_at_a_line_without_words() {
    let text = lines("a-to-b map:\n1 2 3\n   \n4 5 6\n");
    assert!(parse_map_block(&text, 2).unwrap().is_none());
    let (stage, next) = parse_map_block(&text, 0).unwrap().unwrap();
    assert_eq!(stage.mappings, vec![(1, 2, 3)]);
    assert_eq!(next, 3);
}

#[test]
fn parse_map_block_takes_the_name_up_to_the_next_separator() {
    let text = lines("a-to-b-to-c\n1 2 3 ignored");
    let (stage, next) = parse_map_block(&text, 0).unwrap().unwrap();
    assert_eq!(stage.from, "a");
    assert_eq!(stage.to, "b");
    assert_eq!(stage.mappings, vec![(1, 2, 3)]);
    assert_eq!(next, 2);
}

#[test]
fn parse_map_block_rejects_a_bad_header() {
    let text = lines("seed-soil map:\n1 2 3\n");
    assert_eq!(parse_map_block(&text, 0).err(), Some(ParseError::BadHeader(0)));
}

#[test]
fn parse_map_block_rejects_a_bad_row() {
    let text = lines("a-to-b map:\n1 2 3\n4 5\n");
    assert_eq!(parse_map_block(&text, 0).err(), Some(ParseError::BadRow(2)));
    let text = lines("a-to-b map:\n1 x 3\n");
    assert_eq!(parse_map_block(&text, 0).err(), Some(ParseError::BadRow(1)));
}

#[test]
fn separates_knows_every_white_space_character() {
    let mut found = 0;
    for code in 0..=0x10FFFFu32 {
        if let Some(c) = char::from_u32(code) {
            assert_eq!(separates(c), c.is_whitespace(), "U+{:04X}", code);
            if separates(c) {
                found += 1;
            }
        }
    }
    assert_eq!(found, 25);
}

#[test]
fn split_words_splits_at_any_white_space() {
    let line = chars_of("a\u{B}b\u{C}c\u{85}d\u{A0}e\u{1680}f\u{2003}g\u{2028}h\u{2029}i\u{202F}j\u{205F}k\u{3000}l");
    let found = split_words(&line);
    assert_eq!(found.len(), 12);
    for (k, w) in found.iter().enumerate() {
        assert_eq!(*w, (2 * k, 2 * k + 1));
    }
    // what only looks like a blank is part of a word
    assert_eq!(split_words(&chars_of("a\u{200B}b\u{FEFF}c")), vec![(0, 5)]);
}

#[test]
fn parse_seeds_after_a_form_feed_reads_no_pairs() {
    assert_eq!(parse_seeds("seeds:\u{C}"), Ok(vec![]));
    assert_eq!(parse_seeds("\u{3000}seeds:\u{C}79\u{A0}14\u{B}"), Ok(vec![(79, 14)]));
}

#[test]
fn parse_map_block_takes_a_form_feed_for_the_end_of_the_blocks() {
    let text = vec!["\u{C}".to_string(), "a-to-b map:".to_string()];
    assert!(parse_map_block(&text, 0).unwrap().is_none());
}

#[test]
fn parse_map_block_ends_a_block_at_a_form_feed() {
    let text = vec!["a-to-b map:".to_string(), "1 2 3".to_string(), "\u{C}".to_string(), "4 5 6".to_string()];
    let (stage, next) = parse_map_block(&text, 0).unwrap().unwrap();
    assert_eq!(stage.mappings, vec![(1, 2, 3)]);
    assert_eq!(next, 3);
}

#[test]
fn parse_map_block_splits_rows_and_header_at_any_white_space() {
    let text = vec!["\u{2003}a-to-b\u{C}map:".to_string(), "1\u{85}2\u{2009}3\u{C}".to_string()];
    let (stage, next) = parse_map_block(&text, 0).unwrap().unwrap();
    assert_eq!(stage.from, "a");
    assert_eq!(stage.to, "b");
    assert_eq!(stage.mappings, vec![(1, 2, 3)]);
    assert_eq!(next, 2);
}
