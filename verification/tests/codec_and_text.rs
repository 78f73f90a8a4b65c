//! Tests of the codec, text helpers, dates and record framing.

use quoth::codec::{
    decode_ids_str, encode_ids_string, format_u64_string, parse_u64_string,
};
use quoth::dates::{date_end, date_start, get_months, Date};
use quoth::metadata::Metadata;
use quoth::quotes::Quote;
use quoth::stats::{month_buckets, ScrollKey, Stats};
use quoth::utils::{
    camel_case_phrase, camel_case_word, insertion_sort, make_indices_string, merge_index,
    split_indices_usize, split_tags, split_values_string, u8_to_str,
};

#[test]
fn ids_round_trip() {
    let ids: Vec<u64> = vec![0, 7, 7, 42, 18446744073709551615, 3];
    let encoded = encode_ids_string(&ids);
    assert_eq!(encoded, "0;7;7;42;18446744073709551615;3");
    assert_eq!(decode_ids_str(&encoded).unwrap(), ids);
}

#[test]
fn empty_list_round_trip() {
    let ids: Vec<u64> = vec![];
    let encoded = encode_ids_string(&ids);
    assert_eq!(encoded, "");
    assert_eq!(decode_ids_str("").unwrap(), ids);
}

#[test]
fn decoding_is_strict() {
    assert!(decode_ids_str("1;x;3").is_none());
    assert!(decode_ids_str("1;;3").is_none());
    assert!(decode_ids_str(";").is_none());
    assert!(decode_ids_str("18446744073709551616").is_none());
}

#[test]
fn single_numerals() {
    assert_eq!(format_u64_string(0), "0");
    assert_eq!(format_u64_string(409), "409");
    assert_eq!(parse_u64_string("409"), Some(409));
    assert_eq!(parse_u64_string("007"), Some(7));
    assert_eq!(parse_u64_string(""), None);
    assert_eq!(parse_u64_string("4a"), None);
}

#[test]
fn byte_level_index_helpers() {
    let bytes = make_indices_string(&vec![4, 1]).unwrap();
    assert_eq!(bytes, b"4;1".to_vec());
    assert_eq!(split_indices_usize(b"4;1").unwrap(), vec![4, 1]);
    assert!(split_indices_usize(b"4;q").is_err());
    assert_eq!(
        split_values_string(b"Walden;Leaves Of Grass").unwrap(),
        vec!["Walden".to_owned(), "Leaves Of Grass".to_owned()]
    );
    assert_eq!(u8_to_str(b"raven").unwrap(), "raven");
    assert!(u8_to_str(&[0xff, 0xfe]).is_err());
}

#[test]
fn merge_index_appends_with_delimiter() {
    assert_eq!(merge_index(b"k", None, b"4"), Some(b"4".to_vec()));
    assert_eq!(merge_index(b"k", Some(b""), b"4"), Some(b"4".to_vec()));
    assert_eq!(merge_index(b"k", Some(b"1;2"), b"4"), Some(b"1;2;4".to_vec()));
}

#[test]
fn camel_casing() {
    assert_eq!(camel_case_word("caMEL"), "Camel");
    assert_eq!(camel_case_word(""), "");
    assert_eq!(camel_case_phrase("caMel case Word"), "Camel Case Word");
    assert_eq!(camel_case_phrase("  spaced   out  "), "Spaced Out");
    assert_eq!(camel_case_phrase("mark twain"), "Mark Twain");
}

#[test]
fn tag_splitting() {
    assert_eq!(split_tags(" humor , wit"), vec!["humor".to_owned(), "wit".to_owned()]);
    assert_eq!(split_tags("solo"), vec!["solo".to_owned()]);
    assert_eq!(split_tags(""), vec!["".to_owned()]);
}

#[test]
fn insertion_sort_orders() {
    let sorted = insertion_sort(&vec![5, 2, 9, 2, 1]);
    assert_eq!(sorted, vec![1, 2, 2, 5, 9]);
    let empty = insertion_sort(&vec![]);
    assert!(empty.is_empty());
}

#[test]
fn record_round_trip() {
    let date = Date { year: 1854, month: 8, day: 9, hour: 12, minute: 30, second: 5 };
    let q = Quote::new(
        41,
        "walden",
        "henry thoreau",
        "nature, simplicity",
        date,
        "Simplify, simplify.\nWith a second line; and a semicolon.".to_owned(),
    );
    let record = q.to_record();
    let back = Quote::from_record(&record).unwrap();
    assert_eq!(back.index, 41);
    assert_eq!(back.book, "Walden");
    assert_eq!(back.author, "Henry Thoreau");
    assert_eq!(back.tags, vec!["nature".to_owned(), "simplicity".to_owned()]);
    assert_eq!(back.date, date);
    assert_eq!(back.quote, "Simplify, simplify.\nWith a second line; and a semicolon.");
    let bytes = q.to_bytes();
    let back2 = Quote::from_bytes(&bytes).unwrap();
    assert_eq!(back2.quote, back.quote);
    assert!(Quote::from_record("not a record").is_none());
}

#[test]
fn date_ranges_and_tags() {
    let d = |day: u64| Date { year: 2021, month: 6, day, hour: 0, minute: 0, second: 0 };
    let q = Quote::new(1, "b", "a", "x,y", d(10), "t".to_owned());
    assert!(q.in_date_range(d(10), d(11)));
    assert!(q.in_date_range(d(1), d(11)));
    assert!(!q.in_date_range(d(1), d(10)));
    assert!(q.has_tag("x"));
    assert!(!q.has_tag("z"));
    let quotes = vec![
        Quote::new(1, "b", "a", "", d(2), "p".to_owned()),
        Quote::new(2, "b", "a", "", d(5), "q".to_owned()),
    ];
    let kept = Quote::filter_in_date_range(quotes, d(3), d(9));
    assert_eq!(kept.len(), 1);
    assert_eq!(kept[0].index, 2);
}

#[test]
fn date_defaults_and_order() {
    assert_eq!(date_start(None).year, 0);
    assert_eq!(date_end(None).year, u64::MAX);
    let d = Date { year: 2021, month: 6, day: 10, hour: 1, minute: 2, second: 3 };
    assert_eq!(date_start(Some(d)), d);
    assert_eq!(date_end(Some(d)), d);
    let later = Date { year: 2021, month: 6, day: 10, hour: 1, minute: 2, second: 4 };
    assert!(d.lt(&later));
    assert!(d.le(&d));
    assert_eq!(d.month_start(), Date { year: 2021, month: 6, day: 1, hour: 0, minute: 0, second: 0 });
}

#[test]
fn month_axis_repeats_like_the_dashboard() {
    let min = Date { year: 2020, month: 11, day: 3, hour: 0, minute: 0, second: 0 };
    let max = Date { year: 2021, month: 2, day: 7, hour: 0, minute: 0, second: 0 };
    let months = get_months(min, max);
    let ym: Vec<(u64, u64)> = months.iter().map(|m| (m.year, m.month)).collect();
    let mut expected: Vec<(u64, u64)> = vec![(2020, 11), (2020, 12)];
    for m in 1..=12 {
        expected.push((2020, m));
    }
    expected.push((2021, 1));
    expected.push((2021, 2));
    assert_eq!(ym, expected);
}

#[test]
fn month_buckets_standalone() {
    let d = |month: u64, day: u64| Date { year: 2022, month, day, hour: 0, minute: 0, second: 0 };
    let quotes = vec![
        Quote::new(1, "alpha", "a", "", d(1, 3), "x".to_owned()),
        Quote::new(2, "alpha", "a", "", d(1, 9), "y".to_owned()),
        Quote::new(3, "beta", "a", "", d(2, 4), "z".to_owned()),
    ];
    let (qcounts, bcounts) = month_buckets(&quotes);
    let m1 = d(1, 1);
    let m2 = d(2, 1);
    assert!(qcounts.contains(&(m1, 2)));
    assert!(qcounts.contains(&(m2, 1)));
    assert_eq!(qcounts.len(), 2);
    assert!(bcounts.contains(&(m1, 1)));
    assert!(bcounts.contains(&(m2, 1)));
    assert_eq!(bcounts.len(), 2);
}

#[test]
fn metadata_counters() {
    let mut m = Metadata::new();
    assert_eq!(m.get_quote_index(), 0);
    m.increment_quote_index();
    m.increment_quote_index();
    assert_eq!(m.get_quote_index(), 2);
    m.increment_quotes();
    assert_eq!(m.num_quotes, 1);
    m.decrement_quotes();
    assert_eq!(m.num_quotes, 0);
}

#[test]
fn stats_scrolling() {
    let quote_counts: Vec<(String, u64)> = (0..10).map(|i| (format!("m{}", i), i as u64)).collect();
    let book_counts = quote_counts.clone();
    let table: Vec<Vec<String>> = (0..6).map(|i| vec![format!("a{}", i)]).collect();
    let mut s = Stats::new(book_counts, quote_counts, 9, 9, 4, table, 3, Metadata::new());
    assert_eq!(s.start_index_bar, 0);
    assert_eq!(s.end_index_bar, 4);
    s.update(ScrollKey::Right);
    assert_eq!(s.start_index_bar, 1);
    assert_eq!(s.end_index_bar, 5);
    s.update(ScrollKey::Left);
    assert_eq!(s.start_index_bar, 0);
    assert_eq!(s.end_index_bar, 4);
    s.update(ScrollKey::Down);
    assert_eq!(s.start_index_table, 1);
    assert_eq!(s.end_index_table, 4);
    s.update(ScrollKey::Up);
    assert_eq!(s.start_index_table, 0);
    assert_eq!(s.end_index_table, 3);
    s.update(ScrollKey::Other);
    assert_eq!(s.start_index_bar, 0);
}

#[test]
fn tsv_form_of_a_quote() {
    let date = Date { year: 854, month: 8, day: 9, hour: 1, minute: 2, second: 3 };
    let q = Quote::new(7, "walden", "thoreau", "nature, calm", date, "Still water.".to_owned());
    let flat = quoth::quotes::TSVQuote::from(q);
    assert_eq!(flat.index, 7);
    assert_eq!(flat.book, "Walden");
    assert_eq!(flat.author, "Thoreau");
    assert_eq!(flat.tags, "nature,calm");
    assert_eq!(flat.date, "0854-08-09");
    assert_eq!(flat.quote, "Still water.");
}

#[test]
fn unicode_whitespace_separates_words() {
    assert_eq!(camel_case_phrase("mark\u{a0}twain"), "Mark Twain");
    assert_eq!(camel_case_phrase("per\u{2003}aspera"), "Per Aspera");
    assert_eq!(
        split_tags("\u{a0}humor\u{a0}, wit\u{3000}"),
        vec!["humor".to_owned(), "wit".to_owned()]
    );
}
