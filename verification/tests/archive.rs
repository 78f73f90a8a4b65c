//! End-to-end tests of the index-maintenance engine.

use quoth::dates::Date;
use quoth::database::Trees;
use quoth::errors::QuothError;
use quoth::quotes::Quote;

fn day(d: u64) -> Date {
    Date { year: 2020, month: 1, day: d, hour: 0, minute: 0, second: 0 }
}

fn quote(index: u64, title: &str, author: &str, tags: &str, date: Date, text: &str) -> Quote {
    Quote::new(index, title, author, tags, date, text.to_owned())
}

#[test]
fn scenario_a_single_quote() {
    let mut t = Trees::temporary().unwrap();
    let q = quote(1, "huckleberry finn", "mark twain", "humor", day(1), "All right, then.");
    assert_eq!(t.add_quote(&q).unwrap(), 1);
    assert_eq!(t.get_author_quotes("Mark Twain").unwrap(), vec![1]);
    assert_eq!(t.get_book_quotes("Huckleberry Finn").unwrap(), vec![1]);
    assert_eq!(t.get_tag_quotes("humor").unwrap(), vec![1]);
    assert_eq!(t.get_author_quotes("mark twain").unwrap(), vec![1]);
    assert_eq!(t.get_book_quotes("huckleberry FINN").unwrap(), vec![1]);
    assert!(matches!(t.get_tag_quotes("Humor"), Err(QuothError::TagNotFound { .. })));
}

#[test]
fn change_quote_rejects_bad_input() {
    let mut t = Trees::temporary().unwrap();
    t.add_quote(&quote(1, "walden", "thoreau", "nature", day(1), "one")).unwrap();
    let wrong_id = quote(9, "walden", "thoreau", "nature", day(2), "nine");
    assert!(matches!(
        t.change_quote(1, &wrong_id),
        Err(QuothError::OutOfCheeseError { .. })
    ));
    let bad_tag = Quote::new(1, "walden", "thoreau", "a;b", day(2), "x".to_owned());
    assert!(matches!(t.change_quote(1, &bad_tag), Err(QuothError::DelimiterInInput)));
    assert!(matches!(
        t.change_quote(5, &quote(5, "walden", "thoreau", "nature", day(2), "y")),
        Err(QuothError::QuoteNotFound { index: 5 })
    ));
    assert_eq!(t.get_quote(1).unwrap().quote, "one");
}

#[test]
fn scenario_b_second_quote_appends() {
    let mut t = Trees::temporary().unwrap();
    let q1 = quote(1, "huckleberry finn", "mark twain", "humor", day(1), "one");
    let q2 = quote(2, "huckleberry finn", "mark twain", "humor", day(2), "two");
    t.add_quote(&q1).unwrap();
    t.add_quote(&q2).unwrap();
    assert_eq!(t.get_author_quotes("Mark Twain").unwrap(), vec![1, 2]);
    assert_eq!(t.get_book_quotes("Huckleberry Finn").unwrap(), vec![1, 2]);
    assert_eq!(t.get_tag_quotes("humor").unwrap(), vec![1, 2]);
}

#[test]
fn scenario_c_delete_first_survivors() {
    let mut t = Trees::temporary().unwrap();
    let q1 = quote(1, "huckleberry finn", "mark twain", "humor", day(1), "one");
    let q2 = quote(2, "huckleberry finn", "mark twain", "humor", day(2), "two");
    t.add_quote(&q1).unwrap();
    t.add_quote(&q2).unwrap();
    let removed = t.delete_quote(1).unwrap();
    assert_eq!(removed.index, 1);
    assert_eq!(removed.quote, "one");
    assert_eq!(t.get_author_quotes("Mark Twain").unwrap(), vec![2]);
    assert_eq!(t.get_book_quotes("Huckleberry Finn").unwrap(), vec![2]);
    assert_eq!(t.get_tag_quotes("humor").unwrap(), vec![2]);
}

#[test]
fn scenario_d_delete_last_cascades() {
    let mut t = Trees::temporary().unwrap();
    let q1 = quote(1, "huckleberry finn", "mark twain", "humor", day(1), "one");
    let q2 = quote(2, "huckleberry finn", "mark twain", "humor", day(2), "two");
    t.add_quote(&q1).unwrap();
    t.add_quote(&q2).unwrap();
    t.delete_quote(1).unwrap();
    t.delete_quote(2).unwrap();
    assert!(matches!(
        t.get_author_quotes("Mark Twain"),
        Err(QuothError::AuthorNotFound { .. })
    ));
    assert!(matches!(
        t.get_book_quotes("Huckleberry Finn"),
        Err(QuothError::BookNotFound { .. })
    ));
    assert!(matches!(t.get_tag_quotes("humor"), Err(QuothError::TagNotFound { .. })));
    assert!(matches!(t.get_quote(1), Err(QuothError::QuoteNotFound { index: 1 })));
}

#[test]
fn scenario_e_counts_per_month() {
    let mut t = Trees::temporary().unwrap();
    let m1d1 = Date { year: 2020, month: 1, day: 5, hour: 0, minute: 0, second: 0 };
    let m1d2 = Date { year: 2020, month: 1, day: 9, hour: 0, minute: 0, second: 0 };
    let m2d1 = Date { year: 2020, month: 2, day: 3, hour: 0, minute: 0, second: 0 };
    t.add_quote(&quote(1, "book one", "a b", "t", m1d1, "x")).unwrap();
    t.add_quote(&quote(2, "book one", "a b", "t", m1d2, "y")).unwrap();
    t.add_quote(&quote(3, "book two", "c d", "t", m2d1, "z")).unwrap();
    let from = Date { year: 2020, month: 1, day: 1, hour: 0, minute: 0, second: 0 };
    let to = Date { year: 2020, month: 3, day: 1, hour: 0, minute: 0, second: 0 };
    let (qcounts, bcounts) = t.get_quote_and_book_counts_per_month(from, to).unwrap();
    let m1 = Date { year: 2020, month: 1, day: 1, hour: 0, minute: 0, second: 0 };
    let m2 = Date { year: 2020, month: 2, day: 1, hour: 0, minute: 0, second: 0 };
    assert_eq!(qcounts.len(), 2);
    assert!(qcounts.contains(&(m1, 2)));
    assert!(qcounts.contains(&(m2, 1)));
    assert_eq!(bcounts.len(), 2);
    assert!(bcounts.contains(&(m1, 1)));
    assert!(bcounts.contains(&(m2, 1)));
}

#[test]
fn book_month_last_write_wins() {
    let mut t = Trees::temporary().unwrap();
    let jan = Date { year: 2020, month: 1, day: 5, hour: 0, minute: 0, second: 0 };
    let mar = Date { year: 2020, month: 3, day: 5, hour: 0, minute: 0, second: 0 };
    t.add_quote(&quote(1, "spanner", "a b", "t", jan, "x")).unwrap();
    t.add_quote(&quote(2, "spanner", "a b", "t", mar, "y")).unwrap();
    let from = Date { year: 2020, month: 1, day: 1, hour: 0, minute: 0, second: 0 };
    let to = Date { year: 2020, month: 4, day: 1, hour: 0, minute: 0, second: 0 };
    let (_, bcounts) = t.get_quote_and_book_counts_per_month(from, to).unwrap();
    let mar_start = Date { year: 2020, month: 3, day: 1, hour: 0, minute: 0, second: 0 };
    assert_eq!(bcounts, vec![(mar_start, 1)]);
}

#[test]
fn change_quote_moves_and_sorts() {
    let mut t = Trees::temporary().unwrap();
    t.add_quote(&quote(1, "walden", "thoreau", "nature", day(1), "one")).unwrap();
    t.add_quote(&quote(2, "walden", "thoreau", "nature", day(2), "two")).unwrap();
    let changed = quote(1, "leaves of grass", "whitman", "verse", day(3), "sing");
    let old = t.change_quote(1, &changed).unwrap();
    assert_eq!(old.quote, "one");
    assert_eq!(t.get_author_quotes("Thoreau").unwrap(), vec![2]);
    assert_eq!(t.get_author_quotes("Whitman").unwrap(), vec![1]);
    assert_eq!(t.get_book_quotes("Leaves Of Grass").unwrap(), vec![1]);
    assert_eq!(t.get_tag_quotes("verse").unwrap(), vec![1]);
    assert_eq!(t.get_tag_quotes("nature").unwrap(), vec![2]);
    let fetched = t.get_quote(1).unwrap();
    assert_eq!(fetched.author, "Whitman");
    assert_eq!(fetched.quote, "sing");
}

#[test]
fn change_quote_twice_is_idempotent() {
    let mut t = Trees::temporary().unwrap();
    t.add_quote(&quote(1, "walden", "thoreau", "nature", day(1), "one")).unwrap();
    t.add_quote(&quote(2, "walden", "thoreau", "nature", day(2), "two")).unwrap();
    let changed = quote(2, "walden", "thoreau", "calm, nature", day(4), "still");
    t.change_quote(2, &changed).unwrap();
    let authors1 = t.get_author_quotes("Thoreau").unwrap();
    let books1 = t.get_book_quotes("Walden").unwrap();
    let tags1 = t.get_tag_quotes("nature").unwrap();
    let calm1 = t.get_tag_quotes("calm").unwrap();
    t.change_quote(2, &changed).unwrap();
    assert_eq!(t.get_author_quotes("Thoreau").unwrap(), authors1);
    assert_eq!(t.get_book_quotes("Walden").unwrap(), books1);
    assert_eq!(t.get_tag_quotes("nature").unwrap(), tags1);
    assert_eq!(t.get_tag_quotes("calm").unwrap(), calm1);
    assert_eq!(t.get_quote(2).unwrap().quote, "still");
}

#[test]
fn change_restores_sorted_order() {
    let mut t = Trees::temporary().unwrap();
    t.add_quote(&quote(5, "walden", "thoreau", "nature", day(1), "five")).unwrap();
    t.add_quote(&quote(2, "walden", "thoreau", "nature", day(2), "two")).unwrap();
    t.add_quote(&quote(9, "walden", "thoreau", "nature", day(3), "nine")).unwrap();
    assert_eq!(t.get_author_quotes("Thoreau").unwrap(), vec![5, 2, 9]);
    let changed = quote(2, "walden", "thoreau", "nature", day(4), "two again");
    t.change_quote(2, &changed).unwrap();
    assert_eq!(t.get_author_quotes("Thoreau").unwrap(), vec![2, 5, 9]);
    assert_eq!(t.get_book_quotes("Walden").unwrap(), vec![2, 5, 9]);
    assert_eq!(t.get_tag_quotes("nature").unwrap(), vec![2, 5, 9]);
}

#[test]
fn author_with_two_books_survives_book_deletion() {
    let mut t = Trees::temporary().unwrap();
    t.add_quote(&quote(1, "walden", "thoreau", "nature", day(1), "one")).unwrap();
    t.add_quote(&quote(2, "civil disobedience", "thoreau", "law", day(2), "two")).unwrap();
    t.delete_quote(1).unwrap();
    assert_eq!(t.get_author_quotes("Thoreau").unwrap(), vec![2]);
    assert!(matches!(t.get_book_quotes("Walden"), Err(QuothError::BookNotFound { .. })));
    assert_eq!(t.get_book_quotes("Civil Disobedience").unwrap(), vec![2]);
}

#[test]
fn duplicate_identifier_is_fatal() {
    let mut t = Trees::temporary().unwrap();
    t.add_quote(&quote(1, "walden", "thoreau", "nature", day(1), "one")).unwrap();
    let again = quote(1, "other", "someone", "t", day(2), "again");
    assert!(matches!(
        t.add_quote(&again),
        Err(QuothError::DuplicateIdentifier { index: 1 })
    ));
    assert_eq!(t.get_quote(1).unwrap().quote, "one");
}

#[test]
fn delimiter_in_key_text_is_rejected() {
    let mut t = Trees::temporary().unwrap();
    let bad_author = Quote::new(1, "walden", "a;b", "t", day(1), "x".to_owned());
    assert!(matches!(t.add_quote(&bad_author), Err(QuothError::DelimiterInInput)));
    let bad_tag = Quote::new(1, "walden", "thoreau", "a;b", day(1), "x".to_owned());
    assert!(matches!(t.add_quote(&bad_tag), Err(QuothError::DelimiterInInput)));
    assert!(matches!(t.get_quote(1), Err(QuothError::QuoteNotFound { .. })));
}

#[test]
fn counter_advances_per_add() {
    let mut t = Trees::temporary().unwrap();
    assert_eq!(t.get_quote_index().unwrap(), 0);
    t.add_quote(&quote(1, "walden", "thoreau", "nature", day(1), "one")).unwrap();
    assert_eq!(t.get_quote_index().unwrap(), 1);
    t.add_quote(&quote(2, "walden", "thoreau", "nature", day(2), "two")).unwrap();
    assert_eq!(t.get_quote_index().unwrap(), 2);
    t.increment_quote_index().unwrap();
    assert_eq!(t.get_quote_index().unwrap(), 3);
}

#[test]
fn get_quotes_and_date_range_listing() {
    let mut t = Trees::temporary().unwrap();
    t.add_quote(&quote(1, "walden", "thoreau", "nature", day(1), "one")).unwrap();
    t.add_quote(&quote(2, "walden", "thoreau", "nature", day(5), "two")).unwrap();
    t.add_quote(&quote(3, "walden", "thoreau", "nature", day(9), "three")).unwrap();
    let qs = t.get_quotes(&vec![1, 3]).unwrap();
    assert_eq!(qs.len(), 2);
    assert_eq!(qs[0].quote, "one");
    assert_eq!(qs[1].quote, "three");
    let listed = t.list_quotes_in_date_range(day(2), day(9)).unwrap();
    assert_eq!(listed.len(), 1);
    assert_eq!(listed[0].quote, "two");
}

#[test]
fn author_counts_roll_up() {
    let mut t = Trees::temporary().unwrap();
    t.add_quote(&quote(1, "walden", "thoreau", "nature", day(1), "one")).unwrap();
    t.add_quote(&quote(2, "civil disobedience", "thoreau", "law", day(2), "two")).unwrap();
    t.add_quote(&quote(3, "leaves of grass", "whitman", "verse", day(3), "three")).unwrap();
    let mut counts = t.get_author_counts().unwrap();
    counts.sort();
    assert_eq!(
        counts,
        vec![
            ("Thoreau".to_owned(), (2, 2)),
            ("Whitman".to_owned(), (1, 1)),
        ]
    );
}

#[test]
fn relocate_copies_then_clears() {
    let mut a = Trees::temporary().unwrap();
    let mut b = Trees::temporary().unwrap();
    a.add_quote(&quote(1, "walden", "thoreau", "nature", day(1), "one")).unwrap();
    a.relocate(&mut b).unwrap();
    assert_eq!(b.get_author_quotes("Thoreau").unwrap(), vec![1]);
    assert_eq!(b.get_quote(1).unwrap().quote, "one");
    assert!(matches!(a.get_quote(1), Err(QuothError::QuoteNotFound { .. })));
    assert!(matches!(
        a.get_author_quotes("Thoreau"),
        Err(QuothError::AuthorNotFound { .. })
    ));
}

#[test]
fn clear_empties_everything() {
    let mut t = Trees::temporary().unwrap();
    t.add_quote(&quote(1, "walden", "thoreau", "nature", day(1), "one")).unwrap();
    t.clear().unwrap();
    assert!(matches!(t.get_quote(1), Err(QuothError::QuoteNotFound { .. })));
    assert_eq!(t.get_quote_index().unwrap(), 0);
}

#[test]
fn filter_quotes_combinations() {
    let mut t = Trees::temporary().unwrap();
    t.add_quote(&quote(1, "walden", "thoreau", "nature", day(1), "one")).unwrap();
    t.add_quote(&quote(2, "walden", "thoreau", "calm", day(5), "two")).unwrap();
    t.add_quote(&quote(3, "leaves of grass", "whitman", "nature", day(9), "three")).unwrap();
    let qs = t.filter_quotes(Some("thoreau"), None, Some("nature"), day(1), day(28)).unwrap();
    assert_eq!(qs.len(), 1);
    assert_eq!(qs[0].index, 1);
    let qs = t.filter_quotes(None, Some("walden"), None, day(1), day(28)).unwrap();
    assert_eq!(qs.iter().map(|q| q.index).collect::<Vec<_>>(), vec![1, 2]);
    let qs = t.filter_quotes(None, None, Some("nature"), day(2), day(28)).unwrap();
    assert_eq!(qs.len(), 1);
    assert_eq!(qs[0].index, 3);
    let qs = t.filter_quotes(None, None, None, day(1), day(6)).unwrap();
    assert_eq!(qs.len(), 2);
    assert!(matches!(
        t.filter_quotes(Some("thoreau"), Some("walden"), None, day(1), day(28)),
        Err(QuothError::OutOfCheeseError { .. })
    ));
    assert!(matches!(
        t.filter_quotes(Some("nobody"), None, None, day(1), day(28)),
        Err(QuothError::AuthorNotFound { .. })
    ));
}

#[test]
fn get_quotes_reports_first_missing() {
    let mut t = Trees::temporary().unwrap();
    t.add_quote(&quote(1, "walden", "thoreau", "nature", day(1), "one")).unwrap();
    t.add_quote(&quote(3, "walden", "thoreau", "nature", day(2), "three")).unwrap();
    assert!(matches!(
        t.get_quotes(&vec![1, 2, 3]),
        Err(QuothError::QuoteNotFound { index: 2 })
    ));
    assert!(matches!(
        t.get_quotes(&vec![9]),
        Err(QuothError::QuoteNotFound { index: 9 })
    ));
    assert_eq!(t.get_quotes(&vec![3, 1]).unwrap().len(), 2);
}
