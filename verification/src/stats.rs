//! The aggregation layer: date-bucketed counts and the dashboard's scroll
//! state.

use vstd::prelude::*;

use crate::dates::Date;
use crate::metadata::Metadata;
use crate::quotes::{Quote, QuoteV};

verus! {

/// An input event for the dashboard: a key, or a timer tick.
pub enum Event<I> {
    Input(I),
    Tick,
}

// ------------------------------------------------------------------
// Month bucketing
// ------------------------------------------------------------------

/// How many of the quotes fall in the month starting at `m`.
pub open spec fn count_month_v(qs: Seq<QuoteV>, m: Date) -> nat
    decreases qs.len(),
{
    if qs.len() == 0 {
        0
    } else {
        count_month_v(qs.drop_last(), m) + if qs.last().date.month_start_spec() == m {
            1nat
        } else {
            0nat
        }
    }
}

/// The association with the entry for `k` replaced in place by `(k, d)`, or
/// appended when `k` is absent.
pub open spec fn upsert_book(assoc: Seq<(Seq<char>, Date)>, k: Seq<char>, d: Date) -> Seq<
    (Seq<char>, Date),
>
    decreases assoc.len(),
{
    if assoc.len() == 0 {
        seq![(k, d)]
    } else if assoc[0].0 == k {
        seq![(k, d)] + assoc.drop_first()
    } else {
        seq![assoc[0]] + upsert_book(assoc.drop_first(), k, d)
    }
}

/// Each book seen in the quotes, with the month of its last quote; built by
/// walking the quotes in order and overwriting each book's month.
pub open spec fn book_months_v(qs: Seq<QuoteV>) -> Seq<(Seq<char>, Date)>
    decreases qs.len(),
{
    if qs.len() == 0 {
        Seq::empty()
    } else {
        upsert_book(book_months_v(qs.drop_last()), qs.last().book, qs.last().date.month_start_spec())
    }
}

/// How many association entries carry the month `m`.
pub open spec fn count_assoc_month(assoc: Seq<(Seq<char>, Date)>, m: Date) -> nat
    decreases assoc.len(),
{
    if assoc.len() == 0 {
        0
    } else {
        count_assoc_month(assoc.drop_last(), m) + if assoc.last().1 == m {
            1nat
        } else {
            0nat
        }
    }
}

/// True when some entry lists the month `m`.
pub open spec fn has_month(counts: Seq<(Date, u64)>, m: Date) -> bool {
    exists|a: int| 0 <= a < counts.len() && (#[trigger] counts[a].0) == m
}

/// True when every month occurring among the quotes has an entry.
pub open spec fn months_covered(qs: Seq<QuoteV>, counts: Seq<(Date, u64)>) -> bool {
    forall|j: int|
        0 <= j < qs.len() ==> has_month(counts, (#[trigger] qs[j].date.month_start_spec()))
}

/// True when every month occurring in the association has an entry.
pub open spec fn assoc_months_covered(
    assoc: Seq<(Seq<char>, Date)>,
    counts: Seq<(Date, u64)>,
) -> bool {
    forall|j: int| 0 <= j < assoc.len() ==> has_month(counts, (#[trigger] assoc[j].1))
}

/// What the month buckets of a quote list are: for the quote counts, one
/// entry per occurring month holding exactly the number of quotes in it; for
/// the book counts, one entry per month holding the number of books whose
/// last quote falls in it.
pub open spec fn month_bucket_ensures(
    qs: Seq<QuoteV>,
    qcounts: Seq<(Date, u64)>,
    bcounts: Seq<(Date, u64)>,
) -> bool {
    &&& forall|i: int, j: int| 0 <= i < j < qcounts.len() ==> qcounts[i].0 != qcounts[j].0
    &&& forall|i: int|
        0 <= i < qcounts.len() ==> (#[trigger] qcounts[i].1 as nat) == count_month_v(
            qs,
            qcounts[i].0,
        ) && qcounts[i].1 > 0
    &&& months_covered(qs, qcounts)
    &&& forall|i: int, j: int| 0 <= i < j < bcounts.len() ==> bcounts[i].0 != bcounts[j].0
    &&& forall|i: int|
        0 <= i < bcounts.len() ==> (#[trigger] bcounts[i].1 as nat) == count_assoc_month(
            book_months_v(qs),
            bcounts[i].0,
        ) && bcounts[i].1 > 0
    &&& assoc_months_covered(book_months_v(qs), bcounts)
}

/// A month's count never exceeds the number of quotes.
proof fn lemma_count_month_le(qs: Seq<QuoteV>, m: Date)
    ensures
        count_month_v(qs, m) <= qs.len(),
    decreases qs.len(),
{
    if qs.len() > 0 {
        lemma_count_month_le(qs.drop_last(), m);
    }
}

/// A month's association count never exceeds the association's length.
proof fn lemma_count_assoc_le(assoc: Seq<(Seq<char>, Date)>, m: Date)
    ensures
        count_assoc_month(assoc, m) <= assoc.len(),
    decreases assoc.len(),
{
    if assoc.len() > 0 {
        lemma_count_assoc_le(assoc.drop_last(), m);
    }
}

/// A positive month count has a witness among the quotes.
proof fn lemma_count_month_pos(qs: Seq<QuoteV>, m: Date)
    requires
        count_month_v(qs, m) > 0,
    ensures
        exists|j: int| 0 <= j < qs.len() && (#[trigger] qs[j].date.month_start_spec()) == m,
    decreases qs.len(),
{
    if qs.last().date.month_start_spec() == m {
        assert(qs[qs.len() - 1].date.month_start_spec() == m);
    } else {
        lemma_count_month_pos(qs.drop_last(), m);
        let j = choose|j: int|
            0 <= j < qs.drop_last().len() && (#[trigger] qs.drop_last()[j].date.month_start_spec())
                == m;
        assert(qs[j].date.month_start_spec() == m);
    }
}

/// A positive association month count has a witness among the entries.
proof fn lemma_count_assoc_pos(assoc: Seq<(Seq<char>, Date)>, m: Date)
    requires
        count_assoc_month(assoc, m) > 0,
    ensures
        exists|j: int| 0 <= j < assoc.len() && (#[trigger] assoc[j].1) == m,
    decreases assoc.len(),
{
    if assoc.last().1 == m {
        assert(assoc[assoc.len() - 1].1 == m);
    } else {
        lemma_count_assoc_pos(assoc.drop_last(), m);
        let j = choose|j: int| 0 <= j < assoc.drop_last().len() && (#[trigger] assoc.drop_last()[j].1) == m;
        assert(assoc[j].1 == m);
    }
}

/// Replacing the first occurrence of `k` is a pointwise update.
proof fn lemma_upsert_present(assoc: Seq<(Seq<char>, Date)>, p: int, k: Seq<char>, d: Date)
    requires
        0 <= p < assoc.len(),
        assoc[p].0 == k,
        forall|j: int| 0 <= j < p ==> #[trigger] assoc[j].0 != k,
    ensures
        upsert_book(assoc, k, d) =~= assoc.update(p, (k, d)),
    decreases p,
{
    if p == 0 {
        assert(seq![(k, d)] + assoc.drop_first() =~= assoc.update(0, (k, d)));
    } else {
        assert(assoc[0].0 != k);
        assert forall|j: int| 0 <= j < p - 1 implies #[trigger] assoc.drop_first()[j].0 != k by {
            assert(assoc.drop_first()[j] == assoc[j + 1]);
        }
        assert(assoc.drop_first()[p - 1] == assoc[p]);
        lemma_upsert_present(assoc.drop_first(), p - 1, k, d);
        assert(assoc.drop_first().update(p - 1, (k, d)) =~= assoc.update(p, (k, d)).drop_first());
        assert(seq![assoc[0]] + assoc.update(p, (k, d)).drop_first() =~= assoc.update(p, (k, d)));
    }
}

/// Upserting an absent key appends it.
proof fn lemma_upsert_absent(assoc: Seq<(Seq<char>, Date)>, k: Seq<char>, d: Date)
    requires
        forall|j: int| 0 <= j < assoc.len() ==> #[trigger] assoc[j].0 != k,
    ensures
        upsert_book(assoc, k, d) =~= assoc.push((k, d)),
    decreases assoc.len(),
{
    if assoc.len() == 0 {
        assert(seq![(k, d)] =~= assoc.push((k, d)));
    } else {
        assert forall|j: int| 0 <= j < assoc.drop_first().len() implies #[trigger] assoc.drop_first()[j].0
            != k by {
            assert(assoc.drop_first()[j] == assoc[j + 1]);
        }
        lemma_upsert_absent(assoc.drop_first(), k, d);
        assert(seq![assoc[0]] + assoc.drop_first().push((k, d)) =~= assoc.push((k, d)));
    }
}

/// Counts the quotes of each occurring month.
fn bucket_quote_months(quotes: &Vec<Quote>) -> (r: Vec<(Date, u64)>)
    ensures
        forall|i: int, j: int| 0 <= i < j < r@.len() ==> r@[i].0 != r@[j].0,
        forall|i: int|
            0 <= i < r@.len() ==> (#[trigger] r@[i].1 as nat) == count_month_v(
                quotes.deep_view(),
                r@[i].0,
            ) && r@[i].1 > 0,
        months_covered(quotes.deep_view(), r@),
{
    let ghost qs = quotes.deep_view();
    let mut counts: Vec<(Date, u64)> = Vec::new();
    let n = quotes.len();
    let mut i: usize = 0;
    proof {
        assert(qs.take(0) =~= Seq::<QuoteV>::empty());
    }
    while i < n
        invariant
            i <= n == quotes@.len(),
            qs == quotes.deep_view(),
            forall|a: int, b: int| 0 <= a < b < counts@.len() ==> counts@[a].0 != counts@[b].0,
            forall|a: int|
                0 <= a < counts@.len() ==> (#[trigger] counts@[a].1 as nat) == count_month_v(
                    qs.take(i as int),
                    counts@[a].0,
                ) && counts@[a].1 > 0,
            forall|j: int|
                0 <= j < i ==> exists|a: int|
                    0 <= a < counts@.len() && counts@[a].0 == (
                    #[trigger] qs[j].date.month_start_spec()),
        decreases n - i,
    {
        let m = quotes[i].date.month_start();
        proof {
            assert(qs[i as int] == quotes@[i as int]@);
            assert(qs.take(i + 1).drop_last() =~= qs.take(i as int));
            assert(qs.take(i + 1).last() == qs[i as int]);
            lemma_count_month_le(qs.take(i as int), m);
        }
        let mut found = false;
        let mut p: usize = 0;
        let cn = counts.len();
        while !found && p < cn
            invariant
                p <= cn == counts@.len(),
                forall|a: int| 0 <= a < p ==> (#[trigger] counts@[a].0) != m,
                found ==> p < cn && counts@[p as int].0 == m,
            decreases cn - p + (if found {
                0int
            } else {
                1int
            }),
        {
            if counts[p].0 == m {
                found = true;
            } else {
                p += 1;
            }
        }
        let ghost before = counts@;
        if found {
            let c = counts[p].1;
            assert(c as nat == count_month_v(qs.take(i as int), m));
            counts[p] = (m, c + 1);
        } else {
            counts.push((m, 1));
            proof {
                if count_month_v(qs.take(i as int), m) > 0 {
                    lemma_count_month_pos(qs.take(i as int), m);
                    let j = choose|j: int|
                        0 <= j < qs.take(i as int).len() && (#[trigger] qs.take(
                            i as int,
                        )[j].date.month_start_spec()) == m;
                    assert(qs[j].date.month_start_spec() == m);
                    assert(false);
                }
            }
        }
        proof {
            let t1 = qs.take(i + 1);
            assert(count_month_v(t1, m) == count_month_v(qs.take(i as int), m) + 1);
            assert forall|a: int| 0 <= a < counts@.len() implies (#[trigger] counts@[a].1 as nat)
                == count_month_v(qs.take(i + 1), counts@[a].0) && counts@[a].1 > 0 by {
                if found && a == p {
                    assert(counts@[a].0 == m);
                } else if !found && a == counts@.len() - 1 {
                    assert(counts@[a] == (m, 1u64));
                } else {
                    assert(counts@[a] == before[a]);
                    assert(counts@[a].0 != m);
                    assert(count_month_v(t1, counts@[a].0) == count_month_v(
                        qs.take(i as int),
                        counts@[a].0,
                    ));
                }
            }
            assert forall|j: int| 0 <= j < i + 1 implies exists|a: int|
                0 <= a < counts@.len() && counts@[a].0 == (
                #[trigger] qs[j].date.month_start_spec()) by {
                if j < i {
                    let a = choose|a: int|
                        0 <= a < before.len() && before[a].0 == qs[j].date.month_start_spec();
                    assert(counts@[a].0 == qs[j].date.month_start_spec());
                } else {
                    if found {
                        assert(counts@[p as int].0 == m);
                    } else {
                        assert(counts@[counts@.len() - 1].0 == m);
                    }
                }
            }
            assert forall|a: int, b: int| 0 <= a < b < counts@.len() implies counts@[a].0
                != counts@[b].0 by {
                if found {
                    assert(counts@[a].0 == before[a].0);
                    assert(counts@[b].0 == before[b].0);
                } else {
                    if b < counts@.len() - 1 {
                        assert(counts@[a].0 == before[a].0);
                        assert(counts@[b].0 == before[b].0);
                    } else {
                        assert(counts@[a].0 == before[a].0);
                        assert(counts@[b].0 == m);
                    }
                }
            }
        }
        i += 1;
    }
    proof {
        assert(qs.take(n as int) =~= qs);
        assert(months_covered(quotes.deep_view(), counts@)) by {
            assert forall|j: int| 0 <= j < qs.len() implies has_month(
                counts@,
                (#[trigger] qs[j].date.month_start_spec()),
            ) by {
                assert(qs.len() == quotes@.len());
                assert(0 <= j < i);
                let a = choose|a: int|
                    0 <= a < counts@.len() && counts@[a].0 == qs[j].date.month_start_spec();
                assert((counts@[a].0) == qs[j].date.month_start_spec());
            }
        }
    }
    counts
}

/// The last-seen month of each book over the quotes, in first-seen order.
fn book_month_table(quotes: &Vec<Quote>) -> (r: Vec<(String, Date)>)
    ensures
        r.deep_view() == book_months_v(quotes.deep_view()),
        forall|a: int, b: int|
            0 <= a < b < r.deep_view().len() ==> r.deep_view()[a].0 != r.deep_view()[b].0,
{
    let ghost qs = quotes.deep_view();
    let mut assoc: Vec<(String, Date)> = Vec::new();
    let n = quotes.len();
    let mut i: usize = 0;
    proof {
        assert(qs.take(0) =~= Seq::<QuoteV>::empty());
        assert(assoc.deep_view() =~= book_months_v(qs.take(0)));
    }
    while i < n
        invariant
            i <= n == quotes@.len(),
            qs == quotes.deep_view(),
            assoc.deep_view() == book_months_v(qs.take(i as int)),
            forall|a: int, b: int|
                0 <= a < b < assoc.deep_view().len() ==> assoc.deep_view()[a].0
                    != assoc.deep_view()[b].0,
        decreases n - i,
    {
        let m = quotes[i].date.month_start();
        let ghost before = assoc.deep_view();
        proof {
            assert(qs[i as int] == quotes@[i as int]@);
            assert(qs.take(i + 1).drop_last() =~= qs.take(i as int));
            assert(qs.take(i + 1).last() == qs[i as int]);
        }
        let mut found = false;
        let mut p: usize = 0;
        let cn = assoc.len();
        while !found && p < cn
            invariant
                p <= cn == assoc@.len(),
                before == assoc.deep_view(),
                forall|a: int| 0 <= a < p ==> (#[trigger] assoc.deep_view()[a].0) != quotes@[
                    i as int
                ]@.book,
                found ==> p < cn && assoc.deep_view()[p as int].0 == quotes@[i as int]@.book,
                i < quotes@.len(),
            decreases cn - p + (if found {
                0int
            } else {
                1int
            }),
        {
            if assoc[p].0.eq(&quotes[i].book) {
                proof {
                    assert(assoc.deep_view()[p as int].0 == assoc@[p as int].0@);
                }
                found = true;
            } else {
                proof {
                    assert(assoc.deep_view()[p as int].0 == assoc@[p as int].0@);
                }
                p += 1;
            }
        }
        if found {
            let book = quotes[i].book.clone();
            assoc[p] = (book, m);
            proof {
                lemma_upsert_present(before, p as int, qs[i as int].book, m);
                assert(assoc.deep_view() =~~= before.update(
                    p as int,
                    (qs[i as int].book, m),
                ));
            }
        } else {
            let book = quotes[i].book.clone();
            assoc.push((book, m));
            proof {
                lemma_upsert_absent(before, qs[i as int].book, m);
                assert(assoc.deep_view() =~~= before.push((qs[i as int].book, m)));
            }
        }
        proof {
            assert(assoc.deep_view() =~~= book_months_v(qs.take(i + 1)));
            assert forall|a: int, b: int|
                0 <= a < b < assoc.deep_view().len() implies assoc.deep_view()[a].0
                != assoc.deep_view()[b].0 by {}
        }
        i += 1;
    }
    proof {
        assert(qs.take(n as int) =~= qs);
    }
    assoc
}

/// Counts the association entries of each occurring month.
fn bucket_assoc_months(assoc: &Vec<(String, Date)>) -> (r: Vec<(Date, u64)>)
    ensures
        forall|i: int, j: int| 0 <= i < j < r@.len() ==> r@[i].0 != r@[j].0,
        forall|i: int|
            0 <= i < r@.len() ==> (#[trigger] r@[i].1 as nat) == count_assoc_month(
                assoc.deep_view(),
                r@[i].0,
            ) && r@[i].1 > 0,
        assoc_months_covered(assoc.deep_view(), r@),
{
    let ghost av = assoc.deep_view();
    let mut counts: Vec<(Date, u64)> = Vec::new();
    let n = assoc.len();
    let mut i: usize = 0;
    proof {
        assert(av.take(0) =~= Seq::<(Seq<char>, Date)>::empty());
    }
    while i < n
        invariant
            i <= n == assoc@.len(),
            av == assoc.deep_view(),
            forall|a: int, b: int| 0 <= a < b < counts@.len() ==> counts@[a].0 != counts@[b].0,
            forall|a: int|
                0 <= a < counts@.len() ==> (#[trigger] counts@[a].1 as nat) == count_assoc_month(
                    av.take(i as int),
                    counts@[a].0,
                ) && counts@[a].1 > 0,
            forall|j: int|
                0 <= j < i ==> exists|a: int|
                    0 <= a < counts@.len() && counts@[a].0 == (#[trigger] av[j].1),
        decreases n - i,
    {
        let m = assoc[i].1;
        proof {
            assert(av[i as int] == (assoc@[i as int].0@, assoc@[i as int].1));
            assert(av.take(i + 1).drop_last() =~= av.take(i as int));
            assert(av.take(i + 1).last() == av[i as int]);
            lemma_count_assoc_le(av.take(i as int), m);
        }
        let mut found = false;
        let mut p: usize = 0;
        let cn = counts.len();
        while !found && p < cn
            invariant
                p <= cn == counts@.len(),
                forall|a: int| 0 <= a < p ==> (#[trigger] counts@[a].0) != m,
                found ==> p < cn && counts@[p as int].0 == m,
            decreases cn - p + (if found {
                0int
            } else {
                1int
            }),
        {
            if counts[p].0 == m {
                found = true;
            } else {
                p += 1;
            }
        }
        let ghost before = counts@;
        if found {
            let c = counts[p].1;
            assert(c as nat == count_assoc_month(av.take(i as int), m));
            counts[p] = (m, c + 1);
        } else {
            counts.push((m, 1));
            proof {
                if count_assoc_month(av.take(i as int), m) > 0 {
                    lemma_count_assoc_pos(av.take(i as int), m);
                    let j = choose|j: int|
                        0 <= j < av.take(i as int).len() && (#[trigger] av.take(i as int)[j].1)
                            == m;
                    assert(av[j].1 == m);
                    assert(false);
                }
            }
        }
        proof {
            let t1 = av.take(i + 1);
            assert(count_assoc_month(t1, m) == count_assoc_month(av.take(i as int), m) + 1);
            assert forall|a: int| 0 <= a < counts@.len() implies (#[trigger] counts@[a].1 as nat)
                == count_assoc_month(av.take(i + 1), counts@[a].0) && counts@[a].1 > 0 by {
                if found && a == p {
                    assert(counts@[a].0 == m);
                } else if !found && a == counts@.len() - 1 {
                    assert(counts@[a] == (m, 1u64));
                } else {
                    assert(counts@[a] == before[a]);
                    assert(counts@[a].0 != m);
                    assert(count_assoc_month(t1, counts@[a].0) == count_assoc_month(
                        av.take(i as int),
                        counts@[a].0,
                    ));
                }
            }
            assert forall|j: int| 0 <= j < i + 1 implies exists|a: int|
                0 <= a < counts@.len() && counts@[a].0 == (#[trigger] av[j].1) by {
                if j < i {
                    let a = choose|a: int| 0 <= a < before.len() && before[a].0 == av[j].1;
                    assert(counts@[a].0 == av[j].1);
                } else {
                    if found {
                        assert(counts@[p as int].0 == m);
                    } else {
                        assert(counts@[counts@.len() - 1].0 == m);
                    }
                }
            }
            assert forall|a: int, b: int| 0 <= a < b < counts@.len() implies counts@[a].0
                != counts@[b].0 by {
                if found {
                    assert(counts@[a].0 == before[a].0);
                    assert(counts@[b].0 == before[b].0);
                } else {
                    if b < counts@.len() - 1 {
                        assert(counts@[a].0 == before[a].0);
                        assert(counts@[b].0 == before[b].0);
                    } else {
                        assert(counts@[a].0 == before[a].0);
                        assert(counts@[b].0 == m);
                    }
                }
            }
        }
        i += 1;
    }
    proof {
        assert(av.take(n as int) =~= av);
        assert(assoc_months_covered(assoc.deep_view(), counts@)) by {
            assert forall|j: int| 0 <= j < av.len() implies has_month(
                counts@,
                (#[trigger] av[j].1),
            ) by {
                assert(av.len() == assoc@.len());
                assert(0 <= j < i);
                let a = choose|a: int| 0 <= a < counts@.len() && counts@[a].0 == av[j].1;
                assert((counts@[a].0) == av[j].1);
            }
        }
    }
    counts
}

/// Buckets a quote list by month: how many quotes fall in each month, and
/// how many books have their last quote in each month.
pub fn month_buckets(quotes: &Vec<Quote>) -> (r: (Vec<(Date, u64)>, Vec<(Date, u64)>))
    ensures
        month_bucket_ensures(quotes.deep_view(), r.0@, r.1@),
{
    let qcounts = bucket_quote_months(quotes);
    let table = book_month_table(quotes);
    let bcounts = bucket_assoc_months(&table);
    (qcounts, bcounts)
}

// ------------------------------------------------------------------
// Bucket totals: the counts partition their inputs
// ------------------------------------------------------------------

/// How many of the dates equal `m`.
pub open spec fn count_date(ds: Seq<Date>, m: Date) -> nat
    decreases ds.len(),
{
    if ds.len() == 0 {
        0
    } else {
        (if ds[0] == m {
            1nat
        } else {
            0nat
        }) + count_date(ds.drop_first(), m)
    }
}

/// The sum of the listed counts.
pub open spec fn counts_total(counts: Seq<(Date, u64)>) -> nat
    decreases counts.len(),
{
    if counts.len() == 0 {
        0
    } else {
        counts[0].1 as nat + counts_total(counts.drop_first())
    }
}

/// The dates with every occurrence of `m` removed.
pub open spec fn without_date(ds: Seq<Date>, m: Date) -> Seq<Date>
    decreases ds.len(),
{
    if ds.len() == 0 {
        Seq::empty()
    } else if ds[0] == m {
        without_date(ds.drop_first(), m)
    } else {
        seq![ds[0]] + without_date(ds.drop_first(), m)
    }
}

/// Appending one date extends its count by one and no other.
proof fn lemma_count_date_push(ds: Seq<Date>, d: Date, m: Date)
    ensures
        count_date(ds.push(d), m) == count_date(ds, m) + (if d == m {
            1nat
        } else {
            0nat
        }),
    decreases ds.len(),
{
    let p = ds.push(d);
    assert(p.len() == ds.len() + 1);
    if ds.len() == 0 {
        assert(p[0] == d);
        assert(p.drop_first() =~= Seq::<Date>::empty());
        assert(count_date(p.drop_first(), m) == 0);
        assert(count_date(ds, m) == 0);
    } else {
        assert(p[0] == ds[0]);
        assert(p.drop_first() =~= ds.drop_first().push(d));
        lemma_count_date_push(ds.drop_first(), d, m);
        assert(count_date(p.drop_first(), m) == count_date(ds.drop_first().push(d), m));
    }
}

/// Removing one month's dates takes exactly its count out of the length.
proof fn lemma_without_date_len(ds: Seq<Date>, m: Date)
    ensures
        without_date(ds, m).len() + count_date(ds, m) == ds.len(),
    decreases ds.len(),
{
    if ds.len() > 0 {
        lemma_without_date_len(ds.drop_first(), m);
    }
}

/// Removing one month's dates leaves the other months' counts alone.
proof fn lemma_without_date_count(ds: Seq<Date>, m: Date, m2: Date)
    requires
        m2 != m,
    ensures
        count_date(without_date(ds, m), m2) == count_date(ds, m2),
    decreases ds.len(),
{
    if ds.len() > 0 {
        lemma_without_date_count(ds.drop_first(), m, m2);
        if ds[0] != m {
            let rest = without_date(ds.drop_first(), m);
            assert((seq![ds[0]] + rest)[0] == ds[0]);
            assert((seq![ds[0]] + rest).drop_first() =~= rest);
        }
    }
}

/// What remains after removing a month came from the dates and differs from
/// it.
proof fn lemma_without_date_member(ds: Seq<Date>, m: Date, d: Date)
    requires
        without_date(ds, m).contains(d),
    ensures
        ds.contains(d) && d != m,
    decreases ds.len(),
{
    if ds.len() > 0 {
        let rest = without_date(ds.drop_first(), m);
        if ds[0] == m {
            lemma_without_date_member(ds.drop_first(), m, d);
            let j = choose|j: int| 0 <= j < ds.drop_first().len() && ds.drop_first()[j] == d;
            assert(ds[j + 1] == d);
        } else {
            assert((seq![ds[0]] + rest)[0] == ds[0]);
            assert((seq![ds[0]] + rest).drop_first() =~= rest);
            if d == ds[0] {
                assert(ds[0] == d);
                assert(ds.contains(d));
                let i = choose|i: int|
                    0 <= i < without_date(ds, m).len() && without_date(ds, m)[i] == d;
            } else {
                let i = choose|i: int|
                    0 <= i < without_date(ds, m).len() && without_date(ds, m)[i] == d;
                assert(i > 0);
                assert(rest[i - 1] == d);
                lemma_without_date_member(ds.drop_first(), m, d);
                let j = choose|j: int| 0 <= j < ds.drop_first().len() && ds.drop_first()[j] == d;
                assert(ds[j + 1] == d);
            }
        }
    }
}

/// Counts over distinct months that cover every date and are each exact sum
/// to the number of dates.
proof fn lemma_counts_partition(ds: Seq<Date>, counts: Seq<(Date, u64)>)
    requires
        forall|i: int, j: int| 0 <= i < j < counts.len() ==> counts[i].0 != counts[j].0,
        forall|i: int|
            0 <= i < counts.len() ==> (#[trigger] counts[i].1 as nat) == count_date(
                ds,
                counts[i].0,
            ),
        forall|j: int| 0 <= j < ds.len() ==> has_month(counts, #[trigger] ds[j]),
    ensures
        counts_total(counts) == ds.len(),
    decreases counts.len(),
{
    if counts.len() == 0 {
        if ds.len() > 0 {
            assert(has_month(counts, ds[0]));
            let i = choose|i: int| 0 <= i < counts.len() && (#[trigger] counts[i].0) == ds[0];
            assert(false);
        }
    } else {
        let m0 = counts[0].0;
        let rest = without_date(ds, m0);
        let tail = counts.drop_first();
        lemma_without_date_len(ds, m0);
        assert forall|i: int, j: int| 0 <= i < j < tail.len() implies tail[i].0 != tail[j].0 by {
            assert(tail[i] == counts[i + 1]);
            assert(tail[j] == counts[j + 1]);
        }
        assert forall|i: int| 0 <= i < tail.len() implies (#[trigger] tail[i].1 as nat)
            == count_date(rest, tail[i].0) by {
            assert(tail[i] == counts[i + 1]);
            assert(counts[i + 1].0 != m0);
            lemma_without_date_count(ds, m0, counts[i + 1].0);
        }
        assert forall|j: int| 0 <= j < rest.len() implies has_month(
            tail,
            #[trigger] rest[j],
        ) by {
            let d = rest[j];
            assert(rest.contains(d));
            lemma_without_date_member(ds, m0, d);
            let jd = choose|jd: int| 0 <= jd < ds.len() && ds[jd] == d;
            assert(has_month(counts, ds[jd]));
            let i = choose|i: int| 0 <= i < counts.len() && (#[trigger] counts[i].0) == d;
            assert(i > 0);
            assert(tail[i - 1].0 == d);
        }
        lemma_counts_partition(rest, tail);
    }
}

/// The months of the quotes.
pub open spec fn quote_months(qs: Seq<QuoteV>) -> Seq<Date> {
    qs.map_values(|q: QuoteV| q.date.month_start_spec())
}

/// The months of the association entries.
pub open spec fn assoc_months(assoc: Seq<(Seq<char>, Date)>) -> Seq<Date> {
    assoc.map_values(|e: (Seq<char>, Date)| e.1)
}

/// The per-month quote count is the count of the quote's months.
proof fn lemma_count_month_as_dates(qs: Seq<QuoteV>, m: Date)
    ensures
        count_month_v(qs, m) == count_date(quote_months(qs), m),
    decreases qs.len(),
{
    if qs.len() > 0 {
        lemma_count_month_as_dates(qs.drop_last(), m);
        assert(quote_months(qs.drop_last()) =~= quote_months(qs).drop_last());
        assert(quote_months(qs).drop_last().push(qs.last().date.month_start_spec())
            =~= quote_months(qs));
        lemma_count_date_push(quote_months(qs).drop_last(), qs.last().date.month_start_spec(), m);
    }
}

/// The per-month association count is the count of the entries' months.
proof fn lemma_count_assoc_as_dates(assoc: Seq<(Seq<char>, Date)>, m: Date)
    ensures
        count_assoc_month(assoc, m) == count_date(assoc_months(assoc), m),
    decreases assoc.len(),
{
    if assoc.len() > 0 {
        lemma_count_assoc_as_dates(assoc.drop_last(), m);
        assert(assoc_months(assoc.drop_last()) =~= assoc_months(assoc).drop_last());
        assert(assoc_months(assoc).drop_last().push(assoc.last().1) =~= assoc_months(assoc));
        lemma_count_date_push(assoc_months(assoc).drop_last(), assoc.last().1, m);
    }
}

/// The buckets partition what they count: the quote counts sum to the number
/// of quotes, and the book counts sum to the number of listed books.
pub proof fn lemma_month_buckets_totals(
    qs: Seq<QuoteV>,
    qcounts: Seq<(Date, u64)>,
    bcounts: Seq<(Date, u64)>,
)
    requires
        month_bucket_ensures(qs, qcounts, bcounts),
    ensures
        counts_total(qcounts) == qs.len(),
        counts_total(bcounts) == book_months_v(qs).len(),
{
    let qds = quote_months(qs);
    assert forall|i: int| 0 <= i < qcounts.len() implies (#[trigger] qcounts[i].1 as nat)
        == count_date(qds, qcounts[i].0) by {
        lemma_count_month_as_dates(qs, qcounts[i].0);
    }
    assert forall|j: int| 0 <= j < qds.len() implies has_month(qcounts, #[trigger] qds[j]) by {
        assert(qds[j] == qs[j].date.month_start_spec());
        assert(has_month(qcounts, qs[j].date.month_start_spec()));
    }
    lemma_counts_partition(qds, qcounts);
    let books = book_months_v(qs);
    let bds = assoc_months(books);
    assert forall|i: int| 0 <= i < bcounts.len() implies (#[trigger] bcounts[i].1 as nat)
        == count_date(bds, bcounts[i].0) by {
        lemma_count_assoc_as_dates(books, bcounts[i].0);
    }
    assert forall|j: int| 0 <= j < bds.len() implies has_month(bcounts, #[trigger] bds[j]) by {
        assert(bds[j] == books[j].1);
        assert(has_month(bcounts, books[j].1));
    }
    lemma_counts_partition(bds, bcounts);
}

/// The book table lists each book once: upserting never duplicates a key.
pub proof fn lemma_book_months_distinct(qs: Seq<QuoteV>)
    ensures
        forall|a: int, b: int|
            0 <= a < b < book_months_v(qs).len() ==> book_months_v(qs)[a].0 != book_months_v(
                qs,
            )[b].0,
    decreases qs.len(),
{
    if qs.len() > 0 {
        lemma_book_months_distinct(qs.drop_last());
        let before = book_months_v(qs.drop_last());
        let k = qs.last().book;
        let d = qs.last().date.month_start_spec();
        if exists|p: int| 0 <= p < before.len() && before[p].0 == k {
            let p = choose|p: int| 0 <= p < before.len() && before[p].0 == k;
            assert forall|j: int| 0 <= j < p implies #[trigger] before[j].0 != k by {
                assert(before[j].0 != before[p].0);
            }
            lemma_upsert_present(before, p, k, d);
            assert forall|a: int, b: int|
                0 <= a < b < book_months_v(qs).len() implies book_months_v(qs)[a].0
                != book_months_v(qs)[b].0 by {
                assert(book_months_v(qs) =~= before.update(p, (k, d)));
                if a == p {
                    assert(book_months_v(qs)[a].0 == k);
                    assert(book_months_v(qs)[b].0 == before[b].0);
                    assert(before[b].0 != before[p].0);
                } else if b == p {
                    assert(book_months_v(qs)[b].0 == k);
                    assert(book_months_v(qs)[a].0 == before[a].0);
                    assert(before[a].0 != before[p].0);
                } else {
                    assert(book_months_v(qs)[a].0 == before[a].0);
                    assert(book_months_v(qs)[b].0 == before[b].0);
                }
            }
        } else {
            assert forall|j: int| 0 <= j < before.len() implies #[trigger] before[j].0 != k by {
                if before[j].0 == k {
                    assert(exists|p: int| 0 <= p < before.len() && before[p].0 == k);
                }
            }
            lemma_upsert_absent(before, k, d);
            assert forall|a: int, b: int|
                0 <= a < b < book_months_v(qs).len() implies book_months_v(qs)[a].0
                != book_months_v(qs)[b].0 by {
                assert(book_months_v(qs) =~= before.push((k, d)));
                if b == before.len() {
                    assert(book_months_v(qs)[b].0 == k);
                    assert(book_months_v(qs)[a].0 == before[a].0);
                } else {
                    assert(book_months_v(qs)[a].0 == before[a].0);
                    assert(book_months_v(qs)[b].0 == before[b].0);
                }
            }
        }
    }
}

// ------------------------------------------------------------------
// The dashboard's scroll state
// ------------------------------------------------------------------

/// A scroll input for the dashboard.
#[derive(Clone, Copy, Debug, PartialEq, Eq, Structural)]
pub enum ScrollKey {
    Left,
    Right,
    Up,
    Down,
    Other,
}

/// What the dashboard shows: the bucketed counts, the per-author table, and
/// the scroll windows over them.
pub struct Stats {
    pub book_counts: Vec<(String, u64)>,
    pub quote_counts: Vec<(String, u64)>,
    pub max_books: u64,
    pub max_quotes: u64,
    pub num_bars: usize,
    pub start_index_bar: usize,
    pub end_index_bar: usize,
    pub author_table: Vec<Vec<String>>,
    pub start_index_table: usize,
    pub end_index_table: usize,
    pub num_rows: usize,
    pub metadata: Metadata,
}

impl Stats {
    /// True when the scroll windows lie inside their data.
    pub open spec fn wf(self) -> bool {
        &&& self.start_index_bar <= self.end_index_bar <= self.quote_counts@.len()
        &&& self.num_bars <= self.end_index_bar
        &&& self.start_index_table <= self.end_index_table <= self.author_table@.len()
        &&& self.num_rows <= self.end_index_table
    }

    /// Builds the dashboard state, clamping the windows to the data.
    pub fn new(
        book_counts: Vec<(String, u64)>,
        quote_counts: Vec<(String, u64)>,
        max_books: u64,
        max_quotes: u64,
        num_bars: usize,
        author_table: Vec<Vec<String>>,
        num_rows: usize,
        metadata: Metadata,
    ) -> (r: Stats)
        ensures
            r.wf(),
            r.book_counts == book_counts,
            r.quote_counts == quote_counts,
            r.author_table == author_table,
            r.start_index_bar == 0,
            r.start_index_table == 0,
    {
        let nb = if num_bars < quote_counts.len() {
            num_bars
        } else {
            quote_counts.len()
        };
        let nr = if num_rows < author_table.len() {
            num_rows
        } else {
            author_table.len()
        };
        Stats {
            book_counts,
            quote_counts,
            max_books,
            max_quotes,
            num_bars: nb,
            start_index_bar: 0,
            end_index_bar: nb,
            author_table,
            start_index_table: 0,
            end_index_table: nr,
            num_rows: nr,
            metadata,
        }
    }

    /// Scrolls the bar charts left or right and the author table up or down,
    /// clamping at the ends of the data.
    pub fn update(&mut self, key: ScrollKey)
        requires
            old(self).wf(),
        ensures
            final(self).quote_counts == old(self).quote_counts,
            final(self).book_counts == old(self).book_counts,
            final(self).author_table == old(self).author_table,
            final(self).metadata == old(self).metadata,
            key == ScrollKey::Left && old(self).start_index_bar > 0 ==> final(self).start_index_bar
                == old(self).start_index_bar - 1 && final(self).end_index_bar == old(self).end_index_bar - 1,
            key == ScrollKey::Left && old(self).start_index_bar == 0 ==> *final(self) == *old(self),
            key == ScrollKey::Up && old(self).start_index_table > 0 ==> final(self).start_index_table
                == old(self).start_index_table - 1 && final(self).end_index_table
                == old(self).end_index_table - 1,
            key == ScrollKey::Up && old(self).start_index_table == 0 ==> *final(self) == *old(self),
            key == ScrollKey::Other ==> *final(self) == *old(self),
            key == ScrollKey::Right ==> final(self).wf() && {
                let e = if old(self).end_index_bar < old(self).quote_counts@.len() {
                    old(self).end_index_bar + 1
                } else {
                    old(self).quote_counts@.len() as int
                };
                let s = if old(self).start_index_bar < e {
                    old(self).start_index_bar + 1
                } else {
                    old(self).start_index_bar as int
                };
                final(self).end_index_bar == e && final(self).start_index_bar == (
                if e - s < old(self).num_bars {
                    e - old(self).num_bars
                } else {
                    s
                })
            },
            key == ScrollKey::Down ==> final(self).wf() && {
                let e = if old(self).end_index_table < old(self).author_table@.len() {
                    old(self).end_index_table + 1
                } else {
                    old(self).author_table@.len() as int
                };
                let s = if old(self).start_index_table < e {
                    old(self).start_index_table + 1
                } else {
                    old(self).start_index_table as int
                };
                final(self).end_index_table == e && final(self).start_index_table == (
                if e - s < old(self).num_rows {
                    e - old(self).num_rows
                } else {
                    s
                })
            },
    {
        match key {
            ScrollKey::Right => {
                let end = if self.end_index_bar < self.quote_counts.len() {
                    self.end_index_bar + 1
                } else {
                    self.quote_counts.len()
                };
                let mut start = self.start_index_bar;
                if start < end {
                    start = start + 1;
                }
                if end - start < self.num_bars {
                    start = end - self.num_bars;
                }
                self.start_index_bar = start;
                self.end_index_bar = end;
            },
            ScrollKey::Left => {
                if self.start_index_bar > 0 {
                    self.start_index_bar = self.start_index_bar - 1;
                    self.end_index_bar = self.end_index_bar - 1;
                }
            },
            ScrollKey::Up => {
                if self.start_index_table > 0 {
                    self.start_index_table = self.start_index_table - 1;
                    self.end_index_table = self.end_index_table - 1;
                }
            },
            ScrollKey::Down => {
                let end = if self.end_index_table < self.author_table.len() {
                    self.end_index_table + 1
                } else {
                    self.author_table.len()
                };
                let mut start = self.start_index_table;
                if start < end {
                    start = start + 1;
                }
                if end - start < self.num_rows {
                    start = end - self.num_rows;
                }
                self.start_index_table = start;
                self.end_index_table = end;
            },
            ScrollKey::Other => {},
        }
    }
}

} // verus!
