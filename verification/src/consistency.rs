//! The archive's consistency invariants and their preservation.
//!
//! A well-formed store satisfies, after every completed operation:
//! every identifier in any index mapping names a stored record and every
//! stored record is indexed under its author, book and tags; the book-author
//! mapping is single-valued and agrees with the records; index entries are
//! absent exactly when their id list would be empty (every stored list is
//! nonempty); and the identifier counter bounds every stored identifier.
//! The lemmas here prove that an empty store is well formed and that the
//! add, delete and change operations preserve well-formedness.

use vstd::prelude::*;

use crate::codec::{
    dec_ids, dec_values, enc_ids, enc_u64, lemma_dec_enc, lemma_dec_enc_ids,
    lemma_enc_ids_nonempty, lemma_enc_u64_digits, lemma_join_split_ch, lemma_split_ch_snoc,
    lemma_split_ch_whole, no_semi, num_of,
};
use crate::database::{
    add_quote_effect, change_quote_effect, counter_key, counter_of, delete_author_effect,
    delete_from_author_and_book_effect, delete_quote_effect, delete_tags_effect,
    list_remove_effect, merge_into, merge_tag_ids, quote_keys_clean, remove_keys, store_empty,
    without_id, StoreView,
};
use crate::quotes::{enc_quote, lemma_parse_enc_quote, parse_quote, quote_v_valid, QuoteV};

verus! {

/// True when the record store holds an entry for the identifier.
pub open spec fn rec_contains(v: StoreView, id: u64) -> bool {
    v.records.contains_key(enc_u64(id as nat))
}

/// The record stored under the identifier.
pub open spec fn record_at(v: StoreView, id: u64) -> QuoteV
    recommends
        rec_contains(v, id),
{
    parse_quote(v.records[enc_u64(id as nat)])->0
}

/// True when the list stored under `k` exists and lists `id`.
pub open spec fn has_id(m: Map<Seq<char>, Seq<char>>, k: Seq<char>, id: u64) -> bool {
    m.contains_key(k) && dec_ids(m[k]) is Some && dec_ids(m[k])->0.contains(id)
}

/// Every stored id list decodes, is nonempty (absence stands for emptiness),
/// and is stored canonically.
pub open spec fn list_wf(m: Map<Seq<char>, Seq<char>>) -> bool {
    forall|k: Seq<char>|
        #[trigger] m.contains_key(k) ==> dec_ids(m[k]) is Some && dec_ids(m[k])->0.len() > 0
            && m[k] == enc_ids(dec_ids(m[k])->0)
}

/// Every stored book list is nonempty and holds nonempty, delimiter-free
/// titles.
pub open spec fn books_wf(m: Map<Seq<char>, Seq<char>>) -> bool {
    forall|k: Seq<char>|
        #[trigger] m.contains_key(k) ==> forall|i: int|
            0 <= i < dec_values(m[k]).len() ==> (#[trigger] dec_values(m[k])[i]).len() > 0
                && no_semi(dec_values(m[k])[i])
}

/// Every stored record parses, sits under its identifier's numeral, has
/// delimiter-free nonempty keys, and frames within bounds.
pub open spec fn records_wf(v: StoreView) -> bool {
    forall|k: Seq<char>|
        #[trigger] v.records.contains_key(k) ==> {
            let p = parse_quote(v.records[k]);
            &&& p is Some
            &&& k == enc_u64(p->0.index as nat)
            &&& quote_keys_clean(p->0)
            &&& p->0.author.len() > 0
            &&& p->0.book.len() > 0
        }
}

/// The counter decodes canonically when present and bounds every stored
/// identifier: identifiers are never reused.
pub open spec fn counter_wf(v: StoreView) -> bool {
    &&& (v.meta.contains_key(counter_key()) ==> num_of(v.meta[counter_key()]) is Some
        && v.meta[counter_key()] == enc_u64(counter_of(v.meta) as nat))
    &&& forall|id: u64| #[trigger] rec_contains(v, id) ==> id <= counter_of(v.meta)
}

/// Every stored record is indexed: its id is listed under its author and
/// book, under each of its tags, and its book is listed among its author's
/// books.
pub open spec fn fwd_wf(v: StoreView) -> bool {
    forall|id: u64|
        #[trigger] rec_contains(v, id) ==> {
            let q = record_at(v, id);
            &&& has_id(v.author_quotes, q.author, id)
            &&& has_id(v.book_quotes, q.book, id)
            &&& (forall|i: int| 0 <= i < q.tags.len() ==> has_id(v.tag_quotes, #[trigger] q.tags[i], id))
            &&& v.author_books.contains_key(q.author)
            &&& dec_values(v.author_books[q.author]).contains(q.book)
        }
}

/// Every indexed id names a stored record with the matching attribute.
pub open spec fn back_wf(v: StoreView) -> bool {
    &&& forall|k: Seq<char>, id: u64|
        #[trigger] has_id(v.author_quotes, k, id) ==> rec_contains(v, id) && record_at(
            v,
            id,
        ).author == k
    &&& forall|k: Seq<char>, id: u64|
        #[trigger] has_id(v.book_quotes, k, id) ==> rec_contains(v, id) && record_at(v, id).book
            == k
    &&& forall|k: Seq<char>, id: u64|
        #[trigger] has_id(v.tag_quotes, k, id) ==> rec_contains(v, id) && record_at(
            v,
            id,
        ).tags.contains(k)
}

/// The two author mappings list the same authors.
pub open spec fn author_doms_wf(v: StoreView) -> bool {
    forall|a: Seq<char>|
        #[trigger] v.author_quotes.contains_key(a) <==> #[trigger] v.author_books.contains_key(a)
}

/// A book's author entry exists only beside its quote list and agrees with
/// the author of every quote listed for the book.
pub open spec fn book_author_wf(v: StoreView) -> bool {
    &&& forall|b: Seq<char>|
        #[trigger] v.book_authors.contains_key(b) ==> v.book_quotes.contains_key(b)
    &&& forall|b: Seq<char>, id: u64|
        v.book_authors.contains_key(b) && #[trigger] has_id(v.book_quotes, b, id) ==> record_at(
            v,
            id,
        ).author == v.book_authors[b]
}

/// A book title is attributed to at most one author.
pub open spec fn ownership_wf(v: StoreView) -> bool {
    forall|a1: Seq<char>, a2: Seq<char>, b: Seq<char>|
        v.author_books.contains_key(a1) && v.author_books.contains_key(a2) && #[trigger] dec_values(
            v.author_books[a1],
        ).contains(b) && #[trigger] dec_values(v.author_books[a2]).contains(b) ==> a1 == a2
}

/// The archive's whole well-formedness invariant.
pub open spec fn archive_wf(v: StoreView) -> bool {
    &&& list_wf(v.author_quotes)
    &&& list_wf(v.book_quotes)
    &&& list_wf(v.tag_quotes)
    &&& books_wf(v.author_books)
    &&& records_wf(v)
    &&& counter_wf(v)
    &&& fwd_wf(v)
    &&& back_wf(v)
    &&& author_doms_wf(v)
    &&& book_author_wf(v)
    &&& ownership_wf(v)
}

/// True when a new quote may join the archive without breaking the
/// invariants: its identifier is fresh and at most one past the counter, its
/// key texts are delimiter-free and nonempty, and its book is not already
/// attributed to another author.
pub open spec fn add_compatible(v: StoreView, q: QuoteV) -> bool {
    &&& quote_v_valid(q)
    &&& quote_keys_clean(q)
    &&& q.author.len() > 0
    &&& q.book.len() > 0
    &&& !rec_contains(v, q.index)
    &&& counter_of(v.meta) < u64::MAX
    &&& q.index <= counter_of(v.meta) + 1
    &&& forall|a: Seq<char>|
        v.author_books.contains_key(a) && #[trigger] dec_values(v.author_books[a]).contains(q.book)
            ==> a == q.author
}

/// An element is in a pushed list iff it is the pushed one or was there.
proof fn lemma_push_contains(s: Seq<u64>, x: u64, y: u64)
    ensures
        s.push(x).contains(y) <==> (s.contains(y) || y == x),
{
    if s.contains(y) {
        let i = choose|i: int| 0 <= i < s.len() && s[i] == y;
        assert(s.push(x)[i] == y);
    }
    if y == x {
        assert(s.push(x)[s.len() as int] == y);
    }
    if s.push(x).contains(y) {
        let i = choose|i: int| 0 <= i < s.push(x).len() && s.push(x)[i] == y;
        if i < s.len() {
            assert(s[i] == y);
        }
    }
}

/// Numerals are injective: equal numerals mean equal numbers.
proof fn lemma_enc_u64_injective(a: u64, b: u64)
    requires
        enc_u64(a as nat) == enc_u64(b as nat),
    ensures
        a == b,
{
    lemma_dec_enc(a as nat);
    lemma_dec_enc(b as nat);
}

/// What merge-appending an id does to a well-formed list map.
proof fn lemma_merge_list(m: Map<Seq<char>, Seq<char>>, k: Seq<char>, id: u64)
    requires
        list_wf(m),
    ensures
        ({
            let m2 = merge_into(m, k, enc_u64(id as nat));
            &&& list_wf(m2)
            &&& m2.contains_key(k)
            &&& dec_ids(m2[k]) is Some
            &&& dec_ids(m2[k])->0 == (if m.contains_key(k) {
                dec_ids(m[k])->0.push(id)
            } else {
                seq![id]
            })
            &&& (forall|k2: Seq<char>|
                #[trigger] m2.contains_key(k2) <==> (k2 == k || m.contains_key(k2)))
            &&& (forall|k2: Seq<char>| k2 != k ==> m2.contains_key(k2) ==> m2[k2] == m[k2])
        }),
{
    let m2 = merge_into(m, k, enc_u64(id as nat));
    if m.contains_key(k) {
        let ids = dec_ids(m[k])->0;
        lemma_enc_ids_nonempty(ids);
        assert(m[k].len() > 0);
        assert(m2[k] == m[k] + seq![';'] + enc_u64(id as nat));
        crate::codec::lemma_enc_ids_push(ids, id);
        assert(m2[k] =~= enc_ids(ids.push(id)));
        lemma_dec_enc_ids(ids.push(id));
    } else {
        assert(m2[k] == enc_u64(id as nat));
        assert(enc_ids(seq![id]) =~= enc_u64(id as nat));
        lemma_dec_enc_ids(seq![id]);
    }
    assert forall|k2: Seq<char>| #[trigger] m2.contains_key(k2) implies dec_ids(m2[k2]) is Some
        && dec_ids(m2[k2])->0.len() > 0 && m2[k2] == enc_ids(dec_ids(m2[k2])->0) by {
        if k2 != k {
            assert(m.contains_key(k2));
        }
    }
}

/// What merge-appending an id under every tag does to a well-formed list
/// map.
proof fn lemma_merge_tags(m: Map<Seq<char>, Seq<char>>, tags: Seq<Seq<char>>, id: u64)
    requires
        list_wf(m),
    ensures
        ({
            let m2 = merge_tag_ids(m, tags, id);
            &&& list_wf(m2)
            &&& (forall|t: Seq<char>| #[trigger] tags.contains(t) ==> has_id(m2, t, id))
            &&& (forall|k: Seq<char>|
                #[trigger] m2.contains_key(k) <==> (tags.contains(k) || m.contains_key(k)))
            &&& (forall|k: Seq<char>, x: u64|
                #[trigger] has_id(m2, k, x) ==> (has_id(m, k, x) || (tags.contains(k) && x == id)))
            &&& (forall|k: Seq<char>, x: u64| #[trigger] has_id(m, k, x) ==> has_id(m2, k, x))
        }),
    decreases tags.len(),
{
    if tags.len() == 0 {
        assert forall|t: Seq<char>| #[trigger] tags.contains(t) implies has_id(
            merge_tag_ids(m, tags, id),
            t,
            id,
        ) by {
            let i = choose|i: int| 0 <= i < tags.len() && tags[i] == t;
        }
    } else {
        let t0 = tags[0];
        let m1 = merge_into(m, t0, enc_u64(id as nat));
        lemma_merge_list(m, t0, id);
        lemma_merge_tags(m1, tags.drop_first(), id);
        let m2 = merge_tag_ids(m, tags, id);
        assert(m2 == merge_tag_ids(m1, tags.drop_first(), id));
        // membership of the first tag survives the later merges
        assert(has_id(m1, t0, id)) by {
            if m.contains_key(t0) {
                lemma_push_contains(dec_ids(m[t0])->0, id, id);
            }
        }
        assert(has_id(m2, t0, id));
        assert forall|t: Seq<char>| #[trigger] tags.contains(t) implies has_id(m2, t, id) by {
            let i = choose|i: int| 0 <= i < tags.len() && tags[i] == t;
            if i == 0 {
            } else {
                assert(tags.drop_first()[i - 1] == t);
                assert(tags.drop_first().contains(t));
            }
        }
        assert forall|k: Seq<char>| #[trigger] m2.contains_key(k) implies (tags.contains(k)
            || m.contains_key(k)) by {
            if tags.drop_first().contains(k) {
                let i = choose|i: int| 0 <= i < tags.drop_first().len() && tags.drop_first()[i] == k;
                assert(tags[i + 1] == k);
            } else if m1.contains_key(k) && k == t0 {
                assert(tags[0] == k);
            }
        }
        assert forall|k: Seq<char>| (tags.contains(k) || m.contains_key(k)) implies #[trigger] m2.contains_key(
            k,
        ) by {
            if tags.contains(k) {
                let i = choose|i: int| 0 <= i < tags.len() && tags[i] == k;
                if i > 0 {
                    assert(tags.drop_first()[i - 1] == k);
                    assert(tags.drop_first().contains(k));
                }
            }
        }
        assert forall|k: Seq<char>, x: u64| #[trigger] has_id(m2, k, x) implies (has_id(m, k, x)
            || (tags.contains(k) && x == id)) by {
            if has_id(m1, k, x) {
                if k == t0 && !has_id(m, k, x) {
                    if m.contains_key(t0) {
                        lemma_push_contains(dec_ids(m[t0])->0, id, x);
                        assert(x == id);
                    } else {
                        assert(dec_ids(m1[t0])->0 == seq![id]);
                        assert(dec_ids(m1[t0])->0[0] == id);
                        let i = choose|i: int|
                            0 <= i < dec_ids(m1[t0])->0.len() && dec_ids(m1[t0])->0[i] == x;
                        assert(x == id);
                    }
                    assert(tags[0] == k);
                }
            } else {
                assert(tags.drop_first().contains(k) && x == id);
                let i = choose|i: int| 0 <= i < tags.drop_first().len() && tags.drop_first()[i] == k;
                assert(tags[i + 1] == k);
            }
        }
        assert forall|k: Seq<char>, x: u64| #[trigger] has_id(m, k, x) implies has_id(m2, k, x) by {
            assert(has_id(m1, k, x)) by {
                if k == t0 {
                    lemma_push_contains(dec_ids(m[t0])->0, id, x);
                }
            }
        }
    }
}

/// Membership in a list with one id removed.
proof fn lemma_without_id_contains(ids: Seq<u64>, x: u64, y: u64)
    ensures
        without_id(ids, x).contains(y) <==> (ids.contains(y) && y != x),
    decreases ids.len(),
{
    if ids.len() == 0 {
    } else {
        lemma_without_id_contains(ids.drop_last(), x, y);
        let rest = without_id(ids.drop_last(), x);
        if ids.last() == x {
            if ids.contains(y) && y != x {
                let i = choose|i: int| 0 <= i < ids.len() && ids[i] == y;
                assert(ids.drop_last()[i] == y);
            }
        } else {
            lemma_push_contains(rest, ids.last(), y);
            if ids.contains(y) && y != x {
                let i = choose|i: int| 0 <= i < ids.len() && ids[i] == y;
                if i < ids.len() - 1 {
                    assert(ids.drop_last()[i] == y);
                }
            }
            if rest.contains(y) || y == ids.last() {
                if rest.contains(y) {
                    assert(ids.drop_last().contains(y));
                    let i = choose|i: int| 0 <= i < ids.drop_last().len() && ids.drop_last()[i] == y;
                    assert(ids[i] == y);
                } else {
                    assert(ids[ids.len() - 1] == y);
                }
            }
        }
    }
}

/// What removing one id from a well-formed list map does.
proof fn lemma_list_remove(m: Map<Seq<char>, Seq<char>>, k: Seq<char>, x: u64)
    requires
        list_wf(m),
    ensures
        ({
            let m2 = list_remove_effect(m, k, x);
            &&& list_wf(m2)
            &&& (forall|k2: Seq<char>, y: u64|
                #[trigger] has_id(m2, k2, y) <==> (has_id(m, k2, y) && !(k2 == k && y == x)))
            &&& (forall|k2: Seq<char>| k2 != k ==> (m2.contains_key(k2) <==> m.contains_key(k2)))
            &&& (forall|k2: Seq<char>| k2 != k && m2.contains_key(k2) ==> m2[k2] == m[k2])
        }),
{
    let m2 = list_remove_effect(m, k, x);
    if m.contains_key(k) {
        let ids = dec_ids(m[k])->0;
        let rest = without_id(ids, x);
        if rest.len() == 0 {
            assert(m2 == m.remove(k));
            assert forall|k2: Seq<char>, y: u64| #[trigger] has_id(m2, k2, y) implies (has_id(
                m,
                k2,
                y,
            ) && !(k2 == k && y == x)) by {}
            assert forall|k2: Seq<char>, y: u64|
                has_id(m, k2, y) && !(k2 == k && y == x) implies #[trigger] has_id(m2, k2, y) by {
                if k2 == k {
                    lemma_without_id_contains(ids, x, y);
                    assert(rest.contains(y));
                }
            }
        } else {
            assert(m2 == m.insert(k, enc_ids(rest)));
            lemma_dec_enc_ids(rest);
            assert forall|k2: Seq<char>, y: u64| #[trigger] has_id(m2, k2, y) implies (has_id(
                m,
                k2,
                y,
            ) && !(k2 == k && y == x)) by {
                if k2 == k {
                    lemma_without_id_contains(ids, x, y);
                }
            }
            assert forall|k2: Seq<char>, y: u64|
                has_id(m, k2, y) && !(k2 == k && y == x) implies #[trigger] has_id(m2, k2, y) by {
                if k2 == k {
                    lemma_without_id_contains(ids, x, y);
                }
            }
            assert forall|k2: Seq<char>| #[trigger] m2.contains_key(k2) implies dec_ids(m2[k2])
                is Some && dec_ids(m2[k2])->0.len() > 0 && m2[k2] == enc_ids(
                dec_ids(m2[k2])->0,
            ) by {
                if k2 != k {
                    assert(m.contains_key(k2));
                }
            }
        }
    } else {
        assert(m2 == m);
    }
}

/// What removing one id under every listed tag does.
proof fn lemma_delete_tags(m: Map<Seq<char>, Seq<char>>, tags: Seq<Seq<char>>, x: u64)
    requires
        list_wf(m),
    ensures
        ({
            let m2 = delete_tags_effect(m, tags, x);
            &&& list_wf(m2)
            &&& (forall|k: Seq<char>, y: u64|
                #[trigger] has_id(m2, k, y) <==> (has_id(m, k, y) && !(tags.contains(k) && y
                    == x)))
            &&& (forall|k: Seq<char>| !tags.contains(k) ==> (m2.contains_key(k) <==> m.contains_key(
                k,
            )) && (m2.contains_key(k) ==> m2[k] == m[k]))
        }),
    decreases tags.len(),
{
    if tags.len() == 0 {
        assert forall|k: Seq<char>, y: u64| #[trigger] has_id(
            delete_tags_effect(m, tags, x),
            k,
            y,
        ) <==> (has_id(m, k, y) && !(tags.contains(k) && y == x)) by {
            if tags.contains(k) {
                let i = choose|i: int| 0 <= i < tags.len() && tags[i] == k;
            }
        }
    } else {
        let t0 = tags[0];
        let m1 = list_remove_effect(m, t0, x);
        lemma_list_remove(m, t0, x);
        lemma_delete_tags(m1, tags.drop_first(), x);
        let m2 = delete_tags_effect(m, tags, x);
        assert(m2 == delete_tags_effect(m1, tags.drop_first(), x));
        assert forall|k: Seq<char>, y: u64| #[trigger] has_id(m2, k, y) implies (has_id(m, k, y)
            && !(tags.contains(k) && y == x)) by {
            if tags.contains(k) && y == x {
                let i = choose|i: int| 0 <= i < tags.len() && tags[i] == k;
                if i > 0 {
                    assert(tags.drop_first()[i - 1] == k);
                    assert(tags.drop_first().contains(k));
                }
            }
        }
        assert forall|k: Seq<char>, y: u64|
            has_id(m, k, y) && !(tags.contains(k) && y == x) implies #[trigger] has_id(
            m2,
            k,
            y,
        ) by {
            assert(!(k == t0 && y == x)) by {
                if k == t0 && y == x {
                    assert(tags[0] == k);
                }
            }
            assert(has_id(m1, k, y));
            assert(!(tags.drop_first().contains(k) && y == x)) by {
                if tags.drop_first().contains(k) {
                    let i = choose|i: int|
                        0 <= i < tags.drop_first().len() && tags.drop_first()[i] == k;
                    assert(tags[i + 1] == k);
                }
            }
        }
        assert forall|k: Seq<char>| !tags.contains(k) implies (m2.contains_key(k)
            <==> m.contains_key(k)) && (m2.contains_key(k) ==> m2[k] == m[k]) by {
            assert(k != t0) by {
                if k == t0 {
                    assert(tags[0] == k);
                }
            }
            assert(!tags.drop_first().contains(k)) by {
                if tags.drop_first().contains(k) {
                    let i = choose|i: int|
                        0 <= i < tags.drop_first().len() && tags.drop_first()[i] == k;
                    assert(tags[i + 1] == k);
                }
            }
        }
    }
}

/// What removing a list of keys does to a map.
proof fn lemma_remove_keys(m: Map<Seq<char>, Seq<char>>, keys: Seq<Seq<char>>)
    ensures
        ({
            let m2 = remove_keys(m, keys);
            &&& (forall|k: Seq<char>|
                #[trigger] m2.contains_key(k) <==> (m.contains_key(k) && !keys.contains(k)))
            &&& (forall|k: Seq<char>| m2.contains_key(k) ==> m2[k] == m[k])
        }),
    decreases keys.len(),
{
    if keys.len() == 0 {
        assert forall|k: Seq<char>| #[trigger] remove_keys(m, keys).contains_key(k) <==> (
        m.contains_key(k) && !keys.contains(k)) by {
            if keys.contains(k) {
                let i = choose|i: int| 0 <= i < keys.len() && keys[i] == k;
            }
        }
    } else {
        let m1 = m.remove(keys[0]);
        lemma_remove_keys(m1, keys.drop_first());
        let m2 = remove_keys(m1, keys.drop_first());
        assert(remove_keys(m, keys) == m2);
        assert forall|k: Seq<char>| #[trigger] m2.contains_key(k) implies (m.contains_key(k)
            && !keys.contains(k)) by {
            assert(m1.contains_key(k) && !keys.drop_first().contains(k));
            if keys.contains(k) {
                let i = choose|i: int| 0 <= i < keys.len() && keys[i] == k;
                if i > 0 {
                    assert(keys.drop_first()[i - 1] == k);
                    assert(keys.drop_first().contains(k));
                }
            }
        }
        assert forall|k: Seq<char>| m.contains_key(k) && !keys.contains(k) implies
            #[trigger] m2.contains_key(k) by {
            assert(k != keys[0]) by {
                if k == keys[0] {
                    assert(keys[0] == k);
                }
            }
            assert(!keys.drop_first().contains(k)) by {
                if keys.drop_first().contains(k) {
                    let i = choose|i: int|
                        0 <= i < keys.drop_first().len() && keys.drop_first()[i] == k;
                    assert(keys[i + 1] == k);
                }
            }
            assert(m1.contains_key(k));
        }
        assert forall|k: Seq<char>| m2.contains_key(k) implies m2[k] == m[k] by {
            assert(m1.contains_key(k));
            assert(m2[k] == m1[k]);
        }
    }
}

/// An empty store is well formed.
pub proof fn lemma_empty_wf(v: StoreView)
    requires
        store_empty(v),
    ensures
        archive_wf(v),
{
}

/// Ground facts about the store after an add: where each tree went and how
/// records moved.
proof fn lemma_add_setup(v: StoreView, q: QuoteV)
    requires
        archive_wf(v),
        add_compatible(v, q),
    ensures
        ({
            let w = add_quote_effect(v, q);
            &&& w.records == v.records.insert(enc_u64(q.index as nat), enc_quote(q))
            &&& w.author_quotes == merge_into(v.author_quotes, q.author, enc_u64(q.index as nat))
            &&& w.book_quotes == merge_into(v.book_quotes, q.book, enc_u64(q.index as nat))
            &&& w.tag_quotes == merge_tag_ids(v.tag_quotes, q.tags, q.index)
            &&& w.book_authors == v.book_authors.insert(q.book, q.author)
            &&& w.meta == v.meta.insert(counter_key(), enc_u64((counter_of(v.meta) + 1) as nat))
            &&& counter_of(w.meta) == counter_of(v.meta) + 1
            &&& rec_contains(w, q.index)
            &&& record_at(w, q.index) == q
            &&& (forall|id: u64|
                id != q.index ==> (#[trigger] rec_contains(w, id) <==> rec_contains(v, id)))
            &&& (forall|id: u64|
                id != q.index && #[trigger] rec_contains(v, id) ==> record_at(w, id) == record_at(
                    v,
                    id,
                ))
        }),
{
    let kq = enc_u64(q.index as nat);
    let w = add_quote_effect(v, q);
    lemma_parse_enc_quote(q);
    lemma_dec_enc((counter_of(v.meta) + 1) as nat);
    lemma_enc_u64_digits((counter_of(v.meta) + 1) as nat);
    assert(crate::codec::valid_num(enc_u64((counter_of(v.meta) + 1) as nat)));
    assert(counter_of(w.meta) == counter_of(v.meta) + 1);
    assert forall|id: u64| id != q.index implies (#[trigger] rec_contains(w, id) <==> rec_contains(
        v,
        id,
    )) by {
        if enc_u64(id as nat) == kq {
            lemma_enc_u64_injective(id, q.index);
        }
    }
    assert forall|id: u64| id != q.index && #[trigger] rec_contains(v, id) implies record_at(w, id)
        == record_at(v, id) by {
        if enc_u64(id as nat) == kq {
            lemma_enc_u64_injective(id, q.index);
        }
    }
}

/// How the author-book mapping looks after an add: nothing lost, at most the
/// new pair gained, still well formed.
proof fn lemma_add_ab(v: StoreView, q: QuoteV)
    requires
        archive_wf(v),
        add_compatible(v, q),
    ensures
        ({
            let ab2 = add_quote_effect(v, q).author_books;
            &&& books_wf(ab2)
            &&& (forall|a: Seq<char>|
                #[trigger] ab2.contains_key(a) <==> (a == q.author || v.author_books.contains_key(
                    a,
                )))
            &&& ab2.contains_key(q.author)
            &&& dec_values(ab2[q.author]).contains(q.book)
            &&& (forall|a: Seq<char>, b: Seq<char>|
                ab2.contains_key(a) && #[trigger] dec_values(ab2[a]).contains(b) ==> ((a == q.author
                    && b == q.book) || (v.author_books.contains_key(a) && dec_values(
                    v.author_books[a],
                ).contains(b))))
            &&& (forall|a: Seq<char>, b: Seq<char>|
                v.author_books.contains_key(a) && #[trigger] dec_values(
                    v.author_books[a],
                ).contains(b) ==> ab2.contains_key(a) && dec_values(ab2[a]).contains(b))
        }),
{
    let ab2 = add_quote_effect(v, q).author_books;
    if !v.author_books.contains_key(q.author) {
        assert(ab2 == v.author_books.insert(q.author, q.book));
        lemma_split_ch_whole(q.book, ';');
        assert(dec_values(ab2[q.author]) =~= seq![q.book]);
        assert(dec_values(ab2[q.author])[0] == q.book);
        assert forall|a: Seq<char>, b: Seq<char>|
            ab2.contains_key(a) && #[trigger] dec_values(ab2[a]).contains(b) implies ((a == q.author
            && b == q.book) || (v.author_books.contains_key(a) && dec_values(
            v.author_books[a],
        ).contains(b))) by {
            if a == q.author {
                let i = choose|i: int| 0 <= i < dec_values(ab2[a]).len() && dec_values(ab2[a])[i] == b;
                assert(b == q.book);
            }
        }
    } else if dec_values(v.author_books[q.author]).contains(q.book) {
        assert(ab2 == v.author_books);
    } else {
        let old_val = v.author_books[q.author];
        let books = dec_values(old_val);
        assert(books.len() > 0) by {
            crate::codec::lemma_split_ch_nonempty(old_val, ';');
        }
        assert(books[0].len() > 0);
        assert(old_val.len() > 0) by {
            lemma_join_split_ch(old_val, ';');
            if old_val.len() == 0 {
                assert(books[0] =~= Seq::<char>::empty());
            }
        }
        assert(ab2 == v.author_books.insert(q.author, old_val + seq![';'] + q.book));
        lemma_split_ch_snoc(old_val, q.book, ';');
        assert(dec_values(ab2[q.author]) =~= books.push(q.book));
        assert(dec_values(ab2[q.author])[books.len() as int] == q.book);
        assert forall|a: Seq<char>, b: Seq<char>|
            ab2.contains_key(a) && #[trigger] dec_values(ab2[a]).contains(b) implies ((a == q.author
            && b == q.book) || (v.author_books.contains_key(a) && dec_values(
            v.author_books[a],
        ).contains(b))) by {
            if a == q.author {
                let i = choose|i: int| 0 <= i < dec_values(ab2[a]).len() && dec_values(ab2[a])[i] == b;
                if i < books.len() {
                    assert(books[i] == b);
                } else {
                    assert(b == q.book);
                }
            }
        }
        assert forall|a: Seq<char>, b: Seq<char>|
            v.author_books.contains_key(a) && #[trigger] dec_values(v.author_books[a]).contains(
            b,
        ) implies ab2.contains_key(a) && dec_values(ab2[a]).contains(b) by {
            if a == q.author {
                let i = choose|i: int| 0 <= i < books.len() && books[i] == b;
                assert(dec_values(ab2[a])[i] == b);
            }
        }
        assert forall|k: Seq<char>| #[trigger] ab2.contains_key(k) implies forall|i: int|
            0 <= i < dec_values(ab2[k]).len() ==> (#[trigger] dec_values(ab2[k])[i]).len() > 0
                && no_semi(dec_values(ab2[k])[i]) by {
            if k == q.author {
                assert forall|i: int| 0 <= i < dec_values(ab2[k]).len() implies (
                #[trigger] dec_values(ab2[k])[i]).len() > 0 && no_semi(dec_values(ab2[k])[i]) by {
                    if i < books.len() {
                        assert(dec_values(ab2[k])[i] == books[i]);
                    } else {
                        assert(dec_values(ab2[k])[i] == q.book);
                    }
                }
            }
        }
    }
}

/// Adding keeps every stored record well formed and bounded by the counter.
proof fn lemma_add_records(v: StoreView, q: QuoteV)
    requires
        archive_wf(v),
        add_compatible(v, q),
    ensures
        records_wf(add_quote_effect(v, q)),
        counter_wf(add_quote_effect(v, q)),
{
    let w = add_quote_effect(v, q);
    let kq = enc_u64(q.index as nat);
    lemma_add_setup(v, q);
    lemma_parse_enc_quote(q);
    assert forall|k: Seq<char>| #[trigger] w.records.contains_key(k) implies {
        let p = parse_quote(w.records[k]);
        &&& p is Some
        &&& k == enc_u64(p->0.index as nat)
        &&& quote_keys_clean(p->0)
        &&& p->0.author.len() > 0
        &&& p->0.book.len() > 0
    } by {
        if k != kq {
            assert(v.records.contains_key(k));
        }
    }
    assert forall|id: u64| #[trigger] rec_contains(w, id) implies id <= counter_of(w.meta) by {
        if id != q.index {
            assert(rec_contains(v, id));
        }
    }
}

/// Adding keeps every record fully indexed.
proof fn lemma_add_fwd(v: StoreView, q: QuoteV)
    requires
        archive_wf(v),
        add_compatible(v, q),
    ensures
        fwd_wf(add_quote_effect(v, q)),
        list_wf(add_quote_effect(v, q).author_quotes),
        list_wf(add_quote_effect(v, q).book_quotes),
        list_wf(add_quote_effect(v, q).tag_quotes),
{
    let w = add_quote_effect(v, q);
    lemma_add_setup(v, q);
    lemma_add_ab(v, q);
    lemma_merge_list(v.author_quotes, q.author, q.index);
    lemma_merge_list(v.book_quotes, q.book, q.index);
    lemma_merge_tags(v.tag_quotes, q.tags, q.index);
    assert forall|id: u64| #[trigger] rec_contains(w, id) implies {
        let qq = record_at(w, id);
        &&& has_id(w.author_quotes, qq.author, id)
        &&& has_id(w.book_quotes, qq.book, id)
        &&& (forall|i: int| 0 <= i < qq.tags.len() ==> has_id(w.tag_quotes, #[trigger] qq.tags[i], id))
        &&& w.author_books.contains_key(qq.author)
        &&& dec_values(w.author_books[qq.author]).contains(qq.book)
    } by {
        if id == q.index {
            assert(record_at(w, id) == q);
            assert(has_id(w.author_quotes, q.author, id)) by {
                if v.author_quotes.contains_key(q.author) {
                    lemma_push_contains(dec_ids(v.author_quotes[q.author])->0, id, id);
                }
            }
            assert(has_id(w.book_quotes, q.book, id)) by {
                if v.book_quotes.contains_key(q.book) {
                    lemma_push_contains(dec_ids(v.book_quotes[q.book])->0, id, id);
                }
            }
            assert forall|i: int| 0 <= i < q.tags.len() implies has_id(
                w.tag_quotes,
                #[trigger] q.tags[i],
                id,
            ) by {
                assert(q.tags.contains(q.tags[i]));
            }
        } else {
            assert(rec_contains(v, id));
            let qq = record_at(v, id);
            assert(record_at(w, id) == qq);
            assert(has_id(v.author_quotes, qq.author, id));
            assert(has_id(w.author_quotes, qq.author, id)) by {
                if qq.author == q.author {
                    lemma_push_contains(dec_ids(v.author_quotes[q.author])->0, q.index, id);
                }
            }
            assert(has_id(w.book_quotes, qq.book, id)) by {
                if qq.book == q.book {
                    lemma_push_contains(dec_ids(v.book_quotes[q.book])->0, q.index, id);
                }
            }
            assert forall|i: int| 0 <= i < qq.tags.len() implies has_id(
                w.tag_quotes,
                #[trigger] qq.tags[i],
                id,
            ) by {
                assert(has_id(v.tag_quotes, qq.tags[i], id));
            }
        }
    }
}

/// Adding keeps every index entry pointing at a matching record.
proof fn lemma_add_back(v: StoreView, q: QuoteV)
    requires
        archive_wf(v),
        add_compatible(v, q),
    ensures
        back_wf(add_quote_effect(v, q)),
{
    let w = add_quote_effect(v, q);
    lemma_add_setup(v, q);
    lemma_merge_list(v.author_quotes, q.author, q.index);
    lemma_merge_list(v.book_quotes, q.book, q.index);
    lemma_merge_tags(v.tag_quotes, q.tags, q.index);
    assert forall|k: Seq<char>, id: u64| #[trigger] has_id(w.author_quotes, k, id) implies
        rec_contains(w, id) && record_at(w, id).author == k by {
        if k == q.author {
            if v.author_quotes.contains_key(k) {
                lemma_push_contains(dec_ids(v.author_quotes[k])->0, q.index, id);
            } else {
                assert(dec_ids(w.author_quotes[k])->0 == seq![q.index]);
                let i = choose|i: int|
                    0 <= i < dec_ids(w.author_quotes[k])->0.len() && dec_ids(
                        w.author_quotes[k],
                    )->0[i] == id;
                assert(id == q.index);
            }
            if id != q.index {
                assert(has_id(v.author_quotes, k, id));
            }
        } else {
            assert(has_id(v.author_quotes, k, id));
            assert(id != q.index) by {
                if id == q.index {
                    assert(rec_contains(v, q.index));
                }
            }
        }
    }
    assert forall|k: Seq<char>, id: u64| #[trigger] has_id(w.book_quotes, k, id) implies
        rec_contains(w, id) && record_at(w, id).book == k by {
        if k == q.book {
            if v.book_quotes.contains_key(k) {
                lemma_push_contains(dec_ids(v.book_quotes[k])->0, q.index, id);
            } else {
                assert(dec_ids(w.book_quotes[k])->0 == seq![q.index]);
                let i = choose|i: int|
                    0 <= i < dec_ids(w.book_quotes[k])->0.len() && dec_ids(w.book_quotes[k])->0[i]
                        == id;
                assert(id == q.index);
            }
            if id != q.index {
                assert(has_id(v.book_quotes, k, id));
            }
        } else {
            assert(has_id(v.book_quotes, k, id));
            assert(id != q.index) by {
                if id == q.index {
                    assert(rec_contains(v, q.index));
                }
            }
        }
    }
    assert forall|k: Seq<char>, id: u64| #[trigger] has_id(w.tag_quotes, k, id) implies
        rec_contains(w, id) && record_at(w, id).tags.contains(k) by {
        if has_id(v.tag_quotes, k, id) {
            assert(id != q.index) by {
                if id == q.index {
                    assert(rec_contains(v, q.index));
                }
            }
        } else {
            assert(q.tags.contains(k) && id == q.index);
        }
    }
}

/// Adding keeps the author domains aligned, the book-author mapping true,
/// and book titles singly owned.
proof fn lemma_add_books(v: StoreView, q: QuoteV)
    requires
        archive_wf(v),
        add_compatible(v, q),
    ensures
        author_doms_wf(add_quote_effect(v, q)),
        book_author_wf(add_quote_effect(v, q)),
        ownership_wf(add_quote_effect(v, q)),
{
    let w = add_quote_effect(v, q);
    lemma_add_setup(v, q);
    lemma_add_ab(v, q);
    lemma_merge_list(v.author_quotes, q.author, q.index);
    lemma_merge_list(v.book_quotes, q.book, q.index);
    assert(author_doms_wf(w));
    assert forall|b: Seq<char>, id: u64|
        w.book_authors.contains_key(b) && #[trigger] has_id(w.book_quotes, b, id) implies record_at(
        w,
        id,
    ).author == w.book_authors[b] by {
        if b == q.book {
            if id != q.index {
                if v.book_quotes.contains_key(b) {
                    lemma_push_contains(dec_ids(v.book_quotes[b])->0, q.index, id);
                    assert(has_id(v.book_quotes, b, id));
                } else {
                    assert(dec_ids(w.book_quotes[b])->0 == seq![q.index]);
                    let i = choose|i: int|
                        0 <= i < dec_ids(w.book_quotes[b])->0.len() && dec_ids(
                            w.book_quotes[b],
                        )->0[i] == id;
                }
                let qq = record_at(v, id);
                assert(qq.book == b);
                assert(dec_values(v.author_books[qq.author]).contains(b));
                assert(qq.author == q.author);
            }
        } else {
            assert(has_id(v.book_quotes, b, id));
            assert(id != q.index) by {
                if id == q.index {
                    assert(rec_contains(v, q.index));
                }
            }
        }
    }
    assert forall|a1: Seq<char>, a2: Seq<char>, b: Seq<char>|
        w.author_books.contains_key(a1) && w.author_books.contains_key(a2) && #[trigger] dec_values(
            w.author_books[a1],
        ).contains(b) && #[trigger] dec_values(w.author_books[a2]).contains(b) implies a1 == a2 by {
        if a1 != a2 {
            if a1 == q.author && b == q.book && !(v.author_books.contains_key(a1) && dec_values(
                v.author_books[a1],
            ).contains(b)) {
                assert(v.author_books.contains_key(a2) && dec_values(v.author_books[a2]).contains(
                    b,
                ));
                assert(a2 == q.author);
            } else if a2 == q.author && b == q.book && !(v.author_books.contains_key(a2)
                && dec_values(v.author_books[a2]).contains(b)) {
                assert(v.author_books.contains_key(a1) && dec_values(v.author_books[a1]).contains(
                    b,
                ));
                assert(a1 == q.author);
            } else {
                assert(v.author_books.contains_key(a1) && dec_values(v.author_books[a1]).contains(
                    b,
                ));
                assert(v.author_books.contains_key(a2) && dec_values(v.author_books[a2]).contains(
                    b,
                ));
            }
        }
    }
}

/// If removing an id leaves a list empty, every listed id was that id.
proof fn lemma_without_id_empty(ids: Seq<u64>, x: u64)
    requires
        without_id(ids, x).len() == 0,
    ensures
        forall|y: u64| #[trigger] ids.contains(y) ==> y == x,
{
    assert forall|y: u64| #[trigger] ids.contains(y) implies y == x by {
        lemma_without_id_contains(ids, x, y);
        if y != x {
            assert(without_id(ids, x).contains(y));
        }
    }
}

/// Ground facts about the store after a delete: who survives, and that no
/// survivor references what the cascade removes.
proof fn lemma_delete_setup(v: StoreView, index: u64)
    requires
        archive_wf(v),
        rec_contains(v, index),
    ensures
        ({
            let q = record_at(v, index);
            &&& v.author_quotes.contains_key(q.author)
            &&& dec_ids(v.author_quotes[q.author]) is Some
            &&& dec_ids(v.author_quotes[q.author])->0.contains(index)
            &&& v.book_quotes.contains_key(q.book)
            &&& dec_ids(v.book_quotes[q.book]) is Some
            &&& v.author_books.contains_key(q.author)
            &&& dec_values(v.author_books[q.author]).contains(q.book)
            &&& (forall|y: u64|
                y != index ==> (#[trigger] rec_contains(
                    StoreView { records: v.records.remove(enc_u64(index as nat)), ..v },
                    y,
                ) <==> rec_contains(v, y)))
            &&& (forall|y: u64|
                y != index && #[trigger] rec_contains(v, y) ==> record_at(
                    StoreView { records: v.records.remove(enc_u64(index as nat)), ..v },
                    y,
                ) == record_at(v, y))
        }),
{
    let v1 = StoreView { records: v.records.remove(enc_u64(index as nat)), ..v };
    assert forall|y: u64| y != index implies (#[trigger] rec_contains(v1, y) <==> rec_contains(
        v,
        y,
    )) by {
        if enc_u64(y as nat) == enc_u64(index as nat) {
            lemma_enc_u64_injective(y, index);
        }
    }
    assert forall|y: u64| y != index && #[trigger] rec_contains(v, y) implies record_at(v1, y)
        == record_at(v, y) by {
        if enc_u64(y as nat) == enc_u64(index as nat) {
            lemma_enc_u64_injective(y, index);
        }
    }
}

/// Clauses of deletion that do not depend on the cascade branch: records,
/// counter, ownership, the author-book contents, and the tag mapping.
#[verifier::rlimit(100)]
#[verifier::spinoff_prover]
proof fn lemma_delete_common(v: StoreView, index: u64)
    requires
        archive_wf(v),
        rec_contains(v, index),
    ensures
        ({
            let q = record_at(v, index);
            let w = delete_quote_effect(v, q, index);
            &&& w.records == v.records.remove(enc_u64(index as nat))
            &&& w.meta == v.meta
            &&& w.author_books == (if without_id(
                dec_ids(v.author_quotes[q.author])->0,
                index,
            ).len() == 0 {
                v.author_books.remove(q.author)
            } else {
                v.author_books
            })
            &&& w.tag_quotes == delete_tags_effect(v.tag_quotes, q.tags, index)
            &&& records_wf(w)
            &&& counter_wf(w)
            &&& ownership_wf(w)
            &&& books_wf(w.author_books)
            &&& list_wf(w.tag_quotes)
            &&& (forall|k: Seq<char>, y: u64|
                #[trigger] has_id(w.tag_quotes, k, y) ==> rec_contains(w, y) && record_at(
                    w,
                    y,
                ).tags.contains(k))
            &&& (forall|y: u64|
                y != index ==> (#[trigger] rec_contains(w, y) <==> rec_contains(v, y)))
            &&& !rec_contains(w, index)
            &&& (forall|y: u64|
                y != index && #[trigger] rec_contains(v, y) ==> record_at(w, y) == record_at(v, y))
            &&& (forall|y: u64, i: int|
                y != index && #[trigger] rec_contains(v, y) && 0 <= i < record_at(v, y).tags.len()
                    ==> has_id(w.tag_quotes, #[trigger] record_at(v, y).tags[i], y))
        }),
{
    let q = record_at(v, index);
    lemma_delete_setup(v, index);
    let v1 = StoreView { records: v.records.remove(enc_u64(index as nat)), ..v };
    let v2 = delete_from_author_and_book_effect(v1, q.author, q.book, index);
    let w = delete_quote_effect(v, q, index);
    let ids = dec_ids(v.author_quotes[q.author])->0;
    let rest = without_id(ids, index);
    if rest.len() == 0 {
        assert(v2 == delete_author_effect(v1, q.author));
    } else {
        lemma_dec_enc_ids(rest);
    }
    assert(v2.tag_quotes == v.tag_quotes);
    assert(v2.records == v1.records);
    assert(v2.meta == v.meta);
    assert(w == StoreView { tag_quotes: delete_tags_effect(v2.tag_quotes, q.tags, index), ..v2 });
    lemma_delete_tags(v.tag_quotes, q.tags, index);
    let tq2 = delete_tags_effect(v.tag_quotes, q.tags, index);
    assert(w.tag_quotes == tq2);
    assert(!rec_contains(w, index)) by {
        assert(!w.records.contains_key(enc_u64(index as nat)));
    }
    assert forall|y: u64| y != index implies (#[trigger] rec_contains(w, y) <==> rec_contains(
        v,
        y,
    )) by {
        assert(w.records == v1.records);
        if enc_u64(y as nat) == enc_u64(index as nat) {
            lemma_enc_u64_injective(y, index);
        }
    }
    assert forall|y: u64| y != index && #[trigger] rec_contains(v, y) implies record_at(w, y)
        == record_at(v, y) by {
        if enc_u64(y as nat) == enc_u64(index as nat) {
            lemma_enc_u64_injective(y, index);
        }
    }
    assert forall|k: Seq<char>, y: u64| #[trigger] has_id(w.tag_quotes, k, y) implies rec_contains(
        w,
        y,
    ) && record_at(w, y).tags.contains(k) by {
        assert(has_id(tq2, k, y));
        assert(has_id(v.tag_quotes, k, y));
        assert(rec_contains(v, y) && record_at(v, y).tags.contains(k));
        assert(y != index) by {
            if y == index {
                assert(record_at(v, index).tags.contains(k));
                assert(q.tags.contains(k));
            }
        }
        assert(rec_contains(w, y));
        assert(record_at(w, y) == record_at(v, y));
    }
    assert forall|y: u64, i: int|
        y != index && #[trigger] rec_contains(v, y) && 0 <= i < record_at(v, y).tags.len() implies
        has_id(w.tag_quotes, #[trigger] record_at(v, y).tags[i], y) by {
        assert(has_id(v.tag_quotes, record_at(v, y).tags[i], y));
        assert(has_id(tq2, record_at(v, y).tags[i], y));
    }
    assert(records_wf(w)) by {
        assert forall|k: Seq<char>| #[trigger] w.records.contains_key(k) implies {
            let p = parse_quote(w.records[k]);
            &&& p is Some
            &&& k == enc_u64(p->0.index as nat)
            &&& quote_keys_clean(p->0)
            &&& p->0.author.len() > 0
            &&& p->0.book.len() > 0
        } by {
            assert(v.records.contains_key(k) && w.records[k] == v.records[k]);
        }
    }
    assert(counter_wf(w)) by {
        assert forall|y: u64| #[trigger] rec_contains(w, y) implies y <= counter_of(w.meta) by {
            assert(rec_contains(v, y));
        }
    }
    assert(ownership_wf(w)) by {
        assert forall|a1: Seq<char>, a2: Seq<char>, b: Seq<char>|
            w.author_books.contains_key(a1) && w.author_books.contains_key(a2)
                && #[trigger] dec_values(w.author_books[a1]).contains(b) && #[trigger] dec_values(
                w.author_books[a2],
            ).contains(b) implies a1 == a2 by {
            assert(v.author_books.contains_key(a1) && w.author_books[a1] == v.author_books[a1]);
            assert(v.author_books.contains_key(a2) && w.author_books[a2] == v.author_books[a2]);
        }
    }
    assert(books_wf(w.author_books)) by {
        assert forall|k: Seq<char>| #[trigger] w.author_books.contains_key(k) implies forall|
            i: int,
        |
            0 <= i < dec_values(w.author_books[k]).len() ==> (#[trigger] dec_values(
                w.author_books[k],
            )[i]).len() > 0 && no_semi(dec_values(w.author_books[k])[i]) by {
            assert(v.author_books.contains_key(k) && w.author_books[k] == v.author_books[k]);
        }
    }
}

/// Deletion when the author's list empties: the author and every one of
/// their books cascade away, and the store stays well formed.
#[verifier::rlimit(100)]
#[verifier::spinoff_prover]
proof fn lemma_delete_author_branch(v: StoreView, index: u64)
    requires
        archive_wf(v),
        rec_contains(v, index),
        without_id(dec_ids(v.author_quotes[record_at(v, index).author])->0, index).len() == 0,
    ensures
        archive_wf(delete_quote_effect(v, record_at(v, index), index)),
{
    let q = record_at(v, index);
    lemma_delete_setup(v, index);
    lemma_delete_common(v, index);
    let v1 = StoreView { records: v.records.remove(enc_u64(index as nat)), ..v };
    let w = delete_quote_effect(v, q, index);
    let ids = dec_ids(v.author_quotes[q.author])->0;
    lemma_without_id_empty(ids, index);
    let books = dec_values(v.author_books[q.author]);
    assert(w.author_quotes == v.author_quotes.remove(q.author));
    assert(w.book_quotes == remove_keys(v.book_quotes, books));
    assert(w.book_authors == remove_keys(v.book_authors, books));
    lemma_remove_keys(v.book_quotes, books);
    lemma_remove_keys(v.book_authors, books);
    assert forall|y: u64| y != index && #[trigger] rec_contains(v, y) implies record_at(
        v,
        y,
    ).author != q.author && !books.contains(record_at(v, y).book) by {
        let qq = record_at(v, y);
        if qq.author == q.author {
            assert(has_id(v.author_quotes, q.author, y));
            assert(ids.contains(y));
        }
        if books.contains(qq.book) {
            assert(dec_values(v.author_books[qq.author]).contains(qq.book));
            assert(dec_values(v.author_books[q.author]).contains(qq.book));
            assert(qq.author == q.author);
            assert(has_id(v.author_quotes, q.author, y));
            assert(ids.contains(y));
        }
    }
    assert(fwd_wf(w)) by {
        assert forall|y: u64| #[trigger] rec_contains(w, y) implies {
            let qq = record_at(w, y);
            &&& has_id(w.author_quotes, qq.author, y)
            &&& has_id(w.book_quotes, qq.book, y)
            &&& (forall|i: int|
                0 <= i < qq.tags.len() ==> has_id(w.tag_quotes, #[trigger] qq.tags[i], y))
            &&& w.author_books.contains_key(qq.author)
            &&& dec_values(w.author_books[qq.author]).contains(qq.book)
        } by {
            assert(y != index && rec_contains(v, y));
            let qq = record_at(v, y);
            assert(record_at(w, y) == qq);
            assert(has_id(v.author_quotes, qq.author, y));
            assert(has_id(v.book_quotes, qq.book, y));
            assert(w.book_quotes.contains_key(qq.book));
            assert(w.book_quotes[qq.book] == v.book_quotes[qq.book]);
        }
    }
    assert(back_wf(w)) by {
        assert forall|k: Seq<char>, y: u64| #[trigger] has_id(w.author_quotes, k, y) implies
            rec_contains(w, y) && record_at(w, y).author == k by {
            assert(k != q.author);
            assert(has_id(v.author_quotes, k, y));
            assert(y != index) by {
                if y == index {
                    assert(record_at(v, index).author == k);
                }
            }
        }
        assert forall|k: Seq<char>, y: u64| #[trigger] has_id(w.book_quotes, k, y) implies
            rec_contains(w, y) && record_at(w, y).book == k by {
            assert(!books.contains(k));
            assert(w.book_quotes[k] == v.book_quotes[k]);
            assert(has_id(v.book_quotes, k, y));
            assert(y != index) by {
                if y == index {
                    assert(record_at(v, index).book == k);
                    assert(books.contains(q.book));
                }
            }
        }
    }
    assert(book_author_wf(w)) by {
        assert forall|b: Seq<char>| #[trigger] w.book_authors.contains_key(b) implies
            w.book_quotes.contains_key(b) by {
            assert(v.book_authors.contains_key(b) && !books.contains(b));
        }
        assert forall|b: Seq<char>, y: u64|
            w.book_authors.contains_key(b) && #[trigger] has_id(w.book_quotes, b, y) implies
            record_at(w, y).author == w.book_authors[b] by {
            assert(!books.contains(b));
            assert(w.book_quotes[b] == v.book_quotes[b]);
            assert(has_id(v.book_quotes, b, y));
            assert(y != index) by {
                if y == index {
                    assert(record_at(v, index).book == b);
                    assert(books.contains(q.book));
                }
            }
            assert(w.book_authors[b] == v.book_authors[b]);
        }
    }
    assert(list_wf(w.author_quotes));
    assert(list_wf(w.book_quotes)) by {
        assert forall|k: Seq<char>| #[trigger] w.book_quotes.contains_key(k) implies dec_ids(
            w.book_quotes[k],
        ) is Some && dec_ids(w.book_quotes[k])->0.len() > 0 && w.book_quotes[k] == enc_ids(
            dec_ids(w.book_quotes[k])->0,
        ) by {
            assert(v.book_quotes.contains_key(k));
            assert(w.book_quotes[k] == v.book_quotes[k]);
        }
    }
    assert(author_doms_wf(w));
}

/// Deletion when the author keeps other quotes: only the id leaves the
/// author's list and the book's list, cascading the book away if its list
/// empties, and the store stays well formed.
#[verifier::rlimit(100)]
#[verifier::spinoff_prover]
proof fn lemma_delete_keep_branch(v: StoreView, index: u64)
    requires
        archive_wf(v),
        rec_contains(v, index),
        without_id(dec_ids(v.author_quotes[record_at(v, index).author])->0, index).len() > 0,
    ensures
        archive_wf(delete_quote_effect(v, record_at(v, index), index)),
{
    let q = record_at(v, index);
    lemma_delete_setup(v, index);
    lemma_delete_common(v, index);
    let v1 = StoreView { records: v.records.remove(enc_u64(index as nat)), ..v };
    let w = delete_quote_effect(v, q, index);
    let ids = dec_ids(v.author_quotes[q.author])->0;
    let rest = without_id(ids, index);
    lemma_dec_enc_ids(rest);
    let ids_b = dec_ids(v.book_quotes[q.book])->0;
    let rest_b = without_id(ids_b, index);
    assert(w.author_quotes == v.author_quotes.insert(q.author, enc_ids(rest)));
    if rest_b.len() == 0 {
        lemma_without_id_empty(ids_b, index);
        assert(w.book_quotes == v.book_quotes.remove(q.book));
        assert(w.book_authors == v.book_authors.remove(q.book));
        assert forall|y: u64| y != index && #[trigger] rec_contains(v, y) implies record_at(
            v,
            y,
        ).book != q.book by {
            let qq = record_at(v, y);
            if qq.book == q.book {
                assert(has_id(v.book_quotes, q.book, y));
                assert(ids_b.contains(y));
            }
        }
    } else {
        lemma_dec_enc_ids(rest_b);
        assert(w.book_quotes == v.book_quotes.insert(q.book, enc_ids(rest_b)));
        assert(w.book_authors == v.book_authors);
    }
    assert forall|k: Seq<char>, y: u64| #[trigger] has_id(w.author_quotes, k, y) implies (has_id(
        v.author_quotes,
        k,
        y,
    ) && !(k == q.author && y == index)) by {
        if k == q.author {
            lemma_without_id_contains(ids, index, y);
        }
    }
    assert forall|k: Seq<char>, y: u64|
        has_id(v.author_quotes, k, y) && !(k == q.author && y == index) implies #[trigger] has_id(
        w.author_quotes,
        k,
        y,
    ) by {
        if k == q.author {
            lemma_without_id_contains(ids, index, y);
        }
    }
    if rest_b.len() > 0 {
        assert forall|k: Seq<char>, y: u64| #[trigger] has_id(w.book_quotes, k, y) implies (has_id(
            v.book_quotes,
            k,
            y,
        ) && !(k == q.book && y == index)) by {
            if k == q.book {
                lemma_without_id_contains(ids_b, index, y);
            }
        }
        assert forall|k: Seq<char>, y: u64|
            has_id(v.book_quotes, k, y) && !(k == q.book && y == index) implies #[trigger] has_id(
            w.book_quotes,
            k,
            y,
        ) by {
            if k == q.book {
                lemma_without_id_contains(ids_b, index, y);
            }
        }
    }
    assert(fwd_wf(w)) by {
        assert forall|y: u64| #[trigger] rec_contains(w, y) implies {
            let qq = record_at(w, y);
            &&& has_id(w.author_quotes, qq.author, y)
            &&& has_id(w.book_quotes, qq.book, y)
            &&& (forall|i: int|
                0 <= i < qq.tags.len() ==> has_id(w.tag_quotes, #[trigger] qq.tags[i], y))
            &&& w.author_books.contains_key(qq.author)
            &&& dec_values(w.author_books[qq.author]).contains(qq.book)
        } by {
            assert(y != index && rec_contains(v, y));
            let qq = record_at(v, y);
            assert(record_at(w, y) == qq);
            assert(has_id(v.author_quotes, qq.author, y));
            assert(has_id(v.book_quotes, qq.book, y));
            assert(has_id(w.author_quotes, qq.author, y));
            if rest_b.len() == 0 {
                assert(qq.book != q.book);
                assert(w.book_quotes.contains_key(qq.book) && w.book_quotes[qq.book]
                    == v.book_quotes[qq.book]);
            } else {
                assert(has_id(w.book_quotes, qq.book, y));
            }
        }
    }
    assert(back_wf(w)) by {
        assert forall|k: Seq<char>, y: u64| #[trigger] has_id(w.author_quotes, k, y) implies
            rec_contains(w, y) && record_at(w, y).author == k by {
            assert(has_id(v.author_quotes, k, y) && !(k == q.author && y == index));
            assert(y != index) by {
                if y == index {
                    assert(record_at(v, index).author == k);
                }
            }
        }
        assert forall|k: Seq<char>, y: u64| #[trigger] has_id(w.book_quotes, k, y) implies
            rec_contains(w, y) && record_at(w, y).book == k by {
            if rest_b.len() == 0 {
                assert(k != q.book);
                assert(w.book_quotes[k] == v.book_quotes[k]);
                assert(has_id(v.book_quotes, k, y));
            } else {
                assert(has_id(v.book_quotes, k, y) && !(k == q.book && y == index));
            }
            assert(y != index) by {
                if y == index {
                    assert(record_at(v, index).book == k);
                }
            }
        }
    }
    assert(book_author_wf(w)) by {
        assert forall|b: Seq<char>| #[trigger] w.book_authors.contains_key(b) implies
            w.book_quotes.contains_key(b) by {
            if rest_b.len() == 0 {
                assert(b != q.book);
                assert(v.book_authors.contains_key(b));
            } else {
                assert(v.book_authors.contains_key(b));
                if b != q.book {
                    assert(v.book_quotes.contains_key(b));
                }
            }
        }
        assert forall|b: Seq<char>, y: u64|
            w.book_authors.contains_key(b) && #[trigger] has_id(w.book_quotes, b, y) implies
            record_at(w, y).author == w.book_authors[b] by {
            if rest_b.len() == 0 {
                assert(b != q.book);
                assert(w.book_quotes[b] == v.book_quotes[b]);
                assert(has_id(v.book_quotes, b, y));
            } else {
                assert(has_id(v.book_quotes, b, y));
            }
            assert(y != index) by {
                if y == index {
                    assert(record_at(v, index).book == b);
                }
            }
            assert(w.book_authors[b] == v.book_authors[b]);
        }
    }
    assert(list_wf(w.author_quotes)) by {
        assert forall|k: Seq<char>| #[trigger] w.author_quotes.contains_key(k) implies dec_ids(
            w.author_quotes[k],
        ) is Some && dec_ids(w.author_quotes[k])->0.len() > 0 && w.author_quotes[k] == enc_ids(
            dec_ids(w.author_quotes[k])->0,
        ) by {
            if k != q.author {
                assert(v.author_quotes.contains_key(k));
            }
        }
    }
    assert(list_wf(w.book_quotes)) by {
        assert forall|k: Seq<char>| #[trigger] w.book_quotes.contains_key(k) implies dec_ids(
            w.book_quotes[k],
        ) is Some && dec_ids(w.book_quotes[k])->0.len() > 0 && w.book_quotes[k] == enc_ids(
            dec_ids(w.book_quotes[k])->0,
        ) by {
            if rest_b.len() == 0 {
                assert(k != q.book);
                assert(v.book_quotes.contains_key(k) && w.book_quotes[k] == v.book_quotes[k]);
            } else {
                if k != q.book {
                    assert(v.book_quotes.contains_key(k));
                }
            }
        }
    }
    assert(author_doms_wf(w));
}

/// Deleting a stored quote from a well-formed store leaves it well formed,
/// cascading author, book and tag entries away exactly when their lists
/// empty.  Together with `lemma_empty_wf`, `lemma_add_preserves_wf` and the
/// operations' exact contracts, this shows the invariants hold after each
/// completed operation of any add/delete run that starts from an empty
/// archive.
pub proof fn lemma_delete_preserves_wf(v: StoreView, index: u64)
    requires
        archive_wf(v),
        rec_contains(v, index),
    ensures
        archive_wf(delete_quote_effect(v, record_at(v, index), index)),
{
    let q = record_at(v, index);
    lemma_delete_setup(v, index);
    let ids = dec_ids(v.author_quotes[q.author])->0;
    if without_id(ids, index).len() == 0 {
        lemma_delete_author_branch(v, index);
    } else {
        lemma_delete_keep_branch(v, index);
    }
}

/// Adding a compatible quote to a well-formed store leaves it well formed.
/// Together with `lemma_empty_wf` and the operations' exact contracts, this
/// shows the invariants hold after each completed addition of any run that
/// starts from an empty archive.
pub proof fn lemma_add_preserves_wf(v: StoreView, q: QuoteV)
    requires
        archive_wf(v),
        add_compatible(v, q),
    ensures
        archive_wf(add_quote_effect(v, q)),
{
    lemma_add_setup(v, q);
    lemma_add_ab(v, q);
    lemma_add_records(v, q);
    lemma_add_fwd(v, q);
    lemma_add_back(v, q);
    lemma_add_books(v, q);
}

/// Re-sorting one entry keeps the map's keys, its well-formedness and every
/// membership fact: only the order within the entry changes.
proof fn lemma_sort_keeps(m: Map<Seq<char>, Seq<char>>, k: Seq<char>)
    requires
        list_wf(m),
    ensures
        ({
            let m2 = crate::database::sort_ids_effect(m, k);
            &&& list_wf(m2)
            &&& (forall|k2: Seq<char>|
                #[trigger] m2.contains_key(k2) <==> m.contains_key(k2))
            &&& (forall|k2: Seq<char>, y: u64|
                #[trigger] has_id(m2, k2, y) <==> has_id(m, k2, y))
            &&& (forall|k2: Seq<char>| k2 != k && m2.contains_key(k2) ==> m2[k2] == m[k2])
        }),
{
    let m2 = crate::database::sort_ids_effect(m, k);
    if m.contains_key(k) {
        let ids = dec_ids(m[k])->0;
        let s = crate::database::sorted_ids(ids);
        let leq = |a: u64, b: u64| a <= b;
        ids.lemma_sort_by_ensures(leq);
        ids.to_multiset_ensures();
        s.to_multiset_ensures();
        lemma_dec_enc_ids(s);
        assert(m2 == m.insert(k, enc_ids(s)));
        assert(s.len() == ids.len()) by {
            assert(s.to_multiset() =~= ids.to_multiset());
        }
        assert forall|y: u64| s.contains(y) <==> ids.contains(y) by {
            assert(s.to_multiset() =~= ids.to_multiset());
            assert(s.to_multiset().count(y) == ids.to_multiset().count(y));
            assert(s.contains(y) <==> s.to_multiset().count(y) > 0);
            assert(ids.contains(y) <==> ids.to_multiset().count(y) > 0);
        }
        assert forall|k2: Seq<char>| #[trigger] m2.contains_key(k2) implies dec_ids(m2[k2]) is Some
            && dec_ids(m2[k2])->0.len() > 0 && m2[k2] == enc_ids(dec_ids(m2[k2])->0) by {
            if k2 != k {
                assert(m.contains_key(k2));
            }
        }
        assert forall|k2: Seq<char>, y: u64| #[trigger] has_id(m2, k2, y) <==> has_id(
            m,
            k2,
            y,
        ) by {
            if k2 == k {
                assert(s.contains(y) <==> ids.contains(y));
            }
        }
    }
}

/// Re-sorting the entry of every listed tag keeps the keys, the
/// well-formedness and every membership fact.
proof fn lemma_sort_tags_keeps(m: Map<Seq<char>, Seq<char>>, tags: Seq<Seq<char>>)
    requires
        list_wf(m),
    ensures
        ({
            let m2 = crate::database::sort_tags_effect(m, tags);
            &&& list_wf(m2)
            &&& (forall|k2: Seq<char>|
                #[trigger] m2.contains_key(k2) <==> m.contains_key(k2))
            &&& (forall|k2: Seq<char>, y: u64|
                #[trigger] has_id(m2, k2, y) <==> has_id(m, k2, y))
        }),
    decreases tags.len(),
{
    if tags.len() > 0 {
        let m1 = crate::database::sort_ids_effect(m, tags[0]);
        lemma_sort_keeps(m, tags[0]);
        lemma_sort_tags_keeps(m1, tags.drop_first());
        assert(crate::database::sort_tags_effect(m, tags) == crate::database::sort_tags_effect(
            m1,
            tags.drop_first(),
        ));
    }
}

/// Well-formedness carries across stores that agree on records, books and
/// counter while the three id-list mappings keep their keys and memberships:
/// only the order inside lists may differ.
proof fn lemma_wf_transfer(x: StoreView, y: StoreView)
    requires
        archive_wf(x),
        y.records == x.records,
        y.author_books == x.author_books,
        y.book_authors == x.book_authors,
        y.meta == x.meta,
        list_wf(y.author_quotes),
        list_wf(y.book_quotes),
        list_wf(y.tag_quotes),
        forall|k: Seq<char>|
            #[trigger] y.author_quotes.contains_key(k) <==> x.author_quotes.contains_key(k),
        forall|k: Seq<char>, id: u64|
            #[trigger] has_id(y.author_quotes, k, id) <==> has_id(x.author_quotes, k, id),
        forall|k: Seq<char>|
            #[trigger] y.book_quotes.contains_key(k) <==> x.book_quotes.contains_key(k),
        forall|k: Seq<char>, id: u64|
            #[trigger] has_id(y.book_quotes, k, id) <==> has_id(x.book_quotes, k, id),
        forall|k: Seq<char>, id: u64|
            #[trigger] has_id(y.tag_quotes, k, id) <==> has_id(x.tag_quotes, k, id),
    ensures
        archive_wf(y),
{
    assert forall|id: u64| y.records.contains_key(enc_u64(id as nat)) implies (
    #[trigger] rec_contains(y, id) <==> rec_contains(x, id)) by {}
    assert(fwd_wf(y)) by {
        assert forall|id: u64| #[trigger] rec_contains(y, id) implies {
            let qq = record_at(y, id);
            &&& has_id(y.author_quotes, qq.author, id)
            &&& has_id(y.book_quotes, qq.book, id)
            &&& (forall|i: int|
                0 <= i < qq.tags.len() ==> has_id(y.tag_quotes, #[trigger] qq.tags[i], id))
            &&& y.author_books.contains_key(qq.author)
            &&& dec_values(y.author_books[qq.author]).contains(qq.book)
        } by {
            assert(rec_contains(x, id));
            let qq = record_at(x, id);
            assert(record_at(y, id) == qq);
            assert(has_id(x.author_quotes, qq.author, id));
            assert(has_id(x.book_quotes, qq.book, id));
            assert forall|i: int| 0 <= i < qq.tags.len() implies has_id(
                y.tag_quotes,
                #[trigger] qq.tags[i],
                id,
            ) by {
                assert(has_id(x.tag_quotes, qq.tags[i], id));
            }
        }
    }
    assert(back_wf(y)) by {
        assert forall|k: Seq<char>, id: u64| #[trigger] has_id(y.author_quotes, k, id) implies
            rec_contains(y, id) && record_at(y, id).author == k by {
            assert(has_id(x.author_quotes, k, id));
            assert(rec_contains(x, id));
        }
        assert forall|k: Seq<char>, id: u64| #[trigger] has_id(y.book_quotes, k, id) implies
            rec_contains(y, id) && record_at(y, id).book == k by {
            assert(has_id(x.book_quotes, k, id));
            assert(rec_contains(x, id));
        }
        assert forall|k: Seq<char>, id: u64| #[trigger] has_id(y.tag_quotes, k, id) implies
            rec_contains(y, id) && record_at(y, id).tags.contains(k) by {
            assert(has_id(x.tag_quotes, k, id));
            assert(rec_contains(x, id));
        }
    }
    assert(author_doms_wf(y)) by {
        assert forall|a: Seq<char>|
            #[trigger] y.author_quotes.contains_key(a) <==> #[trigger] y.author_books.contains_key(
                a,
            ) by {
            assert(x.author_quotes.contains_key(a) <==> x.author_books.contains_key(a));
        }
    }
    assert(book_author_wf(y)) by {
        assert forall|b: Seq<char>| #[trigger] y.book_authors.contains_key(b) implies
            y.book_quotes.contains_key(b) by {
            assert(x.book_quotes.contains_key(b));
        }
        assert forall|b: Seq<char>, id: u64|
            y.book_authors.contains_key(b) && #[trigger] has_id(y.book_quotes, b, id) implies
            record_at(y, id).author == y.book_authors[b] by {
            assert(has_id(x.book_quotes, b, id));
            assert(rec_contains(x, id));
        }
    }
    assert(counter_wf(y)) by {
        assert forall|id: u64| #[trigger] rec_contains(y, id) implies id <= counter_of(y.meta) by {
            assert(rec_contains(x, id));
        }
    }
}

/// After a deletion the identifier is gone from every mapping: no author,
/// book or tag list still names it.
pub proof fn lemma_deleted_id_unlinked(v: StoreView, index: u64)
    requires
        archive_wf(v),
        rec_contains(v, index),
    ensures
        ({
            let w = delete_quote_effect(v, record_at(v, index), index);
            forall|k: Seq<char>|
                !(#[trigger] has_id(w.author_quotes, k, index)) && !has_id(
                    w.book_quotes,
                    k,
                    index,
                ) && !has_id(w.tag_quotes, k, index)
        }),
{
    let w = delete_quote_effect(v, record_at(v, index), index);
    lemma_delete_preserves_wf(v, index);
    lemma_delete_common(v, index);
    assert forall|k: Seq<char>|
        !(#[trigger] has_id(w.author_quotes, k, index)) && !has_id(w.book_quotes, k, index)
            && !has_id(w.tag_quotes, k, index) by {
        assert(!rec_contains(w, index));
        if has_id(w.author_quotes, k, index) || has_id(w.book_quotes, k, index) || has_id(
            w.tag_quotes,
            k,
            index,
        ) {
            assert(rec_contains(w, index));
        }
    }
}

/// In a well-formed store, an author's quote list holds exactly the ids
/// reachable through the author's books: an id is listed for the author
/// exactly when some book of the author lists it.
pub proof fn lemma_author_books_union(v: StoreView, a: Seq<char>, id: u64)
    requires
        archive_wf(v),
        v.author_quotes.contains_key(a),
    ensures
        has_id(v.author_quotes, a, id) <==> exists|b: Seq<char>|
            #[trigger] dec_values(v.author_books[a]).contains(b) && has_id(v.book_quotes, b, id),
{
    assert(v.author_books.contains_key(a));
    if has_id(v.author_quotes, a, id) {
        let q = record_at(v, id);
        assert(q.author == a);
        assert(rec_contains(v, id));
        assert(dec_values(v.author_books[a]).contains(q.book) && has_id(
            v.book_quotes,
            q.book,
            id,
        ));
    }
    if exists|b: Seq<char>|
        #[trigger] dec_values(v.author_books[a]).contains(b) && has_id(v.book_quotes, b, id) {
        let b = choose|b: Seq<char>|
            #[trigger] dec_values(v.author_books[a]).contains(b) && has_id(v.book_quotes, b, id);
        let q = record_at(v, id);
        assert(q.book == b);
        assert(rec_contains(v, id));
        assert(dec_values(v.author_books[q.author]).contains(b));
        assert(q.author == a);
        assert(has_id(v.author_quotes, a, id));
    }
}

/// True when a change may replace the quote stored under `index` by `q`
/// without breaking the invariants: the new quote's key texts are
/// delimiter-free and nonempty, its identifier is the changed one, the
/// counter has headroom, and its book is not attributed to another author.
/// These mirror the conditions of an addition and are sufficient, not
/// necessary: in particular the book condition also excludes taking over a
/// book from the author being unindexed.
pub open spec fn change_compatible(v: StoreView, q: QuoteV, index: u64) -> bool {
    &&& quote_v_valid(q)
    &&& quote_keys_clean(q)
    &&& q.author.len() > 0
    &&& q.book.len() > 0
    &&& q.index == index
    &&& counter_of(v.meta) < u64::MAX
    &&& forall|a: Seq<char>|
        v.author_books.contains_key(a) && #[trigger] dec_values(v.author_books[a]).contains(q.book)
            ==> a == q.author
}

/// Changing a stored quote in a well-formed store leaves it well formed:
/// the change unindexes like a deletion, indexes like an addition under the
/// same identifier, and re-sorts, each of which preserves the invariants.
#[verifier::rlimit(100)]
#[verifier::spinoff_prover]
pub proof fn lemma_change_preserves_wf(v: StoreView, q: QuoteV, index: u64)
    requires
        archive_wf(v),
        rec_contains(v, index),
        change_compatible(v, q, index),
    ensures
        archive_wf(change_quote_effect(v, record_at(v, index), q, index)),
{
    let old_q = record_at(v, index);
    lemma_delete_setup(v, index);
    lemma_delete_preserves_wf(v, index);
    lemma_delete_common(v, index);
    let d = delete_quote_effect(v, old_q, index);
    assert(add_compatible(d, q)) by {
        assert(!rec_contains(d, index));
        assert(counter_of(d.meta) == counter_of(v.meta));
        assert(index <= counter_of(v.meta));
        assert forall|a: Seq<char>|
            d.author_books.contains_key(a) && #[trigger] dec_values(d.author_books[a]).contains(
            q.book,
        ) implies a == q.author by {
            assert(v.author_books.contains_key(a) && d.author_books[a] == v.author_books[a]);
        }
    }
    lemma_add_preserves_wf(d, q);
    lemma_add_setup(d, q);
    let a = add_quote_effect(d, q);
    let kq = enc_u64(index as nat);

    // the change's stages
    let v1 = delete_from_author_and_book_effect(v, old_q.author, old_q.book, index);
    let v2 = StoreView { tag_quotes: delete_tags_effect(v1.tag_quotes, old_q.tags, index), ..v1 };
    let v3 = crate::database::add_author_book_effect(v2, q.author, q.book, index);
    let v4 = StoreView { tag_quotes: merge_tag_ids(v3.tag_quotes, q.tags, index), ..v3 };
    let v5 = StoreView { records: v4.records.insert(kq, enc_quote(q)), ..v4 };
    let v6 = StoreView {
        author_quotes: crate::database::sort_ids_effect(v5.author_quotes, q.author),
        ..v5
    };
    let v7 = StoreView {
        book_quotes: crate::database::sort_ids_effect(v6.book_quotes, q.book),
        ..v6
    };
    let w = crate::database::change_quote_effect(v, old_q, q, index);
    assert(w == StoreView {
        tag_quotes: crate::database::sort_tags_effect(v7.tag_quotes, q.tags),
        ..v7
    });

    // the deletion's unindexing stages, on the store without the record
    let u1 = StoreView { records: v.records.remove(kq), ..v };
    let u2 = delete_from_author_and_book_effect(u1, old_q.author, old_q.book, index);
    assert(d == StoreView {
        tag_quotes: delete_tags_effect(u2.tag_quotes, old_q.tags, index),
        ..u2
    });

    // unindexing does not read the record store, so the stages agree there
    assert(u2.author_quotes == v1.author_quotes && u2.author_books == v1.author_books
        && u2.book_quotes == v1.book_quotes && u2.book_authors == v1.book_authors && u2.tag_quotes
        == v1.tag_quotes && u2.meta == v1.meta && v1.records == v.records && u2.records
        == u1.records) by {
        let ids = dec_ids(v.author_quotes[old_q.author])->0;
        let rest = without_id(ids, index);
        if rest.len() == 0 {
            assert(u2 == delete_author_effect(u1, old_q.author));
            assert(v1 == delete_author_effect(v, old_q.author));
        }
    }

    // indexing the new quote lands in the same mappings either way
    assert(a.author_quotes == v5.author_quotes);
    assert(a.author_books == v5.author_books);
    assert(a.book_quotes == v5.book_quotes);
    assert(a.book_authors == v5.book_authors);
    assert(a.tag_quotes == v5.tag_quotes);
    assert(v5.meta == v.meta);
    assert(v5.records =~= a.records) by {
        assert(a.records == v.records.remove(kq).insert(kq, enc_quote(q)));
        assert(v5.records == v.records.insert(kq, enc_quote(q)));
        assert(v.records.remove(kq).insert(kq, enc_quote(q)) =~= v.records.insert(
            kq,
            enc_quote(q),
        ));
    }

    // well-formedness of the pre-sort stage: as after the addition, with the
    // counter kept
    assert(list_wf(v5.author_quotes) && list_wf(v5.book_quotes) && list_wf(v5.tag_quotes));
    assert(archive_wf(v5)) by {
        assert(records_wf(v5)) by {
            assert(v5.records == a.records);
        }
        assert(fwd_wf(v5)) by {
            assert forall|id: u64| #[trigger] rec_contains(v5, id) implies {
                let qq = record_at(v5, id);
                &&& has_id(v5.author_quotes, qq.author, id)
                &&& has_id(v5.book_quotes, qq.book, id)
                &&& (forall|i: int|
                    0 <= i < qq.tags.len() ==> has_id(v5.tag_quotes, #[trigger] qq.tags[i], id))
                &&& v5.author_books.contains_key(qq.author)
                &&& dec_values(v5.author_books[qq.author]).contains(qq.book)
            } by {
                assert(rec_contains(a, id));
                assert(record_at(v5, id) == record_at(a, id));
            }
        }
        assert(back_wf(v5)) by {
            assert forall|k: Seq<char>, id: u64| #[trigger] has_id(v5.author_quotes, k, id) implies
                rec_contains(v5, id) && record_at(v5, id).author == k by {
                assert(has_id(a.author_quotes, k, id));
                assert(rec_contains(a, id));
                assert(record_at(v5, id) == record_at(a, id));
            }
            assert forall|k: Seq<char>, id: u64| #[trigger] has_id(v5.book_quotes, k, id) implies
                rec_contains(v5, id) && record_at(v5, id).book == k by {
                assert(has_id(a.book_quotes, k, id));
                assert(rec_contains(a, id));
                assert(record_at(v5, id) == record_at(a, id));
            }
            assert forall|k: Seq<char>, id: u64| #[trigger] has_id(v5.tag_quotes, k, id) implies
                rec_contains(v5, id) && record_at(v5, id).tags.contains(k) by {
                assert(has_id(a.tag_quotes, k, id));
                assert(rec_contains(a, id));
                assert(record_at(v5, id) == record_at(a, id));
            }
        }
        assert(author_doms_wf(v5));
        assert(book_author_wf(v5)) by {
            assert forall|b: Seq<char>, id: u64|
                v5.book_authors.contains_key(b) && #[trigger] has_id(v5.book_quotes, b, id) implies
                record_at(v5, id).author == v5.book_authors[b] by {
                assert(has_id(a.book_quotes, b, id));
                assert(rec_contains(a, id));
                assert(record_at(v5, id) == record_at(a, id));
            }
        }
        assert(ownership_wf(v5));
        assert(counter_wf(v5)) by {
            assert forall|id: u64| #[trigger] rec_contains(v5, id) implies id <= counter_of(
                v5.meta,
            ) by {
                assert(rec_contains(a, id));
                if id != q.index {
                    assert(rec_contains(d, id));
                    assert(rec_contains(v, id));
                }
            }
        }
    }

    // the three sorting passes keep keys and memberships
    lemma_sort_keeps(v5.author_quotes, q.author);
    lemma_wf_transfer(v5, v6);
    lemma_sort_keeps(v6.book_quotes, q.book);
    lemma_wf_transfer(v6, v7);
    lemma_sort_tags_keeps(v7.tag_quotes, q.tags);
    assert(archive_wf(w)) by {
        lemma_wf_transfer(v7, w);
    }
}

} // verus!
