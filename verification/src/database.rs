//! The index-maintenance engine.
//!
//! A `Trees` value owns the record store and five derived mappings, each a
//! tree in one `sled` database:
//! author to quote ids, author to books, book to quote ids, book to author,
//! and tag to quote ids, together with a monotonically increasing identifier
//! counter.  Every operation states exactly how it transforms the contents of
//! the trees, over the codec's encodings.

use vstd::prelude::*;

use crate::codec::{
    dec_ids, dec_values, decode_ids_string, decode_values_string, enc_ids, enc_u64,
    encode_ids_string, format_u64_string, num_of, parse_u64_string,
};
use crate::dates::Date;
use crate::errors::QuothError;
use crate::quotes::{enc_quote, parse_quote, Quote, QuoteV};
use crate::store::{
    entries_match, merged_value, tree_clear, tree_entries, tree_get, tree_insert, tree_merge,
    tree_remove, tree_view,
};

verus! {

/// The record store and the five index mappings, plus the counter.
pub struct Trees {
    db: sled::Db,
    quotes: sled::Tree,
    author_quotes: sled::Tree,
    author_books: sled::Tree,
    book_quotes: sled::Tree,
    book_authors: sled::Tree,
    tag_quotes: sled::Tree,
    meta: sled::Tree,
}

/// The raw contents of the archive's trees.
#[verifier::ext_equal]
pub struct StoreView {
    /// identifier numeral to record text
    pub records: Map<Seq<char>, Seq<char>>,
    /// author to encoded quote-id list
    pub author_quotes: Map<Seq<char>, Seq<char>>,
    /// author to encoded book-title list
    pub author_books: Map<Seq<char>, Seq<char>>,
    /// book to encoded quote-id list
    pub book_quotes: Map<Seq<char>, Seq<char>>,
    /// book to its author
    pub book_authors: Map<Seq<char>, Seq<char>>,
    /// tag to encoded quote-id list
    pub tag_quotes: Map<Seq<char>, Seq<char>>,
    /// the counter tree, holding the identifier counter
    pub meta: Map<Seq<char>, Seq<char>>,
}

impl View for Trees {
    type V = StoreView;

    closed spec fn view(&self) -> StoreView {
        StoreView {
            records: tree_view(self.quotes),
            author_quotes: tree_view(self.author_quotes),
            author_books: tree_view(self.author_books),
            book_quotes: tree_view(self.book_quotes),
            book_authors: tree_view(self.book_authors),
            tag_quotes: tree_view(self.tag_quotes),
            meta: tree_view(self.meta),
        }
    }
}

/// The key under which the identifier counter is stored.
pub open spec fn counter_key() -> Seq<char> {
    "quote_index"@
}

/// The counter value encoded in the counter tree: zero when absent or
/// unreadable.
pub open spec fn counter_of(meta: Map<Seq<char>, Seq<char>>) -> u64 {
    if meta.contains_key(counter_key()) {
        match num_of(meta[counter_key()]) {
            Some(n) => n,
            None => 0,
        }
    } else {
        0
    }
}

/// An empty store: no records, no index entries, no counter.
pub open spec fn store_empty(v: StoreView) -> bool {
    &&& v.records == Map::<Seq<char>, Seq<char>>::empty()
    &&& v.author_quotes == Map::<Seq<char>, Seq<char>>::empty()
    &&& v.author_books == Map::<Seq<char>, Seq<char>>::empty()
    &&& v.book_quotes == Map::<Seq<char>, Seq<char>>::empty()
    &&& v.book_authors == Map::<Seq<char>, Seq<char>>::empty()
    &&& v.tag_quotes == Map::<Seq<char>, Seq<char>>::empty()
    &&& v.meta == Map::<Seq<char>, Seq<char>>::empty()
}

// ------------------------------------------------------------------
// Effects: how each operation transforms the store
// ------------------------------------------------------------------

/// Merge-appends a value under a key.
pub open spec fn merge_into(m: Map<Seq<char>, Seq<char>>, k: Seq<char>, v: Seq<char>) -> Map<
    Seq<char>,
    Seq<char>,
> {
    m.insert(k, merged_value(m, k, v))
}

/// The linkage step of adding a quote: the id joins the author's list; the
/// book joins the author's books unless already listed; the id joins the
/// book's list; the book's author is set.
pub open spec fn add_author_book_effect(
    v: StoreView,
    author: Seq<char>,
    book: Seq<char>,
    index: u64,
) -> StoreView {
    let aq = merge_into(v.author_quotes, author, enc_u64(index as nat));
    let ab = if !v.author_books.contains_key(author) {
        v.author_books.insert(author, book)
    } else if dec_values(v.author_books[author]).contains(book) {
        v.author_books
    } else {
        merge_into(v.author_books, author, book)
    };
    let bq = merge_into(v.book_quotes, book, enc_u64(index as nat));
    let ba = v.book_authors.insert(book, author);
    StoreView {
        records: v.records,
        author_quotes: aq,
        author_books: ab,
        book_quotes: bq,
        book_authors: ba,
        tag_quotes: v.tag_quotes,
        meta: v.meta,
    }
}

/// Merge-appends the id under each tag, in order.
pub open spec fn merge_tag_ids(
    m: Map<Seq<char>, Seq<char>>,
    tags: Seq<Seq<char>>,
    index: u64,
) -> Map<Seq<char>, Seq<char>>
    decreases tags.len(),
{
    if tags.len() == 0 {
        m
    } else {
        merge_tag_ids(merge_into(m, tags[0], enc_u64(index as nat)), tags.drop_first(), index)
    }
}

/// The whole effect of adding a quote: the record is written, the author,
/// book and tag mappings take the id, and the counter advances.
pub open spec fn add_quote_effect(v: StoreView, q: QuoteV) -> StoreView {
    let v1 = StoreView {
        records: v.records.insert(enc_u64(q.index as nat), enc_quote(q)),
        author_quotes: v.author_quotes,
        author_books: v.author_books,
        book_quotes: v.book_quotes,
        book_authors: v.book_authors,
        tag_quotes: v.tag_quotes,
        meta: v.meta,
    };
    let v2 = add_author_book_effect(v1, q.author, q.book, q.index);
    let v3 = StoreView {
        records: v2.records,
        author_quotes: v2.author_quotes,
        author_books: v2.author_books,
        book_quotes: v2.book_quotes,
        book_authors: v2.book_authors,
        tag_quotes: merge_tag_ids(v2.tag_quotes, q.tags, q.index),
        meta: v2.meta,
    };
    StoreView {
        records: v3.records,
        author_quotes: v3.author_quotes,
        author_books: v3.author_books,
        book_quotes: v3.book_quotes,
        book_authors: v3.book_authors,
        tag_quotes: v3.tag_quotes,
        meta: v3.meta.insert(counter_key(), enc_u64((counter_of(v.meta) + 1) as nat)),
    }
}

/// True when the error is one the store layer or a corrupt value produces,
/// never one of the archive's own named failures.
pub open spec fn is_store_or_codec_error(e: QuothError) -> bool {
    ||| e matches QuothError::MalformedIndex
    ||| e matches QuothError::StoreError { .. }
}

/// True when the error reports an absent key met while walking the indices.
pub open spec fn is_lookup_error(e: QuothError) -> bool {
    ||| e matches QuothError::QuoteNotFound { .. }
    ||| e matches QuothError::AuthorNotFound { .. }
    ||| e matches QuothError::BookNotFound { .. }
    ||| e matches QuothError::TagNotFound { .. }
}

/// True when the two store views agree on everything but the counter tree.
pub open spec fn same_except_meta(a: StoreView, b: StoreView) -> bool {
    &&& a.records == b.records
    &&& a.author_quotes == b.author_quotes
    &&& a.author_books == b.author_books
    &&& a.book_quotes == b.book_quotes
    &&& a.book_authors == b.book_authors
    &&& a.tag_quotes == b.tag_quotes
}

/// True when no part of the quote that becomes an index key contains the
/// delimiter character.
pub open spec fn quote_keys_clean(q: QuoteV) -> bool {
    &&& crate::codec::no_semi(q.author)
    &&& crate::codec::no_semi(q.book)
    &&& forall|i: int| 0 <= i < q.tags.len() ==> crate::codec::no_semi(#[trigger] q.tags[i])
}

impl Trees {
    /// Assembles the archive's trees inside one opened database and installs
    /// the appending merge operator on the four list-valued trees.
    fn assemble(db: sled::Db) -> Result<Trees, QuothError> {
        let quotes = open_tree_named(&db, "quote")?;
        let author_quotes = open_tree_named(&db, "author_quote")?;
        let author_books = open_tree_named(&db, "author_book")?;
        let book_quotes = open_tree_named(&db, "book_quote")?;
        let book_authors = open_tree_named(&db, "book_author")?;
        let tag_quotes = open_tree_named(&db, "tag_quote")?;
        let meta = open_tree_named(&db, "meta")?;
        install_append_operator(&author_quotes);
        install_append_operator(&author_books);
        install_append_operator(&book_quotes);
        install_append_operator(&tag_quotes);
        Ok(
            Trees {
                db,
                quotes,
                author_quotes,
                author_books,
                book_quotes,
                book_authors,
                tag_quotes,
                meta,
            },
        )
    }

    /// Opens (or creates) the archive inside the directory at `path`.  The
    /// contents are whatever the directory holds.
    pub fn read(path: &str) -> Result<Trees, QuothError> {
        let db = open_db_at(path)?;
        Trees::assemble(db)
    }

    /// Opens a fresh, empty archive backed by temporary storage that is
    /// removed on drop.  Emptiness is not assumed of the storage: the trees
    /// are cleared after assembly, so the ensures rests on `clear` alone.
    pub fn temporary() -> (r: Result<Trees, QuothError>)
        ensures
            match r {
                Ok(t) => store_empty(t@),
                Err(e) => true,
            },
    {
        let db = open_temporary_db()?;
        let mut trees = Trees::assemble(db)?;
        trees.clear()?;
        Ok(trees)
    }

    /// The current value of the identifier counter; zero before any quote
    /// was added.
    pub fn get_quote_index(&self) -> (r: Result<u64, QuothError>)
        ensures
            match r {
                Ok(n) => {
                    &&& n == counter_of(self@.meta)
                    &&& (self@.meta.contains_key(counter_key()) ==> num_of(
                        self@.meta[counter_key()],
                    ) == Some(n))
                    &&& (!self@.meta.contains_key(counter_key()) ==> n == 0)
                },
                Err(e) => is_store_or_codec_error(e),
            },
    {
        match tree_get(&self.meta, "quote_index") {
            Ok(Some(s)) => match parse_u64_string(s.as_str()) {
                Some(n) => Ok(n),
                None => Err(QuothError::MalformedIndex),
            },
            Ok(None) => Ok(0),
            Err(e) => Err(e),
        }
    }

    /// Advances the identifier counter by one.
    pub fn increment_quote_index(&mut self) -> (r: Result<(), QuothError>)
        ensures
            match r {
                Ok(u) => {
                    &&& counter_of(old(self)@.meta) < u64::MAX
                    &&& same_except_meta(old(self)@, final(self)@)
                    &&& final(self)@.meta == old(self)@.meta.insert(
                        counter_key(),
                        enc_u64((counter_of(old(self)@.meta) + 1) as nat),
                    )
                },
                Err(e) => {
                    &&& (is_store_or_codec_error(e) || e matches QuothError::OutOfCheeseError {
                        ..
                    })
                    &&& (e matches QuothError::OutOfCheeseError { .. } ==> counter_of(
                        old(self)@.meta,
                    ) == u64::MAX && final(self)@ == old(self)@)
                },
            },
    {
        let n = self.get_quote_index()?;
        if n == u64::MAX {
            return Err(
                QuothError::OutOfCheeseError { message: String::from_str("counter exhausted") },
            );
        }
        let encoded = format_u64_string(n + 1);
        tree_insert(&mut self.meta, "quote_index", encoded.as_str())
    }
}

/// True when the string list contains the given string.
fn contains_string(list: &Vec<String>, x: &String) -> (r: bool)
    ensures
        r == list.deep_view().contains(x@),
{
    let n = list.len();
    for i in 0..n
        invariant
            n == list@.len(),
            forall|j: int| 0 <= j < i ==> list@[j]@ != x@,
    {
        if list[i].eq(x) {
            assert(list.deep_view()[i as int] == list@[i as int]@);
            return true;
        }
        assert(list@[i as int]@ != x@);
    }
    assert forall|j: int| 0 <= j < list.deep_view().len() implies list.deep_view()[j] != x@ by {
        assert(list.deep_view()[j] == list@[j]@);
    }
    false
}

impl Trees {
    /// Links one quote id to its author and book: the id joins the author's
    /// list; the book joins the author's books unless already listed; the id
    /// joins the book's list; the book's author is set.
    fn add_author_and_book(&mut self, author: &String, book: &String, index: u64) -> (r: Result<
        (),
        QuothError,
    >)
        ensures
            match r {
                Ok(u) => final(self)@ == add_author_book_effect(old(self)@, author@, book@, index),
                Err(e) => is_store_or_codec_error(e),
            },
    {
        let index_str = format_u64_string(index);
        tree_merge(&mut self.author_quotes, author.as_str(), index_str.as_str())?;
        let existing = tree_get(&self.author_books, author.as_str())?;
        match existing {
            Some(books) => {
                let list = decode_values_string(&books);
                if !contains_string(&list, book) {
                    tree_merge(&mut self.author_books, author.as_str(), book.as_str())?;
                }
            },
            None => {
                tree_insert(&mut self.author_books, author.as_str(), book.as_str())?;
            },
        }
        tree_merge(&mut self.book_quotes, book.as_str(), index_str.as_str())?;
        tree_insert(&mut self.book_authors, book.as_str(), author.as_str())?;
        proof {
            assert(self@ =~~= add_author_book_effect(old(self)@, author@, book@, index));
        }
        Ok(())
    }

    /// Adds a quote to the archive: writes the record, links the id into the
    /// author, book and tag mappings, and advances the counter.  The
    /// identifier must be new, and no key text may contain the delimiter.
    pub fn add_quote(&mut self, quote: &Quote) -> (r: Result<u64, QuothError>)
        ensures
            match r {
                Ok(i) => {
                    &&& i == quote@.index
                    &&& quote_keys_clean(quote@)
                    &&& !old(self)@.records.contains_key(enc_u64(quote@.index as nat))
                    &&& counter_of(old(self)@.meta) < u64::MAX
                    &&& final(self)@ == add_quote_effect(old(self)@, quote@)
                    &&& (crate::consistency::archive_wf(old(self)@)
                        && crate::consistency::add_compatible(old(self)@, quote@)
                        ==> crate::consistency::archive_wf(final(self)@))
                },
                Err(e) => {
                    &&& (e matches QuothError::DuplicateIdentifier { index } ==> index
                        == quote@.index && old(self)@.records.contains_key(
                        enc_u64(quote@.index as nat),
                    ) && final(self)@ == old(self)@)
                    &&& (e matches QuothError::DelimiterInInput ==> !quote_keys_clean(quote@)
                        && final(self)@ == old(self)@)
                    &&& (!quote_keys_clean(quote@) ==> e matches QuothError::DelimiterInInput)
                    &&& (e matches QuothError::OutOfCheeseError { .. } ==> counter_of(
                        old(self)@.meta,
                    ) == u64::MAX && final(self)@ == old(self)@)
                    &&& (is_store_or_codec_error(e) || e matches QuothError::DelimiterInInput
                        || e matches QuothError::DuplicateIdentifier { .. }
                        || e matches QuothError::OutOfCheeseError { .. })
                },
            },
    {
        if crate::codec::contains_semi(quote.author.as_str()) || crate::codec::contains_semi(
            quote.book.as_str(),
        ) {
            return Err(QuothError::DelimiterInInput);
        }
        let ntags = quote.tags.len();
        for ti in 0..ntags
            invariant
                ntags == quote.tags@.len(),
                quote@.tags == quote.tags.deep_view(),
                crate::codec::no_semi(quote@.author),
                crate::codec::no_semi(quote@.book),
                forall|j: int| 0 <= j < ti ==> crate::codec::no_semi(#[trigger] quote@.tags[j]),
                self@ == old(self)@,
        {
            if crate::codec::contains_semi(quote.tags[ti].as_str()) {
                assert(!crate::codec::no_semi(quote@.tags[ti as int]));
                return Err(QuothError::DelimiterInInput);
            }
            assert(quote@.tags[ti as int] == quote.tags@[ti as int]@);
        }
        proof {
            assert(quote_keys_clean(quote@));
        }
        let n = self.get_quote_index()?;
        if n == u64::MAX {
            return Err(
                QuothError::OutOfCheeseError { message: String::from_str("counter exhausted") },
            );
        }
        let key = format_u64_string(quote.index);
        match tree_get(&self.quotes, key.as_str())? {
            Some(found) => {
                return Err(QuothError::DuplicateIdentifier { index: quote.index });
            },
            None => {},
        }
        let record = quote.to_record();
        tree_insert(&mut self.quotes, key.as_str(), record.as_str())?;
        self.add_author_and_book(&quote.author, &quote.book, quote.index)?;
        let ghost mid = self@;
        let index_str = format_u64_string(quote.index);
        let mut ti: usize = 0;
        proof {
            assert(quote@.tags.skip(0) =~= quote@.tags);
        }
        while ti < ntags
            invariant
                ti <= ntags == quote.tags@.len(),
                quote@.tags == quote.tags.deep_view(),
                quote_keys_clean(quote@),
                index_str@ == enc_u64(quote@.index as nat),
                merge_tag_ids(mid.tag_quotes, quote@.tags, quote@.index) == merge_tag_ids(
                    self@.tag_quotes,
                    quote@.tags.skip(ti as int),
                    quote@.index,
                ),
                self@.records == mid.records,
                self@.author_quotes == mid.author_quotes,
                self@.author_books == mid.author_books,
                self@.book_quotes == mid.book_quotes,
                self@.book_authors == mid.book_authors,
                self@.meta == mid.meta,
            decreases ntags - ti,
        {
            proof {
                assert(quote@.tags.skip(ti as int)[0] == quote@.tags[ti as int]);
                assert(quote@.tags.skip(ti as int).drop_first() =~= quote@.tags.skip(ti + 1));
            }
            tree_merge(&mut self.tag_quotes, quote.tags[ti].as_str(), index_str.as_str())?;
            ti += 1;
        }
        proof {
            assert(quote@.tags.skip(ntags as int) =~= Seq::<Seq<char>>::empty());
        }
        self.increment_quote_index()?;
        proof {
            assert(self@ =~~= add_quote_effect(old(self)@, quote@));
            if crate::consistency::archive_wf(old(self)@) && crate::consistency::add_compatible(
                old(self)@,
                quote@,
            ) {
                crate::consistency::lemma_add_preserves_wf(old(self)@, quote@);
            }
        }
        Ok(quote.index)
    }

    /// The quote stored under an identifier.
    pub fn get_quote(&self, index: u64) -> (r: Result<Quote, QuothError>)
        ensures
            match r {
                Ok(q) => self@.records.contains_key(enc_u64(index as nat)) && parse_quote(
                    self@.records[enc_u64(index as nat)],
                ) == Some(q@),
                Err(e) => {
                    &&& (e matches QuothError::QuoteNotFound { index: i } ==> i == index
                        && !self@.records.contains_key(enc_u64(index as nat)))
                    &&& (is_store_or_codec_error(e) || e matches QuothError::QuoteNotFound { .. })
                },
            },
    {
        let key = format_u64_string(index);
        match tree_get(&self.quotes, key.as_str())? {
            Some(s) => match Quote::from_record(s.as_str()) {
                Some(q) => Ok(q),
                None => Err(QuothError::MalformedIndex),
            },
            None => Err(QuothError::QuoteNotFound { index }),
        }
    }

    /// The quotes stored under the given identifiers, in order.  A missing
    /// identifier is reported as the `QuoteNotFound` of the first one
    /// missing.
    pub fn get_quotes(&self, indices: &Vec<u64>) -> (r: Result<Vec<Quote>, QuothError>)
        ensures
            match r {
                Ok(qs) => qs@.len() == indices@.len() && forall|i: int|
                    0 <= i < qs@.len() ==> self@.records.contains_key(
                        enc_u64(#[trigger] indices@[i] as nat),
                    ) && parse_quote(self@.records[enc_u64(indices@[i] as nat)]) == Some(qs@[i]@),
                Err(e) => {
                    &&& (is_store_or_codec_error(e) || e matches QuothError::QuoteNotFound { .. })
                    &&& (e matches QuothError::QuoteNotFound { index: m } ==> exists|j: int|
                        0 <= j < indices@.len() && #[trigger] indices@[j] == m
                            && !self@.records.contains_key(enc_u64(indices@[j] as nat)) && (forall|
                            k: int,
                        |
                            0 <= k < j ==> self@.records.contains_key(
                                enc_u64(#[trigger] indices@[k] as nat),
                            )))
                },
            },
    {
        let mut qs: Vec<Quote> = Vec::new();
        let n = indices.len();
        for i in 0..n
            invariant
                n == indices@.len(),
                qs@.len() == i,
                forall|j: int|
                    0 <= j < i ==> self@.records.contains_key(enc_u64(#[trigger] indices@[j] as nat))
                        && parse_quote(self@.records[enc_u64(indices@[j] as nat)]) == Some(
                        qs@[j]@,
                    ),
        {
            match self.get_quote(indices[i]) {
                Ok(q) => {
                    qs.push(q);
                },
                Err(e) => {
                    proof {
                        match e {
                            QuothError::QuoteNotFound { index: m } => {
                                assert(m == indices@[i as int]);
                                assert(0 <= i < indices@.len() && indices@[i as int] == m
                                    && !self@.records.contains_key(
                                    enc_u64(indices@[i as int] as nat),
                                ) && (forall|k: int|
                                    0 <= k < i ==> self@.records.contains_key(
                                        enc_u64(#[trigger] indices@[k] as nat),
                                    )));
                            },
                            _ => {},
                        }
                    }
                    return Err(e);
                },
            }
        }
        Ok(qs)
    }

    /// The identifiers of a given author's quotes.  The author text is
    /// canonicalized before lookup.
    pub fn get_author_quotes(&self, author: &str) -> (r: Result<Vec<u64>, QuothError>)
        ensures
            match r {
                Ok(ids) => self@.author_quotes.contains_key(
                    crate::utils::camel_phrase_spec(author@),
                ) && dec_ids(self@.author_quotes[crate::utils::camel_phrase_spec(author@)]) == Some(
                    ids@,
                ),
                Err(e) => {
                    &&& (e matches QuothError::AuthorNotFound { author: a } ==> a@ == author@
                        && !self@.author_quotes.contains_key(
                        crate::utils::camel_phrase_spec(author@),
                    ))
                    &&& (is_store_or_codec_error(e) || e matches QuothError::AuthorNotFound { .. })
                },
            },
    {
        let key = crate::utils::camel_case_phrase(author);
        match tree_get(&self.author_quotes, key.as_str())? {
            Some(s) => match decode_ids_string(&s) {
                Some(ids) => Ok(ids),
                None => Err(QuothError::MalformedIndex),
            },
            None => Err(QuothError::AuthorNotFound { author: author.to_owned() }),
        }
    }

    /// The identifiers of a given book's quotes.  The book text is
    /// canonicalized before lookup.
    pub fn get_book_quotes(&self, book: &str) -> (r: Result<Vec<u64>, QuothError>)
        ensures
            match r {
                Ok(ids) => self@.book_quotes.contains_key(crate::utils::camel_phrase_spec(book@))
                    && dec_ids(self@.book_quotes[crate::utils::camel_phrase_spec(book@)]) == Some(
                    ids@,
                ),
                Err(e) => {
                    &&& (e matches QuothError::BookNotFound { book: b } ==> b@ == book@
                        && !self@.book_quotes.contains_key(crate::utils::camel_phrase_spec(book@)))
                    &&& (is_store_or_codec_error(e) || e matches QuothError::BookNotFound { .. })
                },
            },
    {
        let key = crate::utils::camel_case_phrase(book);
        match tree_get(&self.book_quotes, key.as_str())? {
            Some(s) => match decode_ids_string(&s) {
                Some(ids) => Ok(ids),
                None => Err(QuothError::MalformedIndex),
            },
            None => Err(QuothError::BookNotFound { book: book.to_owned() }),
        }
    }

    /// The identifiers of the quotes bearing a given tag.  Tags are used as
    /// given, without canonicalization.
    pub fn get_tag_quotes(&self, tag: &str) -> (r: Result<Vec<u64>, QuothError>)
        ensures
            match r {
                Ok(ids) => self@.tag_quotes.contains_key(tag@) && dec_ids(self@.tag_quotes[tag@])
                    == Some(ids@),
                Err(e) => {
                    &&& (e matches QuothError::TagNotFound { tag: t } ==> t@ == tag@
                        && !self@.tag_quotes.contains_key(tag@))
                    &&& (is_store_or_codec_error(e) || e matches QuothError::TagNotFound { .. })
                },
            },
    {
        match tree_get(&self.tag_quotes, tag)? {
            Some(s) => match decode_ids_string(&s) {
                Some(ids) => Ok(ids),
                None => Err(QuothError::MalformedIndex),
            },
            None => Err(QuothError::TagNotFound { tag: tag.to_owned() }),
        }
    }
}

// ------------------------------------------------------------------
// Deletion effects
// ------------------------------------------------------------------

/// The ids with every occurrence of `index` removed, order kept.
pub open spec fn without_id(ids: Seq<u64>, index: u64) -> Seq<u64>
    decreases ids.len(),
{
    if ids.len() == 0 {
        Seq::empty()
    } else {
        let rest = without_id(ids.drop_last(), index);
        if ids.last() == index {
            rest
        } else {
            rest.push(ids.last())
        }
    }
}

/// Removing one id from an encoded list under a key: the entry disappears
/// when the list empties, else holds the re-encoded remainder.  Unreadable
/// or absent entries are left as they are.
pub open spec fn list_remove_effect(m: Map<Seq<char>, Seq<char>>, k: Seq<char>, index: u64) -> Map<
    Seq<char>,
    Seq<char>,
> {
    if !m.contains_key(k) {
        m
    } else {
        match dec_ids(m[k]) {
            None => m,
            Some(ids) => {
                let rest = without_id(ids, index);
                if rest.len() == 0 {
                    m.remove(k)
                } else {
                    m.insert(k, enc_ids(rest))
                }
            },
        }
    }
}

/// The map with every listed key removed.
pub open spec fn remove_keys(m: Map<Seq<char>, Seq<char>>, keys: Seq<Seq<char>>) -> Map<
    Seq<char>,
    Seq<char>,
>
    decreases keys.len(),
{
    if keys.len() == 0 {
        m
    } else {
        remove_keys(m.remove(keys[0]), keys.drop_first())
    }
}

/// Deleting an author: the author leaves both author mappings, and every
/// book listed for the author leaves both book mappings.
pub open spec fn delete_author_effect(v: StoreView, author: Seq<char>) -> StoreView {
    let books = dec_values(v.author_books[author]);
    StoreView {
        records: v.records,
        author_quotes: v.author_quotes.remove(author),
        author_books: v.author_books.remove(author),
        book_quotes: remove_keys(v.book_quotes, books),
        book_authors: remove_keys(v.book_authors, books),
        tag_quotes: v.tag_quotes,
        meta: v.meta,
    }
}

/// Removing one id from a book's list; when the list empties, the book
/// leaves both book mappings.
pub open spec fn delete_from_book_effect(v: StoreView, book: Seq<char>, index: u64) -> StoreView {
    match dec_ids(v.book_quotes[book]) {
        None => v,
        Some(ids) => {
            let rest = without_id(ids, index);
            if rest.len() == 0 {
                StoreView {
                    records: v.records,
                    author_quotes: v.author_quotes,
                    author_books: v.author_books,
                    book_quotes: v.book_quotes.remove(book),
                    book_authors: v.book_authors.remove(book),
                    tag_quotes: v.tag_quotes,
                    meta: v.meta,
                }
            } else {
                StoreView {
                    records: v.records,
                    author_quotes: v.author_quotes,
                    author_books: v.author_books,
                    book_quotes: v.book_quotes.insert(book, enc_ids(rest)),
                    book_authors: v.book_authors,
                    tag_quotes: v.tag_quotes,
                    meta: v.meta,
                }
            }
        },
    }
}

/// Removing one id from an author's list: when the list empties the whole
/// author is deleted, cascading to every book of the author; otherwise the
/// id also leaves the given book's list.
pub open spec fn delete_from_author_and_book_effect(
    v: StoreView,
    author: Seq<char>,
    book: Seq<char>,
    index: u64,
) -> StoreView {
    match dec_ids(v.author_quotes[author]) {
        None => v,
        Some(ids) => {
            let rest = without_id(ids, index);
            if rest.len() == 0 {
                delete_author_effect(v, author)
            } else {
                delete_from_book_effect(
                    StoreView {
                        records: v.records,
                        author_quotes: v.author_quotes.insert(author, enc_ids(rest)),
                        author_books: v.author_books,
                        book_quotes: v.book_quotes,
                        book_authors: v.book_authors,
                        tag_quotes: v.tag_quotes,
                        meta: v.meta,
                    },
                    book,
                    index,
                )
            }
        },
    }
}

/// Removing one id from each listed tag's list, in order.
pub open spec fn delete_tags_effect(
    m: Map<Seq<char>, Seq<char>>,
    tags: Seq<Seq<char>>,
    index: u64,
) -> Map<Seq<char>, Seq<char>>
    decreases tags.len(),
{
    if tags.len() == 0 {
        m
    } else {
        delete_tags_effect(list_remove_effect(m, tags[0], index), tags.drop_first(), index)
    }
}

/// The whole effect of deleting the quote `q` stored under `index`: the
/// record leaves the store, the id leaves the author, book and tag mappings
/// with their cascades, and the counter stays.
pub open spec fn delete_quote_effect(v: StoreView, q: QuoteV, index: u64) -> StoreView {
    let v1 = StoreView {
        records: v.records.remove(enc_u64(index as nat)),
        author_quotes: v.author_quotes,
        author_books: v.author_books,
        book_quotes: v.book_quotes,
        book_authors: v.book_authors,
        tag_quotes: v.tag_quotes,
        meta: v.meta,
    };
    let v2 = delete_from_author_and_book_effect(v1, q.author, q.book, index);
    StoreView {
        records: v2.records,
        author_quotes: v2.author_quotes,
        author_books: v2.author_books,
        book_quotes: v2.book_quotes,
        book_authors: v2.book_authors,
        tag_quotes: delete_tags_effect(v2.tag_quotes, q.tags, index),
        meta: v2.meta,
    }
}

/// The ids of an entry re-encoded in ascending order; absent or unreadable
/// entries are left as they are.
pub open spec fn sort_ids_effect(m: Map<Seq<char>, Seq<char>>, k: Seq<char>) -> Map<
    Seq<char>,
    Seq<char>,
> {
    if !m.contains_key(k) {
        m
    } else {
        match dec_ids(m[k]) {
            None => m,
            Some(ids) => m.insert(k, enc_ids(sorted_ids(ids))),
        }
    }
}

/// The ascending reordering of an id list.
pub open spec fn sorted_ids(ids: Seq<u64>) -> Seq<u64> {
    ids.sort_by(|a: u64, b: u64| a <= b)
}

/// A sorted id list with the same elements as `ids` is its ascending
/// reordering.
pub proof fn lemma_sorted_ids_unique(out: Seq<u64>, ids: Seq<u64>)
    requires
        crate::utils::sorted(out),
        out.to_multiset() == ids.to_multiset(),
    ensures
        out == sorted_ids(ids),
{
    let leq = |a: u64, b: u64| a <= b;
    ids.lemma_sort_by_ensures(leq);
    assert(vstd::relations::sorted_by(out, leq)) by {
        assert forall|i: int, j: int| 0 <= i < j < out.len() implies #[trigger] leq(
            out[i],
            out[j],
        ) by {
            assert(out[i] <= out[j]);
        }
    }
    assert(vstd::relations::total_ordering(leq)) by {
        assert forall|a: u64, b: u64, c: u64| #[trigger] leq(a, b) && #[trigger] leq(b, c)
            implies leq(a, c) by {}
        assert forall|a: u64| true implies #[trigger] leq(a, a) by {}
        assert forall|a: u64, b: u64| true implies #[trigger] leq(a, b) || #[trigger] leq(b, a) by {}
        assert forall|a: u64, b: u64| #[trigger] leq(a, b) && #[trigger] leq(b, a)
            implies a == b by {}
    }
    vstd::seq_lib::lemma_sorted_unique(out, ids.sort_by(leq), leq);
    assert(out =~= sorted_ids(ids));
}

/// Re-sorting is idempotent: sorting an entry's list a second time changes
/// nothing, so the cleanup step of a change can run any number of times.
pub proof fn lemma_sort_effect_idempotent(m: Map<Seq<char>, Seq<char>>, k: Seq<char>)
    ensures
        sort_ids_effect(sort_ids_effect(m, k), k) == sort_ids_effect(m, k),
{
    if m.contains_key(k) {
        match dec_ids(m[k]) {
            None => {},
            Some(ids) => {
                let s = sorted_ids(ids);
                let leq = |a: u64, b: u64| a <= b;
                ids.lemma_sort_by_ensures(leq);
                crate::codec::lemma_dec_enc_ids(s);
                let m1 = m.insert(k, enc_ids(s));
                assert(crate::utils::sorted(s)) by {
                    assert forall|i: int, j: int| 0 <= i < j < s.len() implies s[i] <= s[j] by {
                        assert(leq(s[i], s[j]));
                    }
                }
                lemma_sorted_ids_unique(s, s);
                assert(sort_ids_effect(m1, k) == m1.insert(k, enc_ids(sorted_ids(s))));
                assert(m1.insert(k, enc_ids(s)) =~= m1);
            },
        }
    }
}

impl Trees {
    /// A copy of the ids with every occurrence of `index` dropped.
    fn remove_id_vec(ids: &Vec<u64>, index: u64) -> (r: Vec<u64>)
        ensures
            r@ == without_id(ids@, index),
    {
        let mut r: Vec<u64> = Vec::new();
        let n = ids.len();
        proof {
            assert(ids@.take(0) =~= Seq::<u64>::empty());
        }
        for i in 0..n
            invariant
                n == ids@.len(),
                r@ == without_id(ids@.take(i as int), index),
        {
            proof {
                assert(ids@.take(i + 1).drop_last() =~= ids@.take(i as int));
                assert(ids@.take(i + 1).last() == ids@[i as int]);
            }
            if ids[i] != index {
                r.push(ids[i]);
            }
        }
        proof {
            assert(ids@.take(n as int) =~= ids@);
        }
        r
    }

    /// Removes one id from a tag's list, cascading the entry away when the
    /// list empties.
    fn delete_from_tag(&mut self, tag: &String, index: u64) -> (r: Result<(), QuothError>)
        ensures
            match r {
                Ok(u) => {
                    &&& old(self)@.tag_quotes.contains_key(tag@)
                    &&& dec_ids(old(self)@.tag_quotes[tag@]) is Some
                    &&& final(self)@ == (StoreView {
                        tag_quotes: list_remove_effect(old(self)@.tag_quotes, tag@, index),
                        ..old(self)@
                    })
                },
                Err(e) => {
                    &&& (e matches QuothError::TagNotFound { tag: t } ==> t@ == tag@ && !old(
                        self,
                    )@.tag_quotes.contains_key(tag@) && final(self)@ == old(self)@)
                    &&& (is_store_or_codec_error(e) || e matches QuothError::TagNotFound { .. })
                },
            },
    {
        match tree_get(&self.tag_quotes, tag.as_str())? {
            None => Err(QuothError::TagNotFound { tag: tag.clone() }),
            Some(s) => match decode_ids_string(&s) {
                None => Err(QuothError::MalformedIndex),
                Some(ids) => {
                    let rest = Trees::remove_id_vec(&ids, index);
                    if rest.len() == 0 {
                        tree_remove(&mut self.tag_quotes, tag.as_str())?;
                        Ok(())
                    } else {
                        let encoded = encode_ids_string(&rest);
                        tree_insert(&mut self.tag_quotes, tag.as_str(), encoded.as_str())?;
                        Ok(())
                    }
                },
            },
        }
    }

    /// Removes one id from a book's list; when the list empties the book
    /// leaves both book mappings.
    fn delete_from_book(&mut self, book: &String, index: u64) -> (r: Result<(), QuothError>)
        ensures
            match r {
                Ok(u) => {
                    &&& old(self)@.book_quotes.contains_key(book@)
                    &&& dec_ids(old(self)@.book_quotes[book@]) is Some
                    &&& final(self)@ == delete_from_book_effect(old(self)@, book@, index)
                },
                Err(e) => {
                    &&& (e matches QuothError::BookNotFound { book: b } ==> b@ == book@ && !old(
                        self,
                    )@.book_quotes.contains_key(book@) && final(self)@ == old(self)@)
                    &&& (is_store_or_codec_error(e) || e matches QuothError::BookNotFound { .. })
                },
            },
    {
        match tree_get(&self.book_quotes, book.as_str())? {
            None => Err(QuothError::BookNotFound { book: book.clone() }),
            Some(s) => match decode_ids_string(&s) {
                None => Err(QuothError::MalformedIndex),
                Some(ids) => {
                    let rest = Trees::remove_id_vec(&ids, index);
                    if rest.len() == 0 {
                        tree_remove(&mut self.book_quotes, book.as_str())?;
                        tree_remove(&mut self.book_authors, book.as_str())?;
                        Ok(())
                    } else {
                        let encoded = encode_ids_string(&rest);
                        tree_insert(&mut self.book_quotes, book.as_str(), encoded.as_str())?;
                        Ok(())
                    }
                },
            },
        }
    }

    /// Deletes an author: the author leaves both author mappings, and every
    /// book attributed to the author leaves both book mappings.
    fn delete_author(&mut self, author: &String) -> (r: Result<(), QuothError>)
        ensures
            match r {
                Ok(u) => {
                    &&& old(self)@.author_books.contains_key(author@)
                    &&& final(self)@ == delete_author_effect(old(self)@, author@)
                },
                Err(e) => {
                    &&& (e matches QuothError::AuthorNotFound { author: a } ==> a@ == author@)
                    &&& (is_store_or_codec_error(e) || e matches QuothError::AuthorNotFound { .. })
                },
            },
    {
        tree_remove(&mut self.author_quotes, author.as_str())?;
        let ghost v1 = self@;
        let books_s = match tree_get(&self.author_books, author.as_str())? {
            None => {
                return Err(QuothError::AuthorNotFound { author: author.clone() });
            },
            Some(s) => s,
        };
        let books = decode_values_string(&books_s);
        let ghost book_seq = dec_values(old(self)@.author_books[author@]);
        let n = books.len();
        let mut i: usize = 0;
        proof {
            assert(book_seq.skip(0) =~= book_seq);
        }
        while i < n
            invariant
                i <= n == books@.len(),
                books.deep_view() == book_seq,
                self@.records == v1.records,
                self@.author_quotes == v1.author_quotes,
                self@.author_books == v1.author_books,
                self@.tag_quotes == v1.tag_quotes,
                self@.meta == v1.meta,
                remove_keys(v1.book_quotes, book_seq) == remove_keys(
                    self@.book_quotes,
                    book_seq.skip(i as int),
                ),
                remove_keys(v1.book_authors, book_seq) == remove_keys(
                    self@.book_authors,
                    book_seq.skip(i as int),
                ),
            decreases n - i,
        {
            proof {
                assert(book_seq.skip(i as int)[0] == book_seq[i as int]);
                assert(book_seq.skip(i as int).drop_first() =~= book_seq.skip(i + 1));
                assert(books@[i as int]@ == book_seq[i as int]);
            }
            tree_remove(&mut self.book_quotes, books[i].as_str())?;
            tree_remove(&mut self.book_authors, books[i].as_str())?;
            i += 1;
        }
        proof {
            assert(book_seq.skip(n as int) =~= Seq::<Seq<char>>::empty());
        }
        tree_remove(&mut self.author_books, author.as_str())?;
        proof {
            assert(self@ =~~= delete_author_effect(old(self)@, author@));
        }
        Ok(())
    }

    /// Removes one id from an author's list: when the list empties the whole
    /// author is deleted with its books; otherwise the id also leaves the
    /// given book's list.
    fn delete_from_author_and_book(&mut self, author: &String, book: &String, index: u64) -> (r:
        Result<(), QuothError>)
        ensures
            match r {
                Ok(u) => {
                    &&& old(self)@.author_quotes.contains_key(author@)
                    &&& dec_ids(old(self)@.author_quotes[author@]) is Some
                    &&& final(self)@ == delete_from_author_and_book_effect(
                        old(self)@,
                        author@,
                        book@,
                        index,
                    )
                },
                Err(e) => {
                    &&& (e matches QuothError::AuthorNotFound { author: a } ==> a@ == author@)
                    &&& (is_store_or_codec_error(e) || e matches QuothError::AuthorNotFound { .. }
                        || e matches QuothError::BookNotFound { .. })
                },
            },
    {
        let ids_s = match tree_get(&self.author_quotes, author.as_str())? {
            None => {
                return Err(QuothError::AuthorNotFound { author: author.clone() });
            },
            Some(s) => s,
        };
        let ids = match decode_ids_string(&ids_s) {
            None => {
                return Err(QuothError::MalformedIndex);
            },
            Some(ids) => ids,
        };
        let rest = Trees::remove_id_vec(&ids, index);
        if rest.len() == 0 {
            self.delete_author(author)
        } else {
            let encoded = encode_ids_string(&rest);
            tree_insert(&mut self.author_quotes, author.as_str(), encoded.as_str())?;
            let ghost mid = self@;
            match self.delete_from_book(book, index) {
                Ok(u) => {
                    proof {
                        assert(mid =~~= (StoreView {
                            records: old(self)@.records,
                            author_quotes: old(self)@.author_quotes.insert(
                                author@,
                                enc_ids(without_id(ids@, index)),
                            ),
                            author_books: old(self)@.author_books,
                            book_quotes: old(self)@.book_quotes,
                            book_authors: old(self)@.book_authors,
                            tag_quotes: old(self)@.tag_quotes,
                            meta: old(self)@.meta,
                        }));
                        assert(self@ =~~= delete_from_author_and_book_effect(
                            old(self)@,
                            author@,
                            book@,
                            index,
                        ));
                    }
                    Ok(())
                },
                Err(e) => Err(e),
            }
        }
    }

    /// Removes the record stored under an identifier, returning it.
    fn remove_quote(&mut self, index: u64) -> (r: Result<Quote, QuothError>)
        ensures
            match r {
                Ok(q) => {
                    &&& old(self)@.records.contains_key(enc_u64(index as nat))
                    &&& parse_quote(old(self)@.records[enc_u64(index as nat)]) == Some(q@)
                    &&& final(self)@ == (StoreView {
                        records: old(self)@.records.remove(enc_u64(index as nat)),
                        ..old(self)@
                    })
                },
                Err(e) => {
                    &&& (e matches QuothError::QuoteNotFound { index: i } ==> i == index && !old(
                        self,
                    )@.records.contains_key(enc_u64(index as nat)) && final(self)@ == old(self)@)
                    &&& (is_store_or_codec_error(e) || e matches QuothError::QuoteNotFound { .. })
                },
            },
    {
        let key = format_u64_string(index);
        match tree_remove(&mut self.quotes, key.as_str())? {
            None => {
                proof {
                    assert(old(self)@.records.remove(key@) =~= old(self)@.records);
                    assert(self@ =~~= old(self)@);
                }
                Err(QuothError::QuoteNotFound { index })
            },
            Some(s) => match Quote::from_record(s.as_str()) {
                Some(q) => Ok(q),
                None => Err(QuothError::MalformedIndex),
            },
        }
    }

    /// Deletes a quote: the record leaves the store and its id leaves the
    /// author, book and tag mappings, cascading empty entries away.  Returns
    /// the removed quote.
    pub fn delete_quote(&mut self, index: u64) -> (r: Result<Quote, QuothError>)
        ensures
            match r {
                Ok(q) => {
                    &&& old(self)@.records.contains_key(enc_u64(index as nat))
                    &&& parse_quote(old(self)@.records[enc_u64(index as nat)]) == Some(q@)
                    &&& final(self)@ == delete_quote_effect(old(self)@, q@, index)
                    &&& (crate::consistency::archive_wf(old(self)@)
                        ==> crate::consistency::archive_wf(final(self)@))
                },
                Err(e) => {
                    &&& (e matches QuothError::QuoteNotFound { index: i } ==> i == index && !old(
                        self,
                    )@.records.contains_key(enc_u64(index as nat)) && final(self)@ == old(self)@)
                    &&& (is_store_or_codec_error(e) || is_lookup_error(e))
                },
            },
    {
        let q = self.remove_quote(index)?;
        let ghost v1 = self@;
        self.delete_from_author_and_book(&q.author, &q.book, index)?;
        let ghost v2 = self@;
        let ntags = q.tags.len();
        let mut ti: usize = 0;
        proof {
            assert(q@.tags.skip(0) =~= q@.tags);
        }
        while ti < ntags
            invariant
                ti <= ntags == q.tags@.len(),
                q@.tags == q.tags.deep_view(),
                delete_tags_effect(v2.tag_quotes, q@.tags, index) == delete_tags_effect(
                    self@.tag_quotes,
                    q@.tags.skip(ti as int),
                    index,
                ),
                self@.records == v2.records,
                self@.author_quotes == v2.author_quotes,
                self@.author_books == v2.author_books,
                self@.book_quotes == v2.book_quotes,
                self@.book_authors == v2.book_authors,
                self@.meta == v2.meta,
            decreases ntags - ti,
        {
            proof {
                assert(q@.tags.skip(ti as int)[0] == q@.tags[ti as int]);
                assert(q@.tags.skip(ti as int).drop_first() =~= q@.tags.skip(ti + 1));
            }
            self.delete_from_tag(&q.tags[ti], index)?;
            ti += 1;
        }
        proof {
            assert(q@.tags.skip(ntags as int) =~= Seq::<Seq<char>>::empty());
            assert(self@ =~~= delete_quote_effect(old(self)@, q@, index));
            if crate::consistency::archive_wf(old(self)@) {
                assert(crate::consistency::rec_contains(old(self)@, index));
                assert(crate::consistency::record_at(old(self)@, index) == q@);
                crate::consistency::lemma_delete_preserves_wf(old(self)@, index);
            }
        }
        Ok(q)
    }

    /// Re-encodes one entry's id list in ascending order.
    fn set_sorted(t: &mut sled::Tree, key: &String) -> (r: Result<(), QuothError>)
        ensures
            match r {
                Ok(u) => tree_view(*final(t)) == sort_ids_effect(tree_view(*old(t)), key@),
                Err(e) => is_store_or_codec_error(e),
            },
    {
        match tree_get(t, key.as_str())? {
            None => {
                proof {
                    assert(tree_view(*t) =~= sort_ids_effect(tree_view(*t), key@));
                }
                Ok(())
            },
            Some(s) => match decode_ids_string(&s) {
                None => Err(QuothError::MalformedIndex),
                Some(ids) => {
                    let sorted_vec = crate::utils::insertion_sort(&ids);
                    proof {
                        lemma_sorted_ids_unique(sorted_vec@, ids@);
                    }
                    let encoded = encode_ids_string(&sorted_vec);
                    tree_insert(t, key.as_str(), encoded.as_str())?;
                    Ok(())
                },
            },
        }
    }
}

/// Every listed tag's id list re-encoded in ascending order, in order.
pub open spec fn sort_tags_effect(m: Map<Seq<char>, Seq<char>>, tags: Seq<Seq<char>>) -> Map<
    Seq<char>,
    Seq<char>,
>
    decreases tags.len(),
{
    if tags.len() == 0 {
        m
    } else {
        sort_tags_effect(sort_ids_effect(m, tags[0]), tags.drop_first())
    }
}

/// The whole effect of changing the quote under `index` from `old_q` to `q`:
/// the old quote is unindexed as in deletion, the new one indexed as in
/// addition under the same identifier, the record overwritten, and the
/// touched id lists re-sorted ascending.  The counter does not advance.
pub open spec fn change_quote_effect(v: StoreView, old_q: QuoteV, q: QuoteV, index: u64) -> StoreView {
    let v1 = delete_from_author_and_book_effect(v, old_q.author, old_q.book, index);
    let v2 = StoreView { tag_quotes: delete_tags_effect(v1.tag_quotes, old_q.tags, index), ..v1 };
    let v3 = add_author_book_effect(v2, q.author, q.book, index);
    let v4 = StoreView { tag_quotes: merge_tag_ids(v3.tag_quotes, q.tags, index), ..v3 };
    let v5 = StoreView { records: v4.records.insert(enc_u64(index as nat), enc_quote(q)), ..v4 };
    let v6 = StoreView { author_quotes: sort_ids_effect(v5.author_quotes, q.author), ..v5 };
    let v7 = StoreView { book_quotes: sort_ids_effect(v6.book_quotes, q.book), ..v6 };
    StoreView { tag_quotes: sort_tags_effect(v7.tag_quotes, q.tags), ..v7 }
}

impl Trees {
    /// Changes the quote stored under `index` to `new_quote`, whose
    /// identifier must equal `index`: the old quote is unindexed, the new one
    /// indexed in its place, and the author, book and tag lists it touches
    /// are re-sorted ascending.  Returns the old quote.
    pub fn change_quote(&mut self, index: u64, new_quote: &Quote) -> (r: Result<Quote, QuothError>)
        ensures
            match r {
                Ok(old_q) => {
                    &&& old(self)@.records.contains_key(enc_u64(index as nat))
                    &&& parse_quote(old(self)@.records[enc_u64(index as nat)]) == Some(old_q@)
                    &&& quote_keys_clean(new_quote@)
                    &&& new_quote@.index == index
                    &&& final(self)@ == change_quote_effect(old(self)@, old_q@, new_quote@, index)
                    &&& (crate::consistency::archive_wf(old(self)@)
                        && crate::consistency::change_compatible(old(self)@, new_quote@, index)
                        ==> crate::consistency::archive_wf(final(self)@))
                },
                Err(e) => {
                    &&& (e matches QuothError::QuoteNotFound { index: i } ==> i == index && !old(
                        self,
                    )@.records.contains_key(enc_u64(index as nat)) && final(self)@ == old(self)@)
                    &&& (e matches QuothError::DelimiterInInput ==> !quote_keys_clean(new_quote@)
                        && final(self)@ == old(self)@)
                    &&& (!quote_keys_clean(new_quote@) ==> e matches QuothError::DelimiterInInput)
                    &&& (e matches QuothError::OutOfCheeseError { .. } ==> new_quote@.index != index
                        && final(self)@ == old(self)@)
                    &&& (quote_keys_clean(new_quote@) && new_quote@.index != index
                        ==> e matches QuothError::OutOfCheeseError { .. })
                    &&& (is_store_or_codec_error(e) || is_lookup_error(e)
                        || e matches QuothError::DelimiterInInput
                        || e matches QuothError::OutOfCheeseError { .. })
                },
            },
    {
        if crate::codec::contains_semi(new_quote.author.as_str()) || crate::codec::contains_semi(
            new_quote.book.as_str(),
        ) {
            return Err(QuothError::DelimiterInInput);
        }
        let nnew = new_quote.tags.len();
        for ti in 0..nnew
            invariant
                nnew == new_quote.tags@.len(),
                new_quote@.tags == new_quote.tags.deep_view(),
                crate::codec::no_semi(new_quote@.author),
                crate::codec::no_semi(new_quote@.book),
                forall|j: int| 0 <= j < ti ==> crate::codec::no_semi(#[trigger] new_quote@.tags[j]),
                self@ == old(self)@,
        {
            if crate::codec::contains_semi(new_quote.tags[ti].as_str()) {
                assert(!crate::codec::no_semi(new_quote@.tags[ti as int]));
                return Err(QuothError::DelimiterInInput);
            }
            assert(new_quote@.tags[ti as int] == new_quote.tags@[ti as int]@);
        }
        proof {
            assert(quote_keys_clean(new_quote@));
        }
        if new_quote.index != index {
            return Err(
                QuothError::OutOfCheeseError {
                    message: String::from_str("changed quote must keep its identifier"),
                },
            );
        }
        let old_q = self.get_quote(index)?;
        self.delete_from_author_and_book(&old_q.author, &old_q.book, index)?;
        let ghost v1 = self@;
        let nold = old_q.tags.len();
        let mut ti: usize = 0;
        proof {
            assert(old_q@.tags.skip(0) =~= old_q@.tags);
        }
        while ti < nold
            invariant
                ti <= nold == old_q.tags@.len(),
                old_q@.tags == old_q.tags.deep_view(),
                quote_keys_clean(new_quote@),
                new_quote@.index == index,
                delete_tags_effect(v1.tag_quotes, old_q@.tags, index) == delete_tags_effect(
                    self@.tag_quotes,
                    old_q@.tags.skip(ti as int),
                    index,
                ),
                self@.records == v1.records,
                self@.author_quotes == v1.author_quotes,
                self@.author_books == v1.author_books,
                self@.book_quotes == v1.book_quotes,
                self@.book_authors == v1.book_authors,
                self@.meta == v1.meta,
            decreases nold - ti,
        {
            proof {
                assert(old_q@.tags.skip(ti as int)[0] == old_q@.tags[ti as int]);
                assert(old_q@.tags.skip(ti as int).drop_first() =~= old_q@.tags.skip(ti + 1));
            }
            self.delete_from_tag(&old_q.tags[ti], index)?;
            ti += 1;
        }
        proof {
            assert(old_q@.tags.skip(nold as int) =~= Seq::<Seq<char>>::empty());
        }
        self.add_author_and_book(&new_quote.author, &new_quote.book, index)?;
        let ghost v3 = self@;
        let index_str = format_u64_string(index);
        let mut mi: usize = 0;
        proof {
            assert(new_quote@.tags.skip(0) =~= new_quote@.tags);
        }
        while mi < nnew
            invariant
                mi <= nnew == new_quote.tags@.len(),
                new_quote@.tags == new_quote.tags.deep_view(),
                quote_keys_clean(new_quote@),
                new_quote@.index == index,
                index_str@ == enc_u64(index as nat),
                merge_tag_ids(v3.tag_quotes, new_quote@.tags, index) == merge_tag_ids(
                    self@.tag_quotes,
                    new_quote@.tags.skip(mi as int),
                    index,
                ),
                self@.records == v3.records,
                self@.author_quotes == v3.author_quotes,
                self@.author_books == v3.author_books,
                self@.book_quotes == v3.book_quotes,
                self@.book_authors == v3.book_authors,
                self@.meta == v3.meta,
            decreases nnew - mi,
        {
            proof {
                assert(new_quote@.tags.skip(mi as int)[0] == new_quote@.tags[mi as int]);
                assert(new_quote@.tags.skip(mi as int).drop_first() =~= new_quote@.tags.skip(
                    mi + 1,
                ));
            }
            tree_merge(&mut self.tag_quotes, new_quote.tags[mi].as_str(), index_str.as_str())?;
            mi += 1;
        }
        proof {
            assert(new_quote@.tags.skip(nnew as int) =~= Seq::<Seq<char>>::empty());
        }
        let record = new_quote.to_record();
        tree_insert(&mut self.quotes, index_str.as_str(), record.as_str())?;
        Trees::set_sorted(&mut self.author_quotes, &new_quote.author)?;
        Trees::set_sorted(&mut self.book_quotes, &new_quote.book)?;
        let ghost v7 = self@;
        let mut si: usize = 0;
        proof {
            assert(new_quote@.tags.skip(0) =~= new_quote@.tags);
        }
        while si < nnew
            invariant
                si <= nnew == new_quote.tags@.len(),
                new_quote@.tags == new_quote.tags.deep_view(),
                quote_keys_clean(new_quote@),
                new_quote@.index == index,
                sort_tags_effect(v7.tag_quotes, new_quote@.tags) == sort_tags_effect(
                    self@.tag_quotes,
                    new_quote@.tags.skip(si as int),
                ),
                self@.records == v7.records,
                self@.author_quotes == v7.author_quotes,
                self@.author_books == v7.author_books,
                self@.book_quotes == v7.book_quotes,
                self@.book_authors == v7.book_authors,
                self@.meta == v7.meta,
            decreases nnew - si,
        {
            proof {
                assert(new_quote@.tags.skip(si as int)[0] == new_quote@.tags[si as int]);
                assert(new_quote@.tags.skip(si as int).drop_first() =~= new_quote@.tags.skip(
                    si + 1,
                ));
            }
            Trees::set_sorted(&mut self.tag_quotes, &new_quote.tags[si])?;
            si += 1;
        }
        proof {
            assert(new_quote@.tags.skip(nnew as int) =~= Seq::<Seq<char>>::empty());
            assert(self@ =~~= change_quote_effect(old(self)@, old_q@, new_quote@, index));
            if crate::consistency::archive_wf(old(self)@)
                && crate::consistency::change_compatible(old(self)@, new_quote@, index) {
                assert(crate::consistency::rec_contains(old(self)@, index));
                assert(crate::consistency::record_at(old(self)@, index) == old_q@);
                crate::consistency::lemma_change_preserves_wf(old(self)@, new_quote@, index);
            }
        }
        Ok(old_q)
    }

    /// Removes every entry of every tree, records, indices and counter.
    pub fn clear(&mut self) -> (r: Result<(), QuothError>)
        ensures
            match r {
                Ok(u) => store_empty(final(self)@),
                Err(e) => is_store_or_codec_error(e),
            },
    {
        tree_clear(&mut self.quotes)?;
        tree_clear(&mut self.author_quotes)?;
        tree_clear(&mut self.author_books)?;
        tree_clear(&mut self.book_quotes)?;
        tree_clear(&mut self.book_authors)?;
        tree_clear(&mut self.tag_quotes)?;
        tree_clear(&mut self.meta)?;
        Ok(())
    }

    /// Copies every entry of every tree into `target`, overwriting clashing
    /// keys, and then clears this archive.  The copy happens first: on a
    /// failure, either the copy was struck and this archive is untouched, or
    /// the copy had already completed into the target and only the clearing
    /// failed.
    pub fn relocate(&mut self, target: &mut Trees) -> (r: Result<(), QuothError>)
        ensures
            match r {
                Ok(u) => {
                    &&& store_empty(final(self)@)
                    &&& relocated_into(old(target)@, old(self)@, final(target)@)
                },
                Err(e) => {
                    &&& is_store_or_codec_error(e)
                    &&& (final(self)@ == old(self)@ || relocated_into(
                        old(target)@,
                        old(self)@,
                        final(target)@,
                    ))
                },
            },
    {
        copy_tree(&self.quotes, &mut target.quotes)?;
        copy_tree(&self.author_quotes, &mut target.author_quotes)?;
        copy_tree(&self.author_books, &mut target.author_books)?;
        copy_tree(&self.book_quotes, &mut target.book_quotes)?;
        copy_tree(&self.book_authors, &mut target.book_authors)?;
        copy_tree(&self.tag_quotes, &mut target.tag_quotes)?;
        copy_tree(&self.meta, &mut target.meta)?;
        self.clear()
    }
}

/// The parsed views of the listed records, in listing order; `None` when any
/// record fails to parse.
pub open spec fn quotes_of_entries(entries: Seq<(Seq<char>, Seq<char>)>) -> Option<Seq<QuoteV>>
    decreases entries.len(),
{
    if entries.len() == 0 {
        Some(Seq::empty())
    } else {
        match parse_quote(entries.last().1) {
            None => None,
            Some(q) => match quotes_of_entries(entries.drop_last()) {
                None => None,
                Some(qs) => Some(qs.push(q)),
            },
        }
    }
}

/// True when `fetched` holds, in order, exactly the parses of the records
/// stored under the listed identifiers.
pub open spec fn fetched_matches(v: StoreView, ids: Seq<u64>, fetched: Seq<Quote>) -> bool {
    &&& fetched.len() == ids.len()
    &&& forall|k: int|
        0 <= k < ids.len() ==> v.records.contains_key(enc_u64(#[trigger] ids[k] as nat))
            && parse_quote(v.records[enc_u64(ids[k] as nat)]) == Some(fetched[k]@)
}

/// The number of decoded ids under a key; zero when absent or unreadable.
pub open spec fn ids_len_of(m: Map<Seq<char>, Seq<char>>, k: Seq<char>) -> nat {
    if m.contains_key(k) {
        match dec_ids(m[k]) {
            Some(ids) => ids.len(),
            None => 0,
        }
    } else {
        0
    }
}

/// The number of books listed under an author; zero when absent.
pub open spec fn books_len_of(m: Map<Seq<char>, Seq<char>>, k: Seq<char>) -> nat {
    if m.contains_key(k) {
        dec_values(m[k]).len()
    } else {
        0
    }
}

impl Trees {
    /// Every stored quote whose date lies in `[from_date, to_date)`, in the
    /// record store's enumeration order.
    pub fn list_quotes_in_date_range(&self, from_date: Date, to_date: Date) -> (r: Result<
        Vec<Quote>,
        QuothError,
    >)
        ensures
            match r {
                Ok(qs) => exists|entries: Seq<(Seq<char>, Seq<char>)>|
                    {
                        &&& #[trigger] entries_match(entries, self@.records)
                        &&& quotes_of_entries(entries) is Some
                        &&& qs.deep_view() == crate::quotes::date_filtered_v(
                            quotes_of_entries(entries)->0,
                            from_date,
                            to_date,
                        )
                    },
                Err(e) => is_store_or_codec_error(e),
            },
    {
        let entries = tree_entries(&self.quotes)?;
        let ghost all = entries.deep_view();
        let mut out: Vec<Quote> = Vec::new();
        let ghost mut parsed: Seq<QuoteV> = Seq::empty();
        let n = entries.len();
        let mut i: usize = 0;
        proof {
            assert(all.take(0) =~= Seq::<(Seq<char>, Seq<char>)>::empty());
            assert(out.deep_view() =~= crate::quotes::date_filtered_v(parsed, from_date, to_date));
        }
        while i < n
            invariant
                i <= n == entries@.len(),
                all == entries.deep_view(),
                entries_match(all, self@.records),
                quotes_of_entries(all.take(i as int)) == Some(parsed),
                out.deep_view() == crate::quotes::date_filtered_v(parsed, from_date, to_date),
            decreases n - i,
        {
            proof {
                assert(all[i as int] == (entries@[i as int].0@, entries@[i as int].1@));
                assert(all.take(i + 1).drop_last() =~= all.take(i as int));
                assert(all.take(i + 1).last() == all[i as int]);
            }
            let q = match Quote::from_record(entries[i].1.as_str()) {
                Some(q) => q,
                None => {
                    return Err(QuothError::MalformedIndex);
                },
            };
            let ghost before_out = out.deep_view();
            let ghost qv = q@;
            let keep = q.in_date_range(from_date, to_date);
            if keep {
                out.push(q);
            }
            proof {
                parsed = parsed.push(qv);
                assert(quotes_of_entries(all.take(i + 1)) == Some(parsed));
                assert(parsed.drop_last() =~= parsed.subrange(0, parsed.len() - 1));
                assert(parsed.drop_last() == quotes_of_entries(all.take(i as int))->0);
                if keep {
                    assert(out.deep_view() =~~= before_out.push(qv));
                }
                assert(out.deep_view() =~~= crate::quotes::date_filtered_v(
                    parsed,
                    from_date,
                    to_date,
                ));
            }
            i += 1;
        }
        proof {
            assert(all.take(n as int) =~= all);
        }
        Ok(out)
    }

    /// Quotes selected by the optional author, book, tag and date filters:
    /// by author or book through the index (at most one of the two), the
    /// optional tag and the date range applied to the fetched quotes; with
    /// neither author nor book, by tag through the index with the date range,
    /// or the whole store's quotes in range.
    pub fn filter_quotes(
        &self,
        author: Option<&str>,
        book: Option<&str>,
        tag: Option<&str>,
        from_date: Date,
        to_date: Date,
    ) -> (r: Result<Vec<Quote>, QuothError>)
        ensures
            match r {
                Ok(qs) => {
                    &&& !(author is Some && book is Some)
                    &&& (author matches Some(a) ==> self@.author_quotes.contains_key(
                        crate::utils::camel_phrase_spec(a@),
                    ) && exists|ids: Seq<u64>, fetched: Seq<Quote>|
                        {
                            &&& dec_ids(
                                self@.author_quotes[crate::utils::camel_phrase_spec(a@)],
                            ) == Some(ids)
                            &&& #[trigger] fetched_matches(self@, ids, fetched)
                            &&& qs@ == crate::quotes::tag_date_filtered(
                                fetched,
                                crate::quotes::opt_text_view(tag),
                                from_date,
                                to_date,
                            )
                        })
                    &&& (book matches Some(b) ==> self@.book_quotes.contains_key(
                        crate::utils::camel_phrase_spec(b@),
                    ) && exists|ids: Seq<u64>, fetched: Seq<Quote>|
                        {
                            &&& dec_ids(self@.book_quotes[crate::utils::camel_phrase_spec(b@)])
                                == Some(ids)
                            &&& #[trigger] fetched_matches(self@, ids, fetched)
                            &&& qs@ == crate::quotes::tag_date_filtered(
                                fetched,
                                crate::quotes::opt_text_view(tag),
                                from_date,
                                to_date,
                            )
                        })
                    &&& (tag matches Some(t) ==> (author is None && book is None
                        ==> self@.tag_quotes.contains_key(t@) && exists|
                        ids: Seq<u64>,
                        fetched: Seq<Quote>,
                    |
                        {
                            &&& dec_ids(self@.tag_quotes[t@]) == Some(ids)
                            &&& #[trigger] fetched_matches(self@, ids, fetched)
                            &&& qs@ == crate::quotes::date_filtered(fetched, from_date, to_date)
                        }))
                    &&& (author is None && book is None && tag is None ==> exists|
                        entries: Seq<(Seq<char>, Seq<char>)>,
                    |
                        {
                            &&& #[trigger] entries_match(entries, self@.records)
                            &&& quotes_of_entries(entries) is Some
                            &&& qs.deep_view() == crate::quotes::date_filtered_v(
                                quotes_of_entries(entries)->0,
                                from_date,
                                to_date,
                            )
                        })
                },
                Err(e) => {
                    &&& (author is Some && book is Some ==> e matches QuothError::OutOfCheeseError {
                        ..
                    })
                    &&& (e matches QuothError::OutOfCheeseError { .. } ==> author is Some
                        && book is Some)
                    &&& (e matches QuothError::AuthorNotFound { author: a2 } ==> author matches Some(
                        a,
                    ) && a2@ == a@ && !self@.author_quotes.contains_key(
                        crate::utils::camel_phrase_spec(a@),
                    ))
                    &&& (e matches QuothError::BookNotFound { book: b2 } ==> book matches Some(b)
                        && b2@ == b@ && !self@.book_quotes.contains_key(
                        crate::utils::camel_phrase_spec(b@),
                    ))
                    &&& (e matches QuothError::TagNotFound { tag: t2 } ==> tag matches Some(t)
                        && t2@ == t@ && !self@.tag_quotes.contains_key(t@))
                    &&& (is_store_or_codec_error(e) || is_lookup_error(e)
                        || e matches QuothError::OutOfCheeseError { .. })
                },
            },
    {
        match (author, book) {
            (Some(_), Some(_)) => Err(
                QuothError::OutOfCheeseError {
                    message: String::from_str("cannot filter by both author and book"),
                },
            ),
            (Some(a), None) => {
                let ids = self.get_author_quotes(a)?;
                let fetched = self.get_quotes(&ids)?;
                let ghost idsv = ids@;
                let ghost fetchedv = fetched@;
                proof {
                    assert(fetched_matches(self@, idsv, fetchedv));
                }
                let kept = Quote::filter_by_tag_in_date_range(fetched, tag, from_date, to_date);
                Ok(kept)
            },
            (None, Some(b)) => {
                let ids = self.get_book_quotes(b)?;
                let fetched = self.get_quotes(&ids)?;
                let ghost idsv = ids@;
                let ghost fetchedv = fetched@;
                proof {
                    assert(fetched_matches(self@, idsv, fetchedv));
                }
                let kept = Quote::filter_by_tag_in_date_range(fetched, tag, from_date, to_date);
                Ok(kept)
            },
            (None, None) => match tag {
                Some(t) => {
                    let ids = self.get_tag_quotes(t)?;
                    let fetched = self.get_quotes(&ids)?;
                    let ghost idsv = ids@;
                    let ghost fetchedv = fetched@;
                    proof {
                        assert(fetched_matches(self@, idsv, fetchedv));
                    }
                    let kept = Quote::filter_in_date_range(fetched, from_date, to_date);
                    Ok(kept)
                },
                None => self.list_quotes_in_date_range(from_date, to_date),
            },
        }
    }

    /// For every recorded author, how many books and how many quotes the
    /// index lists for them.
    pub fn get_author_counts(&self) -> (r: Result<Vec<(String, (u64, u64))>, QuothError>)
        ensures
            match r {
                Ok(v) => {
                    &&& forall|i: int, j: int|
                        0 <= i < j < v@.len() ==> v@[i].0@ != v@[j].0@
                    &&& forall|i: int|
                        0 <= i < v@.len() ==> {
                            &&& self@.author_quotes.contains_key(#[trigger] v@[i].0@)
                            &&& v@[i].1.1 as nat == ids_len_of(self@.author_quotes, v@[i].0@)
                            &&& dec_ids(self@.author_quotes[v@[i].0@]) is Some
                            &&& v@[i].1.0 as nat == books_len_of(self@.author_books, v@[i].0@)
                        }
                    &&& forall|k: Seq<char>|
                        #[trigger] self@.author_quotes.contains_key(k) ==> exists|i: int|
                            0 <= i < v@.len() && v@[i].0@ == k
                },
                Err(e) => is_store_or_codec_error(e),
            },
    {
        let entries = tree_entries(&self.author_quotes)?;
        let ghost all = entries.deep_view();
        let mut out: Vec<(String, (u64, u64))> = Vec::new();
        let n = entries.len();
        let mut i: usize = 0;
        while i < n
            invariant
                i <= n == entries@.len(),
                all == entries.deep_view(),
                entries_match(all, self@.author_quotes),
                out@.len() == i,
                forall|j: int| 0 <= j < i ==> #[trigger] out@[j].0@ == all[j].0,
                forall|j: int|
                    0 <= j < i ==> {
                        &&& self@.author_quotes.contains_key(#[trigger] out@[j].0@)
                        &&& out@[j].1.1 as nat == ids_len_of(self@.author_quotes, out@[j].0@)
                        &&& dec_ids(self@.author_quotes[out@[j].0@]) is Some
                        &&& out@[j].1.0 as nat == books_len_of(self@.author_books, out@[j].0@)
                    },
            decreases n - i,
        {
            proof {
                assert(all[i as int] == (entries@[i as int].0@, entries@[i as int].1@));
            }
            let ids = match decode_ids_string(&entries[i].1) {
                Some(ids) => ids,
                None => {
                    return Err(QuothError::MalformedIndex);
                },
            };
            let qcount = ids.len() as u64;
            let bcount: u64 = match tree_get(&self.author_books, entries[i].0.as_str())? {
                Some(s) => {
                    let books = decode_values_string(&s);
                    books.len() as u64
                },
                None => 0,
            };
            let author = entries[i].0.clone();
            let ghost k = all[i as int].0;
            proof {
                assert(self@.author_quotes.contains_key(k));
                assert(self@.author_quotes[k] == all[i as int].1);
            }
            out.push((author, (bcount, qcount)));
            proof {
                assert(out@[i as int].0@ == k);
                assert(out@[i as int].1.1 as nat == ids_len_of(self@.author_quotes, k));
                assert(out@[i as int].1.0 as nat == books_len_of(self@.author_books, k));
            }
            i += 1;
        }
        proof {
            assert forall|k: Seq<char>| #[trigger] self@.author_quotes.contains_key(k)
                implies exists|i: int| 0 <= i < out@.len() && out@[i].0@ == k by {
                let j = choose|j: int| 0 <= j < all.len() && all[j].0 == k;
                assert(out@[j].0@ == k);
            }
            assert forall|i: int, j: int| 0 <= i < j < out@.len() implies out@[i].0@
                != out@[j].0@ by {
                assert(all[i].0 != all[j].0);
            }
        }
        Ok(out)
    }

    /// For a date range, how many quotes fall in each month, and how many
    /// books have their latest quote in each month.  Months are bucketed by
    /// month start; a book whose quotes span months counts only in the month
    /// of the last one seen.
    pub fn get_quote_and_book_counts_per_month(&self, from_date: Date, to_date: Date) -> (r: Result<
        (Vec<(Date, u64)>, Vec<(Date, u64)>),
        QuothError,
    >)
        ensures
            match r {
                Ok(counts) => exists|entries: Seq<(Seq<char>, Seq<char>)>|
                    {
                        &&& #[trigger] entries_match(entries, self@.records)
                        &&& quotes_of_entries(entries) is Some
                        &&& crate::stats::month_bucket_ensures(
                            crate::quotes::date_filtered_v(
                                quotes_of_entries(entries)->0,
                                from_date,
                                to_date,
                            ),
                            counts.0@,
                            counts.1@,
                        )
                    },
                Err(e) => is_store_or_codec_error(e),
            },
    {
        let quotes = self.list_quotes_in_date_range(from_date, to_date)?;
        let buckets = crate::stats::month_buckets(&quotes);
        proof {
            let entries = choose|entries: Seq<(Seq<char>, Seq<char>)>|
                {
                    &&& #[trigger] entries_match(entries, self@.records)
                    &&& quotes_of_entries(entries) is Some
                    &&& quotes.deep_view() == crate::quotes::date_filtered_v(
                        quotes_of_entries(entries)->0,
                        from_date,
                        to_date,
                    )
                };
            assert(entries_match(entries, self@.records) && quotes_of_entries(entries) is Some
                && crate::stats::month_bucket_ensures(
                crate::quotes::date_filtered_v(quotes_of_entries(entries)->0, from_date, to_date),
                buckets.0@,
                buckets.1@,
            ));
        }
        Ok(buckets)
    }
}

/// True when `target_new` holds every entry of `source` on top of
/// `target_old`, tree by tree, with the source's values winning clashes.
pub open spec fn relocated_into(target_old: StoreView, source: StoreView, target_new: StoreView) -> bool {
    &&& target_new.records == target_old.records.union_prefer_right(source.records)
    &&& target_new.author_quotes == target_old.author_quotes.union_prefer_right(
        source.author_quotes,
    )
    &&& target_new.author_books == target_old.author_books.union_prefer_right(source.author_books)
    &&& target_new.book_quotes == target_old.book_quotes.union_prefer_right(source.book_quotes)
    &&& target_new.book_authors == target_old.book_authors.union_prefer_right(source.book_authors)
    &&& target_new.tag_quotes == target_old.tag_quotes.union_prefer_right(source.tag_quotes)
    &&& target_new.meta == target_old.meta.union_prefer_right(source.meta)
}

/// The map holding the listed entries, later entries overriding earlier.
pub open spec fn entries_map(entries: Seq<(Seq<char>, Seq<char>)>) -> Map<Seq<char>, Seq<char>>
    decreases entries.len(),
{
    if entries.len() == 0 {
        Map::empty()
    } else {
        entries_map(entries.drop_last()).insert(entries.last().0, entries.last().1)
    }
}

/// A listing of exactly the entries of `m` rebuilds `m`.
proof fn lemma_entries_map_complete(entries: Seq<(Seq<char>, Seq<char>)>, m: Map<Seq<char>, Seq<char>>)
    requires
        entries_match(entries, m),
    ensures
        entries_map(entries) =~= m,
{
    assert forall|k: Seq<char>| #[trigger] entries_map(entries).contains_key(k) implies
        m.contains_key(k) && entries_map(entries)[k] == m[k] by {
        lemma_entries_map_members(entries, k);
    }
    assert forall|k: Seq<char>| #[trigger] m.contains_key(k) implies entries_map(
        entries,
    ).contains_key(k) by {
        let i = choose|i: int| 0 <= i < entries.len() && entries[i].0 == k;
        lemma_entries_map_covers(entries, i);
    }
}

/// A key of the rebuilt map comes from some listed entry, the last one with
/// that key.
proof fn lemma_entries_map_members(entries: Seq<(Seq<char>, Seq<char>)>, k: Seq<char>)
    requires
        entries_map(entries).contains_key(k),
    ensures
        exists|i: int|
            0 <= i < entries.len() && entries[i].0 == k && entries_map(entries)[k] == entries[i].1,
    decreases entries.len(),
{
    if entries.len() > 0 {
        if entries.last().0 == k {
            assert(entries[entries.len() - 1].0 == k && entries_map(entries)[k] == entries[entries.len() - 1].1);
        } else {
            lemma_entries_map_members(entries.drop_last(), k);
            let i = choose|i: int|
                0 <= i < entries.drop_last().len() && entries.drop_last()[i].0 == k
                    && entries_map(entries.drop_last())[k] == entries.drop_last()[i].1;
            assert(entries[i].0 == k && entries_map(entries)[k] == entries[i].1);
        }
    }
}

/// Every listed key is a key of the rebuilt map.
proof fn lemma_entries_map_covers(entries: Seq<(Seq<char>, Seq<char>)>, i: int)
    requires
        0 <= i < entries.len(),
    ensures
        entries_map(entries).contains_key(entries[i].0),
    decreases entries.len(),
{
    if i < entries.len() - 1 {
        lemma_entries_map_covers(entries.drop_last(), i);
        assert(entries.drop_last()[i] == entries[i]);
    }
}

/// Copies every entry of `src` into `dst`, overwriting clashing keys.
fn copy_tree(src: &sled::Tree, dst: &mut sled::Tree) -> (r: Result<(), QuothError>)
    ensures
        match r {
            Ok(u) => tree_view(*final(dst)) == tree_view(*old(dst)).union_prefer_right(
                tree_view(*src),
            ),
            Err(e) => is_store_or_codec_error(e),
        },
{
    let entries = tree_entries(src)?;
    let n = entries.len();
    let ghost all = entries.deep_view();
    let mut i: usize = 0;
    proof {
        assert(all.take(0) =~= Seq::<(Seq<char>, Seq<char>)>::empty());
        assert(entries_map(all.take(0)) =~= Map::<Seq<char>, Seq<char>>::empty());
        assert(tree_view(*dst) =~= tree_view(*old(dst)).union_prefer_right(
            entries_map(all.take(0)),
        ));
    }
    while i < n
        invariant
            i <= n == entries@.len(),
            all == entries.deep_view(),
            entries_match(all, tree_view(*src)),
            tree_view(*dst) == tree_view(*old(dst)).union_prefer_right(
                entries_map(all.take(i as int)),
            ),
        decreases n - i,
    {
        proof {
            assert(all[i as int] == (entries@[i as int].0@, entries@[i as int].1@));
            assert(all.take(i + 1).drop_last() =~= all.take(i as int));
            assert(all.take(i + 1).last() == all[i as int]);
        }
        tree_insert(dst, entries[i].0.as_str(), entries[i].1.as_str())?;
        proof {
            assert(tree_view(*dst) =~= tree_view(*old(dst)).union_prefer_right(
                entries_map(all.take(i + 1)),
            ));
        }
        i += 1;
    }
    proof {
        assert(all.take(n as int) =~= all);
        lemma_entries_map_complete(all, tree_view(*src));
        assert(tree_view(*dst) =~= tree_view(*old(dst)).union_prefer_right(tree_view(*src)));
    }
    Ok(())
}

/// Opens the database rooted at a directory path, creating it if absent.
///
/// Relies on `sled::open`.  Nothing is assumed of the database's contents.
#[verifier::external_body]
fn open_db_at(path: &str) -> (r: Result<sled::Db, QuothError>) {
    match sled::open(path) {
        Ok(d) => Ok(d),
        Err(e) => Err(QuothError::StoreError { message: e.to_string() }),
    }
}

/// Opens a fresh database backed by temporary storage that is removed on
/// drop.
///
/// Relies on `sled::Config::temporary` and `Config::open`.  Nothing is
/// assumed of the opened database's contents.
#[verifier::external_body]
fn open_temporary_db() -> (r: Result<sled::Db, QuothError>) {
    match sled::Config::new().temporary(true).open() {
        Ok(d) => Ok(d),
        Err(e) => Err(QuothError::StoreError { message: e.to_string() }),
    }
}

/// Opens one named tree of the database.
///
/// Relies on `sled::Db::open_tree`.  Nothing is assumed of the opened tree's
/// contents.  Opening a name twice returns a handle to the same tree, so the
/// archive opens each of its seven names exactly once, in `assemble`.
#[verifier::external_body]
fn open_tree_named(db: &sled::Db, name: &str) -> (r: Result<sled::Tree, QuothError>) {
    match db.open_tree(name.as_bytes()) {
        Ok(t) => Ok(t),
        Err(e) => Err(QuothError::StoreError { message: e.to_string() }),
    }
}

/// Installs the appending merge operator on a tree.
///
/// Relies on `sled::Tree::set_merge_operator`, handing it the verified
/// `utils::merge_index` hook that `store::tree_merge`'s contract describes.
#[verifier::external_body]
fn install_append_operator(t: &sled::Tree) {
    t.set_merge_operator(crate::utils::merge_index);
}

} // verus!
