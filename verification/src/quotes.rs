//! The primary quote record and its stored text encoding.
//!
//! A record is framed as a sequence of fields, each a decimal numeral
//! terminated by `':'`, with string fields length-prefixed by such a numeral.
//! Encoding and decoding are verified inverses, so what the record store
//! holds is exactly what comes back.

use vstd::prelude::*;

use crate::codec::{
    all_digits, chars_to_string, copy_range, dec_val, enc_u64, lemma_dec_enc, lemma_enc_u64_digits,
    parse_num_range, str_to_chars, valid_num,
};
use crate::dates::Date;
use crate::errors::QuothError;
use crate::utils::{camel_case_phrase, camel_phrase_spec, split_tags, tags_of, u8_to_str};

verus! {

/// A quote: attributed, tagged, dated text.
#[derive(Debug, Clone)]
pub struct Quote {
    /// Quote index, used to retrieve and modify a quote.
    pub index: u64,
    /// Title of the quote's book, in canonical camel-case form.
    pub book: String,
    /// Name of the quote's author, in canonical camel-case form.
    pub author: String,
    /// Tags attached to the quote.
    pub tags: Vec<String>,
    /// When the quote was recorded.
    pub date: Date,
    /// The quote text itself.
    pub quote: String,
}

/// The mathematical view of a quote.
pub struct QuoteV {
    pub index: u64,
    pub book: Seq<char>,
    pub author: Seq<char>,
    pub tags: Seq<Seq<char>>,
    pub date: Date,
    pub quote: Seq<char>,
}

impl DeepView for Quote {
    type V = QuoteV;

    open spec fn deep_view(&self) -> QuoteV {
        self.view()
    }
}

impl View for Quote {
    type V = QuoteV;

    open spec fn view(&self) -> QuoteV {
        QuoteV {
            index: self.index,
            book: self.book@,
            author: self.author@,
            tags: self.tags.deep_view(),
            date: self.date,
            quote: self.quote@,
        }
    }
}

// ------------------------------------------------------------------
// Record framing
// ------------------------------------------------------------------

/// A number field: the decimal numeral terminated by a colon.
pub open spec fn num_field(n: u64) -> Seq<char> {
    enc_u64(n as nat) + seq![':']
}

/// A string field: the length as a number field, then the characters.
pub open spec fn str_field(s: Seq<char>) -> Seq<char> {
    num_field(s.len() as u64) + s
}

/// The tag fields, one string field per tag.
pub open spec fn tags_fields(tags: Seq<Seq<char>>) -> Seq<char>
    decreases tags.len(),
{
    if tags.len() == 0 {
        Seq::empty()
    } else {
        str_field(tags[0]) + tags_fields(tags.drop_first())
    }
}

/// True when a quote's parts are small enough to frame: every length fits
/// the numeral fields.  Every quote built from real vectors satisfies this.
pub open spec fn quote_v_valid(q: QuoteV) -> bool {
    &&& q.author.len() <= u64::MAX
    &&& q.book.len() <= u64::MAX
    &&& q.quote.len() <= u64::MAX
    &&& q.tags.len() <= u64::MAX
    &&& forall|i: int| 0 <= i < q.tags.len() ==> #[trigger] q.tags[i].len() <= u64::MAX
}

/// The stored text encoding of a quote record.
pub open spec fn enc_quote(q: QuoteV) -> Seq<char> {
    num_field(q.index) + num_field(q.date.year) + num_field(q.date.month) + num_field(q.date.day)
        + num_field(q.date.hour) + num_field(q.date.minute) + num_field(q.date.second) + str_field(
        q.author,
    ) + str_field(q.book) + num_field(q.tags.len() as u64) + tags_fields(q.tags) + str_field(
        q.quote,
    )
}

// ------------------------------------------------------------------
// The record parser, as a specification
// ------------------------------------------------------------------

/// The index of the first occurrence of `c` in `s`, or the length.
pub open spec fn first_ch(s: Seq<char>, c: char) -> int
    decreases s.len(),
{
    if s.len() == 0 {
        0
    } else if s[0] == c {
        0
    } else {
        1 + first_ch(s.drop_first(), c)
    }
}

/// Characterizes `first_ch` by its bounds and contents.
pub proof fn lemma_first_ch_is(s: Seq<char>, c: char, j: int)
    requires
        0 <= j <= s.len(),
        forall|k: int| 0 <= k < j ==> #[trigger] s[k] != c,
        j == s.len() || s[j] == c,
    ensures
        first_ch(s, c) == j,
    decreases j,
{
    if s.len() == 0 {
    } else if j == 0 {
    } else {
        assert(s[0] != c);
        assert forall|k: int| 0 <= k < j - 1 implies #[trigger] s.drop_first()[k] != c by {
            assert(s.drop_first()[k] == s[k + 1]);
        }
        if j < s.len() {
            assert(s.drop_first()[j - 1] == s[j]);
        }
        lemma_first_ch_is(s.drop_first(), c, j - 1);
    }
}

/// Parses one number field: the numeral before the first colon, and what
/// follows the colon.
pub open spec fn p_num(s: Seq<char>) -> Option<(u64, Seq<char>)> {
    let j = first_ch(s, ':');
    if j >= s.len() {
        None
    } else if valid_num(s.take(j)) {
        Some(((dec_val(s.take(j)) as u64), s.skip(j + 1)))
    } else {
        None
    }
}

/// Parses one string field: a length, then that many characters.
pub open spec fn p_str(s: Seq<char>) -> Option<(Seq<char>, Seq<char>)> {
    match p_num(s) {
        None => None,
        Some((n, rest)) => if n <= rest.len() {
            Some((rest.take(n as int), rest.skip(n as int)))
        } else {
            None
        },
    }
}

/// Parses `k` string fields in sequence.
pub open spec fn p_tags(s: Seq<char>, k: u64) -> Option<(Seq<Seq<char>>, Seq<char>)>
    decreases k,
{
    if k == 0 {
        Some((Seq::empty(), s))
    } else {
        match p_str(s) {
            None => None,
            Some((t, rest)) => match p_tags(rest, (k - 1) as u64) {
                None => None,
                Some((ts, rest2)) => Some((seq![t] + ts, rest2)),
            },
        }
    }
}

/// Parses a whole stored record; strict: the input must be exactly one
/// record with nothing after it.
pub open spec fn parse_quote(s: Seq<char>) -> Option<QuoteV> {
    match p_num(s) {
        None => None,
        Some((index, s1)) => match p_num(s1) {
            None => None,
            Some((year, s2)) => match p_num(s2) {
                None => None,
                Some((month, s3)) => match p_num(s3) {
                    None => None,
                    Some((day, s4)) => match p_num(s4) {
                        None => None,
                        Some((hour, s5)) => match p_num(s5) {
                            None => None,
                            Some((minute, s6)) => match p_num(s6) {
                                None => None,
                                Some((second, s7)) => match p_str(s7) {
                                    None => None,
                                    Some((author, s8)) => match p_str(s8) {
                                        None => None,
                                        Some((book, s9)) => match p_num(s9) {
                                            None => None,
                                            Some((ntags, s10)) => match p_tags(s10, ntags) {
                                                None => None,
                                                Some((tags, s11)) => match p_str(s11) {
                                                    None => None,
                                                    Some((quote, s12)) => if s12.len() == 0 {
                                                        Some(
                                                            QuoteV {
                                                                index,
                                                                book,
                                                                author,
                                                                tags,
                                                                date: Date {
                                                                    year,
                                                                    month,
                                                                    day,
                                                                    hour,
                                                                    minute,
                                                                    second,
                                                                },
                                                                quote,
                                                            },
                                                        )
                                                    } else {
                                                        None
                                                    },
                                                },
                                            },
                                        },
                                    },
                                },
                            },
                        },
                    },
                },
            },
        },
    }
}

// ------------------------------------------------------------------
// Round trip: parsing inverts encoding
// ------------------------------------------------------------------

/// A numeral contains no colon.
proof fn lemma_digits_no_colon(s: Seq<char>)
    requires
        all_digits(s),
    ensures
        forall|k: int| 0 <= k < s.len() ==> #[trigger] s[k] != ':',
{
    assert forall|k: int| 0 <= k < s.len() implies #[trigger] s[k] != ':' by {
        assert(crate::codec::is_digit(s[k]));
    }
}

/// Parsing a number field framed before a tail gives the number and tail.
pub proof fn lemma_p_num(n: u64, t: Seq<char>)
    ensures
        p_num(num_field(n) + t) == Some((n, t)),
{
    let e = enc_u64(n as nat);
    let s = num_field(n) + t;
    lemma_enc_u64_digits(n as nat);
    lemma_dec_enc(n as nat);
    lemma_digits_no_colon(e);
    assert forall|k: int| 0 <= k < e.len() implies #[trigger] s[k] != ':' by {
        assert(s[k] == e[k]);
    }
    assert(s[e.len() as int] == ':');
    lemma_first_ch_is(s, ':', e.len() as int);
    assert(s.take(e.len() as int) =~= e);
    assert(s.skip(e.len() as int + 1) =~= t);
}

/// Parsing a string field framed before a tail gives the string and tail.
pub proof fn lemma_p_str(x: Seq<char>, t: Seq<char>)
    requires
        x.len() <= u64::MAX,
    ensures
        p_str(str_field(x) + t) == Some((x, t)),
{
    let s = str_field(x) + t;
    assert(s =~= num_field(x.len() as u64) + (x + t));
    lemma_p_num(x.len() as u64, x + t);
    assert((x + t).take(x.len() as int) =~= x);
    assert((x + t).skip(x.len() as int) =~= t);
}

/// Parsing framed tag fields before a tail gives the tags and tail.
pub proof fn lemma_p_tags(tags: Seq<Seq<char>>, t: Seq<char>)
    requires
        tags.len() <= u64::MAX,
        forall|i: int| 0 <= i < tags.len() ==> #[trigger] tags[i].len() <= u64::MAX,
    ensures
        p_tags(tags_fields(tags) + t, tags.len() as u64) == Some((tags, t)),
    decreases tags.len(),
{
    if tags.len() == 0 {
        assert(tags_fields(tags) + t =~= t);
        assert(p_tags(t, 0) == Some((Seq::<Seq<char>>::empty(), t)));
        assert(Seq::<Seq<char>>::empty() =~= tags);
    } else {
        let s = tags_fields(tags) + t;
        assert(s =~= str_field(tags[0]) + (tags_fields(tags.drop_first()) + t));
        lemma_p_str(tags[0], tags_fields(tags.drop_first()) + t);
        lemma_p_tags(tags.drop_first(), t);
        assert(seq![tags[0]] + tags.drop_first() =~= tags);
    }
}

/// Round trip: a framed record parses back to the same quote.
#[verifier::rlimit(100)]
pub proof fn lemma_parse_enc_quote(q: QuoteV)
    requires
        quote_v_valid(q),
    ensures
        parse_quote(enc_quote(q)) == Some(q),
{
    let f1 = num_field(q.index);
    let f2 = num_field(q.date.year);
    let f3 = num_field(q.date.month);
    let f4 = num_field(q.date.day);
    let f5 = num_field(q.date.hour);
    let f6 = num_field(q.date.minute);
    let f7 = num_field(q.date.second);
    let f8 = str_field(q.author);
    let f9 = str_field(q.book);
    let f10 = num_field(q.tags.len() as u64);
    let f11 = tags_fields(q.tags);
    let f12 = str_field(q.quote);
    let p2 = f1 + f2;
    let p3 = p2 + f3;
    let p4 = p3 + f4;
    let p5 = p4 + f5;
    let p6 = p5 + f6;
    let p7 = p6 + f7;
    let p8 = p7 + f8;
    let p9 = p8 + f9;
    let p10 = p9 + f10;
    let p11 = p10 + f11;
    let t10 = f12;
    let t9 = f11 + t10;
    let t8 = f10 + t9;
    let t7 = f9 + t8;
    let t6 = f8 + t7;
    let t5 = f7 + t6;
    let t4 = f6 + t5;
    let t3 = f5 + t4;
    let t2 = f4 + t3;
    let t1 = f3 + t2;
    let t0 = f2 + t1;
    let s = f1 + t0;
    assert(enc_quote(q) == p11 + f12);
    assert(p11 + f12 =~= p10 + t9);
    assert(p10 + t9 =~= p9 + t8);
    assert(p9 + t8 =~= p8 + t7);
    assert(p8 + t7 =~= p7 + t6);
    assert(p7 + t6 =~= p6 + t5);
    assert(p6 + t5 =~= p5 + t4);
    assert(p5 + t4 =~= p4 + t3);
    assert(p4 + t3 =~= p3 + t2);
    assert(p3 + t2 =~= p2 + t1);
    assert(p2 + t1 =~= f1 + t0);
    assert(enc_quote(q) == s);
    lemma_p_num(q.index, t0);
    lemma_p_num(q.date.year, t1);
    lemma_p_num(q.date.month, t2);
    lemma_p_num(q.date.day, t3);
    lemma_p_num(q.date.hour, t4);
    lemma_p_num(q.date.minute, t5);
    lemma_p_num(q.date.second, t6);
    lemma_p_str(q.author, t7);
    lemma_p_str(q.book, t8);
    lemma_p_num(q.tags.len() as u64, t9);
    lemma_p_tags(q.tags, t10);
    assert(t10 =~= f12 + Seq::<char>::empty());
    lemma_p_str(q.quote, Seq::<char>::empty());
}

// ------------------------------------------------------------------
// Executable encoding
// ------------------------------------------------------------------

/// Appends a tag-fields sequence one more tag at the end.
proof fn lemma_tags_fields_push(tags: Seq<Seq<char>>, t: Seq<char>)
    ensures
        tags_fields(tags.push(t)) =~= tags_fields(tags) + str_field(t),
    decreases tags.len(),
{
    if tags.len() == 0 {
        assert(tags.push(t)[0] == t);
        assert(tags.push(t).drop_first() =~= Seq::<Seq<char>>::empty());
        assert(tags_fields(Seq::<Seq<char>>::empty()) =~= Seq::<char>::empty());
        assert(tags_fields(tags.push(t)) =~= str_field(t));
        assert(tags_fields(tags) + str_field(t) =~= str_field(t));
    } else {
        assert(tags.push(t)[0] == tags[0]);
        assert(tags.push(t).drop_first() =~= tags.drop_first().push(t));
        lemma_tags_fields_push(tags.drop_first(), t);
    }
}

/// Appends the characters of `w` to `out`.
fn append_chars(out: &mut Vec<char>, w: &Vec<char>)
    ensures
        final(out)@ == old(out)@ + w@,
{
    let ghost base = out@;
    let n = w.len();
    for i in 0..n
        invariant
            n == w@.len(),
            out@ == base + w@.take(i as int),
    {
        out.push(w[i]);
        assert(out@ =~= base + w@.take(i + 1));
    }
    assert(out@ =~= base + w@);
}

/// Appends a number field.
fn append_num_field(out: &mut Vec<char>, n: u64)
    ensures
        final(out)@ == old(out)@ + num_field(n),
{
    let ghost base = out@;
    let digits = crate::codec::format_u64(n);
    append_chars(out, &digits);
    out.push(':');
    assert(out@ =~= base + num_field(n));
}

/// Appends a string field.
fn append_str_field(out: &mut Vec<char>, w: &Vec<char>)
    ensures
        final(out)@ == old(out)@ + str_field(w@),
{
    let ghost base = out@;
    let n = w.len();
    append_num_field(out, n as u64);
    append_chars(out, w);
    assert(out@ =~= base + str_field(w@));
}

impl Quote {
    /// A new quote with canonicalized book and author text and split tags.
    pub fn new(
        index: u64,
        title: &str,
        author: &str,
        tags: &str,
        date: Date,
        quote: String,
    ) -> (r: Quote)
        ensures
            r@.index == index,
            r@.book == camel_phrase_spec(title@),
            r@.author == camel_phrase_spec(author@),
            r@.tags == tags_of(tags@),
            r@.date == date,
            r@.quote == quote@,
    {
        let r = Quote {
            index,
            book: camel_case_phrase(title),
            author: camel_case_phrase(author),
            tags: split_tags(tags),
            date,
            quote,
        };
        r
    }

    /// The stored text form of this record; parsing it gives the record
    /// back.
    #[verifier::rlimit(100)]
    pub fn to_record(&self) -> (r: String)
        ensures
            r@ == enc_quote(self@),
            parse_quote(r@) == Some(self@),
    {
        let mut out: Vec<char> = Vec::new();
        append_num_field(&mut out, self.index);
        append_num_field(&mut out, self.date.year);
        append_num_field(&mut out, self.date.month);
        append_num_field(&mut out, self.date.day);
        append_num_field(&mut out, self.date.hour);
        append_num_field(&mut out, self.date.minute);
        append_num_field(&mut out, self.date.second);
        let author_chars = str_to_chars(self.author.as_str());
        let author_len: usize = author_chars.len();
        append_str_field(&mut out, &author_chars);
        let book_chars = str_to_chars(self.book.as_str());
        let book_len: usize = book_chars.len();
        append_str_field(&mut out, &book_chars);
        let ntags = self.tags.len();
        append_num_field(&mut out, ntags as u64);
        let ghost tags_base = out@;
        let mut i: usize = 0;
        proof {
            assert(self@.tags.take(0) =~= Seq::<Seq<char>>::empty());
            assert(out@ =~= tags_base + tags_fields(self@.tags.take(0)));
        }
        while i < ntags
            invariant
                i <= ntags == self.tags@.len(),
                out@ == tags_base + tags_fields(self@.tags.take(i as int)),
                self@.tags == self.tags.deep_view(),
                forall|j: int| 0 <= j < i ==> #[trigger] self@.tags[j].len() <= usize::MAX,
            decreases ntags - i,
        {
            let tag_chars = str_to_chars(self.tags[i].as_str());
            let tag_len: usize = tag_chars.len();
            assert(self@.tags[i as int].len() == tag_len);
            proof {
                assert(self@.tags[i as int] == self.tags@[i as int]@);
                lemma_tags_fields_push(self@.tags.take(i as int), self@.tags[i as int]);
                assert(self@.tags.take(i as int).push(self@.tags[i as int]) =~= self@.tags.take(
                    i + 1,
                ));
            }
            append_str_field(&mut out, &tag_chars);
            i += 1;
        }
        proof {
            assert(self@.tags.take(ntags as int) =~= self@.tags);
        }
        let quote_chars = str_to_chars(self.quote.as_str());
        let quote_len: usize = quote_chars.len();
        append_str_field(&mut out, &quote_chars);
        proof {
            assert(out@ =~= enc_quote(self@));
            assert(self@.author.len() == author_len);
            assert(self@.book.len() == book_len);
            assert(self@.quote.len() == quote_len);
            assert(quote_v_valid(self@));
            lemma_parse_enc_quote(self@);
        }
        chars_to_string(&out)
    }

    /// The stored byte form of this record.
    pub fn to_bytes(&self) -> (r: Vec<u8>)
        ensures
            r@ == vstd::utf8::encode_utf8(enc_quote(self@)),
    {
        let s = self.to_record();
        s.as_str().as_bytes_vec()
    }

    /// Parses a stored record string.
    pub fn from_record(s: &str) -> (r: Option<Quote>)
        ensures
            match r {
                Some(q) => parse_quote(s@) == Some(q@),
                None => parse_quote(s@) is None,
            },
    {
        let v = str_to_chars(s);
        parse_quote_chars(&v)
    }

    /// Parses a stored record from bytes.
    pub fn from_bytes(bytes: &[u8]) -> (r: Result<Quote, QuothError>)
        ensures
            r matches Ok(q) ==> vstd::utf8::valid_utf8(bytes@) && parse_quote(
                vstd::utf8::decode_utf8(bytes@),
            ) == Some(q@),
            r is Err ==> !vstd::utf8::valid_utf8(bytes@) || parse_quote(
                vstd::utf8::decode_utf8(bytes@),
            ) is None,
    {
        match u8_to_str(bytes) {
            Ok(s) => match Quote::from_record(s.as_str()) {
                Some(q) => Ok(q),
                None => Err(QuothError::MalformedIndex),
            },
            Err(e) => Err(QuothError::MalformedIndex),
        }
    }

    /// True when the quote's date lies in `[from_date, to_date)`.
    pub fn in_date_range(&self, from_date: Date, to_date: Date) -> (r: bool)
        ensures
            r == (from_date.le_spec(self.date) && self.date.lt_spec(to_date)),
    {
        from_date.le(&self.date) && self.date.lt(&to_date)
    }

    /// True when the quote carries the given tag.
    pub fn has_tag(&self, tag: &str) -> (r: bool)
        ensures
            r == self@.tags.contains(tag@),
    {
        let tag_string = tag.to_owned();
        let n = self.tags.len();
        for i in 0..n
            invariant
                n == self.tags@.len(),
                tag_string@ == tag@,
                forall|j: int| 0 <= j < i ==> self.tags@[j]@ != tag@,
        {
            if self.tags[i] == tag_string {
                assert(self@.tags[i as int] == tag@);
                return true;
            }
        }
        assert forall|j: int| 0 <= j < self@.tags.len() implies self@.tags[j] != tag@ by {
            assert(self.tags@[j]@ != tag@);
        }
        false
    }

    /// Keeps the quotes recorded in `[from_date, to_date)` that carry the
    /// given tag, when one is given; in order.
    pub fn filter_by_tag_in_date_range(
        quotes: Vec<Quote>,
        tag: Option<&str>,
        from_date: Date,
        to_date: Date,
    ) -> (r: Vec<Quote>)
        ensures
            r@ == tag_date_filtered(quotes@, opt_text_view(tag), from_date, to_date),
    {
        let ghost tagv = opt_text_view(tag);
        let ghost orig = quotes@;
        let total = quotes.len();
        let mut rest = quotes;
        let mut r: Vec<Quote> = Vec::new();
        let mut i: usize = 0;
        proof {
            assert(orig.take(0) =~= Seq::<Quote>::empty());
            assert(rest@ =~= orig.skip(0));
        }
        while rest.len() > 0
            invariant
                total == orig.len(),
                i + rest@.len() == orig.len(),
                tagv == opt_text_view(tag),
                rest@ == orig.skip(i as int),
                r@ == tag_date_filtered(orig.take(i as int), tagv, from_date, to_date),
            decreases rest@.len(),
        {
            let q = rest.remove(0);
            proof {
                assert(orig.skip(i as int)[0] == orig[i as int]);
                assert(rest@ =~= orig.skip(i + 1));
            }
            let ghost cur = orig[i as int];
            assert(i < orig.len());
            let keep_date = q.in_date_range(from_date, to_date);
            let keep = keep_date && match tag {
                Some(t) => q.has_tag(t),
                None => true,
            };
            proof {
                assert(keep == quote_kept(cur, tagv, from_date, to_date));
            }
            if keep {
                r.push(q);
            }
            proof {
                let t1 = orig.take(i + 1);
                assert(t1.len() == i + 1);
                assert(t1.drop_last() =~= orig.take(i as int));
                assert(t1.last() == cur);
                assert(r@ =~= tag_date_filtered(t1, tagv, from_date, to_date));
            }
            i += 1;
        }
        proof {
            assert(orig.take(i as int) =~= orig);
        }
        r
    }

    /// Keeps the quotes recorded in `[from_date, to_date)`, in order.
    pub fn filter_in_date_range(quotes: Vec<Quote>, from_date: Date, to_date: Date) -> (r: Vec<
        Quote,
    >)
        ensures
            r@ == date_filtered(quotes@, from_date, to_date),
    {
        let ghost orig = quotes@;
        let total = quotes.len();
        let mut rest = quotes;
        let mut r: Vec<Quote> = Vec::new();
        let mut i: usize = 0;
        proof {
            assert(orig.take(0) =~= Seq::<Quote>::empty());
            assert(rest@ =~= orig.skip(0));
        }
        while rest.len() > 0
            invariant
                total == orig.len(),
                i + rest@.len() == orig.len(),
                rest@ == orig.skip(i as int),
                r@ == date_filtered(orig.take(i as int), from_date, to_date),
            decreases rest@.len(),
        {
            let q = rest.remove(0);
            proof {
                assert(orig.skip(i as int)[0] == orig[i as int]);
                assert(rest@ =~= orig.skip(i + 1));
            }
            let ghost cur = orig[i as int];
            assert(i < orig.len());
            let keep = q.in_date_range(from_date, to_date);
            if keep {
                r.push(q);
            }
            proof {
                let t1 = orig.take(i + 1);
                assert(t1.len() == i + 1);
                assert(t1.drop_last() =~= orig.take(i as int));
                assert(t1.last() == cur);
                assert(r@ =~= date_filtered(t1, from_date, to_date));
            }
            i += 1;
        }
        proof {
            assert(orig.take(i as int) =~= orig);
        }
        r
    }
}

/// The views of the quotes whose date lies in `[from, to)`, in order.
pub open spec fn date_filtered_v(qs: Seq<QuoteV>, from: Date, to: Date) -> Seq<QuoteV>
    decreases qs.len(),
{
    if qs.len() == 0 {
        Seq::empty()
    } else {
        let rest = date_filtered_v(qs.drop_last(), from, to);
        if from.le_spec(qs.last().date) && qs.last().date.lt_spec(to) {
            rest.push(qs.last())
        } else {
            rest
        }
    }
}

/// The view of an optional filter text.
pub open spec fn opt_text_view(o: Option<&str>) -> Option<Seq<char>> {
    match o {
        Some(s) => Some(s@),
        None => None,
    }
}

/// True when the quote passes a date range and an optional tag filter.
pub open spec fn quote_kept(q: Quote, tag: Option<Seq<char>>, from: Date, to: Date) -> bool {
    &&& from.le_spec(q.date)
    &&& q.date.lt_spec(to)
    &&& match tag {
        Some(t) => q@.tags.contains(t),
        None => true,
    }
}

/// The quotes passing the date range and the optional tag filter, in order.
pub open spec fn tag_date_filtered(
    qs: Seq<Quote>,
    tag: Option<Seq<char>>,
    from: Date,
    to: Date,
) -> Seq<Quote>
    decreases qs.len(),
{
    if qs.len() == 0 {
        Seq::empty()
    } else {
        let rest = tag_date_filtered(qs.drop_last(), tag, from, to);
        if quote_kept(qs.last(), tag, from, to) {
            rest.push(qs.last())
        } else {
            rest
        }
    }
}

/// The quotes of `qs` whose date lies in `[from, to)`, in order.
pub open spec fn date_filtered(qs: Seq<Quote>, from: Date, to: Date) -> Seq<Quote>
    decreases qs.len(),
{
    if qs.len() == 0 {
        Seq::empty()
    } else {
        let rest = date_filtered(qs.drop_last(), from, to);
        if from.le_spec(qs.last().date) && qs.last().date.lt_spec(to) {
            rest.push(qs.last())
        } else {
            rest
        }
    }
}

// ------------------------------------------------------------------
// The flat file form of a quote
// ------------------------------------------------------------------

/// A run of zero characters.
pub open spec fn zeros(k: nat) -> Seq<char> {
    Seq::new(k, |i: int| '0')
}

/// The numeral of `n` left-padded with zeros to at least `w` characters.
pub open spec fn padded_num(n: u64, w: nat) -> Seq<char> {
    if enc_u64(n as nat).len() >= w {
        enc_u64(n as nat)
    } else {
        zeros((w - enc_u64(n as nat).len()) as nat) + enc_u64(n as nat)
    }
}

/// The file form of a date: zero-padded year, month and day joined with
/// dashes.
pub open spec fn date_text(d: Date) -> Seq<char> {
    padded_num(d.year, 4) + seq!['-'] + padded_num(d.month, 2) + seq!['-'] + padded_num(d.day, 2)
}

/// The numeral of `n` left-padded with zeros to at least `width` characters.
fn pad_digits(n: u64, width: usize) -> (r: Vec<char>)
    ensures
        r@ == padded_num(n, width as nat),
{
    let digits = crate::codec::format_u64(n);
    let mut r: Vec<char> = Vec::new();
    if digits.len() < width {
        let k = width - digits.len();
        let mut j: usize = 0;
        while j < k
            invariant
                j <= k,
                r@ =~= zeros(j as nat),
            decreases k - j,
        {
            r.push('0');
            assert(r@ =~= zeros((j + 1) as nat));
            j += 1;
        }
        assert(r@ =~= zeros(k as nat));
    }
    let ghost prefix = r@;
    append_chars(&mut r, &digits);
    proof {
        assert(r@ =~= prefix + digits@);
        if digits@.len() >= width {
            assert(prefix =~= Seq::<char>::empty());
            assert(r@ =~= padded_num(n, width as nat));
        }
    }
    r
}

/// A quote flattened to strings for writing to a file: the tags joined with
/// commas and the date in dashed, zero-padded form.
#[derive(Debug, Clone)]
pub struct TSVQuote {
    /// Quote index, used to retrieve and modify a quote.
    pub index: u64,
    /// Title of the quote's book.
    pub book: String,
    /// Name of the quote's author.
    pub author: String,
    /// Tags attached to the quote, comma-joined.
    pub tags: String,
    /// Date of recording the quote, as dashed text.
    pub date: String,
    /// Quote text.
    pub quote: String,
}

impl TSVQuote {
    /// Flattens a quote.
    pub fn from(quote: Quote) -> (r: TSVQuote)
        ensures
            r.index == quote@.index,
            r.book@ == quote@.book,
            r.author@ == quote@.author,
            r.tags@ == crate::codec::join_ch(quote@.tags, ','),
            r.date@ == date_text(quote@.date),
            r.quote@ == quote@.quote,
    {
        let mut tag_chars: Vec<Vec<char>> = Vec::new();
        let ntags = quote.tags.len();
        for i in 0..ntags
            invariant
                ntags == quote.tags@.len(),
                tag_chars@.len() == i,
                forall|j: int| 0 <= j < i ==> #[trigger] tag_chars@[j]@ == quote.tags@[j]@,
        {
            tag_chars.push(str_to_chars(quote.tags[i].as_str()));
        }
        proof {
            assert(tag_chars.deep_view() =~~= quote@.tags);
        }
        let joined = crate::utils::join_ch_chars(&tag_chars, ',');
        let mut date_chars = pad_digits(quote.date.year, 4);
        date_chars.push('-');
        let month_chars = pad_digits(quote.date.month, 2);
        append_chars(&mut date_chars, &month_chars);
        date_chars.push('-');
        let day_chars = pad_digits(quote.date.day, 2);
        append_chars(&mut date_chars, &day_chars);
        proof {
            assert(date_chars@ =~= date_text(quote@.date));
        }
        TSVQuote {
            index: quote.index,
            book: quote.book,
            author: quote.author,
            tags: chars_to_string(&joined),
            date: chars_to_string(&date_chars),
            quote: quote.quote,
        }
    }
}

// ------------------------------------------------------------------
// Executable parsing
// ------------------------------------------------------------------

/// The index of the first colon at or after `pos`.
fn find_colon(v: &Vec<char>, pos: usize) -> (r: usize)
    requires
        pos <= v@.len(),
    ensures
        pos <= r <= v@.len(),
        first_ch(v@.skip(pos as int), ':') == r - pos,
{
    let n = v.len();
    let mut j = pos;
    let mut found = false;
    while !found && j < n
        invariant
            pos <= j <= n == v@.len(),
            forall|k: int| pos <= k < j ==> #[trigger] v@[k] != ':',
            found ==> j < n && v@[j as int] == ':',
        decreases n - j + (if found {
            0int
        } else {
            1int
        }),
    {
        if v[j] == ':' {
            found = true;
        } else {
            j += 1;
        }
    }
    proof {
        let s = v@.skip(pos as int);
        assert forall|k: int| 0 <= k < j - pos implies #[trigger] s[k] != ':' by {
            assert(s[k] == v@[k + pos]);
        }
        if j < n {
            assert(s[j - pos] == v@[j as int]);
        }
        lemma_first_ch_is(s, ':', j - pos);
    }
    j
}

/// Parses a number field starting at `pos`.
fn parse_num_at(v: &Vec<char>, pos: usize) -> (r: Option<(u64, usize)>)
    requires
        pos <= v@.len(),
    ensures
        match r {
            Some(xp) => pos < xp.1 <= v@.len() && p_num(v@.skip(pos as int)) == Some(
                (xp.0, v@.skip(xp.1 as int)),
            ),
            None => p_num(v@.skip(pos as int)) is None,
        },
{
    let j = find_colon(v, pos);
    let ghost s = v@.skip(pos as int);
    if j == v.len() {
        return None;
    }
    proof {
        assert(s.take(j - pos) =~= v@.subrange(pos as int, j as int));
    }
    match parse_num_range(v, pos, j) {
        None => None,
        Some(x) => {
            proof {
                assert(s.skip(j - pos + 1) =~= v@.skip(j + 1));
            }
            Some((x, j + 1))
        },
    }
}

/// Parses a string field starting at `pos`.
fn parse_str_at(v: &Vec<char>, pos: usize) -> (r: Option<(Vec<char>, usize)>)
    requires
        pos <= v@.len(),
    ensures
        match r {
            Some(wp) => pos < wp.1 <= v@.len() && p_str(v@.skip(pos as int)) == Some(
                (wp.0@, v@.skip(wp.1 as int)),
            ),
            None => p_str(v@.skip(pos as int)) is None,
        },
{
    match parse_num_at(v, pos) {
        None => None,
        Some((n, np)) => {
            let remaining = v.len() - np;
            if n > remaining as u64 {
                None
            } else {
                let end = np + (n as usize);
                let w = copy_range(v, np, end);
                proof {
                    let rest = v@.skip(np as int);
                    assert(rest.take(n as int) =~= v@.subrange(np as int, end as int));
                    assert(rest.skip(n as int) =~= v@.skip(end as int));
                }
                Some((w, end))
            }
        },
    }
}

/// Parses `k` string fields starting at `pos`.
fn parse_tags_at(v: &Vec<char>, pos: usize, k: u64) -> (r: Option<(Vec<String>, usize)>)
    requires
        pos <= v@.len(),
    ensures
        match r {
            Some(tp) => pos <= tp.1 <= v@.len() && p_tags(v@.skip(pos as int), k) == Some(
                (tp.0.deep_view(), v@.skip(tp.1 as int)),
            ),
            None => p_tags(v@.skip(pos as int), k) is None,
        },
    decreases k,
{
    if k == 0 {
        let ts: Vec<String> = Vec::new();
        proof {
            assert(ts.deep_view() =~= Seq::<Seq<char>>::empty());
        }
        Some((ts, pos))
    } else {
        match parse_str_at(v, pos) {
            None => None,
            Some((w, np)) => match parse_tags_at(v, np, k - 1) {
                None => None,
                Some((ts, np2)) => {
                    let mut ts = ts;
                    let ghost rest_tags = ts.deep_view();
                    let ws = chars_to_string(&w);
                    ts.insert(0, ws);
                    proof {
                        assert(ts.deep_view() =~~= seq![w@] + rest_tags);
                    }
                    Some((ts, np2))
                },
            },
        }
    }
}

/// Parses a whole stored record, strictly.
fn parse_quote_chars(v: &Vec<char>) -> (r: Option<Quote>)
    ensures
        match r {
            Some(q) => parse_quote(v@) == Some(q@),
            None => parse_quote(v@) is None,
        },
{
    proof {
        assert(v@.skip(0) =~= v@);
    }
    let step1 = parse_num_at(v, 0);
    if step1.is_none() {
        return None;
    }
    let (index, p1) = step1.unwrap();
    let step2 = parse_num_at(v, p1);
    if step2.is_none() {
        return None;
    }
    let (year, p2) = step2.unwrap();
    let step3 = parse_num_at(v, p2);
    if step3.is_none() {
        return None;
    }
    let (month, p3) = step3.unwrap();
    let step4 = parse_num_at(v, p3);
    if step4.is_none() {
        return None;
    }
    let (day, p4) = step4.unwrap();
    let step5 = parse_num_at(v, p4);
    if step5.is_none() {
        return None;
    }
    let (hour, p5) = step5.unwrap();
    let step6 = parse_num_at(v, p5);
    if step6.is_none() {
        return None;
    }
    let (minute, p6) = step6.unwrap();
    let step7 = parse_num_at(v, p6);
    if step7.is_none() {
        return None;
    }
    let (second, p7) = step7.unwrap();
    let step8 = parse_str_at(v, p7);
    if step8.is_none() {
        return None;
    }
    let (author_chars, p8) = step8.unwrap();
    let step9 = parse_str_at(v, p8);
    if step9.is_none() {
        return None;
    }
    let (book_chars, p9) = step9.unwrap();
    let step10 = parse_num_at(v, p9);
    if step10.is_none() {
        return None;
    }
    let (ntags, p10) = step10.unwrap();
    let step11 = parse_tags_at(v, p10, ntags);
    if step11.is_none() {
        return None;
    }
    let (tags, p11) = step11.unwrap();
    let step12 = parse_str_at(v, p11);
    if step12.is_none() {
        return None;
    }
    let (quote_chars, p12) = step12.unwrap();
    if p12 != v.len() {
        return None;
    }
    let q = Quote {
        index,
        book: chars_to_string(&book_chars),
        author: chars_to_string(&author_chars),
        tags,
        date: Date { year, month, day, hour, minute, second },
        quote: chars_to_string(&quote_chars),
    };
    proof {
        assert(v@.skip(p12 as int).len() == 0);
    }
    Some(q)
}

} // verus!
