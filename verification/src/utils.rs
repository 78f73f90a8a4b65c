//! Text helpers: key canonicalization, tag splitting, byte/string bridging
//! and the store-level merge hook.

use vstd::prelude::*;

use crate::codec::{
    chars_to_string, copy_range, dec_ids, dec_values, decode_ids_str, decode_values_string,
    enc_ids, join_ch, split_ch, split_ch_chars, str_to_chars,
};
use crate::errors::QuothError;

verus! {

/// The delimiter byte separating encoded list elements in stored values.
pub const SEMICOLON: u8 = 59;

// ------------------------------------------------------------------
// The store-level merge hook
// ------------------------------------------------------------------

/// The view of an optional byte slice.
pub open spec fn opt_bytes_view(o: Option<&[u8]>) -> Option<Seq<u8>> {
    match o {
        Some(s) => Some(s@),
        None => None,
    }
}

/// What the merge hook produces: the new value alone when nothing (or an
/// empty value) was stored, else the old value, the delimiter byte and the
/// new value.
pub open spec fn merged_index_value(old: Option<Seq<u8>>, new: Seq<u8>) -> Seq<u8> {
    match old {
        None => new,
        Some(o) => if o.len() == 0 {
            new
        } else {
            o + seq![SEMICOLON] + new
        },
    }
}

/// The append hook handed to the store: if the key exists, the new value is
/// joined onto the existing one with the delimiter byte.
pub fn merge_index(_key: &[u8], old_indices: Option<&[u8]>, new_index: &[u8]) -> (r: Option<
    Vec<u8>,
>)
    ensures
        r matches Some(v) && v@ == merged_index_value(opt_bytes_view(old_indices), new_index@),
{
    let mut ret: Vec<u8> = Vec::new();
    match old_indices {
        Some(old) => {
            let m = old.len();
            for i in 0..m
                invariant
                    m == old@.len(),
                    ret@ == old@.take(i as int),
            {
                ret.push(old[i]);
                assert(ret@ =~= old@.take(i + 1));
            }
            assert(ret@ =~= old@);
            if ret.len() > 0 {
                ret.push(SEMICOLON);
            }
        },
        None => {},
    }
    let ghost mid = ret@;
    let n = new_index.len();
    for i in 0..n
        invariant
            n == new_index@.len(),
            ret@ == mid + new_index@.take(i as int),
    {
        ret.push(new_index[i]);
        assert(ret@ =~= mid + new_index@.take(i + 1));
    }
    assert(ret@ =~= mid + new_index@);
    proof {
        match old_indices {
            Some(o) => {
                if o@.len() > 0 {
                    assert(ret@ =~= o@ + seq![SEMICOLON] + new_index@);
                }
            },
            None => {},
        }
    }
    Some(ret)
}

// ------------------------------------------------------------------
// Byte/string bridging
// ------------------------------------------------------------------

/// Converts stored bytes to a string.
///
/// Relies on `String::from_utf8`: it returns the string whose UTF-8 encoding
/// is the input exactly when the input is valid UTF-8, and an error
/// otherwise.
#[verifier::external_body]
pub fn u8_to_str(input: &[u8]) -> (r: Result<String, QuothError>)
    ensures
        match r {
            Ok(s) => vstd::utf8::valid_utf8(input@) && s@ == vstd::utf8::decode_utf8(input@),
            Err(e) => !vstd::utf8::valid_utf8(input@) && e == QuothError::MalformedIndex,
        },
{
    match String::from_utf8(input.to_vec()) {
        Ok(s) => Ok(s),
        Err(_) => Err(QuothError::MalformedIndex),
    }
}

/// Splits a stored byte value into its delimiter-separated string segments.
/// Fails only when the bytes are not valid UTF-8.
pub fn split_values_string(index_list: &[u8]) -> (r: Result<Vec<String>, QuothError>)
    ensures
        r matches Ok(vs) ==> vstd::utf8::valid_utf8(index_list@) && vs.deep_view() == dec_values(
            vstd::utf8::decode_utf8(index_list@),
        ),
        r is Err ==> !vstd::utf8::valid_utf8(index_list@) && r == Err::<Vec<String>, QuothError>(
            QuothError::MalformedIndex,
        ),
{
    match u8_to_str(index_list) {
        Ok(s) => Ok(decode_values_string(&s)),
        Err(e) => Err(QuothError::MalformedIndex),
    }
}

/// Decodes a stored byte value as a list of quote identifiers, strictly:
/// any segment that is not a `u64` numeral rejects the whole value.
pub fn split_indices_usize(index_list: &[u8]) -> (r: Result<Vec<u64>, QuothError>)
    ensures
        r matches Ok(ids) ==> vstd::utf8::valid_utf8(index_list@) && dec_ids(
            vstd::utf8::decode_utf8(index_list@),
        ) == Some(ids@),
        r is Err ==> (!vstd::utf8::valid_utf8(index_list@) || dec_ids(
            vstd::utf8::decode_utf8(index_list@),
        ) is None) && r == Err::<Vec<u64>, QuothError>(QuothError::MalformedIndex),
{
    match u8_to_str(index_list) {
        Ok(s) => match decode_ids_str(s.as_str()) {
            Some(ids) => Ok(ids),
            None => Err(QuothError::MalformedIndex),
        },
        Err(e) => Err(QuothError::MalformedIndex),
    }
}

/// Encodes a list of quote identifiers as stored bytes: decimal numerals
/// joined with the delimiter.  Always succeeds.
pub fn make_indices_string(index_list: &Vec<u64>) -> (r: Result<Vec<u8>, QuothError>)
    ensures
        r matches Ok(v) && v@ == vstd::utf8::encode_utf8(enc_ids(index_list@)),
{
    let s = crate::codec::encode_ids_string(index_list);
    Ok(s.as_str().as_bytes_vec())
}

// ------------------------------------------------------------------
// Canonicalization: camel-case phrases
// ------------------------------------------------------------------

/// True when `c` is a whitespace character, per the Unicode white-space
/// set.  Words are separated by these.
pub open spec fn is_space(c: char) -> bool {
    match c {
        '\t' | '\n' | '\u{b}' | '\u{c}' | '\r' | ' ' | '\u{85}' | '\u{a0}' | '\u{1680}'
        | '\u{2000}' | '\u{2001}' | '\u{2002}' | '\u{2003}' | '\u{2004}' | '\u{2005}'
        | '\u{2006}' | '\u{2007}' | '\u{2008}' | '\u{2009}' | '\u{200a}' | '\u{2028}'
        | '\u{2029}' | '\u{202f}' | '\u{205f}' | '\u{3000}' => true,
        _ => false,
    }
}

/// True when `s` contains no whitespace.
pub open spec fn no_space(s: Seq<char>) -> bool {
    forall|i: int| 0 <= i < s.len() ==> !is_space(#[trigger] s[i])
}

/// The ASCII upper-case form of a character; other characters unchanged.
pub open spec fn upper_char(c: char) -> char {
    match c {
        'a' => 'A',
        'b' => 'B',
        'c' => 'C',
        'd' => 'D',
        'e' => 'E',
        'f' => 'F',
        'g' => 'G',
        'h' => 'H',
        'i' => 'I',
        'j' => 'J',
        'k' => 'K',
        'l' => 'L',
        'm' => 'M',
        'n' => 'N',
        'o' => 'O',
        'p' => 'P',
        'q' => 'Q',
        'r' => 'R',
        's' => 'S',
        't' => 'T',
        'u' => 'U',
        'v' => 'V',
        'w' => 'W',
        'x' => 'X',
        'y' => 'Y',
        'z' => 'Z',
        _ => c,
    }
}

/// The ASCII lower-case form of a character; other characters unchanged.
pub open spec fn lower_char(c: char) -> char {
    match c {
        'A' => 'a',
        'B' => 'b',
        'C' => 'c',
        'D' => 'd',
        'E' => 'e',
        'F' => 'f',
        'G' => 'g',
        'H' => 'h',
        'I' => 'i',
        'J' => 'j',
        'K' => 'k',
        'L' => 'l',
        'M' => 'm',
        'N' => 'n',
        'O' => 'o',
        'P' => 'p',
        'Q' => 'q',
        'R' => 'r',
        'S' => 's',
        'T' => 't',
        'U' => 'u',
        'V' => 'v',
        'W' => 'w',
        'X' => 'x',
        'Y' => 'y',
        'Z' => 'z',
        _ => c,
    }
}

/// A word with its first character upper-cased and the rest lower-cased.
pub open spec fn camel_word_spec(w: Seq<char>) -> Seq<char> {
    Seq::new(
        w.len(),
        |i: int|
            if i == 0 {
                upper_char(w[i])
            } else {
                lower_char(w[i])
            },
    )
}

/// The whitespace-delimited words of `s`, in order, empty words dropped.
pub open spec fn words_of(s: Seq<char>) -> Seq<Seq<char>>
    decreases s.len(),
{
    if s.len() == 0 {
        Seq::empty()
    } else if is_space(s[0]) {
        words_of(s.drop_first())
    } else {
        let rest = words_of(s.drop_first());
        if s.len() >= 2 && !is_space(s[1]) {
            seq![seq![s[0]] + rest[0]] + rest.drop_first()
        } else {
            seq![seq![s[0]]] + rest
        }
    }
}

/// The canonical form of a phrase: each word camel-cased, words rejoined
/// with single spaces.
pub open spec fn camel_phrase_spec(s: Seq<char>) -> Seq<char> {
    join_ch(words_of(s).map_values(|w: Seq<char>| camel_word_spec(w)), ' ')
}

/// A nonempty whitespace-free prefix followed by a boundary is one word.
pub proof fn lemma_words_step(w: Seq<char>, t: Seq<char>)
    requires
        w.len() >= 1,
        no_space(w),
        t.len() == 0 || is_space(t[0]),
    ensures
        words_of(w + t) =~= seq![w] + words_of(t),
    decreases w.len(),
{
    let s = w + t;
    assert(s[0] == w[0]);
    assert(!is_space(s[0]));
    assert(s.drop_first() =~= w.drop_first() + t);
    if w.len() == 1 {
        assert(seq![s[0]] =~= w);
        if t.len() == 0 {
            assert(s.len() == 1);
            assert(words_of(s.drop_first()) =~= Seq::<Seq<char>>::empty());
        } else {
            assert(s[1] == t[0]);
            assert(is_space(s[1]));
        }
    } else {
        assert(s[1] == w[1]);
        assert(!is_space(s[1]));
        lemma_words_step(w.drop_first(), t);
        let rest = words_of(s.drop_first());
        assert(rest =~= seq![w.drop_first()] + words_of(t));
        assert(rest[0] == w.drop_first());
        assert(seq![s[0]] + rest[0] =~= w);
        assert(rest.drop_first() =~= words_of(t));
    }
}

/// True when `c` is whitespace.
pub fn is_space_char(c: char) -> (r: bool)
    ensures
        r == is_space(c),
{
    match c {
        '\t' | '\n' | '\u{b}' | '\u{c}' | '\r' | ' ' | '\u{85}' | '\u{a0}' | '\u{1680}'
        | '\u{2000}' | '\u{2001}' | '\u{2002}' | '\u{2003}' | '\u{2004}' | '\u{2005}'
        | '\u{2006}' | '\u{2007}' | '\u{2008}' | '\u{2009}' | '\u{200a}' | '\u{2028}'
        | '\u{2029}' | '\u{202f}' | '\u{205f}' | '\u{3000}' => true,
        _ => false,
    }
}

/// The ASCII upper-case form of a character.
pub fn upper_char_exec(c: char) -> (r: char)
    ensures
        r == upper_char(c),
{
    match c {
        'a' => 'A',
        'b' => 'B',
        'c' => 'C',
        'd' => 'D',
        'e' => 'E',
        'f' => 'F',
        'g' => 'G',
        'h' => 'H',
        'i' => 'I',
        'j' => 'J',
        'k' => 'K',
        'l' => 'L',
        'm' => 'M',
        'n' => 'N',
        'o' => 'O',
        'p' => 'P',
        'q' => 'Q',
        'r' => 'R',
        's' => 'S',
        't' => 'T',
        'u' => 'U',
        'v' => 'V',
        'w' => 'W',
        'x' => 'X',
        'y' => 'Y',
        'z' => 'Z',
        _ => c,
    }
}

/// The ASCII lower-case form of a character.
pub fn lower_char_exec(c: char) -> (r: char)
    ensures
        r == lower_char(c),
{
    match c {
        'A' => 'a',
        'B' => 'b',
        'C' => 'c',
        'D' => 'd',
        'E' => 'e',
        'F' => 'f',
        'G' => 'g',
        'H' => 'h',
        'I' => 'i',
        'J' => 'j',
        'K' => 'k',
        'L' => 'l',
        'M' => 'm',
        'N' => 'n',
        'O' => 'o',
        'P' => 'p',
        'Q' => 'q',
        'R' => 'r',
        'S' => 's',
        'T' => 't',
        'U' => 'u',
        'V' => 'v',
        'W' => 'w',
        'X' => 'x',
        'Y' => 'y',
        'Z' => 'z',
        _ => c,
    }
}

/// Camel-cases one word's characters.
fn camel_chars(w: &Vec<char>) -> (r: Vec<char>)
    ensures
        r@ == camel_word_spec(w@),
{
    let mut r: Vec<char> = Vec::new();
    let n = w.len();
    for i in 0..n
        invariant
            n == w@.len(),
            r@.len() == i,
            forall|j: int| 0 <= j < i ==> r@[j] == camel_word_spec(w@)[j],
    {
        if i == 0 {
            r.push(upper_char_exec(w[i]));
        } else {
            r.push(lower_char_exec(w[i]));
        }
    }
    assert(r@ =~= camel_word_spec(w@));
    r
}

/// Capitalizes the first letter of a word and lower-cases the rest.
pub fn camel_case_word(word: &str) -> (r: String)
    ensures
        r@ == camel_word_spec(word@),
{
    let v = str_to_chars(word);
    let c = camel_chars(&v);
    chars_to_string(&c)
}

/// The whitespace-delimited words of `v`.
fn split_words(v: &Vec<char>) -> (r: Vec<Vec<char>>)
    ensures
        r.deep_view() == words_of(v@),
{
    let n = v.len();
    let mut words: Vec<Vec<char>> = Vec::new();
    let mut i: usize = 0;
    proof {
        assert(v@.skip(0) =~= v@);
        assert(words.deep_view() + words_of(v@.skip(0)) =~~= words_of(v@));
    }
    while i < n
        invariant
            i <= n == v@.len(),
            words_of(v@) == words.deep_view() + words_of(v@.skip(i as int)),
        decreases n - i,
    {
        if is_space_char(v[i]) {
            proof {
                assert(v@.skip(i as int)[0] == v@[i as int]);
                assert(v@.skip(i as int).drop_first() =~= v@.skip(i + 1));
            }
            i += 1;
        } else {
            let start = i;
            let mut j = i + 1;
            let mut boundary = false;
            while !boundary && j < n
                invariant
                    start < j <= n == v@.len(),
                    no_space(v@.subrange(start as int, j as int)),
                    !is_space(v@[start as int]),
                    boundary ==> j < n && is_space(v@[j as int]),
                decreases n - j + (if boundary {
                    0int
                } else {
                    1int
                }),
            {
                if is_space_char(v[j]) {
                    boundary = true;
                } else {
                    j += 1;
                    assert(no_space(v@.subrange(start as int, j as int)));
                }
            }
            let w = copy_range(v, start, j);
            let ghost p = v@.subrange(start as int, j as int);
            let ghost t = v@.skip(j as int);
            let ghost before = words.deep_view();
            proof {
                assert(v@.skip(start as int) =~= p + t);
                assert(j < n ==> is_space(t[0]));
                lemma_words_step(p, t);
            }
            words.push(w);
            proof {
                assert(words.deep_view() =~~= before.push(p));
                assert(before + (seq![p] + words_of(t)) =~~= before.push(p) + words_of(t));
            }
            i = j;
        }
    }
    proof {
        assert(v@.skip(n as int) =~= Seq::<char>::empty());
        assert(words_of(v@) =~~= words.deep_view());
    }
    words
}

/// Joins character segments with single occurrences of `c`.
pub fn join_ch_chars(parts: &Vec<Vec<char>>, c: char) -> (r: Vec<char>)
    ensures
        r@ == join_ch(parts.deep_view(), c),
{
    let mut r: Vec<char> = Vec::new();
    let n = parts.len();
    proof {
        assert(parts.deep_view().take(0) =~= Seq::<Seq<char>>::empty());
    }
    for i in 0..n
        invariant
            n == parts@.len(),
            r@ == join_ch(parts.deep_view().take(i as int), c),
    {
        proof {
            crate::codec::lemma_join_ch_push(parts.deep_view().take(i as int), parts.deep_view()[i as int], c);
            assert(parts.deep_view().take(i as int).push(parts.deep_view()[i as int])
                =~= parts.deep_view().take(i + 1));
        }
        if i > 0 {
            r.push(c);
        }
        let m = parts[i].len();
        let ghost mid = r@;
        let mut j: usize = 0;
        while j < m
            invariant
                j <= m == parts@[i as int]@.len(),
                i < parts@.len(),
                r@ == mid + parts@[i as int]@.take(j as int),
            decreases m - j,
        {
            r.push(parts[i][j]);
            assert(r@ =~= mid + parts@[i as int]@.take(j + 1));
            j += 1;
        }
        proof {
            assert(parts@[i as int]@.take(m as int) =~= parts@[i as int]@);
            assert(parts.deep_view()[i as int] == parts@[i as int]@);
            assert(r@ =~= join_ch(parts.deep_view().take(i + 1), c));
        }
    }
    proof {
        assert(parts.deep_view().take(n as int) =~= parts.deep_view());
    }
    r
}

/// Canonicalizes a phrase: each whitespace-delimited word camel-cased, words
/// rejoined with single spaces.  This transform is applied to author and
/// book text before any key is derived from it.
pub fn camel_case_phrase(input: &str) -> (r: String)
    ensures
        r@ == camel_phrase_spec(input@),
{
    let v = str_to_chars(input);
    let words = split_words(&v);
    let mut cased: Vec<Vec<char>> = Vec::new();
    let n = words.len();
    for i in 0..n
        invariant
            n == words@.len(),
            words.deep_view() == words_of(v@),
            cased@.len() == i,
            forall|j: int|
                0 <= j < i ==> #[trigger] cased@[j]@ == camel_word_spec(words.deep_view()[j]),
    {
        let w = camel_chars(&words[i]);
        cased.push(w);
    }
    proof {
        assert(cased.deep_view() =~~= words_of(v@).map_values(|w: Seq<char>| camel_word_spec(w)));
    }
    let joined = join_ch_chars(&cased, ' ');
    chars_to_string(&joined)
}

// ------------------------------------------------------------------
// Tag splitting
// ------------------------------------------------------------------

/// `s` with leading whitespace removed.
pub open spec fn trim_front(s: Seq<char>) -> Seq<char>
    decreases s.len(),
{
    if s.len() > 0 && is_space(s[0]) {
        trim_front(s.drop_first())
    } else {
        s
    }
}

/// `s` with trailing whitespace removed.
pub open spec fn trim_back(s: Seq<char>) -> Seq<char>
    decreases s.len(),
{
    if s.len() > 0 && is_space(s.last()) {
        trim_back(s.drop_last())
    } else {
        s
    }
}

/// `s` with leading and trailing whitespace removed.
pub open spec fn trim_spec(s: Seq<char>) -> Seq<char> {
    trim_back(trim_front(s))
}

/// The tags encoded in a comma-separated string: the segments between
/// commas, each trimmed of surrounding whitespace.
pub open spec fn tags_of(s: Seq<char>) -> Seq<Seq<char>> {
    split_ch(s, ',').map_values(|p: Seq<char>| trim_spec(p))
}

/// Dropping a whitespace prefix front-trims to the same suffix.
proof fn lemma_trim_front_skip(s: Seq<char>, i: int)
    requires
        0 <= i <= s.len(),
        forall|k: int| 0 <= k < i ==> is_space(#[trigger] s[k]),
        i == s.len() || !is_space(s[i]),
    ensures
        trim_front(s) =~= s.skip(i),
    decreases i,
{
    if i == 0 {
        if s.len() > 0 {
            assert(!is_space(s[0]));
        }
        assert(s.skip(0) =~= s);
    } else {
        assert(is_space(s[0]));
        assert(s.drop_first() =~= s.skip(1));
        lemma_trim_front_skip(s.drop_first(), i - 1);
        assert(s.drop_first().skip(i - 1) =~= s.skip(i));
    }
}

/// Dropping a whitespace suffix back-trims to the same prefix.
proof fn lemma_trim_back_take(s: Seq<char>, j: int)
    requires
        0 <= j <= s.len(),
        forall|k: int| j <= k < s.len() ==> is_space(#[trigger] s[k]),
        j == 0 || !is_space(s[j - 1]),
    ensures
        trim_back(s) =~= s.take(j),
    decreases s.len() - j,
{
    if j == s.len() {
        if s.len() > 0 {
            assert(!is_space(s.last()));
        }
        assert(s.take(j) =~= s);
    } else {
        assert(is_space(s.last()));
        assert(s.drop_last() =~= s.take(s.len() - 1));
        lemma_trim_back_take(s.drop_last(), j);
        assert(s.drop_last().take(j) =~= s.take(j));
    }
}

/// A copy of `v` with surrounding whitespace removed.
pub fn trim_chars(v: &Vec<char>) -> (r: Vec<char>)
    ensures
        r@ == trim_spec(v@),
{
    let n = v.len();
    let mut i: usize = 0;
    let mut front_done = false;
    while !front_done && i < n
        invariant
            i <= n == v@.len(),
            forall|k: int| 0 <= k < i ==> is_space(#[trigger] v@[k]),
            front_done ==> i < n && !is_space(v@[i as int]),
        decreases n - i + (if front_done {
            0int
        } else {
            1int
        }),
    {
        if !is_space_char(v[i]) {
            front_done = true;
        } else {
            i += 1;
        }
    }
    let mut j: usize = n;
    let mut back_done = false;
    while !back_done && j > i
        invariant
            i <= j <= n == v@.len(),
            forall|k: int| j <= k < n ==> is_space(#[trigger] v@[k]),
            back_done ==> j > i && !is_space(v@[j - 1]),
        decreases j + (if back_done {
            0int
        } else {
            1int
        }),
    {
        if !is_space_char(v[j - 1]) {
            back_done = true;
        } else {
            j -= 1;
        }
    }
    let r = copy_range(v, i, j);
    proof {
        assert(i == n || !is_space(v@[i as int]));
        lemma_trim_front_skip(v@, i as int);
        let f = v@.skip(i as int);
        if j == i {
            lemma_trim_back_take(f, 0);
        } else {
            assert(f[j - i - 1] == v@[j - 1]);
            assert forall|k: int| j - i <= k < f.len() implies is_space(#[trigger] f[k]) by {
                assert(f[k] == v@[k + i]);
            }
            lemma_trim_back_take(f, j - i);
        }
        assert(f.take(j - i) =~= v@.subrange(i as int, j as int));
    }
    r
}

/// Splits comma-separated tag text into individual trimmed tags.
pub fn split_tags(input: &str) -> (r: Vec<String>)
    ensures
        r.deep_view() == tags_of(input@),
{
    let v = str_to_chars(input);
    let parts = split_ch_chars(&v, ',');
    let mut r: Vec<String> = Vec::new();
    let n = parts.len();
    for i in 0..n
        invariant
            n == parts@.len(),
            parts.deep_view() == split_ch(input@, ','),
            r@.len() == i,
            forall|j: int|
                0 <= j < i ==> #[trigger] r@[j]@ == trim_spec(parts.deep_view()[j]),
    {
        let t = trim_chars(&parts[i]);
        let ts = chars_to_string(&t);
        r.push(ts);
        proof {
            assert(parts.deep_view()[i as int] == parts@[i as int]@);
            assert(r@[i as int]@ == trim_spec(parts.deep_view()[i as int]));
        }
    }
    proof {
        assert(r.deep_view() =~~= tags_of(input@));
    }
    r
}

// ------------------------------------------------------------------
// Sorting
// ------------------------------------------------------------------

/// True when the identifiers are in ascending order.
pub open spec fn sorted(s: Seq<u64>) -> bool {
    forall|i: int, j: int| 0 <= i < j < s.len() ==> s[i] <= s[j]
}

/// Sorts identifiers ascending with insertion sort, which suits the almost
/// sorted lists this archive produces: a few recent appends on an otherwise
/// sorted list.
pub fn insertion_sort(array: &Vec<u64>) -> (r: Vec<u64>)
    ensures
        sorted(r@),
        r@.to_multiset() == array@.to_multiset(),
        r@.len() == array@.len(),
{
    let mut v: Vec<u64> = Vec::new();
    let n = array.len();
    for i in 0..n
        invariant
            n == array@.len(),
            v@ == array@.take(i as int),
    {
        v.push(array[i]);
        assert(v@ =~= array@.take(i + 1));
    }
    assert(v@ =~= array@);
    if n <= 1 {
        return v;
    }
    let mut slot: usize = 1;
    while slot < n
        invariant
            1 <= slot <= n == v@.len(),
            v@.to_multiset() == array@.to_multiset(),
            forall|a: int, b: int| 0 <= a < b < slot as int ==> v@[a] <= v@[b],
        decreases n - slot,
    {
        let mut j: usize = slot;
        let mut placed = false;
        while !placed && j > 0
            invariant
                0 <= j <= slot < n == v@.len(),
                v@.to_multiset() == array@.to_multiset(),
                forall|a: int, b: int| 0 <= a < b < j as int ==> v@[a] <= v@[b],
                forall|a: int, b: int| j as int <= a < b <= slot as int ==> v@[a] <= v@[b],
                forall|a: int, b: int|
                    0 <= a < j as int && (j as int) < b <= slot as int ==> v@[a] <= v@[b],
                placed ==> j > 0 && v@[j - 1] <= v@[j as int],
            decreases j + (if placed {
                0int
            } else {
                1int
            }),
        {
            if v[j - 1] <= v[j] {
                placed = true;
                continue ;
            }
            let ghost before = v@;
            let x = v[j - 1];
            let y = v[j];
            v[j - 1] = y;
            v[j] = x;
            proof {
                assert(v@ =~= before.update(j - 1, before[j as int]).update(
                    j as int,
                    before[j - 1],
                ));
                lemma_swap_multiset(before, j - 1, j as int);
            }
            j -= 1;
        }
        proof {
            let jj = j as int;
            assert forall|a: int, b: int| 0 <= a < b <= slot as int implies v@[a] <= v@[b] by {
                if b < jj {
                } else if a >= jj {
                } else {
                    // a < jj <= b: bridge through position jj, using the hole
                    // comparison established on exit
                    assert(placed || j == 0);
                    assert(jj > 0);
                    assert(v@[jj - 1] <= v@[jj]);
                    assert(v@[a] <= v@[jj - 1]) by {
                        if a < jj - 1 {
                        }
                    }
                    if b == jj {
                    } else {
                        assert(v@[jj] <= v@[b]);
                    }
                }
            }
        }
        slot += 1;
    }
    proof {
        assert(v@.take(n as int) =~= v@);
    }
    v
}

/// Swapping two positions preserves the multiset of elements.
proof fn lemma_swap_multiset(s: Seq<u64>, i: int, j: int)
    requires
        0 <= i < s.len(),
        0 <= j < s.len(),
    ensures
        s.update(i, s[j]).update(j, s[i]).to_multiset() == s.to_multiset(),
{
    broadcast use vstd::seq_lib::to_multiset_update;
    broadcast use vstd::multiset::group_multiset_axioms;

    if i == j {
        assert(s.update(i, s[j]).update(j, s[i]) =~= s);
    } else {
        let t1 = s.update(i, s[j]);
        let t = t1.update(j, s[i]);
        s.to_multiset_ensures();
        assert(s.to_multiset().count(s[i]) > 0);
        assert(t1.to_multiset() == s.to_multiset().insert(s[j]).remove(s[i]));
        assert(t1[j] == s[j]);
        assert(t.to_multiset() == t1.to_multiset().insert(s[i]).remove(t1[j]));
        assert(t.to_multiset() =~= s.to_multiset());
    }
}

} // verus!
