//! The index codec: text encodings used for every value kept in the store.
//!
//! Lists of quote identifiers and lists of free-text values (book titles) are
//! stored as their elements joined with a single `';'` delimiter; a single
//! identifier is stored as its decimal numeral.  Decoding identifiers is
//! strict: a list with any unparsable segment is rejected as a whole rather
//! than silently skipping the bad segment.  The empty string decodes as the
//! empty identifier list, matching the encoding of the empty list.

use vstd::prelude::*;

verus! {

// ------------------------------------------------------------------
// Single decimal digits
// ------------------------------------------------------------------

/// True when `c` is a decimal digit.
pub open spec fn is_digit(c: char) -> bool {
    ||| c == '0'
    ||| c == '1'
    ||| c == '2'
    ||| c == '3'
    ||| c == '4'
    ||| c == '5'
    ||| c == '6'
    ||| c == '7'
    ||| c == '8'
    ||| c == '9'
}

/// The numeric value of a decimal digit character.
pub open spec fn digit_val(c: char) -> nat
    recommends
        is_digit(c),
{
    if c == '0' {
        0
    } else if c == '1' {
        1
    } else if c == '2' {
        2
    } else if c == '3' {
        3
    } else if c == '4' {
        4
    } else if c == '5' {
        5
    } else if c == '6' {
        6
    } else if c == '7' {
        7
    } else if c == '8' {
        8
    } else {
        9
    }
}

/// The decimal digit character for a value below ten.
pub open spec fn digit_chr(d: nat) -> char
    recommends
        d < 10,
{
    if d == 0 {
        '0'
    } else if d == 1 {
        '1'
    } else if d == 2 {
        '2'
    } else if d == 3 {
        '3'
    } else if d == 4 {
        '4'
    } else if d == 5 {
        '5'
    } else if d == 6 {
        '6'
    } else if d == 7 {
        '7'
    } else if d == 8 {
        '8'
    } else {
        '9'
    }
}

/// The numeric value of a digit character, or `None` for any other character.
pub fn digit_of_char(c: char) -> (r: Option<u64>)
    ensures
        r matches Some(d) ==> is_digit(c) && d == digit_val(c) && d < 10,
        r is None ==> !is_digit(c),
{
    match c {
        '0' => Some(0),
        '1' => Some(1),
        '2' => Some(2),
        '3' => Some(3),
        '4' => Some(4),
        '5' => Some(5),
        '6' => Some(6),
        '7' => Some(7),
        '8' => Some(8),
        '9' => Some(9),
        _ => None,
    }
}

/// The digit character for a value below ten.
pub fn char_of_digit(d: u64) -> (r: char)
    requires
        d < 10,
    ensures
        r == digit_chr(d as nat),
{
    if d == 0 {
        '0'
    } else if d == 1 {
        '1'
    } else if d == 2 {
        '2'
    } else if d == 3 {
        '3'
    } else if d == 4 {
        '4'
    } else if d == 5 {
        '5'
    } else if d == 6 {
        '6'
    } else if d == 7 {
        '7'
    } else if d == 8 {
        '8'
    } else {
        '9'
    }
}

// ------------------------------------------------------------------
// Decimal numerals
// ------------------------------------------------------------------

/// True when every character of `s` is a decimal digit.
pub open spec fn all_digits(s: Seq<char>) -> bool {
    forall|i: int| 0 <= i < s.len() ==> is_digit(#[trigger] s[i])
}

/// The value of a sequence of digit characters read as a decimal numeral.
pub open spec fn dec_val(s: Seq<char>) -> nat
    recommends
        all_digits(s),
    decreases s.len(),
{
    if s.len() == 0 {
        0
    } else {
        dec_val(s.drop_last()) * 10 + digit_val(s.last())
    }
}

/// True when `s` is a numeral that parses to a `u64`: nonempty, all digits,
/// and with a value that fits.
pub open spec fn valid_num(s: Seq<char>) -> bool {
    s.len() > 0 && all_digits(s) && dec_val(s) <= u64::MAX
}

/// What parsing a numeral returns: the value, or `None` for anything that is
/// not a `u64` numeral.
pub open spec fn num_of(s: Seq<char>) -> Option<u64> {
    if valid_num(s) {
        Some(dec_val(s) as u64)
    } else {
        None
    }
}

/// The canonical decimal numeral of `n`: no leading zeros, most significant
/// digit first.
pub open spec fn enc_u64(n: nat) -> Seq<char>
    decreases n,
{
    if n < 10 {
        seq![digit_chr(n)]
    } else {
        enc_u64(n / 10) + seq![digit_chr(n % 10)]
    }
}

/// A canonical numeral is nonempty and made of digits only.
pub proof fn lemma_enc_u64_digits(n: nat)
    ensures
        enc_u64(n).len() >= 1,
        all_digits(enc_u64(n)),
    decreases n,
{
    if n >= 10 {
        lemma_enc_u64_digits(n / 10);
        assert forall|i: int| 0 <= i < enc_u64(n).len() implies is_digit(#[trigger] enc_u64(n)[i]) by {
            if i < enc_u64(n / 10).len() {
                assert(enc_u64(n)[i] == enc_u64(n / 10)[i]);
            } else {
                assert(enc_u64(n)[i] == digit_chr(n % 10));
            }
        }
    }
}

/// Reading back the canonical numeral of `n` gives `n`.
pub proof fn lemma_dec_enc(n: nat)
    ensures
        dec_val(enc_u64(n)) == n,
    decreases n,
{
    if n < 10 {
        let s = seq![digit_chr(n)];
        assert(s.drop_last() =~= Seq::<char>::empty());
        assert(s.last() == digit_chr(n));
        assert(dec_val(Seq::<char>::empty()) == 0);
        assert(dec_val(s) == dec_val(s.drop_last()) * 10 + digit_val(s.last()));
        assert(digit_val(digit_chr(n)) == n);
    } else {
        lemma_dec_enc(n / 10);
        let s = enc_u64(n / 10) + seq![digit_chr(n % 10)];
        assert(enc_u64(n) == s);
        assert(s.drop_last() =~= enc_u64(n / 10));
        assert(s.last() == digit_chr(n % 10));
        assert(n % 10 < 10);
        assert(digit_val(digit_chr(n % 10)) == n % 10);
        assert(dec_val(s) == (n / 10) * 10 + n % 10);
        vstd::arithmetic::div_mod::lemma_fundamental_div_mod(n as int, 10);
        assert(n == 10 * (n / 10) + n % 10);
    }
}

/// A digit prefix of a numeral never exceeds the whole numeral's value.
pub proof fn lemma_dec_val_prefix(s: Seq<char>, i: int)
    requires
        0 <= i <= s.len(),
    ensures
        dec_val(s.take(i)) <= dec_val(s),
    decreases s.len() - i,
{
    if i < s.len() {
        assert(s.take(i + 1).drop_last() =~= s.take(i));
        assert(s.take(i + 1).last() == s[i]);
        assert(dec_val(s.take(i)) <= dec_val(s.take(i)) * 10 + digit_val(s[i]));
        lemma_dec_val_prefix(s, i + 1);
    } else {
        assert(s.take(i) =~= s);
    }
}

// ------------------------------------------------------------------
// Delimited lists
// ------------------------------------------------------------------

/// True when `s` does not contain the character `c`.
pub open spec fn no_ch(s: Seq<char>, c: char) -> bool {
    forall|i: int| 0 <= i < s.len() ==> #[trigger] s[i] != c
}

/// True when `s` does not contain the delimiter.
pub open spec fn no_semi(s: Seq<char>) -> bool {
    no_ch(s, ';')
}

/// A digit never equals the delimiter, so numerals are delimiter-free.
pub proof fn lemma_digits_no_semi(s: Seq<char>)
    requires
        all_digits(s),
    ensures
        no_semi(s),
{
    assert forall|i: int| 0 <= i < s.len() implies #[trigger] s[i] != ';' by {
        assert(is_digit(s[i]));
    }
}

/// The segments of `s` between occurrences of `c`, in order.  The empty
/// string has one empty segment, as splitting does.
pub open spec fn split_ch(s: Seq<char>, c: char) -> Seq<Seq<char>>
    decreases s.len(),
{
    if s.len() == 0 {
        seq![Seq::<char>::empty()]
    } else if s[0] == c {
        seq![Seq::<char>::empty()] + split_ch(s.drop_first(), c)
    } else {
        let rest = split_ch(s.drop_first(), c);
        seq![seq![s[0]] + rest[0]] + rest.drop_first()
    }
}

/// The segments of `s` between delimiter occurrences, in order.
pub open spec fn split_semi(s: Seq<char>) -> Seq<Seq<char>> {
    split_ch(s, ';')
}

/// The segments joined back with single occurrences of `c`.
pub open spec fn join_ch(parts: Seq<Seq<char>>, c: char) -> Seq<char>
    decreases parts.len(),
{
    if parts.len() == 0 {
        Seq::empty()
    } else if parts.len() == 1 {
        parts[0]
    } else {
        parts[0] + seq![c] + join_ch(parts.drop_first(), c)
    }
}

/// The segments joined back with single delimiters.
pub open spec fn join_semi(parts: Seq<Seq<char>>) -> Seq<char> {
    join_ch(parts, ';')
}

/// Splitting always yields at least one segment.
pub proof fn lemma_split_ch_nonempty(s: Seq<char>, c: char)
    ensures
        split_ch(s, c).len() >= 1,
    decreases s.len(),
{
    if s.len() != 0 {
        lemma_split_ch_nonempty(s.drop_first(), c);
    }
}

/// A separator-free string splits into just itself.
pub proof fn lemma_split_ch_whole(s: Seq<char>, c: char)
    requires
        no_ch(s, c),
    ensures
        split_ch(s, c) =~= seq![s],
    decreases s.len(),
{
    if s.len() == 0 {
        assert(s =~= Seq::<char>::empty());
    } else {
        assert(s[0] != c);
        lemma_split_ch_whole(s.drop_first(), c);
        let rest = split_ch(s.drop_first(), c);
        assert(rest[0] == s.drop_first());
        assert(seq![s[0]] + s.drop_first() =~= s);
        assert(rest.drop_first() =~= Seq::<Seq<char>>::empty());
    }
}

/// Splitting takes a leading separator-free segment off the front.
pub proof fn lemma_split_ch_step(p: Seq<char>, t: Seq<char>, c: char)
    requires
        no_ch(p, c),
    ensures
        split_ch(p + seq![c] + t, c) =~= seq![p] + split_ch(t, c),
    decreases p.len(),
{
    let s = p + seq![c] + t;
    if p.len() == 0 {
        assert(s[0] == c);
        assert(s.drop_first() =~= t);
        assert(p =~= Seq::<char>::empty());
    } else {
        assert(s[0] == p[0]);
        assert(s[0] != c);
        assert(s.drop_first() =~= p.drop_first() + seq![c] + t);
        lemma_split_ch_step(p.drop_first(), t, c);
        let rest = split_ch(s.drop_first(), c);
        assert(rest =~= seq![p.drop_first()] + split_ch(t, c));
        assert(rest[0] == p.drop_first());
        assert(seq![s[0]] + rest[0] =~= p);
        assert(rest.drop_first() =~= split_ch(t, c));
    }
}

/// Splitting inverts joining, for at least one separator-free part.
pub proof fn lemma_split_join_ch(parts: Seq<Seq<char>>, c: char)
    requires
        parts.len() >= 1,
        forall|i: int| 0 <= i < parts.len() ==> no_ch(#[trigger] parts[i], c),
    ensures
        split_ch(join_ch(parts, c), c) =~= parts,
    decreases parts.len(),
{
    if parts.len() == 1 {
        lemma_split_ch_whole(parts[0], c);
    } else {
        lemma_split_join_ch(parts.drop_first(), c);
        lemma_split_ch_step(parts[0], join_ch(parts.drop_first(), c), c);
    }
}

/// Splitting after appending a separator and a separator-free part appends
/// that part to the split.
pub proof fn lemma_split_ch_snoc(s: Seq<char>, p: Seq<char>, c: char)
    requires
        no_ch(p, c),
    ensures
        split_ch(s + seq![c] + p, c) =~= split_ch(s, c).push(p),
    decreases s.len(),
{
    let w = s + seq![c] + p;
    if s.len() == 0 {
        assert(w[0] == c);
        assert(w.drop_first() =~= p);
        lemma_split_ch_whole(p, c);
        assert(split_ch(s, c) =~= seq![Seq::<char>::empty()]);
    } else {
        assert(w[0] == s[0]);
        assert(w.drop_first() =~= s.drop_first() + seq![c] + p);
        lemma_split_ch_snoc(s.drop_first(), p, c);
        lemma_split_ch_nonempty(s.drop_first(), c);
        if s[0] == c {
        } else {
            let rest = split_ch(w.drop_first(), c);
            assert(rest =~= split_ch(s.drop_first(), c).push(p));
            assert(rest[0] == split_ch(s.drop_first(), c)[0]);
            assert(rest.drop_first() =~= split_ch(s.drop_first(), c).drop_first().push(p));
        }
    }
}

/// Joining the split of a string gives the string back.
pub proof fn lemma_join_split_ch(s: Seq<char>, c: char)
    ensures
        join_ch(split_ch(s, c), c) =~= s,
    decreases s.len(),
{
    if s.len() == 0 {
    } else if s[0] == c {
        lemma_join_split_ch(s.drop_first(), c);
        lemma_split_ch_nonempty(s.drop_first(), c);
        let parts = seq![Seq::<char>::empty()] + split_ch(s.drop_first(), c);
        assert(parts[0] =~= Seq::<char>::empty());
        assert(parts.drop_first() =~= split_ch(s.drop_first(), c));
        assert(parts.len() >= 2);
        assert(join_ch(parts, c) =~= parts[0] + seq![c] + join_ch(parts.drop_first(), c));
        assert(parts[0] + seq![c] + s.drop_first() =~= s);
    } else {
        lemma_join_split_ch(s.drop_first(), c);
        let rest = split_ch(s.drop_first(), c);
        lemma_split_ch_nonempty(s.drop_first(), c);
        let parts = seq![seq![s[0]] + rest[0]] + rest.drop_first();
        assert(parts[0] == seq![s[0]] + rest[0]);
        assert(parts.drop_first() =~= rest.drop_first());
        if rest.len() == 1 {
            assert(parts.len() == 1);
            assert(join_ch(rest, c) == rest[0]);
            assert(join_ch(parts, c) == parts[0]);
            assert(seq![s[0]] + rest[0] =~= s);
        } else {
            assert(parts.len() >= 2);
            assert(join_ch(parts, c) =~= parts[0] + seq![c] + join_ch(parts.drop_first(), c));
            assert(join_ch(rest, c) =~= rest[0] + seq![c] + join_ch(rest.drop_first(), c));
            assert(seq![s[0]] + (rest[0] + seq![c] + join_ch(rest.drop_first(), c)) =~= s);
            assert(parts[0] + seq![c] + join_ch(parts.drop_first(), c) =~= seq![s[0]] + (rest[0]
                + seq![c] + join_ch(rest.drop_first(), c)));
        }
    }
}

/// Joining one more part appends a separator and the part.
pub proof fn lemma_join_ch_push(parts: Seq<Seq<char>>, p: Seq<char>, c: char)
    ensures
        parts.len() == 0 ==> join_ch(parts.push(p), c) =~= p,
        parts.len() >= 1 ==> join_ch(parts.push(p), c) =~= join_ch(parts, c) + seq![c] + p,
    decreases parts.len(),
{
    if parts.len() == 0 {
        assert(parts.push(p)[0] =~= p);
    } else if parts.len() == 1 {
        assert(parts.push(p).drop_first() =~= seq![p]);
        assert(join_ch(seq![p], c) =~= p);
    } else {
        lemma_join_ch_push(parts.drop_first(), p, c);
        assert(parts.push(p).drop_first() =~= parts.drop_first().push(p));
        assert(parts.push(p)[0] =~= parts[0]);
    }
}

// ------------------------------------------------------------------
// Identifier lists
// ------------------------------------------------------------------

/// The canonical numerals of the identifiers, in order.
pub open spec fn numerals_of(ids: Seq<u64>) -> Seq<Seq<char>> {
    ids.map_values(|x: u64| enc_u64(x as nat))
}

/// The encoding of an identifier list: decimal numerals joined with the
/// delimiter.  The empty list encodes as the empty string.
pub open spec fn enc_ids(ids: Seq<u64>) -> Seq<char> {
    join_semi(numerals_of(ids))
}

/// What decoding an identifier list returns.  Decoding is strict: one bad
/// segment rejects the whole list.  The empty string decodes as the empty
/// list.
pub open spec fn dec_ids(s: Seq<char>) -> Option<Seq<u64>> {
    if s.len() == 0 {
        Some(Seq::empty())
    } else if forall|i: int|
        0 <= i < split_semi(s).len() ==> valid_num(#[trigger] split_semi(s)[i]) {
        Some(split_semi(s).map_values(|p: Seq<char>| (dec_val(p) as u64)))
    } else {
        None
    }
}

/// Identifier encodings are valid numerals and delimiter-free.
pub proof fn lemma_numerals_valid(ids: Seq<u64>)
    ensures
        forall|i: int| 0 <= i < ids.len() ==> valid_num(#[trigger] numerals_of(ids)[i]),
        forall|i: int| 0 <= i < ids.len() ==> no_semi(#[trigger] numerals_of(ids)[i]),
{
    assert forall|i: int| 0 <= i < ids.len() implies valid_num(#[trigger] numerals_of(ids)[i])
        && no_semi(numerals_of(ids)[i]) by {
        lemma_enc_u64_digits(ids[i] as nat);
        lemma_dec_enc(ids[i] as nat);
        lemma_digits_no_semi(enc_u64(ids[i] as nat));
    }
}

/// The encoding of a nonempty identifier list is nonempty.
pub proof fn lemma_enc_ids_nonempty(ids: Seq<u64>)
    requires
        ids.len() >= 1,
    ensures
        enc_ids(ids).len() >= 1,
    decreases ids.len(),
{
    lemma_enc_u64_digits(ids[0] as nat);
    if ids.len() > 1 {
        assert(numerals_of(ids)[0] == enc_u64(ids[0] as nat));
    }
}

/// Round trip: decoding an encoded identifier list gives back the list,
/// duplicates preserved, for every finite list.
pub proof fn lemma_dec_enc_ids(ids: Seq<u64>)
    ensures
        dec_ids(enc_ids(ids)) == Some(ids),
{
    if ids.len() == 0 {
        assert(enc_ids(ids).len() == 0);
        assert(dec_ids(enc_ids(ids)) matches Some(r) && r =~= ids);
    } else {
        lemma_numerals_valid(ids);
        lemma_enc_ids_nonempty(ids);
        lemma_split_join_ch(numerals_of(ids), ';');
        let parts = split_semi(enc_ids(ids));
        assert(parts =~= numerals_of(ids));
        assert forall|i: int| 0 <= i < parts.len() implies valid_num(#[trigger] parts[i]) by {
            assert(parts[i] == numerals_of(ids)[i]);
        }
        let decoded = parts.map_values(|p: Seq<char>| (dec_val(p) as u64));
        assert forall|i: int| 0 <= i < ids.len() implies decoded[i] == ids[i] by {
            assert(parts[i] == enc_u64(ids[i] as nat));
            lemma_dec_enc(ids[i] as nat);
        }
        assert(decoded =~= ids);
    }
}

/// Appending one identifier to an encoded list appends a delimiter and its
/// numeral, or is just the numeral when the list was empty.  This is the law
/// the store-level merge hook relies on.
pub proof fn lemma_enc_ids_push(ids: Seq<u64>, x: u64)
    ensures
        ids.len() == 0 ==> enc_ids(ids.push(x)) =~= enc_u64(x as nat),
        ids.len() >= 1 ==> enc_ids(ids.push(x)) =~= enc_ids(ids) + seq![';'] + enc_u64(x as nat),
{
    assert(numerals_of(ids.push(x)) =~= numerals_of(ids).push(enc_u64(x as nat)));
    lemma_join_ch_push(numerals_of(ids), enc_u64(x as nat), ';');
}

// ------------------------------------------------------------------
// Free-text value lists
// ------------------------------------------------------------------

/// The encoding of a list of free-text values: the values joined with the
/// delimiter.  Values must not contain the delimiter for the encoding to be
/// invertible.
pub open spec fn enc_values(values: Seq<Seq<char>>) -> Seq<char> {
    join_semi(values)
}

/// What decoding a value list returns: the delimiter-separated segments.
/// Decoding never fails; an empty string is one empty value.
pub open spec fn dec_values(s: Seq<char>) -> Seq<Seq<char>> {
    split_semi(s)
}

/// Round trip for value lists: any nonempty list of delimiter-free values
/// decodes back exactly.
pub proof fn lemma_dec_enc_values(values: Seq<Seq<char>>)
    requires
        values.len() >= 1,
        forall|i: int| 0 <= i < values.len() ==> no_semi(#[trigger] values[i]),
    ensures
        dec_values(enc_values(values)) =~= values,
{
    lemma_split_join_ch(values, ';');
}

/// Appending one value to an encoded list appends a delimiter and the value.
pub proof fn lemma_enc_values_push(values: Seq<Seq<char>>, p: Seq<char>)
    ensures
        values.len() == 0 ==> enc_values(values.push(p)) =~= p,
        values.len() >= 1 ==> enc_values(values.push(p)) =~= enc_values(values) + seq![';'] + p,
{
    lemma_join_ch_push(values, p, ';');
}

// ------------------------------------------------------------------
// Executable codec
// ------------------------------------------------------------------

/// Relies on `String::push`: appends the given character to the end of the
/// string.
pub assume_specification[ String::push ](s: &mut String, c: char)
    ensures
        final(s)@ == old(s)@.push(c),
;

/// The characters of a string, in order, as a vector.
pub fn str_to_chars(s: &str) -> (r: Vec<char>)
    ensures
        r@ == s@,
{
    let n = s.unicode_len();
    let mut r: Vec<char> = Vec::new();
    for i in 0..n
        invariant
            n == s@.len(),
            r@ == s@.take(i as int),
    {
        r.push(s.get_char(i));
        assert(r@ =~= s@.take(i + 1));
    }
    assert(r@ =~= s@);
    r
}

/// The string holding exactly the given characters.
pub fn chars_to_string(v: &Vec<char>) -> (r: String)
    ensures
        r@ == v@,
{
    let mut r = String::new();
    let n = v.len();
    for i in 0..n
        invariant
            n == v@.len(),
            r@ == v@.take(i as int),
    {
        r.push(v[i]);
        assert(r@ =~= v@.take(i + 1));
    }
    assert(r@ =~= v@);
    r
}

/// A copy of the characters of `v` between `from` and `to`.
pub fn copy_range(v: &Vec<char>, from: usize, to: usize) -> (r: Vec<char>)
    requires
        from <= to <= v@.len(),
    ensures
        r@ == v@.subrange(from as int, to as int),
{
    let mut r: Vec<char> = Vec::new();
    let mut i = from;
    while i < to
        invariant
            from <= i <= to <= v@.len(),
            r@ == v@.subrange(from as int, i as int),
        decreases to - i,
    {
        r.push(v[i]);
        assert(r@ =~= v@.subrange(from as int, i + 1));
        i += 1;
    }
    r
}

/// Parses the characters of `v` between `from` and `to` as a decimal `u64`,
/// strictly: `None` unless the whole range is a numeral whose value fits.
pub fn parse_num_range(v: &Vec<char>, from: usize, to: usize) -> (r: Option<u64>)
    requires
        from <= to <= v@.len(),
    ensures
        r == num_of(v@.subrange(from as int, to as int)),
{
    let ghost s = v@.subrange(from as int, to as int);
    if from == to {
        assert(s.len() == 0);
        return None;
    }
    let mut acc: u64 = 0;
    let mut i = from;
    while i < to
        invariant
            from <= i <= to <= v@.len(),
            s == v@.subrange(from as int, to as int),
            all_digits(s.take(i - from)),
            acc == dec_val(s.take(i - from)),
        decreases to - i,
    {
        let ghost k = i - from;
        assert(s[k] == v@[i as int]);
        match digit_of_char(v[i]) {
            None => {
                assert(!is_digit(s[k]));
                assert(!all_digits(s));
                return None;
            },
            Some(d) => {
                assert(s.take(k + 1).drop_last() =~= s.take(k));
                assert(s.take(k + 1).last() == s[k]);
                assert(dec_val(s.take(k + 1)) == dec_val(s.take(k)) * 10 + digit_val(s[k]));
                if acc > (u64::MAX - d) / 10 {
                    proof {
                        let q = ((u64::MAX - d) / 10) as nat;
                        vstd::arithmetic::div_mod::lemma_fundamental_div_mod(
                            (u64::MAX - d) as int,
                            10,
                        );
                        assert(u64::MAX - d == 10 * q + (u64::MAX - d) % 10);
                        assert(acc >= q + 1);
                        assert(acc * 10 >= (q + 1) * 10) by (nonlinear_arith)
                            requires
                                acc >= q + 1,
                        ;
                        assert(dec_val(s.take(k + 1)) > u64::MAX);
                        lemma_dec_val_prefix(s, k + 1);
                        assert(dec_val(s) > u64::MAX);
                    }
                    return None;
                }
                proof {
                    let q = ((u64::MAX - d) / 10) as nat;
                    vstd::arithmetic::div_mod::lemma_fundamental_div_mod((u64::MAX - d) as int, 10);
                    assert(acc * 10 <= q * 10) by (nonlinear_arith)
                        requires
                            acc <= q,
                    ;
                    assert(acc * 10 + d <= u64::MAX);
                }
                acc = acc * 10 + d;
            },
        }
        i += 1;
    }
    assert(s.take(i - from) =~= s);
    Some(acc)
}

/// The canonical decimal numeral of `n` as characters.
pub fn format_u64(n: u64) -> (r: Vec<char>)
    ensures
        r@ == enc_u64(n as nat),
    decreases n,
{
    if n < 10 {
        let mut r: Vec<char> = Vec::new();
        r.push(char_of_digit(n));
        assert(r@ =~= seq![digit_chr(n as nat)]);
        r
    } else {
        let mut r = format_u64(n / 10);
        r.push(char_of_digit(n % 10));
        assert(r@ =~= enc_u64((n / 10) as nat) + seq![digit_chr((n % 10) as nat)]);
        assert((n / 10) as nat == n as nat / 10);
        assert((n % 10) as nat == n as nat % 10);
        r
    }
}

/// The canonical decimal numeral of `n` as a string.
pub fn format_u64_string(n: u64) -> (r: String)
    ensures
        r@ == enc_u64(n as nat),
{
    let v = format_u64(n);
    chars_to_string(&v)
}

/// Parses a whole string as a decimal `u64`.
pub fn parse_u64_string(s: &str) -> (r: Option<u64>)
    ensures
        r == num_of(s@),
{
    let v = str_to_chars(s);
    let n = v.len();
    let r = parse_num_range(&v, 0, n);
    assert(v@.subrange(0, n as int) =~= s@);
    r
}

/// Splits the characters of `v` at every occurrence of `c`, in order.
pub fn split_ch_chars(v: &Vec<char>, c: char) -> (r: Vec<Vec<char>>)
    ensures
        r.deep_view() == split_ch(v@, c),
{
    let n = v.len();
    let mut parts: Vec<Vec<char>> = Vec::new();
    let mut start: usize = 0;
    let mut i: usize = 0;
    proof {
        assert(v@.skip(0) =~= v@);
        assert(parts.deep_view() + split_ch(v@.skip(0), c) =~~= split_ch(v@, c));
    }
    while i < n
        invariant
            start <= i <= n == v@.len(),
            no_ch(v@.subrange(start as int, i as int), c),
            split_ch(v@, c) == parts.deep_view() + split_ch(v@.skip(start as int), c),
        decreases n - i,
    {
        if v[i] == c {
            let seg = copy_range(v, start, i);
            let ghost p = v@.subrange(start as int, i as int);
            let ghost t = v@.skip(i + 1);
            let ghost before = parts.deep_view();
            proof {
                assert(v@.skip(start as int) =~= p + seq![c] + t);
                lemma_split_ch_step(p, t, c);
            }
            parts.push(seg);
            proof {
                assert(parts.deep_view() =~~= before.push(p));
                assert(before + (seq![p] + split_ch(t, c)) =~~= before.push(p) + split_ch(t, c));
            }
            start = i + 1;
        }
        i += 1;
        assert(no_ch(v@.subrange(start as int, i as int), c));
    }
    let seg = copy_range(v, start, n);
    let ghost p = v@.subrange(start as int, n as int);
    let ghost before = parts.deep_view();
    proof {
        assert(v@.skip(start as int) =~= p);
        lemma_split_ch_whole(p, c);
    }
    parts.push(seg);
    proof {
        assert(parts.deep_view() =~~= before.push(p));
        assert(before + seq![p] =~~= before.push(p));
    }
    parts
}

/// Decodes a string as an identifier list, strictly.
pub fn decode_ids_str(s: &str) -> (r: Option<Vec<u64>>)
    ensures
        match r {
            Some(ids) => dec_ids(s@) == Some(ids@),
            None => dec_ids(s@) is None,
        },
{
    let v = str_to_chars(s);
    if v.len() == 0 {
        let ids: Vec<u64> = Vec::new();
        assert(ids@ =~= Seq::<u64>::empty());
        return Some(ids);
    }
    let parts = split_ch_chars(&v, ';');
    let ghost sparts = split_semi(s@);
    let mut ids: Vec<u64> = Vec::new();
    let n = parts.len();
    assert(parts.deep_view().len() == n);
    for i in 0..n
        invariant
            n == parts@.len(),
            parts.deep_view() == sparts,
            sparts == split_semi(s@),
            s@.len() > 0,
            ids@.len() == i,
            forall|j: int| 0 <= j < i ==> valid_num(#[trigger] sparts[j]),
            forall|j: int| 0 <= j < i ==> ids@[j] == dec_val(sparts[j]) as u64,
    {
        assert(parts@[i as int]@ == sparts[i as int]);
        let m = parts[i].len();
        let parsed = parse_num_range(&parts[i], 0, m);
        proof {
            assert(parts@[i as int]@.subrange(0, m as int) =~= sparts[i as int]);
        }
        match parsed {
            None => {
                assert(!valid_num(sparts[i as int]));
                return None;
            },
            Some(x) => {
                ids.push(x);
            },
        }
    }
    proof {
        let decoded = sparts.map_values(|p: Seq<char>| (dec_val(p) as u64));
        assert(ids@ =~= decoded);
    }
    Some(ids)
}

/// Encodes an identifier list as numerals joined with the delimiter.
pub fn encode_ids_vec(ids: &Vec<u64>) -> (r: Vec<char>)
    ensures
        r@ == enc_ids(ids@),
{
    let mut r: Vec<char> = Vec::new();
    let n = ids.len();
    assert(ids@.take(0) =~= Seq::<u64>::empty());
    assert(numerals_of(Seq::<u64>::empty()) =~= Seq::<Seq<char>>::empty());
    for i in 0..n
        invariant
            n == ids@.len(),
            r@ == enc_ids(ids@.take(i as int)),
    {
        let digits = format_u64(ids[i]);
        proof {
            lemma_enc_ids_push(ids@.take(i as int), ids@[i as int]);
            assert(ids@.take(i as int).push(ids@[i as int]) =~= ids@.take(i + 1));
        }
        if i > 0 {
            r.push(';');
        }
        let m = digits.len();
        let mut j: usize = 0;
        let ghost mid = r@;
        while j < m
            invariant
                j <= m == digits@.len(),
                r@ == mid + digits@.take(j as int),
            decreases m - j,
        {
            r.push(digits[j]);
            assert(r@ =~= mid + digits@.take(j + 1));
            j += 1;
        }
        assert(digits@.take(m as int) =~= digits@);
        assert(r@ =~= enc_ids(ids@.take(i + 1)));
    }
    assert(ids@.take(n as int) =~= ids@);
    r
}

/// Encodes an identifier list as a string.
pub fn encode_ids_string(ids: &Vec<u64>) -> (r: String)
    ensures
        r@ == enc_ids(ids@),
{
    let v = encode_ids_vec(ids);
    chars_to_string(&v)
}

/// Decodes a string as an identifier list, strictly, as a string-typed
/// interface over [`decode_ids_str`].
pub fn decode_ids_string(s: &String) -> (r: Option<Vec<u64>>)
    ensures
        match r {
            Some(ids) => dec_ids(s@) == Some(ids@),
            None => dec_ids(s@) is None,
        },
{
    decode_ids_str(s.as_str())
}

/// Splits a string at every delimiter into its value segments.
pub fn decode_values_string(s: &String) -> (r: Vec<String>)
    ensures
        r.deep_view() == dec_values(s@),
{
    let v = str_to_chars(s.as_str());
    let parts = split_ch_chars(&v, ';');
    let mut r: Vec<String> = Vec::new();
    let n = parts.len();
    for i in 0..n
        invariant
            n == parts@.len(),
            parts.deep_view() == split_semi(s@),
            r@.len() == i,
            forall|j: int| 0 <= j < i ==> r@[j]@ == #[trigger] parts.deep_view()[j],
    {
        let seg = chars_to_string(&parts[i]);
        r.push(seg);
    }
    assert(r.deep_view() =~= split_semi(s@));
    r
}

/// True when the string contains the delimiter character.
pub fn contains_semi(s: &str) -> (r: bool)
    ensures
        r == !no_semi(s@),
{
    let v = str_to_chars(s);
    let n = v.len();
    for i in 0..n
        invariant
            n == v@.len(),
            v@ == s@,
            forall|j: int| 0 <= j < i ==> #[trigger] s@[j] != ';',
    {
        if v[i] == ';' {
            return true;
        }
    }
    false
}

} // verus!
