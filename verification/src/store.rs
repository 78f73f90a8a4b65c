//! The trusted boundary to the `sled` key-value store.
//!
//! Each `sled` tree is modeled as a map from key text to value text.  Keys
//! and values are handed to `sled` as their UTF-8 bytes; UTF-8 encoding is
//! injective, so the character-level map is a faithful model of the byte-keyed
//! tree.  Every access the archive makes goes through the wrappers here, and
//! nothing else holds a handle to the trees.

use vstd::prelude::*;

use crate::errors::QuothError;

verus! {

#[verifier::external_type_specification]
#[verifier::external_body]
pub struct ExDb(sled::Db);

#[verifier::external_type_specification]
#[verifier::external_body]
pub struct ExTree(sled::Tree);

/// The contents of one tree: the stored value text under each key text.
pub uninterp spec fn tree_view(t: sled::Tree) -> Map<Seq<char>, Seq<char>>;

/// What the store's merge operation leaves under a key: the addition alone
/// when the key was absent or empty, else the old value, the delimiter and
/// the addition.
pub open spec fn merged_value(m: Map<Seq<char>, Seq<char>>, key: Seq<char>, v: Seq<char>) -> Seq<
    char,
> {
    if m.contains_key(key) && m[key].len() > 0 {
        m[key] + seq![';'] + v
    } else {
        v
    }
}

/// Reads the value stored under a key.
///
/// Relies on `sled::Tree::get`: returns the value stored at the key's bytes,
/// or nothing.  A value that is not UTF-8 is reported as `MalformedIndex`; a
/// store failure as `StoreError`.
#[verifier::external_body]
pub(crate) fn tree_get(t: &sled::Tree, key: &str) -> (r: Result<Option<String>, QuothError>)
    ensures
        match r {
            Ok(Some(v)) => tree_view(*t).contains_key(key@) && v@ == tree_view(*t)[key@],
            Ok(None) => !tree_view(*t).contains_key(key@),
            Err(e) => e matches QuothError::MalformedIndex || e matches QuothError::StoreError {
                ..
            },
        },
{
    match t.get(key.as_bytes()) {
        Ok(Some(ivec)) => match String::from_utf8(ivec.to_vec()) {
            Ok(s) => Ok(Some(s)),
            Err(_) => Err(QuothError::MalformedIndex),
        },
        Ok(None) => Ok(None),
        Err(e) => Err(QuothError::StoreError { message: e.to_string() }),
    }
}

/// Sets the value stored under a key.
///
/// Relies on `sled::Tree::insert`: after success the key's bytes hold the
/// value's bytes.  After a failure nothing is promised of the tree.
#[verifier::external_body]
pub(crate) fn tree_insert(t: &mut sled::Tree, key: &str, value: &str) -> (r: Result<
    (),
    QuothError,
>)
    ensures
        match r {
            Ok(u) => tree_view(*final(t)) == tree_view(*old(t)).insert(key@, value@),
            Err(e) => e matches QuothError::StoreError { .. },
        },
{
    match t.insert(key.as_bytes(), value.as_bytes()) {
        Ok(_) => Ok(()),
        Err(e) => Err(QuothError::StoreError { message: e.to_string() }),
    }
}

/// Removes the value stored under a key, returning it.
///
/// Relies on `sled::Tree::remove`: after success the key is absent and the
/// previous value, if any, is returned.  After a failure nothing is promised
/// of the tree.
#[verifier::external_body]
pub(crate) fn tree_remove(t: &mut sled::Tree, key: &str) -> (r: Result<Option<String>, QuothError>)
    ensures
        match r {
            Ok(Some(v)) => tree_view(*final(t)) == tree_view(*old(t)).remove(key@) && tree_view(
                *old(t),
            ).contains_key(key@) && v@ == tree_view(*old(t))[key@],
            Ok(None) => tree_view(*final(t)) == tree_view(*old(t)).remove(key@) && !tree_view(
                *old(t),
            ).contains_key(key@),
            Err(e) => e matches QuothError::MalformedIndex || e matches QuothError::StoreError {
                ..
            },
        },
{
    match t.remove(key.as_bytes()) {
        Ok(Some(ivec)) => match String::from_utf8(ivec.to_vec()) {
            Ok(s) => Ok(Some(s)),
            Err(_) => Err(QuothError::MalformedIndex),
        },
        Ok(None) => Ok(None),
        Err(e) => Err(QuothError::StoreError { message: e.to_string() }),
    }
}

/// Joins a value onto the one stored under a key.
///
/// Relies on `sled::Tree::merge` together with the appending merge operator
/// (`utils::merge_index`) that the archive installs on every indexed tree at
/// construction: sled applies that operator to the current value and the
/// addition, which appends with a `';'` between when a nonempty value exists.
/// After a failure nothing is promised of the tree.
#[verifier::external_body]
pub(crate) fn tree_merge(t: &mut sled::Tree, key: &str, value: &str) -> (r: Result<
    (),
    QuothError,
>)
    ensures
        match r {
            Ok(u) => tree_view(*final(t)) == tree_view(*old(t)).insert(
                key@,
                merged_value(tree_view(*old(t)), key@, value@),
            ),
            Err(e) => e matches QuothError::StoreError { .. },
        },
{
    match t.merge(key.as_bytes(), value.as_bytes()) {
        Ok(_) => Ok(()),
        Err(e) => Err(QuothError::StoreError { message: e.to_string() }),
    }
}

/// Removes every entry of the tree.
///
/// Relies on `sled::Tree::clear`.  After a failure nothing is promised.
#[verifier::external_body]
pub(crate) fn tree_clear(t: &mut sled::Tree) -> (r: Result<(), QuothError>)
    ensures
        match r {
            Ok(u) => tree_view(*final(t)) == Map::<Seq<char>, Seq<char>>::empty(),
            Err(e) => e matches QuothError::StoreError { .. },
        },
{
    match t.clear() {
        Ok(_) => Ok(()),
        Err(e) => Err(QuothError::StoreError { message: e.to_string() }),
    }
}

/// Lists every entry of the tree, each key exactly once, in ascending key
/// order.
///
/// Relies on `sled::Tree::iter`: it yields every stored entry exactly once,
/// in ascending byte order of keys; for UTF-8 keys that is ascending
/// code-point order of the key text.  Entries that are not UTF-8 are
/// reported as `MalformedIndex`; an iteration failure as `StoreError`.
#[verifier::external_body]
pub(crate) fn tree_entries(t: &sled::Tree) -> (r: Result<Vec<(String, String)>, QuothError>)
    ensures
        match r {
            Ok(v) => entries_match(v.deep_view(), tree_view(*t)),
            Err(e) => e matches QuothError::MalformedIndex || e matches QuothError::StoreError {
                ..
            },
        },
{
    let mut out = Vec::new();
    for item in t.iter() {
        match item {
            Ok((k, val)) => match (String::from_utf8(k.to_vec()), String::from_utf8(val.to_vec())) {
                (Ok(ks), Ok(vs)) => out.push((ks, vs)),
                _ => return Err(QuothError::MalformedIndex),
            },
            Err(e) => return Err(QuothError::StoreError { message: e.to_string() }),
        }
    }
    Ok(out)
}

/// Strict lexicographic order on key text, by code point; a proper prefix
/// precedes its extensions.
pub open spec fn text_lt(a: Seq<char>, b: Seq<char>) -> bool
    decreases a.len(),
{
    if b.len() == 0 {
        false
    } else if a.len() == 0 {
        true
    } else if a[0] != b[0] {
        (a[0] as u32) < (b[0] as u32)
    } else {
        text_lt(a.drop_first(), b.drop_first())
    }
}

/// The key order is asymmetric.
pub proof fn lemma_text_lt_asymmetric(a: Seq<char>, b: Seq<char>)
    requires
        text_lt(a, b),
    ensures
        !text_lt(b, a),
    decreases a.len(),
{
    if a.len() != 0 && b.len() != 0 && a[0] == b[0] {
        lemma_text_lt_asymmetric(a.drop_first(), b.drop_first());
    }
}

/// The key order is connected: distinct keys are ordered one way.
pub proof fn lemma_text_lt_connected(a: Seq<char>, b: Seq<char>)
    ensures
        a == b || text_lt(a, b) || text_lt(b, a),
    decreases a.len(),
{
    if a.len() == 0 {
        if b.len() == 0 {
            assert(a =~= b);
        }
    } else if b.len() == 0 {
    } else if a[0] == b[0] {
        lemma_text_lt_connected(a.drop_first(), b.drop_first());
        if a.drop_first() == b.drop_first() {
            assert(a.drop_first().len() == b.drop_first().len());
            assert(a.len() == b.len());
            assert forall|i: int| 0 <= i < a.len() implies a[i] == b[i] by {
                if i > 0 {
                    assert(a.drop_first()[i - 1] == a[i]);
                    assert(b.drop_first()[i - 1] == b[i]);
                }
            }
            assert(a =~= b);
        }
    } else {
        if (a[0] as u32) == (b[0] as u32) {
            vstd::utf8::char_u32_cast(a[0], a[0] as u32);
            vstd::utf8::char_u32_cast(b[0], b[0] as u32);
            assert(a[0] == b[0]);
        }
    }
}

/// True when `entries` lists exactly the entries of `m`, in ascending key
/// order: every listed pair is in `m`, keys strictly ascend (so each is
/// listed at most once), and every key of `m` is listed.
pub open spec fn entries_match(
    entries: Seq<(Seq<char>, Seq<char>)>,
    m: Map<Seq<char>, Seq<char>>,
) -> bool {
    &&& forall|i: int|
        0 <= i < entries.len() ==> m.contains_key(#[trigger] entries[i].0) && m[entries[i].0]
            == entries[i].1
    &&& forall|i: int, j: int| 0 <= i < j < entries.len() ==> entries[i].0 != entries[j].0
    &&& forall|i: int, j: int|
        0 <= i < j < entries.len() ==> text_lt(#[trigger] entries[i].0, #[trigger] entries[j].0)
    &&& forall|k: Seq<char>|
        #[trigger] m.contains_key(k) ==> exists|i: int| 0 <= i < entries.len() && entries[i].0 == k
}

/// A tree has exactly one listing: the sorted enumeration the contracts
/// quantify over is determined by the store's contents.
pub proof fn lemma_entries_match_unique(
    e1: Seq<(Seq<char>, Seq<char>)>,
    e2: Seq<(Seq<char>, Seq<char>)>,
    m: Map<Seq<char>, Seq<char>>,
)
    requires
        entries_match(e1, m),
        entries_match(e2, m),
    ensures
        e1 =~= e2,
    decreases e1.len(),
{
    if e1.len() == 0 {
        if e2.len() > 0 {
            assert(m.contains_key(e2[0].0));
            assert(exists|i: int| 0 <= i < e1.len() && e1[i].0 == e2[0].0);
        }
    } else if e2.len() == 0 {
        assert(m.contains_key(e1[0].0));
        assert(exists|i: int| 0 <= i < e2.len() && e2[i].0 == e1[0].0);
    } else {
        let k1 = e1[0].0;
        let k2 = e2[0].0;
        assert(k1 == k2) by {
            if k1 != k2 {
                assert(m.contains_key(k1));
                let i = choose|i: int| 0 <= i < e2.len() && e2[i].0 == k1;
                assert(i > 0);
                assert(text_lt(k2, k1));
                assert(m.contains_key(k2));
                let j = choose|j: int| 0 <= j < e1.len() && e1[j].0 == k2;
                assert(j > 0);
                assert(text_lt(k1, k2));
                lemma_text_lt_asymmetric(k1, k2);
            }
        }
        assert(e1[0] == e2[0]) by {
            assert(e1[0].1 == m[k1]);
            assert(e2[0].1 == m[k1]);
        }
        let m1 = m.remove(k1);
        assert(entries_match(e1.drop_first(), m1)) by {
            lemma_entries_match_pop(e1, m);
        }
        assert(entries_match(e2.drop_first(), m1)) by {
            lemma_entries_match_pop(e2, m);
        }
        lemma_entries_match_unique(e1.drop_first(), e2.drop_first(), m1);
        assert forall|i: int| 0 <= i < e1.len() implies e1[i] == e2[i] by {
            if i > 0 {
                assert(e1.drop_first()[i - 1] == e2.drop_first()[i - 1]);
            }
        }
    }
}

/// Dropping the first listed entry lists the map without its key.
proof fn lemma_entries_match_pop(
    entries: Seq<(Seq<char>, Seq<char>)>,
    m: Map<Seq<char>, Seq<char>>,
)
    requires
        entries_match(entries, m),
        entries.len() > 0,
    ensures
        entries_match(entries.drop_first(), m.remove(entries[0].0)),
{
    let k0 = entries[0].0;
    let rest = entries.drop_first();
    let m1 = m.remove(k0);
    assert forall|i: int| 0 <= i < rest.len() implies m1.contains_key(#[trigger] rest[i].0)
        && m1[rest[i].0] == rest[i].1 by {
        assert(rest[i] == entries[i + 1]);
        assert(entries[i + 1].0 != k0);
    }
    assert forall|i: int, j: int| 0 <= i < j < rest.len() implies rest[i].0 != rest[j].0 by {
        assert(rest[i] == entries[i + 1]);
        assert(rest[j] == entries[j + 1]);
    }
    assert forall|i: int, j: int| 0 <= i < j < rest.len() implies text_lt(
        #[trigger] rest[i].0,
        #[trigger] rest[j].0,
    ) by {
        assert(rest[i] == entries[i + 1]);
        assert(rest[j] == entries[j + 1]);
    }
    assert forall|k: Seq<char>| #[trigger] m1.contains_key(k) implies exists|i: int|
        0 <= i < rest.len() && rest[i].0 == k by {
        assert(m.contains_key(k));
        let i = choose|i: int| 0 <= i < entries.len() && entries[i].0 == k;
        assert(i > 0);
        assert(rest[i - 1].0 == k);
    }
}

} // verus!
