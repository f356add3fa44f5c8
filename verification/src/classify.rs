//! The filename classifier: recognises stems that end in a hyphen followed by
//! sixteen lowercase-letter-or-digit characters, and computes the logical key
//! of such a file (hash-stripped stem, a dot, and the extension).

use vstd::prelude::*;

verus! {

/// A character that may appear in the hash suffix of an artifact name:
/// a lowercase ASCII letter or a decimal digit.
pub open spec fn is_suffix_char(c: char) -> bool {
    ('a' <= c && c <= 'z') || ('0' <= c && c <= '9')
}

/// Holds when a stem ends with a hyphen followed by exactly sixteen
/// suffix characters.
pub open spec fn has_hash_suffix(stem: Seq<char>) -> bool {
    &&& stem.len() >= 17
    &&& stem[stem.len() - 17] == '-'
    &&& forall|i: int| stem.len() - 16 <= i < stem.len() ==> is_suffix_char(#[trigger] stem[i])
}

/// The stem with its 17-character hash suffix removed.
pub open spec fn stripped_stem(stem: Seq<char>) -> Seq<char> {
    stem.take(stem.len() - 17)
}

/// The logical key of a stem/extension pair: the hash-stripped stem,
/// a dot, and the extension.
pub open spec fn key_of_parts(stem: Seq<char>, ext: Seq<char>) -> Seq<char> {
    stripped_stem(stem) + seq!['.'] + ext
}

/// The index of the last dot of `name` that does not start the name,
/// or -1 when there is none. A leading dot begins a hidden file's stem
/// and never separates an extension.
pub open spec fn last_dot(name: Seq<char>) -> int
    decreases name.len(),
{
    if name.len() <= 1 {
        -1
    } else if name[name.len() - 1] == '.' {
        name.len() - 1
    } else {
        last_dot(name.drop_last())
    }
}

/// The stem of a file name: what precedes the last dot, or the whole
/// name when no dot separates an extension.
pub open spec fn stem_of(name: Seq<char>) -> Seq<char> {
    if last_dot(name) < 0 {
        name
    } else {
        name.take(last_dot(name))
    }
}

/// The extension of a file name: what follows the last dot, or the
/// empty sequence when no dot separates an extension.
pub open spec fn ext_of(name: Seq<char>) -> Seq<char> {
    if last_dot(name) < 0 {
        Seq::empty()
    } else {
        name.skip(last_dot(name) + 1)
    }
}

/// The logical key of a whole file name, if its stem carries a hash
/// suffix; `None` marks a file that is not an artifact and is ignored.
pub open spec fn key_of_name(name: Seq<char>) -> Option<Seq<char>> {
    if has_hash_suffix(stem_of(name)) {
        Some(key_of_parts(stem_of(name), ext_of(name)))
    } else {
        None
    }
}

/// Whether `c` may appear in a hash suffix.
pub fn suffix_char(c: char) -> (r: bool)
    ensures
        r == is_suffix_char(c),
{
    ('a' <= c && c <= 'z') || ('0' <= c && c <= '9')
}

/// The classifier on a stem and an extension: the logical key when the
/// stem ends in a hash suffix, `None` otherwise.
pub fn classify(stem: &str, ext: &str) -> (r: Option<String>)
    ensures
        r is Some <==> has_hash_suffix(stem@),
        r matches Some(key) ==> key@ == key_of_parts(stem@, ext@),
{
    let n = stem.unicode_len();
    if n < 17 {
        return None;
    }
    if stem.get_char(n - 17) != '-' {
        return None;
    }
    let mut i: usize = n - 16;
    while i < n
        invariant
            n == stem@.len(),
            n - 16 <= i <= n,
            forall|j: int| n - 16 <= j < i ==> is_suffix_char(#[trigger] stem@[j]),
        decreases n - i,
    {
        if !suffix_char(stem.get_char(i)) {
            return None;
        }
        i += 1;
    }
    let base = stem.substring_char(0, n - 17);
    let mut key = base.to_owned();
    key.append(".");
    key.append(ext);
    proof {
        reveal_strlit(".");
        assert(key@ =~= key_of_parts(stem@, ext@));
    }
    Some(key)
}

/// Splits a file name into stem and extension as the scanner reads it:
/// the extension follows the last dot, except a dot that starts the name.
pub fn split_name(name: &str) -> (r: (String, String))
    ensures
        r.0@ == stem_of(name@),
        r.1@ == ext_of(name@),
{
    let n = name.unicode_len();
    proof {
        assert(name@.take(n as int) =~= name@);
    }
    let mut i: usize = n;
    while i > 1
        invariant
            n == name@.len(),
            i <= n,
            last_dot(name@) == last_dot(name@.take(i as int)),
        decreases i,
    {
        let c = name.get_char(i - 1);
        proof {
            assert(name@.take(i as int).drop_last() =~= name@.take(i - 1));
            assert(name@.take(i as int).last() == name@[i - 1]);
        }
        if c == '.' {
            proof {
                assert(last_dot(name@) == i - 1);
            }
            let stem = name.substring_char(0, i - 1);
            let ext = name.substring_char(i, n);
            return (stem.to_owned(), ext.to_owned());
        }
        i -= 1;
    }
    proof {
        assert(name@.take(i as int).len() <= 1);
        assert(last_dot(name@) == -1);
        assert(ext_of(name@) =~= Seq::<char>::empty());
    }
    (name.to_owned(), String::new())
}

/// The classifier on a whole file name: splits it into stem and
/// extension, then classifies the stem.
pub fn classify_name(name: &str) -> (r: Option<String>)
    ensures
        r is Some <==> key_of_name(name@) is Some,
        r matches Some(key) ==> key_of_name(name@) == Some(key@),
{
    let (stem, ext) = split_name(name);
    classify(stem.as_str(), ext.as_str())
}

} // verus!
