//! What file names say about music.
//!
//! A *track* is one piece of music across formats: the relative path of a file
//! without its final extension. `album/01 Song.flac` and `album/01 Song.mp3`
//! both belong to the track `album/01 Song`.

use vstd::prelude::*;
use vstd::string::*;
use vstd::utf8::*;

use crate::path::{Components, TreePath};

verus! {

/// The position of the last dot in a name.
pub open spec fn last_dot(name: Seq<char>) -> Option<int>
    decreases name.len(),
{
    if name.len() == 0 {
        None
    } else if name.last() == '.' {
        Some(name.len() - 1)
    } else {
        last_dot(name.drop_last())
    }
}

/// The stem and the extension of a file name: what stands before and after its
/// last dot. A name without a dot has neither, nor has one whose last dot is
/// its first or its last character.
pub open spec fn stem_and_extension(name: Seq<char>) -> Option<(Seq<char>, Seq<char>)> {
    match last_dot(name) {
        Some(i) => if 0 < i < name.len() - 1 {
            Some((name.take(i), name.skip(i + 1)))
        } else {
            None
        },
        None => None,
    }
}

/// The track key of a file: its relative directory and, as a further component,
/// the stem of its name.
pub open spec fn key_of_track(dir: Components, stem: Seq<char>) -> Components {
    dir.push(encode_utf8(stem))
}

/// Files belong to one track exactly when they have the same directory and the
/// same stem.
pub proof fn track_is_directory_and_stem(
    dir: Components,
    stem: Seq<char>,
    other_dir: Components,
    other_stem: Seq<char>,
)
    ensures
        key_of_track(dir, stem) == key_of_track(other_dir, other_stem) <==> dir == other_dir
            && stem == other_stem,
{
    let key = key_of_track(dir, stem);
    let other_key = key_of_track(other_dir, other_stem);
    if key == other_key {
        assert(key.drop_last() =~= dir);
        assert(other_key.drop_last() =~= other_dir);
        assert(key.last() == encode_utf8(stem));
        assert(other_key.last() == encode_utf8(other_stem));
        encode_utf8_decode_utf8(stem);
        encode_utf8_decode_utf8(other_stem);
    }
}

proof fn lemma_last_dot(name: Seq<char>)
    ensures
        match last_dot(name) {
            Some(i) => {
                &&& 0 <= i < name.len()
                &&& name[i] == '.'
                &&& forall|j: int| i < j < name.len() ==> name[j] != '.'
            },
            None => !name.contains('.'),
        },
    decreases name.len(),
{
    if name.len() > 0 && name.last() != '.' {
        let before = name.drop_last();
        lemma_last_dot(before);
        assert forall|j: int| 0 <= j < before.len() implies name[j] == before[j] by {}
        if name.contains('.') {
            let j = choose|j: int| 0 <= j < name.len() && name[j] == '.';
            assert(before[j] == '.');
        }
    }
}

/// A name splits into a stem and an extension in one way at most: the two are
/// not empty, a dot between them gives the name back, and the extension holds
/// no dot. A name that can be split like that is split like that.
pub proof fn split_is_at_the_last_dot(name: Seq<char>, stem: Seq<char>, ext: Seq<char>)
    ensures
        stem_and_extension(name) == Some((stem, ext)) <==> {
            &&& name == stem.push('.') + ext
            &&& stem.len() > 0
            &&& ext.len() > 0
            &&& !ext.contains('.')
        },
{
    lemma_last_dot(name);
    if stem_and_extension(name) == Some((stem, ext)) {
        let i = last_dot(name)->0;
        assert(name =~= stem.push('.') + ext);
        assert forall|j: int| 0 <= j < ext.len() implies ext[j] != '.' by {
            assert(ext[j] == name[j + i + 1]);
        }
    }
    if name == stem.push('.') + ext && stem.len() > 0 && ext.len() > 0 && !ext.contains('.') {
        let k = stem.len() as int;
        assert(name[k] == '.');
        assert forall|j: int| k < j < name.len() implies name[j] != '.' by {
            assert(name[j] == ext[j - k - 1]);
            assert(ext.contains(ext[j - k - 1]));
        }
        assert(last_dot(name) == Some(k));
        assert(name.take(k) =~= stem);
        assert(name.skip(k + 1) =~= ext);
    }
}

/// Splits a file name into its stem and its extension.
///
/// The extension is what follows the last dot: `1. Song.flac` is `1. Song` and
/// `flac`. Names without a usable extension (`README`, `.hidden`, `weird.`)
/// give `None`.
pub fn split_name(name: &str) -> (split: Option<(&str, &str)>)
    ensures
        match split {
            Some((stem, ext)) => stem_and_extension(name@) == Some((stem@, ext@)),
            None => stem_and_extension(name@) is None,
        },
{
    let mut dot: Option<usize> = None;
    let mut len: usize = 0;
    let count = name.unicode_len();
    for c in chars: name.chars()
        invariant
            chars.seq() == name@,
            count == name@.len(),
            len == chars.index(),
            match dot {
                Some(d) => last_dot(name@.take(len as int)) == Some(d as int),
                None => last_dot(name@.take(len as int)) is None,
            },
    {
        assert(name@.take(len + 1).drop_last() =~= name@.take(len as int));
        assert(name@.take(len + 1).last() == c);
        if c == '.' {
            dot = Some(len);
        }
        len = len + 1;
    }
    assert(name@.take(len as int) =~= name@);
    match dot {
        Some(d) => {
            proof {
                lemma_last_dot(name@);
            }
            if d == 0 || d + 1 == len {
                None
            } else {
                Some((name.substring_char(0, d), name.substring_char(d + 1, len)))
            }
        },
        None => None,
    }
}

/// Builds the track key of a file: its relative directory, where there is one,
/// and the stem of its name below it.
pub fn track_key(rel_dir: &TreePath, stem: &str) -> (key: TreePath)
    ensures
        key@ == key_of_track(rel_dir@, stem@),
{
    rel_dir.child(&stem.as_bytes_vec())
}

} // verus!
