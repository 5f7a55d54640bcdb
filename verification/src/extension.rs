//! File extensions, and the buckets by which files are counted.

use crate::text::{boxed, last_index_of, lemma_last_index_of, split_last};
use vstd::prelude::*;

verus! {

/// What follows the last dot of a name; empty when there is no dot, or nothing
/// behind it.
pub open spec fn extension_of(name: Seq<char>) -> Seq<char> {
    match last_index_of(name, '.') {
        Some(i) => name.skip(i + 1),
        None => Seq::empty(),
    }
}

/// The bucket of files without an extension.
pub open spec fn no_extension() -> Seq<char> {
    seq!['(', 'n', 'o', ' ', 'e', 'x', 't', ')']
}

/// The bucket under which a file of that name is counted.
pub open spec fn bucket_of(name: Seq<char>) -> Seq<char> {
    if extension_of(name).len() == 0 {
        no_extension()
    } else {
        extension_of(name)
    }
}

/// The extension of a file name, or the empty text.
pub fn raw_extension(name: &str) -> (r: &str)
    ensures
        r@ == extension_of(name@),
{
    match split_last(name, '.') {
        Some((_, ext)) => ext,
        None => {
            let none: &str = "";
            proof {
                reveal_strlit("");
                assert(none@ =~= Seq::<char>::empty());
            }
            none
        },
    }
}

/// Bucket key for extension stats: the raw extension, or the sentinel for
/// extensionless files. Single owner of the `"(no ext)"` sentinel.
pub fn ext_bucket(name: &str) -> (r: Box<str>)
    ensures
        r@ == bucket_of(name@),
{
    let ext: &str = raw_extension(name);
    if ext.is_empty() {
        let sentinel: &str = "(no ext)";
        proof {
            reveal_strlit("(no ext)");
            assert(sentinel@ =~= no_extension());
        }
        boxed(sentinel)
    } else {
        boxed(ext)
    }
}

/// An extension holds no dot, and a name with a nonempty extension ends in a
/// dot and that extension.
pub proof fn law_extension_is_the_last_suffix(name: Seq<char>)
    ensures
        !extension_of(name).contains('.'),
        extension_of(name).len() > 0 ==> exists|stem: Seq<char>|
            name == #[trigger] (stem + seq!['.']) + extension_of(name),
{
    lemma_last_index_of(name, '.');
    match last_index_of(name, '.') {
        Some(i) => {
            let stem = name.take(i);
            assert(name =~= (stem + seq!['.']) + extension_of(name));
        },
        None => {},
    }
}

/// Every name has a bucket, and no bucket is empty text.
pub proof fn law_no_bucket_is_empty(name: Seq<char>)
    ensures
        bucket_of(name).len() > 0,
{
}

/// The extension is what stands behind the last dot, all of it and nothing more,
/// and files are counted under it: whatever the stem, and however long the
/// extension is.
pub proof fn law_bucket_is_the_whole_extension(stem: Seq<char>, ext: Seq<char>)
    requires
        ext.len() > 0,
        !ext.contains('.'),
    ensures
        extension_of(stem + seq!['.'] + ext) == ext,
        bucket_of(stem + seq!['.'] + ext) == ext,
{
    let name = stem + seq!['.'] + ext;
    let n = stem.len() as int;
    lemma_last_index_of(name, '.');
    assert(name[n] == '.');
    assert forall|j: int| n < j < name.len() implies name[j] != '.' by {
        assert(name[j] == ext[j - n - 1]);
        assert(ext.contains(ext[j - n - 1]));
    }
    assert(last_index_of(name, '.') == Some(n));
    assert(name.skip(n + 1) =~= ext);
}

/// A name without a dot, or with nothing behind its last dot, has no extension
/// and is counted under `(no ext)`.
pub proof fn law_other_names_have_no_extension(name: Seq<char>)
    requires
        !name.contains('.') || name.last() == '.',
    ensures
        extension_of(name).len() == 0,
        bucket_of(name) == "(no ext)"@,
{
    lemma_last_index_of(name, '.');
    reveal_strlit("(no ext)");
    assert("(no ext)"@ =~= no_extension());
    match last_index_of(name, '.') {
        Some(i) => {
            assert(name.contains(name[i]));
            if i < name.len() - 1 {
                assert(name[name.len() - 1] != '.');
            }
        },
        None => {},
    }
}

/// Two names are counted together exactly when their extensions are the same.
pub proof fn law_buckets_tell_extensions_apart(a: Seq<char>, b: Seq<char>)
    requires
        extension_of(a) != no_extension(),
        extension_of(b) != no_extension(),
    ensures
        bucket_of(a) == bucket_of(b) <==> extension_of(a) == extension_of(b),
{
    if extension_of(a).len() == 0 && extension_of(b).len() == 0 {
        assert(extension_of(a) =~= extension_of(b));
    }
}

} // verus!
