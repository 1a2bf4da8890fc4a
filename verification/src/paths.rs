//! File system paths, held as strings.
//!
//! Joining, extensions and path equality follow `std::path` for the target
//! platform; the library names their results and reasons about them through
//! those names.

use vstd::prelude::*;

use crate::selection::split_slash;

verus! {

/// `Path::new(base).join(part)`, as a string.
pub uninterp spec fn path_joined(base: Seq<char>, part: Seq<char>) -> Seq<char>;

/// `Path::new(path).extension()`, as a string.
pub uninterp spec fn path_extension(path: Seq<char>) -> Option<Seq<char>>;

/// `path` after `PathBuf::set_extension(extension)`, as a string.
pub uninterp spec fn path_with_extension(path: Seq<char>, extension: Seq<char>) -> Seq<char>;

/// `Path::new(path).file_name()`, as a string.
pub uninterp spec fn path_file_name(path: Seq<char>) -> Option<Seq<char>>;

/// Neither slash nor backslash occurs in `s`: no platform reads it as
/// holding a path separator.
pub open spec fn separator_free(s: Seq<char>) -> bool {
    forall|i: int| 0 <= i < s.len() ==> s[i] != '/' && s[i] != '\\'
}

/// `Path::new(a) == Path::new(b)` (equality of their components).
pub uninterp spec fn paths_equal(a: Seq<char>, b: Seq<char>) -> bool;

/// Joins `part` onto `base`.
///
/// Calls `std::path::Path::join`. Both arguments are UTF-8, so the joined
/// path is too and converts to a string without loss; its value is named
/// `path_joined`.
#[verifier::external_body]
pub(crate) fn join_path(base: &str, part: &str) -> (r: String)
    ensures
        r@ == path_joined(base@, part@),
{
    std::path::Path::new(base).join(part).to_string_lossy().into_owned()
}

/// The extension of the last component of `path`.
///
/// Calls `std::path::Path::extension`; the extension of a UTF-8 path is
/// UTF-8. Its value is named `path_extension`; as documented, a path
/// without a file name has no extension.
#[verifier::external_body]
pub(crate) fn extension_of(path: &str) -> (r: Option<String>)
    ensures
        match r {
            Some(e) => path_extension(path@) == Some(e@),
            None => path_extension(path@) is None,
        },
        r is Some ==> path_file_name(path@) is Some,
{
    std::path::Path::new(path).extension().map(|e| e.to_string_lossy().into_owned())
}

/// `path` with its extension replaced by `extension`.
///
/// Calls `std::path::PathBuf::set_extension`, which panics on an extension
/// holding a path separator; with UTF-8 arguments the result is UTF-8. Its
/// value is named `path_with_extension`. As documented, a path without a
/// file name is left as it is, and otherwise a non-empty extension without
/// a dot becomes the path's extension.
#[verifier::external_body]
pub(crate) fn replace_extension(path: &str, extension: &str) -> (r: String)
    requires
        separator_free(extension@),
    ensures
        r@ == path_with_extension(path@, extension@),
        path_file_name(path@) is None ==> r@ == path@,
        path_file_name(path@) is Some && extension@.len() > 0 && !extension@.contains('.')
            ==> path_extension(r@) == Some(extension@),
{
    let mut buffer = std::path::PathBuf::from(path);
    buffer.set_extension(extension);
    buffer.to_string_lossy().into_owned()
}

/// Whether two paths name the same path.
///
/// Calls `PartialEq` on `std::path::Path`, which compares components; its
/// value is named `paths_equal`.
#[verifier::external_body]
pub(crate) fn same_path(a: &str, b: &str) -> (r: bool)
    ensures
        r == paths_equal(a@, b@),
{
    std::path::Path::new(a) == std::path::Path::new(b)
}

/// `root` with each piece of `parts` joined on in turn.
pub open spec fn joined_all(root: Seq<char>, parts: Seq<Seq<char>>) -> Seq<char>
    decreases parts.len(),
{
    if parts.len() == 0 {
        root
    } else {
        path_joined(joined_all(root, parts.drop_last()), parts.last())
    }
}

/// `root` with every slash-separated piece of `relative` joined on in turn.
pub fn join_relative(root: &str, relative: &str) -> (r: String)
    ensures
        r@ == joined_all(root@, split_slash(relative@)),
{
    let chars = crate::text::chars_of(relative);
    let mut path = crate::text::string_from_chars(&crate::text::chars_of(root));
    let mut piece: Vec<char> = Vec::new();
    let mut i: usize = 0;
    proof {
        crate::selection::lemma_split_slash_nonempty(relative@.take(0));
        assert(split_slash(relative@.take(0)).drop_last() =~= Seq::<Seq<char>>::empty());
    }
    while i < chars.len()
        invariant
            i <= chars.len(),
            chars@ == relative@,
            split_slash(relative@.take(i as int)).len() >= 1,
            piece@ == split_slash(relative@.take(i as int)).last(),
            path@ == joined_all(root@, split_slash(relative@.take(i as int)).drop_last()),
        decreases chars.len() - i,
    {
        let c = chars[i];
        let ghost before = split_slash(relative@.take(i as int));
        assert(relative@.take(i + 1).drop_last() =~= relative@.take(i as int));
        assert(relative@.take(i + 1).last() == c);
        if c == '/' {
            assert(split_slash(relative@.take(i + 1)) == before.push(Seq::<char>::empty()));
            assert(before.push(Seq::<char>::empty()).drop_last() =~= before);
            assert(before.drop_last().push(before.last()) =~= before);
            let part = crate::text::string_from_chars(&piece);
            path = join_path(path.as_str(), part.as_str());
            piece = Vec::new();
        } else {
            proof {
                crate::selection::lemma_split_slash_nonempty(relative@.take(i as int));
                assert(before.update(before.len() - 1, before.last().push(c)).drop_last()
                    =~= before.drop_last());
            }
            piece.push(c);
        }
        i += 1;
    }
    assert(relative@.take(i as int) =~= relative@);
    let ghost pieces = split_slash(relative@);
    assert(pieces.drop_last().push(pieces.last()) =~= pieces);
    let part = crate::text::string_from_chars(&piece);
    join_path(path.as_str(), part.as_str())
}

} // verus!
