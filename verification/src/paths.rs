//! Unix paths as `std::path` documents them: components, file names, stems
//! and extensions.

use vstd::prelude::*;

use crate::text::opt_view;

verus! {

/// A path component (`std::path::Component` on Unix).
pub enum PathComponent {
    RootDir,
    CurDir,
    ParentDir,
    Normal(Seq<char>),
}

/// Splits on `'/'`: the pieces finished by a `'/'`, and what follows the last
/// one.
pub open spec fn split_slash(s: Seq<char>) -> (Seq<Seq<char>>, Seq<char>)
    decreases s.len(),
{
    if s.len() == 0 {
        (seq![], seq![])
    } else {
        let (done, cur) = split_slash(s.drop_last());
        if s.last() == '/' {
            (done.push(cur), seq![])
        } else {
            (done, cur.push(s.last()))
        }
    }
}

/// The named components of the pieces between separators: empty pieces and
/// `.` are dropped, `..` is `ParentDir`.
pub open spec fn named_components(pieces: Seq<Seq<char>>) -> Seq<PathComponent>
    decreases pieces.len(),
{
    if pieces.len() == 0 {
        seq![]
    } else {
        let rest = named_components(pieces.drop_last());
        let p = pieces.last();
        if p.len() == 0 || p == seq!['.'] {
            rest
        } else if p == seq!['.', '.'] {
            rest.push(PathComponent::ParentDir)
        } else {
            rest.push(PathComponent::Normal(p))
        }
    }
}

/// `Path::is_absolute` on Unix: the path starts with the root `/`.
pub open spec fn is_absolute(p: Seq<char>) -> bool {
    p.len() > 0 && p[0] == '/'
}

/// `Path::components`: a root `/` first, a `CurDir` when the path begins with
/// a `.` component, then the other components; repeated separators, `.`
/// components and a trailing separator are normalized away.
pub open spec fn components(p: Seq<char>) -> Seq<PathComponent> {
    let (done, cur) = split_slash(p);
    let pieces = done.push(cur);
    let root = is_absolute(p);
    let cur_dir = !root && pieces[0] == seq!['.'];
    let body = if cur_dir {
        pieces.drop_first()
    } else {
        pieces
    };
    (if root {
        seq![PathComponent::RootDir]
    } else {
        seq![]
    }) + (if cur_dir {
        seq![PathComponent::CurDir]
    } else {
        seq![]
    }) + named_components(body)
}

/// `Path::file_name`: the final component when it is a normal one (`None` for
/// a path that ends in `..`, for `/` and for `.`).
pub open spec fn file_name(p: Seq<char>) -> Option<Seq<char>> {
    let cs = components(p);
    if cs.len() > 0 && cs.last() is Normal {
        Some(cs.last()->Normal_0)
    } else {
        None
    }
}

/// The position of the last `'.'` in `n`.
pub open spec fn last_dot(n: Seq<char>) -> Option<int>
    decreases n.len(),
{
    if n.len() == 0 {
        None
    } else if n.last() == '.' {
        Some(n.len() - 1)
    } else {
        last_dot(n.drop_last())
    }
}

/// The stem of a file name: all of it when it has no `'.'` or its only `'.'`
/// is its first character, else the part before the last `'.'`.
pub open spec fn stem_of(n: Seq<char>) -> Seq<char> {
    match last_dot(n) {
        Some(k) => if k == 0 {
            n
        } else {
            n.subrange(0, k)
        },
        None => n,
    }
}

/// The extension of a file name: the part after the last `'.'`, unless there
/// is none or it is only the first character.
pub open spec fn ext_of(n: Seq<char>) -> Option<Seq<char>> {
    match last_dot(n) {
        Some(k) => if k == 0 {
            None
        } else {
            Some(n.subrange(k + 1, n.len() as int))
        },
        None => None,
    }
}

/// `Path::file_stem`.
pub open spec fn file_stem(p: Seq<char>) -> Option<Seq<char>> {
    match file_name(p) {
        Some(n) => Some(stem_of(n)),
        None => None,
    }
}

/// `Path::extension`.
pub open spec fn extension(p: Seq<char>) -> Option<Seq<char>> {
    match file_name(p) {
        Some(n) => ext_of(n),
        None => None,
    }
}

proof fn lemma_named_no_root(pieces: Seq<Seq<char>>)
    ensures
        forall|i: int|
            0 <= i < named_components(pieces).len() ==> !(#[trigger] named_components(
                pieces,
            )[i] is RootDir),
    decreases pieces.len(),
{
    if pieces.len() > 0 {
        lemma_named_no_root(pieces.drop_last());
    }
}

/// A path is absolute exactly when its first component is the root.
pub proof fn lemma_absolute_components(p: Seq<char>)
    ensures
        is_absolute(p) == (components(p).len() > 0 && components(p)[0] is RootDir),
{
    let (done, cur) = split_slash(p);
    let pieces = done.push(cur);
    let root = is_absolute(p);
    let cur_dir = !root && pieces[0] == seq!['.'];
    let body = if cur_dir {
        pieces.drop_first()
    } else {
        pieces
    };
    lemma_named_no_root(body);
    if !root && !cur_dir && named_components(body).len() > 0 {
        assert(components(p)[0] == named_components(body)[0]);
    }
}

/// `Path::file_stem` of `p`, as a string.
#[verifier::external_body]
pub(crate) fn path_file_stem(p: &str) -> (r: Option<String>)
    ensures
        opt_view(r) == file_stem(p@),
{
    std::path::Path::new(p).file_stem().map(|s| s.to_string_lossy().into_owned())
}

/// `Path::extension` of `p`, as a string.
#[verifier::external_body]
pub(crate) fn path_extension(p: &str) -> (r: Option<String>)
    ensures
        opt_view(r) == extension(p@),
{
    std::path::Path::new(p).extension().map(|s| s.to_string_lossy().into_owned())
}

/// `Path::is_absolute` of `p` (Unix).
#[verifier::external_body]
pub(crate) fn path_is_absolute(p: &str) -> (r: bool)
    ensures
        r == is_absolute(p@),
{
    std::path::Path::new(p).is_absolute()
}

/// The number of `Path::components` of `p`.
#[verifier::external_body]
pub(crate) fn path_component_count(p: &str) -> (r: usize)
    ensures
        r == components(p@).len(),
{
    std::path::Path::new(p).components().count()
}

/// `PathBuf::set_extension` on `p`: whether it did anything, and the path.
/// It does nothing when `p` has no file name; otherwise the file name becomes
/// its stem, `'.'` and `ext`, and the components before it stay as they were.
/// The contract claims this of the components only: how separators are
/// spelled in the resulting string is not stated. It panics when `ext` holds a
/// path separator, which the `requires` rules out.
#[verifier::external_body]
pub(crate) fn path_set_extension(p: &str, ext: &str) -> (r: (bool, String))
    requires
        ext@.len() > 0,
        forall|i: int| 0 <= i < ext@.len() ==> ext@[i] != '/',
    ensures
        file_name(p@) is None ==> !r.0 && r.1@ == p@,
        file_name(p@) matches Some(n) ==> r.0 && components(r.1@) == components(p@).drop_last().push(
            PathComponent::Normal(stem_of(n) + seq!['.'] + ext@),
        ),
{
    let mut buf = std::path::PathBuf::from(p);
    let changed = buf.set_extension(ext);
    (changed, buf.to_string_lossy().into_owned())
}

/// `Path::join` of `base` with a relative `name` made of one normal
/// component: `name` is appended after a separator, so the components of the
/// result are those of `base` followed by that of `name`. The contract claims
/// this of the components only.
#[verifier::external_body]
pub(crate) fn path_join(base: &str, name: &str) -> (r: String)
    requires
        components(name@).len() == 1,
        components(name@)[0] is Normal,
    ensures
        components(r@) == components(base@) + components(name@),
{
    std::path::Path::new(base).join(name).to_string_lossy().into_owned()
}

/// `Path::starts_with`: whether the components of `base` are the first
/// components of `p`.
#[verifier::external_body]
pub(crate) fn path_starts_with(p: &str, base: &str) -> (r: bool)
    ensures
        r == components(base@).is_prefix_of(components(p@)),
{
    std::path::Path::new(p).starts_with(base)
}

} // verus!
