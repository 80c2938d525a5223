//! Paths: their parts, which files of an input a script asks for, and where its
//! imports lie.

use vstd::prelude::*;
use vstd::string::*;

use crate::scripting::cursor::message;
use crate::text::{chars_of, string_of};

verus! {

/// What stands for standard input where a path is shown.
pub const STDIN_PATH: &'static str = "/dev/stdin";

#[verifier::external_type_specification]
#[verifier::external_body]
pub struct ExGlobSet(globset::GlobSet);

#[verifier::external_type_specification]
#[verifier::external_body]
pub struct ExGlobError(globset::Error);

/// The patterns that a set of globs holds.
pub uninterp spec fn glob_patterns(g: globset::GlobSet) -> Seq<Seq<char>>;

/// The platform that a set of globs was built on, by a number.
pub uninterp spec fn glob_platform(g: globset::GlobSet) -> int;

/// What is wrong with a pattern on a platform, in words.
pub uninterp spec fn glob_fault(pattern: Seq<char>, platform: int) -> Option<Seq<char>>;

/// Whether a pattern matches a path on a platform.
pub uninterp spec fn glob_matches(pattern: Seq<char>, path: Seq<char>, platform: int) -> bool;

/// An error of `globset`, in words.
pub uninterp spec fn glob_error_words(e: globset::Error) -> Seq<char>;

/// Whether a path is absolute on a platform.
pub uninterp spec fn absolute_path(path: Seq<char>, platform: int) -> bool;

/// Whether a path lies under another on a platform.
pub uninterp spec fn path_under(path: Seq<char>, root: Seq<char>, platform: int) -> bool;

/// `globset::GlobBuilder::build`, with `literal_separator`, put alone in a set
/// by `globset::GlobSetBuilder::build`: the set holds the pattern and no other.
/// Whether there is an error, and which, rests on the pattern and on the platform,
/// whose separators are fixed when the crate is compiled.
#[verifier::external_body]
fn compile_glob(pattern: &str) -> (r: Result<globset::GlobSet, globset::Error>)
    ensures
        match r {
            Ok(g) => glob_patterns(g) == seq![pattern@] && glob_fault(
                pattern@,
                glob_platform(g),
            ) is None,
            Err(e) => exists|p: int|
                #[trigger] glob_fault(pattern@, p) == Some(glob_error_words(e)),
        },
{
    let glob = globset::GlobBuilder::new(pattern).literal_separator(true).build()?;
    globset::GlobSetBuilder::new().add(glob).build()
}

/// `globset::GlobSet::is_match`, on a set of one pattern: the answer rests on the
/// pattern, on the path and on the platform.
#[verifier::external_body]
fn glob_hits(glob: &globset::GlobSet, path: &str) -> (r: bool)
    requires
        glob_patterns(*glob).len() == 1,
    ensures
        r == glob_matches(glob_patterns(*glob)[0], path@, glob_platform(*glob)),
{
    glob.is_match(path)
}

/// The `Display` of `globset::Error`. Of the words nothing is claimed but that they
/// are those of the error.
#[verifier::external_body]
fn glob_error_text(e: &globset::Error) -> (r: String)
    ensures
        r@ == glob_error_words(*e),
{
    format!("{}", e)
}

/// `std::path::Path::is_absolute`: the answer rests on the path and on the
/// platform.
#[verifier::external_body]
fn is_absolute(path: &str) -> (r: bool)
    ensures
        exists|p: int| r == #[trigger] absolute_path(path@, p),
{
    std::path::Path::new(path).is_absolute()
}

/// `std::path::Path::starts_with`: the answer rests on both paths and on the
/// platform.
#[verifier::external_body]
fn lies_under(path: &str, root: &str) -> (r: bool)
    ensures
        exists|p: int| r == #[trigger] path_under(path@, root@, p),
{
    std::path::Path::new(path).starts_with(root)
}

/// The last component of a path on a platform.
pub uninterp spec fn file_name_of(path: Seq<char>, platform: int) -> Option<Seq<char>>;

/// The directory of a path on a platform.
pub uninterp spec fn parent_of(path: Seq<char>, platform: int) -> Option<Seq<char>>;

/// The last component of a path on a platform, without its extension.
pub uninterp spec fn file_stem_of(path: Seq<char>, platform: int) -> Option<Seq<char>>;

/// The extension of the last component of a path on a platform.
pub uninterp spec fn extension_of(path: Seq<char>, platform: int) -> Option<Seq<char>>;

/// The characters of a text, if there is one.
pub open spec fn words_of(r: Option<String>) -> Option<Seq<char>> {
    match r {
        Some(s) => Some(s@),
        None => None,
    }
}

/// `std::path::Path::file_name`: what comes out rests on the path and on the
/// platform.
#[verifier::external_body]
fn file_name(path: &str) -> (r: Option<String>)
    ensures
        exists|p: int| words_of(r) == #[trigger] file_name_of(path@, p),
{
    std::path::Path::new(path).file_name().map(|s| s.to_string_lossy().to_string())
}

/// `std::path::Path::parent`: what comes out rests on the path and on the platform.
#[verifier::external_body]
fn parent(path: &str) -> (r: Option<String>)
    ensures
        exists|p: int| words_of(r) == #[trigger] parent_of(path@, p),
{
    std::path::Path::new(path).parent().map(|s| s.to_string_lossy().to_string())
}

/// `std::path::Path::file_stem`: what comes out rests on the path and on the
/// platform.
#[verifier::external_body]
fn file_stem(path: &str) -> (r: Option<String>)
    ensures
        exists|p: int| words_of(r) == #[trigger] file_stem_of(path@, p),
{
    std::path::Path::new(path).file_stem().map(|s| s.to_string_lossy().to_string())
}

/// `std::path::Path::extension`: what comes out rests on the path and on the
/// platform.
#[verifier::external_body]
fn extension(path: &str) -> (r: Option<String>)
    ensures
        exists|p: int| words_of(r) == #[trigger] extension_of(path@, p),
{
    std::path::Path::new(path).extension().map(|s| s.to_string_lossy().to_string())
}

/// A text, or the empty one where there is none.
pub open spec fn or_empty(s: Option<Seq<char>>) -> Seq<char> {
    match s {
        Some(x) => x,
        None => seq![],
    }
}

/// A text, or the empty one where there is none.
fn text_or_empty(s: Option<String>) -> (r: String)
    ensures
        r@ == or_empty(words_of(s)),
{
    match s {
        Some(x) => x,
        None => {
            let r = String::new();
            assert(r@ =~= seq![]);
            r
        },
    }
}

/// The last component of a path.
pub fn path_basename(path: &str) -> (r: String)
    ensures
        exists|p: int| r@ == or_empty(#[trigger] file_name_of(path@, p)),
{
    text_or_empty(file_name(path))
}

/// The directory of a path.
pub fn path_dirname(path: &str) -> (r: String)
    ensures
        exists|p: int| r@ == or_empty(#[trigger] parent_of(path@, p)),
{
    text_or_empty(parent(path))
}

/// The name of a file without its extension.
pub fn path_stem(path: &str) -> (r: String)
    ensures
        exists|p: int| r@ == or_empty(#[trigger] file_stem_of(path@, p)),
{
    text_or_empty(file_stem(path))
}

/// The extension of a file's name.
pub fn path_extension(path: &str) -> (r: String)
    ensures
        exists|p: int| r@ == or_empty(#[trigger] extension_of(path@, p)),
{
    text_or_empty(extension(path))
}

/// What a script is told of a pattern that leads out of its directory.
pub open spec fn outside_text(root: Seq<char>, pattern: Seq<char>) -> Seq<char> {
    "glob pattern "@ + pattern + " is outside the input directory "@ + root
}

/// What a script is told of a pattern that is none, by what is wrong with it.
pub open spec fn invalid_text(fault: Seq<char>) -> Seq<char> {
    "invalid glob pattern: "@ + fault
}

/// The pattern that files under `root` are held against; `absolute` and `inside`
/// say whether `pattern` is an absolute path, and whether it lies under `root`.
pub open spec fn held_pattern(
    root: Seq<char>,
    pattern: Seq<char>,
    absolute: bool,
    inside: bool,
) -> Result<Seq<char>, Seq<char>> {
    if !absolute {
        Ok(root + "/**/"@ + pattern)
    } else if inside {
        Ok(pattern)
    } else {
        Err(outside_text(root, pattern))
    }
}

/// The pattern that files under `root` are held against; `absolute` and `inside`
/// say whether `pattern` is an absolute path, and whether it lies under `root`.
pub fn dir_pattern(root: &str, pattern: &str, absolute: bool, inside: bool) -> (r: Result<
    String,
    String,
>)
    ensures
        match (r, held_pattern(root@, pattern@, absolute, inside)) {
            (Ok(p), Ok(q)) => p@ == q,
            (Err(e), Err(f)) => e@ == f,
            _ => false,
        },
{
    if absolute {
        if inside {
            return Ok(string_of(&chars_of(pattern)));
        }
        let mut e = message("glob pattern ", pattern);
        e.push_str(" is outside the input directory ");
        e.push_str(root);
        return Err(e);
    }
    let head = message(root, "/**/");
    Ok(message(head.as_str(), pattern))
}

/// The directory that an import is looked up in: that of the script which holds
/// it, or the root where there is none. An absolute import needs no directory.
pub fn import_base(root: &str, parent: Option<&str>, relative: bool) -> (r: Option<String>)
    ensures
        match r {
            Some(d) => relative && d@ == match parent {
                Some(p) => p@,
                None => root@,
            },
            None => !relative,
        },
{
    if !relative {
        return None;
    }
    match parent {
        Some(p) => Some(string_of(&chars_of(p))),
        None => Some(string_of(&chars_of(root))),
    }
}

/// Whether an import is admitted: only a file that was found and that lies under
/// the root is. The error names the import.
pub fn import_admitted(import: &str, found: bool, inside: bool) -> (r: Result<(), String>)
    ensures
        match r {
            Ok(_) => found && inside,
            Err(e) => !(found && inside) && e@ == import@,
        },
{
    if found && inside {
        Ok(())
    } else {
        Err(string_of(&chars_of(import)))
    }
}

/// The places in the first `n` of `hits` that are true.
pub open spec fn hit_places(hits: Seq<bool>, n: int) -> Seq<usize>
    decreases n,
{
    if n <= 0 {
        seq![]
    } else if hits[n - 1] {
        hit_places(hits, n - 1).push((n - 1) as usize)
    } else {
        hit_places(hits, n - 1)
    }
}

/// The places at which `hits` is true, in order.
pub fn chosen(hits: &Vec<bool>) -> (r: Vec<usize>)
    ensures
        r@ == hit_places(hits@, hits@.len() as int),
{
    let mut r: Vec<usize> = Vec::new();
    let mut i: usize = 0;
    while i < hits.len()
        invariant
            i <= hits@.len(),
            r@ == hit_places(hits@, i as int),
        decreases hits@.len() - i,
    {
        if hits[i] {
            r.push(i);
        }
        i = i + 1;
    }
    r
}

/// A choice among `n` things: their places, in order and each once.
pub open spec fn is_choice(r: Seq<usize>, n: int) -> bool {
    &&& forall|i: int| 0 <= i < r.len() ==> #[trigger] r[i] < n
    &&& forall|i: int, j: int| 0 <= i < j < r.len() ==> r[i] < r[j]
}

/// The places of hits are a choice.
pub proof fn lemma_hits_are_a_choice(hits: Seq<bool>, n: int)
    requires
        0 <= n <= hits.len() <= usize::MAX,
    ensures
        is_choice(hit_places(hits, n), n),
        forall|i: int|
            0 <= i < hit_places(hits, n).len() ==> hits[#[trigger] hit_places(hits, n)[i] as int],
        forall|k: int|
            0 <= k < n && #[trigger] hits[k] ==> hit_places(hits, n).contains(k as usize),
    decreases n,
{
    if n > 0 {
        lemma_hits_are_a_choice(hits, n - 1);
        let before = hit_places(hits, n - 1);
        let after = hit_places(hits, n);
        assert forall|k: int| 0 <= k < n && #[trigger] hits[k] implies after.contains(
            k as usize,
        ) by {
            if k < n - 1 {
                let i = choose|i: int| 0 <= i < before.len() && before[i] == k as usize;
                assert(after[i] == k as usize);
            } else {
                assert(after.last() == k as usize);
            }
        }
    }
}

/// Whether `r` is what a pattern finds among `paths` on a platform: the places of
/// all paths that it matches, in order, or what is wrong with the pattern.
pub open spec fn finds(
    r: Result<Vec<usize>, String>,
    pattern: Seq<char>,
    paths: Seq<String>,
    platform: int,
) -> bool {
    match (r, glob_fault(pattern, platform)) {
        (Ok(v), None) => is_choice(v@, paths.len() as int) && forall|i: int|
            0 <= i < paths.len() ==> v@.contains(i as usize) == glob_matches(
                pattern,
                (#[trigger] paths[i])@,
                platform,
            ),
        (Err(e), Some(f)) => e@ == invalid_text(f),
        _ => false,
    }
}

/// Which of `paths` a pattern matches, or what is wrong with the pattern.
pub fn glob_places(pattern: &str, paths: &Vec<String>) -> (r: Result<Vec<usize>, String>)
    ensures
        exists|p: int| #[trigger] finds(r, pattern@, paths@, p),
{
    let glob = match compile_glob(pattern) {
        Ok(g) => g,
        Err(e) => {
            let f = glob_error_text(&e);
            let r: Result<Vec<usize>, String> = Err(
                message("invalid glob pattern: ", f.as_str()),
            );
            proof {
                let p = choose|p: int|
                    #[trigger] glob_fault(pattern@, p) == Some(glob_error_words(e));
                assert(finds(r, pattern@, paths@, p));
            }
            return r;
        },
    };
    let ghost p = glob_platform(glob);
    let mut hits: Vec<bool> = Vec::new();
    let mut i: usize = 0;
    while i < paths.len()
        invariant
            i <= paths@.len(),
            hits@.len() == i,
            glob_patterns(glob) == seq![pattern@],
            p == glob_platform(glob),
            forall|k: int|
                0 <= k < i ==> hits@[k] == glob_matches(pattern@, (#[trigger] paths@[k])@, p),
        decreases paths@.len() - i,
    {
        hits.push(glob_hits(&glob, paths[i].as_str()));
        i = i + 1;
    }
    let n = hits.len();
    proof {
        lemma_hits_are_a_choice(hits@, n as int);
    }
    let v = chosen(&hits);
    let r: Result<Vec<usize>, String> = Ok(v);
    proof {
        assert forall|k: int| 0 <= k < paths@.len() implies v@.contains(k as usize)
            == glob_matches(pattern@, (#[trigger] paths@[k])@, p) by {
            if v@.contains(k as usize) {
                let j = choose|j: int| 0 <= j < v@.len() && v@[j] == k as usize;
                assert(hits@[v@[j] as int]);
            }
            if hits@[k] {
                assert(v@.contains(k as usize));
            }
        }
        assert(finds(r, pattern@, paths@, p));
    }
    r
}

/// Which of the files `paths` under the directory `root` a pattern matches. A
/// relative pattern is matched at any depth; an absolute one must lie under the
/// directory. (`a` and `b` are the platform on which paths are looked at, and `p`
/// that on which patterns are.)
pub fn dir_glob(root: &str, pattern: &str, paths: &Vec<String>) -> (r: Result<Vec<usize>, String>)
    ensures
        exists|a: int, b: int|
            match held_pattern(
                root@,
                pattern@,
                #[trigger] absolute_path(pattern@, a),
                #[trigger] path_under(pattern@, root@, b),
            ) {
                Ok(q) => exists|p: int| #[trigger] finds(r, q, paths@, p),
                Err(f) => r is Err && r->Err_0@ == f,
            },
{
    let absolute = is_absolute(pattern);
    let inside = lies_under(pattern, root);
    match dir_pattern(root, pattern, absolute, inside) {
        Ok(p) => glob_places(p.as_str(), paths),
        Err(e) => Err(e),
    }
}

} // verus!
