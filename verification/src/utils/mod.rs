//! Paths relative to the working directory.
pub mod args;
pub mod project;

pub mod project_config;

use crate::text::{byte_len, byte_offset, has_prefix, lemma_offset_step, str_eq, str_starts_with, substring};
use vstd::prelude::*;

verus! {

/// What `Path::join` gives, as a string, for a base path and a path to add to
/// it. It depends on the two strings alone.
pub uninterp spec fn spec_path_join(base: Seq<char>, path: Seq<char>) -> Seq<char>;

/// Calls `std::path::Path::join` on `base` and `path` and returns the result as
/// a string (two UTF-8 paths join into a UTF-8 path, so the conversion loses
/// nothing). The contract names the result `spec_path_join` of the two
/// arguments; it does not state the platform's rules for separators or for
/// `path` being absolute, which then replaces `base`.
#[verifier::external_body]
pub(crate) fn path_join(base: &str, path: &str) -> (r: String)
    ensures
        r@ == spec_path_join(base@, path@),
{
    std::path::Path::new(base).join(path).to_string_lossy().into_owned()
}

/// `path` without a leading `./` or `.\`.
pub open spec fn strip_dot_prefix(path: Seq<char>) -> Seq<char> {
    if has_prefix(path, "./"@) || has_prefix(path, ".\\"@) {
        path.skip(2)
    } else {
        path
    }
}

/// The path that `path` denotes relative to the working directory `cwd`: `cwd`
/// itself for `.`, else `cwd` joined with `path` without its leading `./` or `.\`.
pub open spec fn relative_to(cwd: Seq<char>, path: Seq<char>) -> Seq<char> {
    if path == "."@ {
        cwd
    } else {
        spec_path_join(cwd, strip_dot_prefix(path))
    }
}

/// `path` taken relative to the working directory `cwd`.
pub fn join_relate_to_cwd(cwd: &str, path: &str) -> (r: String)
    ensures
        r@ == relative_to(cwd@, path@),
{
    if str_eq(path, ".") {
        return cwd.to_owned();
    }
    let clean_path = if str_starts_with(path, "./") || str_starts_with(path, ".\\") {
        proof {
            reveal_strlit("./");
            reveal_strlit(".\\");
            assert("./"@.len() == 2 && "./"@[0] == '.' && "./"@[1] == '/');
            assert(".\\"@.len() == 2 && ".\\"@[0] == '.' && ".\\"@[1] == '\\');
            if has_prefix(path@, "./"@) {
                assert(path@.take(2)[0] == path@[0] && path@.take(2)[1] == path@[1]);
            } else {
                assert(path@.take(2)[0] == path@[0] && path@.take(2)[1] == path@[1]);
            }
            assert(path@[0] == '.');
            assert(path@[1] == '/' || path@[1] == '\\');
            assert(path@.take(0) =~= Seq::<char>::empty());
            assert(byte_offset(path@, 0) == 0);
            lemma_offset_step(path@, 0);
            lemma_offset_step(path@, 1);
            crate::text::lemma_offset_split(path@, 2, path@.len() as int);
            crate::text::lemma_offset_end(path@);
        }
        let n = byte_len(path);
        substring(path, 2, n, Ghost(2), Ghost(path@.len() as int))
    } else {
        path.to_owned()
    };
    proof {
        if has_prefix(path@, "./"@) || has_prefix(path@, ".\\"@) {
            assert(path@.subrange(2, path@.len() as int) =~= path@.skip(2));
        }
    }
    path_join(cwd, clean_path.as_str())
}

/// A leading `./` does not change where a path points: `./p` and `p` denote
/// the same path relative to the working directory, for any `p` that does not
/// itself start with `./` or `.\` and is not `.`.
pub proof fn lemma_dot_slash_is_neutral(cwd: Seq<char>, p: Seq<char>)
    requires
        !has_prefix(p, "./"@),
        !has_prefix(p, ".\\"@),
        p != "."@,
    ensures
        relative_to(cwd, "./"@ + p) == relative_to(cwd, p),
{
    reveal_strlit("./");
    reveal_strlit(".");
    let q = "./"@ + p;
    assert(q.take(2) =~= "./"@);
    assert(q.skip(2) =~= p);
    assert(q != "."@) by {
        assert(q.len() != "."@.len());
    }
}

} // verus!
