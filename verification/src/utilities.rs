//! Small helpers for handling path strings.

use vstd::prelude::*;
use vstd::string::StringExecFns;
use vstd::string::StrSliceExecFns;

verus! {

/// Returns the path as an owned `String`.
pub fn string_from_path_ref(path_ref: &str) -> (r: String)
    ensures
        r@ == path_ref@,
{
    path_ref.to_owned()
}

/// Joins one further path component onto a path string. An absolute
/// component — one that begins with `/` — replaces the path entirely;
/// otherwise it is appended, with a `/` separator inserted unless the path
/// is empty or already ends with one.
pub fn join_to_path_then_string(path_ref: &str, join: &str) -> (r: String)
    ensures
        r@ == (if join@.len() > 0 && join@[0] == '/' {
            join@
        } else if path_ref@.len() == 0 {
            join@
        } else if path_ref@.last() == '/' {
            path_ref@ + join@
        } else {
            path_ref@ + seq!['/'] + join@
        }),
{
    let jn = join.unicode_len();
    if jn > 0 && join.get_char(0) == '/' {
        return join.to_owned();
    }
    let n = path_ref.unicode_len();
    if n == 0 {
        return join.to_owned();
    }
    let c = path_ref.get_char(n - 1);
    let mut s = path_ref.to_owned();
    if c != '/' {
        s.append("/");
        proof {
            reveal_strlit("/");
            assert("/"@ =~= seq!['/']);
        }
    }
    s.append(join);
    s
}

} // verus!
