use vstd::prelude::*;
use vstd::string::StringExecFns;

use crate::paths::{path_components, regex_replaced, replace_all_matches};

verus! {

/// The separator that normalised paths use.
pub const PATH_SEP: &'static str = "/";

/// Runs of separators of either platform, as a regular expression.
pub const SEPARATOR_RUNS: &'static str = "[\\\\/]+";

/// An error message: `prefix`, a colon and a space, then `message`.
pub open spec fn prefixed(prefix: Seq<char>, message: Seq<char>) -> Seq<char> {
    prefix + seq![':', ' '] + message
}

/// Prefixes an error message with the name of the step that failed.
pub fn str_err_prefix(prefix: &str, message: &str) -> (r: String)
    ensures
        r@ == prefixed(prefix@, message@),
{
    let mut r = String::from_str(prefix);
    r.append(": ");
    proof {
        reveal_strlit(": ");
    }
    r.append(message);
    assert(r@ =~= prefixed(prefix@, message@));
    r
}

/// The parts joined into one string, with `sep` between two neighbours.
pub open spec fn joined(parts: Seq<Seq<char>>, sep: Seq<char>) -> Seq<char>
    decreases parts.len(),
{
    if parts.len() == 0 {
        Seq::empty()
    } else if parts.len() == 1 {
        parts[0]
    } else {
        joined(parts.drop_last(), sep) + sep + parts.last()
    }
}

/// Joins `parts` with `sep` between neighbours.
pub fn join_parts(parts: &Vec<String>, sep: &str) -> (r: String)
    ensures
        r@ == joined(parts@.map_values(|s: String| s@), sep@),
{
    let ghost views = parts@.map_values(|s: String| s@);
    let mut r = String::new();
    let mut k: usize = 0;
    while k < parts.len()
        invariant
            k <= parts@.len(),
            views == parts@.map_values(|s: String| s@),
            r@ == joined(views.take(k as int), sep@),
        decreases parts@.len() - k,
    {
        if k > 0 {
            r.append(sep);
        }
        r.append(parts[k].as_str());
        assert(views.take(k + 1).drop_last() =~= views.take(k as int));
        proof {
            if k == 0 {
                assert(views.take(0) =~= Seq::<Seq<char>>::empty());
                assert(r@ =~= views.take(1)[0]);
            }
        }
        k = k + 1;
    }
    assert(views.take(k as int) =~= views);
    r
}

/// A path with its components joined by `/` and every run of `/` or `\`
/// collapsed into one `/`; the joined components where the expression
/// engine refuses the pattern.
pub open spec fn normalized(p: Seq<char>) -> Seq<char> {
    let j = joined(crate::paths::components_of(p), PATH_SEP@);
    match regex_replaced(SEPARATOR_RUNS@, j, PATH_SEP@) {
        Some(s) => s,
        None => j,
    }
}

/// Writes a path with `/` as its only separator and no repeated separators.
pub fn normalize_path(p: &String) -> (r: String)
    ensures
        r@ == normalized(p@),
{
    let parts = path_components(p);
    let j = join_parts(&parts, PATH_SEP);
    match replace_all_matches(SEPARATOR_RUNS, j.as_str(), PATH_SEP) {
        Some(s) => s,
        None => j,
    }
}

} // verus!
