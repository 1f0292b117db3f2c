use vstd::prelude::*;

verus! {

/// Whether `base` is a component-wise prefix of `path`, as the platform's
/// path rules decide it (`/a/b` lies under `/a`, `/ab` does not).
pub uninterp spec fn path_starts_with(path: Seq<char>, base: Seq<char>) -> bool;

/// Relies on `std::path::Path::starts_with`: compares the two paths component
/// by component; the answer depends on the two strings alone.
#[verifier::external_body]
pub(crate) fn lies_under(path: &String, base: &String) -> (r: bool)
    ensures
        r == path_starts_with(path@, base@),
{
    std::path::Path::new(path.as_str()).starts_with(base.as_str())
}

} // verus!

verus! {

/// The components of a path, each as text (`/a//b/` has `/`, `a`, `b`).
pub uninterp spec fn components_of(p: Seq<char>) -> Seq<Seq<char>>;

/// Relies on `std::path::Path::iter`: the components of the path, each
/// turned into text; they depend on the string alone.
#[verifier::external_body]
pub(crate) fn path_components(p: &String) -> (r: Vec<String>)
    ensures
        r@.map_values(|s: String| s@) == components_of(p@),
{
    std::path::Path::new(p.as_str()).iter().map(|c| c.to_string_lossy().into_owned()).collect()
}

/// What replacing every match of the regular expression `pattern` in `text`
/// by `replacement` gives, or `None` where `pattern` is not a valid
/// expression.
pub uninterp spec fn regex_replaced(
    pattern: Seq<char>,
    text: Seq<char>,
    replacement: Seq<char>,
) -> Option<Seq<char>>;

/// Relies on `regex::Regex::new` and `regex::Regex::replace_all`: compiles
/// `pattern` and replaces every match in `text`; the outcome depends on the
/// three strings alone.
#[verifier::external_body]
pub(crate) fn replace_all_matches(pattern: &str, text: &str, replacement: &str) -> (r: Option<
    String,
>)
    ensures
        match r {
            Some(s) => regex_replaced(pattern@, text@, replacement@) == Some(s@),
            None => regex_replaced(pattern@, text@, replacement@) == None::<Seq<char>>,
        },
{
    regex::Regex::new(pattern).ok().map(|re| re.replace_all(text, replacement).into_owned())
}

} // verus!
