//! Name and pattern checks: hidden names, literal ignore lists, and
//! glob-pattern matching against full path strings.

use vstd::prelude::*;

verus! {

/// A name is hidden when its first character is a dot.
pub open spec fn is_hidden(name: Seq<char>) -> bool {
    name.len() > 0 && name[0] == '.'
}

/// Whether `name` occurs literally in `list`.
pub open spec fn in_list(list: Seq<Seq<char>>, name: Seq<char>) -> bool {
    exists|i: int| 0 <= i < list.len() && list[i] == name
}

/// Whether the glob pattern string compiles.
pub uninterp spec fn glob_pattern_ok(pattern: Seq<char>) -> bool;

/// Whether the glob pattern matches the text.
pub uninterp spec fn glob_match(pattern: Seq<char>, text: Seq<char>) -> bool;

/// Every pattern in the sequence compiles.
pub open spec fn all_patterns_ok(pats: Seq<Seq<char>>) -> bool {
    forall|i: int| 0 <= i < pats.len() ==> glob_pattern_ok(pats[i])
}

/// Some pattern in the sequence matches the text.
pub open spec fn matches_any(pats: Seq<Seq<char>>, text: Seq<char>) -> bool {
    exists|i: int| 0 <= i < pats.len() && glob_match(pats[i], text)
}

/// The views of a vector of strings.
pub open spec fn str_views(v: Seq<String>) -> Seq<Seq<char>> {
    v.map_values(|s: String| s@)
}

/// Relies on glob::Pattern::new and glob::Pattern::matches: whether a
/// pattern string compiles is a function of that string alone, and whether
/// a compiled pattern matches a text is a function of the pattern string
/// and the text alone.
#[verifier::external_body]
fn glob_match_exec(pattern: &String, text: &String) -> (r: Option<bool>)
    ensures
        r is Some <==> glob_pattern_ok(pattern@),
        r is Some ==> r->0 == glob_match(pattern@, text@),
{
    match glob::Pattern::new(pattern.as_str()) {
        Ok(p) => Some(p.matches(text.as_str())),
        Err(_) => None,
    }
}

/// Whether every pattern in `pats` compiles.
pub fn check_patterns(pats: &Vec<String>) -> (r: bool)
    ensures
        r == all_patterns_ok(str_views(pats@)),
{
    let empty = String::new();
    let mut i: usize = 0;
    while i < pats.len()
        invariant
            0 <= i <= pats@.len(),
            forall|j: int| 0 <= j < i ==> glob_pattern_ok(str_views(pats@)[j]),
        decreases pats@.len() - i,
    {
        if glob_match_exec(&pats[i], &empty).is_none() {
            assert(!glob_pattern_ok(str_views(pats@)[i as int]));
            return false;
        }
        i = i + 1;
    }
    true
}

/// Whether some pattern in `pats` matches `text`.
pub fn match_any_pattern(pats: &Vec<String>, text: &String) -> (r: bool)
    requires
        all_patterns_ok(str_views(pats@)),
    ensures
        r == matches_any(str_views(pats@), text@),
{
    let mut i: usize = 0;
    while i < pats.len()
        invariant
            0 <= i <= pats@.len(),
            all_patterns_ok(str_views(pats@)),
            forall|j: int| 0 <= j < i ==> !glob_match(str_views(pats@)[j], text@),
        decreases pats@.len() - i,
    {
        assert(glob_pattern_ok(str_views(pats@)[i as int]));
        match glob_match_exec(&pats[i], text) {
            Some(true) => {
                assert(glob_match(str_views(pats@)[i as int], text@));
                return true;
            },
            _ => {},
        }
        i = i + 1;
    }
    false
}

/// Whether `name` starts with a dot.
pub fn is_hidden_name(name: &String) -> (r: bool)
    ensures
        r == is_hidden(name@),
{
    let n = name.as_str().unicode_len();
    if n == 0 {
        false
    } else {
        name.as_str().get_char(0) == '.'
    }
}

/// Whether `name` equals one of the strings in `list`.
pub fn name_in_list(list: &Vec<String>, name: &String) -> (r: bool)
    ensures
        r == in_list(str_views(list@), name@),
{
    let mut i: usize = 0;
    while i < list.len()
        invariant
            0 <= i <= list@.len(),
            forall|j: int| 0 <= j < i ==> str_views(list@)[j] != name@,
        decreases list@.len() - i,
    {
        if list[i].eq(name) {
            assert(str_views(list@)[i as int] == name@);
            return true;
        }
        i = i + 1;
    }
    false
}

} // verus!
