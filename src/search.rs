//! The search filter applied to tree nodes: a deliberately loose,
//! unanchored wildcard matcher with a case-insensitive fallback.

use vstd::prelude::*;
use crate::text::{
    chars_of, contains_chars, first_occurrence, is_substring, lemma_first_occurrence_unique,
    occurs_at, split_two, split_two_exec, trim_end_char, trim_end_spec, trim_start_char,
    trim_start_spec,
};

verus! {

/// What `str::to_lowercase` makes of a string.
pub uninterp spec fn lower_of(s: Seq<char>) -> Seq<char>;

/// Relies on `str::to_lowercase`: its result depends on the characters alone.
#[verifier::external_body]
fn lowercase(s: &str) -> (r: String)
    ensures
        r@ == lower_of(s@),
        s@.len() == 0 ==> r@.len() == 0,
{
    s.to_lowercase()
}

/// The two-character wildcard `**`.
pub open spec fn double_star() -> Seq<char> {
    seq!['*', '*']
}

/// The one-character wildcard `*`.
pub open spec fn single_star() -> Seq<char> {
    seq!['*']
}

/// The search predicate, given the query `q`, the candidate text `t`, and their
/// lower-case forms `lq` and `lt`.
///
/// A query holding `**` that splits into exactly two pieces asks that the text
/// contain the first piece (trailing `/` removed) and the second piece (leading
/// `/` removed); a query holding a single `*` but no `**` that splits into two
/// pieces asks that the text contain both. Everything else falls back to a
/// case-insensitive containment of the whole query.
pub open spec fn search_match(q: Seq<char>, t: Seq<char>, lq: Seq<char>, lt: Seq<char>) -> bool {
    if is_substring(double_star(), q) && split_two(q, double_star()) is Some {
        let parts = split_two(q, double_star())->0;
        is_substring(trim_end_spec(parts.0, '/'), t) && is_substring(
            trim_start_spec(parts.1, '/'),
            t,
        )
    } else if is_substring(single_star(), q) && !is_substring(double_star(), q) && split_two(
        q,
        single_star(),
    ) is Some {
        let parts = split_two(q, single_star())->0;
        is_substring(parts.0, t) && is_substring(parts.1, t)
    } else {
        is_substring(lq, lt)
    }
}

/// The search predicate over the text and the lower-case forms that the
/// case-insensitive fallback compares.
pub fn glob_match_search_folded(
    pattern: &str,
    text: &str,
    lower_pattern: &str,
    lower_text: &str,
) -> (r: bool)
    ensures
        r == search_match(pattern@, text@, lower_pattern@, lower_text@),
{
    let q = chars_of(pattern);
    let t = chars_of(text);
    match structured_match(&q, &t) {
        Some(b) => b,
        None => contains_chars(&chars_of(lower_text), &chars_of(lower_pattern)),
    }
}

/// The wildcard branches of the search predicate; `None` where the query
/// falls through to the case-insensitive fallback.
fn structured_match(q: &Vec<char>, t: &Vec<char>) -> (r: Option<bool>)
    ensures
        match r {
            Some(b) => forall|lq: Seq<char>, lt: Seq<char>|
                #![trigger search_match(q@, t@, lq, lt)]
                search_match(q@, t@, lq, lt) == b,
            None => forall|lq: Seq<char>, lt: Seq<char>|
                #![trigger search_match(q@, t@, lq, lt)]
                search_match(q@, t@, lq, lt) == is_substring(lq, lt),
        },
{
    let dstar: Vec<char> = vec!['*', '*'];
    let star: Vec<char> = vec!['*'];
    assert(dstar@ =~= double_star());
    assert(star@ =~= single_star());
    let has_dstar = contains_chars(q, &dstar);
    if has_dstar {
        if let Some((a, b)) = split_two_exec(q, &dstar) {
            let prefix = trim_end_char(&a, '/');
            let suffix = trim_start_char(&b, '/');
            return Some(contains_chars(t, &prefix) && contains_chars(t, &suffix));
        }
    } else if contains_chars(q, &star) {
        if let Some((a, b)) = split_two_exec(q, &star) {
            return Some(contains_chars(t, &a) && contains_chars(t, &b));
        }
    }
    None
}

/// The search predicate on a query and a candidate text.
pub fn glob_match_search(pattern: &str, text: &str) -> (r: bool)
    ensures
        r == search_match(pattern@, text@, lower_of(pattern@), lower_of(text@)),
{
    let q = chars_of(pattern);
    let t = chars_of(text);
    match structured_match(&q, &t) {
        Some(b) => b,
        None => {
            let lp = lowercase(pattern);
            let lt = lowercase(text);
            contains_chars(&chars_of(lt.as_str()), &chars_of(lp.as_str()))
        },
    }
}

/// A node with display name `name` and full path `path` is shown for query `q`.
#[verifier::opaque]
pub open spec fn node_matches(q: Seq<char>, name: Seq<char>, path: Seq<char>) -> bool {
    q.len() == 0 || search_match(q, name, lower_of(q), lower_of(name)) || search_match(
        q,
        path,
        lower_of(q),
        lower_of(path),
    )
}


/// The query `**` matches every text.
pub proof fn lemma_double_star_matches_all(t: Seq<char>, lq: Seq<char>, lt: Seq<char>)
    ensures
        search_match(double_star(), t, lq, lt),
{
    let q = double_star();
    assert(q.subrange(0, 2) =~= q);
    assert(occurs_at(q, q, 0));
    assert(first_occurrence(q, q, 0));
    let k = choose|k: int| first_occurrence(q, q, k);
    lemma_first_occurrence_unique(q, q, 0, k);
    let rest = q.skip(2);
    assert(rest =~= Seq::<char>::empty());
    assert(q.take(0) =~= Seq::<char>::empty());
    assert(!is_substring(q, rest));
    let e = Seq::<char>::empty();
    assert(trim_end_spec(e, '/') == e);
    assert(trim_start_spec(e, '/') == e);
    assert(t.subrange(0, 0) =~= e);
    assert(occurs_at(t, e, 0));
}

/// Every node matches the query `**`, as every node matches the empty query.
pub proof fn lemma_double_star_matches_every_node(name: Seq<char>, path: Seq<char>)
    ensures
        node_matches(double_star(), name, path),
        node_matches(Seq::empty(), name, path),
{
    reveal(node_matches);
    lemma_double_star_matches_all(name, lower_of(double_star()), lower_of(name));
}

} // verus!
