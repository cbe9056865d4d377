//! Glob pattern lists compiled into matchers, and the inclusion resolver that
//! combines them with explicit per-path overrides.

use vstd::prelude::*;

verus! {

#[verifier::external_type_specification]
#[verifier::external_body]
pub struct ExGlobError(globset::Error);

#[verifier::external_type_specification]
#[verifier::external_body]
pub struct ExGlobSet(globset::GlobSet);

#[verifier::external_type_specification]
#[verifier::external_body]
pub struct ExGlobSetBuilder(globset::GlobSetBuilder);

/// Whether `globset::Glob::new` accepts the pattern.
pub uninterp spec fn glob_valid(pattern: Seq<char>) -> bool;

/// Whether the glob of a valid pattern matches a path, as a `globset::GlobSet`
/// holding it decides.
pub uninterp spec fn glob_matches(pattern: Seq<char>, path: Seq<char>) -> bool;

/// Whether `globset::GlobSet::new` succeeds on the globs of these valid
/// patterns, in this order.
pub uninterp spec fn glob_set_builds(patterns: Seq<Seq<char>>) -> bool;

/// The patterns added to a builder so far, in order.
pub uninterp spec fn builder_patterns(b: globset::GlobSetBuilder) -> Seq<Seq<char>>;

/// The patterns a set was built from, in order.
pub uninterp spec fn set_patterns(s: globset::GlobSet) -> Seq<Seq<char>>;

/// The most characters, over all patterns of one list, that a set is built from.
/// It keeps the literal automata that `GlobSet::new` builds (and unwraps) far
/// below their state limits.
pub const MAX_PATTERN_CHARS: usize = 1048576;

/// The most `{` characters a pattern may hold. Each one can open a nested
/// alternation, which `globset` turns into regex text by one level of
/// recursion; regexes nested much deeper than this fail to compile anyway.
pub const MAX_GLOB_BRACES: usize = 200;

/// The number of `{` characters in a pattern, an upper bound on its nesting
/// of alternations.
pub open spec fn brace_count(pattern: Seq<char>) -> int
    decreases pattern.len(),
{
    if pattern.len() == 0 {
        0
    } else {
        brace_count(pattern.drop_last()) + if pattern.last() == '{' {
            1int
        } else {
            0int
        }
    }
}

/// The number of `{` characters in a pattern.
pub fn count_braces(pattern: &str) -> (r: usize)
    ensures
        r == brace_count(pattern@),
{
    let cs = crate::text::chars_of(pattern);
    let mut n: usize = 0;
    let mut i: usize = 0;
    assert(cs@.take(0) =~= Seq::<char>::empty());
    while i < cs.len()
        invariant
            i <= cs@.len(),
            n <= i,
            n == brace_count(cs@.take(i as int)),
        decreases cs.len() - i,
    {
        assert(cs@.take(i + 1).drop_last() =~= cs@.take(i as int));
        if cs[i] == '{' {
            n = n + 1;
        }
        i = i + 1;
    }
    assert(cs@.take(cs@.len() as int) =~= cs@);
    n
}

/// Relies on `globset::GlobSetBuilder::new`: a builder holding no pattern.
#[verifier::external_body]
fn new_builder() -> (r: globset::GlobSetBuilder)
    ensures
        builder_patterns(r) == Seq::<Seq<char>>::empty(),
{
    globset::GlobSetBuilder::new()
}

/// Relies on `globset::Glob::new`, which fails exactly on the patterns it
/// rejects, and on `GlobSetBuilder::add`, which appends the parsed glob.
/// `Glob::new` recurses once per nested alternation, hence the bound on `{`.
#[verifier::external_body]
fn add_pattern(b: &mut globset::GlobSetBuilder, pattern: &str) -> (r: Result<(), globset::Error>)
    requires
        brace_count(pattern@) <= MAX_GLOB_BRACES,
    ensures
        r is Ok == glob_valid(pattern@),
        r is Ok ==> builder_patterns(*final(b)) == builder_patterns(*old(b)).push(pattern@),
        r is Err ==> builder_patterns(*final(b)) == builder_patterns(*old(b)),
{
    match globset::Glob::new(pattern) {
        Ok(g) => {
            b.add(g);
            Ok(())
        },
        Err(e) => Err(e),
    }
}

/// Relies on `globset::GlobSetBuilder::build` (that is, `GlobSet::new`): it
/// compiles the added globs, failing where a regex cannot be built.
#[verifier::external_body]
fn build_set(b: &globset::GlobSetBuilder) -> (r: Result<globset::GlobSet, globset::Error>)
    requires
        total_chars(builder_patterns(*b)) <= MAX_PATTERN_CHARS,
    ensures
        r is Ok == glob_set_builds(builder_patterns(*b)),
        r matches Ok(s) ==> set_patterns(s) == builder_patterns(*b),
{
    b.build()
}

/// Relies on `globset::GlobSet::is_match`: whether any glob of the set matches the path.
#[verifier::external_body]
fn set_is_match(s: &globset::GlobSet, path: &str) -> (r: bool)
    ensures
        r == (exists|i: int| 0 <= i < set_patterns(*s).len() && glob_matches(#[trigger] set_patterns(*s)[i], path@)),
{
    s.is_match(path)
}

/// The number of characters over all patterns of a list.
pub open spec fn total_chars(patterns: Seq<Seq<char>>) -> int
    decreases patterns.len(),
{
    if patterns.len() == 0 {
        0
    } else {
        total_chars(patterns.drop_last()) + patterns.last().len()
    }
}

/// A pattern list could not be compiled.
#[derive(Debug, Clone, PartialEq, Eq)]
pub enum ConfigurationError {
    /// `pattern` is the first entry not accepted, and is not a valid glob.
    InvalidPattern { pattern: String },
    /// `pattern` is the first entry not accepted, and holds more than
    /// `MAX_GLOB_BRACES` characters `{`.
    TooNested { pattern: String },
    /// Every pattern is valid, but together they are too large to compile.
    TooLarge,
}

/// The character sequences of a list of strings.
pub open spec fn views_of(v: Seq<String>) -> Seq<Seq<char>> {
    v.map_values(|s: String| s@)
}

/// Some pattern of the list matches the path.
pub open spec fn any_matches(patterns: Seq<Seq<char>>, path: Seq<char>) -> bool {
    exists|i: int| 0 <= i < patterns.len() && glob_matches(#[trigger] patterns[i], path)
}

/// A pattern is accepted: it is not nested too deeply and is a valid glob.
pub open spec fn acceptable(pattern: Seq<char>) -> bool {
    brace_count(pattern) <= MAX_GLOB_BRACES && glob_valid(pattern)
}

/// Every pattern of the list is accepted.
pub open spec fn all_valid(patterns: Seq<Seq<char>>) -> bool {
    forall|i: int| 0 <= i < patterns.len() ==> acceptable(#[trigger] patterns[i])
}

/// `k` is the first pattern of the list that is not accepted.
pub open spec fn first_unacceptable(patterns: Seq<Seq<char>>, k: int) -> bool {
    0 <= k < patterns.len() && !acceptable(patterns[k]) && forall|j: int|
        0 <= j < k ==> acceptable(#[trigger] patterns[j])
}

/// The pattern list compiles into a matcher.
pub open spec fn compiles(patterns: Seq<Seq<char>>) -> bool {
    all_valid(patterns) && total_chars(patterns) <= MAX_PATTERN_CHARS && glob_set_builds(
        patterns,
    )
}

/// `e` is the error that compiling `patterns` reports.
pub open spec fn explains(patterns: Seq<Seq<char>>, e: ConfigurationError) -> bool {
    match e {
        ConfigurationError::InvalidPattern { pattern } => exists|k: int|
            first_unacceptable(patterns, k) && pattern@ == patterns[k] && brace_count(patterns[k])
                <= MAX_GLOB_BRACES,
        ConfigurationError::TooNested { pattern } => exists|k: int|
            first_unacceptable(patterns, k) && pattern@ == patterns[k] && brace_count(patterns[k])
                > MAX_GLOB_BRACES,
        ConfigurationError::TooLarge => all_valid(patterns) && !compiles(patterns),
    }
}

/// A compiled, read-only matcher for an ordered list of valid glob patterns.
/// It matches a path when any of its patterns does.
#[derive(Debug)]
pub struct CompiledMatcher {
    patterns: Vec<String>,
    set: globset::GlobSet,
}

impl View for CompiledMatcher {
    type V = Seq<Seq<char>>;

    closed spec fn view(&self) -> Seq<Seq<char>> {
        views_of(self.patterns@)
    }
}

impl CompiledMatcher {
    #[verifier::type_invariant]
    spec fn inv(&self) -> bool {
        set_patterns(self.set) == views_of(self.patterns@)
    }

    /// Compiles a pattern list. It fails on the first pattern that is nested
    /// too deeply or is not a valid glob, and otherwise where the whole list
    /// cannot be compiled.
    pub fn compile(patterns: &Vec<String>) -> (r: Result<CompiledMatcher, ConfigurationError>)
        ensures
            r is Ok <==> compiles(views_of(patterns@)),
            match r {
                Ok(m) => m@ == views_of(patterns@),
                Err(e) => explains(views_of(patterns@), e),
            },
    {
        let ghost ps = views_of(patterns@);
        let mut builder = new_builder();
        let mut kept: Vec<String> = Vec::new();
        let mut total: usize = 0;
        let mut too_large = false;
        let mut i: usize = 0;
        assert(ps.take(0) =~= Seq::<Seq<char>>::empty());
        while i < patterns.len()
            invariant
                i <= patterns.len(),
                ps == views_of(patterns@),
                kept@ == patterns@.take(i as int),
                builder_patterns(builder) == ps.take(i as int),
                forall|j: int| 0 <= j < i ==> acceptable(#[trigger] ps[j]),
                !too_large ==> total == total_chars(ps.take(i as int)) && total <= MAX_PATTERN_CHARS,
                too_large ==> total_chars(ps.take(i as int)) > MAX_PATTERN_CHARS,
            decreases patterns.len() - i,
        {
            let ghost t = ps.take(i + 1);
            proof {
                assert(t.drop_last() =~= ps.take(i as int));
                assert(t.last() == ps[i as int]);
            }
            if count_braces(patterns[i].as_str()) > MAX_GLOB_BRACES {
                let e = ConfigurationError::TooNested { pattern: patterns[i].clone() };
                assert(first_unacceptable(ps, i as int));
                assert(explains(ps, e));
                return Err(e);
            }
            match add_pattern(&mut builder, patterns[i].as_str()) {
                Ok(()) => {},
                Err(_) => {
                    let e = ConfigurationError::InvalidPattern { pattern: patterns[i].clone() };
                    assert(first_unacceptable(ps, i as int));
                    assert(explains(ps, e));
                    return Err(e);
                },
            }
            let n = crate::text::chars_of(patterns[i].as_str()).len();
            if !too_large {
                if n > MAX_PATTERN_CHARS - total {
                    too_large = true;
                } else {
                    total = total + n;
                }
            }
            kept.push(patterns[i].clone());
            proof {
                assert(patterns@.take(i + 1) =~= patterns@.take(i as int).push(patterns@[i as int]));
                assert(ps.take(i as int).push(ps[i as int]) =~= t);
            }
            i = i + 1;
        }
        assert(ps.take(patterns@.len() as int) =~= ps);
        assert(kept@ =~= patterns@);
        if too_large {
            let e = ConfigurationError::TooLarge;
            assert(explains(ps, e));
            return Err(e);
        }
        match build_set(&builder) {
            Ok(set) => {
                let m = CompiledMatcher { patterns: kept, set };
                assert(m@ =~= ps);
                Ok(m)
            },
            Err(_) => {
                let e = ConfigurationError::TooLarge;
                assert(explains(ps, e));
                Err(e)
            },
        }
    }

    /// Whether the matcher was compiled from no pattern at all.
    pub fn is_empty(&self) -> (r: bool)
        ensures
            r == (self@.len() == 0),
    {
        self.patterns.len() == 0
    }

    /// Whether any pattern matches `path`.
    pub fn is_match(&self, path: &str) -> (r: bool)
        ensures
            r == any_matches(self@, path@),
    {
        proof {
            use_type_invariant(self);
        }
        set_is_match(&self.set, path)
    }
}

/// The set of paths listed in `v`.
pub open spec fn path_set(v: Seq<String>) -> Set<Seq<char>> {
    Set::new(|p: Seq<char>| exists|i: int| 0 <= i < v.len() && (#[trigger] v[i])@ == p)
}

/// The precedence rules, highest first: an explicit exclusion, an explicit
/// inclusion, an exclusion pattern that matches while no inclusion pattern
/// does (or none is configured), an inclusion pattern that matches (or none
/// is configured); anything else is excluded.
pub open spec fn resolve(
    explicitly_excluded: bool,
    explicitly_included: bool,
    include_matched: bool,
    exclude_matched: bool,
    no_include_patterns: bool,
) -> bool {
    if explicitly_excluded {
        false
    } else if explicitly_included {
        true
    } else if exclude_matched && (!include_matched || no_include_patterns) {
        false
    } else if include_matched || no_include_patterns {
        true
    } else {
        false
    }
}

/// The inclusion decision for a root-relative path.
pub open spec fn decide(
    path: Seq<char>,
    include_globs: Seq<Seq<char>>,
    exclude_globs: Seq<Seq<char>>,
    explicit_includes: Set<Seq<char>>,
    explicit_excludes: Set<Seq<char>>,
) -> bool {
    resolve(
        explicit_excludes.contains(path),
        explicit_includes.contains(path),
        any_matches(include_globs, path),
        any_matches(exclude_globs, path),
        include_globs.len() == 0,
    )
}

/// Applies the precedence rules to what is known of a path.
pub fn resolve_inclusion(
    explicitly_excluded: bool,
    explicitly_included: bool,
    include_matched: bool,
    exclude_matched: bool,
    no_include_patterns: bool,
) -> (r: bool)
    ensures
        r == resolve(
            explicitly_excluded,
            explicitly_included,
            include_matched,
            exclude_matched,
            no_include_patterns,
        ),
{
    if explicitly_excluded {
        false
    } else if explicitly_included {
        true
    } else if exclude_matched && (!include_matched || no_include_patterns) {
        false
    } else {
        include_matched || no_include_patterns
    }
}

/// Whether `list` holds `path`.
pub fn contains_path(list: &Vec<String>, path: &str) -> (r: bool)
    ensures
        r == path_set(list@).contains(path@),
{
    let p = path.to_owned();
    let mut i: usize = 0;
    while i < list.len()
        invariant
            i <= list@.len(),
            p@ == path@,
            forall|j: int| 0 <= j < i ==> (#[trigger] list@[j])@ != path@,
        decreases list.len() - i,
    {
        if list[i] == p {
            return true;
        }
        i = i + 1;
    }
    false
}

/// The inclusion decision for a root-relative path.
pub fn should_include_path(
    path: &str,
    include_globs: &CompiledMatcher,
    exclude_globs: &CompiledMatcher,
    explicit_includes: &Vec<String>,
    explicit_excludes: &Vec<String>,
) -> (r: bool)
    ensures
        r == decide(
            path@,
            include_globs@,
            exclude_globs@,
            path_set(explicit_includes@),
            path_set(explicit_excludes@),
        ),
{
    if contains_path(explicit_excludes, path) {
        return false;
    }
    if contains_path(explicit_includes, path) {
        return true;
    }
    let included = include_globs.is_match(path);
    let excluded = exclude_globs.is_match(path);
    resolve_inclusion(false, false, included, excluded, include_globs.is_empty())
}

} // verus!
