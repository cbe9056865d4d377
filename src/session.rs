//! The selection session: it owns the pattern configuration and the explicit
//! override sets, and keeps the overrides consistent under include, exclude
//! and toggle operations.

use vstd::prelude::*;
use crate::pattern::{
    compiles, decide, explains, path_set, should_include_path, views_of, CompiledMatcher,
    ConfigurationError,
};

verus! {

#[verifier::external_type_specification]
#[verifier::external_body]
pub struct ExJsonValue(serde_json::Value);

/// What `std::path::Path::strip_prefix` leaves of `path` below `root`, or
/// `path` itself where `root` is not a prefix of it.
pub uninterp spec fn relative_of(root: Seq<char>, path: Seq<char>) -> Seq<char>;

/// Relies on `std::path::Path::strip_prefix`: `path` made relative to `root`,
/// and `path` unchanged where `root` is not one of its leading components.
#[verifier::external_body]
fn relative_path(root: &str, path: &str) -> (r: String)
    ensures
        r@ == relative_of(root@, path@),
{
    let p = std::path::Path::new(path);
    p.strip_prefix(root).unwrap_or(p).to_string_lossy().into_owned()
}

/// Root-relative selection configuration: ordered inclusion and exclusion
/// glob lists, and the two sets of explicitly included and excluded paths.
#[derive(Debug, Clone)]
pub struct FilterConfig {
    pub path: String,
    pub include_patterns: Vec<String>,
    pub exclude_patterns: Vec<String>,
    pub explicit_includes: Vec<String>,
    pub explicit_excludes: Vec<String>,
}

impl FilterConfig {
    /// A configuration rooted at `path` with no pattern and no override.
    pub fn new(path: String) -> (r: FilterConfig)
        ensures
            r.path == path,
            r.include_patterns@.len() == 0,
            r.exclude_patterns@.len() == 0,
            r.explicit_includes@.len() == 0,
            r.explicit_excludes@.len() == 0,
    {
        FilterConfig {
            path,
            include_patterns: Vec::new(),
            exclude_patterns: Vec::new(),
            explicit_includes: Vec::new(),
            explicit_excludes: Vec::new(),
        }
    }

    /// No path is both explicitly included and explicitly excluded.
    pub open spec fn overrides_disjoint(&self) -> bool {
        path_set(self.explicit_includes@).disjoint(path_set(self.explicit_excludes@))
    }
}

/// The collected data about the code and the optional history information.
#[derive(Debug, Clone)]
pub struct SessionData {
    pub source_tree: Option<String>,
    pub files: Option<serde_json::Value>,
    pub stats: Option<serde_json::Value>,
    pub git_diff: Option<String>,
    pub git_diff_branch: Option<String>,
    pub git_log_branch: Option<String>,
}

impl Default for SessionData {
    fn default() -> (r: SessionData)
        ensures
            r.source_tree is None,
            r.files is None,
            r.stats is None,
            r.git_diff is None,
            r.git_diff_branch is None,
            r.git_log_branch is None,
    {
        SessionData {
            source_tree: None,
            files: None,
            stats: None,
            git_diff: None,
            git_diff_branch: None,
            git_log_branch: None,
        }
    }
}

/// The final rendered prompt and its metadata.
#[derive(Debug)]
pub struct RenderedPrompt {
    pub prompt: String,
    pub directory_name: String,
    pub token_count: usize,
    pub model_info: String,
    pub files: Vec<String>,
}

/// The override sets after `include(p)`.
pub open spec fn with_included(
    includes: Set<Seq<char>>,
    excludes: Set<Seq<char>>,
    p: Seq<char>,
) -> (Set<Seq<char>>, Set<Seq<char>>) {
    (includes.insert(p), excludes.remove(p))
}

/// The override sets after `exclude(p)`.
pub open spec fn with_excluded(
    includes: Set<Seq<char>>,
    excludes: Set<Seq<char>>,
    p: Seq<char>,
) -> (Set<Seq<char>>, Set<Seq<char>>) {
    (includes.remove(p), excludes.insert(p))
}

/// The override sets after `toggle(p)`: a path decided in is forced out, and
/// a path decided out is forced in.
pub open spec fn with_toggled(
    include_globs: Seq<Seq<char>>,
    exclude_globs: Seq<Seq<char>>,
    includes: Set<Seq<char>>,
    excludes: Set<Seq<char>>,
    p: Seq<char>,
) -> (Set<Seq<char>>, Set<Seq<char>>) {
    if decide(p, include_globs, exclude_globs, includes, excludes) {
        with_excluded(includes, excludes, p)
    } else {
        with_included(includes, excludes, p)
    }
}

/// Appending a string to a list adds its characters to the list's path set.
proof fn lemma_path_set_push(s: Seq<String>, x: String)
    ensures
        path_set(s.push(x)) == path_set(s).insert(x@),
{
    let t = s.push(x);
    assert forall|q: Seq<char>| path_set(t).contains(q) implies path_set(s).insert(x@).contains(q) by {
        let j = choose|j: int| 0 <= j < t.len() && (#[trigger] t[j])@ == q;
        if j < s.len() {
            assert(s[j] == t[j]);
        }
    }
    assert forall|q: Seq<char>| path_set(s).insert(x@).contains(q) implies path_set(t).contains(q) by {
        if q == x@ {
            assert(t[s.len() as int] == x);
        } else {
            let j = choose|j: int| 0 <= j < s.len() && (#[trigger] s[j])@ == q;
            assert(t[j] == s[j]);
        }
    }
    assert(path_set(t) =~= path_set(s).insert(x@));
}

/// Removes every occurrence of `p` from `list`.
fn remove_path(list: &mut Vec<String>, p: &String)
    ensures
        path_set(final(list)@) == path_set(old(list)@).remove(p@),
{
    let mut kept: Vec<String> = Vec::new();
    let mut i: usize = 0;
    while i < list.len()
        invariant
            i <= list@.len(),
            path_set(kept@) == path_set(list@.take(i as int)).remove(p@),
        decreases list.len() - i,
    {
        let ghost before = kept@;
        if list[i] != *p {
            kept.push(list[i].clone());
        }
        proof {
            let t1 = list@.take(i + 1);
            let t0 = list@.take(i as int);
            assert(t1 =~= t0.push(list@[i as int]));
            lemma_path_set_push(t0, list@[i as int]);
            if list@[i as int]@ != p@ {
                assert(kept@ =~= before.push(list@[i as int]));
                lemma_path_set_push(before, list@[i as int]);
            }
            assert(path_set(kept@) =~= path_set(t1).remove(p@));
        }
        i = i + 1;
    }
    assert(list@.take(list@.len() as int) =~= list@);
    *list = kept;
}

/// Adds `p` to `list` unless it is already there.
fn insert_path(list: &mut Vec<String>, p: String)
    ensures
        path_set(final(list)@) == path_set(old(list)@).insert(p@),
{
    if !crate::pattern::contains_path(list, p.as_str()) {
        let ghost before = list@;
        list.push(p);
        proof {
            lemma_path_set_push(before, p);
        }
    } else {
        assert(path_set(list@) =~= path_set(list@).insert(p@));
    }
}

/// A live selection session: the configuration, the override sets, and the
/// matchers compiled from the pattern lists.
#[derive(Debug)]
pub struct Code2PromptSession {
    pub config: FilterConfig,
    pub selected_files: Vec<String>,
    pub data: SessionData,
    pub include_matcher: CompiledMatcher,
    pub exclude_matcher: CompiledMatcher,
}

impl Code2PromptSession {
    /// The inclusion patterns that decisions currently go by.
    pub open spec fn include_globs(&self) -> Seq<Seq<char>> {
        self.include_matcher@
    }

    /// The exclusion patterns that decisions currently go by.
    pub open spec fn exclude_globs(&self) -> Seq<Seq<char>> {
        self.exclude_matcher@
    }

    /// The compiled matchers reflect the configured pattern lists.
    pub open spec fn patterns_applied(&self) -> bool {
        self.include_globs() == views_of(self.config.include_patterns@) && self.exclude_globs()
            == views_of(self.config.exclude_patterns@)
    }

    /// The explicitly included paths.
    pub open spec fn includes(&self) -> Set<Seq<char>> {
        path_set(self.config.explicit_includes@)
    }

    /// The explicitly excluded paths.
    pub open spec fn excludes(&self) -> Set<Seq<char>> {
        path_set(self.config.explicit_excludes@)
    }

    /// The decision for the root-relative path `rel` in this state.
    pub open spec fn decides(&self, rel: Seq<char>) -> bool {
        decide(rel, self.include_globs(), self.exclude_globs(), self.includes(), self.excludes())
    }

    /// `self` and `other` differ at most in their override sets.
    pub open spec fn same_but_overrides(&self, other: &Self) -> bool {
        &&& self.config.path == other.config.path
        &&& self.config.include_patterns == other.config.include_patterns
        &&& self.config.exclude_patterns == other.config.exclude_patterns
        &&& self.selected_files == other.selected_files
        &&& self.data == other.data
        &&& self.include_globs() == other.include_globs()
        &&& self.exclude_globs() == other.exclude_globs()
    }

    /// Starts a session on `config`; fails where a pattern list does not compile.
    pub fn new(config: FilterConfig) -> (r: Result<Self, ConfigurationError>)
        ensures
            r is Ok <==> compiles(views_of(config.include_patterns@)) && compiles(
                views_of(config.exclude_patterns@),
            ),
            match r {
                Ok(s) => s.config == config && s.patterns_applied() && s.selected_files@.len() == 0
                    && s.data.source_tree is None && s.data.files is None,
                Err(e) => explains(views_of(config.include_patterns@), e) || explains(
                    views_of(config.exclude_patterns@),
                    e,
                ),
            },
    {
        let include_matcher = match CompiledMatcher::compile(&config.include_patterns) {
            Ok(m) => m,
            Err(e) => return Err(e),
        };
        let exclude_matcher = match CompiledMatcher::compile(&config.exclude_patterns) {
            Ok(m) => m,
            Err(e) => return Err(e),
        };
        Ok(Code2PromptSession {
            config,
            selected_files: Vec::new(),
            data: SessionData::default(),
            include_matcher,
            exclude_matcher,
        })
    }

    /// Rebuilds both matchers from the configured pattern lists, for callers
    /// that edit the lists directly. Where a list does not compile the session
    /// is left as it was, previous matchers included.
    pub fn recompile_patterns(&mut self) -> (r: Result<(), ConfigurationError>)
        ensures
            r is Ok <==> compiles(views_of(old(self).config.include_patterns@)) && compiles(
                views_of(old(self).config.exclude_patterns@),
            ),
            match r {
                Ok(()) => final(self).patterns_applied() && final(self).config == old(self).config
                    && final(self).selected_files == old(self).selected_files && final(self).data
                    == old(self).data,
                Err(e) => *final(self) == *old(self) && (explains(
                    views_of(old(self).config.include_patterns@),
                    e,
                ) || explains(views_of(old(self).config.exclude_patterns@), e)),
            },
    {
        let include_matcher = match CompiledMatcher::compile(&self.config.include_patterns) {
            Ok(m) => m,
            Err(e) => return Err(e),
        };
        let exclude_matcher = match CompiledMatcher::compile(&self.config.exclude_patterns) {
            Ok(m) => m,
            Err(e) => return Err(e),
        };
        self.include_matcher = include_matcher;
        self.exclude_matcher = exclude_matcher;
        Ok(())
    }

    /// Whether `path` is currently included, after making it relative to the root.
    pub fn is_file_included(&self, path: &str) -> (r: bool)
        requires
            self.patterns_applied(),
        ensures
            r == self.decides(relative_of(self.config.path@, path@)),
    {
        let rel = relative_path(self.config.path.as_str(), path);
        should_include_path(
            rel.as_str(),
            &self.include_matcher,
            &self.exclude_matcher,
            &self.config.explicit_includes,
            &self.config.explicit_excludes,
        )
    }

    /// Forces `path` in: removes it from the exclusions and adds it to the inclusions.
    pub fn include_file(&mut self, path: String)
        ensures
            (final(self).includes(), final(self).excludes()) == with_included(
                old(self).includes(),
                old(self).excludes(),
                relative_of(old(self).config.path@, path@),
            ),
            old(self).config.overrides_disjoint() ==> final(self).config.overrides_disjoint(),
            final(self).same_but_overrides(old(self)),
    {
        let rel = relative_path(self.config.path.as_str(), path.as_str());
        remove_path(&mut self.config.explicit_excludes, &rel);
        insert_path(&mut self.config.explicit_includes, rel);
        proof {
            if old(self).config.overrides_disjoint() {
                lemma_overrides_stay_disjoint(
                    relative_of(old(self).config.path@, path@),
                    old(self).include_globs(),
                    old(self).exclude_globs(),
                    old(self).includes(),
                    old(self).excludes(),
                );
            }
        }
    }

    /// Forces `path` out: removes it from the inclusions and adds it to the exclusions.
    pub fn exclude_file(&mut self, path: String)
        ensures
            (final(self).includes(), final(self).excludes()) == with_excluded(
                old(self).includes(),
                old(self).excludes(),
                relative_of(old(self).config.path@, path@),
            ),
            old(self).config.overrides_disjoint() ==> final(self).config.overrides_disjoint(),
            final(self).same_but_overrides(old(self)),
    {
        let rel = relative_path(self.config.path.as_str(), path.as_str());
        remove_path(&mut self.config.explicit_includes, &rel);
        insert_path(&mut self.config.explicit_excludes, rel);
        proof {
            if old(self).config.overrides_disjoint() {
                lemma_overrides_stay_disjoint(
                    relative_of(old(self).config.path@, path@),
                    old(self).include_globs(),
                    old(self).exclude_globs(),
                    old(self).includes(),
                    old(self).excludes(),
                );
            }
        }
    }

    /// Flips the decision on `path`: a path included now is explicitly
    /// excluded, a path excluded now is explicitly included.
    pub fn toggle_file(&mut self, path: String)
        requires
            old(self).patterns_applied(),
        ensures
            (final(self).includes(), final(self).excludes()) == with_toggled(
                old(self).include_globs(),
                old(self).exclude_globs(),
                old(self).includes(),
                old(self).excludes(),
                relative_of(old(self).config.path@, path@),
            ),
            old(self).config.overrides_disjoint() ==> final(self).config.overrides_disjoint(),
            final(self).same_but_overrides(old(self)),
    {
        if self.is_file_included(path.as_str()) {
            self.exclude_file(path);
        } else {
            self.include_file(path);
        }
    }

    /// Drops every explicit override, so that patterns alone decide.
    pub fn clear_explicit_overrides(&mut self)
        ensures
            final(self).config.explicit_includes@.len() == 0,
            final(self).config.explicit_excludes@.len() == 0,
            final(self).same_but_overrides(old(self)),
    {
        self.config.explicit_includes.clear();
        self.config.explicit_excludes.clear();
    }

    /// Appends an inclusion pattern, then recompiles the inclusion matcher. The
    /// append always happens; where the longer list does not compile, the
    /// previous matcher is kept and the error is returned.
    pub fn add_include_pattern(&mut self, pattern: String) -> (r: Result<(), ConfigurationError>)
        ensures
            r is Ok <==> compiles(views_of(old(self).config.include_patterns@.push(pattern))),
            final(self).config.include_patterns@ == old(self).config.include_patterns@.push(pattern),
            match r {
                Ok(()) => final(self).include_globs() == views_of(final(self).config.include_patterns@),
                Err(e) => final(self).include_globs() == old(self).include_globs() && explains(
                    views_of(final(self).config.include_patterns@),
                    e,
                ),
            },
            final(self).config.exclude_patterns == old(self).config.exclude_patterns,
            final(self).config.path == old(self).config.path,
            final(self).config.explicit_includes == old(self).config.explicit_includes,
            final(self).config.explicit_excludes == old(self).config.explicit_excludes,
            final(self).exclude_globs() == old(self).exclude_globs(),
            final(self).selected_files == old(self).selected_files,
            final(self).data == old(self).data,
    {
        self.config.include_patterns.push(pattern);
        match CompiledMatcher::compile(&self.config.include_patterns) {
            Ok(m) => {
                self.include_matcher = m;
                Ok(())
            },
            Err(e) => Err(e),
        }
    }

    /// Appends an exclusion pattern, then recompiles the exclusion matcher. The
    /// append always happens; where the longer list does not compile, the
    /// previous matcher is kept and the error is returned.
    pub fn add_exclude_pattern(&mut self, pattern: String) -> (r: Result<(), ConfigurationError>)
        ensures
            r is Ok <==> compiles(views_of(old(self).config.exclude_patterns@.push(pattern))),
            final(self).config.exclude_patterns@ == old(self).config.exclude_patterns@.push(pattern),
            match r {
                Ok(()) => final(self).exclude_globs() == views_of(final(self).config.exclude_patterns@),
                Err(e) => final(self).exclude_globs() == old(self).exclude_globs() && explains(
                    views_of(final(self).config.exclude_patterns@),
                    e,
                ),
            },
            final(self).config.include_patterns == old(self).config.include_patterns,
            final(self).config.path == old(self).config.path,
            final(self).config.explicit_includes == old(self).config.explicit_includes,
            final(self).config.explicit_excludes == old(self).config.explicit_excludes,
            final(self).include_globs() == old(self).include_globs(),
            final(self).selected_files == old(self).selected_files,
            final(self).data == old(self).data,
    {
        self.config.exclude_patterns.push(pattern);
        match CompiledMatcher::compile(&self.config.exclude_patterns) {
            Ok(m) => {
                self.exclude_matcher = m;
                Ok(())
            },
            Err(e) => Err(e),
        }
    }
}

/// An explicitly excluded path is excluded, whatever the patterns say.
pub proof fn lemma_explicit_exclude_wins(
    p: Seq<char>,
    include_globs: Seq<Seq<char>>,
    exclude_globs: Seq<Seq<char>>,
    includes: Set<Seq<char>>,
    excludes: Set<Seq<char>>,
)
    requires
        excludes.contains(p),
    ensures
        !decide(p, include_globs, exclude_globs, includes, excludes),
{
}

/// An explicitly included path that is not explicitly excluded is included.
pub proof fn lemma_explicit_include_wins(
    p: Seq<char>,
    include_globs: Seq<Seq<char>>,
    exclude_globs: Seq<Seq<char>>,
    includes: Set<Seq<char>>,
    excludes: Set<Seq<char>>,
)
    requires
        includes.contains(p),
        !excludes.contains(p),
    ensures
        decide(p, include_globs, exclude_globs, includes, excludes),
{
}

/// Toggling a path twice gives it back the decision it had before.
pub proof fn lemma_toggle_twice_restores(
    p: Seq<char>,
    include_globs: Seq<Seq<char>>,
    exclude_globs: Seq<Seq<char>>,
    includes: Set<Seq<char>>,
    excludes: Set<Seq<char>>,
)
    ensures
        ({
            let once = with_toggled(include_globs, exclude_globs, includes, excludes, p);
            let twice = with_toggled(include_globs, exclude_globs, once.0, once.1, p);
            decide(p, include_globs, exclude_globs, twice.0, twice.1) == decide(
                p,
                include_globs,
                exclude_globs,
                includes,
                excludes,
            )
        }),
{
}

/// Including and then excluding a path leaves it excluded and not included.
pub proof fn lemma_include_then_exclude(
    p: Seq<char>,
    includes: Set<Seq<char>>,
    excludes: Set<Seq<char>>,
)
    ensures
        ({
            let a = with_included(includes, excludes, p);
            let b = with_excluded(a.0, a.1, p);
            !b.0.contains(p) && b.1.contains(p)
        }),
{
}

/// Include, exclude and toggle keep the two override sets disjoint.
pub proof fn lemma_overrides_stay_disjoint(
    p: Seq<char>,
    include_globs: Seq<Seq<char>>,
    exclude_globs: Seq<Seq<char>>,
    includes: Set<Seq<char>>,
    excludes: Set<Seq<char>>,
)
    requires
        includes.disjoint(excludes),
    ensures
        with_included(includes, excludes, p).0.disjoint(with_included(includes, excludes, p).1),
        with_excluded(includes, excludes, p).0.disjoint(with_excluded(includes, excludes, p).1),
        with_toggled(include_globs, exclude_globs, includes, excludes, p).0.disjoint(
            with_toggled(include_globs, exclude_globs, includes, excludes, p).1,
        ),
{
}

} // verus!
