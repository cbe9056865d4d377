//! Template variable bookkeeping: the built-in variables, the ones the user
//! defined, and those a template uses without any definition.

use vstd::prelude::*;
use crate::text::{chars_of, lex_lt, lex_lt_exec};

verus! {

/// Where a template variable comes from.
#[derive(Debug, Clone, Copy, PartialEq, Eq, Structural)]
pub enum VariableCategory {
    System,
    User,
    Missing,
}

/// A template variable as displayed.
#[derive(Debug, Clone)]
pub struct VariableInfo {
    pub name: String,
    pub value: Option<String>,
    pub category: VariableCategory,
    pub description: Option<String>,
}

/// The value of a displayed variable.
pub struct InfoModel {
    pub name: Seq<char>,
    pub value: Option<Seq<char>>,
    pub category: VariableCategory,
    pub description: Option<Seq<char>>,
}

/// The characters of an optional string.
pub open spec fn opt_view(o: Option<String>) -> Option<Seq<char>> {
    match o {
        Some(s) => Some(s@),
        None => None,
    }
}

/// The value of a displayed variable.
pub open spec fn info_view(v: VariableInfo) -> InfoModel {
    InfoModel {
        name: v.name@,
        value: opt_view(v.value),
        category: v.category,
        description: opt_view(v.description),
    }
}

/// The values of a list of displayed variables.
pub open spec fn infos_view(v: Seq<VariableInfo>) -> Seq<InfoModel> {
    Seq::new(v.len(), |i: int| info_view(v[i]))
}

/// `i` is the first entry of `v` whose name is `k`.
pub open spec fn first_key_index(v: Seq<(String, String)>, k: Seq<char>, i: int) -> bool {
    0 <= i < v.len() && v[i].0@ == k && forall|j: int| 0 <= j < i ==> (#[trigger] v[j]).0@ != k
}

/// The value that the association list `v` gives to the name `k`.
pub open spec fn lookup(v: Seq<(String, String)>, k: Seq<char>) -> Option<Seq<char>> {
    if exists|i: int| first_key_index(v, k, i) {
        Some(v[choose|i: int| first_key_index(v, k, i)].1@)
    } else {
        None
    }
}

proof fn lemma_first_key_index_unique(v: Seq<(String, String)>, k: Seq<char>, i: int, j: int)
    requires
        first_key_index(v, k, i),
        first_key_index(v, k, j),
    ensures
        i == j,
{
    if i < j {
        assert(v[i].0@ != k);
    }
    if j < i {
        assert(v[j].0@ != k);
    }
}

proof fn lemma_lookup_at(v: Seq<(String, String)>, k: Seq<char>, i: int)
    requires
        first_key_index(v, k, i),
    ensures
        lookup(v, k) == Some(v[i].1@),
{
    let c = choose|i: int| first_key_index(v, k, i);
    lemma_first_key_index_unique(v, k, i, c);
}

proof fn lemma_same_keys(a: Seq<(String, String)>, b: Seq<(String, String)>, k: Seq<char>, j: int)
    requires
        a.len() <= b.len(),
        0 <= j < a.len(),
        forall|i: int| 0 <= i < a.len() ==> (#[trigger] b[i]).0@ == a[i].0@,
    ensures
        first_key_index(a, k, j) == first_key_index(b, k, j),
{
    if first_key_index(a, k, j) {
        assert forall|i: int| 0 <= i < j implies (#[trigger] b[i]).0@ != k by {
            assert(a[i].0@ != k);
        }
    }
    if first_key_index(b, k, j) {
        assert forall|i: int| 0 <= i < j implies (#[trigger] a[i]).0@ != k by {
            assert(b[i].0@ != k);
        }
    }
}

/// The first entry named `k`, if any.
fn find_key(v: &Vec<(String, String)>, k: &String) -> (r: Option<usize>)
    ensures
        match r {
            Some(i) => first_key_index(v@, k@, i as int) && lookup(v@, k@) == Some(v@[i as int].1@),
            None => lookup(v@, k@) is None && forall|j: int| 0 <= j < v@.len() ==> (#[trigger] v@[j]).0@ != k@,
        },
{
    let mut i: usize = 0;
    while i < v.len()
        invariant
            i <= v@.len(),
            forall|j: int| 0 <= j < i ==> (#[trigger] v@[j]).0@ != k@,
        decreases v.len() - i,
    {
        if v[i].0 == *k {
            proof {
                lemma_lookup_at(v@, k@, i as int);
            }
            return Some(i);
        }
        i = i + 1;
    }
    None
}

/// No two entries of the association list share a name.
pub open spec fn unique_keys(v: Seq<(String, String)>) -> bool {
    forall|i: int, j: int| 0 <= i < j < v.len() ==> (#[trigger] v[i]).0@ != (#[trigger] v[j]).0@
}

/// An association list whose first entries keep their names (and, but for
/// the name `key`, their values), and whose further entries are all named
/// `key`, gives every other name the same value.
proof fn lemma_lookup_unchanged(old_v: Seq<(String, String)>, nv: Seq<(String, String)>, key: Seq<char>)
    requires
        old_v.len() <= nv.len(),
        forall|j: int| 0 <= j < old_v.len() ==> (#[trigger] nv[j]).0@ == old_v[j].0@,
        forall|j: int| 0 <= j < old_v.len() && nv[j].0@ != key ==> (#[trigger] nv[j]).1@ == old_v[j].1@,
        forall|j: int| old_v.len() <= j < nv.len() ==> (#[trigger] nv[j]).0@ == key,
    ensures
        forall|k: Seq<char>| k != key ==> lookup(nv, k) == lookup(old_v, k),
{
    assert forall|k: Seq<char>| k != key implies lookup(nv, k) == lookup(old_v, k) by {
        if exists|j: int| first_key_index(old_v, k, j) {
            let j = choose|j: int| first_key_index(old_v, k, j);
            lemma_same_keys(old_v, nv, k, j);
            lemma_lookup_at(old_v, k, j);
            lemma_lookup_at(nv, k, j);
        } else {
            assert forall|j: int| !first_key_index(nv, k, j) by {
                if 0 <= j < old_v.len() {
                    lemma_same_keys(old_v, nv, k, j);
                }
            }
        }
    }
}

/// The names a template uses that neither list defines, in template order.
pub open spec fn unknown_names(
    names: Seq<String>,
    system: Seq<(String, String)>,
    user: Seq<(String, String)>,
) -> Seq<Seq<char>>
    decreases names.len(),
{
    if names.len() == 0 {
        Seq::empty()
    } else {
        let rest = unknown_names(names.drop_last(), system, user);
        let n = names.last()@;
        if lookup(system, n) is None && lookup(user, n) is None {
            rest.push(n)
        } else {
            rest
        }
    }
}

/// Where a stable insertion puts `x` in `s`: before the first element that sorts after it.
pub open spec fn name_insert_pos(x: Seq<char>, s: Seq<Seq<char>>) -> int
    decreases s.len(),
{
    if s.len() == 0 {
        0
    } else if lex_lt(x, s[0]) {
        0
    } else {
        1 + name_insert_pos(x, s.drop_first())
    }
}

/// `s` sorted in ascending order.
pub open spec fn sort_names(s: Seq<Seq<char>>) -> Seq<Seq<char>>
    decreases s.len(),
{
    if s.len() == 0 {
        s
    } else {
        let t = sort_names(s.drop_last());
        t.insert(name_insert_pos(s.last(), t), s.last())
    }
}

proof fn lemma_name_insert_pos(x: Seq<char>, s: Seq<Seq<char>>, j: int)
    requires
        0 <= j <= s.len(),
        forall|k: int| 0 <= k < j ==> !lex_lt(x, #[trigger] s[k]),
        j < s.len() ==> lex_lt(x, s[j]),
    ensures
        name_insert_pos(x, s) == j,
    decreases j,
{
    if j > 0 {
        let t = s.drop_first();
        assert forall|k: int| 0 <= k < j - 1 implies !lex_lt(x, #[trigger] t[k]) by {
            assert(t[k] == s[k + 1]);
        }
        if j - 1 < t.len() {
            assert(t[j - 1] == s[j]);
        }
        lemma_name_insert_pos(x, t, j - 1);
        assert(!lex_lt(x, s[0]));
    }
}

/// The characters of each string of a list.
pub open spec fn names_view(v: Seq<String>) -> Seq<Seq<char>> {
    Seq::new(v.len(), |i: int| v[i]@)
}

/// The built-in variables and their descriptions.
pub open spec fn default_system_variables() -> Seq<(Seq<char>, Seq<char>)> {
    seq![
        ("absolute_code_path"@, "Path to the codebase directory"@),
        ("source_tree"@, "Directory tree structure"@),
        ("files"@, "Array of file objects with content"@),
        ("git_diff"@, "Git diff output (if enabled)"@),
        ("git_diff_branch"@, "Git diff between branches"@),
        ("git_log_branch"@, "Git log between branches"@),
        ("path"@, "File path (available in {{#each files}} context)"@),
        ("code"@, "File content (available in {{#each files}} context)"@),
        ("extension"@, "File extension (available in {{#each files}} context)"@),
        ("token_count"@, "Token count for file (available in {{#each files}} context)"@),
        ("metadata"@, "File metadata (available in {{#each files}} context)"@),
        ("mod_time"@, "File modification time (available in {{#each files}} context)"@),
    ]
}

/// The built-in variable names are pairwise distinct.
proof fn lemma_default_names_distinct()
    ensures
        forall|i: int, j: int|
            0 <= i < j < default_system_variables().len() ==> (#[trigger] default_system_variables()[i]).0
                != (#[trigger] default_system_variables()[j]).0,
{
    reveal_strlit("absolute_code_path");
    reveal_strlit("source_tree");
    reveal_strlit("files");
    reveal_strlit("git_diff");
    reveal_strlit("git_diff_branch");
    reveal_strlit("git_log_branch");
    reveal_strlit("path");
    reveal_strlit("code");
    reveal_strlit("extension");
    reveal_strlit("token_count");
    reveal_strlit("metadata");
    reveal_strlit("mod_time");
    let d = default_system_variables();
    assert(d.len() == 12);
    assert(d[0].0[0] == 'a' && d[1].0[0] == 's' && d[2].0[0] == 'f' && d[3].0[0] == 'g');
    assert(d[4].0[0] == 'g' && d[5].0[0] == 'g' && d[6].0[0] == 'p' && d[7].0[0] == 'c');
    assert(d[8].0[0] == 'e' && d[9].0[0] == 't' && d[10].0[0] == 'm' && d[11].0[0] == 'm');
    assert(d[3].0.len() == 8 && d[4].0.len() == 15 && d[5].0.len() == 14);
    assert(d[10].0[1] == 'e' && d[11].0[1] == 'o');
}

/// The characters of each name and value of an association list.
pub open spec fn pairs_view(v: Seq<(String, String)>) -> Seq<(Seq<char>, Seq<char>)> {
    Seq::new(v.len(), |i: int| (v[i].0@, v[i].1@))
}

/// Relies on `String::push`: appends one character.
#[verifier::external_body]
fn push_char(s: &mut String, c: char)
    ensures
        final(s)@ == old(s)@.push(c),
{
    s.push(c)
}

/// Relies on `String::pop`: removes and returns the last character, if any.
#[verifier::external_body]
fn pop_char(s: &mut String) -> (r: Option<char>)
    ensures
        old(s)@.len() == 0 ==> r is None && final(s)@ == old(s)@,
        old(s)@.len() > 0 ==> r == Some(old(s)@.last()) && final(s)@ == old(s)@.drop_last(),
{
    s.pop()
}

/// State of the template variable editor.
#[derive(Debug, Clone)]
pub struct VariableState {
    pub system_variables: Vec<(String, String)>,
    pub user_variables: Vec<(String, String)>,
    pub missing_variables: Vec<String>,
    pub cursor: usize,
    pub editing_variable: Option<String>,
    pub variable_input_content: String,
    pub show_variable_input: bool,
}

impl Default for VariableState {
    fn default() -> (r: VariableState)
        ensures
            pairs_view(r.system_variables@) == default_system_variables(),
            unique_keys(r.system_variables@),
            unique_keys(r.user_variables@),
            r.user_variables@.len() == 0,
            r.missing_variables@.len() == 0,
            r.cursor == 0,
            r.editing_variable is None,
            r.variable_input_content@.len() == 0,
            !r.show_variable_input,
    {
        VariableState {
            system_variables: Self::get_default_system_variables(),
            user_variables: Vec::new(),
            missing_variables: Vec::new(),
            cursor: 0,
            editing_variable: None,
            variable_input_content: String::new(),
            show_variable_input: false,
        }
    }
}


/// The entries shown for `names`: the built-in ones the template uses, then
/// the user-defined ones it uses, in template order.
pub open spec fn known_infos(
    names: Seq<String>,
    v: Seq<(String, String)>,
    category: VariableCategory,
) -> Seq<InfoModel>
    decreases names.len(),
{
    if names.len() == 0 {
        Seq::empty()
    } else {
        let rest = known_infos(names.drop_last(), v, category);
        let n = names.last()@;
        match lookup(v, n) {
            Some(x) => rest.push(
                if category == VariableCategory::System {
                    InfoModel {
                        name: n,
                        value: Some("(system)"@),
                        category,
                        description: Some(x),
                    }
                } else {
                    InfoModel { name: n, value: Some(x), category, description: None }
                },
            ),
            None => rest,
        }
    }
}

/// The entries shown for the missing variables, in their order.
pub open spec fn missing_infos(missing: Seq<String>) -> Seq<InfoModel> {
    Seq::new(
        missing.len(),
        |i: int|
            InfoModel {
                name: missing[i]@,
                value: None,
                category: VariableCategory::Missing,
                description: Some("⚠️ Not defined"@),
            },
    )
}

impl VariableState {
    /// The built-in variables and their descriptions.
    fn get_default_system_variables() -> (r: Vec<(String, String)>)
        ensures
            pairs_view(r@) == default_system_variables(),
            unique_keys(r@),
    {
        let mut vars: Vec<(String, String)> = Vec::new();
        vars.push(("absolute_code_path".to_owned(), "Path to the codebase directory".to_owned()));
        vars.push(("source_tree".to_owned(), "Directory tree structure".to_owned()));
        vars.push(("files".to_owned(), "Array of file objects with content".to_owned()));
        vars.push(("git_diff".to_owned(), "Git diff output (if enabled)".to_owned()));
        vars.push(("git_diff_branch".to_owned(), "Git diff between branches".to_owned()));
        vars.push(("git_log_branch".to_owned(), "Git log between branches".to_owned()));
        vars.push(
            ("path".to_owned(), "File path (available in {{#each files}} context)".to_owned()),
        );
        vars.push(
            ("code".to_owned(), "File content (available in {{#each files}} context)".to_owned()),
        );
        vars.push(
            (
                "extension".to_owned(),
                "File extension (available in {{#each files}} context)".to_owned(),
            ),
        );
        vars.push(
            (
                "token_count".to_owned(),
                "Token count for file (available in {{#each files}} context)".to_owned(),
            ),
        );
        vars.push(
            (
                "metadata".to_owned(),
                "File metadata (available in {{#each files}} context)".to_owned(),
            ),
        );
        vars.push(
            (
                "mod_time".to_owned(),
                "File modification time (available in {{#each files}} context)".to_owned(),
            ),
        );
        assert(pairs_view(vars@) =~= default_system_variables());
        proof {
            lemma_default_names_distinct();
            assert forall|i: int, j: int| 0 <= i < j < vars@.len() implies (#[trigger] vars@[i]).0@
                != (#[trigger] vars@[j]).0@ by {
                assert(pairs_view(vars@)[i].0 == vars@[i].0@);
                assert(pairs_view(vars@)[j].0 == vars@[j].0@);
            }
        }
        vars
    }

    /// Recomputes the missing variables: the names of `template_variables`
    /// that no built-in or user variable defines, sorted.
    pub fn update_missing_variables(&mut self, template_variables: &[String])
        ensures
            names_view(final(self).missing_variables@) == sort_names(
                unknown_names(
                    template_variables@,
                    old(self).system_variables@,
                    old(self).user_variables@,
                ),
            ),
            final(self).system_variables == old(self).system_variables,
            final(self).user_variables == old(self).user_variables,
            final(self).cursor == old(self).cursor,
            final(self).editing_variable == old(self).editing_variable,
            final(self).variable_input_content == old(self).variable_input_content,
            final(self).show_variable_input == old(self).show_variable_input,
    {
        let mut missing: Vec<String> = Vec::new();
        let mut i: usize = 0;
        let ghost tv = template_variables@;
        assert(tv.take(0) =~= Seq::<String>::empty());
        assert(names_view(missing@) =~= sort_names(Seq::empty()));
        while i < template_variables.len()
            invariant
                i <= tv.len(),
                tv == template_variables@,
                names_view(missing@) == sort_names(
                    unknown_names(tv.take(i as int), self.system_variables@, self.user_variables@),
                ),
            decreases template_variables.len() - i,
        {
            let var = &template_variables[i];
            let ghost prefix = tv.take(i + 1);
            proof {
                assert(prefix.drop_last() =~= tv.take(i as int));
            }
            let in_system = find_key(&self.system_variables, var);
            let in_user = find_key(&self.user_variables, var);
            if in_system.is_none() && in_user.is_none() {
                let x = chars_of(var.as_str());
                let mut j: usize = 0;
                while j < missing.len() && !lex_lt_exec(&x, &chars_of(missing[j].as_str()))
                    invariant
                        j <= missing@.len(),
                        x@ == var@,
                        forall|k: int| 0 <= k < j ==> !lex_lt(var@, #[trigger] names_view(missing@)[k]),
                    decreases missing.len() - j,
                {
                    j = j + 1;
                }
                proof {
                    lemma_name_insert_pos(var@, names_view(missing@), j as int);
                }
                let ghost before = missing@;
                missing.insert(j, var.clone());
                proof {
                    let u = unknown_names(tv.take(i as int), self.system_variables@, self.user_variables@);
                    assert(prefix.last() == tv[i as int]);
                    assert(unknown_names(prefix, self.system_variables@, self.user_variables@) == u.push(var@));
                    assert(u.push(var@).drop_last() =~= u);
                    assert(names_view(missing@) =~= names_view(before).insert(j as int, var@));
                }
            } else {
                proof {
                    assert(prefix.last() == tv[i as int]);
                }
            }
            i = i + 1;
        }
        assert(tv.take(tv.len() as int) =~= tv);
        self.missing_variables = missing;
    }

    /// Appends the entries for the names of `template_variables` that `v` defines.
    fn push_known(
        variables: &mut Vec<VariableInfo>,
        template_variables: &[String],
        v: &Vec<(String, String)>,
        category: VariableCategory,
    )
        requires
            category != VariableCategory::Missing,
        ensures
            infos_view(final(variables)@) == infos_view(old(variables)@) + known_infos(
                template_variables@,
                v@,
                category,
            ),
    {
        let ghost base = infos_view(variables@);
        let ghost tv = template_variables@;
        let mut i: usize = 0;
        assert(tv.take(0) =~= Seq::<String>::empty());
        assert(infos_view(variables@) =~= base + known_infos(tv.take(0), v@, category));
        while i < template_variables.len()
            invariant
                i <= tv.len(),
                tv == template_variables@,
                category != VariableCategory::Missing,
                infos_view(variables@) == base + known_infos(tv.take(i as int), v@, category),
            decreases template_variables.len() - i,
        {
            let var = &template_variables[i];
            let ghost prefix = tv.take(i + 1);
            proof {
                assert(prefix.drop_last() =~= tv.take(i as int));
                assert(prefix.last() == tv[i as int]);
            }
            let ghost before = infos_view(variables@);
            match find_key(v, var) {
                Some(k) => {
                    let info = if category == VariableCategory::System {
                        VariableInfo {
                            name: var.clone(),
                            value: Some("(system)".to_owned()),
                            category: VariableCategory::System,
                            description: Some(v[k].1.clone()),
                        }
                    } else {
                        VariableInfo {
                            name: var.clone(),
                            value: Some(v[k].1.clone()),
                            category: VariableCategory::User,
                            description: None,
                        }
                    };
                    variables.push(info);
                    assert(infos_view(variables@) =~= before.push(info_view(info)));
                },
                None => {},
            }
            i = i + 1;
        }
        assert(tv.take(tv.len() as int) =~= tv);
    }

    /// The variables a template uses, for display: built-in ones, then
    /// user-defined ones, in template order, then the missing ones.
    pub fn get_organized_variables(&self, template_variables: &[String]) -> (r: Vec<VariableInfo>)
        ensures
            infos_view(r@) == known_infos(
                template_variables@,
                self.system_variables@,
                VariableCategory::System,
            ) + known_infos(template_variables@, self.user_variables@, VariableCategory::User)
                + missing_infos(self.missing_variables@),
    {
        let mut variables: Vec<VariableInfo> = Vec::new();
        assert(infos_view(variables@) =~= Seq::<InfoModel>::empty());
        Self::push_known(&mut variables, template_variables, &self.system_variables, VariableCategory::System);
        Self::push_known(&mut variables, template_variables, &self.user_variables, VariableCategory::User);
        let ghost base = infos_view(variables@);
        let mut i: usize = 0;
        while i < self.missing_variables.len()
            invariant
                i <= self.missing_variables@.len(),
                infos_view(variables@) == base + missing_infos(self.missing_variables@.take(i as int)),
            decreases self.missing_variables.len() - i,
        {
            let ghost before = infos_view(variables@);
            let info = VariableInfo {
                name: self.missing_variables[i].clone(),
                value: None,
                category: VariableCategory::Missing,
                description: Some("⚠️ Not defined".to_owned()),
            };
            variables.push(info);
            proof {
                assert(infos_view(variables@) =~= before.push(info_view(info)));
                assert(missing_infos(self.missing_variables@.take(i + 1)) =~= missing_infos(
                    self.missing_variables@.take(i as int),
                ).push(info_view(info)));
            }
            i = i + 1;
        }
        assert(self.missing_variables@.take(self.missing_variables@.len() as int) =~= self.missing_variables@);
        assert(infos_view(variables@) =~= base + missing_infos(self.missing_variables@));
        variables
    }

    /// Defines (or redefines) a user variable.
    pub fn set_user_variable(&mut self, key: String, value: String)
        ensures
            unique_keys(old(self).user_variables@) ==> unique_keys(final(self).user_variables@),
            lookup(final(self).user_variables@, key@) == Some(value@),
            forall|k: Seq<char>|
                k != key@ ==> lookup(final(self).user_variables@, k) == lookup(
                    old(self).user_variables@,
                    k,
                ),
            final(self).system_variables == old(self).system_variables,
            final(self).missing_variables == old(self).missing_variables,
            final(self).cursor == old(self).cursor,
            final(self).editing_variable == old(self).editing_variable,
            final(self).variable_input_content == old(self).variable_input_content,
            final(self).show_variable_input == old(self).show_variable_input,
    {
        let ghost old_v = self.user_variables@;
        let ghost kv = key@;
        match find_key(&self.user_variables, &key) {
            Some(i) => {
                self.user_variables.set(i, (key, value));
                proof {
                    let nv = self.user_variables@;
                    assert(forall|j: int| 0 <= j < nv.len() ==> (#[trigger] nv[j]).0@ == old_v[j].0@);
                    assert(first_key_index(nv, kv, i as int));
                    lemma_lookup_at(nv, kv, i as int);
                    lemma_lookup_unchanged(old_v, nv, kv);
                }
            },
            None => {
                self.user_variables.push((key, value));
                proof {
                    let nv = self.user_variables@;
                    assert(forall|j: int| 0 <= j < old_v.len() ==> (#[trigger] nv[j]) == old_v[j]);
                    assert(first_key_index(nv, kv, old_v.len() as int));
                    lemma_lookup_at(nv, kv, old_v.len() as int);
                    lemma_lookup_unchanged(old_v, nv, kv);
                }
            },
        }
    }

    /// Whether some variable is still missing.
    pub fn has_missing_variables(&self) -> (r: bool)
        ensures
            r == (self.missing_variables@.len() > 0),
    {
        self.missing_variables.len() > 0
    }

    /// Abandons the edit in progress.
    pub fn cancel_editing(&mut self)
        ensures
            final(self).editing_variable is None,
            final(self).variable_input_content@.len() == 0,
            !final(self).show_variable_input,
            final(self).system_variables == old(self).system_variables,
            final(self).user_variables == old(self).user_variables,
            final(self).missing_variables == old(self).missing_variables,
            final(self).cursor == old(self).cursor,
    {
        self.editing_variable = None;
        self.variable_input_content = String::new();
        self.show_variable_input = false;
    }

    /// Ends the edit in progress, saving the typed content as the value of
    /// the variable being edited; returns that name and value.
    pub fn finish_editing(&mut self) -> (r: Option<(String, String)>)
        ensures
            match old(self).editing_variable {
                Some(name) => {
                    &&& r matches Some((n, v)) && n@ == name@ && v@
                        == old(self).variable_input_content@
                    &&& lookup(final(self).user_variables@, name@) == Some(
                        old(self).variable_input_content@,
                    )
                    &&& forall|k: Seq<char>|
                        k != name@ ==> lookup(final(self).user_variables@, k) == lookup(
                            old(self).user_variables@,
                            k,
                        )
                    &&& final(self).editing_variable is None
                    &&& final(self).variable_input_content@.len() == 0
                    &&& !final(self).show_variable_input
                },
                None => r is None && *final(self) == *old(self),
            },
            final(self).system_variables == old(self).system_variables,
            final(self).missing_variables == old(self).missing_variables,
            final(self).cursor == old(self).cursor,
    {
        match self.editing_variable.take() {
            Some(var_name) => {
                let value = self.variable_input_content.clone();
                self.set_user_variable(var_name.clone(), value.clone());
                self.variable_input_content = String::new();
                self.show_variable_input = false;
                Some((var_name, value))
            },
            None => None,
        }
    }

    /// Appends a typed character to the input.
    pub fn add_char_to_input(&mut self, c: char)
        ensures
            final(self).variable_input_content@ == old(self).variable_input_content@.push(c),
            final(self).editing_variable == old(self).editing_variable,
            final(self).show_variable_input == old(self).show_variable_input,
            final(self).system_variables == old(self).system_variables,
            final(self).missing_variables == old(self).missing_variables,
            final(self).cursor == old(self).cursor,
            final(self).user_variables == old(self).user_variables,
    {
        push_char(&mut self.variable_input_content, c);
    }

    /// Removes the last typed character, if any.
    pub fn remove_char_from_input(&mut self)
        ensures
            final(self).variable_input_content@ == if old(self).variable_input_content@.len() == 0 {
                old(self).variable_input_content@
            } else {
                old(self).variable_input_content@.drop_last()
            },
            final(self).editing_variable == old(self).editing_variable,
            final(self).show_variable_input == old(self).show_variable_input,
            final(self).system_variables == old(self).system_variables,
            final(self).missing_variables == old(self).missing_variables,
            final(self).cursor == old(self).cursor,
            final(self).user_variables == old(self).user_variables,
    {
        pop_char(&mut self.variable_input_content);
    }

    /// The content typed so far.
    pub fn get_input_content(&self) -> (r: &str)
        ensures
            r@ == self.variable_input_content@,
    {
        self.variable_input_content.as_str()
    }

    /// Whether a variable is being edited.
    pub fn is_editing(&self) -> (r: bool)
        ensures
            r == self.show_variable_input,
    {
        self.show_variable_input
    }

    /// The name of the variable being edited, if any.
    pub fn get_editing_variable(&self) -> (r: Option<&String>)
        ensures
            match self.editing_variable {
                Some(n) => r matches Some(m) && *m == n,
                None => r is None,
            },
    {
        match &self.editing_variable {
            Some(n) => Some(n),
            None => None,
        }
    }

    /// Puts the cursor back on the first entry.
    pub fn move_to_first_missing_variable(&mut self)
        ensures
            final(self).cursor == 0,
            final(self).system_variables == old(self).system_variables,
            final(self).user_variables == old(self).user_variables,
            final(self).missing_variables == old(self).missing_variables,
            final(self).editing_variable == old(self).editing_variable,
            final(self).variable_input_content == old(self).variable_input_content,
            final(self).show_variable_input == old(self).show_variable_input,
    {
        self.cursor = 0;
    }
}

} // verus!
