//! The persisted application state: the active pattern lists, named lock
//! profiles, expanded directories and ignore patterns.

use vstd::prelude::*;
use vstd::string::*;
use crate::path::GuardPath;
use crate::path::clone_string_vec;
use crate::strutil::str_eq;
pub use crate::pattern::calculate_unlocked_patterns;

verus! {

/// A named set of pattern lists that can be switched to at once.
pub struct LockProfile {
    pub locked_patterns: Vec<String>,
    pub unlocked_patterns: Vec<String>,
    pub allow_create_patterns: Vec<String>,
    pub description: String,
}

/// One profile with its name.
pub struct ProfileEntry {
    pub name: String,
    pub profile: LockProfile,
}

/// The serializable application state.
pub struct AppState {
    pub root_path: GuardPath,
    pub active_profile: Option<String>,
    pub profiles: Vec<ProfileEntry>,
    pub locked_patterns: Vec<String>,
    pub unlocked_patterns: Vec<String>,
    pub allow_create_patterns: Vec<String>,
    pub expanded_dirs: Vec<GuardPath>,
    pub ignore_patterns: Vec<String>,
    pub monitored_processes: Vec<String>,
    pub allowed_processes: Vec<String>,
}

/// The default ignore patterns for building the file tree.
pub open spec fn default_ignore_view() -> Seq<Seq<char>> {
    seq![
        ".git/"@,
        "target/"@,
        "node_modules/"@,
        ".idea/"@,
        ".venv/"@,
        "venv/"@,
        "__pycache__/"@,
        ".mypy_cache/"@,
        ".pytest_cache/"@,
        ".tox/"@,
        "dist/"@,
        "build/"@,
        ".DS_Store"@,
        "*.log"@,
        "*.tmp"@,
        ".env"@,
        ".env.local"@,
    ]
}

/// The build-tree ignore patterns used when no state file names any.
pub fn default_ignore_patterns() -> (r: Vec<String>)
    ensures
        r.deep_view() == default_ignore_view(),
{
    let mut out: Vec<String> = Vec::new();
    crate::strutil::push_string(&mut out, ".git/".to_owned());
    crate::strutil::push_string(&mut out, "target/".to_owned());
    crate::strutil::push_string(&mut out, "node_modules/".to_owned());
    crate::strutil::push_string(&mut out, ".idea/".to_owned());
    crate::strutil::push_string(&mut out, ".venv/".to_owned());
    crate::strutil::push_string(&mut out, "venv/".to_owned());
    crate::strutil::push_string(&mut out, "__pycache__/".to_owned());
    crate::strutil::push_string(&mut out, ".mypy_cache/".to_owned());
    crate::strutil::push_string(&mut out, ".pytest_cache/".to_owned());
    crate::strutil::push_string(&mut out, ".tox/".to_owned());
    crate::strutil::push_string(&mut out, "dist/".to_owned());
    crate::strutil::push_string(&mut out, "build/".to_owned());
    crate::strutil::push_string(&mut out, ".DS_Store".to_owned());
    crate::strutil::push_string(&mut out, "*.log".to_owned());
    crate::strutil::push_string(&mut out, "*.tmp".to_owned());
    crate::strutil::push_string(&mut out, ".env".to_owned());
    crate::strutil::push_string(&mut out, ".env.local".to_owned());
    assert(out.deep_view() =~= default_ignore_view());
    out
}

/// The index of the first profile named `n`, or -1.
pub open spec fn profile_index(ps: Seq<ProfileEntry>, n: Seq<char>) -> int
    decreases ps.len(),
{
    if ps.len() == 0 {
        -1
    } else if ps[0].name@ == n {
        0
    } else {
        let r = profile_index(ps.drop_first(), n);
        if r < 0 {
            -1
        } else {
            r + 1
        }
    }
}

/// Characterizes `profile_index`: it is the first matching index, or -1 when
/// no profile matches.
pub proof fn lemma_profile_index(ps: Seq<ProfileEntry>, n: Seq<char>)
    ensures
        profile_index(ps, n) >= 0 ==> {
            let i = profile_index(ps, n);
            i < ps.len() && ps[i].name@ == n && forall|j: int| 0 <= j < i ==> ps[j].name@ != n
        },
        profile_index(ps, n) < 0 ==> forall|j: int| 0 <= j < ps.len() ==> ps[j].name@ != n,
    decreases ps.len(),
{
    if ps.len() > 0 && ps[0].name@ != n {
        lemma_profile_index(ps.drop_first(), n);
        let r = profile_index(ps.drop_first(), n);
        if r >= 0 {
            assert(ps.drop_first()[r].name@ == n);
            assert(ps[r + 1] == ps.drop_first()[r]);
            assert forall|j: int| 0 <= j < r + 1 implies ps[j].name@ != n by {
                if j > 0 {
                    assert(ps.drop_first()[j - 1] == ps[j]);
                }
            }
        } else {
            assert forall|j: int| 0 <= j < ps.len() implies ps[j].name@ != n by {
                if j > 0 {
                    assert(ps.drop_first()[j - 1] == ps[j]);
                }
            }
        }
    }
}

/// Finds the first profile with the given name.
fn find_profile(ps: &Vec<ProfileEntry>, name: &str) -> (r: Option<usize>)
    ensures
        profile_index(ps@, name@) >= 0 ==> r is Some && r->0 == profile_index(ps@, name@),
        profile_index(ps@, name@) < 0 ==> r is None,
{
    proof {
        lemma_profile_index(ps@, name@);
    }
    let mut i: usize = 0;
    while i < ps.len()
        invariant
            i <= ps.len(),
            forall|j: int| 0 <= j < i ==> ps@[j].name@ != name@,
        decreases ps.len() - i,
    {
        let e: &ProfileEntry = &ps[i];
        if str_eq(e.name.as_str(), name) {
            proof {
                lemma_profile_index(ps@, name@);
                let pi = profile_index(ps@, name@);
                if pi < 0 {
                    assert(ps@[i as int].name@ != name@);
                    assert(false);
                } else {
                    if pi < i {
                        assert(ps@[pi].name@ == name@);
                    }
                    if pi > i {
                        assert(ps@[i as int].name@ != name@);
                    }
                }
            }
            return Some(i);
        }
        i += 1;
    }
    proof {
        lemma_profile_index(ps@, name@);
        let pi = profile_index(ps@, name@);
        if pi >= 0 {
            assert(ps@[pi].name@ == name@);
        }
    }
    None
}

/// The names of the stored profiles, in order.
pub open spec fn profile_names_view(ps: Seq<ProfileEntry>) -> Seq<Seq<char>> {
    Seq::new(ps.len(), |i: int| ps[i].name@)
}

/// The stored entry equals the given pattern views.
pub open spec fn entry_matches(
    e: ProfileEntry,
    name: Seq<char>,
    locked: Seq<Seq<char>>,
    unlocked: Seq<Seq<char>>,
    allow: Seq<Seq<char>>,
    description: Seq<char>,
) -> bool {
    e.name@ == name && e.profile.locked_patterns.deep_view() == locked
        && e.profile.unlocked_patterns.deep_view() == unlocked
        && e.profile.allow_create_patterns.deep_view() == allow && e.profile.description@
        == description
}

impl AppState {
    /// A fresh state for the given root: nothing locked, everything
    /// unlocked, default ignore patterns.
    pub fn new(root_path: GuardPath) -> (r: Self)
        ensures
            r.root_path == root_path,
            r.active_profile is None,
            r.profiles@.len() == 0,
            r.locked_patterns.deep_view() == Seq::<Seq<char>>::empty(),
            r.unlocked_patterns.deep_view() == seq![crate::pattern::star_star()],
            r.allow_create_patterns.deep_view() == Seq::<Seq<char>>::empty(),
            r.expanded_dirs@.len() == 0,
            r.ignore_patterns.deep_view() == default_ignore_view(),
            r.monitored_processes@.len() == 0,
            r.allowed_processes@.len() == 0,
    {
        proof {
            reveal_strlit("**");
        }
        let mut unlocked: Vec<String> = Vec::new();
        crate::strutil::push_string(&mut unlocked, "**".to_owned());
        assert(unlocked.deep_view() =~= seq![crate::pattern::star_star()]) by {
            assert("**"@ =~= crate::pattern::star_star());
        }
        let locked: Vec<String> = Vec::new();
        let allow: Vec<String> = Vec::new();
        assert(locked.deep_view() =~= Seq::<Seq<char>>::empty());
        assert(allow.deep_view() =~= Seq::<Seq<char>>::empty());
        AppState {
            root_path,
            active_profile: None,
            profiles: Vec::new(),
            locked_patterns: locked,
            unlocked_patterns: unlocked,
            allow_create_patterns: allow,
            expanded_dirs: Vec::new(),
            ignore_patterns: default_ignore_patterns(),
            monitored_processes: Vec::new(),
            allowed_processes: Vec::new(),
        }
    }

    /// Replaces the remembered expanded directories.
    pub fn update_expanded_dirs(&mut self, expanded_dirs: Vec<GuardPath>)
        ensures
            final(self).expanded_dirs == expanded_dirs,
            final(self).root_path == old(self).root_path,
            final(self).active_profile == old(self).active_profile,
            final(self).profiles == old(self).profiles,
            final(self).locked_patterns == old(self).locked_patterns,
            final(self).unlocked_patterns == old(self).unlocked_patterns,
            final(self).allow_create_patterns == old(self).allow_create_patterns,
            final(self).ignore_patterns == old(self).ignore_patterns,
            final(self).monitored_processes == old(self).monitored_processes,
            final(self).allowed_processes == old(self).allowed_processes,
    {
        self.expanded_dirs = expanded_dirs;
    }

    /// Stores the current pattern lists as a named profile and makes it the
    /// active one. An existing profile of that name is replaced.
    pub fn save_current_as_profile(&mut self, name: String, description: String)
        ensures
            final(self).active_profile is Some && final(self).active_profile->0@ == name@,
            final(self).locked_patterns == old(self).locked_patterns,
            final(self).unlocked_patterns == old(self).unlocked_patterns,
            final(self).allow_create_patterns == old(self).allow_create_patterns,
            final(self).root_path == old(self).root_path,
            final(self).expanded_dirs == old(self).expanded_dirs,
            final(self).ignore_patterns == old(self).ignore_patterns,
            final(self).monitored_processes == old(self).monitored_processes,
            final(self).allowed_processes == old(self).allowed_processes,
            ({
                let pi = profile_index(old(self).profiles@, name@);
                let l = old(self).locked_patterns.deep_view();
                let u = old(self).unlocked_patterns.deep_view();
                let a = old(self).allow_create_patterns.deep_view();
                if pi >= 0 {
                    final(self).profiles@.len() == old(self).profiles@.len() && entry_matches(
                        final(self).profiles@[pi],
                        name@,
                        l,
                        u,
                        a,
                        description@,
                    ) && forall|j: int|
                        0 <= j < old(self).profiles@.len() && j != pi
                            ==> final(self).profiles@[j] == old(self).profiles@[j]
                } else {
                    final(self).profiles@.len() == old(self).profiles@.len() + 1 && entry_matches(
                        final(self).profiles@.last(),
                        name@,
                        l,
                        u,
                        a,
                        description@,
                    ) && forall|j: int|
                        0 <= j < old(self).profiles@.len() ==> final(self).profiles@[j] == old(
                            self,
                        ).profiles@[j]
                }
            }),
    {
        let profile = LockProfile {
            locked_patterns: clone_string_vec(&self.locked_patterns),
            unlocked_patterns: clone_string_vec(&self.unlocked_patterns),
            allow_create_patterns: clone_string_vec(&self.allow_create_patterns),
            description,
        };
        let active: String = name.clone();
        let ghost nv = name@;
        match find_profile(&self.profiles, name.as_str()) {
            Some(i) => {
                proof {
                    lemma_profile_index(self.profiles@, nv);
                }
                let slot = &mut self.profiles[i];
                *slot = ProfileEntry { name, profile };
            },
            None => {
                self.profiles.push(ProfileEntry { name, profile });
            },
        }
        self.active_profile = Some(active);
    }

    /// Switches the active pattern lists to a stored profile. Returns false
    /// when no profile has that name, leaving the state alone.
    pub fn switch_to_profile(&mut self, name: &str) -> (r: bool)
        ensures
            final(self).root_path == old(self).root_path,
            final(self).expanded_dirs == old(self).expanded_dirs,
            final(self).ignore_patterns == old(self).ignore_patterns,
            final(self).monitored_processes == old(self).monitored_processes,
            final(self).allowed_processes == old(self).allowed_processes,
            final(self).profiles == old(self).profiles,
            ({
                let pi = profile_index(old(self).profiles@, name@);
                let news = *final(self);
                let olds = *old(self);
                if pi >= 0 {
                    let stored = olds.profiles@[pi].profile;
                    &&& r
                    &&& news.active_profile is Some
                    &&& news.active_profile->0@ == name@
                    &&& news.locked_patterns.deep_view() == stored.locked_patterns.deep_view()
                    &&& news.unlocked_patterns.deep_view() == stored.unlocked_patterns.deep_view()
                    &&& news.allow_create_patterns.deep_view()
                        == stored.allow_create_patterns.deep_view()
                } else {
                    &&& !r
                    &&& news.active_profile == olds.active_profile
                    &&& news.locked_patterns == olds.locked_patterns
                    &&& news.unlocked_patterns == olds.unlocked_patterns
                    &&& news.allow_create_patterns == olds.allow_create_patterns
                }
            }),
    {
        match find_profile(&self.profiles, name) {
            Some(i) => {
                proof {
                    lemma_profile_index(self.profiles@, name@);
                }
                let entry: &ProfileEntry = &self.profiles[i];
                let l = clone_string_vec(&entry.profile.locked_patterns);
                let u = clone_string_vec(&entry.profile.unlocked_patterns);
                let a = clone_string_vec(&entry.profile.allow_create_patterns);
                self.locked_patterns = l;
                self.unlocked_patterns = u;
                self.allow_create_patterns = a;
                self.active_profile = Some(name.to_owned());
                true
            },
            None => false,
        }
    }

    /// The names of the stored profiles, in storage order.
    pub fn get_profile_names(&self) -> (r: Vec<String>)
        ensures
            r.deep_view() == profile_names_view(self.profiles@),
    {
        let mut out: Vec<String> = Vec::new();
        let mut i: usize = 0;
        while i < self.profiles.len()
            invariant
                i <= self.profiles.len(),
                out.deep_view().len() == i,
                forall|k: int| 0 <= k < i ==> out.deep_view()[k] == self.profiles@[k].name@,
            decreases self.profiles.len() - i,
        {
            let e: &ProfileEntry = &self.profiles[i];
            crate::strutil::push_string(&mut out, e.name.clone());
            i += 1;
        }
        assert(out.deep_view() =~= profile_names_view(self.profiles@));
        out
    }

    /// Deletes the profile with the given name. Returns whether one existed;
    /// when the deleted profile was active, the active name is cleared.
    pub fn delete_profile(&mut self, name: &str) -> (r: bool)
        ensures
            final(self).root_path == old(self).root_path,
            final(self).expanded_dirs == old(self).expanded_dirs,
            final(self).ignore_patterns == old(self).ignore_patterns,
            final(self).monitored_processes == old(self).monitored_processes,
            final(self).allowed_processes == old(self).allowed_processes,
            final(self).locked_patterns == old(self).locked_patterns,
            final(self).unlocked_patterns == old(self).unlocked_patterns,
            final(self).allow_create_patterns == old(self).allow_create_patterns,
            ({
                let pi = profile_index(old(self).profiles@, name@);
                let news = *final(self);
                let olds = *old(self);
                if pi >= 0 {
                    &&& r
                    &&& news.profiles@ == olds.profiles@.remove(pi)
                    &&& (if olds.active_profile is Some && olds.active_profile->0@ == name@ {
                        news.active_profile is None
                    } else {
                        news.active_profile == olds.active_profile
                    })
                } else {
                    &&& !r
                    &&& news.profiles == olds.profiles
                    &&& news.active_profile == olds.active_profile
                }
            }),
    {
        match find_profile(&self.profiles, name) {
            Some(i) => {
                proof {
                    lemma_profile_index(self.profiles@, name@);
                }
                self.profiles.remove(i);
                let clear = match &self.active_profile {
                    Some(active) => str_eq(active.as_str(), name),
                    None => false,
                };
                if clear {
                    self.active_profile = None;
                }
                true
            },
            None => false,
        }
    }

    /// The name of the active profile, if one is set.
    pub fn get_active_profile_name(&self) -> (r: Option<&String>)
        ensures
            r is Some <==> self.active_profile is Some,
            r is Some ==> r->0@ == self.active_profile->0@,
    {
        self.active_profile.as_ref()
    }
}

/// Stable insertion of a rule entry into a path-sorted sequence.
pub open spec fn insert_rule_entry(
    x: (Seq<Seq<char>>, bool),
    s: Seq<(Seq<Seq<char>>, bool)>,
) -> Seq<(Seq<Seq<char>>, bool)>
    decreases s.len(),
{
    if s.len() == 0 {
        seq![x]
    } else if crate::path::path_lex_leq(x.0, s[0].0) {
        seq![x] + s
    } else {
        seq![s[0]] + insert_rule_entry(x, s.drop_first())
    }
}

/// Insertion sort of rule entries by their path.
pub open spec fn sort_rule_entries(s: Seq<(Seq<Seq<char>>, bool)>) -> Seq<(Seq<Seq<char>>, bool)>
    decreases s.len(),
{
    if s.len() == 0 {
        Seq::empty()
    } else {
        insert_rule_entry(s[0], sort_rule_entries(s.drop_first()))
    }
}

proof fn lemma_insert_rule_entry_at(
    x: (Seq<Seq<char>>, bool),
    s: Seq<(Seq<Seq<char>>, bool)>,
    idx: int,
)
    requires
        0 <= idx <= s.len(),
        forall|j: int| 0 <= j < idx ==> !crate::path::path_lex_leq(x.0, s[j].0),
        idx < s.len() ==> crate::path::path_lex_leq(x.0, s[idx].0),
    ensures
        insert_rule_entry(x, s) == s.take(idx) + seq![x] + s.skip(idx),
    decreases idx,
{
    if idx == 0 {
        assert(insert_rule_entry(x, s) =~= s.take(0) + seq![x] + s.skip(0));
    } else {
        assert(s.len() > 0);
        assert(!crate::path::path_lex_leq(x.0, s[0].0));
        let t = s.drop_first();
        assert(forall|j: int| 0 <= j < idx - 1 ==> t[j] == s[j + 1]);
        lemma_insert_rule_entry_at(x, t, idx - 1);
        assert(insert_rule_entry(x, s) == seq![s[0]] + insert_rule_entry(x, t));
        assert(seq![s[0]] + (t.take(idx - 1) + seq![x] + t.skip(idx - 1)) =~= s.take(idx) + seq![x]
            + s.skip(idx));
    }
}

/// Sorts lock rules by path, stably, into a fresh vector.
fn sort_lock_rules(v: &Vec<crate::policy::LockRule>) -> (r: Vec<crate::policy::LockRule>)
    ensures
        crate::tree::rule_views(r@) == sort_rule_entries(crate::tree::rule_views(v@)),
{
    let ghost ev = crate::tree::rule_views(v@);
    let mut out: Vec<crate::policy::LockRule> = Vec::new();
    let mut k: usize = v.len();
    assert(ev.skip(k as int) =~= Seq::<(Seq<Seq<char>>, bool)>::empty());
    assert(crate::tree::rule_views(out@) =~= sort_rule_entries(ev.skip(k as int)));
    while k > 0
        invariant
            k <= v.len(),
            crate::tree::rule_views(v@) == ev,
            ev.len() == v.len(),
            crate::tree::rule_views(out@) == sort_rule_entries(ev.skip(k as int)),
        decreases k,
    {
        k -= 1;
        let x: &crate::policy::LockRule = &v[k];
        assert(x.path@ == ev[k as int].0 && x.is_dir == ev[k as int].1);
        let ghost acc = crate::tree::rule_views(out@);
        let mut idx: usize = 0;
        let mut stop = false;
        while idx < out.len() && !stop
            invariant
                idx <= out.len(),
                crate::tree::rule_views(out@) == acc,
                acc.len() == out.len(),
                x.path@ == ev[k as int].0,
                forall|j: int|
                    0 <= j < idx ==> !crate::path::path_lex_leq(x.path@, acc[j].0),
                stop ==> idx < out.len() && crate::path::path_lex_leq(x.path@, acc[idx as int].0),
            decreases out.len() - idx + if stop {
                0int
            } else {
                1int
            },
        {
            let y: &crate::policy::LockRule = &out[idx];
            assert(y.path@ == acc[idx as int].0);
            if crate::path::path_leq(&x.path, &y.path) {
                stop = true;
            } else {
                idx += 1;
            }
        }
        let xr = x.clone();
        out.insert(idx, xr);
        proof {
            lemma_insert_rule_entry_at((x.path@, x.is_dir), acc, idx as int);
            assert(crate::tree::rule_views(out@) =~= acc.take(idx as int) + seq![
                (x.path@, x.is_dir),
            ] + acc.skip(idx as int)) by {
                assert forall|j: int|
                    0 <= j < out@.len() implies crate::tree::rule_views(out@)[j] == (acc.take(
                    idx as int,
                ) + seq![(x.path@, x.is_dir)] + acc.skip(idx as int))[j] by {
                    if j < idx {
                    }
                }
            }
            assert(ev.skip(k as int)[0] == ev[k as int]);
            assert(ev.skip(k as int).drop_first() =~= ev.skip(k as int + 1));
            assert(crate::tree::rule_views(out@) == sort_rule_entries(ev.skip(k as int)));
        }
    }
    assert(ev.skip(0) =~= ev);
    out
}

/// The pattern that names the rule `(p, d)` relative to `root`: the root
/// itself is `"**"`, a directory is `"rel/**"`, a file its relative path.
pub open spec fn rule_pattern_at(p: Seq<Seq<char>>, d: bool, root: Seq<Seq<char>>) -> Seq<char> {
    let rel = if root.is_prefix_of(p) {
        p.skip(root.len() as int)
    } else {
        p
    };
    if rel.len() == 0 {
        crate::pattern::star_star()
    } else {
        crate::pattern::pattern_of_rule(rel, d)
    }
}

/// Emits patterns for path-sorted rule entries, skipping entries below the
/// most recently emitted directory pattern.
pub open spec fn emit_patterns(
    entries: Seq<(Seq<Seq<char>>, bool)>,
    root: Seq<Seq<char>>,
    skip: Option<Seq<Seq<char>>>,
) -> Seq<Seq<char>>
    decreases entries.len(),
{
    if entries.len() == 0 {
        Seq::empty()
    } else {
        let p = entries[0].0;
        let d = entries[0].1;
        if skip is Some && skip->0.is_prefix_of(p) {
            emit_patterns(entries.drop_first(), root, skip)
        } else {
            let pat = rule_pattern_at(p, d, root);
            let skip2 = if d && crate::pattern::is_dir_pattern(pat) {
                Some(p)
            } else {
                None
            };
            seq![pat] + emit_patterns(entries.drop_first(), root, skip2)
        }
    }
}

/// The persisted pattern list for a set of collected rules.
pub open spec fn optimize_rules_spec(
    entries: Seq<(Seq<Seq<char>>, bool)>,
    root: Seq<Seq<char>>,
) -> Seq<Seq<char>> {
    emit_patterns(sort_rule_entries(entries), root, None)
}

/// The ghost view of an optional skip path.
pub open spec fn skip_of(o: Option<GuardPath>) -> Option<Seq<Seq<char>>> {
    match o {
        Option::None => None,
        Option::Some(p) => Some(p@),
    }
}

/// Collapses collected rules into the minimal pattern list: rules are sorted
/// by path, a directory subsumes everything below it, and the root collapses
/// to `"**"`.
pub fn optimize_patterns(lock_infos: &Vec<crate::policy::LockRule>, root: &GuardPath) -> (r: Vec<
    String,
>)
    ensures
        r.deep_view() == optimize_rules_spec(crate::tree::rule_views(lock_infos@), root@),
{
    proof {
        reveal_strlit("**");
    }
    let sorted = sort_lock_rules(lock_infos);
    let ghost ev = crate::tree::rule_views(sorted@);
    let mut out: Vec<String> = Vec::new();
    let mut skip: Option<GuardPath> = None;
    let mut k: usize = 0;
    proof {
        assert(ev.skip(0) =~= ev);
        assert(out.deep_view() =~= Seq::<Seq<char>>::empty());
    }
    while k < sorted.len()
        invariant
            k <= sorted.len(),
            crate::tree::rule_views(sorted@) == ev,
            ev.len() == sorted.len(),
            "**"@ == crate::pattern::star_star(),
            optimize_rules_spec(crate::tree::rule_views(lock_infos@), root@) == out.deep_view()
                + emit_patterns(ev.skip(k as int), root@, skip_of(skip)),
        decreases sorted.len() - k,
    {
        let e: &crate::policy::LockRule = &sorted[k];
        assert(e.path@ == ev[k as int].0 && e.is_dir == ev[k as int].1);
        proof {
            assert(ev.skip(k as int)[0] == ev[k as int]);
            assert(ev.skip(k as int).drop_first() =~= ev.skip(k as int + 1));
        }
        let skip_hit = match &skip {
            Some(sp) => e.path.starts_with(sp),
            None => false,
        };
        if !skip_hit {
            let relp: GuardPath = match e.path.strip_prefix(root) {
                Some(r) => r,
                None => e.path.clone(),
            };
            assert(relp@ == (if root@.is_prefix_of(e.path@) {
                e.path@.skip(root@.len() as int)
            } else {
                e.path@
            }));
            if relp.is_root() {
                let pat: String = "**".to_owned();
                assert(pat@ == rule_pattern_at(ev[k as int].0, ev[k as int].1, root@));
                crate::strutil::push_string(&mut out, pat);
                skip = None;
            } else {
                let pat = crate::pattern::make_pattern(&relp, e.is_dir);
                assert(pat@ == rule_pattern_at(ev[k as int].0, ev[k as int].1, root@));
                if e.is_dir {
                    proof {
                        assert(crate::pattern::is_dir_pattern(pat@)) by {
                            assert(pat@.skip(pat@.len() - 3)
                                =~= crate::pattern::slash_star_star());
                        }
                    }
                    skip = Some(e.path.clone());
                } else {
                    skip = None;
                }
                crate::strutil::push_string(&mut out, pat);
            }
        }
        k += 1;
    }
    proof {
        assert(ev.skip(sorted.len() as int) =~= Seq::<(Seq<Seq<char>>, bool)>::empty());
    }
    out
}

impl AppState {
    /// Recomputes the three pattern lists from the tree's explicit lock
    /// state: locked and allow-create rules are collapsed to patterns, and
    /// the unlocked list is either the collapsed unlocked directories or,
    /// when there are none, derived from the locked patterns.
    pub fn update_from_tree(&mut self, root: &crate::tree::TreeNode)
        ensures
            final(self).root_path == old(self).root_path,
            final(self).active_profile == old(self).active_profile,
            final(self).profiles == old(self).profiles,
            final(self).expanded_dirs == old(self).expanded_dirs,
            final(self).ignore_patterns == old(self).ignore_patterns,
            final(self).monitored_processes == old(self).monitored_processes,
            final(self).allowed_processes == old(self).allowed_processes,
            final(self).locked_patterns.deep_view() == optimize_rules_spec(
                crate::tree::collect_locked_view(crate::tree::tree_view(*root), false),
                old(self).root_path@,
            ),
            final(self).allow_create_patterns.deep_view() == optimize_rules_spec(
                crate::tree::collect_allow_view(crate::tree::tree_view(*root)),
                old(self).root_path@,
            ),
            final(self).unlocked_patterns.deep_view() == (if crate::tree::collect_unlocked_view(
                crate::tree::tree_view(*root),
                false,
            ).len() > 0 {
                optimize_rules_spec(
                    crate::tree::collect_unlocked_view(crate::tree::tree_view(*root), false),
                    old(self).root_path@,
                )
            } else {
                crate::pattern::calc_unlocked(
                    optimize_rules_spec(
                        crate::tree::collect_locked_view(crate::tree::tree_view(*root), false),
                        old(self).root_path@,
                    ),
                )
            }),
    {
        let mut locked_info: Vec<crate::policy::LockRule> = Vec::new();
        let mut allow_create_info: Vec<crate::policy::LockRule> = Vec::new();
        let mut unlocked_info: Vec<crate::policy::LockRule> = Vec::new();
        crate::tree::collect_lock_info(
            root,
            &mut locked_info,
            &mut allow_create_info,
            &mut unlocked_info,
        );
        proof {
            assert(crate::tree::rule_views(locked_info@) =~= crate::tree::collect_locked_view(
                crate::tree::tree_view(*root),
                false,
            ));
            assert(crate::tree::rule_views(allow_create_info@)
                =~= crate::tree::collect_allow_view(crate::tree::tree_view(*root)));
            assert(crate::tree::rule_views(unlocked_info@) =~= crate::tree::collect_unlocked_view(
                crate::tree::tree_view(*root),
                false,
            ));
        }
        let locked_patterns = optimize_patterns(&locked_info, &self.root_path);
        let allow_patterns = optimize_patterns(&allow_create_info, &self.root_path);
        let unlocked_patterns = if unlocked_info.len() > 0 {
            optimize_patterns(&unlocked_info, &self.root_path)
        } else {
            calculate_unlocked_patterns(&locked_patterns)
        };
        self.locked_patterns = locked_patterns;
        self.allow_create_patterns = allow_patterns;
        self.unlocked_patterns = unlocked_patterns;
    }
}

} // verus!
