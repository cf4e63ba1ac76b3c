//! The lock policy store: explicit locked and unlocked path rules and the
//! ancestor-walk that decides whether a path is effectively protected.
//!
//! A rule records a path (relative to the guarded root) and whether that path
//! is a directory. A query walks from the path itself outward through its
//! ancestors: the first explicit rule found decides, except that a locked
//! ancestor is overridden by any explicit unlock lying strictly between it
//! and the queried path.

use vstd::prelude::*;
use crate::path::GuardPath;

verus! {

/// One explicit policy rule: a path and whether it names a directory.
pub struct LockRule {
    pub path: GuardPath,
    pub is_dir: bool,
}

impl Clone for LockRule {
    /// Copies the rule, keeping its path view and directory flag.
    fn clone(&self) -> (r: Self)
        ensures
            r.path@ == self.path@,
            r.is_dir == self.is_dir,
    {
        LockRule { path: self.path.clone(), is_dir: self.is_dir }
    }
}

/// Some rule in `rs` names exactly the path `p`.
pub open spec fn has_rule(rs: Seq<LockRule>, p: Seq<Seq<char>>) -> bool {
    exists|i: int| 0 <= i < rs.len() && rs[i].path@ == p
}

/// An explicit unlock lies strictly between the ancestor `a` of `p` and `p`
/// itself (at `a`'s descendants, at or above `p`).
pub open spec fn unlock_between(
    unlocked: Seq<LockRule>,
    a: Seq<Seq<char>>,
    p: Seq<Seq<char>>,
) -> bool {
    exists|u: int|
        0 <= u < unlocked.len() && a.is_prefix_of(unlocked[u].path@) && unlocked[u].path@ != a
            && unlocked[u].path@.is_prefix_of(p)
}

/// The ancestor walk, inspecting the prefixes of `p` of length `j` down to 0.
pub open spec fn walk_locked(
    locked: Seq<LockRule>,
    unlocked: Seq<LockRule>,
    p: Seq<Seq<char>>,
    j: int,
) -> bool
    decreases j + 1,
{
    if j < 0 {
        false
    } else {
        let a = p.take(j);
        if has_rule(unlocked, a) {
            false
        } else if has_rule(locked, a) {
            !unlock_between(unlocked, a, p)
        } else {
            walk_locked(locked, unlocked, p, j - 1)
        }
    }
}

/// Effective authorization of `p`: the result of the full ancestor walk.
pub open spec fn is_locked_spec(
    locked: Seq<LockRule>,
    unlocked: Seq<LockRule>,
    p: Seq<Seq<char>>,
) -> bool {
    walk_locked(locked, unlocked, p, p.len() as int)
}

/// Which rules a purge removes, relative to a path `p`.
pub enum DropMode {
    /// Only a rule naming exactly `p`.
    Exact,
    /// Rules naming `p` or any descendant of it.
    Subtree,
    /// Rules naming strict descendants of `p`, keeping `p` itself.
    StrictSubtree,
}

/// Whether the purge mode removes a rule with path `q`, relative to `p`.
pub open spec fn drop_hit(q: Seq<Seq<char>>, p: Seq<Seq<char>>, mode: DropMode) -> bool {
    match mode {
        DropMode::Exact => q == p,
        DropMode::Subtree => p.is_prefix_of(q),
        DropMode::StrictSubtree => p.is_prefix_of(q) && q != p,
    }
}

/// The rules of `rs` that the purge keeps, in order.
pub open spec fn drop_matching(rs: Seq<LockRule>, p: Seq<Seq<char>>, mode: DropMode) -> Seq<
    LockRule,
>
    decreases rs.len(),
{
    if rs.len() == 0 {
        rs
    } else {
        let rest = drop_matching(rs.drop_last(), p, mode);
        if drop_hit(rs.last().path@, p, mode) {
            rest
        } else {
            rest.push(rs.last())
        }
    }
}

/// Removes in place every rule the purge mode hits, keeping the rest in order.
fn remove_matching(rules: &mut Vec<LockRule>, p: &GuardPath, mode: DropMode)
    ensures
        final(rules)@ == drop_matching(old(rules)@, p@, mode),
{
    let ghost orig = old(rules)@;
    let ghost m = mode;
    let mut i: usize = 0;
    let ghost mut k: int = 0;
    proof {
        assert(orig.take(0) =~= Seq::<LockRule>::empty());
        assert(orig.skip(0) =~= orig);
    }
    while i < rules.len()
        invariant
            0 <= k <= orig.len(),
            i as int == drop_matching(orig.take(k), p@, m).len(),
            rules@ == drop_matching(orig.take(k), p@, m) + orig.skip(k),
            m == mode,
        decreases orig.len() - k,
    {
        let ghost kept = drop_matching(orig.take(k), p@, m);
        proof {
            assert(orig.skip(k).len() > 0);
            assert(rules@[i as int] == orig.skip(k)[0]);
            assert(orig.skip(k)[0] == orig[k]);
            assert(orig.take(k + 1).drop_last() =~= orig.take(k));
            assert(orig.take(k + 1).last() == orig[k]);
        }
        let rule_path: &GuardPath = &rules[i].path;
        let hit: bool = match mode {
            DropMode::Exact => rule_path.eq_path(p),
            DropMode::Subtree => rule_path.starts_with(p),
            DropMode::StrictSubtree => rule_path.starts_with(p) && rule_path.depth() != p.depth(),
        };
        proof {
            if drop_hit(orig[k].path@, p@, m) {
                if m is StrictSubtree {
                    if orig[k].path@.len() == p@.len() {
                        assert(orig[k].path@ =~= p@);
                    }
                }
            } else {
                if m is StrictSubtree && p@.is_prefix_of(orig[k].path@) {
                    assert(orig[k].path@ == p@);
                    assert(orig[k].path@.len() == p@.len());
                }
            }
            assert(hit == drop_hit(orig[k].path@, p@, m));
        }
        if hit {
            rules.remove(i);
            proof {
                assert(rules@ =~= kept + orig.skip(k + 1));
            }
        } else {
            i += 1;
            proof {
                assert(rules@ =~= drop_matching(orig.take(k + 1), p@, m) + orig.skip(k + 1));
            }
        }
        proof {
            k = k + 1;
        }
    }
    proof {
        assert(orig.skip(k).len() == 0);
        assert(k == orig.len());
        assert(orig.take(k) =~= orig);
    }
}

/// The in-memory authorization model: explicit locked and unlocked rules.
pub struct PolicyStore {
    pub locked: Vec<LockRule>,
    pub unlocked: Vec<LockRule>,
}

/// True when some rule of `rules` names exactly the prefix of `path` of
/// length `j`.
fn find_rule_at_level(rules: &Vec<LockRule>, path: &GuardPath, j: usize) -> (r: bool)
    requires
        j <= path@.len(),
    ensures
        r == has_rule(rules@, path@.take(j as int)),
{
    let ghost a = path@.take(j as int);
    let mut i: usize = 0;
    while i < rules.len()
        invariant
            i <= rules.len(),
            j <= path@.len(),
            a == path@.take(j as int),
            forall|k: int| 0 <= k < i ==> rules@[k].path@ != a,
        decreases rules.len() - i,
    {
        let rule: &LockRule = &rules[i];
        if rule.path.depth() == j && path.starts_with(&rule.path) {
            assert(rule.path@ == a) by {
                assert(rule.path@.is_prefix_of(path@));
                assert(rule.path@ =~= a);
            }
            return true;
        }
        proof {
            if rules@[i as int].path@ == a {
                assert(a.len() == j);
                assert(a.is_prefix_of(path@)) by {
                    assert(path@.take(j as int) =~= a);
                }
            }
        }
        i += 1;
    }
    false
}

/// True when an explicit unlock lies strictly between the length-`j` prefix
/// of `path` and `path` itself.
fn find_unlock_between(unlocked: &Vec<LockRule>, path: &GuardPath, j: usize) -> (r: bool)
    requires
        j <= path@.len(),
    ensures
        r == unlock_between(unlocked@, path@.take(j as int), path@),
{
    let ghost a = path@.take(j as int);
    let mut i: usize = 0;
    while i < unlocked.len()
        invariant
            i <= unlocked.len(),
            j <= path@.len(),
            a == path@.take(j as int),
            forall|k: int|
                0 <= k < i ==> !(a.is_prefix_of(unlocked@[k].path@) && unlocked@[k].path@ != a
                    && unlocked@[k].path@.is_prefix_of(path@)),
        decreases unlocked.len() - i,
    {
        let rule: &LockRule = &unlocked[i];
        if rule.path.depth() > j && path.starts_with(&rule.path) {
            proof {
                let u = rule.path@;
                assert(u.is_prefix_of(path@));
                assert(u.len() > j);
                assert(a.is_prefix_of(u)) by {
                    assert(u.take(j as int) =~= a);
                }
                assert(u != a);
            }
            return true;
        }
        proof {
            let u = unlocked@[i as int].path@;
            if a.is_prefix_of(u) && u != a && u.is_prefix_of(path@) {
                assert(u.len() > j) by {
                    if u.len() == j {
                        assert(u =~= a);
                    }
                }
            }
        }
        i += 1;
    }
    false
}

impl PolicyStore {
    /// An empty store: nothing explicitly locked or unlocked.
    pub fn new() -> (r: Self)
        ensures
            r.locked@ =~= Seq::<LockRule>::empty(),
            r.unlocked@ =~= Seq::<LockRule>::empty(),
    {
        PolicyStore { locked: Vec::new(), unlocked: Vec::new() }
    }

    /// Whether `path` is effectively protected, by the ancestor walk: the
    /// nearest explicit rule decides, and a locked ancestor loses to an
    /// unlock lying strictly between it and `path`.
    pub fn is_locked(&self, path: &GuardPath) -> (r: bool)
        ensures
            r == is_locked_spec(self.locked@, self.unlocked@, path@),
    {
        let mut j: usize = path.depth();
        loop
            invariant
                j <= path@.len(),
                is_locked_spec(self.locked@, self.unlocked@, path@) == walk_locked(
                    self.locked@,
                    self.unlocked@,
                    path@,
                    j as int,
                ),
            decreases j,
        {
            if find_rule_at_level(&self.unlocked, path, j) {
                assert(walk_locked(self.locked@, self.unlocked@, path@, j as int) == false);
                return false;
            }
            if find_rule_at_level(&self.locked, path, j) {
                let betw = find_unlock_between(&self.unlocked, path, j);
                assert(walk_locked(self.locked@, self.unlocked@, path@, j as int)
                    == !unlock_between(self.unlocked@, path@.take(j as int), path@));
                return !betw;
            }
            if j == 0 {
                assert(walk_locked(self.locked@, self.unlocked@, path@, -1) == false);
                assert(walk_locked(self.locked@, self.unlocked@, path@, 0) == false);
                return false;
            }
            assert(walk_locked(self.locked@, self.unlocked@, path@, j as int) == walk_locked(
                self.locked@,
                self.unlocked@,
                path@,
                j as int - 1,
            ));
            j -= 1;
        }
    }

    /// True when some rule of `rules` names exactly `path`.
    fn contains_rule(rules: &Vec<LockRule>, path: &GuardPath) -> (r: bool)
        ensures
            r == has_rule(rules@, path@),
    {
        let mut i: usize = 0;
        while i < rules.len()
            invariant
                i <= rules.len(),
                forall|k: int| 0 <= k < i ==> rules@[k].path@ != path@,
            decreases rules.len() - i,
        {
            let rule: &LockRule = &rules[i];
            if rule.path.eq_path(path) {
                return true;
            }
            i += 1;
        }
        false
    }

    /// Inserts an explicit lock at `path`. The path is removed from the
    /// unlocked set, and when it is a directory every explicit rule below it
    /// is purged: the new rule governs the subtree by itself.
    pub fn lock_path(&mut self, path: GuardPath, is_dir: bool)
        ensures
            final(self).locked@ == drop_matching(
                old(self).locked@,
                path@,
                if is_dir {
                    DropMode::Subtree
                } else {
                    DropMode::Exact
                },
            ).push((LockRule { path: path, is_dir })),
            final(self).unlocked@ == drop_matching(
                old(self).unlocked@,
                path@,
                if is_dir {
                    DropMode::Subtree
                } else {
                    DropMode::Exact
                },
            ),
    {
        let mode = if is_dir {
            DropMode::Subtree
        } else {
            DropMode::Exact
        };
        let mode2 = if is_dir {
            DropMode::Subtree
        } else {
            DropMode::Exact
        };
        remove_matching(&mut self.unlocked, &path, mode);
        remove_matching(&mut self.locked, &path, mode2);
        self.locked.push(LockRule { path, is_dir });
    }

    /// Removes protection at `path`. When `path` carries an explicit lock,
    /// that rule is removed (purging the subtree's rules for a directory);
    /// otherwise, when the path is effectively locked through an ancestor,
    /// an explicit unlock override is inserted. A path that is not locked is
    /// left alone.
    pub fn unlock_path(&mut self, path: GuardPath, is_dir: bool)
        ensures
            has_rule(old(self).locked@, path@) ==> final(self).locked@ == drop_matching(
                old(self).locked@,
                path@,
                if is_dir {
                    DropMode::Subtree
                } else {
                    DropMode::Exact
                },
            ) && final(self).unlocked@ == (if is_dir {
                drop_matching(old(self).unlocked@, path@, DropMode::Subtree)
            } else {
                old(self).unlocked@
            }),
            !has_rule(old(self).locked@, path@) && is_locked_spec(
                old(self).locked@,
                old(self).unlocked@,
                path@,
            ) ==> final(self).locked@ == (if is_dir {
                drop_matching(old(self).locked@, path@, DropMode::StrictSubtree)
            } else {
                old(self).locked@
            }) && final(self).unlocked@ == (if is_dir {
                drop_matching(old(self).unlocked@, path@, DropMode::Subtree)
            } else {
                old(self).unlocked@
            }).push((LockRule { path: path, is_dir })),
            !has_rule(old(self).locked@, path@) && !is_locked_spec(
                old(self).locked@,
                old(self).unlocked@,
                path@,
            ) ==> final(self).locked@ == old(self).locked@ && final(self).unlocked@ == old(
                self,
            ).unlocked@,
    {
        if Self::contains_rule(&self.locked, &path) {
            let mode = if is_dir {
                DropMode::Subtree
            } else {
                DropMode::Exact
            };
            remove_matching(&mut self.locked, &path, mode);
            if is_dir {
                remove_matching(&mut self.unlocked, &path, DropMode::Subtree);
            }
        } else if self.is_locked(&path) {
            if is_dir {
                remove_matching(&mut self.locked, &path, DropMode::StrictSubtree);
                remove_matching(&mut self.unlocked, &path, DropMode::Subtree);
            }
            self.unlocked.push(LockRule { path, is_dir });
        }
    }

    /// Compacts the store to its persisted pattern form: `(locked_patterns,
    /// unlocked_patterns)`, each deduplicated, optimized and sorted, with
    /// unlocked patterns taking precedence over identical locked ones.
    pub fn compact(&self) -> (r: (Vec<String>, Vec<String>))
        requires
            forall|i: int|
                0 <= i < self.locked@.len() ==> self.locked@[i].is_dir || (
                #[trigger] self.locked@[i].path@).len() > 0,
            forall|i: int|
                0 <= i < self.unlocked@.len() ==> self.unlocked@[i].is_dir || (
                #[trigger] self.unlocked@[i].path@).len() > 0,
        ensures
            r.0.deep_view() == compact_locked_spec(
                patterns_of_rules(self.locked@),
                patterns_of_rules(self.unlocked@),
            ),
            r.1.deep_view() == compact_unlocked_spec(patterns_of_rules(self.unlocked@)),
    {
        let lp = render_rules(&self.locked);
        let up = render_rules(&self.unlocked);
        let lp = crate::strutil::dedup_strings(&lp);
        let up = crate::strutil::dedup_strings(&up);
        let lp = crate::pattern::remove_present_strings(&lp, &up);
        let lp = crate::pattern::optimize_patterns_with_context(lp, &up);
        let up = crate::pattern::optimize_patterns(up);
        let locked_out = crate::strutil::sort_strings(&lp);
        let unlocked_out = crate::strutil::sort_strings(&up);
        (locked_out, unlocked_out)
    }

    /// Expands persisted pattern lists back into a rule store: `"**"` is the
    /// root, `"dir/**"` the directory `dir`, anything else a single file.
    pub fn expand(locked_patterns: &Vec<String>, unlocked_patterns: &Vec<String>) -> (r:
        PolicyStore)
        ensures
            r.locked@.len() == locked_patterns.deep_view().len(),
            forall|i: int|
                0 <= i < r.locked@.len() ==> (#[trigger] r.locked@[i]).path@
                    == crate::pattern::pattern_path_segs(locked_patterns.deep_view()[i])
                    && r.locked@[i].is_dir == crate::pattern::spec_pattern_is_dir(
                    locked_patterns.deep_view()[i],
                ),
            r.unlocked@.len() == unlocked_patterns.deep_view().len(),
            forall|i: int|
                0 <= i < r.unlocked@.len() ==> (#[trigger] r.unlocked@[i]).path@
                    == crate::pattern::pattern_path_segs(unlocked_patterns.deep_view()[i])
                    && r.unlocked@[i].is_dir == crate::pattern::spec_pattern_is_dir(
                    unlocked_patterns.deep_view()[i],
                ),
    {
        let locked = Self::expand_rules(locked_patterns);
        let unlocked = Self::expand_rules(unlocked_patterns);
        PolicyStore { locked, unlocked }
    }

    /// Expands one pattern list into rules.
    fn expand_rules(patterns: &Vec<String>) -> (r: Vec<LockRule>)
        ensures
            r@.len() == patterns.deep_view().len(),
            forall|i: int|
                0 <= i < r@.len() ==> (#[trigger] r@[i]).path@
                    == crate::pattern::pattern_path_segs(patterns.deep_view()[i])
                    && r@[i].is_dir == crate::pattern::spec_pattern_is_dir(
                    patterns.deep_view()[i],
                ),
    {
        let ghost pv = patterns.deep_view();
        let mut out: Vec<LockRule> = Vec::new();
        let mut i: usize = 0;
        let root = GuardPath::root();
        while i < patterns.len()
            invariant
                i <= patterns.len(),
                patterns.deep_view() == pv,
                pv.len() == patterns.len(),
                root@ == Seq::<Seq<char>>::empty(),
                out@.len() == i,
                forall|k: int|
                    0 <= k < i ==> (#[trigger] out@[k]).path@ == crate::pattern::pattern_path_segs(
                        pv[k],
                    ) && out@[k].is_dir == crate::pattern::spec_pattern_is_dir(pv[k]),
            decreases patterns.len() - i,
        {
            let pat: &String = &patterns[i];
            assert(pat@ == pv[i as int]);
            let is_dir = crate::pattern::pattern_is_dir(pat.as_str());
            let path = match crate::pattern::pattern_to_path(&root, pat.as_str()) {
                Some(p) => p,
                None => GuardPath::root(),
            };
            assert(path@ =~= crate::pattern::pattern_path_segs(pat@));
            out.push(LockRule { path, is_dir });
            i += 1;
        }
        out
    }
}

/// The pattern strings that render a rule list, in order.
pub open spec fn patterns_of_rules(rs: Seq<LockRule>) -> Seq<Seq<char>> {
    Seq::new(rs.len(), |i: int| crate::pattern::pattern_of_rule(rs[i].path@, rs[i].is_dir))
}

/// The persisted locked-pattern list: rendered, deduplicated, with patterns
/// also present among the unlocked ones removed, optimized against the
/// unlocked context, and sorted.
pub open spec fn compact_locked_spec(lp: Seq<Seq<char>>, up: Seq<Seq<char>>) -> Seq<Seq<char>> {
    crate::strutil::sort_lex(
        crate::pattern::optimize_pats_ctx(
            crate::pattern::remove_present(
                crate::strutil::dedup_first(lp),
                crate::strutil::dedup_first(up),
            ),
            crate::strutil::dedup_first(up),
        ),
    )
}

/// The persisted unlocked-pattern list: rendered, deduplicated, optimized,
/// sorted.
pub open spec fn compact_unlocked_spec(up: Seq<Seq<char>>) -> Seq<Seq<char>> {
    crate::strutil::sort_lex(crate::pattern::optimize_pats(crate::strutil::dedup_first(up)))
}

/// Renders each rule as its pattern string.
fn render_rules(rules: &Vec<LockRule>) -> (r: Vec<String>)
    requires
        forall|i: int|
            0 <= i < rules@.len() ==> rules@[i].is_dir || (#[trigger] rules@[i].path@).len() > 0,
    ensures
        r.deep_view() == patterns_of_rules(rules@),
{
    let mut out: Vec<String> = Vec::new();
    let mut i: usize = 0;
    while i < rules.len()
        invariant
            i <= rules.len(),
            forall|k: int|
                0 <= k < rules@.len() ==> rules@[k].is_dir || (#[trigger] rules@[k].path@).len()
                    > 0,
            out.deep_view().len() == i,
            forall|k: int|
                0 <= k < i ==> out.deep_view()[k] == crate::pattern::pattern_of_rule(
                    rules@[k].path@,
                    rules@[k].is_dir,
                ),
        decreases rules.len() - i,
    {
        let rule: &LockRule = &rules[i];
        let pat = crate::pattern::make_pattern(&rule.path, rule.is_dir);
        crate::strutil::push_string(&mut out, pat);
        i += 1;
    }
    assert(out.deep_view() =~= patterns_of_rules(rules@));
    out
}

proof fn lemma_prefixes_comparable(a: Seq<Seq<char>>, b: Seq<Seq<char>>, q: Seq<Seq<char>>)
    requires
        a.is_prefix_of(q),
        b.is_prefix_of(q),
        a.len() <= b.len(),
    ensures
        a.is_prefix_of(b),
{
    assert(b.take(a.len() as int) =~= a) by {
        assert(forall|j: int| 0 <= j < a.len() ==> a[j] == q[j] && b[j] == q[j]);
    }
}

proof fn lemma_has_rule_push(rs: Seq<LockRule>, r: LockRule, q: Seq<Seq<char>>)
    ensures
        has_rule(rs.push(r), q) == (has_rule(rs, q) || r.path@ == q),
{
    if has_rule(rs, q) {
        let i = choose|i: int| 0 <= i < rs.len() && rs[i].path@ == q;
        assert(rs.push(r)[i].path@ == q);
    }
    if r.path@ == q {
        assert(rs.push(r)[rs.len() as int].path@ == q);
    }
    if has_rule(rs.push(r), q) && !(r.path@ == q) {
        let i = choose|i: int| 0 <= i < rs.push(r).len() && rs.push(r)[i].path@ == q;
        assert(i < rs.len());
        assert(rs[i].path@ == q);
    }
}

/// A purge removes exactly the rules its mode hits: a path keeps a rule
/// afterwards iff it had one before and the mode does not hit it.
pub proof fn lemma_drop_matching_has_rule(
    rs: Seq<LockRule>,
    p: Seq<Seq<char>>,
    mode: DropMode,
    q: Seq<Seq<char>>,
)
    ensures
        has_rule(drop_matching(rs, p, mode), q) == (has_rule(rs, q) && !drop_hit(q, p, mode)),
    decreases rs.len(),
{
    if rs.len() == 0 {
        assert(!has_rule(rs, q));
        assert(!has_rule(drop_matching(rs, p, mode), q));
    } else {
        let front = rs.drop_last();
        let last = rs.last();
        lemma_drop_matching_has_rule(front, p, mode, q);
        assert(has_rule(rs, q) == (has_rule(front, q) || last.path@ == q)) by {
            assert(front.push(last) =~= rs);
            lemma_has_rule_push(front, last, q);
        }
        if drop_hit(last.path@, p, mode) {
            assert(drop_matching(rs, p, mode) == drop_matching(front, p, mode));
            if last.path@ == q {
                assert(drop_hit(q, p, mode));
            }
        } else {
            assert(drop_matching(rs, p, mode) == drop_matching(front, p, mode).push(last));
            lemma_has_rule_push(drop_matching(front, p, mode), last, q);
        }
    }
}

/// Every rule kept by a purge is not hit by the mode, and its path had a
/// rule in the original list.
pub proof fn lemma_drop_matching_elems(rs: Seq<LockRule>, p: Seq<Seq<char>>, mode: DropMode)
    ensures
        forall|i: int|
            0 <= i < drop_matching(rs, p, mode).len() ==> {
                let kept = #[trigger] drop_matching(rs, p, mode)[i];
                !drop_hit(kept.path@, p, mode) && has_rule(rs, kept.path@)
            },
    decreases rs.len(),
{
    if rs.len() == 0 {
    } else {
        let front = rs.drop_last();
        let last = rs.last();
        lemma_drop_matching_elems(front, p, mode);
        assert(front.push(last) =~= rs);
        assert forall|q: Seq<Seq<char>>| has_rule(front, q) implies has_rule(rs, q) by {
            lemma_has_rule_push(front, last, q);
        }
        if !drop_hit(last.path@, p, mode) {
            let result = drop_matching(rs, p, mode);
            assert(result == drop_matching(front, p, mode).push(last));
            assert(has_rule(rs, last.path@)) by {
                assert(rs[rs.len() - 1].path@ == last.path@);
            }
            assert forall|i: int| 0 <= i < result.len() implies {
                let kept = #[trigger] result[i];
                !drop_hit(kept.path@, p, mode) && has_rule(rs, kept.path@)
            } by {
                if i < result.len() - 1 {
                    assert(result[i] == drop_matching(front, p, mode)[i]);
                } else {
                    assert(result[i] == last);
                }
            }
        }
    }
}

/// An explicit unlock at or above `p`, with no deeper explicit lock between
/// it and `p`, makes `p` unlocked.
pub proof fn lemma_unlock_override_wins(
    locked: Seq<LockRule>,
    unlocked: Seq<LockRule>,
    p: Seq<Seq<char>>,
    u: Seq<Seq<char>>,
)
    requires
        has_rule(unlocked, u),
        u.is_prefix_of(p),
        forall|i: int|
            0 <= i < locked.len() ==> !(u.is_prefix_of(#[trigger] locked[i].path@)
                && locked[i].path@ != u && locked[i].path@.is_prefix_of(p)),
    ensures
        !is_locked_spec(locked, unlocked, p),
{
    lemma_walk_false_from(locked, unlocked, p, u, p.len() as int);
}

proof fn lemma_walk_false_from(
    locked: Seq<LockRule>,
    unlocked: Seq<LockRule>,
    p: Seq<Seq<char>>,
    u: Seq<Seq<char>>,
    j: int,
)
    requires
        has_rule(unlocked, u),
        u.is_prefix_of(p),
        u.len() <= j <= p.len(),
        forall|i: int|
            0 <= i < locked.len() ==> !(u.is_prefix_of(#[trigger] locked[i].path@)
                && locked[i].path@ != u && locked[i].path@.is_prefix_of(p)),
    ensures
        !walk_locked(locked, unlocked, p, j),
    decreases j,
{
    let a = p.take(j);
    assert(a.is_prefix_of(p)) by {
        assert(p.take(j).is_prefix_of(p));
    }
    assert(u.is_prefix_of(a)) by {
        lemma_prefixes_comparable(u, a, p);
    }
    if has_rule(unlocked, a) {
    } else {
        assert(a != u) by {
            if a == u {
                assert(has_rule(unlocked, a));
            }
        }
        if has_rule(locked, a) {
            let i = choose|i: int| 0 <= i < locked.len() && locked[i].path@ == a;
            assert(!(u.is_prefix_of(locked[i].path@) && locked[i].path@ != u
                && locked[i].path@.is_prefix_of(p)));
            assert(false);
        } else {
            assert(j > u.len()) by {
                if j == u.len() {
                    assert(a =~= u);
                }
            }
            lemma_walk_false_from(locked, unlocked, p, u, j - 1);
        }
    }
}

/// An explicit lock at or above `p`, with no explicit unlock at or between
/// it and `p`, makes `p` locked.
pub proof fn lemma_lock_wins(
    locked: Seq<LockRule>,
    unlocked: Seq<LockRule>,
    p: Seq<Seq<char>>,
    l: Seq<Seq<char>>,
)
    requires
        has_rule(locked, l),
        l.is_prefix_of(p),
        forall|i: int|
            0 <= i < unlocked.len() ==> !(l.is_prefix_of(#[trigger] unlocked[i].path@)
                && unlocked[i].path@.is_prefix_of(p)),
    ensures
        is_locked_spec(locked, unlocked, p),
{
    lemma_walk_true_from(locked, unlocked, p, l, p.len() as int);
}

proof fn lemma_walk_true_from(
    locked: Seq<LockRule>,
    unlocked: Seq<LockRule>,
    p: Seq<Seq<char>>,
    l: Seq<Seq<char>>,
    j: int,
)
    requires
        has_rule(locked, l),
        l.is_prefix_of(p),
        l.len() <= j <= p.len(),
        forall|i: int|
            0 <= i < unlocked.len() ==> !(l.is_prefix_of(#[trigger] unlocked[i].path@)
                && unlocked[i].path@.is_prefix_of(p)),
    ensures
        walk_locked(locked, unlocked, p, j),
    decreases j,
{
    let a = p.take(j);
    assert(a.is_prefix_of(p)) by {
        assert(p.take(j).is_prefix_of(p));
    }
    assert(l.is_prefix_of(a)) by {
        lemma_prefixes_comparable(l, a, p);
    }
    assert(!has_rule(unlocked, a)) by {
        if has_rule(unlocked, a) {
            let i = choose|i: int| 0 <= i < unlocked.len() && unlocked[i].path@ == a;
        }
    }
    if has_rule(locked, a) {
        assert(!unlock_between(unlocked, a, p)) by {
            if unlock_between(unlocked, a, p) {
                let i = choose|i: int|
                    0 <= i < unlocked.len() && a.is_prefix_of(unlocked[i].path@)
                        && unlocked[i].path@ != a && unlocked[i].path@.is_prefix_of(p);
                assert(l.is_prefix_of(unlocked[i].path@)) by {
                    lemma_prefixes_comparable(l, a, p);
                    assert(forall|k: int| 0 <= k < l.len() ==> l[k] == a[k]);
                    assert(l.is_prefix_of(a) && a.is_prefix_of(unlocked[i].path@));
                    lemma_prefix_transitive(l, a, unlocked[i].path@);
                }
            }
        }
    } else {
        assert(j > l.len()) by {
            if j == l.len() {
                assert(a =~= l);
            }
        }
        lemma_walk_true_from(locked, unlocked, p, l, j - 1);
    }
}

proof fn lemma_prefix_transitive(a: Seq<Seq<char>>, b: Seq<Seq<char>>, c: Seq<Seq<char>>)
    requires
        a.is_prefix_of(b),
        b.is_prefix_of(c),
    ensures
        a.is_prefix_of(c),
{
    assert(c.take(a.len() as int) =~= a) by {
        assert(forall|j: int| 0 <= j < a.len() ==> a[j] == b[j] && b[j] == c[j]);
    }
}

/// A path with no explicit lock at or above it is unlocked, whatever the
/// unlock rules say.
pub proof fn lemma_no_lock_above_unlocked(
    locked: Seq<LockRule>,
    unlocked: Seq<LockRule>,
    p: Seq<Seq<char>>,
)
    requires
        forall|i: int|
            0 <= i < locked.len() ==> !(#[trigger] locked[i].path@).is_prefix_of(p),
    ensures
        !is_locked_spec(locked, unlocked, p),
{
    lemma_walk_false_no_lock(locked, unlocked, p, p.len() as int);
}

proof fn lemma_walk_false_no_lock(
    locked: Seq<LockRule>,
    unlocked: Seq<LockRule>,
    p: Seq<Seq<char>>,
    j: int,
)
    requires
        j <= p.len(),
        forall|i: int|
            0 <= i < locked.len() ==> !(#[trigger] locked[i].path@).is_prefix_of(p),
    ensures
        !walk_locked(locked, unlocked, p, j),
    decreases j + 1,
{
    if j < 0 {
    } else {
        let a = p.take(j);
        assert(a.is_prefix_of(p)) by {
            assert(p.take(j).is_prefix_of(p));
        }
        assert(!has_rule(locked, a)) by {
            if has_rule(locked, a) {
                let i = choose|i: int| 0 <= i < locked.len() && locked[i].path@ == a;
            }
        }
        lemma_walk_false_no_lock(locked, unlocked, p, j - 1);
    }
}

/// Compacting an expanded well-formed pattern list yields its canonical
/// form: `compact(expand(P)) == canonical(P)` when no pattern is unlocked.
pub proof fn lemma_compact_expand_canonical(rules: Seq<LockRule>, pats: Seq<Seq<char>>)
    requires
        forall|i: int| 0 <= i < pats.len() ==> crate::pattern::wf_pattern(#[trigger] pats[i]),
        rules.len() == pats.len(),
        forall|i: int|
            0 <= i < rules.len() ==> (#[trigger] rules[i]).path@
                == crate::pattern::pattern_path_segs(pats[i]) && rules[i].is_dir
                == crate::pattern::spec_pattern_is_dir(pats[i]),
    ensures
        compact_locked_spec(patterns_of_rules(rules), patterns_of_rules(Seq::<LockRule>::empty()))
            == crate::pattern::canonical_patterns(pats),
{
    assert(patterns_of_rules(rules) =~= pats) by {
        assert forall|i: int| 0 <= i < rules.len() implies patterns_of_rules(rules)[i]
            == pats[i] by {
            assert(patterns_of_rules(rules)[i] == crate::pattern::pattern_of_rule(
                rules[i].path@,
                rules[i].is_dir,
            ));
            crate::pattern::lemma_repattern_id(pats[i]);
        }
    }
    assert(patterns_of_rules(Seq::<LockRule>::empty()) =~= Seq::<Seq<char>>::empty());
    assert(crate::strutil::dedup_first(Seq::<Seq<char>>::empty()) == Seq::<Seq<char>>::empty());
    crate::pattern::lemma_remove_present_empty(crate::strutil::dedup_first(pats));
}

/// Locking `p` and then unlocking it leaves no explicit rule at `p`.
pub proof fn lemma_lock_unlock_round_trip(
    locked: Seq<LockRule>,
    unlocked: Seq<LockRule>,
    p: Seq<Seq<char>>,
    is_dir: bool,
    r1: LockRule,
)
    requires
        r1.path@ == p,
    ensures
        ({
            let mode = if is_dir {
                DropMode::Subtree
            } else {
                DropMode::Exact
            };
            let locked1 = drop_matching(locked, p, mode).push(r1);
            let unlocked1 = drop_matching(unlocked, p, mode);
            let locked2 = drop_matching(locked1, p, mode);
            let unlocked2 = if is_dir {
                drop_matching(unlocked1, p, DropMode::Subtree)
            } else {
                unlocked1
            };
            !has_rule(locked2, p) && !has_rule(unlocked2, p)
        }),
{
    let mode = if is_dir {
        DropMode::Subtree
    } else {
        DropMode::Exact
    };
    let locked1 = drop_matching(locked, p, mode).push(r1);
    let unlocked1 = drop_matching(unlocked, p, mode);
    assert(drop_hit(p, p, mode)) by {
        assert(p.is_prefix_of(p)) by {
            assert(p.take(p.len() as int) =~= p);
        }
    }
    lemma_drop_matching_has_rule(locked1, p, mode, p);
    lemma_drop_matching_has_rule(unlocked, p, mode, p);
    if is_dir {
        lemma_drop_matching_has_rule(unlocked1, p, DropMode::Subtree, p);
    }
}

/// Locking a directory makes every path below it (and the directory itself)
/// effectively locked.
pub proof fn lemma_lock_dir_locks_descendants(
    locked: Seq<LockRule>,
    unlocked: Seq<LockRule>,
    p: Seq<Seq<char>>,
    r1: LockRule,
    q: Seq<Seq<char>>,
)
    requires
        r1.path@ == p,
        p.is_prefix_of(q),
    ensures
        is_locked_spec(
            drop_matching(locked, p, DropMode::Subtree).push(r1),
            drop_matching(unlocked, p, DropMode::Subtree),
            q,
        ),
{
    let locked1 = drop_matching(locked, p, DropMode::Subtree).push(r1);
    let unlocked1 = drop_matching(unlocked, p, DropMode::Subtree);
    assert(has_rule(locked1, p)) by {
        assert(locked1[locked1.len() - 1].path@ == p);
    }
    assert forall|i: int|
        0 <= i < unlocked1.len() implies !(p.is_prefix_of(#[trigger] unlocked1[i].path@)
        && unlocked1[i].path@.is_prefix_of(q)) by {
        lemma_drop_matching_elems(unlocked, p, DropMode::Subtree);
    }
    lemma_lock_wins(locked1, unlocked1, q, p);
}

/// Unlocking a directory through an explicit override frees every path at or
/// below it: after the override no descendant is effectively locked.
pub proof fn lemma_unlock_override_frees_descendants(
    locked: Seq<LockRule>,
    unlocked: Seq<LockRule>,
    p: Seq<Seq<char>>,
    r1: LockRule,
    q: Seq<Seq<char>>,
)
    requires
        r1.path@ == p,
        p.is_prefix_of(q),
    ensures
        !is_locked_spec(
            drop_matching(locked, p, DropMode::StrictSubtree),
            drop_matching(unlocked, p, DropMode::Subtree).push(r1),
            q,
        ),
{
    let locked1 = drop_matching(locked, p, DropMode::StrictSubtree);
    let unlocked1 = drop_matching(unlocked, p, DropMode::Subtree).push(r1);
    assert(has_rule(unlocked1, p)) by {
        assert(unlocked1[unlocked1.len() - 1].path@ == p);
    }
    assert forall|i: int|
        0 <= i < locked1.len() implies !(p.is_prefix_of(#[trigger] locked1[i].path@)
        && locked1[i].path@ != p && locked1[i].path@.is_prefix_of(q)) by {
        lemma_drop_matching_elems(locked, p, DropMode::StrictSubtree);
    }
    lemma_unlock_override_wins(locked1, unlocked1, q, p);
}

/// Removing a directory's explicit lock frees every path below it, provided
/// no lock stands strictly above the directory.
pub proof fn lemma_unlock_removal_frees_descendants(
    locked: Seq<LockRule>,
    unlocked: Seq<LockRule>,
    p: Seq<Seq<char>>,
    q: Seq<Seq<char>>,
)
    requires
        p.is_prefix_of(q),
        forall|i: int|
            0 <= i < locked.len() ==> !((#[trigger] locked[i].path@).is_prefix_of(p)
                && locked[i].path@ != p),
    ensures
        !is_locked_spec(
            drop_matching(locked, p, DropMode::Subtree),
            drop_matching(unlocked, p, DropMode::Subtree),
            q,
        ),
{
    let locked1 = drop_matching(locked, p, DropMode::Subtree);
    let unlocked1 = drop_matching(unlocked, p, DropMode::Subtree);
    assert forall|i: int|
        0 <= i < locked1.len() implies !(#[trigger] locked1[i].path@).is_prefix_of(q) by {
        lemma_drop_matching_elems(locked, p, DropMode::Subtree);
        let lp = locked1[i].path@;
        assert(!drop_hit(lp, p, DropMode::Subtree) && has_rule(locked, lp));
        if lp.is_prefix_of(q) {
            if lp.len() >= p.len() {
                lemma_prefixes_comparable(p, lp, q);
                assert(drop_hit(lp, p, DropMode::Subtree));
            } else {
                lemma_prefixes_comparable(lp, p, q);
                assert(lp != p);
                let w = choose|w: int| 0 <= w < locked.len() && locked[w].path@ == lp;
                assert(!(locked[w].path@.is_prefix_of(p) && locked[w].path@ != p));
                assert(false);
            }
        }
    }
    lemma_no_lock_above_unlocked(locked1, unlocked1, q);
}

} // verus!
