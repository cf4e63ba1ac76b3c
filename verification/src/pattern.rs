//! Compact glob-like patterns over guarded paths.
//!
//! A pattern is either `"**"` (the whole root), `"dir/**"` (a directory and
//! everything under it) or a plain relative path (a single file). This module
//! gives the covering relation between patterns, the conversions between
//! patterns and path rules, and the redundancy-removing optimizers used when
//! the policy is persisted.

use vstd::prelude::*;
use vstd::string::*;
use crate::path::GuardPath;
use crate::strutil::{lex_leq, path_segments, join_segs, sort_lex, sort_strings, str_eq,
    str_ends_with, str_starts_with};

verus! {

/// The characters of the root pattern `"**"`.
pub open spec fn star_star() -> Seq<char> {
    seq!['*', '*']
}

/// The characters of the directory-pattern suffix `"/**"`.
pub open spec fn slash_star_star() -> Seq<char> {
    seq!['/', '*', '*']
}

/// `gen` names a directory subtree: it ends in `"/**"`.
pub open spec fn is_dir_pattern(gen: Seq<char>) -> bool {
    gen.len() >= 3 && gen.skip(gen.len() - 3) == slash_star_star()
}

/// The directory part of a `"dir/**"` pattern.
pub open spec fn dir_pattern_base(gen: Seq<char>) -> Seq<char> {
    gen.take(gen.len() - 3)
}

/// The covering relation: `gen` subsumes `sp` when `gen` is `"**"`, or when
/// `gen` is `"dir/**"` and `sp` names that directory or anything below it.
pub open spec fn pattern_covered(sp: Seq<char>, gen: Seq<char>) -> bool {
    if gen == star_star() {
        true
    } else if is_dir_pattern(gen) {
        let pre = dir_pattern_base(gen);
        pre.is_prefix_of(sp) && (sp.len() == pre.len() || sp[pre.len() as int] == '/')
    } else {
        false
    }
}

/// Decides whether `general` covers `specific`.
pub fn is_pattern_covered(specific: &str, general: &str) -> (r: bool)
    ensures
        r == pattern_covered(specific@, general@),
{
    proof {
        reveal_strlit("**");
        reveal_strlit("/**");
    }
    if str_eq(general, "**") {
        assert(general@ =~= star_star());
        return true;
    }
    assert(general@ != star_star()) by {
        assert("**"@ =~= star_star());
    }
    if !str_ends_with(general, "/**") {
        assert(!is_dir_pattern(general@)) by {
            if is_dir_pattern(general@) {
                assert(general@.skip(general@.len() - 3) =~= "/**"@);
            }
        }
        return false;
    }
    let glen = general.unicode_len();
    assert(glen >= 3) by {
        assert("/**"@.len() == 3);
    }
    assert(is_dir_pattern(general@)) by {
        assert(general@.skip(general@.len() - 3) =~= "/**"@);
        assert("/**"@ =~= slash_star_star());
    }
    let pre = general.substring_char(0, glen - 3);
    assert(pre@ == dir_pattern_base(general@));
    if !str_starts_with(specific, pre) {
        return false;
    }
    let slen = specific.unicode_len();
    if slen == glen - 3 {
        return true;
    }
    assert(slen > glen - 3) by {
        assert(pre@.is_prefix_of(specific@));
    }
    specific.get_char(glen - 3) == '/'
}

/// The path segments a pattern stands for, relative to the root.
pub open spec fn pattern_path_segs(pat: Seq<char>) -> Seq<Seq<char>> {
    if pat == star_star() {
        Seq::empty()
    } else if is_dir_pattern(pat) {
        path_segments(dir_pattern_base(pat))
    } else {
        path_segments(pat)
    }
}

/// Resolves a pattern to the path it protects: `"**"` is the root itself,
/// `"dir/**"` is `root/dir`, anything else is `root/<pattern>`.
pub fn pattern_to_path(root: &GuardPath, pattern: &str) -> (r: Option<GuardPath>)
    ensures
        r is Some,
        r->0@ == root@ + pattern_path_segs(pattern@),
{
    proof {
        reveal_strlit("**");
        reveal_strlit("/**");
    }
    if str_eq(pattern, "**") {
        assert(pattern@ =~= star_star());
        let p = root.clone();
        assert(p@ =~= root@ + pattern_path_segs(pattern@));
        return Some(p);
    }
    assert(pattern@ != star_star()) by {
        assert("**"@ =~= star_star());
    }
    if str_ends_with(pattern, "/**") {
        let plen = pattern.unicode_len();
        assert(plen >= 3) by {
            assert("/**"@.len() == 3);
        }
        assert(is_dir_pattern(pattern@)) by {
            assert(pattern@.skip(pattern@.len() - 3) =~= "/**"@);
            assert("/**"@ =~= slash_star_star());
        }
        let base = pattern.substring_char(0, plen - 3);
        assert(base@ == dir_pattern_base(pattern@));
        Some(root.join(base))
    } else {
        assert(!is_dir_pattern(pattern@)) by {
            if is_dir_pattern(pattern@) {
                assert(pattern@.skip(pattern@.len() - 3) =~= "/**"@);
            }
        }
        Some(root.join(pattern))
    }
}

/// The pattern that names the rule `(path, is_dir)`: the root directory is
/// `"**"`, another directory is `"path/**"`, a file is its plain path.
pub open spec fn pattern_of_rule(path: Seq<Seq<char>>, is_dir: bool) -> Seq<char> {
    if is_dir && path.len() == 0 {
        star_star()
    } else if is_dir {
        join_segs(path) + slash_star_star()
    } else {
        join_segs(path)
    }
}

/// Renders a rule as its pattern string.
pub fn make_pattern(path: &GuardPath, is_dir: bool) -> (r: String)
    requires
        is_dir || path@.len() > 0,
    ensures
        r@ == pattern_of_rule(path@, is_dir),
{
    proof {
        reveal_strlit("**");
        reveal_strlit("/**");
    }
    if is_dir && path.is_root() {
        let s: String = "**".to_owned();
        assert(s@ =~= star_star());
        s
    } else if is_dir {
        let mut s = path.to_display();
        s.append("/**");
        assert(s@ =~= join_segs(path@) + slash_star_star()) by {
            assert("/**"@ =~= slash_star_star());
        }
        s
    } else {
        path.to_display()
    }
}

/// Whether the pattern names a directory subtree (`"**"` or `"dir/**"`).
pub open spec fn spec_pattern_is_dir(pat: Seq<char>) -> bool {
    pat == star_star() || is_dir_pattern(pat)
}

/// Decides whether the pattern names a directory subtree.
pub fn pattern_is_dir(pattern: &str) -> (r: bool)
    ensures
        r == spec_pattern_is_dir(pattern@),
{
    proof {
        reveal_strlit("**");
        reveal_strlit("/**");
        assert("**"@ =~= star_star());
    }
    if str_eq(pattern, "**") {
        return true;
    }
    if str_ends_with(pattern, "/**") {
        assert(is_dir_pattern(pattern@)) by {
            assert(pattern@.len() >= 3) by {
                assert("/**"@.len() == 3);
            }
            assert(pattern@.skip(pattern@.len() - 3) =~= "/**"@);
            assert("/**"@ =~= slash_star_star());
        }
        true
    } else {
        assert(!is_dir_pattern(pattern@)) by {
            if is_dir_pattern(pattern@) {
                assert(pattern@.skip(pattern@.len() - 3) =~= "/**"@);
            }
        }
        false
    }
}

/// A well-formed pattern: the root pattern, or a directory or file pattern
/// whose path part is a canonical slash-joined, non-empty relative path.
pub open spec fn wf_pattern(pat: Seq<char>) -> bool {
    if pat == star_star() {
        true
    } else if is_dir_pattern(pat) {
        let base = dir_pattern_base(pat);
        base.len() > 0 && path_segments(base).len() > 0 && join_segs(path_segments(base)) == base
    } else {
        pat.len() > 0 && path_segments(pat).len() > 0 && join_segs(path_segments(pat)) == pat
    }
}

/// Re-renders a pattern from the rule it expands to.
pub open spec fn repattern(pat: Seq<char>) -> Seq<char> {
    pattern_of_rule(pattern_path_segs(pat), spec_pattern_is_dir(pat))
}

/// Expanding a well-formed pattern to its rule and rendering the rule back
/// yields the same pattern.
pub proof fn lemma_repattern_id(pat: Seq<char>)
    requires
        wf_pattern(pat),
    ensures
        repattern(pat) == pat,
{
    if pat == star_star() {
        assert(!is_dir_pattern(pat)) by {
            assert(pat.len() == 2);
        }
        assert(pattern_path_segs(pat) == Seq::<Seq<char>>::empty());
        assert(repattern(pat) == star_star());
    } else if is_dir_pattern(pat) {
        let base = dir_pattern_base(pat);
        let segs = path_segments(base);
        assert(pattern_path_segs(pat) == segs);
        assert(spec_pattern_is_dir(pat));
        assert(repattern(pat) == join_segs(segs) + slash_star_star());
        assert(join_segs(segs) == base);
        assert(base + slash_star_star() =~= pat) by {
            assert(pat.skip(pat.len() - 3) == slash_star_star());
        }
    } else {
        assert(repattern(pat) == join_segs(path_segments(pat)));
    }
}

/// Drops from `a` every element that occurs in `b`.
pub open spec fn remove_present(a: Seq<Seq<char>>, b: Seq<Seq<char>>) -> Seq<Seq<char>>
    decreases a.len(),
{
    if a.len() == 0 {
        a
    } else {
        let rest = remove_present(a.drop_last(), b);
        if b.contains(a.last()) {
            rest
        } else {
            rest.push(a.last())
        }
    }
}

/// With nothing to remove, `remove_present` keeps the list as it is.
pub proof fn lemma_remove_present_empty(a: Seq<Seq<char>>)
    ensures
        remove_present(a, Seq::<Seq<char>>::empty()) == a,
    decreases a.len(),
{
    if a.len() == 0 {
    } else {
        lemma_remove_present_empty(a.drop_last());
        assert(!Seq::<Seq<char>>::empty().contains(a.last()));
        assert(remove_present(a, Seq::<Seq<char>>::empty()) =~= a);
    }
}

/// True when some string of `v` has the characters of `s`.
pub fn contains_string(v: &Vec<String>, s: &str) -> (r: bool)
    ensures
        r == v.deep_view().contains(s@),
{
    let ghost dv = v.deep_view();
    let mut i: usize = 0;
    while i < v.len()
        invariant
            i <= v.len(),
            v.deep_view() == dv,
            dv.len() == v.len(),
            forall|k: int| 0 <= k < i ==> dv[k] != s@,
        decreases v.len() - i,
    {
        let x: &String = &v[i];
        assert(x@ == dv[i as int]);
        if str_eq(x.as_str(), s) {
            assert(dv.contains(s@)) by {
                assert(dv[i as int] == s@);
            }
            return true;
        }
        i += 1;
    }
    assert(!dv.contains(s@)) by {
        if dv.contains(s@) {
            let k = choose|k: int| 0 <= k < dv.len() && dv[k] == s@;
        }
    }
    false
}

/// Keeps the strings of `a` that do not occur in `b`.
pub fn remove_present_strings(a: &Vec<String>, b: &Vec<String>) -> (r: Vec<String>)
    ensures
        r.deep_view() == remove_present(a.deep_view(), b.deep_view()),
{
    let ghost av = a.deep_view();
    let mut out: Vec<String> = Vec::new();
    let mut i: usize = 0;
    assert(out.deep_view() =~= remove_present(av.take(0), b.deep_view()));
    while i < a.len()
        invariant
            i <= a.len(),
            a.deep_view() == av,
            av.len() == a.len(),
            out.deep_view() == remove_present(av.take(i as int), b.deep_view()),
        decreases a.len() - i,
    {
        let x: &String = &a[i];
        assert(x@ == av[i as int]);
        proof {
            assert(av.take(i as int + 1).drop_last() =~= av.take(i as int));
            assert(av.take(i as int + 1).last() == av[i as int]);
        }
        if !contains_string(b, x.as_str()) {
            crate::strutil::push_string(&mut out, x.clone());
        }
        i += 1;
    }
    assert(av.take(a.len() as int) =~= av);
    out
}

/// The canonical form of a pattern list: duplicates removed, redundant
/// patterns dropped, sorted.
pub open spec fn canonical_patterns(p: Seq<Seq<char>>) -> Seq<Seq<char>> {
    sort_lex(optimize_pats(crate::strutil::dedup_first(p)))
}

/// Some pattern already kept in `acc` covers `p`.
pub open spec fn covered_by_some(acc: Seq<Seq<char>>, p: Seq<char>) -> bool {
    exists|j: int| 0 <= j < acc.len() && pattern_covered(p, acc[j])
}

/// `p` lies inside one of the unlocked patterns `unl`, so it must be kept to
/// re-assert protection inside that unlocked zone.
pub open spec fn needed_override(p: Seq<char>, unl: Seq<Seq<char>>) -> bool {
    exists|k: int| 0 <= k < unl.len() && pattern_covered(p, unl[k])
}

/// Drops from `acc` every pattern that `p` covers, unless the covered pattern
/// is needed to override one of the unlocked patterns `unl`.
pub open spec fn retain_for(acc: Seq<Seq<char>>, p: Seq<char>, unl: Seq<Seq<char>>) -> Seq<
    Seq<char>,
>
    decreases acc.len(),
{
    if acc.len() == 0 {
        acc
    } else {
        let rest = retain_for(acc.drop_last(), p, unl);
        if pattern_covered(acc.last(), p) && !needed_override(acc.last(), unl) {
            rest
        } else {
            rest.push(acc.last())
        }
    }
}

/// One step of the optimizer: skip `p` when it is redundant, otherwise drop
/// what it covers and keep it.
pub open spec fn optimize_step(acc: Seq<Seq<char>>, p: Seq<char>, unl: Seq<Seq<char>>) -> Seq<
    Seq<char>,
> {
    if covered_by_some(acc, p) && !needed_override(p, unl) {
        acc
    } else {
        retain_for(acc, p, unl).push(p)
    }
}

/// Folds the optimizer step over a pattern sequence.
pub open spec fn optimize_fold(acc: Seq<Seq<char>>, s: Seq<Seq<char>>, unl: Seq<Seq<char>>) -> Seq<
    Seq<char>,
>
    decreases s.len(),
{
    if s.len() == 0 {
        acc
    } else {
        optimize_fold(optimize_step(acc, s[0], unl), s.drop_first(), unl)
    }
}

/// The optimized form of `s` with unlocked context `unl`: sort, then fold.
pub open spec fn optimize_pats_ctx(s: Seq<Seq<char>>, unl: Seq<Seq<char>>) -> Seq<Seq<char>> {
    optimize_fold(Seq::empty(), sort_lex(s), unl)
}

/// The optimized form of `s` without context.
pub open spec fn optimize_pats(s: Seq<Seq<char>>) -> Seq<Seq<char>> {
    optimize_pats_ctx(s, Seq::empty())
}

/// True when some pattern of `unl` covers `p`.
pub fn pattern_needed(p: &str, unl: &Vec<String>) -> (r: bool)
    ensures
        r == needed_override(p@, unl.deep_view()),
{
    let ghost u = unl.deep_view();
    let mut k: usize = 0;
    let mut found = false;
    while k < unl.len() && !found
        invariant
            k <= unl.len(),
            unl.deep_view() == u,
            u.len() == unl.len(),
            !found ==> forall|j: int| 0 <= j < k ==> !pattern_covered(p@, u[j]),
            found ==> needed_override(p@, u),
        decreases unl.len() - k + if found {
            0int
        } else {
            1int
        },
    {
        let q: &String = &unl[k];
        assert(q@ == u[k as int]);
        if is_pattern_covered(p, q.as_str()) {
            found = true;
        } else {
            k += 1;
        }
    }
    found
}

/// Removes redundant locked patterns, keeping any pattern that re-asserts a
/// lock inside an unlocked zone. The result is exactly the sorted fold of
/// the optimizer step.
pub fn optimize_patterns_with_context(locked_patterns: Vec<String>, unlocked_patterns: &Vec<
    String,
>) -> (r: Vec<String>)
    ensures
        r.deep_view() == optimize_pats_ctx(locked_patterns.deep_view(), unlocked_patterns.deep_view()),
{
    let ghost unl = unlocked_patterns.deep_view();
    let sorted = sort_strings(&locked_patterns);
    let ghost sv = sorted.deep_view();
    let mut out: Vec<String> = Vec::new();
    let mut k: usize = 0;
    proof {
        assert(out.deep_view() =~= Seq::<Seq<char>>::empty());
        assert(sv.skip(0) =~= sv);
    }
    while k < sorted.len()
        invariant
            k <= sorted.len(),
            sorted.deep_view() == sv,
            unlocked_patterns.deep_view() == unl,
            sv.len() == sorted.len(),
            optimize_pats_ctx(locked_patterns.deep_view(), unl) == optimize_fold(
                out.deep_view(),
                sv.skip(k as int),
                unl,
            ),
        decreases sorted.len() - k,
    {
        let p: &String = &sorted[k];
        assert(p@ == sv[k as int]);
        let ghost acc = out.deep_view();
        let mut covered = false;
        let mut jj: usize = 0;
        while jj < out.len() && !covered
            invariant
                jj <= out.len(),
                out.deep_view() == acc,
                acc.len() == out.len(),
                !covered ==> forall|j: int| 0 <= j < jj ==> !pattern_covered(p@, acc[j]),
                covered ==> covered_by_some(acc, p@),
            decreases out.len() - jj + if covered {
                0int
            } else {
                1int
            },
        {
            let q: &String = &out[jj];
            assert(q@ == acc[jj as int]);
            if is_pattern_covered(p.as_str(), q.as_str()) {
                covered = true;
            } else {
                jj += 1;
            }
        }
        let skip_p = if covered {
            pattern_needed(p.as_str(), unlocked_patterns) == false
        } else {
            false
        };
        if skip_p {
            assert(optimize_step(acc, p@, unl) == acc);
        } else {
            assert(!(covered_by_some(acc, p@) && !needed_override(p@, unl))) by {
                if !covered {
                    if covered_by_some(acc, p@) {
                        let j = choose|j: int| 0 <= j < acc.len() && pattern_covered(p@, acc[j]);
                        assert(!pattern_covered(p@, acc[j]));
                    }
                }
            }
            let mut kept: Vec<String> = Vec::new();
            let mut m: usize = 0;
            proof {
                assert(kept.deep_view() =~= retain_for(acc.take(0), p@, unl));
            }
            while m < out.len()
                invariant
                    m <= out.len(),
                    out.deep_view() == acc,
                    acc.len() == out.len(),
                    unlocked_patterns.deep_view() == unl,
                    p@ == sv[k as int],
                    k < sv.len(),
                    sorted.deep_view() == sv,
                    sv.len() == sorted.len(),
                    kept.deep_view() == retain_for(acc.take(m as int), p@, unl),
                decreases out.len() - m,
            {
                let q: &String = &out[m];
                assert(q@ == acc[m as int]);
                let covered_q = is_pattern_covered(q.as_str(), p.as_str());
                let drop_q = if covered_q {
                    !pattern_needed(q.as_str(), unlocked_patterns)
                } else {
                    false
                };
                proof {
                    assert(acc.take(m as int + 1).drop_last() =~= acc.take(m as int));
                    assert(acc.take(m as int + 1).last() == acc[m as int]);
                }
                if !drop_q {
                    crate::strutil::push_string(&mut kept, q.clone());
                }
                m += 1;
            }
            assert(acc.take(out.len() as int) =~= acc);
            crate::strutil::push_string(&mut kept, p.clone());
            out = kept;
            assert(out.deep_view() == optimize_step(acc, p@, unl));
        }
        proof {
            assert(sv.skip(k as int)[0] == sv[k as int]);
            assert(sv.skip(k as int).drop_first() =~= sv.skip(k as int + 1));
        }
        k += 1;
    }
    assert(sv.skip(sorted.len() as int) =~= Seq::<Seq<char>>::empty());
    out
}

/// Removes redundant patterns: a pattern covered by another kept pattern is
/// dropped.
pub fn optimize_patterns(patterns: Vec<String>) -> (r: Vec<String>)
    ensures
        r.deep_view() == optimize_pats(patterns.deep_view()),
{
    let empty_ctx: Vec<String> = Vec::new();
    assert(empty_ctx.deep_view() =~= Seq::<Seq<char>>::empty());
    optimize_patterns_with_context(patterns, &empty_ctx)
}

/// What is unlocked, given the locked patterns: everything when nothing is
/// locked, nothing when the root is locked, else the whole root as a summary.
pub open spec fn calc_unlocked(s: Seq<Seq<char>>) -> Seq<Seq<char>> {
    if s.len() == 0 {
        seq![star_star()]
    } else if exists|i: int| 0 <= i < s.len() && (s[i] == star_star() || s[i] == slash_star_star()) {
        Seq::empty()
    } else {
        seq![star_star()]
    }
}

/// Derives the unlocked pattern list from the locked one.
pub fn calculate_unlocked_patterns(locked_patterns: &Vec<String>) -> (r: Vec<String>)
    ensures
        r.deep_view() == calc_unlocked(locked_patterns.deep_view()),
{
    proof {
        reveal_strlit("**");
        reveal_strlit("/**");
        assert("**"@ =~= star_star());
        assert("/**"@ =~= slash_star_star());
    }
    let ghost dv = locked_patterns.deep_view();
    let mut i: usize = 0;
    let mut found = false;
    while i < locked_patterns.len() && !found
        invariant
            i <= locked_patterns.len(),
            locked_patterns.deep_view() == dv,
            dv.len() == locked_patterns.len(),
            "**"@ == star_star() && "/**"@ == slash_star_star(),
            !found ==> forall|j: int|
                0 <= j < i ==> !(dv[j] == star_star() || dv[j] == slash_star_star()),
            found ==> exists|j: int|
                0 <= j < dv.len() && (dv[j] == star_star() || dv[j] == slash_star_star()),
        decreases locked_patterns.len() - i + if found {
            0int
        } else {
            1int
        },
    {
        let p: &String = &locked_patterns[i];
        assert(p@ == dv[i as int]);
        if str_eq(p.as_str(), "**") || str_eq(p.as_str(), "/**") {
            found = true;
        } else {
            i += 1;
        }
    }
    if found {
        let r: Vec<String> = Vec::new();
        assert(r.deep_view() =~= Seq::<Seq<char>>::empty());
        r
    } else {
        let mut r: Vec<String> = Vec::new();
        crate::strutil::push_string(&mut r, "**".to_owned());
        assert(r.deep_view() =~= seq![star_star()]);
        r
    }
}

} // verus!
