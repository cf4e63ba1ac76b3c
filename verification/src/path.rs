//! Project paths as sequences of name segments.
//!
//! A [`GuardPath`] holds the segments of a slash-separated path, so that
//! ancestor and descendant relations are plain prefix relations on the
//! segment sequence. The empty path stands for the project root.

use vstd::prelude::*;
use crate::strutil::{lex_leq, parse_segments, path_segments, join_segs, join_segments, str_eq,
    str_lex_leq};

verus! {

/// A path relative to the guarded root, as a list of name segments.
pub struct GuardPath {
    pub segs: Vec<String>,
}

impl View for GuardPath {
    type V = Seq<Seq<char>>;

    open spec fn view(&self) -> Seq<Seq<char>> {
        self.segs.deep_view()
    }
}

impl DeepView for GuardPath {
    type V = Seq<Seq<char>>;

    open spec fn deep_view(&self) -> Seq<Seq<char>> {
        self.view()
    }
}

/// Copies a vector of strings, keeping every character.
pub fn clone_string_vec(v: &Vec<String>) -> (r: Vec<String>)
    ensures
        r.deep_view() == v.deep_view(),
{
    let r = v.clone();
    proof {
        assert forall|i: int| 0 <= i < v@.len() implies r@[i] == v@[i] by {
            assert(cloned::<String>(v[i], r[i]));
        }
        assert(r@ =~= v@);
        assert(r.deep_view() =~= v.deep_view());
    }
    r
}

impl Clone for GuardPath {
    /// Copies the path, keeping its view.
    fn clone(&self) -> (r: Self)
        ensures
            r@ == self@,
    {
        GuardPath { segs: clone_string_vec(&self.segs) }
    }
}

impl GuardPath {
    /// The root path: no segments.
    pub fn root() -> (r: Self)
        ensures
            r@ == Seq::<Seq<char>>::empty(),
    {
        let r = GuardPath { segs: Vec::new() };
        proof {
            assert(r@ =~= Seq::<Seq<char>>::empty());
        }
        r
    }

    /// Wraps a segment vector as a path.
    pub fn from_segs(segs: Vec<String>) -> (r: Self)
        ensures
            r@ == segs.deep_view(),
    {
        GuardPath { segs }
    }

    /// Parses a slash-separated string; empty pieces (leading, trailing or
    /// doubled slashes) are dropped.
    pub fn parse(s: &str) -> (r: Self)
        ensures
            r@ == path_segments(s@),
    {
        GuardPath { segs: parse_segments(s) }
    }

    /// Renders the path as a slash-separated string.
    pub fn to_display(&self) -> (r: String)
        ensures
            r@ == join_segs(self@),
    {
        join_segments(&self.segs)
    }

    /// The number of segments.
    pub fn depth(&self) -> (r: usize)
        ensures
            r == self@.len(),
    {
        self.segs.len()
    }

    /// True for the root path.
    pub fn is_root(&self) -> (r: bool)
        ensures
            r == (self@.len() == 0),
    {
        self.segs.len() == 0
    }

    /// Segment-for-segment equality.
    pub fn eq_path(&self, other: &GuardPath) -> (r: bool)
        ensures
            r == (self@ == other@),
    {
        if self.segs.len() != other.segs.len() {
            assert(self@.len() != other@.len());
            return false;
        }
        let n = self.segs.len();
        let mut i: usize = 0;
        while i < n
            invariant
                i <= n,
                n == self@.len(),
                n == other@.len(),
                forall|j: int| 0 <= j < i ==> self@[j] == other@[j],
            decreases n - i,
        {
            let sa: &String = &self.segs[i];
            let sb: &String = &other.segs[i];
            assert(sa@ == self@[i as int]);
            assert(sb@ == other@[i as int]);
            if !str_eq(sa.as_str(), sb.as_str()) {
                assert(self@[i as int] != other@[i as int]);
                return false;
            }
            i += 1;
        }
        assert(self@ =~= other@);
        true
    }

    /// True when `base` is an ancestor of this path or the path itself,
    /// i.e. `base`'s segments are a prefix of this path's segments.
    pub fn starts_with(&self, base: &GuardPath) -> (r: bool)
        ensures
            r == base@.is_prefix_of(self@),
    {
        if base.segs.len() > self.segs.len() {
            assert(base@.len() > self@.len());
            return false;
        }
        let n = base.segs.len();
        let mut i: usize = 0;
        while i < n
            invariant
                i <= n,
                n == base@.len(),
                n <= self@.len(),
                forall|j: int| 0 <= j < i ==> self@[j] == base@[j],
            decreases n - i,
        {
            let sa: &String = &self.segs[i];
            let sb: &String = &base.segs[i];
            assert(sa@ == self@[i as int]);
            assert(sb@ == base@[i as int]);
            if !str_eq(sa.as_str(), sb.as_str()) {
                assert(self@[i as int] != base@[i as int]);
                assert(!base@.is_prefix_of(self@)) by {
                    if base@.is_prefix_of(self@) {
                        assert(self@.subrange(0, n as int)[i as int] == self@[i as int]);
                    }
                }
                return false;
            }
            i += 1;
        }
        assert(self@.subrange(0, n as int) =~= base@);
        true
    }

    /// The parent path: all segments but the last. The root has no parent.
    pub fn parent(&self) -> (r: Option<GuardPath>)
        ensures
            self@.len() == 0 ==> r is None,
            self@.len() > 0 ==> r is Some && r->0@ == self@.drop_last(),
    {
        if self.segs.len() == 0 {
            None
        } else {
            let mut segs = clone_string_vec(&self.segs);
            segs.pop();
            let p = GuardPath { segs };
            proof {
                assert(p@ =~= self@.drop_last());
            }
            Some(p)
        }
    }

    /// The last segment, if any.
    pub fn file_name(&self) -> (r: Option<&String>)
        ensures
            self@.len() == 0 ==> r is None,
            self@.len() > 0 ==> r is Some && r->0@ == self@.last(),
    {
        if self.segs.len() == 0 {
            None
        } else {
            Some(&self.segs[self.segs.len() - 1])
        }
    }

    /// Appends one segment.
    pub fn push_seg(&mut self, seg: String)
        ensures
            final(self)@ == old(self)@.push(seg@),
    {
        self.segs.push(seg);
        assert(self@ =~= old(self)@.push(seg@));
    }

    /// This path extended by the segments of the slash-separated string `s`.
    pub fn join(&self, s: &str) -> (r: GuardPath)
        ensures
            r@ == self@ + path_segments(s@),
    {
        let mut segs = clone_string_vec(&self.segs);
        let mut extra = parse_segments(s);
        let ghost e = extra.deep_view();
        let mut i: usize = 0;
        while i < extra.len()
            invariant
                i <= extra.len(),
                extra.deep_view() == e,
                segs.deep_view() == self@ + e.take(i as int),
            decreases extra.len() - i,
        {
            let seg: String = extra[i].clone();
            assert(seg@ == e[i as int]);
            crate::strutil::push_string(&mut segs, seg);
            assert(segs.deep_view() =~= self@ + e.take(i as int + 1));
            i += 1;
        }
        assert(segs.deep_view() =~= self@ + e) by {
            assert(e.take(e.len() as int) =~= e);
        }
        GuardPath { segs }
    }

    /// The remainder of this path after removing the prefix `base`;
    /// `None` when `base` is not an ancestor-or-self.
    pub fn strip_prefix(&self, base: &GuardPath) -> (r: Option<GuardPath>)
        ensures
            base@.is_prefix_of(self@) ==> r is Some && r->0@ == self@.skip(base@.len() as int),
            !base@.is_prefix_of(self@) ==> r is None,
    {
        if !self.starts_with(base) {
            return None;
        }
        let mut segs: Vec<String> = Vec::new();
        let n = base.segs.len();
        let mut i: usize = n;
        assert(segs.deep_view() =~= self@.subrange(n as int, n as int));
        while i < self.segs.len()
            invariant
                n <= i <= self@.len(),
                self@.len() == self.segs.len(),
                segs.deep_view() == self@.subrange(n as int, i as int),
            decreases self.segs.len() - i,
        {
            let seg: String = self.segs[i].clone();
            assert(seg@ == self@[i as int]);
            crate::strutil::push_string(&mut segs, seg);
            assert(segs.deep_view() =~= self@.subrange(n as int, i as int + 1));
            i += 1;
        }
        assert(segs.deep_view() =~= self@.skip(n as int));
        Some(GuardPath { segs })
    }
}

/// Lexicographic order on paths: segment by segment, shorter prefixes first.
pub open spec fn path_lex_leq(a: Seq<Seq<char>>, b: Seq<Seq<char>>) -> bool
    decreases a.len(),
{
    if a.len() == 0 {
        true
    } else if b.len() == 0 {
        false
    } else if a[0] == b[0] {
        path_lex_leq(a.drop_first(), b.drop_first())
    } else {
        lex_leq(a[0], b[0])
    }
}

/// Comparison of two paths under `path_lex_leq`.
pub fn path_leq(a: &GuardPath, b: &GuardPath) -> (r: bool)
    ensures
        r == path_lex_leq(a@, b@),
{
    let n = a.segs.len();
    let m = b.segs.len();
    let lim = if n < m {
        n
    } else {
        m
    };
    let mut i: usize = 0;
    while i < lim
        invariant
            i <= lim,
            n == a@.len(),
            m == b@.len(),
            lim == if n < m {
                n
            } else {
                m
            },
            forall|j: int| 0 <= j < i ==> a@[j] == b@[j],
        decreases lim - i,
    {
        if !str_eq(a.segs[i].as_str(), b.segs[i].as_str()) {
            let r = str_lex_leq(a.segs[i].as_str(), b.segs[i].as_str());
            proof {
                lemma_path_lex_skip(a@, b@, i as int);
            }
            return r;
        }
        i += 1;
    }
    proof {
        lemma_path_lex_skip(a@, b@, lim as int);
    }
    n <= m
}

proof fn lemma_path_lex_skip(a: Seq<Seq<char>>, b: Seq<Seq<char>>, i: int)
    requires
        0 <= i <= a.len(),
        i <= b.len(),
        forall|j: int| 0 <= j < i ==> a[j] == b[j],
    ensures
        path_lex_leq(a, b) == path_lex_leq(a.skip(i), b.skip(i)),
    decreases i,
{
    if i == 0 {
        assert(a.skip(0) =~= a);
        assert(b.skip(0) =~= b);
    } else {
        assert(a.len() > 0 && b.len() > 0);
        assert(a[0] == b[0]);
        assert(a.drop_first() =~= a.skip(1));
        assert(b.drop_first() =~= b.skip(1));
        lemma_path_lex_skip(a.skip(1), b.skip(1), i - 1);
        assert(a.skip(1).skip(i - 1) =~= a.skip(i));
        assert(b.skip(1).skip(i - 1) =~= b.skip(i));
    }
}

} // verus!
