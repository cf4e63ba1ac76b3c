//! Character-level string utilities shared by the pattern and path modules.
//!
//! All executable functions here are specified against `Seq<char>` views.

use vstd::prelude::*;
use vstd::string::*;

verus! {

/// True when `pre` is a prefix of `s`, examined character by character.
pub fn str_starts_with(s: &str, pre: &str) -> (r: bool)
    ensures
        r == pre@.is_prefix_of(s@),
{
    let n = pre.unicode_len();
    let m = s.unicode_len();
    if n > m {
        return false;
    }
    let mut i: usize = 0;
    while i < n
        invariant
            i <= n,
            n == pre@.len(),
            n <= m,
            m == s@.len(),
            forall|j: int| 0 <= j < i ==> s@[j] == pre@[j],
        decreases n - i,
    {
        if s.get_char(i) != pre.get_char(i) {
            return false;
        }
        i += 1;
    }
    assert(pre@.is_prefix_of(s@)) by {
        assert(s@.subrange(0, n as int) =~= pre@);
    }
    true
}

/// True when `suf` is a suffix of `s`.
pub fn str_ends_with(s: &str, suf: &str) -> (r: bool)
    ensures
        r == suf@.is_suffix_of(s@),
{
    let n = suf.unicode_len();
    let m = s.unicode_len();
    if n > m {
        return false;
    }
    let off = m - n;
    let mut i: usize = 0;
    while i < n
        invariant
            i <= n,
            n == suf@.len(),
            n <= m,
            m == s@.len(),
            off == m - n,
            forall|j: int| 0 <= j < i ==> s@[off + j] == suf@[j],
        decreases n - i,
    {
        if s.get_char(off + i) != suf.get_char(i) {
            return false;
        }
        i += 1;
    }
    assert(suf@.is_suffix_of(s@)) by {
        assert(s@.subrange(off as int, m as int) =~= suf@);
    }
    true
}

/// Character-for-character equality of two string slices.
pub fn str_eq(a: &str, b: &str) -> (r: bool)
    ensures
        r == (a@ == b@),
{
    let n = a.unicode_len();
    let m = b.unicode_len();
    if n != m {
        return false;
    }
    let mut i: usize = 0;
    while i < n
        invariant
            i <= n,
            n == a@.len(),
            n == b@.len(),
            forall|j: int| 0 <= j < i ==> a@[j] == b@[j],
        decreases n - i,
    {
        if a.get_char(i) != b.get_char(i) {
            return false;
        }
        i += 1;
    }
    assert(a@ =~= b@);
    true
}

/// Pushes a string onto a vector, tracked at the level of character views.
pub fn push_string(v: &mut Vec<String>, s: String)
    ensures
        final(v).deep_view() == old(v).deep_view().push(s@),
{
    let ghost o = v.deep_view();
    let ghost sv = s@;
    v.push(s);
    proof {
        let dv = v.deep_view();
        assert(v@.len() == o.len() + 1);
        assert forall|j: int| 0 <= j < dv.len() implies dv[j] == o.push(sv)[j] by {
            if j < o.len() {
                assert(v@[j] == old(v)@[j]);
            } else {
                assert(v@[j]@ == sv);
            }
        }
        assert(dv =~= o.push(sv));
    }
}

/// `needle` occurs at offset `i` of `hay`.
pub open spec fn has_sub_at(hay: Seq<char>, needle: Seq<char>, i: int) -> bool {
    0 <= i && i + needle.len() <= hay.len() && hay.subrange(i, i + needle.len() as int) == needle
}

/// `needle` occurs somewhere in `hay` as a contiguous run of characters.
pub open spec fn contains_seq(hay: Seq<char>, needle: Seq<char>) -> bool {
    exists|i: int| has_sub_at(hay, needle, i)
}

/// Substring search: true exactly when `needle` occurs in `hay`.
pub fn str_contains(hay: &str, needle: &str) -> (r: bool)
    ensures
        r == contains_seq(hay@, needle@),
{
    let n = needle.unicode_len();
    let m = hay.unicode_len();
    if n == 0 {
        assert(has_sub_at(hay@, needle@, 0)) by {
            assert(hay@.subrange(0, 0) =~= needle@);
        }
        return true;
    }
    if n > m {
        assert(!contains_seq(hay@, needle@));
        return false;
    }
    let last = m - n;
    let mut i: usize = 0;
    while i <= last
        invariant
            n == needle@.len(),
            m == hay@.len(),
            1 <= n <= m,
            last == m - n,
            i <= last + 1,
            forall|ii: int| 0 <= ii < i ==> !has_sub_at(hay@, needle@, ii),
        decreases last - i + 1,
    {
        let mut j: usize = 0;
        let mut mismatch = false;
        while j < n
            invariant
                j <= n,
                n == needle@.len(),
                m == hay@.len(),
                i + n <= m,
                !mismatch ==> forall|jj: int| 0 <= jj < j ==> hay@[i + jj] == needle@[jj],
                mismatch ==> !has_sub_at(hay@, needle@, i as int),
            decreases n - j,
        {
            if hay.get_char(i + j) != needle.get_char(j) {
                assert(hay@.subrange(i as int, i + n as int)[j as int] != needle@[j as int]);
                mismatch = true;
                j = n;
            } else {
                j += 1;
            }
        }
        if !mismatch {
            assert(hay@.subrange(i as int, i + n as int) =~= needle@);
            assert(has_sub_at(hay@, needle@, i as int));
            return true;
        }
        i += 1;
    }
    assert forall|ii: int| !has_sub_at(hay@, needle@, ii) by {
        if 0 <= ii && ii + needle@.len() <= hay@.len() {
            assert(ii < i);
        }
    }
    false
}

/// Lexicographic order on character sequences by code point, shorter prefixes first.
pub open spec fn lex_leq(a: Seq<char>, b: Seq<char>) -> bool
    decreases a.len(),
{
    if a.len() == 0 {
        true
    } else if b.len() == 0 {
        false
    } else if (a[0] as int) < (b[0] as int) {
        true
    } else if (a[0] as int) > (b[0] as int) {
        false
    } else {
        lex_leq(a.drop_first(), b.drop_first())
    }
}

proof fn lemma_lex_leq_common_prefix(a: Seq<char>, b: Seq<char>, i: int)
    requires
        0 <= i <= a.len(),
        i <= b.len(),
        forall|j: int| 0 <= j < i ==> a[j] == b[j],
    ensures
        lex_leq(a, b) == lex_leq(a.skip(i), b.skip(i)),
    decreases i,
{
    if i == 0 {
        assert(a.skip(0) =~= a);
        assert(b.skip(0) =~= b);
    } else {
        assert(a.len() > 0 && b.len() > 0);
        assert(a[0] == b[0]);
        assert(a.drop_first() =~= a.skip(1));
        assert(b.drop_first() =~= b.skip(1));
        lemma_lex_leq_common_prefix(a.skip(1), b.skip(1), i - 1);
        assert(a.skip(1).skip(i - 1) =~= a.skip(i));
        assert(b.skip(1).skip(i - 1) =~= b.skip(i));
    }
}

/// Comparison of two strings under `lex_leq`.
pub fn str_lex_leq(a: &str, b: &str) -> (r: bool)
    ensures
        r == lex_leq(a@, b@),
{
    let n = a.unicode_len();
    let m = b.unicode_len();
    let lim = if n < m {
        n
    } else {
        m
    };
    let mut i: usize = 0;
    while i < lim
        invariant
            i <= lim,
            n == a@.len(),
            m == b@.len(),
            lim == if n < m {
                n
            } else {
                m
            },
            forall|j: int| 0 <= j < i ==> a@[j] == b@[j],
        decreases lim - i,
    {
        let ca = a.get_char(i);
        let cb = b.get_char(i);
        if (ca as u32) < (cb as u32) {
            proof {
                lemma_lex_leq_common_prefix(a@, b@, i as int);
                assert(a@.skip(i as int)[0] == ca);
                assert(b@.skip(i as int)[0] == cb);
            }
            return true;
        }
        if (ca as u32) > (cb as u32) {
            proof {
                lemma_lex_leq_common_prefix(a@, b@, i as int);
                assert(a@.skip(i as int)[0] == ca);
                assert(b@.skip(i as int)[0] == cb);
            }
            return false;
        }
        i += 1;
    }
    proof {
        lemma_lex_leq_common_prefix(a@, b@, lim as int);
        if n <= m {
            assert(a@.skip(lim as int).len() == 0);
        } else {
            assert(a@.skip(lim as int).len() > 0);
            assert(b@.skip(lim as int).len() == 0);
        }
    }
    n <= m
}

/// Stable insertion of `x` into the (sorted) sequence `s` under `lex_leq`.
pub open spec fn insert_lex(x: Seq<char>, s: Seq<Seq<char>>) -> Seq<Seq<char>>
    decreases s.len(),
{
    if s.len() == 0 {
        seq![x]
    } else if lex_leq(x, s[0]) {
        seq![x] + s
    } else {
        seq![s[0]] + insert_lex(x, s.drop_first())
    }
}

/// Insertion sort of a sequence of character sequences under `lex_leq`.
pub open spec fn sort_lex(s: Seq<Seq<char>>) -> Seq<Seq<char>>
    decreases s.len(),
{
    if s.len() == 0 {
        Seq::empty()
    } else {
        insert_lex(s[0], sort_lex(s.drop_first()))
    }
}

proof fn lemma_insert_lex_at(x: Seq<char>, s: Seq<Seq<char>>, idx: int)
    requires
        0 <= idx <= s.len(),
        forall|j: int| 0 <= j < idx ==> !lex_leq(x, s[j]),
        idx < s.len() ==> lex_leq(x, s[idx]),
    ensures
        insert_lex(x, s) == s.take(idx) + seq![x] + s.skip(idx),
    decreases idx,
{
    if idx == 0 {
        if s.len() == 0 {
            assert(insert_lex(x, s) =~= s.take(0) + seq![x] + s.skip(0));
        } else {
            assert(insert_lex(x, s) =~= s.take(0) + seq![x] + s.skip(0));
        }
    } else {
        assert(s.len() > 0);
        assert(!lex_leq(x, s[0]));
        let t = s.drop_first();
        assert(forall|j: int| 0 <= j < idx - 1 ==> t[j] == s[j + 1]);
        lemma_insert_lex_at(x, t, idx - 1);
        assert(insert_lex(x, s) == seq![s[0]] + insert_lex(x, t));
        assert(seq![s[0]] + (t.take(idx - 1) + seq![x] + t.skip(idx - 1)) =~= s.take(idx)
            + seq![x] + s.skip(idx));
    }
}

/// Sorts the strings in `v` into lexicographic order; the result is exactly
/// the insertion sort of the input's view.
pub fn sort_strings(v: &Vec<String>) -> (r: Vec<String>)
    ensures
        r.deep_view() == sort_lex(v.deep_view()),
{
    let mut out: Vec<String> = Vec::new();
    let mut k: usize = v.len();
    assert(v.deep_view().skip(k as int) =~= Seq::<Seq<char>>::empty());
    while k > 0
        invariant
            k <= v.len(),
            v.deep_view().len() == v.len(),
            out.deep_view() == sort_lex(v.deep_view().skip(k as int)),
        decreases k,
    {
        k -= 1;
        let x: &String = &v[k];
        let mut idx: usize = 0;
        let mut stop = false;
        while idx < out.len() && !stop
            invariant
                idx <= out.len(),
                out.deep_view().len() == out.len(),
                forall|j: int| 0 <= j < idx ==> !lex_leq(x@, out.deep_view()[j]),
                stop ==> idx < out.len() && lex_leq(x@, out.deep_view()[idx as int]),
            decreases out.len() - idx + if stop {
                0int
            } else {
                1int
            },
        {
            if str_lex_leq(x.as_str(), out[idx].as_str()) {
                stop = true;
            } else {
                idx += 1;
            }
        }
        let ghost old_out = out.deep_view();
        out.insert(idx, x.clone());
        proof {
            lemma_insert_lex_at(x@, old_out, idx as int);
            assert(out.deep_view() =~= old_out.take(idx as int) + seq![x@] + old_out.skip(
                idx as int));
            let s = v.deep_view().skip(k as int);
            assert(s[0] == v.deep_view()[k as int]);
            assert(s.drop_first() =~= v.deep_view().skip(k as int + 1));
            assert(out.deep_view() == sort_lex(s));
        }
    }
    assert(v.deep_view().skip(0) =~= v.deep_view());
    out
}

/// Removes duplicates, keeping the first occurrence of each element.
pub open spec fn dedup_first(s: Seq<Seq<char>>) -> Seq<Seq<char>>
    decreases s.len(),
{
    if s.len() == 0 {
        s
    } else {
        let rest = dedup_first(s.drop_last());
        if s.drop_last().contains(s.last()) {
            rest
        } else {
            rest.push(s.last())
        }
    }
}

/// Removes duplicate strings, keeping first occurrences in order.
pub fn dedup_strings(v: &Vec<String>) -> (r: Vec<String>)
    ensures
        r.deep_view() == dedup_first(v.deep_view()),
{
    let ghost dv = v.deep_view();
    let mut out: Vec<String> = Vec::new();
    let mut i: usize = 0;
    assert(out.deep_view() =~= dedup_first(dv.take(0)));
    while i < v.len()
        invariant
            i <= v.len(),
            v.deep_view() == dv,
            dv.len() == v.len(),
            out.deep_view() == dedup_first(dv.take(i as int)),
        decreases v.len() - i,
    {
        let mut found = false;
        let mut j: usize = 0;
        while j < i
            invariant
                j <= i < v.len(),
                v.deep_view() == dv,
                dv.len() == v.len(),
                !found ==> forall|k: int| 0 <= k < j ==> dv[k] != dv[i as int],
                found ==> exists|k: int| 0 <= k < i && dv[k] == dv[i as int],
            decreases i - j + if found {
                0int
            } else {
                1int
            },
        {
            if found {
                j = i;
            } else {
                let a: &String = &v[j];
                let b: &String = &v[i];
                assert(a@ == dv[j as int]);
                assert(b@ == dv[i as int]);
                if str_eq(a.as_str(), b.as_str()) {
                    found = true;
                    assert(dv[j as int] == dv[i as int]);
                }
                j += 1;
            }
        }
        proof {
            assert(dv.take(i as int + 1).drop_last() =~= dv.take(i as int));
            assert(dv.take(i as int + 1).last() == dv[i as int]);
            if found {
                let k = choose|k: int| 0 <= k < i && dv[k] == dv[i as int];
                assert(dv.take(i as int)[k] == dv[i as int]);
                assert(dv.take(i as int).contains(dv[i as int]));
            } else {
                assert(!dv.take(i as int).contains(dv[i as int])) by {
                    if dv.take(i as int).contains(dv[i as int]) {
                        let k = choose|k: int|
                            0 <= k < i && dv.take(i as int)[k] == dv[i as int];
                        assert(dv[k] == dv[i as int]);
                    }
                }
            }
        }
        if !found {
            let x: String = v[i].clone();
            assert(x@ == dv[i as int]);
            push_string(&mut out, x);
        }
        i += 1;
    }
    assert(dv.take(v.len() as int) =~= dv);
    out
}

/// Splits `s` at `'/'` characters, dropping empty pieces; `cur` is the segment
/// accumulated so far.
pub open spec fn split_segs(s: Seq<char>, cur: Seq<char>) -> Seq<Seq<char>>
    decreases s.len(),
{
    if s.len() == 0 {
        if cur.len() == 0 {
            Seq::empty()
        } else {
            seq![cur]
        }
    } else if s[0] == '/' {
        if cur.len() == 0 {
            split_segs(s.drop_first(), Seq::empty())
        } else {
            seq![cur] + split_segs(s.drop_first(), Seq::empty())
        }
    } else {
        split_segs(s.drop_first(), cur.push(s[0]))
    }
}

/// The `'/'`-separated segments of a path or pattern string, empty pieces dropped.
pub open spec fn path_segments(s: Seq<char>) -> Seq<Seq<char>> {
    split_segs(s, Seq::empty())
}

/// Splits a string into its `'/'`-separated segments.
pub fn parse_segments(s: &str) -> (r: Vec<String>)
    ensures
        r.deep_view() == path_segments(s@),
{
    let len = s.unicode_len();
    let mut out: Vec<String> = Vec::new();
    let mut start: usize = 0;
    let mut i: usize = 0;
    assert(s@.skip(0) =~= s@);
    assert(s@.subrange(0, 0) =~= Seq::<char>::empty());
    while i < len
        invariant
            start <= i <= len,
            len == s@.len(),
            out.deep_view().len() == out.len(),
            path_segments(s@) == out.deep_view() + split_segs(
                s@.skip(i as int),
                s@.subrange(start as int, i as int),
            ),
        decreases len - i,
    {
        let ghost rest = s@.skip(i as int);
        let ghost cur = s@.subrange(start as int, i as int);
        let c = s.get_char(i);
        assert(rest[0] == c);
        assert(rest.drop_first() =~= s@.skip(i as int + 1));
        if c == '/' {
            if start < i {
                let seg = s.substring_char(start, i);
                let owned: String = seg.to_owned();
                out.push(owned);
                proof {
                    assert(split_segs(rest, cur) == seq![cur] + split_segs(
                        s@.skip(i as int + 1),
                        Seq::empty(),
                    ));
                    assert(out.deep_view() =~= out.deep_view().drop_last().push(cur));
                }
            } else {
                assert(cur.len() == 0);
            }
            start = i + 1;
            assert(s@.subrange(start as int, i as int + 1) =~= Seq::<char>::empty());
        } else {
            assert(cur.push(c) =~= s@.subrange(start as int, i as int + 1));
        }
        i += 1;
    }
    assert(s@.skip(len as int) =~= Seq::<char>::empty());
    if start < len {
        let seg = s.substring_char(start, len);
        let owned: String = seg.to_owned();
        out.push(owned);
        proof {
            assert(out.deep_view() =~= out.deep_view().drop_last().push(
                s@.subrange(start as int, len as int),
            ));
        }
    }
    assert(out.deep_view() =~= path_segments(s@));
    out
}

/// `s` without its leading run of `c` characters.
pub open spec fn trim_char_prefix(s: Seq<char>, c: char) -> Seq<char>
    decreases s.len(),
{
    if s.len() > 0 && s[0] == c {
        trim_char_prefix(s.drop_first(), c)
    } else {
        s
    }
}

/// `s` without its trailing run of `c` characters.
pub open spec fn trim_char_suffix(s: Seq<char>, c: char) -> Seq<char>
    decreases s.len(),
{
    if s.len() > 0 && s.last() == c {
        trim_char_suffix(s.drop_last(), c)
    } else {
        s
    }
}

/// `s` without all trailing repetitions of `suf`.
pub open spec fn trim_suffix_rep(s: Seq<char>, suf: Seq<char>) -> Seq<char>
    decreases s.len(),
{
    if suf.len() > 0 && s.len() >= suf.len() && suf.is_suffix_of(s) {
        trim_suffix_rep(s.take(s.len() - suf.len()), suf)
    } else {
        s
    }
}

proof fn lemma_trim_char_prefix_skip(s: Seq<char>, c: char, i: int)
    requires
        0 <= i <= s.len(),
        forall|j: int| 0 <= j < i ==> s[j] == c,
        i < s.len() ==> s[i] != c,
    ensures
        trim_char_prefix(s, c) == s.skip(i),
    decreases i,
{
    if i == 0 {
        assert(s.skip(0) =~= s);
    } else {
        assert(s.len() > 0 && s[0] == c);
        let t = s.drop_first();
        assert(forall|j: int| 0 <= j < i - 1 ==> t[j] == s[j + 1]);
        lemma_trim_char_prefix_skip(t, c, i - 1);
        assert(t.skip(i - 1) =~= s.skip(i));
    }
}

/// Removes the leading run of `c` characters.
pub fn str_trim_char_prefix(s: &str, c: char) -> (r: String)
    ensures
        r@ == trim_char_prefix(s@, c),
{
    let len = s.unicode_len();
    let mut i: usize = 0;
    while i < len && s.get_char(i) == c
        invariant
            i <= len,
            len == s@.len(),
            forall|j: int| 0 <= j < i ==> s@[j] == c,
        decreases len - i,
    {
        i += 1;
    }
    proof {
        lemma_trim_char_prefix_skip(s@, c, i as int);
    }
    let rest = s.substring_char(i, len);
    assert(rest@ =~= s@.skip(i as int));
    rest.to_owned()
}

proof fn lemma_trim_char_suffix_take(s: Seq<char>, c: char, e: int)
    requires
        0 <= e <= s.len(),
        forall|j: int| e <= j < s.len() ==> s[j] == c,
        e > 0 ==> s[e - 1] != c,
    ensures
        trim_char_suffix(s, c) == s.take(e),
    decreases s.len() - e,
{
    if e == s.len() {
        assert(s.take(e) =~= s);
    } else {
        assert(s.len() > 0 && s.last() == c);
        let t = s.drop_last();
        assert(forall|j: int| e <= j < t.len() ==> t[j] == s[j]);
        lemma_trim_char_suffix_take(t, c, e);
        assert(t.take(e) =~= s.take(e));
    }
}

/// Removes the trailing run of `c` characters.
pub fn str_trim_char_suffix(s: &str, c: char) -> (r: String)
    ensures
        r@ == trim_char_suffix(s@, c),
{
    let len = s.unicode_len();
    let mut e: usize = len;
    while e > 0 && s.get_char(e - 1) == c
        invariant
            e <= len,
            len == s@.len(),
            forall|j: int| e <= j < s@.len() ==> s@[j] == c,
        decreases e,
    {
        e -= 1;
    }
    proof {
        lemma_trim_char_suffix_take(s@, c, e as int);
    }
    let rest = s.substring_char(0, e);
    assert(rest@ =~= s@.take(e as int));
    rest.to_owned()
}

/// Removes all trailing repetitions of `suf`.
pub fn str_trim_suffix_rep(s: &str, suf: &str) -> (r: String)
    requires
        suf@.len() > 0,
    ensures
        r@ == trim_suffix_rep(s@, suf@),
{
    let len = s.unicode_len();
    let sl = suf.unicode_len();
    let mut e: usize = len;
    let mut done = false;
    assert(s@.take(len as int) =~= s@);
    while !done
        invariant
            e <= len,
            len == s@.len(),
            sl == suf@.len(),
            sl > 0,
            trim_suffix_rep(s@, suf@) == trim_suffix_rep(s@.take(e as int), suf@),
            done ==> trim_suffix_rep(s@.take(e as int), suf@) == s@.take(e as int),
        decreases e + if done {
            0int
        } else {
            1int
        },
    {
        let ghost pre = s@.take(e as int);
        if e >= sl {
            let prefix = s.substring_char(0, e);
            assert(prefix@ == pre);
            if str_ends_with(prefix, suf) {
                proof {
                    assert(trim_suffix_rep(pre, suf@) == trim_suffix_rep(
                        pre.take(pre.len() - suf@.len()),
                        suf@,
                    ));
                    assert(pre.take(pre.len() - suf@.len()) =~= s@.take(e - sl));
                }
                e -= sl;
            } else {
                done = true;
                assert(trim_suffix_rep(pre, suf@) == pre);
            }
        } else {
            done = true;
            proof {
                if suf@.is_suffix_of(pre) {
                    assert(pre.len() >= suf@.len());
                }
                assert(trim_suffix_rep(pre, suf@) == pre);
            }
        }
    }
    let rest = s.substring_char(0, e);
    assert(rest@ =~= s@.take(e as int));
    rest.to_owned()
}

/// The decimal digit character for `n % 10`.
pub open spec fn dec_digit(n: u64) -> char {
    (('0' as u8) + ((n % 10) as u8)) as char
}

/// The decimal rendering of `n`, most significant digit first.
pub open spec fn dec_str(n: u64) -> Seq<char>
    decreases n,
{
    if n < 10 {
        seq![dec_digit(n)]
    } else {
        dec_str(n / 10).push(dec_digit(n))
    }
}

/// One decimal digit as a string.
fn digit_str(d: u64) -> (r: String)
    requires
        d < 10,
    ensures
        r@ == seq![dec_digit(d)],
{
    proof {
        reveal_strlit("0");
        reveal_strlit("1");
        reveal_strlit("2");
        reveal_strlit("3");
        reveal_strlit("4");
        reveal_strlit("5");
        reveal_strlit("6");
        reveal_strlit("7");
        reveal_strlit("8");
        reveal_strlit("9");
    }
    let r: String = if d == 0 {
        "0".to_owned()
    } else if d == 1 {
        "1".to_owned()
    } else if d == 2 {
        "2".to_owned()
    } else if d == 3 {
        "3".to_owned()
    } else if d == 4 {
        "4".to_owned()
    } else if d == 5 {
        "5".to_owned()
    } else if d == 6 {
        "6".to_owned()
    } else if d == 7 {
        "7".to_owned()
    } else if d == 8 {
        "8".to_owned()
    } else {
        "9".to_owned()
    };
    assert(r@ =~= seq![dec_digit(d)]);
    r
}

/// Renders `n` in decimal.
pub fn u64_to_string(n: u64) -> (r: String)
    ensures
        r@ == dec_str(n),
    decreases n,
{
    if n < 10 {
        digit_str(n)
    } else {
        let mut s = u64_to_string(n / 10);
        let last = digit_str(n % 10);
        s.append(last.as_str());
        assert(s@ =~= dec_str(n));
        s
    }
}

/// Some character of `s` is `c`.
pub open spec fn has_char(s: Seq<char>, c: char) -> bool {
    exists|i: int| 0 <= i < s.len() && s[i] == c
}

/// Scans for a character.
pub fn str_has_char(s: &str, c: char) -> (r: bool)
    ensures
        r == has_char(s@, c),
{
    let len = s.unicode_len();
    let mut i: usize = 0;
    while i < len
        invariant
            i <= len,
            len == s@.len(),
            forall|j: int| 0 <= j < i ==> s@[j] != c,
        decreases len - i,
    {
        if s.get_char(i) == c {
            return true;
        }
        i += 1;
    }
    false
}

/// The index of the last `'.'` in `s`, or -1.
pub open spec fn last_dot(s: Seq<char>) -> int
    decreases s.len(),
{
    if s.len() == 0 {
        -1
    } else if s.last() == '.' {
        s.len() - 1
    } else {
        last_dot(s.drop_last())
    }
}

/// The extension of a file name: what follows the last dot, provided that
/// dot is not the leading character.
pub open spec fn ext_of(name: Seq<char>) -> Option<Seq<char>> {
    if last_dot(name) > 0 {
        Some(name.skip(last_dot(name) + 1))
    } else {
        None
    }
}

proof fn lemma_last_dot_take(s: Seq<char>, e: int)
    requires
        0 <= e <= s.len(),
        forall|j: int| e <= j < s.len() ==> s[j] != '.',
    ensures
        last_dot(s) == last_dot(s.take(e)),
    decreases s.len() - e,
{
    if e == s.len() {
        assert(s.take(e) =~= s);
    } else {
        assert(s.len() > 0 && s.last() != '.');
        let t = s.drop_last();
        assert(forall|j: int| e <= j < t.len() ==> t[j] != '.');
        lemma_last_dot_take(t, e);
        assert(t.take(e) =~= s.take(e));
    }
}

/// The extension of a file name, per `ext_of`.
pub fn str_extension(name: &str) -> (r: Option<String>)
    ensures
        r is Some <==> ext_of(name@) is Some,
        r is Some ==> r->0@ == ext_of(name@)->0,
{
    let len = name.unicode_len();
    let mut e: usize = len;
    while e > 0 && name.get_char(e - 1) != '.'
        invariant
            e <= len,
            len == name@.len(),
            forall|j: int| e <= j < name@.len() ==> name@[j] != '.',
        decreases e,
    {
        e -= 1;
    }
    proof {
        lemma_last_dot_take(name@, e as int);
        if e > 0 {
            assert(name@.take(e as int).last() == name@[e - 1]);
            assert(last_dot(name@) == e - 1);
        } else {
            assert(name@.take(0) =~= Seq::<char>::empty());
            assert(last_dot(name@) == -1);
        }
    }
    if e > 1 {
        let ext = name.substring_char(e, len);
        assert(ext@ =~= name@.skip(last_dot(name@) + 1));
        Some(ext.to_owned())
    } else {
        None
    }
}

/// Joins segments with `'/'` separators.
pub open spec fn join_segs(ss: Seq<Seq<char>>) -> Seq<char>
    decreases ss.len(),
{
    if ss.len() == 0 {
        Seq::empty()
    } else if ss.len() == 1 {
        ss[0]
    } else {
        ss[0] + seq!['/'] + join_segs(ss.drop_first())
    }
}

proof fn lemma_join_segs_push(ss: Seq<Seq<char>>, x: Seq<char>)
    ensures
        ss.len() == 0 ==> join_segs(ss.push(x)) == x,
        ss.len() > 0 ==> join_segs(ss.push(x)) == join_segs(ss) + seq!['/'] + x,
    decreases ss.len(),
{
    if ss.len() == 0 {
        assert(ss.push(x)[0] == x);
        assert(join_segs(ss.push(x)) == x);
    } else if ss.len() == 1 {
        let p = ss.push(x);
        assert(p.len() == 2);
        assert(p[0] == ss[0]);
        assert(p.drop_first() =~= seq![x]);
        assert(join_segs(seq![x]) == x);
        assert(join_segs(p) == p[0] + seq!['/'] + join_segs(p.drop_first()));
        assert(join_segs(ss) == ss[0]);
        assert(join_segs(p) == ss[0] + seq!['/'] + x);
    } else {
        let p = ss.push(x);
        assert(p.drop_first() =~= ss.drop_first().push(x));
        lemma_join_segs_push(ss.drop_first(), x);
        assert(join_segs(p) == p[0] + seq!['/'] + join_segs(ss.drop_first().push(x)));
        assert(p[0] == ss[0]);
        assert(ss[0] + seq!['/'] + (join_segs(ss.drop_first()) + seq!['/'] + x) =~= (ss[0]
            + seq!['/'] + join_segs(ss.drop_first())) + seq!['/'] + x);
    }
}

/// Joins the strings of `v` with `'/'` separators into one string.
pub fn join_segments(v: &Vec<String>) -> (r: String)
    ensures
        r@ == join_segs(v.deep_view()),
{
    let mut out = String::new();
    let mut i: usize = 0;
    assert(v.deep_view().take(0) =~= Seq::<Seq<char>>::empty());
    while i < v.len()
        invariant
            i <= v.len(),
            v.deep_view().len() == v.len(),
            out@ == join_segs(v.deep_view().take(i as int)),
        decreases v.len() - i,
    {
        if i > 0 {
            out.append("/");
            proof {
                reveal_strlit("/");
            }
        }
        out.append(v[i].as_str());
        proof {
            let pre = v.deep_view().take(i as int);
            assert(v.deep_view().take(i as int + 1) =~= pre.push(v.deep_view()[i as int]));
            lemma_join_segs_push(pre, v.deep_view()[i as int]);
            if i > 0 {
                assert(out@ =~= join_segs(pre) + seq!['/'] + v.deep_view()[i as int]);
            } else {
                assert(out@ =~= v.deep_view()[i as int]);
            }
        }
        i += 1;
    }
    assert(v.deep_view().take(v.len() as int) =~= v.deep_view());
    out
}

} // verus!
