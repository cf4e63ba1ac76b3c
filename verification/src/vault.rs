//! The backup vault: the last-known-good content of each protected path,
//! refreshed on every allowed write and used as the revert target.

use vstd::prelude::*;
use crate::path::GuardPath;

verus! {

/// One cached file: a path and its last-known-good bytes.
pub struct BackupEntry {
    pub path: GuardPath,
    pub content: Vec<u8>,
}

/// The `(path, content)` views of the vault's entries.
pub open spec fn vault_views(es: Seq<BackupEntry>) -> Seq<(Seq<Seq<char>>, Seq<u8>)> {
    Seq::new(es.len(), |i: int| (es[i].path@, es[i].content@))
}

/// The index of the first entry for `p`, or -1.
pub open spec fn vault_find(vs: Seq<(Seq<Seq<char>>, Seq<u8>)>, p: Seq<Seq<char>>) -> int
    decreases vs.len(),
{
    if vs.len() == 0 {
        -1
    } else if vs[0].0 == p {
        0
    } else {
        let r = vault_find(vs.drop_first(), p);
        if r < 0 {
            -1
        } else {
            r + 1
        }
    }
}

/// The cached content for `p`, if any.
pub open spec fn vault_lookup(vs: Seq<(Seq<Seq<char>>, Seq<u8>)>, p: Seq<Seq<char>>) -> Option<
    Seq<u8>,
> {
    if vault_find(vs, p) >= 0 {
        Some(vs[vault_find(vs, p)].1)
    } else {
        None
    }
}

/// Characterizes `vault_find`: the first matching index, or -1.
pub proof fn lemma_vault_find(vs: Seq<(Seq<Seq<char>>, Seq<u8>)>, p: Seq<Seq<char>>)
    ensures
        vault_find(vs, p) >= 0 ==> {
            let i = vault_find(vs, p);
            i < vs.len() && vs[i].0 == p && forall|j: int| 0 <= j < i ==> vs[j].0 != p
        },
        vault_find(vs, p) < 0 ==> forall|j: int| 0 <= j < vs.len() ==> vs[j].0 != p,
    decreases vs.len(),
{
    if vs.len() > 0 && vs[0].0 != p {
        lemma_vault_find(vs.drop_first(), p);
        let r = vault_find(vs.drop_first(), p);
        if r >= 0 {
            assert(vs[r + 1] == vs.drop_first()[r]);
            assert forall|j: int| 0 <= j < r + 1 implies vs[j].0 != p by {
                if j > 0 {
                    assert(vs.drop_first()[j - 1] == vs[j]);
                }
            }
        } else {
            assert forall|j: int| 0 <= j < vs.len() implies vs[j].0 != p by {
                if j > 0 {
                    assert(vs.drop_first()[j - 1] == vs[j]);
                }
            }
        }
    }
}

/// The vault after storing `c` for `p`: the first entry for `p` is replaced,
/// or a new entry is appended.
pub open spec fn vault_upsert(
    vs: Seq<(Seq<Seq<char>>, Seq<u8>)>,
    p: Seq<Seq<char>>,
    c: Seq<u8>,
) -> Seq<(Seq<Seq<char>>, Seq<u8>)> {
    if vault_find(vs, p) >= 0 {
        vs.update(vault_find(vs, p), (p, c))
    } else {
        vs.push((p, c))
    }
}

/// The in-memory cache mapping each protected path to its last-known-good
/// content.
pub struct BackupVault {
    pub entries: Vec<BackupEntry>,
}

impl BackupVault {
    /// An empty vault.
    pub fn new() -> (r: Self)
        ensures
            vault_views(r.entries@) =~= Seq::<(Seq<Seq<char>>, Seq<u8>)>::empty(),
    {
        BackupVault { entries: Vec::new() }
    }

    /// The number of cached files.
    pub fn len(&self) -> (r: usize)
        ensures
            r == vault_views(self.entries@).len(),
    {
        self.entries.len()
    }

    /// Stores `content` as the last-known-good bytes of `path`, replacing
    /// any earlier entry for the same path.
    pub fn insert(&mut self, path: GuardPath, content: Vec<u8>)
        ensures
            vault_views(final(self).entries@) == vault_upsert(
                vault_views(old(self).entries@),
                path@,
                content@,
            ),
    {
        proof {
            lemma_vault_find(vault_views(self.entries@), path@);
        }
        let ghost vs = vault_views(self.entries@);
        let mut i: usize = 0;
        while i < self.entries.len()
            invariant
                i <= self.entries@.len(),
                self.entries == old(self).entries,
                vs == vault_views(self.entries@),
                vs.len() == self.entries@.len(),
                forall|j: int| 0 <= j < i ==> vs[j].0 != path@,
            decreases self.entries@.len() - i,
        {
            let matched = self.entries[i].path.eq_path(&path);
            proof {
                assert(vs[i as int] == (self.entries@[i as int].path@,
                self.entries@[i as int].content@));
            }
            if matched {
                proof {
                    lemma_vault_find(vs, path@);
                    let fi = vault_find(vs, path@);
                    assert(vs[i as int].0 == path@);
                    if fi < 0 {
                        assert(vs[i as int].0 != path@);
                        assert(false);
                    } else if fi < i {
                        assert(vs[fi].0 != path@);
                        assert(vs[fi].0 == path@);
                        assert(false);
                    } else if fi > i {
                        assert(vs[i as int].0 != path@);
                        assert(false);
                    }
                    assert(fi == i as int);
                }
                let ghost prev = self.entries@;
                let slot = &mut self.entries[i];
                *slot = BackupEntry { path, content };
                proof {
                    assert(self.entries@ == prev.update(i as int, self.entries@[i as int]));
                    assert forall|j: int|
                        0 <= j < self.entries@.len() implies vault_views(self.entries@)[j]
                        == vault_upsert(vs, self.entries@[i as int].path@, self.entries@[i as int].content@)[j] by {
                        if j != i {
                            assert(self.entries@[j] == prev[j]);
                        }
                    }
                    assert(vault_views(self.entries@) =~= vault_upsert(
                        vs,
                        self.entries@[i as int].path@,
                        self.entries@[i as int].content@,
                    ));
                }
                return ;
            }
            i += 1;
        }
        proof {
            lemma_vault_find(vs, path@);
            let fi = vault_find(vs, path@);
            if fi >= 0 {
                assert(vs[fi].0 == path@);
                assert(vs[fi].0 != path@);
                assert(false);
            }
        }
        let ghost prev = self.entries@;
        let ghost pv = path@;
        let ghost cv = content@;
        self.entries.push(BackupEntry { path, content });
        proof {
            assert forall|j: int|
                0 <= j < self.entries@.len() implies vault_views(self.entries@)[j] == vs.push(
                (pv, cv),
            )[j] by {
                if j < prev.len() {
                    assert(self.entries@[j] == prev[j]);
                }
            }
            assert(vault_views(self.entries@) =~= vs.push((pv, cv)));
        }
    }

    /// The cached content for `path`, if any.
    pub fn get(&self, path: &GuardPath) -> (r: Option<&Vec<u8>>)
        ensures
            vault_lookup(vault_views(self.entries@), path@) is Some ==> r is Some && r->0@
                == vault_lookup(vault_views(self.entries@), path@)->0,
            vault_lookup(vault_views(self.entries@), path@) is None ==> r is None,
    {
        proof {
            lemma_vault_find(vault_views(self.entries@), path@);
        }
        let ghost vs = vault_views(self.entries@);
        let mut i: usize = 0;
        while i < self.entries.len()
            invariant
                i <= self.entries@.len(),
                vs == vault_views(self.entries@),
                vs.len() == self.entries@.len(),
                forall|j: int| 0 <= j < i ==> vs[j].0 != path@,
            decreases self.entries@.len() - i,
        {
            let e: &BackupEntry = &self.entries[i];
            proof {
                assert(vs[i as int] == (self.entries@[i as int].path@,
                self.entries@[i as int].content@));
            }
            if e.path.eq_path(path) {
                proof {
                    lemma_vault_find(vs, path@);
                    let fi = vault_find(vs, path@);
                    assert(vs[i as int].0 == path@);
                    if fi < 0 {
                        assert(vs[i as int].0 != path@);
                        assert(false);
                    } else if fi < i {
                        assert(vs[fi].0 != path@);
                        assert(vs[fi].0 == path@);
                        assert(false);
                    } else if fi > i {
                        assert(vs[i as int].0 != path@);
                        assert(false);
                    }
                }
                return Some(&e.content);
            }
            i += 1;
        }
        proof {
            lemma_vault_find(vs, path@);
            let fi = vault_find(vs, path@);
            if fi >= 0 {
                assert(vs[fi].0 == path@);
                assert(vs[fi].0 != path@);
                assert(false);
            }
        }
        None
    }
}

} // verus!
