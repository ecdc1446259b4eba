//! The hash index: a mapping from content digest to the paths of the files
//! that produced it, grown one merge at a time while workers finish, then
//! frozen and handed to the grouping pass.

use vstd::prelude::*;
use crate::pathkit::{lex_cmp, views_of, PathOrder};

verus! {

/// One hash group: a digest and the paths of the files bearing it, in
/// completion order.
pub struct IndexGroup {
    pub digest: Vec<u8>,
    pub paths: Vec<Vec<u8>>,
}

/// The digest-to-paths index.
pub struct HashIndex {
    pub groups: Vec<IndexGroup>,
}

/// The mathematical content of one group: its digest and its path views.
pub open spec fn group_view(g: IndexGroup) -> (Seq<u8>, Seq<Seq<u8>>) {
    (g.digest@, views_of(g.paths@))
}

/// The mathematical content of the index: the group contents in insertion
/// order of their digests.
pub open spec fn index_view(ix: HashIndex) -> Seq<(Seq<u8>, Seq<Seq<u8>>)> {
    ix.groups@.map_values(|g: IndexGroup| group_view(g))
}

/// Position of a digest among the groups, or -1 when absent.
pub open spec fn find_digest(s: Seq<(Seq<u8>, Seq<Seq<u8>>)>, d: Seq<u8>) -> int
    decreases s.len(),
{
    if s.len() == 0 {
        -1
    } else if s[0].0 == d {
        0
    } else if find_digest(s.drop_first(), d) == -1 {
        -1
    } else {
        find_digest(s.drop_first(), d) + 1
    }
}

/// What `find_digest` returns: the first group carrying the digest, or -1
/// when no group does.
pub proof fn lemma_find_digest_spec(s: Seq<(Seq<u8>, Seq<Seq<u8>>)>, d: Seq<u8>)
    ensures
        -1 <= find_digest(s, d) < s.len(),
        find_digest(s, d) == -1 <==> (forall|i: int| 0 <= i < s.len() ==> s[i].0 != d),
        find_digest(s, d) >= 0 ==> s[find_digest(s, d)].0 == d,
        forall|k: int| 0 <= k < find_digest(s, d) ==> s[k].0 != d,
    decreases s.len(),
{
    if s.len() == 0 {
    } else if s[0].0 == d {
    } else {
        lemma_find_digest_spec(s.drop_first(), d);
        let f = find_digest(s.drop_first(), d);
        if f == -1 {
            assert forall|i: int| 0 <= i < s.len() implies s[i].0 != d by {
                if i > 0 {
                    assert(s.drop_first()[i - 1].0 != d);
                }
            }
        } else {
            assert(s[f + 1] == s.drop_first()[f]);
            assert forall|k: int| 0 <= k < f + 1 implies s[k].0 != d by {
                if k > 0 {
                    assert(s.drop_first()[k - 1].0 != d);
                }
            }
        }
    }
}

/// Well-formedness of the index content: digests are pairwise distinct and
/// every group holds at least one path.
pub open spec fn index_wf(v: Seq<(Seq<u8>, Seq<Seq<u8>>)>) -> bool {
    &&& forall|i: int, j: int| 0 <= i < j < v.len() ==> v[i].0 != v[j].0
    &&& forall|i: int| 0 <= i < v.len() ==> v[i].1.len() >= 1
}

impl HashIndex {
    /// The empty index, created once at scan start.
    pub fn new() -> (r: HashIndex)
        ensures
            index_view(r) == Seq::<(Seq<u8>, Seq<Seq<u8>>)>::empty(),
            index_wf(index_view(r)),
    {
        let r = HashIndex { groups: Vec::new() };
        proof {
            assert(index_view(r) =~= Seq::<(Seq<u8>, Seq<Seq<u8>>)>::empty());
        }
        r
    }

    /// Number of hash groups in the index.
    pub fn group_count(&self) -> (n: usize)
        ensures
            n == index_view(*self).len(),
    {
        self.groups.len()
    }

    /// Merge one finished task's result: append the path to the group of its
    /// digest, or open a new group when the digest is new. Every path of the
    /// old index keeps its place; nothing else changes.
    pub fn merge(&mut self, digest: Vec<u8>, path: Vec<u8>)
        requires
            index_wf(index_view(*old(self))),
        ensures
            index_wf(index_view(*final(self))),
            ({
                let v = index_view(*old(self));
                let f = find_digest(v, digest@);
                if f == -1 {
                    index_view(*final(self)) == v.push((digest@, seq![path@]))
                } else {
                    index_view(*final(self)) == v.update(f, (v[f].0, v[f].1.push(path@)))
                }
            }),
    {
        let ghost v = index_view(*old(self));
        proof {
            lemma_find_digest_spec(v, digest@);
        }
        let mut i: usize = 0;
        while i < self.groups.len()
            invariant
                *self == *old(self),
                i <= self.groups@.len(),
                v == index_view(*self),
                index_wf(v),
                forall|k: int| 0 <= k < i ==> v[k].0 != digest@,
            decreases self.groups@.len() - i,
        {
            proof {
                assert(v[i as int] == group_view(self.groups@[i as int]));
            }
            match lex_cmp(&digest, &self.groups[i].digest) {
                PathOrder::Same => {
                    proof {
                        assert(v[i as int].0 == digest@);
                        assert(find_digest(v, digest@) == i as int) by {
                            lemma_find_digest_spec(v, digest@);
                            let f = find_digest(v, digest@);
                            if f < i as int {
                                assert(v[f].0 != digest@);
                            }
                            if f > i as int {
                                assert(v[i as int].0 != digest@);
                            }
                        }
                    }
                    let mut g = self.groups.remove(i);
                    g.paths.push(path);
                    self.groups.insert(i, g);
                    proof {
                        let w = index_view(*self);
                        assert(w =~= v.update(i as int, (v[i as int].0, v[i as int].1.push(path@)))) by {
                            assert forall|k: int| 0 <= k < w.len() implies
                                w[k] == v.update(i as int, (v[i as int].0, v[i as int].1.push(path@)))[k] by {
                                assert(w[k] == group_view(self.groups@[k]));
                                if k == i as int {
                                    assert(views_of(g.paths@) =~= v[i as int].1.push(path@));
                                } else {
                                    assert(self.groups@[k] == old(self).groups@[k]);
                                }
                            }
                        }
                        assert(index_wf(w)) by {
                            assert forall|a: int, b: int| 0 <= a < b < w.len()
                                implies w[a].0 != w[b].0 by {
                                assert(w[a].0 == v[a].0);
                                assert(w[b].0 == v[b].0);
                            }
                            assert forall|a: int| 0 <= a < w.len()
                                implies w[a].1.len() >= 1 by {
                                if a == i as int {
                                    assert(w[a].1 == v[a].1.push(path@));
                                } else {
                                    assert(w[a].1 == v[a].1);
                                }
                            }
                        }
                    }
                    return;
                },
                _ => {},
            }
            i = i + 1;
        }
        proof {
            assert(find_digest(v, digest@) == -1) by {
                lemma_find_digest_spec(v, digest@);
                let f = find_digest(v, digest@);
                if f >= 0 {
                    assert(v[f].0 != digest@);
                }
            }
        }
        let mut ps: Vec<Vec<u8>> = Vec::new();
        ps.push(path);
        self.groups.push(IndexGroup { digest, paths: ps });
        proof {
            let w = index_view(*self);
            assert(w =~= v.push((digest@, seq![path@]))) by {
                assert forall|k: int| 0 <= k < w.len() implies
                    w[k] == v.push((digest@, seq![path@]))[k] by {
                    assert(w[k] == group_view(self.groups@[k]));
                    if k < v.len() {
                        assert(self.groups@[k] == old(self).groups@[k]);
                    } else {
                        assert(views_of(self.groups@[k].paths@) =~= seq![path@]);
                    }
                }
            }
        }
    }
}

} // verus!
