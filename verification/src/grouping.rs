//! The duplicate grouping pass: collapse the frozen hash index into report
//! entries. Hash groups with a single path are discarded; each remaining
//! group contributes one representative file — its last path — keyed by the
//! canonical (sorted, de-duplicated) sequence of the group's parent folders;
//! groups sharing a canonical key merge into one entry.

use vstd::prelude::*;
use crate::index::HashIndex;
use crate::index::index_view;
use crate::pathkit::canonical_folders;
use crate::pathkit::canonical_key;
use crate::pathkit::lemma_canonical_key_sorted;
use crate::pathkit::lex_cmp;
use crate::pathkit::strictly_sorted;
use crate::pathkit::views_of;
use crate::pathkit::PathOrder;

verus! {

/// One entry of the final report: a canonical folder key and the
/// representative duplicate files found under it.
pub struct ReportEntry {
    pub folders: Vec<Vec<u8>>,
    pub files: Vec<Vec<u8>>,
}

/// The mathematical content of one entry.
pub open spec fn entry_view(e: ReportEntry) -> (Seq<Seq<u8>>, Seq<Seq<u8>>) {
    (views_of(e.folders@), views_of(e.files@))
}

/// The mathematical content of a whole report.
pub open spec fn entries_view(es: Seq<ReportEntry>) -> Seq<(Seq<Seq<u8>>, Seq<Seq<u8>>)> {
    es.map_values(|e: ReportEntry| entry_view(e))
}

/// Position of a folder key among the entries, or -1 when absent.
pub open spec fn find_key(
    acc: Seq<(Seq<Seq<u8>>, Seq<Seq<u8>>)>,
    key: Seq<Seq<u8>>,
) -> int
    decreases acc.len(),
{
    if acc.len() == 0 {
        -1
    } else if acc[0].0 == key {
        0
    } else if find_key(acc.drop_first(), key) == -1 {
        -1
    } else {
        find_key(acc.drop_first(), key) + 1
    }
}

/// What `find_key` returns: the first entry under the key, or -1 when no
/// entry carries it.
pub proof fn lemma_find_key_spec(acc: Seq<(Seq<Seq<u8>>, Seq<Seq<u8>>)>, key: Seq<Seq<u8>>)
    ensures
        -1 <= find_key(acc, key) < acc.len(),
        find_key(acc, key) == -1 <==> (forall|i: int| 0 <= i < acc.len() ==> acc[i].0 != key),
        find_key(acc, key) >= 0 ==> acc[find_key(acc, key)].0 == key,
        forall|k: int| 0 <= k < find_key(acc, key) ==> acc[k].0 != key,
    decreases acc.len(),
{
    if acc.len() == 0 {
    } else if acc[0].0 == key {
    } else {
        lemma_find_key_spec(acc.drop_first(), key);
        let f = find_key(acc.drop_first(), key);
        if f == -1 {
            assert forall|i: int| 0 <= i < acc.len() implies acc[i].0 != key by {
                if i > 0 {
                    assert(acc.drop_first()[i - 1].0 != key);
                }
            }
        } else {
            assert(acc[f + 1] == acc.drop_first()[f]);
            assert forall|k: int| 0 <= k < f + 1 implies acc[k].0 != key by {
                if k > 0 {
                    assert(acc.drop_first()[k - 1].0 != key);
                }
            }
        }
    }
}

/// Record one representative under its key: append it to the entry already
/// carrying the key, or open a new entry at the end.
pub open spec fn add_rep(
    acc: Seq<(Seq<Seq<u8>>, Seq<Seq<u8>>)>,
    key: Seq<Seq<u8>>,
    rep: Seq<u8>,
) -> Seq<(Seq<Seq<u8>>, Seq<Seq<u8>>)> {
    let f = find_key(acc, key);
    if f == -1 {
        acc.push((key, seq![rep]))
    } else {
        acc.update(f, (acc[f].0, acc[f].1.push(rep)))
    }
}

/// The whole grouping pass over the index content, group by group in index
/// order: a group of fewer than two paths is discarded; any other group
/// files its last path under its canonical folder key.
pub open spec fn group_fold(
    groups: Seq<(Seq<u8>, Seq<Seq<u8>>)>,
) -> Seq<(Seq<Seq<u8>>, Seq<Seq<u8>>)>
    decreases groups.len(),
{
    if groups.len() == 0 {
        Seq::empty()
    } else {
        let acc = group_fold(groups.drop_last());
        let g = groups.last();
        if g.1.len() >= 2 {
            add_rep(acc, canonical_key(g.1), g.1.last())
        } else {
            acc
        }
    }
}

/// The representatives that the pass owes to one folder key: the last path
/// of every hash group of at least two paths whose canonical key it is, in
/// index order.
pub open spec fn reps_with_key(groups: Seq<(Seq<u8>, Seq<Seq<u8>>)>, key: Seq<Seq<u8>>) -> Seq<
    Seq<u8>,
>
    decreases groups.len(),
{
    if groups.len() == 0 {
        Seq::empty()
    } else {
        let prefix = reps_with_key(groups.drop_last(), key);
        let g = groups.last();
        if g.1.len() >= 2 && canonical_key(g.1) == key {
            prefix.push(g.1.last())
        } else {
            prefix
        }
    }
}

proof fn lemma_reps_with_key_empty(groups: Seq<(Seq<u8>, Seq<Seq<u8>>)>, key: Seq<Seq<u8>>)
    requires
        forall|g: int|
            0 <= g < groups.len() ==> !(groups[g].1.len() >= 2 && #[trigger] canonical_key(
                groups[g].1,
            ) == key),
    ensures
        reps_with_key(groups, key) == Seq::<Seq<u8>>::empty(),
    decreases groups.len(),
{
    if groups.len() == 0 {
    } else {
        lemma_reps_with_key_empty(groups.drop_last(), key);
        assert(!(groups.last().1.len() >= 2 && canonical_key(groups.last().1) == key)) by {
            assert(groups.last() == groups[groups.len() - 1]);
        }
    }
}

proof fn lemma_reps_with_key_member(
    groups: Seq<(Seq<u8>, Seq<Seq<u8>>)>,
    key: Seq<Seq<u8>>,
    k: int,
)
    requires
        0 <= k < reps_with_key(groups, key).len(),
    ensures
        exists|g: int|
            0 <= g < groups.len() && groups[g].1.len() >= 2 && #[trigger] canonical_key(
                groups[g].1,
            ) == key && groups[g].1.last() == reps_with_key(groups, key)[k],
    decreases groups.len(),
{
    let prefix = groups.drop_last();
    let pr = reps_with_key(prefix, key);
    let r = reps_with_key(groups, key);
    if k < pr.len() {
        lemma_reps_with_key_member(prefix, key, k);
        let g = choose|g: int|
            0 <= g < prefix.len() && prefix[g].1.len() >= 2 && #[trigger] canonical_key(
                prefix[g].1,
            ) == key && prefix[g].1.last() == pr[k];
        assert(groups[g] == prefix[g]);
        assert(r[k] == pr[k]);
    } else {
        let g = groups.len() - 1;
        assert(groups[g] == groups.last());
        assert(groups.last().1.len() >= 2 && canonical_key(groups.last().1) == key) by {
            if !(groups.last().1.len() >= 2 && canonical_key(groups.last().1) == key) {
                assert(r == pr);
            }
        }
        assert(r == pr.push(groups.last().1.last()));
        assert(r[k] == groups.last().1.last());
    }
}

/// What the grouping pass produces, exactly. With `out` the result of the
/// fold over the index content:
/// - each entry holds exactly the representatives owed to its folder key —
///   one per hash group of at least two paths carrying that key, in index
///   order, so entries merge precisely when hash groups share a key;
/// - no two entries share a folder key;
/// - every hash group of at least two paths is reported under its key;
/// - every entry is non-empty and answers to some such hash group.
#[verifier::rlimit(100)]
#[verifier::spinoff_prover]
pub proof fn lemma_group_fold_exact(groups: Seq<(Seq<u8>, Seq<Seq<u8>>)>)
    ensures
        ({
            let out = group_fold(groups);
            &&& forall|j: int|
                0 <= j < out.len() ==> #[trigger] out[j].1 == reps_with_key(groups, out[j].0)
            &&& forall|j1: int, j2: int| 0 <= j1 < j2 < out.len() ==> out[j1].0 != out[j2].0
            &&& forall|g: int|
                0 <= g < groups.len() && #[trigger] groups[g].1.len() >= 2 ==> exists|j: int|
                    0 <= j < out.len() && #[trigger] out[j].0 == canonical_key(groups[g].1)
            &&& forall|j: int| 0 <= j < out.len() ==> #[trigger] out[j].1.len() >= 1
            &&& forall|j: int|
                #![trigger out[j]]
                0 <= j < out.len() ==> exists|g: int|
                    0 <= g < groups.len() && groups[g].1.len() >= 2 && #[trigger] canonical_key(
                        groups[g].1,
                    ) == out[j].0
        }),
    decreases groups.len(),
{
    if groups.len() == 0 {
    } else {
        let prefix = groups.drop_last();
        lemma_group_fold_exact(prefix);
        let acc = group_fold(prefix);
        let g = groups.last();
        let out = group_fold(groups);
        assert(g == groups[groups.len() - 1]);
        assert(forall|gg: int| 0 <= gg < prefix.len() ==> prefix[gg] == groups[gg]);
        if g.1.len() < 2 {
            assert(out == acc);
            assert forall|j: int| 0 <= j < out.len() implies #[trigger] out[j].1 == reps_with_key(
                groups,
                out[j].0,
            ) by {
                assert(acc[j].1 == reps_with_key(prefix, acc[j].0));
                assert(reps_with_key(groups, out[j].0) == reps_with_key(prefix, out[j].0));
            }
            assert forall|gg: int|
                0 <= gg < groups.len() && #[trigger] groups[gg].1.len() >= 2 implies exists|j: int|
                0 <= j < out.len() && #[trigger] out[j].0 == canonical_key(groups[gg].1) by {
                assert(gg < prefix.len());
                assert(prefix[gg].1.len() >= 2);
            }
            assert forall|j: int| #![trigger out[j]] 0 <= j < out.len() implies exists|gg: int|
                0 <= gg < groups.len() && groups[gg].1.len() >= 2 && #[trigger] canonical_key(
                    groups[gg].1,
                ) == out[j].0 by {
                let gg = choose|gg: int|
                    0 <= gg < prefix.len() && prefix[gg].1.len() >= 2 && #[trigger] canonical_key(
                        prefix[gg].1,
                    ) == acc[j].0;
                assert(groups[gg] == prefix[gg]);
            }
        } else {
            let key = canonical_key(g.1);
            let rep = g.1.last();
            lemma_find_key_spec(acc, key);
            let f = find_key(acc, key);
            assert(out == add_rep(acc, key, rep));
            assert forall|k: Seq<Seq<u8>>| k != key implies reps_with_key(groups, k)
                == reps_with_key(prefix, k) by {}
            assert(reps_with_key(groups, key) == reps_with_key(prefix, key).push(rep));
            if f == -1 {
                assert(out == acc.push((key, seq![rep])));
                assert forall|gg: int|
                    0 <= gg < prefix.len() implies !(prefix[gg].1.len() >= 2
                    && #[trigger] canonical_key(prefix[gg].1) == key) by {
                    if prefix[gg].1.len() >= 2 && canonical_key(prefix[gg].1) == key {
                        let j = choose|j: int|
                            0 <= j < acc.len() && #[trigger] acc[j].0 == canonical_key(
                                prefix[gg].1,
                            );
                        assert(acc[j].0 != key);
                    }
                }
                lemma_reps_with_key_empty(prefix, key);
                assert(out[acc.len() as int].1 =~= reps_with_key(groups, key));
                assert forall|j: int| 0 <= j < out.len() implies #[trigger] out[j].1
                    == reps_with_key(groups, out[j].0) by {
                    if j < acc.len() {
                        assert(out[j] == acc[j]);
                        assert(acc[j].0 != key);
                        assert(acc[j].1 == reps_with_key(prefix, acc[j].0));
                    }
                }
                assert forall|gg: int|
                    0 <= gg < groups.len() && #[trigger] groups[gg].1.len() >= 2 implies exists|
                    j: int,
                |
                    0 <= j < out.len() && #[trigger] out[j].0 == canonical_key(groups[gg].1) by {
                    if gg < prefix.len() {
                        assert(prefix[gg].1.len() >= 2);
                        let j = choose|j: int|
                            0 <= j < acc.len() && #[trigger] acc[j].0 == canonical_key(
                                prefix[gg].1,
                            );
                        assert(out[j].0 == canonical_key(groups[gg].1));
                    } else {
                        assert(out[acc.len() as int].0 == canonical_key(groups[gg].1));
                    }
                }
                assert forall|j: int| #![trigger out[j]] 0 <= j < out.len() implies exists|gg: int|
                    0 <= gg < groups.len() && groups[gg].1.len() >= 2 && #[trigger] canonical_key(
                        groups[gg].1,
                    ) == out[j].0 by {
                    if j < acc.len() {
                        let gg = choose|gg: int|
                            0 <= gg < prefix.len() && prefix[gg].1.len() >= 2
                                && #[trigger] canonical_key(prefix[gg].1) == acc[j].0;
                        assert(groups[gg] == prefix[gg]);
                    } else {
                        let gg = groups.len() - 1;
                        assert(canonical_key(groups[gg].1) == out[j].0);
                    }
                }
            } else {
                assert(acc[f].0 == key);
                assert(out == acc.update(f, (acc[f].0, acc[f].1.push(rep))));
                assert(forall|j: int| 0 <= j < out.len() ==> out[j].0 == acc[j].0);
                assert forall|j: int| 0 <= j < out.len() implies #[trigger] out[j].1
                    == reps_with_key(groups, out[j].0) by {
                    if j == f {
                        assert(out[j].1 == acc[f].1.push(rep));
                        assert(acc[f].1 == reps_with_key(prefix, key));
                    } else {
                        assert(out[j].0 != key) by {
                            if j < f {
                                assert(acc[j].0 != key);
                            } else {
                                assert(acc[f].0 != acc[j].0);
                            }
                        }
                        assert(out[j].1 == acc[j].1);
                        assert(acc[j].1 == reps_with_key(prefix, acc[j].0));
                    }
                }
                assert forall|gg: int|
                    0 <= gg < groups.len() && #[trigger] groups[gg].1.len() >= 2 implies exists|
                    j: int,
                |
                    0 <= j < out.len() && #[trigger] out[j].0 == canonical_key(groups[gg].1) by {
                    if gg < prefix.len() {
                        assert(prefix[gg].1.len() >= 2);
                        let j = choose|j: int|
                            0 <= j < acc.len() && #[trigger] acc[j].0 == canonical_key(
                                prefix[gg].1,
                            );
                        assert(out[j].0 == canonical_key(groups[gg].1));
                    } else {
                        assert(out[f].0 == canonical_key(groups[gg].1));
                    }
                }
                assert forall|j: int| #![trigger out[j]] 0 <= j < out.len() implies exists|gg: int|
                    0 <= gg < groups.len() && groups[gg].1.len() >= 2 && #[trigger] canonical_key(
                        groups[gg].1,
                    ) == out[j].0 by {
                    let gg = choose|gg: int|
                        0 <= gg < prefix.len() && prefix[gg].1.len() >= 2
                            && #[trigger] canonical_key(prefix[gg].1) == acc[j].0;
                    assert(groups[gg] == prefix[gg]);
                }
            }
        }
    }
}

/// No hash group with a single file reaches the report: every file named in
/// the grouping pass's output is the representative of a hash group of at
/// least two paths, and it stands under that group's canonical folder key.
pub proof fn lemma_no_singleton_group_reported(groups: Seq<(Seq<u8>, Seq<Seq<u8>>)>)
    ensures
        ({
            let out = group_fold(groups);
            forall|j: int, k: int|
                #![trigger out[j].1[k]]
                0 <= j < out.len() && 0 <= k < out[j].1.len() ==> exists|g: int|
                    0 <= g < groups.len() && groups[g].1.len() >= 2 && #[trigger] canonical_key(
                        groups[g].1,
                    ) == out[j].0 && groups[g].1.last() == out[j].1[k]
        }),
{
    let out = group_fold(groups);
    lemma_group_fold_exact(groups);
    assert forall|j: int, k: int|
        #![trigger out[j].1[k]]
        0 <= j < out.len() && 0 <= k < out[j].1.len() implies exists|
        g: int,
    |
        0 <= g < groups.len() && groups[g].1.len() >= 2 && #[trigger] canonical_key(groups[g].1)
            == out[j].0 && groups[g].1.last() == out[j].1[k] by {
        assert(out[j].1 == reps_with_key(groups, out[j].0));
        lemma_reps_with_key_member(groups, out[j].0, k);
    }
}

/// Every folder key the grouping pass emits is strictly sorted, hence free
/// of repeats: each key is the canonical folder key of some hash group.
pub proof fn lemma_report_keys_sorted(groups: Seq<(Seq<u8>, Seq<Seq<u8>>)>)
    ensures
        ({
            let out = group_fold(groups);
            forall|j: int|
                0 <= j < out.len() ==> strictly_sorted(#[trigger] out[j].0)
        }),
{
    let out = group_fold(groups);
    lemma_group_fold_exact(groups);
    assert forall|j: int| 0 <= j < out.len() implies strictly_sorted(#[trigger] out[j].0) by {
        let g = choose|g: int|
            0 <= g < groups.len() && groups[g].1.len() >= 2 && #[trigger] canonical_key(
                groups[g].1,
            ) == out[j].0;
        lemma_canonical_key_sorted(groups[g].1);
    }
}

/// Byte-for-byte copy of one path.
fn copy_path(p: &Vec<u8>) -> (r: Vec<u8>)
    ensures
        r@ == p@,
{
    let mut r: Vec<u8> = Vec::new();
    let mut i: usize = 0;
    while i < p.len()
        invariant
            i <= p.len(),
            r@ =~= p@.take(i as int),
        decreases p.len() - i,
    {
        r.push(p[i]);
        i = i + 1;
    }
    proof {
        assert(p@.take(p@.len() as int) =~= p@);
    }
    r
}

/// Member-for-member equality of two folder lists.
fn folder_lists_eq(a: &Vec<Vec<u8>>, b: &Vec<Vec<u8>>) -> (r: bool)
    ensures
        r == (views_of(a@) == views_of(b@)),
{
    if a.len() != b.len() {
        proof {
            assert(views_of(a@).len() != views_of(b@).len());
        }
        return false;
    }
    let mut i: usize = 0;
    while i < a.len()
        invariant
            a@.len() == b@.len(),
            i <= a.len(),
            forall|k: int| 0 <= k < i ==> views_of(a@)[k] == views_of(b@)[k],
        decreases a.len() - i,
    {
        match lex_cmp(&a[i], &b[i]) {
            PathOrder::Same => {
                proof {
                    assert(views_of(a@)[i as int] == a@[i as int]@);
                    assert(views_of(b@)[i as int] == b@[i as int]@);
                }
            },
            _ => {
                proof {
                    assert(views_of(a@)[i as int] == a@[i as int]@);
                    assert(views_of(b@)[i as int] == b@[i as int]@);
                }
                return false;
            },
        }
        i = i + 1;
    }
    proof {
        assert(views_of(a@) =~= views_of(b@));
    }
    true
}

/// Run the duplicate grouping pass over the frozen index.
pub fn duplicate_groups(ix: &HashIndex) -> (r: Vec<ReportEntry>)
    ensures
        entries_view(r@) == group_fold(index_view(*ix)),
{
    let mut out: Vec<ReportEntry> = Vec::new();
    let mut i: usize = 0;
    proof {
        assert(index_view(*ix).take(0) =~= Seq::<(Seq<u8>, Seq<Seq<u8>>)>::empty());
        assert(entries_view(out@) =~= Seq::<(Seq<Seq<u8>>, Seq<Seq<u8>>)>::empty());
    }
    while i < ix.groups.len()
        invariant
            i <= ix.groups@.len(),
            index_view(*ix).len() == ix.groups@.len(),
            entries_view(out@) == group_fold(index_view(*ix).take(i as int)),
        decreases ix.groups@.len() - i,
    {
        let ghost v = index_view(*ix);
        let ghost acc0 = entries_view(out@);
        proof {
            assert(v.take(i + 1).drop_last() =~= v.take(i as int));
            assert(v.take(i + 1).last() == v[i as int]);
            assert(v[i as int] == (ix.groups@[i as int].digest@, views_of(ix.groups@[i as int].paths@)));
        }
        let g = &ix.groups[i];
        if g.paths.len() >= 2 {
            let key = canonical_folders(&g.paths);
            let rep = copy_path(&g.paths[g.paths.len() - 1]);
            proof {
                assert(rep@ == v[i as int].1.last());
            }
            let ghost gkey = canonical_key(v[i as int].1);
            let mut j: usize = 0;
            let mut found = false;
            proof {
                lemma_find_key_spec(acc0, gkey);
            }
            while j < out.len() && !found
                invariant
                    j <= out@.len(),
                    acc0 == entries_view(out@),
                    acc0.len() == out@.len(),
                    views_of(key@) == gkey,
                    found ==> j < out@.len() && acc0[j as int].0 == gkey
                        && (forall|k: int| 0 <= k < j ==> acc0[k].0 != gkey),
                    !found ==> (forall|k: int| 0 <= k < j ==> acc0[k].0 != gkey),
                decreases out@.len() - j + (if found { 0int } else { 1int }),
            {
                proof {
                    assert(acc0[j as int] == entry_view(out@[j as int]));
                }
                if folder_lists_eq(&out[j].folders, &key) {
                    found = true;
                } else {
                    j = j + 1;
                }
            }
            if found {
                proof {
                    lemma_find_key_spec(acc0, gkey);
                    let f = find_key(acc0, gkey);
                    assert(f == j as int) by {
                        if f < j as int {
                            assert(acc0[f].0 != gkey);
                        }
                        if f > j as int {
                            assert(acc0[j as int].0 != gkey);
                        }
                    }
                }
                let mut e = out.remove(j);
                e.files.push(rep);
                out.insert(j, e);
                proof {
                    let w = entries_view(out@);
                    assert(w =~= add_rep(acc0, gkey, rep@)) by {
                        assert forall|k: int| 0 <= k < w.len() implies
                            w[k] == add_rep(acc0, gkey, rep@)[k] by {
                            assert(w[k] == entry_view(out@[k]));
                            if k == j as int {
                                assert(views_of(e.files@) =~= acc0[j as int].1.push(rep@));
                            }
                        }
                    }
                }
            } else {
                proof {
                    lemma_find_key_spec(acc0, gkey);
                    assert(find_key(acc0, gkey) == -1) by {
                        let f = find_key(acc0, gkey);
                        if f >= 0 {
                            assert(acc0[f].0 != gkey);
                        }
                    }
                }
                let mut files: Vec<Vec<u8>> = Vec::new();
                files.push(rep);
                let e = ReportEntry { folders: key, files };
                out.push(e);
                proof {
                    let w = entries_view(out@);
                    assert(w =~= add_rep(acc0, gkey, rep@)) by {
                        assert forall|k: int| 0 <= k < w.len() implies
                            w[k] == add_rep(acc0, gkey, rep@)[k] by {
                            assert(w[k] == entry_view(out@[k]));
                            if k == acc0.len() as int {
                                assert(views_of(out@[k].files@) =~= seq![rep@]);
                            }
                        }
                    }
                }
            }
            proof {
                assert(group_fold(v.take(i + 1)) == add_rep(group_fold(v.take(i as int)), gkey, rep@));
            }
        } else {
            proof {
                assert(group_fold(v.take(i + 1)) == group_fold(v.take(i as int)));
            }
        }
        i = i + 1;
    }
    proof {
        assert(index_view(*ix).take(ix.groups@.len() as int) =~= index_view(*ix));
    }
    out
}

} // verus!
