//! Path model: a path is the byte string of its textual form. This module
//! gives the parent-folder computation, the lexicographic order on paths,
//! and the canonical folder key of a group of paths: the sorted,
//! de-duplicated sequence of the parent folders of its members.

use vstd::prelude::*;

verus! {

/// The views of a sequence of byte vectors.
pub open spec fn views_of(s: Seq<Vec<u8>>) -> Seq<Seq<u8>> {
    s.map_values(|v: Vec<u8>| v@)
}

/// Strict lexicographic order on byte strings: a shorter string precedes
/// every string it is a proper prefix of.
pub open spec fn lex_lt(a: Seq<u8>, b: Seq<u8>) -> bool
    decreases a.len(),
{
    if b.len() == 0 {
        false
    } else if a.len() == 0 {
        true
    } else if a[0] < b[0] {
        true
    } else if a[0] > b[0] {
        false
    } else {
        lex_lt(a.drop_first(), b.drop_first())
    }
}

pub proof fn lemma_lex_lt_asymmetric(a: Seq<u8>, b: Seq<u8>)
    requires
        lex_lt(a, b),
    ensures
        !lex_lt(b, a),
        a != b,
    decreases a.len(),
{
    if b.len() == 0 {
    } else if a.len() == 0 {
        assert(a.len() != b.len());
    } else if a[0] < b[0] {
        assert(a[0] != b[0]);
    } else if a[0] > b[0] {
    } else {
        lemma_lex_lt_asymmetric(a.drop_first(), b.drop_first());
        assert(a != b) by {
            if a == b {
                assert(a.drop_first() =~= b.drop_first());
            }
        }
    }
}

pub proof fn lemma_lex_lt_connected(a: Seq<u8>, b: Seq<u8>)
    requires
        !lex_lt(a, b),
        !lex_lt(b, a),
    ensures
        a == b,
    decreases a.len(),
{
    if b.len() == 0 {
        assert(a.len() == 0);
        assert(a =~= b);
    } else if a.len() == 0 {
    } else {
        assert(a[0] == b[0]);
        lemma_lex_lt_connected(a.drop_first(), b.drop_first());
        assert(a =~= b) by {
            assert(a.drop_first().len() == b.drop_first().len());
            assert forall|i: int| 0 <= i < a.len() implies a[i] == b[i] by {
                if i > 0 {
                    assert(a.drop_first()[i - 1] == b.drop_first()[i - 1]);
                }
            }
        }
    }
}

pub proof fn lemma_lex_lt_transitive(a: Seq<u8>, b: Seq<u8>, c: Seq<u8>)
    requires
        lex_lt(a, b),
        lex_lt(b, c),
    ensures
        lex_lt(a, c),
    decreases a.len(),
{
    if a.len() == 0 {
        assert(b.len() > 0);
        assert(c.len() > 0);
    } else {
        assert(b.len() > 0);
        assert(c.len() > 0);
        if a[0] == b[0] && b[0] == c[0] {
            lemma_lex_lt_transitive(a.drop_first(), b.drop_first(), c.drop_first());
        }
    }
}

/// With equal prefixes of length `i`, the order is decided past them.
proof fn lemma_lex_lt_skip(a: Seq<u8>, b: Seq<u8>, i: int)
    requires
        0 <= i <= a.len(),
        i <= b.len(),
        forall|k: int| 0 <= k < i ==> a[k] == b[k],
    ensures
        lex_lt(a, b) == lex_lt(a.skip(i), b.skip(i)),
    decreases i,
{
    if i == 0 {
        assert(a.skip(0) =~= a);
        assert(b.skip(0) =~= b);
    } else {
        assert(a.len() > 0);
        assert(b.len() > 0);
        assert(a[0] == b[0]);
        lemma_lex_lt_skip(a.drop_first(), b.drop_first(), i - 1);
        assert(a.drop_first().skip(i - 1) =~= a.skip(i));
        assert(b.drop_first().skip(i - 1) =~= b.skip(i));
    }
}

/// Result of a three-way path comparison.
pub enum PathOrder {
    Before,
    Same,
    After,
}

/// Three-way lexicographic comparison of two paths.
pub fn lex_cmp(a: &Vec<u8>, b: &Vec<u8>) -> (r: PathOrder)
    ensures
        r is Before <==> lex_lt(a@, b@),
        r is Same <==> a@ == b@,
        r is After <==> lex_lt(b@, a@),
{
    let mut i: usize = 0;
    while i < a.len() && i < b.len()
        invariant
            i <= a.len(),
            i <= b.len(),
            forall|k: int| 0 <= k < i ==> a@[k] == b@[k],
        decreases a.len() - i,
    {
        let x = a[i];
        let y = b[i];
        if x < y {
            proof {
                lemma_lex_lt_skip(a@, b@, i as int);
                lemma_lex_lt_skip(b@, a@, i as int);
                assert(a@.skip(i as int)[0] == x);
                assert(b@.skip(i as int)[0] == y);
                assert(lex_lt(a@, b@));
                lemma_lex_lt_asymmetric(a@, b@);
            }
            return PathOrder::Before;
        } else if x > y {
            proof {
                lemma_lex_lt_skip(a@, b@, i as int);
                lemma_lex_lt_skip(b@, a@, i as int);
                assert(a@.skip(i as int)[0] == x);
                assert(b@.skip(i as int)[0] == y);
                assert(lex_lt(b@, a@));
                lemma_lex_lt_asymmetric(b@, a@);
            }
            return PathOrder::After;
        }
        i = i + 1;
    }
    proof {
        lemma_lex_lt_skip(a@, b@, i as int);
        lemma_lex_lt_skip(b@, a@, i as int);
    }
    if a.len() < b.len() {
        proof {
            assert(a@.skip(i as int).len() == 0);
            assert(b@.skip(i as int).len() > 0);
            lemma_lex_lt_asymmetric(a@, b@);
        }
        PathOrder::Before
    } else if a.len() > b.len() {
        proof {
            assert(b@.skip(i as int).len() == 0);
            assert(a@.skip(i as int).len() > 0);
            lemma_lex_lt_asymmetric(b@, a@);
        }
        PathOrder::After
    } else {
        proof {
            assert(a@ =~= b@);
            assert(!lex_lt(a@.skip(i as int), b@.skip(i as int)));
        }
        PathOrder::Same
    }
}

/// The parent folder of a path: everything before the last separator;
/// a lone leading separator stands for the root folder, and a path with
/// no separator has the empty parent.
pub open spec fn parent_of(p: Seq<u8>) -> Seq<u8>
    decreases p.len(),
{
    if p.len() == 0 {
        Seq::empty()
    } else if p.last() == 47u8 {
        if p.len() == 1 {
            p
        } else {
            p.drop_last()
        }
    } else {
        parent_of(p.drop_last())
    }
}

/// Past a separator-free suffix, the parent is decided by the prefix.
proof fn lemma_parent_of_take(p: Seq<u8>, j: int)
    requires
        0 <= j <= p.len(),
        forall|k: int| j <= k < p.len() ==> p[k] != 47u8,
    ensures
        parent_of(p) == parent_of(p.take(j)),
    decreases p.len() - j,
{
    if j == p.len() {
        assert(p.take(j) =~= p);
    } else {
        lemma_parent_of_take(p, j + 1);
        assert(p.take(j + 1).len() == j + 1);
        assert(p.take(j + 1).last() == p[j]);
        assert(p[j] != 47u8);
        assert(p.take(j + 1).drop_last() =~= p.take(j));
    }
}

/// Compute the parent folder of a path.
pub fn parent_of_path(p: &Vec<u8>) -> (r: Vec<u8>)
    ensures
        r@ == parent_of(p@),
{
    let mut j: usize = p.len();
    while j > 0 && p[j - 1] != 47u8
        invariant
            j <= p.len(),
            forall|k: int| j <= k < p@.len() ==> p@[k] != 47u8,
        decreases j,
    {
        j = j - 1;
    }
    proof {
        lemma_parent_of_take(p@, j as int);
    }
    if j == 0 {
        let r: Vec<u8> = Vec::new();
        proof {
            assert(p@.take(0) =~= Seq::<u8>::empty());
        }
        r
    } else if j == 1 {
        let mut r: Vec<u8> = Vec::new();
        r.push(47u8);
        proof {
            assert(p@.take(1).len() == 1);
            assert(p@.take(1).last() == p@[0]);
            assert(r@ =~= p@.take(1));
        }
        r
    } else {
        let mut r: Vec<u8> = Vec::new();
        let mut k: usize = 0;
        while k < j - 1
            invariant
                k <= j - 1,
                1 < j <= p@.len(),
                r@ =~= p@.take(k as int),
            decreases j - k,
        {
            r.push(p[k]);
            k = k + 1;
        }
        proof {
            assert(p@.take(j as int).last() == p@[j - 1]);
            assert(p@.take(j as int).drop_last() =~= p@.take(j - 1));
            assert(r@ =~= p@.take(j - 1));
        }
        r
    }
}

/// The parent folders of a sequence of paths, member for member.
pub open spec fn parents_of(ps: Seq<Seq<u8>>) -> Seq<Seq<u8>> {
    ps.map_values(|p: Seq<u8>| parent_of(p))
}

/// Insert a folder into a sorted, de-duplicated folder sequence, keeping
/// it sorted and dropping the folder when it is already present.
pub open spec fn insert_sorted(key: Seq<u8>, s: Seq<Seq<u8>>) -> Seq<Seq<u8>>
    decreases s.len(),
{
    if s.len() == 0 {
        seq![key]
    } else if key == s[0] {
        s
    } else if lex_lt(key, s[0]) {
        seq![key] + s
    } else {
        seq![s[0]] + insert_sorted(key, s.drop_first())
    }
}

/// The canonical folder sequence of a folder list: each member inserted in
/// turn into a sorted, de-duplicated accumulator.
pub open spec fn canon_fold(folders: Seq<Seq<u8>>) -> Seq<Seq<u8>>
    decreases folders.len(),
{
    if folders.len() == 0 {
        Seq::empty()
    } else {
        insert_sorted(folders.last(), canon_fold(folders.drop_last()))
    }
}

/// The canonical folder key of a group of paths: the sorted, de-duplicated
/// sequence of the parent folders of its members.
pub open spec fn canonical_key(paths: Seq<Seq<u8>>) -> Seq<Seq<u8>> {
    canon_fold(parents_of(paths))
}

/// Insert a folder into a sorted, de-duplicated folder vector.
pub fn insert_folder(key: Vec<u8>, s: Vec<Vec<u8>>) -> (r: Vec<Vec<u8>>)
    ensures
        views_of(r@) == insert_sorted(key@, views_of(s@)),
    decreases s.len(),
{
    let mut s = s;
    if s.len() == 0 {
        let mut r: Vec<Vec<u8>> = Vec::new();
        r.push(key);
        proof {
            assert(views_of(r@) =~= seq![key@]);
        }
        r
    } else {
        match lex_cmp(&key, &s[0]) {
            PathOrder::Same => {
                proof {
                    assert(views_of(s@)[0] == s@[0]@);
                }
                s
            },
            PathOrder::Before => {
                proof {
                    assert(views_of(s@)[0] == s@[0]@);
                }
                let ghost sv = views_of(s@);
                s.insert(0, key);
                proof {
                    assert(views_of(s@) =~= seq![key@] + sv);
                }
                s
            },
            PathOrder::After => {
                proof {
                    assert(views_of(s@)[0] == s@[0]@);
                    lemma_lex_lt_asymmetric(s@[0]@, key@);
                }
                let ghost sv = views_of(s@);
                let first = s.remove(0);
                proof {
                    assert(views_of(s@) =~= sv.drop_first());
                }
                let mut rest = insert_folder(key, s);
                rest.insert(0, first);
                proof {
                    assert(views_of(rest@) =~= seq![first@] + insert_sorted(key@, sv.drop_first()));
                }
                rest
            },
        }
    }
}

/// Compute the canonical folder key of a group of paths: the sorted,
/// de-duplicated sequence of the parent folders of its members.
pub fn canonical_folders(paths: &Vec<Vec<u8>>) -> (r: Vec<Vec<u8>>)
    ensures
        views_of(r@) == canonical_key(views_of(paths@)),
{
    let mut acc: Vec<Vec<u8>> = Vec::new();
    let mut i: usize = 0;
    proof {
        assert(parents_of(views_of(paths@).take(0)) =~= Seq::<Seq<u8>>::empty());
        assert(views_of(acc@) =~= Seq::<Seq<u8>>::empty());
    }
    while i < paths.len()
        invariant
            i <= paths.len(),
            views_of(acc@) == canon_fold(parents_of(views_of(paths@).take(i as int))),
        decreases paths.len() - i,
    {
        let parent = parent_of_path(&paths[i]);
        acc = insert_folder(parent, acc);
        proof {
            let full = views_of(paths@);
            let prev = parents_of(full.take(i as int));
            let next = parents_of(full.take(i + 1));
            assert(full[i as int] == paths@[i as int]@);
            assert(next =~= prev.push(parent_of(full[i as int])));
            assert(next.drop_last() =~= prev);
            assert(next.last() == parent_of(full[i as int]));
            assert(canon_fold(next) == insert_sorted(parent@, canon_fold(prev)));
        }
        i = i + 1;
    }
    proof {
        assert(views_of(paths@).take(paths@.len() as int) =~= views_of(paths@));
    }
    acc
}

/// Sortedness without repetition: every earlier member strictly precedes
/// every later one.
pub open spec fn strictly_sorted(s: Seq<Seq<u8>>) -> bool {
    forall|i: int, j: int| 0 <= i < j < s.len() ==> lex_lt(s[i], s[j])
}

proof fn lemma_insert_sorted_strict(key: Seq<u8>, s: Seq<Seq<u8>>)
    requires
        strictly_sorted(s),
    ensures
        strictly_sorted(insert_sorted(key, s)),
        forall|x: Seq<u8>|
            #[trigger] insert_sorted(key, s).contains(x) <==> (x == key || s.contains(x)),
    decreases s.len(),
{
    let r = insert_sorted(key, s);
    if s.len() == 0 {
        assert(r =~= seq![key]);
        assert(forall|x: Seq<u8>| #[trigger] r.contains(x) <==> x == key) by {
            assert(r[0] == key);
        }
    } else if key == s[0] {
        assert(forall|x: Seq<u8>| s.contains(x) ==> #[trigger] r.contains(x));
        assert(s.contains(key)) by {
            assert(s[0] == key);
        }
    } else if lex_lt(key, s[0]) {
        assert(r =~= seq![key] + s);
        assert(forall|j: int| 1 <= j < r.len() ==> r[j] == s[j - 1]);
        assert forall|j: int| 1 <= j < r.len() implies lex_lt(r[0], r[j]) by {
            if j > 1 {
                assert(lex_lt(s[0], s[j - 1]));
                lemma_lex_lt_transitive(key, s[0], s[j - 1]);
            }
        }
        assert(forall|x: Seq<u8>| #[trigger] r.contains(x) <==> (x == key || s.contains(x))) by {
            assert(r[0] == key);
            assert(forall|j: int| 0 <= j < s.len() ==> r[j + 1] == s[j]);
            assert forall|x: Seq<u8>| #[trigger] r.contains(x) implies (x == key || s.contains(x)) by {
                let j = choose|j: int| 0 <= j < r.len() && r[j] == x;
                if j > 0 {
                    assert(s[j - 1] == x);
                }
            }
            assert forall|x: Seq<u8>| s.contains(x) implies r.contains(x) by {
                let j = choose|j: int| 0 <= j < s.len() && s[j] == x;
                assert(r[j + 1] == x);
            }
        }
    } else {
        if !lex_lt(s[0], key) {
            lemma_lex_lt_connected(key, s[0]);
        }
        assert(lex_lt(s[0], key));
        let tail = s.drop_first();
        assert(strictly_sorted(tail)) by {
            assert(forall|i: int, j: int|
                0 <= i < j < tail.len() ==> tail[i] == s[i + 1] && tail[j] == s[j + 1]);
        }
        lemma_insert_sorted_strict(key, tail);
        let rt = insert_sorted(key, tail);
        assert(r =~= seq![s[0]] + rt);
        assert(forall|j: int| 0 <= j < rt.len() ==> r[j + 1] == rt[j]);
        assert(strictly_sorted(r)) by {
            assert forall|j: int| 1 <= j < r.len() implies lex_lt(r[0], r[j]) by {
                assert(rt.contains(rt[j - 1])) by {
                    assert(0 <= j - 1 < rt.len());
                }
                assert(rt[j - 1] == key || tail.contains(rt[j - 1]));
                if rt[j - 1] == key {
                } else {
                    let k = choose|k: int| 0 <= k < tail.len() && tail[k] == rt[j - 1];
                    assert(tail[k] == s[k + 1]);
                    assert(lex_lt(s[0], s[k + 1]));
                }
            }
            assert(forall|i: int, j: int|
                1 <= i < j < r.len() ==> r[i] == rt[i - 1] && r[j] == rt[j - 1]);
        }
        assert(forall|x: Seq<u8>| #[trigger] r.contains(x) <==> (x == key || s.contains(x))) by {
            assert(r[0] == s[0]);
            assert forall|x: Seq<u8>| #[trigger] r.contains(x) implies (x == key || s.contains(x)) by {
                let j = choose|j: int| 0 <= j < r.len() && r[j] == x;
                if j > 0 {
                    assert(rt.contains(x)) by {
                        assert(rt[j - 1] == x);
                    }
                    if x != key {
                        assert(tail.contains(x));
                        let k = choose|k: int| 0 <= k < tail.len() && tail[k] == x;
                        assert(s[k + 1] == x);
                    }
                } else {
                    assert(s[0] == x);
                }
            }
            assert forall|x: Seq<u8>| (x == key || s.contains(x)) implies r.contains(x) by {
                if x == key {
                    assert(rt.contains(key));
                    let k = choose|k: int| 0 <= k < rt.len() && rt[k] == key;
                    assert(r[k + 1] == key);
                } else {
                    let j = choose|j: int| 0 <= j < s.len() && s[j] == x;
                    if j == 0 {
                        assert(r[0] == x);
                    } else {
                        assert(tail[j - 1] == x);
                        assert(tail.contains(x));
                        assert(rt.contains(x));
                        let k = choose|k: int| 0 <= k < rt.len() && rt[k] == x;
                        assert(r[k + 1] == x);
                    }
                }
            }
        }
    }
}

/// The canonical fold of any folder list is strictly sorted — hence free of
/// repeats — and holds exactly the folders of the list.
pub proof fn lemma_canon_fold_sorted(folders: Seq<Seq<u8>>)
    ensures
        strictly_sorted(canon_fold(folders)),
        forall|x: Seq<u8>| #[trigger] canon_fold(folders).contains(x) <==> folders.contains(x),
    decreases folders.len(),
{
    if folders.len() == 0 {
    } else {
        let prefix = folders.drop_last();
        lemma_canon_fold_sorted(prefix);
        lemma_insert_sorted_strict(folders.last(), canon_fold(prefix));
        assert forall|x: Seq<u8>| #[trigger] canon_fold(folders).contains(x)
            implies folders.contains(x) by {
            if x == folders.last() {
                assert(folders[folders.len() - 1] == x);
            } else {
                assert(prefix.contains(x));
                let j = choose|j: int| 0 <= j < prefix.len() && prefix[j] == x;
                assert(folders[j] == x);
            }
        }
        assert forall|x: Seq<u8>| folders.contains(x)
            implies canon_fold(folders).contains(x) by {
            let j = choose|j: int| 0 <= j < folders.len() && folders[j] == x;
            if j < folders.len() - 1 {
                assert(prefix[j] == x);
                assert(prefix.contains(x));
            }
        }
    }
}

/// The canonical folder key of a group of paths is strictly sorted and holds
/// exactly the parent folders of the group's members.
pub proof fn lemma_canonical_key_sorted(paths: Seq<Seq<u8>>)
    ensures
        strictly_sorted(canonical_key(paths)),
        forall|x: Seq<u8>| #[trigger] canonical_key(paths).contains(x) <==> parents_of(paths).contains(x),
{
    lemma_canon_fold_sorted(parents_of(paths));
}

} // verus!
