use vstd::prelude::*;

verus! {

// ---------------------------------------------------------------------------
// Names and their order
// ---------------------------------------------------------------------------

/// Lexicographic order of names by code point (the order of `String`'s `Ord`).
pub open spec fn name_lt(a: Seq<char>, b: Seq<char>) -> bool
    decreases a.len(),
{
    if a.len() == 0 {
        b.len() > 0
    } else if b.len() == 0 {
        false
    } else if a[0] != b[0] {
        (a[0] as int) < (b[0] as int)
    } else {
        name_lt(a.drop_first(), b.drop_first())
    }
}

pub proof fn lemma_name_lt_irreflexive(a: Seq<char>)
    ensures
        !name_lt(a, a),
    decreases a.len(),
{
    if a.len() > 0 {
        lemma_name_lt_irreflexive(a.drop_first());
    }
}

pub proof fn lemma_name_lt_asymmetric(a: Seq<char>, b: Seq<char>)
    ensures
        name_lt(a, b) ==> !name_lt(b, a),
    decreases a.len(),
{
    if a.len() > 0 && b.len() > 0 && a[0] == b[0] {
        lemma_name_lt_asymmetric(a.drop_first(), b.drop_first());
    }
}

pub proof fn lemma_name_lt_transitive(a: Seq<char>, b: Seq<char>, c: Seq<char>)
    ensures
        name_lt(a, b) && name_lt(b, c) ==> name_lt(a, c),
    decreases a.len(),
{
    if a.len() > 0 && b.len() > 0 && c.len() > 0 {
        lemma_name_lt_transitive(a.drop_first(), b.drop_first(), c.drop_first());
    }
}

pub proof fn lemma_name_lt_total(a: Seq<char>, b: Seq<char>)
    ensures
        a != b ==> name_lt(a, b) || name_lt(b, a),
    decreases a.len(),
{
    if a.len() > 0 && b.len() > 0 {
        lemma_name_lt_total(a.drop_first(), b.drop_first());
        if a[0] == b[0] && a != b {
            assert(a.drop_first() != b.drop_first()) by {
                if a.drop_first() == b.drop_first() {
                    assert(a =~= seq![a[0]] + a.drop_first());
                    assert(b =~= seq![b[0]] + b.drop_first());
                }
            }
        }
    } else if a.len() == 0 && b.len() == 0 {
        assert(a =~= b);
    }
}

/// Whether `a` sorts before `b` (by code point, as `String` compares).
pub fn name_less(a: &String, b: &String) -> (r: bool)
    ensures
        r == name_lt(a@, b@),
{
    let sa = a.as_str();
    let sb = b.as_str();
    let la = sa.unicode_len();
    let lb = sb.unicode_len();
    let mut i: usize = 0;
    assert(a@.subrange(0, la as int) =~= a@);
    assert(b@.subrange(0, lb as int) =~= b@);
    while i < la && i < lb
        invariant
            la == a@.len(),
            lb == b@.len(),
            i <= la,
            i <= lb,
            sa@ == a@,
            sb@ == b@,
            forall|j: int| 0 <= j < i ==> a@[j] == b@[j],
            name_lt(a@, b@) == name_lt(a@.subrange(i as int, la as int), b@.subrange(
                i as int,
                lb as int,
            )),
        decreases la - i,
    {
        let ca = sa.get_char(i);
        let cb = sb.get_char(i);
        let ghost ra = a@.subrange(i as int, la as int);
        let ghost rb = b@.subrange(i as int, lb as int);
        if ca != cb {
            proof {
                assert(ra[0] == ca && rb[0] == cb);
            }
            return (ca as u32) < (cb as u32);
        }
        proof {
            assert(ra.drop_first() =~= a@.subrange(i + 1, la as int));
            assert(rb.drop_first() =~= b@.subrange(i + 1, lb as int));
        }
        i = i + 1;
    }
    i == la && i < lb
}

// ---------------------------------------------------------------------------
// Association lists kept sorted by name
// ---------------------------------------------------------------------------

/// Keys strictly increasing.
pub open spec fn sorted_keys<V>(s: Seq<(Seq<char>, V)>) -> bool {
    forall|i: int, j: int| 0 <= i < j < s.len() ==> name_lt(#[trigger] s[i].0, #[trigger] s[j].0)
}

/// The value stored under `k`.
pub open spec fn assoc_get<V>(s: Seq<(Seq<char>, V)>, k: Seq<char>) -> Option<V>
    decreases s.len(),
{
    if s.len() == 0 {
        None
    } else if s[0].0 == k {
        Some(s[0].1)
    } else {
        assoc_get(s.drop_first(), k)
    }
}

/// Stores `v` under `k`: replaces the entry of `k`, or inserts one at its place in
/// the order.
pub open spec fn assoc_put<V>(s: Seq<(Seq<char>, V)>, k: Seq<char>, v: V) -> Seq<(Seq<char>, V)>
    decreases s.len(),
{
    if s.len() == 0 {
        seq![(k, v)]
    } else if s[0].0 == k {
        s.update(0, (k, v))
    } else if name_lt(k, s[0].0) {
        seq![(k, v)] + s
    } else {
        seq![s[0]] + assoc_put(s.drop_first(), k, v)
    }
}

/// The names of the entries, in order.
pub open spec fn assoc_keys<V>(s: Seq<(Seq<char>, V)>) -> Seq<Seq<char>> {
    s.map_values(|p: (Seq<char>, V)| p.0)
}

/// The view of an executable association list.
pub open spec fn entries_view<V>(v: Seq<(String, V)>) -> Seq<(Seq<char>, V)> {
    v.map_values(|p: (String, V)| (p.0@, p.1))
}

pub proof fn lemma_assoc_get_at<V>(s: Seq<(Seq<char>, V)>, k: Seq<char>, i: int)
    requires
        0 <= i <= s.len(),
        forall|j: int| 0 <= j < i ==> s[j].0 != k,
    ensures
        i < s.len() && s[i].0 == k ==> assoc_get(s, k) == Some(s[i].1),
        (forall|j: int| i <= j < s.len() ==> s[j].0 != k) ==> assoc_get(s, k) is None,
    decreases i,
{
    if i == 0 {
        lemma_assoc_get_none(s, k);
    } else {
        let t = s.drop_first();
        assert forall|j: int| 0 <= j < i - 1 implies t[j].0 != k by {
            assert(t[j] == s[j + 1]);
        }
        lemma_assoc_get_at(t, k, i - 1);
        if i < s.len() && s[i].0 == k {
            assert(t[i - 1] == s[i]);
        }
        if forall|j: int| i <= j < s.len() ==> s[j].0 != k {
            assert forall|j: int| i - 1 <= j < t.len() implies t[j].0 != k by {
                assert(t[j] == s[j + 1]);
            }
        }
    }
}

proof fn lemma_assoc_get_none<V>(s: Seq<(Seq<char>, V)>, k: Seq<char>)
    ensures
        s.len() > 0 && s[0].0 == k ==> assoc_get(s, k) == Some(s[0].1),
        (forall|j: int| 0 <= j < s.len() ==> s[j].0 != k) ==> assoc_get(s, k) is None,
    decreases s.len(),
{
    if s.len() > 0 {
        let t = s.drop_first();
        lemma_assoc_get_none(t, k);
        if forall|j: int| 0 <= j < s.len() ==> s[j].0 != k {
            assert forall|j: int| 0 <= j < t.len() implies t[j].0 != k by {
                assert(t[j] == s[j + 1]);
            }
        }
    }
}

/// Storing into a sorted list at the slot found by scanning.
pub proof fn lemma_assoc_put_at<V>(s: Seq<(Seq<char>, V)>, k: Seq<char>, v: V, i: int)
    requires
        0 <= i <= s.len(),
        forall|j: int| 0 <= j < i ==> name_lt(#[trigger] s[j].0, k),
        i < s.len() ==> !name_lt(s[i].0, k),
    ensures
        i < s.len() && s[i].0 == k ==> assoc_put(s, k, v) == s.update(i, (k, v)),
        !(i < s.len() && s[i].0 == k) ==> assoc_put(s, k, v) == s.insert(i, (k, v)),
    decreases i,
{
    if i == 0 {
        if s.len() > 0 && s[0].0 != k {
            lemma_name_lt_total(s[0].0, k);
        }
        if s.len() == 0 {
            assert(s.insert(0, (k, v)) =~= seq![(k, v)]);
        } else if s[0].0 != k {
            assert(s.insert(0, (k, v)) =~= seq![(k, v)] + s);
        }
    } else {
        let t = s.drop_first();
        assert(name_lt(s[0].0, k));
        lemma_name_lt_irreflexive(k);
        lemma_name_lt_asymmetric(s[0].0, k);
        assert forall|j: int| 0 <= j < i - 1 implies name_lt(#[trigger] t[j].0, k) by {
            assert(t[j] == s[j + 1]);
        }
        if i < s.len() {
            assert(t[i - 1] == s[i]);
        }
        lemma_assoc_put_at(t, k, v, i - 1);
        if i < s.len() && s[i].0 == k {
            assert(seq![s[0]] + t.update(i - 1, (k, v)) =~= s.update(i, (k, v)));
        } else {
            assert(seq![s[0]] + t.insert(i - 1, (k, v)) =~= s.insert(i, (k, v)));
        }
    }
}

/// Storing keeps a list sorted.
pub proof fn lemma_assoc_put_sorted<V>(s: Seq<(Seq<char>, V)>, k: Seq<char>, v: V)
    requires
        sorted_keys(s),
    ensures
        sorted_keys(assoc_put(s, k, v)),
        assoc_put(s, k, v).len() == if assoc_get(s, k) is Some { s.len() } else { s.len() + 1 },
    decreases s.len(),
{
    if s.len() == 0 {
    } else if s[0].0 == k {
        let r = s.update(0, (k, v));
        assert forall|i: int, j: int| 0 <= i < j < r.len() implies name_lt(
            #[trigger] r[i].0,
            #[trigger] r[j].0,
        ) by {
            assert(r[i].0 == s[i].0 && r[j].0 == s[j].0);
        }
    } else if name_lt(k, s[0].0) {
        let r = seq![(k, v)] + s;
        assert forall|i: int, j: int| 0 <= i < j < r.len() implies name_lt(
            #[trigger] r[i].0,
            #[trigger] r[j].0,
        ) by {
            if i == 0 {
                if j > 1 {
                    lemma_name_lt_transitive(k, s[0].0, s[j - 1].0);
                }
            } else {
                assert(r[i] == s[i - 1] && r[j] == s[j - 1]);
            }
        }
        assert(assoc_get(s, k) is None) by {
            assert forall|j: int| 0 <= j < s.len() implies s[j].0 != k by {
                if j > 0 {
                    lemma_name_lt_transitive(k, s[0].0, s[j].0);
                }
                lemma_name_lt_irreflexive(k);
            }
            lemma_assoc_get_at(s, k, 0);
        }
    } else {
        let t = s.drop_first();
        assert(sorted_keys(t)) by {
            assert forall|i: int, j: int| 0 <= i < j < t.len() implies name_lt(
                #[trigger] t[i].0,
                #[trigger] t[j].0,
            ) by {
                assert(t[i] == s[i + 1] && t[j] == s[j + 1]);
            }
        }
        lemma_assoc_put_sorted(t, k, v);
        lemma_name_lt_total(k, s[0].0);
        let rt = assoc_put(t, k, v);
        let r = seq![s[0]] + rt;
        // every key of rt is k or a key of t, all above s[0]
        lemma_assoc_put_keys(t, k, v);
        assert forall|i: int, j: int| 0 <= i < j < r.len() implies name_lt(
            #[trigger] r[i].0,
            #[trigger] r[j].0,
        ) by {
            if i == 0 {
                let kk = rt[j - 1].0;
                if kk != k {
                    let m = choose|m: int| 0 <= m < t.len() && t[m].0 == kk;
                    assert(s[m + 1] == t[m]);
                }
            } else {
                assert(r[i] == rt[i - 1] && r[j] == rt[j - 1]);
            }
        }
    }
}

/// The keys after storing are the old keys and `k`.
pub proof fn lemma_assoc_put_keys<V>(s: Seq<(Seq<char>, V)>, k: Seq<char>, v: V)
    ensures
        forall|j: int|
            0 <= j < assoc_put(s, k, v).len() ==> #[trigger] assoc_put(s, k, v)[j].0 == k
                || exists|m: int| 0 <= m < s.len() && s[m].0 == assoc_put(s, k, v)[j].0,
    decreases s.len(),
{
    let r = assoc_put(s, k, v);
    if s.len() == 0 {
    } else if s[0].0 == k {
        assert forall|j: int| 0 <= j < r.len() implies #[trigger] r[j].0 == k || exists|m: int|
            0 <= m < s.len() && s[m].0 == r[j].0 by {
            if j > 0 {
                assert(s[j].0 == r[j].0);
            }
        }
    } else if name_lt(k, s[0].0) {
        assert forall|j: int| 0 <= j < r.len() implies #[trigger] r[j].0 == k || exists|m: int|
            0 <= m < s.len() && s[m].0 == r[j].0 by {
            if j > 0 {
                assert(s[j - 1].0 == r[j].0);
            }
        }
    } else {
        let t = s.drop_first();
        lemma_assoc_put_keys(t, k, v);
        let rt = assoc_put(t, k, v);
        assert forall|j: int| 0 <= j < r.len() implies #[trigger] r[j].0 == k || exists|m: int|
            0 <= m < s.len() && s[m].0 == r[j].0 by {
            if j == 0 {
                assert(s[0].0 == r[0].0);
            } else {
                assert(r[j] == rt[j - 1]);
                if rt[j - 1].0 != k {
                    let m = choose|m: int| 0 <= m < t.len() && t[m].0 == rt[j - 1].0;
                    assert(s[m + 1] == t[m]);
                }
            }
        }
    }
}

/// The values after storing are the old values and `v`.
pub proof fn lemma_assoc_put_values<V>(s: Seq<(Seq<char>, V)>, k: Seq<char>, v: V)
    ensures
        forall|j: int|
            0 <= j < assoc_put(s, k, v).len() ==> #[trigger] assoc_put(s, k, v)[j].1 == v
                || exists|m: int| 0 <= m < s.len() && s[m].1 == assoc_put(s, k, v)[j].1,
    decreases s.len(),
{
    let r = assoc_put(s, k, v);
    if s.len() == 0 {
    } else if s[0].0 == k {
        assert forall|j: int| 0 <= j < r.len() implies #[trigger] r[j].1 == v || exists|m: int|
            0 <= m < s.len() && s[m].1 == r[j].1 by {
            if j > 0 {
                assert(s[j].1 == r[j].1);
            }
        }
    } else if name_lt(k, s[0].0) {
        assert forall|j: int| 0 <= j < r.len() implies #[trigger] r[j].1 == v || exists|m: int|
            0 <= m < s.len() && s[m].1 == r[j].1 by {
            if j > 0 {
                assert(s[j - 1].1 == r[j].1);
            }
        }
    } else {
        let t = s.drop_first();
        lemma_assoc_put_values(t, k, v);
        let rt = assoc_put(t, k, v);
        assert forall|j: int| 0 <= j < r.len() implies #[trigger] r[j].1 == v || exists|m: int|
            0 <= m < s.len() && s[m].1 == r[j].1 by {
            if j == 0 {
                assert(s[0].1 == r[0].1);
            } else {
                assert(r[j] == rt[j - 1]);
                if rt[j - 1].1 != v {
                    let m = choose|m: int| 0 <= m < t.len() && t[m].1 == rt[j - 1].1;
                    assert(s[m + 1] == t[m]);
                }
            }
        }
    }
}

/// The first position whose name does not sort before `k`.
fn find_slot<V>(v: &Vec<(String, V)>, k: &String) -> (i: usize)
    ensures
        i <= v.len(),
        forall|j: int| 0 <= j < i ==> name_lt(#[trigger] v@[j].0@, k@),
        i < v.len() ==> !name_lt(v@[i as int].0@, k@),
{
    let mut i: usize = 0;
    while i < v.len()
        invariant
            i <= v.len(),
            forall|j: int| 0 <= j < i ==> name_lt(#[trigger] v@[j].0@, k@),
        decreases v.len() - i,
    {
        if !name_less(&v[i].0, k) {
            return i;
        }
        i = i + 1;
    }
    i
}

/// The value stored under `k`.
pub fn assoc_lookup<V: Copy>(v: &Vec<(String, V)>, k: &String) -> (r: Option<V>)
    requires
        sorted_keys(entries_view(v@)),
    ensures
        r == assoc_get(entries_view(v@), k@),
{
    let ghost s = entries_view(v@);
    let i = find_slot(v, k);
    proof {
        assert forall|j: int| 0 <= j < i implies s[j].0 != k@ by {
            assert(name_lt(v@[j].0@, k@));
            lemma_name_lt_irreflexive(k@);
        }
        if i < v.len() && s[i as int].0 != k@ {
            assert forall|j: int| i <= j < s.len() implies s[j].0 != k@ by {
                lemma_name_lt_total(s[i as int].0, k@);
                if j > i {
                    assert(name_lt(s[i as int].0, s[j].0));
                    lemma_name_lt_transitive(k@, s[i as int].0, s[j].0);
                    lemma_name_lt_irreflexive(k@);
                }
            }
        }
        lemma_assoc_get_at(s, k@, i as int);
    }
    if i < v.len() && v[i].0 == *k {
        Some(v[i].1)
    } else {
        None
    }
}

/// Stores `val` under `k`, keeping the list sorted.
pub fn assoc_store<V: Copy>(v: &mut Vec<(String, V)>, k: String, val: V)
    requires
        sorted_keys(entries_view(old(v)@)),
    ensures
        entries_view(final(v)@) == assoc_put(entries_view(old(v)@), k@, val),
        sorted_keys(entries_view(final(v)@)),
{
    let ghost s = entries_view(v@);
    let i = find_slot(v, &k);
    proof {
        lemma_assoc_put_at(s, k@, val, i as int);
        lemma_assoc_put_sorted(s, k@, val);
    }
    if i < v.len() && v[i].0 == k {
        let ghost kv = k@;
        v.set(i, (k, val));
        assert(entries_view(v@) =~= s.update(i as int, (kv, val)));
    } else {
        let ghost kv = k@;
        v.insert(i, (k, val));
        assert(entries_view(v@) =~= s.insert(i as int, (kv, val)));
    }
}

/// Reading after storing: the stored value under its own name, the old value under
/// any other.
pub proof fn lemma_assoc_get_put<V>(s: Seq<(Seq<char>, V)>, k: Seq<char>, v: V, k2: Seq<char>)
    ensures
        assoc_get(assoc_put(s, k, v), k2) == if k2 == k {
            Some(v)
        } else {
            assoc_get(s, k2)
        },
    decreases s.len(),
{
    let t = assoc_put(s, k, v);
    assert(t.len() > 0);
    assert(assoc_get(t, k2) == if t[0].0 == k2 { Some(t[0].1) } else { assoc_get(t.drop_first(), k2) });
    if s.len() == 0 {
        assert(t[0] == (k, v));
        assert(t.drop_first() =~= Seq::<(Seq<char>, V)>::empty());
    } else {
        assert(assoc_get(s, k2) == if s[0].0 == k2 { Some(s[0].1) } else { assoc_get(s.drop_first(), k2) });
        if s[0].0 == k {
            assert(t[0] == (k, v));
            assert(t.drop_first() =~= s.drop_first());
        } else if name_lt(k, s[0].0) {
            assert(t[0] == (k, v));
            assert(t.drop_first() =~= s);
        } else {
            assert(t[0] == s[0]);
            assert(t.drop_first() =~= assoc_put(s.drop_first(), k, v));
            lemma_assoc_get_put(s.drop_first(), k, v, k2);
        }
    }
}

/// In a list sorted by name, the value stored under `k` is that of the one entry
/// named `k`, and there is none where no entry is named `k`.
pub proof fn lemma_assoc_get_sorted<V>(s: Seq<(Seq<char>, V)>, k: Seq<char>)
    requires
        sorted_keys(s),
    ensures
        forall|j: int| 0 <= j < s.len() && #[trigger] s[j].0 == k ==> assoc_get(s, k) == Some(s[j].1),
        (forall|j: int| 0 <= j < s.len() ==> s[j].0 != k) ==> assoc_get(s, k) is None,
{
    lemma_assoc_get_at(s, k, 0);
    assert forall|j: int| 0 <= j < s.len() && #[trigger] s[j].0 == k implies assoc_get(s, k) == Some(s[j].1) by {
        assert forall|i: int| 0 <= i < j implies s[i].0 != k by {
            assert(name_lt(s[i].0, s[j].0));
            lemma_name_lt_irreflexive(k);
        }
        lemma_assoc_get_at(s, k, j);
    }
}

/// Dropping the last entry of a list sorted by name: the value under `k` is the
/// last one's where it is named `k`, else the value in the rest.
pub proof fn lemma_assoc_get_last<V>(s: Seq<(Seq<char>, V)>, k: Seq<char>)
    requires
        sorted_keys(s),
        s.len() > 0,
    ensures
        sorted_keys(s.drop_last()),
        assoc_get(s, k) == if s.last().0 == k {
            Some(s.last().1)
        } else {
            assoc_get(s.drop_last(), k)
        },
{
    let t = s.drop_last();
    assert forall|i: int, j: int| 0 <= i < j < t.len() implies name_lt(#[trigger] t[i].0, #[trigger] t[j].0) by {
        assert(t[i] == s[i] && t[j] == s[j]);
    }
    lemma_assoc_get_sorted(s, k);
    lemma_assoc_get_sorted(t, k);
    if s.last().0 != k {
        if exists|j: int| 0 <= j < s.len() && s[j].0 == k {
            let j = choose|j: int| 0 <= j < s.len() && s[j].0 == k;
            assert(t[j] == s[j]);
        } else {
            assert forall|j: int| 0 <= j < t.len() implies t[j].0 != k by {
                assert(t[j] == s[j]);
            }
        }
    } else {
        assert(s[s.len() - 1].0 == k);
    }
}

} // verus!
