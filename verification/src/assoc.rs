//! The mathematical model shared by the backing stores: a sequence of
//! key-value entries with pairwise distinct key views, read as a map from
//! key views to values.

use vstd::prelude::*;

verus! {

/// Whether some entry of `s` has key view `j`.
pub open spec fn holds_key<K: View, V>(s: Seq<(K, V)>, j: <K as View>::V) -> bool {
    exists|i: int| 0 <= i < s.len() && s[i].0@ == j
}

/// The index of the entry of `s` with key view `j`.
pub open spec fn key_index<K: View, V>(s: Seq<(K, V)>, j: <K as View>::V) -> int {
    choose|i: int| 0 <= i < s.len() && s[i].0@ == j
}

/// Whether the key views of `s` are pairwise distinct.
pub open spec fn distinct_keys<K: View, V>(s: Seq<(K, V)>) -> bool {
    forall|i: int, j: int| 0 <= i < j < s.len() ==> s[i].0@ != s[j].0@
}

/// The map from key views to values that `s` holds.
pub open spec fn entry_map<K: View, V>(s: Seq<(K, V)>) -> Map<<K as View>::V, V> {
    Map::new(|j: <K as View>::V| holds_key(s, j), |j: <K as View>::V| s[key_index(s, j)].1)
}

/// With distinct keys, the entry at position `i` is exactly the map binding
/// for its key view.
pub proof fn lemma_entry_at<K: View, V>(s: Seq<(K, V)>, i: int)
    requires
        distinct_keys(s),
        0 <= i < s.len(),
    ensures
        holds_key(s, s[i].0@),
        key_index(s, s[i].0@) == i,
        entry_map(s).contains_key(s[i].0@),
        entry_map(s)[s[i].0@] == s[i].1,
{
    assert(holds_key(s, s[i].0@));
    let i2 = key_index(s, s[i].0@);
    assert(0 <= i2 < s.len() && s[i2].0@ == s[i].0@);
    if i2 != i {
        if i2 < i {
            assert(s[i2].0@ != s[i].0@);
        } else {
            assert(s[i].0@ != s[i2].0@);
        }
    }
}

/// Replacing the value (and key object, with the same view) at position `i`
/// updates the entry map at that key view alone.
pub proof fn lemma_update_at<K: View, V>(s: Seq<(K, V)>, i: int, k: K, v: V)
    requires
        distinct_keys(s),
        0 <= i < s.len(),
        k@ == s[i].0@,
    ensures
        distinct_keys(s.update(i, (k, v))),
        entry_map(s.update(i, (k, v))) == entry_map(s).insert(s[i].0@, v),
{
    let t = s.update(i, (k, v));
    assert(distinct_keys(t)) by {
        assert(forall|a: int, b: int| 0 <= a < b < t.len() ==> t[a].0@ != t[b].0@) by {
            assert forall|a: int, b: int| 0 <= a < b < t.len() implies t[a].0@ != t[b].0@ by {
                assert(s[a].0@ != s[b].0@);
            }
        }
    }
    assert(entry_map(t) =~= entry_map(s).insert(s[i].0@, v)) by {
        assert forall|j: <K as View>::V| holds_key(t, j) <==> holds_key(s, j) by {
            if holds_key(t, j) {
                let a = choose|a: int| 0 <= a < t.len() && t[a].0@ == j;
                assert(s[a].0@ == t[a].0@);
            }
            if holds_key(s, j) {
                let a = choose|a: int| 0 <= a < s.len() && s[a].0@ == j;
                assert(t[a].0@ == s[a].0@);
            }
        }
        assert forall|j: <K as View>::V|
            holds_key(t, j) implies entry_map(t)[j] == entry_map(s).insert(s[i].0@, v)[j] by {
            lemma_entry_at(t, key_index(t, j));
            let a = key_index(t, j);
            if a == i {
                assert(j == s[i].0@);
            } else {
                assert(s[a].0@ == j);
                lemma_entry_at(s, a);
                if j == s[i].0@ {
                    lemma_entry_at(t, i);
                }
            }
        }
    }
}

/// Removing the entry at position `i` removes its key view from the entry
/// map and nothing else.
pub proof fn lemma_remove_at<K: View, V>(s: Seq<(K, V)>, i: int)
    requires
        distinct_keys(s),
        0 <= i < s.len(),
    ensures
        distinct_keys(s.remove(i)),
        entry_map(s.remove(i)) == entry_map(s).remove(s[i].0@),
{
    let t = s.remove(i);
    assert(distinct_keys(t)) by {
        assert forall|a: int, b: int| 0 <= a < b < t.len() implies t[a].0@ != t[b].0@ by {
            let a0 = if a < i {
                a
            } else {
                a + 1
            };
            let b0 = if b < i {
                b
            } else {
                b + 1
            };
            assert(t[a] == s[a0] && t[b] == s[b0]);
            assert(s[a0].0@ != s[b0].0@);
        }
    }
    assert(entry_map(t) =~= entry_map(s).remove(s[i].0@)) by {
        assert forall|j: <K as View>::V|
            holds_key(t, j) implies holds_key(s, j) && j != s[i].0@ by {
            let a = choose|a: int| 0 <= a < t.len() && t[a].0@ == j;
            let a0 = if a < i {
                a
            } else {
                a + 1
            };
            assert(t[a] == s[a0]);
            lemma_entry_at(s, a0);
        }
        assert forall|j: <K as View>::V|
            holds_key(s, j) && j != s[i].0@ implies holds_key(t, j) by {
            let a = choose|a: int| 0 <= a < s.len() && s[a].0@ == j;
            lemma_entry_at(s, a);
            if a < i {
                assert(t[a] == s[a]);
            } else {
                assert(a > i);
                assert(t[a - 1] == s[a]);
            }
        }
        assert forall|j: <K as View>::V| holds_key(t, j) implies entry_map(t)[j] == entry_map(
            s,
        )[j] by {
            let a = key_index(t, j);
            lemma_entry_at(t, a);
            let a0 = if a < i {
                a
            } else {
                a + 1
            };
            assert(t[a] == s[a0]);
            lemma_entry_at(s, a0);
        }
    }
}

/// Appending an entry with a fresh key view inserts its binding into the
/// entry map.
pub proof fn lemma_push<K: View, V>(s: Seq<(K, V)>, k: K, v: V)
    requires
        distinct_keys(s),
        !holds_key(s, k@),
    ensures
        distinct_keys(s.push((k, v))),
        entry_map(s.push((k, v))) == entry_map(s).insert(k@, v),
{
    let t = s.push((k, v));
    assert(distinct_keys(t)) by {
        assert forall|a: int, b: int| 0 <= a < b < t.len() implies t[a].0@ != t[b].0@ by {
            if b < s.len() {
                assert(t[a] == s[a] && t[b] == s[b]);
            } else {
                assert(t[a] == s[a] && t[b] == (k, v));
                assert(s[a].0@ != k@);
            }
        }
    }
    assert(entry_map(t) =~= entry_map(s).insert(k@, v)) by {
        assert forall|j: <K as View>::V|
            holds_key(t, j) implies holds_key(s, j) || j == k@ by {
            let a = choose|a: int| 0 <= a < t.len() && t[a].0@ == j;
            if a < s.len() {
                assert(s[a].0@ == j);
            }
        }
        assert forall|j: <K as View>::V| holds_key(s, j) implies holds_key(t, j) by {
            let a = choose|a: int| 0 <= a < s.len() && s[a].0@ == j;
            assert(t[a].0@ == j);
        }
        assert(t[s.len() as int].0@ == k@);
        assert forall|j: <K as View>::V| holds_key(t, j) implies entry_map(t)[j] == entry_map(
            s,
        ).insert(k@, v)[j] by {
            let a = key_index(t, j);
            lemma_entry_at(t, a);
            if a < s.len() {
                assert(t[a] == s[a]);
                lemma_entry_at(s, a);
                assert(j != k@);
            } else {
                assert(j == k@);
            }
        }
    }
}

/// Inserting an entry with a fresh key view at any position inserts its
/// binding into the entry map.
pub proof fn lemma_insert_at<K: View, V>(s: Seq<(K, V)>, i: int, k: K, v: V)
    requires
        distinct_keys(s),
        !holds_key(s, k@),
        0 <= i <= s.len(),
    ensures
        distinct_keys(s.insert(i, (k, v))),
        entry_map(s.insert(i, (k, v))) == entry_map(s).insert(k@, v),
{
    let t = s.insert(i, (k, v));
    assert(t.len() == s.len() + 1);
    assert forall|p: int| 0 <= p < t.len() && p != i implies t[p] == s[if p < i {
        p
    } else {
        p - 1
    }] by {}
    assert(t[i] == (k, v));
    assert(distinct_keys(t)) by {
        assert forall|a: int, b: int| 0 <= a < b < t.len() implies t[a].0@ != t[b].0@ by {
            if a != i && b != i {
                let a0 = if a < i {
                    a
                } else {
                    a - 1
                };
                let b0 = if b < i {
                    b
                } else {
                    b - 1
                };
                assert(s[a0].0@ != s[b0].0@);
            } else if a == i {
                let b0 = b - 1;
                assert(t[b].0@ == s[b0].0@);
                assert(s[b0].0@ != k@);
            } else {
                let a0 = a;
                assert(t[a].0@ == s[a0].0@);
                assert(s[a0].0@ != k@);
            }
        }
    }
    assert(entry_map(t) =~= entry_map(s).insert(k@, v)) by {
        assert forall|j: <K as View>::V|
            holds_key(t, j) implies holds_key(s, j) || j == k@ by {
            let a = choose|a: int| 0 <= a < t.len() && t[a].0@ == j;
            if a != i {
                let a0 = if a < i {
                    a
                } else {
                    a - 1
                };
                assert(s[a0].0@ == j);
            }
        }
        assert forall|j: <K as View>::V| holds_key(s, j) implies holds_key(t, j) by {
            let a = choose|a: int| 0 <= a < s.len() && s[a].0@ == j;
            let a1 = if a < i {
                a
            } else {
                a + 1
            };
            assert(t[a1].0@ == j);
        }
        assert forall|j: <K as View>::V| holds_key(t, j) implies entry_map(t)[j] == entry_map(
            s,
        ).insert(k@, v)[j] by {
            let a = key_index(t, j);
            lemma_entry_at(t, a);
            if a == i {
                assert(j == k@);
            } else {
                let a0 = if a < i {
                    a
                } else {
                    a - 1
                };
                assert(t[a] == s[a0]);
                lemma_entry_at(s, a0);
                assert(j != k@);
            }
        }
    }
}

/// A key view is held by the sequence exactly when the entry map binds it.
pub proof fn lemma_holds_iff<K: View, V>(s: Seq<(K, V)>, j: <K as View>::V)
    ensures
        holds_key(s, j) <==> entry_map(s).contains_key(j),
{
}

/// Pointwise reading of a submap fact.
pub proof fn lemma_submap_point<J, W>(m1: Map<J, W>, m2: Map<J, W>, j: J)
    requires
        m1.submap_of(m2),
        m1.contains_key(j),
    ensures
        m2.contains_key(j),
        m1[j] == m2[j],
{
    assert(m1.dom().contains(j));
    assert(m2.dom().contains(j) && m1[j] == m2[j]);
}

/// A map that binds `j` to `v` and elsewhere agrees with `pre` is
/// exactly `pre` with `j` inserted.
pub proof fn lemma_set_insert<J, W>(pre: Map<J, W>, post: Map<J, W>, j: J, v: W)
    requires
        post.contains_key(j),
        post[j] == v,
        post.remove(j).submap_of(pre),
        pre.remove(j).submap_of(post.remove(j)),
    ensures
        post == pre.insert(j, v),
{
    assert forall|x: J| #![auto] post.contains_key(x) <==> pre.insert(j, v).contains_key(x) by {
        if x != j {
            if post.contains_key(x) {
                lemma_submap_point(post.remove(j), pre, x);
            }
            if pre.contains_key(x) {
                lemma_submap_point(pre.remove(j), post.remove(j), x);
            }
        }
    }
    assert forall|x: J| #![auto] post.contains_key(x) implies post[x] == pre.insert(j, v)[x] by {
        if x != j {
            lemma_submap_point(post.remove(j), pre, x);
        }
    }
    assert(post =~= pre.insert(j, v));
}

/// A map that lacks `j` and elsewhere agrees with `pre` is exactly `pre`
/// with `j` removed.
pub proof fn lemma_remove_exact<J, W>(pre: Map<J, W>, post: Map<J, W>, j: J)
    requires
        !post.contains_key(j),
        post.submap_of(pre),
        pre.remove(j).submap_of(post),
    ensures
        post == pre.remove(j),
{
    assert forall|x: J| #![auto] post.contains_key(x) <==> pre.remove(j).contains_key(x) by {
        if post.contains_key(x) {
            lemma_submap_point(post, pre, x);
        }
        if pre.contains_key(x) && x != j {
            lemma_submap_point(pre.remove(j), post, x);
        }
    }
    assert forall|x: J| #![auto] post.contains_key(x) implies post[x] == pre.remove(j)[x] by {
        lemma_submap_point(post, pre, x);
    }
    assert(post =~= pre.remove(j));
}

/// The empty sequence holds the empty map.
pub proof fn lemma_empty<K: View, V>()
    ensures
        distinct_keys(Seq::<(K, V)>::empty()),
        entry_map(Seq::<(K, V)>::empty()) == Map::<<K as View>::V, V>::empty(),
{
    assert(entry_map(Seq::<(K, V)>::empty()) =~= Map::<<K as View>::V, V>::empty());
}

} // verus!
