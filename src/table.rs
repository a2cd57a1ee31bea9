//! Keyed tables held as vectors of entries, each key at most once, in order of
//! first insertion.

use vstd::prelude::*;

verus! {

/// The identifier of an account, a token or a synthetic asset.
pub type AccountId = String;

/// `k` is a key of some entry of `s`.
pub open spec fn has_key<V>(s: Seq<(String, V)>, k: Seq<char>) -> bool {
    exists|i: int| 0 <= i < s.len() && (#[trigger] s[i]).0@ == k
}

/// No key stands in two entries.
pub open spec fn unique_keys<V>(s: Seq<(String, V)>) -> bool {
    forall|i: int, j: int|
        0 <= i < s.len() && 0 <= j < s.len() && i != j ==> (#[trigger] s[i]).0@ != (#[trigger] s[j]).0@
}

/// The position of the entry of key `k`.
pub open spec fn index_of<V>(s: Seq<(String, V)>, k: Seq<char>) -> int {
    choose|i: int| 0 <= i < s.len() && (#[trigger] s[i]).0@ == k
}

/// The value stored under `k`, if any.
pub open spec fn value_of<V>(s: Seq<(String, V)>, k: Seq<char>) -> Option<V> {
    if has_key(s, k) {
        Some(s[index_of(s, k)].1)
    } else {
        None
    }
}

/// The amount stored under `k`; an absent key reads as zero.
pub open spec fn amount_of(s: Seq<(String, u128)>, k: Seq<char>) -> u128 {
    match value_of(s, k) {
        Some(v) => v,
        None => 0,
    }
}

/// `s` with the value under `k` replaced by `v`, or `(k, v)` appended where
/// `k` is new.
pub open spec fn upsert<V>(s: Seq<(String, V)>, k: String, v: V) -> Seq<(String, V)> {
    if has_key(s, k@) {
        s.update(index_of(s, k@), (s[index_of(s, k@)].0, v))
    } else {
        s.push((k, v))
    }
}

/// `s` without the entry of key `k`.
pub open spec fn without<V>(s: Seq<(String, V)>, k: Seq<char>) -> Seq<(String, V)> {
    if has_key(s, k) {
        s.remove(index_of(s, k))
    } else {
        s
    }
}

pub proof fn lemma_index_of<V>(s: Seq<(String, V)>, i: int)
    requires
        unique_keys(s),
        0 <= i < s.len(),
    ensures
        has_key(s, s[i].0@),
        index_of(s, s[i].0@) == i,
        value_of(s, s[i].0@) == Some(s[i].1),
{
    let k = s[i].0@;
    assert(has_key(s, k));
    let j = index_of(s, k);
    assert(s[j].0@ == k);
}

pub proof fn lemma_upsert<V>(s: Seq<(String, V)>, k: String, v: V)
    requires
        unique_keys(s),
    ensures
        unique_keys(upsert(s, k, v)),
        forall|q: Seq<char>| #[trigger]
            value_of(upsert(s, k, v), q) == if q == k@ {
                Some(v)
            } else {
                value_of(s, q)
            },
        forall|q: Seq<char>| #[trigger] has_key(upsert(s, k, v), q) == (q == k@ || has_key(s, q)),
{
    let t = upsert(s, k, v);
    if has_key(s, k@) {
        let i = index_of(s, k@);
        assert(s[i].0@ == k@);
        assert forall|a: int, b: int|
            0 <= a < t.len() && 0 <= b < t.len() && a != b implies (#[trigger] t[a]).0@ != (
            #[trigger] t[b]).0@ by {
            assert(t[a].0@ == s[a].0@);
            assert(t[b].0@ == s[b].0@);
        }
        assert forall|q: Seq<char>| #[trigger] has_key(t, q) == (q == k@ || has_key(s, q)) by {
            if has_key(s, q) {
                let j = index_of(s, q);
                assert(t[j].0@ == q);
            }
            if has_key(t, q) {
                let j = index_of(t, q);
                assert(s[j].0@ == q);
            }
        }
        assert forall|q: Seq<char>| #[trigger]
            value_of(t, q) == if q == k@ {
                Some(v)
            } else {
                value_of(s, q)
            } by {
            if q == k@ {
                assert(t[i].0@ == q);
                lemma_index_of(t, i);
            } else if has_key(s, q) {
                let j = index_of(s, q);
                assert(t[j].0@ == q);
                lemma_index_of(t, j);
            }
        }
    } else {
        assert forall|a: int, b: int|
            0 <= a < t.len() && 0 <= b < t.len() && a != b implies (#[trigger] t[a]).0@ != (
            #[trigger] t[b]).0@ by {
            if a < s.len() && b < s.len() {
                assert(t[a] == s[a]);
                assert(t[b] == s[b]);
            } else if a < s.len() {
                assert(t[a] == s[a]);
            } else if b < s.len() {
                assert(t[b] == s[b]);
            }
        }
        assert forall|q: Seq<char>| #[trigger] has_key(t, q) == (q == k@ || has_key(s, q)) by {
            if has_key(s, q) {
                let j = index_of(s, q);
                assert(t[j] == s[j]);
            }
            assert(t[s.len() as int].0@ == k@);
            if has_key(t, q) && q != k@ {
                let j = index_of(t, q);
                assert(j < s.len());
                assert(s[j] == t[j]);
            }
        }
        assert forall|q: Seq<char>| #[trigger]
            value_of(t, q) == if q == k@ {
                Some(v)
            } else {
                value_of(s, q)
            } by {
            if q == k@ {
                assert(t[s.len() as int].0@ == q);
                lemma_index_of(t, s.len() as int);
            } else if has_key(s, q) {
                let j = index_of(s, q);
                assert(t[j] == s[j]);
                lemma_index_of(t, j);
            }
        }
    }
}

/// The position of key `k` in `entries`, if it is there.
pub fn find_key<V>(entries: &Vec<(String, V)>, k: &String) -> (r: Option<usize>)
    ensures
        match r {
            Some(i) => i < entries@.len() && entries@[i as int].0@ == k@,
            None => !has_key(entries@, k@),
        },
{
    let mut i: usize = 0;
    while i < entries.len()
        invariant
            i <= entries@.len(),
            forall|j: int| 0 <= j < i ==> (#[trigger] entries@[j]).0@ != k@,
        decreases entries@.len() - i,
    {
        if entries[i].0 == *k {
            return Some(i);
        }
        i = i + 1;
    }
    None
}

/// The amount stored under `k`, zero where there is none.
pub fn get_amount(entries: &Vec<(String, u128)>, k: &String) -> (r: u128)
    requires
        unique_keys(entries@),
    ensures
        r == amount_of(entries@, k@),
{
    match find_key(entries, k) {
        Some(i) => {
            proof {
                lemma_index_of(entries@, i as int);
            }
            entries[i].1
        },
        None => 0,
    }
}

/// Stores `v` under `k`, in place where `k` is present, appended otherwise.
pub fn put<V>(entries: &mut Vec<(String, V)>, k: &String, v: V)
    requires
        unique_keys(old(entries)@),
    ensures
        final(entries)@ == upsert(old(entries)@, *k, v),
        unique_keys(final(entries)@),
{
    proof {
        lemma_upsert(entries@, *k, v);
    }
    match find_key(entries, k) {
        Some(i) => {
            proof {
                lemma_index_of(entries@, i as int);
            }
            let key = entries[i].0.clone();
            entries.set(i, (key, v));
        },
        None => {
            entries.push((k.clone(), v));
        },
    }
}

/// The pair `(u, k)` keys some entry of `s`.
pub open spec fn has_pair(s: Seq<(String, String, u128)>, u: Seq<char>, k: Seq<char>) -> bool {
    exists|i: int| 0 <= i < s.len() && (#[trigger] s[i]).0@ == u && s[i].1@ == k
}

/// No pair of keys stands in two entries.
pub open spec fn unique_pairs(s: Seq<(String, String, u128)>) -> bool {
    forall|i: int, j: int|
        0 <= i < s.len() && 0 <= j < s.len() && i != j ==> !((#[trigger] s[i]).0@ == (
        #[trigger] s[j]).0@ && s[i].1@ == s[j].1@)
}

/// The position of the entry of keys `(u, k)`.
pub open spec fn pair_index(s: Seq<(String, String, u128)>, u: Seq<char>, k: Seq<char>) -> int {
    choose|i: int| 0 <= i < s.len() && (#[trigger] s[i]).0@ == u && s[i].1@ == k
}

/// The amount stored under `(u, k)`; an absent pair reads as zero.
pub open spec fn pair_amount(s: Seq<(String, String, u128)>, u: Seq<char>, k: Seq<char>) -> u128 {
    if has_pair(s, u, k) {
        s[pair_index(s, u, k)].2
    } else {
        0
    }
}

pub proof fn lemma_pair_index(s: Seq<(String, String, u128)>, i: int)
    requires
        unique_pairs(s),
        0 <= i < s.len(),
    ensures
        has_pair(s, s[i].0@, s[i].1@),
        pair_amount(s, s[i].0@, s[i].1@) == s[i].2,
{
    assert(has_pair(s, s[i].0@, s[i].1@));
    let j = pair_index(s, s[i].0@, s[i].1@);
    assert(s[j].0@ == s[i].0@ && s[j].1@ == s[i].1@);
}

/// The position of the pair `(u, k)` in `entries`, if it is there.
pub fn find_pair(entries: &Vec<(String, String, u128)>, u: &String, k: &String) -> (r: Option<
    usize,
>)
    ensures
        match r {
            Some(i) => i < entries@.len() && entries@[i as int].0@ == u@ && entries@[i as int].1@
                == k@,
            None => !has_pair(entries@, u@, k@),
        },
{
    let mut i: usize = 0;
    while i < entries.len()
        invariant
            i <= entries@.len(),
            forall|j: int| 0 <= j < i ==> !((#[trigger] entries@[j]).0@ == u@ && entries@[j].1@ == k@),
        decreases entries@.len() - i,
    {
        if entries[i].0 == *u && entries[i].1 == *k {
            return Some(i);
        }
        i = i + 1;
    }
    None
}

/// The amount stored under `(u, k)`, zero where there is none.
pub fn get_pair(entries: &Vec<(String, String, u128)>, u: &String, k: &String) -> (r: u128)
    requires
        unique_pairs(entries@),
    ensures
        r == pair_amount(entries@, u@, k@),
{
    match find_pair(entries, u, k) {
        Some(i) => {
            proof {
                lemma_pair_index(entries@, i as int);
            }
            entries[i].2
        },
        None => 0,
    }
}

/// Stores `v` under `(u, k)`; every other pair keeps its amount.
pub fn put_pair(entries: &mut Vec<(String, String, u128)>, u: &String, k: &String, v: u128)
    requires
        unique_pairs(old(entries)@),
    ensures
        unique_pairs(final(entries)@),
        forall|a: Seq<char>, b: Seq<char>| #[trigger]
            pair_amount(final(entries)@, a, b) == if a == u@ && b == k@ {
                v
            } else {
                pair_amount(old(entries)@, a, b)
            },
{
    let ghost s = entries@;
    match find_pair(entries, u, k) {
        Some(i) => {
            let uu = entries[i].0.clone();
            let kk = entries[i].1.clone();
            entries.set(i, (uu, kk, v));
            let ghost t = entries@;
            assert forall|a: int, b: int|
                0 <= a < t.len() && 0 <= b < t.len() && a != b implies !((#[trigger] t[a]).0@ == (
                #[trigger] t[b]).0@ && t[a].1@ == t[b].1@) by {
                assert(t[a].0@ == s[a].0@ && t[a].1@ == s[a].1@);
                assert(t[b].0@ == s[b].0@ && t[b].1@ == s[b].1@);
            }
            assert forall|a: Seq<char>, b: Seq<char>| #[trigger]
                pair_amount(t, a, b) == if a == u@ && b == k@ {
                    v
                } else {
                    pair_amount(s, a, b)
                } by {
                if a == u@ && b == k@ {
                    lemma_pair_index(t, i as int);
                } else {
                    if has_pair(s, a, b) {
                        let j = pair_index(s, a, b);
                        assert(t[j].0@ == a && t[j].1@ == b);
                        lemma_pair_index(t, j);
                    }
                    if has_pair(t, a, b) {
                        let j = pair_index(t, a, b);
                        assert(s[j].0@ == a && s[j].1@ == b);
                    }
                }
            }
        },
        None => {
            entries.push((u.clone(), k.clone(), v));
            let ghost t = entries@;
            assert forall|a: int, b: int|
                0 <= a < t.len() && 0 <= b < t.len() && a != b implies !((#[trigger] t[a]).0@ == (
                #[trigger] t[b]).0@ && t[a].1@ == t[b].1@) by {
                if a < s.len() {
                    assert(t[a] == s[a]);
                }
                if b < s.len() {
                    assert(t[b] == s[b]);
                }
            }
            assert forall|a: Seq<char>, b: Seq<char>| #[trigger]
                pair_amount(t, a, b) == if a == u@ && b == k@ {
                    v
                } else {
                    pair_amount(s, a, b)
                } by {
                if a == u@ && b == k@ {
                    lemma_pair_index(t, s.len() as int);
                } else {
                    if has_pair(s, a, b) {
                        let j = pair_index(s, a, b);
                        assert(t[j] == s[j]);
                        lemma_pair_index(t, j);
                    }
                    if has_pair(t, a, b) {
                        let j = pair_index(t, a, b);
                        assert(j != s.len());
                        assert(s[j] == t[j]);
                    }
                }
            }
        },
    }
}

/// Removes the entry of key `k`, if any, and returns its value.
pub fn remove_key<V>(entries: &mut Vec<(String, V)>, k: &String) -> (r: Option<V>)
    requires
        unique_keys(old(entries)@),
    ensures
        final(entries)@ == without(old(entries)@, k@),
        unique_keys(final(entries)@),
        r == value_of(old(entries)@, k@),
        forall|q: Seq<char>| #[trigger]
            value_of(final(entries)@, q) == if q == k@ {
                None
            } else {
                value_of(old(entries)@, q)
            },
{
    let ghost s = entries@;
    match find_key(entries, k) {
        Some(i) => {
            proof {
                lemma_index_of(s, i as int);
            }
            let (_, v) = entries.remove(i);
            proof {
                let t = entries@;
                assert(t =~= s.remove(i as int));
                assert forall|a: int, b: int|
                    0 <= a < t.len() && 0 <= b < t.len() && a != b implies (#[trigger] t[a]).0@ != (
                    #[trigger] t[b]).0@ by {
                    let a2 = if a < i {
                        a
                    } else {
                        a + 1
                    };
                    let b2 = if b < i {
                        b
                    } else {
                        b + 1
                    };
                    assert(t[a] == s[a2] && t[b] == s[b2]);
                }
                assert forall|q: Seq<char>| #[trigger]
                    value_of(t, q) == if q == k@ {
                        None
                    } else {
                        value_of(s, q)
                    } by {
                    if has_key(t, q) {
                        let j = index_of(t, q);
                        let j2 = if j < i {
                            j
                        } else {
                            j + 1
                        };
                        assert(t[j] == s[j2]);
                        lemma_index_of(s, j2);
                        lemma_index_of(t, j);
                    }
                    if has_key(s, q) && q != k@ {
                        let j = index_of(s, q);
                        assert(j != i);
                        let j2 = if j < i {
                            j
                        } else {
                            j - 1
                        };
                        assert(t[j2] == s[j]);
                    }
                }
            }
            Some(v)
        },
        None => {
            proof {
                assert forall|q: Seq<char>| #[trigger]
                    value_of(s, q) == if q == k@ {
                        None
                    } else {
                        value_of(s, q)
                    } by {}
            }
            None
        },
    }
}

/// A copy of `entries`.
pub fn copy_table<V: Copy>(entries: &Vec<(String, V)>) -> (r: Vec<(String, V)>)
    ensures
        r@ == entries@,
{
    let mut out: Vec<(String, V)> = Vec::new();
    let mut i: usize = 0;
    while i < entries.len()
        invariant
            i <= entries@.len(),
            out@ == entries@.subrange(0, i as int),
        decreases entries@.len() - i,
    {
        out.push((entries[i].0.clone(), entries[i].1));
        assert(out@ =~= entries@.subrange(0, i + 1));
        i = i + 1;
    }
    assert(entries@.subrange(0, entries@.len() as int) =~= entries@);
    out
}

/// A copy of `entries`.
pub fn copy_pairs(entries: &Vec<(String, String, u128)>) -> (r: Vec<(String, String, u128)>)
    ensures
        r@ == entries@,
{
    let mut out: Vec<(String, String, u128)> = Vec::new();
    let mut i: usize = 0;
    while i < entries.len()
        invariant
            i <= entries@.len(),
            out@ == entries@.subrange(0, i as int),
        decreases entries@.len() - i,
    {
        out.push((entries[i].0.clone(), entries[i].1.clone(), entries[i].2));
        assert(out@ =~= entries@.subrange(0, i + 1));
        i = i + 1;
    }
    assert(entries@.subrange(0, entries@.len() as int) =~= entries@);
    out
}

/// `k` is one of the identifiers of `s`.
pub open spec fn has_id(s: Seq<String>, k: Seq<char>) -> bool {
    exists|i: int| 0 <= i < s.len() && (#[trigger] s[i])@ == k
}

/// Whether `k` is one of the identifiers of `ids`.
pub fn contains_id(ids: &Vec<String>, k: &String) -> (r: bool)
    ensures
        r == has_id(ids@, k@),
{
    let mut i: usize = 0;
    while i < ids.len()
        invariant
            i <= ids@.len(),
            forall|j: int| 0 <= j < i ==> (#[trigger] ids@[j])@ != k@,
        decreases ids@.len() - i,
    {
        if ids[i] == *k {
            return true;
        }
        i = i + 1;
    }
    false
}

/// Adds `k` to `ids` where it is not there yet.
pub fn insert_id(ids: &mut Vec<String>, k: &String)
    ensures
        forall|q: Seq<char>| #[trigger] has_id(final(ids)@, q) == (has_id(old(ids)@, q) || q == k@),
{
    if !contains_id(ids, k) {
        let ghost s = ids@;
        ids.push(k.clone());
        assert forall|q: Seq<char>| #[trigger] has_id(ids@, q) == (has_id(s, q) || q == k@) by {
            if has_id(s, q) {
                let j = choose|j: int| 0 <= j < s.len() && (#[trigger] s[j])@ == q;
                assert(ids@[j] == s[j]);
            }
            if q == k@ {
                assert(ids@[s.len() as int]@ == q);
            }
            if has_id(ids@, q) && q != k@ {
                let j = choose|j: int| 0 <= j < ids@.len() && (#[trigger] ids@[j])@ == q;
                assert(j < s.len());
                assert(s[j] == ids@[j]);
            }
        }
    }
}

/// Takes every occurrence of `k` out of `ids`.
pub fn remove_id(ids: &mut Vec<String>, k: &String)
    ensures
        forall|q: Seq<char>| #[trigger] has_id(final(ids)@, q) == (has_id(old(ids)@, q) && q != k@),
{
    let ghost s = ids@;
    let mut out: Vec<String> = Vec::new();
    let mut i: usize = 0;
    while i < ids.len()
        invariant
            s == ids@,
            i <= s.len(),
            forall|q: Seq<char>| #[trigger]
                has_id(out@, q) == (has_id(s.subrange(0, i as int), q) && q != k@),
        decreases s.len() - i,
    {
        let ghost pre = s.subrange(0, i as int);
        let ghost next = s.subrange(0, i + 1);
        let ghost before = out@;
        if ids[i] != *k {
            out.push(ids[i].clone());
        }
        assert forall|q: Seq<char>| #[trigger]
            has_id(out@, q) == (has_id(next, q) && q != k@) by {
            if has_id(pre, q) {
                let j = choose|j: int| 0 <= j < pre.len() && (#[trigger] pre[j])@ == q;
                assert(next[j] == pre[j]);
            }
            if has_id(next, q) && !has_id(pre, q) {
                let j = choose|j: int| 0 <= j < next.len() && (#[trigger] next[j])@ == q;
                if j < i {
                    assert(pre[j] == next[j]);
                }
            }
            if has_id(before, q) {
                let j = choose|j: int| 0 <= j < before.len() && (#[trigger] before[j])@ == q;
                assert(out@[j] == before[j]);
            }
            if has_id(out@, q) && !has_id(before, q) {
                let j = choose|j: int| 0 <= j < out@.len() && (#[trigger] out@[j])@ == q;
                if j < before.len() {
                    assert(before[j] == out@[j]);
                }
            }
            if s[i as int]@ != k@ {
                assert(out@[before.len() as int] == s[i as int]);
                assert(next[i as int] == s[i as int]);
            }
        }
        i = i + 1;
    }
    assert(s.subrange(0, s.len() as int) =~= s);
    *ids = out;
}

} // verus!
