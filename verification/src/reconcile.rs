use crate::keys::Keyframe;
use crate::model::{joint_views, Animation, JointData};
use std::collections::HashSet;
use vstd::prelude::*;

verus! {

broadcast use vstd::std_specs::hash::group_hash_axioms;

/// What to do with keys of one channel that share a timestamp.
#[derive(Clone, Copy, Debug, PartialEq, Eq)]
pub enum DuplicateKeyStrategy {
    /// Keep the key that stands first.
    KeepFirst,
    /// Keep the key that stands last.
    KeepLast,
    /// Replace them by one key that carries the blend of their values.
    Average,
}

/// Some key of `s` has timestamp `t`.
pub open spec fn occurs<K: Keyframe>(s: Seq<K>, t: u16) -> bool {
    exists|i: int| 0 <= i < s.len() && (#[trigger] s[i]).stamp() == t
}

/// `s[j]` is the earliest key of `s` with its timestamp.
pub open spec fn is_first<K: Keyframe>(s: Seq<K>, j: int) -> bool {
    &&& 0 <= j < s.len()
    &&& forall|m: int| 0 <= m < j ==> (#[trigger] s[m]).stamp() != s[j].stamp()
}

/// `s[j]` is the latest key of `s` with its timestamp.
pub open spec fn is_last<K: Keyframe>(s: Seq<K>, j: int) -> bool {
    &&& 0 <= j < s.len()
    &&& forall|m: int| j < m < s.len() ==> (#[trigger] s[m]).stamp() != s[j].stamp()
}

/// `k` is the earliest key of `s` with its timestamp.
pub open spec fn first_of<K: Keyframe>(s: Seq<K>, k: K) -> bool {
    exists|j: int| is_first(s, j) && s[j] == k
}

/// `k` is the latest key of `s` with its timestamp.
pub open spec fn last_of<K: Keyframe>(s: Seq<K>, k: K) -> bool {
    exists|j: int| is_last(s, j) && s[j] == k
}

/// No two keys of `s` share a timestamp.
pub open spec fn distinct_stamps<K: Keyframe>(s: Seq<K>) -> bool {
    forall|i: int, j: int|
        0 <= i < j < s.len() ==> (#[trigger] s[i]).stamp() != (#[trigger] s[j]).stamp()
}

/// Every timestamp of `s` is the timestamp of some key of `out`.
pub open spec fn covers<K: Keyframe>(out: Seq<K>, s: Seq<K>) -> bool {
    forall|j: int| 0 <= j < s.len() ==> occurs(out, (#[trigger] s[j]).stamp())
}

/// The keys of `s`, one per timestamp, each the earliest with that timestamp,
/// in the order in which they stand in `s`.
fn first_occurrences<K: Keyframe>(keys: &Vec<K>) -> (out: Vec<K>)
    ensures
        forall|i: int| 0 <= i < out.len() ==> first_of(keys@, #[trigger] out@[i]),
        distinct_stamps(out@),
        covers(out@, keys@),
{
    let mut out: Vec<K> = Vec::new();
    let mut seen: HashSet<u16> = HashSet::new();
    let mut n: usize = 0;
    while n < keys.len()
        invariant
            n <= keys.len(),
            forall|t: u16| seen@.contains(t) <==> occurs(keys@.take(n as int), t),
            forall|t: u16| seen@.contains(t) <==> occurs(out@, t),
            forall|i: int| 0 <= i < out.len() ==> first_of(keys@, #[trigger] out@[i]),
            distinct_stamps(out@),
        decreases keys.len() - n,
    {
        let k = keys[n];
        let t = k.time();
        let ghost before = out@;
        let ghost seen_before = seen@;
        let fresh = seen.insert(t);
        if fresh {
            out.push(k);
        }
        proof {
            let s = keys@;
            let a = s.take(n as int);
            let b = s.take(n as int + 1);
            assert(b[n as int] == k);
            assert forall|u: u16| seen@.contains(u) <==> occurs(b, u) by {
                if occurs(b, u) {
                    let i = choose|i: int| 0 <= i < b.len() && (#[trigger] b[i]).stamp() == u;
                    if i < n {
                        assert(a[i].stamp() == u);
                    }
                }
                if seen@.contains(u) && u != t {
                    let i = choose|i: int| 0 <= i < a.len() && (#[trigger] a[i]).stamp() == u;
                    assert(b[i].stamp() == u);
                }
            }
            assert forall|u: u16| seen@.contains(u) <==> occurs(out@, u) by {
                if occurs(out@, u) {
                    let i = choose|i: int| 0 <= i < out@.len() && (#[trigger] out@[i]).stamp() == u;
                    if i < before.len() {
                        assert(before[i].stamp() == u);
                    }
                }
                if seen@.contains(u) {
                    if seen_before.contains(u) {
                        let i = choose|i: int|
                            0 <= i < before.len() && (#[trigger] before[i]).stamp() == u;
                        assert(out@[i].stamp() == u);
                    } else {
                        assert(out@[before.len() as int].stamp() == u);
                    }
                }
            }
            if fresh {
                assert(is_first(s, n as int)) by {
                    assert forall|m: int| 0 <= m < n implies (#[trigger] s[m]).stamp() != s[n as int].stamp() by {
                        if s[m].stamp() == t {
                            assert(a[m].stamp() == t);
                        }
                    }
                }
                assert forall|i: int| 0 <= i < out.len() implies first_of(s, #[trigger] out@[i]) by {
                    if i < before.len() {
                        assert(out@[i] == before[i]);
                    } else {
                        assert(is_first(s, n as int) && s[n as int] == out@[i]);
                    }
                }
                assert forall|i: int, j: int| 0 <= i < j < out.len() implies (#[trigger] out@[i]).stamp()
                    != (#[trigger] out@[j]).stamp() by {
                    if j == before.len() {
                        assert(before[i] == out@[i]);
                        if out@[i].stamp() == t {
                            assert(occurs(before, t));
                        }
                    } else {
                        assert(before[i] == out@[i]);
                        assert(before[j] == out@[j]);
                    }
                }
            }
        }
        n += 1;
    }
    proof {
        assert(keys@.take(n as int) == keys@);
        assert forall|j: int| 0 <= j < keys.len() implies occurs(out@, (#[trigger] keys@[j]).stamp()) by {
            let u = keys@[j].stamp();
            assert(keys@.take(n as int)[j].stamp() == u);
            assert(occurs(keys@.take(n as int), u));
            assert(seen@.contains(u));
        }
    }
    out
}


/// The keys of `s` with timestamp `t`, in the order in which they stand in `s`.
pub open spec fn run_at<K: Keyframe>(s: Seq<K>, t: u16) -> Seq<K> {
    s.filter(stamped::<K>(t))
}

/// The test "has timestamp `t`".
pub open spec fn stamped<K: Keyframe>(t: u16) -> spec_fn(K) -> bool {
    |k: K| k.stamp() == t
}

/// Timestamps never decrease along `s`.
pub open spec fn ascending<K: Keyframe>(s: Seq<K>) -> bool {
    forall|i: int, j: int|
        0 <= i < j < s.len() ==> (#[trigger] s[i]).stamp() <= (#[trigger] s[j]).stamp()
}

/// Timestamps strictly increase along `s`: sorted, and no timestamp twice.
pub open spec fn strictly_ascending<K: Keyframe>(s: Seq<K>) -> bool {
    forall|i: int, j: int|
        0 <= i < j < s.len() ==> (#[trigger] s[i]).stamp() < (#[trigger] s[j]).stamp()
}

proof fn lemma_run_push<K: Keyframe>(s: Seq<K>, k: K, t: u16)
    ensures
        run_at(s.push(k), t) == if k.stamp() == t {
            run_at(s, t).push(k)
        } else {
            run_at(s, t)
        },
{
    s.lemma_filter_push(k, stamped::<K>(t));
}

proof fn lemma_run_concat<K: Keyframe>(a: Seq<K>, b: Seq<K>, t: u16)
    ensures
        run_at(a + b, t) == run_at(a, t) + run_at(b, t),
{
    Seq::filter_distributes_over_add(a, b, stamped::<K>(t));
}

proof fn lemma_run_absent<K: Keyframe>(s: Seq<K>, t: u16)
    requires
        !occurs(s, t),
    ensures
        run_at(s, t) == Seq::<K>::empty(),
    decreases s.len(),
{
    if s.len() == 0 {
        reveal(Seq::filter);
    } else {
        let init = s.drop_last();
        assert forall|i: int| 0 <= i < init.len() implies (#[trigger] init[i]).stamp() != t by {
            assert(s[i].stamp() != t);
        }
        lemma_run_absent(init, t);
        assert(s.last().stamp() != t) by {
            assert(s[s.len() - 1].stamp() != t);
        }
        lemma_run_push(init, s.last(), t);
        assert(init.push(s.last()) == s);
    }
}

proof fn lemma_run_whole<K: Keyframe>(s: Seq<K>, t: u16)
    requires
        forall|i: int| 0 <= i < s.len() ==> (#[trigger] s[i]).stamp() == t,
    ensures
        run_at(s, t) == s,
    decreases s.len(),
{
    if s.len() == 0 {
        reveal(Seq::filter);
    } else {
        let init = s.drop_last();
        assert forall|i: int| 0 <= i < init.len() implies (#[trigger] init[i]).stamp() == t by {
            assert(s[i].stamp() == t);
        }
        lemma_run_whole(init, t);
        assert(s.last().stamp() == t) by {
            assert(s[s.len() - 1].stamp() == t);
        }
        lemma_run_push(init, s.last(), t);
        assert(init.push(s.last()) == s);
    }
}

/// Every key of a run has the run's timestamp and is a key of `s`; a key of
/// `s` with timestamp `t` makes the run non-empty.
proof fn lemma_run_members<K: Keyframe>(s: Seq<K>, t: u16)
    ensures
        forall|i: int|
            0 <= i < run_at(s, t).len() ==> (#[trigger] run_at(s, t)[i]).stamp() == t && s.contains(
                run_at(s, t)[i],
            ),
        occurs(s, t) <==> run_at(s, t).len() > 0,
    decreases s.len(),
{
    if s.len() == 0 {
        reveal(Seq::filter);
    } else {
        let init = s.drop_last();
        let k = s.last();
        lemma_run_members(init, t);
        lemma_run_push(init, k, t);
        assert(init.push(k) == s);
        let r = run_at(s, t);
        let ri = run_at(init, t);
        assert forall|i: int| 0 <= i < r.len() implies (#[trigger] r[i]).stamp() == t && s.contains(
            r[i],
        ) by {
            if i < ri.len() {
                assert(r[i] == ri[i]);
                let j = choose|j: int| 0 <= j < init.len() && init[j] == ri[i];
                assert(s[j] == r[i]);
            } else {
                assert(r[i] == k);
                assert(s[s.len() - 1] == k);
            }
        }
        if occurs(s, t) {
            let i = choose|i: int| 0 <= i < s.len() && (#[trigger] s[i]).stamp() == t;
            if i < init.len() {
                assert(init[i].stamp() == t);
            }
        }
        if r.len() > 0 {
            if k.stamp() == t {
                assert(s[s.len() - 1].stamp() == t);
            } else {
                let i = choose|i: int| 0 <= i < init.len() && (#[trigger] init[i]).stamp() == t;
                assert(s[i].stamp() == t);
            }
        }
    }
}

/// A key stands in the run of its timestamp.
proof fn lemma_in_run<K: Keyframe>(s: Seq<K>, i: int)
    requires
        0 <= i < s.len(),
    ensures
        run_at(s, s[i].stamp()).contains(s[i]),
{
    s.lemma_filter_contains(stamped::<K>(s[i].stamp()), i);
}

/// Where no timestamp stands twice, a run holds one key at most.
proof fn lemma_run_single<K: Keyframe>(s: Seq<K>, t: u16)
    requires
        distinct_stamps(s),
    ensures
        run_at(s, t).len() <= 1,
    decreases s.len(),
{
    if s.len() == 0 {
        reveal(Seq::filter);
    } else {
        let init = s.drop_last();
        let last = s.last();
        assert forall|i: int, j: int| 0 <= i < j < init.len() implies (#[trigger] init[i]).stamp() != (
        #[trigger] init[j]).stamp() by {
            assert(s[i].stamp() != s[j].stamp());
        }
        lemma_run_single(init, t);
        lemma_run_push(init, last, t);
        assert(init.push(last) == s);
        if last.stamp() == t {
            assert(!occurs(init, t)) by {
                if occurs(init, t) {
                    let i = choose|i: int| 0 <= i < init.len() && (#[trigger] init[i]).stamp() == t;
                    assert(s[i].stamp() != s[s.len() - 1].stamp());
                }
            }
            lemma_run_absent(init, t);
        }
    }
}

/// Two keys of one timestamp make a run of two at least.
proof fn lemma_run_pair<K: Keyframe>(s: Seq<K>, i: int, j: int)
    requires
        0 <= i < j < s.len(),
        s[i].stamp() == s[j].stamp(),
    ensures
        run_at(s, s[i].stamp()).len() >= 2,
{
    let t = s[i].stamp();
    let a = s.take(j);
    let b = s.skip(j);
    assert(s == a + b);
    lemma_run_concat(a, b, t);
    assert(a[i].stamp() == t);
    assert(b[0].stamp() == t);
    lemma_run_members(a, t);
    lemma_run_members(b, t);
}

/// Two sorted lists as one: sorted, the keys of one timestamp in the order
/// in which they came, those of `a` before those of `b`.
fn merge<K: Keyframe>(a: &Vec<K>, b: &Vec<K>) -> (out: Vec<K>)
    requires
        ascending(a@),
        ascending(b@),
        a@.len() + b@.len() <= usize::MAX,
    ensures
        out@.len() == a@.len() + b@.len(),
        ascending(out@),
        forall|t: u16| #[trigger] run_at(out@, t) == run_at(a@, t) + run_at(b@, t),
{
    let mut out: Vec<K> = Vec::new();
    let mut i: usize = 0;
    let mut j: usize = 0;
    proof {
        assert forall|t: u16| #[trigger] run_at(out@, t) == run_at(a@.take(0), t) + run_at(
            b@.take(0),
            t,
        ) by {
            reveal(Seq::filter);
            assert(a@.take(0) =~= Seq::<K>::empty());
            assert(b@.take(0) =~= Seq::<K>::empty());
            assert(out@ =~= Seq::<K>::empty());
        }
    }
    while i < a.len() || j < b.len()
        invariant
            i <= a@.len(),
            j <= b@.len(),
            a@.len() + b@.len() <= usize::MAX,
            out@.len() == i + j,
            ascending(a@),
            ascending(b@),
            ascending(out@),
            forall|t: u16|
                #[trigger] run_at(out@, t) == run_at(a@.take(i as int), t) + run_at(
                    b@.take(j as int),
                    t,
                ),
            forall|k: int|
                0 <= k < out@.len() && i < a@.len() ==> (#[trigger] out@[k]).stamp()
                    <= a@[i as int].stamp(),
            forall|k: int|
                0 <= k < out@.len() && j < b@.len() ==> (#[trigger] out@[k]).stamp()
                    <= b@[j as int].stamp(),
            forall|k: int|
                0 <= k < j && i < a@.len() ==> (#[trigger] b@[k]).stamp() < a@[i as int].stamp(),
        decreases (a@.len() - i) + (b@.len() - j),
    {
        let ghost o = out@;
        let ghost ai = a@.take(i as int);
        let ghost bj = b@.take(j as int);
        let from_a = if j >= b.len() {
            true
        } else if i >= a.len() {
            false
        } else {
            a[i].time() <= b[j].time()
        };
        if from_a {
            let x = a[i];
            out.push(x);
            proof {
                assert(a@.take(i as int + 1) == ai.push(x));
                assert forall|t: u16|
                    #[trigger] run_at(out@, t) == run_at(a@.take(i as int + 1), t) + run_at(
                        bj,
                        t,
                    ) by {
                    lemma_run_push(o, x, t);
                    lemma_run_push(ai, x, t);
                    assert(run_at(o, t) == run_at(ai, t) + run_at(bj, t));
                    if x.stamp() == t {
                        assert(!occurs(bj, t)) by {
                            if occurs(bj, t) {
                                let k = choose|k: int|
                                    0 <= k < bj.len() && (#[trigger] bj[k]).stamp() == t;
                                assert(b@[k].stamp() < a@[i as int].stamp());
                            }
                        }
                        lemma_run_absent(bj, t);
                        assert(run_at(ai, t) + Seq::<K>::empty() == run_at(ai, t));
                        assert(run_at(ai, t).push(x) + Seq::<K>::empty() == run_at(ai, t).push(x));
                    }
                }
                assert forall|p: int, q: int| 0 <= p < q < out@.len() implies (#[trigger] out@[p]).stamp()
                    <= (#[trigger] out@[q]).stamp() by {
                    assert(out@[p] == o[p]);
                    if q < o.len() {
                        assert(out@[q] == o[q]);
                    }
                }
                assert forall|k: int|
                    0 <= k < out@.len() && i + 1 < a@.len() implies (#[trigger] out@[k]).stamp()
                    <= a@[i as int + 1].stamp() by {
                    assert(a@[i as int].stamp() <= a@[i as int + 1].stamp());
                    if k < o.len() {
                        assert(out@[k] == o[k]);
                    }
                }
                assert forall|k: int|
                    0 <= k < out@.len() && j < b@.len() implies (#[trigger] out@[k]).stamp()
                    <= b@[j as int].stamp() by {
                    if k < o.len() {
                        assert(out@[k] == o[k]);
                    }
                }
                assert forall|k: int| 0 <= k < j && i + 1 < a@.len() implies (#[trigger] b@[k]).stamp()
                    < a@[i as int + 1].stamp() by {
                    assert(a@[i as int].stamp() <= a@[i as int + 1].stamp());
                }
            }
            i += 1;
        } else {
            let y = b[j];
            out.push(y);
            proof {
                assert(b@.take(j as int + 1) == bj.push(y));
                assert forall|t: u16|
                    #[trigger] run_at(out@, t) == run_at(ai, t) + run_at(
                        b@.take(j as int + 1),
                        t,
                    ) by {
                    lemma_run_push(o, y, t);
                    lemma_run_push(bj, y, t);
                    assert(run_at(o, t) == run_at(ai, t) + run_at(bj, t));
                    if y.stamp() == t {
                        assert((run_at(ai, t) + run_at(bj, t)).push(y) == run_at(ai, t) + run_at(
                            bj,
                            t,
                        ).push(y));
                    }
                }
                assert forall|p: int, q: int| 0 <= p < q < out@.len() implies (#[trigger] out@[p]).stamp()
                    <= (#[trigger] out@[q]).stamp() by {
                    assert(out@[p] == o[p]);
                    if q < o.len() {
                        assert(out@[q] == o[q]);
                    }
                }
                assert forall|k: int|
                    0 <= k < out@.len() && i < a@.len() implies (#[trigger] out@[k]).stamp()
                    <= a@[i as int].stamp() by {
                    if k < o.len() {
                        assert(out@[k] == o[k]);
                    }
                }
                assert forall|k: int|
                    0 <= k < out@.len() && j + 1 < b@.len() implies (#[trigger] out@[k]).stamp()
                    <= b@[j as int + 1].stamp() by {
                    assert(b@[j as int].stamp() <= b@[j as int + 1].stamp());
                    if k < o.len() {
                        assert(out@[k] == o[k]);
                    }
                }
            }
            j += 1;
        }
    }
    proof {
        assert(a@.take(i as int) == a@);
        assert(b@.take(j as int) == b@);
    }
    out
}

/// The keys from place `from` up to place `to`.
fn part<K: Keyframe>(keys: &Vec<K>, from: usize, to: usize) -> (out: Vec<K>)
    requires
        from <= to <= keys@.len(),
    ensures
        out@ == keys@.subrange(from as int, to as int),
{
    let mut out: Vec<K> = Vec::new();
    let mut n: usize = from;
    while n < to
        invariant
            from <= n <= to <= keys@.len(),
            out@ == keys@.subrange(from as int, n as int),
        decreases to - n,
    {
        out.push(keys[n]);
        assert(keys@.subrange(from as int, n as int + 1) == keys@.subrange(
            from as int,
            n as int,
        ).push(keys@[n as int]));
        n += 1;
    }
    out
}

/// Orders keys by timestamp, keys of one timestamp staying in the order in
/// which they came: each half is ordered, then the two are merged.
fn stable_sort<K: Keyframe>(keys: &Vec<K>) -> (out: Vec<K>)
    ensures
        out@.len() == keys@.len(),
        ascending(out@),
        forall|t: u16| #[trigger] run_at(out@, t) == run_at(keys@, t),
    decreases keys@.len(),
{
    let n = keys.len();
    if n <= 1 {
        let out = part(keys, 0, n);
        assert(out@ == keys@);
        return out;
    }
    let mid = n / 2;
    let first = part(keys, 0, mid);
    let second = part(keys, mid, n);
    let a = stable_sort(&first);
    let b = stable_sort(&second);
    let out = merge(&a, &b);
    proof {
        assert(keys@ == first@ + second@);
        assert forall|t: u16| #[trigger] run_at(out@, t) == run_at(keys@, t) by {
            lemma_run_concat(first@, second@, t);
            assert(run_at(a@, t) == run_at(first@, t));
            assert(run_at(b@, t) == run_at(second@, t));
        }
    }
    out
}

/// Orders keys by timestamp, keys of one timestamp staying in the order in
/// which they came.
fn sort_by_time<K: Keyframe>(keys: &Vec<K>) -> (out: Vec<K>)
    ensures
        out.len() == keys.len(),
        ascending(out@),
        forall|t: u16| #[trigger] run_at(out@, t) == run_at(keys@, t),
        forall|i: int| 0 <= i < out.len() ==> keys@.contains(#[trigger] out@[i]),
        distinct_stamps(keys@) ==> strictly_ascending(out@),
{
    let out = stable_sort(keys);
    proof {
        assert forall|i: int| 0 <= i < out.len() implies keys@.contains(#[trigger] out@[i]) by {
            let t = out@[i].stamp();
            lemma_in_run(out@, i);
            lemma_run_members(keys@, t);
            assert(run_at(out@, t) == run_at(keys@, t));
            let w = choose|w: int| 0 <= w < run_at(keys@, t).len() && run_at(keys@, t)[w] == out@[i];
            assert(keys@.contains(run_at(keys@, t)[w]));
        }
        if distinct_stamps(keys@) {
            assert forall|i: int, j: int| 0 <= i < j < out@.len() implies (#[trigger] out@[i]).stamp() < (
            #[trigger] out@[j]).stamp() by {
                if out@[i].stamp() == out@[j].stamp() {
                    let t = out@[i].stamp();
                    lemma_run_pair(out@, i, j);
                    lemma_run_single(keys@, t);
                    assert(run_at(out@, t) == run_at(keys@, t));
                }
            }
        }
    }
    out
}

/// `out` is `s` reconciled by keeping, for each timestamp, the earliest key:
/// sorted with no timestamp twice, one key for every timestamp of `s`, each
/// the earliest key of `s` with its timestamp.
pub open spec fn keeps_first<K: Keyframe>(out: Seq<K>, s: Seq<K>) -> bool {
    &&& strictly_ascending(out)
    &&& covers(out, s)
    &&& forall|i: int| 0 <= i < out.len() ==> first_of(s, #[trigger] out[i])
}

/// `out` is `s` reconciled by keeping, for each timestamp, the latest key.
pub open spec fn keeps_last<K: Keyframe>(out: Seq<K>, s: Seq<K>) -> bool {
    &&& strictly_ascending(out)
    &&& covers(out, s)
    &&& forall|i: int| 0 <= i < out.len() ==> last_of(s, #[trigger] out[i])
}

/// The values of the keys of a run.
pub open spec fn payloads<K: Keyframe>(s: Seq<K>) -> Seq<K::Value> {
    s.map_values(|k: K| k.payload())
}

/// How the values that share a timestamp become one value: `start` takes up
/// the first, `toward` moves what has been gathered towards the next value,
/// knowing how many have been gathered so far, and `finish` makes the result
/// of what has been gathered from all of them, knowing how many they were.
///
/// For rotations `toward` is a spherical interpolation with weight
/// 1 / (gathered so far + 1) and `finish` normalises; for positions `toward`
/// adds and `finish` divides by the number. With more than two values the
/// blend of rotations depends on their order.
pub struct Blend<S, T, F> {
    pub start: S,
    pub toward: T,
    pub finish: F,
}

impl<S, T, F> Blend<S, T, F> {
    /// The three steps can be taken on any values.
    pub open spec fn total<V>(self) -> bool where
        S: Fn(V) -> V,
        T: Fn(V, V, usize) -> V,
        F: Fn(V, usize) -> V,
     {
        &&& forall|v: V| call_requires(self.start, (v,))
        &&& forall|acc: V, v: V, n: usize| call_requires(self.toward, (acc, v, n))
        &&& forall|acc: V, n: usize| call_requires(self.finish, (acc, n))
    }

    /// `accs` is what has been gathered from the values of `run`, step by
    /// step in their order: the first taken up by `start`, each next one
    /// reached by `toward` with the number gathered before it.
    pub open spec fn gathers<V>(self, run: Seq<V>, accs: Seq<V>) -> bool where
        S: Fn(V) -> V,
        T: Fn(V, V, usize) -> V,
        F: Fn(V, usize) -> V,
     {
        &&& run.len() > 0
        &&& accs.len() == run.len()
        &&& call_ensures(self.start, (run[0],), accs[0])
        &&& forall|i: int|
            1 <= i < run.len() ==> call_ensures(
                self.toward,
                (accs[i - 1], run[i], i as usize),
                #[trigger] accs[i],
            )
    }

    /// `value` is the blend of the values of `run`, in their order.
    pub open spec fn makes<V>(self, run: Seq<V>, value: V) -> bool where
        S: Fn(V) -> V,
        T: Fn(V, V, usize) -> V,
        F: Fn(V, usize) -> V,
     {
        exists|accs: Seq<V>|
            self.gathers(run, accs) && call_ensures(
                self.finish,
                (accs.last(), run.len() as usize),
                value,
            )
    }

    /// Each of the three steps has one outcome only.
    pub open spec fn single_valued<V>(self) -> bool where
        S: Fn(V) -> V,
        T: Fn(V, V, usize) -> V,
        F: Fn(V, usize) -> V,
     {
        &&& forall|v: V, x: V, y: V|
            call_ensures(self.start, (v,), x) && call_ensures(self.start, (v,), y) ==> x == y
        &&& forall|acc: V, v: V, n: usize, x: V, y: V|
            call_ensures(self.toward, (acc, v, n), x) && call_ensures(self.toward, (acc, v, n), y)
                ==> x == y
        &&& forall|acc: V, n: usize, x: V, y: V|
            call_ensures(self.finish, (acc, n), x) && call_ensures(self.finish, (acc, n), y) ==> x
                == y
    }

    /// The blend of `v` alone is `v`.
    pub open spec fn fixes<V>(self, v: V) -> bool where
        S: Fn(V) -> V,
        T: Fn(V, V, usize) -> V,
        F: Fn(V, usize) -> V,
     {
        forall|acc: V, out: V|
            call_ensures(self.start, (v,), acc) && call_ensures(self.finish, (acc, 1usize), out)
                ==> out == v
    }
}

/// `k` carries the blend of the values of all keys of `s` that share its
/// timestamp, taken in the order in which they stand in `s`.
pub open spec fn blends<K: Keyframe, S, T, F>(s: Seq<K>, k: K, blend: Blend<S, T, F>) -> bool where
    S: Fn(K::Value) -> K::Value,
    T: Fn(K::Value, K::Value, usize) -> K::Value,
    F: Fn(K::Value, usize) -> K::Value,
 {
    blend.makes(payloads(run_at(s, k.stamp())), k.payload())
}

/// `out` is `s` reconciled by blending: sorted with no timestamp twice, one
/// key for every timestamp of `s` and no other, each carrying the blend of
/// its run.
pub open spec fn averages<K: Keyframe, S, T, F>(out: Seq<K>, s: Seq<K>, blend: Blend<S, T, F>) -> bool where
    S: Fn(K::Value) -> K::Value,
    T: Fn(K::Value, K::Value, usize) -> K::Value,
    F: Fn(K::Value, usize) -> K::Value,
 {
    &&& strictly_ascending(out)
    &&& covers(out, s)
    &&& forall|i: int|
        0 <= i < out.len() ==> occurs(s, (#[trigger] out[i]).stamp()) && blends(s, out[i], blend)
}

proof fn lemma_covers_sorted<K: Keyframe>(out: Seq<K>, d: Seq<K>, s: Seq<K>)
    requires
        covers(d, s),
        forall|t: u16| #[trigger] run_at(out, t) == run_at(d, t),
    ensures
        covers(out, s),
{
    assert forall|j: int| 0 <= j < s.len() implies occurs(out, (#[trigger] s[j]).stamp()) by {
        let t = s[j].stamp();
        lemma_run_members(d, t);
        lemma_run_members(out, t);
        assert(run_at(out, t) == run_at(d, t));
    }
}

/// For each timestamp the earliest key, in ascending order of timestamp.
pub fn keep_first<K: Keyframe>(keys: &Vec<K>) -> (out: Vec<K>)
    ensures
        keeps_first(out@, keys@),
{
    let d = first_occurrences(keys);
    let out = sort_by_time(&d);
    proof {
        lemma_covers_sorted(out@, d@, keys@);
        assert forall|i: int| 0 <= i < out.len() implies first_of(keys@, #[trigger] out@[i]) by {
            let m = choose|m: int| 0 <= m < d@.len() && d@[m] == out@[i];
            assert(first_of(keys@, d@[m]));
        }
    }
    out
}

/// The keys in the opposite order.
fn reversed<K: Keyframe>(keys: &Vec<K>) -> (out: Vec<K>)
    ensures
        out@ == keys@.reverse(),
{
    let mut out: Vec<K> = Vec::new();
    let mut n: usize = keys.len();
    while n > 0
        invariant
            n <= keys.len(),
            out.len() == keys.len() - n,
            forall|i: int| 0 <= i < out.len() ==> out@[i] == keys@[keys.len() - 1 - i],
        decreases n,
    {
        n -= 1;
        out.push(keys[n]);
    }
    out
}

proof fn lemma_first_of_reverse<K: Keyframe>(s: Seq<K>, k: K)
    requires
        first_of(s.reverse(), k),
    ensures
        last_of(s, k),
{
    let r = s.reverse();
    let j = choose|j: int| is_first(r, j) && r[j] == k;
    let i = s.len() - 1 - j;
    assert(s[i] == k);
    assert forall|m: int| i < m < s.len() implies (#[trigger] s[m]).stamp() != s[i].stamp() by {
        assert(r[s.len() - 1 - m] == s[m]);
    }
    assert(is_last(s, i));
}

/// For each timestamp the latest key, in ascending order of timestamp.
pub fn keep_last<K: Keyframe>(keys: &Vec<K>) -> (out: Vec<K>)
    ensures
        keeps_last(out@, keys@),
{
    let r = reversed(keys);
    let found = first_occurrences(&r);
    let d = reversed(&found);
    let out = sort_by_time(&d);
    proof {
        let n = found@.len() as int;
        assert forall|i: int, j: int| 0 <= i < j < d@.len() implies (#[trigger] d@[i]).stamp() != (
        #[trigger] d@[j]).stamp() by {
            assert(d@[i] == found@[n - 1 - i]);
            assert(d@[j] == found@[n - 1 - j]);
        }
        assert forall|j: int| 0 <= j < r@.len() implies occurs(d@, (#[trigger] r@[j]).stamp()) by {
            assert(occurs(found@, r@[j].stamp()));
            let w = choose|w: int| 0 <= w < found@.len() && (#[trigger] found@[w]).stamp() == r@[j].stamp();
            assert(d@[n - 1 - w] == found@[w]);
        }
        lemma_covers_sorted(out@, d@, r@);
        assert forall|j: int| 0 <= j < keys.len() implies occurs(out@, (#[trigger] keys@[j]).stamp()) by {
            assert(r@[keys.len() - 1 - j] == keys@[j]);
            assert(occurs(out@, r@[keys.len() - 1 - j].stamp()));
        }
        assert forall|i: int| 0 <= i < out.len() implies last_of(keys@, #[trigger] out@[i]) by {
            let m = choose|m: int| 0 <= m < d@.len() && d@[m] == out@[i];
            assert(d@[m] == found@[n - 1 - m]);
            assert(first_of(r@, found@[n - 1 - m]));
            lemma_first_of_reverse(keys@, out@[i]);
        }
    }
    out
}

/// In a sorted sequence the keys of one timestamp stand together.
proof fn lemma_run_is_block<K: Keyframe>(o: Seq<K>, i: int, j: int, t: u16)
    requires
        0 <= i <= j <= o.len(),
        forall|m: int| 0 <= m < i ==> (#[trigger] o[m]).stamp() != t,
        forall|m: int| i <= m < j ==> (#[trigger] o[m]).stamp() == t,
        forall|m: int| j <= m < o.len() ==> (#[trigger] o[m]).stamp() != t,
    ensures
        run_at(o, t) == o.subrange(i, j),
{
    let a = o.subrange(0, i);
    let b = o.subrange(i, j);
    let c = o.subrange(j, o.len() as int);
    assert(o == (a + b) + c);
    lemma_run_concat(a + b, c, t);
    lemma_run_concat(a, b, t);
    assert(!occurs(a, t)) by {
        if occurs(a, t) {
            let m = choose|m: int| 0 <= m < a.len() && (#[trigger] a[m]).stamp() == t;
            assert(o[m].stamp() != t);
        }
    }
    assert(!occurs(c, t)) by {
        if occurs(c, t) {
            let m = choose|m: int| 0 <= m < c.len() && (#[trigger] c[m]).stamp() == t;
            assert(o[j + m].stamp() != t);
        }
    }
    lemma_run_absent(a, t);
    lemma_run_absent(c, t);
    assert forall|m: int| 0 <= m < b.len() implies (#[trigger] b[m]).stamp() == t by {
        assert(o[i + m].stamp() == t);
    }
    lemma_run_whole(b, t);
    assert(Seq::<K>::empty() + b + Seq::<K>::empty() == b);
}

/// For each timestamp one key that carries the blend of all values with that
/// timestamp, in ascending order of timestamp. The values of one timestamp
/// are blended in the order in which their keys came.
pub fn average<K: Keyframe, S, T, F>(keys: &Vec<K>, blend: &Blend<S, T, F>) -> (out: Vec<K>) where
    S: Fn(K::Value) -> K::Value,
    T: Fn(K::Value, K::Value, usize) -> K::Value,
    F: Fn(K::Value, usize) -> K::Value,

    requires
        blend.total::<K::Value>(),
    ensures
        averages(out@, keys@, *blend),
{
    let o = sort_by_time(keys);
    let mut out: Vec<K> = Vec::new();
    let mut i: usize = 0;
    while i < o.len()
        invariant
            i <= o.len(),
            ascending(o@),
            forall|t: u16| #[trigger] run_at(o@, t) == run_at(keys@, t),
            blend.total::<K::Value>(),
            strictly_ascending(out@),
            forall|m: int| 0 <= m < i ==> occurs(out@, (#[trigger] o@[m]).stamp()),
            forall|m: int|
                0 <= m < out.len() ==> occurs(keys@, (#[trigger] out@[m]).stamp()) && blends(
                    keys@,
                    out@[m],
                    *blend,
                ),
            forall|m: int|
                0 <= m < out.len() ==> i > 0 && (#[trigger] out@[m]).stamp() <= o@[i - 1].stamp(),
            i > 0 && i < o.len() ==> o@[i - 1].stamp() < o@[i as int].stamp(),
        decreases o.len() - i,
    {
        let t = o[i].time();
        let mut acc = (blend.start)(o[i].value());
        let ghost mut accs = seq![acc];
        let mut j: usize = i + 1;
        proof {
            let run = payloads(o@.subrange(i as int, j as int));
            assert(run.len() == 1);
            assert(run[0] == o@[i as int].payload());
        }
        while j < o.len() && o[j].time() == t
            invariant
                i < j <= o.len(),
                t == o@[i as int].stamp(),
                blend.total::<K::Value>(),
                forall|m: int| i <= m < j ==> (#[trigger] o@[m]).stamp() == t,
                blend.gathers(payloads(o@.subrange(i as int, j as int)), accs),
                accs.last() == acc,
            decreases o.len() - j,
        {
            let ghost was = accs;
            let ghost run = payloads(o@.subrange(i as int, j as int));
            acc = (blend.toward)(acc, o[j].value(), j - i);
            proof {
                accs = accs.push(acc);
                let next = payloads(o@.subrange(i as int, j as int + 1));
                assert(next.len() == run.len() + 1);
                assert(next[0] == run[0]);
                assert forall|m: int| 1 <= m < next.len() implies call_ensures(
                    blend.toward,
                    (accs[m - 1], next[m], m as usize),
                    #[trigger] accs[m],
                ) by {
                    if m < run.len() {
                        assert(next[m] == run[m]);
                        assert(accs[m] == was[m]);
                        assert(accs[m - 1] == was[m - 1]);
                    } else {
                        assert(next[m] == o@[j as int].payload());
                        assert(accs[m - 1] == was.last());
                        assert(m as usize == j - i);
                    }
                }
            }
            j += 1;
        }
        let v = (blend.finish)(acc, j - i);
        let k = K::at(t, v);
        let ghost before = out@;
        out.push(k);
        proof {
            K::lemma_made(k, t, v);
            assert forall|m: int| 0 <= m < i implies (#[trigger] o@[m]).stamp() != t by {
                if i > 0 {
                    if m < i - 1 {
                        assert(o@[m].stamp() <= o@[i - 1].stamp());
                    }
                }
            }
            assert forall|m: int| j <= m < o.len() implies (#[trigger] o@[m]).stamp() != t by {
                assert(o@[j as int].stamp() != t);
                assert(o@[i as int].stamp() <= o@[j as int].stamp());
                if m > j {
                    assert(o@[j as int].stamp() <= o@[m].stamp());
                }
            }
            lemma_run_is_block(o@, i as int, j as int, t);
            assert(run_at(o@, t) == run_at(keys@, t));
            assert(payloads(run_at(keys@, k.stamp())).len() == j - i);
            assert(blend.gathers(payloads(run_at(keys@, k.stamp())), accs));
            assert(blend.makes(payloads(run_at(keys@, k.stamp())), k.payload()));
            assert(blends(keys@, k, *blend));
            lemma_run_members(keys@, t);
            assert(run_at(keys@, t).len() > 0);
            assert forall|m: int|
                0 <= m < out.len() implies occurs(keys@, (#[trigger] out@[m]).stamp()) && blends(
                keys@,
                out@[m],
                *blend,
            ) by {
                if m < before.len() {
                    assert(out@[m] == before[m]);
                }
            }
            assert forall|a: int, b: int| 0 <= a < b < out@.len() implies (#[trigger] out@[a]).stamp() < (
            #[trigger] out@[b]).stamp() by {
                assert(out@[a] == before[a]);
                if b < before.len() {
                    assert(out@[b] == before[b]);
                } else {
                    assert(before[a].stamp() <= o@[i - 1].stamp());
                    assert(o@[i - 1].stamp() != t);
                }
            }
            assert forall|m: int| 0 <= m < j implies occurs(out@, (#[trigger] o@[m]).stamp()) by {
                if m < i {
                    let w = choose|w: int|
                        0 <= w < before.len() && (#[trigger] before[w]).stamp() == o@[m].stamp();
                    assert(out@[w].stamp() == o@[m].stamp());
                } else {
                    assert(out@[before.len() as int].stamp() == t);
                }
            }
            assert forall|m: int| 0 <= m < out.len() implies j > 0 && (#[trigger] out@[m]).stamp()
                <= o@[j - 1].stamp() by {
                assert(o@[j - 1].stamp() == t);
                if m < before.len() {
                    assert(out@[m] == before[m]);
                    assert(before[m].stamp() <= o@[i - 1].stamp());
                }
            }
            if j < o.len() {
                assert(o@[j - 1].stamp() <= o@[j as int].stamp());
            }
        }
        i = j;
    }
    proof {
        assert forall|m: int| 0 <= m < keys.len() implies occurs(out@, (#[trigger] keys@[m]).stamp()) by {
            let t = keys@[m].stamp();
            lemma_run_members(keys@, t);
            lemma_run_members(o@, t);
            assert(run_at(o@, t) == run_at(keys@, t));
            let w = choose|w: int| 0 <= w < o@.len() && (#[trigger] o@[w]).stamp() == t;
            assert(occurs(out@, o@[w].stamp()));
        }
    }
    out
}

/// Two sorted sequences without repeated timestamps that show the same
/// timestamps show them at the same places.
proof fn lemma_same_stamps_prefix<K: Keyframe>(a: Seq<K>, b: Seq<K>, n: int)
    requires
        strictly_ascending(a),
        strictly_ascending(b),
        covers(b, a),
        covers(a, b),
        0 <= n <= a.len(),
    ensures
        n <= b.len(),
        forall|i: int| 0 <= i < n ==> (#[trigger] a[i]).stamp() == b[i].stamp(),
    decreases n,
{
    if n > 0 {
        lemma_same_stamps_prefix(a, b, n - 1);
        let x = a[n - 1];
        assert(occurs(b, x.stamp()));
        let k = choose|k: int| 0 <= k < b.len() && (#[trigger] b[k]).stamp() == x.stamp();
        if k < n - 1 {
            assert(a[k].stamp() == b[k].stamp());
            assert(a[k].stamp() < a[n - 1].stamp());
        }
        let y = b[n - 1];
        assert(occurs(a, y.stamp()));
        let m = choose|m: int| 0 <= m < a.len() && (#[trigger] a[m]).stamp() == y.stamp();
        if m < n - 1 {
            assert(a[m].stamp() == b[m].stamp());
            assert(b[m].stamp() < b[n - 1].stamp());
        }
        if m > n - 1 {
            assert(a[n - 1].stamp() < a[m].stamp());
        }
        if k > n - 1 {
            assert(b[n - 1].stamp() < b[k].stamp());
        }
    }
}

proof fn lemma_same_stamps<K: Keyframe>(a: Seq<K>, b: Seq<K>)
    requires
        strictly_ascending(a),
        strictly_ascending(b),
        covers(b, a),
        covers(a, b),
    ensures
        a.len() == b.len(),
        forall|i: int| 0 <= i < a.len() ==> (#[trigger] a[i]).stamp() == b[i].stamp(),
{
    lemma_same_stamps_prefix(a, b, a.len() as int);
    lemma_same_stamps_prefix(b, a, b.len() as int);
}

/// What shows every timestamp of `s` shows every timestamp of a sequence
/// whose timestamps are all timestamps of `s`.
proof fn lemma_covers_trans<K: Keyframe>(a: Seq<K>, b: Seq<K>, s: Seq<K>)
    requires
        covers(a, s),
        forall|i: int| 0 <= i < b.len() ==> occurs(s, (#[trigger] b[i]).stamp()),
    ensures
        covers(a, b),
{
    assert forall|j: int| 0 <= j < b.len() implies occurs(a, (#[trigger] b[j]).stamp()) by {
        let m = choose|m: int| 0 <= m < s.len() && (#[trigger] s[m]).stamp() == b[j].stamp();
        assert(occurs(a, s[m].stamp()));
    }
}

/// Keeping the earliest key per timestamp has exactly one result.
pub proof fn lemma_keeps_first_unique<K: Keyframe>(a: Seq<K>, b: Seq<K>, s: Seq<K>)
    requires
        keeps_first(a, s),
        keeps_first(b, s),
    ensures
        a == b,
{
    assert forall|i: int| 0 <= i < a.len() implies occurs(s, (#[trigger] a[i]).stamp()) by {
        assert(first_of(s, a[i]));
        let j = choose|j: int| is_first(s, j) && s[j] == a[i];
        assert(s[j].stamp() == a[i].stamp());
    }
    assert forall|i: int| 0 <= i < b.len() implies occurs(s, (#[trigger] b[i]).stamp()) by {
        assert(first_of(s, b[i]));
        let j = choose|j: int| is_first(s, j) && s[j] == b[i];
        assert(s[j].stamp() == b[i].stamp());
    }
    lemma_covers_trans(a, b, s);
    lemma_covers_trans(b, a, s);
    lemma_same_stamps(a, b);
    assert forall|i: int| 0 <= i < a.len() implies a[i] == b[i] by {
        assert(first_of(s, a[i]));
        assert(first_of(s, b[i]));
        let j = choose|j: int| is_first(s, j) && s[j] == a[i];
        let m = choose|m: int| is_first(s, m) && s[m] == b[i];
        assert(a[i].stamp() == b[i].stamp());
        if j < m {
            assert(s[j].stamp() != s[m].stamp());
        }
        if m < j {
            assert(s[m].stamp() != s[j].stamp());
        }
    }
    assert(a =~= b);
}

/// Keeping the latest key per timestamp has exactly one result.
pub proof fn lemma_keeps_last_unique<K: Keyframe>(a: Seq<K>, b: Seq<K>, s: Seq<K>)
    requires
        keeps_last(a, s),
        keeps_last(b, s),
    ensures
        a == b,
{
    assert forall|i: int| 0 <= i < a.len() implies occurs(s, (#[trigger] a[i]).stamp()) by {
        assert(last_of(s, a[i]));
        let j = choose|j: int| is_last(s, j) && s[j] == a[i];
        assert(s[j].stamp() == a[i].stamp());
    }
    assert forall|i: int| 0 <= i < b.len() implies occurs(s, (#[trigger] b[i]).stamp()) by {
        assert(last_of(s, b[i]));
        let j = choose|j: int| is_last(s, j) && s[j] == b[i];
        assert(s[j].stamp() == b[i].stamp());
    }
    lemma_covers_trans(a, b, s);
    lemma_covers_trans(b, a, s);
    lemma_same_stamps(a, b);
    assert forall|i: int| 0 <= i < a.len() implies a[i] == b[i] by {
        assert(last_of(s, a[i]));
        assert(last_of(s, b[i]));
        let j = choose|j: int| is_last(s, j) && s[j] == a[i];
        let m = choose|m: int| is_last(s, m) && s[m] == b[i];
        assert(a[i].stamp() == b[i].stamp());
        if j < m {
            assert(s[m].stamp() != s[j].stamp());
        }
        if m < j {
            assert(s[j].stamp() != s[m].stamp());
        }
    }
    assert(a =~= b);
}

/// A sequence that is sorted and shows no timestamp twice is its own
/// reconciliation, whether the earliest or the latest key is kept.
pub proof fn lemma_reconciled_is_fixed<K: Keyframe>(a: Seq<K>)
    requires
        strictly_ascending(a),
    ensures
        keeps_first(a, a),
        keeps_last(a, a),
{
    assert forall|j: int| 0 <= j < a.len() implies occurs(a, (#[trigger] a[j]).stamp()) by {}
    assert forall|i: int| 0 <= i < a.len() implies first_of(a, #[trigger] a[i]) && last_of(
        a,
        a[i],
    ) by {
        assert forall|m: int| 0 <= m < i implies (#[trigger] a[m]).stamp() != a[i].stamp() by {
            assert(a[m].stamp() < a[i].stamp());
        }
        assert forall|m: int| i < m < a.len() implies (#[trigger] a[m]).stamp() != a[i].stamp() by {
            assert(a[i].stamp() < a[m].stamp());
        }
        assert(is_first(a, i));
        assert(is_last(a, i));
    }
}

/// Keeping the earliest key per timestamp a second time changes nothing.
pub proof fn lemma_keep_first_idempotent<K: Keyframe>(s: Seq<K>, once: Seq<K>, twice: Seq<K>)
    requires
        keeps_first(once, s),
        keeps_first(twice, once),
    ensures
        twice == once,
{
    lemma_reconciled_is_fixed(once);
    lemma_keeps_first_unique(twice, once, once);
}

/// Keeping the latest key per timestamp a second time changes nothing.
pub proof fn lemma_keep_last_idempotent<K: Keyframe>(s: Seq<K>, once: Seq<K>, twice: Seq<K>)
    requires
        keeps_last(once, s),
        keeps_last(twice, once),
    ensures
        twice == once,
{
    lemma_reconciled_is_fixed(once);
    lemma_keeps_last_unique(twice, once, once);
}

/// What is gathered from a run is one thing only, provided that each step of
/// the blend has one outcome only.
proof fn lemma_gathers_unique<V, S, T, F>(
    blend: Blend<S, T, F>,
    run: Seq<V>,
    x: Seq<V>,
    y: Seq<V>,
    n: int,
) where
    S: Fn(V) -> V,
    T: Fn(V, V, usize) -> V,
    F: Fn(V, usize) -> V,

    requires
        blend.single_valued::<V>(),
        blend.gathers(run, x),
        blend.gathers(run, y),
        0 <= n < run.len(),
    ensures
        x[n] == y[n],
    decreases n,
{
    if n > 0 {
        lemma_gathers_unique(blend, run, x, y, n - 1);
        assert(call_ensures(blend.toward, (x[n - 1], run[n], n as usize), x[n]));
        assert(call_ensures(blend.toward, (y[n - 1], run[n], n as usize), y[n]));
    }
}

/// Blending has exactly one result, provided that each step of the blend has
/// one outcome only.
pub proof fn lemma_averages_unique<K: Keyframe, S, T, F>(
    a: Seq<K>,
    b: Seq<K>,
    s: Seq<K>,
    blend: Blend<S, T, F>,
) where
    S: Fn(K::Value) -> K::Value,
    T: Fn(K::Value, K::Value, usize) -> K::Value,
    F: Fn(K::Value, usize) -> K::Value,

    requires
        averages(a, s, blend),
        averages(b, s, blend),
        blend.single_valued::<K::Value>(),
    ensures
        a == b,
{
    lemma_covers_trans(a, b, s);
    lemma_covers_trans(b, a, s);
    lemma_same_stamps(a, b);
    assert forall|i: int| 0 <= i < a.len() implies a[i] == b[i] by {
        let t = a[i].stamp();
        assert(b[i].stamp() == t);
        let run = payloads(run_at(s, t));
        assert(blends(s, a[i], blend));
        assert(blends(s, b[i], blend));
        let x = choose|accs: Seq<K::Value>|
            blend.gathers(run, accs) && call_ensures(
                blend.finish,
                (accs.last(), run.len() as usize),
                a[i].payload(),
            );
        let y = choose|accs: Seq<K::Value>|
            blend.gathers(run, accs) && call_ensures(
                blend.finish,
                (accs.last(), run.len() as usize),
                b[i].payload(),
            );
        lemma_gathers_unique(blend, run, x, y, run.len() - 1);
        assert(a[i].payload() == b[i].payload());
        K::lemma_made(a[i], t, a[i].payload());
        K::lemma_made(b[i], t, a[i].payload());
    }
    assert(a =~= b);
}

/// The blend of a run of one value is that value, where the blend of that
/// value alone is that value.
proof fn lemma_blend_of_one<V, S, T, F>(blend: Blend<S, T, F>, run: Seq<V>, value: V) where
    S: Fn(V) -> V,
    T: Fn(V, V, usize) -> V,
    F: Fn(V, usize) -> V,

    requires
        run.len() == 1,
        blend.fixes(run[0]),
        blend.makes(run, value),
    ensures
        value == run[0],
{
    let accs = choose|accs: Seq<V>|
        blend.gathers(run, accs) && call_ensures(
            blend.finish,
            (accs.last(), run.len() as usize),
            value,
        );
    assert(accs.last() == accs[0]);
    assert(call_ensures(blend.start, (run[0],), accs[0]));
    assert(call_ensures(blend.finish, (accs[0], 1usize), value));
}

/// In a sequence that is sorted and shows no timestamp twice every run is a
/// single key.
proof fn lemma_run_of_one<K: Keyframe>(s: Seq<K>, i: int)
    requires
        strictly_ascending(s),
        0 <= i < s.len(),
    ensures
        run_at(s, s[i].stamp()) == seq![s[i]],
{
    let t = s[i].stamp();
    assert forall|m: int| 0 <= m < i implies (#[trigger] s[m]).stamp() != t by {
        assert(s[m].stamp() < s[i].stamp());
    }
    assert forall|m: int| i + 1 <= m < s.len() implies (#[trigger] s[m]).stamp() != t by {
        assert(s[i].stamp() < s[m].stamp());
    }
    lemma_run_is_block(s, i, i + 1, t);
    assert(s.subrange(i, i + 1) =~= seq![s[i]]);
}

/// Blending a second time changes nothing, provided that the blend leaves
/// alone each value that the first blending made: that the blend of such a
/// value alone is that value.
pub proof fn lemma_average_idempotent<K: Keyframe, S, T, F>(
    s: Seq<K>,
    once: Seq<K>,
    twice: Seq<K>,
    blend: Blend<S, T, F>,
) where
    S: Fn(K::Value) -> K::Value,
    T: Fn(K::Value, K::Value, usize) -> K::Value,
    F: Fn(K::Value, usize) -> K::Value,

    requires
        averages(once, s, blend),
        averages(twice, once, blend),
        forall|i: int| 0 <= i < once.len() ==> blend.fixes((#[trigger] once[i]).payload()),
    ensures
        twice == once,
{
    assert forall|j: int| 0 <= j < once.len() implies occurs(once, (#[trigger] once[j]).stamp()) by {}
    lemma_same_stamps(twice, once);
    assert forall|i: int| 0 <= i < once.len() implies twice[i] == once[i] by {
        let t = once[i].stamp();
        assert(twice[i].stamp() == t);
        lemma_run_of_one(once, i);
        let run = payloads(run_at(once, t));
        assert(run =~= seq![once[i].payload()]);
        assert(blend.fixes(once[i].payload()));
        assert(blends(once, twice[i], blend));
        lemma_blend_of_one(blend, run, twice[i].payload());
        K::lemma_made(twice[i], t, once[i].payload());
        K::lemma_made(once[i], t, once[i].payload());
    }
    assert(twice =~= once);
}

/// `after` is the joint `before` with both channels reconciled by `strategy`;
/// name and priority are untouched.
pub open spec fn joint_reconciled<R: Copy, P: Copy, RS, RT, RF, PS, PT, PF>(
    after: JointData<R, P>,
    before: JointData<R, P>,
    strategy: DuplicateKeyStrategy,
    blend_rot: Blend<RS, RT, RF>,
    blend_pos: Blend<PS, PT, PF>,
) -> bool where
    RS: Fn(R) -> R,
    RT: Fn(R, R, usize) -> R,
    RF: Fn(R, usize) -> R,
    PS: Fn(P) -> P,
    PT: Fn(P, P, usize) -> P,
    PF: Fn(P, usize) -> P,
 {
    &&& after.name@ == before.name@
    &&& after.priority == before.priority
    &&& match strategy {
        DuplicateKeyStrategy::KeepFirst => {
            &&& keeps_first(after.rotation_keys@, before.rotation_keys@)
            &&& keeps_first(after.position_keys@, before.position_keys@)
        },
        DuplicateKeyStrategy::KeepLast => {
            &&& keeps_last(after.rotation_keys@, before.rotation_keys@)
            &&& keeps_last(after.position_keys@, before.position_keys@)
        },
        DuplicateKeyStrategy::Average => {
            &&& averages(after.rotation_keys@, before.rotation_keys@, blend_rot)
            &&& averages(after.position_keys@, before.position_keys@, blend_pos)
        },
    }
}

/// Both channels of the joint are sorted and show no timestamp twice.
pub open spec fn channels_reconciled<R: Copy, P: Copy>(joint: JointData<R, P>) -> bool {
    strictly_ascending(joint.rotation_keys@) && strictly_ascending(joint.position_keys@)
}

/// `after` is the joint `before` with, on both channels, the latest key of
/// each timestamp kept.
pub open spec fn joint_cleaned<R: Copy, P: Copy>(
    after: JointData<R, P>,
    before: JointData<R, P>,
) -> bool {
    &&& after.name@ == before.name@
    &&& after.priority == before.priority
    &&& keeps_last(after.rotation_keys@, before.rotation_keys@)
    &&& keeps_last(after.position_keys@, before.position_keys@)
}

/// The blends leave alone every value of the joint: the blend of such a
/// value alone is that value.
pub open spec fn blends_settled<R: Copy, P: Copy, RS, RT, RF, PS, PT, PF>(
    joint: JointData<R, P>,
    blend_rot: Blend<RS, RT, RF>,
    blend_pos: Blend<PS, PT, PF>,
) -> bool where
    RS: Fn(R) -> R,
    RT: Fn(R, R, usize) -> R,
    RF: Fn(R, usize) -> R,
    PS: Fn(P) -> P,
    PT: Fn(P, P, usize) -> P,
    PF: Fn(P, usize) -> P,
 {
    &&& forall|i: int|
        0 <= i < joint.rotation_keys@.len() ==> blend_rot.fixes(
            (#[trigger] joint.rotation_keys@[i]).rot,
        )
    &&& forall|i: int|
        0 <= i < joint.position_keys@.len() ==> blend_pos.fixes(
            (#[trigger] joint.position_keys@[i]).pos,
        )
}

/// Reconciling a joint a second time by the same strategy changes nothing:
/// the joint holds what it held after the first time. Under `Average` this
/// is so provided that the blends leave alone the values that the first time
/// made.
pub proof fn lemma_joint_reconciled_twice<R: Copy, P: Copy, RS, RT, RF, PS, PT, PF>(
    before: JointData<R, P>,
    once: JointData<R, P>,
    twice: JointData<R, P>,
    strategy: DuplicateKeyStrategy,
    blend_rot: Blend<RS, RT, RF>,
    blend_pos: Blend<PS, PT, PF>,
) where
    RS: Fn(R) -> R,
    RT: Fn(R, R, usize) -> R,
    RF: Fn(R, usize) -> R,
    PS: Fn(P) -> P,
    PT: Fn(P, P, usize) -> P,
    PF: Fn(P, usize) -> P,

    requires
        joint_reconciled(once, before, strategy, blend_rot, blend_pos),
        joint_reconciled(twice, once, strategy, blend_rot, blend_pos),
        strategy == DuplicateKeyStrategy::Average ==> blends_settled(once, blend_rot, blend_pos),
    ensures
        twice@ == once@,
{
    match strategy {
        DuplicateKeyStrategy::KeepFirst => {
            lemma_keep_first_idempotent(
                before.rotation_keys@,
                once.rotation_keys@,
                twice.rotation_keys@,
            );
            lemma_keep_first_idempotent(
                before.position_keys@,
                once.position_keys@,
                twice.position_keys@,
            );
        },
        DuplicateKeyStrategy::KeepLast => {
            lemma_keep_last_idempotent(
                before.rotation_keys@,
                once.rotation_keys@,
                twice.rotation_keys@,
            );
            lemma_keep_last_idempotent(
                before.position_keys@,
                once.position_keys@,
                twice.position_keys@,
            );
        },
        DuplicateKeyStrategy::Average => {
            assert forall|i: int| 0 <= i < once.rotation_keys@.len() implies blend_rot.fixes(
                (#[trigger] once.rotation_keys@[i]).payload(),
            ) by {
                assert(blend_rot.fixes(once.rotation_keys@[i].rot));
            }
            assert forall|i: int| 0 <= i < once.position_keys@.len() implies blend_pos.fixes(
                (#[trigger] once.position_keys@[i]).payload(),
            ) by {
                assert(blend_pos.fixes(once.position_keys@[i].pos));
            }
            lemma_average_idempotent(
                before.rotation_keys@,
                once.rotation_keys@,
                twice.rotation_keys@,
                blend_rot,
            );
            lemma_average_idempotent(
                before.position_keys@,
                once.position_keys@,
                twice.position_keys@,
                blend_pos,
            );
        },
    }
}

/// Reconciling the joints of an animation a second time by the same strategy
/// changes nothing: after two passes every joint holds what it held after
/// one. Under `Average` this is so provided that the blends leave alone the
/// values that the first pass made.
pub proof fn lemma_cleanup_twice<R: Copy, P: Copy, RS, RT, RF, PS, PT, PF>(
    before: Seq<JointData<R, P>>,
    once: Seq<JointData<R, P>>,
    twice: Seq<JointData<R, P>>,
    strategy: DuplicateKeyStrategy,
    blend_rot: Blend<RS, RT, RF>,
    blend_pos: Blend<PS, PT, PF>,
) where
    RS: Fn(R) -> R,
    RT: Fn(R, R, usize) -> R,
    RF: Fn(R, usize) -> R,
    PS: Fn(P) -> P,
    PT: Fn(P, P, usize) -> P,
    PF: Fn(P, usize) -> P,

    requires
        once.len() == before.len(),
        twice.len() == once.len(),
        forall|i: int|
            0 <= i < once.len() ==> joint_reconciled(
                #[trigger] once[i],
                before[i],
                strategy,
                blend_rot,
                blend_pos,
            ),
        forall|i: int|
            0 <= i < twice.len() ==> joint_reconciled(
                #[trigger] twice[i],
                once[i],
                strategy,
                blend_rot,
                blend_pos,
            ),
        strategy == DuplicateKeyStrategy::Average ==> forall|i: int|
            0 <= i < once.len() ==> blends_settled(#[trigger] once[i], blend_rot, blend_pos),
    ensures
        joint_views(twice) == joint_views(once),
{
    assert forall|i: int| 0 <= i < once.len() implies (#[trigger] twice[i])@ == once[i]@ by {
        lemma_joint_reconciled_twice(
            before[i],
            once[i],
            twice[i],
            strategy,
            blend_rot,
            blend_pos,
        );
    }
    assert(joint_views(twice) =~= joint_views(once));
}

/// Keeping the latest keys of the joints of an animation a second time
/// changes nothing.
pub proof fn lemma_cleanup_keys_twice<R: Copy, P: Copy>(
    before: Seq<JointData<R, P>>,
    once: Seq<JointData<R, P>>,
    twice: Seq<JointData<R, P>>,
)
    requires
        once.len() == before.len(),
        twice.len() == once.len(),
        forall|i: int| 0 <= i < once.len() ==> joint_cleaned(#[trigger] once[i], before[i]),
        forall|i: int| 0 <= i < twice.len() ==> joint_cleaned(#[trigger] twice[i], once[i]),
    ensures
        joint_views(twice) == joint_views(once),
{
    assert forall|i: int| 0 <= i < once.len() implies (#[trigger] twice[i])@ == once[i]@ by {
        assert(joint_cleaned(once[i], before[i]));
        assert(joint_cleaned(twice[i], once[i]));
        lemma_keep_last_idempotent(
            before[i].rotation_keys@,
            once[i].rotation_keys@,
            twice[i].rotation_keys@,
        );
        lemma_keep_last_idempotent(
            before[i].position_keys@,
            once[i].position_keys@,
            twice[i].position_keys@,
        );
    }
    assert(joint_views(twice) =~= joint_views(once));
}

impl<R: Copy, P: Copy> Animation<R, P> {
    /// Reconciles both channels of every joint, the latest key of each
    /// timestamp winning. Afterwards every channel is sorted and shows no
    /// timestamp twice.
    pub fn cleanup_keys(&mut self) -> (r: &mut Self)
        ensures
            *final(self) == *final(r),
            r.header == old(self).header,
            r.constraints == old(self).constraints,
            r.joints@.len() == old(self).joints@.len(),
            forall|i: int|
                0 <= i < r.joints@.len() ==> joint_cleaned(
                    #[trigger] r.joints@[i],
                    old(self).joints@[i],
                ),
            forall|i: int| 0 <= i < r.joints@.len() ==> channels_reconciled(#[trigger] r.joints@[i]),
    {
        let mut i: usize = 0;
        while i < self.joints.len()
            invariant
                self.header == old(self).header,
                self.constraints == old(self).constraints,
                self.joints@.len() == old(self).joints@.len(),
                i <= self.joints@.len(),
                forall|k: int|
                    0 <= k < i ==> joint_cleaned(#[trigger] self.joints@[k], old(self).joints@[k]),
                forall|k: int|
                    i <= k < self.joints@.len() ==> #[trigger] self.joints@[k] == old(self).joints@[k],
            decreases self.joints.len() - i,
        {
            let rot = keep_last(&self.joints[i].rotation_keys);
            let pos = keep_last(&self.joints[i].position_keys);
            self.joints[i].rotation_keys = rot;
            self.joints[i].position_keys = pos;
            i += 1;
        }
        self
    }

    /// Reconciles both channels of every joint by `strategy`. Afterwards
    /// every channel is sorted and shows no timestamp twice.
    ///
    /// The two blends are used under `Average` only.
    pub fn cleanup_keys_with<RS, RT, RF, PS, PT, PF>(
        &mut self,
        strategy: DuplicateKeyStrategy,
        blend_rot: &Blend<RS, RT, RF>,
        blend_pos: &Blend<PS, PT, PF>,
    ) -> (r: &mut Self) where
        RS: Fn(R) -> R,
        RT: Fn(R, R, usize) -> R,
        RF: Fn(R, usize) -> R,
        PS: Fn(P) -> P,
        PT: Fn(P, P, usize) -> P,
        PF: Fn(P, usize) -> P,

        requires
            strategy == DuplicateKeyStrategy::Average ==> blend_rot.total::<R>()
                && blend_pos.total::<P>(),
        ensures
            *final(self) == *final(r),
            r.header == old(self).header,
            r.constraints == old(self).constraints,
            r.joints@.len() == old(self).joints@.len(),
            forall|i: int|
                0 <= i < r.joints@.len() ==> joint_reconciled(
                    #[trigger] r.joints@[i],
                    old(self).joints@[i],
                    strategy,
                    *blend_rot,
                    *blend_pos,
                ),
            forall|i: int| 0 <= i < r.joints@.len() ==> channels_reconciled(#[trigger] r.joints@[i]),
    {
        let mut i: usize = 0;
        while i < self.joints.len()
            invariant
                strategy == DuplicateKeyStrategy::Average ==> blend_rot.total::<R>()
                    && blend_pos.total::<P>(),
                self.header == old(self).header,
                self.constraints == old(self).constraints,
                self.joints@.len() == old(self).joints@.len(),
                i <= self.joints@.len(),
                forall|k: int|
                    0 <= k < i ==> joint_reconciled(
                        #[trigger] self.joints@[k],
                        old(self).joints@[k],
                        strategy,
                        *blend_rot,
                        *blend_pos,
                    ),
                forall|k: int| 0 <= k < i ==> channels_reconciled(#[trigger] self.joints@[k]),
                forall|k: int|
                    i <= k < self.joints@.len() ==> #[trigger] self.joints@[k] == old(self).joints@[k],
            decreases self.joints.len() - i,
        {
            match strategy {
                DuplicateKeyStrategy::KeepFirst => {
                    let rot = keep_first(&self.joints[i].rotation_keys);
                    let pos = keep_first(&self.joints[i].position_keys);
                    self.joints[i].rotation_keys = rot;
                    self.joints[i].position_keys = pos;
                },
                DuplicateKeyStrategy::KeepLast => {
                    let rot = keep_last(&self.joints[i].rotation_keys);
                    let pos = keep_last(&self.joints[i].position_keys);
                    self.joints[i].rotation_keys = rot;
                    self.joints[i].position_keys = pos;
                },
                DuplicateKeyStrategy::Average => {
                    let rot = average(&self.joints[i].rotation_keys, blend_rot);
                    let pos = average(&self.joints[i].position_keys, blend_pos);
                    self.joints[i].rotation_keys = rot;
                    self.joints[i].position_keys = pos;
                },
            }
            i += 1;
        }
        self
    }
}

} // verus!
