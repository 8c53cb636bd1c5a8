use vstd::prelude::*;

verus! {

/// A chat message as the store keeps it.
#[derive(Clone, Debug, PartialEq, Eq)]
pub struct Message {
    pub id: usize,
    pub channel: usize,
    pub author: usize,
    pub timestamp: i64,
    pub timestamp_edit: Option<i64>,
    pub text: Vec<u8>,
}

/// A timeline is ordered by timestamp, never decreasing.
pub open spec fn sorted(t: Seq<Message>) -> bool {
    forall|i: int, j: int| 0 <= i <= j < t.len() ==> t[i].timestamp <= t[j].timestamp
}

/// `a` occupies the place that `m` updates: same id, same timestamp.
pub open spec fn same_slot(a: Message, m: Message) -> bool {
    a.id == m.id && a.timestamp == m.timestamp
}

pub open spec fn has_slot(t: Seq<Message>, m: Message) -> bool {
    exists|j: int| 0 <= j < t.len() && same_slot(t[j], m)
}

/// `j` is the earliest entry of `t` that `m` updates.
pub open spec fn is_first_slot(t: Seq<Message>, m: Message, j: int) -> bool {
    &&& 0 <= j < t.len()
    &&& same_slot(t[j], m)
    &&& forall|k: int| 0 <= k < j ==> !same_slot(t[k], m)
}

/// `i` is the place just after every entry stamped at or before `ts`.
pub open spec fn is_upper_bound(t: Seq<Message>, ts: i64, i: int) -> bool {
    &&& 0 <= i <= t.len()
    &&& forall|k: int| 0 <= k < i ==> t[k].timestamp <= ts
    &&& forall|k: int| i <= k < t.len() ==> t[k].timestamp > ts
}

/// The timeline after `m` arrives: it replaces the earliest entry with its
/// id among those with its timestamp, or else goes in after the run of
/// entries with its timestamp.
pub open spec fn upsert(t: Seq<Message>, m: Message) -> Seq<Message> {
    if has_slot(t, m) {
        t.update(choose|j: int| is_first_slot(t, m, j), m)
    } else {
        t.insert(choose|i: int| is_upper_bound(t, m.timestamp, i), m)
    }
}

pub open spec fn holds_id(t: Seq<Message>, id: usize) -> bool {
    exists|k: int| 0 <= k < t.len() && t[k].id == id
}

/// The channels of a store in the order they were first seen, each with its timeline.
pub type StoreView = Seq<(usize, Seq<Message>)>;

pub open spec fn contains_channel(v: StoreView, c: usize) -> bool {
    exists|i: int| 0 <= i < v.len() && v[i].0 == c
}

pub open spec fn position(v: StoreView, c: usize) -> int {
    choose|i: int| 0 <= i < v.len() && v[i].0 == c
}

/// The timeline of channel `c`, empty where the channel is unknown.
pub open spec fn timeline(v: StoreView, c: usize) -> Seq<Message> {
    if contains_channel(v, c) {
        v[position(v, c)].1
    } else {
        Seq::empty()
    }
}

pub open spec fn store_wf(v: StoreView) -> bool {
    &&& forall|i: int, j: int| 0 <= i < j < v.len() ==> v[i].0 != v[j].0
    &&& forall|i: int| 0 <= i < v.len() ==> #[trigger] sorted(v[i].1)
}

/// The store after `m` arrives.
pub open spec fn add_to(v: StoreView, m: Message) -> StoreView {
    if contains_channel(v, m.channel) {
        let i = position(v, m.channel);
        v.update(i, (m.channel, upsert(v[i].1, m)))
    } else {
        v.push((m.channel, seq![m]))
    }
}

/// Removing `id` from `v` gave `r` and `w`: the earliest entry with that id in
/// the earliest channel that holds one is gone and its channel is returned;
/// where no channel holds it, nothing changes.
pub open spec fn removed(v: StoreView, id: usize, r: Option<usize>, w: StoreView) -> bool {
    match r {
        None => (forall|i: int| 0 <= i < v.len() ==> !holds_id(#[trigger] v[i].1, id)) && w == v,
        Some(c) => exists|i: int, k: int|
            0 <= i < v.len() && 0 <= k < v[i].1.len() && v[i].0 == c && v[i].1[k].id == id
                && (forall|i2: int| 0 <= i2 < i ==> !holds_id(#[trigger] v[i2].1, id))
                && (forall|k2: int| 0 <= k2 < k ==> #[trigger] v[i].1[k2].id != id)
                && w == v.update(i, (c, v[i].1.remove(k))),
    }
}

pub proof fn lemma_first_slot_unique(t: Seq<Message>, m: Message, j: int)
    requires
        is_first_slot(t, m, j),
    ensures
        has_slot(t, m),
        (choose|j2: int| is_first_slot(t, m, j2)) == j,
{
    let j2 = choose|j2: int| is_first_slot(t, m, j2);
    assert(is_first_slot(t, m, j2));
    if j2 < j {
        assert(!same_slot(t[j2], m));
    } else if j < j2 {
        assert(!same_slot(t[j], m));
    }
}

pub proof fn lemma_upper_bound_unique(t: Seq<Message>, ts: i64, i: int)
    requires
        is_upper_bound(t, ts, i),
    ensures
        (choose|i2: int| is_upper_bound(t, ts, i2)) == i,
{
    let i2 = choose|i2: int| is_upper_bound(t, ts, i2);
    assert(is_upper_bound(t, ts, i2));
    if i2 < i {
        assert(t[i2].timestamp > ts);
    } else if i < i2 {
        assert(t[i].timestamp <= ts);
    }
}

/// Puts `m` into the sorted timeline `t`.
fn upsert_into(t: &mut Vec<Message>, m: Message)
    requires
        sorted(old(t)@),
    ensures
        final(t)@ == upsert(old(t)@, m),
{
    let ts = m.timestamp;
    let mut lo: usize = 0;
    let mut hi: usize = t.len();
    while lo < hi
        invariant
            0 <= lo <= hi <= t.len(),
            t@ == old(t)@,
            sorted(t@),
            ts == m.timestamp,
            forall|k: int| 0 <= k < lo ==> t@[k].timestamp < ts,
            forall|k: int| hi <= k < t.len() ==> t@[k].timestamp >= ts,
        decreases hi - lo,
    {
        let mid = lo + (hi - lo) / 2;
        if t[mid].timestamp < ts {
            lo = mid + 1;
        } else {
            hi = mid;
        }
    }
    let mut j: usize = lo;
    while j < t.len() && t[j].timestamp == ts
        invariant
            lo <= j <= t.len(),
            t@ == old(t)@,
            sorted(t@),
            ts == m.timestamp,
            forall|k: int| 0 <= k < lo ==> t@[k].timestamp < ts,
            forall|k: int| lo <= k < t.len() ==> t@[k].timestamp >= ts,
            forall|k: int| lo <= k < j ==> t@[k].timestamp == ts && t@[k].id != m.id,
        decreases t.len() - j,
    {
        if t[j].id == m.id {
            proof {
                assert forall|k: int| 0 <= k < j implies !same_slot(t@[k], m) by {
                    if k < lo {
                        assert(t@[k].timestamp < ts);
                    }
                }
                lemma_first_slot_unique(old(t)@, m, j as int);
            }
            t.set(j, m);
            return;
        }
        j = j + 1;
    }
    proof {
        assert(is_upper_bound(t@, ts, j as int)) by {
            assert forall|k: int| j <= k < t.len() implies t@[k].timestamp > ts by {
                assert(t@[j as int].timestamp <= t@[k].timestamp);
            }
        }
        lemma_upper_bound_unique(t@, ts, j as int);
        assert(!has_slot(t@, m));
    }
    t.insert(j, m);
}


proof fn lemma_first_slot_exists(t: Seq<Message>, m: Message, j: int)
    requires
        0 <= j < t.len(),
        same_slot(t[j], m),
    ensures
        exists|j2: int| is_first_slot(t, m, j2),
    decreases j,
{
    if exists|k: int| 0 <= k < j && same_slot(t[k], m) {
        let k = choose|k: int| 0 <= k < j && same_slot(t[k], m);
        lemma_first_slot_exists(t, m, k);
    } else {
        assert(is_first_slot(t, m, j));
    }
}

proof fn lemma_upper_bound_exists(t: Seq<Message>, ts: i64)
    requires
        sorted(t),
    ensures
        exists|i: int| is_upper_bound(t, ts, i),
    decreases t.len(),
{
    if t.len() == 0 {
        assert(is_upper_bound(t, ts, 0));
    } else if t.last().timestamp <= ts {
        assert(is_upper_bound(t, ts, t.len() as int));
    } else {
        let s = t.drop_last();
        assert(sorted(s));
        lemma_upper_bound_exists(s, ts);
        let i = choose|i: int| is_upper_bound(s, ts, i);
        assert(is_upper_bound(t, ts, i)) by {
            assert forall|k: int| 0 <= k < i implies t[k].timestamp <= ts by {
                assert(s[k] == t[k]);
            }
            assert forall|k: int| i <= k < t.len() implies t[k].timestamp > ts by {
                if k < s.len() {
                    assert(s[k] == t[k]);
                }
            }
        }
    }
}

/// A timeline stays ordered by timestamp whatever arrives. A message with a
/// new id takes a place after every earlier entry of its timestamp, and all
/// entries already there keep their relative order; a message that updates
/// an entry takes that entry's place.
pub proof fn lemma_upsert_keeps_order(t: Seq<Message>, m: Message)
    requires
        sorted(t),
    ensures
        sorted(upsert(t, m)),
        has_slot(t, m) ==> exists|j: int|
            is_first_slot(t, m, j) && upsert(t, m) == t.update(j, m),
        !has_slot(t, m) ==> exists|p: int|
            0 <= p <= t.len() && upsert(t, m) == t.insert(p, m) && upsert(t, m).remove(p) == t
                && (forall|k: int| 0 <= k < p ==> t[k].timestamp <= m.timestamp)
                && (forall|k: int| p <= k < t.len() ==> t[k].timestamp > m.timestamp),
{
    if has_slot(t, m) {
        let j0 = choose|j: int| 0 <= j < t.len() && same_slot(t[j], m);
        lemma_first_slot_exists(t, m, j0);
        let j = choose|j: int| is_first_slot(t, m, j);
        let u = t.update(j, m);
        assert(sorted(u)) by {
            assert forall|a: int, b: int| 0 <= a <= b < u.len() implies u[a].timestamp
                <= u[b].timestamp by {
                assert(t[a].timestamp <= t[b].timestamp);
                assert(t[a].timestamp <= t[j].timestamp || a > j);
                assert(t[j].timestamp <= t[b].timestamp || b < j);
            }
        }
    } else {
        lemma_upper_bound_exists(t, m.timestamp);
        let p = choose|i: int| is_upper_bound(t, m.timestamp, i);
        let u = t.insert(p, m);
        assert(u.remove(p) =~= t);
        assert(sorted(u)) by {
            assert forall|a: int, b: int| 0 <= a <= b < u.len() implies u[a].timestamp
                <= u[b].timestamp by {
                if a < p && b < p {
                    assert(t[a].timestamp <= t[b].timestamp);
                } else if a > p && b > p {
                    assert(t[a - 1].timestamp <= t[b - 1].timestamp);
                } else if a < p && b > p {
                    assert(t[a].timestamp <= t[b - 1].timestamp);
                }
            }
        }
    }
}

/// Delivering a message a second time, with the same id and timestamp and
/// possibly new content, leaves the timeline as if only the second delivery
/// had happened: one entry, holding the second content.
pub proof fn lemma_redelivery_is_one_update(t: Seq<Message>, m1: Message, m2: Message)
    requires
        sorted(t),
        m1.id == m2.id,
        m1.timestamp == m2.timestamp,
    ensures
        upsert(upsert(t, m1), m2) == upsert(t, m2),
{
    lemma_upsert_keeps_order(t, m1);
    let u = upsert(t, m1);
    if has_slot(t, m1) {
        let j = choose|j: int| is_first_slot(t, m1, j) && upsert(t, m1) == t.update(j, m1);
        assert(is_first_slot(t, m2, j));
        lemma_first_slot_unique(t, m2, j);
        assert(is_first_slot(u, m2, j));
        lemma_first_slot_unique(u, m2, j);
        assert(u.update(j, m2) =~= t.update(j, m2));
    } else {
        let p = choose|p: int|
            0 <= p <= t.len() && upsert(t, m1) == t.insert(p, m1) && upsert(t, m1).remove(p) == t
                && (forall|k: int| 0 <= k < p ==> t[k].timestamp <= m1.timestamp)
                && (forall|k: int| p <= k < t.len() ==> t[k].timestamp > m1.timestamp);
        assert(!has_slot(t, m2)) by {
            if has_slot(t, m2) {
                let j = choose|j: int| 0 <= j < t.len() && same_slot(t[j], m2);
                assert(same_slot(t[j], m1));
            }
        }
        assert(is_upper_bound(t, m2.timestamp, p));
        lemma_upper_bound_unique(t, m2.timestamp, p);
        assert forall|k: int| 0 <= k < p implies !same_slot(u[k], m2) by {
            assert(u[k] == t[k]);
            assert(!same_slot(t[k], m1));
        }
        assert(is_first_slot(u, m2, p));
        lemma_first_slot_unique(u, m2, p);
        assert(u.update(p, m2) =~= t.insert(p, m2));
    }
}


proof fn lemma_sorted_remove(t: Seq<Message>, k: int)
    requires
        sorted(t),
        0 <= k < t.len(),
    ensures
        sorted(t.remove(k)),
{
    let u = t.remove(k);
    assert forall|a: int, b: int| 0 <= a <= b < u.len() implies u[a].timestamp
        <= u[b].timestamp by {
        let a2 = if a < k { a } else { a + 1 };
        let b2 = if b < k { b } else { b + 1 };
        assert(u[a] == t[a2] && u[b] == t[b2]);
    }
}

/// The earliest entry of `t` with id `id`.
fn find_id(t: &Vec<Message>, id: usize) -> (r: Option<usize>)
    ensures
        r is None ==> !holds_id(t@, id),
        r matches Some(k) ==> k < t.len() && t@[k as int].id == id && forall|k2: int|
            0 <= k2 < k ==> #[trigger] t@[k2].id != id,
{
    let mut k: usize = 0;
    while k < t.len()
        invariant
            0 <= k <= t.len(),
            forall|k2: int| 0 <= k2 < k ==> #[trigger] t@[k2].id != id,
        decreases t.len() - k,
    {
        if t[k].id == id {
            return Some(k);
        }
        k = k + 1;
    }
    None
}

proof fn lemma_position(v: StoreView, c: usize, i: int)
    requires
        store_wf(v),
        0 <= i < v.len(),
        v[i].0 == c,
    ensures
        contains_channel(v, c),
        position(v, c) == i,
        timeline(v, c) == v[i].1,
{
    let p = position(v, c);
    assert(v[p].0 == c);
}

/// Removing an id that channel `c` holds, and no other channel, gives `c`
/// and leaves the timeline of every other channel as it was.
pub proof fn lemma_remove_present(v: StoreView, id: usize, c: usize, r: Option<usize>, w: StoreView)
    requires
        store_wf(v),
        holds_id(timeline(v, c), id),
        forall|c2: usize| c2 != c ==> !holds_id(#[trigger] timeline(v, c2), id),
        removed(v, id, r, w),
    ensures
        r == Some(c),
        forall|c2: usize| c2 != c ==> #[trigger] timeline(w, c2) == timeline(v, c2),
{
    assert(contains_channel(v, c));
    let p = position(v, c);
    match r {
        None => {
            assert(!holds_id(v[p].1, id));
        },
        Some(c1) => {
            let (i, k) = choose|i: int, k: int|
                0 <= i < v.len() && 0 <= k < v[i].1.len() && v[i].0 == c1 && v[i].1[k].id == id
                    && (forall|i2: int| 0 <= i2 < i ==> !holds_id(#[trigger] v[i2].1, id))
                    && (forall|k2: int| 0 <= k2 < k ==> #[trigger] v[i].1[k2].id != id)
                    && w == v.update(i, (c1, v[i].1.remove(k)));
            lemma_position(v, c1, i);
            assert(holds_id(timeline(v, c1), id));
            assert(c1 == c);
            assert forall|c2: usize| c2 != c implies #[trigger] timeline(w, c2) == timeline(v, c2) by {
                if contains_channel(v, c2) {
                    let q = position(v, c2);
                    lemma_position(v, c2, q);
                    assert(w[q] == v[q]);
                    assert(w[q].0 == c2);
                    let qw = position(w, c2);
                    assert(w[qw].0 == c2);
                    assert(v[qw].0 == w[qw].0);
                    assert(qw == q);
                } else {
                    assert(!contains_channel(w, c2)) by {
                        if contains_channel(w, c2) {
                            let qw = position(w, c2);
                            assert(v[qw].0 == w[qw].0);
                        }
                    }
                }
            }
        },
    }
}

/// Removing an id that no channel holds gives nothing and changes nothing.
pub proof fn lemma_remove_absent(v: StoreView, id: usize, r: Option<usize>, w: StoreView)
    requires
        store_wf(v),
        forall|c2: usize| !holds_id(#[trigger] timeline(v, c2), id),
        removed(v, id, r, w),
    ensures
        r is None,
        w == v,
{
    if let Some(c1) = r {
        let (i, k) = choose|i: int, k: int|
            0 <= i < v.len() && 0 <= k < v[i].1.len() && v[i].0 == c1 && v[i].1[k].id == id
                && (forall|i2: int| 0 <= i2 < i ==> !holds_id(#[trigger] v[i2].1, id))
                && (forall|k2: int| 0 <= k2 < k ==> #[trigger] v[i].1[k2].id != id)
                && w == v.update(i, (c1, v[i].1.remove(k)));
        lemma_position(v, c1, i);
        assert(holds_id(timeline(v, c1), id));
    }
}

proof fn lemma_add_keeps_wf(v: StoreView, m: Message)
    requires
        store_wf(v),
    ensures
        store_wf(add_to(v, m)),
{
    let w = add_to(v, m);
    if contains_channel(v, m.channel) {
        let i = position(v, m.channel);
        assert(sorted(v[i].1));
        lemma_upsert_keeps_order(v[i].1, m);
        assert forall|a: int, b: int| 0 <= a < b < w.len() implies w[a].0 != w[b].0 by {
            assert(w[a].0 == v[a].0 && w[b].0 == v[b].0);
        }
        assert forall|k: int| 0 <= k < w.len() implies #[trigger] sorted(w[k].1) by {
            if k != i {
                assert(w[k] == v[k]);
            }
        }
    } else {
        assert forall|a: int, b: int| 0 <= a < b < w.len() implies w[a].0 != w[b].0 by {
            if b == v.len() {
                assert(v[a].0 != m.channel);
            } else {
                assert(w[a] == v[a] && w[b] == v[b]);
            }
        }
        assert forall|k: int| 0 <= k < w.len() implies #[trigger] sorted(w[k].1) by {
            if k < v.len() {
                assert(w[k] == v[k]);
            } else {
                assert(w[k].1 == seq![m]);
            }
        }
    }
}

/// The store after the messages `ms` arrive, first to last.
pub open spec fn add_all(v: StoreView, ms: Seq<Message>) -> StoreView
    decreases ms.len(),
{
    if ms.len() == 0 {
        v
    } else {
        add_to(add_all(v, ms.drop_last()), ms.last())
    }
}

/// Whatever messages arrive, in whatever order, every timeline stays ordered
/// by timestamp and no channel has two timelines.
pub proof fn lemma_insertions_keep_order(v: StoreView, ms: Seq<Message>)
    requires
        store_wf(v),
    ensures
        store_wf(add_all(v, ms)),
    decreases ms.len(),
{
    if ms.len() > 0 {
        lemma_insertions_keep_order(v, ms.drop_last());
        lemma_add_keeps_wf(add_all(v, ms.drop_last()), ms.last());
    }
}

/// What a timeline keeps of two ids `a` and `b` that always arrive with
/// timestamp `ts`: each appears at most once, with that timestamp; `b` is
/// absent until `a` has been seen, and after that `a` is present and
/// precedes `b`.
pub open spec fn tie_order(t: Seq<Message>, a: usize, b: usize, ts: i64, seen: bool) -> bool {
    &&& forall|i: int| 0 <= i < t.len() && (t[i].id == a || t[i].id == b) ==> t[i].timestamp == ts
    &&& forall|i: int, j: int|
        0 <= i < t.len() && 0 <= j < t.len() && t[i].id == t[j].id && (t[i].id == a || t[i].id == b)
            ==> i == j
    &&& !seen ==> forall|i: int| 0 <= i < t.len() ==> t[i].id != b
    &&& seen ==> exists|i: int| 0 <= i < t.len() && t[i].id == a
    &&& seen ==> forall|i: int, j: int|
        0 <= i < t.len() && 0 <= j < t.len() && t[i].id == a && t[j].id == b ==> i < j
}

proof fn lemma_tie_step_update(t: Seq<Message>, m: Message, j: int, a: usize, b: usize, ts: i64, seen: bool)
    requires
        is_first_slot(t, m, j),
        tie_order(t, a, b, ts, seen),
    ensures
        tie_order(t.update(j, m), a, b, ts, seen || m.id == a),
{
    let u = t.update(j, m);
    assert forall|i: int| 0 <= i < u.len() implies u[i].id == t[i].id && u[i].timestamp
        == t[i].timestamp by {
        if i != j {
            assert(u[i] == t[i]);
        }
    }
    if seen || m.id == a {
        assert(exists|i: int| 0 <= i < u.len() && u[i].id == a) by {
            if m.id == a {
                assert(u[j].id == a);
            } else {
                let i = choose|i: int| 0 <= i < t.len() && t[i].id == a;
                assert(u[i].id == a);
            }
        }
    }
}

proof fn lemma_tie_step_insert(t: Seq<Message>, m: Message, p: int, a: usize, b: usize, ts: i64, seen: bool)
    requires
        a != b,
        0 <= p <= t.len(),
        forall|k: int| 0 <= k < p ==> t[k].timestamp <= m.timestamp,
        forall|k: int| p <= k < t.len() ==> t[k].timestamp > m.timestamp,
        !has_slot(t, m),
        tie_order(t, a, b, ts, seen),
        (m.id == a || m.id == b) ==> m.timestamp == ts,
        !seen ==> m.id != b,
    ensures
        tie_order(t.insert(p, m), a, b, ts, seen || m.id == a),
{
    let u = t.insert(p, m);
    assert forall|x: int| 0 <= x < p implies #[trigger] u[x] == t[x] by {}
    assert forall|x: int| p < x < u.len() implies #[trigger] u[x] == t[x - 1] by {}
    assert(u[p] == m);
    assert forall|i: int| 0 <= i < t.len() && (m.id == a || m.id == b) implies t[i].id != m.id by {
        if t[i].id == m.id {
            assert(same_slot(t[i], m));
        }
    }
    if m.id == a && seen {
        let i = choose|i: int| 0 <= i < t.len() && t[i].id == a;
        assert(t[i].id != m.id);
    }
    if m.id == b {
        assert forall|i: int| 0 <= i < t.len() && t[i].id == a implies i < p by {
            if i >= p {
                assert(t[i].timestamp > m.timestamp);
            }
        }
    }
    assert forall|i: int, j: int|
        0 <= i < u.len() && 0 <= j < u.len() && u[i].id == u[j].id && (u[i].id == a || u[i].id == b)
            implies i == j by {
        let fi = if i < p { i } else { i - 1 };
        let fj = if j < p { j } else { j - 1 };
        if i != p && j != p {
            assert(u[i] == t[fi] && u[j] == t[fj]);
        } else if i == p && j != p {
            assert(u[j] == t[fj]);
        } else if j == p && i != p {
            assert(u[i] == t[fi]);
        }
    }
    assert forall|i: int| 0 <= i < u.len() && (u[i].id == a || u[i].id == b) implies u[i].timestamp
        == ts by {
        let fi = if i < p { i } else { i - 1 };
        if i != p {
            assert(u[i] == t[fi]);
        }
    }
    if !(seen || m.id == a) {
        assert forall|i: int| 0 <= i < u.len() implies u[i].id != b by {
            let fi = if i < p { i } else { i - 1 };
            if i != p {
                assert(u[i] == t[fi]);
            }
        }
    }
    if seen || m.id == a {
        assert(exists|i: int| 0 <= i < u.len() && u[i].id == a) by {
            if m.id == a {
                assert(u[p].id == a);
            } else {
                let i = choose|i: int| 0 <= i < t.len() && t[i].id == a;
                if i < p {
                    assert(u[i] == t[i]);
                } else {
                    assert(u[i + 1] == t[i]);
                }
            }
        }
        assert forall|i: int, j: int|
            0 <= i < u.len() && 0 <= j < u.len() && u[i].id == a && u[j].id == b implies i < j by {
            let fi = if i < p { i } else { i - 1 };
            let fj = if j < p { j } else { j - 1 };
            if m.id == a {
                if j != p {
                    assert(u[j] == t[fj]);
                }
            } else if i == p {
            } else if j == p {
                assert(u[i] == t[fi]);
            } else {
                assert(u[i] == t[fi] && u[j] == t[fj]);
            }
        }
    }
}

proof fn lemma_tie_order_step(t: Seq<Message>, m: Message, a: usize, b: usize, ts: i64, seen: bool)
    requires
        a != b,
        sorted(t),
        tie_order(t, a, b, ts, seen),
        (m.id == a || m.id == b) ==> m.timestamp == ts,
        !seen ==> m.id != b,
    ensures
        tie_order(upsert(t, m), a, b, ts, seen || m.id == a),
{
    lemma_upsert_keeps_order(t, m);
    if has_slot(t, m) {
        let j = choose|j: int| is_first_slot(t, m, j) && upsert(t, m) == t.update(j, m);
        lemma_tie_step_update(t, m, j, a, b, ts, seen);
    } else {
        let p = choose|p: int|
            0 <= p <= t.len() && upsert(t, m) == t.insert(p, m) && upsert(t, m).remove(p) == t
                && (forall|k: int| 0 <= k < p ==> t[k].timestamp <= m.timestamp)
                && (forall|k: int| p <= k < t.len() ==> t[k].timestamp > m.timestamp);
        lemma_tie_step_insert(t, m, p, a, b, ts, seen);
    }
}

proof fn lemma_timeline_sorted(v: StoreView, c: usize)
    requires
        store_wf(v),
    ensures
        sorted(timeline(v, c)),
{
    if contains_channel(v, c) {
        assert(sorted(v[position(v, c)].1));
    }
}

proof fn lemma_timeline_add(v: StoreView, m: Message, c: usize)
    requires
        store_wf(v),
    ensures
        timeline(add_to(v, m), c) == if m.channel == c {
            upsert(timeline(v, c), m)
        } else {
            timeline(v, c)
        },
{
    lemma_add_keeps_wf(v, m);
    let w = add_to(v, m);
    if contains_channel(v, m.channel) {
        let i = position(v, m.channel);
        lemma_position(v, m.channel, i);
        lemma_position(w, m.channel, i);
        if m.channel != c {
            if contains_channel(v, c) {
                let q = position(v, c);
                lemma_position(v, c, q);
                lemma_position(w, c, q);
            } else {
                assert(!contains_channel(w, c)) by {
                    if contains_channel(w, c) {
                        let q = position(w, c);
                        assert(v[q].0 == w[q].0);
                    }
                }
            }
        }
    } else {
        let i = v.len() as int;
        lemma_position(w, m.channel, i);
        if m.channel != c {
            if contains_channel(v, c) {
                let q = position(v, c);
                lemma_position(v, c, q);
                lemma_position(w, c, q);
            } else {
                assert(!contains_channel(w, c)) by {
                    if contains_channel(w, c) {
                        let q = position(w, c);
                        assert(q < v.len());
                        assert(v[q].0 == w[q].0);
                    }
                }
            }
        } else {
            assert(timeline(v, c) == Seq::<Message>::empty());
            lemma_upper_bound_unique(Seq::<Message>::empty(), m.timestamp, 0);
            assert(!has_slot(Seq::<Message>::empty(), m));
            assert(Seq::<Message>::empty().insert(0, m) =~= seq![m]);
        }
    }
}

/// Some message of `ms` carries id `a` in channel `c`.
pub open spec fn seen_in(ms: Seq<Message>, c: usize, a: usize) -> bool {
    exists|k: int| 0 <= k < ms.len() && ms[k].channel == c && ms[k].id == a
}

proof fn lemma_tie_prefix(ms: Seq<Message>, c: usize, a: usize, b: usize, ts: i64)
    requires
        a != b,
        forall|k: int|
            0 <= k < ms.len() && ms[k].channel == c && (ms[k].id == a || ms[k].id == b)
                ==> ms[k].timestamp == ts,
        forall|k: int|
            0 <= k < ms.len() && ms[k].channel == c && ms[k].id == b ==> seen_in(ms.take(k), c, a),
    ensures
        tie_order(timeline(add_all(StoreView::empty(), ms), c), a, b, ts, seen_in(ms, c, a)),
        store_wf(add_all(StoreView::empty(), ms)),
    decreases ms.len(),
{
    let e = StoreView::empty();
    if ms.len() == 0 {
        assert(!contains_channel(e, c));
    } else {
        let init = ms.drop_last();
        let m = ms.last();
        let k0 = ms.len() - 1;
        assert forall|k: int| 0 <= k < init.len() implies init[k] == ms[k] && init.take(k)
            =~= ms.take(k) by {}
        lemma_tie_prefix(init, c, a, b, ts);
        let v = add_all(e, init);
        lemma_add_keeps_wf(v, m);
        lemma_timeline_add(v, m, c);
        assert(ms.take(k0) =~= init);
        assert(seen_in(ms, c, a) == (seen_in(init, c, a) || (m.channel == c && m.id == a))) by {
            if seen_in(ms, c, a) && !seen_in(init, c, a) {
                let k = choose|k: int| 0 <= k < ms.len() && ms[k].channel == c && ms[k].id == a;
                if k < init.len() {
                    assert(init[k] == ms[k]);
                }
            }
            if seen_in(init, c, a) {
                let k = choose|k: int| 0 <= k < init.len() && init[k].channel == c && init[k].id == a;
                assert(ms[k] == init[k]);
            }
        }
        if m.channel == c {
            lemma_timeline_sorted(v, c);
            lemma_tie_order_step(timeline(v, c), m, a, b, ts, seen_in(init, c, a));
        }
    }
}

/// Among messages of one channel with equal timestamps, the order of first
/// arrival is kept: where ids `a` and `b` always arrive with the same
/// timestamp, and `b` never arrives before `a` first has, then after any
/// sequence of arrivals `a` stands before `b` in the timeline, each at most
/// once.
pub proof fn lemma_ties_keep_first_arrival(ms: Seq<Message>, c: usize, a: usize, b: usize, ts: i64)
    requires
        a != b,
        forall|k: int|
            0 <= k < ms.len() && ms[k].channel == c && (ms[k].id == a || ms[k].id == b)
                ==> ms[k].timestamp == ts,
        forall|k: int|
            0 <= k < ms.len() && ms[k].channel == c && ms[k].id == b ==> seen_in(ms.take(k), c, a),
    ensures
        forall|i: int, j: int|
            0 <= i < timeline(add_all(StoreView::empty(), ms), c).len() && 0 <= j < timeline(
                add_all(StoreView::empty(), ms),
                c,
            ).len() && timeline(add_all(StoreView::empty(), ms), c)[i].id == a && timeline(
                add_all(StoreView::empty(), ms),
                c,
            )[j].id == b ==> i < j,
{
    lemma_tie_prefix(ms, c, a, b, ts);
}

/// Timelines by channel, with no invariant of their own.
struct Store {
    channels: Vec<usize>,
    timelines: Vec<Vec<Message>>,
}

impl View for Store {
    type V = StoreView;

    closed spec fn view(&self) -> StoreView {
        Seq::new(self.channels@.len(), |i: int| (self.channels@[i], self.timelines@[i]@))
    }
}

impl Store {
    spec fn wf(&self) -> bool {
        &&& self.channels.len() == self.timelines.len()
        &&& store_wf(self@)
    }

    fn new() -> (r: Self)
        ensures
            r.wf(),
            r@ == Seq::<(usize, Seq<Message>)>::empty(),
    {
        let r = Store { channels: Vec::new(), timelines: Vec::new() };
        assert(r@ =~= Seq::<(usize, Seq<Message>)>::empty());
        r
    }

    fn find_channel(&self, c: usize) -> (r: Option<usize>)
        requires
            self.wf(),
        ensures
            r is None ==> !contains_channel(self@, c),
            r matches Some(i) ==> i < self@.len() && position(self@, c) == i && self@[i as int].0
                == c,
    {
        let mut i: usize = 0;
        while i < self.channels.len()
            invariant
                0 <= i <= self.channels.len(),
                self.wf(),
                forall|k: int| 0 <= k < i ==> self.channels@[k] != c,
            decreases self.channels.len() - i,
        {
            if self.channels[i] == c {
                proof {
                    let p = position(self@, c);
                    assert(self@[i as int].0 == c);
                    assert(p == i);
                }
                return Some(i);
            }
            i = i + 1;
        }
        proof {
            assert forall|k: int| 0 <= k < self@.len() implies self@[k].0 != c by {
                assert(self@[k].0 == self.channels@[k]);
            }
        }
        None
    }

    /// Puts `msg` into its channel's timeline, replacing the entry it updates.
    fn add(&mut self, msg: Message)
        requires
            old(self).wf(),
        ensures
            final(self).wf(),
            final(self)@ == add_to(old(self)@, msg),
    {
        let c = msg.channel;
        match self.find_channel(c) {
            Some(i) => {
                let ghost t0 = self.timelines@[i as int]@;
                proof {
                    assert(sorted(self@[i as int].1));
                    lemma_upsert_keeps_order(t0, msg);
                }
                upsert_into(&mut self.timelines[i], msg);
                proof {
                    assert(self@ =~= add_to(old(self)@, msg));
                    assert forall|k: int| 0 <= k < self@.len() implies #[trigger] sorted(
                        self@[k].1,
                    ) by {
                        if k != i {
                            assert(self@[k] == old(self)@[k]);
                        }
                    }
                }
            },
            None => {
                let ghost v0 = self@;
                let mut t: Vec<Message> = Vec::new();
                t.push(msg);
                assert(t@ =~= seq![msg]);
                self.channels.push(c);
                self.timelines.push(t);
                proof {
                    assert(self@ =~= v0.push((c, seq![msg])));
                    assert(sorted(seq![msg]));
                }
            },
        }
    }

    /// Takes the message with id `id` out of the store and gives its channel.
    fn remove(&mut self, id: usize) -> (r: Option<usize>)
        requires
            old(self).wf(),
        ensures
            final(self).wf(),
            removed(old(self)@, id, r, final(self)@),
    {
        let mut i: usize = 0;
        while i < self.channels.len()
            invariant
                0 <= i <= self.channels.len(),
                self.wf(),
                self@ == old(self)@,
                forall|i2: int| 0 <= i2 < i ==> !holds_id(#[trigger] self@[i2].1, id),
            decreases self.channels.len() - i,
        {
            match find_id(&self.timelines[i], id) {
                Some(k) => {
                    let ghost v0 = self@;
                    let c = self.channels[i];
                    let ghost t0 = self.timelines@[i as int]@;
                    proof {
                        assert(sorted(v0[i as int].1));
                        lemma_sorted_remove(t0, k as int);
                    }
                    let _gone = self.timelines[i].remove(k);
                    proof {
                        assert(self@ =~= v0.update(i as int, (c, t0.remove(k as int))));
                        assert forall|k2: int| 0 <= k2 < self@.len() implies #[trigger] sorted(
                            self@[k2].1,
                        ) by {
                            if k2 != i {
                                assert(self@[k2] == v0[k2]);
                            }
                        }
                        assert(v0[i as int].1[k as int].id == id);
                    }
                    return Some(c);
                },
                None => {},
            }
            i = i + 1;
        }
        None
    }

    /// The timeline of `channel`, empty where no message of it was ever stored.
    fn get(&self, channel: usize) -> (r: &[Message])
        requires
            self.wf(),
        ensures
            r@ == timeline(self@, channel),
    {
        match self.find_channel(channel) {
            Some(i) => self.timelines[i].as_slice(),
            None => &[],
        }
    }

    /// Whether a timeline exists for `channel`, empty or not.
    fn has(&self, channel: usize) -> (r: bool)
        requires
            self.wf(),
        ensures
            r == contains_channel(self@, channel),
    {
        self.find_channel(channel).is_some()
    }
}

/// Per-channel message timelines of one server.
pub struct Messages {
    store: Store,
}

impl View for Messages {
    type V = StoreView;

    closed spec fn view(&self) -> StoreView {
        self.store@
    }
}

impl Messages {
    #[verifier::type_invariant]
    spec fn inv(&self) -> bool {
        self.store.wf()
    }

    /// The store of no channel and no message.
    pub fn new() -> (r: Self)
        ensures
            r@ == StoreView::empty(),
    {
        Messages { store: Store::new() }
    }

    /// Puts `msg` into its channel's timeline, replacing the entry it updates.
    pub fn add(&mut self, msg: Message)
        ensures
            final(self)@ == add_to(old(self)@, msg),
            store_wf(final(self)@),
    {
        proof {
            use_type_invariant(&*self);
        }
        let mut s = Store::new();
        std::mem::swap(&mut s, &mut self.store);
        s.add(msg);
        self.store = s;
    }

    /// Takes the message with id `id` out of the store and gives its channel.
    pub fn remove(&mut self, id: usize) -> (r: Option<usize>)
        ensures
            removed(old(self)@, id, r, final(self)@),
            store_wf(final(self)@),
    {
        proof {
            use_type_invariant(&*self);
        }
        let mut s = Store::new();
        std::mem::swap(&mut s, &mut self.store);
        let r = s.remove(id);
        self.store = s;
        r
    }

    /// The timeline of `channel`, empty where no message of it was ever stored.
    pub fn get(&self, channel: usize) -> (r: &[Message])
        ensures
            r@ == timeline(self@, channel),
            store_wf(self@),
    {
        proof {
            use_type_invariant(self);
        }
        self.store.get(channel)
    }

    /// Whether a timeline exists for `channel`, empty or not.
    pub fn has(&self, channel: usize) -> (r: bool)
        ensures
            r == contains_channel(self@, channel),
            store_wf(self@),
    {
        proof {
            use_type_invariant(self);
        }
        self.store.has(channel)
    }
}

} // verus!
