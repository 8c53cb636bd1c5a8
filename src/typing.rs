use vstd::prelude::*;

verus! {

/// Seconds for which a typing notification stays live.
pub const TYPING_TIMEOUT: u64 = 10;

/// A notification sent at `since` is still live at `now`.
pub open spec fn live(since: u64, now: u64) -> bool {
    (now as int) - (since as int) < TYPING_TIMEOUT as int
}

/// Entries `(user, channel, since)`, in the order the users first typed.
pub type TypingView = Seq<(usize, usize, u64)>;

pub open spec fn typing_wf(v: TypingView) -> bool {
    forall|i: int, j: int| 0 <= i < j < v.len() ==> v[i].0 != v[j].0
}

pub open spec fn has_user(v: TypingView, u: usize) -> bool {
    exists|i: int| 0 <= i < v.len() && v[i].0 == u
}

pub open spec fn user_position(v: TypingView, u: usize) -> int {
    choose|i: int| 0 <= i < v.len() && v[i].0 == u
}

/// The entries after `u` is seen typing in `c` at `now`.
pub open spec fn insert_typing(v: TypingView, u: usize, c: usize, now: u64) -> TypingView {
    if has_user(v, u) {
        v.update(user_position(v, u), (u, c, now))
    } else {
        v.push((u, c, now))
    }
}

/// `u` has a live entry in `channel` at `now`.
pub open spec fn is_typing(v: TypingView, u: usize, channel: Option<usize>, now: u64) -> bool {
    exists|i: int| 0 <= i < v.len() && v[i].0 == u && channel == Some(v[i].1) && live(v[i].2, now)
}

/// The users with a live entry in `channel` at `now`, in entry order.
pub open spec fn live_users(v: TypingView, channel: Option<usize>, now: u64) -> Seq<usize>
    decreases v.len(),
{
    if v.len() == 0 {
        Seq::empty()
    } else {
        let rest = live_users(v.drop_last(), channel, now);
        if channel == Some(v.last().1) && live(v.last().2, now) {
            rest.push(v.last().0)
        } else {
            rest
        }
    }
}

proof fn lemma_live_users_contains(v: TypingView, channel: Option<usize>, now: u64, u: usize)
    ensures
        live_users(v, channel, now).contains(u) <==> is_typing(v, u, channel, now),
    decreases v.len(),
{
    if v.len() > 0 {
        let s = v.drop_last();
        lemma_live_users_contains(s, channel, now, u);
        if is_typing(s, u, channel, now) {
            let i = choose|i: int|
                0 <= i < s.len() && s[i].0 == u && channel == Some(s[i].1) && live(s[i].2, now);
            assert(v[i] == s[i]);
        }
        if is_typing(v, u, channel, now) {
            let i = choose|i: int|
                0 <= i < v.len() && v[i].0 == u && channel == Some(v[i].1) && live(v[i].2, now);
            if i < s.len() {
                assert(v[i] == s[i]);
            }
        }
        let rest = live_users(s, channel, now);
        if channel == Some(v.last().1) && live(v.last().2, now) {
            assert(rest.push(v.last().0).last() == v.last().0);
            if rest.push(v.last().0).contains(u) {
                let k = choose|k: int| 0 <= k < rest.len() + 1 && rest.push(v.last().0)[k] == u;
                if k < rest.len() {
                    assert(rest[k] == u);
                }
            }
            if rest.contains(u) {
                let k = choose|k: int| 0 <= k < rest.len() && rest[k] == u;
                assert(rest.push(v.last().0)[k] == u);
            }
        }
    }
}

/// After `u` is seen typing in `c` at `t0`, a check of `c` at a time `t` from
/// `t0` on names `u` exactly while `t` is within the timeout of `t0`: the
/// entry expires without being removed.
pub proof fn lemma_typing_until_timeout(v: TypingView, u: usize, c: usize, t0: u64, t: u64)
    requires
        typing_wf(v),
        t0 <= t,
    ensures
        live_users(insert_typing(v, u, c, t0), Some(c), t).contains(u) <==> t < t0
            + TYPING_TIMEOUT,
{
    let w = insert_typing(v, u, c, t0);
    lemma_live_users_contains(w, Some(c), t, u);
    let p = if has_user(v, u) {
        user_position(v, u)
    } else {
        v.len() as int
    };
    assert(w[p] == (u, c, t0));
    if is_typing(w, u, Some(c), t) {
        let i = choose|i: int|
            0 <= i < w.len() && w[i].0 == u && Some(c) == Some(w[i].1) && live(w[i].2, t);
        if i != p {
            assert(w[i] == v[i]);
            if has_user(v, u) {
                assert(v[p].0 == u);
            }
        }
    }
}

/// A directory of display names as plain values.
pub open spec fn directory(dir: Seq<(usize, String)>) -> Seq<(usize, Seq<char>)> {
    dir.map_values(|e: (usize, String)| (e.0, e.1@))
}

/// The display name of `u`: the last directory entry with that id.
pub open spec fn name_in(dir: Seq<(usize, Seq<char>)>, u: usize) -> Option<Seq<char>>
    decreases dir.len(),
{
    if dir.len() == 0 {
        None
    } else if dir.last().0 == u {
        Some(dir.last().1)
    } else {
        name_in(dir.drop_last(), u)
    }
}

/// The names of `users`, in order, leaving out users the directory lacks.
pub open spec fn names_of(users: Seq<usize>, dir: Seq<(usize, Seq<char>)>) -> Seq<Seq<char>>
    decreases users.len(),
{
    if users.len() == 0 {
        Seq::empty()
    } else {
        let rest = names_of(users.drop_last(), dir);
        match name_in(dir, users.last()) {
            Some(n) => rest.push(n),
            None => rest,
        }
    }
}

/// The names separated by commas.
pub open spec fn comma_list(ns: Seq<Seq<char>>) -> Seq<char>
    decreases ns.len(),
{
    if ns.len() == 0 {
        Seq::empty()
    } else if ns.len() == 1 {
        ns[0]
    } else {
        comma_list(ns.drop_last()) + ", "@ + ns.last()
    }
}

/// "A is typing…", "A and B are typing…", "A, B and C are typing…"; nothing
/// for no names.
pub open spec fn typing_summary(ns: Seq<Seq<char>>) -> Option<Seq<char>> {
    if ns.len() == 0 {
        None
    } else if ns.len() == 1 {
        Some(ns[0] + " is typing…"@)
    } else {
        Some(comma_list(ns.drop_last()) + " and "@ + ns.last() + " are typing…"@)
    }
}

/// `text` holds `n` somewhere.
pub open spec fn mentions(text: Seq<char>, n: Seq<char>) -> bool {
    exists|i: int| 0 <= i && i + n.len() <= text.len() && #[trigger] text.subrange(i, i + n.len()) == n
}

proof fn lemma_mentions_concat(a: Seq<char>, b: Seq<char>, n: Seq<char>)
    ensures
        mentions(a, n) ==> mentions(a + b, n),
        mentions(b, n) ==> mentions(a + b, n),
{
    if mentions(a, n) {
        let i = choose|i: int|
            0 <= i && i + n.len() <= a.len() && #[trigger] a.subrange(i, i + n.len()) == n;
        assert((a + b).subrange(i, i + n.len()) =~= a.subrange(i, i + n.len()));
    }
    if mentions(b, n) {
        let i = choose|i: int|
            0 <= i && i + n.len() <= b.len() && #[trigger] b.subrange(i, i + n.len()) == n;
        let k = a.len() + i;
        assert((a + b).subrange(k, k + n.len()) =~= b.subrange(i, i + n.len()));
    }
}

proof fn lemma_mentions_self(n: Seq<char>)
    ensures
        mentions(n, n),
{
    let z: int = 0;
    assert(n.subrange(z, z + n.len()) =~= n);
}

proof fn lemma_comma_list_mentions(ns: Seq<Seq<char>>, j: int)
    requires
        0 <= j < ns.len(),
    ensures
        mentions(comma_list(ns), ns[j]),
    decreases ns.len(),
{
    if ns.len() == 1 {
        lemma_mentions_self(ns[0]);
    } else {
        let init = ns.drop_last();
        if j == ns.len() - 1 {
            lemma_mentions_self(ns.last());
            lemma_mentions_concat(comma_list(init) + ", "@, ns.last(), ns[j]);
        } else {
            lemma_comma_list_mentions(init, j);
            assert(init[j] == ns[j]);
            lemma_mentions_concat(comma_list(init), ", "@, ns[j]);
            lemma_mentions_concat(comma_list(init) + ", "@, ns.last(), ns[j]);
        }
    }
}

proof fn lemma_summary_mentions(ns: Seq<Seq<char>>, j: int)
    requires
        0 <= j < ns.len(),
    ensures
        typing_summary(ns) matches Some(text) && mentions(text, ns[j]),
{
    if ns.len() == 1 {
        lemma_mentions_self(ns[0]);
        lemma_mentions_concat(ns[0], " is typing…"@, ns[0]);
    } else {
        let init = ns.drop_last();
        let a = comma_list(init) + " and "@;
        if j == ns.len() - 1 {
            lemma_mentions_self(ns.last());
            lemma_mentions_concat(a, ns.last(), ns[j]);
        } else {
            lemma_comma_list_mentions(init, j);
            assert(init[j] == ns[j]);
            lemma_mentions_concat(comma_list(init), " and "@, ns[j]);
            lemma_mentions_concat(a, ns.last(), ns[j]);
        }
        lemma_mentions_concat(a + ns.last(), " are typing…"@, ns[j]);
    }
}

proof fn lemma_names_of_contains(users: Seq<usize>, dir: Seq<(usize, Seq<char>)>, u: usize, n: Seq<char>)
    requires
        users.contains(u),
        name_in(dir, u) == Some(n),
    ensures
        names_of(users, dir).contains(n),
    decreases users.len(),
{
    let init = users.drop_last();
    let rest = names_of(init, dir);
    if users.last() == u {
        assert(rest.push(n)[rest.len() as int] == n);
    } else {
        let k = choose|k: int| 0 <= k < users.len() && users[k] == u;
        assert(init[k] == u);
        lemma_names_of_contains(init, dir, u, n);
        let m = choose|m: int| 0 <= m < rest.len() && rest[m] == n;
        match name_in(dir, users.last()) {
            Some(x) => {
                assert(rest.push(x)[m] == n);
            },
            None => {},
        }
    }
}

/// After `u`, whose display name in `dir` is `n`, is seen typing in `c` at
/// `t0`, the summary for `c` at any time `t` within the timeout of `t0`
/// exists and names `n`.
pub proof fn lemma_summary_names_typist(
    v: TypingView,
    u: usize,
    c: usize,
    t0: u64,
    t: u64,
    dir: Seq<(usize, Seq<char>)>,
    n: Seq<char>,
)
    requires
        typing_wf(v),
        t0 <= t,
        t < t0 + TYPING_TIMEOUT,
        name_in(dir, u) == Some(n),
    ensures
        typing_summary(names_of(live_users(insert_typing(v, u, c, t0), Some(c), t), dir)) matches Some(
            text,
        ) && mentions(text, n),
{
    lemma_typing_until_timeout(v, u, c, t0, t);
    let users = live_users(insert_typing(v, u, c, t0), Some(c), t);
    lemma_names_of_contains(users, dir, u, n);
    let ns = names_of(users, dir);
    let j = choose|j: int| 0 <= j < ns.len() && ns[j] == n;
    lemma_summary_mentions(ns, j);
}

fn lookup_name(dir: &Vec<(usize, String)>, u: usize) -> (r: Option<&String>)
    ensures
        r is None ==> name_in(directory(dir@), u) is None,
        r matches Some(n) ==> name_in(directory(dir@), u) == Some(n@),
{
    let ghost d = directory(dir@);
    let mut i: usize = dir.len();
    assert(d.take(i as int) =~= d);
    while i > 0
        invariant
            0 <= i <= dir.len(),
            d == directory(dir@),
            name_in(d, u) == name_in(d.take(i as int), u),
        decreases i,
    {
        i = i - 1;
        assert(d.take(i + 1).drop_last() =~= d.take(i as int));
        if dir[i].0 == u {
            return Some(&dir[i].1);
        }
    }
    None
}

/// The summary line for `names`, or nothing where there are none.
pub fn summary(names: &Vec<String>) -> (r: Option<String>)
    ensures
        match r {
            None => typing_summary(names@.map_values(|s: String| s@)) is None,
            Some(s) => typing_summary(names@.map_values(|s: String| s@)) == Some(s@),
        },
{
    let ghost ns = names@.map_values(|s: String| s@);
    let n = names.len();
    if n == 0 {
        return None;
    }
    let mut s = String::new();
    let mut i: usize = 0;
    while i < n - 1
        invariant
            0 <= i <= n - 1,
            n == names.len(),
            ns == names@.map_values(|s: String| s@),
            s@ == comma_list(ns.take(i as int)),
        decreases n - 1 - i,
    {
        if i > 0 {
            s.append(", ");
        }
        s.append(names[i].as_str());
        proof {
            assert(ns.take(i + 1).drop_last() =~= ns.take(i as int));
            assert(ns.take(i + 1).last() == names@[i as int]@);
            if i == 0 {
                assert(s@ =~= ns.take(1)[0]);
            }
        }
        i = i + 1;
    }
    assert(ns.drop_last() =~= ns.take(n - 1));
    if n == 1 {
        s.append(names[0].as_str());
        s.append(" is typing…");
    } else {
        s.append(" and ");
        s.append(names[n - 1].as_str());
        s.append(" are typing…");
    }
    Some(s)
}

/// Who is composing a message where, on one server.
pub struct Typing {
    entries: Vec<(usize, usize, u64)>,
}

impl View for Typing {
    type V = TypingView;

    closed spec fn view(&self) -> TypingView {
        self.entries@
    }
}

impl Typing {
    #[verifier::type_invariant]
    spec fn inv(&self) -> bool {
        typing_wf(self@)
    }

    pub fn new() -> (r: Self)
        ensures
            r@ == TypingView::empty(),
    {
        Typing { entries: Vec::new() }
    }

    /// Notes that `user` is typing in `channel` at time `now`, replacing the
    /// user's earlier entry.
    pub fn insert(&mut self, user: usize, channel: usize, now: u64)
        ensures
            final(self)@ == insert_typing(old(self)@, user, channel, now),
            typing_wf(final(self)@),
    {
        proof {
            use_type_invariant(&*self);
        }
        let mut entries: Vec<(usize, usize, u64)> = Vec::new();
        std::mem::swap(&mut entries, &mut self.entries);
        let mut i: usize = 0;
        while i < entries.len()
            invariant
                0 <= i <= entries.len(),
                entries@ == old(self)@,
                typing_wf(entries@),
                forall|k: int| 0 <= k < i ==> entries@[k].0 != user,
            decreases entries.len() - i,
        {
            if entries[i].0 == user {
                proof {
                    let p = user_position(entries@, user);
                    assert(entries@[p].0 == user);
                    assert(p == i);
                }
                entries.set(i, (user, channel, now));
                self.entries = entries;
                return;
            }
            i = i + 1;
        }
        entries.push((user, channel, now));
        self.entries = entries;
    }

    /// The users with a live entry in `channel` at `now`, in the order they
    /// first typed.
    pub fn typing_users(&self, channel: Option<usize>, now: u64) -> (r: Vec<usize>)
        ensures
            r@ == live_users(self@, channel, now),
            typing_wf(self@),
    {
        proof {
            use_type_invariant(self);
        }
        let mut r: Vec<usize> = Vec::new();
        let mut i: usize = 0;
        while i < self.entries.len()
            invariant
                0 <= i <= self.entries.len(),
                r@ == live_users(self@.take(i as int), channel, now),
            decreases self.entries.len() - i,
        {
            let (u, c, since) = self.entries[i];
            proof {
                assert(self@.take(i + 1).drop_last() =~= self@.take(i as int));
            }
            let fresh = if since <= now {
                now - since < TYPING_TIMEOUT
            } else {
                true
            };
            if channel == Some(c) && fresh {
                r.push(u);
            }
            i = i + 1;
        }
        assert(self@.take(i as int) =~= self@);
        r
    }

    /// The summary line for the users with a live entry in `channel` at
    /// `now`, named through `dir`; nothing where no such user has a name.
    pub fn check(&self, channel: Option<usize>, now: u64, dir: &Vec<(usize, String)>) -> (r: Option<
        String,
    >)
        ensures
            match r {
                None => typing_summary(
                    names_of(live_users(self@, channel, now), directory(dir@)),
                ) is None,
                Some(s) => typing_summary(
                    names_of(live_users(self@, channel, now), directory(dir@)),
                ) == Some(s@),
            },
    {
        let users = self.typing_users(channel, now);
        let ghost d = directory(dir@);
        let mut names: Vec<String> = Vec::new();
        let mut i: usize = 0;
        while i < users.len()
            invariant
                0 <= i <= users.len(),
                d == directory(dir@),
                names@.map_values(|s: String| s@) == names_of(users@.take(i as int), d),
            decreases users.len() - i,
        {
            let ghost before = names@;
            assert(users@.take(i + 1).drop_last() =~= users@.take(i as int));
            match lookup_name(dir, users[i]) {
                Some(n) => {
                    names.push(n.clone());
                    assert(names@.map_values(|s: String| s@) =~= before.map_values(
                        |s: String| s@,
                    ).push(n@));
                },
                None => {},
            }
            i = i + 1;
        }
        assert(users@.take(i as int) =~= users@);
        summary(&names)
    }
}

} // verus!
