//! The key-value store: its requests, its state, and how one request changes it.
//!
//! A binding may carry an expiration instant, in milliseconds on the clock
//! that the caller reads; a binding whose instant has come is no longer seen.
use vstd::prelude::*;

verus! {

/// A request to the store.
#[derive(Debug, PartialEq, Eq)]
pub enum DBMessage {
    /// Bind `key` to `value`, replacing any earlier binding; with
    /// `expire_seconds`, the binding lasts that many seconds.
    SetValue { key: String, value: String, expire_seconds: Option<u64> },
    /// Look `key` up.
    Get { key: String },
}

/// The model of a [`DBMessage`].
pub enum SpecMessage {
    SetValue { key: Seq<char>, value: Seq<char>, expire_seconds: Option<u64> },
    Get { key: Seq<char> },
}

impl View for DBMessage {
    type V = SpecMessage;

    open spec fn view(&self) -> SpecMessage {
        match self {
            DBMessage::SetValue { key, value, expire_seconds } => SpecMessage::SetValue {
                key: key@,
                value: value@,
                expire_seconds: *expire_seconds,
            },
            DBMessage::Get { key } => SpecMessage::Get { key: key@ },
        }
    }
}

/// One binding of a snapshot: key, value, and the whole seconds it has left
/// (rounded up), if it expires.
pub type SnapshotEntry = (String, String, Option<u64>);

/// What the store asks of its surroundings after a request.
#[derive(Debug, PartialEq, Eq)]
pub enum DbAction {
    /// The store changed: write this snapshot of its live bindings to disk.
    Persist(Vec<SnapshotEntry>),
    /// Answer the lookup with this value, or `None` for a key that is not bound
    /// or whose binding has expired.
    Reply(Option<String>),
}

/// The model of a binding (or of a snapshot entry): key, then value and
/// expiration instant (or seconds left, in a snapshot).
pub type SpecBinding = (Seq<char>, (Seq<char>, Option<u64>));

/// The model of a list of bindings.
pub open spec fn bindings_view(entries: Seq<SnapshotEntry>) -> Seq<SpecBinding> {
    entries.map_values(|e: SnapshotEntry| (e.0@, (e.1@, e.2)))
}

/// The map that binding each pair in turn makes: a later pair for the same
/// key wins.
pub open spec fn pairs_to_map<V>(ps: Seq<(Seq<char>, V)>) -> Map<Seq<char>, V>
    decreases ps.len(),
{
    if ps.len() == 0 {
        Map::empty()
    } else {
        pairs_to_map(ps.drop_last()).insert(ps.last().0, ps.last().1)
    }
}

/// No key occurs twice.
pub open spec fn distinct_keys<V>(ps: Seq<(Seq<char>, V)>) -> bool {
    forall|i: int, j: int| 0 <= i < j < ps.len() ==> ps[i].0 != ps[j].0
}

/// The instant at which a binding made at `now` for `seconds` expires
/// (the clock's end, `u64::MAX`, when the sum does not fit); none without `seconds`.
pub open spec fn expiry_for(now: u64, seconds: Option<u64>) -> Option<u64> {
    match seconds {
        None => None,
        Some(s) => Some(
            if now + s * 1000 > u64::MAX {
                u64::MAX
            } else {
                (now + s * 1000) as u64
            },
        ),
    }
}

/// A binding with this expiration is still seen at `now`.
pub open spec fn is_live(expires_at: Option<u64>, now: u64) -> bool {
    match expires_at {
        None => true,
        Some(t) => now < t,
    }
}

/// The whole seconds, rounded up, that a live binding has left at `now`.
pub open spec fn remaining_seconds(expires_at: Option<u64>, now: u64) -> Option<u64> {
    match expires_at {
        None => None,
        Some(t) => Some(((t - now - 1) / 1000 + 1) as u64),
    }
}

/// The store after a request made at `now`: a set binds its key (with its
/// expiration), a get changes nothing.
pub open spec fn store_after(
    m: Map<Seq<char>, (Seq<char>, Option<u64>)>,
    msg: SpecMessage,
    now: u64,
) -> Map<Seq<char>, (Seq<char>, Option<u64>)> {
    match msg {
        SpecMessage::SetValue { key, value, expire_seconds } => m.insert(
            key,
            (value, expiry_for(now, expire_seconds)),
        ),
        SpecMessage::Get { .. } => m,
    }
}

/// The answer at `now` to a lookup of `key`: its value while the binding lives.
pub open spec fn lookup(m: Map<Seq<char>, (Seq<char>, Option<u64>)>, key: Seq<char>, now: u64) -> Option<Seq<char>> {
    if m.dom().contains(key) && is_live(m[key].1, now) {
        Some(m[key].0)
    } else {
        None
    }
}

/// `snap` is a snapshot at `now` of the store `m`: each key once, exactly the
/// bindings that live at `now`, each with its value and the seconds it has left.
pub open spec fn is_snapshot_of(
    snap: Seq<SpecBinding>,
    m: Map<Seq<char>, (Seq<char>, Option<u64>)>,
    now: u64,
) -> bool {
    &&& distinct_keys(snap)
    &&& forall|i: int|
        #![trigger snap[i]]
        0 <= i < snap.len() ==> {
            &&& m.dom().contains(snap[i].0)
            &&& is_live(m[snap[i].0].1, now)
            &&& snap[i].1 == (m[snap[i].0].0, remaining_seconds(m[snap[i].0].1, now))
        }
    &&& forall|k: Seq<char>|
        #![trigger m.dom().contains(k)]
        m.dom().contains(k) && is_live(m[k].1, now) ==> exists|i: int|
            0 <= i < snap.len() && #[trigger] snap[i].0 == k
}

/// The bindings of `ps` that live at `now`, in order, each with the seconds it has left.
pub open spec fn live_entries(ps: Seq<SpecBinding>, now: u64) -> Seq<SpecBinding>
    decreases ps.len(),
{
    if ps.len() == 0 {
        Seq::empty()
    } else {
        let rest = live_entries(ps.drop_last(), now);
        let e = ps.last();
        if is_live(e.1.1, now) {
            rest.push((e.0, (e.1.0, remaining_seconds(e.1.1, now))))
        } else {
            rest
        }
    }
}

/// The store that loading a snapshot at `now` makes: each entry's seconds left
/// count from `now`.
pub open spec fn restored(snap: Seq<SpecBinding>, now: u64) -> Map<Seq<char>, (Seq<char>, Option<u64>)> {
    pairs_to_map(snap.map_values(|e: SpecBinding| (e.0, (e.1.0, expiry_for(now, e.1.1)))))
}

proof fn lemma_pairs_keys<V>(ps: Seq<(Seq<char>, V)>, k: Seq<char>)
    ensures
        pairs_to_map(ps).dom().contains(k) <==> exists|i: int| 0 <= i < ps.len() && #[trigger] ps[i].0 == k,
    decreases ps.len(),
{
    if ps.len() > 0 {
        let dl = ps.drop_last();
        lemma_pairs_keys(dl, k);
        if exists|i: int| 0 <= i < dl.len() && #[trigger] dl[i].0 == k {
            let i = choose|i: int| 0 <= i < dl.len() && #[trigger] dl[i].0 == k;
            assert(ps[i].0 == k);
        }
        if exists|i: int| 0 <= i < ps.len() && #[trigger] ps[i].0 == k {
            let i = choose|i: int| 0 <= i < ps.len() && #[trigger] ps[i].0 == k;
            if i < ps.len() - 1 {
                assert(dl[i].0 == k);
            }
        }
    }
}

proof fn lemma_pairs_lookup<V>(ps: Seq<(Seq<char>, V)>, i: int)
    requires
        distinct_keys(ps),
        0 <= i < ps.len(),
    ensures
        pairs_to_map(ps).dom().contains(ps[i].0),
        pairs_to_map(ps)[ps[i].0] == ps[i].1,
    decreases ps.len(),
{
    let dl = ps.drop_last();
    if i < ps.len() - 1 {
        assert(distinct_keys(dl));
        lemma_pairs_lookup(dl, i);
        assert(dl[i] == ps[i]);
        assert(ps.last().0 != ps[i].0);
    }
}

proof fn lemma_pairs_update<V>(ps: Seq<(Seq<char>, V)>, i: int, v: V)
    requires
        distinct_keys(ps),
        0 <= i < ps.len(),
    ensures
        pairs_to_map(ps.update(i, (ps[i].0, v))) == pairs_to_map(ps).insert(ps[i].0, v),
    decreases ps.len(),
{
    let k = ps[i].0;
    let qs = ps.update(i, (k, v));
    let dl = ps.drop_last();
    if i == ps.len() - 1 {
        assert(qs.drop_last() =~= dl);
        assert(pairs_to_map(qs) =~= pairs_to_map(ps).insert(k, v));
    } else {
        assert(distinct_keys(dl));
        lemma_pairs_update(dl, i, v);
        assert(qs.drop_last() =~= dl.update(i, (k, v)));
        assert(dl[i] == ps[i]);
        assert(ps.last().0 != k);
        assert(pairs_to_map(qs) =~= pairs_to_map(ps).insert(k, v));
    }
}

proof fn lemma_pairs_push<V>(ps: Seq<(Seq<char>, V)>, p: (Seq<char>, V))
    ensures
        pairs_to_map(ps.push(p)) == pairs_to_map(ps).insert(p.0, p.1),
{
    assert(ps.push(p).drop_last() =~= ps);
}

proof fn lemma_live_entries(ps: Seq<SpecBinding>, now: u64)
    requires
        distinct_keys(ps),
    ensures
        is_snapshot_of(live_entries(ps, now), pairs_to_map(ps), now),
    decreases ps.len(),
{
    if ps.len() > 0 {
        let dl = ps.drop_last();
        let e = ps.last();
        assert(distinct_keys(dl));
        lemma_live_entries(dl, now);
        let l0 = live_entries(dl, now);
        let m0 = pairs_to_map(dl);
        let m = pairs_to_map(ps);
        assert(m == m0.insert(e.0, e.1));
        lemma_pairs_keys(dl, e.0);
        assert(!m0.dom().contains(e.0)) by {
            if m0.dom().contains(e.0) {
                let j = choose|j: int| 0 <= j < dl.len() && #[trigger] dl[j].0 == e.0;
                assert(ps[j].0 == ps[ps.len() - 1].0);
            }
        }
        let l = live_entries(ps, now);
        assert forall|i: int| #![trigger l[i]] 0 <= i < l.len() implies {
            &&& m.dom().contains(l[i].0)
            &&& is_live(m[l[i].0].1, now)
            &&& l[i].1 == (m[l[i].0].0, remaining_seconds(m[l[i].0].1, now))
        } by {
            if i < l0.len() {
                assert(l[i] == l0[i]);
                assert(m0.dom().contains(l0[i].0));
            }
        }
        assert forall|k: Seq<char>|
            #![trigger m.dom().contains(k)]
            m.dom().contains(k) && is_live(m[k].1, now) implies exists|i: int|
                0 <= i < l.len() && #[trigger] l[i].0 == k by {
            if k == e.0 {
                assert(l[l.len() - 1].0 == k);
            } else {
                assert(m0.dom().contains(k));
                let i = choose|i: int| 0 <= i < l0.len() && #[trigger] l0[i].0 == k;
                assert(l[i] == l0[i]);
            }
        }
        assert forall|i: int, j: int| 0 <= i < j < l.len() implies l[i].0 != l[j].0 by {
            if j < l0.len() {
                assert(l[i] == l0[i]);
                assert(l[j] == l0[j]);
            } else {
                assert(l[i] == l0[i]);
                assert(m0.dom().contains(l0[i].0));
            }
        }
    }
}

proof fn lemma_bindings_view_push(entries: Seq<SnapshotEntry>, e: SnapshotEntry)
    ensures
        bindings_view(entries.push(e)) == bindings_view(entries).push((e.0@, (e.1@, e.2))),
{
    assert(bindings_view(entries.push(e)) =~= bindings_view(entries).push((e.0@, (e.1@, e.2))));
}

/// The instant at which a binding made at `now` for `seconds` expires.
pub fn expiry(now: u64, seconds: Option<u64>) -> (r: Option<u64>)
    ensures
        r == expiry_for(now, seconds),
{
    match seconds {
        None => None,
        Some(s) => {
            let total: u128 = now as u128 + s as u128 * 1000;
            if total > u64::MAX as u128 {
                Some(u64::MAX)
            } else {
                Some(total as u64)
            }
        },
    }
}

/// The store: a list of bindings in which no key occurs twice.
pub struct Db {
    entries: Vec<SnapshotEntry>,
}

impl Db {
    #[verifier::type_invariant]
    spec fn keys_distinct(&self) -> bool {
        distinct_keys(bindings_view(self.entries@))
    }

    /// The bindings that the store holds: each key's value and expiration instant.
    pub closed spec fn view(&self) -> Map<Seq<char>, (Seq<char>, Option<u64>)> {
        pairs_to_map(bindings_view(self.entries@))
    }

    /// An empty store.
    pub fn new() -> (db: Db)
        ensures
            db.view() == Map::<Seq<char>, (Seq<char>, Option<u64>)>::empty(),
    {
        let db = Db { entries: Vec::new() };
        assert(bindings_view(db.entries@) =~= Seq::empty());
        db
    }

    /// Loads a snapshot at `now`: the entries are bound in turn (a later entry
    /// for the same key wins), each expiring its seconds left after `now`.
    pub fn from_snapshot(entries: Vec<SnapshotEntry>, now: u64) -> (db: Db)
        ensures
            db.view() == restored(bindings_view(entries@), now),
    {
        let mut db = Db::new();
        let ghost all = bindings_view(entries@);
        let ghost target = all.map_values(|e: SpecBinding| (e.0, (e.1.0, expiry_for(now, e.1.1))));
        let mut i: usize = 0;
        assert(target.take(0) =~= Seq::empty());
        while i < entries.len()
            invariant
                all == bindings_view(entries@),
                target == all.map_values(|e: SpecBinding| (e.0, (e.1.0, expiry_for(now, e.1.1)))),
                i <= entries@.len(),
                db.view() == pairs_to_map(target.take(i as int)),
            decreases entries@.len() - i,
        {
            let key = entries[i].0.clone();
            let value = entries[i].1.clone();
            let expires_at = expiry(now, entries[i].2);
            db.insert(key, value, expires_at);
            proof {
                assert(target.take(i + 1) =~= target.take(i as int).push(target[i as int]));
                lemma_pairs_push(target.take(i as int), target[i as int]);
            }
            i = i + 1;
        }
        assert(target.take(i as int) =~= target);
        db
    }

    /// Binds `key` to `value` until `expires_at` (for good without it),
    /// replacing any earlier binding of `key`.
    pub fn insert(&mut self, key: String, value: String, expires_at: Option<u64>)
        ensures
            final(self).view() == old(self).view().insert(key@, (value@, expires_at)),
    {
        proof {
            use_type_invariant(&*self);
        }
        let ghost ps = bindings_view(self.entries@);
        let mut i: usize = 0;
        while i < self.entries.len()
            invariant
                i <= self.entries@.len(),
                ps == bindings_view(self.entries@),
                pairs_to_map(ps) == old(self).view(),
                distinct_keys(ps),
                forall|j: int| 0 <= j < i ==> #[trigger] ps[j].0 != key@,
            decreases self.entries@.len() - i,
        {
            assert(ps[i as int].0 == self.entries@[i as int].0@);
            if self.entries[i].0 == key {
                let mut entries = Vec::new();
                std::mem::swap(&mut entries, &mut self.entries);
                entries.set(i, (key, value, expires_at));
                proof {
                    lemma_pairs_update(ps, i as int, (value@, expires_at));
                    assert(bindings_view(entries@) =~= ps.update(
                        i as int,
                        (ps[i as int].0, (value@, expires_at)),
                    ));
                }
                self.entries = entries;
                return;
            }
            i = i + 1;
        }
        let ghost new_ps = ps.push((key@, (value@, expires_at)));
        proof {
            lemma_pairs_push(ps, (key@, (value@, expires_at)));
            lemma_bindings_view_push(self.entries@, (key, value, expires_at));
            assert forall|a: int, b: int| 0 <= a < b < new_ps.len() implies #[trigger] new_ps[a].0
                != #[trigger] new_ps[b].0 by {
                if b == ps.len() {
                    assert(ps[a].0 != key@);
                }
            }
        }
        let mut entries = Vec::new();
        std::mem::swap(&mut entries, &mut self.entries);
        entries.push((key, value, expires_at));
        self.entries = entries;
    }

    /// The value of `key` at `now`, if it is bound and its binding lives.
    pub fn get(&self, key: &String, now: u64) -> (r: Option<String>)
        ensures
            r matches Some(v) ==> lookup(self.view(), key@, now) == Some(v@),
            r is None ==> lookup(self.view(), key@, now) is None,
    {
        proof {
            use_type_invariant(self);
        }
        let ghost ps = bindings_view(self.entries@);
        let mut i: usize = 0;
        while i < self.entries.len()
            invariant
                i <= self.entries@.len(),
                ps == bindings_view(self.entries@),
                distinct_keys(ps),
                forall|j: int| 0 <= j < i ==> #[trigger] ps[j].0 != key@,
            decreases self.entries@.len() - i,
        {
            assert(ps[i as int] == (
                self.entries@[i as int].0@,
                (self.entries@[i as int].1@, self.entries@[i as int].2),
            ));
            if self.entries[i].0 == *key {
                proof {
                    lemma_pairs_lookup(ps, i as int);
                }
                let live = match self.entries[i].2 {
                    None => true,
                    Some(t) => now < t,
                };
                if live {
                    return Some(self.entries[i].1.clone());
                } else {
                    return None;
                }
            }
            i = i + 1;
        }
        proof {
            lemma_pairs_keys(ps, key@);
        }
        None
    }

    /// The bindings that live at `now`, each key once, with the seconds they have left.
    pub fn snapshot(&self, now: u64) -> (r: Vec<SnapshotEntry>)
        ensures
            is_snapshot_of(bindings_view(r@), self.view(), now),
    {
        proof {
            use_type_invariant(self);
        }
        let ghost ps = bindings_view(self.entries@);
        let mut r: Vec<SnapshotEntry> = Vec::new();
        let mut i: usize = 0;
        assert(ps.take(0) =~= Seq::<SpecBinding>::empty());
        assert(bindings_view(r@) =~= Seq::<SpecBinding>::empty());
        while i < self.entries.len()
            invariant
                i <= self.entries@.len(),
                ps == bindings_view(self.entries@),
                bindings_view(r@) == live_entries(ps.take(i as int), now),
            decreases self.entries@.len() - i,
        {
            assert(ps[i as int] == (
                self.entries@[i as int].0@,
                (self.entries@[i as int].1@, self.entries@[i as int].2),
            ));
            assert(ps.take(i + 1).drop_last() =~= ps.take(i as int));
            assert(ps.take(i + 1).last() == ps[i as int]);
            let live = match self.entries[i].2 {
                None => true,
                Some(t) => now < t,
            };
            if live {
                let left = match self.entries[i].2 {
                    None => None,
                    Some(t) => Some((t - now - 1) / 1000 + 1),
                };
                let key = self.entries[i].0.clone();
                let value = self.entries[i].1.clone();
                proof {
                    lemma_bindings_view_push(r@, (key, value, left));
                }
                r.push((key, value, left));
            }
            i = i + 1;
        }
        proof {
            assert(ps.take(i as int) =~= ps);
            lemma_live_entries(ps, now);
        }
        r
    }

    /// Carries out one request made at `now`: a set binds the key and asks for
    /// a snapshot to be persisted; a get leaves the store as it is and answers
    /// with the key's value.
    pub fn apply(&mut self, msg: DBMessage, now: u64) -> (action: DbAction)
        ensures
            final(self).view() == store_after(old(self).view(), msg@, now),
            match msg@ {
                SpecMessage::SetValue { .. } => action matches DbAction::Persist(s)
                    && is_snapshot_of(bindings_view(s@), final(self).view(), now),
                SpecMessage::Get { key } => action matches DbAction::Reply(r) && match r {
                    Some(v) => lookup(old(self).view(), key, now) == Some(v@),
                    None => lookup(old(self).view(), key, now) is None,
                },
            },
    {
        match msg {
            DBMessage::SetValue { key, value, expire_seconds } => {
                let expires_at = expiry(now, expire_seconds);
                self.insert(key, value, expires_at);
                DbAction::Persist(self.snapshot(now))
            },
            DBMessage::Get { key } => DbAction::Reply(self.get(&key, now)),
        }
    }
}

/// Loading a snapshot taken at `now`, at any later instant `later`, gives a
/// store that answers every lookup at `later` as the old store answered it
/// at `now`: what lived then lives again, with its value.
pub proof fn lemma_restore_snapshot(
    snap: Seq<SpecBinding>,
    m: Map<Seq<char>, (Seq<char>, Option<u64>)>,
    now: u64,
    later: u64,
    key: Seq<char>,
)
    requires
        is_snapshot_of(snap, m, now),
        later < u64::MAX,
    ensures
        lookup(restored(snap, later), key, later) == lookup(m, key, now),
{
    let ps = snap.map_values(|e: SpecBinding| (e.0, (e.1.0, expiry_for(later, e.1.1))));
    assert(distinct_keys(ps)) by {
        assert forall|i: int, j: int| 0 <= i < j < ps.len() implies ps[i].0 != ps[j].0 by {
            assert(snap[i].0 != snap[j].0);
        }
    }
    lemma_pairs_keys(ps, key);
    if exists|i: int| 0 <= i < ps.len() && #[trigger] ps[i].0 == key {
        let i = choose|i: int| 0 <= i < ps.len() && #[trigger] ps[i].0 == key;
        lemma_pairs_lookup(ps, i);
        assert(snap[i].0 == key);
        let e = m[key].1;
        if let Some(t) = e {
            assert(now < t);
            assert((t - now - 1) / 1000 + 1 >= 1);
        }
    } else {
        if m.dom().contains(key) && is_live(m[key].1, now) {
            let i = choose|i: int| 0 <= i < snap.len() && #[trigger] snap[i].0 == key;
            assert(ps[i].0 == key);
        }
    }
}

/// After a set of `key` at `now`, a lookup of `key` at a later `when` answers
/// the value set while the binding lives: always without an expiration, and
/// before `now` plus the seconds given with one; after that it answers nothing.
/// A lookup of any other key answers what it answered before.
pub proof fn lemma_get_after_set(
    m: Map<Seq<char>, (Seq<char>, Option<u64>)>,
    key: Seq<char>,
    value: Seq<char>,
    expire_seconds: Option<u64>,
    now: u64,
    when: u64,
    other: Seq<char>,
)
    requires
        now <= when,
    ensures
        ({
            let after = store_after(m, SpecMessage::SetValue { key, value, expire_seconds }, now);
            &&& expire_seconds is None ==> lookup(after, key, when) == Some(value)
            &&& expire_seconds matches Some(s) ==> (when < now + s * 1000 && when < u64::MAX ==> lookup(
                after,
                key,
                when,
            ) == Some(value))
            &&& expire_seconds matches Some(s) ==> (now + s * 1000 <= when ==> lookup(after, key, when)
                is None)
            &&& other != key ==> lookup(after, other, when) == lookup(m, other, when)
        }),
{
}

/// A get never changes the store.
pub proof fn lemma_get_keeps_store(m: Map<Seq<char>, (Seq<char>, Option<u64>)>, key: Seq<char>, now: u64)
    ensures
        store_after(m, SpecMessage::Get { key }, now) == m,
{
}

/// The store after the requests, each carried out at the instant paired with it, in order.
pub open spec fn store_after_all(
    m: Map<Seq<char>, (Seq<char>, Option<u64>)>,
    reqs: Seq<(SpecMessage, u64)>,
) -> Map<Seq<char>, (Seq<char>, Option<u64>)>
    decreases reqs.len(),
{
    if reqs.len() == 0 {
        m
    } else {
        store_after(store_after_all(m, reqs.drop_last()), reqs.last().0, reqs.last().1)
    }
}

/// A request sequence: request `i` finds the store that all earlier requests
/// left, so a get answers what the earlier sets made of the store.
pub proof fn lemma_store_sequence(
    m: Map<Seq<char>, (Seq<char>, Option<u64>)>,
    reqs: Seq<(SpecMessage, u64)>,
    i: int,
)
    requires
        0 <= i < reqs.len(),
    ensures
        store_after_all(m, reqs.take(i + 1)) == store_after(
            store_after_all(m, reqs.take(i)),
            reqs[i].0,
            reqs[i].1,
        ),
{
    assert(reqs.take(i + 1).drop_last() =~= reqs.take(i));
}

/// When request `i`, made at instant `t`, sets `key` to `value` (with
/// `expire_seconds`, if given), and no request after it up to request `j`
/// sets `key` again, then the store that request `j` finds binds `key` to
/// `value` until `expiry_for(t, expire_seconds)`: a get of `key` made at
/// `when` answers `value` for good without an expiration, and with one it
/// answers `value` before `t` plus the seconds given and nothing from then on.
pub proof fn lemma_get_sees_last_set(
    m: Map<Seq<char>, (Seq<char>, Option<u64>)>,
    reqs: Seq<(SpecMessage, u64)>,
    i: int,
    j: int,
    key: Seq<char>,
    value: Seq<char>,
    expire_seconds: Option<u64>,
    when: u64,
)
    requires
        0 <= i < j <= reqs.len(),
        reqs[i].0 == (SpecMessage::SetValue { key, value, expire_seconds }),
        forall|l: int|
            i < l < j ==> !(#[trigger] reqs[l].0 matches SpecMessage::SetValue { key: k, .. } && k
                == key),
    ensures
        store_after_all(m, reqs.take(j)).dom().contains(key),
        store_after_all(m, reqs.take(j))[key] == (value, expiry_for(reqs[i].1, expire_seconds)),
        lookup(store_after_all(m, reqs.take(j)), key, when) == if is_live(
            expiry_for(reqs[i].1, expire_seconds),
            when,
        ) {
            Some(value)
        } else {
            None
        },
        expire_seconds is None ==> lookup(store_after_all(m, reqs.take(j)), key, when) == Some(
            value,
        ),
        expire_seconds matches Some(s) ==> (when < reqs[i].1 + s * 1000 && when < u64::MAX
            ==> lookup(store_after_all(m, reqs.take(j)), key, when) == Some(value)),
        expire_seconds matches Some(s) ==> (reqs[i].1 + s * 1000 <= when ==> lookup(
            store_after_all(m, reqs.take(j)),
            key,
            when,
        ) is None),
    decreases j - i,
{
    let e = expiry_for(reqs[i].1, expire_seconds);
    if j == i + 1 {
        lemma_store_sequence(m, reqs, i);
    } else {
        lemma_get_sees_last_set(m, reqs, i, j - 1, key, value, expire_seconds, when);
        lemma_store_sequence(m, reqs, j - 1);
        let before = store_after_all(m, reqs.take(j - 1));
        assert(before.dom().contains(key) && before[key] == (value, e));
        let r = reqs[j - 1].0;
        assert(!(r matches SpecMessage::SetValue { key: k, .. } && k == key));
    }
}

/// A snapshot taken at `now` records, for each binding that expires at `t`,
/// its time left `t - now` rounded up to whole seconds: the `s` recorded has
/// `(s - 1) * 1000 < t - now <= s * 1000`. A binding without an expiration is
/// recorded without one.
pub proof fn lemma_snapshot_seconds_left(
    snap: Seq<SpecBinding>,
    m: Map<Seq<char>, (Seq<char>, Option<u64>)>,
    now: u64,
    i: int,
)
    requires
        is_snapshot_of(snap, m, now),
        0 <= i < snap.len(),
    ensures
        m.dom().contains(snap[i].0),
        snap[i].1.0 == m[snap[i].0].0,
        m[snap[i].0].1 is None ==> snap[i].1.1 is None,
        m[snap[i].0].1 matches Some(t) ==> {
            &&& now < t
            &&& (snap[i].1.1 matches Some(s) && (s - 1) * 1000 < t - now <= s * 1000)
        },
{
    let e = m[snap[i].0].1;
    if let Some(t) = e {
        let d: int = t - now;
        let q: int = (d - 1) / 1000;
        assert(q * 1000 <= d - 1 < q * 1000 + 1000) by (nonlinear_arith)
            requires
                d >= 1,
                q == (d - 1) / 1000,
        ;
        assert(snap[i].1.1 == Some((q + 1) as u64));
    }
}

/// Loading a snapshot at `now`, each key of it once, binds each key to its
/// value: an entry with `s` seconds left is answered at every instant `w` from
/// `now` on exactly while `w < now + s * 1000` (when that sum fits the clock),
/// an entry without an expiration is answered at every instant, and a key
/// that is not in the snapshot is not answered.
pub proof fn lemma_restored_lookup(
    snap: Seq<SpecBinding>,
    now: u64,
    key: Seq<char>,
    w: u64,
)
    requires
        distinct_keys(snap),
    ensures
        (forall|i: int| 0 <= i < snap.len() ==> #[trigger] snap[i].0 != key) ==> lookup(
            restored(snap, now),
            key,
            w,
        ) is None,
        forall|i: int|
            #![trigger snap[i]]
            0 <= i < snap.len() && snap[i].0 == key ==> {
                match snap[i].1.1 {
                    None => lookup(restored(snap, now), key, w) == Some(snap[i].1.0),
                    Some(s) => now + s * 1000 <= u64::MAX ==> lookup(restored(snap, now), key, w) == (
                    if w < now + s * 1000 {
                        Some(snap[i].1.0)
                    } else {
                        None
                    }),
                }
            },
{
    let ps = snap.map_values(|e: SpecBinding| (e.0, (e.1.0, expiry_for(now, e.1.1))));
    assert(distinct_keys(ps)) by {
        assert forall|a: int, b: int| 0 <= a < b < ps.len() implies ps[a].0 != ps[b].0 by {
            assert(snap[a].0 != snap[b].0);
        }
    }
    lemma_pairs_keys(ps, key);
    if forall|i: int| 0 <= i < snap.len() ==> #[trigger] snap[i].0 != key {
        if exists|i: int| 0 <= i < ps.len() && #[trigger] ps[i].0 == key {
            let i = choose|i: int| 0 <= i < ps.len() && #[trigger] ps[i].0 == key;
            assert(snap[i].0 == key);
        }
    }
    assert forall|i: int|
        #![trigger snap[i]]
        0 <= i < snap.len() && snap[i].0 == key implies {
            match snap[i].1.1 {
                None => lookup(restored(snap, now), key, w) == Some(snap[i].1.0),
                Some(s) => now + s * 1000 <= u64::MAX ==> lookup(restored(snap, now), key, w) == (
                if w < now + s * 1000 {
                    Some(snap[i].1.0)
                } else {
                    None
                }),
            }
        } by {
        lemma_pairs_lookup(ps, i);
        assert(ps[i] == (snap[i].0, (snap[i].1.0, expiry_for(now, snap[i].1.1))));
    }
}

/// A store saved as a snapshot at `now` and loaded back at `load` answers a
/// key that was live at `now` with its value: without an expiration at
/// every instant, and with an expiration `t` exactly while fewer than
/// `t - now` milliseconds, rounded up to whole seconds, have passed since
/// `load` (when that deadline fits the clock).
pub proof fn lemma_snapshot_restart(
    snap: Seq<SpecBinding>,
    m: Map<Seq<char>, (Seq<char>, Option<u64>)>,
    now: u64,
    load: u64,
    key: Seq<char>,
    w: u64,
)
    requires
        is_snapshot_of(snap, m, now),
        m.dom().contains(key),
        is_live(m[key].1, now),
    ensures
        m[key].1 is None ==> lookup(restored(snap, load), key, w) == Some(m[key].0),
        m[key].1 matches Some(t) ==> (load + ((t - now + 999) / 1000) * 1000 <= u64::MAX
            ==> lookup(restored(snap, load), key, w) == (if w < load + ((t - now + 999) / 1000)
            * 1000 {
            Some(m[key].0)
        } else {
            None
        })),
{
    assert(m.dom().contains(key) && is_live(m[key].1, now));
    let i = choose|i: int| 0 <= i < snap.len() && #[trigger] snap[i].0 == key;
    assert(snap[i].0 == key);
    lemma_snapshot_seconds_left(snap, m, now, i);
    lemma_restored_lookup(snap, load, key, w);
    if let Some(t) = m[key].1 {
        let s = snap[i].1.1.unwrap();
        let d: int = t - now;
        assert((d + 999) / 1000 == s) by (nonlinear_arith)
            requires
                (s - 1) * 1000 < d <= s * 1000,
        ;
    }
}

} // verus!
