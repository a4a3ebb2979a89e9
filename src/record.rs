use vstd::prelude::*;

verus! {

/// One entry of the store: a key, its value, and an optional absolute expiry
/// time in seconds since the Unix epoch (`None`: never expires).
#[derive(Debug, Clone)]
pub struct KVPair {
    pub key: String,
    pub value: String,
    pub expires_at: Option<u64>,
}

/// The mathematical content of a `KVPair`.
pub struct RecordView {
    pub key: Seq<char>,
    pub value: Seq<char>,
    pub expires_at: Option<u64>,
}

/// What the index holds for one key: the value and its expiry.
pub struct Entry {
    pub value: Seq<char>,
    pub expires_at: Option<u64>,
}

impl View for KVPair {
    type V = RecordView;

    open spec fn view(&self) -> RecordView {
        RecordView { key: self.key@, value: self.value@, expires_at: self.expires_at }
    }
}

/// The content of a line that may or may not have decoded.
pub open spec fn opt_view(o: Option<KVPair>) -> Option<RecordView> {
    match o {
        Some(p) => Some(p@),
        None => None,
    }
}

impl RecordView {
    pub open spec fn entry(self) -> Entry {
        Entry { value: self.value, expires_at: self.expires_at }
    }
}

/// A record is live at `now` when it has no expiry or its expiry is not yet past.
pub open spec fn live_at(expires_at: Option<u64>, now: u64) -> bool {
    match expires_at {
        None => true,
        Some(t) => now <= t,
    }
}

/// The expiry that a write at `now` with time-to-live `ttl` (in seconds) gets;
/// a sum beyond the range of `u64` saturates, which no clock reaches.
pub open spec fn expiry_for(now: u64, ttl: Option<u64>) -> Option<u64> {
    match ttl {
        None => None,
        Some(d) => Some(
            if now + d <= u64::MAX {
                (now + d) as u64
            } else {
                u64::MAX
            },
        ),
    }
}

/// The state that replaying a log from its start gives: for each key, the
/// last record written for it.
pub open spec fn replay(log: Seq<RecordView>) -> Map<Seq<char>, Entry>
    decreases log.len(),
{
    if log.len() == 0 {
        Map::empty()
    } else {
        let last = log.last();
        replay(log.drop_last()).insert(last.key, last.entry())
    }
}

/// The records of `log` that are live at `now`, in their order.
pub open spec fn live_records(log: Seq<RecordView>, now: u64) -> Seq<RecordView>
    decreases log.len(),
{
    if log.len() == 0 {
        Seq::empty()
    } else {
        let rest = live_records(log.drop_last(), now);
        if live_at(log.last().expires_at, now) {
            rest.push(log.last())
        } else {
            rest
        }
    }
}

/// The value that a lookup of `key` at time `now` observes in `m`.
pub open spec fn visible(m: Map<Seq<char>, Entry>, key: Seq<char>, now: u64) -> Option<Seq<char>> {
    if m.contains_key(key) && live_at(m[key].expires_at, now) {
        Some(m[key].value)
    } else {
        None
    }
}

/// The part of `m` that is live at `now`.
pub open spec fn live_part(m: Map<Seq<char>, Entry>, now: u64) -> Map<Seq<char>, Entry> {
    m.restrict(Set::new(|k: Seq<char>| m.contains_key(k) && live_at(m[k].expires_at, now)))
}

/// No two records of `s` share a key.
pub open spec fn keys_unique(s: Seq<RecordView>) -> bool {
    forall|i: int, j: int| 0 <= i < j < s.len() ==> s[i].key != s[j].key
}

/// Where keys are unique, replaying gives each record's entry under its key.
pub proof fn lemma_replay_unique(s: Seq<RecordView>, i: int)
    requires
        keys_unique(s),
        0 <= i < s.len(),
    ensures
        replay(s).contains_key(s[i].key),
        replay(s)[s[i].key] == s[i].entry(),
    decreases s.len(),
{
    if i < s.len() - 1 {
        let t = s.drop_last();
        assert(t[i] == s[i]);
        lemma_replay_unique(t, i);
    }
}

/// A key that no record of `s` carries is absent from its replay.
pub proof fn lemma_replay_absent(s: Seq<RecordView>, k: Seq<char>)
    requires
        forall|i: int| 0 <= i < s.len() ==> s[i].key != k,
    ensures
        !replay(s).contains_key(k),
    decreases s.len(),
{
    if s.len() > 0 {
        let t = s.drop_last();
        assert forall|i: int| 0 <= i < t.len() implies t[i].key != k by {
            assert(t[i] == s[i]);
        }
        lemma_replay_absent(t, k);
    }
}

/// The keys of a replay are exactly the keys of the records replayed.
pub proof fn lemma_replay_contains(s: Seq<RecordView>, k: Seq<char>)
    ensures
        replay(s).contains_key(k) <==> exists|i: int| 0 <= i < s.len() && s[i].key == k,
    decreases s.len(),
{
    if s.len() > 0 {
        let t = s.drop_last();
        lemma_replay_contains(t, k);
        if replay(t).contains_key(k) {
            let i = choose|i: int| 0 <= i < t.len() && t[i].key == k;
            assert(s[i] == t[i]);
        }
        if exists|i: int| 0 <= i < s.len() && s[i].key == k {
            let i = choose|i: int| 0 <= i < s.len() && s[i].key == k;
            if i < s.len() - 1 {
                assert(t[i] == s[i]);
            }
        }
    }
}

/// Filtering out what has expired keeps keys unique, and the replay of the
/// live records is the live part of the replay.
pub proof fn lemma_live_replay(s: Seq<RecordView>, now: u64)
    requires
        keys_unique(s),
    ensures
        keys_unique(live_records(s, now)),
        replay(live_records(s, now)) == live_part(replay(s), now),
    decreases s.len(),
{
    if s.len() == 0 {
        assert(live_part(replay(s), now) =~= Map::empty());
    } else {
        let t = s.drop_last();
        let x = s.last();
        assert(keys_unique(t)) by {
            assert forall|a: int, b: int| 0 <= a < b < t.len() implies t[a].key != t[b].key by {
                assert(t[a] == s[a] && t[b] == s[b]);
            }
        }
        lemma_live_replay(t, now);
        assert forall|i: int| 0 <= i < t.len() implies t[i].key != x.key by {
            assert(t[i] == s[i]);
        }
        lemma_replay_absent(t, x.key);
        let lt = live_records(t, now);
        lemma_replay_contains(lt, x.key);
        if live_at(x.expires_at, now) {
            assert(live_records(s, now) == lt.push(x));
            assert forall|a: int, b: int| 0 <= a < b < lt.push(x).len() implies lt.push(x)[a].key != lt.push(x)[b].key by {
                if b == lt.len() {
                    assert(lt.push(x)[a] == lt[a]);
                } else {
                    assert(lt.push(x)[a] == lt[a] && lt.push(x)[b] == lt[b]);
                }
            }
            assert(lt.push(x).drop_last() =~= lt);
            assert(replay(lt.push(x)) =~= live_part(replay(s), now));
        } else {
            assert(live_part(replay(s), now) =~= live_part(replay(t), now));
        }
    }
}

/// Filtering at `t1` and then at a later `t2` is the same as filtering at `t2`.
pub proof fn lemma_live_records_twice(s: Seq<RecordView>, t1: u64, t2: u64)
    requires
        t1 <= t2,
    ensures
        live_records(live_records(s, t1), t2) == live_records(s, t2),
    decreases s.len(),
{
    if s.len() > 0 {
        let t = s.drop_last();
        lemma_live_records_twice(t, t1, t2);
        if live_at(s.last().expires_at, t1) {
            let l = live_records(t, t1).push(s.last());
            assert(l.drop_last() =~= live_records(t, t1));
        }
    }
}

/// The records that a sequence of decoded lines holds: the lines that did not
/// decode are skipped.
pub open spec fn decoded_records(lines: Seq<Option<RecordView>>) -> Seq<RecordView>
    decreases lines.len(),
{
    if lines.len() == 0 {
        Seq::empty()
    } else {
        let rest = decoded_records(lines.drop_last());
        match lines.last() {
            Some(r) => rest.push(r),
            None => rest,
        }
    }
}

impl KVPair {
    /// Whether this record may still be returned by a lookup at time `now`.
    pub fn is_live(&self, now: u64) -> (r: bool)
        ensures
            r == live_at(self.expires_at, now),
    {
        match self.expires_at {
            None => true,
            Some(t) => now <= t,
        }
    }

    /// A copy of this record.
    pub fn duplicate(&self) -> (r: KVPair)
        ensures
            r@ == self@,
    {
        KVPair { key: self.key.clone(), value: self.value.clone(), expires_at: self.expires_at }
    }
}

} // verus!
