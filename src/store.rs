use vstd::prelude::*;

use crate::index::Index;
use crate::record::{
    decoded_records, expiry_for, keys_unique, live_part, live_records, opt_view, replay, visible,
    Entry, KVPair, RecordView,
};

verus! {

/// What the log file must receive after an operation for the store to stay
/// durable: one record appended, the whole file rewritten, or nothing.
pub enum LogWrite {
    Append(KVPair),
    Rewrite(Vec<KVPair>),
    Nothing,
}

/// The records of a log after `w` has been carried out on it.
pub open spec fn applied(log: Seq<RecordView>, w: LogWrite) -> Seq<RecordView> {
    match w {
        LogWrite::Append(p) => log.push(p@),
        LogWrite::Rewrite(ps) => ps@.map_values(|p: KVPair| p@),
        LogWrite::Nothing => log,
    }
}

/// The store: the index, and (as a model) the records that its log file holds.
/// Replaying the log always gives the index back.
pub struct KVStore {
    index: Index,
    log: Ghost<Seq<RecordView>>,
}

impl View for KVStore {
    type V = Map<Seq<char>, Entry>;

    closed spec fn view(&self) -> Map<Seq<char>, Entry> {
        self.index@
    }
}

impl KVStore {
    /// The records that the log file holds.
    pub closed spec fn log(&self) -> Seq<RecordView> {
        self.log@
    }

    /// The records of the index, in its order.
    pub closed spec fn records(&self) -> Seq<RecordView> {
        self.index.records()
    }

    /// The index is well formed and is what replaying the log gives.
    pub closed spec fn wf(&self) -> bool {
        &&& self.index.wf()
        &&& replay(self.log@) == self.index@
    }

    /// Opens a store on the lines of an existing log, each decoded or `None`
    /// where it did not parse: the records are replayed in order, the last
    /// one of each key wins, expired ones are admitted (lookups filter them),
    /// and lines that did not parse are skipped.
    pub fn new(lines: &Vec<Option<KVPair>>) -> (r: KVStore)
        ensures
            r.wf(),
            r.log() == decoded_records(lines@.map_values(|o: Option<KVPair>| opt_view(o))),
            r@ == replay(r.log()),
    {
        let index = Index::from_lines(lines);
        let ghost log = decoded_records(lines@.map_values(|o: Option<KVPair>| opt_view(o)));
        let r = KVStore { index, log: Ghost(log) };
        proof {
            r.index.lemma_records_replay();
        }
        r
    }

    /// Writes `value` under `key`, to expire `ttl` seconds after `now` if a
    /// time-to-live is given. The returned write appends the new record.
    pub fn set(&mut self, key: String, value: String, ttl: Option<u64>, now: u64) -> (w: LogWrite)
        requires
            old(self).wf(),
        ensures
            final(self).wf(),
            final(self)@ == old(self)@.insert(
                key@,
                Entry { value: value@, expires_at: expiry_for(now, ttl) },
            ),
            w == LogWrite::Append(KVPair { key, value, expires_at: expiry_for(now, ttl) }),
            final(self).log() == applied(old(self).log(), w),
    {
        let expires_at = match ttl {
            None => None,
            Some(d) => Some(now.saturating_add(d)),
        };
        let rec = KVPair { key, value, expires_at };
        self.index.insert(rec.duplicate());
        let ghost log = self.log@.push(rec@);
        assert(log.drop_last() =~= self.log@);
        self.log = Ghost(log);
        proof {
            self.index.lemma_records_replay();
        }
        LogWrite::Append(rec)
    }

    /// The value of `key` at time `now`: none where it is absent or expired.
    pub fn get(&self, key: &str, now: u64) -> (r: Option<String>)
        requires
            self.wf(),
        ensures
            match r {
                Some(v) => visible(self@, key@, now) == Some(v@),
                None => visible(self@, key@, now) is None,
            },
    {
        let k = key.to_owned();
        match self.index.lookup(&k) {
            Some(p) => {
                if p.is_live(now) {
                    Some(p.value.clone())
                } else {
                    None
                }
            },
            None => None,
        }
    }

    /// Removes `key` and returns its value, if it was present (expired or not).
    /// Where something was removed, the returned write rewrites the log from
    /// what is left.
    pub fn delete(&mut self, key: &str) -> (r: (Option<String>, LogWrite))
        requires
            old(self).wf(),
        ensures
            final(self).wf(),
            final(self)@ == old(self)@.remove(key@),
            match r.0 {
                Some(v) => old(self)@.contains_key(key@) && v@ == old(self)@[key@].value,
                None => !old(self)@.contains_key(key@),
            },
            r.0 is None ==> r.1 == LogWrite::Nothing,
            r.0 is Some ==> r.1 is Rewrite,
            final(self).log() == applied(old(self).log(), r.1),
    {
        let k = key.to_owned();
        match self.index.remove(&k) {
            Some(p) => {
                proof {
                    self.index.lemma_records_replay();
                }
                let snap = self.index.snapshot();
                self.log = Ghost(snap@.map_values(|p: KVPair| p@));
                (Some(p.value), LogWrite::Rewrite(snap))
            },
            None => {
                assert(self.index@ =~= old(self).index@);
                (None, LogWrite::Nothing)
            },
        }
    }

    /// Every key present, each once, including keys whose record has expired
    /// but has not been purged yet.
    pub fn list_keys(&self) -> (r: Vec<String>)
        requires
            self.wf(),
        ensures
            forall|k: Seq<char>| self@.contains_key(k) <==> exists|i: int| 0 <= i < r@.len() && r@[i]@ == k,
            forall|i: int, j: int| 0 <= i < j < r@.len() ==> r@[i]@ != r@[j]@,
    {
        self.index.keys()
    }

    /// The records of a point-in-time snapshot of the store: one per key,
    /// replaying to the store's contents.
    pub fn write_snapshot(&self) -> (r: Vec<KVPair>)
        requires
            self.wf(),
        ensures
            r@.map_values(|p: KVPair| p@) == self.records(),
            keys_unique(self.records()),
            replay(self.records()) == self@,
    {
        self.index.snapshot()
    }

    /// One compaction cycle at time `now`: drops every expired record from the
    /// index, and returns the rewrite of the log from the records left.
    pub fn compact(&mut self, now: u64) -> (w: LogWrite)
        requires
            old(self).wf(),
        ensures
            final(self).wf(),
            final(self)@ == live_part(old(self)@, now),
            final(self).records() == live_records(old(self).records(), now),
            w is Rewrite,
            final(self).log() == applied(old(self).log(), w),
            final(self).log() == final(self).records(),
    {
        self.index.purge_expired(now);
        proof {
            self.index.lemma_records_replay();
        }
        let snap = self.index.snapshot();
        self.log = Ghost(snap@.map_values(|p: KVPair| p@));
        LogWrite::Rewrite(snap)
    }

    /// Replaces the whole state by that of the log lines of a backup, after the
    /// backup has been copied over the live log: all that was held is dropped.
    pub fn restore(&mut self, lines: &Vec<Option<KVPair>>)
        ensures
            final(self).wf(),
            final(self).log() == decoded_records(lines@.map_values(|o: Option<KVPair>| opt_view(o))),
            final(self)@ == replay(final(self).log()),
    {
        *self = KVStore::new(lines);
    }
}

} // verus!
