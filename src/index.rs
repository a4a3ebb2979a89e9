use vstd::prelude::*;

use crate::record::{lemma_live_replay, live_part, live_records, decoded_records, opt_view, keys_unique, lemma_replay_absent, lemma_replay_contains, lemma_replay_unique, replay, Entry, KVPair, RecordView};

verus! {

/// Where keys are unique, dropping one record drops exactly its key.
pub proof fn lemma_replay_remove(s: Seq<RecordView>, i: int)
    requires
        keys_unique(s),
        0 <= i < s.len(),
    ensures
        keys_unique(s.remove(i)),
        replay(s.remove(i)) == replay(s).remove(s[i].key),
{
    let t = s.remove(i);
    let k = s[i].key;
    assert forall|a: int, b: int| 0 <= a < b < t.len() implies t[a].key != t[b].key by {
        let a2 = if a < i { a } else { a + 1 };
        let b2 = if b < i { b } else { b + 1 };
        assert(t[a] == s[a2] && t[b] == s[b2]);
    }
    assert forall|x: Seq<char>| #[trigger] replay(t).contains_key(x) == replay(s).remove(k).contains_key(x)
        by {
        lemma_replay_contains(t, x);
        lemma_replay_contains(s, x);
        if exists|j: int| 0 <= j < s.len() && s[j].key == x && x != k {
            let j = choose|j: int| 0 <= j < s.len() && s[j].key == x && x != k;
            let j2 = if j < i { j } else { j - 1 };
            assert(t[j2] == s[j]);
        }
        if exists|j: int| 0 <= j < t.len() && t[j].key == x {
            let j = choose|j: int| 0 <= j < t.len() && t[j].key == x;
            let j2 = if j < i { j } else { j + 1 };
            assert(t[j] == s[j2]);
        }
    }
    assert forall|x: Seq<char>| #[trigger] replay(t).contains_key(x) implies replay(t)[x] == replay(s)[x]
        by {
        lemma_replay_contains(t, x);
        let j = choose|j: int| 0 <= j < t.len() && t[j].key == x;
        let j2 = if j < i { j } else { j + 1 };
        assert(t[j] == s[j2]);
        lemma_replay_unique(t, j);
        lemma_replay_unique(s, j2);
    }
    assert(replay(t) =~= replay(s).remove(k));
}

/// The in-memory index: for each key, its one current record.
pub struct Index {
    entries: Vec<KVPair>,
}

impl Index {
    /// The records held, in their order.
    pub closed spec fn records(&self) -> Seq<RecordView> {
        self.entries@.map_values(|r: KVPair| r@)
    }

    /// The index holds at most one record per key.
    pub closed spec fn wf(&self) -> bool {
        keys_unique(self.records())
    }

    /// A well-formed index is the replay of its own records.
    pub proof fn lemma_records_replay(&self)
        requires
            self.wf(),
        ensures
            keys_unique(self.records()),
            replay(self.records()) == self@,
    {
    }

    /// An index with no records.
    pub fn new() -> (r: Index)
        ensures
            r.wf(),
            r@ == Map::<Seq<char>, Entry>::empty(),
            r.records() == Seq::<RecordView>::empty(),
    {
        let r = Index { entries: Vec::new() };
        assert(r.records() =~= Seq::<RecordView>::empty());
        r
    }

    /// The position of `key`'s record, if there is one.
    fn find(&self, key: &String) -> (r: Option<usize>)
        requires
            self.wf(),
        ensures
            match r {
                Some(i) => i < self.records().len() && self.records()[i as int].key == key@,
                None => forall|i: int| 0 <= i < self.records().len() ==> self.records()[i].key != key@,
            },
    {
        let mut i: usize = 0;
        while i < self.entries.len()
            invariant
                i <= self.entries.len(),
                forall|j: int| 0 <= j < i ==> self.records()[j].key != key@,
            decreases self.entries.len() - i,
        {
            if self.entries[i].key == *key {
                return Some(i);
            }
            i = i + 1;
        }
        None
    }

    /// Stores `rec`, replacing any record of the same key.
    pub fn insert(&mut self, rec: KVPair)
        requires
            old(self).wf(),
        ensures
            final(self).wf(),
            final(self)@ == old(self)@.insert(rec@.key, rec@.entry()),
    {
        let ghost s0 = self.records();
        match self.find(&rec.key) {
            Some(i) => {
                proof {
                    lemma_replay_remove(s0, i as int);
                }
                self.entries.remove(i);
                assert(self.records() =~= s0.remove(i as int));
            },
            None => {},
        }
        let ghost s1 = self.records();
        proof {
            lemma_replay_contains(s1, rec@.key);
        }
        self.entries.push(rec);
        assert(self.records() =~= s1.push(rec@));
        assert(self.records().drop_last() =~= s1);
        assert(self@ =~= old(self)@.insert(rec@.key, rec@.entry()));
    }

    /// The current record of `key`, if any.
    pub fn lookup(&self, key: &String) -> (r: Option<&KVPair>)
        requires
            self.wf(),
        ensures
            match r {
                Some(p) => self@.contains_key(key@) && p@.key == key@ && p@.entry() == self@[key@],
                None => !self@.contains_key(key@),
            },
    {
        match self.find(key) {
            Some(i) => {
                proof {
                    lemma_replay_unique(self.records(), i as int);
                }
                Some(&self.entries[i])
            },
            None => {
                proof {
                    lemma_replay_absent(self.records(), key@);
                }
                None
            },
        }
    }

    /// Takes out the record of `key`, if any, and returns it.
    pub fn remove(&mut self, key: &String) -> (r: Option<KVPair>)
        requires
            old(self).wf(),
        ensures
            final(self).wf(),
            final(self)@ == old(self)@.remove(key@),
            match r {
                Some(p) => old(self)@.contains_key(key@) && p@.key == key@ && p@.entry() == old(self)@[key@],
                None => !old(self)@.contains_key(key@),
            },
    {
        let ghost s0 = self.records();
        match self.find(key) {
            Some(i) => {
                proof {
                    lemma_replay_remove(s0, i as int);
                    lemma_replay_unique(s0, i as int);
                }
                let p = self.entries.remove(i);
                assert(self.records() =~= s0.remove(i as int));
                Some(p)
            },
            None => {
                proof {
                    lemma_replay_absent(s0, key@);
                }
                assert(self@ =~= old(self)@.remove(key@));
                None
            },
        }
    }
    /// The keys present, each once, with no regard to expiry.
    pub fn keys(&self) -> (r: Vec<String>)
        requires
            self.wf(),
        ensures
            forall|k: Seq<char>| self@.contains_key(k) <==> exists|i: int| 0 <= i < r@.len() && r@[i]@ == k,
            forall|i: int, j: int| 0 <= i < j < r@.len() ==> r@[i]@ != r@[j]@,
    {
        let mut r: Vec<String> = Vec::new();
        let mut i: usize = 0;
        while i < self.entries.len()
            invariant
                i <= self.entries.len(),
                r@.len() == i,
                forall|j: int| 0 <= j < i ==> r@[j]@ == self.records()[j].key,
            decreases self.entries.len() - i,
        {
            r.push(self.entries[i].key.clone());
            i = i + 1;
        }
        assert forall|k: Seq<char>| self@.contains_key(k) <==> exists|i: int| 0 <= i < r@.len() && r@[i]@ == k by {
            lemma_replay_contains(self.records(), k);
            if exists|i: int| 0 <= i < r@.len() && r@[i]@ == k {
                let i = choose|i: int| 0 <= i < r@.len() && r@[i]@ == k;
                assert(self.records()[i].key == k);
            }
            if exists|i: int| 0 <= i < self.records().len() && self.records()[i].key == k {
                let i = choose|i: int| 0 <= i < self.records().len() && self.records()[i].key == k;
                assert(r@[i]@ == k);
            }
        }
        r
    }

    /// A copy of every record held, in the index's order: replaying it gives
    /// the index back.
    pub fn snapshot(&self) -> (r: Vec<KVPair>)
        requires
            self.wf(),
        ensures
            r@.map_values(|p: KVPair| p@) == self.records(),
            keys_unique(self.records()),
            replay(self.records()) == self@,
    {
        let mut r: Vec<KVPair> = Vec::new();
        let mut i: usize = 0;
        while i < self.entries.len()
            invariant
                i <= self.entries.len(),
                r@.len() == i,
                forall|j: int| 0 <= j < i ==> r@[j]@ == self.records()[j],
            decreases self.entries.len() - i,
        {
            r.push(self.entries[i].duplicate());
            i = i + 1;
        }
        assert(r@.map_values(|p: KVPair| p@) =~= self.records());
        r
    }

    /// Drops every record that has expired at `now`, keeping the order of the rest.
    pub fn purge_expired(&mut self, now: u64)
        requires
            old(self).wf(),
        ensures
            final(self).wf(),
            final(self).records() == live_records(old(self).records(), now),
            final(self)@ == live_part(old(self)@, now),
    {
        let ghost s0 = self.records();
        let mut kept: Vec<KVPair> = Vec::new();
        let mut i: usize = 0;
        while i < self.entries.len()
            invariant
                i <= self.entries.len(),
                self.records() == s0,
                kept@.map_values(|p: KVPair| p@) == live_records(s0.take(i as int), now),
            decreases self.entries.len() - i,
        {
            let ghost before = kept@;
            let p = self.entries[i].duplicate();
            assert(s0.take(i as int + 1).drop_last() =~= s0.take(i as int));
            if p.is_live(now) {
                kept.push(p);
                assert(kept@.map_values(|p: KVPair| p@) =~= before.map_values(|p: KVPair| p@).push(p@));
            }
            i = i + 1;
        }
        assert(s0.take(i as int) =~= s0);
        self.entries = kept;
        proof {
            lemma_live_replay(s0, now);
        }
    }

    /// An index built by replaying `lines` in order, skipping those that did not
    /// decode to a record.
    pub fn from_lines(lines: &Vec<Option<KVPair>>) -> (r: Index)
        ensures
            r.wf(),
            r@ == replay(decoded_records(lines@.map_values(|o: Option<KVPair>| opt_view(o)))),
    {
        let ghost ls = lines@.map_values(|o: Option<KVPair>| opt_view(o));
        let mut r = Index::new();
        let mut i: usize = 0;
        while i < lines.len()
            invariant
                ls == lines@.map_values(|o: Option<KVPair>| opt_view(o)),
                i <= lines.len(),
                r.wf(),
                r@ == replay(decoded_records(ls.take(i as int))),
            decreases lines.len() - i,
        {
            assert(ls.take(i as int + 1).drop_last() =~= ls.take(i as int));
            assert(ls.take(i as int + 1).last() == opt_view(lines@[i as int]));
            match &lines[i] {
                Some(p) => {
                    let ghost d = decoded_records(ls.take(i as int));
                    assert(d.push(p@).drop_last() =~= d);
                    r.insert(p.duplicate());
                },
                None => {},
            }
            i = i + 1;
        }
        assert(ls.take(i as int) =~= ls);
        r
    }
}

impl View for Index {
    type V = Map<Seq<char>, Entry>;

    closed spec fn view(&self) -> Map<Seq<char>, Entry> {
        replay(self.records())
    }
}

} // verus!
