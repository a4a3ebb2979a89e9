use vstd::prelude::*;

use crate::record::{
    decoded_records, expiry_for, lemma_live_records_twice, lemma_replay_absent, live_part,
    live_records, replay, visible, Entry, RecordView,
};

verus! {

/// A key that no record of the log was ever written for is seen as absent,
/// whatever the time; a store opened on an empty log holds no key.
pub proof fn lemma_unset_key_absent(log: Seq<RecordView>, k: Seq<char>, now: u64)
    requires
        forall|i: int| 0 <= i < log.len() ==> log[i].key != k,
    ensures
        visible(replay(log), k, now) is None,
        replay(Seq::<RecordView>::empty()) == Map::<Seq<char>, Entry>::empty(),
{
    lemma_replay_absent(log, k);
}

/// A value written without a time-to-live is seen at every later time.
pub proof fn lemma_set_without_ttl(m: Map<Seq<char>, Entry>, k: Seq<char>, v: Seq<char>, now: u64)
    ensures
        visible(m.insert(k, Entry { value: v, expires_at: None }), k, now) == Some(v),
{
}

/// Writes and deletes of other keys leave what a key shows unchanged, and so
/// does a compaction run at or before the time of the lookup.
pub proof fn lemma_other_operations_keep(
    m: Map<Seq<char>, Entry>,
    k: Seq<char>,
    k2: Seq<char>,
    e: Entry,
    t: u64,
    now: u64,
)
    requires
        k2 != k,
        t <= now,
    ensures
        visible(m.insert(k2, e), k, now) == visible(m, k, now),
        visible(m.remove(k2), k, now) == visible(m, k, now),
        visible(live_part(m, t), k, now) == visible(m, k, now),
{
}

/// A value written at `now` with time-to-live `ttl` is seen at `now`, and at a
/// later time exactly until `now + ttl` has passed.
pub proof fn lemma_set_with_ttl(
    m: Map<Seq<char>, Entry>,
    k: Seq<char>,
    v: Seq<char>,
    now: u64,
    ttl: u64,
    later: u64,
)
    ensures
        visible(m.insert(k, Entry { value: v, expires_at: expiry_for(now, Some(ttl)) }), k, now)
            == Some(v),
        later > now + ttl ==> visible(
            m.insert(k, Entry { value: v, expires_at: expiry_for(now, Some(ttl)) }),
            k,
            later,
        ) is None,
        later <= now + ttl ==> visible(
            m.insert(k, Entry { value: v, expires_at: expiry_for(now, Some(ttl)) }),
            k,
            later,
        ) == Some(v),
{
}

/// After a delete the key is seen as absent.
pub proof fn lemma_delete_hides(m: Map<Seq<char>, Entry>, k: Seq<char>, now: u64)
    ensures
        visible(m.remove(k), k, now) is None,
{
}

/// Replaying a log gives each key the entry of the last record written for it.
pub proof fn lemma_last_write_wins(log: Seq<RecordView>, i: int)
    requires
        0 <= i < log.len(),
        forall|j: int| i < j < log.len() ==> log[j].key != log[i].key,
    ensures
        replay(log).contains_key(log[i].key),
        replay(log)[log[i].key] == log[i].entry(),
    decreases log.len(),
{
    if i < log.len() - 1 {
        let t = log.drop_last();
        assert(t[i] == log[i]);
        assert forall|j: int| i < j < t.len() implies t[j].key != t[i].key by {
            assert(t[j] == log[j]);
        }
        lemma_last_write_wins(t, i);
    }
}

/// Reopening on the lines of a log, each read back as the record written,
/// gives back the same records, and so the same contents.
pub proof fn lemma_restart(log: Seq<RecordView>)
    ensures
        decoded_records(log.map_values(|r: RecordView| Some(r))) == log,
        replay(decoded_records(log.map_values(|r: RecordView| Some(r)))) == replay(log),
    decreases log.len(),
{
    if log.len() > 0 {
        let t = log.drop_last();
        lemma_restart(t);
        assert(log.map_values(|r: RecordView| Some(r)).drop_last() =~= t.map_values(
            |r: RecordView| Some(r),
        ));
        assert(t.push(log.last()) =~= log);
    }
}

/// A second compaction, at the same time or later, with no write in between,
/// writes the same log as one compaction at that time; on the contents, a
/// second compaction at the same time changes nothing.
pub proof fn lemma_compaction_idempotent(
    log: Seq<RecordView>,
    m: Map<Seq<char>, Entry>,
    t1: u64,
    t2: u64,
)
    requires
        t1 <= t2,
    ensures
        live_records(live_records(log, t1), t2) == live_records(log, t2),
        live_records(live_records(log, t1), t1) == live_records(log, t1),
        live_part(live_part(m, t1), t1) == live_part(m, t1),
{
    lemma_live_records_twice(log, t1, t2);
    lemma_live_records_twice(log, t1, t1);
    assert(live_part(live_part(m, t1), t1) =~= live_part(m, t1));
}

/// Restoring a backup taken right after writing `v1` under `k` shows `v1`
/// again, whatever was written after the backup: the store is rebuilt from
/// the backup's records alone.
pub proof fn lemma_backup_restore(
    log: Seq<RecordView>,
    k: Seq<char>,
    v1: Seq<char>,
    v2: Seq<char>,
    now: u64,
)
    ensures
        ({
            let backup = log.push(RecordView { key: k, value: v1, expires_at: None });
            let live = backup.push(RecordView { key: k, value: v2, expires_at: None });
            &&& visible(replay(live), k, now) == Some(v2)
            &&& decoded_records(backup.map_values(|r: RecordView| Some(r))) == backup
            &&& visible(replay(backup), k, now) == Some(v1)
        }),
{
    let backup = log.push(RecordView { key: k, value: v1, expires_at: None });
    let live = backup.push(RecordView { key: k, value: v2, expires_at: None });
    assert(live.drop_last() =~= backup);
    assert(backup.drop_last() =~= log);
    lemma_restart(backup);
}

} // verus!
