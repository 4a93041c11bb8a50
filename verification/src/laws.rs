//! What holds of the store across operations.
use vstd::prelude::*;

use crate::bigendian::{
    be16_at, be16_bytes, be32_at, be32_bytes, lemma_be16_roundtrip, lemma_be32_roundtrip,
};
use crate::checksum::crc32;
use crate::error::{ErrorKind, StoreError};
use crate::record::{
    encodable, encode_command, lemma_decode_bounds, lemma_decode_canonical, lemma_decode_encoded,
    lemma_decode_truncated, record_bytes, spec_decode, spec_header, CommandView, DELETE_TAG,
    SET_TAG,
};
use crate::replay::{
    apply_command, index_sound, lemma_replay_append, lemma_replay_one, replay, replay_log,
    IndexEntry,
};
use crate::store::{contents, read_value, KVStore, PendingWrite};
use crate::text::{decimal, digit_char};
use vstd::utf8::encode_utf8;

verus! {

/// The log that compaction writes: one record setting each of `keys`, in
/// order, to its value in `values`.
pub open spec fn compacted_log(keys: Seq<Seq<char>>, values: Map<Seq<char>, Seq<char>>) -> Seq<u8>
    decreases keys.len(),
{
    if keys.len() == 0 {
        Seq::empty()
    } else {
        compacted_log(keys.drop_last(), values) + encode_command(
            CommandView::Put(keys.last(), values[keys.last()]),
        )->Ok_0
    }
}

/// Reading a key back after a write: once a record that sets a key is
/// committed, the key's record reads back as the value written; once a
/// record that deletes a key is committed, the key is gone; every other key
/// keeps its value.
pub proof fn law_read_after_write(
    before: KVStore,
    after: KVStore,
    write: PendingWrite,
    other: Seq<char>,
)
    requires
        before.wf(),
        after.wf(),
        write.wf(),
        after.log() == before.log() + write.record_bytes(),
        after.index() == apply_command(
            before.index(),
            write.command(),
            before.log().len(),
            write.record_bytes().len(),
        ),
        other != write.command().key(),
    ensures
        match write.command() {
            CommandView::Put(k, v) => {
                let e = after.index()[k];
                &&& after@.contains_key(k)
                &&& after@[k] == v
                &&& read_value(k, after.log().subrange(e.offset as int, (e.offset + e.len) as int))
                    == Ok::<Seq<char>, StoreError>(v)
            },
            CommandView::Delete(k) => !after@.contains_key(k),
        },
        after@.contains_key(other) == before@.contains_key(other),
        after@.contains_key(other) ==> after@[other] == before@[other],
{
    after.lemma_wf();
    before.lemma_wf();
    if let CommandView::Put(k, v) = write.command() {
        assert(after.index().contains_key(k));
    }
    if before.index().contains_key(other) {
        assert(after.index()[other] == before.index()[other]);
    }
}

/// A log cut short in the middle of a record, as a crash during an append
/// leaves it, replays to the store it held before the append, with a torn
/// tail that starts where the cut record starts.
pub proof fn law_torn_tail_recovered(store: KVStore, c: CommandView, cut: nat)
    requires
        store.wf(),
        encodable(c),
        0 < cut < encode_command(c)->Ok_0.len(),
    ensures
        replay_log(store.log() + encode_command(c)->Ok_0.subrange(0, cut as int)) == Ok::<
            (Map<Seq<char>, IndexEntry>, nat, bool),
            StoreError,
        >((store.index(), store.log().len(), true)),
{
    store.lemma_wf();
    let r = encode_command(c)->Ok_0;
    let partial = r.subrange(0, cut as int);
    lemma_decode_encoded(c, Seq::empty());
    assert(r + Seq::<u8>::empty() =~= r);
    lemma_decode_truncated(r, cut);
    lemma_replay_append(store.log(), partial, 0, Map::empty());
    lemma_decode_bounds(partial);
}

/// Reopening a store's log restores the store: the replay of the log gives
/// back its key directory, with no torn tail.
pub proof fn law_reopen_restores(store: KVStore)
    requires
        store.wf(),
    ensures
        replay_log(store.log()) matches Ok((index, end, torn)) && !torn && end == store.log().len()
            && contents(index) == store@,
{
    store.lemma_wf();
}

/// Compaction keeps the contents: replaying the log that holds one record
/// per live key, with its current value, gives back exactly the store's
/// contents, with no torn tail.
pub proof fn law_compaction_preserves_contents(store: KVStore, keys: Seq<Seq<char>>)
    requires
        store.wf(),
        keys.no_duplicates(),
        keys.to_set() == store@.dom(),
    ensures
        replay_log(compacted_log(keys, store@)) matches Ok((index, end, torn)) && !torn && end
            == compacted_log(keys, store@).len() && contents(index) == store@,
{
    store.lemma_wf();
    assert forall|k: Seq<char>| store@.contains_key(k) implies encodable(
        CommandView::Put(k, store@[k]),
    ) by {
        let e = store.index()[k];
        lemma_decode_canonical(store.log().subrange(e.offset as int, (e.offset + e.len) as int));
    }
    assert forall|i: int| 0 <= i < keys.len() implies store@.contains_key(#[trigger] keys[i])
        && encodable(CommandView::Put(keys[i], store@[keys[i]])) by {
        assert(keys.to_set().contains(keys[i]));
    }
    lemma_compacted_replay(keys, store@);
    assert(store@.restrict(keys.to_set()) =~= store@);
}

proof fn lemma_compacted_replay(keys: Seq<Seq<char>>, values: Map<Seq<char>, Seq<char>>)
    requires
        keys.no_duplicates(),
        forall|i: int| 0 <= i < keys.len() ==> values.contains_key(#[trigger] keys[i]),
        forall|i: int|
            0 <= i < keys.len() ==> encodable(CommandView::Put(#[trigger] keys[i], values[keys[i]])),
    ensures
        replay_log(compacted_log(keys, values)) matches Ok((index, end, torn)) && !torn && end
            == compacted_log(keys, values).len() && contents(index) == values.restrict(
            keys.to_set(),
        ),
    decreases keys.len(),
{
    if keys.len() == 0 {
        lemma_decode_bounds(Seq::<u8>::empty());
        assert(contents(Map::<Seq<char>, IndexEntry>::empty()) =~= values.restrict(keys.to_set()));
    } else {
        let init = keys.drop_last();
        assert forall|i: int| 0 <= i < init.len() implies values.contains_key(#[trigger] init[i])
            && encodable(CommandView::Put(init[i], values[init[i]])) by {
            assert(init[i] == keys[i]);
        }
        lemma_compacted_replay(init, values);
        lemma_compacted_step(keys, values);
    }
}

#[verifier::spinoff_prover]
proof fn lemma_compacted_step(keys: Seq<Seq<char>>, values: Map<Seq<char>, Seq<char>>)
    requires
        keys.len() > 0,
        values.contains_key(keys.last()),
        encodable(CommandView::Put(keys.last(), values[keys.last()])),
        replay_log(compacted_log(keys.drop_last(), values)) matches Ok((index, end, torn)) && !torn
            && end == compacted_log(keys.drop_last(), values).len() && contents(index)
            == values.restrict(keys.drop_last().to_set()),
    ensures
        replay_log(compacted_log(keys, values)) matches Ok((index, end, torn)) && !torn && end
            == compacted_log(keys, values).len() && contents(index) == values.restrict(
            keys.to_set(),
        ),
{
    let init = keys.drop_last();
    let k = keys.last();
    let prefix = compacted_log(init, values);
    let c = CommandView::Put(k, values[k]);
    let r = encode_command(c)->Ok_0;
    let m = replay_log(prefix)->Ok_0.0;
    assert(compacted_log(keys, values) == prefix + r);
    lemma_replay_append(prefix, r, 0, Map::empty());
    lemma_replay_one(c, prefix.len(), m);
    lemma_to_set_drop_last(keys);
    let m2 = apply_command(m, c, prefix.len(), r.len());
    let goal = values.restrict(keys.to_set());
    assert(contents(m) == values.restrict(init.to_set()));
    assert forall|x: Seq<char>| #[trigger] contents(m2).contains_key(x) <==> goal.contains_key(x) by {
        assert(contents(m).contains_key(x) <==> m.contains_key(x));
        assert(values.restrict(init.to_set()).contains_key(x) <==> (values.contains_key(x)
            && init.to_set().contains(x)));
    }
    assert forall|x: Seq<char>| #[trigger] contents(m2).contains_key(x) implies contents(m2)[x]
        == goal[x] by {
        if x != k {
            assert(contents(m).contains_key(x));
            assert(contents(m)[x] == values.restrict(init.to_set())[x]);
        }
    }
    assert(contents(m2) =~= goal);
}

proof fn lemma_to_set_drop_last(keys: Seq<Seq<char>>)
    requires
        keys.len() > 0,
    ensures
        keys.to_set() == keys.drop_last().to_set().insert(keys.last()),
{
    let init = keys.drop_last();
    let k = keys.last();
    assert forall|x: Seq<char>| keys.to_set().contains(x) implies init.to_set().insert(k).contains(
        x,
    ) by {
        let i = choose|i: int| 0 <= i < keys.len() && keys[i] == x;
        if i < keys.len() - 1 {
            assert(init[i] == x);
        }
    }
    assert forall|x: Seq<char>| init.to_set().insert(k).contains(x) implies keys.to_set().contains(
        x,
    ) by {
        if x != k {
            let i = choose|i: int| 0 <= i < init.len() && init[i] == x;
            assert(keys[i] == x);
        } else {
            assert(keys[keys.len() - 1] == x);
        }
    }
    assert(keys.to_set() =~= init.to_set().insert(k));
}

/// The log that records the commands `cs`, one record each, in order.
pub open spec fn history_log(cs: Seq<CommandView>) -> Seq<u8>
    decreases cs.len(),
{
    if cs.len() == 0 {
        Seq::empty()
    } else {
        history_log(cs.drop_last()) + encode_command(cs.last())->Ok_0
    }
}

/// The value the latest command on `key` in `cs` leaves it with: the value
/// of a set, nothing after a delete or when no command names the key.
pub open spec fn latest_value(cs: Seq<CommandView>, key: Seq<char>) -> Option<Seq<char>>
    decreases cs.len(),
{
    if cs.len() == 0 {
        None
    } else if cs.last().key() == key {
        match cs.last() {
            CommandView::Put(_, v) => Some(v),
            CommandView::Delete(_) => None,
        }
    } else {
        latest_value(cs.drop_last(), key)
    }
}

/// Reading a key gives the latest write to it: in a store whose log
/// records the commands `cs`, a key is live exactly when the latest command
/// on it sets it, its value is the value set, and its record reads back as
/// that value; a key deleted last, or never written, reads as absent.
#[verifier::spinoff_prover]
pub proof fn law_get_returns_latest_write(store: KVStore, cs: Seq<CommandView>, key: Seq<char>)
    requires
        store.wf(),
        forall|i: int| 0 <= i < cs.len() ==> encodable(#[trigger] cs[i]),
        store.log() == history_log(cs),
    ensures
        store@.contains_key(key) <==> latest_value(cs, key) is Some,
        latest_value(cs, key) matches Some(v) ==> {
            let e = store.index()[key];
            &&& store@[key] == v
            &&& read_value(key, store.log().subrange(e.offset as int, (e.offset + e.len) as int))
                == Ok::<Seq<char>, StoreError>(v)
        },
{
    store.lemma_wf();
    lemma_history_replay(cs);
    let index = store.index();
    assert(replay_log(history_log(cs))->Ok_0.0 == index);
    let lv = latest_value(cs, key);
    assert(contents(index).contains_key(key) <==> lv is Some);
    if lv is Some {
        let e = index[key];
        assert(contents(index)[key] == lv->Some_0);
        assert(index.contains_key(key));
        assert(spec_decode(store.log().subrange(e.offset as int, (e.offset + e.len) as int))
            == Ok::<Option<(CommandView, nat)>, StoreError>(
            Some((CommandView::Put(key, e.value), e.len)),
        ));
    }
}

proof fn lemma_history_replay(cs: Seq<CommandView>)
    requires
        forall|i: int| 0 <= i < cs.len() ==> encodable(#[trigger] cs[i]),
    ensures
        replay_log(history_log(cs)) matches Ok((index, end, torn)) && !torn && end
            == history_log(cs).len() && forall|k: Seq<char>|
            #![trigger contents(index).contains_key(k)]
            {
                &&& contents(index).contains_key(k) <==> latest_value(cs, k) is Some
                &&& latest_value(cs, k) matches Some(v) ==> contents(index)[k] == v
            },
    decreases cs.len(),
{
    if cs.len() == 0 {
        lemma_decode_bounds(Seq::<u8>::empty());
    } else {
        let init = cs.drop_last();
        assert forall|i: int| 0 <= i < init.len() implies encodable(#[trigger] init[i]) by {
            assert(init[i] == cs[i]);
        }
        lemma_history_replay(init);
        let prefix = history_log(init);
        let c = cs.last();
        assert(encodable(cs[cs.len() - 1]));
        let r = encode_command(c)->Ok_0;
        let m = replay_log(prefix)->Ok_0.0;
        lemma_replay_append(prefix, r, 0, Map::empty());
        lemma_replay_one(c, prefix.len(), m);
        let m2 = apply_command(m, c, prefix.len(), r.len());
        assert forall|k: Seq<char>| #![trigger contents(m2).contains_key(k)] {
            &&& contents(m2).contains_key(k) <==> latest_value(cs, k) is Some
            &&& latest_value(cs, k) matches Some(v) ==> contents(m2)[k] == v
        } by {
            assert(contents(m).contains_key(k) <==> latest_value(init, k) is Some);
        }
    }
}

/// The sum of `w` over `keys`.
pub open spec fn weight_sum(keys: Seq<Seq<char>>, w: spec_fn(Seq<char>) -> nat) -> nat
    decreases keys.len(),
{
    if keys.len() == 0 {
        0
    } else {
        weight_sum(keys.drop_last(), w) + w(keys.last())
    }
}

/// The record length of each key of an index.
pub open spec fn entry_len(index: Map<Seq<char>, IndexEntry>) -> spec_fn(Seq<char>) -> nat {
    |k: Seq<char>| index[k].len
}

/// The length of the record that sets each key to its value in `values`.
pub open spec fn record_weight(values: Map<Seq<char>, Seq<char>>) -> spec_fn(Seq<char>) -> nat {
    |k: Seq<char>| encode_command(CommandView::Put(k, values[k]))->Ok_0.len()
}

/// The records compaction writes for `keys`, one per key.
pub open spec fn compacted_records(keys: Seq<Seq<char>>, values: Map<Seq<char>, Seq<char>>) -> Seq<
    Seq<u8>,
> {
    keys.map_values(|k: Seq<char>| encode_command(CommandView::Put(k, values[k]))->Ok_0)
}

/// Compaction never grows the log: the compacted log is no longer than the
/// log it replaces.
pub proof fn law_compaction_never_grows(store: KVStore, keys: Seq<Seq<char>>)
    requires
        store.wf(),
        keys.no_duplicates(),
        keys.to_set() == store@.dom(),
    ensures
        compacted_log(keys, store@).len() <= store.log().len(),
{
    store.lemma_wf();
    let index = store.index();
    assert(Seq::<Seq<char>>::empty().to_set() =~= Map::<Seq<char>, IndexEntry>::empty().dom());
    lemma_replay_live_bytes(store.log(), 0, Map::empty(), Seq::empty());
    let order = choose|o: Seq<Seq<char>>|
        o.no_duplicates() && o.to_set() == index.dom() && weight_sum(o, entry_len(index))
            <= store.log().len();
    assert(keys.to_set() == index.dom());
    lemma_weight_sum_perm(keys, order, entry_len(index));
    assert forall|i: int| 0 <= i < keys.len() implies #[trigger] record_weight(store@)(keys[i])
        == entry_len(index)(keys[i]) by {
        let k = keys[i];
        assert(keys.to_set().contains(k));
        let e = index[k];
        lemma_decode_canonical(store.log().subrange(e.offset as int, (e.offset + e.len) as int));
    }
    lemma_weight_sum_congruent(keys, record_weight(store@), entry_len(index));
    lemma_compacted_log_len(keys, store@);
}

/// Compaction is idempotent: the compacted log reopens to the same
/// contents, and compacting it again, in whatever key order, writes the same
/// multiset of records, so a log of the same length.
pub proof fn law_compaction_idempotent(
    store: KVStore,
    keys: Seq<Seq<char>>,
    keys2: Seq<Seq<char>>,
)
    requires
        store.wf(),
        keys.no_duplicates(),
        keys.to_set() == store@.dom(),
        keys2.no_duplicates(),
        keys2.to_set() == store@.dom(),
    ensures
        replay_log(compacted_log(keys, store@)) matches Ok((index, _, torn)) && !torn && contents(
            index,
        ) == store@ && compacted_log(keys2, contents(index)).len() == compacted_log(
            keys,
            store@,
        ).len(),
        compacted_records(keys2, store@).to_multiset() == compacted_records(
            keys,
            store@,
        ).to_multiset(),
{
    law_compaction_preserves_contents(store, keys);
    store.lemma_wf();
    let index = store.index();
    assert forall|k: Seq<char>| store@.contains_key(k) implies encodable(
        CommandView::Put(k, store@[k]),
    ) by {
        let e = index[k];
        lemma_decode_canonical(store.log().subrange(e.offset as int, (e.offset + e.len) as int));
    }
    lemma_compacted_log_len(keys, store@);
    lemma_compacted_log_len(keys2, store@);
    lemma_weight_sum_perm(keys2, keys, record_weight(store@));
    lemma_records_distinct(keys, store@);
    lemma_records_distinct(keys2, store@);
    let f = |k: Seq<char>| encode_command(CommandView::Put(k, store@[k]))->Ok_0;
    keys.lemma_to_set_map_commutes(f);
    keys2.lemma_to_set_map_commutes(f);
    let r1 = compacted_records(keys, store@);
    let r2 = compacted_records(keys2, store@);
    assert(r1 == keys.map_values(f));
    assert(r2 == keys2.map_values(f));
    assert(r1.to_set() == r2.to_set());
    r1.lemma_multiset_has_no_duplicates();
    r2.lemma_multiset_has_no_duplicates();
    assert forall|x: Seq<u8>| r2.to_multiset().count(x) == r1.to_multiset().count(x) by {
        vstd::seq_lib::to_multiset_contains(r1, x);
        vstd::seq_lib::to_multiset_contains(r2, x);
        assert(r1.to_set().contains(x) <==> r1.contains(x));
        assert(r2.to_set().contains(x) <==> r2.contains(x));
    }
    assert(r2.to_multiset() =~= r1.to_multiset());
}

/// Distinct live keys have distinct compaction records.
proof fn lemma_records_distinct(keys: Seq<Seq<char>>, values: Map<Seq<char>, Seq<char>>)
    requires
        keys.no_duplicates(),
        forall|k: Seq<char>| values.contains_key(k) ==> encodable(CommandView::Put(k, values[k])),
        forall|i: int| 0 <= i < keys.len() ==> values.contains_key(#[trigger] keys[i]),
    ensures
        compacted_records(keys, values).no_duplicates(),
{
    let r = compacted_records(keys, values);
    assert forall|i: int, j: int| 0 <= i < r.len() && 0 <= j < r.len() && i != j implies r[i]
        != r[j] by {
        let ci = CommandView::Put(keys[i], values[keys[i]]);
        let cj = CommandView::Put(keys[j], values[keys[j]]);
        assert(values.contains_key(keys[i]));
        assert(values.contains_key(keys[j]));
        lemma_decode_encoded(ci, Seq::empty());
        lemma_decode_encoded(cj, Seq::empty());
        assert(r[i] + Seq::<u8>::empty() =~= r[i]);
        assert(r[j] + Seq::<u8>::empty() =~= r[j]);
    }
}

proof fn lemma_compacted_log_len(keys: Seq<Seq<char>>, values: Map<Seq<char>, Seq<char>>)
    ensures
        compacted_log(keys, values).len() == weight_sum(keys, record_weight(values)),
    decreases keys.len(),
{
    if keys.len() > 0 {
        lemma_compacted_log_len(keys.drop_last(), values);
    }
}

proof fn lemma_weight_sum_congruent(
    keys: Seq<Seq<char>>,
    w1: spec_fn(Seq<char>) -> nat,
    w2: spec_fn(Seq<char>) -> nat,
)
    requires
        forall|i: int| 0 <= i < keys.len() ==> w1(#[trigger] keys[i]) == w2(keys[i]),
    ensures
        weight_sum(keys, w1) == weight_sum(keys, w2),
    decreases keys.len(),
{
    if keys.len() > 0 {
        let init = keys.drop_last();
        assert forall|i: int| 0 <= i < init.len() implies w1(#[trigger] init[i]) == w2(init[i]) by {
            assert(init[i] == keys[i]);
        }
        lemma_weight_sum_congruent(init, w1, w2);
        assert(w1(keys[keys.len() - 1]) == w2(keys[keys.len() - 1]));
    }
}

proof fn lemma_weight_sum_remove(keys: Seq<Seq<char>>, w: spec_fn(Seq<char>) -> nat, i: int)
    requires
        0 <= i < keys.len(),
    ensures
        weight_sum(keys, w) == w(keys[i]) + weight_sum(keys.remove(i), w),
    decreases keys.len(),
{
    if i == keys.len() - 1 {
        assert(keys.remove(i) =~= keys.drop_last());
    } else {
        lemma_weight_sum_remove(keys.drop_last(), w, i);
        assert(keys.remove(i).drop_last() =~= keys.drop_last().remove(i));
        assert(keys.remove(i).last() == keys.last());
    }
}

/// Removing the element at `i` from a sequence without duplicates removes
/// it from its set.
proof fn lemma_remove_to_set(keys: Seq<Seq<char>>, i: int)
    requires
        keys.no_duplicates(),
        0 <= i < keys.len(),
    ensures
        keys.remove(i).no_duplicates(),
        keys.remove(i).to_set() == keys.to_set().remove(keys[i]),
{
    let r = keys.remove(i);
    assert forall|a: int, b: int| 0 <= a < r.len() && 0 <= b < r.len() && a != b implies r[a]
        != r[b] by {
        let a2 = if a < i { a } else { a + 1 };
        let b2 = if b < i { b } else { b + 1 };
        assert(r[a] == keys[a2]);
        assert(r[b] == keys[b2]);
    }
    assert forall|x: Seq<char>| r.to_set().contains(x) <==> keys.to_set().remove(keys[i]).contains(
        x,
    ) by {
        if r.to_set().contains(x) {
            let a = choose|a: int| 0 <= a < r.len() && r[a] == x;
            let a2 = if a < i { a } else { a + 1 };
            assert(keys[a2] == x);
        }
        if keys.to_set().remove(keys[i]).contains(x) {
            let a2 = choose|a: int| 0 <= a < keys.len() && keys[a] == x;
            assert(a2 != i);
            let a = if a2 < i { a2 } else { a2 - 1 };
            assert(r[a] == x);
        }
    }
    assert(r.to_set() =~= keys.to_set().remove(keys[i]));
}

/// Sums over two orderings of the same keys agree.
proof fn lemma_weight_sum_perm(a: Seq<Seq<char>>, b: Seq<Seq<char>>, w: spec_fn(Seq<char>) -> nat)
    requires
        a.no_duplicates(),
        b.no_duplicates(),
        a.to_set() == b.to_set(),
    ensures
        weight_sum(a, w) == weight_sum(b, w),
    decreases b.len(),
{
    if b.len() == 0 {
        if a.len() > 0 {
            assert(a.to_set().contains(a[0]));
        }
    } else {
        let k = b.last();
        assert(b.to_set().contains(b[b.len() - 1]));
        let i = choose|i: int| 0 <= i < a.len() && a[i] == k;
        lemma_weight_sum_remove(a, w, i);
        lemma_remove_to_set(a, i);
        lemma_remove_to_set(b, b.len() - 1);
        assert(b.remove(b.len() - 1) =~= b.drop_last());
        lemma_weight_sum_perm(a.remove(i), b.drop_last(), w);
    }
}

/// `order` with `k` taken out, when it is there.
proof fn lemma_without(order: Seq<Seq<char>>, k: Seq<char>, w: spec_fn(Seq<char>) -> nat) -> (r: Seq<
    Seq<char>,
>)
    requires
        order.no_duplicates(),
    ensures
        r.no_duplicates(),
        r.to_set() == order.to_set().remove(k),
        !r.contains(k),
        weight_sum(r, w) <= weight_sum(order, w),
{
    if order.contains(k) {
        let i = choose|i: int| 0 <= i < order.len() && order[i] == k;
        lemma_weight_sum_remove(order, w, i);
        lemma_remove_to_set(order, i);
        let r = order.remove(i);
        assert(!r.to_set().contains(k));
        r
    } else {
        assert(order.to_set().remove(k) =~= order.to_set());
        order
    }
}

/// Replay keeps the live records no longer than the log read so far.
proof fn lemma_replay_live_bytes(
    s: Seq<u8>,
    base: nat,
    index: Map<Seq<char>, IndexEntry>,
    order: Seq<Seq<char>>,
)
    requires
        order.no_duplicates(),
        order.to_set() == index.dom(),
        weight_sum(order, entry_len(index)) <= base,
    ensures
        replay(s, base, index) matches Ok((m, end, _)) ==> exists|o: Seq<Seq<char>>|
            o.no_duplicates() && o.to_set() == m.dom() && weight_sum(o, entry_len(m)) <= end,
    decreases s.len(),
{
    lemma_decode_bounds(s);
    if let Ok(Some((c, n))) = spec_decode(s) {
        let m1 = apply_command(index, c, base, n);
        let k = c.key();
        let rest = lemma_without(order, k, entry_len(index));
        assert forall|i: int| 0 <= i < rest.len() implies entry_len(m1)(#[trigger] rest[i])
            == entry_len(index)(rest[i]) by {
            assert(rest[i] != k);
        }
        lemma_weight_sum_congruent(rest, entry_len(m1), entry_len(index));
        let o1 = match c {
            CommandView::Put(_, _) => rest.push(k),
            CommandView::Delete(_) => rest,
        };
        if let CommandView::Put(_, _) = c {
            assert(o1.drop_last() =~= rest);
            assert(o1.no_duplicates()) by {
                assert forall|a: int, b: int| 0 <= a < o1.len() && 0 <= b < o1.len() && a != b
                    implies o1[a] != o1[b] by {
                    if a < rest.len() && b < rest.len() {
                        assert(o1[a] == rest[a] && o1[b] == rest[b]);
                    } else if a < rest.len() {
                        assert(o1[a] == rest[a]);
                        assert(rest.contains(rest[a]));
                    } else if b < rest.len() {
                        assert(o1[b] == rest[b]);
                        assert(rest.contains(rest[b]));
                    }
                }
            }
            assert(o1.to_set() =~= m1.dom()) by {
                rest.lemma_push_to_set_commute(k);
            }
        } else {
            assert(o1.to_set() =~= m1.dom());
        }
        lemma_replay_live_bytes(s.subrange(n as int, s.len() as int), base + n, m1, o1);
    } else {
        assert(order.no_duplicates() && order.to_set() == index.dom() && weight_sum(
            order,
            entry_len(index),
        ) <= base);
    }
}

/// The layout of every record: a set record starts with tag 1 and a
/// delete record with tag 2; then the key's byte length (two bytes) and the
/// value's byte length (four bytes), big-endian; the checksum of those seven
/// header bytes; the key's UTF-8 bytes; the value's UTF-8 bytes (none for a
/// delete); and last the checksum of the header bytes followed by key and
/// value, for deletes as for sets.
pub proof fn law_record_layout(c: CommandView)
    requires
        encode_command(c) is Ok,
    ensures
        ({
            let b = encode_command(c)->Ok_0;
            let kb = encode_utf8(c.key());
            let vb = match c {
                CommandView::Put(_, v) => encode_utf8(v),
                CommandView::Delete(_) => Seq::<u8>::empty(),
            };
            &&& b.len() == 15 + kb.len() + vb.len()
            &&& b[0] == (if c is Put { 1u8 } else { 2u8 })
            &&& be16_at(b, 1) == kb.len()
            &&& be32_at(b, 3) == vb.len()
            &&& be32_at(b, 7) == crc32(b.subrange(0, 7))
            &&& b.subrange(11, 11 + kb.len() as int) == kb
            &&& b.subrange(11 + kb.len() as int, b.len() - 4) == vb
            &&& be32_at(b, b.len() - 4) == crc32(b.subrange(0, 7) + b.subrange(11, b.len() - 4))
        }),
{
    let kb = encode_utf8(c.key());
    match c {
        CommandView::Put(_, v) => lemma_record_bytes_layout(SET_TAG, kb, encode_utf8(v)),
        CommandView::Delete(_) => lemma_record_bytes_layout(DELETE_TAG, kb, Seq::empty()),
    }
}

#[verifier::spinoff_prover]
proof fn lemma_record_bytes_layout(op: u8, kb: Seq<u8>, vb: Seq<u8>)
    requires
        kb.len() <= 0xffff,
        vb.len() <= 0xffff_ffff,
    ensures
        ({
            let b = record_bytes(op, kb, vb);
            &&& b.len() == 15 + kb.len() + vb.len()
            &&& b[0] == op
            &&& be16_at(b, 1) == kb.len()
            &&& be32_at(b, 3) == vb.len()
            &&& be32_at(b, 7) == crc32(b.subrange(0, 7))
            &&& b.subrange(11, 11 + kb.len() as int) == kb
            &&& b.subrange(11 + kb.len() as int, b.len() - 4) == vb
            &&& be32_at(b, b.len() - 4) == crc32(b.subrange(0, 7) + b.subrange(11, b.len() - 4))
        }),
{
    let b = record_bytes(op, kb, vb);
    let h = spec_header(op, kb.len() as u16, vb.len() as u32);
    let n = b.len() as int;
    let kl = kb.len() as int;
    lemma_be16_roundtrip(kb.len() as u16);
    lemma_be32_roundtrip(vb.len() as u32);
    lemma_be32_roundtrip(crc32(h));
    lemma_be32_roundtrip(crc32(h + (kb + vb)));
    assert(b.subrange(0, 7) =~= h);
    assert(b.subrange(1, 3) =~= be16_bytes(kb.len() as u16));
    assert(be16_at(b, 1) == be16_at(be16_bytes(kb.len() as u16), 0));
    assert(b.subrange(3, 7) =~= be32_bytes(vb.len() as u32));
    assert(be32_at(b, 3) == be32_at(be32_bytes(vb.len() as u32), 0));
    assert(b.subrange(7, 11) =~= be32_bytes(crc32(h)));
    assert(be32_at(b, 7) == be32_at(be32_bytes(crc32(h)), 0));
    assert(b.subrange(11, 11 + kl) =~= kb);
    assert(b.subrange(11 + kl, n - 4) =~= vb);
    assert(b.subrange(11, n - 4) =~= kb + vb);
    let rc = be32_bytes(crc32(h + (kb + vb)));
    assert(b.subrange(n - 4, n) =~= rc);
    assert(be32_at(b, n - 4) == be32_at(rc, 0));
}

/// Every set whose key has at most 65,535 bytes and whose value has at most
/// 4,294,967,295 bytes (with a payload that fits in memory) has a record,
/// and decoding that record gives the set back.
pub proof fn law_set_within_limits_is_encodable(key: Seq<char>, value: Seq<char>)
    requires
        encode_utf8(key).len() <= 65535,
        encode_utf8(value).len() <= 4294967295,
        encode_utf8(key).len() + encode_utf8(value).len() <= usize::MAX,
    ensures
        encode_command(CommandView::Put(key, value)) matches Ok(b) && b.len() == 15
            + encode_utf8(key).len() + encode_utf8(value).len() && spec_decode(b) == Ok::<
            Option<(CommandView, nat)>,
            StoreError,
        >(Some((CommandView::Put(key, value), b.len()))),
{
    let c = CommandView::Put(key, value);
    let b = encode_command(c)->Ok_0;
    assert(encodable(c));
    lemma_decode_encoded(c, Seq::empty());
    assert(b + Seq::<u8>::empty() =~= b);
}

/// Every delete whose key has at most 65,535 bytes has a record, and
/// decoding that record gives the delete back.
pub proof fn law_delete_within_limits_is_encodable(key: Seq<char>)
    requires
        encode_utf8(key).len() <= 65535,
    ensures
        encode_command(CommandView::Delete(key)) matches Ok(b) && b.len() == 15
            + encode_utf8(key).len() && spec_decode(b) == Ok::<
            Option<(CommandView, nat)>,
            StoreError,
        >(Some((CommandView::Delete(key), b.len()))),
{
    let c = CommandView::Delete(key);
    let b = encode_command(c)->Ok_0;
    assert(encodable(c));
    lemma_decode_encoded(c, Seq::empty());
    assert(b + Seq::<u8>::empty() =~= b);
}

/// A record decodes only when both stored checksums hold: the header
/// checksum is the CRC-32 of the seven header bytes, and the record
/// checksum, its last four bytes, is the CRC-32 of the header bytes followed
/// by the payload, whatever the operation. Its length is the one its header
/// gives, and its key is the key its payload spells.
pub proof fn law_decoded_record_checksums_hold(s: Seq<u8>)
    requires
        spec_decode(s) is Ok,
        spec_decode(s)->Ok_0 is Some,
    ensures
        ({
            let (c, n) = spec_decode(s)->Ok_0->Some_0;
            let kl = be16_at(s, 1) as int;
            &&& 15 <= n <= s.len()
            &&& n == 15 + be16_at(s, 1) + be32_at(s, 3)
            &&& be32_at(s, 7) == crc32(s.subrange(0, 7))
            &&& be32_at(s, n - 4) == crc32(s.subrange(0, 7) + s.subrange(11, n - 4))
            &&& s[0] == (if c is Put { 1u8 } else { 2u8 })
            &&& encode_utf8(c.key()) == s.subrange(11, 11 + kl)
        }),
{
    reveal(spec_decode);
    let kl = be16_at(s, 1) as int;
    vstd::utf8::decode_utf8_encode_utf8(s.subrange(11, 11 + kl));
}

/// A record whose bytes are all present and whose header checks out, but
/// whose stored record checksum is not the CRC-32 of its header and payload,
/// refuses the whole log as invalid data, wherever it stands after a
/// well-formed log: it is not taken for a torn tail.
pub proof fn law_corrupt_record_refuses_log(store: KVStore, s: Seq<u8>)
    requires
        store.wf(),
        11 <= s.len(),
        s[0] == 1 || s[0] == 2,
        be32_at(s, 7) == crc32(s.subrange(0, 7)),
        be16_at(s, 1) + be32_at(s, 3) <= usize::MAX,
        15 + be16_at(s, 1) + be32_at(s, 3) <= s.len(),
        be32_at(s, 11 + be16_at(s, 1) + be32_at(s, 3)) != crc32(
            s.subrange(0, 7) + s.subrange(11, 11 + be16_at(s, 1) + be32_at(s, 3)),
        ),
    ensures
        replay_log(store.log() + s) matches Err(e) && e.spec_kind() == ErrorKind::InvalidData,
{
    store.lemma_wf();
    lemma_replay_append(store.log(), s, 0, Map::empty());
    reveal(spec_decode);
    assert(spec_decode(s) == Err::<Option<(CommandView, nat)>, StoreError>(
        StoreError::ChecksumMismatch,
    ));
}

/// The bytes `r` stop inside a record: a header cut short; or a known
/// operation whose header checksum is cut short; or a header that checks
/// out, with a payload that fits in memory, whose payload or record checksum
/// is cut short.
pub open spec fn stops_inside_a_record(r: Seq<u8>) -> bool {
    ||| 0 < r.len() < 7
    ||| 7 <= r.len() && (r[0] == 1 || r[0] == 2) && (r.len() < 11 || (be32_at(r, 7) == crc32(
        r.subrange(0, 7),
    ) && be16_at(r, 1) + be32_at(r, 3) <= usize::MAX && r.len() < 15 + be16_at(r, 1) + be32_at(
        r,
        3,
    )))
}

/// A torn tail is reported only when the log ends inside a record: the
/// bytes after the last complete record are a header cut short, or a valid
/// header whose record is cut short. A complete record that is malformed
/// (an unknown operation, a checksum that does not match, text that is not
/// UTF-8) is never taken for a torn tail.
pub proof fn law_torn_tail_only_inside_a_record(log: Seq<u8>)
    ensures
        replay_log(log) matches Ok((_, end, true)) ==> end <= log.len() && stops_inside_a_record(
            log.subrange(end as int, log.len() as int),
        ),
{
    lemma_torn_tail_short(log, 0, Map::empty());
}

proof fn lemma_torn_tail_short(s: Seq<u8>, base: nat, index: Map<Seq<char>, IndexEntry>)
    ensures
        replay(s, base, index) matches Ok((_, end, true)) ==> base <= end <= base + s.len()
            && stops_inside_a_record(s.subrange(end - base, s.len() as int)),
    decreases s.len(),
{
    lemma_decode_bounds(s);
    match spec_decode(s) {
        Ok(Some((c, n))) => {
            if 0 < n <= s.len() {
                let rest = s.subrange(n as int, s.len() as int);
                lemma_torn_tail_short(rest, base + n, apply_command(index, c, base, n));
                if let Ok((_, end, torn)) = replay(s, base, index) {
                    if torn {
                        assert(rest.subrange(end - (base + n), rest.len() as int) =~= s.subrange(
                            end - base,
                            s.len() as int,
                        ));
                    }
                }
            }
        },
        Err(e) => {
            if e.spec_kind() == ErrorKind::UnexpectedEof {
                assert(s.subrange(0, s.len() as int) =~= s);
                reveal(spec_decode);
            }
        },
        Ok(None) => {},
    }
}

/// A log is only ever refused as invalid data: replay fails only on a
/// complete, malformed record, never for lack of bytes.
pub proof fn law_refusal_is_invalid_data(log: Seq<u8>)
    ensures
        replay_log(log) matches Err(e) ==> e.spec_kind() == ErrorKind::InvalidData,
{
    lemma_refusal_is_invalid_data(log, 0, Map::empty());
}

proof fn lemma_refusal_is_invalid_data(s: Seq<u8>, base: nat, index: Map<Seq<char>, IndexEntry>)
    ensures
        replay(s, base, index) matches Err(e) ==> e.spec_kind() == ErrorKind::InvalidData,
    decreases s.len(),
{
    lemma_decode_bounds(s);
    match spec_decode(s) {
        Ok(Some((c, n))) => {
            if 0 < n <= s.len() {
                lemma_refusal_is_invalid_data(
                    s.subrange(n as int, s.len() as int),
                    base + n,
                    apply_command(index, c, base, n),
                );
            }
        },
        Err(e) => {
            reveal(spec_decode);
        },
        Ok(None) => {},
    }
}

/// The number that a string of decimal digits spells.
pub open spec fn digits_value(s: Seq<char>) -> nat
    decreases s.len(),
{
    if s.len() == 0 {
        0
    } else {
        digits_value(s.drop_last()) * 10 + (s.last() as nat - 48) as nat
    }
}

proof fn lemma_digit_char(d: nat)
    ensures
        d < 10 ==> digit_char(d) as nat == 48 + d && '0' <= digit_char(d) <= '9',
        0 < d < 10 ==> digit_char(d) != '0',
{
    if d < 10 {
        assert((48 + d) as char as nat == 48 + d);
    }
}

/// The decimal numeral of `n` is made of digits, has no leading zero, and
/// reads back as `n`.
pub proof fn law_decimal_reads_back(n: nat)
    ensures
        decimal(n).len() > 0,
        forall|i: int| 0 <= i < decimal(n).len() ==> '0' <= #[trigger] decimal(n)[i] <= '9',
        decimal(n).len() > 1 ==> decimal(n)[0] != '0',
        digits_value(decimal(n)) == n,
    decreases n,
{
    if n < 10 {
        lemma_digit_char(n);
        assert(decimal(n).drop_last() =~= Seq::<char>::empty());
        assert(digits_value(decimal(n)) == digits_value(Seq::<char>::empty()) * 10 + (decimal(
            n,
        ).last() as nat - 48) as nat);
    } else {
        law_decimal_reads_back(n / 10);
        let d = decimal(n / 10);
        assert(decimal(n) == d.push(digit_char(n % 10)));
        assert(decimal(n).drop_last() =~= d);
        assert(n == (n / 10) * 10 + n % 10);
        lemma_digit_char((n % 10) as nat);
        lemma_digit_char((n / 10) as nat);
        assert(decimal(n).last() == digit_char(n % 10));
        assert(digits_value(decimal(n)) == digits_value(d) * 10 + (digit_char(n % 10) as nat - 48) as nat);
        assert forall|i: int| 0 <= i < decimal(n).len() implies '0' <= #[trigger] decimal(n)[i]
            <= '9' by {
            if i < d.len() {
                assert(decimal(n)[i] == d[i]);
            }
        }
        assert(decimal(n)[0] == d[0]);
        if n / 10 < 10 {
            assert(d == seq![digit_char((n / 10) as nat)]);
            assert(d[0] != '0');
        } else {
            law_decimal_reads_back(n / 10 / 10);
            assert(d.len() > 1);
        }
    }
}

} // verus!
