//! What a log means: the key directory that replaying its records builds.
use vstd::prelude::*;

use crate::error::{ErrorKind, StoreError};
use crate::record::{
    encodable, encode_command, lemma_decode_bounds, lemma_decode_encoded, lemma_decode_prefix,
    spec_decode, CommandView,
};

verus! {

/// Where the live record of a key lies in the log, and the value it sets.
pub struct IndexEntry {
    pub value: Seq<char>,
    pub offset: nat,
    pub len: nat,
}

/// The index after one more record, found at `offset` and `len` bytes long.
pub open spec fn apply_command(
    index: Map<Seq<char>, IndexEntry>,
    c: CommandView,
    offset: nat,
    len: nat,
) -> Map<Seq<char>, IndexEntry> {
    match c {
        CommandView::Put(k, v) => index.insert(k, IndexEntry { value: v, offset, len }),
        CommandView::Delete(k) => index.remove(k),
    }
}

/// Replays the records of `s`, which starts `base` bytes into the log, on
/// top of `index`. A clean end gives the index and the end of the last
/// record; a record cut short ends the replay there too, flagged as a torn
/// tail; any other malformed record is an error.
pub open spec fn replay(s: Seq<u8>, base: nat, index: Map<Seq<char>, IndexEntry>) -> Result<
    (Map<Seq<char>, IndexEntry>, nat, bool),
    StoreError,
>
    decreases s.len(),
{
    match spec_decode(s) {
        Ok(None) => Ok((index, base, false)),
        Err(e) => if e.spec_kind() == ErrorKind::UnexpectedEof {
            Ok((index, base, true))
        } else {
            Err(e)
        },
        Ok(Some((c, n))) => if 0 < n <= s.len() {
            replay(s.subrange(n as int, s.len() as int), base + n, apply_command(index, c, base, n))
        } else {
            Ok((index, base, false))
        },
    }
}

/// The replay of a whole log from its first byte.
pub open spec fn replay_log(log: Seq<u8>) -> Result<
    (Map<Seq<char>, IndexEntry>, nat, bool),
    StoreError,
> {
    replay(log, 0, Map::empty())
}

/// Every entry of `index` points at a record of `log` that sets its key to
/// its value.
pub open spec fn index_sound(log: Seq<u8>, index: Map<Seq<char>, IndexEntry>) -> bool {
    forall|k: Seq<char>| #[trigger]
        index.contains_key(k) ==> {
            let e = index[k];
            &&& e.offset + e.len <= log.len()
            &&& spec_decode(log.subrange(e.offset as int, (e.offset + e.len) as int)) == Ok::<
                Option<(CommandView, nat)>,
                StoreError,
            >(Some((CommandView::Put(k, e.value), e.len)))
        }
}

/// Every entry of `index` ends by `end`.
pub open spec fn index_within(index: Map<Seq<char>, IndexEntry>, end: nat) -> bool {
    forall|k: Seq<char>| #[trigger] index.contains_key(k) ==> index[k].offset + index[k].len <= end
}

/// A replay ends no earlier than it starts and no later than its input.
pub proof fn lemma_replay_bounds(s: Seq<u8>, base: nat, index: Map<Seq<char>, IndexEntry>)
    ensures
        replay(s, base, index) matches Ok((_, end, torn)) ==> base <= end <= base + s.len() && (
        !torn ==> end == base + s.len()),
    decreases s.len(),
{
    lemma_decode_bounds(s);
    if let Ok(Some((c, n))) = spec_decode(s) {
        if 0 < n <= s.len() {
            lemma_replay_bounds(
                s.subrange(n as int, s.len() as int),
                base + n,
                apply_command(index, c, base, n),
            );
        }
    }
}

/// A clean replay of `s` followed by `t` is the replay of `t` on top of what
/// `s` gave.
pub proof fn lemma_replay_append(
    s: Seq<u8>,
    t: Seq<u8>,
    base: nat,
    index: Map<Seq<char>, IndexEntry>,
)
    requires
        replay(s, base, index) matches Ok((_, _, torn)) && !torn,
    ensures
        replay(s + t, base, index) == replay(t, base + s.len(), replay(s, base, index)->Ok_0.0),
    decreases s.len(),
{
    lemma_decode_bounds(s);
    lemma_replay_bounds(s, base, index);
    if s.len() == 0 {
        assert(s + t =~= t);
    } else {
        let (c, n) = spec_decode(s)->Ok_0->Some_0;
        assert((s + t).subrange(0, n as int) =~= s.subrange(0, n as int));
        lemma_decode_prefix(s, s + t);
        let rest = s.subrange(n as int, s.len() as int);
        assert((s + t).subrange(n as int, (s + t).len() as int) =~= rest + t);
        lemma_replay_append(rest, t, base + n, apply_command(index, c, base, n));
    }
}

/// The replay of a log cut back to where its replay ended is the same,
/// with no torn tail.
pub proof fn lemma_replay_truncate(s: Seq<u8>, base: nat, index: Map<Seq<char>, IndexEntry>)
    requires
        replay(s, base, index) is Ok,
    ensures
        ({
            let (m, end, _) = replay(s, base, index)->Ok_0;
            replay(s.subrange(0, end - base), base, index) == Ok::<
                (Map<Seq<char>, IndexEntry>, nat, bool),
                StoreError,
            >((m, end, false))
        }),
    decreases s.len(),
{
    lemma_decode_bounds(s);
    lemma_replay_bounds(s, base, index);
    let (m, end, torn) = replay(s, base, index)->Ok_0;
    let p = s.subrange(0, end - base);
    match spec_decode(s) {
        Ok(None) => {
            assert(p =~= s);
        },
        Err(e) => {
            assert(p.len() == 0);
            lemma_decode_bounds(p);
        },
        Ok(Some((c, n))) => {
            let rest = s.subrange(n as int, s.len() as int);
            let idx2 = apply_command(index, c, base, n);
            lemma_replay_truncate(rest, base + n, idx2);
            lemma_replay_bounds(rest, base + n, idx2);
            assert(p.subrange(0, n as int) =~= s.subrange(0, n as int));
            lemma_decode_prefix(s, p);
            assert(p.subrange(n as int, p.len() as int) =~= rest.subrange(0, end - (base + n)));
        },
    }
}

/// Replaying the record of one encodable command appends that command.
pub proof fn lemma_replay_one(c: CommandView, base: nat, index: Map<Seq<char>, IndexEntry>)
    requires
        encodable(c),
    ensures
        ({
            let r = encode_command(c)->Ok_0;
            replay(r, base, index) == Ok::<(Map<Seq<char>, IndexEntry>, nat, bool), StoreError>(
                (apply_command(index, c, base, r.len()), base + r.len(), false),
            )
        }),
{
    let r = encode_command(c)->Ok_0;
    lemma_decode_encoded(c, Seq::empty());
    assert(r + Seq::<u8>::empty() =~= r);
    lemma_decode_bounds(r);
    let rest = r.subrange(r.len() as int, r.len() as int);
    assert(rest.len() == 0);
    lemma_decode_bounds(rest);
    let idx2 = apply_command(index, c, base, r.len());
    assert(replay(rest, base + r.len(), idx2) == Ok::<
        (Map<Seq<char>, IndexEntry>, nat, bool),
        StoreError,
    >((idx2, base + r.len(), false)));
}

} // verus!
