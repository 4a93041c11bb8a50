//! The state of a store: its key directory, and the log it describes.
//!
//! The log's bytes live on disk; the store keeps, as ghost state, the bytes
//! it knows the log to hold, and the key directory that replaying them gives.
//! Reading and writing the log is left to the caller: the store says which
//! record to write and where a key's record lies, and checks what is read.
use vstd::prelude::*;

use crate::error::{ErrorKind, StoreError};
use crate::keydir::{Keydir, Location};
use crate::record::{
    bytes_result, decode, encodable, encode_command, encode_delete, encode_set,
    lemma_decode_bounds, lemma_decode_encoded, lemma_decode_prefix, spec_decode, Command,
    CommandView,
};
use crate::replay::{
    apply_command, index_sound, index_within, lemma_replay_append, lemma_replay_one,
    lemma_replay_truncate, replay, replay_log, IndexEntry,
};
use crate::scanner::RecordScanner;
use crate::text::{bytes_equal, decimal, push_decimal};
use vstd::string::StringExecFns;
use vstd::utf8::{decode_utf8, encode_utf8};

verus! {

/// The locations an index gives its keys.
pub open spec fn location_map(index: Map<Seq<char>, IndexEntry>) -> Map<Seq<char>, Location> {
    index.map_values(|e: IndexEntry| Location { offset: e.offset as u64, record_length: e.len as u64 })
}

/// The value each key of an index has.
pub open spec fn contents(index: Map<Seq<char>, IndexEntry>) -> Map<Seq<char>, Seq<char>> {
    index.map_values(|e: IndexEntry| e.value)
}

/// The key directory of a store, with the log it was built from.
pub struct KVStore {
    keydir: Keydir,
    log_len: u64,
    log: Ghost<Seq<u8>>,
    index: Ghost<Map<Seq<char>, IndexEntry>>,
}

impl View for KVStore {
    type V = Map<Seq<char>, Seq<char>>;

    /// The value of every live key.
    closed spec fn view(&self) -> Map<Seq<char>, Seq<char>> {
        contents(self.index@)
    }
}

impl KVStore {
    /// A store over an empty log.
    fn empty() -> (s: KVStore)
        ensures
            s.log() == Seq::<u8>::empty(),
            s@ == Map::<Seq<char>, Seq<char>>::empty(),
    {
        proof {
            lemma_decode_bounds(Seq::<u8>::empty());
        }
        let keydir = Keydir::new();
        proof {
            assert(keydir@ =~= location_map(Map::empty()));
            assert(contents(Map::<Seq<char>, IndexEntry>::empty()) =~= Map::empty());
        }
        KVStore { keydir, log_len: 0, log: Ghost(Seq::empty()), index: Ghost(Map::empty()) }
    }

    /// The bytes the log holds.
    pub closed spec fn log(&self) -> Seq<u8> {
        self.log@
    }

    /// Where the live record of each key lies, and its value.
    pub closed spec fn index(&self) -> Map<Seq<char>, IndexEntry> {
        self.index@
    }

    /// The index is what replaying the log gives, every entry points at a
    /// record setting its key, and the key directory holds the entries'
    /// locations.
    #[verifier::type_invariant]
    pub closed spec fn wf(&self) -> bool {
        &&& self.log@.len() == self.log_len
        &&& replay_log(self.log@) == Ok::<
            (Map<Seq<char>, IndexEntry>, nat, bool),
            StoreError,
        >((self.index@, self.log@.len(), false))
        &&& index_sound(self.log@, self.index@)
        &&& self.keydir@ == location_map(self.index@)
    }

    /// What a well-formed store promises of its parts.
    pub proof fn lemma_wf(&self)
        requires
            self.wf(),
        ensures
            replay_log(self.log()) == Ok::<(Map<Seq<char>, IndexEntry>, nat, bool), StoreError>(
                (self.index(), self.log().len(), false),
            ),
            index_sound(self.log(), self.index()),
            self@ == contents(self.index()),
            self.log().len() <= u64::MAX,
    {
    }

    /// Replays `log` from its first byte. Malformed records refuse the log;
    /// a record cut short at the end is a torn tail: the store then covers
    /// the log up to it, and its start is returned for the caller to cut
    /// the log back to.
    pub fn from_log(log: &[u8]) -> (r: Result<(KVStore, Option<u64>), StoreError>)
        ensures
            match replay_log(log@) {
                Ok((index, end, torn)) => r matches Ok((store, torn_tail_start)) && store.wf()
                    && store.index() == index && store.log() == log@.subrange(0, end as int)
                    && torn_tail_start == (if torn {
                    Some(end as u64)
                } else {
                    None
                }),
                Err(e) => r == Err::<(KVStore, Option<u64>), StoreError>(e),
            },
    {
        let mut keydir = Keydir::new();
        let ghost mut index: Map<Seq<char>, IndexEntry> = Map::empty();
        let mut scanner = RecordScanner::new(log);
        let mut last_valid_end: u64 = 0;
        let mut torn_tail_start: Option<u64> = None;
        proof {
            assert(log@.subrange(0, log@.len() as int) =~= log@);
        }
        loop
            invariant_except_break
                !scanner.is_finished(),
                torn_tail_start is None,
            invariant
                scanner.data() == log@,
                last_valid_end == scanner.spec_offset(),
                scanner.spec_offset() <= log@.len(),
                keydir@ == location_map(index),
                index_sound(log@, index),
                index_within(index, scanner.spec_offset() as nat),
                replay_log(log@) == replay(
                    log@.subrange(scanner.spec_offset() as int, log@.len() as int),
                    scanner.spec_offset() as nat,
                    index,
                ),
            ensures
                replay_log(log@) == Ok::<(Map<Seq<char>, IndexEntry>, nat, bool), StoreError>(
                    (index, last_valid_end as nat, torn_tail_start is Some),
                ),
                torn_tail_start matches Some(t) ==> t == last_valid_end,
            decreases log@.len() - scanner.spec_offset(),
        {
            let ghost off = scanner.spec_offset();
            let ghost rest = log@.subrange(off as int, log@.len() as int);
            proof {
                lemma_decode_bounds(rest);
            }
            let next = scanner.next();
            proof {
                use_type_invariant(&scanner);
            }
            let record = match next {
                Some(Ok(record)) => record,
                None => {
                    break ;
                },
                Some(Err(error)) => {
                    if error.kind() == ErrorKind::UnexpectedEof {
                        torn_tail_start = Some(last_valid_end);
                        break ;
                    }
                    return Err(error);
                },
            };
            let ghost n = record.record_len as nat;
            let ghost c = record.command@;
            proof {
                lemma_replay_step(log@, off as nat, index, c, n);
            }
            last_valid_end = record.offset + record.record_len;
            match record.command {
                Command::Put(key, _) => {
                    let location = Location { offset: record.offset, record_length: record.record_len };
                    keydir.insert(key, location);
                },
                Command::Delete(key) => {
                    keydir.remove(&key);
                },
            }
            proof {
                index = apply_command(index, c, off as nat, n);
                assert(keydir@ =~= location_map(index));
            }
        }
        let ghost end = last_valid_end as nat;
        proof {
            lemma_replay_truncate(log@, 0, Map::empty());
            assert(log@.subrange(0, end as int).subrange(0, end as int) =~= log@.subrange(0, end as int));
            lemma_index_sound_prefix(log@, log@.subrange(0, end as int), index, end);
        }
        let store = KVStore {
            keydir,
            log_len: last_valid_end,
            log: Ghost(log@.subrange(0, end as int)),
            index: Ghost(index),
        };
        Ok((store, torn_tail_start))
    }

    /// Where the live record of `key` lies, if `key` is live. The record
    /// there reads back as the key's value.
    pub fn locate(&self, key: &str) -> (r: Option<Location>)
        ensures
            r is Some <==> self@.contains_key(key@),
            r matches Some(loc) ==> {
                &&& loc.offset + loc.record_length <= self.log().len()
                &&& loc.offset == self.index()[key@].offset
                &&& loc.record_length == self.index()[key@].len
                &&& read_value(
                    key@,
                    self.log().subrange(
                        loc.offset as int,
                        (loc.offset + loc.record_length) as int,
                    ),
                ) == Ok::<Seq<char>, StoreError>(self@[key@])
            },
    {
        proof {
            use_type_invariant(self);
            use_type_invariant(&self.keydir);
        }
        let r = self.keydir.get(key);
        proof {
            if self.index@.contains_key(key@) {
                assert(self.keydir@.contains_key(key@));
            }
        }
        r
    }

    /// The live keys, each once.
    pub fn live_keys(&self) -> (ks: Vec<String>)
        ensures
            ks@.map_values(|s: String| s@) == self.key_order(),
            ks@.map_values(|s: String| s@).no_duplicates(),
            ks@.map_values(|s: String| s@).to_set() == self@.dom(),
    {
        proof {
            use_type_invariant(self);
            use_type_invariant(&self.keydir);
        }
        let ks = self.keydir.keys();
        proof {
            self.keydir.lemma_key_order();
            assert(self.keydir@.dom() =~= self@.dom());
        }
        ks
    }

    /// Applies a write that the caller has appended to the log: the log
    /// grows by the record, and the index takes in its command. Refused,
    /// with nothing changed, when the log's length would pass `u64::MAX`.
    pub fn commit(&mut self, write: PendingWrite) -> (r: Result<(), StoreError>)
        ensures
            r is Ok <==> old(self).log().len() + write.record_bytes().len() <= u64::MAX,
            r matches Err(e) ==> e == StoreError::RecordOffsetOverflow && *final(self) == *old(self),
            r is Ok ==> {
                &&& final(self).log() == old(self).log() + write.record_bytes()
                &&& final(self).index() == apply_command(
                    old(self).index(),
                    write.command(),
                    old(self).log().len(),
                    write.record_bytes().len(),
                )
                &&& final(self)@ == match write.command() {
                    CommandView::Put(k, v) => old(self)@.insert(k, v),
                    CommandView::Delete(k) => old(self)@.remove(k),
                }
            },
    {
        proof {
            use_type_invariant(&*self);
            use_type_invariant(&write);
        }
        let PendingWrite { key, record, deletes, command } = write;
        let record_length = record.len() as u64;
        let offset = self.log_len;
        let new_len = match offset.checked_add(record_length) {
            Some(n) => n,
            None => {
                return Err(StoreError::RecordOffsetOverflow);
            },
        };
        let mut taken = KVStore::empty();
        std::mem::swap(&mut taken, self);
        let KVStore { mut keydir, log_len: _, log: _, index: _ } = taken;
        let ghost c = command@;
        let ghost old_log = old(self).log@;
        let ghost old_index = old(self).index@;
        let ghost new_index = apply_command(old_index, c, old_log.len(), record@.len());
        proof {
            lemma_replay_append(old_log, record@, 0, Map::empty());
            lemma_replay_one(c, old_log.len(), old_index);
            lemma_decode_encoded(c, Seq::empty());
            assert(record@ + Seq::<u8>::empty() =~= record@);
            let new_log = old_log + record@;
            assert(new_log.subrange(0, old_log.len() as int) =~= old_log.subrange(0, old_log.len() as int));
            assert(new_log.subrange(old_log.len() as int, new_log.len() as int) =~= record@);
            lemma_index_sound_prefix(old_log, new_log, old_index, old_log.len());
            assert forall|k: Seq<char>| #[trigger] new_index.contains_key(k) implies ({
                let e = new_index[k];
                &&& e.offset + e.len <= new_log.len()
                &&& spec_decode(new_log.subrange(e.offset as int, (e.offset + e.len) as int))
                    == Ok::<Option<(CommandView, nat)>, StoreError>(
                    Some((CommandView::Put(k, e.value), e.len)),
                )
            }) by {
                if k != c.key() {
                    assert(old_index.contains_key(k));
                }
            }
        }
        if deletes {
            keydir.remove(&key);
        } else {
            keydir.insert(key, Location { offset, record_length });
        }
        proof {
            assert(keydir@ =~= location_map(new_index));
        }
        *self = KVStore {
            keydir,
            log_len: new_len,
            log: Ghost(old_log + record@),
            index: Ghost(new_index),
        };
        proof {
            assert(self@ =~= match c {
                CommandView::Put(k, v) => contents(old_index).insert(k, v),
                CommandView::Delete(k) => contents(old_index).remove(k),
            });
        }
        Ok(())
    }

    /// The live keys, in the order `to_string` lists them.
    pub closed spec fn key_order(&self) -> Seq<Seq<char>> {
        self.keydir.key_order()
    }

    /// Lists every live key with the offset of its record, as
    /// `{key: offset}` entries joined by `, `, in `key_order`.
    pub fn to_string(&self) -> (s: String)
        ensures
            s@ == keydir_text(self.key_order(), self.index()),
    {
        proof {
            use_type_invariant(self);
            use_type_invariant(&self.keydir);
        }
        let keys = self.keydir.keys();
        proof {
            self.keydir.lemma_key_order();
        }
        let mut out = String::new();
        let mut i: usize = 0;
        while i < keys.len()
            invariant
                self.wf(),
                i <= keys@.len(),
                keys@.map_values(|s: String| s@) == self.key_order(),
                self.key_order().to_set() == self@.dom(),
                out@ == keydir_text(self.key_order().subrange(0, i as int), self.index()),
            decreases keys@.len() - i,
        {
            let key = &keys[i];
            let ghost k = key@;
            proof {
                assert(self.key_order()[i as int] == k);
                assert(self.key_order().to_set().contains(k));
                assert(self.index().contains_key(k));
                assert(self.keydir@.contains_key(k));
            }
            let location = match self.keydir.get(key.as_str()) {
                Some(location) => location,
                None => {
                    assert(false);
                    return out;
                },
            };
            let ghost before = out@;
            if i > 0 {
                out.append(", ");
            }
            out.append("{");
            out.append(key.as_str());
            out.append(": ");
            push_decimal(&mut out, location.offset);
            out.append("}");
            proof {
                reveal_strlit(", ");
                reveal_strlit("{");
                reveal_strlit(": ");
                reveal_strlit("}");
                let ks = self.key_order().subrange(0, i + 1);
                assert(ks.drop_last() =~= self.key_order().subrange(0, i as int));
                assert(ks.last() == k);
                assert(out@ =~= keydir_text(ks, self.index()));
            }
            i += 1;
        }
        proof {
            assert(self.key_order().subrange(0, i as int) =~= self.key_order());
        }
        out
    }

    /// The number of bytes the log holds.
    pub fn log_len(&self) -> (n: u64)
        ensures
            n == self.log().len(),
    {
        proof {
            use_type_invariant(self);
        }
        self.log_len
    }
}

/// A record to append to the log, and the command it holds.
pub struct PendingWrite {
    key: String,
    record: Vec<u8>,
    deletes: bool,
    command: Ghost<CommandView>,
}

impl PendingWrite {
    /// The command the record holds.
    pub closed spec fn command(&self) -> CommandView {
        self.command@
    }

    /// The bytes to append.
    pub closed spec fn record_bytes(&self) -> Seq<u8> {
        self.record@
    }

    #[verifier::type_invariant]
    pub closed spec fn wf(&self) -> bool {
        &&& encodable(self.command@)
        &&& encode_command(self.command@) == Ok::<Seq<u8>, StoreError>(self.record@)
        &&& self.key@ == self.command@.key()
        &&& self.deletes == (self.command@ is Delete)
    }

    /// The record that sets `key` to `value`; refused as encoding refuses it.
    pub fn set(key: String, value: String) -> (r: Result<PendingWrite, StoreError>)
        ensures
            match encode_command(CommandView::Put(key@, value@)) {
                Ok(b) => r matches Ok(w) && w.wf() && w.command() == CommandView::Put(key@, value@)
                    && w.record_bytes() == b,
                Err(e) => r == Err::<PendingWrite, StoreError>(e),
            },
    {
        let record = encode_set(key.as_str(), value.as_str())?;
        let _ = record.len();
        Ok(PendingWrite { key, record, deletes: false, command: Ghost(CommandView::Put(key@, value@)) })
    }

    /// The record that deletes `key`; refused as encoding refuses it.
    pub fn delete(key: &str) -> (r: Result<PendingWrite, StoreError>)
        ensures
            match encode_command(CommandView::Delete(key@)) {
                Ok(b) => r matches Ok(w) && w.wf() && w.command() == CommandView::Delete(key@)
                    && w.record_bytes() == b,
                Err(e) => r == Err::<PendingWrite, StoreError>(e),
            },
    {
        let record = encode_delete(key)?;
        let _ = record.len();
        Ok(PendingWrite { key: key.to_owned(), record, deletes: true, command: Ghost(CommandView::Delete(key@)) })
    }

    /// The bytes to append to the log.
    pub fn record(&self) -> (r: &[u8])
        ensures
            r@ == self.record_bytes(),
    {
        self.record.as_slice()
    }
}

/// Reads the value of `key` out of the record found at its location.
pub fn value_from_record(key: &str, record: &[u8]) -> (r: Result<String, StoreError>)
    ensures
        match r {
            Ok(v) => read_value(key@, record@) == Ok::<Seq<char>, StoreError>(v@),
            Err(e) => read_value(key@, record@) == Err::<Seq<char>, StoreError>(e),
        },
{
    let decoded = match decode(record)? {
        Some(d) => d,
        None => {
            return Err(StoreError::KeydirPastEnd);
        },
    };
    match decoded.command {
        Command::Put(record_key, value) => {
            let same = bytes_equal(record_key.as_str().as_bytes(), key.as_bytes());
            proof {
                if same {
                    vstd::utf8::encode_utf8_decode_utf8(record_key@);
                    vstd::utf8::encode_utf8_decode_utf8(key@);
                    assert(decode_utf8(encode_utf8(record_key@)) == record_key@);
                    assert(decode_utf8(encode_utf8(key@)) == key@);
                }
            }
            if same {
                Ok(value)
            } else {
                Err(StoreError::KeydirWrongRecord)
            }
        },
        Command::Delete(_) => Err(StoreError::KeydirWrongRecord),
    }
}

/// The record that a compacted log holds for `key`: the value read from the
/// key's current record, encoded again.
pub fn compacted_record(key: &str, stored: &[u8]) -> (r: Result<Vec<u8>, StoreError>)
    ensures
        bytes_result(r) == match read_value(key@, stored@) {
            Ok(v) => encode_command(CommandView::Put(key@, v)),
            Err(e) => Err(e),
        },
{
    let value = value_from_record(key, stored)?;
    encode_set(key, value.as_str())
}

/// The text of one key directory entry: `{key: offset}`.
pub open spec fn entry_text(key: Seq<char>, offset: nat) -> Seq<char> {
    seq!['{'] + key + seq![':', ' '] + decimal(offset) + seq!['}']
}

/// The entries of `keys`, with their offsets in `index`, joined by `, `.
pub open spec fn keydir_text(keys: Seq<Seq<char>>, index: Map<Seq<char>, IndexEntry>) -> Seq<char>
    decreases keys.len(),
{
    if keys.len() == 0 {
        Seq::empty()
    } else if keys.len() == 1 {
        entry_text(keys[0], index[keys[0]].offset)
    } else {
        keydir_text(keys.drop_last(), index) + seq![',', ' '] + entry_text(
            keys.last(),
            index[keys.last()].offset,
        )
    }
}

/// The value a record read from a key's location gives: an empty read is a
/// location past the end of the log, a record of another key or a delete is
/// the wrong record, and a malformed record is refused as decoding refuses it.
pub open spec fn read_value(key: Seq<char>, record: Seq<u8>) -> Result<Seq<char>, StoreError> {
    match spec_decode(record) {
        Ok(None) => Err(StoreError::KeydirPastEnd),
        Err(e) => Err(e),
        Ok(Some((CommandView::Put(k, v), _))) => if k == key {
            Ok(v)
        } else {
            Err(StoreError::KeydirWrongRecord)
        },
        Ok(Some((CommandView::Delete(_), _))) => Err(StoreError::KeydirWrongRecord),
    }
}

/// One record of a replay: the replay goes on past it with the record
/// applied, and the index stays sound and within what was read.
proof fn lemma_replay_step(
    log: Seq<u8>,
    off: nat,
    index: Map<Seq<char>, IndexEntry>,
    c: CommandView,
    n: nat,
)
    requires
        off <= log.len(),
        replay_log(log) == replay(log.subrange(off as int, log.len() as int), off, index),
        spec_decode(log.subrange(off as int, log.len() as int)) == Ok::<
            Option<(CommandView, nat)>,
            StoreError,
        >(Some((c, n))),
        index_sound(log, index),
        index_within(index, off),
    ensures
        0 < n,
        off + n <= log.len(),
        replay_log(log) == replay(
            log.subrange((off + n) as int, log.len() as int),
            off + n,
            apply_command(index, c, off, n),
        ),
        index_sound(log, apply_command(index, c, off, n)),
        index_within(apply_command(index, c, off, n), off + n),
{
    let rest = log.subrange(off as int, log.len() as int);
    lemma_decode_bounds(rest);
    assert(rest.subrange(n as int, rest.len() as int) =~= log.subrange(
        (off + n) as int,
        log.len() as int,
    ));
    let rec = log.subrange(off as int, (off + n) as int);
    assert(rec.subrange(0, n as int) =~= rest.subrange(0, n as int));
    lemma_decode_prefix(rest, rec);
    let idx2 = apply_command(index, c, off, n);
    assert forall|k: Seq<char>| #[trigger] idx2.contains_key(k) implies idx2[k].offset + idx2[k].len
        <= off + n by {
        if index.contains_key(k) && k != c.key() {
            assert(index[k] == idx2[k]);
        }
    }
    assert forall|k: Seq<char>| #[trigger] idx2.contains_key(k) implies ({
        let e = idx2[k];
        &&& e.offset + e.len <= log.len()
        &&& spec_decode(log.subrange(e.offset as int, (e.offset + e.len) as int)) == Ok::<
            Option<(CommandView, nat)>,
            StoreError,
        >(Some((CommandView::Put(k, e.value), e.len)))
    }) by {
        if index.contains_key(k) && k != c.key() {
            assert(index[k] == idx2[k]);
        }
    }
}

/// Entries that lie within the first `end` bytes of `log` stay sound in any
/// log that starts with those bytes.
pub proof fn lemma_index_sound_prefix(
    log: Seq<u8>,
    log2: Seq<u8>,
    index: Map<Seq<char>, IndexEntry>,
    end: nat,
)
    requires
        index_sound(log, index),
        index_within(index, end),
        end <= log.len(),
        end <= log2.len(),
        log2.subrange(0, end as int) == log.subrange(0, end as int),
    ensures
        index_sound(log2, index),
{
    assert forall|k: Seq<char>| #[trigger] index.contains_key(k) implies ({
        let e = index[k];
        &&& e.offset + e.len <= log2.len()
        &&& spec_decode(log2.subrange(e.offset as int, (e.offset + e.len) as int)) == Ok::<
            Option<(CommandView, nat)>,
            StoreError,
        >(Some((CommandView::Put(k, e.value), e.len)))
    }) by {
        let e = index[k];
        assert(log2.subrange(e.offset as int, (e.offset + e.len) as int) =~= log2.subrange(
            0,
            end as int,
        ).subrange(e.offset as int, (e.offset + e.len) as int));
        assert(log.subrange(e.offset as int, (e.offset + e.len) as int) =~= log.subrange(
            0,
            end as int,
        ).subrange(e.offset as int, (e.offset + e.len) as int));
    }
}

} // verus!
