//! The store's state and the replay of its write-ahead log.
//!
//! The log is a sequence of command frames, one for each set or delete that
//! the store applied; a snapshot is a sequence of set frames, one per key.
use vstd::prelude::*;
use crate::protocol::command::{
    fault_text, lemma_decode_encode, lemma_decode_len, lemma_decode_prefix, spec_decode,
    spec_encode, Command, CommandView, Fault,
};
use vstd::utf8::encode_utf8;
use crate::protocol::error::ProtocolError;
use crate::storage::error::{StorageError, StorageResult};
use crate::storage::kv_map::{pairs_map, KvMap};

verus! {

broadcast use vstd::seq::group_seq_axioms;

/// What a command does to the table: a set writes the key's value, a
/// delete takes the key out, a get changes nothing.
pub open spec fn apply_command(m: Map<Seq<char>, Seq<u8>>, c: CommandView) -> Map<
    Seq<char>,
    Seq<u8>,
> {
    match c {
        CommandView::Put { key, value } => m.insert(key, value),
        CommandView::Delete { key } => m.remove(key),
        CommandView::Get { .. } => m,
    }
}

/// The table after applying commands in order.
pub open spec fn apply_all(m: Map<Seq<char>, Seq<u8>>, cs: Seq<CommandView>) -> Map<
    Seq<char>,
    Seq<u8>,
>
    decreases cs.len(),
{
    if cs.len() == 0 {
        m
    } else {
        apply_command(apply_all(m, cs.drop_last()), cs.last())
    }
}

/// The frames of commands, one after another.
pub open spec fn log_bytes(cs: Seq<CommandView>) -> Seq<u8>
    decreases cs.len(),
{
    if cs.len() == 0 {
        Seq::empty()
    } else {
        log_bytes(cs.drop_last()) + spec_encode(cs.last())
    }
}

/// The set commands that write each pair of a table.
pub open spec fn snapshot_commands(pairs: Seq<(Seq<char>, Seq<u8>)>) -> Seq<CommandView> {
    Seq::new(pairs.len(), |i: int| CommandView::Put { key: pairs[i].0, value: pairs[i].1 })
}

/// Why replaying stopped before the end of the bytes.
#[derive(PartialEq, Eq, Structural, Clone, Copy)]
pub enum ReplayStop {
    /// A frame could not be read.
    Malformed(Fault),
    /// A get frame, which a log never holds.
    GetFrame,
}

/// Replaying frames from the start of `buf` into the table `m`: the table
/// reached, and why replaying stopped early if it did.
pub open spec fn spec_replay(buf: Seq<u8>, m: Map<Seq<char>, Seq<u8>>) -> (
    Map<Seq<char>, Seq<u8>>,
    Option<ReplayStop>,
)
    decreases buf.len(),
{
    if buf.len() == 0 {
        (m, None)
    } else {
        match spec_decode(buf) {
            Err(f) => (m, Some(ReplayStop::Malformed(f))),
            Ok((c, n)) => {
                if c is Get {
                    (m, Some(ReplayStop::GetFrame))
                } else if 0 < n <= buf.len() {
                    spec_replay(buf.subrange(n as int, buf.len() as int), apply_command(m, c))
                } else {
                    (m, None)
                }
            },
        }
    }
}

/// The text of the error for a get frame in the log.
pub open spec fn get_frame_text() -> Seq<char> {
    "解析失败，未知的Command类型。"@
}

/// The table of the store, and the number of bytes written to its log
/// since the log was last started afresh.
pub struct DbState {
    map: KvMap,
    wal_size: usize,
}

impl DbState {
    pub closed spec fn table(&self) -> Map<Seq<char>, Seq<u8>> {
        self.map@
    }

    pub closed spec fn wal_len(&self) -> nat {
        self.wal_size as nat
    }

    /// The state recovered from a table and the size of the log it was read from.
    pub fn recovered(map: KvMap, wal_size: usize) -> (s: Self)
        ensures
            s.table() == map@,
            s.wal_len() == wal_size,
    {
        DbState { map, wal_size }
    }

    /// The value stored under `key`.
    pub fn get(&self, key: &str) -> (r: Option<&Vec<u8>>)
        ensures
            match r {
                Some(v) => self.table().contains_key(key@) && v@ == self.table()[key@],
                None => !self.table().contains_key(key@),
            },
    {
        self.map.get(key)
    }

    /// Stores `value` under `key`.
    pub fn set(&mut self, key: &str, value: Vec<u8>)
        ensures
            final(self).table() == old(self).table().insert(key@, value@),
            final(self).wal_len() == old(self).wal_len(),
    {
        self.map.insert(key.to_owned(), value);
    }

    /// Takes `key` out of the table, with the value it had.
    pub fn delete(&mut self, key: &str) -> (r: Option<Vec<u8>>)
        ensures
            final(self).table() == old(self).table().remove(key@),
            final(self).wal_len() == old(self).wal_len(),
            match r {
                Some(v) => old(self).table().contains_key(key@) && v@ == old(self).table()[key@],
                None => !old(self).table().contains_key(key@),
            },
    {
        self.map.remove(key)
    }

    /// Counts `written` bytes that were appended to the log.
    pub fn add_wal_size(&mut self, written: usize)
        requires
            old(self).wal_len() + written <= usize::MAX,
        ensures
            final(self).wal_len() == old(self).wal_len() + written,
            final(self).table() == old(self).table(),
    {
        self.wal_size = self.wal_size + written;
    }

    /// The number of bytes written to the log since it was last started afresh.
    pub fn get_wal_size(&self) -> (n: usize)
        ensures
            n == self.wal_len(),
    {
        self.wal_size
    }

    /// A copy of the table.
    pub fn get_db_data_clone(&self) -> (m: KvMap)
        ensures
            m@ == self.table(),
    {
        let mut m = KvMap::new();
        let n = self.map.len();
        let mut i: usize = 0;
        proof {
            self.map.lemma_view_is_pairs_map();
        }
        while i < n
            invariant
                0 <= i <= n,
                n == self.map.pairs().len(),
                m@ == pairs_map(self.map.pairs().take(i as int)),
            decreases n - i,
        {
            let (k, v) = self.map.entry(i);
            m.insert(k.to_owned(), vstd::slice::slice_to_vec(v));
            assert(self.map.pairs().take(i + 1).drop_last() =~= self.map.pairs().take(i as int));
            i = i + 1;
        }
        assert(self.map.pairs().take(n as int) =~= self.map.pairs());
        m
    }

    /// Counts the log as started afresh: it holds no bytes.
    pub fn reset_wal(&mut self)
        ensures
            final(self).wal_len() == 0,
            final(self).table() == old(self).table(),
    {
        self.wal_size = 0;
    }

    /// Replays the frames in `buffer` into `map`: sets write, deletes take
    /// keys out.  Stops at the first frame that cannot be read, or at a get
    /// frame, which a log never holds; the frames before it stay applied.
    /// Returns the number of bytes replayed, which is all of them.
    pub fn replay_bytes(buffer: &[u8], map: &mut KvMap) -> (r: StorageResult<usize>)
        ensures
            final(map)@ == spec_replay(buffer@, old(map)@).0,
            match r {
                Ok(n) => spec_replay(buffer@, old(map)@).1 is None && n == buffer@.len(),
                Err(StorageError::ParseError(msg)) => spec_replay(buffer@, old(map)@).1 == Some(
                    ReplayStop::GetFrame,
                ) && msg@ == get_frame_text(),
                Err(StorageError::CommandError(ProtocolError::ParseUtf8Error(_))) => spec_replay(
                    buffer@,
                    old(map)@,
                ).1 == Some(ReplayStop::Malformed(Fault::InvalidKey)),
                Err(StorageError::CommandError(ProtocolError::ParseError(msg))) => {
                    &&& spec_replay(buffer@, old(map)@).1 matches Some(ReplayStop::Malformed(f))
                    &&& f != Fault::InvalidKey
                    &&& msg@ == fault_text(f)
                },
                Err(_) => false,
            },
    {
        let ghost goal = spec_replay(buffer@, old(map)@);
        let mut cursor: usize = 0;
        assert(buffer@.subrange(0, buffer@.len() as int) =~= buffer@);
        while cursor < buffer.len()
            invariant
                cursor <= buffer@.len(),
                goal == spec_replay(buffer@, old(map)@),
                goal == spec_replay(buffer@.subrange(cursor as int, buffer@.len() as int), map@),
            decreases buffer@.len() - cursor,
        {
            let rest = vstd::slice::slice_subrange(buffer, cursor, buffer.len());
            match Command::decode(rest) {
                Err(e) => {
                    return Err(StorageError::CommandError(e));
                },
                Ok((cmd, n)) => {
                    proof {
                        lemma_decode_len(rest@);
                    }
                    match cmd {
                        Command::Put { key, value } => {
                            map.insert(key.to_owned(), vstd::slice::slice_to_vec(value));
                        },
                        Command::Delete { key } => {
                            map.remove(key);
                        },
                        Command::Get { .. } => {
                            return Err(
                                StorageError::ParseError("解析失败，未知的Command类型。".to_owned()),
                            );
                        },
                    }
                    assert(rest@.subrange(n as int, rest@.len() as int) =~= buffer@.subrange(
                        cursor + n,
                        buffer@.len() as int,
                    ));
                    cursor = cursor + n;
                },
            }
        }
        assert(buffer@.subrange(cursor as int, buffer@.len() as int) =~= Seq::<u8>::empty());
        Ok(buffer.len())
    }

    /// The snapshot of a table: one set frame for each key, in the order the
    /// table keeps its pairs.
    pub fn snapshot_bytes(map: &KvMap) -> (buf: Vec<u8>)
        ensures
            buf@ == log_bytes(snapshot_commands(map.pairs())),
    {
        let mut buf: Vec<u8> = Vec::new();
        let n = map.len();
        let mut i: usize = 0;
        while i < n
            invariant
                0 <= i <= n,
                n == map.pairs().len(),
                buf@ == log_bytes(snapshot_commands(map.pairs()).take(i as int)),
            decreases n - i,
        {
            let (key, value) = map.entry(i);
            let cmd = Command::Put { key, value };
            let mut frame = cmd.encode();
            buf.append(&mut frame);
            proof {
                let cs = snapshot_commands(map.pairs());
                assert(cs.take(i + 1).drop_last() =~= cs.take(i as int));
                assert(cs.take(i + 1).last() == cmd@);
            }
            i = i + 1;
        }
        assert(snapshot_commands(map.pairs()).take(n as int) =~= snapshot_commands(map.pairs()));
        buf
    }
}

/// A command that the log can hold and read back: a set or a delete whose
/// key's UTF-8 bytes and value each number fewer than 65536.
pub open spec fn loggable(c: CommandView) -> bool {
    match c {
        CommandView::Put { key, value } => encode_utf8(key).len() < 65536 && value.len() < 65536,
        CommandView::Delete { key } => encode_utf8(key).len() < 65536,
        CommandView::Get { .. } => false,
    }
}

/// Replaying two pieces of log one after the other is replaying the second
/// from where the first, replayed whole, left the table.
pub proof fn lemma_replay_concat(a: Seq<u8>, b: Seq<u8>, m: Map<Seq<char>, Seq<u8>>)
    requires
        spec_replay(a, m).1 is None,
    ensures
        spec_replay(a + b, m) == spec_replay(b, spec_replay(a, m).0),
    decreases a.len(),
{
    if a.len() == 0 {
        assert(a + b =~= b);
    } else {
        lemma_decode_len(a);
        lemma_decode_prefix(a, b);
        if let Ok((c, n)) = spec_decode(a) {
            let rest = a.subrange(n as int, a.len() as int);
            assert((a + b).subrange(n as int, (a + b).len() as int) =~= rest + b);
            lemma_replay_concat(rest, b, apply_command(m, c));
        }
    }
}

/// Replaying the log of sets and deletes applies them to the table in
/// order, and reads the whole log.
pub proof fn lemma_replay_log(cs: Seq<CommandView>, m: Map<Seq<char>, Seq<u8>>)
    requires
        forall|i: int| 0 <= i < cs.len() ==> loggable(#[trigger] cs[i]),
    ensures
        spec_replay(log_bytes(cs), m) == (apply_all(m, cs), None::<ReplayStop>),
    decreases cs.len(),
{
    if cs.len() > 0 {
        let init = cs.drop_last();
        let c = cs.last();
        assert(loggable(cs[cs.len() - 1]));
        lemma_replay_log(init, m);
        lemma_replay_concat(log_bytes(init), spec_encode(c), m);
        lemma_decode_encode(c, Seq::empty());
        let e = spec_encode(c);
        assert(e + Seq::<u8>::empty() =~= e);
        assert(e.subrange(e.len() as int, e.len() as int) =~= Seq::<u8>::empty());
        let m1 = apply_all(m, init);
        assert(spec_decode(e) == Ok::<(CommandView, nat), Fault>((c, e.len())));
        assert(spec_replay(Seq::<u8>::empty(), apply_command(m1, c)) == (
            apply_command(m1, c),
            None::<ReplayStop>,
        ));
        assert(spec_replay(e, m1) == (apply_command(m1, c), None::<ReplayStop>));
    }
}

/// Setting each pair in turn, from an empty table, makes the table of the pairs.
proof fn lemma_apply_snapshot(pairs: Seq<(Seq<char>, Seq<u8>)>)
    ensures
        apply_all(Map::empty(), snapshot_commands(pairs)) == pairs_map(pairs),
    decreases pairs.len(),
{
    if pairs.len() > 0 {
        assert(snapshot_commands(pairs).drop_last() =~= snapshot_commands(pairs.drop_last()));
        lemma_apply_snapshot(pairs.drop_last());
    }
}

/// Replaying a snapshot of a table into an empty table gives the table back,
/// when each key's UTF-8 bytes and each value number fewer than 65536.
pub proof fn lemma_snapshot_restores(map: KvMap)
    requires
        forall|i: int|
            0 <= i < map.pairs().len() ==> encode_utf8(#[trigger] map.pairs()[i].0).len() < 65536
                && map.pairs()[i].1.len() < 65536,
    ensures
        spec_replay(log_bytes(snapshot_commands(map.pairs())), Map::empty()) == (
            map@,
            None::<ReplayStop>,
        ),
{
    let cs = snapshot_commands(map.pairs());
    assert forall|i: int| 0 <= i < cs.len() implies loggable(#[trigger] cs[i]) by {
        assert(encode_utf8(map.pairs()[i].0).len() < 65536);
    }
    lemma_replay_log(cs, Map::empty());
    lemma_apply_snapshot(map.pairs());
    map.lemma_view_is_pairs_map();
}

} // verus!
