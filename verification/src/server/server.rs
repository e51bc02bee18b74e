//! Executing commands against the store.
//!
//! A set or a delete is written to the log before it is applied: the caller
//! appends the bytes that `Server::wal_entry` gives to the log file, then
//! calls `Server::execute`, which counts them and applies the command.
use vstd::prelude::*;
use crate::protocol::command::{Command, CommandView};
use crate::protocol::response::{Response, ResponseView};
use crate::storage::db::{apply_command, DbState};

verus! {

/// The log size, in bytes, from which a snapshot is taken: 20 MiB.
pub const SNAPSHOT_WAL_SIZE: usize = 20 * 1024 * 1024;

/// The reply to a command on a table: a get gives the value or says the key
/// is missing, a set is acknowledged, a delete says whether the key was there.
pub open spec fn execute_reply(m: Map<Seq<char>, Seq<u8>>, c: CommandView) -> ResponseView {
    match c {
        CommandView::Get { key } => if m.contains_key(key) {
            ResponseView::Value(m[key])
        } else {
            ResponseView::KeyNotExist
        },
        CommandView::Put { .. } => ResponseView::Okay,
        CommandView::Delete { key } => if m.contains_key(key) {
            ResponseView::Deleted
        } else {
            ResponseView::KeyNotExist
        },
    }
}

pub struct Server {}

impl Server {
    /// The bytes to append to the log before executing `cmd`: for a set or a
    /// delete the whole request it came in, for a get nothing.
    pub fn wal_entry<'b>(cmd: &Command, raw_cmd: &'b [u8]) -> (r: Option<&'b [u8]>)
        ensures
            r is None <==> cmd@ is Get,
            r matches Some(b) ==> b@ == raw_cmd@,
    {
        match cmd {
            Command::Get { .. } => None,
            _ => Some(raw_cmd),
        }
    }

    /// Executes `cmd` against the store, where `raw_cmd` is the request it
    /// came in, which the caller has appended to the log for a set or a
    /// delete: those bytes are counted in the log size.
    pub fn execute(cmd: Command, db: &mut DbState, raw_cmd: &[u8]) -> (r: Response)
        requires
            cmd@ is Get || old(db).wal_len() + raw_cmd@.len() <= usize::MAX,
        ensures
            final(db).table() == apply_command(old(db).table(), cmd@),
            final(db).wal_len() == if cmd@ is Get {
                old(db).wal_len()
            } else {
                old(db).wal_len() + raw_cmd@.len()
            },
            r@ == execute_reply(old(db).table(), cmd@),
            cmd@ is Put ==> r@ == ResponseView::Okay,
            cmd@ matches CommandView::Get { key } ==> (old(db).table().contains_key(key) ==> r@
                == ResponseView::Value(old(db).table()[key])) && (!old(db).table().contains_key(key)
                ==> r@ == ResponseView::KeyNotExist),
            cmd@ matches CommandView::Delete { key } ==> (old(db).table().contains_key(key) ==> r@
                == ResponseView::Deleted) && (!old(db).table().contains_key(key) ==> r@
                == ResponseView::KeyNotExist),
    {
        match cmd {
            Command::Get { key } => {
                match db.get(key) {
                    Some(val) => Response::Value(vstd::slice::slice_to_vec(val.as_slice())),
                    None => Response::KeyNotExist,
                }
            },
            Command::Put { key, value } => {
                db.add_wal_size(raw_cmd.len());
                db.set(key, vstd::slice::slice_to_vec(value));
                Response::Okay
            },
            Command::Delete { key } => {
                db.add_wal_size(raw_cmd.len());
                if db.delete(key).is_some() {
                    Response::Deleted
                } else {
                    Response::KeyNotExist
                }
            },
        }
    }

    /// Whether the log has grown enough for a snapshot to be taken.
    pub fn snapshot_due(db: &DbState) -> (r: bool)
        ensures
            r == (db.wal_len() >= SNAPSHOT_WAL_SIZE),
    {
        db.get_wal_size() >= SNAPSHOT_WAL_SIZE
    }
}

/// A get after a set of the same key gives the value that was set.
pub proof fn lemma_get_after_set(m: Map<Seq<char>, Seq<u8>>, key: Seq<char>, value: Seq<u8>)
    ensures
        execute_reply(
            apply_command(m, CommandView::Put { key, value }),
            CommandView::Get { key },
        ) == ResponseView::Value(value),
{
}

/// A get after a delete of the same key says that the key is missing, and
/// so does a second delete.
pub proof fn lemma_get_after_delete(m: Map<Seq<char>, Seq<u8>>, key: Seq<char>)
    ensures
        execute_reply(apply_command(m, CommandView::Delete { key }), CommandView::Get { key })
            == ResponseView::KeyNotExist,
        execute_reply(apply_command(m, CommandView::Delete { key }), CommandView::Delete { key })
            == ResponseView::KeyNotExist,
{
}

/// A set or delete of one key leaves every other key as it was.
pub proof fn lemma_other_keys_unchanged(m: Map<Seq<char>, Seq<u8>>, c: CommandView, other: Seq<char>)
    requires
        match c {
            CommandView::Get { .. } => true,
            CommandView::Put { key, .. } => key != other,
            CommandView::Delete { key } => key != other,
        },
    ensures
        execute_reply(apply_command(m, c), CommandView::Get { key: other }) == execute_reply(
            m,
            CommandView::Get { key: other },
        ),
{
}

/// A set is acknowledged with `Ok` on every table, whether or not the key
/// was there before: the reply never depends on the table.
pub proof fn lemma_set_always_acknowledged(
    m: Map<Seq<char>, Seq<u8>>,
    other: Map<Seq<char>, Seq<u8>>,
    key: Seq<char>,
    value: Seq<u8>,
)
    ensures
        execute_reply(m, CommandView::Put { key, value }) == ResponseView::Okay,
        execute_reply(m, CommandView::Put { key, value }) == execute_reply(
            other,
            CommandView::Put { key, value },
        ),
{
}

/// A delete says `Deleted` exactly when a get of the same key, on the same
/// table, would give a value, whatever other keys the table holds; and the
/// delete takes only that key out.
pub proof fn lemma_delete_reply_matches_presence(m: Map<Seq<char>, Seq<u8>>, key: Seq<char>)
    ensures
        m.contains_key(key) ==> execute_reply(m, CommandView::Delete { key })
            == ResponseView::Deleted,
        !m.contains_key(key) ==> execute_reply(m, CommandView::Delete { key })
            == ResponseView::KeyNotExist,
        (execute_reply(m, CommandView::Delete { key }) == ResponseView::Deleted) <==> (
        execute_reply(m, CommandView::Get { key }) is Value),
        apply_command(m, CommandView::Delete { key }).len() + (if m.contains_key(key) {
            1int
        } else {
            0int
        }) == m.len() || !m.dom().finite(),
{
    if m.dom().finite() && m.contains_key(key) {
        assert(m.remove(key).len() == m.len() - 1);
    } else if m.dom().finite() {
        assert(m.remove(key) =~= m);
    }
}

/// A get of a key the table holds gives the whole stored value.
pub proof fn lemma_get_gives_stored_value(m: Map<Seq<char>, Seq<u8>>, key: Seq<char>)
    ensures
        m.contains_key(key) ==> execute_reply(m, CommandView::Get { key }) == ResponseView::Value(
            m[key],
        ),
        !m.contains_key(key) ==> execute_reply(m, CommandView::Get { key })
            == ResponseView::KeyNotExist,
{
}

} // verus!
