//! The key-value store of a node, as the writes that its byte store is given.
//!
//! The byte store itself is on disk and outside this crate. A [`Database`] says which writes a
//! command, a snapshot or a state transfer comes to, and what the bytes that are read back mean.

use vstd::prelude::*;
use vstd::utf8::*;

use crate::kv::{pairs, KVCommand, KVSnapshot};
use crate::store::{
    command_value, command_writes, commands_writes, delete_write, put_write, writes, Write,
    WriteView,
};
use crate::transfer::{
    has_key, latest_puts, lemma_text_pairs_fails, row_view, rows_view, stale_deletes, text_pairs,
    Row,
};

verus! {

/// `String::from_utf8` of the standard library: the text that the bytes encode, or `None` where
/// they are not UTF-8.
#[verifier::external_body]
fn string_from_utf8(bytes: Vec<u8>) -> (r: Option<String>)
    ensures
        match r {
            Some(s) => valid_utf8(bytes@) && s@ == decode_utf8(bytes@),
            None => !valid_utf8(bytes@),
        },
{
    String::from_utf8(bytes).ok()
}

/// A row of the store held bytes that are not text.
#[derive(Clone, Copy, Debug, PartialEq, Eq)]
pub struct NotUtf8;

/// What a command comes to: the writes to do, and the value to answer with.
#[derive(Clone, Debug, PartialEq, Eq)]
pub struct Outcome {
    pub writes: Vec<Write>,
    pub value: Option<String>,
}

pub open spec fn text_view(v: Option<String>) -> Option<Seq<char>> {
    match v {
        Some(s) => Some(s@),
        None => None,
    }
}

pub open spec fn bytes_view(v: Option<Vec<u8>>) -> Option<Seq<u8>> {
    match v {
        Some(b) => Some(b@),
        None => None,
    }
}

/// The store of one node, kept in the directory `path`.
#[derive(Clone, Debug, PartialEq, Eq)]
pub struct Database {
    pub path: String,
}

impl Database {
    /// The store that is kept in the directory `path`.
    pub fn new(path: &str) -> (r: Database)
        ensures
            r.path@ == path@,
    {
        Database { path: path.to_owned() }
    }

    /// All pairs of the store, as a scan from its start reads them. Rows that could not be read
    /// are left out.
    pub fn get_all_key_values(&self, rows: Vec<Row>) -> (r: Result<Vec<(String, String)>, NotUtf8>)
        ensures
            match r {
                Ok(list) => text_pairs(rows_view(rows@)) == Some(pairs(list@)),
                Err(_) => text_pairs(rows_view(rows@)) is None,
            },
    {
        let mut kv_list: Vec<(String, String)> = Vec::new();
        let ghost all = rows_view(rows@);
        assert(pairs(kv_list@) =~= Seq::empty());
        for row in it: rows
            invariant
                it.seq() == rows@,
                all == rows_view(rows@),
                text_pairs(all.take(it.index() as int)) == Some(pairs(kv_list@)),
        {
            let ghost i = it.index() as int;
            assert(all.take(i + 1).drop_last() =~= all.take(i));
            assert(all.take(i + 1).last() == row_view(row));
            match row {
                Some((key, value)) => {
                    let key_text = string_from_utf8(key);
                    let value_text = string_from_utf8(value);
                    match (key_text, value_text) {
                        (Some(key_str), Some(value_str)) => {
                            let ghost before = pairs(kv_list@);
                            kv_list.push((key_str, value_str));
                            assert(pairs(kv_list@) =~= before.push((key_str@, value_str@)));
                        },
                        _ => {
                            proof {
                                lemma_text_pairs_fails(all, i + 1);
                            }
                            return Err(NotUtf8);
                        },
                    }
                },
                None => {},
            }
        }
        assert(all.take(all.len() as int) =~= all);
        Ok(kv_list)
    }

    /// The writes that bring the store to the state `kv_list`: a put for each of its keys, then a
    /// delete for each key that the scan `rows` found in the store and the list does not have.
    pub fn handle_kv(&self, kv_list: Vec<(String, String)>, rows: Vec<Row>) -> (r: Vec<Write>)
        ensures
            writes(r@) == latest_puts(pairs(kv_list@)) + stale_deletes(
                pairs(kv_list@),
                rows_view(rows@),
            ),
    {
        let ghost list = pairs(kv_list@);
        let ghost all = rows_view(rows@);
        let mut out: Vec<Write> = Vec::new();
        let mut i: usize = 0;
        assert(list.skip(0) =~= list);
        assert(writes(out@) + latest_puts(list.skip(0)) =~= latest_puts(list));
        while i < kv_list.len()
            invariant
                i <= kv_list@.len(),
                list == pairs(kv_list@),
                writes(out@) + latest_puts(list.skip(i as int)) == latest_puts(list),
            decreases kv_list@.len() - i,
        {
            let ghost rest = list.skip(i as int);
            assert(rest.drop_first() =~= list.skip(i + 1));
            assert(rest[0] == list[i as int]);
            if !contains_key_from(&kv_list, i + 1, &kv_list[i].0) {
                let ghost before = writes(out@);
                out.push(self.put(&kv_list[i].0, &kv_list[i].1));
                assert(writes(out@) =~= before.push(put_write(list[i as int].0, list[i as int].1)));
                assert(writes(out@) + latest_puts(list.skip(i + 1)) =~= before + latest_puts(rest));
            }
            i += 1;
        }
        assert(latest_puts(list.skip(list.len() as int)) =~= Seq::empty());
        assert(writes(out@) =~= latest_puts(list));
        let ghost puts = writes(out@);
        assert(writes(out@) =~= puts + stale_deletes(list, all.take(0)));
        for row in it: rows
            invariant
                it.seq() == rows@,
                all == rows_view(rows@),
                list == pairs(kv_list@),
                writes(out@) == puts + stale_deletes(list, all.take(it.index() as int)),
        {
            let ghost n = it.index() as int;
            let ghost before = writes(out@);
            assert(all.take(n + 1).drop_last() =~= all.take(n));
            assert(all.take(n + 1).last() == row_view(row));
            if let Some((key, _)) = row {
                if let Some(key_str) = string_from_utf8(key) {
                    assert(list.skip(0) =~= list);
                    if !contains_key_from(&kv_list, 0, &key_str) {
                        proof {
                            decode_utf8_encode_utf8(key@);
                        }
                        out.push(self.delete(&key_str));
                        assert(writes(out@) =~= before.push(WriteView::Delete(key@)));
                    }
                }
            }
            assert(writes(out@) =~= puts + stale_deletes(list, all.take(n + 1)));
        }
        assert(all.take(all.len() as int) =~= all);
        out
    }

    /// The writes that a snapshot comes to: its puts, then its deletes.
    pub fn handle_snapshot(&self, snapshot: KVSnapshot) -> (r: Vec<Write>)
        ensures
            writes(r@) == commands_writes(snapshot.commands()),
    {
        let ghost all = snapshot.commands();
        let mut out: Vec<Write> = Vec::new();
        let mut i: usize = 0;
        assert(writes(out@) =~= commands_writes(all.take(0)));
        while i < snapshot.snapshotted.len()
            invariant
                i <= snapshot.snapshotted@.len(),
                all == snapshot.commands(),
                writes(out@) == commands_writes(all.take(i as int)),
            decreases snapshot.snapshotted@.len() - i,
        {
            let ghost before = writes(out@);
            assert(all.take(i + 1).drop_last() =~= all.take(i as int));
            out.push(self.put(&snapshot.snapshotted[i].0, &snapshot.snapshotted[i].1));
            assert(writes(out@) =~= before + command_writes(all[i as int]));
            i += 1;
        }
        let mut j: usize = 0;
        while j < snapshot.deleted_keys.len()
            invariant
                j <= snapshot.deleted_keys@.len(),
                i == snapshot.snapshotted@.len(),
                all == snapshot.commands(),
                writes(out@) == commands_writes(all.take(i + j)),
            decreases snapshot.deleted_keys@.len() - j,
        {
            let ghost before = writes(out@);
            assert(all.take(i + j + 1).drop_last() =~= all.take(i + j));
            out.push(self.delete(&snapshot.deleted_keys[j]));
            assert(writes(out@) =~= before + command_writes(all[i + j]));
            j += 1;
        }
        assert(all.take(i + j) =~= all);
        out
    }

    /// What a command comes to. For a `Get`, `stored` is what the store holds under its key.
    pub fn handle_command(&self, command: KVCommand, stored: Option<Vec<u8>>) -> (r: Outcome)
        requires
            command is Get && stored is Some ==> valid_utf8(stored->0@),
        ensures
            writes(r.writes@) == command_writes(command@),
            text_view(r.value) == command_value(command@, bytes_view(stored)),
    {
        let mut out: Vec<Write> = Vec::new();
        let mut value: Option<String> = None;
        match &command {
            KVCommand::Put(kv) => {
                out.push(self.put(&kv.key, &kv.value));
            },
            KVCommand::Delete(key) => {
                out.push(self.delete(key));
            },
            KVCommand::Get(_) => {
                value = self.get(stored);
            },
        }
        assert(writes(out@) =~= command_writes(command@));
        Outcome { writes: out, value }
    }

    /// The text of a value that was read from the store.
    fn get(&self, stored: Option<Vec<u8>>) -> (r: Option<String>)
        requires
            stored is Some ==> valid_utf8(stored->0@),
        ensures
            text_view(r) == (match stored {
                Some(bytes) => Some(decode_utf8(bytes@)),
                None => None,
            }),
    {
        match stored {
            Some(bytes) => string_from_utf8(bytes),
            None => None,
        }
    }

    fn put(&self, key: &String, value: &String) -> (w: Write)
        ensures
            w@ == put_write(key@, value@),
    {
        Write::Put { key: key.as_str().as_bytes_vec(), value: value.as_str().as_bytes_vec() }
    }

    fn delete(&self, key: &String) -> (w: Write)
        ensures
            w@ == delete_write(key@),
    {
        Write::Delete { key: key.as_str().as_bytes_vec() }
    }
}

/// Whether one of the pairs from `from` on has the key `key`.
fn contains_key_from(list: &Vec<(String, String)>, from: usize, key: &String) -> (r: bool)
    requires
        from <= list@.len(),
    ensures
        r == has_key(pairs(list@).skip(from as int), key@),
{
    let ghost tail = pairs(list@).skip(from as int);
    let mut i: usize = from;
    while i < list.len()
        invariant
            from <= i <= list@.len(),
            tail == pairs(list@).skip(from as int),
            forall|j: int| 0 <= j < i - from ==> (#[trigger] tail[j]).0 != key@,
        decreases list@.len() - i,
    {
        assert(tail[i - from] == (list@[i as int].0@, list@[i as int].1@));
        if list[i].0 == *key {
            return true;
        }
        i += 1;
    }
    false
}

} // verus!
