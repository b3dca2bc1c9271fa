//! The byte store that holds the pairs, as writes change it.

use vstd::prelude::*;
use vstd::utf8::*;

use crate::kv::{net, CommandView, KVCommand, KVSnapshot, KeyValue, Net};

verus! {

/// What the byte store holds.
pub type Store = Map<Seq<u8>, Seq<u8>>;

/// One write on the byte store.
#[derive(Clone, Debug, PartialEq, Eq)]
pub enum Write {
    Put { key: Vec<u8>, value: Vec<u8> },
    Delete { key: Vec<u8> },
}

pub enum WriteView {
    Put(Seq<u8>, Seq<u8>),
    Delete(Seq<u8>),
}

impl View for Write {
    type V = WriteView;

    open spec fn view(&self) -> WriteView {
        match *self {
            Write::Put { key, value } => WriteView::Put(key@, value@),
            Write::Delete { key } => WriteView::Delete(key@),
        }
    }
}

pub open spec fn writes(v: Seq<Write>) -> Seq<WriteView> {
    v.map_values(|w: Write| w@)
}

/// The store after one write.
pub open spec fn apply_write(store: Store, w: WriteView) -> Store {
    match w {
        WriteView::Put(key, value) => store.insert(key, value),
        WriteView::Delete(key) => store.remove(key),
    }
}

/// The store after the writes `ws`, done in order.
pub open spec fn apply_writes(store: Store, ws: Seq<WriteView>) -> Store
    decreases ws.len(),
{
    if ws.len() == 0 {
        store
    } else {
        apply_write(apply_writes(store, ws.drop_last()), ws.last())
    }
}

/// What the store holds under a key.
pub open spec fn lookup(store: Store, key: Seq<char>) -> Option<Seq<u8>> {
    let k = encode_utf8(key);
    if store.contains_key(k) {
        Some(store[k])
    } else {
        None
    }
}

/// A store of text: every key and every value is UTF-8.
pub open spec fn text_store(store: Store) -> bool {
    forall|k: Seq<u8>| #[trigger]
        store.contains_key(k) ==> valid_utf8(k) && valid_utf8(store[k])
}

pub open spec fn put_write(key: Seq<char>, value: Seq<char>) -> WriteView {
    WriteView::Put(encode_utf8(key), encode_utf8(value))
}

pub open spec fn delete_write(key: Seq<char>) -> WriteView {
    WriteView::Delete(encode_utf8(key))
}

/// The writes that one command comes to.
pub open spec fn command_writes(c: CommandView) -> Seq<WriteView> {
    match c {
        CommandView::Put(key, value) => seq![put_write(key, value)],
        CommandView::Delete(key) => seq![delete_write(key)],
        CommandView::Get(_) => Seq::empty(),
    }
}

/// The value that a command answers with, where `stored` is what the store holds under its key.
pub open spec fn command_value(c: CommandView, stored: Option<Seq<u8>>) -> Option<Seq<char>> {
    match c {
        CommandView::Get(_) => match stored {
            Some(bytes) => Some(decode_utf8(bytes)),
            None => None,
        },
        _ => None,
    }
}

/// The writes that commands come to, done in order.
pub open spec fn commands_writes(cs: Seq<CommandView>) -> Seq<WriteView>
    decreases cs.len(),
{
    if cs.len() == 0 {
        Seq::empty()
    } else {
        commands_writes(cs.drop_last()) + command_writes(cs.last())
    }
}

/// Keys that encode to the same bytes are the same key.
pub proof fn lemma_encoding_is_injective(a: Seq<char>, b: Seq<char>)
    requires
        encode_utf8(a) == encode_utf8(b),
    ensures
        a == b,
{
    encode_utf8_decode_utf8(a);
    encode_utf8_decode_utf8(b);
}

/// Writes done in two runs come to the same as writes done in one.
pub proof fn law_writes_split(store: Store, a: Seq<WriteView>, b: Seq<WriteView>)
    ensures
        apply_writes(store, a + b) == apply_writes(apply_writes(store, a), b),
    decreases b.len(),
{
    if b.len() == 0 {
        assert(a + b =~= a);
    } else {
        assert((a + b).drop_last() =~= a + b.drop_last());
        law_writes_split(store, a, b.drop_last());
    }
}

/// Commands done in two runs come to the same writes as commands done in one.
pub proof fn law_commands_split(a: Seq<CommandView>, b: Seq<CommandView>)
    ensures
        commands_writes(a + b) == commands_writes(a) + commands_writes(b),
    decreases b.len(),
{
    if b.len() == 0 {
        assert(a + b =~= a);
        assert(commands_writes(a) + commands_writes(b) =~= commands_writes(a));
    } else {
        assert((a + b).drop_last() =~= a + b.drop_last());
        law_commands_split(a, b.drop_last());
        assert(commands_writes(a + b) =~= commands_writes(a) + commands_writes(b));
    }
}

/// A run of one write does that write.
pub proof fn lemma_one_write(store: Store, w: WriteView)
    ensures
        apply_writes(store, seq![w]) == apply_write(store, w),
{
    assert(seq![w].drop_last() =~= Seq::<WriteView>::empty());
    assert(apply_writes(store, Seq::<WriteView>::empty()) == store);
}

/// After a put, a get of its key answers with the value that was put, and what is held under
/// every other key is what was held there before.
pub proof fn law_get_after_put(store: Store, key: Seq<char>, value: Seq<char>)
    ensures
        ({
            let after = apply_writes(store, command_writes(CommandView::Put(key, value)));
            &&& command_value(CommandView::Get(key), lookup(after, key)) == Some(value)
            &&& forall|other: Seq<char>|
                other != key ==> #[trigger] lookup(after, other) == lookup(store, other)
        }),
{
    let after = apply_writes(store, command_writes(CommandView::Put(key, value)));
    lemma_one_write(store, put_write(key, value));
    encode_utf8_decode_utf8(value);
    assert forall|other: Seq<char>| other != key implies #[trigger] lookup(after, other) == lookup(
        store,
        other,
    ) by {
        if encode_utf8(other) == encode_utf8(key) {
            lemma_encoding_is_injective(other, key);
        }
    }
}

/// After a delete, a get of its key answers with nothing, and what is held under every other key
/// is what was held there before.
pub proof fn law_get_after_delete(store: Store, key: Seq<char>)
    ensures
        ({
            let after = apply_writes(store, command_writes(CommandView::Delete(key)));
            &&& command_value(CommandView::Get(key), lookup(after, key)) is None
            &&& forall|other: Seq<char>|
                other != key ==> #[trigger] lookup(after, other) == lookup(store, other)
        }),
{
    let after = apply_writes(store, command_writes(CommandView::Delete(key)));
    lemma_one_write(store, delete_write(key));
    assert forall|other: Seq<char>| other != key implies #[trigger] lookup(after, other) == lookup(
        store,
        other,
    ) by {
        if encode_utf8(other) == encode_utf8(key) {
            lemma_encoding_is_injective(other, key);
        }
    }
}

/// A get changes nothing.
pub proof fn law_get_changes_nothing(store: Store, key: Seq<char>)
    ensures
        apply_writes(store, command_writes(CommandView::Get(key))) == store,
{
}

/// Commands keep a store of text a store of text, so that every later get finds text.
pub proof fn law_commands_keep_text(store: Store, cs: Seq<CommandView>)
    requires
        text_store(store),
    ensures
        text_store(apply_writes(store, commands_writes(cs))),
    decreases cs.len(),
{
    if cs.len() > 0 {
        let before = commands_writes(cs.drop_last());
        law_commands_keep_text(store, cs.drop_last());
        let mid = apply_writes(store, before);
        law_writes_split(store, before, command_writes(cs.last()));
        match cs.last() {
            CommandView::Put(key, value) => {
                lemma_one_write(mid, put_write(key, value));
                encode_utf8_valid_utf8(key);
                encode_utf8_valid_utf8(value);
            },
            CommandView::Delete(key) => {
                lemma_one_write(mid, delete_write(key));
            },
            CommandView::Get(_) => {},
        }
    }
}

/// Whether `after` holds under `k` what `store` does once the net result `n` is laid over it.
spec fn overlaid_at(store: Store, n: Net, after: Store, k: Seq<u8>) -> bool {
    let put = valid_utf8(k) && n.puts.contains_key(decode_utf8(k));
    let gone = valid_utf8(k) && n.deleted.contains(decode_utf8(k));
    if put {
        after.contains_key(k) && after[k] == encode_utf8(n.puts[decode_utf8(k)])
    } else if gone || !store.contains_key(k) {
        !after.contains_key(k)
    } else {
        after.contains_key(k) && after[k] == store[k]
    }
}

proof fn lemma_commands_overlay(store: Store, cs: Seq<CommandView>)
    ensures
        forall|k: Seq<u8>| #[trigger]
            overlaid_at(store, net(cs), apply_writes(store, commands_writes(cs)), k),
    decreases cs.len(),
{
    let n = net(cs);
    let after = apply_writes(store, commands_writes(cs));
    if cs.len() > 0 {
        let before = commands_writes(cs.drop_last());
        let mid = apply_writes(store, before);
        let m = net(cs.drop_last());
        lemma_commands_overlay(store, cs.drop_last());
        law_writes_split(store, before, command_writes(cs.last()));
        match cs.last() {
            CommandView::Put(key, value) => {
                lemma_one_write(mid, put_write(key, value));
                lemma_key_bytes(key);
            },
            CommandView::Delete(key) => {
                lemma_one_write(mid, delete_write(key));
                lemma_key_bytes(key);
            },
            CommandView::Get(_) => {},
        }
        assert forall|k: Seq<u8>| #[trigger] overlaid_at(store, n, after, k) by {
            assert(overlaid_at(store, m, mid, k));
        }
    }
}

/// The bytes of a key are UTF-8, and no other UTF-8 bytes decode to it.
pub proof fn lemma_key_bytes(key: Seq<char>)
    ensures
        valid_utf8(encode_utf8(key)),
        decode_utf8(encode_utf8(key)) == key,
        forall|k: Seq<u8>| #[trigger]
            valid_utf8(k) && decode_utf8(k) == key ==> k == encode_utf8(key),
{
    encode_utf8_valid_utf8(key);
    encode_utf8_decode_utf8(key);
    assert forall|k: Seq<u8>| #[trigger] valid_utf8(k) && decode_utf8(k) == key implies k
        == encode_utf8(key) by {
        decode_utf8_encode_utf8(k);
    }
}

/// Commands with the same net result leave every store the same.
pub proof fn law_net_result_decides(store: Store, a: Seq<CommandView>, b: Seq<CommandView>)
    requires
        net(a) == net(b),
    ensures
        apply_writes(store, commands_writes(a)) == apply_writes(store, commands_writes(b)),
{
    lemma_commands_overlay(store, a);
    lemma_commands_overlay(store, b);
    let x = apply_writes(store, commands_writes(a));
    let y = apply_writes(store, commands_writes(b));
    assert forall|k: Seq<u8>|
        #![trigger x.contains_key(k)]
        #![trigger y.contains_key(k)]
        x.contains_key(k) == y.contains_key(k) && (x.contains_key(k) ==> x[k] == y[k]) by {
        assert(overlaid_at(store, net(a), x, k));
        assert(overlaid_at(store, net(b), y, k));
    }
    assert(x =~= y);
}

/// Every key that commands leave with a value or without one, they do so too with more commands
/// behind them.
proof fn lemma_net_keeps_keys(a: Seq<CommandView>, b: Seq<CommandView>)
    ensures
        forall|key: Seq<char>|
            net(a).puts.contains_key(key) || net(a).deleted.contains(key) ==> (#[trigger] net(
                a + b,
            ).puts.contains_key(key)) || net(a + b).deleted.contains(key),
    decreases b.len(),
{
    if b.len() == 0 {
        assert(a + b =~= a);
    } else {
        assert((a + b).drop_last() =~= a + b.drop_last());
        lemma_net_keeps_keys(a, b.drop_last());
        assert forall|key: Seq<char>|
            net(a).puts.contains_key(key) || net(a).deleted.contains(key) implies (#[trigger] net(
            a + b,
        ).puts.contains_key(key)) || net(a + b).deleted.contains(key) by {
            let before = net(a + b.drop_last());
            assert(before.puts.contains_key(key) || before.deleted.contains(key));
        }
    }
}

/// A store that the commands `a` were done on already becomes, once they are done again with the
/// commands `b` behind them, what it would have become had they been done once. The same goes for
/// any commands `again` with the same net result, such as those of a snapshot.
pub proof fn law_commands_again(
    store: Store,
    a: Seq<CommandView>,
    b: Seq<CommandView>,
    again: Seq<CommandView>,
)
    requires
        net(again) == net(a + b),
    ensures
        apply_writes(apply_writes(store, commands_writes(a)), commands_writes(a + b))
            == apply_writes(store, commands_writes(a + b)),
        apply_writes(apply_writes(store, commands_writes(a)), commands_writes(again))
            == apply_writes(store, commands_writes(a + b)),
{
    let done = apply_writes(store, commands_writes(a));
    let twice = apply_writes(done, commands_writes(a + b));
    let once = apply_writes(store, commands_writes(a + b));
    lemma_commands_overlay(store, a);
    lemma_commands_overlay(done, a + b);
    lemma_commands_overlay(store, a + b);
    lemma_net_keeps_keys(a, b);
    assert forall|k: Seq<u8>|
        #![trigger once.contains_key(k)]
        #![trigger twice.contains_key(k)]
        once.contains_key(k) == twice.contains_key(k) && (once.contains_key(k) ==> once[k]
            == twice[k]) by {
        assert(overlaid_at(store, net(a), done, k));
        assert(overlaid_at(done, net(a + b), twice, k));
        assert(overlaid_at(store, net(a + b), once, k));
        let key = decode_utf8(k);
        assert(net(a).puts.contains_key(key) || net(a).deleted.contains(key) ==> net(
            a + b,
        ).puts.contains_key(key) || net(a + b).deleted.contains(key));
    }
    assert(twice =~= once);
    law_net_result_decides(done, again, a + b);
}

/// A node that takes in the snapshot of a run of log entries ends up where a node does that takes
/// in the entries one by one.
pub proof fn law_snapshot_replays_log(store: Store, entries: Seq<CommandView>, snapshot: KVSnapshot)
    requires
        net(snapshot.commands()) == net(entries),
    ensures
        apply_writes(store, commands_writes(snapshot.commands())) == apply_writes(
            store,
            commands_writes(entries),
        ),
{
    law_net_result_decides(store, snapshot.commands(), entries);
}

/// A merged snapshot does what the two snapshots do one after the other.
pub proof fn law_merged_snapshot(
    store: Store,
    first: KVSnapshot,
    second: KVSnapshot,
    merged: KVSnapshot,
)
    requires
        net(merged.commands()) == net(first.commands() + second.commands()),
    ensures
        apply_writes(store, commands_writes(merged.commands())) == apply_writes(
            apply_writes(store, commands_writes(first.commands())),
            commands_writes(second.commands()),
        ),
{
    law_net_result_decides(store, merged.commands(), first.commands() + second.commands());
    law_commands_split(first.commands(), second.commands());
    law_writes_split(
        store,
        commands_writes(first.commands()),
        commands_writes(second.commands()),
    );
}

/// Taking in a snapshot a second time changes nothing.
pub proof fn law_snapshot_again(store: Store, snapshot: KVSnapshot)
    ensures
        ({
            let once = apply_writes(store, commands_writes(snapshot.commands()));
            apply_writes(once, commands_writes(snapshot.commands())) == once
        }),
{
    let cs = snapshot.commands();
    let once = apply_writes(store, commands_writes(cs));
    let twice = apply_writes(once, commands_writes(cs));
    lemma_commands_overlay(store, cs);
    lemma_commands_overlay(once, cs);
    assert forall|k: Seq<u8>|
        #![trigger once.contains_key(k)]
        #![trigger twice.contains_key(k)]
        once.contains_key(k) == twice.contains_key(k) && (once.contains_key(k) ==> once[k]
            == twice[k]) by {
        assert(overlaid_at(store, net(cs), once, k));
        assert(overlaid_at(once, net(cs), twice, k));
    }
    assert(twice =~= once);
}

/// What is written is the UTF-8 of the key and of the value, one write for each put and each delete
/// and none for a get.
pub proof fn law_commands_write_their_bytes(key: Seq<char>, value: Seq<char>)
    ensures
        command_writes(CommandView::Put(key, value)) == seq![
            WriteView::Put(encode_utf8(key), encode_utf8(value)),
        ],
        command_writes(CommandView::Delete(key)) == seq![WriteView::Delete(encode_utf8(key))],
        command_writes(CommandView::Get(key)).len() == 0,
{
}

/// A get answers with the text that is stored under its key, and with nothing where nothing is; no
/// other command answers with anything.
pub proof fn law_only_gets_answer(c: CommandView, text: Seq<char>, stored: Option<Seq<u8>>)
    ensures
        c is Get ==> command_value(c, Some(encode_utf8(text))) == Some(text),
        c is Get ==> command_value(c, None) is None,
        c !is Get ==> command_value(c, stored) is None,
{
    encode_utf8_decode_utf8(text);
}

/// A write changes the store under its own key and nowhere else.
pub proof fn law_writes_change_their_key(store: Store, key: Vec<u8>, value: Vec<u8>)
    ensures
        apply_write(store, (Write::Put { key, value })@) == store.insert(key@, value@),
        apply_write(store, (Write::Delete { key })@) == store.remove(key@),
{
}

/// Writes stand for themselves, in their order.
pub proof fn law_writes_in_order(v: Seq<Write>, i: int)
    requires
        0 <= i < v.len(),
    ensures
        writes(v).len() == v.len(),
        writes(v)[i] == v[i]@,
{
}

/// A client's command does on the store what it says: a put holds its value under its key, a delete
/// holds nothing there, and each leaves what is held under other keys.
pub proof fn law_client_commands(store: Store, kv: KeyValue, key: String, other: Seq<char>)
    ensures
        ({
            let after = apply_writes(store, command_writes(KVCommand::Put(kv)@));
            &&& lookup(after, kv.key@) == Some(encode_utf8(kv.value@))
            &&& other != kv.key@ ==> lookup(after, other) == lookup(store, other)
        }),
        ({
            let after = apply_writes(store, command_writes(KVCommand::Delete(key)@));
            &&& lookup(after, key@) is None
            &&& other != key@ ==> lookup(after, other) == lookup(store, other)
        }),
        apply_writes(store, command_writes(KVCommand::Get(key)@)) == store,
        command_value(KVCommand::Get(key)@, Some(encode_utf8(other))) == Some(other),
{
    law_get_after_put(store, kv.key@, kv.value@);
    law_get_after_delete(store, key@);
    lemma_one_write(store, put_write(kv.key@, kv.value@));
    law_only_gets_answer(KVCommand::Get(key)@, other, None);
}

} // verus!
