//! What a log makes of the stores of the nodes that take it in.

use vstd::prelude::*;
use vstd::utf8::*;

use crate::config::{
    first_log_path, law_log_paths_differ, log_path, ClusterConfig, ClusterConfigView,
};
use crate::kv::{
    delete_all, lemma_net_from, net, pairs, put_all, CommandView, KVCommand, KVSnapshot, KeyValue,
};
use crate::network::Message;
use crate::server::{
    decided_seen, decided_server, entry_steps, law_newcomers_are_new, law_stop_signs_count,
    lemma_stop_sign_resets, log_server, log_steps, stop_signs, task_of, unread_from, write_steps,
    EntryView, LogEntry, ServerView, StepView, Task,
};
use crate::store::{
    apply_write, apply_writes, command_value, command_writes, commands_writes, law_client_commands,
    law_commands_again, law_commands_keep_text, law_commands_split, law_get_after_delete,
    law_get_after_put, law_get_changes_nothing, law_net_result_decides, law_writes_split,
    lemma_one_write, lookup, put_write, text_store, Store, WriteView,
};
use crate::text::texts;
use crate::transfer::{
    full_scan, latest_puts, law_state_transfer, stale_deletes, text_pairs, RowView,
};

verus! {

/// The store after steps are done on it. Sending its state and changing the configuration leave it
/// as it is.
pub open spec fn store_after(store: Store, steps: Seq<StepView>) -> Store
    decreases steps.len(),
{
    if steps.len() == 0 {
        store
    } else {
        let before = store_after(store, steps.drop_last());
        match steps.last() {
            StepView::Write(w) => apply_write(before, w),
            _ => before,
        }
    }
}

/// What one log entry makes of a store, on whichever node.
pub open spec fn entry_store(store: Store, e: EntryView) -> Store {
    match e {
        EntryView::Command(c) => apply_writes(store, command_writes(c)),
        EntryView::Snapshot(cs) => apply_writes(store, commands_writes(cs)),
        _ => store,
    }
}

/// What a log makes of a store, on whichever node.
pub open spec fn log_store(store: Store, es: Seq<EntryView>) -> Store
    decreases es.len(),
{
    if es.len() == 0 {
        store
    } else {
        entry_store(log_store(store, es.drop_last()), es.last())
    }
}

proof fn lemma_steps_split(store: Store, a: Seq<StepView>, b: Seq<StepView>)
    ensures
        store_after(store, a + b) == store_after(store_after(store, a), b),
    decreases b.len(),
{
    if b.len() == 0 {
        assert(a + b =~= a);
    } else {
        assert((a + b).drop_last() =~= a + b.drop_last());
        lemma_steps_split(store, a, b.drop_last());
    }
}

proof fn lemma_write_steps(store: Store, ws: Seq<WriteView>)
    ensures
        store_after(store, write_steps(ws)) == apply_writes(store, ws),
    decreases ws.len(),
{
    if ws.len() > 0 {
        assert(write_steps(ws).drop_last() =~= write_steps(ws.drop_last()));
        lemma_write_steps(store, ws.drop_last());
    }
}

proof fn lemma_entry_steps(s: ServerView, leader: Option<u64>, store: Store, e: EntryView)
    ensures
        store_after(store, entry_steps(s, leader, e)) == entry_store(store, e),
{
    match e {
        EntryView::Command(c) => {
            lemma_write_steps(store, command_writes(c));
        },
        EntryView::Snapshot(cs) => {
            lemma_write_steps(store, commands_writes(cs));
        },
        EntryView::StopSign(_) => {
            let steps = entry_steps(s, leader, e);
            reveal_with_fuel(store_after, 3);
            if steps.len() == 2 {
                assert(steps.drop_last().drop_last() =~= Seq::empty());
            } else {
                assert(steps.drop_last() =~= Seq::empty());
            }
        },
        EntryView::Nothing => {},
    }
}

/// A log decides what becomes of a store: every node that starts from the same store and takes in
/// the same entries in the same order ends with the same store, whichever node it is, whomever it
/// takes for the leader and whatever else it has been through.
pub proof fn law_same_log_same_store(
    a: ServerView,
    a_leader: Option<u64>,
    b: ServerView,
    b_leader: Option<u64>,
    store: Store,
    es: Seq<EntryView>,
)
    ensures
        store_after(store, log_steps(a, a_leader, es)) == log_store(store, es),
        store_after(store, log_steps(a, a_leader, es)) == store_after(
            store,
            log_steps(b, b_leader, es),
        ),
{
    lemma_log_steps(a, a_leader, store, es);
    lemma_log_steps(b, b_leader, store, es);
}

proof fn lemma_log_steps(s: ServerView, leader: Option<u64>, store: Store, es: Seq<EntryView>)
    ensures
        store_after(store, log_steps(s, leader, es)) == log_store(store, es),
    decreases es.len(),
{
    if es.len() > 0 {
        let short = es.drop_last();
        let mid = log_server(s, short);
        lemma_log_steps(s, leader, store, short);
        lemma_steps_split(
            store,
            log_steps(s, leader, short),
            entry_steps(mid, leader, es.last()),
        );
        lemma_entry_steps(mid, leader, log_store(store, short), es.last());
    }
}

/// Entries taken in two runs come to the same as entries taken in one: the same steps, the same
/// bookkeeping, the same store.
pub proof fn law_log_split(
    s: ServerView,
    leader: Option<u64>,
    store: Store,
    a: Seq<EntryView>,
    b: Seq<EntryView>,
)
    ensures
        log_server(s, a + b) == log_server(log_server(s, a), b),
        log_steps(s, leader, a + b) == log_steps(s, leader, a) + log_steps(
            log_server(s, a),
            leader,
            b,
        ),
        log_store(store, a + b) == log_store(log_store(store, a), b),
    decreases b.len(),
{
    let first = log_steps(s, leader, a);
    if b.len() == 0 {
        assert(a + b =~= a);
        assert(first + log_steps(log_server(s, a), leader, b) =~= first);
    } else {
        assert((a + b).drop_last() =~= a + b.drop_last());
        law_log_split(s, leader, store, a, b.drop_last());
        assert(log_steps(s, leader, a + b) =~= first + log_steps(log_server(s, a), leader, b));
    }
}

/// Whether a step starts a configuration with its log in the directory for the configuration
/// number `id`.
pub open spec fn starts_with_log(step: StepView, pid: u64, id: u64) -> bool {
    step is StartConfiguration && step->StartConfiguration_1 == log_path(pid, id)
}

proof fn lemma_log_keeps_node(s: ServerView, es: Seq<EntryView>)
    ensures
        log_server(s, es).pid == s.pid,
    decreases es.len(),
{
    if es.len() > 0 {
        lemma_log_keeps_node(s, es.drop_last());
    }
}

proof fn lemma_start_numbers(s: ServerView, leader: Option<u64>, es: Seq<EntryView>)
    requires
        s.current_config_id + stop_signs(es) <= u64::MAX,
    ensures
        forall|i: int|
            0 <= i < log_steps(s, leader, es).len() && (
            #[trigger] log_steps(s, leader, es)[i]) is StartConfiguration ==> exists|id: u64|
                s.current_config_id < id <= log_server(s, es).current_config_id
                    && #[trigger] starts_with_log(log_steps(s, leader, es)[i], s.pid, id),
    decreases es.len(),
{
    if es.len() > 0 {
        let short = es.drop_last();
        lemma_start_numbers(s, leader, short);
        lemma_log_keeps_node(s, short);
        law_stop_signs_count(s, short);
        let mid = log_server(s, short);
        let before = log_steps(s, leader, short);
        let added = entry_steps(mid, leader, es.last());
        assert forall|i: int|
            0 <= i < log_steps(s, leader, es).len() && (
            #[trigger] log_steps(s, leader, es)[i]) is StartConfiguration implies exists|id: u64|
            s.current_config_id < id <= log_server(s, es).current_config_id
                && #[trigger] starts_with_log(log_steps(s, leader, es)[i], s.pid, id) by {
            if i < before.len() {
                assert(before[i] is StartConfiguration);
                let id = choose|id: u64|
                    s.current_config_id < id <= mid.current_config_id
                        && #[trigger] starts_with_log(before[i], s.pid, id);
                assert(starts_with_log(log_steps(s, leader, es)[i], s.pid, id));
            } else {
                assert(added[i - before.len()] is StartConfiguration);
                let id = (mid.current_config_id + 1) as u64;
                assert(starts_with_log(log_steps(s, leader, es)[i], s.pid, id));
            }
        }
    }
}

/// Every configuration that a log starts has a directory for its log that no configuration had
/// before it, the first one not excepted.
pub proof fn law_each_configuration_has_its_own_log(
    s: ServerView,
    leader: Option<u64>,
    es: Seq<EntryView>,
    i: int,
    j: int,
)
    requires
        s.current_config_id + stop_signs(es) <= u64::MAX,
        0 <= i <= j < log_steps(s, leader, es).len(),
        log_steps(s, leader, es)[i] is StartConfiguration,
        log_steps(s, leader, es)[j] is StartConfiguration,
    ensures
        log_steps(s, leader, es)[i]->StartConfiguration_1 != first_log_path(s.pid),
        i < j ==> log_steps(s, leader, es)[i]->StartConfiguration_1
            != log_steps(s, leader, es)[j]->StartConfiguration_1,
    decreases es.len(),
{
    lemma_start_numbers(s, leader, es);
    let steps = log_steps(s, leader, es);
    let own = choose|id: u64|
        s.current_config_id < id <= log_server(s, es).current_config_id
            && #[trigger] starts_with_log(steps[i], s.pid, id);
    law_log_paths_differ(s.pid, own, own);
    if i < j {
        let short = es.drop_last();
        let before = log_steps(s, leader, short);
        let mid = log_server(s, short);
        law_stop_signs_count(s, short);
        lemma_log_keeps_node(s, short);
        lemma_start_numbers(s, leader, short);
        if j < before.len() {
            law_each_configuration_has_its_own_log(s, leader, short, i, j);
        } else {
            assert(before[i] is StartConfiguration);
            let id = choose|id: u64|
                s.current_config_id < id <= mid.current_config_id && #[trigger] starts_with_log(
                    before[i],
                    s.pid,
                    id,
                );
            law_log_paths_differ(s.pid, id, (mid.current_config_id + 1) as u64);
        }
    }
}

/// Whether a store is what the log, up to the last applied index, makes of `base`.
pub open spec fn in_step(s: ServerView, log: Seq<EntryView>, base: Store, store: Store) -> bool {
    &&& s.last_decided_idx <= log.len()
    &&& store == log_store(base, log.take(s.last_decided_idx as int))
}

/// Taking in what is newly decided keeps the store in step with the log: it becomes what the log up
/// to the new index makes of `base`, so no entry is left out and none is taken in twice. Where the
/// entries end the configuration, the store is in step with the log of the next one from then on,
/// whatever that log holds: it is at the start of it.
pub proof fn law_store_follows_log(
    s: ServerView,
    leader: Option<u64>,
    log: Seq<EntryView>,
    base: Store,
    store: Store,
    decided: u64,
    next_log: Seq<EntryView>,
)
    requires
        in_step(s, log, base, store),
        s.last_decided_idx <= decided <= log.len(),
    ensures
        ({
            let seen = decided_seen(s, decided);
            let fresh = log.subrange(seen.last_decided_idx as int, decided as int);
            let done = decided_server(seen, fresh, decided);
            let after = store_after(store, log_steps(seen, leader, fresh));
            &&& seen.last_decided_idx <= decided
            &&& after == log_store(base, log.take(decided as int))
            &&& stop_signs(fresh) == 0 ==> done.last_decided_idx == decided && in_step(
                done,
                log,
                base,
                after,
            )
            &&& stop_signs(fresh) > 0 ==> done.last_decided_idx == 0 && in_step(
                done,
                next_log,
                after,
                after,
            )
        }),
{
    let seen = decided_seen(s, decided);
    let from = seen.last_decided_idx as int;
    let fresh = log.subrange(from, decided as int);
    let after = store_after(store, log_steps(seen, leader, fresh));
    lemma_log_steps(seen, leader, store, fresh);
    law_log_split(seen, leader, base, log.take(from), fresh);
    assert(log.take(from) + fresh =~= log.take(decided as int));
    if stop_signs(fresh) > 0 {
        lemma_stop_sign_resets(seen, fresh);
        assert(next_log.take(0) =~= Seq::empty());
    }
}

/// After the end of a configuration the log of the next one is taken in from its start: once that
/// log is seen to be decided up to some index, however far that is, the store becomes what the
/// whole of the old log and the new log up to that index make of `base`.
pub proof fn law_next_log_from_its_start(
    s: ServerView,
    leader: Option<u64>,
    log: Seq<EntryView>,
    base: Store,
    store: Store,
    decided: u64,
    next_leader: Option<u64>,
    next_log: Seq<EntryView>,
    next_decided: u64,
)
    requires
        in_step(s, log, base, store),
        s.last_decided_idx <= decided == log.len(),
        stop_signs(log.skip(s.last_decided_idx as int)) > 0,
        next_decided <= next_log.len(),
    ensures
        ({
            let seen = decided_seen(s, decided);
            let fresh = log.skip(seen.last_decided_idx as int);
            let after = store_after(store, log_steps(seen, leader, fresh));
            let next_seen = decided_seen(decided_server(seen, fresh, decided), next_decided);
            let next_fresh = next_log.take(next_decided as int);
            &&& next_seen.last_decided_idx == 0
            &&& store_after(after, log_steps(next_seen, next_leader, next_fresh)) == log_store(
                base,
                log + next_fresh,
            )
        }),
{
    let seen = decided_seen(s, decided);
    let fresh = log.skip(seen.last_decided_idx as int);
    let next_seen = decided_seen(decided_server(seen, fresh, decided), next_decided);
    let next_fresh = next_log.take(next_decided as int);
    assert(fresh =~= log.subrange(seen.last_decided_idx as int, decided as int));
    law_store_follows_log(s, leader, log, base, store, decided, next_log);
    assert(log.take(decided as int) =~= log);
    lemma_log_steps(next_seen, next_leader, log_store(base, log), next_fresh);
    law_log_split(seen, leader, base, log, next_fresh);
}

/// The commands that a log comes to: those that it holds, and those that its snapshots stand for.
pub open spec fn log_commands(es: Seq<EntryView>) -> Seq<CommandView>
    decreases es.len(),
{
    if es.len() == 0 {
        Seq::empty()
    } else {
        log_commands(es.drop_last()) + (match es.last() {
            EntryView::Command(c) => seq![c],
            EntryView::Snapshot(cs) => cs,
            _ => Seq::empty(),
        })
    }
}

proof fn lemma_log_commands(store: Store, es: Seq<EntryView>)
    ensures
        log_store(store, es) == apply_writes(store, commands_writes(log_commands(es))),
    decreases es.len(),
{
    if es.len() > 0 {
        let short = es.drop_last();
        lemma_log_commands(store, short);
        let before = log_commands(short);
        match es.last() {
            EntryView::Command(c) => {
                assert((before + seq![c]).drop_last() =~= before);
                law_writes_split(store, commands_writes(before), command_writes(c));
            },
            EntryView::Snapshot(cs) => {
                law_commands_split(before, cs);
                law_writes_split(store, commands_writes(before), commands_writes(cs));
            },
            _ => {
                assert(log_commands(es) =~= before);
            },
        }
    }
}

proof fn lemma_log_commands_split(a: Seq<EntryView>, b: Seq<EntryView>)
    ensures
        log_commands(a + b) == log_commands(a) + log_commands(b),
    decreases b.len(),
{
    if b.len() == 0 {
        assert(a + b =~= a);
    } else {
        assert((a + b).drop_last() =~= a + b.drop_last());
        lemma_log_commands_split(a, b.drop_last());
    }
    assert(log_commands(a + b) =~= log_commands(a) + log_commands(b));
}

/// A node that crashed recovers. Its store survived, with the entries `taken` of the log applied to
/// it. It starts over, and takes in the whole log, with the entries `missed` that were decided
/// since; it may find the log in another form `kept`, with snapshots in place of entries. Then its
/// store is that of the nodes that never crashed.
pub proof fn law_restarted_node_recovers(
    s: ServerView,
    leader: Option<u64>,
    base: Store,
    taken: Seq<EntryView>,
    missed: Seq<EntryView>,
    kept: Seq<EntryView>,
)
    requires
        net(log_commands(kept)) == net(log_commands(taken + missed)),
    ensures
        store_after(log_store(base, taken), log_steps(s, leader, kept)) == log_store(
            base,
            taken + missed,
        ),
{
    let store = log_store(base, taken);
    lemma_log_steps(s, leader, store, kept);
    lemma_log_commands(base, taken);
    lemma_log_commands(store, kept);
    lemma_log_commands(base, taken + missed);
    lemma_log_commands_split(taken, missed);
    law_commands_again(base, log_commands(taken), log_commands(missed), log_commands(kept));
}

/// A log whose first entries are replaced by a snapshot of them comes to the same as before.
pub proof fn law_compacted_log(first: Seq<EntryView>, rest: Seq<EntryView>, snapshot: KVSnapshot)
    requires
        net(snapshot.commands()) == net(log_commands(first)),
    ensures
        net(log_commands(seq![EntryView::Snapshot(snapshot.commands())] + rest)) == net(
            log_commands(first + rest),
        ),
{
    let head = seq![EntryView::Snapshot(snapshot.commands())];
    assert(head.drop_last() =~= Seq::empty());
    assert(log_commands(head.drop_last()) =~= Seq::empty());
    assert(log_commands(head) =~= snapshot.commands());
    lemma_log_commands_split(head, rest);
    lemma_log_commands_split(first, rest);
    lemma_net_from(snapshot.commands(), log_commands(rest));
    lemma_net_from(log_commands(first), log_commands(rest));
}

pub open spec fn decided_commands(cs: Seq<CommandView>) -> Seq<EntryView> {
    cs.map_values(|c: CommandView| EntryView::Command(c))
}

proof fn lemma_decided_commands(store: Store, cs: Seq<CommandView>)
    ensures
        log_store(store, decided_commands(cs)) == apply_writes(store, commands_writes(cs)),
    decreases cs.len(),
{
    if cs.len() > 0 {
        assert(decided_commands(cs).drop_last() =~= decided_commands(cs.drop_last()));
        lemma_decided_commands(store, cs.drop_last());
        law_writes_split(store, commands_writes(cs.drop_last()), command_writes(cs.last()));
    }
}

/// A node that missed decided commands and is given a snapshot of them instead ends with the store
/// of the nodes that took in the commands.
pub proof fn law_snapshot_recovers(store: Store, missed: Seq<CommandView>, snapshot: KVSnapshot)
    requires
        net(snapshot.commands()) == net(missed),
    ensures
        log_store(store, seq![EntryView::Snapshot(snapshot.commands())]) == log_store(
            store,
            decided_commands(missed),
        ),
{
    lemma_decided_commands(store, missed);
    law_net_result_decides(store, snapshot.commands(), missed);
    let es = seq![EntryView::Snapshot(snapshot.commands())];
    assert(es.drop_last() =~= Seq::empty());
    assert(log_store(store, es.drop_last()) == store);
}

/// A log keeps a store of text a store of text.
pub proof fn law_log_keeps_text(store: Store, es: Seq<EntryView>)
    requires
        text_store(store),
    ensures
        text_store(log_store(store, es)),
    decreases es.len(),
{
    if es.len() > 0 {
        let before = log_store(store, es.drop_last());
        law_log_keeps_text(store, es.drop_last());
        match es.last() {
            EntryView::Command(c) => {
                law_commands_keep_text(before, seq![c]);
                assert(seq![c].drop_last() =~= Seq::empty());
                assert(commands_writes(Seq::empty()) =~= Seq::empty());
                assert(commands_writes(seq![c]) =~= command_writes(c));
            },
            EntryView::Snapshot(cs) => {
                law_commands_keep_text(before, cs);
            },
            _ => {},
        }
    }
}

/// The state is sent by the leader alone, at the end of a configuration, to the nodes that are new
/// in the next one and to no others. So no node that took in the log is set back by it.
pub proof fn law_state_goes_to_newcomers_alone(
    s: ServerView,
    leader: Option<u64>,
    e: EntryView,
    i: int,
    n: u64,
)
    requires
        0 <= i < entry_steps(s, leader, e).len(),
        entry_steps(s, leader, e)[i] is SendState,
    ensures
        leader == Some(s.pid),
        e is StopSign,
        e->StopSign_0.nodes.contains(s.pid),
        entry_steps(s, leader, e)[i]->SendState_0.contains(n) <==> e->StopSign_0.nodes.contains(n)
            && !s.members.contains(n),
{
    law_newcomers_are_new(e->StopSign_0.nodes, s.members, n);
}

/// A node that joins gets the state of the cluster: at the end of a configuration the leader, which
/// has taken in the log `es` and stays on, sends its state to every node `n` that is new in the
/// next configuration, before it goes on itself. The transfer leaves at `n`, whatever was there,
/// what the log made of the leader's store.
pub proof fn law_joining_node_catches_up(
    s: ServerView,
    base: Store,
    es: Seq<EntryView>,
    config: ClusterConfigView,
    n: u64,
    sender_rows: Seq<RowView>,
    receiver: Store,
    receiver_rows: Seq<RowView>,
)
    requires
        config.nodes.contains(s.pid),
        config.nodes.contains(n),
        !log_server(s, es).members.contains(n),
        text_store(base),
        text_store(receiver),
        full_scan(sender_rows, store_after(base, log_steps(s, Some(s.pid), es))),
        full_scan(receiver_rows, receiver),
    ensures
        ({
            let steps = entry_steps(log_server(s, es), Some(s.pid), EntryView::StopSign(config));
            let list = text_pairs(sender_rows);
            &&& steps.len() == 2
            &&& steps[0] is SendState
            &&& steps[0]->SendState_0.contains(n)
            &&& steps[1] is StartConfiguration
            &&& list is Some
            &&& apply_writes(
                receiver,
                latest_puts(list->0) + stale_deletes(list->0, receiver_rows),
            ) == log_store(base, es)
        }),
{
    lemma_log_keeps_node(s, es);
    law_newcomers_are_new(config.nodes, log_server(s, es).members, n);
    lemma_log_steps(s, Some(s.pid), base, es);
    law_log_keeps_text(base, es);
    law_state_transfer(log_store(base, es), sender_rows, receiver, receiver_rows);
}

/// Whether a command writes under the key `key`.
pub open spec fn command_touches(c: CommandView, key: Seq<char>) -> bool {
    match c {
        CommandView::Put(k, _) => k == key,
        CommandView::Delete(k) => k == key,
        CommandView::Get(_) => false,
    }
}

/// Whether a log entry writes under the key `key`.
pub open spec fn entry_touches(e: EntryView, key: Seq<char>) -> bool {
    match e {
        EntryView::Command(c) => command_touches(c, key),
        EntryView::Snapshot(cs) => exists|i: int|
            0 <= i < cs.len() && #[trigger] command_touches(cs[i], key),
        _ => false,
    }
}

proof fn lemma_untouched_command(store: Store, c: CommandView, key: Seq<char>)
    requires
        !command_touches(c, key),
    ensures
        lookup(apply_writes(store, command_writes(c)), key) == lookup(store, key),
{
    match c {
        CommandView::Put(k, v) => {
            law_get_after_put(store, k, v);
        },
        CommandView::Delete(k) => {
            law_get_after_delete(store, k);
        },
        CommandView::Get(k) => {
            law_get_changes_nothing(store, k);
        },
    }
}

proof fn lemma_untouched_commands(store: Store, cs: Seq<CommandView>, key: Seq<char>)
    requires
        forall|i: int| 0 <= i < cs.len() ==> !#[trigger] command_touches(cs[i], key),
    ensures
        lookup(apply_writes(store, commands_writes(cs)), key) == lookup(store, key),
    decreases cs.len(),
{
    if cs.len() > 0 {
        let short = cs.drop_last();
        assert forall|i: int| 0 <= i < short.len() implies !#[trigger] command_touches(
            short[i],
            key,
        ) by {
            assert(!command_touches(cs[i], key));
        }
        lemma_untouched_commands(store, short, key);
        assert(!command_touches(cs[cs.len() - 1], key));
        law_writes_split(store, commands_writes(short), command_writes(cs.last()));
        lemma_untouched_command(apply_writes(store, commands_writes(short)), cs.last(), key);
    }
}

proof fn lemma_untouched_entries(store: Store, es: Seq<EntryView>, key: Seq<char>)
    requires
        forall|i: int| 0 <= i < es.len() ==> !#[trigger] entry_touches(es[i], key),
    ensures
        lookup(log_store(store, es), key) == lookup(store, key),
    decreases es.len(),
{
    if es.len() > 0 {
        let short = es.drop_last();
        assert forall|i: int| 0 <= i < short.len() implies !#[trigger] entry_touches(
            short[i],
            key,
        ) by {
            assert(!entry_touches(es[i], key));
        }
        lemma_untouched_entries(store, short, key);
        assert(!entry_touches(es[es.len() - 1], key));
        let before = log_store(store, short);
        match es.last() {
            EntryView::Command(c) => {
                lemma_untouched_command(before, c, key);
            },
            EntryView::Snapshot(cs) => {
                lemma_untouched_commands(before, cs, key);
            },
            _ => {},
        }
    }
}

/// What was put last under a key is what every node that took in the log answers a get of that
/// key with.
pub proof fn law_last_put_is_read(
    s: ServerView,
    leader: Option<u64>,
    store: Store,
    before: Seq<EntryView>,
    key: Seq<char>,
    value: Seq<char>,
    after: Seq<EntryView>,
)
    requires
        forall|i: int| 0 <= i < after.len() ==> !#[trigger] entry_touches(after[i], key),
    ensures
        ({
            let log = before.push(EntryView::Command(CommandView::Put(key, value))) + after;
            command_value(
                CommandView::Get(key),
                lookup(store_after(store, log_steps(s, leader, log)), key),
            ) == Some(value)
        }),
{
    let upto = before.push(EntryView::Command(CommandView::Put(key, value)));
    lemma_log_steps(s, leader, store, upto + after);
    law_log_split(s, leader, store, upto, after);
    assert(upto.drop_last() =~= before);
    law_get_after_put(log_store(store, before), key, value);
    lemma_untouched_entries(log_store(store, upto), after, key);
}

/// A key that was deleted, and not put since, is one that every node that took in the log answers
/// a get of with nothing.
pub proof fn law_deleted_key_is_gone(
    s: ServerView,
    leader: Option<u64>,
    store: Store,
    before: Seq<EntryView>,
    key: Seq<char>,
    after: Seq<EntryView>,
)
    requires
        forall|i: int| 0 <= i < after.len() ==> !#[trigger] entry_touches(after[i], key),
    ensures
        ({
            let log = before.push(EntryView::Command(CommandView::Delete(key))) + after;
            command_value(
                CommandView::Get(key),
                lookup(store_after(store, log_steps(s, leader, log)), key),
            ) is None
        }),
{
    let upto = before.push(EntryView::Command(CommandView::Delete(key)));
    lemma_log_steps(s, leader, store, upto + after);
    law_log_split(s, leader, store, upto, after);
    assert(upto.drop_last() =~= before);
    law_get_after_delete(log_store(store, before), key);
    lemma_untouched_entries(log_store(store, upto), after, key);
}

proof fn lemma_delete_all(store: Store, keys: Seq<Seq<char>>, key: Seq<char>)
    ensures
        lookup(apply_writes(store, commands_writes(delete_all(keys))), key) == if keys.contains(
            key,
        ) {
            None
        } else {
            lookup(store, key)
        },
    decreases keys.len(),
{
    if keys.len() > 0 {
        let short = keys.drop_last();
        let mid = apply_writes(store, commands_writes(delete_all(short)));
        lemma_delete_all(store, short, key);
        assert(delete_all(keys).drop_last() =~= delete_all(short));
        law_writes_split(
            store,
            commands_writes(delete_all(short)),
            command_writes(CommandView::Delete(keys.last())),
        );
        law_get_after_delete(mid, keys.last());
        if keys.contains(key) && key != keys.last() {
            let i = choose|i: int| 0 <= i < keys.len() && keys[i] == key;
            assert(short[i] == key);
        }
        if short.contains(key) {
            let i = choose|i: int| 0 <= i < short.len() && short[i] == key;
            assert(keys[i] == key);
        }
        assert(keys[keys.len() - 1] == keys.last());
        if key != keys.last() {
            assert(keys.contains(key) == short.contains(key));
        }
    }
}

proof fn lemma_put_all(store: Store, ps: Seq<(Seq<char>, Seq<char>)>, key: Seq<char>, i: int)
    requires
        forall|j: int| i < j < ps.len() ==> (#[trigger] ps[j]).0 != key,
        -1 <= i < ps.len(),
        i >= 0 ==> ps[i].0 == key,
    ensures
        lookup(apply_writes(store, commands_writes(put_all(ps))), key) == if i >= 0 {
            Some(encode_utf8(ps[i].1))
        } else {
            lookup(store, key)
        },
    decreases ps.len(),
{
    if ps.len() > 0 {
        let short = ps.drop_last();
        let last = ps[ps.len() - 1];
        let mid = apply_writes(store, commands_writes(put_all(short)));
        assert(put_all(ps).drop_last() =~= put_all(short));
        law_writes_split(
            store,
            commands_writes(put_all(short)),
            command_writes(CommandView::Put(last.0, last.1)),
        );
        law_get_after_put(mid, last.0, last.1);
        lemma_one_write(mid, put_write(last.0, last.1));
        if i < ps.len() - 1 {
            assert forall|j: int| i < j < short.len() implies (#[trigger] short[j]).0 != key by {
                assert(short[j] == ps[j]);
            }
            assert(last.0 != key);
            lemma_put_all(store, short, key, i);
            assert(i >= 0 ==> short[i] == ps[i]);
        }
    }
}

/// What a snapshot does to a store: a key that it deletes is gone; a key that it does not delete
/// holds the value that stands last for it among the pairs; and any other key holds what it held.
/// Here `i` is where `key` stands last among the pairs, or -1 if it does not.
pub proof fn law_snapshot_effect(store: Store, snapshot: KVSnapshot, key: Seq<char>, i: int)
    requires
        forall|j: int|
            i < j < snapshot.snapshotted@.len() ==> (#[trigger] snapshot.snapshotted@[j]).0@ != key,
        -1 <= i < snapshot.snapshotted@.len(),
        i >= 0 ==> snapshot.snapshotted@[i].0@ == key,
    ensures
        ({
            let after = apply_writes(store, commands_writes(snapshot.commands()));
            let gone = exists|j: int|
                0 <= j < snapshot.deleted_keys@.len() && (#[trigger] snapshot.deleted_keys@[j])@
                    == key;
            lookup(after, key) == if gone {
                None
            } else if i >= 0 {
                Some(encode_utf8(snapshot.snapshotted@[i].1@))
            } else {
                lookup(store, key)
            }
        }),
{
    let ps = pairs(snapshot.snapshotted@);
    let keys = texts(snapshot.deleted_keys@);
    let mid = apply_writes(store, commands_writes(put_all(ps)));
    assert forall|j: int| i < j < ps.len() implies (#[trigger] ps[j]).0 != key by {
        assert(snapshot.snapshotted@[j].0@ != key);
    }
    lemma_put_all(store, ps, key, i);
    lemma_delete_all(mid, keys, key);
    law_commands_split(put_all(ps), delete_all(keys));
    law_writes_split(store, commands_writes(put_all(ps)), commands_writes(delete_all(keys)));
    if keys.contains(key) {
        let j = choose|j: int| 0 <= j < keys.len() && keys[j] == key;
        assert(snapshot.deleted_keys@[j]@ == key);
    }
    if exists|j: int|
        0 <= j < snapshot.deleted_keys@.len() && (#[trigger] snapshot.deleted_keys@[j])@ == key {
        let j = choose|j: int|
            0 <= j < snapshot.deleted_keys@.len() && (#[trigger] snapshot.deleted_keys@[j])@ == key;
        assert(keys[j] == key);
    }
}

/// A decided entry of the log does on the store of every node what the client asked for, or what
/// the snapshot stands for: a put holds its value, a delete holds nothing, both leave all other keys
/// as they were, and the end of a configuration leaves the store as it was.
pub proof fn law_decided_entries_are_done(
    s: ServerView,
    leader: Option<u64>,
    store: Store,
    kv: KeyValue,
    key: String,
    snapshot: KVSnapshot,
    config: ClusterConfig,
    other: Seq<char>,
)
    ensures
        ({
            let put = LogEntry::Decided(KVCommand::Put(kv))@;
            let after = store_after(store, entry_steps(s, leader, put));
            &&& lookup(after, kv.key@) == Some(encode_utf8(kv.value@))
            &&& other != kv.key@ ==> lookup(after, other) == lookup(store, other)
        }),
        ({
            let delete = LogEntry::Decided(KVCommand::Delete(key))@;
            let after = store_after(store, entry_steps(s, leader, delete));
            &&& lookup(after, key@) is None
            &&& other != key@ ==> lookup(after, other) == lookup(store, other)
        }),
        store_after(store, entry_steps(s, leader, LogEntry::Snapshotted(snapshot)@))
            == apply_writes(store, commands_writes(snapshot.commands())),
        store_after(store, entry_steps(s, leader, LogEntry::StopSign(config, true)@)) == store,
        store_after(store, entry_steps(s, leader, LogEntry::Decided(KVCommand::Get(key))@))
            == store,
{
    lemma_entry_steps(s, leader, store, LogEntry::Decided(KVCommand::Put(kv))@);
    lemma_entry_steps(s, leader, store, LogEntry::Decided(KVCommand::Delete(key))@);
    lemma_entry_steps(s, leader, store, LogEntry::Decided(KVCommand::Get(key))@);
    lemma_entry_steps(s, leader, store, LogEntry::Snapshotted(snapshot)@);
    lemma_entry_steps(s, leader, store, LogEntry::StopSign(config, true)@);
    law_client_commands(store, kv, key, other);
}

/// A node that is sent the state of another, all pairs that a scan of that one's store gives, acts
/// on the message so that its own store becomes that one's: the task that the message asks for holds
/// the pairs, and the writes that they come to leave there what the sender has and nothing else.
pub proof fn law_state_message_brings_the_state<M>(
    kv_list: Vec<(String, String)>,
    sender: Store,
    sender_rows: Seq<RowView>,
    receiver: Store,
    receiver_rows: Seq<RowView>,
)
    requires
        text_store(sender),
        text_store(receiver),
        full_scan(sender_rows, sender),
        full_scan(receiver_rows, receiver),
        text_pairs(sender_rows) == Some(pairs(kv_list@)),
    ensures
        match task_of(Message::<M>::StateCatchup(kv_list)) {
            Some(Task::CatchUp(list)) => apply_writes(
                receiver,
                latest_puts(pairs(list@)) + stale_deletes(pairs(list@), receiver_rows),
            ) == sender,
            _ => false,
        },
{
    law_state_transfer(sender, sender_rows, receiver, receiver_rows);
}

/// The configurations that steps start, in order.
pub open spec fn started(steps: Seq<StepView>) -> Seq<ClusterConfigView>
    decreases steps.len(),
{
    if steps.len() == 0 {
        Seq::empty()
    } else {
        let before = started(steps.drop_last());
        match steps.last() {
            StepView::StartConfiguration(config, _) => before.push(config),
            _ => before,
        }
    }
}

/// The configurations that the ends of configurations in a log carry, in order.
pub open spec fn carried(es: Seq<EntryView>) -> Seq<ClusterConfigView>
    decreases es.len(),
{
    if es.len() == 0 {
        Seq::empty()
    } else {
        let before = carried(es.drop_last());
        match es.last() {
            EntryView::StopSign(config) => before.push(config),
            _ => before,
        }
    }
}

proof fn lemma_started_split(a: Seq<StepView>, b: Seq<StepView>)
    ensures
        started(a + b) == started(a) + started(b),
    decreases b.len(),
{
    if b.len() == 0 {
        assert(a + b =~= a);
    } else {
        assert((a + b).drop_last() =~= a + b.drop_last());
        lemma_started_split(a, b.drop_last());
    }
    assert(started(a + b) =~= started(a) + started(b));
}

proof fn lemma_writes_start_nothing(ws: Seq<WriteView>)
    ensures
        started(write_steps(ws)).len() == 0,
    decreases ws.len(),
{
    if ws.len() > 0 {
        assert(write_steps(ws).drop_last() =~= write_steps(ws.drop_last()));
        lemma_writes_start_nothing(ws.drop_last());
    }
}

/// All nodes go through the same configurations in the same order: those that the log carries, each
/// as it stands there, whichever node it is and whomever it takes for the leader.
pub proof fn law_same_log_same_configurations(
    a: ServerView,
    a_leader: Option<u64>,
    b: ServerView,
    b_leader: Option<u64>,
    es: Seq<EntryView>,
)
    ensures
        started(log_steps(a, a_leader, es)) == carried(es),
        started(log_steps(a, a_leader, es)) == started(log_steps(b, b_leader, es)),
{
    lemma_started(a, a_leader, es);
    lemma_started(b, b_leader, es);
}

proof fn lemma_started(s: ServerView, leader: Option<u64>, es: Seq<EntryView>)
    ensures
        started(log_steps(s, leader, es)) == carried(es),
    decreases es.len(),
{
    if es.len() > 0 {
        let short = es.drop_last();
        let mid = log_server(s, short);
        let added = entry_steps(mid, leader, es.last());
        lemma_started(s, leader, short);
        lemma_started_split(log_steps(s, leader, short), added);
        match es.last() {
            EntryView::Command(c) => {
                lemma_writes_start_nothing(command_writes(c));
            },
            EntryView::Snapshot(cs) => {
                lemma_writes_start_nothing(commands_writes(cs));
            },
            EntryView::StopSign(config) => {
                reveal_with_fuel(started, 3);
                if added.len() == 2 {
                    assert(added.drop_last().drop_last() =~= Seq::empty());
                } else {
                    assert(added.drop_last() =~= Seq::empty());
                }
                assert(started(added) =~= seq![config]);
            },
            EntryView::Nothing => {},
        }
        assert(started(log_steps(s, leader, es)) =~= carried(es));
    }
}

/// Entries are taken in from the very index that is owed: the entries of the log from there up to
/// where it is decided bring the store in step with it.
pub proof fn law_owed_entries_bring_the_store_up(
    s: ServerView,
    leader: Option<u64>,
    log: Seq<EntryView>,
    base: Store,
    store: Store,
    decided: u64,
)
    requires
        in_step(s, log, base, store),
        s.last_decided_idx <= decided <= log.len(),
    ensures
        match unread_from(s, decided) {
            Some(from) => from < decided && store_after(
                store,
                log_steps(
                    decided_seen(s, decided),
                    leader,
                    log.subrange(from as int, decided as int),
                ),
            ) == log_store(base, log.take(decided as int)),
            None => store == log_store(base, log.take(decided as int)),
        },
{
    law_store_follows_log(s, leader, log, base, store, decided, log);
}

} // verus!
