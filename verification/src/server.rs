//! What a node does with the messages and the log entries that it is given.
//!
//! The consensus log, the sockets and the store on disk are driven from outside: a [`Server`]
//! holds the node's own bookkeeping, is told what happened, and says what is to be done.

use vstd::prelude::*;
use vstd::utf8::*;

use crate::config::{
    law_node_ids, log_path, node_ids, replica_list, storage_path, ClusterConfig, ClusterConfigView,
    FIRST_CONFIG_ID,
};
use crate::database::{bytes_view, text_view, Database};
use crate::kv::{CommandView, KVCommand, KVSnapshot};
use crate::network::{law_peers_are_the_others, others, peers_of, Message, CLIENT};
use crate::store::{command_value, command_writes, commands_writes, writes, Write, WriteView};
use crate::text::{decimal, law_decimal_reads_back, push_decimal};

verus! {

/// What a node answers a client.
#[derive(Clone, Debug, PartialEq, Eq)]
pub enum APIResponse {
    /// The log has been decided up to this index.
    Decided(u64),
    /// A key, and the value that the store holds under it.
    Get(String, Option<String>),
}

/// The leader passes a change in the number of replicas over while its count of changes passed over
/// is no multiple of this. The count starts at 0, so none is.
pub const STOP_SIGN_ROUNDS: u64 = 5;

/// After how many decided entries the log is compacted.
pub const SNAPSHOT_INTERVAL: u64 = 5;

/// How long a node waits before it sends its state to the next peer.
pub const STATE_TRANSFER_DELAY_SECS: u64 = 3;

/// How long a node that ran before waits before it takes part again.
pub const RECOVERY_WAIT_SECS: u64 = 3;

/// How often a node looks at what came in and what was decided.
pub const MESSAGE_INTERVAL_MILLIS: u64 = 1;

/// How often the clock of the consensus protocol is moved on.
pub const TICK_INTERVAL_MILLIS: u64 = 10;

/// How often a node sends its peers a sign of life.
pub const HEARTBEAT_INTERVAL_SECS: u64 = 2;

/// A node's own bookkeeping.
#[derive(Clone, Debug, PartialEq, Eq)]
pub struct Server {
    pub pid: u64,
    /// The nodes that this node has links to, itself included.
    pub nodes: Vec<u64>,
    pub database: Database,
    /// The nodes of the current configuration.
    pub members: Vec<u64>,
    /// Up to where the decided log has been applied to the store.
    pub last_decided_idx: u64,
    pub current_num_replicas: u64,
    pub current_config_id: u64,
    /// How many changes in the number of replicas the leader has passed over.
    pub stop_sign_timeot: u64,
}

pub struct ServerView {
    pub pid: u64,
    pub nodes: Seq<u64>,
    pub database: Database,
    pub members: Seq<u64>,
    pub last_decided_idx: u64,
    pub current_num_replicas: u64,
    pub current_config_id: u64,
    pub stop_sign_timeot: u64,
}

impl View for Server {
    type V = ServerView;

    open spec fn view(&self) -> ServerView {
        ServerView {
            pid: self.pid,
            nodes: self.nodes@,
            database: self.database,
            members: self.members@,
            last_decided_idx: self.last_decided_idx,
            current_num_replicas: self.current_num_replicas,
            current_config_id: self.current_config_id,
            stop_sign_timeot: self.stop_sign_timeot,
        }
    }
}

/// What an incoming message asks to be done.
#[derive(Clone, Debug, PartialEq, Eq)]
pub enum Task<M> {
    /// Look this key up in the store and answer the client.
    LookUp(String),
    /// Append this command to the log.
    Append(KVCommand),
    /// Hand this message to the consensus protocol.
    HandleIncoming(M),
    /// Bring the store to this state.
    CatchUp(Vec<(String, String)>),
    /// See whether the number of replicas has changed.
    CheckReplicas(String),
    /// See whether this node has to be reconnected to.
    CheckLeader(u64),
}

/// What an incoming message asks to be done; `None` for an answer to a client, which is nothing
/// that a node receives.
pub open spec fn task_of<M>(msg: Message<M>) -> Option<Task<M>> {
    match msg {
        Message::APIRequest(KVCommand::Get(key)) => Some(Task::LookUp(key)),
        Message::APIRequest(cmd) => Some(Task::Append(cmd)),
        Message::OmniPaxosMsg(m) => Some(Task::HandleIncoming(m)),
        Message::StateCatchup(kv_list) => Some(Task::CatchUp(kv_list)),
        Message::Debug(text) => Some(Task::CheckReplicas(text)),
        Message::Reconnect(pid) => Some(Task::CheckLeader(pid)),
        Message::APIResponse(_) => None,
    }
}

/// An entry of the log as it is read back.
#[derive(Clone, Debug, PartialEq, Eq)]
pub enum LogEntry {
    Decided(KVCommand),
    Undecided(KVCommand),
    Trimmed(u64),
    Snapshotted(KVSnapshot),
    /// The end of a configuration: the one that follows it, and whether this is decided.
    StopSign(ClusterConfig, bool),
}

/// A log entry as far as it changes anything.
pub enum EntryView {
    Command(CommandView),
    Snapshot(Seq<CommandView>),
    StopSign(ClusterConfigView),
    Nothing,
}

impl View for LogEntry {
    type V = EntryView;

    open spec fn view(&self) -> EntryView {
        match *self {
            LogEntry::Decided(command) => EntryView::Command(command@),
            LogEntry::Snapshotted(snapshot) => EntryView::Snapshot(snapshot.commands()),
            LogEntry::StopSign(config, true) => EntryView::StopSign(config@),
            _ => EntryView::Nothing,
        }
    }
}

pub open spec fn entries_view(v: Seq<LogEntry>) -> Seq<EntryView> {
    v.map_values(|e: LogEntry| e@)
}

/// One piece of the work that decided entries bring.
#[derive(Clone, Debug, PartialEq, Eq)]
pub enum Step {
    /// Do this write on the store.
    Write(Write),
    /// Send all pairs of the store to each of these nodes, which are new to the cluster.
    SendState(Vec<u64>),
    /// Go on in this configuration, with a log in this directory.
    StartConfiguration { config: ClusterConfig, storage_path: String },
}

pub enum StepView {
    Write(WriteView),
    SendState(Seq<u64>),
    StartConfiguration(ClusterConfigView, Seq<char>),
}

impl View for Step {
    type V = StepView;

    open spec fn view(&self) -> StepView {
        match *self {
            Step::Write(w) => StepView::Write(w@),
            Step::SendState(peers) => StepView::SendState(peers@),
            Step::StartConfiguration { config, storage_path } => StepView::StartConfiguration(
                config@,
                storage_path@,
            ),
        }
    }
}

pub open spec fn steps_view(v: Seq<Step>) -> Seq<StepView> {
    v.map_values(|s: Step| s@)
}

pub open spec fn write_steps(ws: Seq<WriteView>) -> Seq<StepView> {
    ws.map_values(|w: WriteView| StepView::Write(w))
}

pub open spec fn is_none_of(members: Seq<u64>) -> spec_fn(u64) -> bool {
    |n: u64| !members.contains(n)
}

/// The nodes among `nodes` that are none of the `members`, in order.
pub open spec fn newcomers(nodes: Seq<u64>, members: Seq<u64>) -> Seq<u64> {
    nodes.filter(is_none_of(members))
}

/// A newcomer is a node of the new list that the old one does not have.
pub proof fn law_newcomers_are_new(nodes: Seq<u64>, members: Seq<u64>, n: u64)
    ensures
        newcomers(nodes, members).contains(n) <==> nodes.contains(n) && !members.contains(n),
{
    broadcast use vstd::seq_lib::group_filter_ensures;

    if newcomers(nodes, members).contains(n) {
        nodes.lemma_filter_contains_rev(is_none_of(members), n);
    }
}

/// The steps that one decided entry brings, where `leader` is the leader of the cluster, as far as
/// this node knows it.
///
/// A command or a snapshot brings its writes. The end of a configuration brings that the node goes
/// on in the next one, with a log of its own for it. Before it does, the leader, if it takes part
/// in the next configuration, sends its state to the nodes that are new in it.
pub open spec fn entry_steps(s: ServerView, leader: Option<u64>, e: EntryView) -> Seq<StepView> {
    match e {
        EntryView::Command(c) => write_steps(command_writes(c)),
        EntryView::Snapshot(cs) => write_steps(commands_writes(cs)),
        EntryView::StopSign(config) => {
            let start = StepView::StartConfiguration(
                config,
                log_path(s.pid, (s.current_config_id + 1) as u64),
            );
            if leader == Some(s.pid) && config.nodes.contains(s.pid) {
                seq![StepView::SendState(newcomers(config.nodes, s.members)), start]
            } else {
                seq![start]
            }
        },
        EntryView::Nothing => Seq::empty(),
    }
}

/// The bookkeeping after one decided entry.
pub open spec fn entry_server(s: ServerView, e: EntryView) -> ServerView {
    match e {
        EntryView::StopSign(config) => ServerView {
            members: config.nodes,
            current_config_id: (s.current_config_id + 1) as u64,
            last_decided_idx: 0,
            ..s
        },
        _ => s,
    }
}

/// The bookkeeping after decided entries.
pub open spec fn log_server(s: ServerView, es: Seq<EntryView>) -> ServerView
    decreases es.len(),
{
    if es.len() == 0 {
        s
    } else {
        entry_server(log_server(s, es.drop_last()), es.last())
    }
}

/// The steps that decided entries bring, in order.
pub open spec fn log_steps(s: ServerView, leader: Option<u64>, es: Seq<EntryView>) -> Seq<StepView>
    decreases es.len(),
{
    if es.len() == 0 {
        Seq::empty()
    } else {
        log_steps(s, leader, es.drop_last()) + entry_steps(
            log_server(s, es.drop_last()),
            leader,
            es.last(),
        )
    }
}

/// How many of the entries end a configuration.
pub open spec fn stop_signs(es: Seq<EntryView>) -> nat
    decreases es.len(),
{
    if es.len() == 0 {
        0
    } else {
        stop_signs(es.drop_last()) + if es.last() is StopSign {
            1nat
        } else {
            0
        }
    }
}

/// What the number of replicas that the cluster reports comes to: the bookkeeping after it, and
/// the configuration to propose, if any. `leader` is the leader of the cluster, as far as this
/// node knows it, and `active` the number that is reported, if it could be learnt.
///
/// Only the leader proposes a configuration, and only when the number has changed and no round
/// of waiting is left.
pub open spec fn replicas_checked(
    s: ServerView,
    leader: Option<u64>,
    active: Option<u64>,
) -> (ServerView, Option<ClusterConfigView>) {
    if active is None || active == Some(s.current_num_replicas) {
        (s, None)
    } else if leader != Some(s.pid) {
        (ServerView { current_num_replicas: active->0, ..s }, None)
    } else if s.stop_sign_timeot % STOP_SIGN_ROUNDS != 0 {
        (ServerView { stop_sign_timeot: (s.stop_sign_timeot + 1) as u64, ..s }, None)
    } else {
        (
            ServerView { stop_sign_timeot: 0, current_num_replicas: active->0, ..s },
            Some(
                ClusterConfigView {
                    configuration_id: ((s.current_config_id + 1) % 0x1_0000_0000) as u32,
                    nodes: node_ids(active->0),
                },
            ),
        )
    }
}

pub open spec fn config_view(c: Option<ClusterConfig>) -> Option<ClusterConfigView> {
    match c {
        Some(config) => Some(config@),
        None => None,
    }
}

/// The bookkeeping once the log is seen to be decided up to `decided`: a log that is back at its
/// start belongs to a new configuration.
pub open spec fn decided_seen(s: ServerView, decided: u64) -> ServerView {
    if decided == 0 {
        ServerView { last_decided_idx: 0, ..s }
    } else {
        s
    }
}

/// The bookkeeping once the log is applied up to `decided`.
pub open spec fn decided_applied(s: ServerView, decided: u64) -> ServerView {
    ServerView { last_decided_idx: decided, ..s }
}

/// The bookkeeping once the entries `es` are taken in, with which the log is applied up to
/// `decided`. Where they end the configuration, nothing is applied yet of the log of the next one.
pub open spec fn decided_server(s: ServerView, es: Seq<EntryView>, decided: u64) -> ServerView {
    if stop_signs(es) > 0 {
        log_server(s, es)
    } else {
        decided_applied(log_server(s, es), decided)
    }
}

/// What follows once the entries `es` are taken in, with which the log is applied up to `decided`:
/// the client is told how far that is, and it may be time to compact the log. Where the entries end
/// the configuration, their log is done with and there is nothing to compact.
pub open spec fn decided_followup(es: Seq<EntryView>, decided: u64) -> Applied {
    Applied {
        response: APIResponse::Decided(decided),
        snapshot: if stop_signs(es) == 0 && decided % SNAPSHOT_INTERVAL == 0 {
            Some(decided)
        } else {
            None
        },
    }
}

/// What follows once the entries up to an index are applied: the answer to the client, and the
/// index up to which to compact the log, if it is time to.
#[derive(Clone, Debug, PartialEq, Eq)]
pub struct Applied {
    pub response: APIResponse,
    pub snapshot: Option<u64>,
}

/// What a node does first.
#[derive(Clone, Copy, Debug, PartialEq, Eq)]
pub enum Startup {
    /// It ran before: compact the log up to this index.
    Recover(u64),
    /// It runs for the first time: leave a mark that it has.
    MarkStarted,
}

/// The bookkeeping that a node of a cluster of `num_replicas` nodes starts with.
pub open spec fn fresh_server(
    pid: u64,
    nodes: Seq<u64>,
    database: Database,
    num_replicas: u64,
) -> ServerView {
    ServerView {
        pid,
        nodes,
        database,
        members: node_ids(num_replicas),
        last_decided_idx: 0,
        current_num_replicas: num_replicas,
        current_config_id: FIRST_CONFIG_ID as u64,
        stop_sign_timeot: 0,
    }
}

/// What a node does first, given whether it ran before and up to where its log is decided.
pub open spec fn first_act(restarted: bool, decided_idx: u64) -> Startup {
    if restarted {
        Startup::Recover(decided_idx)
    } else {
        Startup::MarkStarted
    }
}

/// Whom a get of `key` is answered, for which key and with what, where `stored` is what the store
/// holds under the key.
pub open spec fn get_answer(key: Seq<char>, stored: Option<Seq<u8>>) -> (
    u64,
    Seq<char>,
    Option<Seq<char>>,
) {
    (CLIENT, key, command_value(CommandView::Get(key), stored))
}

/// An answer to a get, as whom it goes to, its key and its value.
pub open spec fn answer_view<M>(r: (u64, Message<M>)) -> Option<
    (u64, Seq<char>, Option<Seq<char>>),
> {
    match r.1 {
        Message::APIResponse(APIResponse::Get(key, value)) => Some((r.0, key@, text_view(value))),
        _ => None,
    }
}

/// Whether a node that asks to be reconnected to is to be.
pub open spec fn reconnecting(s: ServerView, leader: Option<u64>) -> bool {
    leader != Some(s.pid)
}

/// From where on the log, decided up to `decided`, has entries that are not applied yet.
pub open spec fn unread_from(s: ServerView, decided: u64) -> Option<u64> {
    let from = decided_seen(s, decided).last_decided_idx;
    if from < decided {
        Some(from)
    } else {
        None
    }
}

/// What is done of what follows on entries, once their steps are done.
pub open spec fn followed_up(applied: Applied, reconfigured: bool) -> Option<Applied> {
    if reconfigured {
        None
    } else {
        Some(applied)
    }
}

/// The text of the sign of life of the node `pid`.
pub open spec fn heartbeat(pid: u64) -> Seq<char> {
    "Heartbeat from node "@ + decimal(pid as nat)
}

/// The signs of life that a node sends to its peers: to whom, and with what text.
pub open spec fn heartbeats(s: ServerView) -> Seq<(u64, Seq<char>)> {
    others(s.nodes, s.pid).map_values(|n: u64| (n, heartbeat(s.pid)))
}

/// The sign of life that the client gets, if it gets one.
pub open spec fn leader_sign(s: ServerView, leader: Option<u64>) -> Option<(u64, Seq<char>)> {
    if leader == Some(s.pid) {
        Some((CLIENT, heartbeat(s.pid)))
    } else {
        None
    }
}

/// A sign of life as whom it goes to and its text.
pub open spec fn signs_view<M>(r: Option<(u64, Message<M>)>) -> Option<(u64, Seq<char>)> {
    match r {
        Some((to, Message::Debug(text))) => Some((to, text@)),
        _ => None,
    }
}

impl Server {
    /// A node of a cluster that starts with `num_replicas` nodes.
    pub fn new(pid: u64, nodes: Vec<u64>, database: Database, num_replicas: u64) -> (r: Server)
        ensures
            r@ == fresh_server(pid, nodes@, database, num_replicas),
    {
        Server {
            pid,
            nodes,
            database,
            members: replica_list(num_replicas),
            last_decided_idx: 0,
            current_num_replicas: num_replicas,
            current_config_id: FIRST_CONFIG_ID as u64,
            stop_sign_timeot: 0,
        }
    }

    /// What a node does first, given whether it ran before and up to where its log is decided.
    pub fn startup(&self, restarted: bool, decided_idx: u64) -> (r: Startup)
        ensures
            r == first_act(restarted, decided_idx),
    {
        if restarted {
            Startup::Recover(decided_idx)
        } else {
            Startup::MarkStarted
        }
    }

    /// What an incoming message asks to be done.
    pub fn process_incoming_msg<M>(&self, msg: Message<M>) -> (r: Task<M>)
        requires
            task_of(msg) is Some,
        ensures
            task_of(msg) == Some(r),
    {
        match msg {
            Message::APIRequest(cmd) => match cmd {
                KVCommand::Get(key) => Task::LookUp(key),
                cmd => Task::Append(cmd),
            },
            Message::OmniPaxosMsg(m) => Task::HandleIncoming(m),
            Message::StateCatchup(kv_list) => Task::CatchUp(kv_list),
            Message::Debug(text) => Task::CheckReplicas(text),
            Message::Reconnect(pid) => Task::CheckLeader(pid),
            Message::APIResponse(_) => {
                assert(false);
                Task::CheckLeader(0)
            },
        }
    }

    /// The answer to a get, and whom it goes to, where `stored` is what the store holds under the
    /// key.
    pub fn answer_get<M>(&self, key: String, stored: Option<Vec<u8>>) -> (r: (u64, Message<M>))
        requires
            stored is Some ==> valid_utf8(stored->0@),
        ensures
            answer_view(r) == Some(get_answer(key@, bytes_view(stored))),
            r.0 == CLIENT,
            match r.1 {
                Message::APIResponse(APIResponse::Get(k, value)) => k == key && text_view(value)
                    == command_value(CommandView::Get(key@), bytes_view(stored)),
                _ => false,
            },
    {
        let value = self.database.handle_command(KVCommand::Get(key.clone()), stored).value;
        (CLIENT, Message::APIResponse(APIResponse::Get(key, value)))
    }

    /// Takes in the number of replicas that the cluster reports, if it could be learnt, and says
    /// which configuration to propose, if any.
    pub fn check_replicas(&mut self, leader: Option<u64>, active: Option<u64>) -> (r: Option<
        ClusterConfig,
    >)
        requires
            replicas_checked(old(self)@, leader, active).1 is Some ==> old(self).current_config_id
                < u64::MAX,
        ensures
            (final(self)@, config_view(r)) == replicas_checked(old(self)@, leader, active),
    {
        let active_replicas: u64 = match active {
            Some(n) => n,
            None => return None,
        };
        if self.current_num_replicas == active_replicas {
            return None;
        }
        if leader != Some(self.pid) {
            self.current_num_replicas = active_replicas;
            return None;
        }
        if self.stop_sign_timeot % STOP_SIGN_ROUNDS != 0 {
            assert(u64::MAX % STOP_SIGN_ROUNDS == 0);
            self.stop_sign_timeot = self.stop_sign_timeot + 1;
            return None;
        }
        self.stop_sign_timeot = 0;
        self.current_num_replicas = active_replicas;
        let next_id: u64 = self.current_config_id + 1;
        assert((next_id as u32) == next_id % 0x1_0000_0000) by (bit_vector);
        Some(
            ClusterConfig {
                configuration_id: #[verifier::truncate]
                (next_id as u32),
                nodes: replica_list(active_replicas),
            },
        )
    }

    /// Whether a node that asks to be reconnected to is to be: not by the leader itself.
    pub fn reconnects(&self, leader: Option<u64>) -> (r: bool)
        ensures
            r == reconnecting(self@, leader),
            r == (leader != Some(self.pid)),
    {
        leader != Some(self.pid)
    }

    /// Takes in up to where the log is decided, and says from where on it has entries that are
    /// not applied yet, if it has any.
    pub fn handle_decided_entries(&mut self, new_decided_idx: u64) -> (r: Option<u64>)
        ensures
            final(self)@ == decided_seen(old(self)@, new_decided_idx),
            r == unread_from(old(self)@, new_decided_idx),
            r == (if final(self).last_decided_idx < new_decided_idx {
                Some(final(self).last_decided_idx)
            } else {
                None
            }),
    {
        if new_decided_idx < self.last_decided_idx && new_decided_idx == 0 {
            self.last_decided_idx = 0;
        }
        if self.last_decided_idx < new_decided_idx {
            Some(self.last_decided_idx)
        } else {
            None
        }
    }

    /// Takes in the entries with which the log is applied up to `new_decided_idx`, and says what is
    /// to be done for them, in order, and what follows then, for [`Server::follow_up`] to decide on.
    /// `leader` is the leader of the cluster, as far as this node knows it. Entries that end the
    /// configuration leave the node at the start of the log of the next one.
    pub fn take_in_decided(
        &mut self,
        new_decided_idx: u64,
        entries: Vec<LogEntry>,
        leader: Option<u64>,
    ) -> (r: (Vec<Step>, Applied))
        requires
            old(self).current_config_id + stop_signs(entries_view(entries@)) <= u64::MAX,
        ensures
            steps_view(r.0@) == log_steps(old(self)@, leader, entries_view(entries@)),
            final(self)@ == decided_server(old(self)@, entries_view(entries@), new_decided_idx),
            r.1 == decided_followup(entries_view(entries@), new_decided_idx),
            stop_signs(entries_view(entries@)) > 0 ==> final(self).last_decided_idx == 0,
    {
        let ghost es = entries_view(entries@);
        proof {
            if stop_signs(es) > 0 {
                lemma_stop_sign_resets(self@, es);
            }
            law_stop_signs_count(self@, es);
        }
        let config_before: u64 = self.current_config_id;
        let steps = self.update_database(entries, leader);
        let response = APIResponse::Decided(new_decided_idx);
        if self.current_config_id != config_before {
            return (steps, Applied { response, snapshot: None });
        }
        self.last_decided_idx = new_decided_idx;
        let snapshot: Option<u64> = if new_decided_idx % SNAPSHOT_INTERVAL == 0 {
            Some(new_decided_idx)
        } else {
            None
        };
        (steps, Applied { response, snapshot })
    }

    /// Whether what follows on entries is done, once their steps are: not where the log that the
    /// node is then left with has itself come to the end of its configuration, as it may have for a
    /// node that goes through its logs again.
    pub fn follow_up(&self, applied: Applied, reconfigured: bool) -> (r: Option<Applied>)
        ensures
            r == followed_up(applied, reconfigured),
    {
        if reconfigured {
            None
        } else {
            Some(applied)
        }
    }

    /// Takes in decided entries, and says what is to be done for them, in order. `leader` is the
    /// leader of the cluster, as far as this node knows it.
    pub fn update_database(&mut self, decided_entries: Vec<LogEntry>, leader: Option<u64>) -> (r:
        Vec<Step>)
        requires
            old(self).current_config_id + stop_signs(entries_view(decided_entries@)) <= u64::MAX,
        ensures
            steps_view(r@) == log_steps(old(self)@, leader, entries_view(decided_entries@)),
            final(self)@ == log_server(old(self)@, entries_view(decided_entries@)),
    {
        let ghost start = self@;
        let ghost es = entries_view(decided_entries@);
        let mut steps: Vec<Step> = Vec::new();
        assert(steps_view(steps@) =~= log_steps(start, leader, es.take(0)));
        for entry in it: decided_entries
            invariant
                it.seq() == decided_entries@,
                es == entries_view(decided_entries@),
                start.current_config_id + stop_signs(es) <= u64::MAX,
                self@ == log_server(start, es.take(it.index() as int)),
                self.current_config_id == start.current_config_id + stop_signs(
                    es.take(it.index() as int),
                ),
                steps_view(steps@) == log_steps(start, leader, es.take(it.index() as int)),
        {
            let ghost i = it.index() as int;
            proof {
                assert(es.take(i + 1).drop_last() =~= es.take(i));
                assert(es.take(i + 1).last() == entry@);
                lemma_stop_signs_grow(es, i + 1);
            }
            let mut more = self.apply_entry(entry, leader);
            let ghost done = steps_view(steps@);
            let ghost added = steps_view(more@);
            steps.append(&mut more);
            assert(steps_view(steps@) =~= done + added);
        }
        assert(es.take(es.len() as int) =~= es);
        steps
    }

    /// Takes in one decided entry, and says what is to be done for it.
    fn apply_entry(&mut self, entry: LogEntry, leader: Option<u64>) -> (r: Vec<Step>)
        requires
            entry@ is StopSign ==> old(self).current_config_id < u64::MAX,
        ensures
            steps_view(r@) == entry_steps(old(self)@, leader, entry@),
            final(self)@ == entry_server(old(self)@, entry@),
    {
        match entry {
            LogEntry::Decided(cmd) => {
                let out = self.database.handle_command(cmd, None);
                as_steps(out.writes)
            },
            LogEntry::Snapshotted(snapshot) => as_steps(self.database.handle_snapshot(snapshot)),
            LogEntry::StopSign(new_configuration, true) => {
                let mut steps: Vec<Step> = Vec::new();
                if leader == Some(self.pid) && contains(&new_configuration.nodes, self.pid) {
                    steps.push(
                        Step::SendState(newcomers_of(&new_configuration.nodes, &self.members)),
                    );
                }
                self.current_config_id = self.current_config_id + 1;
                self.last_decided_idx = 0;
                self.members = new_configuration.nodes.clone();
                assert(self.members@ =~= new_configuration.nodes@);
                let path = storage_path(self.pid, self.current_config_id);
                steps.push(
                    Step::StartConfiguration { config: new_configuration, storage_path: path },
                );
                assert(steps_view(steps@) =~= entry_steps(old(self)@, leader, entry@));
                steps
            },
            _ => {
                let steps: Vec<Step> = Vec::new();
                assert(steps_view(steps@) =~= Seq::empty());
                steps
            },
        }
    }

    /// The text of this node's sign of life.
    pub open spec fn heartbeat_text(pid: u64) -> Seq<char> {
        heartbeat(pid)
    }

    /// The sign of life that the client gets, and gets from the leader alone: over whose connection
    /// it comes, there the leader is.
    pub fn leader_heartbeat<M>(&self, leader: Option<u64>) -> (r: Option<(u64, Message<M>)>)
        ensures
            signs_view(r) == leader_sign(self@, leader),
            r is Some <==> leader == Some(self.pid),
            r is Some ==> (r->0).0 == CLIENT && (r->0).1 is Debug && (r->0).1->Debug_0@
                == Self::heartbeat_text(self.pid),
    {
        if leader != Some(self.pid) {
            return None;
        }
        let mut text = "Heartbeat from node ".to_owned();
        push_decimal(&mut text, self.pid);
        Some((CLIENT, Message::Debug(text)))
    }

    /// The signs of life to send to the peers, each with the peer that it goes to.
    pub fn debug_heartbeat<M>(&self) -> (r: Vec<(u64, Message<M>)>)
        ensures
            r@.len() == heartbeats(self@).len(),
            forall|i: int|
                0 <= i < r@.len() ==> signs_view(Some(#[trigger] r@[i])) == Some(
                    heartbeats(self@)[i],
                ),
            r@.len() == others(self.nodes@, self.pid).len(),
            forall|i: int|
                0 <= i < r@.len() ==> (#[trigger] r@[i]).0 == others(self.nodes@, self.pid)[i]
                    && r@[i].1 is Debug && r@[i].1->Debug_0@ == Self::heartbeat_text(self.pid),
    {
        let peers = peers_of(&self.nodes, self.pid);
        let mut r: Vec<(u64, Message<M>)> = Vec::new();
        let mut i: usize = 0;
        while i < peers.len()
            invariant
                i <= peers@.len(),
                peers@ == others(self.nodes@, self.pid),
                r@.len() == i,
                forall|j: int|
                    0 <= j < i ==> (#[trigger] r@[j]).0 == peers@[j] && r@[j].1 is Debug
                        && r@[j].1->Debug_0@ == Self::heartbeat_text(self.pid),
            decreases peers@.len() - i,
        {
            let mut text = "Heartbeat from node ".to_owned();
            push_decimal(&mut text, self.pid);
            r.push((peers[i], Message::Debug(text)));
            i += 1;
        }
        r
    }
}

/// The nodes among `nodes` that are none of the `members`.
fn newcomers_of(nodes: &Vec<u64>, members: &Vec<u64>) -> (r: Vec<u64>)
    ensures
        r@ == newcomers(nodes@, members@),
{
    let ghost keep = is_none_of(members@);
    let mut r: Vec<u64> = Vec::new();
    let mut i: usize = 0;
    assert(nodes@.take(0).filter(keep) =~= Seq::empty()) by {
        reveal(Seq::filter);
    }
    while i < nodes.len()
        invariant
            i <= nodes@.len(),
            keep == is_none_of(members@),
            r@ == nodes@.take(i as int).filter(keep),
        decreases nodes@.len() - i,
    {
        proof {
            reveal(Seq::filter);
            assert(nodes@.take(i + 1).drop_last() =~= nodes@.take(i as int));
        }
        if !contains(members, nodes[i]) {
            r.push(nodes[i]);
        }
        i += 1;
    }
    assert(nodes@.take(nodes@.len() as int) =~= nodes@);
    r
}

fn contains(nodes: &Vec<u64>, pid: u64) -> (r: bool)
    ensures
        r == nodes@.contains(pid),
{
    let mut i: usize = 0;
    while i < nodes.len()
        invariant
            i <= nodes@.len(),
            forall|j: int| 0 <= j < i ==> nodes@[j] != pid,
        decreases nodes@.len() - i,
    {
        if nodes[i] == pid {
            return true;
        }
        i += 1;
    }
    false
}

fn as_steps(ws: Vec<Write>) -> (r: Vec<Step>)
    ensures
        steps_view(r@) == write_steps(writes(ws@)),
{
    let mut r: Vec<Step> = Vec::new();
    for w in it: ws
        invariant
            it.seq() == ws@,
            r@.len() == it.index(),
            forall|i: int| 0 <= i < it.index() ==> #[trigger] r@[i] == Step::Write(ws@[i]),
    {
        r.push(Step::Write(w));
    }
    assert(steps_view(r@) =~= write_steps(writes(ws@)));
    r
}

proof fn lemma_stop_signs_grow(es: Seq<EntryView>, n: int)
    requires
        0 <= n <= es.len(),
    ensures
        stop_signs(es.take(n)) <= stop_signs(es),
    decreases es.len(),
{
    if n == es.len() {
        assert(es.take(n) =~= es);
    } else {
        assert(es.drop_last().take(n) =~= es.take(n));
        lemma_stop_signs_grow(es.drop_last(), n);
    }
}

/// The end of a configuration leaves a node at the start of the next log.
pub proof fn lemma_stop_sign_resets(s: ServerView, es: Seq<EntryView>)
    requires
        stop_signs(es) > 0,
    ensures
        log_server(s, es).last_decided_idx == 0,
    decreases es.len(),
{
    if es.last() !is StopSign {
        lemma_stop_sign_resets(s, es.drop_last());
    }
}

/// Each decided end of a configuration raises the number of the configuration by one, and nothing
/// else in a log does.
pub proof fn law_stop_signs_count(s: ServerView, es: Seq<EntryView>)
    requires
        s.current_config_id + stop_signs(es) <= u64::MAX,
    ensures
        log_server(s, es).current_config_id == s.current_config_id + stop_signs(es),
    decreases es.len(),
{
    if es.len() > 0 {
        law_stop_signs_count(s, es.drop_last());
    }
}

/// A node that has put off no reconfiguration never does: it starts that way, and neither a report
/// on the replicas nor a log changes it.
pub proof fn law_nothing_is_put_off(
    s: ServerView,
    leader: Option<u64>,
    active: Option<u64>,
    es: Seq<EntryView>,
)
    requires
        s.stop_sign_timeot == 0,
    ensures
        replicas_checked(s, leader, active).0.stop_sign_timeot == 0,
        log_server(s, es).stop_sign_timeot == 0,
    decreases es.len(),
{
    if es.len() > 0 {
        law_nothing_is_put_off(s, leader, active, es.drop_last());
    }
}

/// A changed number of replicas makes a leader that has put off nothing propose the next
/// configuration, of exactly that many nodes; and once it has, the same number makes it propose
/// nothing more.
pub proof fn law_leader_reconfigures(s: ServerView, active: u64)
    requires
        s.stop_sign_timeot == 0,
        active != s.current_num_replicas,
    ensures
        ({
            let (after, proposed) = replicas_checked(s, Some(s.pid), Some(active));
            &&& proposed is Some
            &&& proposed->0.nodes == node_ids(active)
            &&& s.current_config_id < u32::MAX ==> proposed->0.configuration_id
                == s.current_config_id + 1
            &&& replicas_checked(after, Some(s.pid), Some(active)) == (after, None::<
                ClusterConfigView,
            >)
        }),
{
}

/// Nobody but the leader proposes a configuration, and nobody does while the number of replicas
/// is unknown or unchanged.
pub proof fn law_only_leader_reconfigures(s: ServerView, leader: Option<u64>, active: Option<u64>)
    ensures
        replicas_checked(s, leader, active).1 is Some ==> leader == Some(s.pid) && active is Some
            && active != Some(s.current_num_replicas),
{
}

/// The message that asks for a task.
pub open spec fn asked_by<M>(task: Task<M>) -> Message<M> {
    match task {
        Task::LookUp(key) => Message::APIRequest(KVCommand::Get(key)),
        Task::Append(cmd) => Message::APIRequest(cmd),
        Task::HandleIncoming(m) => Message::OmniPaxosMsg(m),
        Task::CatchUp(kv_list) => Message::StateCatchup(kv_list),
        Task::CheckReplicas(text) => Message::Debug(text),
        Task::CheckLeader(pid) => Message::Reconnect(pid),
    }
}

/// Every message but an answer to a client is acted on, and the task has all that the message has:
/// it can be told from the task which message asked for it. A get is looked up and not put into the
/// log; puts and deletes are put there.
pub proof fn law_no_message_is_lost<M>(msg: Message<M>)
    ensures
        task_of(msg) is None <==> msg is APIResponse,
        task_of(msg) is Some ==> asked_by(task_of(msg)->0) == msg,
        task_of(msg) is Some && task_of(msg)->0 is Append ==> task_of(msg)->0->Append_0 !is Get,
{
}

/// A state that is sent to a node is taken in as it was sent, all pairs of it, however many there
/// are.
pub proof fn law_state_is_taken_in<M>(kv_list: Vec<(String, String)>)
    ensures
        task_of(Message::<M>::StateCatchup(kv_list)) == Some(Task::<M>::CatchUp(kv_list)),
{
}

/// A request of a client is done as it was made: a get is looked up under its key, and every other
/// command goes into the log.
pub proof fn law_requests_are_done<M>(cmd: KVCommand, key: String)
    ensures
        task_of(Message::<M>::APIRequest(KVCommand::Get(key))) == Some(Task::<M>::LookUp(key)),
        cmd !is Get ==> task_of(Message::<M>::APIRequest(cmd)) == Some(Task::<M>::Append(cmd)),
{
}

/// At a decided end of a configuration every node, whoever leads, goes on as its last step in the
/// configuration that the log entry carries, with that number and those nodes, in a log of its own
/// for it; so any two nodes go on in the same one. Nothing is written for it.
pub proof fn law_stop_sign_starts_its_configuration(
    a: ServerView,
    a_leader: Option<u64>,
    b: ServerView,
    b_leader: Option<u64>,
    config: ClusterConfig,
    i: int,
)
    requires
        a.current_config_id < u64::MAX,
    ensures
        ({
            let stop = LogEntry::StopSign(config, true)@;
            let x = entry_steps(a, a_leader, stop);
            let y = entry_steps(b, b_leader, stop);
            &&& x.len() > 0 && y.len() > 0
            &&& x[x.len() - 1] is StartConfiguration && y[y.len() - 1] is StartConfiguration
            &&& x[x.len() - 1]->StartConfiguration_0.configuration_id == config.configuration_id
            &&& x[x.len() - 1]->StartConfiguration_0.nodes == config.nodes@
            &&& x[x.len() - 1]->StartConfiguration_0 == y[y.len() - 1]->StartConfiguration_0
            &&& x[x.len() - 1]->StartConfiguration_1 == log_path(
                a.pid,
                (a.current_config_id + 1) as u64,
            )
            &&& 0 <= i < x.len() - 1 ==> x[i] is SendState
            &&& x.len() == 2 <==> a_leader == Some(a.pid) && config.nodes@.contains(a.pid)
            &&& x.len() <= 2
        }),
{
}

/// At a decided end of a configuration a node takes the nodes of the next one for the members of the
/// cluster, counts one configuration more and starts at the front of its log. Nothing else about
/// the node changes, and no other entry changes anything about it.
pub proof fn law_entries_change_the_configuration_alone(s: ServerView, e: LogEntry)
    requires
        s.current_config_id < u64::MAX,
    ensures
        ({
            let after = entry_server(s, e@);
            &&& after.pid == s.pid
            &&& after.nodes == s.nodes
            &&& after.database == s.database
            &&& after.current_num_replicas == s.current_num_replicas
            &&& after.stop_sign_timeot == s.stop_sign_timeot
            &&& match e {
                LogEntry::StopSign(config, true) => after.members == config.nodes@
                    && after.current_config_id == s.current_config_id + 1 && after.last_decided_idx
                    == 0,
                _ => after == s,
            }
        }),
{
}

/// What is not decided, or was cut off the log, changes nothing and brings no step.
pub proof fn law_undecided_entries_do_nothing(
    s: ServerView,
    leader: Option<u64>,
    command: KVCommand,
    config: ClusterConfig,
    upto: u64,
)
    ensures
        entry_steps(s, leader, LogEntry::Undecided(command)@).len() == 0,
        entry_steps(s, leader, LogEntry::Trimmed(upto)@).len() == 0,
        entry_steps(s, leader, LogEntry::StopSign(config, false)@).len() == 0,
        entry_server(s, LogEntry::Undecided(command)@) == s,
        entry_server(s, LogEntry::Trimmed(upto)@) == s,
        entry_server(s, LogEntry::StopSign(config, false)@) == s,
{
}

/// A decided command or snapshot brings writes on the store and nothing else.
pub proof fn law_commands_bring_writes_alone(
    s: ServerView,
    leader: Option<u64>,
    command: KVCommand,
    snapshot: KVSnapshot,
    i: int,
)
    ensures
        ({
            let steps = entry_steps(s, leader, LogEntry::Decided(command)@);
            0 <= i < steps.len() ==> steps[i] is Write
        }),
        ({
            let steps = entry_steps(s, leader, LogEntry::Snapshotted(snapshot)@);
            0 <= i < steps.len() ==> steps[i] is Write
        }),
{
}

/// The members of the cluster are those of the configuration that the log ended up in.
pub proof fn law_members_are_those_of_the_last_configuration(
    s: ServerView,
    before: Seq<EntryView>,
    config: ClusterConfigView,
    after: Seq<EntryView>,
)
    requires
        forall|i: int| 0 <= i < after.len() ==> (#[trigger] after[i]) !is StopSign,
    ensures
        log_server(s, before.push(EntryView::StopSign(config)) + after).members == config.nodes,
        log_server(s, after) == s,
    decreases after.len(),
{
    let upto = before.push(EntryView::StopSign(config));
    if after.len() == 0 {
        assert(upto + after =~= upto);
        assert(upto.drop_last() =~= before);
    } else {
        let short = after.drop_last();
        assert((upto + after).drop_last() =~= upto + short);
        assert(after[after.len() - 1] !is StopSign);
        assert forall|i: int| 0 <= i < short.len() implies (#[trigger] short[i]) !is StopSign by {
            assert(short[i] == after[i]);
        }
        law_members_are_those_of_the_last_configuration(s, before, config, short);
    }
}

/// Entries and steps stand for themselves, in their order.
pub proof fn law_entries_in_order(es: Seq<LogEntry>, steps: Seq<Step>, i: int)
    ensures
        entries_view(es).len() == es.len(),
        0 <= i < es.len() ==> entries_view(es)[i] == es[i]@,
        steps_view(steps).len() == steps.len(),
        0 <= i < steps.len() ==> steps_view(steps)[i] == steps[i]@,
{
}

/// A step says what it holds: the write to do, the nodes to send to, the configuration to start and
/// where its log is.
pub proof fn law_steps_say_what_they_hold(
    w: Write,
    peers: Vec<u64>,
    config: ClusterConfig,
    storage_path: String,
)
    ensures
        Step::Write(w)@ == StepView::Write(w@),
        Step::SendState(peers)@ == StepView::SendState(peers@),
        (Step::StartConfiguration { config, storage_path })@ is StartConfiguration,
        (Step::StartConfiguration { config, storage_path })@->StartConfiguration_0.nodes
            == config.nodes@,
        (Step::StartConfiguration { config, storage_path })@->StartConfiguration_0.configuration_id
            == config.configuration_id,
        (Step::StartConfiguration { config, storage_path })@->StartConfiguration_1 == storage_path@,
{
}

/// A report on the replicas changes the number that a node goes by and its count of changes passed
/// over, and nothing else; one that says nothing new, or that could not be had, changes nothing.
pub proof fn law_reports_change_the_counts_alone(
    s: ServerView,
    leader: Option<u64>,
    active: Option<u64>,
)
    ensures
        ({
            let after = replicas_checked(s, leader, active).0;
            &&& after.pid == s.pid
            &&& after.nodes == s.nodes
            &&& after.database == s.database
            &&& after.members == s.members
            &&& after.last_decided_idx == s.last_decided_idx
            &&& after.current_config_id == s.current_config_id
            &&& active is None || active == Some(s.current_num_replicas) ==> after == s
        }),
{
}

/// A node that does not lead takes note of every number of replicas that is reported, so that
/// whichever node leads next compares with the latest; it proposes nothing and passes nothing over.
pub proof fn law_followers_take_note(s: ServerView, leader: Option<u64>, active: u64)
    requires
        leader != Some(s.pid),
    ensures
        replicas_checked(s, leader, Some(active)).0.current_num_replicas == active,
        replicas_checked(s, leader, Some(active)).0.stop_sign_timeot == s.stop_sign_timeot,
        replicas_checked(s, leader, Some(active)).1 is None,
{
}

/// A leader that has passed changes over passes on until the count of them is a multiple of five,
/// going by the old number all the while, and proposes the configuration then.
pub proof fn law_leader_passes_over_until_five(s: ServerView, active: u64)
    requires
        active != s.current_num_replicas,
    ensures
        ({
            let (after, proposed) = replicas_checked(s, Some(s.pid), Some(active));
            &&& proposed is Some <==> s.stop_sign_timeot % 5 == 0
            &&& proposed is None ==> after.stop_sign_timeot == s.stop_sign_timeot + 1
                && after.current_num_replicas == s.current_num_replicas
            &&& proposed is Some ==> after.stop_sign_timeot == 0 && after.current_num_replicas
                == active && proposed->0.nodes.len() == active
                && proposed->0.configuration_id == (s.current_config_id + 1) % 0x1_0000_0000
        }),
{
    assert(u64::MAX % 5 == 0);
}

/// A log that is seen at its start is taken in from there, and one that is seen anywhere else from
/// where the node was; nothing else changes by looking. Entries are owed exactly where the log is
/// decided further than the node was, and then from there on.
pub proof fn law_unread_entries(s: ServerView, decided: u64)
    ensures
        decided_seen(s, 0).last_decided_idx == 0,
        decided > 0 ==> decided_seen(s, decided) == s,
        decided_seen(s, decided) == (ServerView {
            last_decided_idx: decided_seen(s, decided).last_decided_idx,
            ..s
        }),
        s.last_decided_idx < decided ==> unread_from(s, decided) == Some(s.last_decided_idx),
        decided <= s.last_decided_idx ==> unread_from(s, decided) is None,
{
}

/// The client is told how far the log is decided, and of every five indexes in a row the log is
/// compacted at one, up to that very index; but not at the end of a configuration.
pub proof fn law_follow_up(es: Seq<EntryView>, decided: u64, k: u64)
    ensures
        decided_followup(es, decided).response == APIResponse::Decided(decided),
        decided_followup(es, decided).snapshot is Some ==> decided_followup(es, decided).snapshot
            == Some(decided),
        stop_signs(es) > 0 ==> decided_followup(es, decided).snapshot is None,
        stop_signs(es) == 0 && k <= u64::MAX / 5 ==> decided_followup(
            es,
            (5 * k) as u64,
        ).snapshot is Some,
        decided_followup(es, decided).snapshot is Some ==> decided % 5 == 0,
        followed_up(decided_followup(es, decided), false) == Some(decided_followup(es, decided)),
        followed_up(decided_followup(es, decided), true) is None,
{
}

/// A node that takes in entries without an end of its configuration is, with its bookkeeping, where
/// it was, but for the index up to which the log is applied.
pub proof fn law_taking_in_moves_the_index(s: ServerView, es: Seq<EntryView>, decided: u64)
    requires
        forall|i: int| 0 <= i < es.len() ==> (#[trigger] es[i]) !is StopSign,
    ensures
        decided_server(s, es, decided) == (ServerView { last_decided_idx: decided, ..s }),
    decreases es.len(),
{
    if es.len() > 0 {
        let short = es.drop_last();
        assert(es[es.len() - 1] !is StopSign);
        assert forall|i: int| 0 <= i < short.len() implies (#[trigger] short[i]) !is StopSign by {
            assert(short[i] == es[i]);
        }
        law_taking_in_moves_the_index(s, short, decided);
    }
}

/// A node starts with nothing of its log applied, in the first configuration, whose members are all
/// the nodes of the cluster; one that ran before compacts its log first, up to where it is decided,
/// and one that did not leaves a mark.
pub proof fn law_start(
    pid: u64,
    nodes: Seq<u64>,
    database: Database,
    replicas: u64,
    decided_idx: u64,
    n: u64,
)
    ensures
        ({
            let s = fresh_server(pid, nodes, database, replicas);
            &&& s.pid == pid && s.nodes == nodes && s.database == database
            &&& s.members.contains(n) <==> 1 <= n <= replicas
            &&& s.last_decided_idx == 0 && s.current_config_id == 1 && s.stop_sign_timeot == 0
            &&& s.current_num_replicas == replicas
            &&& decided_idx > 0 ==> unread_from(s, decided_idx) == Some(0u64)
        }),
        first_act(true, decided_idx) == Startup::Recover(decided_idx),
        first_act(false, decided_idx) == Startup::MarkStarted,
{
    law_node_ids(replicas, n);
}

/// A get is answered to the client, under the key that was asked for, with the text that is stored
/// under it, or with nothing where nothing is.
pub proof fn law_get_is_answered(key: Seq<char>, text: Seq<char>)
    ensures
        get_answer(key, Some(encode_utf8(text))) == (0u64, key, Some(text)),
        get_answer(key, None) == (0u64, key, None::<Seq<char>>),
{
    encode_utf8_decode_utf8(text);
}

/// Every peer, and nobody else, gets a sign of life, which names the node that it comes from; the
/// client gets one from the leader alone. The leader is the one node that reconnects to nobody.
pub proof fn law_signs_of_life(s: ServerView, leader: Option<u64>, n: u64, i: int)
    ensures
        others(s.nodes, s.pid).contains(n) ==> heartbeats(s).contains((n, heartbeat(s.pid))),
        heartbeats(s).len() == others(s.nodes, s.pid).len(),
        0 <= i < heartbeats(s).len() ==> heartbeats(s)[i].0 == others(s.nodes, s.pid)[i]
            && heartbeats(s)[i].1 == heartbeat(s.pid) && s.nodes.contains(heartbeats(s)[i].0)
            && heartbeats(s)[i].0 != s.pid,
        leader_sign(s, leader) is Some <==> leader == Some(s.pid),
        leader_sign(s, Some(s.pid)) == Some((0u64, heartbeat(s.pid))),
        n != s.pid ==> heartbeat(n) != heartbeat(s.pid),
        reconnecting(s, leader) <==> leader != Some(s.pid),
{
    let ps = others(s.nodes, s.pid);
    if ps.contains(n) {
        let j = choose|j: int| 0 <= j < ps.len() && ps[j] == n;
        assert(heartbeats(s)[j] == (n, heartbeat(s.pid)));
    }
    if 0 <= i < ps.len() {
        assert(ps.contains(ps[i]));
        law_peers_are_the_others(s.nodes, s.pid, ps[i]);
    }
    let at = "Heartbeat from node "@.len() as int;
    assert(heartbeat(n).skip(at) =~= decimal(n as nat));
    assert(heartbeat(s.pid).skip(at) =~= decimal(s.pid as nat));
    law_decimal_reads_back(n);
    law_decimal_reads_back(s.pid);
}

/// Those that are new in a configuration stand in the order in which it lists them, each as often.
pub proof fn law_newcomers_keep_their_order(a: Seq<u64>, b: Seq<u64>, members: Seq<u64>, n: u64)
    ensures
        newcomers(a + b, members) == newcomers(a, members) + newcomers(b, members),
        newcomers(seq![n], members) == if members.contains(n) {
            Seq::empty()
        } else {
            seq![n]
        },
{
    Seq::filter_distributes_over_add(a, b, is_none_of(members));
    reveal(Seq::filter);
    assert(seq![n].drop_last() =~= Seq::<u64>::empty());
    assert(newcomers(Seq::empty(), members) =~= Seq::<u64>::empty());
    assert(newcomers(seq![n], members) =~= if members.contains(n) {
        Seq::empty()
    } else {
        seq![n]
    });
}

} // verus!
