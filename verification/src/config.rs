//! What a node is told at its start, and the configurations of the cluster.

use vstd::prelude::*;

use crate::text::{
    decimal, is_digit, law_decimal_reads_back, lemma_decimal_digits, parse_u64, push_decimal,
    read_u64,
};

verus! {

/// The number of replicas that a cluster has at the least.
pub const MIN_REPLICAS: u64 = 3;

/// The configuration that a cluster starts in.
pub const FIRST_CONFIG_ID: u32 = 1;

/// After how many ticks without a leader a node calls an election.
pub const ELECTION_TICK_TIMEOUT: u64 = 5;

/// Why a node cannot start.
#[derive(Clone, Copy, Debug, PartialEq, Eq)]
pub enum ConfigError {
    WrongNodes,
    PidNotANumber,
    PidZero,
    PidMissing,
}

impl ConfigError {
    pub open spec fn text(self) -> Seq<char> {
        match self {
            ConfigError::WrongNodes => "wrong config format"@,
            ConfigError::PidNotANumber => "PIDs must be u64"@,
            ConfigError::PidZero => "PIDs cannot be 0"@,
            ConfigError::PidMissing => "missing PID"@,
        }
    }

    /// The reason, as it is shown to the operator.
    pub fn message(&self) -> (r: &'static str)
        ensures
            r@ == self.text(),
    {
        match self {
            ConfigError::WrongNodes => "wrong config format",
            ConfigError::PidNotANumber => "PIDs must be u64",
            ConfigError::PidZero => "PIDs cannot be 0",
            ConfigError::PidMissing => "missing PID",
        }
    }
}

/// The id that the text of a variable gives a node, or why it gives it none.
pub open spec fn pid_of(var: Option<Seq<char>>) -> Result<u64, ConfigError> {
    match var {
        None => Err(ConfigError::PidMissing),
        Some(text) => match read_u64(text) {
            None => Err(ConfigError::PidNotANumber),
            Some(n) => if n == 0 {
                Err(ConfigError::PidZero)
            } else {
                Ok(n)
            },
        },
    }
}

/// A node has the id that its variable spells, and starts with no other and not without one: every
/// number but zero is an id, and what is no number is none.
pub proof fn law_pid_is_what_is_set(n: u64, text: Seq<char>)
    ensures
        n > 0 ==> pid_of(Some(decimal(n as nat))) == Ok::<u64, ConfigError>(n),
        pid_of(Some(text)) == Ok::<u64, ConfigError>(n) <==> n > 0 && read_u64(text) == Some(n),
        pid_of(Some(text)) == Err::<u64, ConfigError>(ConfigError::PidZero) <==> read_u64(text)
            == Some(0u64),
        pid_of(Some(text)) == Err::<u64, ConfigError>(ConfigError::PidNotANumber) <==> read_u64(
            text,
        ) is None,
        pid_of(None) == Err::<u64, ConfigError>(ConfigError::PidMissing),
{
    law_decimal_reads_back(n);
}

/// The id of a node, from the text of the variable that sets it.
pub fn pid_from_var(var: Option<&str>) -> (r: Result<u64, ConfigError>)
    ensures
        r == pid_of(match var {
            None => None,
            Some(text) => Some(text@),
        }),
{
    match var {
        None => Err(ConfigError::PidMissing),
        Some(text) => match parse_u64(text) {
            None => Err(ConfigError::PidNotANumber),
            Some(n) => if n == 0 {
                Err(ConfigError::PidZero)
            } else {
                Ok(n)
            },
        },
    }
}

/// The error of `serde_json`. Nothing is said of what it holds.
#[verifier::external_type_specification]
#[verifier::external_body]
pub struct ExJsonError(serde_json::Error);

/// The numbers that `serde_json::from_str` reads from a text as a `Vec<u64>`; `None` where it
/// returns an error.
pub uninterp spec fn json_numbers(text: Seq<char>) -> Option<Seq<u64>>;

/// `serde_json::from_str`, reading a `Vec<u64>`. What it reads is a function of the text alone,
/// which [`json_numbers`] names; nothing more is said of it.
#[verifier::external_body]
fn read_json_numbers(text: &str) -> (r: Result<Vec<u64>, serde_json::Error>)
    ensures
        match r {
            Ok(numbers) => json_numbers(text@) == Some(numbers@),
            Err(_) => json_numbers(text@) is None,
        },
{
    serde_json::from_str::<Vec<u64>>(text)
}

/// The ids of the nodes, or why there are none, where `read` is `None` if no variable sets them, and
/// else the numbers that the variable was read as, if it could be read.
pub open spec fn nodes_of(read: Option<Option<Seq<u64>>>) -> Result<Seq<u64>, ConfigError> {
    match read {
        None => Ok(Seq::empty()),
        Some(Some(numbers)) => Ok(numbers),
        Some(None) => Err(ConfigError::WrongNodes),
    }
}

/// The nodes are those that are set, all of them and in that order; where none are set there are
/// none, and a node does not start with a list that cannot be read.
pub proof fn law_nodes_are_what_is_set(numbers: Seq<u64>)
    ensures
        nodes_of(Some(Some(numbers))) == Ok::<Seq<u64>, ConfigError>(numbers),
        nodes_of(None) is Ok,
        nodes_of(None)->Ok_0.len() == 0,
        nodes_of(Some(None)) == Err::<Seq<u64>, ConfigError>(ConfigError::WrongNodes),
{
}

pub open spec fn numbers_view(read: Option<Option<Vec<u64>>>) -> Option<Option<Seq<u64>>> {
    match read {
        None => None,
        Some(None) => Some(None),
        Some(Some(numbers)) => Some(Some(numbers@)),
    }
}

pub open spec fn nodes_view(r: Result<Vec<u64>, ConfigError>) -> Result<Seq<u64>, ConfigError> {
    match r {
        Ok(nodes) => Ok(nodes@),
        Err(e) => Err(e),
    }
}

/// The ids of the nodes, where `read` is `None` if no variable sets them, and else the numbers
/// that the variable was read as, if it could be read.
pub fn accept_nodes(read: Option<Option<Vec<u64>>>) -> (r: Result<Vec<u64>, ConfigError>)
    ensures
        nodes_view(r) == nodes_of(numbers_view(read)),
        match read {
            None => r is Ok && r->Ok_0@ == Seq::<u64>::empty(),
            Some(Some(numbers)) => r == Ok::<Vec<u64>, ConfigError>(numbers),
            Some(None) => r == Err::<Vec<u64>, ConfigError>(ConfigError::WrongNodes),
        },
{
    match read {
        None => Ok(Vec::new()),
        Some(Some(numbers)) => Ok(numbers),
        Some(None) => Err(ConfigError::WrongNodes),
    }
}

/// The ids of the nodes, from the text of the variable that sets them: a JSON list of numbers.
pub fn nodes_from_var(var: Option<&str>) -> (r: Result<Vec<u64>, ConfigError>)
    ensures
        nodes_view(r) == nodes_of(
            match var {
                None => None,
                Some(text) => Some(json_numbers(text@)),
            },
        ),
        match var {
            None => r is Ok && r->Ok_0@ == Seq::<u64>::empty(),
            Some(text) => match json_numbers(text@) {
                Some(numbers) => r is Ok && r->Ok_0@ == numbers,
                None => r == Err::<Vec<u64>, ConfigError>(ConfigError::WrongNodes),
            },
        },
{
    match var {
        None => accept_nodes(None),
        Some(text) => match read_json_numbers(text) {
            Ok(numbers) => accept_nodes(Some(Some(numbers))),
            Err(_) => accept_nodes(Some(None)),
        },
    }
}

/// The number of replicas that the specification of a stateful set asks for; `None` where there
/// is no specification or it does not say. A negative number wraps around.
pub open spec fn desired_replicas(replicas: Option<i32>) -> u64 {
    match replicas {
        Some(n) => if n >= 0 {
            n as u64
        } else {
            (n + 0x1_0000_0000_0000_0000) as u64
        },
        None => 0,
    }
}

/// The number of replicas that the specification of a stateful set asks for.
pub fn statefulset_replicas(replicas: Option<i32>) -> (r: u64)
    ensures
        r == desired_replicas(replicas),
{
    match replicas {
        Some(n) => {
            assert(n < 0 ==> (n as u64) == n + 0x1_0000_0000_0000_0000) by (bit_vector);
            n as u64
        },
        None => 0,
    }
}

/// A stateful set that asks for a number of replicas gets that number, and one that does not say
/// gets none. A negative number is as far below 2 to the power of 64 as it is below zero.
pub proof fn law_desired_replicas(n: i32)
    ensures
        n >= 0 ==> desired_replicas(Some(n)) == n,
        n < 0 ==> desired_replicas(Some(n)) - n == 0x1_0000_0000_0000_0000,
        desired_replicas(None) == 0,
{
}

/// How many replicas a node starts with, where `active` is the number that the cluster reports,
/// if it reports one.
pub open spec fn starting_replicas(active: Option<u64>) -> u64 {
    match active {
        Some(a) => if a > MIN_REPLICAS {
            a
        } else {
            MIN_REPLICAS
        },
        None => MIN_REPLICAS,
    }
}

/// A node starts with no fewer than three replicas and no fewer than the cluster reports, and with
/// no more than one of the two asks for.
pub proof fn law_starting_replicas(active: u64)
    ensures
        starting_replicas(Some(active)) >= 3,
        starting_replicas(Some(active)) >= active,
        starting_replicas(Some(active)) == 3 || starting_replicas(Some(active)) == active,
        starting_replicas(None) == 3,
{
}

/// How many replicas a node starts with, where `active` is the number that the cluster reports,
/// if it reports one.
pub fn initial_replicas(active: Option<u64>) -> (n: u64)
    ensures
        n == starting_replicas(active),
{
    match active {
        Some(a) => if a > MIN_REPLICAS {
            a
        } else {
            MIN_REPLICAS
        },
        None => MIN_REPLICAS,
    }
}

/// The ids of `n` nodes: 1, 2 and so on up to `n`.
pub open spec fn node_ids(n: u64) -> Seq<u64> {
    Seq::new(n as nat, |i: int| (i + 1) as u64)
}

/// The ids of nodes are the numbers from 1 up to how many there are, each once and in order.
pub proof fn law_node_ids(n: u64, id: u64)
    ensures
        node_ids(n).len() == n,
        node_ids(n).contains(id) <==> 1 <= id <= n,
        forall|i: int, j: int|
            0 <= i < j < n ==> (#[trigger] node_ids(n)[i]) < (#[trigger] node_ids(n)[j]),
{
    if 1 <= id <= n {
        assert(node_ids(n)[id - 1] == id);
    }
}

/// The ids of `n` nodes.
pub fn replica_list(n: u64) -> (r: Vec<u64>)
    ensures
        r@ == node_ids(n),
{
    let mut r: Vec<u64> = Vec::new();
    let mut i: u64 = 0;
    while i < n
        invariant
            i <= n,
            r@ == node_ids(i),
        decreases n - i,
    {
        i += 1;
        r.push(i);
        assert(r@ =~= node_ids(i));
    }
    r
}

/// A configuration of the cluster: its number, and the nodes that take part in it.
#[derive(Clone, Debug, PartialEq, Eq)]
pub struct ClusterConfig {
    pub configuration_id: u32,
    pub nodes: Vec<u64>,
}

pub struct ClusterConfigView {
    pub configuration_id: u32,
    pub nodes: Seq<u64>,
}

impl View for ClusterConfig {
    type V = ClusterConfigView;

    open spec fn view(&self) -> ClusterConfigView {
        ClusterConfigView { configuration_id: self.configuration_id, nodes: self.nodes@ }
    }
}

/// The configuration that a cluster of `replicas` nodes starts in.
pub open spec fn first_config(replicas: u64) -> ClusterConfigView {
    ClusterConfigView { configuration_id: FIRST_CONFIG_ID, nodes: node_ids(replicas) }
}

/// A cluster starts in configuration 1, with all of its nodes and no others.
pub proof fn law_first_config(replicas: u64, id: u64)
    ensures
        first_config(replicas).configuration_id == 1,
        first_config(replicas).nodes.len() == replicas,
        first_config(replicas).nodes.contains(id) <==> 1 <= id <= replicas,
{
    law_node_ids(replicas, id);
}

/// The configuration that a cluster of `replicas` nodes starts in.
pub fn initial_cluster_config(replicas: u64) -> (r: ClusterConfig)
    ensures
        r@ == first_config(replicas),
        r.configuration_id == FIRST_CONFIG_ID,
        r.nodes@ == node_ids(replicas),
{
    ClusterConfig { configuration_id: FIRST_CONFIG_ID, nodes: replica_list(replicas) }
}

pub open spec fn store_path(pid: u64) -> Seq<char> {
    "/data/db_"@ + decimal(pid as nat)
}

/// The directory of the store of node `pid`.
pub fn database_path(pid: u64) -> (r: String)
    ensures
        r@ == store_path(pid),
        r@ == "/data/db_"@ + decimal(pid as nat),
{
    let mut r = "/data/db_".to_owned();
    push_decimal(&mut r, pid);
    r
}

pub open spec fn first_log_path(pid: u64) -> Seq<char> {
    "/data/omnipaxos_"@ + decimal(pid as nat) + "/config_1"@
}

/// The directory of the log of node `pid` in the first configuration.
pub fn initial_storage_path(pid: u64) -> (r: String)
    ensures
        r@ == first_log_path(pid),
{
    let mut r = "/data/omnipaxos_".to_owned();
    push_decimal(&mut r, pid);
    r.append("/config_1");
    r
}

pub open spec fn log_path(pid: u64, config_id: u64) -> Seq<char> {
    "/data/omnipaxos_"@ + decimal(pid as nat) + "/config"@ + decimal(config_id as nat)
}

/// The directory of the log of node `pid` in the later configuration `config_id`.
pub fn storage_path(pid: u64, config_id: u64) -> (r: String)
    ensures
        r@ == log_path(pid, config_id),
{
    let mut r = "/data/omnipaxos_".to_owned();
    push_decimal(&mut r, pid);
    r.append("/config");
    push_decimal(&mut r, config_id);
    r
}

/// No two configurations of a node keep their logs in one directory.
pub proof fn law_log_paths_differ(pid: u64, a: u64, b: u64)
    ensures
        a != b ==> log_path(pid, a) != log_path(pid, b),
        log_path(pid, a) != first_log_path(pid),
{
    let front = "/data/omnipaxos_"@ + decimal(pid as nat) + "/config"@;
    let at = front.len() as int;
    assert(log_path(pid, a).skip(at) =~= decimal(a as nat));
    assert(log_path(pid, b).skip(at) =~= decimal(b as nat));
    law_decimal_reads_back(a);
    law_decimal_reads_back(b);
    reveal_strlit("/config");
    reveal_strlit("/config_1");
    lemma_decimal_digits(a as nat);
    assert(is_digit(decimal(a as nat)[0]));
    assert(log_path(pid, a)[at] == decimal(a as nat)[0]);
    assert(first_log_path(pid)[at] == '_');
}

/// No two nodes keep their stores in one directory, or their logs.
pub proof fn law_nodes_have_their_own_directories(p: u64, q: u64, a: u64, b: u64)
    requires
        p != q,
    ensures
        store_path(p) != store_path(q),
        first_log_path(p) != first_log_path(q),
        log_path(p, a) != log_path(q, b),
        log_path(p, a) != first_log_path(q),
{
    let dir = "/data/db_"@.len() as int;
    assert(store_path(p).skip(dir) =~= decimal(p as nat));
    assert(store_path(q).skip(dir) =~= decimal(q as nat));
    law_decimal_reads_back(p);
    law_decimal_reads_back(q);
    let front = "/data/omnipaxos_"@;
    reveal_strlit("/config");
    reveal_strlit("/config_1");
    lemma_number_before_slash(front, p, "/config_1"@, q, "/config_1"@);
    lemma_number_before_slash(
        front,
        p,
        "/config"@ + decimal(a as nat),
        q,
        "/config"@ + decimal(b as nat),
    );
    lemma_number_before_slash(front, p, "/config"@ + decimal(a as nat), q, "/config_1"@);
    assert(log_path(p, a) =~= front + decimal(p as nat) + ("/config"@ + decimal(a as nat)));
    assert(log_path(q, b) =~= front + decimal(q as nat) + ("/config"@ + decimal(b as nat)));
}

proof fn lemma_number_before_slash(
    front: Seq<char>,
    p: u64,
    x: Seq<char>,
    q: u64,
    y: Seq<char>,
)
    requires
        p != q,
        x.len() > 0 && x[0] == '/',
        y.len() > 0 && y[0] == '/',
    ensures
        front + decimal(p as nat) + x != front + decimal(q as nat) + y,
{
    let dp = decimal(p as nat);
    let dq = decimal(q as nat);
    let l = front + dp + x;
    let r = front + dq + y;
    lemma_decimal_digits(p as nat);
    lemma_decimal_digits(q as nat);
    law_decimal_reads_back(p);
    law_decimal_reads_back(q);
    if l == r {
        let at = front.len() as int;
        if dp.len() < dq.len() {
            assert(l[at + dp.len()] == '/');
            assert(r[at + dp.len()] == dq[dp.len() as int]);
            assert(is_digit(dq[dp.len() as int]));
        } else if dq.len() < dp.len() {
            assert(r[at + dq.len()] == '/');
            assert(l[at + dq.len()] == dp[dq.len() as int]);
            assert(is_digit(dp[dq.len() as int]));
        } else {
            assert(l.subrange(at, at + dp.len()) =~= dp);
            assert(r.subrange(at, at + dq.len()) =~= dq);
        }
    }
}

/// A directory is named after the id of its node, and that of a log also after the number of its
/// configuration; both can be read back from the name.
pub proof fn law_directories_spell_their_numbers(pid: u64, config_id: u64)
    ensures
        ({
            let dir = "/data/db_"@;
            &&& dir.is_prefix_of(store_path(pid))
            &&& read_u64(store_path(pid).skip(dir.len() as int)) == Some(pid)
        }),
        ({
            let dir = "/data/omnipaxos_"@;
            let path = log_path(pid, config_id);
            let mid = (dir.len() + decimal(pid as nat).len()) as int;
            let end = mid + "/config"@.len();
            &&& dir.is_prefix_of(path) && dir.is_prefix_of(first_log_path(pid))
            &&& end <= path.len()
            &&& read_u64(path.subrange(dir.len() as int, mid)) == Some(pid)
            &&& path.subrange(mid, end) == "/config"@
            &&& read_u64(path.skip(end)) == Some(config_id)
            &&& mid <= first_log_path(pid).len()
            &&& read_u64(first_log_path(pid).subrange(dir.len() as int, mid)) == Some(pid)
            &&& first_log_path(pid).skip(mid) == "/config_1"@
        }),
{
    let n = decimal(pid as nat);
    let dir = "/data/omnipaxos_"@;
    let mid = (dir.len() + n.len()) as int;
    let end = mid + "/config"@.len();
    assert(store_path(pid).skip("/data/db_"@.len() as int) =~= n);
    assert(log_path(pid, config_id).subrange(dir.len() as int, mid) =~= n);
    assert(log_path(pid, config_id).subrange(mid, end) =~= "/config"@);
    assert(log_path(pid, config_id).skip(end) =~= decimal(config_id as nat));
    assert(first_log_path(pid).subrange(dir.len() as int, mid) =~= n);
    assert(first_log_path(pid).skip(mid) =~= "/config_1"@);
    law_decimal_reads_back(pid);
    law_decimal_reads_back(config_id);
}

} // verus!
