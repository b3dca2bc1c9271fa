# kv_store

A key-value store that is replicated over a cluster of nodes. The nodes agree on a log of commands
(OmniPaxos), each applies the decided log to a byte store of its own (RocksDB), and Kubernetes says
how many nodes there are. Nodes and users talk to each other through one network actor.

`src/` is the verified part: everything that is decided, as functions on plain values.

| module        | what it says                                                                  |
|---------------|-------------------------------------------------------------------------------|
| `text`        | white space, words, decimal numbers                                           |
| `command`     | what a typed line means                                                       |
| `kv`          | commands, and snapshots that stand for a run of them                          |
| `store`       | the byte store as writes change it, and what commands make of it              |
| `transfer`    | the pairs of one store laid over another                                      |
| `database`    | which writes a command, a snapshot or a state transfer comes to               |
| `config`      | start-up settings, cluster configurations, directories                        |
| `network`     | messages, framing, addresses, connections of a node                           |
| `server`      | what a node does with messages, reports on the replicas and decided entries   |
| `replication` | what a log makes of the stores of all nodes                                   |
| `actor`       | routing in the network actor                                                  |

`app/` holds what is left: sockets, the consensus log, the store on disk, the event loops.

## Settings

A node reads `PID` (its id, a positive number) and `NODES` (a JSON list of the ids of all nodes).
The network actor, started with the argument `network_actor`, reads `CLIENT_PORTS` (a JSON list of
ports) and `PORT_MAPPINGS` (a JSON list of pairs: a port between nodes, and the port that is its
other end).

## Commands

    put <key> <value> [port]
    get <key> [port]
    delete <key> [port]

The port is that of a node. Without one a command goes to the leader, as the network actor knows it
from the leader's last sign of life. While it knows of none that is connected, the command goes to
the first connected node in `CLIENT_PORTS`.
