//! The commands of the store, and snapshots that stand for a run of them.

use vstd::prelude::*;

use crate::text::texts;

verus! {

/// A key and the value to hold under it.
#[derive(Clone, Debug, PartialEq, Eq)]
pub struct KeyValue {
    pub key: String,
    pub value: String,
}

/// What a client asks of the store.
#[derive(Clone, Debug, PartialEq, Eq)]
pub enum KVCommand {
    Put(KeyValue),
    Delete(String),
    Get(String),
}

/// A command as the texts that it holds.
pub enum CommandView {
    Put(Seq<char>, Seq<char>),
    Delete(Seq<char>),
    Get(Seq<char>),
}

impl View for KVCommand {
    type V = CommandView;

    open spec fn view(&self) -> CommandView {
        match *self {
            KVCommand::Put(kv) => CommandView::Put(kv.key@, kv.value@),
            KVCommand::Delete(key) => CommandView::Delete(key@),
            KVCommand::Get(key) => CommandView::Get(key@),
        }
    }
}

pub open spec fn commands(v: Seq<KVCommand>) -> Seq<CommandView> {
    v.map_values(|c: KVCommand| c@)
}

/// Key-value pairs as the texts that they hold.
pub open spec fn pairs(v: Seq<(String, String)>) -> Seq<(Seq<char>, Seq<char>)> {
    v.map_values(|p: (String, String)| (p.0@, p.1@))
}

/// One put for each pair, in order.
pub open spec fn put_all(ps: Seq<(Seq<char>, Seq<char>)>) -> Seq<CommandView> {
    ps.map_values(|p: (Seq<char>, Seq<char>)| CommandView::Put(p.0, p.1))
}

/// One delete for each key, in order.
pub open spec fn delete_all(keys: Seq<Seq<char>>) -> Seq<CommandView> {
    keys.map_values(|k: Seq<char>| CommandView::Delete(k))
}

/// What is left of a run of commands once they are all done: the values that they leave behind,
/// and the keys that they leave without one.
#[verifier::ext_equal]
pub struct Net {
    pub puts: Map<Seq<char>, Seq<char>>,
    pub deleted: Set<Seq<char>>,
}

pub open spec fn net_step(n: Net, c: CommandView) -> Net {
    match c {
        CommandView::Put(key, value) => Net {
            puts: n.puts.insert(key, value),
            deleted: n.deleted.remove(key),
        },
        CommandView::Delete(key) => Net {
            puts: n.puts.remove(key),
            deleted: n.deleted.insert(key),
        },
        CommandView::Get(_) => n,
    }
}

/// The net result of the commands `cs`, done in order.
pub open spec fn net(cs: Seq<CommandView>) -> Net
    decreases cs.len(),
{
    if cs.len() == 0 {
        Net { puts: Map::empty(), deleted: Set::empty() }
    } else {
        net_step(net(cs.drop_last()), cs.last())
    }
}

/// The net result of the commands `cs`, done in order after those that led to `n`.
pub open spec fn net_from(n: Net, cs: Seq<CommandView>) -> Net
    decreases cs.len(),
{
    if cs.len() == 0 {
        n
    } else {
        net_step(net_from(n, cs.drop_last()), cs.last())
    }
}

pub proof fn lemma_net_from(a: Seq<CommandView>, b: Seq<CommandView>)
    ensures
        net(a + b) == net_from(net(a), b),
    decreases b.len(),
{
    if b.len() == 0 {
        assert(a + b =~= a);
    } else {
        assert((a + b).drop_last() =~= a + b.drop_last());
        lemma_net_from(a, b.drop_last());
    }
}

/// A run of commands in short: the pairs that it leaves in the store, and the keys that it
/// removes from it.
#[derive(Clone, Debug, PartialEq, Eq)]
pub struct KVSnapshot {
    pub snapshotted: Vec<(String, String)>,
    pub deleted_keys: Vec<String>,
}

fn find_pair(v: &Vec<(String, String)>, key: &String) -> (r: Option<usize>)
    ensures
        match r {
            Some(i) => i < v@.len() && v@[i as int].0@ == key@,
            None => forall|i: int| 0 <= i < v@.len() ==> (#[trigger] v@[i]).0@ != key@,
        },
{
    let mut i: usize = 0;
    while i < v.len()
        invariant
            i <= v@.len(),
            forall|j: int| 0 <= j < i ==> (#[trigger] v@[j]).0@ != key@,
        decreases v@.len() - i,
    {
        if v[i].0 == *key {
            return Some(i);
        }
        i += 1;
    }
    None
}

fn find_key(v: &Vec<String>, key: &String) -> (r: Option<usize>)
    ensures
        match r {
            Some(i) => i < v@.len() && v@[i as int]@ == key@,
            None => forall|i: int| 0 <= i < v@.len() ==> (#[trigger] v@[i])@ != key@,
        },
{
    let mut i: usize = 0;
    while i < v.len()
        invariant
            i <= v@.len(),
            forall|j: int| 0 <= j < i ==> (#[trigger] v@[j])@ != key@,
        decreases v@.len() - i,
    {
        if v[i] == *key {
            return Some(i);
        }
        i += 1;
    }
    None
}

impl KVSnapshot {
    /// The commands that a snapshot amounts to: its puts, then its deletes.
    pub open spec fn commands(self) -> Seq<CommandView> {
        put_all(pairs(self.snapshotted@)) + delete_all(texts(self.deleted_keys@))
    }

    /// No key occurs twice, neither among the pairs, nor among the deleted keys, nor in both.
    pub open spec fn well_formed(self) -> bool {
        &&& forall|i: int, j: int|
            0 <= i < j < self.snapshotted@.len() ==> (#[trigger] self.snapshotted@[i]).0@ != (
            #[trigger] self.snapshotted@[j]).0@
        &&& forall|i: int, j: int|
            0 <= i < j < self.deleted_keys@.len() ==> (#[trigger] self.deleted_keys@[i])@ != (
            #[trigger] self.deleted_keys@[j])@
        &&& forall|i: int, j: int|
            0 <= i < self.snapshotted@.len() && 0 <= j < self.deleted_keys@.len() ==> (
            #[trigger] self.snapshotted@[i]).0@ != (#[trigger] self.deleted_keys@[j])@
    }

    /// Whether the snapshot is well formed and says what `n` says.
    spec fn represents(self, n: Net) -> bool {
        &&& self.well_formed()
        &&& forall|i: int|
            0 <= i < self.snapshotted@.len() ==> n.puts.contains_pair(
                (#[trigger] self.snapshotted@[i]).0@,
                self.snapshotted@[i].1@,
            )
        &&& forall|k: Seq<char>|
            #[trigger] n.puts.contains_key(k) ==> exists|i: int|
                0 <= i < self.snapshotted@.len() && (#[trigger] self.snapshotted@[i]).0@ == k
        &&& forall|j: int|
            0 <= j < self.deleted_keys@.len() ==> n.deleted.contains(
                (#[trigger] self.deleted_keys@[j])@,
            )
        &&& forall|k: Seq<char>|
            #[trigger] n.deleted.contains(k) ==> exists|j: int|
                0 <= j < self.deleted_keys@.len() && (#[trigger] self.deleted_keys@[j])@ == k
    }

    fn forget_put(&mut self, key: &String, Ghost(n): Ghost<Net>)
        requires
            old(self).represents(n),
        ensures
            final(self).represents(Net { puts: n.puts.remove(key@), ..n }),
    {
        let found = find_pair(&self.snapshotted, key);
        let ghost before = self.snapshotted@;
        if let Some(i) = found {
            self.snapshotted.remove(i);
        }
        let ghost after = self.snapshotted@;
        let ghost m = Net { puts: n.puts.remove(key@), ..n };
        proof {
            let f: int = match found {
                Some(i) => i as int,
                None => before.len() as int,
            };
            assert forall|i: int| 0 <= i < after.len() implies m.puts.contains_pair(
                (#[trigger] after[i]).0@,
                after[i].1@,
            ) by {
                let o = if i < f { i } else { i + 1 };
                assert(after[i] == before[o]);
                assert(n.puts.contains_pair(before[o].0@, before[o].1@));
                assert(before[o].0@ != key@);
            }
            assert forall|i: int, j: int| 0 <= i < j < after.len() implies (#[trigger] after[i]).0@ != (
            #[trigger] after[j]).0@ by {
                assert(after[i] == before[if i < f { i } else { i + 1 }]);
                assert(after[j] == before[if j < f { j } else { j + 1 }]);
            }
            assert forall|i: int, j: int|
                0 <= i < after.len() && 0 <= j < self.deleted_keys@.len() implies (
            #[trigger] after[i]).0@ != (#[trigger] self.deleted_keys@[j])@ by {
                assert(after[i] == before[if i < f { i } else { i + 1 }]);
            }
            assert forall|k: Seq<char>| #[trigger] m.puts.contains_key(k) implies exists|i: int|
                0 <= i < after.len() && (#[trigger] after[i]).0@ == k by {
                assert(n.puts.contains_key(k));
                let w = choose|i: int| 0 <= i < before.len() && (#[trigger] before[i]).0@ == k;
                assert(after[if w < f { w } else { w - 1 }] == before[w]);
            }
        }
    }

    fn forget_delete(&mut self, key: &String, Ghost(n): Ghost<Net>)
        requires
            old(self).represents(n),
        ensures
            final(self).represents(Net { deleted: n.deleted.remove(key@), ..n }),
    {
        let found = find_key(&self.deleted_keys, key);
        let ghost before = self.deleted_keys@;
        if let Some(i) = found {
            self.deleted_keys.remove(i);
        }
        let ghost after = self.deleted_keys@;
        let ghost m = Net { deleted: n.deleted.remove(key@), ..n };
        proof {
            let f: int = match found {
                Some(i) => i as int,
                None => before.len() as int,
            };
            assert forall|i: int| 0 <= i < after.len() implies m.deleted.contains(
                (#[trigger] after[i])@,
            ) by {
                let o = if i < f { i } else { i + 1 };
                assert(after[i] == before[o]);
                assert(n.deleted.contains(before[o]@));
                assert(before[o]@ != key@);
            }
            assert forall|i: int, j: int| 0 <= i < j < after.len() implies (#[trigger] after[i])@ != (
            #[trigger] after[j])@ by {
                assert(after[i] == before[if i < f { i } else { i + 1 }]);
                assert(after[j] == before[if j < f { j } else { j + 1 }]);
            }
            assert forall|i: int, j: int|
                0 <= i < self.snapshotted@.len() && 0 <= j < after.len() implies (
            #[trigger] self.snapshotted@[i]).0@ != (#[trigger] after[j])@ by {
                assert(after[j] == before[if j < f { j } else { j + 1 }]);
            }
            assert forall|k: Seq<char>| #[trigger] m.deleted.contains(k) implies exists|i: int|
                0 <= i < after.len() && (#[trigger] after[i])@ == k by {
                assert(n.deleted.contains(k));
                let w = choose|i: int| 0 <= i < before.len() && (#[trigger] before[i])@ == k;
                assert(after[if w < f { w } else { w - 1 }] == before[w]);
            }
        }
    }

    fn put(&mut self, key: &String, value: &String, Ghost(n): Ghost<Net>)
        requires
            old(self).represents(n),
        ensures
            final(self).represents(net_step(n, CommandView::Put(key@, value@))),
    {
        self.forget_put(key, Ghost(n));
        let ghost m = Net { puts: n.puts.remove(key@), ..n };
        self.forget_delete(key, Ghost(m));
        let ghost m2 = Net { deleted: m.deleted.remove(key@), ..m };
        let ghost before = self.snapshotted@;
        self.snapshotted.push((key.clone(), value.clone()));
        let ghost after = self.snapshotted@;
        let ghost goal = net_step(n, CommandView::Put(key@, value@));
        proof {
            assert(goal.deleted =~= m2.deleted);
            assert forall|i: int| 0 <= i < before.len() implies (#[trigger] before[i]).0@ != key@ by {
                assert(m2.puts.contains_pair(before[i].0@, before[i].1@));
            }
            assert forall|i: int| 0 <= i < after.len() implies goal.puts.contains_pair(
                (#[trigger] after[i]).0@,
                after[i].1@,
            ) by {
                if i < before.len() {
                    assert(after[i] == before[i]);
                    assert(m2.puts.contains_pair(before[i].0@, before[i].1@));
                }
            }
            assert forall|k: Seq<char>| #[trigger] goal.puts.contains_key(k) implies exists|i: int|
                0 <= i < after.len() && (#[trigger] after[i]).0@ == k by {
                if k == key@ {
                    assert(after[before.len() as int].0@ == k);
                } else {
                    assert(m2.puts.contains_key(k));
                    let w = choose|i: int| 0 <= i < before.len() && (#[trigger] before[i]).0@ == k;
                    assert(after[w] == before[w]);
                }
            }
            assert forall|j: int| 0 <= j < self.deleted_keys@.len() implies (
            #[trigger] self.deleted_keys@[j])@ != key@ by {
                assert(m2.deleted.contains(self.deleted_keys@[j]@));
            }
            assert forall|i: int, j: int| 0 <= i < j < after.len() implies (#[trigger] after[i]).0@ != (
            #[trigger] after[j]).0@ by {
                assert(after[i] == before[i]);
                if j < before.len() {
                    assert(after[j] == before[j]);
                }
            }
            assert forall|i: int, j: int|
                0 <= i < after.len() && 0 <= j < self.deleted_keys@.len() implies (
            #[trigger] after[i]).0@ != (#[trigger] self.deleted_keys@[j])@ by {
                if i < before.len() {
                    assert(after[i] == before[i]);
                }
            }
        }
    }

    fn delete(&mut self, key: &String, Ghost(n): Ghost<Net>)
        requires
            old(self).represents(n),
        ensures
            final(self).represents(net_step(n, CommandView::Delete(key@))),
    {
        self.forget_put(key, Ghost(n));
        let ghost m = Net { puts: n.puts.remove(key@), ..n };
        self.forget_delete(key, Ghost(m));
        let ghost m2 = Net { deleted: m.deleted.remove(key@), ..m };
        let ghost before = self.deleted_keys@;
        self.deleted_keys.push(key.clone());
        let ghost after = self.deleted_keys@;
        let ghost goal = net_step(n, CommandView::Delete(key@));
        proof {
            assert(goal.puts =~= m2.puts);
            assert forall|i: int| 0 <= i < before.len() implies (#[trigger] before[i])@ != key@ by {
                assert(m2.deleted.contains(before[i]@));
            }
            assert forall|i: int| 0 <= i < after.len() implies goal.deleted.contains(
                (#[trigger] after[i])@,
            ) by {
                if i < before.len() {
                    assert(after[i] == before[i]);
                    assert(m2.deleted.contains(before[i]@));
                }
            }
            assert forall|k: Seq<char>| #[trigger] goal.deleted.contains(k) implies exists|i: int|
                0 <= i < after.len() && (#[trigger] after[i])@ == k by {
                if k == key@ {
                    assert(after[before.len() as int]@ == k);
                } else {
                    assert(m2.deleted.contains(k));
                    let w = choose|i: int| 0 <= i < before.len() && (#[trigger] before[i])@ == k;
                    assert(after[w] == before[w]);
                }
            }
            assert forall|i: int| 0 <= i < self.snapshotted@.len() implies (
            #[trigger] self.snapshotted@[i]).0@ != key@ by {
                assert(m2.puts.contains_pair(self.snapshotted@[i].0@, self.snapshotted@[i].1@));
            }
            assert forall|i: int, j: int| 0 <= i < j < after.len() implies (#[trigger] after[i])@ != (
            #[trigger] after[j])@ by {
                assert(after[i] == before[i]);
                if j < before.len() {
                    assert(after[j] == before[j]);
                }
            }
            assert forall|i: int, j: int|
                0 <= i < self.snapshotted@.len() && 0 <= j < after.len() implies (
            #[trigger] self.snapshotted@[i]).0@ != (#[trigger] after[j])@ by {
                if j < before.len() {
                    assert(after[j] == before[j]);
                }
            }
        }
    }

    fn empty() -> (r: KVSnapshot)
        ensures
            r.represents(net(Seq::empty())),
    {
        KVSnapshot { snapshotted: Vec::new(), deleted_keys: Vec::new() }
    }

    /// Does what the snapshot `other` amounts to, on top of what `self` says.
    fn take_in(&mut self, other: &KVSnapshot, Ghost(cs): Ghost<Seq<CommandView>>)
        requires
            old(self).represents(net(cs)),
        ensures
            final(self).represents(net(cs + other.commands())),
    {
        let ghost puts = put_all(pairs(other.snapshotted@));
        let ghost deletes = delete_all(texts(other.deleted_keys@));
        let mut i: usize = 0;
        assert(cs + puts.take(0) =~= cs);
        while i < other.snapshotted.len()
            invariant
                i <= other.snapshotted@.len(),
                puts == put_all(pairs(other.snapshotted@)),
                self.represents(net(cs + puts.take(i as int))),
            decreases other.snapshotted@.len() - i,
        {
            let ghost done = cs + puts.take(i as int);
            self.put(&other.snapshotted[i].0, &other.snapshotted[i].1, Ghost(net(done)));
            let ghost next = cs + puts.take(i + 1);
            assert(next.drop_last() =~= done);
            assert(next.last() == puts[i as int]);
            i += 1;
        }
        assert(puts.take(puts.len() as int) =~= puts);
        let ghost so_far = cs + puts;
        let mut j: usize = 0;
        assert(so_far + deletes.take(0) =~= so_far);
        while j < other.deleted_keys.len()
            invariant
                j <= other.deleted_keys@.len(),
                deletes == delete_all(texts(other.deleted_keys@)),
                self.represents(net(so_far + deletes.take(j as int))),
            decreases other.deleted_keys@.len() - j,
        {
            let ghost done = so_far + deletes.take(j as int);
            self.delete(&other.deleted_keys[j], Ghost(net(done)));
            let ghost next = so_far + deletes.take(j + 1);
            assert(next.drop_last() =~= done);
            assert(next.last() == deletes[j as int]);
            j += 1;
        }
        assert(deletes.take(deletes.len() as int) =~= deletes);
        assert(so_far + deletes =~= cs + other.commands());
    }

    proof fn lemma_represents(self, n: Net)
        requires
            self.represents(n),
        ensures
            net(self.commands()) == n,
    {
        let puts = put_all(pairs(self.snapshotted@));
        let deletes = delete_all(texts(self.deleted_keys@));
        lemma_net_of_puts(self.snapshotted@);
        lemma_net_from(puts, deletes);
        lemma_net_of_deletes(net(puts), self.deleted_keys@);
        let r = net(self.commands());
        assert forall|k: Seq<char>| n.puts.contains_key(k) implies #[trigger] r.puts.contains_key(k)
            && r.puts[k] == n.puts[k] by {
            let i = choose|i: int|
                0 <= i < self.snapshotted@.len() && (#[trigger] self.snapshotted@[i]).0@ == k;
            assert(n.puts.contains_pair(self.snapshotted@[i].0@, self.snapshotted@[i].1@));
            let x = self.snapshotted@[i].1@;
            assert(net(puts).puts.contains_pair(self.snapshotted@[i].0@, x));
            assert(net_from(net(puts), deletes).puts.contains_pair(k, x));
        }
        assert forall|k: Seq<char>| #[trigger] r.puts.contains_key(k) implies n.puts.contains_key(
            k,
        ) by {
            assert(net(puts).puts.contains_key(k));
            let i = choose|i: int|
                0 <= i < self.snapshotted@.len() && (#[trigger] self.snapshotted@[i]).0@ == k;
            assert(n.puts.contains_pair(self.snapshotted@[i].0@, self.snapshotted@[i].1@));
        }
        assert(r.puts =~= n.puts);
        assert(r.deleted =~= n.deleted);
    }

    /// The snapshot of a run of log entries: what they come to, with each key at most once.
    pub fn create(entries: &Vec<KVCommand>) -> (r: KVSnapshot)
        ensures
            r.well_formed(),
            net(r.commands()) == net(commands(entries@)),
    {
        let mut r = KVSnapshot::empty();
        let ghost cs = commands(entries@);
        let mut i: usize = 0;
        assert(cs.take(0) =~= Seq::empty());
        while i < entries.len()
            invariant
                i <= entries@.len(),
                cs == commands(entries@),
                r.represents(net(cs.take(i as int))),
            decreases entries@.len() - i,
        {
            let ghost done = cs.take(i as int);
            let ghost next = cs.take(i + 1);
            assert(next.drop_last() =~= done);
            assert(next.last() == entries@[i as int]@);
            match &entries[i] {
                KVCommand::Put(kv) => {
                    r.put(&kv.key, &kv.value, Ghost(net(done)));
                },
                KVCommand::Delete(key) => {
                    r.delete(key, Ghost(net(done)));
                },
                KVCommand::Get(_) => {},
            }
            i += 1;
        }
        assert(cs.take(cs.len() as int) =~= cs);
        proof {
            r.lemma_represents(net(cs));
        }
        r
    }

    /// Extends a snapshot by a later one: the result stands for the commands of `self` followed
    /// by those of `delta`.
    pub fn merge(&mut self, delta: KVSnapshot)
        ensures
            final(self).well_formed(),
            net(final(self).commands()) == net(old(self).commands() + delta.commands()),
    {
        let mut r = KVSnapshot::empty();
        let ghost mine = self.commands();
        r.take_in(self, Ghost(Seq::empty()));
        assert(Seq::<CommandView>::empty() + mine =~= mine);
        r.take_in(&delta, Ghost(mine));
        proof {
            r.lemma_represents(net(mine + delta.commands()));
        }
        *self = r;
    }
}

/// Puts of distinct keys leave exactly their pairs.
proof fn lemma_net_of_puts(v: Seq<(String, String)>)
    requires
        forall|i: int, j: int|
            0 <= i < j < v.len() ==> (#[trigger] v[i]).0@ != (#[trigger] v[j]).0@,
    ensures
        net(put_all(pairs(v))).deleted == Set::<Seq<char>>::empty(),
        forall|i: int|
            0 <= i < v.len() ==> net(put_all(pairs(v))).puts.contains_pair(
                (#[trigger] v[i]).0@,
                v[i].1@,
            ),
        forall|k: Seq<char>|
            #[trigger] net(put_all(pairs(v))).puts.contains_key(k) ==> exists|i: int|
                0 <= i < v.len() && (#[trigger] v[i]).0@ == k,
    decreases v.len(),
{
    if v.len() > 0 {
        let w = v.drop_last();
        lemma_net_of_puts(w);
        assert(put_all(pairs(v)).drop_last() =~= put_all(pairs(w)));
        assert(net(put_all(pairs(v))).deleted =~= Set::empty());
        assert forall|i: int| 0 <= i < v.len() implies net(put_all(pairs(v))).puts.contains_pair(
            (#[trigger] v[i]).0@,
            v[i].1@,
        ) by {
            if i < w.len() {
                assert(w[i] == v[i]);
                assert(v[i].0@ != v[v.len() - 1].0@);
            }
        }
        assert forall|k: Seq<char>| #[trigger] net(put_all(pairs(v))).puts.contains_key(
            k,
        ) implies exists|i: int| 0 <= i < v.len() && (#[trigger] v[i]).0@ == k by {
            if k == v.last().0@ {
                assert(v[v.len() - 1].0@ == k);
            } else {
                assert(net(put_all(pairs(w))).puts.contains_key(k));
                let i = choose|i: int| 0 <= i < w.len() && (#[trigger] w[i]).0@ == k;
                assert(v[i].0@ == k);
            }
        }
    }
}

/// Deletes take their keys out of the pairs and add them to the deleted ones.
proof fn lemma_net_of_deletes(n: Net, v: Seq<String>)
    ensures
        forall|k: Seq<char>, x: Seq<char>|
            n.puts.contains_pair(k, x) && (forall|j: int|
                0 <= j < v.len() ==> (#[trigger] v[j])@ != k)
                ==> #[trigger] net_from(n, delete_all(texts(v))).puts.contains_pair(k, x),
        forall|k: Seq<char>|
            #[trigger] net_from(n, delete_all(texts(v))).puts.contains_key(k)
                ==> n.puts.contains_key(k),
        forall|j: int|
            0 <= j < v.len() ==> net_from(n, delete_all(texts(v))).deleted.contains(
                (#[trigger] v[j])@,
            ),
        forall|k: Seq<char>|
            #[trigger] net_from(n, delete_all(texts(v))).deleted.contains(k) ==> (
            n.deleted.contains(k) || exists|j: int| 0 <= j < v.len() && (#[trigger] v[j])@ == k),
    decreases v.len(),
{
    if v.len() > 0 {
        let w = v.drop_last();
        lemma_net_of_deletes(n, w);
        assert(delete_all(texts(v)).drop_last() =~= delete_all(texts(w)));
        let a = net_from(n, delete_all(texts(w)));
        let b = net_from(n, delete_all(texts(v)));
        assert(b == net_step(a, CommandView::Delete(v.last()@)));
        assert forall|k: Seq<char>, x: Seq<char>|
            n.puts.contains_pair(k, x) && (forall|j: int|
                0 <= j < v.len() ==> (#[trigger] v[j])@ != k) implies #[trigger] b.puts.contains_pair(
            k,
            x,
        ) by {
            assert forall|j: int| 0 <= j < w.len() implies (#[trigger] w[j])@ != k by {
                assert(v[j]@ != k);
            }
            assert(a.puts.contains_pair(k, x));
            assert(v[v.len() - 1]@ != k);
        }
        assert forall|j: int| 0 <= j < v.len() implies b.deleted.contains((#[trigger] v[j])@) by {
            if j < w.len() {
                assert(w[j] == v[j]);
            }
        }
        assert forall|k: Seq<char>| #[trigger] b.deleted.contains(k) implies n.deleted.contains(k)
            || exists|j: int| 0 <= j < v.len() && (#[trigger] v[j])@ == k by {
            if k == v.last()@ {
                assert(v[v.len() - 1]@ == k);
            } else {
                assert(a.deleted.contains(k));
                if !n.deleted.contains(k) {
                    let j = choose|j: int| 0 <= j < w.len() && (#[trigger] w[j])@ == k;
                    assert(v[j]@ == k);
                }
            }
        }
    }
}

/// The net result of commands with the net result `later`, done after some with the net result
/// `n`.
spec fn followed_by(n: Net, later: Net) -> Net {
    Net {
        puts: n.puts.remove_keys(later.deleted).union_prefer_right(later.puts),
        deleted: n.deleted.difference(later.puts.dom()).union(later.deleted),
    }
}

proof fn lemma_net_from_net(n: Net, cs: Seq<CommandView>)
    ensures
        net_from(n, cs) == followed_by(n, net(cs)),
    decreases cs.len(),
{
    if cs.len() == 0 {
        assert(net_from(n, cs) =~= followed_by(n, net(cs)));
    } else {
        lemma_net_from_net(n, cs.drop_last());
        assert(net_from(n, cs) =~= followed_by(n, net(cs)));
    }
}

/// A snapshot can be made in pieces: snapshots of two runs of commands stand, one after the other,
/// for the two runs one after the other.
pub proof fn law_snapshots_join(
    a: Seq<CommandView>,
    b: Seq<CommandView>,
    first: KVSnapshot,
    second: KVSnapshot,
)
    requires
        net(first.commands()) == net(a),
        net(second.commands()) == net(b),
    ensures
        net(first.commands() + second.commands()) == net(a + b),
{
    lemma_net_from(a, b);
    lemma_net_from(first.commands(), second.commands());
    lemma_net_from_net(net(a), b);
    lemma_net_from_net(net(a), second.commands());
}

/// Lists of commands and of pairs stand for themselves, in their order.
pub proof fn law_lists_in_order(cs: Seq<KVCommand>, ps: Seq<(String, String)>, i: int)
    ensures
        commands(cs).len() == cs.len(),
        0 <= i < cs.len() ==> commands(cs)[i] == cs[i]@,
        pairs(ps).len() == ps.len(),
        0 <= i < ps.len() ==> pairs(ps)[i] == (ps[i].0@, ps[i].1@),
{
}

} // verus!
