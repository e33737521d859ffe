//! A node's registry of process names and its node-down watchers, the address
//! it advertises to peers, and the once-per-name warning for messages sent to
//! a name nobody holds. The locks, the processes and the log line belong to the
//! caller.

use vstd::prelude::*;
use std::collections::HashMap;
use std::collections::HashSet;
use vstd::std_specs::iter::IteratorSpec;
use crate::value::Symbol;

verus! {

broadcast use vstd::std_specs::hash::group_hash_axioms;

/// The most distinct names the dropped-message warning remembers.
pub const MAX_WARNED_NAMES: usize = 4096;

/// Local process names: each name bound to one local pid.
pub struct NameRegistry {
    pub names: HashMap<Symbol, u64>,
}

/// Per peer node, the local pids to tell when the link to it goes down.
pub struct NodeMonitors {
    pub watchers: HashMap<Symbol, Vec<u64>>,
}

/// The names of `m`, each once.
fn name_keys(m: &HashMap<Symbol, u64>) -> (r: Vec<Symbol>)
    ensures
        r@.to_set() == m@.dom(),
        r@.no_duplicates(),
{
    let mut keys: Vec<Symbol> = Vec::new();
    let ghost full: Seq<Symbol> = m.keys().remaining().unref();
    for k in it: m.keys()
        invariant
            full == m.keys().remaining().unref(),
            full.to_set() == m@.dom(),
            full.no_duplicates(),
            it.seq().unref() == full,
            keys@ == full.take(it.index() as int),
    {
        proof {
            assert(full.take(it.index() + 1) == full.take(it.index() as int).push(full[it.index() as int]));
        }
        keys.push(*k);
    }
    proof {
        assert(full.take(full.len() as int) == full);
    }
    keys
}

/// The watched node names of `m`, each once.
fn watched_keys(m: &HashMap<Symbol, Vec<u64>>) -> (r: Vec<Symbol>)
    ensures
        r@.to_set() == m@.dom(),
        r@.no_duplicates(),
{
    let mut keys: Vec<Symbol> = Vec::new();
    let ghost full: Seq<Symbol> = m.keys().remaining().unref();
    for k in it: m.keys()
        invariant
            full == m.keys().remaining().unref(),
            full.to_set() == m@.dom(),
            full.no_duplicates(),
            it.seq().unref() == full,
            keys@ == full.take(it.index() as int),
    {
        proof {
            assert(full.take(it.index() + 1) == full.take(it.index() as int).push(full[it.index() as int]));
        }
        keys.push(*k);
    }
    proof {
        assert(full.take(full.len() as int) == full);
    }
    keys
}

/// `s` without the occurrences of `pid`, in order.
pub open spec fn without_pid(s: Seq<u64>, pid: u64) -> Seq<u64> {
    s.filter(|w: u64| w != pid)
}

/// `m` with the bindings to `pid` dropped.
pub open spec fn names_without(m: Map<Symbol, u64>, pid: u64) -> Map<Symbol, u64> {
    Map::new(|n: Symbol| m.contains_key(n) && m[n] != pid, |n: Symbol| m[n])
}

/// The watcher table with `pid` dropped from every list and the emptied lists
/// dropped.
pub open spec fn watchers_without(m: Map<Symbol, Seq<u64>>, pid: u64) -> Map<Symbol, Seq<u64>> {
    Map::new(
        |n: Symbol| m.contains_key(n) && without_pid(m[n], pid).len() > 0,
        |n: Symbol| without_pid(m[n], pid),
    )
}

impl NodeMonitors {
    /// The watcher lists, as sequences.
    pub open spec fn view(&self) -> Map<Symbol, Seq<u64>> {
        Map::new(|n: Symbol| self.watchers@.contains_key(n), |n: Symbol| self.watchers@[n]@)
    }

    /// No watchers.
    pub fn new() -> (r: NodeMonitors)
        ensures
            r.view() == Map::<Symbol, Seq<u64>>::empty(),
    {
        let r = NodeMonitors { watchers: HashMap::new() };
        assert(r.view() =~= Map::<Symbol, Seq<u64>>::empty());
        r
    }
}

/// `v` without the occurrences of `pid`.
fn retain_not(v: &Vec<u64>, pid: u64) -> (r: Vec<u64>)
    ensures
        r@ == without_pid(v@, pid),
{
    let mut out: Vec<u64> = Vec::new();
    let mut i: usize = 0;
    proof {
        reveal(Seq::filter);
        assert(v@.take(0) =~= Seq::<u64>::empty());
    }
    while i < v.len()
        invariant
            i <= v@.len(),
            out@ == without_pid(v@.take(i as int), pid),
        decreases v@.len() - i,
    {
        proof {
            reveal(Seq::filter);
            assert(v@.take(i as int + 1) =~= v@.take(i as int).push(v@[i as int]));
            assert(v@.take(i as int).push(v@[i as int]).drop_last() =~= v@.take(i as int));
        }
        if v[i] != pid {
            out.push(v[i]);
        }
        i = i + 1;
    }
    proof {
        assert(v@.take(v@.len() as int) =~= v@);
    }
    out
}

impl NameRegistry {
    /// No names.
    pub fn new() -> (r: NameRegistry)
        ensures
            r.names@ == Map::<Symbol, u64>::empty(),
    {
        NameRegistry { names: HashMap::new() }
    }

    /// `(proc/register name pid)`: binds `name` to the local pid `id`.
    pub fn register(&mut self, name: Symbol, id: u64)
        ensures
            final(self).names@ == old(self).names@.insert(name, id),
    {
        self.names.insert(name, id);
    }

    /// `(proc/whereis name)`: the pid registered under `name`.
    pub fn whereis(&self, name: Symbol) -> (r: Option<u64>)
        ensures
            r == (if self.names@.contains_key(name) {
                Some(self.names@[name])
            } else {
                None
            }),
    {
        match self.names.get(&name) {
            Some(p) => Some(*p),
            None => None,
        }
    }

    /// `(proc/unregister name)`: drops `name`'s binding; says whether there was one.
    pub fn unregister(&mut self, name: Symbol) -> (r: bool)
        ensures
            r == old(self).names@.contains_key(name),
            final(self).names@ == old(self).names@.remove(name),
    {
        self.names.remove(&name).is_some()
    }

    /// A name `pid` is registered under, if any (which one, when there are several,
    /// depends on the table's order).
    pub fn name_for_pid(&self, pid: u64) -> (r: Option<Symbol>)
        ensures
            r matches Some(n) ==> self.names@.contains_key(n) && self.names@[n] == pid,
            r is None <==> forall|n: Symbol| #[trigger] self.names@.contains_key(n) ==> self.names@[n] != pid,
    {
        let keys = name_keys(&self.names);
        let mut i: usize = 0;
        while i < keys.len()
            invariant
                i <= keys@.len(),
                keys@.to_set() == self.names@.dom(),
                forall|j: int| 0 <= j < i ==> self.names@[#[trigger] keys@[j]] != pid,
            decreases keys@.len() - i,
        {
            let n = keys[i];
            proof {
                assert(keys@.to_set().contains(n));
            }
            match self.names.get(&n) {
                Some(p) => {
                    if *p == pid {
                        return Some(n);
                    }
                },
                None => {},
            }
            i = i + 1;
        }
        proof {
            assert forall|n: Symbol| #[trigger] self.names@.contains_key(n) implies self.names@[n] != pid by {
                assert(keys@.to_set().contains(n));
                let j = choose|j: int| 0 <= j < keys@.len() && keys@[j] == n;
            }
        }
        None
    }

    /// The named-spawn check: when `name` is registered to a pid the caller found
    /// alive, that pid (nothing changes); otherwise the stale binding, if any, is
    /// dropped and `None` tells the caller to spawn and register a fresh process.
    pub fn claim(&mut self, name: Symbol, existing_alive: bool) -> (r: Option<u64>)
        ensures
            old(self).names@.contains_key(name) && existing_alive ==> r == Some(old(self).names@[name])
                && final(self).names@ == old(self).names@,
            !(old(self).names@.contains_key(name) && existing_alive) ==> r is None
                && final(self).names@ == old(self).names@.remove(name),
    {
        match self.names.get(&name) {
            Some(p) => {
                if existing_alive {
                    return Some(*p);
                }
            },
            None => {
                proof {
                    assert(self.names@.remove(name) =~= self.names@);
                }
                return None;
            },
        }
        self.names.remove(&name);
        None
    }
}

/// A dead process leaves no trace: every name bound to `pid` is dropped, and
/// `pid` leaves every node-down watcher list, an emptied list going with it.
pub fn unregister_dead_pid(reg: &mut NameRegistry, mon: &mut NodeMonitors, pid: u64)
    ensures
        final(reg).names@ == names_without(old(reg).names@, pid),
        final(mon).view() == watchers_without(old(mon).view(), pid),
{
    let keys = name_keys(&reg.names);
    let ghost m0 = reg.names@;
    let mut i: usize = 0;
    while i < keys.len()
        invariant
            i <= keys@.len(),
            keys@.to_set() == m0.dom(),
            keys@.no_duplicates(),
            reg.names@ == Map::new(
                |x: Symbol| m0.contains_key(x) && (m0[x] != pid || !keys@.take(i as int).contains(x)),
                |x: Symbol| m0[x],
            ),
        decreases keys@.len() - i,
    {
        let n = keys[i];
        let ghost before = reg.names@;
        match reg.names.get(&n) {
            Some(p) => {
                if *p == pid {
                    reg.names.remove(&n);
                }
            },
            None => {},
        }
        proof {
            assert(keys@.take(i as int + 1) =~= keys@.take(i as int).push(n));
            assert(keys@.to_set().contains(n));
            assert(!keys@.take(i as int).contains(n)) by {
                if keys@.take(i as int).contains(n) {
                    let j = choose|j: int| 0 <= j < i && keys@.take(i as int)[j] == n;
                    assert(keys@[j] == keys@[i as int]);
                }
            }
            let target = Map::new(
                |x: Symbol| m0.contains_key(x) && (m0[x] != pid || !keys@.take(i as int + 1).contains(x)),
                |x: Symbol| m0[x],
            );
            let t0 = keys@.take(i as int);
            let t1 = keys@.take(i as int + 1);
            assert forall|x: Symbol| x != n implies (t1.contains(x) <==> t0.contains(x)) by {
                if t1.contains(x) {
                    let j = choose|j: int| 0 <= j < t1.len() && t1[j] == x;
                    assert(j != i);
                    assert(t0[j] == x);
                }
                if t0.contains(x) {
                    let j = choose|j: int| 0 <= j < t0.len() && t0[j] == x;
                    assert(t1[j] == x);
                }
            }
            assert(keys@.take(i as int + 1)[i as int] == n);
            assert(reg.names@ =~= target);
        }
        i = i + 1;
    }
    proof {
        assert(keys@.take(keys@.len() as int) =~= keys@);
        assert forall|x: Symbol| #[trigger] m0.contains_key(x) implies keys@.contains(x) by {
            assert(keys@.to_set().contains(x));
        }
        assert(reg.names@ =~= names_without(m0, pid));
    }
    let wkeys = watched_keys(&mon.watchers);
    let ghost w0 = mon.view();
    let mut k: usize = 0;
    proof {
        assert(wkeys@.take(0) =~= Seq::<Symbol>::empty());
        assert(mon.view() =~= Map::new(
            |n: Symbol| w0.contains_key(n) && (!wkeys@.take(0).contains(n) || without_pid(w0[n], pid).len() > 0),
            |n: Symbol| if wkeys@.take(0).contains(n) { without_pid(w0[n], pid) } else { w0[n] },
        ));
    }
    while k < wkeys.len()
        invariant
            k <= wkeys@.len(),
            wkeys@.to_set() == w0.dom(),
            wkeys@.no_duplicates(),
            mon.view() == Map::new(
                |n: Symbol| w0.contains_key(n) && (!wkeys@.take(k as int).contains(n) || without_pid(w0[n], pid).len() > 0),
                |n: Symbol| if wkeys@.take(k as int).contains(n) { without_pid(w0[n], pid) } else { w0[n] },
            ),
        decreases wkeys@.len() - k,
    {
        let n = wkeys[k];
        let ghost before = mon.view();
        proof {
            assert(wkeys@.to_set().contains(n));
            assert(!wkeys@.take(k as int).contains(n)) by {
                if wkeys@.take(k as int).contains(n) {
                    let j = choose|j: int| 0 <= j < k && wkeys@.take(k as int)[j] == n;
                    assert(wkeys@[j] == wkeys@[k as int]);
                }
            }
            assert(before.contains_key(n));
            assert(before[n] == w0[n]);
        }
        match mon.watchers.remove(&n) {
            Some(list) => {
                let kept = retain_not(&list, pid);
                proof {
                    assert(list@ == w0[n]);
                }
                if kept.len() > 0 {
                    let ghost kv = kept@;
                    mon.watchers.insert(n, kept);
                    proof {
                        assert(mon.view() =~= before.insert(n, kv));
                    }
                } else {
                    proof {
                        assert(mon.view() =~= before.remove(n));
                    }
                }
            },
            None => {
                proof {
                    assert(false);
                }
            },
        }
        proof {
            assert(wkeys@.take(k as int + 1) =~= wkeys@.take(k as int).push(n));
            let t0 = wkeys@.take(k as int);
            let t1 = wkeys@.take(k as int + 1);
            assert forall|x: Symbol| x != n implies (t1.contains(x) <==> t0.contains(x)) by {
                if t1.contains(x) {
                    let j = choose|j: int| 0 <= j < t1.len() && t1[j] == x;
                    assert(j != k);
                    assert(t0[j] == x);
                }
                if t0.contains(x) {
                    let j = choose|j: int| 0 <= j < t0.len() && t0[j] == x;
                    assert(t1[j] == x);
                }
            }
            assert(wkeys@.take(k as int + 1)[k as int] == n);
            assert(mon.view() =~= Map::new(
                |x: Symbol| w0.contains_key(x) && (!wkeys@.take(k as int + 1).contains(x) || without_pid(w0[x], pid).len() > 0),
                |x: Symbol| if wkeys@.take(k as int + 1).contains(x) { without_pid(w0[x], pid) } else { w0[x] },
            ));
        }
        k = k + 1;
    }
    proof {
        assert(wkeys@.take(wkeys@.len() as int) =~= wkeys@);
        assert forall|x: Symbol| #[trigger] w0.contains_key(x) implies wkeys@.contains(x) by {
            assert(wkeys@.to_set().contains(x));
        }
        assert(mon.view() =~= watchers_without(w0, pid));
    }
}

/// `(monitor-node name pid)`, the registration: `pid` joins `name`'s watchers
/// (once). Returns whether to deliver the node-down at once as well: the node is
/// not this one and no link to it is up.
pub fn monitor_node(mon: &mut NodeMonitors, name: Symbol, pid: u64, is_local: bool, connected: bool) -> (r: bool)
    ensures
        r == (!is_local && !connected),
        final(mon).view() == old(mon).view().insert(
            name,
            if old(mon).view().contains_key(name) {
                if old(mon).view()[name].contains(pid) {
                    old(mon).view()[name]
                } else {
                    old(mon).view()[name].push(pid)
                }
            } else {
                seq![pid]
            },
        ),
{
    let ghost w0 = mon.view();
    let mut list = match mon.watchers.remove(&name) {
        Some(l) => l,
        None => Vec::new(),
    };
    let mut present = false;
    let mut i: usize = 0;
    while i < list.len()
        invariant
            i <= list@.len(),
            present == list@.take(i as int).contains(pid),
        decreases list@.len() - i,
    {
        let ghost was = present;
        if list[i] == pid {
            present = true;
        }
        proof {
            let t0 = list@.take(i as int);
            let t1 = list@.take(i as int + 1);
            assert(t1 =~= t0.push(list@[i as int]));
            if t1.contains(pid) && !t0.contains(pid) {
                let j = choose|j: int| 0 <= j < t1.len() && t1[j] == pid;
                if j < i {
                    assert(t0[j] == pid);
                }
            }
            if t0.contains(pid) {
                let j = choose|j: int| 0 <= j < t0.len() && t0[j] == pid;
                assert(t1[j] == pid);
            }
            if list@[i as int] == pid {
                assert(t1[i as int] == pid);
            }
        }
        i = i + 1;
    }
    proof {
        assert(list@.take(list@.len() as int) =~= list@);
    }
    if !present {
        list.push(pid);
    }
    mon.watchers.insert(name, list);
    proof {
        if !w0.contains_key(name) {
            assert(list@ =~= seq![pid]);
        }
        assert(mon.view() =~= w0.insert(name, list@));
    }
    !is_local && !connected
}

/// Cancels `pid`'s node monitor for `name`; an emptied watcher list goes.
pub fn demonitor_node(mon: &mut NodeMonitors, name: Symbol, pid: u64)
    ensures
        old(mon).view().contains_key(name) && without_pid(old(mon).view()[name], pid).len() > 0
            ==> final(mon).view() == old(mon).view().insert(name, without_pid(old(mon).view()[name], pid)),
        old(mon).view().contains_key(name) && without_pid(old(mon).view()[name], pid).len() == 0
            ==> final(mon).view() == old(mon).view().remove(name),
        !old(mon).view().contains_key(name) ==> final(mon).view() == old(mon).view(),
{
    let ghost w0 = mon.view();
    match mon.watchers.remove(&name) {
        Some(list) => {
            let kept = retain_not(&list, pid);
            if kept.len() > 0 {
                mon.watchers.insert(name, kept);
                proof {
                    assert(mon.view() =~= w0.insert(name, without_pid(w0[name], pid)));
                }
            } else {
                proof {
                    assert(mon.view() =~= w0.remove(name));
                }
            }
        },
        None => {
            proof {
                assert(mon.view() =~= w0);
            }
        },
    }
}

/// Does `s` begin with `tcp:`?
pub open spec fn is_tcp(s: Seq<char>) -> bool {
    s.len() >= 4 && s[0] == 't' && s[1] == 'c' && s[2] == 'p' && s[3] == ':'
}

fn starts_with_tcp(s: &str) -> (r: bool)
    ensures
        r == is_tcp(s@),
{
    let n = s.unicode_len();
    n >= 4 && s.get_char(0) == 't' && s.get_char(1) == 'c' && s.get_char(2) == 'p' && s.get_char(3)
        == ':'
}

/// The address a peer should dial to reach this node: the first TCP listener,
/// else the first listener, else the empty string.
pub fn advertised_addr(addrs: &[String]) -> (r: String)
    ensures
        (exists|i: int| 0 <= i < addrs@.len() && is_tcp(#[trigger] addrs@[i]@)) ==> {
            let i = choose|i: int|
                0 <= i < addrs@.len() && is_tcp(#[trigger] addrs@[i]@) && forall|j: int|
                    0 <= j < i ==> !is_tcp(#[trigger] addrs@[j]@);
            r@ == addrs@[i]@
        },
        !(exists|i: int| 0 <= i < addrs@.len() && is_tcp(#[trigger] addrs@[i]@)) ==> (if addrs@.len() > 0 {
            r@ == addrs@[0]@
        } else {
            r@ == Seq::<char>::empty()
        }),
{
    let mut i: usize = 0;
    while i < addrs.len()
        invariant
            i <= addrs@.len(),
            forall|j: int| 0 <= j < i ==> !is_tcp(#[trigger] addrs@[j]@),
        decreases addrs@.len() - i,
    {
        if starts_with_tcp(addrs[i].as_str()) {
            proof {
                let c = choose|c: int|
                    0 <= c < addrs@.len() && is_tcp(#[trigger] addrs@[c]@) && forall|j: int|
                        0 <= j < c ==> !is_tcp(#[trigger] addrs@[j]@);
                if c < i {
                } else if c > i {
                    assert(!is_tcp(addrs@[i as int]@));
                }
                assert(c == i);
            }
            return addrs[i].clone();
        }
        i = i + 1;
    }
    if addrs.len() > 0 {
        addrs[0].clone()
    } else {
        String::new()
    }
}

/// The names a dropped-message warning has already been given for.
pub struct DropWarnings {
    pub seen: HashSet<Symbol>,
}

impl DropWarnings {
    /// Nothing warned yet.
    pub fn new() -> (r: DropWarnings)
        ensures
            r.seen@ == Set::<Symbol>::empty(),
    {
        DropWarnings { seen: HashSet::new() }
    }
}

/// Whether to warn that a message for the unregistered `name` was dropped: once
/// per name, and every time once [`MAX_WARNED_NAMES`] names are remembered (the
/// set stops growing rather than let a peer grow it without bound).
pub fn note_dropped(w: &mut DropWarnings, name: Symbol) -> (warn: bool)
    ensures
        old(w).seen@.len() >= MAX_WARNED_NAMES && !old(w).seen@.contains(name) ==> warn
            && final(w).seen@ == old(w).seen@,
        !(old(w).seen@.len() >= MAX_WARNED_NAMES && !old(w).seen@.contains(name)) ==> warn
            == !old(w).seen@.contains(name) && final(w).seen@ == old(w).seen@.insert(name),
{
    if w.seen.len() >= MAX_WARNED_NAMES && !w.seen.contains(&name) {
        return true;
    }
    w.seen.insert(name)
}

} // verus!
