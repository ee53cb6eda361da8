//! The channel controller: the routing tables of the gateway and every
//! operation that touches them.
//!
//! Three tables live here: channels (name to member agent ids), agents
//! (agent id to its bus) and connections (connection id to its bus).  Agent
//! ids have the shape `conn:channel:join_ref`, so a connection's agents are
//! exactly the ids prefixed by `conn:`, and tearing a connection down purges
//! them from every table without back-pointers.

use vstd::prelude::*;

use crate::bus::{Bus, ChannelMessage, RecvOutcome};
use crate::codec::str_eq;
use crate::json::str_to_chars;

verus! {

/// Why a controller operation failed.
#[derive(Clone, Copy, PartialEq, Eq, Debug)]
pub enum ChannelError {
    ChannelNotFound,
    AgentNotFound,
    ConnectionNotFound,
}

/// First-match lookup in an association list keyed by strings.
pub open spec fn assoc_lookup<V>(s: Seq<(String, V)>, k: Seq<char>) -> Option<V>
    decreases s.len(),
{
    if s.len() == 0 {
        None
    } else if s[0].0@ == k {
        Some(s[0].1)
    } else {
        assoc_lookup(s.drop_first(), k)
    }
}

/// No two entries share a key.
pub open spec fn uniq_keys<V>(s: Seq<(String, V)>) -> bool {
    forall|i: int, j: int| 0 <= i < j < s.len() ==> s[i].0@ != s[j].0@
}

/// The views of a list of strings.
pub open spec fn str_views(s: Seq<String>) -> Seq<Seq<char>> {
    Seq::new(s.len(), |i: int| s[i]@)
}

/// No two strings in the list are equal.
pub open spec fn uniq_strs(s: Seq<String>) -> bool {
    forall|i: int, j: int| 0 <= i < j < s.len() ==> s[i]@ != s[j]@
}

/// Agent `a` belongs to connection `conn`: its id starts with `conn:`.
pub open spec fn owned_by(a: Seq<char>, conn: Seq<char>) -> bool {
    a.len() > conn.len() && a.take(conn.len() as int + 1) == conn + seq![':']
}

proof fn lemma_assoc_none<V>(s: Seq<(String, V)>, k: Seq<char>)
    ensures
        (assoc_lookup(s, k) is None) <==> (forall|i: int|
            0 <= i < s.len() ==> (#[trigger] s[i].0)@ != k),
    decreases s.len(),
{
    if s.len() > 0 {
        lemma_assoc_none(s.drop_first(), k);
        if s[0].0@ != k {
            if assoc_lookup(s, k) is None {
                assert forall|i: int| 0 <= i < s.len() implies (#[trigger] s[i].0)@ != k by {
                    if i > 0 {
                        assert(s.drop_first()[i - 1] == s[i]);
                    }
                }
            }
            if forall|i: int| 0 <= i < s.len() ==> (#[trigger] s[i].0)@ != k {
                assert forall|i: int| 0 <= i < s.drop_first().len() implies (
                #[trigger] s.drop_first()[i].0)@ != k by {
                    assert(s.drop_first()[i] == s[i + 1]);
                }
            }
        }
    }
}

proof fn lemma_assoc_push<V>(s: Seq<(String, V)>, kv: (String, V), k2: Seq<char>)
    ensures
        assoc_lookup(s.push(kv), k2) == match assoc_lookup(s, k2) {
            Some(v) => Some(v),
            None => if kv.0@ == k2 {
                Some(kv.1)
            } else {
                None
            },
        },
    decreases s.len(),
{
    reveal_with_fuel(assoc_lookup, 3);
    if s.len() == 0 {
        assert(s.push(kv) =~= seq![kv]);
    } else {
        assert(s.push(kv)[0] == s[0]);
        assert(s.push(kv).drop_first() =~= s.drop_first().push(kv));
        lemma_assoc_push(s.drop_first(), kv, k2);
    }
}

proof fn lemma_assoc_update<V>(s: Seq<(String, V)>, i: int, v2: V, k2: Seq<char>)
    requires
        0 <= i < s.len(),
        forall|j: int| 0 <= j < i ==> (#[trigger] s[j].0)@ != s[i].0@,
    ensures
        assoc_lookup(s.update(i, (s[i].0, v2)), k2) == if s[i].0@ == k2 {
            Some(v2)
        } else {
            assoc_lookup(s, k2)
        },
    decreases i,
{
    reveal_with_fuel(assoc_lookup, 3);
    let t = s.update(i, (s[i].0, v2));
    if i == 0 {
        assert(t[0] == (s[0].0, v2));
        assert(t.drop_first() =~= s.drop_first());
    } else {
        assert(t[0] == s[0]);
        assert(t.drop_first() =~= s.drop_first().update(i - 1, (s.drop_first()[i - 1].0, v2)));
        lemma_assoc_update(s.drop_first(), i - 1, v2, k2);
    }
}

proof fn lemma_assoc_remove<V>(s: Seq<(String, V)>, i: int, k2: Seq<char>)
    requires
        0 <= i < s.len(),
        uniq_keys(s),
    ensures
        assoc_lookup(s.remove(i), k2) == if s[i].0@ == k2 {
            None
        } else {
            assoc_lookup(s, k2)
        },
    decreases i,
{
    reveal_with_fuel(assoc_lookup, 3);
    let t = s.remove(i);
    if i == 0 {
        assert(t =~= s.drop_first());
        if s[0].0@ == k2 {
            lemma_assoc_none(s.drop_first(), k2);
            assert forall|j: int| 0 <= j < s.drop_first().len() implies (#[trigger] s.drop_first()[
                j
            ].0)@ != k2 by {
                assert(s.drop_first()[j] == s[j + 1]);
            }
        }
    } else {
        assert(t[0] == s[0]);
        assert(t.drop_first() =~= s.drop_first().remove(i - 1));
        lemma_assoc_remove(s.drop_first(), i - 1, k2);
    }
}

proof fn lemma_assoc_some<V>(s: Seq<(String, V)>, k: Seq<char>)
    ensures
        match assoc_lookup(s, k) {
            Some(v) => exists|i: int|
                0 <= i < s.len() && (#[trigger] s[i].0)@ == k && s[i].1 == v,
            None => true,
        },
    decreases s.len(),
{
    if s.len() > 0 {
        if s[0].0@ == k {
            assert(s[0].0@ == k && s[0].1 == assoc_lookup(s, k)->Some_0);
        } else {
            lemma_assoc_some(s.drop_first(), k);
            if assoc_lookup(s, k) is Some {
                let v = assoc_lookup(s, k)->Some_0;
                let i = choose|i: int|
                    0 <= i < s.drop_first().len() && (#[trigger] s.drop_first()[i].0)@ == k
                        && s.drop_first()[i].1 == v;
                assert(s[i + 1].0@ == k && s[i + 1].1 == v);
            }
        }
    }
}

/// With unique keys, the entry at an index is what lookup finds for its key.
proof fn lemma_assoc_first_match<V>(s: Seq<(String, V)>, i: int)
    requires
        0 <= i < s.len(),
        uniq_keys(s),
    ensures
        assoc_lookup(s, s[i].0@) == Some(s[i].1),
    decreases i,
{
    if i > 0 {
        assert(s[0].0@ != s[i].0@);
        assert(s.drop_first()[i - 1] == s[i]);
        assert forall|p: int, q: int|
            0 <= p < q < s.drop_first().len() implies (#[trigger] s.drop_first()[p].0)@ != (
        #[trigger] s.drop_first()[q].0)@ by {
            assert(s.drop_first()[p] == s[p + 1] && s.drop_first()[q] == s[q + 1]);
        }
        lemma_assoc_first_match(s.drop_first(), i - 1);
    }
}

/// Lookups in two association lists with equal keys, entry by entry, relate
/// by whatever relation the values satisfy entry by entry.
proof fn lemma_assoc_pointwise<V>(
    s1: Seq<(String, V)>,
    s2: Seq<(String, V)>,
    k: Seq<char>,
    rel: spec_fn(V, V) -> bool,
)
    requires
        s1.len() == s2.len(),
        forall|i: int| 0 <= i < s1.len() ==> (#[trigger] s1[i].0)@ == s2[i].0@ && rel(
            s1[i].1,
            s2[i].1,
        ),
    ensures
        match (assoc_lookup(s1, k), assoc_lookup(s2, k)) {
            (None, None) => true,
            (Some(v1), Some(v2)) => rel(v1, v2),
            _ => false,
        },
    decreases s1.len(),
{
    if s1.len() > 0 {
        assert(s1[0].0@ == s2[0].0@ && rel(s1[0].1, s2[0].1));
        assert forall|i: int| 0 <= i < s1.drop_first().len() implies (#[trigger] s1.drop_first()[
            i
        ].0)@ == s2.drop_first()[i].0@ && rel(s1.drop_first()[i].1, s2.drop_first()[i].1) by {
            assert(s1.drop_first()[i] == s1[i + 1] && s2.drop_first()[i] == s2[i + 1]);
        }
        lemma_assoc_pointwise(s1.drop_first(), s2.drop_first(), k, rel);
    }
}

/// Find an entry by key; `Some` holds its index.
fn assoc_find<V>(s: &Vec<(String, V)>, k: &str) -> (r: Option<usize>)
    ensures
        match r {
            Some(i) => i < s@.len() && s@[i as int].0@ == k@ && assoc_lookup(s@, k@) == Some(
                s@[i as int].1,
            ),
            None => assoc_lookup(s@, k@) is None,
        },
{
    assert(s@.skip(0) =~= s@);
    let mut i: usize = 0;
    loop
        invariant
            i <= s@.len(),
            assoc_lookup(s@, k@) == assoc_lookup(s@.skip(i as int), k@),
        decreases s@.len() - i,
    {
        let ghost tail = s@.skip(i as int);
        if i == s.len() {
            assert(tail =~= Seq::<(String, V)>::empty());
            return None;
        }
        assert(tail[0] == s@[i as int]);
        assert(tail.drop_first() =~= s@.skip(i as int + 1));
        if str_eq(s[i].0.as_str(), k) {
            return Some(i);
        }
        i = i + 1;
    }
}

/// Whether the list holds this exact string.
fn vec_contains_str(v: &Vec<String>, s: &str) -> (r: bool)
    ensures
        r == str_views(v@).contains(s@),
{
    let mut i: usize = 0;
    loop
        invariant
            i <= v@.len(),
            forall|k: int| 0 <= k < i ==> (#[trigger] v@[k])@ != s@,
        decreases v@.len() - i,
    {
        if i == v.len() {
            assert(!str_views(v@).contains(s@)) by {
                if str_views(v@).contains(s@) {
                    let j = choose|j: int| 0 <= j < str_views(v@).len() && str_views(v@)[j] == s@;
                    assert(v@[j]@ == s@);
                }
            }
            return false;
        }
        if str_eq(v[i].as_str(), s) {
            assert(str_views(v@)[i as int] == s@);
            return true;
        }
        i = i + 1;
    }
}

/// Whether `agent` is owned by connection `conn`: `agent` starts `conn:`.
fn is_owned_by(agent: &str, conn: &str) -> (r: bool)
    ensures
        r == owned_by(agent@, conn@),
{
    let ca = str_to_chars(agent);
    let cc = str_to_chars(conn);
    if ca.len() <= cc.len() {
        return false;
    }
    if ca[cc.len()] != ':' {
        assert(!owned_by(agent@, conn@)) by {
            if owned_by(agent@, conn@) {
                assert(agent@.take(conn@.len() as int + 1)[conn@.len() as int] == (conn@ + seq![':'])[conn@.len() as int]);
            }
        }
        return false;
    }
    let mut i: usize = 0;
    while i < cc.len()
        invariant
            i <= cc@.len(),
            ca@ == agent@,
            cc@ == conn@,
            ca@.len() > cc@.len(),
            ca@[cc@.len() as int] == ':',
            forall|k: int| 0 <= k < i ==> ca@[k] == cc@[k],
        decreases cc@.len() - i,
    {
        if ca[i] != cc[i] {
            assert(!owned_by(agent@, conn@)) by {
                if owned_by(agent@, conn@) {
                    assert(agent@.take(conn@.len() as int + 1)[i as int] == (conn@ + seq![':'])[i as int]);
                }
            }
            return false;
        }
        i = i + 1;
    }
    assert(agent@.take(conn@.len() as int + 1) =~= conn@ + seq![':']);
    true
}

/// The member list with every agent of the given connection removed,
/// order otherwise kept.
pub open spec fn without_owned(s: Seq<Seq<char>>, conn: Seq<char>) -> Seq<Seq<char>>
    decreases s.len(),
{
    if s.len() == 0 {
        s
    } else if owned_by(s[0], conn) {
        without_owned(s.drop_first(), conn)
    } else {
        seq![s[0]] + without_owned(s.drop_first(), conn)
    }
}

/// Purging a connection leaves no member it owned.
pub proof fn lemma_without_owned_clean(s: Seq<Seq<char>>, conn: Seq<char>, a: Seq<char>)
    requires
        owned_by(a, conn),
    ensures
        !without_owned(s, conn).contains(a),
    decreases s.len(),
{
    if s.len() > 0 {
        lemma_without_owned_clean(s.drop_first(), conn, a);
        if !owned_by(s[0], conn) {
            let w = seq![s[0]] + without_owned(s.drop_first(), conn);
            assert forall|i: int| 0 <= i < w.len() implies w[i] != a by {
                if i > 0 {
                    assert(w[i] == without_owned(s.drop_first(), conn)[i - 1]);
                    assert(without_owned(s.drop_first(), conn).contains(w[i])) by {
                        assert(without_owned(s.drop_first(), conn)[i - 1] == w[i]);
                    }
                }
            }
        }
    }
}

/// A member the connection does not own stays, and nothing new appears.
pub proof fn lemma_without_owned_keeps(s: Seq<Seq<char>>, conn: Seq<char>, a: Seq<char>)
    requires
        !owned_by(a, conn),
    ensures
        without_owned(s, conn).contains(a) == s.contains(a),
    decreases s.len(),
{
    if s.len() > 0 {
        lemma_without_owned_keeps(s.drop_first(), conn, a);
        let tail = without_owned(s.drop_first(), conn);
        if owned_by(s[0], conn) {
            if s.contains(a) {
                let j = choose|j: int| 0 <= j < s.len() && s[j] == a;
                assert(j != 0);
                assert(s.drop_first()[j - 1] == a);
                assert(s.drop_first().contains(a));
            }
            if s.drop_first().contains(a) {
                let j = choose|j: int| 0 <= j < s.drop_first().len() && s.drop_first()[j] == a;
                assert(s[j + 1] == a);
            }
        } else {
            let w = seq![s[0]] + tail;
            if s.contains(a) {
                let j = choose|j: int| 0 <= j < s.len() && s[j] == a;
                if j == 0 {
                    assert(w[0] == a);
                } else {
                    assert(s.drop_first()[j - 1] == a);
                    assert(s.drop_first().contains(a));
                    let k = choose|k: int| 0 <= k < tail.len() && tail[k] == a;
                    assert(w[k + 1] == a);
                }
            }
            if w.contains(a) {
                let j = choose|j: int| 0 <= j < w.len() && w[j] == a;
                if j == 0 {
                    assert(s[0] == a);
                } else {
                    assert(tail[j - 1] == a);
                    assert(tail.contains(a));
                    let k = choose|k: int| 0 <= k < s.drop_first().len() && s.drop_first()[k] == a;
                    assert(s[k + 1] == a);
                }
            }
        }
    }
}

/// The member list after one agent leaves: the first occurrence is removed,
/// order otherwise kept; absent agents leave the list unchanged.
pub open spec fn remove_first(s: Seq<Seq<char>>, x: Seq<char>) -> Seq<Seq<char>>
    decreases s.len(),
{
    if s.len() == 0 {
        s
    } else if s[0] == x {
        s.drop_first()
    } else {
        seq![s[0]] + remove_first(s.drop_first(), x)
    }
}

/// Removing at the first index holding `x` is `remove_first`.
proof fn lemma_remove_first_at(s: Seq<String>, j: int, x: Seq<char>)
    requires
        0 <= j < s.len(),
        s[j]@ == x,
        forall|k: int| 0 <= k < j ==> (#[trigger] s[k])@ != x,
    ensures
        str_views(s.remove(j)) == remove_first(str_views(s), x),
    decreases j,
{
    reveal_with_fuel(remove_first, 2);
    if j == 0 {
        assert(str_views(s)[0] == x);
        assert(str_views(s.remove(0)) =~= str_views(s).drop_first());
    } else {
        assert(str_views(s)[0] != x);
        assert forall|k: int| 0 <= k < s.drop_first().len() && k < j - 1 implies (
        #[trigger] s.drop_first()[k])@ != x by {
            assert(s.drop_first()[k] == s[k + 1]);
        }
        assert(s.drop_first()[j - 1] == s[j]);
        lemma_remove_first_at(s.drop_first(), j - 1, x);
        assert(str_views(s.drop_first()) =~= str_views(s).drop_first());
        assert(str_views(s.remove(j)) =~= seq![str_views(s)[0]] + str_views(s.drop_first().remove(j - 1)));
        assert(s.remove(j).drop_first() =~= s.drop_first().remove(j - 1));
    }
}

/// Removing a member the connection owns does not change the purged list.
proof fn lemma_without_owned_remove(s: Seq<Seq<char>>, j: int, conn: Seq<char>)
    requires
        0 <= j < s.len(),
        owned_by(s[j], conn),
    ensures
        without_owned(s.remove(j), conn) == without_owned(s, conn),
    decreases j,
{
    reveal_with_fuel(without_owned, 2);
    if j == 0 {
        assert(s.remove(0) =~= s.drop_first());
    } else {
        assert(s.remove(j)[0] == s[0]);
        assert(s.remove(j).drop_first() =~= s.drop_first().remove(j - 1));
        assert(s.drop_first()[j - 1] == s[j]);
        lemma_without_owned_remove(s.drop_first(), j - 1, conn);
    }
}

/// A list with no owned member is already purged.
proof fn lemma_without_owned_clean_id(s: Seq<Seq<char>>, conn: Seq<char>)
    requires
        forall|q: int| 0 <= q < s.len() ==> !owned_by(#[trigger] s[q], conn),
    ensures
        without_owned(s, conn) == s,
    decreases s.len(),
{
    if s.len() > 0 {
        assert forall|q: int| 0 <= q < s.drop_first().len() implies !owned_by(
            #[trigger] s.drop_first()[q],
            conn,
        ) by {
            assert(s.drop_first()[q] == s[q + 1]);
        }
        lemma_without_owned_clean_id(s.drop_first(), conn);
        assert(seq![s[0]] + s.drop_first() =~= s);
    }
}

/// How many of these members have a live bus in the controller.
pub open spec fn live_count(c: &ChannelControl, members: Seq<Seq<char>>) -> int
    decreases members.len(),
{
    if members.len() == 0 {
        0int
    } else {
        (if c.has_agent(members[0]) {
            1int
        } else {
            0int
        }) + live_count(c, members.drop_first())
    }
}

proof fn lemma_live_count_push(c: &ChannelControl, members: Seq<Seq<char>>, x: Seq<char>)
    ensures
        live_count(c, members.push(x)) == live_count(c, members) + (if c.has_agent(x) {
            1int
        } else {
            0int
        }),
        live_count(c, members) >= 0,
    decreases members.len(),
{
    reveal_with_fuel(live_count, 3);
    if members.len() == 0 {
        assert(members.push(x) =~= seq![x]);
    } else {
        assert(members.push(x)[0] == members[0]);
        assert(members.push(x).drop_first() =~= members.drop_first().push(x));
        lemma_live_count_push(c, members.drop_first(), x);
    }
}

/// A copy of a list of strings, text for text.
fn clone_strings(v: &Vec<String>) -> (r: Vec<String>)
    ensures
        r@ == v@,
{
    let mut r: Vec<String> = Vec::new();
    let mut i: usize = 0;
    while i < v.len()
        invariant
            i <= v@.len(),
            r@ == v@.take(i as int),
        decreases v@.len() - i,
    {
        r.push(v[i].clone());
        assert(v@.take(i as int).push(v@[i as int]) =~= v@.take(i as int + 1));
        i = i + 1;
    }
    assert(v@.take(v@.len() as int) =~= v@);
    r
}

/// The routing tables: channels, agents and connections, each keyed by its
/// id, every bus bounded by the same capacity.
pub struct ChannelControl {
    channels: Vec<(String, Vec<String>)>,
    agents: Vec<(String, Bus)>,
    conns: Vec<(String, Bus)>,
    cap: usize,
}

impl ChannelControl {
    pub closed spec fn has_channel(&self, name: Seq<char>) -> bool {
        assoc_lookup(self.channels@, name) is Some
    }

    /// The ids of the agents in a channel, join order kept; empty for an
    /// unknown channel.
    pub closed spec fn channel_agents(&self, name: Seq<char>) -> Seq<Seq<char>> {
        match assoc_lookup(self.channels@, name) {
            Some(v) => str_views(v@),
            None => Seq::empty(),
        }
    }

    pub closed spec fn has_agent(&self, id: Seq<char>) -> bool {
        assoc_lookup(self.agents@, id) is Some
    }

    /// Everything ever sent on an agent's bus; empty for an unknown agent.
    pub closed spec fn agent_history(&self, id: Seq<char>) -> Seq<ChannelMessage> {
        match assoc_lookup(self.agents@, id) {
            Some(b) => b.history(),
            None => Seq::empty(),
        }
    }

    pub closed spec fn has_conn(&self, id: Seq<char>) -> bool {
        assoc_lookup(self.conns@, id) is Some
    }

    /// Everything ever sent on a connection's bus; empty for an unknown one.
    pub closed spec fn conn_history(&self, id: Seq<char>) -> Seq<ChannelMessage> {
        match assoc_lookup(self.conns@, id) {
            Some(b) => b.history(),
            None => Seq::empty(),
        }
    }

    pub closed spec fn wf(&self) -> bool {
        &&& self.cap >= 1
        &&& uniq_keys(self.channels@)
        &&& uniq_keys(self.agents@)
        &&& uniq_keys(self.conns@)
        &&& forall|i: int|
            0 <= i < self.agents@.len() ==> (#[trigger] self.agents@[i].1).wf()
                && self.agents@[i].1.capacity() == self.cap
        &&& forall|i: int|
            0 <= i < self.conns@.len() ==> (#[trigger] self.conns@[i].1).wf()
                && self.conns@[i].1.capacity() == self.cap
        &&& forall|i: int|
            0 <= i < self.channels@.len() ==> uniq_strs((#[trigger] self.channels@[i].1)@)
    }

    /// The agent tables of `b` are those of `a`.
    pub open spec fn same_agents(a: &ChannelControl, b: &ChannelControl) -> bool {
        &&& forall|id: Seq<char>| (#[trigger] b.has_agent(id)) == a.has_agent(id)
        &&& forall|id: Seq<char>| (#[trigger] b.agent_history(id)) == a.agent_history(id)
    }

    /// The connection tables of `b` are those of `a`.
    pub open spec fn same_conns(a: &ChannelControl, b: &ChannelControl) -> bool {
        &&& forall|id: Seq<char>| (#[trigger] b.has_conn(id)) == a.has_conn(id)
        &&& forall|id: Seq<char>| (#[trigger] b.conn_history(id)) == a.conn_history(id)
    }

    /// The channel tables of `b` are those of `a`.
    pub open spec fn same_channels(a: &ChannelControl, b: &ChannelControl) -> bool {
        &&& forall|c: Seq<char>| (#[trigger] b.has_channel(c)) == a.has_channel(c)
        &&& forall|c: Seq<char>| (#[trigger] b.channel_agents(c)) == a.channel_agents(c)
    }

    /// An empty controller whose buses retain this many messages each.
    pub fn with_capacity(cap: usize) -> (c: ChannelControl)
        requires
            cap >= 1,
        ensures
            c.wf(),
            forall|x: Seq<char>| !(#[trigger] c.has_channel(x)),
            forall|x: Seq<char>| !(#[trigger] c.has_agent(x)),
            forall|x: Seq<char>| !(#[trigger] c.has_conn(x)),
    {
        ChannelControl { channels: Vec::new(), agents: Vec::new(), conns: Vec::new(), cap }
    }

    /// An empty controller with the default backlog of 128 messages per bus.
    pub fn new() -> (c: ChannelControl)
        ensures
            c.wf(),
            forall|x: Seq<char>| !(#[trigger] c.has_channel(x)),
            forall|x: Seq<char>| !(#[trigger] c.has_agent(x)),
            forall|x: Seq<char>| !(#[trigger] c.has_conn(x)),
    {
        ChannelControl::with_capacity(128)
    }

    /// Create a channel with no members; idempotent.
    pub fn channel_add(&mut self, name: String)
        requires
            old(self).wf(),
        ensures
            final(self).wf(),
            final(self).has_channel(name@),
            final(self).channel_agents(name@) == if old(self).has_channel(name@) {
                old(self).channel_agents(name@)
            } else {
                Seq::<Seq<char>>::empty()
            },
            forall|c: Seq<char>|
                c != name@ ==> (#[trigger] final(self).has_channel(c)) == old(self).has_channel(c),
            forall|c: Seq<char>|
                c != name@ ==> (#[trigger] final(self).channel_agents(c)) == old(self).channel_agents(c),
            ChannelControl::same_agents(old(self), final(self)),
            ChannelControl::same_conns(old(self), final(self)),
    {
        match assoc_find(&self.channels, name.as_str()) {
            Some(_) => {},
            None => {
                let ghost s0 = self.channels@;
                proof {
                    lemma_assoc_none(s0, name@);
                }
                self.channels.push((name, Vec::new()));
                proof {
                    assert(self.channels@ =~= s0.push(self.channels@[s0.len() as int]));
                    assert forall|c: Seq<char>| true implies #[trigger] assoc_lookup(
                        self.channels@,
                        c,
                    ) == (if c == self.channels@[s0.len() as int].0@ && assoc_lookup(s0, c)
                        is None {
                        Some(self.channels@[s0.len() as int].1)
                    } else {
                        assoc_lookup(s0, c)
                    }) by {
                        lemma_assoc_push(s0, self.channels@[s0.len() as int], c);
                    }
                    assert(str_views(self.channels@[s0.len() as int].1@)
                        =~= Seq::<Seq<char>>::empty());
                }
            },
        }
    }

    /// Create a connection's bus; an existing one is replaced afresh.
    pub fn conn_add(&mut self, conn_id: String)
        requires
            old(self).wf(),
        ensures
            final(self).wf(),
            final(self).has_conn(conn_id@),
            final(self).conn_history(conn_id@) == Seq::<ChannelMessage>::empty(),
            forall|c: Seq<char>|
                c != conn_id@ ==> (#[trigger] final(self).has_conn(c)) == old(self).has_conn(c),
            forall|c: Seq<char>|
                c != conn_id@ ==> (#[trigger] final(self).conn_history(c)) == old(self).conn_history(c),
            ChannelControl::same_agents(old(self), final(self)),
            ChannelControl::same_channels(old(self), final(self)),
    {
        let bus = Bus::new(self.cap);
        match assoc_find(&self.conns, conn_id.as_str()) {
            Some(i) => {
                let ghost s0 = self.conns@;
                let pair = self.conns.remove(i);
                self.conns.insert(i, (pair.0, bus));
                proof {
                    assert(self.conns@ =~= s0.update(i as int, (s0[i as int].0, self.conns@[
                        i as int
                    ].1)));
                    assert forall|c: Seq<char>| true implies #[trigger] assoc_lookup(self.conns@, c)
                        == (if c == conn_id@ {
                        Some(self.conns@[i as int].1)
                    } else {
                        assoc_lookup(s0, c)
                    }) by {
                        lemma_assoc_update(s0, i as int, self.conns@[i as int].1, c);
                    }
                }
            },
            None => {
                let ghost s0 = self.conns@;
                proof {
                    lemma_assoc_none(s0, conn_id@);
                }
                self.conns.push((conn_id, bus));
                proof {
                    assert(self.conns@ =~= s0.push(self.conns@[s0.len() as int]));
                    assert forall|c: Seq<char>| true implies #[trigger] assoc_lookup(
                        self.conns@,
                        c,
                    ) == (if c == self.conns@[s0.len() as int].0@ && assoc_lookup(s0, c) is None {
                        Some(self.conns@[s0.len() as int].1)
                    } else {
                        assoc_lookup(s0, c)
                    }) by {
                        lemma_assoc_push(s0, self.conns@[s0.len() as int], c);
                    }
                }
            },
        }
    }

    /// A fresh receive cursor on a connection's bus: it will see everything
    /// sent from now on.
    pub fn conn_rx(&self, conn_id: &str) -> (r: Result<u64, ChannelError>)
        requires
            self.wf(),
        ensures
            self.conn_history(conn_id@).len() <= u64::MAX,
            self.has_conn(conn_id@) ==> r == Ok::<u64, ChannelError>(
                self.conn_history(conn_id@).len() as u64,
            ),
            !self.has_conn(conn_id@) ==> r == Err::<u64, ChannelError>(
                ChannelError::ConnectionNotFound,
            ),
    {
        match assoc_find(&self.conns, conn_id) {
            Some(i) => Ok(self.conns[i].1.subscribe()),
            None => Err(ChannelError::ConnectionNotFound),
        }
    }

    /// A fresh receive cursor on an agent's bus.
    pub fn agent_rx(&self, agent_id: &str) -> (r: Result<u64, ChannelError>)
        requires
            self.wf(),
        ensures
            self.agent_history(agent_id@).len() <= u64::MAX,
            self.has_agent(agent_id@) ==> r == Ok::<u64, ChannelError>(
                self.agent_history(agent_id@).len() as u64,
            ),
            !self.has_agent(agent_id@) ==> r == Err::<u64, ChannelError>(
                ChannelError::AgentNotFound,
            ),
    {
        match assoc_find(&self.agents, agent_id) {
            Some(i) => Ok(self.agents[i].1.subscribe()),
            None => Err(ChannelError::AgentNotFound),
        }
    }

    /// Send one message to a connection; fails when the connection is gone.
    pub fn conn_send(&mut self, conn_id: &str, msg: ChannelMessage) -> (r: Result<
        (),
        ChannelError,
    >)
        requires
            old(self).wf(),
            old(self).conn_history(conn_id@).len() < u64::MAX,
        ensures
            final(self).wf(),
            !old(self).has_conn(conn_id@) ==> r == Err::<(), ChannelError>(
                ChannelError::ConnectionNotFound,
            ) && *final(self) == *old(self),
            old(self).has_conn(conn_id@) ==> r == Ok::<(), ChannelError>(())
                && final(self).conn_history(conn_id@) == old(self).conn_history(
                conn_id@).push(msg),
            forall|c: Seq<char>|
                c != conn_id@ ==> (#[trigger] final(self).has_conn(c)) == old(self).has_conn(c),
            forall|c: Seq<char>|
                c != conn_id@ ==> (#[trigger] final(self).conn_history(c)) == old(self).conn_history(c),
            final(self).has_conn(conn_id@) == old(self).has_conn(conn_id@),
            ChannelControl::same_agents(old(self), final(self)),
            ChannelControl::same_channels(old(self), final(self)),
    {
        match assoc_find(&self.conns, conn_id) {
            None => Err(ChannelError::ConnectionNotFound),
            Some(i) => {
                let ghost s0 = self.conns@;
                let mut pair = self.conns.remove(i);
                pair.1.send(msg);
                self.conns.insert(i, pair);
                proof {
                    assert(self.conns@ =~= s0.update(i as int, (s0[i as int].0, self.conns@[
                        i as int
                    ].1)));
                    assert forall|c: Seq<char>| true implies #[trigger] assoc_lookup(self.conns@, c)
                        == (if c == conn_id@ {
                        Some(self.conns@[i as int].1)
                    } else {
                        assoc_lookup(s0, c)
                    }) by {
                        lemma_assoc_update(s0, i as int, self.conns@[i as int].1, c);
                    }
                }
                Ok(())
            },
        }
    }

    /// Create an agent's bus if absent; idempotent.
    pub fn agent_add(&mut self, agent_id: String)
        requires
            old(self).wf(),
        ensures
            final(self).wf(),
            final(self).has_agent(agent_id@),
            final(self).agent_history(agent_id@) == if old(self).has_agent(agent_id@) {
                old(self).agent_history(agent_id@)
            } else {
                Seq::<ChannelMessage>::empty()
            },
            forall|a: Seq<char>|
                a != agent_id@ ==> (#[trigger] final(self).has_agent(a)) == old(self).has_agent(a),
            forall|a: Seq<char>|
                a != agent_id@ ==> (#[trigger] final(self).agent_history(a)) == old(self).agent_history(a),
            ChannelControl::same_conns(old(self), final(self)),
            ChannelControl::same_channels(old(self), final(self)),
    {
        match assoc_find(&self.agents, agent_id.as_str()) {
            Some(_) => {},
            None => {
                let ghost s0 = self.agents@;
                proof {
                    lemma_assoc_none(s0, agent_id@);
                }
                let bus = Bus::new(self.cap);
                self.agents.push((agent_id, bus));
                proof {
                    assert(self.agents@ =~= s0.push(self.agents@[s0.len() as int]));
                    assert forall|a: Seq<char>| true implies #[trigger] assoc_lookup(
                        self.agents@,
                        a,
                    ) == (if a == self.agents@[s0.len() as int].0@ && assoc_lookup(s0, a) is None {
                        Some(self.agents@[s0.len() as int].1)
                    } else {
                        assoc_lookup(s0, a)
                    }) by {
                        lemma_assoc_push(s0, self.agents@[s0.len() as int], a);
                    }
                }
            },
        }
    }

    /// Destroy an agent's bus; idempotent on a missing agent.
    pub fn agent_rm(&mut self, agent_id: &str)
        requires
            old(self).wf(),
        ensures
            final(self).wf(),
            !final(self).has_agent(agent_id@),
            forall|a: Seq<char>|
                a != agent_id@ ==> (#[trigger] final(self).has_agent(a)) == old(self).has_agent(a),
            forall|a: Seq<char>|
                a != agent_id@ ==> (#[trigger] final(self).agent_history(a)) == old(self).agent_history(a),
            ChannelControl::same_conns(old(self), final(self)),
            ChannelControl::same_channels(old(self), final(self)),
    {
        match assoc_find(&self.agents, agent_id) {
            None => {},
            Some(i) => {
                let ghost s0 = self.agents@;
                let _ = self.agents.remove(i);
                proof {
                    assert forall|a: Seq<char>| true implies #[trigger] assoc_lookup(
                        self.agents@,
                        a,
                    ) == (if a == agent_id@ {
                        None
                    } else {
                        assoc_lookup(s0, a)
                    }) by {
                        lemma_assoc_remove(s0, i as int, a);
                    }
                }
            },
        }
    }

    /// Put an agent into a channel's member set; fails when the channel does
    /// not exist, and an agent already present is not added twice.
    pub fn channel_join(&mut self, name: &str, agent_id: String) -> (r: Result<(), ChannelError>)
        requires
            old(self).wf(),
        ensures
            final(self).wf(),
            !old(self).has_channel(name@) ==> r == Err::<(), ChannelError>(
                ChannelError::ChannelNotFound,
            ) && *final(self) == *old(self),
            old(self).has_channel(name@) ==> r == Ok::<(), ChannelError>(())
                && final(self).channel_agents(name@) == (if old(self).channel_agents(
                name@).contains(agent_id@) {
                old(self).channel_agents(name@)
            } else {
                old(self).channel_agents(name@).push(agent_id@)
            }),
            final(self).has_channel(name@) == old(self).has_channel(name@),
            forall|c: Seq<char>|
                c != name@ ==> (#[trigger] final(self).has_channel(c)) == old(self).has_channel(c),
            forall|c: Seq<char>|
                c != name@ ==> (#[trigger] final(self).channel_agents(c)) == old(self).channel_agents(c),
            ChannelControl::same_agents(old(self), final(self)),
            ChannelControl::same_conns(old(self), final(self)),
    {
        match assoc_find(&self.channels, name) {
            None => Err(ChannelError::ChannelNotFound),
            Some(i) => {
                let ghost s0 = self.channels@;
                let mut pair = self.channels.remove(i);
                let ghost v0 = pair.1@;
                if vec_contains_str(&pair.1, agent_id.as_str()) {
                    self.channels.insert(i, pair);
                    proof {
                        assert(self.channels@ =~= s0);
                    }
                } else {
                    proof {
                        assert forall|k: int, j: int|
                            0 <= k < j < v0.push(agent_id).len() implies (#[trigger] v0.push(
                            agent_id,
                        )[k])@ != (#[trigger] v0.push(agent_id)[j])@ by {
                            if j == v0.len() {
                                assert(str_views(v0)[k] == v0[k]@);
                            }
                        }
                    }
                    pair.1.push(agent_id);
                    self.channels.insert(i, pair);
                    proof {
                        assert(self.channels@ =~= s0.update(i as int, (s0[i as int].0,
                        self.channels@[i as int].1)));
                        assert forall|c: Seq<char>| true implies #[trigger] assoc_lookup(
                            self.channels@,
                            c,
                        ) == (if c == name@ {
                            Some(self.channels@[i as int].1)
                        } else {
                            assoc_lookup(s0, c)
                        }) by {
                            lemma_assoc_update(s0, i as int, self.channels@[i as int].1, c);
                        }
                        assert(str_views(v0.push(agent_id)) =~= str_views(v0).push(agent_id@));
                    }
                }
                Ok(())
            },
        }
    }

    /// Take an agent out of a channel's member set; idempotent on a missing
    /// agent or channel.
    pub fn channel_leave(&mut self, name: &str, agent_id: &str)
        requires
            old(self).wf(),
        ensures
            final(self).wf(),
            final(self).channel_agents(name@) == remove_first(
                old(self).channel_agents(name@),
                agent_id@,
            ),
            final(self).has_channel(name@) == old(self).has_channel(name@),
            forall|c: Seq<char>|
                c != name@ ==> (#[trigger] final(self).has_channel(c)) == old(self).has_channel(c),
            forall|c: Seq<char>|
                c != name@ ==> (#[trigger] final(self).channel_agents(c)) == old(self).channel_agents(c),
            ChannelControl::same_agents(old(self), final(self)),
            ChannelControl::same_conns(old(self), final(self)),
    {
        match assoc_find(&self.channels, name) {
            None => {
                proof {
                    assert(remove_first(Seq::<Seq<char>>::empty(), agent_id@)
                        =~= Seq::<Seq<char>>::empty());
                }
            },
            Some(i) => {
                let ghost s0 = self.channels@;
                let mut pair = self.channels.remove(i);
                let ghost v0 = pair.1@;
                let mut j: usize = 0;
                let mut found: bool = false;
                while !found && j < pair.1.len()
                    invariant
                        (i as int) < s0.len(),
                        !found ==> j <= v0.len() && pair.1@ == v0 && (forall|k: int|
                            0 <= k < j ==> (#[trigger] v0[k])@ != agent_id@),
                        found ==> str_views(pair.1@) == remove_first(str_views(v0), agent_id@)
                            && uniq_strs(pair.1@),
                        uniq_strs(v0),
                        pair.0 == s0[i as int].0,
                    decreases v0.len() + 1 - (if found {
                        v0.len() as int + 1
                    } else {
                        j as int
                    }),
                {
                    if str_eq(pair.1[j].as_str(), agent_id) {
                        let _ = pair.1.remove(j);
                        proof {
                            lemma_remove_first_at(v0, j as int, agent_id@);
                            assert forall|a: int, b: int|
                                0 <= a < b < pair.1@.len() implies (#[trigger] pair.1@[a])@ != (
                            #[trigger] pair.1@[b])@ by {
                                assert(pair.1@[a] == (if a < j as int {
                                    v0[a]
                                } else {
                                    v0[a + 1]
                                }));
                                assert(pair.1@[b] == (if b < j as int {
                                    v0[b]
                                } else {
                                    v0[b + 1]
                                }));
                            }
                        }
                        found = true;
                    } else {
                        j = j + 1;
                    }
                }
                if !found {
                    proof {
                        lemma_remove_first_absent(v0, agent_id@);
                    }
                }
                self.channels.insert(i, pair);
                proof {
                    assert(self.channels@ =~= s0.update(i as int, (s0[i as int].0, self.channels@[
                        i as int
                    ].1)));
                    assert forall|c: Seq<char>| true implies #[trigger] assoc_lookup(
                        self.channels@,
                        c,
                    ) == (if c == name@ {
                        Some(self.channels@[i as int].1)
                    } else {
                        assoc_lookup(s0, c)
                    }) by {
                        lemma_assoc_update(s0, i as int, self.channels@[i as int].1, c);
                    }
                }
            },
        }
    }

    /// Fan a message out: one non-blocking send into the bus of every member
    /// of the channel whose bus still exists.  Members whose bus is gone are
    /// skipped, not an error; the count of successful sends comes back, and
    /// a channel with no members yields zero.
    pub fn channel_broadcast(&mut self, name: &str, msg: ChannelMessage) -> (r: Result<
        usize,
        ChannelError,
    >)
        requires
            old(self).wf(),
            forall|a: Seq<char>|
                old(self).has_agent(a) ==> (#[trigger] old(self).agent_history(a)).len()
                    < u64::MAX,
        ensures
            final(self).wf(),
            !old(self).has_channel(name@) ==> r == Err::<usize, ChannelError>(
                ChannelError::ChannelNotFound,
            ) && *final(self) == *old(self),
            old(self).has_channel(name@) ==> r == Ok::<usize, ChannelError>(
                live_count(old(self), old(self).channel_agents(name@)) as usize,
            ),
            forall|a: Seq<char>| (#[trigger] final(self).has_agent(a)) == old(self).has_agent(a),
            forall|a: Seq<char>|
                old(self).has_channel(name@) && old(self).channel_agents(name@).contains(a) && old(
                    self,
                ).has_agent(a) ==> (#[trigger] final(self).agent_history(a)) == old(
                    self,
                ).agent_history(a).push(msg),
            forall|a: Seq<char>|
                !(old(self).has_channel(name@) && old(self).channel_agents(name@).contains(a)) ==> (
                #[trigger] final(self).agent_history(a)) == old(self).agent_history(a),
            ChannelControl::same_conns(old(self), final(self)),
            ChannelControl::same_channels(old(self), final(self)),
    {
        let i = match assoc_find(&self.channels, name) {
            None => {
                return Err(ChannelError::ChannelNotFound);
            },
            Some(i) => i,
        };
        let members = clone_strings(&self.channels[i].1);
        let ghost m = str_views(members@);
        assert(m == old(self).channel_agents(name@));
        let mut k: usize = 0;
        let mut count: usize = 0;
        while k < members.len()
            invariant
                old(self).wf(),
                forall|a: Seq<char>|
                    old(self).has_agent(a) ==> (#[trigger] old(self).agent_history(a)).len()
                        < u64::MAX,
                k <= m.len(),
                m == str_views(members@),
                m == old(self).channel_agents(name@),
                uniq_strs(members@),
                self.cap == old(self).cap,
                self.channels == old(self).channels,
                self.conns == old(self).conns,
                uniq_keys(self.agents@),
                forall|q: int|
                    0 <= q < self.agents@.len() ==> (#[trigger] self.agents@[q].1).wf()
                        && self.agents@[q].1.capacity() == self.cap,
                forall|a: Seq<char>| (#[trigger] self.has_agent(a)) == old(self).has_agent(a),
                forall|a: Seq<char>|
                    m.take(k as int).contains(a) && old(self).has_agent(a) ==> (
                    #[trigger] self.agent_history(a)) == old(self).agent_history(a).push(msg),
                forall|a: Seq<char>|
                    !m.take(k as int).contains(a) ==> (#[trigger] self.agent_history(a)) == old(
                        self,
                    ).agent_history(a),
                count <= k,
                count as int == live_count(old(self), m.take(k as int)),
            decreases m.len() - k,
        {
            let ghost prev = *self;
            assert(m[k as int] == members@[k as int]@);
            assert(m.take(k as int + 1) =~= m.take(k as int).push(m[k as int]));
            proof {
                lemma_live_count_push(old(self), m.take(k as int), m[k as int]);
                assert(!m.take(k as int).contains(m[k as int])) by {
                    if m.take(k as int).contains(m[k as int]) {
                        let q = choose|q: int|
                            0 <= q < m.take(k as int).len() && (#[trigger] m.take(k as int)[q])
                                == m[k as int];
                        assert(members@[q]@ == members@[k as int]@);
                    }
                }
            }
            match assoc_find(&self.agents, members[k].as_str()) {
                None => {
                    proof {
                        assert(!self.has_agent(m[k as int]));
                        assert(!old(self).has_agent(m[k as int]));
                        assert forall|a: Seq<char>|
                            m.take(k as int + 1).contains(a) && old(self).has_agent(a) implies (
                        #[trigger] self.agent_history(a)) == old(self).agent_history(a).push(
                            msg,
                        ) by {
                            if a != m[k as int] {
                                assert(m.take(k as int).contains(a)) by {
                                    let q = choose|q: int|
                                        0 <= q < m.take(k as int + 1).len() && (#[trigger] m.take(
                                            k as int + 1,
                                        )[q]) == a;
                                    assert(m.take(k as int)[q] == a);
                                }
                            } else {
                                assert(m.take(k as int + 1)[k as int] == a);
                            }
                        }
                        assert forall|a: Seq<char>| !m.take(k as int + 1).contains(a) implies (
                        #[trigger] self.agent_history(a)) == old(self).agent_history(a) by {
                            assert(!m.take(k as int).contains(a)) by {
                                if m.take(k as int).contains(a) {
                                    let q = choose|q: int|
                                        0 <= q < m.take(k as int).len() && (#[trigger] m.take(
                                            k as int,
                                        )[q]) == a;
                                    assert(m.take(k as int + 1)[q] == a);
                                }
                            }
                        }
                    }
                },
                Some(ai) => {
                    let ghost s0 = self.agents@;
                    proof {
                        assert(self.has_agent(m[k as int]));
                        assert(old(self).has_agent(m[k as int]));
                        assert(!m.take(k as int).contains(m[k as int]));
                        assert(prev.agent_history(m[k as int]) == old(self).agent_history(
                            m[k as int],
                        ));
                        assert(s0[ai as int].1.history() == prev.agent_history(m[k as int]));
                    }
                    let mut pair = self.agents.remove(ai);
                    assert(pair.1.history() == old(self).agent_history(m[k as int]));
                    pair.1.send(msg.clone());
                    self.agents.insert(ai, pair);
                    proof {
                        assert(self.agents@ =~= s0.update(ai as int, (s0[ai as int].0, self.agents@[
                            ai as int
                        ].1)));
                        assert forall|a: Seq<char>| true implies #[trigger] assoc_lookup(
                            self.agents@,
                            a,
                        ) == (if a == m[k as int] {
                            Some(self.agents@[ai as int].1)
                        } else {
                            assoc_lookup(s0, a)
                        }) by {
                            lemma_assoc_update(s0, ai as int, self.agents@[ai as int].1, a);
                        }
                        assert(self.agent_history(m[k as int]) == prev.agent_history(
                            m[k as int],
                        ).push(msg));
                        assert forall|a: Seq<char>| (#[trigger] self.has_agent(a)) == old(
                            self,
                        ).has_agent(a) by {
                            assert(prev.has_agent(a) == old(self).has_agent(a));
                            if a != m[k as int] {
                                assert(assoc_lookup(self.agents@, a) == assoc_lookup(s0, a));
                            }
                        }
                        assert forall|a: Seq<char>|
                            m.take(k as int + 1).contains(a) && old(self).has_agent(a) implies (
                        #[trigger] self.agent_history(a)) == old(self).agent_history(a).push(
                            msg,
                        ) by {
                            if a != m[k as int] {
                                assert(m.take(k as int).contains(a)) by {
                                    let q = choose|q: int|
                                        0 <= q < m.take(k as int + 1).len() && (#[trigger] m.take(
                                            k as int + 1,
                                        )[q]) == a;
                                    assert(m.take(k as int)[q] == a);
                                }
                                assert(assoc_lookup(self.agents@, a) == assoc_lookup(s0, a));
                                assert(self.agent_history(a) == prev.agent_history(a));
                            }
                        }
                        assert forall|a: Seq<char>| !m.take(k as int + 1).contains(a) implies (
                        #[trigger] self.agent_history(a)) == old(self).agent_history(a) by {
                            assert(!m.take(k as int).contains(a)) by {
                                if m.take(k as int).contains(a) {
                                    let q = choose|q: int|
                                        0 <= q < m.take(k as int).len() && (#[trigger] m.take(
                                            k as int,
                                        )[q]) == a;
                                    assert(m.take(k as int + 1)[q] == a);
                                }
                            }
                            assert(a != m[k as int]) by {
                                if a == m[k as int] {
                                    assert(m.take(k as int + 1)[k as int] == a);
                                }
                            }
                            assert(assoc_lookup(self.agents@, a) == assoc_lookup(s0, a));
                            assert(self.agent_history(a) == prev.agent_history(a));
                        }
                    }
                    count = count + 1;
                },
            }
            k = k + 1;
        }
        assert(m.take(m.len() as int) =~= m);
        Ok(count)
    }

    /// Tear a connection down: drop its bus, destroy the buses of every
    /// agent it owned, and take those agents out of every channel.
    pub fn conn_cleanup(&mut self, conn_id: &str)
        requires
            old(self).wf(),
        ensures
            final(self).wf(),
            !final(self).has_conn(conn_id@),
            forall|c: Seq<char>|
                c != conn_id@ ==> (#[trigger] final(self).has_conn(c)) == old(self).has_conn(c),
            forall|c: Seq<char>|
                c != conn_id@ ==> (#[trigger] final(self).conn_history(c)) == old(self).conn_history(c),
            forall|a: Seq<char>|
                owned_by(a, conn_id@) ==> !(#[trigger] final(self).has_agent(a)),
            forall|a: Seq<char>|
                !owned_by(a, conn_id@) ==> (#[trigger] final(self).has_agent(a)) == old(
                    self,
                ).has_agent(a),
            forall|a: Seq<char>|
                !owned_by(a, conn_id@) ==> (#[trigger] final(self).agent_history(a)) == old(
                    self,
                ).agent_history(a),
            forall|c: Seq<char>|
                (#[trigger] final(self).has_channel(c)) == old(self).has_channel(c),
            forall|c: Seq<char>|
                (#[trigger] final(self).channel_agents(c)) == without_owned(
                    old(self).channel_agents(c),
                    conn_id@,
                ),
    {
        // The connection's bus goes first.
        match assoc_find(&self.conns, conn_id) {
            None => {},
            Some(i) => {
                let ghost s0 = self.conns@;
                let _ = self.conns.remove(i);
                proof {
                    assert forall|c: Seq<char>| true implies #[trigger] assoc_lookup(
                        self.conns@,
                        c,
                    ) == (if c == conn_id@ {
                        None
                    } else {
                        assoc_lookup(s0, c)
                    }) by {
                        lemma_assoc_remove(s0, i as int, c);
                    }
                }
            },
        }
        let ghost conns1 = self.conns@;
        // Then every bus of an agent the connection owned.
        let ghost a0 = self.agents@;
        let mut i: usize = 0;
        while i < self.agents.len()
            invariant
                i <= self.agents@.len(),
                uniq_keys(self.agents@),
                self.cap == old(self).cap,
                self.conns@ == conns1,
                self.channels == old(self).channels,
                forall|q: int|
                    0 <= q < self.agents@.len() ==> (#[trigger] self.agents@[q].1).wf()
                        && self.agents@[q].1.capacity() == self.cap,
                forall|q: int| 0 <= q < i ==> !owned_by((#[trigger] self.agents@[q].0)@, conn_id@),
                forall|a: Seq<char>|
                    !owned_by(a, conn_id@) ==> #[trigger] assoc_lookup(self.agents@, a)
                        == assoc_lookup(a0, a),
                forall|a: Seq<char>|
                    owned_by(a, conn_id@) ==> #[trigger] assoc_lookup(self.agents@, a)
                        == assoc_lookup(a0, a) || assoc_lookup(self.agents@, a) is None,
            decreases self.agents@.len() - i,
        {
            if is_owned_by(self.agents[i].0.as_str(), conn_id) {
                let ghost s0 = self.agents@;
                let _ = self.agents.remove(i);
                proof {
                    assert forall|a: Seq<char>| true implies #[trigger] assoc_lookup(
                        self.agents@,
                        a,
                    ) == (if a == s0[i as int].0@ {
                        None
                    } else {
                        assoc_lookup(s0, a)
                    }) by {
                        lemma_assoc_remove(s0, i as int, a);
                    }
                    assert forall|p: int, q: int|
                        0 <= p < q < self.agents@.len() implies (#[trigger] self.agents@[p].0)@ != (
                    #[trigger] self.agents@[q].0)@ by {
                        assert(self.agents@[p] == (if p < i as int {
                            s0[p]
                        } else {
                            s0[p + 1]
                        }));
                        assert(self.agents@[q] == (if q < i as int {
                            s0[q]
                        } else {
                            s0[q + 1]
                        }));
                    }
                }
            } else {
                i = i + 1;
            }
        }
        proof {
            assert forall|a: Seq<char>| owned_by(a, conn_id@) implies #[trigger] assoc_lookup(
                self.agents@,
                a,
            ) is None by {
                lemma_assoc_none(self.agents@, a);
                if assoc_lookup(self.agents@, a) is Some {
                    let q = choose|q: int|
                        0 <= q < self.agents@.len() && (#[trigger] self.agents@[q].0)@ == a;
                    assert(!owned_by(self.agents@[q].0@, conn_id@));
                }
            }
        }
        let ghost agents2 = self.agents@;
        // Finally every channel sheds the members the connection owned.
        let ghost c0 = self.channels@;
        proof {
            assert(c0 == old(self).channels@);
        }
        let mut ci: usize = 0;
        while ci < self.channels.len()
            invariant
                ci <= self.channels@.len(),
                self.channels@.len() == c0.len(),
                self.cap == old(self).cap,
                self.conns@ == conns1,
                self.agents@ == agents2,
                forall|q: int| 0 <= q < c0.len() ==> (#[trigger] self.channels@[q].0) == c0[q].0,
                forall|q: int| ci <= q < c0.len() ==> (#[trigger] self.channels@[q]) == c0[q],
                forall|q: int|
                    0 <= q < ci ==> str_views((#[trigger] self.channels@[q].1)@) == without_owned(
                        str_views(c0[q].1@),
                        conn_id@,
                    ) && uniq_strs(self.channels@[q].1@),
                forall|q: int| 0 <= q < c0.len() ==> uniq_strs((#[trigger] c0[q].1)@),
            decreases c0.len() - ci,
        {
            let ghost cprev = self.channels@;
            let mut pair = self.channels.remove(ci);
            let ghost v0 = pair.1@;
            let mut j: usize = 0;
            while j < pair.1.len()
                invariant
                    j <= pair.1@.len(),
                    (ci as int) < cprev.len(),
                    uniq_strs(pair.1@),
                    pair.0 == cprev[ci as int].0,
                    forall|q: int| 0 <= q < j ==> !owned_by((#[trigger] pair.1@[q])@, conn_id@),
                    without_owned(str_views(pair.1@), conn_id@) == without_owned(
                        str_views(v0),
                        conn_id@,
                    ),
                decreases pair.1@.len() - j,
            {
                if is_owned_by(pair.1[j].as_str(), conn_id) {
                    let ghost w0 = pair.1@;
                    let _ = pair.1.remove(j);
                    proof {
                        assert(str_views(w0)[j as int] == w0[j as int]@);
                        lemma_without_owned_remove(str_views(w0), j as int, conn_id@);
                        assert(str_views(pair.1@) =~= str_views(w0).remove(j as int));
                        assert forall|p: int, q: int|
                            0 <= p < q < pair.1@.len() implies (#[trigger] pair.1@[p])@ != (
                        #[trigger] pair.1@[q])@ by {
                            assert(pair.1@[p] == (if p < j as int {
                                w0[p]
                            } else {
                                w0[p + 1]
                            }));
                            assert(pair.1@[q] == (if q < j as int {
                                w0[q]
                            } else {
                                w0[q + 1]
                            }));
                        }
                    }
                } else {
                    j = j + 1;
                }
            }
            proof {
                assert forall|q: int| 0 <= q < str_views(pair.1@).len() implies !owned_by(
                    #[trigger] str_views(pair.1@)[q],
                    conn_id@,
                ) by {
                    assert(str_views(pair.1@)[q] == pair.1@[q]@);
                }
                lemma_without_owned_clean_id(str_views(pair.1@), conn_id@);
            }
            self.channels.insert(ci, pair);
            proof {
                assert(self.channels@ =~= cprev.update(ci as int, (cprev[ci as int].0,
                self.channels@[ci as int].1)));
            }
            ci = ci + 1;
        }
        proof {
            let cf = self.channels@;
            assert forall|q: int| 0 <= q < cf.len() implies uniq_strs(
                (#[trigger] cf[q].1)@,
            ) by {}
            assert forall|p: int, q: int| 0 <= p < q < cf.len() implies (#[trigger] cf[p].0)@ != (
            #[trigger] cf[q].0)@ by {
                assert(cf[p].0 == c0[p].0 && cf[q].0 == c0[q].0);
            }
            assert forall|c: Seq<char>| true implies (#[trigger] assoc_lookup(cf, c) is Some)
                == (assoc_lookup(c0, c) is Some) && (match (assoc_lookup(c0, c), assoc_lookup(
                cf,
                c,
            )) {
                (Some(v1), Some(v2)) => str_views(v2@) == without_owned(str_views(v1@), conn_id@),
                (None, None) => true,
                _ => false,
            }) by {
                lemma_assoc_pointwise(
                    c0,
                    cf,
                    c,
                    |v1: Vec<String>, v2: Vec<String>|
                        str_views(v2@) == without_owned(str_views(v1@), conn_id@),
                );
            }
            assert(without_owned(Seq::<Seq<char>>::empty(), conn_id@)
                =~= Seq::<Seq<char>>::empty());
        }
    }


    /// The history index of the oldest message an agent's bus still
    /// retains; zero for an unknown agent.
    pub closed spec fn agent_window(&self, id: Seq<char>) -> int {
        match assoc_lookup(self.agents@, id) {
            Some(b) => b.start_of_window(),
            None => 0int,
        }
    }

    /// Receive one message from an agent's bus at a cursor: the message at
    /// the cursor in send order, a lag signal naming exactly how many
    /// messages were missed, or nothing when the cursor is at the end.
    pub fn agent_recv(&self, agent_id: &str, cursor: &mut u64) -> (r: Result<
        RecvOutcome,
        ChannelError,
    >)
        requires
            self.wf(),
            *old(cursor) as int <= self.agent_history(agent_id@).len(),
        ensures
            *final(cursor) as int <= self.agent_history(agent_id@).len(),
            !self.has_agent(agent_id@) ==> r == Err::<RecvOutcome, ChannelError>(
                ChannelError::AgentNotFound,
            ) && *final(cursor) == *old(cursor),
            self.has_agent(agent_id@) && (*old(cursor) as int) < self.agent_window(agent_id@)
                ==> r == Ok::<RecvOutcome, ChannelError>(
                RecvOutcome::Lagged((self.agent_window(agent_id@) - *old(cursor) as int) as u64),
            ) && *final(cursor) as int == self.agent_window(agent_id@),
            self.has_agent(agent_id@) && self.agent_window(agent_id@) <= *old(cursor) as int && (
            *old(cursor) as int) < self.agent_history(agent_id@).len() ==> r == Ok::<
                RecvOutcome,
                ChannelError,
            >(RecvOutcome::Msg(self.agent_history(agent_id@)[*old(cursor) as int])) && *final(cursor) as int == *old(cursor) as int + 1,
            self.has_agent(agent_id@) && *old(cursor) as int == self.agent_history(
                agent_id@).len() ==> r == Ok::<RecvOutcome, ChannelError>(RecvOutcome::Idle)
                && *final(cursor) == *old(cursor),
    {
        match assoc_find(&self.agents, agent_id) {
            None => Err(ChannelError::AgentNotFound),
            Some(i) => Ok(self.agents[i].1.recv_at(cursor)),
        }
    }

    /// The history index of the oldest message a connection's bus still
    /// retains; zero for an unknown connection.
    pub closed spec fn conn_window(&self, id: Seq<char>) -> int {
        match assoc_lookup(self.conns@, id) {
            Some(b) => b.start_of_window(),
            None => 0int,
        }
    }

    /// Receive one message from a connection's bus at a cursor — the sender
    /// task's read side.  The cases mirror `agent_recv`.
    pub fn conn_recv(&self, conn_id: &str, cursor: &mut u64) -> (r: Result<
        RecvOutcome,
        ChannelError,
    >)
        requires
            self.wf(),
            *old(cursor) as int <= self.conn_history(conn_id@).len(),
        ensures
            *final(cursor) as int <= self.conn_history(conn_id@).len(),
            !self.has_conn(conn_id@) ==> r == Err::<RecvOutcome, ChannelError>(
                ChannelError::ConnectionNotFound,
            ) && *final(cursor) == *old(cursor),
            self.has_conn(conn_id@) && (*old(cursor) as int) < self.conn_window(conn_id@) ==> r
                == Ok::<RecvOutcome, ChannelError>(
                RecvOutcome::Lagged((self.conn_window(conn_id@) - *old(cursor) as int) as u64),
            ) && *final(cursor) as int == self.conn_window(conn_id@),
            self.has_conn(conn_id@) && self.conn_window(conn_id@) <= *old(cursor) as int && (
            *old(cursor) as int) < self.conn_history(conn_id@).len() ==> r == Ok::<
                RecvOutcome,
                ChannelError,
            >(RecvOutcome::Msg(self.conn_history(conn_id@)[*old(cursor) as int])) && *final(
                cursor) as int == *old(cursor) as int + 1,
            self.has_conn(conn_id@) && *old(cursor) as int == self.conn_history(
                conn_id@).len() ==> r == Ok::<RecvOutcome, ChannelError>(RecvOutcome::Idle)
                && *final(cursor) == *old(cursor),
    {
        match assoc_find(&self.conns, conn_id) {
            None => Err(ChannelError::ConnectionNotFound),
            Some(i) => Ok(self.conns[i].1.recv_at(cursor)),
        }
    }

    /// Whether every agent bus can still take a message without exhausting
    /// its sequence counter — true for the life of any real process, and the
    /// guard a caller tests before it broadcasts.
    pub fn agent_histories_below_max(&self) -> (r: bool)
        requires
            self.wf(),
        ensures
            r == (forall|a: Seq<char>|
                self.has_agent(a) ==> (#[trigger] self.agent_history(a)).len() < u64::MAX),
    {
        let mut i: usize = 0;
        while i < self.agents.len()
            invariant
                self.wf(),
                i <= self.agents@.len(),
                forall|k: int|
                    0 <= k < i ==> (#[trigger] self.agents@[k].1).history().len() < u64::MAX,
            decreases self.agents@.len() - i,
        {
            if self.agents[i].1.subscribe() == u64::MAX {
                proof {
                    let a = self.agents@[i as int].0@;
                    assert(self.has_agent(a) && self.agent_history(a).len() >= u64::MAX) by {
                        lemma_assoc_first_match(self.agents@, i as int);
                    }
                }
                return false;
            }
            i = i + 1;
        }
        proof {
            assert forall|a: Seq<char>| self.has_agent(a) implies (
            #[trigger] self.agent_history(a)).len() < u64::MAX by {
                lemma_assoc_some(self.agents@, a);
                let k = choose|k: int|
                    0 <= k < self.agents@.len() && (#[trigger] self.agents@[k].0)@ == a
                        && self.agents@[k].1 == assoc_lookup(self.agents@, a)->Some_0;
                assert(self.agents@[k].1.history().len() < u64::MAX);
            }
        }
        true
    }

    /// How many agents a channel has; fails when the channel is unknown.
    pub fn channel_size(&self, name: &str) -> (r: Result<usize, ChannelError>)
        requires
            self.wf(),
        ensures
            self.has_channel(name@) ==> r == Ok::<usize, ChannelError>(
                self.channel_agents(name@).len() as usize,
            ),
            !self.has_channel(name@) ==> r == Err::<usize, ChannelError>(
                ChannelError::ChannelNotFound,
            ),
    {
        match assoc_find(&self.channels, name) {
            Some(i) => Ok(self.channels[i].1.len()),
            None => Err(ChannelError::ChannelNotFound),
        }
    }
}

/// One membership change on a channel's member list, as `channel_join` and
/// `channel_leave` perform it: a join adds the agent unless present, a
/// leave removes its one occurrence.
pub enum MemberOp {
    Join(Seq<char>),
    Leave(Seq<char>),
}

pub open spec fn apply_member_op(s: Seq<Seq<char>>, op: MemberOp) -> Seq<Seq<char>> {
    match op {
        MemberOp::Join(a) => if s.contains(a) {
            s
        } else {
            s.push(a)
        },
        MemberOp::Leave(a) => remove_first(s, a),
    }
}

pub open spec fn apply_member_ops(s: Seq<Seq<char>>, ops: Seq<MemberOp>) -> Seq<Seq<char>>
    decreases ops.len(),
{
    if ops.len() == 0 {
        s
    } else {
        apply_member_ops(apply_member_op(s, ops[0]), ops.drop_first())
    }
}

/// How many members of the list this connection owns.
pub open spec fn owned_count(s: Seq<Seq<char>>, conn: Seq<char>) -> int
    decreases s.len(),
{
    if s.len() == 0 {
        0int
    } else {
        (if owned_by(s[0], conn) {
            1int
        } else {
            0int
        }) + owned_count(s.drop_first(), conn)
    }
}

/// An operation that takes effect: a join of an absent agent, or a leave of
/// a present one — and one that the given connection owns.
pub open spec fn op_effective(s: Seq<Seq<char>>, op: MemberOp, conn: Seq<char>) -> bool {
    match op {
        MemberOp::Join(a) => !s.contains(a) && owned_by(a, conn),
        MemberOp::Leave(a) => s.contains(a) && owned_by(a, conn),
    }
}

pub open spec fn ops_effective(s: Seq<Seq<char>>, ops: Seq<MemberOp>, conn: Seq<char>) -> bool
    decreases ops.len(),
{
    ops.len() == 0 || (op_effective(s, ops[0], conn) && ops_effective(
        apply_member_op(s, ops[0]),
        ops.drop_first(),
        conn,
    ))
}

pub open spec fn join_count(ops: Seq<MemberOp>) -> int
    decreases ops.len(),
{
    if ops.len() == 0 {
        0int
    } else {
        (if ops[0] is Join {
            1int
        } else {
            0int
        }) + join_count(ops.drop_first())
    }
}

pub open spec fn leave_count(ops: Seq<MemberOp>) -> int
    decreases ops.len(),
{
    if ops.len() == 0 {
        0int
    } else {
        (if ops[0] is Leave {
            1int
        } else {
            0int
        }) + leave_count(ops.drop_first())
    }
}

proof fn lemma_owned_count_push_any(s: Seq<Seq<char>>, x: Seq<char>, conn: Seq<char>)
    ensures
        owned_count(s.push(x), conn) == owned_count(s, conn) + (if owned_by(x, conn) {
            1int
        } else {
            0int
        }),
    decreases s.len(),
{
    reveal_with_fuel(owned_count, 3);
    if s.len() == 0 {
        assert(s.push(x) =~= seq![x]);
    } else {
        assert(s.push(x)[0] == s[0]);
        assert(s.push(x).drop_first() =~= s.drop_first().push(x));
        lemma_owned_count_push_any(s.drop_first(), x, conn);
    }
}

proof fn lemma_owned_count_remove_first(s: Seq<Seq<char>>, a: Seq<char>, conn: Seq<char>)
    requires
        s.contains(a),
        owned_by(a, conn),
    ensures
        owned_count(remove_first(s, a), conn) == owned_count(s, conn) - 1,
    decreases s.len(),
{
    reveal_with_fuel(owned_count, 2);
    if s[0] == a {
        assert(remove_first(s, a) == s.drop_first());
    } else {
        assert(s.drop_first().contains(a)) by {
            let j = choose|j: int| 0 <= j < s.len() && s[j] == a;
            assert(s.drop_first()[j - 1] == a);
        }
        lemma_owned_count_remove_first(s.drop_first(), a, conn);
        let t = seq![s[0]] + remove_first(s.drop_first(), a);
        assert(t[0] == s[0]);
        assert(t.drop_first() =~= remove_first(s.drop_first(), a));
    }
}

/// The membership invariant: for any run of effective joins and leaves by
/// one connection on a channel, the count of members that connection owns
/// moves by exactly joins minus leaves.
pub proof fn lemma_join_leave_count(s: Seq<Seq<char>>, ops: Seq<MemberOp>, conn: Seq<char>)
    requires
        ops_effective(s, ops, conn),
    ensures
        owned_count(apply_member_ops(s, ops), conn) == owned_count(s, conn) + join_count(ops)
            - leave_count(ops),
    decreases ops.len(),
{
    if ops.len() > 0 {
        let s2 = apply_member_op(s, ops[0]);
        match ops[0] {
            MemberOp::Join(a) => {
                lemma_owned_count_push_any(s, a, conn);
            },
            MemberOp::Leave(a) => {
                lemma_owned_count_remove_first(s, a, conn);
            },
        }
        lemma_join_leave_count(s2, ops.drop_first(), conn);
    }
}

/// When nothing in the list is the value, removal changes nothing.
proof fn lemma_remove_first_absent(s: Seq<String>, x: Seq<char>)
    requires
        forall|k: int| 0 <= k < s.len() ==> (#[trigger] s[k])@ != x,
    ensures
        remove_first(str_views(s), x) == str_views(s),
    decreases s.len(),
{
    if s.len() == 0 {
        assert(remove_first(str_views(s), x) =~= str_views(s));
    } else {
        assert forall|k: int| 0 <= k < s.drop_first().len() implies (#[trigger] s.drop_first()[
            k
        ])@ != x by {
            assert(s.drop_first()[k] == s[k + 1]);
        }
        lemma_remove_first_absent(s.drop_first(), x);
        assert(str_views(s.drop_first()) =~= str_views(s).drop_first());
        assert(str_views(s)[0] != x);
        assert(remove_first(str_views(s), x) == seq![str_views(s)[0]] + remove_first(
            str_views(s).drop_first(),
            x,
        ));
        assert(seq![str_views(s)[0]] + str_views(s).drop_first() =~= str_views(s));
    }
}

} // verus!
