//! Orchestrator: the run-state machine, the live-agent table, instance
//! reconciliation against live windows, command handling and the cooldown
//! scheduler.
//!
//! The orchestrator owns the decisions; the surrounding program performs the
//! outside work (window queries, agent calls, sleeping) and hands the
//! outcomes back in as plain values. Agent starts are requested through
//! [`StartRequest`] records; the caller reports each agent that actually
//! came up through [`AgentTable::agent_started`], so an instantiation
//! failure simply leaves the instance without a live agent.

use vstd::prelude::*;

use crate::types::{BotEntry, Instance, RunState, WindowId};

verus! {

/// The views of a vector of id strings.
pub open spec fn view_of(ids: Seq<String>) -> Seq<Seq<char>> {
    ids.map_values(|s: String| s@)
}

/// No id occurs twice.
pub open spec fn distinct(s: Seq<Seq<char>>) -> bool {
    forall|i: int, j: int| 0 <= i < j < s.len() ==> s[i] != s[j]
}

/// The first cooldown deadline recorded for `id`, if any.
pub open spec fn cd_lookup(s: Seq<(String, u64)>, id: Seq<char>) -> Option<u64>
    decreases s.len(),
{
    if s.len() == 0 {
        None
    } else if s[0].0@ == id {
        Some(s[0].1)
    } else {
        cd_lookup(s.drop_first(), id)
    }
}

/// The orchestrator-private live-agent table: the ids that currently have a
/// live agent, and each id's next-eligible time (cooldown deadline) in
/// milliseconds. The control surface never sees this table.
pub struct AgentTable {
    pub live: Vec<String>,
    pub cooldowns: Vec<(String, u64)>,
}

impl AgentTable {
    /// The ids with a live agent.
    pub open spec fn live_ids(&self) -> Seq<Seq<char>> {
        view_of(self.live@)
    }

    /// Whether `id` has a live agent.
    pub open spec fn has_live(&self, id: Seq<char>) -> bool {
        self.live_ids().contains(id)
    }

    /// The recorded cooldown keys.
    pub open spec fn cd_keys(&self) -> Seq<Seq<char>> {
        self.cooldowns@.map_values(|p: (String, u64)| p.0@)
    }

    /// The cooldown deadline recorded for `id`, if any.
    pub open spec fn cd_of(&self, id: Seq<char>) -> Option<u64> {
        cd_lookup(self.cooldowns@, id)
    }

    /// At most one live agent per instance id, and at most one cooldown
    /// record per id.
    pub open spec fn wf(&self) -> bool {
        distinct(self.live_ids()) && distinct(self.cd_keys())
    }

    /// Whether `id` is past its cooldown: no deadline recorded, or the
    /// deadline has arrived.
    pub open spec fn ready_at(&self, id: Seq<char>, now: u64) -> bool {
        match self.cd_of(id) {
            None => true,
            Some(t) => now >= t,
        }
    }

    /// An empty table.
    pub fn new() -> (r: AgentTable)
        ensures
            r.live@ == Seq::<String>::empty(),
            r.cooldowns@ == Seq::<(String, u64)>::empty(),
            r.wf(),
    {
        AgentTable { live: Vec::new(), cooldowns: Vec::new() }
    }

    /// Whether `id` has a live agent.
    pub fn contains_live(&self, id: &String) -> (r: bool)
        ensures
            r == self.has_live(id@),
    {
        let n = self.live.len();
        let mut i: usize = 0;
        while i < n
            invariant
                n == self.live@.len(),
                i <= n,
                forall|k: int| 0 <= k < i ==> (#[trigger] self.live@[k])@ != id@,
            decreases n - i,
        {
            if crate::strutil::str_eq(self.live[i].as_str(), id.as_str()) {
                proof {
                    assert(self.live_ids()[i as int] == id@);
                }
                return true;
            }
            i = i + 1;
        }
        proof {
            if self.has_live(id@) {
                let k = choose|k: int| 0 <= k < self.live_ids().len() && self.live_ids()[k] == id@;
                assert(self.live@[k]@ == id@);
            }
        }
        false
    }

    /// Record that an agent for `id` came up. A second agent for an id that
    /// already has one is never recorded, so the at-most-one invariant holds.
    pub fn agent_started(&mut self, id: String)
        requires
            old(self).wf(),
        ensures
            final(self).wf(),
            final(self).cooldowns == old(self).cooldowns,
            final(self).live@ == (if old(self).has_live(id@) {
                old(self).live@
            } else {
                old(self).live@.push(id)
            }),
            final(self).has_live(id@),
            forall|x: Seq<char>| x != id@ ==> final(self).has_live(x) == old(self).has_live(x),
    {
        if self.contains_live(&id) {
            return ;
        }
        let ghost pre = self.live@;
        self.live.push(id);
        proof {
            let ids = self.live_ids();
            assert(ids =~= view_of(pre).push(ids.last()));
            assert(ids.last() == self.live@.last()@);
            assert forall|x: Seq<char>| true implies ids.contains(x) == (view_of(pre).contains(x)
                || x == ids.last()) by {
                if ids.contains(x) {
                    let k = choose|k: int| 0 <= k < ids.len() && ids[k] == x;
                    if k < ids.len() - 1 {
                        assert(view_of(pre)[k] == x);
                    }
                }
                if view_of(pre).contains(x) {
                    let k = choose|k: int|
                        0 <= k < view_of(pre).len() && view_of(pre)[k] == x;
                    assert(ids[k] == x);
                }
                if x == ids.last() {
                    assert(ids[ids.len() - 1] == x);
                }
            }
        }
    }

    /// Remove `id`'s live agent, reporting whether one was live.
    pub fn remove_live(&mut self, id: &String) -> (was: bool)
        requires
            old(self).wf(),
        ensures
            final(self).wf(),
            final(self).cooldowns == old(self).cooldowns,
            was == old(self).has_live(id@),
            !final(self).has_live(id@),
            forall|x: Seq<char>| x != id@ ==> final(self).has_live(x) == old(self).has_live(x),
            final(self).live@.len() == old(self).live@.len() - (if was {
                1 as int
            } else {
                0 as int
            }),
    {
        let n = self.live.len();
        let mut i: usize = 0;
        while i < n
            invariant
                old(self).wf(),
                self == old(self),
                n == self.live@.len(),
                i <= n,
                forall|k: int| 0 <= k < i ==> (#[trigger] self.live@[k])@ != id@,
            decreases n - i,
        {
            if crate::strutil::str_eq(self.live[i].as_str(), id.as_str()) {
                proof {
                    assert(self.live_ids()[i as int] == id@);
                }
                let ghost pre = self.live@;
                self.live.remove(i);
                proof {
                    assert(self.live_ids() =~= view_of(pre).remove(i as int));
                    lemma_removed_ids(view_of(pre), self.live_ids(), i as int, id@);
                }
                return true;
            }
            i = i + 1;
        }
        proof {
            if self.has_live(id@) {
                let k = choose|k: int| 0 <= k < self.live_ids().len() && self.live_ids()[k] == id@;
                assert(self.live@[k]@ == id@);
            }
        }
        false
    }

    /// Forget `id`'s cooldown deadline.
    pub fn remove_cd(&mut self, id: &String)
        requires
            old(self).wf(),
        ensures
            final(self).wf(),
            final(self).live == old(self).live,
            final(self).cd_of(id@) is None,
            forall|x: Seq<char>| x != id@ ==> final(self).cd_of(x) == old(self).cd_of(x),
    {
        let n = self.cooldowns.len();
        let mut i: usize = 0;
        while i < n
            invariant
                old(self).wf(),
                self == old(self),
                n == self.cooldowns@.len(),
                i <= n,
                forall|k: int| 0 <= k < i ==> (#[trigger] self.cooldowns@[k]).0@ != id@,
            decreases n - i,
        {
            if crate::strutil::str_eq(self.cooldowns[i].0.as_str(), id.as_str()) {
                let ghost pre = self.cooldowns@;
                self.cooldowns.remove(i);
                proof {
                    lemma_removed_cd(pre, self.cooldowns@, i as int, id@);
                }
                return ;
            }
            i = i + 1;
        }
        proof {
            lemma_cd_absent(self.cooldowns@, id@);
        }
    }

    /// Record `deadline` as `id`'s next-eligible time, replacing any
    /// earlier record.
    pub fn set_cd(&mut self, id: &String, deadline: u64)
        requires
            old(self).wf(),
        ensures
            final(self).wf(),
            final(self).live == old(self).live,
            final(self).cd_of(id@) == Some(deadline),
            forall|x: Seq<char>| x != id@ ==> final(self).cd_of(x) == old(self).cd_of(x),
    {
        let n = self.cooldowns.len();
        let mut i: usize = 0;
        while i < n
            invariant
                old(self).wf(),
                self == old(self),
                n == self.cooldowns@.len(),
                i <= n,
                forall|k: int| 0 <= k < i ==> (#[trigger] self.cooldowns@[k]).0@ != id@,
            decreases n - i,
        {
            if crate::strutil::str_eq(self.cooldowns[i].0.as_str(), id.as_str()) {
                let key = self.cooldowns[i].0.clone();
                let ghost pre = self.cooldowns@;
                self.cooldowns.set(i, (key, deadline));
                proof {
                    lemma_updated_cd(pre, self.cooldowns@, i as int, id@, deadline);
                }
                return ;
            }
            i = i + 1;
        }
        let ghost pre = self.cooldowns@;
        self.cooldowns.push((id.clone(), deadline));
        proof {
            lemma_pushed_cd(pre, self.cooldowns@, id@, deadline);
        }
    }

    /// Whether `id` is past its cooldown at `now`.
    pub fn is_ready(&self, id: &String, now: u64) -> (r: bool)
        ensures
            r == self.ready_at(id@, now),
    {
        let n = self.cooldowns.len();
        let mut i: usize = 0;
        proof {
            assert(self.cooldowns@.skip(0) =~= self.cooldowns@);
        }
        while i < n
            invariant
                n == self.cooldowns@.len(),
                i <= n,
                self.cd_of(id@) == cd_lookup(self.cooldowns@.skip(i as int), id@),
            decreases n - i,
        {
            proof {
                assert(self.cooldowns@.skip(i as int).drop_first() =~= self.cooldowns@.skip(
                    i as int + 1,
                ));
                assert(self.cooldowns@.skip(i as int)[0] == self.cooldowns@[i as int]);
            }
            if crate::strutil::str_eq(self.cooldowns[i].0.as_str(), id.as_str()) {
                return now >= self.cooldowns[i].1;
            }
            i = i + 1;
        }
        proof {
            assert(self.cooldowns@.skip(n as int) =~= Seq::<(String, u64)>::empty());
        }
        true
    }

    /// Empty the whole table, handing back every id that had a live agent
    /// so the caller can stop those agents.
    pub fn drain(&mut self) -> (stops: Vec<String>)
        ensures
            stops@ == old(self).live@,
            final(self).live@ == Seq::<String>::empty(),
            final(self).cooldowns@ == Seq::<(String, u64)>::empty(),
            final(self).wf(),
    {
        let stops = self.live.split_off(0);
        self.cooldowns.clear();
        proof {
            assert(stops@ =~= old(self).live@);
            assert(self.live@ =~= Seq::<String>::empty());
        }
        stops
    }
}

/// Removing index `i` (an occurrence of `id`) from a duplicate-free id
/// sequence: `id` is gone, every other id's membership is unchanged.
proof fn lemma_removed_ids(pre: Seq<Seq<char>>, post: Seq<Seq<char>>, i: int, id: Seq<char>)
    requires
        distinct(pre),
        0 <= i < pre.len(),
        pre[i] == id,
        post == pre.remove(i),
    ensures
        distinct(post),
        !post.contains(id),
        forall|x: Seq<char>| x != id ==> post.contains(x) == pre.contains(x),
{
    assert forall|k: int| 0 <= k < post.len() implies post[k] == (if k < i {
        pre[k]
    } else {
        pre[k + 1]
    }) by {}
    assert(distinct(post));
    if post.contains(id) {
        let k = choose|k: int| 0 <= k < post.len() && post[k] == id;
        if k < i {
            assert(pre[k] == id && pre[i] == id);
        } else {
            assert(pre[k + 1] == id && pre[i] == id);
        }
        assert(false);
    }
    assert forall|x: Seq<char>| x != id implies post.contains(x) == pre.contains(x) by {
        if post.contains(x) {
            let k = choose|k: int| 0 <= k < post.len() && post[k] == x;
            if k < i {
                assert(pre[k] == x);
            } else {
                assert(pre[k + 1] == x);
            }
            assert(pre.contains(x));
        }
        if pre.contains(x) {
            let k = choose|k: int| 0 <= k < pre.len() && pre[k] == x;
            assert(k != i);
            if k < i {
                assert(post[k] == x);
            } else {
                assert(post[k - 1] == x);
            }
            assert(post.contains(x));
        }
    }
}

/// A key held by no cooldown record looks up to nothing.
proof fn lemma_cd_absent(s: Seq<(String, u64)>, id: Seq<char>)
    requires
        forall|k: int| 0 <= k < s.len() ==> (#[trigger] s[k]).0@ != id,
    ensures
        cd_lookup(s, id) is None,
    decreases s.len(),
{
    if s.len() > 0 {
        assert forall|k: int|
            0 <= k < s.drop_first().len() implies (#[trigger] s.drop_first()[k]).0@ != id by {
            assert(s.drop_first()[k] == s[k + 1]);
        }
        lemma_cd_absent(s.drop_first(), id);
    }
}

/// Removing the first record for `id` from a duplicate-free cooldown table
/// clears `id` and keeps every other lookup.
proof fn lemma_removed_cd(pre: Seq<(String, u64)>, post: Seq<(String, u64)>, i: int, id: Seq<char>)
    requires
        distinct(pre.map_values(|p: (String, u64)| p.0@)),
        0 <= i < pre.len(),
        pre[i].0@ == id,
        forall|k: int| 0 <= k < i ==> (#[trigger] pre[k]).0@ != id,
        post == pre.remove(i),
    ensures
        distinct(post.map_values(|p: (String, u64)| p.0@)),
        cd_lookup(post, id) is None,
        forall|x: Seq<char>| x != id ==> cd_lookup(post, x) == cd_lookup(pre, x),
    decreases pre.len(),
{
    let pk = pre.map_values(|p: (String, u64)| p.0@);
    let qk = post.map_values(|p: (String, u64)| p.0@);
    assert forall|k: int| 0 <= k < post.len() implies post[k] == (if k < i {
        pre[k]
    } else {
        pre[k + 1]
    }) by {}
    assert forall|a: int, b: int| 0 <= a < b < qk.len() implies qk[a] != qk[b] by {
        let a2: int = if a < i {
            a
        } else {
            a + 1
        };
        let b2: int = if b < i {
            b
        } else {
            b + 1
        };
        assert(qk[a] == pk[a2] && qk[b] == pk[b2]);
    }
    if i == 0 {
        assert(post =~= pre.drop_first());
        assert forall|k: int| 0 <= k < post.len() implies (#[trigger] post[k]).0@ != id by {
            assert(pk[k + 1] == post[k].0@ && pk[0] == id);
        }
        lemma_cd_absent(post, id);
    } else {
        assert(pre[0].0@ != id);
        assert(post[0] == pre[0]);
        assert(post.drop_first() =~= pre.drop_first().remove(i - 1));
        assert forall|k: int| 0 <= k < i - 1 implies (#[trigger] pre.drop_first()[k]).0@ != id by {
            assert(pre.drop_first()[k] == pre[k + 1]);
        }
        assert(pre.drop_first().map_values(|p: (String, u64)| p.0@) =~= pk.drop_first());
        assert forall|a: int, b: int|
            0 <= a < b < pk.drop_first().len() implies pk.drop_first()[a] != pk.drop_first()[b] by {
            assert(pk.drop_first()[a] == pk[a + 1] && pk.drop_first()[b] == pk[b + 1]);
        }
        assert(pre.drop_first()[i - 1] == pre[i]);
        lemma_removed_cd(pre.drop_first(), post.drop_first(), i - 1, id);
        assert(cd_lookup(post, id) == cd_lookup(post.drop_first(), id));
        assert forall|x: Seq<char>| x != id implies cd_lookup(post, x) == cd_lookup(pre, x) by {
            if pre[0].0@ != x {
                assert(cd_lookup(post, x) == cd_lookup(post.drop_first(), x));
                assert(cd_lookup(pre, x) == cd_lookup(pre.drop_first(), x));
            }
        }
    }
}

/// Overwriting the record at the first occurrence of `id` sets `id` and
/// keeps every other lookup.
proof fn lemma_updated_cd(
    pre: Seq<(String, u64)>,
    post: Seq<(String, u64)>,
    i: int,
    id: Seq<char>,
    deadline: u64,
)
    requires
        distinct(pre.map_values(|p: (String, u64)| p.0@)),
        0 <= i < pre.len(),
        post.len() == pre.len(),
        pre[i].0@ == id,
        post[i].0@ == id,
        post[i].1 == deadline,
        forall|k: int| 0 <= k < pre.len() && k != i ==> post[k] == pre[k],
        forall|k: int| 0 <= k < i ==> (#[trigger] pre[k]).0@ != id,
    ensures
        distinct(post.map_values(|p: (String, u64)| p.0@)),
        cd_lookup(post, id) == Some(deadline),
        forall|x: Seq<char>| x != id ==> cd_lookup(post, x) == cd_lookup(pre, x),
    decreases pre.len(),
{
    let pk = pre.map_values(|p: (String, u64)| p.0@);
    let qk = post.map_values(|p: (String, u64)| p.0@);
    assert(qk =~= pk);
    if i == 0 {
        assert forall|x: Seq<char>| x != id implies cd_lookup(post, x) == cd_lookup(pre, x) by {
            assert(post.drop_first() =~= pre.drop_first());
            assert(cd_lookup(post, x) == cd_lookup(post.drop_first(), x));
            assert(cd_lookup(pre, x) == cd_lookup(pre.drop_first(), x));
        }
    } else {
        assert(pre[0].0@ != id);
        assert(post[0] == pre[0]);
        assert forall|k: int| 0 <= k < i - 1 implies (#[trigger] pre.drop_first()[k]).0@ != id by {
            assert(pre.drop_first()[k] == pre[k + 1]);
        }
        assert forall|k: int|
            0 <= k < pre.drop_first().len() && k != i - 1 implies #[trigger] post.drop_first()[k]
                == pre.drop_first()[k] by {
            assert(post.drop_first()[k] == post[k + 1]);
            assert(pre.drop_first()[k] == pre[k + 1]);
        }
        assert(pre.drop_first().map_values(|p: (String, u64)| p.0@) =~= pk.drop_first());
        assert forall|a: int, b: int|
            0 <= a < b < pk.drop_first().len() implies pk.drop_first()[a] != pk.drop_first()[b] by {
            assert(pk.drop_first()[a] == pk[a + 1] && pk.drop_first()[b] == pk[b + 1]);
        }
        assert(pre.drop_first()[i - 1] == pre[i]);
        assert(post.drop_first()[i - 1] == post[i]);
        lemma_updated_cd(pre.drop_first(), post.drop_first(), i - 1, id, deadline);
        assert(cd_lookup(post, id) == cd_lookup(post.drop_first(), id));
        assert forall|x: Seq<char>| x != id implies cd_lookup(post, x) == cd_lookup(pre, x) by {
            if pre[0].0@ != x {
                assert(cd_lookup(post, x) == cd_lookup(post.drop_first(), x));
                assert(cd_lookup(pre, x) == cd_lookup(pre.drop_first(), x));
            }
        }
    }
}

/// Appending a record for a key the table does not hold sets that key and
/// keeps every other lookup.
proof fn lemma_pushed_cd(
    pre: Seq<(String, u64)>,
    post: Seq<(String, u64)>,
    id: Seq<char>,
    deadline: u64,
)
    requires
        distinct(pre.map_values(|p: (String, u64)| p.0@)),
        forall|k: int| 0 <= k < pre.len() ==> (#[trigger] pre[k]).0@ != id,
        post.len() == pre.len() + 1,
        post.last().0@ == id,
        post.last().1 == deadline,
        forall|k: int| 0 <= k < pre.len() ==> #[trigger] post[k] == pre[k],
    ensures
        distinct(post.map_values(|p: (String, u64)| p.0@)),
        cd_lookup(post, id) == Some(deadline),
        forall|x: Seq<char>| x != id ==> cd_lookup(post, x) == cd_lookup(pre, x),
    decreases pre.len(),
{
    let pk = pre.map_values(|p: (String, u64)| p.0@);
    let qk = post.map_values(|p: (String, u64)| p.0@);
    assert forall|a: int, b: int| 0 <= a < b < qk.len() implies qk[a] != qk[b] by {
        if b < pre.len() {
            assert(qk[a] == pk[a] && qk[b] == pk[b]);
        } else {
            assert(qk[b] == id);
            assert(qk[a] == pk[a]);
            assert(pre[a].0@ != id);
        }
    }
    if pre.len() == 0 {
        assert(post[0] == post.last());
        assert(cd_lookup(post, id) == Some(deadline));
        assert forall|x: Seq<char>| x != id implies cd_lookup(post, x) == cd_lookup(pre, x) by {
            assert(post[0].0@ == id);
            assert(post.drop_first() =~= Seq::<(String, u64)>::empty());
            assert(cd_lookup(post, x) == cd_lookup(post.drop_first(), x));
            assert(cd_lookup(post, x) is None);
            assert(cd_lookup(pre, x) is None);
        }
    } else {
        assert(post[0] == pre[0]);
        assert forall|k: int|
            0 <= k < pre.drop_first().len() implies (#[trigger] pre.drop_first()[k]).0@ != id by {
            assert(pre.drop_first()[k] == pre[k + 1]);
        }
        assert(pre.drop_first().map_values(|p: (String, u64)| p.0@) =~= pk.drop_first());
        assert forall|a: int, b: int|
            0 <= a < b < pk.drop_first().len() implies pk.drop_first()[a] != pk.drop_first()[b] by {
            assert(pk.drop_first()[a] == pk[a + 1] && pk.drop_first()[b] == pk[b + 1]);
        }
        assert(post.drop_first().len() == pre.drop_first().len() + 1);
        assert(post.drop_first().last() == post.last());
        assert forall|k: int|
            0 <= k < pre.drop_first().len() implies #[trigger] post.drop_first()[k]
                == pre.drop_first()[k] by {
            assert(post.drop_first()[k] == post[k + 1]);
            assert(pre.drop_first()[k] == pre[k + 1]);
        }
        lemma_pushed_cd(pre.drop_first(), post.drop_first(), id, deadline);
        if pre[0].0@ == id {
            assert(false);
        }
        assert(cd_lookup(post, id) == cd_lookup(post.drop_first(), id));
        assert forall|x: Seq<char>| x != id implies cd_lookup(post, x) == cd_lookup(pre, x) by {
            if pre[0].0@ != x {
                assert(cd_lookup(post, x) == cd_lookup(post.drop_first(), x));
                assert(cd_lookup(pre, x) == cd_lookup(pre.drop_first(), x));
            }
        }
    }
}


/// Whether some window in the snapshot has id `wid`.
pub open spec fn win_present(wins: Seq<(WindowId, String)>, wid: WindowId) -> bool {
    exists|j: int| 0 <= j < wins.len() && (#[trigger] wins[j]).0 == wid
}

/// The instances whose window is still in the snapshot, in their old order
/// and with their identity (status, error) preserved.
pub open spec fn kept_spec(insts: Seq<Instance>, wins: Seq<(WindowId, String)>) -> Seq<Instance>
    decreases insts.len(),
{
    if insts.len() == 0 {
        Seq::<Instance>::empty()
    } else {
        let rest = kept_spec(insts.drop_last(), wins);
        if win_present(wins, insts.last().window_id) {
            rest.push(insts.last())
        } else {
            rest
        }
    }
}

/// The ids of the instances whose window disappeared.
pub open spec fn dead_ids(insts: Seq<Instance>, wins: Seq<(WindowId, String)>) -> Seq<Seq<char>>
    decreases insts.len(),
{
    if insts.len() == 0 {
        Seq::<Seq<char>>::empty()
    } else {
        let rest = dead_ids(insts.drop_last(), wins);
        if win_present(wins, insts.last().window_id) {
            rest
        } else {
            rest.push(insts.last().id@)
        }
    }
}

/// The window ids of a list of instances.
pub open spec fn inst_wids(insts: Seq<Instance>) -> Seq<WindowId> {
    insts.map_values(|i: Instance| i.window_id)
}

/// The snapshot windows that get a new instance, left to right: those whose
/// id is neither already represented (`base`) nor seen earlier in the
/// snapshot itself.
pub open spec fn new_wins(base: Seq<WindowId>, wins: Seq<(WindowId, String)>) -> Seq<
    (WindowId, String),
>
    decreases wins.len(),
{
    if wins.len() == 0 {
        Seq::<(WindowId, String)>::empty()
    } else if base.contains(wins[0].0) {
        new_wins(base, wins.drop_first())
    } else {
        seq![wins[0]] + new_wins(base.push(wins[0].0), wins.drop_first())
    }
}

/// `r` is the reconciliation of `old_insts` against the snapshot `wins`:
/// the surviving instances first, in order and preserved, then a fresh
/// instance for each window not yet represented, in snapshot order.
pub open spec fn reconciled(
    name: Seq<char>,
    old_insts: Seq<Instance>,
    wins: Seq<(WindowId, String)>,
    r: Seq<Instance>,
) -> bool {
    let kept = kept_spec(old_insts, wins);
    let added = new_wins(inst_wids(kept), wins);
    &&& r.len() == kept.len() + added.len()
    &&& r.take(kept.len() as int) == kept
    &&& forall|k: int|
        0 <= k < added.len() ==> (#[trigger] r[kept.len() + k]).is_fresh(
            name,
            added[k].0,
            added[k].1@,
        )
}

/// Membership in a pushed sequence.
proof fn lemma_contains_push<T>(s: Seq<T>, v: T, x: T)
    ensures
        s.push(v).contains(x) == (s.contains(x) || x == v),
{
    if s.push(v).contains(x) {
        let k = choose|k: int| 0 <= k < s.push(v).len() && s.push(v)[k] == x;
        if k < s.len() {
            assert(s[k] == x);
        }
    }
    if s.contains(x) {
        let k = choose|k: int| 0 <= k < s.len() && s[k] == x;
        assert(s.push(v)[k] == x);
    }
    if x == v {
        assert(s.push(v)[s.len() as int] == x);
    }
}

/// Whether the snapshot lists window `wid`.
fn win_id_listed(wins: &Vec<(WindowId, String)>, wid: WindowId) -> (r: bool)
    ensures
        r == win_present(wins@, wid),
{
    let n = wins.len();
    let mut j: usize = 0;
    while j < n
        invariant
            n == wins@.len(),
            j <= n,
            forall|k: int| 0 <= k < j ==> (#[trigger] wins@[k]).0 != wid,
        decreases n - j,
    {
        if wins[j].0 == wid {
            return true;
        }
        j = j + 1;
    }
    false
}

/// Whether some instance in the list is bound to window `wid`.
fn inst_wid_listed(insts: &Vec<Instance>, wid: WindowId) -> (r: bool)
    ensures
        r == inst_wids(insts@).contains(wid),
{
    let n = insts.len();
    let mut j: usize = 0;
    while j < n
        invariant
            n == insts@.len(),
            j <= n,
            forall|k: int| 0 <= k < j ==> (#[trigger] insts@[k]).window_id != wid,
        decreases n - j,
    {
        if insts[j].window_id == wid {
            proof {
                assert(inst_wids(insts@)[j as int] == wid);
            }
            return true;
        }
        j = j + 1;
    }
    proof {
        if inst_wids(insts@).contains(wid) {
            let k = choose|k: int|
                0 <= k < inst_wids(insts@).len() && inst_wids(insts@)[k] == wid;
            assert(insts@[k].window_id == wid);
        }
    }
    false
}

/// Diff one entry's instances against the platform's current windows for
/// its pattern: instances whose window disappeared are dropped, their live
/// agents are unregistered (and returned so the caller can stop them) and
/// their cooldowns cleared, all before the instance is removed; windows not
/// yet represented become fresh instances with empty status. A surviving
/// instance is never dropped and recreated: its identity is preserved.
pub fn reconcile_entry(entry: &mut BotEntry, wins: &Vec<(WindowId, String)>, table: &mut AgentTable)
    -> (stops: Vec<String>)
    requires
        old(table).wf(),
    ensures
        final(table).wf(),
        final(entry).name == old(entry).name,
        final(entry).window_pattern == old(entry).window_pattern,
        final(entry).description == old(entry).description,
        final(entry).enabled == old(entry).enabled,
        final(entry).error == old(entry).error,
        final(entry).script_path == old(entry).script_path,
        reconciled(old(entry).name@, old(entry).instances@, wins@, final(entry).instances@),
        distinct(view_of(stops@)),
        forall|x: Seq<char>|
            view_of(stops@).contains(x) == (old(table).has_live(x) && dead_ids(
                old(entry).instances@,
                wins@,
            ).contains(x)),
        forall|x: Seq<char>|
            final(table).has_live(x) == (old(table).has_live(x) && !dead_ids(
                old(entry).instances@,
                wins@,
            ).contains(x)),
        forall|x: Seq<char>|
            final(table).cd_of(x) == (if dead_ids(old(entry).instances@, wins@).contains(x) {
                None::<u64>
            } else {
                old(table).cd_of(x)
            }),
{
    let ghost old_insts = entry.instances@;
    let mut rest = entry.instances.split_off(0);
    proof {
        assert(rest@ =~= old_insts);
        assert(entry.instances@ =~= Seq::<Instance>::empty());
        assert(old_insts.take(0) =~= Seq::<Instance>::empty());
        assert(rest@ =~= old_insts.skip(0));
    }
    let mut stops: Vec<String> = Vec::new();
    let ghost total = old_insts.len() as int;
    while rest.len() > 0
        invariant
            table.wf(),
            entry.name == old(entry).name,
            entry.window_pattern == old(entry).window_pattern,
            entry.description == old(entry).description,
            entry.enabled == old(entry).enabled,
            entry.error == old(entry).error,
            entry.script_path == old(entry).script_path,
            total == old_insts.len(),
            rest@.len() <= total,
            rest@ == old_insts.skip(total - rest@.len()),
            entry.instances@ == kept_spec(old_insts.take(total - rest@.len()), wins@),
            distinct(view_of(stops@)),
            forall|x: Seq<char>|
                view_of(stops@).contains(x) == (old(table).has_live(x) && dead_ids(
                    old_insts.take(total - rest@.len()),
                    wins@,
                ).contains(x)),
            forall|x: Seq<char>|
                table.has_live(x) == (old(table).has_live(x) && !dead_ids(
                    old_insts.take(total - rest@.len()),
                    wins@,
                ).contains(x)),
            forall|x: Seq<char>|
                table.cd_of(x) == (if dead_ids(old_insts.take(total - rest@.len()), wins@).contains(
                    x,
                ) {
                    None::<u64>
                } else {
                    old(table).cd_of(x)
                }),
        decreases rest@.len(),
    {
        let ghost k = total - rest@.len();
        proof {
            assert(old_insts.skip(k)[0] == old_insts[k]);
            assert(old_insts.take(k + 1).drop_last() =~= old_insts.take(k));
            assert(old_insts.take(k + 1).last() == old_insts[k]);
            assert(old_insts.skip(k).drop_first() =~= old_insts.skip(k + 1));
        }
        let inst = rest.remove(0);
        proof {
            assert(inst == old_insts[k]);
            assert(rest@ =~= old_insts.skip(k + 1));
        }
        let alive = win_id_listed(wins, inst.window_id);
        if alive {
            entry.instances.push(inst);
            proof {
                assert(entry.instances@ =~= kept_spec(old_insts.take(k + 1), wins@));
            }
        } else {
            let ghost t0 = *table;
            let ghost pre_stops = view_of(stops@);
            let ghost dead_pre = dead_ids(old_insts.take(k), wins@);
            let ghost dead_post = dead_ids(old_insts.take(k + 1), wins@);
            proof {
                assert(dead_post == dead_pre.push(inst.id@));
                assert(t0.has_live(inst.id@) == (old(table).has_live(inst.id@)
                    && !dead_pre.contains(inst.id@)));
                assert(pre_stops.contains(inst.id@) == (old(table).has_live(inst.id@)
                    && dead_pre.contains(inst.id@)));
            }
            table.remove_cd(&inst.id);
            let was = table.remove_live(&inst.id);
            proof {
                assert(was == t0.has_live(inst.id@));
            }
            if was {
                stops.push(inst.id);
                proof {
                    assert(view_of(stops@) =~= pre_stops.push(dead_post.last()));
                }
            }
            proof {
                assert forall|x: Seq<char>| true implies #[trigger] dead_post.contains(x) == (
                dead_pre.contains(x) || x == inst.id@) by {
                    lemma_contains_push(dead_pre, inst.id@, x);
                }
                if was {
                    assert forall|x: Seq<char>| true implies #[trigger] view_of(stops@).contains(x)
                        == (pre_stops.contains(x) || x == inst.id@) by {
                        lemma_contains_push(pre_stops, inst.id@, x);
                    }
                    assert(!pre_stops.contains(inst.id@));
                    assert(distinct(view_of(stops@))) by {
                        assert forall|a: int, b: int|
                            0 <= a < b < view_of(stops@).len() implies view_of(stops@)[a]
                                != view_of(stops@)[b] by {
                            if b < pre_stops.len() {
                                assert(view_of(stops@)[a] == pre_stops[a]);
                                assert(view_of(stops@)[b] == pre_stops[b]);
                            } else {
                                assert(view_of(stops@)[a] == pre_stops[a]);
                                assert(view_of(stops@)[b] == inst.id@);
                                assert(pre_stops.contains(pre_stops[a]));
                            }
                        }
                    }
                } else {
                    assert(view_of(stops@) == pre_stops);
                }
                assert forall|x: Seq<char>| true implies table.cd_of(x) == (if dead_post.contains(
                    x,
                ) {
                    None::<u64>
                } else {
                    old(table).cd_of(x)
                }) by {
                    if x == inst.id@ {
                        assert(table.cd_of(x) is None);
                    } else {
                        assert(table.cd_of(x) == t0.cd_of(x));
                    }
                }
                assert forall|x: Seq<char>| true implies table.has_live(x) == (old(
                    table,
                ).has_live(x) && !dead_post.contains(x)) by {
                    if x != inst.id@ {
                        assert(table.has_live(x) == t0.has_live(x));
                    }
                }
            }
        }
    }
    proof {
        assert(old_insts.take(total) =~= old_insts);
        assert(rest@.len() == 0);
        assert(dead_ids(old_insts.take(total - rest@.len()), wins@) == dead_ids(
            old_insts,
            wins@,
        ));
        assert(entry.instances@ == kept_spec(old_insts, wins@));
        assert forall|x: Seq<char>| true implies view_of(stops@).contains(x) == (old(
            table,
        ).has_live(x) && dead_ids(old_insts, wins@).contains(x)) by {
            assert(view_of(stops@).contains(x) == (old(table).has_live(x) && dead_ids(
                old_insts.take(total - rest@.len()),
                wins@,
            ).contains(x)));
        }
        assert forall|x: Seq<char>| true implies table.has_live(x) == (old(table).has_live(x)
            && !dead_ids(old_insts, wins@).contains(x)) by {
            assert(table.has_live(x) == (old(table).has_live(x) && !dead_ids(
                old_insts.take(total - rest@.len()),
                wins@,
            ).contains(x)));
        }
        assert forall|x: Seq<char>| true implies table.cd_of(x) == (if dead_ids(
            old_insts,
            wins@,
        ).contains(x) {
            None::<u64>
        } else {
            old(table).cd_of(x)
        }) by {
            assert(table.cd_of(x) == (if dead_ids(
                old_insts.take(total - rest@.len()),
                wins@,
            ).contains(x) {
                None::<u64>
            } else {
                old(table).cd_of(x)
            }));
        }
    }

    // Windows not yet represented become fresh instances.
    let ghost kept = kept_spec(old_insts, wins@);
    let ghost added_full = new_wins(inst_wids(kept), wins@);
    let nw = wins.len();
    let mut j: usize = 0;
    proof {
        assert(wins@.skip(0) =~= wins@);
        assert(added_full.skip(0) =~= added_full);
    }
    while j < nw
        invariant
            table.wf(),
            entry.name == old(entry).name,
            entry.window_pattern == old(entry).window_pattern,
            entry.description == old(entry).description,
            entry.enabled == old(entry).enabled,
            entry.error == old(entry).error,
            entry.script_path == old(entry).script_path,
            nw == wins@.len(),
            j <= nw,
            kept == kept_spec(old_insts, wins@),
            added_full == new_wins(inst_wids(kept), wins@),
            entry.instances@.len() >= kept.len(),
            entry.instances@.len() - kept.len() <= added_full.len(),
            entry.instances@.take(kept.len() as int) == kept,
            forall|k: int|
                0 <= k < entry.instances@.len() - kept.len() ==> (#[trigger] entry.instances@[kept.len()
                    + k]).is_fresh(old(entry).name@, added_full[k].0, added_full[k].1@),
            added_full.skip(entry.instances@.len() - kept.len()) == new_wins(
                inst_wids(entry.instances@),
                wins@.skip(j as int),
            ),
            forall|x: Seq<char>|
                view_of(stops@).contains(x) == (old(table).has_live(x) && dead_ids(
                    old_insts,
                    wins@,
                ).contains(x)),
            distinct(view_of(stops@)),
            forall|x: Seq<char>|
                table.has_live(x) == (old(table).has_live(x) && !dead_ids(old_insts, wins@).contains(
                    x,
                )),
            forall|x: Seq<char>|
                table.cd_of(x) == (if dead_ids(old_insts, wins@).contains(x) {
                    None::<u64>
                } else {
                    old(table).cd_of(x)
                }),
        decreases nw - j,
    {
        let ghost a = entry.instances@.len() - kept.len();
        let ghost base = inst_wids(entry.instances@);
        proof {
            assert(wins@.skip(j as int)[0] == wins@[j as int]);
            assert(wins@.skip(j as int).drop_first() =~= wins@.skip(j as int + 1));
        }
        let wid = wins[j].0;
        if !inst_wid_listed(&entry.instances, wid) {
            let title = wins[j].1.clone();
            let inst = Instance::new(entry.name.as_str(), wid, title);
            entry.instances.push(inst);
            proof {
                assert(added_full.skip(a) == seq![wins@[j as int]] + new_wins(
                    base.push(wid),
                    wins@.skip(j as int + 1),
                ));
                assert(added_full.skip(a)[0] == wins@[j as int]);
                assert(added_full[a] == wins@[j as int]);
                assert(entry.instances@[kept.len() + a].is_fresh(
                    old(entry).name@,
                    added_full[a].0,
                    added_full[a].1@,
                ));
                assert(inst_wids(entry.instances@) =~= base.push(wid));
                assert(added_full.skip(a + 1) =~= added_full.skip(a).drop_first());
                assert(added_full.skip(a).drop_first() =~= new_wins(
                    base.push(wid),
                    wins@.skip(j as int + 1),
                ));
                assert(entry.instances@.take(kept.len() as int) =~= kept);
            }
        }
        j = j + 1;
    }
    proof {
        assert(wins@.skip(nw as int) =~= Seq::<(WindowId, String)>::empty());
        let a = entry.instances@.len() - kept.len();
        assert(added_full.skip(a).len() == 0);
        assert(added_full.len() == a);
    }
    stops
}


/// A request to instantiate an agent for one instance. The caller performs
/// the instantiation and reports success through
/// [`AgentTable::agent_started`].
pub struct StartRequest {
    pub id: String,
    pub script_path: String,
    pub window_pattern: String,
    pub window_id: WindowId,
}

/// What a `Toggle` command asks the caller to do after the flip.
pub struct ToggleEffect {
    /// Agents to stop (already unregistered from the table).
    pub stops: Vec<String>,
    /// Live agents to reset in place.
    pub resets: Vec<String>,
    /// Agents to instantiate.
    pub starts: Vec<StartRequest>,
}

/// What a `Restart` command asks the caller to do.
pub struct RestartEffect {
    /// Agents to stop (already unregistered from the table).
    pub stops: Vec<String>,
    /// Agents to instantiate anew.
    pub starts: Vec<StartRequest>,
}

/// The ids of a list of instances.
pub open spec fn inst_ids(insts: Seq<Instance>) -> Seq<Seq<char>> {
    insts.map_values(|i: Instance| i.id@)
}

/// The start request for one instance of an entry.
pub open spec fn req_of(i: Instance, path: String, pattern: String) -> StartRequest {
    StartRequest { id: i.id, script_path: path, window_pattern: pattern, window_id: i.window_id }
}

/// Start requests for the instances that lack a live agent, in order.
pub open spec fn starts_spec(
    insts: Seq<Instance>,
    path: String,
    pattern: String,
    t: AgentTable,
) -> Seq<StartRequest>
    decreases insts.len(),
{
    if insts.len() == 0 {
        Seq::<StartRequest>::empty()
    } else {
        let rest = starts_spec(insts.drop_last(), path, pattern, t);
        if t.has_live(insts.last().id@) {
            rest
        } else {
            rest.push(req_of(insts.last(), path, pattern))
        }
    }
}

/// The ids of the instances that do have a live agent, in order.
pub open spec fn resets_spec(insts: Seq<Instance>, t: AgentTable) -> Seq<String>
    decreases insts.len(),
{
    if insts.len() == 0 {
        Seq::<String>::empty()
    } else {
        let rest = resets_spec(insts.drop_last(), t);
        if t.has_live(insts.last().id@) {
            rest.push(insts.last().id)
        } else {
            rest
        }
    }
}

/// A start request for every instance, in order.
pub open spec fn all_reqs_spec(insts: Seq<Instance>, path: String, pattern: String) -> Seq<
    StartRequest,
> {
    insts.map_values(|i: Instance| req_of(i, path, pattern))
}

/// Start requests for every enabled entry's agent-less instances, in entry
/// order.
pub open spec fn all_starts_spec(entries: Seq<BotEntry>, t: AgentTable, n: int) -> Seq<
    StartRequest,
>
    decreases n,
{
    if n <= 0 {
        Seq::<StartRequest>::empty()
    } else {
        all_starts_spec(entries, t, n - 1) + (if entries[n - 1].enabled {
            starts_spec(
                entries[n - 1].instances@,
                entries[n - 1].script_path,
                entries[n - 1].window_pattern,
                t,
            )
        } else {
            Seq::<StartRequest>::empty()
        })
    }
}

/// Start requests for this entry's instances that lack a live agent.
fn missing_start_requests(entry: &BotEntry, table: &AgentTable) -> (reqs: Vec<StartRequest>)
    ensures
        reqs@ == starts_spec(entry.instances@, entry.script_path, entry.window_pattern, *table),
{
    let mut reqs: Vec<StartRequest> = Vec::new();
    let n = entry.instances.len();
    let mut i: usize = 0;
    while i < n
        invariant
            n == entry.instances@.len(),
            i <= n,
            reqs@ == starts_spec(
                entry.instances@.take(i as int),
                entry.script_path,
                entry.window_pattern,
                *table,
            ),
        decreases n - i,
    {
        proof {
            assert(entry.instances@.take(i as int + 1).drop_last() =~= entry.instances@.take(
                i as int,
            ));
            assert(entry.instances@.take(i as int + 1).last() == entry.instances@[i as int]);
        }
        if !table.contains_live(&entry.instances[i].id) {
            reqs.push(
                StartRequest {
                    id: entry.instances[i].id.clone(),
                    script_path: entry.script_path.clone(),
                    window_pattern: entry.window_pattern.clone(),
                    window_id: entry.instances[i].window_id,
                },
            );
        }
        i = i + 1;
    }
    proof {
        assert(entry.instances@.take(n as int) =~= entry.instances@);
    }
    reqs
}

/// The ids of this entry's instances that do have a live agent.
fn reset_ids(entry: &BotEntry, table: &AgentTable) -> (ids: Vec<String>)
    ensures
        ids@ == resets_spec(entry.instances@, *table),
{
    let mut ids: Vec<String> = Vec::new();
    let n = entry.instances.len();
    let mut i: usize = 0;
    while i < n
        invariant
            n == entry.instances@.len(),
            i <= n,
            ids@ == resets_spec(entry.instances@.take(i as int), *table),
        decreases n - i,
    {
        proof {
            assert(entry.instances@.take(i as int + 1).drop_last() =~= entry.instances@.take(
                i as int,
            ));
            assert(entry.instances@.take(i as int + 1).last() == entry.instances@[i as int]);
        }
        if table.contains_live(&entry.instances[i].id) {
            ids.push(entry.instances[i].id.clone());
        }
        i = i + 1;
    }
    proof {
        assert(entry.instances@.take(n as int) =~= entry.instances@);
    }
    ids
}

/// A start request for every instance of this entry.
fn all_start_requests(entry: &BotEntry) -> (reqs: Vec<StartRequest>)
    ensures
        reqs@ == all_reqs_spec(entry.instances@, entry.script_path, entry.window_pattern),
{
    let mut reqs: Vec<StartRequest> = Vec::new();
    let n = entry.instances.len();
    let mut i: usize = 0;
    while i < n
        invariant
            n == entry.instances@.len(),
            i <= n,
            reqs@ == all_reqs_spec(
                entry.instances@.take(i as int),
                entry.script_path,
                entry.window_pattern,
            ),
        decreases n - i,
    {
        reqs.push(
            StartRequest {
                id: entry.instances[i].id.clone(),
                script_path: entry.script_path.clone(),
                window_pattern: entry.window_pattern.clone(),
                window_id: entry.instances[i].window_id,
            },
        );
        proof {
            assert(reqs@ =~= all_reqs_spec(
                entry.instances@.take(i as int + 1),
                entry.script_path,
                entry.window_pattern,
            ));
        }
        i = i + 1;
    }
    proof {
        assert(entry.instances@.take(n as int) =~= entry.instances@);
    }
    reqs
}

/// Unregister every instance of this list from the table: cooldowns are
/// cleared and live agents removed; the removed agents' ids come back, once
/// each, so the caller can stop them.
fn stop_instances(insts: &Vec<Instance>, table: &mut AgentTable) -> (stops: Vec<String>)
    requires
        old(table).wf(),
    ensures
        final(table).wf(),
        final(table).live@.len() <= old(table).live@.len(),
        forall|x: Seq<char>|
            final(table).has_live(x) == (old(table).has_live(x) && !inst_ids(insts@).contains(x)),
        forall|x: Seq<char>|
            final(table).cd_of(x) == (if inst_ids(insts@).contains(x) {
                None::<u64>
            } else {
                old(table).cd_of(x)
            }),
        distinct(view_of(stops@)),
        forall|x: Seq<char>|
            view_of(stops@).contains(x) == (old(table).has_live(x) && inst_ids(insts@).contains(x)),
{
    let mut stops: Vec<String> = Vec::new();
    let n = insts.len();
    let mut i: usize = 0;
    proof {
        assert(inst_ids(insts@.take(0)) =~= Seq::<Seq<char>>::empty());
    }
    while i < n
        invariant
            n == insts@.len(),
            i <= n,
            table.wf(),
            table.live@.len() <= old(table).live@.len(),
            forall|x: Seq<char>|
                table.has_live(x) == (old(table).has_live(x) && !inst_ids(
                    insts@.take(i as int),
                ).contains(x)),
            forall|x: Seq<char>|
                table.cd_of(x) == (if inst_ids(insts@.take(i as int)).contains(x) {
                    None::<u64>
                } else {
                    old(table).cd_of(x)
                }),
            distinct(view_of(stops@)),
            forall|x: Seq<char>|
                view_of(stops@).contains(x) == (old(table).has_live(x) && inst_ids(
                    insts@.take(i as int),
                ).contains(x)),
        decreases n - i,
    {
        let ghost ids_pre = inst_ids(insts@.take(i as int));
        let ghost ids_post = inst_ids(insts@.take(i as int + 1));
        let ghost t0 = *table;
        let ghost pre_stops = view_of(stops@);
        let id_ref = &insts[i].id;
        proof {
            assert(insts@.take(i as int + 1).drop_last() =~= insts@.take(i as int));
            assert(insts@.take(i as int + 1).last() == insts@[i as int]);
            assert(ids_post =~= ids_pre.push(insts@[i as int].id@));
            assert(t0.has_live(id_ref@) == (old(table).has_live(id_ref@) && !ids_pre.contains(
                id_ref@,
            )));
            assert(pre_stops.contains(id_ref@) == (old(table).has_live(id_ref@)
                && ids_pre.contains(id_ref@)));
        }
        table.remove_cd(id_ref);
        let was = table.remove_live(id_ref);
        proof {
            assert(was == t0.has_live(id_ref@));
        }
        if was {
            stops.push(insts[i].id.clone());
            proof {
                assert(view_of(stops@) =~= pre_stops.push(insts@[i as int].id@));
            }
        }
        proof {
            let idv = insts@[i as int].id@;
            assert forall|x: Seq<char>| true implies #[trigger] ids_post.contains(x) == (
            ids_pre.contains(x) || x == idv) by {
                lemma_contains_push(ids_pre, idv, x);
            }
            if was {
                assert forall|x: Seq<char>| true implies #[trigger] view_of(stops@).contains(x) == (
                pre_stops.contains(x) || x == idv) by {
                    lemma_contains_push(pre_stops, idv, x);
                }
                assert(!pre_stops.contains(idv));
                assert(distinct(view_of(stops@))) by {
                    assert forall|a: int, b: int|
                        0 <= a < b < view_of(stops@).len() implies view_of(stops@)[a] != view_of(
                            stops@,
                        )[b] by {
                        if b < pre_stops.len() {
                            assert(view_of(stops@)[a] == pre_stops[a]);
                            assert(view_of(stops@)[b] == pre_stops[b]);
                        } else {
                            assert(view_of(stops@)[a] == pre_stops[a]);
                            assert(view_of(stops@)[b] == idv);
                            assert(pre_stops.contains(pre_stops[a]));
                        }
                    }
                }
            } else {
                assert(view_of(stops@) == pre_stops);
            }
            assert forall|x: Seq<char>| true implies table.cd_of(x) == (if ids_post.contains(x) {
                None::<u64>
            } else {
                old(table).cd_of(x)
            }) by {
                if x == idv {
                    assert(table.cd_of(x) is None);
                } else {
                    assert(table.cd_of(x) == t0.cd_of(x));
                }
            }
            assert forall|x: Seq<char>| true implies table.has_live(x) == (old(table).has_live(x)
                && !ids_post.contains(x)) by {
                if x != idv {
                    assert(table.has_live(x) == t0.has_live(x));
                }
            }
        }
        i = i + 1;
    }
    proof {
        assert(insts@.take(n as int) =~= insts@);
    }
    stops
}

/// Apply a `Toggle` of `entries[idx]` after the flip and the full
/// reconcile. When the entry is enabled and the orchestrator runs, every
/// instance gets an agent: a live one is reset in place, a missing one is
/// requested. When the entry is disabled, its agents are stopped and their
/// cooldowns cleared. When the orchestrator is not running, enabling is
/// inert until a later start.
pub fn apply_toggle(entries: &Vec<BotEntry>, idx: usize, running: bool, table: &mut AgentTable)
    -> (eff: ToggleEffect)
    requires
        old(table).wf(),
    ensures
        final(table).wf(),
        idx < entries@.len() && entries@[idx as int].enabled && running ==> {
            &&& *final(table) == *old(table)
            &&& eff.stops@ == Seq::<String>::empty()
            &&& eff.resets@ == resets_spec(entries@[idx as int].instances@, *old(table))
            &&& eff.starts@ == starts_spec(
                entries@[idx as int].instances@,
                entries@[idx as int].script_path,
                entries@[idx as int].window_pattern,
                *old(table),
            )
        },
        idx < entries@.len() && !entries@[idx as int].enabled ==> {
            &&& eff.resets@ == Seq::<String>::empty()
            &&& eff.starts@ == Seq::<StartRequest>::empty()
            &&& distinct(view_of(eff.stops@))
            &&& forall|x: Seq<char>|
                view_of(eff.stops@).contains(x) == (old(table).has_live(x) && inst_ids(
                    entries@[idx as int].instances@,
                ).contains(x))
            &&& forall|x: Seq<char>|
                final(table).has_live(x) == (old(table).has_live(x) && !inst_ids(
                    entries@[idx as int].instances@,
                ).contains(x))
            &&& forall|x: Seq<char>|
                final(table).cd_of(x) == (if inst_ids(entries@[idx as int].instances@).contains(x) {
                    None::<u64>
                } else {
                    old(table).cd_of(x)
                })
        },
        idx < entries@.len() && entries@[idx as int].enabled && !running ==> *final(table) == *old(
            table,
        ) && eff.stops@ == Seq::<String>::empty() && eff.resets@ == Seq::<String>::empty()
            && eff.starts@ == Seq::<StartRequest>::empty(),
        idx >= entries@.len() ==> *final(table) == *old(table) && eff.stops@ == Seq::<
            String,
        >::empty() && eff.resets@ == Seq::<String>::empty() && eff.starts@ == Seq::<
            StartRequest,
        >::empty(),
{
    if idx >= entries.len() {
        return ToggleEffect { stops: Vec::new(), resets: Vec::new(), starts: Vec::new() };
    }
    let entry = &entries[idx];
    if entry.enabled && running {
        let resets = reset_ids(entry, table);
        let starts = missing_start_requests(entry, table);
        ToggleEffect { stops: Vec::new(), resets, starts }
    } else if !entry.enabled {
        let stops = stop_instances(&entry.instances, table);
        ToggleEffect { stops, resets: Vec::new(), starts: Vec::new() }
    } else {
        ToggleEffect { stops: Vec::new(), resets: Vec::new(), starts: Vec::new() }
    }
}

/// Apply a `StartStop` command. The control surface has already moved the
/// run state; on entering `Running` every instance of every enabled entry
/// that lacks an agent gets a start request. `Stopping` teardown happens in
/// the scheduler pass, and in `Stopped` nothing is owed.
pub fn handle_start_stop(entries: &Vec<BotEntry>, state: RunState, table: &AgentTable) -> (starts:
    Vec<StartRequest>)
    ensures
        state == RunState::Running ==> starts@ == all_starts_spec(
            entries@,
            *table,
            entries@.len() as int,
        ),
        state != RunState::Running ==> starts@ == Seq::<StartRequest>::empty(),
{
    let mut starts: Vec<StartRequest> = Vec::new();
    if !(state == RunState::Running) {
        return starts;
    }
    let n = entries.len();
    let mut i: usize = 0;
    while i < n
        invariant
            n == entries@.len(),
            i <= n,
            starts@ == all_starts_spec(entries@, *table, i as int),
        decreases n - i,
    {
        if entries[i].enabled {
            let mut reqs = missing_start_requests(&entries[i], table);
            starts.append(&mut reqs);
        }
        i = i + 1;
    }
    starts
}

/// Apply a `Restart` of `entries[idx]`: only when the orchestrator runs and
/// the entry is enabled, every instance's agent is stopped (if live), its
/// cooldown cleared so it becomes immediately eligible, and a fresh start
/// is requested for every instance.
pub fn handle_restart(entries: &Vec<BotEntry>, idx: usize, running: bool, table: &mut AgentTable)
    -> (eff: RestartEffect)
    requires
        old(table).wf(),
    ensures
        final(table).wf(),
        running && idx < entries@.len() && entries@[idx as int].enabled ==> {
            &&& eff.starts@ == all_reqs_spec(
                entries@[idx as int].instances@,
                entries@[idx as int].script_path,
                entries@[idx as int].window_pattern,
            )
            &&& distinct(view_of(eff.stops@))
            &&& forall|x: Seq<char>|
                view_of(eff.stops@).contains(x) == (old(table).has_live(x) && inst_ids(
                    entries@[idx as int].instances@,
                ).contains(x))
            &&& forall|x: Seq<char>|
                final(table).has_live(x) == (old(table).has_live(x) && !inst_ids(
                    entries@[idx as int].instances@,
                ).contains(x))
            &&& forall|x: Seq<char>|
                final(table).cd_of(x) == (if inst_ids(entries@[idx as int].instances@).contains(x) {
                    None::<u64>
                } else {
                    old(table).cd_of(x)
                })
        },
        !(running && idx < entries@.len() && entries@[idx as int].enabled) ==> *final(table)
            == *old(table) && eff.stops@ == Seq::<String>::empty() && eff.starts@ == Seq::<
            StartRequest,
        >::empty(),
{
    if !running || idx >= entries.len() {
        return RestartEffect { stops: Vec::new(), starts: Vec::new() };
    }
    let entry = &entries[idx];
    if !entry.enabled {
        return RestartEffect { stops: Vec::new(), starts: Vec::new() };
    }
    let stops = stop_instances(&entry.instances, table);
    let starts = all_start_requests(entry);
    RestartEffect { stops, starts }
}

/// Apply `Quit`: every live agent is handed back to be stopped, all state
/// is cleared, and the run state becomes `Stopped`. After this the
/// live-agent table is empty, whatever went before.
pub fn handle_quit(table: &mut AgentTable, state: &mut RunState) -> (stops: Vec<String>)
    ensures
        stops@ == old(table).live@,
        final(table).live@ == Seq::<String>::empty(),
        final(table).cooldowns@ == Seq::<(String, u64)>::empty(),
        final(table).wf(),
        *final(state) == RunState::Stopped,
{
    *state = RunState::Stopped;
    table.drain()
}

/// Graceful-stop teardown, run by the scheduler pass while the state is
/// `Stopping`: every live agent is handed back to be stopped, all cooldowns
/// are cleared, and the state becomes `Stopped`.
pub fn stopping_teardown(table: &mut AgentTable, state: &mut RunState) -> (stops: Vec<String>)
    ensures
        stops@ == old(table).live@,
        final(table).live@ == Seq::<String>::empty(),
        final(table).cooldowns@ == Seq::<(String, u64)>::empty(),
        final(table).wf(),
        *final(state) == RunState::Stopped,
{
    *state = RunState::Stopped;
    table.drain()
}


/// Membership in a concatenation.
proof fn lemma_contains_add<T>(a: Seq<T>, b: Seq<T>, x: T)
    ensures
        (a + b).contains(x) == (a.contains(x) || b.contains(x)),
{
    if (a + b).contains(x) {
        let k = choose|k: int| 0 <= k < (a + b).len() && (a + b)[k] == x;
        if k < a.len() {
            assert(a[k] == x);
        } else {
            assert(b[k - a.len()] == x);
        }
    }
    if a.contains(x) {
        let k = choose|k: int| 0 <= k < a.len() && a[k] == x;
        assert((a + b)[k] == x);
    }
    if b.contains(x) {
        let k = choose|k: int| 0 <= k < b.len() && b[k] == x;
        assert((a + b)[a.len() + k] == x);
    }
}

/// The dead ids of the first `n` entries against their snapshots, in entry
/// order.
pub open spec fn all_dead_ids(
    entries: Seq<BotEntry>,
    snaps: Seq<Vec<(WindowId, String)>>,
    n: int,
) -> Seq<Seq<char>>
    decreases n,
{
    if n <= 0 {
        Seq::<Seq<char>>::empty()
    } else {
        all_dead_ids(entries, snaps, n - 1) + dead_ids(entries[n - 1].instances@, snaps[n - 1]@)
    }
}

/// Reconcile every entry against its window snapshot (`snaps[i]` holds the
/// live windows for `entries[i]`'s pattern). Stale instances are dropped
/// everywhere, their agents unregistered and handed back to be stopped, and
/// new windows become fresh instances.
pub fn reconcile_all(
    entries: &mut Vec<BotEntry>,
    snaps: &Vec<Vec<(WindowId, String)>>,
    table: &mut AgentTable,
) -> (stops: Vec<String>)
    requires
        old(table).wf(),
        snaps@.len() == old(entries)@.len(),
    ensures
        final(table).wf(),
        final(entries)@.len() == old(entries)@.len(),
        forall|i: int|
            0 <= i < old(entries)@.len() ==> {
                &&& (#[trigger] final(entries)@[i]).name == old(entries)@[i].name
                &&& final(entries)@[i].window_pattern == old(entries)@[i].window_pattern
                &&& final(entries)@[i].description == old(entries)@[i].description
                &&& final(entries)@[i].enabled == old(entries)@[i].enabled
                &&& final(entries)@[i].error == old(entries)@[i].error
                &&& final(entries)@[i].script_path == old(entries)@[i].script_path
                &&& reconciled(
                    old(entries)@[i].name@,
                    old(entries)@[i].instances@,
                    snaps@[i]@,
                    final(entries)@[i].instances@,
                )
            },
        distinct(view_of(stops@)),
        forall|x: Seq<char>|
            view_of(stops@).contains(x) == (old(table).has_live(x) && all_dead_ids(
                old(entries)@,
                snaps@,
                old(entries)@.len() as int,
            ).contains(x)),
        forall|x: Seq<char>|
            final(table).has_live(x) == (old(table).has_live(x) && !all_dead_ids(
                old(entries)@,
                snaps@,
                old(entries)@.len() as int,
            ).contains(x)),
        forall|x: Seq<char>|
            final(table).cd_of(x) == (if all_dead_ids(
                old(entries)@,
                snaps@,
                old(entries)@.len() as int,
            ).contains(x) {
                None::<u64>
            } else {
                old(table).cd_of(x)
            }),
{
    let ghost old_entries = entries@;
    let total = entries.len();
    let mut rest = entries.split_off(0);
    proof {
        assert(rest@ =~= old_entries);
        assert(entries@ =~= Seq::<BotEntry>::empty());
    }
    let mut stops: Vec<String> = Vec::new();
    while rest.len() > 0
        invariant
            table.wf(),
            snaps@.len() == old_entries.len(),
            total == old_entries.len(),
            entries@.len() + rest@.len() == total,
            rest@ == old_entries.skip(entries@.len() as int),
            forall|i: int|
                0 <= i < entries@.len() ==> {
                    &&& (#[trigger] entries@[i]).name == old_entries[i].name
                    &&& entries@[i].window_pattern == old_entries[i].window_pattern
                    &&& entries@[i].description == old_entries[i].description
                    &&& entries@[i].enabled == old_entries[i].enabled
                    &&& entries@[i].error == old_entries[i].error
                    &&& entries@[i].script_path == old_entries[i].script_path
                    &&& reconciled(
                        old_entries[i].name@,
                        old_entries[i].instances@,
                        snaps@[i]@,
                        entries@[i].instances@,
                    )
                },
            distinct(view_of(stops@)),
            forall|x: Seq<char>|
                view_of(stops@).contains(x) == (old(table).has_live(x) && all_dead_ids(
                    old_entries,
                    snaps@,
                    entries@.len() as int,
                ).contains(x)),
            forall|x: Seq<char>|
                table.has_live(x) == (old(table).has_live(x) && !all_dead_ids(
                    old_entries,
                    snaps@,
                    entries@.len() as int,
                ).contains(x)),
            forall|x: Seq<char>|
                table.cd_of(x) == (if all_dead_ids(
                    old_entries,
                    snaps@,
                    entries@.len() as int,
                ).contains(x) {
                    None::<u64>
                } else {
                    old(table).cd_of(x)
                }),
        decreases rest@.len(),
    {
        let ghost k = entries@.len() as int;
        let ghost t0 = *table;
        let ghost stops0 = view_of(stops@);
        let ghost dead_before = all_dead_ids(old_entries, snaps@, k);
        proof {
            assert(old_entries.skip(k)[0] == old_entries[k]);
            assert(old_entries.skip(k).drop_first() =~= old_entries.skip(k + 1));
        }
        let mut e = rest.remove(0);
        let i = entries.len();
        let mut st = reconcile_entry(&mut e, &snaps[i], table);
        let ghost st_view = view_of(st@);
        let ghost dead_k = dead_ids(old_entries[k].instances@, snaps@[k]@);
        stops.append(&mut st);
        entries.push(e);
        proof {
            assert(rest@ =~= old_entries.skip(k + 1));
            assert(entries@.len() == k + 1);
            assert(all_dead_ids(old_entries, snaps@, k + 1) == dead_before + dead_k);
            assert(view_of(stops@) =~= stops0 + st_view);
            assert forall|x: Seq<char>| true implies #[trigger] (dead_before + dead_k).contains(x)
                == (dead_before.contains(x) || dead_k.contains(x)) by {
                lemma_contains_add(dead_before, dead_k, x);
            }
            assert forall|x: Seq<char>| true implies #[trigger] (stops0 + st_view).contains(x) == (
            stops0.contains(x) || st_view.contains(x)) by {
                lemma_contains_add(stops0, st_view, x);
            }
            assert(distinct(view_of(stops@))) by {
                let w = stops0 + st_view;
                assert forall|a: int, b: int| 0 <= a < b < w.len() implies w[a] != w[b] by {
                    if b < stops0.len() {
                        assert(w[a] == stops0[a] && w[b] == stops0[b]);
                    } else if a >= stops0.len() {
                        assert(w[a] == st_view[a - stops0.len()] && w[b] == st_view[b
                            - stops0.len()]);
                    } else {
                        assert(w[a] == stops0[a] && w[b] == st_view[b - stops0.len()]);
                        assert(stops0.contains(w[a]));
                        assert(st_view.contains(w[b]));
                        if w[a] == w[b] {
                            assert(t0.has_live(w[b]) && dead_k.contains(w[b]));
                            assert(old(table).has_live(w[a]) && dead_before.contains(w[a]));
                            assert(!t0.has_live(w[a]));
                        }
                    }
                }
            }
        }
    }
    proof {
        assert(entries@.len() == total);
        assert forall|i: int| 0 <= i < total implies old_entries[i] == old(entries)@[i] by {}
    }
    stops
}

/// Populate every entry's instance list from its window snapshot, replacing
/// whatever was there: one fresh instance per reported window, in order.
pub fn scan_instances(entries: &mut Vec<BotEntry>, snaps: &Vec<Vec<(WindowId, String)>>)
    requires
        snaps@.len() == old(entries)@.len(),
    ensures
        final(entries)@.len() == old(entries)@.len(),
        forall|i: int|
            0 <= i < old(entries)@.len() ==> {
                &&& (#[trigger] final(entries)@[i]).name == old(entries)@[i].name
                &&& final(entries)@[i].window_pattern == old(entries)@[i].window_pattern
                &&& final(entries)@[i].description == old(entries)@[i].description
                &&& final(entries)@[i].enabled == old(entries)@[i].enabled
                &&& final(entries)@[i].error == old(entries)@[i].error
                &&& final(entries)@[i].script_path == old(entries)@[i].script_path
                &&& final(entries)@[i].instances@.len() == snaps@[i]@.len()
                &&& forall|j: int|
                    0 <= j < snaps@[i]@.len() ==> (#[trigger] final(entries)@[i].instances@[j]).is_fresh(
                        old(entries)@[i].name@,
                        snaps@[i]@[j].0,
                        snaps@[i]@[j].1@,
                    )
            },
{
    let ghost old_entries = entries@;
    let total = entries.len();
    let mut rest = entries.split_off(0);
    proof {
        assert(rest@ =~= old_entries);
        assert(entries@ =~= Seq::<BotEntry>::empty());
    }
    while rest.len() > 0
        invariant
            snaps@.len() == old_entries.len(),
            total == old_entries.len(),
            entries@.len() + rest@.len() == total,
            rest@ == old_entries.skip(entries@.len() as int),
            forall|i: int|
                0 <= i < entries@.len() ==> {
                    &&& (#[trigger] entries@[i]).name == old_entries[i].name
                    &&& entries@[i].window_pattern == old_entries[i].window_pattern
                    &&& entries@[i].description == old_entries[i].description
                    &&& entries@[i].enabled == old_entries[i].enabled
                    &&& entries@[i].error == old_entries[i].error
                    &&& entries@[i].script_path == old_entries[i].script_path
                    &&& entries@[i].instances@.len() == snaps@[i]@.len()
                    &&& forall|j: int|
                        0 <= j < snaps@[i]@.len() ==> (#[trigger] entries@[i].instances@[j]).is_fresh(
                            old_entries[i].name@,
                            snaps@[i]@[j].0,
                            snaps@[i]@[j].1@,
                        )
                },
        decreases rest@.len(),
    {
        let ghost k = entries@.len() as int;
        proof {
            assert(old_entries.skip(k)[0] == old_entries[k]);
            assert(old_entries.skip(k).drop_first() =~= old_entries.skip(k + 1));
        }
        let mut e = rest.remove(0);
        let i = entries.len();
        e.instances.clear();
        let snap = &snaps[i];
        let m = snap.len();
        let mut j: usize = 0;
        while j < m
            invariant
                m == snap@.len(),
                j <= m,
                snap == &snaps@[k],
                0 <= k < snaps@.len(),
                e.name == old_entries[k].name,
                e.window_pattern == old_entries[k].window_pattern,
                e.description == old_entries[k].description,
                e.enabled == old_entries[k].enabled,
                e.error == old_entries[k].error,
                e.script_path == old_entries[k].script_path,
                e.instances@.len() == j,
                forall|q: int|
                    0 <= q < j ==> (#[trigger] e.instances@[q]).is_fresh(
                        old_entries[k].name@,
                        snap@[q].0,
                        snap@[q].1@,
                    ),
            decreases m - j,
        {
            let title = snap[j].1.clone();
            let inst = Instance::new(e.name.as_str(), snap[j].0, title);
            e.instances.push(inst);
            j = j + 1;
        }
        proof {
            assert(rest@ =~= old_entries.skip(k + 1));
        }
        entries.push(e);
    }
    proof {
        assert forall|i: int| 0 <= i < total implies old_entries[i] == old(entries)@[i] by {}
    }
}


/// Cooldown, in milliseconds, applied after a tick that reports none or
/// fails.
pub const DEFAULT_COOLDOWN_MS: u64 = 5000;

/// The cooldown an agent earns from the value its tick returned: the
/// reported number of milliseconds, or the default when it reported none.
pub fn cooldown_after_tick(reported: Option<u64>) -> (r: u64)
    ensures
        r == match reported {
            Some(ms) => ms,
            None => DEFAULT_COOLDOWN_MS,
        },
{
    match reported {
        Some(ms) => ms,
        None => DEFAULT_COOLDOWN_MS,
    }
}

/// The cooldown a tick outcome earns: the reported milliseconds of a
/// successful tick, or the default on none or on error.
pub open spec fn tick_cd_spec(tick: Result<Option<u64>, String>) -> u64 {
    match tick {
        Ok(Some(ms)) => ms,
        Ok(None) => DEFAULT_COOLDOWN_MS,
        Err(_) => DEFAULT_COOLDOWN_MS,
    }
}

/// `now + cd`, saturating at the top of the range.
pub open spec fn deadline_spec(now: u64, cd: u64) -> u64 {
    if now + cd <= u64::MAX {
        (now + cd) as u64
    } else {
        u64::MAX
    }
}

/// The ready instances of one entry: those with a live agent whose
/// cooldown has elapsed (or was never set), in instance order.
pub open spec fn entry_ready_ids(insts: Seq<Instance>, t: AgentTable, now: u64) -> Seq<String>
    decreases insts.len(),
{
    if insts.len() == 0 {
        Seq::<String>::empty()
    } else {
        let rest = entry_ready_ids(insts.drop_last(), t, now);
        if t.has_live(insts.last().id@) && t.ready_at(insts.last().id@, now) {
            rest.push(insts.last().id)
        } else {
            rest
        }
    }
}

/// The ready instances of the first `n` entries, enabled entries only, in
/// entry order.
pub open spec fn all_ready_ids(entries: Seq<BotEntry>, t: AgentTable, now: u64, n: int) -> Seq<
    String,
>
    decreases n,
{
    if n <= 0 {
        Seq::<String>::empty()
    } else {
        all_ready_ids(entries, t, now, n - 1) + (if entries[n - 1].enabled {
            entry_ready_ids(entries[n - 1].instances@, t, now)
        } else {
            Seq::<String>::empty()
        })
    }
}

/// One scheduler snapshot: the ids that are enabled, have a live agent,
/// and whose cooldown deadline has elapsed or was never set, in entry and
/// instance order.
pub fn ready_ids(entries: &Vec<BotEntry>, table: &AgentTable, now: u64) -> (r: Vec<String>)
    ensures
        r@ == all_ready_ids(entries@, *table, now, entries@.len() as int),
{
    let mut r: Vec<String> = Vec::new();
    let n = entries.len();
    let mut i: usize = 0;
    while i < n
        invariant
            n == entries@.len(),
            i <= n,
            r@ == all_ready_ids(entries@, *table, now, i as int),
        decreases n - i,
    {
        if entries[i].enabled {
            let insts = &entries[i].instances;
            let m = insts.len();
            let mut j: usize = 0;
            while j < m
                invariant
                    m == insts@.len(),
                    j <= m,
                    insts == &entries@[i as int].instances,
                    r@ == all_ready_ids(entries@, *table, now, i as int) + entry_ready_ids(
                        insts@.take(j as int),
                        *table,
                        now,
                    ),
                decreases m - j,
            {
                proof {
                    assert(insts@.take(j as int + 1).drop_last() =~= insts@.take(j as int));
                    assert(insts@.take(j as int + 1).last() == insts@[j as int]);
                }
                let id = &insts[j].id;
                if table.contains_live(id) && table.is_ready(id, now) {
                    r.push(insts[j].id.clone());
                    proof {
                        assert(r@ =~= all_ready_ids(entries@, *table, now, i as int)
                            + entry_ready_ids(insts@.take(j as int + 1), *table, now));
                    }
                } else {
                    proof {
                        assert(entry_ready_ids(insts@.take(j as int + 1), *table, now)
                            == entry_ready_ids(insts@.take(j as int), *table, now));
                    }
                }
                j = j + 1;
            }
            proof {
                assert(insts@.take(m as int) =~= insts@);
            }
        } else {
            proof {
                assert(all_ready_ids(entries@, *table, now, i as int + 1) =~= all_ready_ids(
                    entries@,
                    *table,
                    now,
                    i as int,
                ));
            }
        }
        i = i + 1;
    }
    r
}

/// The position of the first instance with id `id`, if any.
pub open spec fn inst_first(insts: Seq<Instance>, id: Seq<char>) -> Option<int>
    decreases insts.len(),
{
    if insts.len() == 0 {
        None
    } else if insts[0].id@ == id {
        Some(0)
    } else {
        match inst_first(insts.drop_first(), id) {
            None => None,
            Some(j) => Some(j + 1),
        }
    }
}

/// The position `(entry, instance)` of the first instance with id `id`
/// across all entries, if any.
pub open spec fn entries_first(entries: Seq<BotEntry>, id: Seq<char>) -> Option<(int, int)>
    decreases entries.len(),
{
    if entries.len() == 0 {
        None
    } else {
        match inst_first(entries[0].instances@, id) {
            Some(j) => Some((0, j)),
            None => match entries_first(entries.drop_first(), id) {
                None => None,
                Some(p) => Some((p.0 + 1, p.1)),
            },
        }
    }
}

/// A prefix of misses pins the first hit.
proof fn lemma_inst_first_hit(insts: Seq<Instance>, id: Seq<char>, j: int)
    requires
        0 <= j < insts.len(),
        insts[j].id@ == id,
        forall|q: int| 0 <= q < j ==> (#[trigger] insts[q]).id@ != id,
    ensures
        inst_first(insts, id) == Some(j),
    decreases j,
{
    if j == 0 {
    } else {
        assert(insts[0].id@ != id);
        assert(insts.drop_first()[j - 1] == insts[j]);
        assert forall|q: int| 0 <= q < j - 1 implies (#[trigger] insts.drop_first()[q]).id@
            != id by {
            assert(insts.drop_first()[q] == insts[q + 1]);
        }
        lemma_inst_first_hit(insts.drop_first(), id, j - 1);
    }
}

/// All misses means no hit.
proof fn lemma_inst_first_none(insts: Seq<Instance>, id: Seq<char>)
    requires
        forall|q: int| 0 <= q < insts.len() ==> (#[trigger] insts[q]).id@ != id,
    ensures
        inst_first(insts, id) is None,
    decreases insts.len(),
{
    if insts.len() > 0 {
        assert forall|q: int|
            0 <= q < insts.drop_first().len() implies (#[trigger] insts.drop_first()[q]).id@
                != id by {
            assert(insts.drop_first()[q] == insts[q + 1]);
        }
        lemma_inst_first_none(insts.drop_first(), id);
    }
}

/// A prefix of entries without a hit pins the first hit across all entries.
proof fn lemma_entries_first_hit(entries: Seq<BotEntry>, id: Seq<char>, e: int, j: int)
    requires
        0 <= e < entries.len(),
        forall|k: int| 0 <= k < e ==> inst_first((#[trigger] entries[k]).instances@, id) is None,
        inst_first(entries[e].instances@, id) == Some(j),
    ensures
        entries_first(entries, id) == Some((e, j)),
    decreases e,
{
    if e == 0 {
    } else {
        assert(inst_first(entries[0].instances@, id) is None);
        assert(entries.drop_first()[e - 1] == entries[e]);
        assert forall|k: int| 0 <= k < e - 1 implies inst_first(
            (#[trigger] entries.drop_first()[k]).instances@,
            id,
        ) is None by {
            assert(entries.drop_first()[k] == entries[k + 1]);
        }
        lemma_entries_first_hit(entries.drop_first(), id, e - 1, j);
    }
}

/// No entry has a hit means no hit at all.
proof fn lemma_entries_first_none(entries: Seq<BotEntry>, id: Seq<char>)
    requires
        forall|k: int|
            0 <= k < entries.len() ==> inst_first((#[trigger] entries[k]).instances@, id) is None,
    ensures
        entries_first(entries, id) is None,
    decreases entries.len(),
{
    if entries.len() > 0 {
        assert forall|k: int| 0 <= k < entries.drop_first().len() implies inst_first(
            (#[trigger] entries.drop_first()[k]).instances@,
            id,
        ) is None by {
            assert(entries.drop_first()[k] == entries[k + 1]);
        }
        lemma_entries_first_none(entries.drop_first(), id);
    }
}

/// Record one dispatched tick for `id`: the cooldown deadline becomes
/// `now` plus the earned cooldown (the reported milliseconds, or the
/// default of a tick that reported none or failed — a failing agent does
/// not spin), and the registry record of the first instance with that id
/// is updated: a fetched status is written, a missing or failed status
/// fetch leaves the status unchanged, and the error field reflects the
/// tick outcome. A tick error keeps the agent alive.
pub fn record_tick(
    entries: &mut Vec<BotEntry>,
    table: &mut AgentTable,
    id: &String,
    tick: Result<Option<u64>, String>,
    status: Option<String>,
    now: u64,
)
    requires
        old(table).wf(),
    ensures
        final(table).wf(),
        final(table).live == old(table).live,
        final(table).cd_of(id@) == Some(deadline_spec(now, tick_cd_spec(tick))),
        forall|x: Seq<char>| x != id@ ==> final(table).cd_of(x) == old(table).cd_of(x),
        entries_first(old(entries)@, id@) is None ==> final(entries)@ == old(entries)@,
        entries_first(old(entries)@, id@) matches Some(p) ==> {
            let oe = old(entries)@[p.0];
            let oi = oe.instances@[p.1];
            &&& final(entries)@.len() == old(entries)@.len()
            &&& forall|k: int|
                0 <= k < old(entries)@.len() && k != p.0 ==> final(entries)@[k] == old(entries)@[k]
            &&& final(entries)@[p.0].name == oe.name
            &&& final(entries)@[p.0].window_pattern == oe.window_pattern
            &&& final(entries)@[p.0].description == oe.description
            &&& final(entries)@[p.0].enabled == oe.enabled
            &&& final(entries)@[p.0].error == oe.error
            &&& final(entries)@[p.0].script_path == oe.script_path
            &&& final(entries)@[p.0].instances@.len() == oe.instances@.len()
            &&& forall|q: int|
                0 <= q < oe.instances@.len() && q != p.1 ==> final(entries)@[p.0].instances@[q]
                    == oe.instances@[q]
            &&& final(entries)@[p.0].instances@[p.1].id == oi.id
            &&& final(entries)@[p.0].instances@[p.1].window_id == oi.window_id
            &&& final(entries)@[p.0].instances@[p.1].window_title == oi.window_title
            &&& final(entries)@[p.0].instances@[p.1].status == (match status {
                Some(st) => st,
                None => oi.status,
            })
            &&& final(entries)@[p.0].instances@[p.1].error == (match tick {
                Ok(_) => None::<String>,
                Err(e) => Some(e),
            })
        },
{
    let ghost tick0 = tick;
    let (cd_opt, err_opt): (Option<u64>, Option<String>) = match tick {
        Ok(ms) => (ms, None),
        Err(e) => (None, Some(e)),
    };
    proof {
        assert(err_opt == (match tick0 {
            Ok(_) => None::<String>,
            Err(e) => Some(e),
        }));
        assert(cd_opt == (match tick0 {
            Ok(ms) => ms,
            Err(_) => None::<u64>,
        }));
    }
    let ghost status0 = status;
    let cd = cooldown_after_tick(cd_opt);
    let deadline: u64 = if now <= u64::MAX - cd {
        now + cd
    } else {
        u64::MAX
    };
    table.set_cd(id, deadline);

    let n = entries.len();
    let mut e: usize = 0;
    while e < n
        invariant
            n == entries@.len(),
            e <= n,
            entries == old(entries),
            table.wf(),
            table.live == old(table).live,
            table.cd_of(id@) == Some(deadline_spec(now, tick_cd_spec(tick))),
            forall|x: Seq<char>| x != id@ ==> table.cd_of(x) == old(table).cd_of(x),
            forall|k: int|
                0 <= k < e ==> inst_first((#[trigger] entries@[k]).instances@, id@) is None,
            err_opt == (match tick0 {
                Ok(_) => None::<String>,
                Err(err) => Some(err),
            }),
            status == status0,
            tick0 == tick,
        decreases n - e,
    {
        let found = find_inst(&entries[e].instances, id);
        if let Some(j) = found {
            proof {
                lemma_entries_first_hit(entries@, id@, e as int, j as int);
            }
            let ghost pre_entries = entries@;
            let mut ent = entries.remove(e);
            let ghost pre_insts = ent.instances@;
            let inst = ent.instances.remove(j);
            let new_status = match status {
                Some(st) => st,
                None => inst.status,
            };
            let ni = Instance {
                id: inst.id,
                window_id: inst.window_id,
                window_title: inst.window_title,
                status: new_status,
                error: err_opt,
            };
            ent.instances.insert(j, ni);
            entries.insert(e, ent);
            proof {
                let ei = e as int;
                let ji = j as int;
                let mid = pre_entries.remove(ei);
                assert(entries@.len() == pre_entries.len());
                assert(entries@[ei] == mid.insert(ei, ent)[ei]);
                assert(entries@[ei] == ent);
                assert forall|k: int|
                    0 <= k < pre_entries.len() && k != ei implies entries@[k] == pre_entries[k] by {
                    if k < ei {
                        assert(entries@[k] == mid.insert(ei, ent)[k]);
                        assert(mid.insert(ei, ent)[k] == mid[k]);
                        assert(mid[k] == pre_entries[k]);
                    } else {
                        assert(entries@[k] == mid.insert(ei, ent)[k]);
                        assert(mid.insert(ei, ent)[k] == mid[k - 1]);
                        assert(mid[k - 1] == pre_entries[k]);
                    }
                }
                let imid = pre_insts.remove(ji);
                assert(ent.instances@[ji] == imid.insert(ji, ni)[ji]);
                assert(ent.instances@[ji] == ni);
                assert forall|q: int|
                    0 <= q < pre_insts.len() && q != ji implies ent.instances@[q]
                        == pre_insts[q] by {
                    if q < ji {
                        assert(ent.instances@[q] == imid.insert(ji, ni)[q]);
                        assert(imid.insert(ji, ni)[q] == imid[q]);
                        assert(imid[q] == pre_insts[q]);
                    } else {
                        assert(ent.instances@[q] == imid.insert(ji, ni)[q]);
                        assert(imid.insert(ji, ni)[q] == imid[q - 1]);
                        assert(imid[q - 1] == pre_insts[q]);
                    }
                }
                assert(inst == pre_insts[ji]);
            }
            return ;
        }
        e = e + 1;
    }
    proof {
        lemma_entries_first_none(entries@, id@);
    }
}

/// Find the first instance with id `id` in a list.
fn find_inst(insts: &Vec<Instance>, id: &String) -> (r: Option<usize>)
    ensures
        match r {
            Some(j) => j < insts@.len() && inst_first(insts@, id@) == Some(j as int),
            None => inst_first(insts@, id@) is None,
        },
{
    let m = insts.len();
    let mut j: usize = 0;
    while j < m
        invariant
            m == insts@.len(),
            j <= m,
            forall|q: int| 0 <= q < j ==> (#[trigger] insts@[q]).id@ != id@,
        decreases m - j,
    {
        if crate::strutil::str_eq(insts[j].id.as_str(), id.as_str()) {
            proof {
                lemma_inst_first_hit(insts@, id@, j as int);
            }
            return Some(j);
        }
        j = j + 1;
    }
    proof {
        lemma_inst_first_none(insts@, id@);
    }
    None
}


/// The index of the last `/` in `s`, or -1 when there is none.
pub open spec fn rfind_slash(s: Seq<char>) -> int
    decreases s.len(),
{
    if s.len() == 0 {
        -1
    } else if s.last() == '/' {
        s.len() - 1
    } else {
        rfind_slash(s.drop_last())
    }
}

/// Everything before the last `/`; empty when there is no `/`.
pub open spec fn parent_dir(s: Seq<char>) -> Seq<char> {
    let k = rfind_slash(s);
    if k < 0 {
        Seq::<char>::empty()
    } else {
        s.take(k)
    }
}

/// `dir` with a leading `root` component removed; `dir` itself when `root`
/// is not a leading component.
pub open spec fn strip_root(dir: Seq<char>, root: Seq<char>) -> Seq<char> {
    if dir == root {
        Seq::<char>::empty()
    } else if dir.len() > root.len() && dir.take(root.len() as int) == root && dir[root.len() as int]
        == '/' {
        dir.skip(root.len() as int + 1)
    } else {
        dir
    }
}

/// Backslashes turned into forward slashes.
pub open spec fn to_slashes(s: Seq<char>) -> Seq<char> {
    s.map_values(
        |c: char|
            if c == '\\' {
                '/'
            } else {
                c
            },
    )
}

/// The bot name a script path yields: its directory relative to the bots
/// root, with separators normalized.
pub open spec fn derived_name(path: Seq<char>, root: Seq<char>) -> Seq<char> {
    to_slashes(strip_root(parent_dir(path), root))
}

/// Derive a bot name from a script path: the script's directory, relative
/// to `root`, with backslashes turned into forward slashes.
pub fn derive_bot_name(path: &str, root: &str) -> (r: String)
    ensures
        r@ == derived_name(path@, root@),
{
    let plen = path.unicode_len();
    let mut last: usize = 0;
    let mut has: bool = false;
    let mut i: usize = 0;
    proof {
        assert(path@.take(0) =~= Seq::<char>::empty());
    }
    while i < plen
        invariant
            plen == path@.len(),
            i <= plen,
            rfind_slash(path@.take(i as int)) == (if has {
                last as int
            } else {
                -1
            }),
            has ==> last < i,
        decreases plen - i,
    {
        proof {
            assert(path@.take(i as int + 1).drop_last() =~= path@.take(i as int));
            assert(path@.take(i as int + 1).last() == path@[i as int]);
        }
        if path.get_char(i) == '/' {
            last = i;
            has = true;
        }
        i = i + 1;
    }
    proof {
        assert(path@.take(plen as int) =~= path@);
    }
    let dir: &str = if has {
        path.substring_char(0, last)
    } else {
        ""
    };
    proof {
        if has {
            assert(dir@ =~= parent_dir(path@));
        } else {
            reveal_strlit("");
            assert(dir@ =~= parent_dir(path@));
        }
    }
    let dlen = dir.unicode_len();
    let rlen = root.unicode_len();
    let rel: &str = if crate::strutil::str_eq(dir, root) {
        proof {
            reveal_strlit("");
        }
        ""
    } else if dlen > rlen && crate::strutil::str_eq(dir.substring_char(0, rlen), root)
        && dir.get_char(rlen) == '/' {
        dir.substring_char(rlen + 1, dlen)
    } else {
        dir
    };
    proof {
        assert(rel@ =~= strip_root(parent_dir(path@), root@));
    }
    let n = rel.unicode_len();
    let mut out = String::new();
    let mut k: usize = 0;
    proof {
        assert(out@ =~= to_slashes(rel@.take(0)));
    }
    while k < n
        invariant
            n == rel@.len(),
            k <= n,
            rel@ == strip_root(parent_dir(path@), root@),
            out@ == to_slashes(rel@.take(k as int)),
        decreases n - k,
    {
        let c = rel.get_char(k);
        if c == '\\' {
            crate::strutil::push_char(&mut out, '/');
        } else {
            crate::strutil::push_char(&mut out, c);
        }
        proof {
            assert(out@ =~= to_slashes(rel@.take(k as int + 1)));
        }
        k = k + 1;
    }
    proof {
        assert(rel@.take(n as int) =~= rel@);
    }
    out
}

/// The outcome of reading one script's metadata, as the caller reports it.
pub enum MetaLoad {
    /// The script loaded and exposed its window pattern and description.
    Loaded { pattern: String, description: String },
    /// The script failed metadata validation; the message says why.
    Failed { message: String },
}

/// `entries` holds exactly one entry, in order, for each script whose
/// metadata loaded: named from its path, disabled, with no instances yet.
pub open spec fn entries_match(
    root: Seq<char>,
    scripts: Seq<(String, MetaLoad)>,
    entries: Seq<BotEntry>,
) -> bool
    decreases scripts.len(),
{
    if scripts.len() == 0 {
        entries.len() == 0
    } else {
        match scripts.last().1 {
            MetaLoad::Loaded { pattern, description } => {
                &&& entries.len() > 0
                &&& entries.last().name@ == derived_name(scripts.last().0@, root)
                &&& entries.last().window_pattern == pattern
                &&& entries.last().description == description
                &&& entries.last().enabled == false
                &&& entries.last().instances@ == Seq::<Instance>::empty()
                &&& entries.last().error is None
                &&& entries.last().script_path == scripts.last().0
                &&& entries_match(root, scripts.drop_last(), entries.drop_last())
            },
            MetaLoad::Failed { .. } => entries_match(root, scripts.drop_last(), entries),
        }
    }
}

/// How many scripts failed metadata validation.
pub open spec fn failed_count(scripts: Seq<(String, MetaLoad)>) -> nat
    decreases scripts.len(),
{
    if scripts.len() == 0 {
        0 as nat
    } else {
        failed_count(scripts.drop_last()) + (match scripts.last().1 {
            MetaLoad::Failed { .. } => 1 as nat,
            MetaLoad::Loaded { .. } => 0 as nat,
        })
    }
}

/// Build the bot table from the discovered scripts and their metadata
/// outcomes: one disabled entry per loaded script, named from its path; a
/// script that failed validation is logged and dropped, not fatal to the
/// others.
pub fn load_bots(
    root: &str,
    scripts: Vec<(String, MetaLoad)>,
    log: &mut crate::logger::Logger,
) -> (entries: Vec<BotEntry>)
    ensures
        entries_match(root@, scripts@, entries@),
        final(log).prefixes == old(log).prefixes,
        final(log).file_lines@.len() == old(log).file_lines@.len() + failed_count(scripts@),
        final(log).file_lines@.take(old(log).file_lines@.len() as int) == old(log).file_lines@,
        final(log).tui_lines@.len() == old(log).tui_lines@.len() + failed_count(scripts@),
        final(log).tui_lines@.take(old(log).tui_lines@.len() as int) == old(log).tui_lines@,
{
    let ghost all_scripts = scripts@;
    let ghost log0 = *old(log);
    let mut entries: Vec<BotEntry> = Vec::new();
    let mut rest = scripts;
    proof {
        assert(all_scripts.take(0) =~= Seq::<(String, MetaLoad)>::empty());
        assert(rest@ =~= all_scripts.skip(0));
        assert(log0.file_lines@.take(log0.file_lines@.len() as int) =~= log0.file_lines@);
        assert(log0.tui_lines@.take(log0.tui_lines@.len() as int) =~= log0.tui_lines@);
    }
    while rest.len() > 0
        invariant
            rest@.len() <= all_scripts.len(),
            rest@ == all_scripts.skip(all_scripts.len() - rest@.len()),
            entries_match(root@, all_scripts.take(all_scripts.len() - rest@.len()), entries@),
            log0 == *old(log),
            log.prefixes == log0.prefixes,
            log.file_lines@.len() == log0.file_lines@.len() + failed_count(
                all_scripts.take(all_scripts.len() - rest@.len()),
            ),
            log.file_lines@.take(log0.file_lines@.len() as int) == log0.file_lines@,
            log.tui_lines@.len() == log0.tui_lines@.len() + failed_count(
                all_scripts.take(all_scripts.len() - rest@.len()),
            ),
            log.tui_lines@.take(log0.tui_lines@.len() as int) == log0.tui_lines@,
        decreases rest@.len(),
    {
        let ghost k = all_scripts.len() - rest@.len();
        proof {
            assert(all_scripts.skip(k)[0] == all_scripts[k]);
            assert(all_scripts.skip(k).drop_first() =~= all_scripts.skip(k + 1));
            assert(all_scripts.take(k + 1).drop_last() =~= all_scripts.take(k));
            assert(all_scripts.take(k + 1).last() == all_scripts[k]);
        }
        let (path, meta) = rest.remove(0);
        proof {
            assert(rest@ =~= all_scripts.skip(k + 1));
        }
        let name = derive_bot_name(path.as_str(), root);
        match meta {
            MetaLoad::Loaded { pattern, description } => {
                let entry = BotEntry {
                    name,
                    window_pattern: pattern,
                    description,
                    enabled: false,
                    instances: Vec::new(),
                    error: None,
                    script_path: path,
                };
                let ghost epre = entries@;
                entries.push(entry);
                proof {
                    assert(entries@.drop_last() =~= epre);
                    assert(entries@.last().instances@ =~= Seq::<Instance>::empty());
                }
            },
            MetaLoad::Failed { message } => {
                let mut msg = String::new();
                msg.append("failed to load bot ");
                msg.append(name.as_str());
                msg.append(": ");
                msg.append(message.as_str());
                let ghost lpre = *log;
                crate::logger::error(log, msg.as_str());
                proof {
                    assert(log.file_lines@.take(log0.file_lines@.len() as int) =~= lpre.file_lines@.take(
                        log0.file_lines@.len() as int,
                    ));
                    assert(log.tui_lines@.take(log0.tui_lines@.len() as int) =~= lpre.tui_lines@.take(
                        log0.tui_lines@.len() as int,
                    ));
                }
            },
        }
    }
    proof {
        assert(all_scripts.take(all_scripts.len() as int) =~= all_scripts);
    }
    entries
}


/// Every surviving instance's window is in the snapshot.
proof fn lemma_kept_elements(insts: Seq<Instance>, wins: Seq<(WindowId, String)>)
    ensures
        forall|i: int|
            0 <= i < kept_spec(insts, wins).len() ==> win_present(
                wins,
                (#[trigger] kept_spec(insts, wins)[i]).window_id,
            ),
    decreases insts.len(),
{
    if insts.len() > 0 {
        lemma_kept_elements(insts.drop_last(), wins);
        let rest = kept_spec(insts.drop_last(), wins);
        if win_present(wins, insts.last().window_id) {
            assert forall|i: int| 0 <= i < kept_spec(insts, wins).len() implies win_present(
                wins,
                (#[trigger] kept_spec(insts, wins)[i]).window_id,
            ) by {
                if i < rest.len() {
                    assert(kept_spec(insts, wins)[i] == rest[i]);
                }
            }
        }
    }
}

/// When every instance's window is in the snapshot, nothing is dropped.
proof fn lemma_kept_all(insts: Seq<Instance>, wins: Seq<(WindowId, String)>)
    requires
        forall|i: int|
            0 <= i < insts.len() ==> win_present(wins, (#[trigger] insts[i]).window_id),
    ensures
        kept_spec(insts, wins) == insts,
        dead_ids(insts, wins) == Seq::<Seq<char>>::empty(),
    decreases insts.len(),
{
    if insts.len() == 0 {
        assert(kept_spec(insts, wins) =~= insts);
    } else {
        assert forall|i: int| 0 <= i < insts.drop_last().len() implies win_present(
            wins,
            (#[trigger] insts.drop_last()[i]).window_id,
        ) by {
            assert(insts.drop_last()[i] == insts[i]);
        }
        lemma_kept_all(insts.drop_last(), wins);
        assert(insts[insts.len() - 1] == insts.last());
        assert(win_present(wins, insts.last().window_id));
        assert(kept_spec(insts, wins) =~= insts);
    }
}

/// A surviving window id stays represented among the kept instances.
proof fn lemma_kept_keeps_wid(insts: Seq<Instance>, wins: Seq<(WindowId, String)>, i: int)
    requires
        0 <= i < insts.len(),
        win_present(wins, insts[i].window_id),
    ensures
        inst_wids(kept_spec(insts, wins)).contains(insts[i].window_id),
    decreases insts.len(),
{
    let rest = kept_spec(insts.drop_last(), wins);
    if i == insts.len() - 1 {
        assert(kept_spec(insts, wins) == rest.push(insts.last()));
        assert(inst_wids(rest.push(insts.last()))[rest.len() as int] == insts.last().window_id);
    } else {
        assert(insts.drop_last()[i] == insts[i]);
        lemma_kept_keeps_wid(insts.drop_last(), wins, i);
        let k = choose|k: int|
            0 <= k < inst_wids(rest).len() && inst_wids(rest)[k] == insts[i].window_id;
        if win_present(wins, insts.last().window_id) {
            assert(inst_wids(rest.push(insts.last()))[k] == insts[i].window_id);
        }
    }
}

/// Every kept instance is an element of the input list.
proof fn lemma_kept_subset(insts: Seq<Instance>, wins: Seq<(WindowId, String)>)
    ensures
        forall|i: int|
            0 <= i < kept_spec(insts, wins).len() ==> insts.contains(
                #[trigger] kept_spec(insts, wins)[i],
            ),
    decreases insts.len(),
{
    if insts.len() > 0 {
        lemma_kept_subset(insts.drop_last(), wins);
        let rest = kept_spec(insts.drop_last(), wins);
        assert forall|i: int| 0 <= i < kept_spec(insts, wins).len() implies insts.contains(
            #[trigger] kept_spec(insts, wins)[i],
        ) by {
            if i < rest.len() {
                assert(kept_spec(insts, wins)[i] == rest[i]);
                assert(insts.drop_last().contains(rest[i]));
                let k = choose|k: int|
                    0 <= k < insts.drop_last().len() && insts.drop_last()[k] == rest[i];
                assert(insts[k] == rest[i]);
            } else {
                assert(kept_spec(insts, wins)[i] == insts.last());
                assert(insts[insts.len() - 1] == insts.last());
            }
        }
    }
}

/// Every added window comes from the snapshot.
proof fn lemma_new_wins_elements(base: Seq<WindowId>, wins: Seq<(WindowId, String)>)
    ensures
        forall|j: int|
            0 <= j < new_wins(base, wins).len() ==> win_present(
                wins,
                (#[trigger] new_wins(base, wins)[j]).0,
            ),
    decreases wins.len(),
{
    if wins.len() > 0 {
        let w0 = wins[0];
        if base.contains(w0.0) {
            lemma_new_wins_elements(base, wins.drop_first());
            assert forall|j: int| 0 <= j < new_wins(base, wins).len() implies win_present(
                wins,
                (#[trigger] new_wins(base, wins)[j]).0,
            ) by {
                assert(new_wins(base, wins)[j] == new_wins(base, wins.drop_first())[j]);
                assert(win_present(wins.drop_first(), new_wins(base, wins.drop_first())[j].0));
                let q = choose|q: int|
                    0 <= q < wins.drop_first().len() && (#[trigger] wins.drop_first()[q]).0
                        == new_wins(base, wins.drop_first())[j].0;
                assert(wins[q + 1].0 == new_wins(base, wins)[j].0);
            }
        } else {
            lemma_new_wins_elements(base.push(w0.0), wins.drop_first());
            let tail = new_wins(base.push(w0.0), wins.drop_first());
            assert forall|j: int| 0 <= j < new_wins(base, wins).len() implies win_present(
                wins,
                (#[trigger] new_wins(base, wins)[j]).0,
            ) by {
                if j == 0 {
                    assert(new_wins(base, wins)[0] == w0);
                    assert(wins[0].0 == w0.0);
                } else {
                    assert(new_wins(base, wins)[j] == tail[j - 1]);
                    assert(win_present(wins.drop_first(), tail[j - 1].0));
                    let q = choose|q: int|
                        0 <= q < wins.drop_first().len() && (#[trigger] wins.drop_first()[q]).0
                            == tail[j - 1].0;
                    assert(wins[q + 1].0 == new_wins(base, wins)[j].0);
                }
            }
        }
    }
}

/// When every snapshot window is already represented, nothing is added.
proof fn lemma_new_wins_empty(base: Seq<WindowId>, wins: Seq<(WindowId, String)>)
    requires
        forall|j: int| 0 <= j < wins.len() ==> base.contains((#[trigger] wins[j]).0),
    ensures
        new_wins(base, wins) == Seq::<(WindowId, String)>::empty(),
    decreases wins.len(),
{
    if wins.len() > 0 {
        assert(base.contains(wins[0].0));
        assert forall|j: int| 0 <= j < wins.drop_first().len() implies base.contains(
            (#[trigger] wins.drop_first()[j]).0,
        ) by {
            assert(wins.drop_first()[j] == wins[j + 1]);
        }
        lemma_new_wins_empty(base, wins.drop_first());
    }
}

/// A snapshot window that is not yet represented is among the added ones.
proof fn lemma_new_wins_covers(base: Seq<WindowId>, wins: Seq<(WindowId, String)>, j: int)
    requires
        0 <= j < wins.len(),
        !base.contains(wins[j].0),
    ensures
        exists|k: int|
            0 <= k < new_wins(base, wins).len() && (#[trigger] new_wins(base, wins)[k]).0
                == wins[j].0,
    decreases wins.len(),
{
    let w0 = wins[0];
    if base.contains(w0.0) {
        assert(j != 0);
        assert(wins.drop_first()[j - 1] == wins[j]);
        lemma_new_wins_covers(base, wins.drop_first(), j - 1);
        let k = choose|k: int|
            0 <= k < new_wins(base, wins.drop_first()).len() && (#[trigger] new_wins(
                base,
                wins.drop_first(),
            )[k]).0 == wins[j].0;
        assert(new_wins(base, wins)[k].0 == wins[j].0);
    } else {
        if wins[j].0 == w0.0 {
            assert(new_wins(base, wins)[0].0 == wins[j].0);
        } else {
            assert(j != 0);
            assert(wins.drop_first()[j - 1] == wins[j]);
            assert(!base.push(w0.0).contains(wins[j].0)) by {
                lemma_contains_push(base, w0.0, wins[j].0);
            }
            lemma_new_wins_covers(base.push(w0.0), wins.drop_first(), j - 1);
            let tail = new_wins(base.push(w0.0), wins.drop_first());
            let k = choose|k: int| 0 <= k < tail.len() && (#[trigger] tail[k]).0 == wins[j].0;
            assert(new_wins(base, wins)[k + 1].0 == wins[j].0);
        }
    }
}

/// Reconciliation is idempotent: an instance list that is already the
/// reconciliation of some list against a window snapshot reconciles
/// against the same snapshot to itself — same ids, same order, no
/// duplication, nothing dropped and nothing added.
pub proof fn lemma_reconcile_idempotent(
    name: Seq<char>,
    old_insts: Seq<Instance>,
    wins: Seq<(WindowId, String)>,
    r: Seq<Instance>,
)
    requires
        reconciled(name, old_insts, wins, r),
    ensures
        kept_spec(r, wins) == r,
        dead_ids(r, wins) == Seq::<Seq<char>>::empty(),
        new_wins(inst_wids(kept_spec(r, wins)), wins) == Seq::<(WindowId, String)>::empty(),
        reconciled(name, r, wins, r),
{
    let kept = kept_spec(old_insts, wins);
    let added = new_wins(inst_wids(kept), wins);

    // Every instance of `r` has a window in the snapshot.
    assert forall|i: int| 0 <= i < r.len() implies win_present(
        wins,
        (#[trigger] r[i]).window_id,
    ) by {
        if i < kept.len() {
            assert(r[i] == r.take(kept.len() as int)[i]);
            lemma_kept_elements(old_insts, wins);
        } else {
            let k = i - kept.len();
            assert(r[kept.len() + k].is_fresh(name, added[k].0, added[k].1@));
            lemma_new_wins_elements(inst_wids(kept), wins);
            assert(win_present(wins, added[k].0));
        }
    }
    lemma_kept_all(r, wins);

    // Every snapshot window is represented in `r`.
    assert forall|j: int| 0 <= j < wins.len() implies inst_wids(r).contains(
        (#[trigger] wins[j]).0,
    ) by {
        let w = wins[j].0;
        if exists|i: int| 0 <= i < old_insts.len() && (#[trigger] old_insts[i]).window_id == w {
            let i = choose|i: int|
                0 <= i < old_insts.len() && (#[trigger] old_insts[i]).window_id == w;
            lemma_kept_keeps_wid(old_insts, wins, i);
            let k = choose|k: int| 0 <= k < inst_wids(kept).len() && inst_wids(kept)[k] == w;
            assert(r.take(kept.len() as int)[k] == kept[k]);
            assert(r[k].window_id == w);
            assert(inst_wids(r)[k] == w);
        } else {
            assert(!inst_wids(kept).contains(w)) by {
                if inst_wids(kept).contains(w) {
                    let k = choose|k: int|
                        0 <= k < inst_wids(kept).len() && inst_wids(kept)[k] == w;
                    lemma_kept_subset(old_insts, wins);
                    assert(old_insts.contains(kept[k]));
                    let i = choose|i: int|
                        0 <= i < old_insts.len() && old_insts[i] == kept[k];
                    assert(old_insts[i].window_id == w);
                }
            }
            lemma_new_wins_covers(inst_wids(kept), wins, j);
            let k = choose|k: int| 0 <= k < added.len() && (#[trigger] added[k]).0 == w;
            assert(r[kept.len() + k].is_fresh(name, added[k].0, added[k].1@));
            assert(inst_wids(r)[kept.len() + k] == w);
        }
    }
    lemma_new_wins_empty(inst_wids(r), wins);
    assert(kept_spec(r, wins) == r);
    assert(r.take(r.len() as int) =~= r);
}

/// How many times `id` occurs in a list of live ids.
pub open spec fn occurrences(s: Seq<Seq<char>>, id: Seq<char>) -> nat
    decreases s.len(),
{
    if s.len() == 0 {
        0 as nat
    } else {
        occurrences(s.drop_last(), id) + (if s.last() == id {
            1 as nat
        } else {
            0 as nat
        })
    }
}

/// A positive count means the id occurs.
proof fn lemma_occurrences_contains(s: Seq<Seq<char>>, id: Seq<char>)
    requires
        occurrences(s, id) > 0,
    ensures
        s.contains(id),
    decreases s.len(),
{
    if s.last() == id {
        assert(s[s.len() - 1] == id);
    } else {
        lemma_occurrences_contains(s.drop_last(), id);
        let k = choose|k: int| 0 <= k < s.drop_last().len() && s.drop_last()[k] == id;
        assert(s[k] == id);
    }
}

/// At most one live agent per instance id: in a well-formed live-agent
/// table no id occurs twice, so toggling an entry off and on — or any
/// other sequence of table operations, which all preserve well-formedness
/// — never leaves two live agents for the same instance id.
pub proof fn lemma_at_most_one_agent(t: AgentTable, id: Seq<char>)
    requires
        t.wf(),
    ensures
        occurrences(t.live_ids(), id) <= 1,
{
    lemma_distinct_occurrences(t.live_ids(), id);
}

/// In a duplicate-free sequence every id occurs at most once.
proof fn lemma_distinct_occurrences(s: Seq<Seq<char>>, id: Seq<char>)
    requires
        distinct(s),
    ensures
        occurrences(s, id) <= 1,
    decreases s.len(),
{
    if s.len() > 0 {
        assert forall|a: int, b: int|
            0 <= a < b < s.drop_last().len() implies s.drop_last()[a] != s.drop_last()[b] by {
            assert(s.drop_last()[a] == s[a] && s.drop_last()[b] == s[b]);
        }
        lemma_distinct_occurrences(s.drop_last(), id);
        if s.last() == id && occurrences(s.drop_last(), id) > 0 {
            lemma_occurrences_contains(s.drop_last(), id);
            let k = choose|k: int| 0 <= k < s.drop_last().len() && s.drop_last()[k] == id;
            assert(s[k] == id && s[s.len() - 1] == id);
            assert(false);
        }
    }
}

} // verus!
