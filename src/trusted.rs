//! The trust ledger: the authoritative record of every node and its mana.
//!
//! Active nodes gain one unit of mana per `time_mana_increase`, inactive
//! nodes lose one unit per `time_mana_decrease`, and a node whose mana runs
//! out while it is inactive is forgotten.

use vstd::prelude::*;

use crate::error::SimError;
use crate::node::{NodeInfo, NodeRecord};
use crate::node_types::{lemma_id_view_injective, Mana, NodeID};

verus! {

/// One second, in the milliseconds that the ledger counts time in.
pub const TIME_SECOND: u128 = 1_000;

/// The periods of the ledger, in milliseconds.
#[derive(Clone, Copy, Debug)]
pub struct Config {
    pub time_mana_increase: u128,
    pub time_mana_decrease: u128,
    pub time_node_active: u128,
}

impl Config {
    /// Both mana periods are positive.
    pub open spec fn valid(&self) -> bool {
        self.time_mana_increase > 0 && self.time_mana_decrease > 0
    }

    /// The default periods: see `default`.
    pub open spec fn default_periods() -> Config {
        Config { time_mana_increase: 1_000, time_mana_decrease: 168_000, time_node_active: 60_000 }
    }

    /// One unit of mana per second while active, one unit per 168 seconds
    /// while inactive, and a minute of activity after each sign of life.
    pub fn default() -> (r: Config)
        ensures
            r == Config::default_periods(),
    {
        Config {
            time_mana_increase: TIME_SECOND,
            time_mana_decrease: 86_400 * 7 * TIME_SECOND / 3_600,
            time_node_active: 60 * TIME_SECOND,
        }
    }
}

/// `a + b`, or `u128::MAX` where the sum does not fit.
pub open spec fn saturating_add(a: u128, b: int) -> u128 {
    if a + b > u128::MAX {
        u128::MAX
    } else {
        (a + b) as u128
    }
}

/// What the ledger keeps of one node.
pub struct LedgerEntry {
    pub record: NodeRecord,
    pub active_until: u128,
}

/// A node is active at `now` until its deadline has passed.
pub open spec fn is_active(e: LedgerEntry, now: u128) -> bool {
    e.active_until >= now
}

/// An inactive entry whose mana does not outlast `dec` units of decay is
/// removed by a tick.
pub open spec fn decays_away(e: LedgerEntry, dec: nat, now: u128) -> bool {
    dec > 0 && !is_active(e, now) && e.record.mana <= dec
}

/// The entry after a tick at `now` that counts `inc` periods of increase and
/// `dec` periods of decrease: an active entry gains `inc`, an inactive one
/// loses `dec`, down to zero.
pub open spec fn entry_after_tick(e: LedgerEntry, inc: nat, dec: nat, now: u128) -> LedgerEntry {
    let mana = if is_active(e, now) {
        saturating_add(e.record.mana, inc as int)
    } else if e.record.mana >= dec {
        (e.record.mana - dec) as u128
    } else {
        0u128
    };
    LedgerEntry {
        record: NodeRecord { id: e.record.id, name: e.record.name, mana },
        active_until: e.active_until,
    }
}

/// The entries of `nodes` after such a tick.
pub open spec fn tick_nodes(nodes: Map<NodeID, LedgerEntry>, inc: nat, dec: nat, now: u128) -> Map<
    NodeID,
    LedgerEntry,
> {
    Map::new(
        |id: NodeID| nodes.contains_key(id) && !decays_away(nodes[id], dec, now),
        |id: NodeID| entry_after_tick(nodes[id], inc, dec, now),
    )
}

/// The state of the ledger, as mathematical values.
pub struct LedgerModel {
    pub config: Config,
    pub nodes: Map<NodeID, LedgerEntry>,
    pub last_mana_inc: u128,
    pub last_mana_dec: u128,
    pub last_tick_time: u128,
}

impl LedgerModel {
    /// A ledger with no nodes whose clocks all stand at `now`.
    pub open spec fn initial(config: Config, now: u128) -> LedgerModel {
        LedgerModel {
            config,
            nodes: Map::empty(),
            last_mana_inc: now,
            last_mana_dec: now,
            last_tick_time: now,
        }
    }

    /// The periods are positive, each checkpoint lies less than one period
    /// before the last tick, every entry is filed under its own identity and
    /// there are finitely many.
    pub open spec fn wf(self) -> bool {
        &&& self.config.valid()
        &&& self.last_mana_inc <= self.last_tick_time
        &&& self.last_mana_dec <= self.last_tick_time
        &&& self.last_tick_time - self.last_mana_inc < self.config.time_mana_increase
        &&& self.last_tick_time - self.last_mana_dec < self.config.time_mana_decrease
        &&& self.nodes.dom().finite()
        &&& forall|id: NodeID| #[trigger] self.nodes.contains_key(id) ==> self.nodes[id].record.id == id
    }

    /// Until when a node that shows a sign of life now stays active.
    pub open spec fn deadline(self) -> u128 {
        saturating_add(self.last_tick_time, self.config.time_node_active as int)
    }

    /// `record` is filed under its identity, replacing what was there, and
    /// stays active until the deadline.
    pub open spec fn register(self, record: NodeRecord) -> LedgerModel {
        LedgerModel {
            nodes: self.nodes.insert(record.id, LedgerEntry { record, active_until: self.deadline() }),
            ..self
        }
    }

    /// A known node stays active until the deadline; nothing else changes.
    pub open spec fn alive(self, id: NodeID) -> LedgerModel {
        if self.nodes.contains_key(id) {
            LedgerModel {
                nodes: self.nodes.insert(
                    id,
                    LedgerEntry { record: self.nodes[id].record, active_until: self.deadline() },
                ),
                ..self
            }
        } else {
            self
        }
    }

    /// The whole periods of increase between the increase checkpoint and `now`.
    pub open spec fn inc_windows(self, now: u128) -> nat {
        ((now - self.last_mana_inc) / (self.config.time_mana_increase as int)) as nat
    }

    /// The whole periods of decrease between the decrease checkpoint and `now`.
    pub open spec fn dec_windows(self, now: u128) -> nat {
        ((now - self.last_mana_dec) / (self.config.time_mana_decrease as int)) as nat
    }

    /// The ledger after a tick at `now`: entries gain or lose mana for the
    /// whole periods that passed, each checkpoint moves on by exactly those
    /// periods, and the tick time becomes `now`.
    pub open spec fn tick(self, now: u128) -> LedgerModel {
        let inc = self.inc_windows(now);
        let dec = self.dec_windows(now);
        LedgerModel {
            config: self.config,
            nodes: tick_nodes(self.nodes, inc, dec, now),
            last_mana_inc: (self.last_mana_inc + inc * self.config.time_mana_increase) as u128,
            last_mana_dec: (self.last_mana_dec + dec * self.config.time_mana_decrease) as u128,
            last_tick_time: now,
        }
    }
}

/// Whole periods of length `b` in `a` leave less than one period over.
proof fn lemma_windows(a: int, b: int)
    requires
        a >= 0,
        b > 0,
    ensures
        (a / b) * b <= a,
        a - (a / b) * b < b,
        a / b >= 0,
{
    assert((a / b) * b <= a && a - (a / b) * b < b && a / b >= 0) by (nonlinear_arith)
        requires
            a >= 0,
            b > 0,
    ;
}

/// A tick keeps the ledger's state well formed.
pub proof fn lemma_tick_wf(l: LedgerModel, now: u128)
    requires
        l.wf(),
        now >= l.last_tick_time,
    ensures
        l.tick(now).wf(),
{
    lemma_windows(now - l.last_mana_inc, l.config.time_mana_increase as int);
    lemma_windows(now - l.last_mana_dec, l.config.time_mana_decrease as int);
    let t = l.tick(now);
    assert(t.nodes.dom().subset_of(l.nodes.dom()));
    vstd::set_lib::lemma_len_subset(t.nodes.dom(), l.nodes.dom());
}

/// The ledger after ticks at each time of `times` in turn, each followed by
/// a sign of life of the node `id`.
pub open spec fn run_alive(l: LedgerModel, id: NodeID, times: Seq<u128>) -> LedgerModel
    decreases times.len(),
{
    if times.len() == 0 {
        l
    } else {
        run_alive(l, id, times.drop_last()).tick(times.last()).alive(id)
    }
}

/// The time of the last tick of `times`, or `start` where there is none.
pub open spec fn last_time(start: u128, times: Seq<u128>) -> u128 {
    if times.len() == 0 {
        start
    } else {
        times.last()
    }
}

/// Each time of `times` follows the one before (the first follows `start`)
/// by no more than `gap`.
pub open spec fn steady_times(start: u128, times: Seq<u128>, gap: u128) -> bool {
    forall|k: int|
        0 <= k < times.len() ==> {
            let prev = if k == 0 {
                start
            } else {
                times[k - 1]
            };
            prev <= #[trigger] times[k] && times[k] <= prev + gap
        }
}

/// What a node that keeps showing signs of life has, `c0` being the increase
/// checkpoint when it registered.
spec fn accrued(r: LedgerModel, id: NodeID, c0: int) -> bool {
    let inc = r.config.time_mana_increase as int;
    let m = (r.last_tick_time - c0) / inc;
    &&& r.wf()
    &&& 0 <= c0 <= r.last_tick_time
    &&& r.last_mana_inc == c0 + inc * m
    &&& r.nodes.contains_key(id)
    &&& r.nodes[id].active_until == r.deadline()
    &&& r.nodes[id].record.mana == m
}

proof fn lemma_accrual_step(r: LedgerModel, id: NodeID, c0: int, now: u128)
    requires
        accrued(r, id, c0),
        r.last_tick_time <= now <= r.last_tick_time + r.config.time_node_active,
    ensures
        accrued(r.tick(now).alive(id), id, c0),
        r.tick(now).alive(id).config == r.config,
        r.tick(now).alive(id).last_tick_time == now,
{
    let inc = r.config.time_mana_increase as int;
    let m = (r.last_tick_time - c0) / inc;
    let w = r.inc_windows(now);
    let x = now - r.last_mana_inc;
    assert(w == x / inc);
    lemma_windows(x, inc);
    assert(r.last_mana_inc + w * inc <= now);
    assert(now - c0 == inc * m + x);
    assert((inc * m + x) / inc == m + x / inc) by (nonlinear_arith)
        requires
            inc > 0,
            x >= 0,
            m >= 0,
    ;
    assert((now - c0) / inc <= now) by (nonlinear_arith)
        requires
            inc > 0,
            now - c0 >= 0,
            now - c0 <= now,
    ;
    lemma_tick_wf(r, now);
    let t = r.tick(now);
    assert(t.nodes.contains_key(id));
    assert(t.nodes[id].record.mana == m + w);
    assert(t.last_mana_inc == c0 + inc * (m + w)) by (nonlinear_arith)
        requires
            t.last_mana_inc == r.last_mana_inc + w * inc,
            r.last_mana_inc == c0 + inc * m,
    ;
    let a = t.alive(id);
    assert(a.nodes.dom() =~= t.nodes.dom());
}

proof fn lemma_run_alive(l: LedgerModel, rec: NodeRecord, times: Seq<u128>)
    requires
        l.wf(),
        rec.mana == 0,
        steady_times(l.last_tick_time, times, l.config.time_node_active),
    ensures
        accrued(run_alive(l.register(rec), rec.id, times), rec.id, l.last_mana_inc as int),
        run_alive(l.register(rec), rec.id, times).config == l.config,
        run_alive(l.register(rec), rec.id, times).last_tick_time == last_time(l.last_tick_time, times),
    decreases times.len(),
{
    let c0 = l.last_mana_inc as int;
    let inc = l.config.time_mana_increase as int;
    if times.len() == 0 {
        let x = l.last_tick_time - c0;
        assert(x / inc == 0) by (nonlinear_arith)
            requires
                0 <= x < inc,
        ;
        let r = l.register(rec);
        assert(r.nodes.dom().finite());
    } else {
        let p = times.drop_last();
        assert(steady_times(l.last_tick_time, p, l.config.time_node_active)) by {
            assert forall|k: int| 0 <= k < p.len() implies {
                let prev = if k == 0 {
                    l.last_tick_time
                } else {
                    p[k - 1]
                };
                prev <= #[trigger] p[k] && p[k] <= prev + l.config.time_node_active
            } by {
                assert(p[k] == times[k]);
                if k > 0 {
                    assert(p[k - 1] == times[k - 1]);
                }
            }
        }
        lemma_run_alive(l, rec, p);
        let k = times.len() - 1;
        assert(times.last() == times[k]);
        if k > 0 {
            assert(times[k - 1] == p.last());
        }
        lemma_accrual_step(run_alive(l.register(rec), rec.id, p), rec.id, c0, times.last());
    }
}

/// A node that registers with no mana and then shows a sign of life after
/// each tick, with no more than `time_node_active` between ticks, has
/// exactly `k` units of mana once the last tick lies `k` increase periods
/// after its registration, however the ticks fell in between.
pub proof fn lemma_exact_accrual(l: LedgerModel, rec: NodeRecord, times: Seq<u128>, k: nat)
    requires
        l.wf(),
        rec.mana == 0,
        steady_times(l.last_tick_time, times, l.config.time_node_active),
        last_time(l.last_tick_time, times) == l.last_tick_time + k * l.config.time_mana_increase,
    ensures
        run_alive(l.register(rec), rec.id, times).nodes.contains_key(rec.id),
        run_alive(l.register(rec), rec.id, times).nodes[rec.id].record.mana == k,
{
    lemma_run_alive(l, rec, times);
    let inc = l.config.time_mana_increase as int;
    let y = l.last_tick_time - l.last_mana_inc;
    assert(last_time(l.last_tick_time, times) - l.last_mana_inc == k * inc + y);
    assert((k * inc + y) / inc == k) by (nonlinear_arith)
        requires
            inc > 0,
            0 <= y < inc,
    ;
}

/// Splitting a tick does not change what an active node gains: ticks at `m`
/// and then at `now` give it the same mana as one tick at `now`, one unit per
/// whole increase period since the increase checkpoint, where that sum stays
/// within `u128::MAX` (beyond it mana saturates).
pub proof fn lemma_split_tick(l: LedgerModel, id: NodeID, m: u128, now: u128)
    requires
        l.wf(),
        l.last_tick_time <= m <= now,
        l.nodes.contains_key(id),
        l.nodes[id].active_until >= now,
        l.nodes[id].record.mana + (now - l.last_mana_inc) / (l.config.time_mana_increase as int)
            <= u128::MAX,
    ensures
        l.tick(now).nodes.contains_key(id),
        l.tick(m).tick(now).nodes.contains_key(id),
        l.tick(now).nodes[id].record.mana == l.nodes[id].record.mana + (now - l.last_mana_inc) / (
        l.config.time_mana_increase as int),
        l.tick(m).tick(now).nodes[id].record.mana == l.tick(now).nodes[id].record.mana,
{
    let inc = l.config.time_mana_increase as int;
    let c = l.last_mana_inc as int;
    let w1 = (m - c) / inc;
    lemma_windows(m - c, inc);
    lemma_windows(now - c, inc);
    lemma_tick_wf(l, m);
    let t = l.tick(m);
    assert(t.last_mana_inc == c + w1 * inc);
    let x = now - t.last_mana_inc;
    assert(now - c == w1 * inc + x);
    assert((w1 * inc + x) / inc == w1 + x / inc) by (nonlinear_arith)
        requires
            inc > 0,
            x >= 0,
            w1 >= 0,
    ;
    assert(w1 <= (now - c) / inc) by (nonlinear_arith)
        requires
            inc > 0,
            x >= 0,
            w1 >= 0,
            (now - c) / inc == w1 + x / inc,
            x / inc >= 0,
    ;
    lemma_windows(x, inc);
    assert(t.nodes.contains_key(id));
    assert(t.nodes[id].record.mana == l.nodes[id].record.mana + w1);
    assert(t.nodes[id].active_until == l.nodes[id].active_until);
}

/// A tick at a time after a node's deadline takes one unit of mana from it
/// per whole decrease period, down to zero; where none is left, the ledger
/// no longer holds the node.
pub proof fn lemma_decay(l: LedgerModel, id: NodeID, now: u128)
    requires
        l.wf(),
        now >= l.last_tick_time,
        l.nodes.contains_key(id),
        l.nodes[id].active_until < now,
    ensures
        l.nodes[id].record.mana > l.dec_windows(now) ==> l.tick(now).nodes.contains_key(id)
            && l.tick(now).nodes[id].record.mana == l.nodes[id].record.mana - l.dec_windows(now),
        0 < l.dec_windows(now) && l.nodes[id].record.mana <= l.dec_windows(now) ==> !l.tick(
            now,
        ).nodes.contains_key(id),
        l.dec_windows(now) == 0 ==> l.tick(now).nodes.contains_key(id) && l.tick(now).nodes[id]
            == l.nodes[id],
{
}

/// The entries of a sequence, filed by identity; a later entry replaces an
/// earlier one with the same identity.
pub open spec fn entries_map(s: Seq<LedgerEntry>) -> Map<NodeID, LedgerEntry>
    decreases s.len(),
{
    if s.len() == 0 {
        Map::empty()
    } else {
        entries_map(s.drop_last()).insert(s.last().record.id, s.last())
    }
}

/// No two entries of `s` have the same identity.
pub open spec fn ids_unique(s: Seq<LedgerEntry>) -> bool {
    forall|i: int, j: int|
        0 <= i < j < s.len() ==> #[trigger] s[i].record.id != #[trigger] s[j].record.id
}

/// The entries of `s` that a tick keeps, after the tick, in their order.
pub open spec fn tick_seq(s: Seq<LedgerEntry>, inc: nat, dec: nat, now: u128) -> Seq<LedgerEntry>
    decreases s.len(),
{
    if s.len() == 0 {
        Seq::empty()
    } else {
        let rest = tick_seq(s.drop_last(), inc, dec, now);
        if decays_away(s.last(), dec, now) {
            rest
        } else {
            rest.push(entry_after_tick(s.last(), inc, dec, now))
        }
    }
}

proof fn lemma_map_dom(s: Seq<LedgerEntry>, id: NodeID)
    ensures
        entries_map(s).contains_key(id) <==> exists|k: int|
            0 <= k < s.len() && #[trigger] s[k].record.id == id,
    decreases s.len(),
{
    if s.len() > 0 {
        let p = s.drop_last();
        lemma_map_dom(p, id);
        if entries_map(p).contains_key(id) {
            let k = choose|k: int| 0 <= k < p.len() && #[trigger] p[k].record.id == id;
            assert(s[k] == p[k]);
        }
        if exists|k: int| 0 <= k < s.len() && #[trigger] s[k].record.id == id {
            let k = choose|k: int| 0 <= k < s.len() && #[trigger] s[k].record.id == id;
            if k < s.len() - 1 {
                assert(p[k] == s[k]);
            }
        }
    }
}

proof fn lemma_map_finite(s: Seq<LedgerEntry>)
    ensures
        entries_map(s).dom().finite(),
        ids_unique(s) ==> entries_map(s).dom().len() == s.len(),
        forall|id: NodeID| #[trigger]
            entries_map(s).contains_key(id) ==> entries_map(s)[id].record.id == id,
    decreases s.len(),
{
    if s.len() > 0 {
        let p = s.drop_last();
        lemma_map_finite(p);
        if ids_unique(s) {
            assert(ids_unique(p)) by {
                assert forall|i: int, j: int| 0 <= i < j < p.len() implies #[trigger] p[i].record.id
                    != #[trigger] p[j].record.id by {
                    assert(p[i] == s[i] && p[j] == s[j]);
                }
            }
            lemma_map_dom(p, s.last().record.id);
            assert forall|k: int| 0 <= k < p.len() implies #[trigger] p[k].record.id != s.last().record.id by {
                assert(p[k] == s[k]);
                assert(s.last() == s[s.len() - 1]);
            }
        }
    }
}

proof fn lemma_map_at(s: Seq<LedgerEntry>, k: int)
    requires
        ids_unique(s),
        0 <= k < s.len(),
    ensures
        entries_map(s).contains_key(s[k].record.id),
        entries_map(s)[s[k].record.id] == s[k],
    decreases s.len(),
{
    let p = s.drop_last();
    if k < s.len() - 1 {
        assert(ids_unique(p)) by {
            assert forall|i: int, j: int| 0 <= i < j < p.len() implies #[trigger] p[i].record.id
                != #[trigger] p[j].record.id by {
                assert(p[i] == s[i] && p[j] == s[j]);
            }
        }
        lemma_map_at(p, k);
        assert(p[k] == s[k]);
        assert(s.last() == s[s.len() - 1]);
    }
}

proof fn lemma_map_update(s: Seq<LedgerEntry>, k: int, e: LedgerEntry)
    requires
        ids_unique(s),
        0 <= k < s.len(),
        s[k].record.id == e.record.id,
    ensures
        entries_map(s.update(k, e)) == entries_map(s).insert(e.record.id, e),
        ids_unique(s.update(k, e)),
    decreases s.len(),
{
    let p = s.drop_last();
    let u = s.update(k, e);
    assert(ids_unique(u)) by {
        assert forall|i: int, j: int| 0 <= i < j < u.len() implies #[trigger] u[i].record.id
            != #[trigger] u[j].record.id by {
            assert(u[i].record.id == s[i].record.id && u[j].record.id == s[j].record.id);
        }
    }
    if k == s.len() - 1 {
        assert(u.drop_last() =~= p);
        assert(entries_map(u) =~= entries_map(s).insert(e.record.id, e));
    } else {
        assert(ids_unique(p)) by {
            assert forall|i: int, j: int| 0 <= i < j < p.len() implies #[trigger] p[i].record.id
                != #[trigger] p[j].record.id by {
                assert(p[i] == s[i] && p[j] == s[j]);
            }
        }
        lemma_map_update(p, k, e);
        assert(u.drop_last() =~= p.update(k, e));
        assert(u.last() == s.last());
        assert(s.last() == s[s.len() - 1]);
        assert(s[k].record.id != s[s.len() - 1].record.id);
        assert(entries_map(u) =~= entries_map(s).insert(e.record.id, e));
    }
}

proof fn lemma_map_push(s: Seq<LedgerEntry>, e: LedgerEntry)
    requires
        ids_unique(s),
        !entries_map(s).contains_key(e.record.id),
    ensures
        entries_map(s.push(e)) == entries_map(s).insert(e.record.id, e),
        ids_unique(s.push(e)),
{
    assert(s.push(e).drop_last() =~= s);
    lemma_map_dom(s, e.record.id);
    let u = s.push(e);
    assert forall|i: int, j: int| 0 <= i < j < u.len() implies #[trigger] u[i].record.id
        != #[trigger] u[j].record.id by {
        if j == s.len() {
            assert(u[i] == s[i]);
        } else {
            assert(u[i] == s[i] && u[j] == s[j]);
        }
    }
}

proof fn lemma_map_tick(s: Seq<LedgerEntry>, inc: nat, dec: nat, now: u128)
    requires
        ids_unique(s),
    ensures
        entries_map(tick_seq(s, inc, dec, now)) == tick_nodes(entries_map(s), inc, dec, now),
        ids_unique(tick_seq(s, inc, dec, now)),
    decreases s.len(),
{
    if s.len() == 0 {
        assert(tick_nodes(entries_map(s), inc, dec, now) =~= Map::empty());
    } else {
        let p = s.drop_last();
        let x = s.last();
        assert(ids_unique(p)) by {
            assert forall|i: int, j: int| 0 <= i < j < p.len() implies #[trigger] p[i].record.id
                != #[trigger] p[j].record.id by {
                assert(p[i] == s[i] && p[j] == s[j]);
            }
        }
        lemma_map_tick(p, inc, dec, now);
        lemma_map_dom(p, x.record.id);
        assert forall|k: int| 0 <= k < p.len() implies #[trigger] p[k].record.id != x.record.id by {
            assert(p[k] == s[k]);
            assert(x == s[s.len() - 1]);
        }
        let tp = tick_seq(p, inc, dec, now);
        let m = entries_map(s);
        assert(m == entries_map(p).insert(x.record.id, x));
        if decays_away(x, dec, now) {
            assert(tick_nodes(m, inc, dec, now) =~= tick_nodes(entries_map(p), inc, dec, now));
        } else {
            let y = entry_after_tick(x, inc, dec, now);
            lemma_map_push(tp, y);
            assert(tick_nodes(m, inc, dec, now) =~= tick_nodes(entries_map(p), inc, dec, now).insert(
                x.record.id,
                y,
            ));
        }
    }
}

/// What the ledger keeps of one node.
struct NodeData {
    info: NodeInfo,
    active_until: u128,
}

impl View for NodeData {
    type V = LedgerEntry;

    closed spec fn view(&self) -> LedgerEntry {
        LedgerEntry { record: self.info@, active_until: self.active_until }
    }
}

impl NodeData {
    fn is_active(&self, now: u128) -> (r: bool)
        ensures
            r == is_active(self@, now),
    {
        self.active_until >= now
    }
}

/// `a + b`, or `u128::MAX` where the sum does not fit.
fn add_saturating(a: u128, b: u128) -> (r: u128)
    ensures
        r == saturating_add(a, b as int),
{
    if a <= u128::MAX - b {
        a + b
    } else {
        u128::MAX
    }
}

/// The trust ledger: every registered node's record and activity deadline,
/// and the clocks of mana increase and decrease.
pub struct Trusted {
    config: Config,
    nodes: Vec<NodeData>,
    last_mana_inc: u128,
    last_mana_dec: u128,
    last_tick_time: u128,
}

impl View for Trusted {
    type V = LedgerModel;

    closed spec fn view(&self) -> LedgerModel {
        LedgerModel {
            config: self.config,
            nodes: entries_map(self.entries()),
            last_mana_inc: self.last_mana_inc,
            last_mana_dec: self.last_mana_dec,
            last_tick_time: self.last_tick_time,
        }
    }
}

impl Trusted {
    closed spec fn entries(&self) -> Seq<LedgerEntry> {
        self.nodes@.map_values(|d: NodeData| d@)
    }

    /// The ledger's state is well formed, and it holds one entry per node.
    pub closed spec fn wf(&self) -> bool {
        &&& self@.wf()
        &&& ids_unique(self.entries())
    }

    /// A well-formed ledger has a well-formed state.
    pub proof fn lemma_view_wf(&self)
        requires
            self.wf(),
        ensures
            self@.wf(),
    {
    }

    proof fn lemma_wf(&self)
        requires
            self.config.valid(),
            self.last_mana_inc <= self.last_tick_time,
            self.last_mana_dec <= self.last_tick_time,
            self.last_tick_time - self.last_mana_inc < self.config.time_mana_increase,
            self.last_tick_time - self.last_mana_dec < self.config.time_mana_decrease,
            ids_unique(self.entries()),
        ensures
            self.wf(),
    {
        lemma_map_finite(self.entries());
    }

    /// A ledger without nodes whose clocks stand at `now`; a zero mana
    /// period is refused.
    pub fn new(config: Config, now: u128) -> (r: Result<Trusted, SimError>)
        ensures
            r is Ok <==> config.valid(),
            r is Err ==> r == Err::<Trusted, SimError>(SimError::InvalidPeriod),
            r matches Ok(t) ==> t.wf() && t@ == LedgerModel::initial(config, now),
    {
        if config.time_mana_increase == 0 || config.time_mana_decrease == 0 {
            return Err(SimError::InvalidPeriod);
        }
        let t = Trusted {
            config,
            nodes: Vec::new(),
            last_mana_inc: now,
            last_mana_dec: now,
            last_tick_time: now,
        };
        proof {
            assert(t.entries() =~= Seq::empty());
            assert(t@.nodes =~= Map::empty());
            t.lemma_wf();
        }
        Ok(t)
    }

    /// A ledger with the default periods whose clocks stand at `now`.
    pub fn new_default(now: u128) -> (r: Trusted)
        ensures
            r.wf(),
            r@ == LedgerModel::initial(Config::default_periods(), now),
    {
        let t = Trusted {
            config: Config::default(),
            nodes: Vec::new(),
            last_mana_inc: now,
            last_mana_dec: now,
            last_tick_time: now,
        };
        proof {
            assert(t.entries() =~= Seq::empty());
            assert(t@.nodes =~= Map::empty());
            t.lemma_wf();
        }
        t
    }

    /// The position of the entry for `id`, if there is one.
    fn find(&self, id: &NodeID) -> (r: Option<usize>)
        requires
            self.wf(),
        ensures
            r matches Some(k) ==> k < self.nodes@.len() && self.entries()[k as int].record.id == *id,
            r is None <==> !self@.nodes.contains_key(*id),
    {
        let mut i: usize = 0;
        while i < self.nodes.len()
            invariant
                i <= self.nodes@.len(),
                forall|k: int| 0 <= k < i ==> #[trigger] self.entries()[k].record.id != *id,
            decreases self.nodes@.len() - i,
        {
            if self.nodes[i].info.id == *id {
                proof {
                    lemma_id_view_injective(self.nodes@[i as int].info.id, *id);
                    assert(self.entries()[i as int] == self.nodes@[i as int]@);
                    assert(self.entries()[i as int].record.id == *id);
                    lemma_map_dom(self.entries(), *id);
                }
                return Some(i);
            }
            i = i + 1;
        }
        proof {
            lemma_map_dom(self.entries(), *id);
        }
        None
    }

    /// The records of all nodes, each once, in no particular order.
    fn get_node_list(&self) -> (r: Vec<NodeInfo>)
        requires
            self.wf(),
        ensures
            r@.len() == self@.nodes.len(),
            forall|i: int| 0 <= i < r@.len() ==> {
                &&& self@.nodes.contains_key(#[trigger] r@[i]@.id)
                &&& self@.nodes[r@[i]@.id].record == r@[i]@
            },
            forall|id: NodeID| #[trigger] self@.nodes.contains_key(id) ==> exists|i: int|
                0 <= i < r@.len() && #[trigger] r@[i]@.id == id,
    {
        let mut out: Vec<NodeInfo> = Vec::new();
        let mut i: usize = 0;
        while i < self.nodes.len()
            invariant
                self.wf(),
                i <= self.nodes@.len(),
                out@.len() == i,
                forall|k: int| 0 <= k < i ==> (#[trigger] out@[k])@ == self.entries()[k].record,
            decreases self.nodes@.len() - i,
        {
            out.push(self.nodes[i].info.clone());
            i = i + 1;
        }
        proof {
            lemma_map_finite(self.entries());
            assert forall|k: int| 0 <= k < out@.len() implies {
                &&& self@.nodes.contains_key(#[trigger] out@[k]@.id)
                &&& self@.nodes[out@[k]@.id].record == out@[k]@
            } by {
                lemma_map_at(self.entries(), k);
            }
            assert forall|id: NodeID| #[trigger] self@.nodes.contains_key(id) implies exists|k: int|
                0 <= k < out@.len() && #[trigger] out@[k]@.id == id by {
                lemma_map_dom(self.entries(), id);
                let k = choose|k: int| 0 <= k < self.entries().len() && #[trigger] self.entries()[k].record.id == id;
                assert(out@[k]@.id == id);
            }
        }
        out
    }

    /// Files `info` under its identity, replacing any earlier record, and keeps
    /// it active until the deadline. Returns the records of all nodes.
    pub fn register(&mut self, info: NodeInfo) -> (r: Vec<NodeInfo>)
        requires
            old(self).wf(),
        ensures
            final(self).wf(),
            final(self)@ == old(self)@.register(info@),
            r@.len() == final(self)@.nodes.len(),
            forall|i: int| 0 <= i < r@.len() ==> {
                &&& final(self)@.nodes.contains_key(#[trigger] r@[i]@.id)
                &&& final(self)@.nodes[r@[i]@.id].record == r@[i]@
            },
            forall|id: NodeID| #[trigger] final(self)@.nodes.contains_key(id) ==> exists|i: int|
                0 <= i < r@.len() && #[trigger] r@[i]@.id == id,
    {
        let deadline = add_saturating(self.last_tick_time, self.config.time_node_active);
        let ghost record = info@;
        let entry = NodeData { info, active_until: deadline };
        match self.find(&entry.info.id) {
            Some(k) => {
                proof {
                    lemma_map_update(self.entries(), k as int, entry@);
                }
                self.nodes.set(k, entry);
                proof {
                    assert(self.entries() =~= old(self).entries().update(k as int, entry@));
                }
            },
            None => {
                proof {
                    lemma_map_push(self.entries(), entry@);
                }
                self.nodes.push(entry);
                proof {
                    assert(self.entries() =~= old(self).entries().push(entry@));
                }
            },
        }
        proof {
            self.lemma_wf();
            assert(self@.nodes =~= old(self)@.register(record).nodes);
        }
        self.get_node_list()
    }

    /// Keeps a known node active until the deadline and returns its mana; an
    /// unknown node is reported and nothing changes.
    pub fn alive(&mut self, id: &NodeID) -> (r: Result<Mana, SimError>)
        requires
            old(self).wf(),
        ensures
            final(self).wf(),
            final(self)@ == old(self)@.alive(*id),
            r is Ok <==> old(self)@.nodes.contains_key(*id),
            r matches Ok(m) ==> m.0 == old(self)@.nodes[*id].record.mana,
            r is Err ==> r == Err::<Mana, SimError>(SimError::NotRegistered),
    {
        match self.find(id) {
            Some(k) => {
                let deadline = add_saturating(self.last_tick_time, self.config.time_node_active);
                let mana = self.nodes[k].info.mana;
                proof {
                    lemma_map_at(self.entries(), k as int);
                }
                let entry = NodeData { info: self.nodes[k].info.clone(), active_until: deadline };
                proof {
                    lemma_map_update(self.entries(), k as int, entry@);
                }
                self.nodes.set(k, entry);
                proof {
                    assert(self.entries() =~= old(self).entries().update(k as int, entry@));
                    self.lemma_wf();
                    assert(self@.nodes =~= old(self)@.alive(*id).nodes);
                }
                Ok(mana)
            },
            None => Err(SimError::NotRegistered),
        }
    }

    /// The record of `id`, if the ledger holds one.
    pub fn info(&self, id: &NodeID) -> (r: Option<NodeInfo>)
        requires
            self.wf(),
        ensures
            r is Some <==> self@.nodes.contains_key(*id),
            r matches Some(i) ==> i@ == self@.nodes[*id].record,
    {
        match self.find(id) {
            Some(k) => {
                proof {
                    lemma_map_at(self.entries(), k as int);
                }
                Some(self.nodes[k].info.clone())
            },
            None => None,
        }
    }

    /// Advances the ledger to `now`: see `LedgerModel::tick`. A time earlier
    /// than the last tick is refused and leaves the ledger unchanged.
    pub fn tick(&mut self, now: u128) -> (r: Result<(), SimError>)
        requires
            old(self).wf(),
        ensures
            final(self).wf(),
            r is Ok <==> now >= old(self)@.last_tick_time,
            r is Ok ==> final(self)@ == old(self)@.tick(now),
            r is Err ==> final(self)@ == old(self)@ && r == Err::<(), SimError>(
                SimError::TimeReversed,
            ),
    {
        if now < self.last_tick_time {
            return Err(SimError::TimeReversed);
        }
        let inc = (now - self.last_mana_inc) / self.config.time_mana_increase;
        let dec = (now - self.last_mana_dec) / self.config.time_mana_decrease;
        let ghost entries = self.entries();
        let mut kept: Vec<NodeData> = Vec::new();
        let mut i: usize = 0;
        while i < self.nodes.len()
            invariant
                self.wf(),
                entries == self.entries(),
                i <= self.nodes@.len(),
                kept@.map_values(|d: NodeData| d@) == tick_seq(
                    entries.take(i as int),
                    inc as nat,
                    dec as nat,
                    now,
                ),
            decreases self.nodes@.len() - i,
        {
            let d = &self.nodes[i];
            assert(entries.take(i + 1).drop_last() =~= entries.take(i as int));
            assert(entries.take(i + 1).last() == d@);
            let ghost before = kept@.map_values(|d: NodeData| d@);
            if d.is_active(now) {
                let mana = Mana(add_saturating(d.info.mana.0, inc));
                let info = NodeInfo { id: d.info.id, name: d.info.name.clone(), mana };
                kept.push(NodeData { info, active_until: d.active_until });
                assert(kept@.map_values(|d: NodeData| d@) =~= before.push(
                    entry_after_tick(entries[i as int], inc as nat, dec as nat, now),
                ));
            } else if dec == 0 || d.info.mana.0 > dec {
                let mana = Mana(d.info.mana.0 - dec);
                let info = NodeInfo { id: d.info.id, name: d.info.name.clone(), mana };
                kept.push(NodeData { info, active_until: d.active_until });
                assert(kept@.map_values(|d: NodeData| d@) =~= before.push(
                    entry_after_tick(entries[i as int], inc as nat, dec as nat, now),
                ));
            }
            i = i + 1;
        }
        proof {
            assert(entries.take(entries.len() as int) =~= entries);
            lemma_map_tick(entries, inc as nat, dec as nat, now);
            lemma_windows(now - self.last_mana_inc, self.config.time_mana_increase as int);
            lemma_windows(now - self.last_mana_dec, self.config.time_mana_decrease as int);
        }
        self.nodes = kept;
        self.last_mana_inc = self.last_mana_inc + inc * self.config.time_mana_increase;
        self.last_mana_dec = self.last_mana_dec + dec * self.config.time_mana_decrease;
        self.last_tick_time = now;
        proof {
            assert(self.entries() == tick_seq(entries, inc as nat, dec as nat, now));
            self.lemma_wf();
            assert(self@.nodes == old(self)@.tick(now).nodes);
        }
        Ok(())
    }
}

/// A request to the ledger.
#[derive(Debug, Clone)]
pub enum TReqMsg {
    /// Registers a node
    Register(NodeInfo),
    /// Keeps a node active for another while
    Alive(NodeID),
    /// Updates mana: increase for active nodes, decrease for inactive ones
    Tick(u128),
    /// Asks for the record of a node
    Info(NodeID),
    /// Stops the ledger
    Close,
}

/// The ledger's answer to a request.
#[derive(Debug)]
pub enum TrustedReply {
    NodeList(Vec<NodeInfo>),
    NodeInfo(Option<NodeInfo>),
    Mana(Mana),
    OK,
    ErrorMsg(String),
}

impl Trusted {
    /// Serves one request and returns the reply. `Close` is answered with
    /// `None` and changes nothing: it tells the loop that serves the ledger
    /// to stop.
    pub fn handle(&mut self, msg: TReqMsg) -> (r: Option<TrustedReply>)
        requires
            old(self).wf(),
        ensures
            final(self).wf(),
            r is None <==> msg is Close,
            msg is Close ==> final(self)@ == old(self)@,
            msg matches TReqMsg::Register(info) ==> final(self)@ == old(self)@.register(info@) && (
            r matches Some(TrustedReply::NodeList(l)) && l@.len() == final(self)@.nodes.len() && (
            forall|i: int|
                0 <= i < l@.len() ==> #[trigger] final(self)@.nodes[l@[i]@.id].record == l@[i]@
                    && final(self)@.nodes.contains_key(l@[i]@.id)) && (forall|id: NodeID| #[trigger]
                final(self)@.nodes.contains_key(id) ==> exists|i: int|
                    0 <= i < l@.len() && #[trigger] l@[i]@.id == id)),
            msg matches TReqMsg::Alive(id) ==> final(self)@ == old(self)@.alive(id) && (if old(
                self,
            )@.nodes.contains_key(id) {
                r matches Some(TrustedReply::Mana(m)) && m.0 == old(self)@.nodes[id].record.mana
            } else {
                r matches Some(TrustedReply::ErrorMsg(_))
            }),
            msg matches TReqMsg::Tick(now) ==> if now >= old(self)@.last_tick_time {
                final(self)@ == old(self)@.tick(now) && r matches Some(TrustedReply::OK)
            } else {
                final(self)@ == old(self)@ && r matches Some(TrustedReply::ErrorMsg(_))
            },
            msg matches TReqMsg::Info(id) ==> final(self)@ == old(self)@ && (
            r matches Some(TrustedReply::NodeInfo(o)) && (o is Some <==> old(
                self,
            )@.nodes.contains_key(id)) && (o matches Some(i) ==> i@ == old(
                self,
            )@.nodes[id].record)),
    {
        match msg {
            TReqMsg::Register(info) => Some(TrustedReply::NodeList(self.register(info))),
            TReqMsg::Close => None,
            TReqMsg::Tick(now) => match self.tick(now) {
                Ok(()) => Some(TrustedReply::OK),
                Err(_) => Some(TrustedReply::ErrorMsg("Time went backwards".to_owned())),
            },
            TReqMsg::Alive(id) => match self.alive(&id) {
                Ok(m) => Some(TrustedReply::Mana(m)),
                Err(_) => Some(TrustedReply::ErrorMsg("Node not registered".to_owned())),
            },
            TReqMsg::Info(id) => Some(TrustedReply::NodeInfo(self.info(&id))),
        }
    }
}

} // verus!
