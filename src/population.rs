use crate::contagion::{contacts, id_bag, ids, lemma_spread_facts, spread};
use crate::dice::{lemma_follows_chain, lemma_follows_itself, Dice};
use crate::human::{touching, Human, SCALE, WINDOW_HEIGHT, WINDOW_WIDTH};
use crate::progression::{fate, fate_rolls, incubated, simulate, Fate};
use crate::contagion::{extends, lemma_spread_reads_contact_rolls};
use vstd::multiset::Multiset;
use vstd::prelude::*;

verus! {

broadcast use vstd::seq_lib::group_seq_properties, vstd::multiset::group_multiset_axioms;

/// Every agent of `s` moves near the field.
pub open spec fn all_in_bounds(s: Seq<Human>) -> bool {
    forall|i: int| 0 <= i < s.len() ==> #[trigger] s[i].in_bounds()
}

/// The agents of `s`, each after one step of motion.
pub open spec fn all_moved(s: Seq<Human>) -> Seq<Human> {
    s.map_values(|a: Human| a.moved())
}

proof fn lemma_bag_push(s: Seq<Human>, a: Human)
    ensures
        id_bag(s.push(a)) == id_bag(s).insert(a.id),
{
    assert(ids(s.push(a)) =~= ids(s).push(a.id));
    vstd::seq_lib::to_multiset_build(ids(s), a.id);
}

proof fn lemma_bag_remove(s: Seq<Human>, k: int)
    requires
        0 <= k < s.len(),
    ensures
        id_bag(s.remove(k)) == id_bag(s).remove(s[k].id),
{
    assert(ids(s.remove(k)) =~= ids(s).remove(k));
    vstd::seq_lib::to_multiset_remove(ids(s), k);
}

proof fn lemma_bag_concat(a: Seq<Human>, b: Seq<Human>)
    ensures
        id_bag(a + b) == id_bag(a).add(id_bag(b)),
{
    assert(ids(a + b) =~= ids(a) + ids(b));
    vstd::seq_lib::lemma_multiset_commutative(ids(a), ids(b));
}

proof fn lemma_bag_moved(s: Seq<Human>)
    ensures
        id_bag(all_moved(s)) == id_bag(s),
{
    assert(ids(all_moved(s)) =~= ids(s));
}

/// Moves every agent of `v` one step.
fn move_all(v: &mut Vec<Human>)
    requires
        all_in_bounds(old(v)@),
    ensures
        final(v)@ == all_moved(old(v)@),
        all_in_bounds(final(v)@),
{
    let ghost v0 = v@;
    let mut i: usize = 0;
    while i < v.len()
        invariant
            i <= v.len(),
            v@.len() == v0.len(),
            all_in_bounds(v0),
            forall|j: int| 0 <= j < i ==> v@[j] == #[trigger] v0[j].moved(),
            forall|j: int| 0 <= j < i ==> #[trigger] v@[j].in_bounds(),
            forall|j: int| i <= j < v.len() ==> v@[j] == v0[j],
        decreases v.len() - i,
    {
        let mut a = v[i];
        assert(v0[i as int].in_bounds());
        a.advance();
        v.set(i, a);
        i = i + 1;
    }
    assert(v@ =~= all_moved(v0));
}

/// The contents of a population: its four collections.
pub struct Census {
    pub healthy: Seq<Human>,
    pub infected: Seq<Human>,
    pub recovered: Seq<Human>,
    pub dead: Seq<Human>,
}

/// The turn of the carrier at position `k` of `s.infected`, with `rolls` the
/// rolls that follow: it moves, contaminates, and has its progression resolution.
/// Gives the new contents, the position of the next carrier, and how many
/// rolls were drawn.
pub open spec fn turn(s: Census, k: int, rolls: Seq<u32>, now: i64) -> (Census, int, nat) {
    let c = s.infected[k].moved();
    let n = contacts(c, s.healthy);
    let sp = spread(c, s.healthy, rolls, now);
    let gate = incubated(now, c.infected_at);
    let f = fate(gate, rolls.skip(n as int));
    let grown = s.infected.update(k, c) + sp.1;
    let used = n + fate_rolls(gate, rolls.skip(n as int));
    if f == Fate::Dies {
        (
            Census { healthy: sp.0, infected: grown.remove(k), recovered: s.recovered, dead: s.dead.push(c) },
            k,
            used,
        )
    } else if f == Fate::Recovers {
        (
            Census { healthy: sp.0, infected: grown.remove(k), recovered: s.recovered.push(c), dead: s.dead },
            k,
            used,
        )
    } else {
        (Census { healthy: sp.0, infected: grown, recovered: s.recovered, dead: s.dead }, k + 1, used)
    }
}

/// The first `t` turns of a step that begins with contents `s0`.
pub open spec fn walk(s0: Census, t: nat, rolls: Seq<u32>, now: i64) -> (Census, int, nat)
    decreases t,
{
    if t == 0 {
        (s0, 0, 0)
    } else {
        let w = walk(s0, (t - 1) as nat, rolls, now);
        let r = turn(w.0, w.1, rolls.skip(w.2 as int), now);
        (r.0, r.1, w.2 + r.2)
    }
}

/// A whole step from contents `s0`: one turn for each carrier present at the
/// start, then the healthy and the recovered agents move.
pub open spec fn stepped(s0: Census, rolls: Seq<u32>, now: i64) -> Census {
    let w = walk(s0, s0.infected.len(), rolls, now).0;
    Census {
        healthy: all_moved(w.healthy),
        infected: w.infected,
        recovered: all_moved(w.recovered),
        dead: w.dead,
    }
}

/// How many rolls a whole step from `s0` draws.
pub open spec fn step_rolls(s0: Census, rolls: Seq<u32>, now: i64) -> nat {
    walk(s0, s0.infected.len(), rolls, now).2
}

proof fn lemma_fate_reads_its_rolls(gate: bool, r1: Seq<u32>, r2: Seq<u32>)
    requires
        fate_rolls(gate, r1) <= r1.len(),
        fate_rolls(gate, r1) <= r2.len(),
        forall|k: int| 0 <= k < fate_rolls(gate, r1) ==> r1[k] == r2[k],
    ensures
        fate(gate, r1) == fate(gate, r2),
        fate_rolls(gate, r1) == fate_rolls(gate, r2),
{
}

proof fn lemma_turn_reads_its_rolls(s: Census, k: int, r1: Seq<u32>, r2: Seq<u32>, now: i64)
    requires
        turn(s, k, r1, now).2 <= r1.len(),
        turn(s, k, r1, now).2 <= r2.len(),
        forall|i: int| 0 <= i < turn(s, k, r1, now).2 ==> r1[i] == r2[i],
    ensures
        turn(s, k, r1, now) == turn(s, k, r2, now),
{
    let c = s.infected[k].moved();
    let n = contacts(c, s.healthy);
    lemma_spread_reads_contact_rolls(c, s.healthy, r1, r2, now);
    let gate = incubated(now, c.infected_at);
    assert forall|i: int| 0 <= i < fate_rolls(gate, r1.skip(n as int)) implies r1.skip(n as int)[i]
        == r2.skip(n as int)[i] by {
        assert(r1[n + i] == r2[n + i]);
    }
    lemma_fate_reads_its_rolls(gate, r1.skip(n as int), r2.skip(n as int));
}

proof fn lemma_walk_reads_its_rolls(s0: Census, t: nat, r1: Seq<u32>, r2: Seq<u32>, now: i64)
    requires
        walk(s0, t, r1, now).2 <= r1.len(),
        walk(s0, t, r1, now).2 <= r2.len(),
        forall|i: int| 0 <= i < walk(s0, t, r1, now).2 ==> r1[i] == r2[i],
    ensures
        walk(s0, t, r1, now) == walk(s0, t, r2, now),
    decreases t,
{
    if t > 0 {
        let w = walk(s0, (t - 1) as nat, r1, now);
        lemma_walk_reads_its_rolls(s0, (t - 1) as nat, r1, r2, now);
        let u = w.2 as int;
        let r = turn(w.0, w.1, r1.skip(u), now);
        assert forall|i: int| 0 <= i < r.2 implies r1.skip(u)[i] == r2.skip(u)[i] by {
            assert(r1[u + i] == r2[u + i]);
        }
        lemma_turn_reads_its_rolls(w.0, w.1, r1.skip(u), r2.skip(u), now);
    }
}

/// The number of agents in a population, as it is created.
pub const TOTAL_POPULATION_SIZE: u64 = 600;

/// The number of agents infected when a population is created.
pub const INITIAL_INFECTED_POPULATION: u64 = 20;

/// The four collections of agents: an agent's state is the collection that
/// holds it.
pub struct Population {
    pub healthy: Vec<Human>,
    pub infected: Vec<Human>,
    pub recovered: Vec<Human>,
    pub dead: Vec<Human>,
}

impl Population {
    /// The contents of the population.
    pub open spec fn census(&self) -> Census {
        Census {
            healthy: self.healthy@,
            infected: self.infected@,
            recovered: self.recovered@,
            dead: self.dead@,
        }
    }

    /// Every agent moves near the field.
    pub open spec fn wf(&self) -> bool {
        &&& all_in_bounds(self.healthy@)
        &&& all_in_bounds(self.infected@)
        &&& all_in_bounds(self.recovered@)
        &&& all_in_bounds(self.dead@)
    }

    /// The number of agents in all four collections.
    pub open spec fn size(&self) -> nat {
        self.healthy@.len() + self.infected@.len() + self.recovered@.len() + self.dead@.len()
    }

    /// The identities of all agents, as a multiset.
    pub open spec fn id_bag(&self) -> Multiset<u64> {
        id_bag(self.healthy@).add(id_bag(self.infected@)).add(id_bag(self.recovered@)).add(
            id_bag(self.dead@),
        )
    }

    /// No identity is held twice, within a collection or across two.
    pub open spec fn distinct(&self) -> bool {
        forall|x: u64| #[trigger] self.id_bag().count(x) <= 1
    }

    /// The agents of a fresh population: `healthy` holds identities
    /// `0 .. TOTAL_POPULATION_SIZE - INITIAL_INFECTED_POPULATION` and `infected`
    /// the rest, in order, each at a random place on the field with a random
    /// velocity, and with infection instant zero.
    pub open spec fn is_initial(&self) -> bool {
        &&& self.healthy@.len() == TOTAL_POPULATION_SIZE - INITIAL_INFECTED_POPULATION
        &&& self.infected@.len() == INITIAL_INFECTED_POPULATION
        &&& self.recovered@.len() == 0
        &&& self.dead@.len() == 0
        &&& forall|i: int| 0 <= i < self.healthy@.len() ==> #[trigger] self.healthy@[i].id == i
        &&& forall|i: int|
            0 <= i < self.infected@.len() ==> #[trigger] self.infected@[i].id == i + self.healthy@.len()
        &&& forall|i: int| 0 <= i < self.healthy@.len() ==> #[trigger] self.healthy@[i].infected_at == 0
        &&& forall|i: int| 0 <= i < self.infected@.len() ==> #[trigger] self.infected@[i].infected_at == 0
    }

    /// A population with no agents.
    pub fn new() -> (p: Population)
        ensures
            p.healthy@.len() == 0,
            p.infected@.len() == 0,
            p.recovered@.len() == 0,
            p.dead@.len() == 0,
    {
        Population { healthy: Vec::new(), infected: Vec::new(), recovered: Vec::new(), dead: Vec::new() }
    }

    /// A fresh population: `TOTAL_POPULATION_SIZE - INITIAL_INFECTED_POPULATION`
    /// healthy agents and `INITIAL_INFECTED_POPULATION` infected ones.
    pub fn populate() -> (p: Population)
        ensures
            p.is_initial(),
            p.wf(),
            p.distinct(),
    {
        let mut p = Population::new();
        let healthy_count: u64 = TOTAL_POPULATION_SIZE - INITIAL_INFECTED_POPULATION;
        let mut id: u64 = 0;
        while id < healthy_count
            invariant
                id <= healthy_count,
                healthy_count == TOTAL_POPULATION_SIZE - INITIAL_INFECTED_POPULATION,
                p.healthy@.len() == id,
                p.infected@.len() == 0,
                p.recovered@.len() == 0,
                p.dead@.len() == 0,
                all_in_bounds(p.healthy@),
                forall|i: int| 0 <= i < p.healthy@.len() ==> #[trigger] p.healthy@[i].id == i,
                forall|i: int| 0 <= i < p.healthy@.len() ==> #[trigger] p.healthy@[i].infected_at == 0,
            decreases healthy_count - id,
        {
            let h = Human::new(id, SCALE, SCALE, WINDOW_WIDTH, WINDOW_HEIGHT);
            p.healthy.push(h);
            id = id + 1;
        }
        while id < TOTAL_POPULATION_SIZE
            invariant
                healthy_count <= id <= TOTAL_POPULATION_SIZE,
                healthy_count == TOTAL_POPULATION_SIZE - INITIAL_INFECTED_POPULATION,
                p.healthy@.len() == healthy_count,
                p.infected@.len() == id - healthy_count,
                p.recovered@.len() == 0,
                p.dead@.len() == 0,
                all_in_bounds(p.healthy@),
                all_in_bounds(p.infected@),
                forall|i: int| 0 <= i < p.healthy@.len() ==> #[trigger] p.healthy@[i].id == i,
                forall|i: int| 0 <= i < p.healthy@.len() ==> #[trigger] p.healthy@[i].infected_at == 0,
                forall|i: int|
                    0 <= i < p.infected@.len() ==> #[trigger] p.infected@[i].id == i + healthy_count,
                forall|i: int| 0 <= i < p.infected@.len() ==> #[trigger] p.infected@[i].infected_at == 0,
            decreases TOTAL_POPULATION_SIZE - id,
        {
            let h = Human::new(id, SCALE, SCALE, WINDOW_WIDTH, WINDOW_HEIGHT);
            p.infected.push(h);
            id = id + 1;
        }
        proof {
            lemma_initial_distinct(p);
        }
        p
    }

    /// Replaces every agent by a fresh population.
    pub fn reset(&mut self)
        ensures
            final(self).is_initial(),
            final(self).wf(),
            final(self).distinct(),
    {
        *self = Population::populate();
    }

    /// One simulation step at instant `now`. Each agent infected when the step
    /// begins takes one turn, in order: it moves, contaminates the healthy
    /// agents it touches, and has its progression resolution (see `simulate`).
    /// Agents infected during the step take no turn in it. Then the healthy
    /// and recovered agents move; the dead stay where they are.
    #[verifier::rlimit(100)]
    pub fn tick(&mut self, now: i64, dice: &mut Dice)
        requires
            old(self).wf(),
            old(dice).wf(),
        ensures
            final(self).wf(),
            final(dice).wf(),
            final(dice).follows(old(dice)),
            ({
                let rolls = final(dice).history().skip(old(dice).history().len() as int);
                &&& extends(
                    old(dice).history(),
                    final(dice).history(),
                    step_rolls(old(self).census(), rolls, now),
                )
                &&& final(self).census() == stepped(old(self).census(), rolls, now)
            }),
            final(self).size() == old(self).size(),
            final(self).id_bag() == old(self).id_bag(),
            old(self).distinct() ==> final(self).distinct(),
            final(self).dead@.len() >= old(self).dead@.len(),
            forall|i: int| 0 <= i < old(self).dead@.len() ==> final(self).dead@[i] == old(self).dead@[i],
            final(self).recovered@.len() >= old(self).recovered@.len(),
            forall|i: int|
                0 <= i < old(self).recovered@.len() ==> final(self).recovered@[i]
                    == old(self).recovered@[i].moved(),
            forall|i: int|
                old(self).dead@.len() <= i < final(self).dead@.len() ==> incubated(
                    now,
                    #[trigger] final(self).dead@[i].infected_at,
                ),
            forall|i: int|
                old(self).recovered@.len() <= i < final(self).recovered@.len() ==> incubated(
                    now,
                    #[trigger] final(self).recovered@[i].infected_at,
                ),
            forall|j: int|
                0 <= j < old(self).healthy@.len() && (forall|q: int|
                    0 <= q < old(self).infected@.len() ==> !touching(
                        #[trigger] old(self).infected@[q].moved(),
                        old(self).healthy@[j],
                    )) ==> final(self).healthy@.contains(#[trigger] old(self).healthy@[j].moved()),
            old(self).distinct() ==> forall|x: u64|
                ids(old(self).dead@).contains(x) || ids(old(self).recovered@).contains(x)
                    ==> !#[trigger] final(self).is_live(x),
    {
        let ghost h0 = self.healthy@;
        let ghost i0 = self.infected@;
        let ghost r0 = self.recovered@;
        let ghost d0 = self.dead@;
        let ghost bag0 = self.id_bag();
        let ghost size0 = self.size();
        let ghost c0 = self.census();
        let ghost hist0 = dice.history();
        let ghost dstart = *dice;
        proof {
            lemma_follows_itself(&dstart);
        }
        let n0: usize = self.infected.len();
        let mut k: usize = 0;
        let mut end: usize = n0;
        let ghost mut p: int = 0;
        while k < end
            invariant
                k <= end <= self.infected.len(),
                0 <= p <= n0,
                n0 == i0.len(),
                end - k == n0 - p,
                self.infected@.subrange(k as int, end as int) == i0.subrange(p, n0 as int),
                self.wf(),
                dice.wf(),
                dice.follows(&dstart),
                dstart.history() == hist0,
                self.id_bag() == bag0,
                self.size() == size0,
                self.dead@.len() >= d0.len(),
                forall|i: int| 0 <= i < d0.len() ==> self.dead@[i] == d0[i],
                forall|i: int|
                    d0.len() <= i < self.dead@.len() ==> incubated(
                        now,
                        #[trigger] self.dead@[i].infected_at,
                    ),
                self.recovered@.len() >= r0.len(),
                forall|i: int| 0 <= i < r0.len() ==> self.recovered@[i] == r0[i],
                forall|i: int|
                    r0.len() <= i < self.recovered@.len() ==> incubated(
                        now,
                        #[trigger] self.recovered@[i].infected_at,
                    ),
                forall|j: int|
                    0 <= j < h0.len() && (forall|q: int|
                        0 <= q < p ==> !touching(#[trigger] i0[q].moved(), h0[j]))
                        ==> self.healthy@.contains(#[trigger] h0[j]),
                c0 == (Census { healthy: h0, infected: i0, recovered: r0, dead: d0 }),
                ({
                    let w = walk(c0, p as nat, dice.history().skip(hist0.len() as int), now);
                    &&& extends(hist0, dice.history(), w.2)
                    &&& w.0 == self.census()
                    &&& w.1 == k
                }),
            decreases end - k,
        {
            let ghost pre_h = self.healthy@;
            let ghost pre_i = self.infected@;
            let ghost pre_r = self.recovered@;
            let ghost pre_d = self.dead@;
            assert(pre_i[k as int] == i0[p]) by {
                assert(pre_i.subrange(k as int, end as int)[0] == i0.subrange(p, n0 as int)[0]);
            }
            let mut carrier = self.infected[k];
            carrier.advance();
            self.infected.set(k, carrier);
            let ghost mid_i = self.infected@;
            let ghost d_before = dice.history();
            let ghost dbefore = *dice;
            proof {
                assert(ids(mid_i) =~= ids(pre_i));
            }
            let new_end = simulate(
                &mut self.healthy,
                &mut self.infected,
                &mut self.recovered,
                &mut self.dead,
                k,
                end,
                now,
                dice,
            );
            proof {
                lemma_follows_chain(&dstart, &dbefore, dice);
                let c = carrier;
                let rolls = dice.history().skip(d_before.len() as int);
                let all_rolls = dice.history().skip(hist0.len() as int);
                let prev_rolls = d_before.skip(hist0.len() as int);
                let wp = walk(c0, p as nat, prev_rolls, now);
                assert(d_before.subrange(0, hist0.len() as int) =~= hist0);
                assert(dice.history().subrange(0, d_before.len() as int) =~= d_before);
                assert(dice.history().subrange(0, hist0.len() as int) =~= hist0);
                assert forall|i: int| 0 <= i < wp.2 implies prev_rolls[i] == all_rolls[i] by {
                    assert(prev_rolls[i] == d_before[hist0.len() + i]);
                }
                lemma_walk_reads_its_rolls(c0, p as nat, prev_rolls, all_rolls, now);
                assert(all_rolls.skip(wp.2 as int) =~= rolls);
                assert(wp.0.infected[k as int].moved() == c);
                assert(mid_i =~= wp.0.infected.update(k as int, c));
                let n = contacts(c, pre_h);
                let s = spread(c, pre_h, rolls, now);
                let f = fate(incubated(now, c.infected_at), rolls.skip(n as int));
                lemma_spread_facts(c, pre_h, rolls, now);
                lemma_bag_concat(mid_i, s.1);
                let grown = mid_i + s.1;
                assert(grown[k as int] == c);
                assert(all_in_bounds(grown)) by {
                    assert forall|i: int| 0 <= i < grown.len() implies #[trigger] grown[i].in_bounds() by {
                        if i >= mid_i.len() {
                            let j = choose|j: int|
                                0 <= j < pre_h.len() && s.1[i - mid_i.len()] == pre_h[j].infected_from(now);
                            assert(pre_h[j].in_bounds());
                        }
                    }
                }
                assert(all_in_bounds(s.0)) by {
                    assert forall|i: int| 0 <= i < s.0.len() implies #[trigger] s.0[i].in_bounds() by {
                        let j = choose|j: int| 0 <= j < pre_h.len() && s.0[i] == pre_h[j];
                        assert(pre_h[j].in_bounds());
                    }
                }
                assert(id_bag(mid_i) == id_bag(pre_i));
                assert(id_bag(s.0).add(id_bag(s.1)) == id_bag(pre_h));
                assert(id_bag(grown) == id_bag(pre_i).add(id_bag(s.1)));
                if f != Fate::StaysInfected {
                    lemma_bag_remove(grown, k as int);
                    assert(ids(grown)[k as int] == c.id);
                    vstd::seq_lib::to_multiset_contains(ids(grown), c.id);
                    assert(id_bag(grown).count(c.id) > 0);
                    assert(grown.remove(k as int).subrange(k as int, new_end as int)
                        =~= pre_i.subrange(k + 1, end as int));
                    if f == Fate::Dies {
                        lemma_bag_push(pre_d, c);
                    } else {
                        lemma_bag_push(pre_r, c);
                    }
                    assert(self.id_bag() =~= bag0);
                } else {
                    assert(grown.subrange(k + 1, end as int) =~= pre_i.subrange(k + 1, end as int));
                    assert(self.id_bag() =~= bag0);
                }
                assert(i0.subrange(p + 1, n0 as int) =~= i0.subrange(p, n0 as int).subrange(1, n0 - p));
                assert(pre_i.subrange(k + 1, end as int) =~= pre_i.subrange(k as int, end as int).subrange(
                    1,
                    end - k,
                ));
                assert forall|j: int|
                    0 <= j < h0.len() && (forall|q: int|
                        0 <= q < p + 1 ==> !touching(#[trigger] i0[q].moved(), h0[j]))
                        implies self.healthy@.contains(#[trigger] h0[j]) by {
                    assert(!touching(i0[p].moved(), h0[j]));
                    assert(pre_h.contains(h0[j]));
                    let jj = choose|jj: int| 0 <= jj < pre_h.len() && pre_h[jj] == h0[j];
                    assert(!touching(c, pre_h[jj]));
                }
            }
            if new_end == end {
                k = k + 1;
            }
            end = new_end;
            proof {
                p = p + 1;
            }
        }
        assert(p == n0);
        let ghost mid_h = self.healthy@;
        let ghost mid_r = self.recovered@;
        move_all(&mut self.healthy);
        move_all(&mut self.recovered);
        proof {
            lemma_bag_moved(mid_h);
            lemma_bag_moved(mid_r);
            assert(self.census() == stepped(c0, dice.history().skip(hist0.len() as int), now));
            assert forall|j: int|
                0 <= j < h0.len() && (forall|q: int|
                    0 <= q < i0.len() ==> !touching(#[trigger] i0[q].moved(), h0[j]))
                    implies self.healthy@.contains(#[trigger] h0[j].moved()) by {
                assert(forall|q: int| 0 <= q < p ==> !touching(#[trigger] i0[q].moved(), h0[j]));
                let jj = choose|jj: int| 0 <= jj < mid_h.len() && mid_h[jj] == h0[j];
                assert(self.healthy@[jj] == h0[j].moved());
            }
            assert(self.id_bag() == old(self).id_bag());
            assert forall|x: u64|
                ids(d0).contains(x) || ids(r0).contains(x) implies (old(self).distinct() ==> !#[trigger] self.is_live(x)) by {
                if ids(d0).contains(x) {
                    let i = choose|i: int| 0 <= i < ids(d0).len() && ids(d0)[i] == x;
                    assert(ids(self.dead@)[i] == x);
                } else {
                    let i = choose|i: int| 0 <= i < ids(r0).len() && ids(r0)[i] == x;
                    assert(ids(self.recovered@)[i] == x);
                }
                if old(self).distinct() {
                    lemma_settled_not_live(*self, x);
                }
            }
        }
    }

    /// Reads the current instant from the clock and takes one step at it.
    pub fn step(&mut self, dice: &mut Dice)
        requires
            old(self).wf(),
            old(dice).wf(),
        ensures
            final(self).wf(),
            final(dice).wf(),
            final(dice).follows(old(dice)),
            final(self).size() == old(self).size(),
            final(self).id_bag() == old(self).id_bag(),
            old(self).distinct() ==> final(self).distinct(),
            forall|i: int| 0 <= i < old(self).dead@.len() ==> final(self).dead@[i] == old(self).dead@[i],
            exists|now: i64|
                #[trigger] stepped(
                    old(self).census(),
                    final(dice).history().skip(old(dice).history().len() as int),
                    now,
                ) == final(self).census() && extends(
                    old(dice).history(),
                    final(dice).history(),
                    step_rolls(
                        old(self).census(),
                        final(dice).history().skip(old(dice).history().len() as int),
                        now,
                    ),
                ),
    {
        let now = crate::clock::now_millis();
        self.tick(now, dice);
    }

    /// One frame of the running simulation: a reset replaces the population
    /// first, then a step is taken at `now` if the simulation plays. While
    /// paused nothing moves and nothing changes state.
    pub fn frame(&mut self, play: bool, reset: bool, now: i64, dice: &mut Dice)
        requires
            old(self).wf(),
            old(dice).wf(),
        ensures
            final(self).wf(),
            final(dice).wf(),
            final(dice).follows(old(dice)),
            !play && !reset ==> final(self).healthy@ == old(self).healthy@
                && final(self).infected@ == old(self).infected@
                && final(self).recovered@ == old(self).recovered@
                && final(self).dead@ == old(self).dead@,
            !play && reset ==> final(self).is_initial(),
            play && !reset ==> {
                let rolls = final(dice).history().skip(old(dice).history().len() as int);
                &&& extends(
                    old(dice).history(),
                    final(dice).history(),
                    step_rolls(old(self).census(), rolls, now),
                )
                &&& final(self).census() == stepped(old(self).census(), rolls, now)
            },
            final(self).size() == if reset {
                TOTAL_POPULATION_SIZE as nat
            } else {
                old(self).size()
            },
            reset || old(self).distinct() ==> final(self).distinct(),
    {
        if reset {
            self.reset();
        }
        if play {
            self.tick(now, dice);
        } else {
            proof {
                lemma_follows_itself(dice);
            }
        }
    }

    /// Identity `x` belongs to a healthy or an infected agent.
    pub open spec fn is_live(&self, x: u64) -> bool {
        ids(self.healthy@).contains(x) || ids(self.infected@).contains(x)
    }
}

proof fn lemma_settled_not_live(p: Population, x: u64)
    requires
        p.distinct(),
        ids(p.dead@).contains(x) || ids(p.recovered@).contains(x),
    ensures
        !p.is_live(x),
{
    vstd::seq_lib::to_multiset_contains(ids(p.healthy@), x);
    vstd::seq_lib::to_multiset_contains(ids(p.infected@), x);
    vstd::seq_lib::to_multiset_contains(ids(p.recovered@), x);
    vstd::seq_lib::to_multiset_contains(ids(p.dead@), x);
    assert(p.id_bag().count(x) <= 1);
}

proof fn lemma_initial_distinct(p: Population)
    requires
        p.is_initial(),
    ensures
        p.distinct(),
{
    let n = p.healthy@.len();
    let hi = ids(p.healthy@);
    let ii = ids(p.infected@);
    assert(hi.no_duplicates());
    assert(ii.no_duplicates());
    hi.lemma_multiset_has_no_duplicates();
    ii.lemma_multiset_has_no_duplicates();
    assert(id_bag(p.recovered@) =~= Multiset::empty());
    assert(id_bag(p.dead@) =~= Multiset::empty());
    assert forall|x: u64| #[trigger] p.id_bag().count(x) <= 1 by {
        vstd::seq_lib::to_multiset_contains(hi, x);
        vstd::seq_lib::to_multiset_contains(ii, x);
        if hi.contains(x) && ii.contains(x) {
            let a = choose|a: int| 0 <= a < hi.len() && hi[a] == x;
            let b = choose|b: int| 0 <= b < ii.len() && ii[b] == x;
            assert(hi[a] == a);
            assert(ii[b] == b + n);
        }
    }
}

} // verus!
