use crate::dice::{lemma_follows_chain, lemma_follows_itself, Dice};
use crate::human::{touching, Human};
use vstd::multiset::Multiset;
use vstd::prelude::*;

verus! {

broadcast use vstd::seq_lib::group_seq_properties, vstd::multiset::group_multiset_axioms;

/// A contact infects when its roll is at most this percentage.
pub const INFECTION_RATE: u32 = 2;

/// The identities of the agents of `s`, in order.
pub open spec fn ids(s: Seq<Human>) -> Seq<u64> {
    s.map_values(|a: Human| a.id)
}

/// The identities of the agents of `s`, as a multiset.
pub open spec fn id_bag(s: Seq<Human>) -> Multiset<u64> {
    ids(s).to_multiset()
}

/// Rolls `new` extend rolls `old` by `n` more.
pub open spec fn extends(old: Seq<u32>, new: Seq<u32>, n: nat) -> bool {
    new.len() == old.len() + n && new.subrange(0, old.len() as int) == old
}

/// The number of agents of `h` in contact with `c`.
pub open spec fn contacts(c: Human, h: Seq<Human>) -> nat
    decreases h.len(),
{
    if h.len() == 0 {
        0
    } else {
        contacts(c, h.drop_last()) + if touching(c, h.last()) {
            1nat
        } else {
            0nat
        }
    }
}

/// One contamination pass of carrier `c` over the healthy agents `h`, where
/// `rolls[k]` is the roll of the `k`-th contact: the agents that stay healthy,
/// and the agents newly infected at instant `now`, each in order.
pub open spec fn spread(c: Human, h: Seq<Human>, rolls: Seq<u32>, now: i64) -> (Seq<Human>, Seq<Human>)
    decreases h.len(),
{
    if h.len() == 0 {
        (Seq::empty(), Seq::empty())
    } else {
        let before = spread(c, h.drop_last(), rolls, now);
        let a = h.last();
        if touching(c, a) && rolls[contacts(c, h.drop_last()) as int] <= INFECTION_RATE {
            (before.0, before.1.push(a.infected_from(now)))
        } else {
            (before.0.push(a), before.1)
        }
    }
}

/// The pass reads only the rolls of its contacts.
pub proof fn lemma_spread_reads_contact_rolls(
    c: Human,
    h: Seq<Human>,
    r1: Seq<u32>,
    r2: Seq<u32>,
    now: i64,
)
    requires
        forall|k: int| 0 <= k < contacts(c, h) ==> r1[k] == r2[k],
    ensures
        spread(c, h, r1, now) == spread(c, h, r2, now),
    decreases h.len(),
{
    if h.len() > 0 {
        lemma_spread_reads_contact_rolls(c, h.drop_last(), r1, r2, now);
    }
}

/// What a contamination pass keeps: every agent either stays healthy or is
/// newly infected, no identity is lost or doubled, only contacts are infected,
/// and agents out of contact stay healthy.
pub proof fn lemma_spread_facts(c: Human, h: Seq<Human>, rolls: Seq<u32>, now: i64)
    ensures
        spread(c, h, rolls, now).0.len() + spread(c, h, rolls, now).1.len() == h.len(),
        id_bag(spread(c, h, rolls, now).0).add(id_bag(spread(c, h, rolls, now).1)) == id_bag(h),
        forall|i: int|
            0 <= i < spread(c, h, rolls, now).1.len() ==> {
                let a = #[trigger] spread(c, h, rolls, now).1[i];
                touching(c, a) && a.infected_at == now && exists|j: int|
                    0 <= j < h.len() && a == h[j].infected_from(now)
            },
        forall|i: int|
            0 <= i < spread(c, h, rolls, now).0.len() ==> exists|j: int|
                0 <= j < h.len() && #[trigger] spread(c, h, rolls, now).0[i] == h[j],
        forall|j: int|
            0 <= j < h.len() && !touching(c, #[trigger] h[j]) ==> spread(c, h, rolls, now).0.contains(
                h[j],
            ),
    decreases h.len(),
{
    if h.len() > 0 {
        let p = h.drop_last();
        lemma_spread_facts(c, p, rolls, now);
        let s = spread(c, p, rolls, now);
        let a = h.last();
        assert(ids(h) =~= ids(p).push(a.id));
        assert(ids(s.0.push(a)) =~= ids(s.0).push(a.id));
        assert(ids(s.1.push(a.infected_from(now))) =~= ids(s.1).push(a.id));
        let t = spread(c, h, rolls, now);
        assert forall|i: int| 0 <= i < t.1.len() implies {
            let b = #[trigger] t.1[i];
            touching(c, b) && b.infected_at == now && exists|j: int|
                0 <= j < h.len() && b == h[j].infected_from(now)
        } by {
            if i < s.1.len() {
                let j = choose|j: int| 0 <= j < p.len() && s.1[i] == p[j].infected_from(now);
                assert(h[j] == p[j]);
            } else {
                assert(h[h.len() - 1] == a);
            }
        }
        assert forall|i: int| 0 <= i < t.0.len() implies exists|j: int|
            0 <= j < h.len() && #[trigger] t.0[i] == h[j] by {
            if i < s.0.len() {
                let j = choose|j: int| 0 <= j < p.len() && s.0[i] == p[j];
                assert(h[j] == p[j]);
            } else {
                assert(h[h.len() - 1] == a);
            }
        }
        assert forall|j: int| 0 <= j < h.len() && !touching(c, #[trigger] h[j]) implies t.0.contains(
            h[j],
        ) by {
            if j < p.len() {
                assert(h[j] == p[j]);
                let k = choose|k: int| 0 <= k < s.0.len() && s.0[k] == p[j];
                assert(t.0[k] == p[j]);
            } else {
                assert(t.0[t.0.len() - 1] == a);
            }
        }
    }
}

/// Scans the whole healthy collection for agents in contact with the carrier
/// `infected[carrier]`. Each contact draws one roll; when it is at most
/// `INFECTION_RATE` the agent, stamped as infected at `now`, is appended to
/// `infected` and removed from `healthy`. Returns how many were infected.
pub fn contaminate(
    healthy: &mut Vec<Human>,
    infected: &mut Vec<Human>,
    carrier: usize,
    now: i64,
    dice: &mut Dice,
) -> (caught: usize)
    requires
        carrier < old(infected).len(),
        old(dice).wf(),
    ensures
        final(dice).wf(),
        final(dice).follows(old(dice)),
        extends(
            old(dice).history(),
            final(dice).history(),
            contacts(old(infected)[carrier as int], old(healthy)@),
        ),
        ({
            let s = spread(
                old(infected)[carrier as int],
                old(healthy)@,
                final(dice).history().skip(old(dice).history().len() as int),
                now,
            );
            &&& final(healthy)@ == s.0
            &&& final(infected)@ == old(infected)@ + s.1
            &&& caught == s.1.len()
        }),
{
    let c = infected[carrier];
    let scanned: usize = healthy.len();
    let ghost h0 = healthy@;
    let ghost inf0 = infected@;
    let ghost d0 = dice.history();
    let ghost dstart = *dice;
    proof {
        lemma_follows_itself(&dstart);
    }
    let ghost mut i: int = 0;
    let mut j: usize = 0;
    let mut caught: usize = 0;
    while j < healthy.len()
        invariant
            0 <= i <= h0.len(),
            h0.len() == scanned,
            c == inf0[carrier as int],
            dice.wf(),
            dice.follows(&dstart),
            dstart.history() == d0,
            extends(d0, dice.history(), contacts(c, h0.take(i))),
            ({
                let s = spread(c, h0.take(i), dice.history().skip(d0.len() as int), now);
                &&& healthy@ == s.0 + h0.skip(i)
                &&& s.0.len() == j
                &&& infected@ == inf0 + s.1
                &&& caught == s.1.len()
                &&& s.0.len() + s.1.len() == i
            }),
        decreases healthy.len() - j,
    {
        let ghost before = dice.history();
        let ghost s = spread(c, h0.take(i), before.skip(d0.len() as int), now);
        proof {
            lemma_spread_facts(c, h0.take(i), before.skip(d0.len() as int), now);
        }
        let a = healthy[j];
        assert(a == h0[i]);
        assert(h0.take(i + 1).drop_last() =~= h0.take(i));
        assert(h0.take(i + 1).last() == a);
        if c.touches(&a) {
            let ghost dbefore = *dice;
            let r = dice.roll();
            proof {
                lemma_follows_chain(&dstart, &dbefore, dice);
            }
            let ghost rolls = dice.history().skip(d0.len() as int);
            proof {
                lemma_spread_reads_contact_rolls(
                    c,
                    h0.take(i),
                    before.skip(d0.len() as int),
                    rolls,
                    now,
                );
                assert(rolls[contacts(c, h0.take(i)) as int] == r);
                assert(dice.history().subrange(0, d0.len() as int) =~= d0);
            }
            if r <= INFECTION_RATE {
                let mut n = a;
                n.infected_at = now;
                infected.push(n);
                healthy.remove(j);
                caught = caught + 1;
                assert(healthy@ =~= s.0 + h0.skip(i + 1));
            } else {
                j = j + 1;
                assert(healthy@ =~= s.0.push(a) + h0.skip(i + 1));
            }
        } else {
            j = j + 1;
            assert(healthy@ =~= s.0.push(a) + h0.skip(i + 1));
        }
        proof {
            i = i + 1;
        }
    }
    assert(h0.take(i) =~= h0);
    caught
}

} // verus!
