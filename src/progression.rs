use crate::contagion::{contacts, contaminate, extends, spread};
use crate::dice::{lemma_follows_chain, lemma_follows_itself, Dice};
use crate::human::Human;
use vstd::prelude::*;

verus! {

/// An incubated carrier dies when its death roll is at most this percentage.
pub const DEATH_RATE: u32 = 1;

/// An incubated carrier that does not die recovers when its recovery roll is at
/// least this percentage.
pub const RECOVERY_RATE: u32 = 98;

/// Time from infection, in milliseconds, before a carrier can die or recover.
pub const INCUBATION_MILLIS: i64 = 20000;

/// The incubation period of an agent infected at `at` is over at `now`.
pub open spec fn incubated(now: i64, at: i64) -> bool {
    now - at >= INCUBATION_MILLIS
}

/// What becomes of a carrier after its progression resolution.
#[derive(Clone, Copy, Debug, PartialEq, Eq, Structural)]
pub enum Fate {
    Dies,
    Recovers,
    StaysInfected,
}

/// The fate of a carrier, given whether its incubation is over and the rolls
/// that follow: the death roll first, then the recovery roll.
pub open spec fn fate(incubation_over: bool, rolls: Seq<u32>) -> Fate {
    if !incubation_over {
        Fate::StaysInfected
    } else if rolls[0] <= DEATH_RATE {
        Fate::Dies
    } else if rolls[1] >= RECOVERY_RATE {
        Fate::Recovers
    } else {
        Fate::StaysInfected
    }
}

/// How many rolls the progression resolution draws.
pub open spec fn fate_rolls(incubation_over: bool, rolls: Seq<u32>) -> nat {
    if !incubation_over {
        0
    } else if rolls[0] <= DEATH_RATE {
        1
    } else {
        2
    }
}

/// Before the end of its incubation a carrier neither dies nor recovers, and
/// draws no roll, whatever the rolls would have been.
pub proof fn lemma_incubation_gates(now: i64, at: i64, rolls: Seq<u32>)
    requires
        !incubated(now, at),
    ensures
        fate(incubated(now, at), rolls) == Fate::StaysInfected,
        fate_rolls(incubated(now, at), rolls) == 0,
{
}

/// Whether the incubation period of an agent infected at `at` is over at `now`.
pub fn incubation_over(now: i64, at: i64) -> (r: bool)
    ensures
        r == incubated(now, at),
{
    (now as i128) - (at as i128) >= INCUBATION_MILLIS as i128
}

impl Human {
    /// Draws the death roll: true when it is at most `DEATH_RATE`.
    pub fn will_die(dice: &mut Dice) -> (r: bool)
        requires
            old(dice).wf(),
        ensures
            final(dice).wf(),
            final(dice).follows(old(dice)),
            extends(old(dice).history(), final(dice).history(), 1),
            r == (final(dice).history().last() <= DEATH_RATE),
    {
        let roll = dice.roll();
        assert(dice.history().subrange(0, old(dice).history().len() as int) =~= old(dice).history());
        roll <= DEATH_RATE
    }

    /// Draws the recovery roll: true when it is at least `RECOVERY_RATE`.
    pub fn will_recover(dice: &mut Dice) -> (r: bool)
        requires
            old(dice).wf(),
        ensures
            final(dice).wf(),
            final(dice).follows(old(dice)),
            extends(old(dice).history(), final(dice).history(), 1),
            r == (final(dice).history().last() >= RECOVERY_RATE),
    {
        let roll = dice.roll();
        assert(dice.history().subrange(0, old(dice).history().len() as int) =~= old(dice).history());
        roll >= RECOVERY_RATE
    }
}

/// The progression resolution of a carrier infected at `at`: before the end of its
/// incubation nothing is drawn; after it, death is drawn first and recovery
/// only when death did not come.
pub fn progress(now: i64, at: i64, dice: &mut Dice) -> (f: Fate)
    requires
        old(dice).wf(),
    ensures
        final(dice).wf(),
        final(dice).follows(old(dice)),
        ({
            let rolls = final(dice).history().skip(old(dice).history().len() as int);
            &&& extends(
                old(dice).history(),
                final(dice).history(),
                fate_rolls(incubated(now, at), rolls),
            )
            &&& f == fate(incubated(now, at), rolls)
        }),
{
    let ghost h0 = dice.history();
    let ghost dstart = *dice;
    if !incubation_over(now, at) {
        assert(dice.history().subrange(0, h0.len() as int) =~= h0);
        proof {
            lemma_follows_itself(dice);
        }
        Fate::StaysInfected
    } else if Human::will_die(dice) {
        Fate::Dies
    } else {
        let ghost h1 = dice.history();
        let ghost dmid = *dice;
        let recovers = Human::will_recover(dice);
        proof {
            lemma_follows_chain(&dstart, &dmid, dice);
        }
        assert(dice.history().subrange(0, h0.len() as int) =~= h0);
        assert(dice.history().skip(h0.len() as int)[0] == h1.last());
        if recovers {
            Fate::Recovers
        } else {
            Fate::StaysInfected
        }
    }
}

/// One carrier's turn: contamination from `infected[infected_idx]`, then its
/// progression resolution. A carrier that dies or recovers leaves `infected` for
/// `dead` or `recovered`, and the bound `infected_end` of the walk over
/// `infected` shrinks by one; newly infected agents are appended past it.
/// Returns the new bound.
pub fn simulate(
    healthy: &mut Vec<Human>,
    infected: &mut Vec<Human>,
    recovered: &mut Vec<Human>,
    dead: &mut Vec<Human>,
    infected_idx: usize,
    infected_end: usize,
    now: i64,
    dice: &mut Dice,
) -> (end: usize)
    requires
        infected_idx < infected_end <= old(infected).len(),
        old(dice).wf(),
    ensures
        final(dice).wf(),
        final(dice).follows(old(dice)),
        ({
            let c = old(infected)[infected_idx as int];
            let rolls = final(dice).history().skip(old(dice).history().len() as int);
            let n = contacts(c, old(healthy)@);
            let s = spread(c, old(healthy)@, rolls, now);
            let f = fate(incubated(now, c.infected_at), rolls.skip(n as int));
            &&& extends(
                old(dice).history(),
                final(dice).history(),
                n + fate_rolls(incubated(now, c.infected_at), rolls.skip(n as int)),
            )
            &&& final(healthy)@ == s.0
            &&& f == Fate::StaysInfected ==> {
                &&& final(infected)@ == old(infected)@ + s.1
                &&& final(recovered)@ == old(recovered)@
                &&& final(dead)@ == old(dead)@
                &&& end == infected_end
            }
            &&& f == Fate::Dies ==> {
                &&& final(infected)@ == (old(infected)@ + s.1).remove(infected_idx as int)
                &&& final(recovered)@ == old(recovered)@
                &&& final(dead)@ == old(dead)@.push(c)
                &&& end == infected_end - 1
            }
            &&& f == Fate::Recovers ==> {
                &&& final(infected)@ == (old(infected)@ + s.1).remove(infected_idx as int)
                &&& final(recovered)@ == old(recovered)@.push(c)
                &&& final(dead)@ == old(dead)@
                &&& end == infected_end - 1
            }
        }),
{
    let ghost d0 = dice.history();
    let ghost dstart = *dice;
    contaminate(healthy, infected, infected_idx, now, dice);
    let ghost d1 = dice.history();
    let ghost dmid = *dice;
    let c = infected[infected_idx];
    let f = progress(now, c.infected_at, dice);
    proof {
        lemma_follows_chain(&dstart, &dmid, dice);
        let rolls = dice.history().skip(d0.len() as int);
        assert(d1.skip(d0.len() as int) =~= rolls.subrange(0, d1.len() - d0.len()));
        assert(dice.history().skip(d1.len() as int) =~= rolls.skip(d1.len() - d0.len()));
        crate::contagion::lemma_spread_reads_contact_rolls(
            c,
            old(healthy)@,
            d1.skip(d0.len() as int),
            rolls,
            now,
        );
        assert(dice.history().subrange(0, d0.len() as int) =~= d0) by {
            assert(dice.history().subrange(0, d1.len() as int) =~= d1);
            assert(d1.subrange(0, d0.len() as int) =~= d0);
        }
    }
    match f {
        Fate::Dies => {
            dead.push(c);
            infected.remove(infected_idx);
            infected_end - 1
        },
        Fate::Recovers => {
            recovered.push(c);
            infected.remove(infected_idx);
            infected_end - 1
        },
        Fate::StaysInfected => infected_end,
    }
}

} // verus!
