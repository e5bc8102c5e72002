use rand::Rng;
use vstd::prelude::*;

verus! {

/// Relies on rand's `thread_rng().gen_range(lo..hi)`: a draw in `[lo, hi)`,
/// which panics on an empty range.
#[verifier::external_body]
pub(crate) fn random_in(lo: i64, hi: i64) -> (r: i64)
    requires
        lo < hi,
    ensures
        lo <= r < hi,
{
    rand::thread_rng().gen_range(lo..hi)
}

/// A roll is a percentage: a value in `[1, 100]`, standing for `[0.01, 1.00]`.
pub open spec fn valid_roll(r: u32) -> bool {
    1 <= r <= 100
}

/// The source of the percentage rolls behind every probabilistic transition.
/// Scripted rolls come out first, in order; after them each roll is random.
pub struct Dice {
    script: Vec<u32>,
    next: usize,
    drawn: Ghost<Seq<u32>>,
}

impl Dice {
    /// Every roll handed out so far, in order.
    pub closed spec fn history(&self) -> Seq<u32> {
        self.drawn@
    }

    /// The scripted rolls not yet handed out.
    pub closed spec fn pending(&self) -> Seq<u32> {
        self.script@.skip(self.next as int)
    }

    pub closed spec fn wf(&self) -> bool {
        &&& self.next <= self.script.len()
        &&& forall|i: int| 0 <= i < self.script.len() ==> valid_roll(#[trigger] self.script[i])
    }

    /// `self` is `before` after some rolls: they extend its history, they are
    /// its scripted rolls as far as the script goes, and the script left is
    /// what they did not use.
    pub open spec fn follows(&self, before: &Dice) -> bool {
        let k = before.history().len();
        let n = self.history().len() - k;
        &&& self.history().len() >= k
        &&& self.history().subrange(0, k as int) == before.history()
        &&& forall|i: int|
            0 <= i < n && i < before.pending().len() ==> #[trigger] self.history()[k + i]
                == before.pending()[i]
        &&& self.pending() == if n <= before.pending().len() {
            before.pending().skip(n)
        } else {
            Seq::empty()
        }
    }

    /// Dice whose every roll is random.
    pub fn random() -> (d: Dice)
        ensures
            d.wf(),
            d.history() == Seq::<u32>::empty(),
            d.pending() == Seq::<u32>::empty(),
    {
        Dice { script: Vec::new(), next: 0, drawn: Ghost(Seq::empty()) }
    }

    /// Dice that hand out `rolls` first, in order.
    pub fn scripted(rolls: Vec<u32>) -> (d: Dice)
        requires
            forall|i: int| 0 <= i < rolls.len() ==> valid_roll(#[trigger] rolls[i]),
        ensures
            d.wf(),
            d.history() == Seq::<u32>::empty(),
            d.pending() == rolls@,
    {
        let d = Dice { script: rolls, next: 0, drawn: Ghost(Seq::empty()) };
        assert(d.script@.skip(0) =~= d.script@);
        d
    }

    /// Hands out the next roll.
    pub fn roll(&mut self) -> (r: u32)
        requires
            old(self).wf(),
        ensures
            final(self).wf(),
            valid_roll(r),
            final(self).history() == old(self).history().push(r),
            old(self).pending().len() > 0 ==> r == old(self).pending()[0]
                && final(self).pending() == old(self).pending().drop_first(),
            old(self).pending().len() == 0 ==> final(self).pending().len() == 0,
            final(self).follows(old(self)),
    {
        let r: u32 = if self.next < self.script.len() {
            let r = self.script[self.next];
            self.next = self.next + 1;
            assert(self.script@.skip(self.next as int) =~= old(self).pending().drop_first());
            r
        } else {
            random_in(1, 101) as u32
        };
        self.drawn = Ghost(self.drawn@.push(r));
        assert(self.history().subrange(0, old(self).history().len() as int) =~= old(self).history());
        proof {
            if old(self).pending().len() == 0 {
                assert(self.pending() =~= Seq::<u32>::empty());
            } else {
                assert(self.pending() =~= old(self).pending().skip(1));
            }
        }
        r
    }
}

/// Dice that drew no roll follow themselves.
pub proof fn lemma_follows_itself(d: &Dice)
    ensures
        d.follows(d),
{
    assert(d.history().subrange(0, d.history().len() as int) =~= d.history());
    assert(d.pending().skip(0) =~= d.pending());
}

/// Following is transitive.
pub proof fn lemma_follows_chain(a: &Dice, b: &Dice, c: &Dice)
    requires
        b.follows(a),
        c.follows(b),
    ensures
        c.follows(a),
{
    let ka = a.history().len() as int;
    let kb = b.history().len() as int;
    let n1 = kb - ka;
    assert(c.history().subrange(0, ka) =~= a.history()) by {
        assert(c.history().subrange(0, ka) =~= c.history().subrange(0, kb).subrange(0, ka));
    }
    assert forall|i: int|
        0 <= i < c.history().len() - ka && i < a.pending().len() implies #[trigger] c.history()[ka + i]
        == a.pending()[i] by {
        if i < n1 {
            assert(c.history().subrange(0, kb)[ka + i] == b.history()[ka + i]);
        } else {
            assert(c.history()[kb + (i - n1)] == b.pending()[i - n1]);
        }
    }
    if n1 <= a.pending().len() {
        if c.history().len() - ka <= a.pending().len() {
            assert(a.pending().skip(n1).skip(c.history().len() - kb) =~= a.pending().skip(
                c.history().len() - ka,
            ));
        }
    } else {
        assert(c.pending() =~= Seq::<u32>::empty());
    }
}

} // verus!
