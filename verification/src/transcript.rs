//! Transcripts: what a prover sends, and the challenges in between.
use crate::error::Error;
use crate::field::PrimeField;
use crate::linear::Linear;
use vstd::prelude::*;

verus! {

/// One step of a transcript, with the model `M` of a commitment.
pub enum Message<M> {
    /// A challenge was drawn.
    Challenge(int),
    /// An element was sent.
    Scalar(int),
    /// A commitment was sent.
    Commitment(M),
}

/// A transcript of elements of `F` and of commitments `C`. A prover writes it and
/// a verifier reads it; both draw challenges from it. How challenges are drawn, and
/// when a read gives back what was written, is up to each transcript: it says so by
/// the runs that it follows.
pub trait Transcript<F: PrimeField, C: Linear<F>>: Sized {
    /// What was sent and drawn so far.
    spec fn history(&self) -> Seq<Message<C::Model>>;

    /// An attempt to write or to read failed.
    spec fn failed(&self) -> bool;

    /// The transcript is known to give the steps of `run`, where challenges are drawn
    /// and messages are read in this order. One of which nothing is known follows no
    /// run.
    spec fn follows(&self, run: Seq<Message<C::Model>>) -> bool;

    /// Draws a challenge.
    fn squeeze_challenge(&mut self) -> (r: F)
        ensures
            final(self).history() == old(self).history().push(Message::Challenge(r.value())),
            final(self).failed() == old(self).failed(),
            forall|run: Seq<Message<C::Model>>| #[trigger]
                old(self).follows(run) && run.len() > 0 && run[0] is Challenge ==> run[0]
                    == Message::<C::Model>::Challenge(r.value()) && final(self).follows(
                    run.skip(1),
                ),
    ;

    /// Writes an element.
    fn write_scalar(&mut self, scalar: &F) -> (r: Result<(), Error>)
        ensures
            r matches Ok(_) ==> {
                &&& final(self).history() == old(self).history().push(
                    Message::Scalar(scalar.value()),
                )
                &&& final(self).failed() == old(self).failed()
            },
            r matches Err(e) ==> e == Error::Transcript && final(self).failed(),
    ;

    /// Writes a commitment.
    fn write_commitment(&mut self, commitment: C) -> (r: Result<(), Error>)
        ensures
            r matches Ok(_) ==> {
                &&& final(self).history() == old(self).history().push(
                    Message::Commitment(commitment.model()),
                )
                &&& final(self).failed() == old(self).failed()
            },
            r matches Err(e) ==> e == Error::Transcript && final(self).failed(),
    ;

    /// Reads an element.
    fn read_scalar(&mut self) -> (r: Result<F, Error>)
        ensures
            r matches Ok(scalar) ==> {
                &&& final(self).history() == old(self).history().push(
                    Message::Scalar(scalar.value()),
                )
                &&& final(self).failed() == old(self).failed()
            },
            r matches Err(e) ==> e == Error::Transcript && final(self).failed(),
            forall|run: Seq<Message<C::Model>>| #[trigger]
                old(self).follows(run) && run.len() > 0 && run[0] is Scalar ==> {
                    &&& r matches Ok(scalar) && run[0] == Message::<C::Model>::Scalar(scalar.value())
                    &&& final(self).follows(run.skip(1))
                },
    ;

    /// Reads a commitment.
    fn read_commitment(&mut self) -> (r: Result<C, Error>)
        ensures
            r matches Ok(commitment) ==> {
                &&& final(self).history() == old(self).history().push(
                    Message::Commitment(commitment.model()),
                )
                &&& final(self).failed() == old(self).failed()
            },
            r matches Err(e) ==> e == Error::Transcript && final(self).failed(),
            forall|run: Seq<Message<C::Model>>| #[trigger]
                old(self).follows(run) && run.len() > 0 && run[0] is Commitment ==> {
                    &&& r matches Ok(commitment) && run[0] == Message::<C::Model>::Commitment(commitment.model())
                    &&& final(self).follows(run.skip(1))
                },
    ;
}

/// What a prover sends.
pub enum Item<F, C> {
    /// An element.
    Scalar(F),
    /// A commitment.
    Commitment(C),
}

/// Challenges and items give the steps of a run, in their order.
pub open spec fn give<F: PrimeField, C: Linear<F>>(
    challenges: Seq<F>,
    items: Seq<Item<F, C>>,
    run: Seq<Message<C::Model>>,
) -> bool
    decreases run.len(),
{
    run.len() == 0 || match run[0] {
        Message::Challenge(c) => {
            &&& challenges.len() > 0 && challenges[0].value() == c
            &&& give(challenges.skip(1), items, run.skip(1))
        },
        Message::Scalar(v) => {
            &&& items.len() > 0
            &&& items[0] matches Item::Scalar(scalar) && scalar.value() == v
            &&& give(challenges, items.skip(1), run.skip(1))
        },
        Message::Commitment(m) => {
            &&& items.len() > 0
            &&& items[0] matches Item::Commitment(commitment) && commitment.model() == m
            &&& give(challenges, items.skip(1), run.skip(1))
        },
    }
}

/// A transcript whose challenges are given in advance. Where they are used up, the
/// challenges are zero.
pub struct ScriptedTranscript<F: PrimeField, C: Linear<F>> {
    challenges: Vec<F>,
    used: usize,
    items: Vec<Item<F, C>>,
    broken: bool,
    steps: Ghost<Seq<Message<C::Model>>>,
}

impl<F: PrimeField, C: Linear<F>> ScriptedTranscript<F, C> {
    /// Starts a transcript with the items to be read; there are none for one that
    /// is to be written.
    pub fn new(challenges: Vec<F>, items: Vec<Item<F, C>>) -> (r: Self)
        ensures
            r.history() == Seq::<Message<C::Model>>::empty(),
            !r.failed(),
            r.items() == items@,
            r.challenges() == challenges@,
    {
        ScriptedTranscript { challenges, used: 0, items, broken: false, steps: Ghost(Seq::empty()) }
    }

    /// The items that were written, or are still to be read.
    pub closed spec fn items(&self) -> Seq<Item<F, C>> {
        self.items@
    }

    /// The challenges that are still to be drawn.
    pub closed spec fn challenges(&self) -> Seq<F> {
        if self.used <= self.challenges@.len() {
            self.challenges@.skip(self.used as int)
        } else {
            Seq::empty()
        }
    }

    /// Returns the items that were written.
    pub fn finalize(self) -> (r: Vec<Item<F, C>>)
        ensures
            r@ == self.items(),
    {
        self.items
    }
}

impl<F: PrimeField, C: Linear<F>> Transcript<F, C> for ScriptedTranscript<F, C> {
    closed spec fn history(&self) -> Seq<Message<C::Model>> {
        self.steps@
    }

    closed spec fn failed(&self) -> bool {
        self.broken
    }

    open spec fn follows(&self, run: Seq<Message<C::Model>>) -> bool {
        give(self.challenges(), self.items(), run)
    }

    fn squeeze_challenge(&mut self) -> (r: F)
        ensures
            old(self).challenges().len() > 0 ==> {
                &&& r == old(self).challenges()[0]
                &&& final(self).challenges() == old(self).challenges().skip(1)
            },
            final(self).items() == old(self).items(),
    {
        let r = if self.used < self.challenges.len() {
            let r = self.challenges[self.used];
            self.used = self.used + 1;
            assert(self.challenges() =~= old(self).challenges().skip(1));
            r
        } else {
            F::zero()
        };
        self.steps = Ghost(self.steps@.push(Message::Challenge(r.value())));
        r
    }

    fn write_scalar(&mut self, scalar: &F) -> (r: Result<(), Error>)
        ensures
            r is Ok,
            final(self).items() == old(self).items().push(Item::Scalar(*scalar)),
            final(self).challenges() == old(self).challenges(),
    {
        self.items.push(Item::Scalar(*scalar));
        self.steps = Ghost(self.steps@.push(Message::Scalar(scalar.value())));
        Ok(())
    }

    fn write_commitment(&mut self, commitment: C) -> (r: Result<(), Error>)
        ensures
            r is Ok,
            final(self).items() == old(self).items().push(Item::Commitment(commitment)),
            final(self).challenges() == old(self).challenges(),
    {
        self.steps = Ghost(self.steps@.push(Message::Commitment(commitment.model())));
        self.items.push(Item::Commitment(commitment));
        Ok(())
    }

    fn read_scalar(&mut self) -> (r: Result<F, Error>)
        ensures
            r is Ok <==> old(self).items().len() > 0 && old(self).items()[0] is Scalar,
            r matches Ok(scalar) ==> old(self).items()[0] == Item::<F, C>::Scalar(scalar),
            r is Ok ==> final(self).items() == old(self).items().skip(1),
            final(self).challenges() == old(self).challenges(),
    {
        if self.items.len() == 0 {
            self.broken = true;
            return Err(Error::Transcript);
        }
        match self.items.remove(0) {
            Item::Scalar(scalar) => {
                self.steps = Ghost(self.steps@.push(Message::Scalar(scalar.value())));
                assert(self.items@ =~= old(self).items@.skip(1));
                Ok(scalar)
            },
            Item::Commitment(_) => {
                self.broken = true;
                Err(Error::Transcript)
            },
        }
    }

    fn read_commitment(&mut self) -> (r: Result<C, Error>)
        ensures
            r is Ok <==> old(self).items().len() > 0 && old(self).items()[0] is Commitment,
            r matches Ok(commitment) ==> old(self).items()[0] == Item::<F, C>::Commitment(
                commitment,
            ),
            r is Ok ==> final(self).items() == old(self).items().skip(1),
            final(self).challenges() == old(self).challenges(),
    {
        if self.items.len() == 0 {
            self.broken = true;
            return Err(Error::Transcript);
        }
        match self.items.remove(0) {
            Item::Commitment(commitment) => {
                self.steps = Ghost(self.steps@.push(Message::Commitment(commitment.model())));
                assert(self.items@ =~= old(self).items@.skip(1));
                Ok(commitment)
            },
            Item::Scalar(_) => {
                self.broken = true;
                Err(Error::Transcript)
            },
        }
    }
}

/// A script gives nothing at once, and one step more where what comes next in it is
/// that step.
pub proof fn lemma_script_gives_step_by_step<F: PrimeField, C: Linear<F>>(
    challenges: Seq<F>,
    items: Seq<Item<F, C>>,
    run: Seq<Message<C::Model>>,
    challenge: F,
    scalar: F,
    commitment: C,
)
    ensures
        give(challenges, items, Seq::<Message<C::Model>>::empty()),
        give(
            seq![challenge] + challenges,
            items,
            seq![Message::<C::Model>::Challenge(challenge.value())] + run,
        ) == give(challenges, items, run),
        give(
            challenges,
            seq![Item::<F, C>::Scalar(scalar)] + items,
            seq![Message::<C::Model>::Scalar(scalar.value())] + run,
        ) == give(challenges, items, run),
        give(
            challenges,
            seq![Item::<F, C>::Commitment(commitment)] + items,
            seq![Message::<C::Model>::Commitment(commitment.model())] + run,
        ) == give(challenges, items, run),
{
    let a = seq![Message::<C::Model>::Challenge(challenge.value())] + run;
    let b = seq![Message::<C::Model>::Scalar(scalar.value())] + run;
    let c = seq![Message::<C::Model>::Commitment(commitment.model())] + run;
    assert(a.skip(1) =~= run);
    assert(b.skip(1) =~= run);
    assert(c.skip(1) =~= run);
    assert((seq![challenge] + challenges).skip(1) =~= challenges);
    assert((seq![Item::<F, C>::Scalar(scalar)] + items).skip(1) =~= items);
    assert((seq![Item::<F, C>::Commitment(commitment)] + items).skip(1) =~= items);
}

/// A script gives one run only, as far as the kinds of its steps go.
pub proof fn lemma_script_gives_one_run<F: PrimeField, C: Linear<F>>(
    challenges: Seq<F>,
    items: Seq<Item<F, C>>,
    a: Seq<Message<C::Model>>,
    b: Seq<Message<C::Model>>,
)
    requires
        give(challenges, items, a),
        give(challenges, items, b),
        a.len() == b.len(),
        forall|i: int|
            0 <= i < a.len() ==> {
                &&& (#[trigger] a[i] is Challenge) == (b[i] is Challenge)
                &&& (a[i] is Scalar) == (b[i] is Scalar)
            },
    ensures
        a == b,
    decreases a.len(),
{
    if a.len() == 0 {
        assert(a =~= b);
    } else {
        let (s, t) = (a.skip(1), b.skip(1));
        assert(a[0] is Challenge == b[0] is Challenge);
        assert forall|i: int| 0 <= i < s.len() implies {
            &&& (#[trigger] s[i] is Challenge) == (t[i] is Challenge)
            &&& (s[i] is Scalar) == (t[i] is Scalar)
        } by {
            assert(s[i] == a[i + 1]);
            assert(t[i] == b[i + 1]);
        }
        if a[0] is Challenge {
            lemma_script_gives_one_run(challenges.skip(1), items, s, t);
        } else {
            lemma_script_gives_one_run(challenges, items.skip(1), s, t);
        }
        assert(a =~= seq![a[0]] + s);
        assert(b =~= seq![b[0]] + t);
    }
}

} // verus!
