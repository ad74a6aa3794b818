use vstd::prelude::*;

pub mod bbp;
pub mod digits;
pub mod modular;
pub mod prime;
pub mod spigot;

pub use bbp::BbpBellard;
pub use digits::{pack_digits, pack_digits_spec};
pub use prime::{MaybePrime, Primes};

verus! {

/// A source of the decimal digits of pi, one at a time, each in `0..=9`; `None`
/// where the source can go no further.
pub trait PiDigitGenerator {
    /// What the `i`-th pull from now returns.
    spec fn ahead(&self, i: nat) -> Option<u8>;

    /// The next digit of the sequence; the source moves on by one.
    fn next(&mut self) -> (r: Option<u8>)
        ensures
            r == old(self).ahead(0),
            forall|i: nat| #[trigger] final(self).ahead(i) == old(self).ahead(i + 1),
    ;
}

/// The digits that up to `count` pulls from `p` give, starting with the
/// `start`-th pull, up to the first `None`.
pub open spec fn digits_ahead<P: PiDigitGenerator>(p: P, start: nat, count: nat) -> Seq<u8>
    decreases count,
{
    if count == 0 {
        Seq::empty()
    } else {
        match p.ahead(start) {
            Some(d) => seq![d] + digits_ahead(p, start + 1, (count - 1) as nat),
            None => Seq::empty(),
        }
    }
}

proof fn lemma_digits_ahead_agree<P: PiDigitGenerator>(p: P, q: P, start: nat, count: nat)
    requires
        forall|i: nat| start <= i < start + count ==> #[trigger] p.ahead(i) == q.ahead(i),
    ensures
        digits_ahead(p, start, count) == digits_ahead(q, start, count),
    decreases count,
{
    if count > 0 {
        assert(p.ahead(start) == q.ahead(start));
        lemma_digits_ahead_agree(p, q, start + 1, (count - 1) as nat);
    }
}

/// A byte depends on nothing but the next four digits of its source: two sources
/// whose next four pulls agree give the same byte.
pub proof fn lemma_byte_depends_on_four_digits<P: PiDigitGenerator>(p: P, q: P)
    requires
        forall|i: nat| i < 4 ==> #[trigger] p.ahead(i) == q.ahead(i),
    ensures
        pack_digits_spec(digits_ahead(p, 0, 4)) == pack_digits_spec(digits_ahead(q, 0, 4)),
{
    lemma_digits_ahead_agree(p, q, 0, 4);
}

/// Turns a digit source into a byte source: each byte packs four digits.
pub struct ByteGenerator<P: PiDigitGenerator> {
    generator: P,
}

impl<P: PiDigitGenerator> ByteGenerator<P> {
    /// The wrapped digit source.
    pub closed spec fn source(&self) -> P {
        self.generator
    }

    /// Wraps `pi_generator`.
    pub fn new(pi_generator: P) -> (r: Self)
        ensures
            r.source() == pi_generator,
    {
        Self { generator: pi_generator }
    }

    /// Pulls the next four digits from the source, stopping at the first `None`,
    /// and returns them packed into one byte by `pack_digits_spec`, with the digits
    /// that were pulled. The source moves on by the number of pulls made: four, or
    /// one more than the digits where a pull gave `None`.
    pub fn next_with_digits(&mut self) -> (r: (u8, Vec<u8>))
        ensures
            r.1@ == digits_ahead(old(self).source(), 0, 4),
            r.0 == pack_digits_spec(r.1@),
            forall|i: nat| #[trigger] final(self).source().ahead(i)
                == old(self).source().ahead(i + (if r.1@.len() < 4 { r.1@.len() + 1 } else { 4 })),
    {
        let ghost orig: P = self.generator;
        let mut pulled: Vec<u8> = Vec::new();
        let mut done: bool = false;
        proof {
            assert forall|i: nat| #[trigger] self.generator.ahead(i) == orig.ahead(i + 0 + 0nat) by {
                assert(i + 0 + 0nat == i);
            }
        }
        while pulled.len() < 4 && !done
            invariant
                pulled@.len() <= 4,
                forall|i: nat| #[trigger] self.generator.ahead(i) == orig.ahead(i + pulled@.len() + (if done { 1nat } else { 0nat })),
                done ==> pulled@.len() < 4,
                !done ==> pulled@ + digits_ahead(orig, pulled@.len(), (4 - pulled@.len()) as nat)
                    == digits_ahead(orig, 0, 4),
                done ==> pulled@ == digits_ahead(orig, 0, 4),
            decreases 4 - pulled@.len(), if done { 0int } else { 1int },
        {
            let ghost before: P = self.generator;
            let ghost len: nat = pulled@.len();
            let ghost prev: Seq<u8> = pulled@;
            match self.generator.next() {
                Some(d) => {
                    pulled.push(d);
                    proof {
                        assert(orig.ahead(len) == Some(d));
                        assert(digits_ahead(orig, len, (4 - len) as nat)
                            == seq![d] + digits_ahead(orig, len + 1, (4 - len - 1) as nat));
                        assert(pulled@ + digits_ahead(orig, len + 1, (4 - len - 1) as nat)
                            =~= prev + (seq![d] + digits_ahead(orig, len + 1, (4 - len - 1) as nat)));
                        assert forall|i: nat| #[trigger] self.generator.ahead(i)
                            == orig.ahead(i + pulled@.len()) by {
                            assert(self.generator.ahead(i) == before.ahead(i + 1));
                            assert(i + 1 + len == i + pulled@.len());
                        }
                    }
                },
                None => {
                    proof {
                        assert(orig.ahead(len) is None);
                        assert(pulled@ + Seq::<u8>::empty() =~= pulled@);
                    }
                    done = true;
                    proof {
                        assert forall|i: nat| #[trigger] self.generator.ahead(i)
                            == orig.ahead(i + pulled@.len() + 1nat) by {
                            assert(self.generator.ahead(i) == before.ahead(i + 1));
                            assert(i + 1 + len == i + pulled@.len() + 1nat);
                        }
                    }
                },
            }
        }
        proof {
            if !done {
                assert(pulled@ + digits_ahead(orig, 4, 0) =~= pulled@);
            }
        }
        let byte: u8 = pack_digits(&pulled);
        (byte, pulled)
    }

    /// The next byte: the next four digits of the source packed by
    /// `pack_digits_spec`.
    pub fn next(&mut self) -> (r: Option<u8>)
        ensures
            r == Some(pack_digits_spec(digits_ahead(old(self).source(), 0, 4)) as u8),
    {
        let (byte, pulled) = self.next_with_digits();
        Some(byte)
    }
}

impl<P: PiDigitGenerator + Default> Default for ByteGenerator<P> {
    /// Wraps the default digit source.
    fn default() -> Self {
        Self::new(P::default())
    }
}

} // verus!
