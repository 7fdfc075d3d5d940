//! The interrupt-safe signal register and its snapshots.
//!
//! A [`SignalRegister`] is a single 32-bit word: bit `i` set means the signal
//! with identifier `i` has fired since the word was last drained. Setting a
//! bit must be done with one atomic store (or an atomic OR) on the target
//! hardware so that concurrent setters of *other* bits are never lost; the
//! logic here captures what those operations compute on the word.
//! [`Signals::read`] drains the whole word in one step and hands the caller
//! an immutable [`Signals`] snapshot to enumerate, highest identifier first.

use vstd::prelude::*;
use vstd::std_specs::bits::axiom_u32_leading_zeros;

use crate::bits::{drain_order, high_bit, ids_of, with_bit, without_bit, WIDTH};

verus! {

/// A signal identifier: a small integer naming one bit of the register.
///
/// Always strictly below [`crate::bits::WIDTH`].
#[derive(Clone, Copy, Debug, PartialEq, Eq, Structural)]
pub struct Id(u8);

impl Id {
    /// An identifier always names a bit of the register: its value is below
    /// [`crate::bits::WIDTH`].
    #[verifier::type_invariant]
    pub open spec fn type_inv(self) -> bool {
        self@ < 32
    }

    /// The identifier for bit `n`, or `None` when `n` does not name a bit of
    /// the register.
    pub fn new(n: u8) -> (r: Option<Id>)
        ensures
            r is Some <==> n < 32,
            r is Some ==> r->Some_0@ == n,
    {
        if n < WIDTH {
            Some(Id(n))
        } else {
            None
        }
    }
}

impl View for Id {
    type V = u8;

    closed spec fn view(&self) -> u8 {
        self.0
    }
}

impl From<Id> for u8 {
    /// The bit position this identifier names.
    fn from(id: Id) -> (r: u8) {
        id.0
    }
}

impl vstd::std_specs::convert::FromSpecImpl<Id> for u8 {
    open spec fn obeys_from_spec() -> bool {
        true
    }

    open spec fn from_spec(id: Id) -> u8 {
        id@
    }
}

/// The fixed-width register of pending signals, one bit per identifier.
///
/// Its view is the register word.
pub struct SignalRegister {
    word: u32,
}

impl View for SignalRegister {
    type V = u32;

    closed spec fn view(&self) -> u32 {
        self.word
    }
}

impl SignalRegister {
    /// A register with no signal pending.
    pub fn new() -> (r: Self)
        ensures
            r@ == 0u32,
    {
        SignalRegister { word: 0 }
    }

    /// Records that the signal `id` has fired: sets exactly bit `id`,
    /// leaving every other bit as it was.
    pub fn set(&mut self, id: Id)
        ensures
            final(self)@ == with_bit(old(self)@, id@),
            ids_of(final(self)@) == ids_of(old(self)@).insert(id@),
    {
        proof {
            use_type_invariant(&id);
            crate::bits::lemma_with_bit(self.word, id@);
        }
        let bit: u8 = u8::from(id);
        self.word = self.word | (1u32 << (bit as u32));
    }
}

/// A snapshot of the signals that *were* set when the register was drained.
///
/// Its view is the word of identifiers not yet yielded by [`Signals::next`].
#[derive(Clone, Copy, Debug)]
pub struct Signals(u32);

impl View for Signals {
    type V = u32;

    closed spec fn view(&self) -> u32 {
        self.0
    }
}

impl Signals {
    /// Takes a snapshot of the signals currently set and clears them all, in
    /// what must be one atomic exchange on the shared register: every bit set
    /// before the call is in this snapshot and in no later one.
    pub fn read(register: &mut SignalRegister) -> (r: Self)
        ensures
            r@ == old(register)@,
            final(register)@ == 0u32,
    {
        let word = register.word;
        register.word = 0;
        Signals(word)
    }

    /// True when no signal is set in this snapshot.
    pub fn is_empty(&self) -> (r: bool)
        ensures
            r <==> self@ == 0u32,
            r <==> ids_of(self@) =~= Set::<u8>::empty(),
    {
        proof {
            crate::bits::lemma_ids_of_empty(self@);
        }
        self.0 == 0
    }

    /// Yields the highest identifier still in the snapshot and clears it from
    /// the snapshot (the shared register is unaffected), or `None` once the
    /// snapshot is exhausted.
    pub fn next(&mut self) -> (r: Option<Id>)
        ensures
            old(self)@ == 0 ==> r is None && final(self)@ == 0,
            old(self)@ != 0 ==> r is Some && r->Some_0@ == high_bit(old(self)@) && final(self)@ == without_bit(
                old(self)@,
                high_bit(old(self)@),
            ),
            drain_order(old(self)@) == (if old(self)@ == 0 {
                Seq::<u8>::empty()
            } else {
                seq![r->Some_0@] + drain_order(final(self)@)
            }),
    {
        if self.0 == 0 {
            None
        } else {
            proof {
                axiom_u32_leading_zeros(self.0);
                crate::bits::lemma_high_bit(self.0);
            }
            let pos: u32 = 31 - self.0.leading_zeros();
            self.0 = self.0 & !(1u32 << pos);
            Some(Id(pos as u8))
        }
    }

    /// Every identifier in the snapshot, highest first, each exactly once;
    /// the snapshot is left exhausted.
    pub fn drain(&mut self) -> (r: Vec<u8>)
        ensures
            r@ == drain_order(old(self)@),
            final(self)@ == 0,
    {
        let ghost w0 = self@;
        let mut out: Vec<u8> = Vec::new();
        loop
            invariant
                out@ + drain_order(self@) == drain_order(w0),
            ensures
                self@ == 0,
            decreases self@,
        {
            let ghost before = self@;
            match self.next() {
                None => {
                    break ;
                },
                Some(i) => {
                    proof {
                        crate::bits::lemma_high_bit(before);
                    }
                    let ghost out0 = out@;
                    out.push(u8::from(i));
                    proof {
                        assert(out0.push(i@) + drain_order(self@) =~= out0 + (seq![i@]
                            + drain_order(self@)));
                    }
                },
            }
        }
        proof {
            assert(out@ + drain_order(0u32) =~= out@);
        }
        out
    }
}

/// A unique signal type: a name that the identity provider has tied to one
/// stable identifier for the lifetime of the program.
pub trait Signal {
    /// The one identifier this signal type is tied to, as a
    /// specification-level name: every call of [`Signal::id`] returns
    /// exactly this value, so verified code may rely on the identifier
    /// being pure and stable across calls.
    spec fn id_spec() -> Id;

    /// The identifier for this signal: the same value on every call.
    /// Distinctness from every other signal type's identifier is the
    /// identity provider's duty, not statable here.
    fn id() -> (r: Id)
        ensures
            r == Self::id_spec(),
    ;

    /// Records that this signal has fired: sets exactly its own bit of the
    /// register, leaving every other bit as it was.
    fn set(register: &mut SignalRegister)
        ensures
            final(register)@ == with_bit(old(register)@, Self::id_spec()@),
            ids_of(final(register)@) == ids_of(old(register)@).insert(Self::id_spec()@),
    {
        register.set(Self::id());
    }
}

} // verus!
