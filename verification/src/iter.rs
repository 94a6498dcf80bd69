//! The values of a category one after the other, in the order of their
//! ordinals.

use crate::codec::Layers;
use vstd::prelude::*;

verus! {

/// A forward walk through the values that a codec numbers: each step yields
/// the current value and moves on to the value with the next ordinal, until
/// there is none. To start again, make a new one.
pub struct LayersIter<'a, C: Layers> {
    codec: &'a C,
    layer: Option<C::Layer>,
}

impl<'a, C: Layers> LayersIter<'a, C> {
    #[verifier::type_invariant]
    spec fn inv(&self) -> bool {
        self.layer matches Some(l) ==> self.codec.holds(&l)
    }

    /// The codec whose values are walked through.
    pub closed spec fn codec(&self) -> &C {
        self.codec
    }

    /// The value that the next step yields; none when the walk is over.
    pub closed spec fn current(&self) -> Option<C::Layer> {
        self.layer
    }

    /// The number of values still to come.
    pub open spec fn remaining(&self) -> nat {
        match self.current() {
            Some(l) => (self.codec().size() - self.codec().number(&l)) as nat,
            None => 0,
        }
    }

    /// A walk that starts at `start`.
    pub fn new(codec: &'a C, start: C::Layer) -> (iter: Self)
        requires
            codec.holds(&start),
        ensures
            iter.codec() == codec,
            iter.current() == Some(start),
    {
        LayersIter { codec, layer: Some(start) }
    }

    /// A walk that starts at the value with ordinal 0, and so goes through
    /// every value of the codec.
    pub fn first(codec: &'a C) -> (iter: Self)
        ensures
            iter.codec() == codec,
            iter.current() is Some <==> codec.size() > 0,
            iter.current() matches Some(l) ==> codec.holds(&l) && codec.number(&l) == 0,
            iter.remaining() == codec.size(),
    {
        LayersIter { codec, layer: codec.try_from_num(0) }
    }

    /// Yields the current value and moves on to the value whose ordinal is
    /// one more; after the value with the last ordinal the walk is over, and
    /// stays so.
    pub fn next(&mut self) -> (layer: Option<C::Layer>)
        ensures
            final(self).codec() == old(self).codec(),
            layer == old(self).current(),
            match layer {
                None => final(self).current() is None,
                Some(l) => {
                    let codec = old(self).codec();
                    &&& codec.holds(&l)
                    &&& codec.number(&l) < codec.size()
                    &&& final(self).current() is Some <==> codec.number(&l) + 1 < codec.size()
                    &&& final(self).current() matches Some(n) ==> codec.holds(&n)
                        && codec.number(&n) == codec.number(&l) + 1
                    &&& final(self).remaining() == old(self).remaining() - 1
                },
            },
    {
        proof {
            use_type_invariant(&*self);
        }
        let next = match &self.layer {
            None => None,
            Some(layer) => match self.codec.as_num(layer).checked_add(1) {
                Some(num) => self.codec.try_from_num(num),
                None => None,
            },
        };
        let mut rest = LayersIter { codec: self.codec, layer: next };
        core::mem::swap(self, &mut rest);
        rest.layer
    }
}

} // verus!
