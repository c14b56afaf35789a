//! Frames in the 5.1 surround layout.

use vstd::prelude::*;
use vstd::std_specs::convert::FromSpec;

verus! {

/// A type whose values stand for one channel of one frame.
pub trait Channel: Copy {

}

/// Signed 8-bit samples.
impl Channel for i8 {

}

/// Signed 16-bit samples.
impl Channel for i16 {

}

/// One frame of 5.1 surround sound.  The channels are, in order: front
/// left, rear left, rear right, front right, centre, low-frequency effects.
#[derive(Default, PartialEq, Copy, Debug)]
pub struct Surround<C: Channel> {
    channels: [C; 6],
}

impl<C: Channel> Clone for Surround<C> {
    fn clone(&self) -> (frame: Self)
        ensures
            frame == *self,
    {
        *self
    }
}

impl<C: Channel> View for Surround<C> {
    type V = Seq<C>;

    closed spec fn view(&self) -> Seq<C> {
        self.channels@
    }
}

impl<C: Channel> Surround<C> {
    /// Makes a frame out of six values, converting each to the channel
    /// type.
    pub fn new<H>(one: H, two: H, three: H, four: H, five: H, six: H) -> (frame: Self) where
        C: From<H>,

        ensures
            frame@.len() == 6,
            call_ensures(C::from, (one,), frame@[0]),
            call_ensures(C::from, (two,), frame@[1]),
            call_ensures(C::from, (three,), frame@[2]),
            call_ensures(C::from, (four,), frame@[3]),
            call_ensures(C::from, (five,), frame@[4]),
            call_ensures(C::from, (six,), frame@[5]),
            C::obeys_from_spec() ==> frame@ == seq![
                C::from_spec(one),
                C::from_spec(two),
                C::from_spec(three),
                C::from_spec(four),
                C::from_spec(five),
                C::from_spec(six),
            ],
    {
        let channels = [
            C::from(one),
            C::from(two),
            C::from(three),
            C::from(four),
            C::from(five),
            C::from(six),
        ];
        let frame = Surround { channels };
        assert(C::obeys_from_spec() ==> frame@ =~= seq![
            C::from_spec(one),
            C::from_spec(two),
            C::from_spec(three),
            C::from_spec(four),
            C::from_spec(five),
            C::from_spec(six),
        ]);
        frame
    }

    /// A frame has six channels, whatever made it.
    pub proof fn lemma_six_channels(&self)
        ensures
            self@.len() == 6,
    {
    }

    /// The six channels, in order.
    pub fn channels(&self) -> (channels: &[C])
        ensures
            channels@.len() == 6,
            channels@ == self@,
    {
        &self.channels
    }

    /// The six channels, in order, to be changed in place.
    pub fn channels_mut(&mut self) -> (channels: &mut [C])
        ensures
            channels@.len() == 6,
            channels@ == old(self)@,
            final(channels)@.len() == 6,
            final(self)@ == final(channels)@,
    {
        &mut self.channels
    }

    /// Makes a frame out of the first six values of `channels`.
    pub fn from_channels(channels: &[C]) -> (frame: Self)
        requires
            channels@.len() >= 6,
        ensures
            frame@.len() == 6,
            frame@ == channels@.subrange(0, 6),
    {
        let frame = Surround {
            channels: [
                channels[0],
                channels[1],
                channels[2],
                channels[3],
                channels[4],
                channels[5],
            ],
        };
        assert(frame@ =~= channels@.subrange(0, 6));
        frame
    }
}

} // verus!
