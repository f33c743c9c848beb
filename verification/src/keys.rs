use vstd::prelude::*;

verus! {

/// A sample on one channel of a joint: a timestamp and the value held there.
///
/// The reconciliation engine is written once against this trait and used for
/// both rotation and position channels.
pub trait Keyframe: Copy {
    type Value: Copy;

    /// The timestamp of the keyframe.
    spec fn stamp(self) -> u16;

    /// The value the keyframe carries.
    spec fn payload(self) -> Self::Value;

    /// The keyframe with that timestamp and that value.
    spec fn made(time: u16, value: Self::Value) -> Self;

    fn time(&self) -> (t: u16)
        ensures
            t == self.stamp(),
    ;

    fn value(&self) -> (v: Self::Value)
        ensures
            v == self.payload(),
    ;

    fn at(time: u16, value: Self::Value) -> (k: Self)
        ensures
            k == Self::made(time, value),
    ;

    /// A keyframe is nothing more than its timestamp and its value.
    proof fn lemma_made(k: Self, time: u16, value: Self::Value)
        ensures
            Self::made(time, value).stamp() == time,
            Self::made(time, value).payload() == value,
            Self::made(k.stamp(), k.payload()) == k,
    ;
}

/// The timestamp that marks the end of the animation.
pub const END_OF_ANIMATION: u16 = 65535;

/// A rotation sample. `R` is the orientation type.
#[derive(Clone, Copy, Debug, PartialEq, Default)]
pub struct RotationKey<R> {
    pub time: u16,
    pub rot: R,
}

/// A position sample. `P` is the offset type.
#[derive(Clone, Copy, Debug, PartialEq, Default)]
pub struct PositionKey<P> {
    pub time: u16,
    pub pos: P,
}

impl<R: Copy> Keyframe for RotationKey<R> {
    type Value = R;

    open spec fn stamp(self) -> u16 {
        self.time
    }

    open spec fn payload(self) -> R {
        self.rot
    }

    fn time(&self) -> (t: u16) {
        self.time
    }

    fn value(&self) -> (v: R) {
        self.rot
    }

    open spec fn made(time: u16, value: R) -> Self {
        RotationKey { time, rot: value }
    }

    fn at(time: u16, value: R) -> (k: Self) {
        RotationKey { time, rot: value }
    }

    proof fn lemma_made(k: Self, time: u16, value: R) {
    }
}

impl<P: Copy> Keyframe for PositionKey<P> {
    type Value = P;

    open spec fn stamp(self) -> u16 {
        self.time
    }

    open spec fn payload(self) -> P {
        self.pos
    }

    fn time(&self) -> (t: u16) {
        self.time
    }

    fn value(&self) -> (v: P) {
        self.pos
    }

    open spec fn made(time: u16, value: P) -> Self {
        PositionKey { time, pos: value }
    }

    fn at(time: u16, value: P) -> (k: Self) {
        PositionKey { time, pos: value }
    }

    proof fn lemma_made(k: Self, time: u16, value: P) {
    }
}

impl<R> From<R> for RotationKey<R> {
    /// A rotation key at time zero.
    fn from(rot: R) -> (k: Self) {
        RotationKey { time: 0, rot }
    }
}

impl<R> vstd::std_specs::convert::FromSpecImpl<R> for RotationKey<R> {
    open spec fn obeys_from_spec() -> bool {
        true
    }

    open spec fn from_spec(rot: R) -> Self {
        RotationKey { time: 0, rot }
    }
}

impl<P> From<P> for PositionKey<P> {
    /// A position key at time zero.
    fn from(pos: P) -> (k: Self) {
        PositionKey { time: 0, pos }
    }
}

impl<P> vstd::std_specs::convert::FromSpecImpl<P> for PositionKey<P> {
    open spec fn obeys_from_spec() -> bool {
        true
    }

    open spec fn from_spec(pos: P) -> Self {
        PositionKey { time: 0, pos }
    }
}

} // verus!
