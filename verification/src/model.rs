use crate::keys::{PositionKey, RotationKey};
use vstd::prelude::*;

verus! {

/// A single-precision real, held as its IEEE-754 bit pattern.
#[derive(Clone, Copy, Debug, PartialEq, Eq, Default)]
pub struct Scalar {
    pub bits: u32,
}

impl Scalar {
    /// The scalar with the given bit pattern.
    pub fn from_bits(bits: u32) -> (s: Self)
        ensures
            s.bits == bits,
    {
        Scalar { bits }
    }

    /// `0.0`.
    pub fn zero() -> (s: Self)
        ensures
            s.bits == 0,
    {
        Scalar { bits: 0 }
    }

    /// `1.0`.
    pub fn one() -> (s: Self)
        ensures
            s.bits == 0x3f80_0000,
    {
        Scalar { bits: 0x3f80_0000 }
    }

    /// `0.017`, the length of a single frame in seconds.
    pub fn frame() -> (s: Self)
        ensures
            s.bits == 0x3c8b_4396,
    {
        Scalar { bits: 0x3c8b_4396 }
    }
}

/// Three scalars: an offset or a direction.
#[derive(Clone, Copy, Debug, PartialEq, Eq, Default)]
pub struct Offset {
    pub x: Scalar,
    pub y: Scalar,
    pub z: Scalar,
}

/// The three 16-bit codes under which the value of a keyframe is stored.
#[derive(Clone, Copy, Debug, PartialEq, Eq, Default)]
pub struct Quantized {
    pub x: u16,
    pub y: u16,
    pub z: u16,
}

/// The fixed part at the start of an animation.
#[derive(Clone, Debug, PartialEq)]
pub struct AnimationHeader {
    pub version: u16,
    pub sub_version: u16,
    pub base_priority: i32,
    pub duration: Scalar,
    pub emote_name: String,
    pub loop_in_point: Scalar,
    pub loop_out_point: Scalar,
    pub looped: i32,
    pub ease_in_duration: Scalar,
    pub ease_out_duration: Scalar,
    pub hand_pose: u32,
}

/// What an [`AnimationHeader`] holds.
pub struct HeaderView {
    pub version: u16,
    pub sub_version: u16,
    pub base_priority: i32,
    pub duration: Scalar,
    pub emote_name: Seq<char>,
    pub loop_in_point: Scalar,
    pub loop_out_point: Scalar,
    pub looped: i32,
    pub ease_in_duration: Scalar,
    pub ease_out_duration: Scalar,
    pub hand_pose: u32,
}

impl View for AnimationHeader {
    type V = HeaderView;

    open spec fn view(&self) -> HeaderView {
        HeaderView {
            version: self.version,
            sub_version: self.sub_version,
            base_priority: self.base_priority,
            duration: self.duration,
            emote_name: self.emote_name@,
            loop_in_point: self.loop_in_point,
            loop_out_point: self.loop_out_point,
            looped: self.looped,
            ease_in_duration: self.ease_in_duration,
            ease_out_duration: self.ease_out_duration,
            hand_pose: self.hand_pose,
        }
    }
}

impl HeaderView {
    /// The header of a blank animation: version 1, priority 6, one frame
    /// long, looped over that frame, one second of ease in and out.
    pub open spec fn blank() -> HeaderView {
        HeaderView {
            version: 1,
            sub_version: 0,
            base_priority: 6,
            duration: Scalar { bits: 0x3c8b_4396 },
            emote_name: Seq::empty(),
            loop_in_point: Scalar { bits: 0 },
            loop_out_point: Scalar { bits: 0x3c8b_4396 },
            looped: 1,
            ease_in_duration: Scalar { bits: 0x3f80_0000 },
            ease_out_duration: Scalar { bits: 0x3f80_0000 },
            hand_pose: 0,
        }
    }
}

impl Default for AnimationHeader {
    fn default() -> (h: Self)
        ensures
            h@ == HeaderView::blank(),
    {
        AnimationHeader {
            version: 1,
            sub_version: 0,
            base_priority: 6,
            duration: Scalar::frame(),
            emote_name: String::new(),
            loop_in_point: Scalar::zero(),
            loop_out_point: Scalar::frame(),
            looped: 1,
            ease_in_duration: Scalar::one(),
            ease_out_duration: Scalar::one(),
            hand_pose: 0,
        }
    }
}

/// A named joint with its two channels of keyframes.
#[derive(Clone, Debug, PartialEq)]
pub struct JointData<R, P> {
    pub name: String,
    pub priority: i32,
    pub rotation_keys: Vec<RotationKey<R>>,
    pub position_keys: Vec<PositionKey<P>>,
}

/// What a [`JointData`] holds.
pub struct JointView<R, P> {
    pub name: Seq<char>,
    pub priority: i32,
    pub rotation_keys: Seq<RotationKey<R>>,
    pub position_keys: Seq<PositionKey<P>>,
}

impl<R, P> View for JointData<R, P> {
    type V = JointView<R, P>;

    open spec fn view(&self) -> JointView<R, P> {
        JointView {
            name: self.name@,
            priority: self.priority,
            rotation_keys: self.rotation_keys@,
            position_keys: self.position_keys@,
        }
    }
}

impl<R, P> JointView<R, P> {
    /// A joint of that name with priority 0 and no keys.
    pub open spec fn bare(name: Seq<char>) -> Self {
        JointView { name, priority: 0, rotation_keys: Seq::empty(), position_keys: Seq::empty() }
    }

    /// The joint has no key on either channel.
    pub open spec fn is_empty(self) -> bool {
        self.rotation_keys.len() == 0 && self.position_keys.len() == 0
    }
}

impl<R, P> Default for JointData<R, P> {
    fn default() -> (j: Self)
        ensures
            j@ == JointView::<R, P>::bare(Seq::empty()),
    {
        JointData {
            name: String::new(),
            priority: 0,
            rotation_keys: Vec::new(),
            position_keys: Vec::new(),
        }
    }
}

/// An inverse-kinematics constraint between two collision volumes.
#[derive(Clone, Debug, PartialEq)]
pub struct Constraint {
    pub chain_length: u8,
    pub constraint_type: u8,
    pub source_volume: String,
    pub source_offset: Offset,
    pub target_volume: String,
    pub target_offset: Offset,
    pub target_dir: Offset,
    pub ease_in_start: Scalar,
    pub ease_in_stop: Scalar,
    pub ease_out_start: Scalar,
    pub ease_out_stop: Scalar,
}

/// What a [`Constraint`] holds.
pub struct ConstraintView {
    pub chain_length: u8,
    pub constraint_type: u8,
    pub source_volume: Seq<char>,
    pub source_offset: Offset,
    pub target_volume: Seq<char>,
    pub target_offset: Offset,
    pub target_dir: Offset,
    pub ease_in_start: Scalar,
    pub ease_in_stop: Scalar,
    pub ease_out_start: Scalar,
    pub ease_out_stop: Scalar,
}

impl View for Constraint {
    type V = ConstraintView;

    open spec fn view(&self) -> ConstraintView {
        ConstraintView {
            chain_length: self.chain_length,
            constraint_type: self.constraint_type,
            source_volume: self.source_volume@,
            source_offset: self.source_offset,
            target_volume: self.target_volume@,
            target_offset: self.target_offset,
            target_dir: self.target_dir,
            ease_in_start: self.ease_in_start,
            ease_in_stop: self.ease_in_stop,
            ease_out_start: self.ease_out_start,
            ease_out_stop: self.ease_out_stop,
        }
    }
}

impl ConstraintView {
    /// The constraint with every number zero and both names empty.
    pub open spec fn blank() -> ConstraintView {
        let nowhere = Offset {
            x: Scalar { bits: 0 },
            y: Scalar { bits: 0 },
            z: Scalar { bits: 0 },
        };
        ConstraintView {
            chain_length: 0,
            constraint_type: 0,
            source_volume: Seq::empty(),
            source_offset: nowhere,
            target_volume: Seq::empty(),
            target_offset: nowhere,
            target_dir: nowhere,
            ease_in_start: Scalar { bits: 0 },
            ease_in_stop: Scalar { bits: 0 },
            ease_out_start: Scalar { bits: 0 },
            ease_out_stop: Scalar { bits: 0 },
        }
    }
}

impl Default for Constraint {
    fn default() -> (c: Self)
        ensures
            c@ == ConstraintView::blank(),
    {
        let nowhere = Offset { x: Scalar::zero(), y: Scalar::zero(), z: Scalar::zero() };
        Constraint {
            chain_length: 0,
            constraint_type: 0,
            source_volume: String::new(),
            source_offset: nowhere,
            target_volume: String::new(),
            target_offset: nowhere,
            target_dir: nowhere,
            ease_in_start: Scalar::zero(),
            ease_in_stop: Scalar::zero(),
            ease_out_start: Scalar::zero(),
            ease_out_stop: Scalar::zero(),
        }
    }
}

/// An animation: a header, joints in order, constraints in order.
#[derive(Clone, Debug, PartialEq)]
pub struct Animation<R, P> {
    pub header: AnimationHeader,
    pub joints: Vec<JointData<R, P>>,
    pub constraints: Vec<Constraint>,
}

/// What an [`Animation`] holds.
pub struct AnimationView<R, P> {
    pub header: HeaderView,
    pub joints: Seq<JointView<R, P>>,
    pub constraints: Seq<ConstraintView>,
}

/// What each joint of a list holds.
pub open spec fn joint_views<R, P>(joints: Seq<JointData<R, P>>) -> Seq<JointView<R, P>> {
    joints.map_values(|j: JointData<R, P>| j@)
}

/// What each constraint of a list holds.
pub open spec fn constraint_views(constraints: Seq<Constraint>) -> Seq<ConstraintView> {
    constraints.map_values(|c: Constraint| c@)
}

impl<R, P> View for Animation<R, P> {
    type V = AnimationView<R, P>;

    open spec fn view(&self) -> AnimationView<R, P> {
        AnimationView {
            header: self.header@,
            joints: joint_views(self.joints@),
            constraints: constraint_views(self.constraints@),
        }
    }
}

impl<R, P> AnimationView<R, P> {
    /// A blank animation: the blank header, no joints, no constraints.
    pub open spec fn blank() -> Self {
        AnimationView {
            header: HeaderView::blank(),
            joints: Seq::empty(),
            constraints: Seq::empty(),
        }
    }
}

impl<R, P> Default for Animation<R, P> {
    fn default() -> (a: Self)
        ensures
            a@ == AnimationView::<R, P>::blank(),
    {
        let a = Animation {
            header: AnimationHeader::default(),
            joints: Vec::new(),
            constraints: Vec::new(),
        };
        assert(a@.joints =~= Seq::empty());
        assert(a@.constraints =~= Seq::empty());
        a
    }
}

} // verus!
