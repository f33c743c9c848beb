use crate::keys::{PositionKey, RotationKey, END_OF_ANIMATION};
use crate::model::{joint_views, Animation, AnimationView, HeaderView, JointData, JointView};
use vstd::prelude::*;

verus! {

impl<R, P> JointView<R, P> {
    /// The same joint with another priority.
    pub open spec fn with_priority(self, priority: i32) -> Self {
        JointView { priority, ..self }
    }

    /// The same joint without its rotation keys.
    pub open spec fn without_rotation_keys(self) -> Self {
        JointView { rotation_keys: Seq::empty(), ..self }
    }

    /// The same joint without its position keys.
    pub open spec fn without_position_keys(self) -> Self {
        JointView { position_keys: Seq::empty(), ..self }
    }
}

impl<R, P> AnimationView<R, P> {
    /// The same animation with the priority of every joint set.
    pub open spec fn with_joint_priority(self, priority: i32) -> Self {
        AnimationView {
            joints: self.joints.map_values(|j: JointView<R, P>| j.with_priority(priority)),
            ..self
        }
    }

    /// The same animation with the priority of the header and of every joint set.
    pub open spec fn with_priority(self, priority: i32) -> Self {
        AnimationView {
            header: HeaderView { base_priority: priority, ..self.header },
            ..self.with_joint_priority(priority)
        }
    }

    /// The same animation, no joint holding a rotation key.
    pub open spec fn without_rotation_keys(self) -> Self {
        AnimationView {
            joints: self.joints.map_values(|j: JointView<R, P>| j.without_rotation_keys()),
            ..self
        }
    }

    /// The same animation, no joint holding a position key.
    pub open spec fn without_position_keys(self) -> Self {
        AnimationView {
            joints: self.joints.map_values(|j: JointView<R, P>| j.without_position_keys()),
            ..self
        }
    }

    /// The same animation without the joints that have no key at all, the
    /// others in their order.
    pub open spec fn without_empty_joints(self) -> Self {
        AnimationView { joints: self.joints.filter(|j: JointView<R, P>| !j.is_empty()), ..self }
    }

    /// `i` is the place of the first joint called `name`.
    pub open spec fn is_first_named(self, name: Seq<char>, i: int) -> bool {
        &&& 0 <= i < self.joints.len()
        &&& self.joints[i].name == name
        &&& forall|k: int| 0 <= k < i ==> (#[trigger] self.joints[k]).name != name
    }

    /// Some joint is called `name`.
    pub open spec fn has_joint(self, name: Seq<char>) -> bool {
        exists|i: int| 0 <= i < self.joints.len() && (#[trigger] self.joints[i]).name == name
    }

    /// The place of the first joint called `name`.
    pub open spec fn index_of(self, name: Seq<char>) -> int
        recommends
            self.has_joint(name),
    {
        choose|i: int| self.is_first_named(name, i)
    }

    /// The same animation where it has a joint called `name`; else with a
    /// bare joint of that name added at the end.
    pub open spec fn ensuring(self, name: Seq<char>) -> Self {
        if self.has_joint(name) {
            self
        } else {
            AnimationView { joints: self.joints.push(JointView::bare(name)), ..self }
        }
    }

    /// The animation after `key` was appended to the rotation keys of the
    /// first joint called `name`, created where it was missing.
    pub open spec fn with_rotation_key(self, name: Seq<char>, key: RotationKey<R>) -> Self {
        let base = self.ensuring(name);
        let i = base.index_of(name);
        let joint = JointView { rotation_keys: base.joints[i].rotation_keys.push(key), ..base.joints[i] };
        AnimationView { joints: base.joints.update(i, joint), ..base }
    }

    /// The animation after `key` was appended to the position keys of the
    /// first joint called `name`, created where it was missing.
    pub open spec fn with_position_key(self, name: Seq<char>, key: PositionKey<P>) -> Self {
        let base = self.ensuring(name);
        let i = base.index_of(name);
        let joint = JointView { position_keys: base.joints[i].position_keys.push(key), ..base.joints[i] };
        AnimationView { joints: base.joints.update(i, joint), ..base }
    }

    /// The first joint of a name stands at one place only.
    pub proof fn lemma_first_named_unique(self, name: Seq<char>, i: int)
        requires
            self.is_first_named(name, i),
        ensures
            self.index_of(name) == i,
            self.has_joint(name),
    {
        let j = self.index_of(name);
        assert(self.is_first_named(name, j));
        if j < i {
            assert(self.joints[j].name != name);
        }
        if i < j {
            assert(self.joints[i].name != name);
        }
    }
}

/// The timestamp of an inserted key: the one given, or the end of the animation.
pub open spec fn stamp_or_end(time: Option<u16>) -> u16 {
    match time {
        Some(t) => t,
        None => END_OF_ANIMATION,
    }
}

/// `after` is `before` with the rotation keys gone from exactly the joints
/// that `chosen` answers `true` for.
pub open spec fn rotation_dropped<R, P, F: Fn(&JointData<R, P>) -> bool>(
    before: Seq<JointData<R, P>>,
    after: Seq<JointData<R, P>>,
    chosen: F,
) -> bool {
    &&& after.len() == before.len()
    &&& forall|i: int|
        0 <= i < before.len() ==> {
            ||| call_ensures(chosen, (&#[trigger] before[i],), true) && after[i]@
                == before[i]@.without_rotation_keys()
            ||| call_ensures(chosen, (&before[i],), false) && after[i]@ == before[i]@
        }
}

/// `after` is `before` with the position keys gone from exactly the joints
/// that `chosen` answers `true` for.
pub open spec fn position_dropped<R, P, F: Fn(&JointData<R, P>) -> bool>(
    before: Seq<JointData<R, P>>,
    after: Seq<JointData<R, P>>,
    chosen: F,
) -> bool {
    &&& after.len() == before.len()
    &&& forall|i: int|
        0 <= i < before.len() ==> {
            ||| call_ensures(chosen, (&#[trigger] before[i],), true) && after[i]@
                == before[i]@.without_position_keys()
            ||| call_ensures(chosen, (&before[i],), false) && after[i]@ == before[i]@
        }
}

impl<R, P> Animation<R, P> {
    /// A blank animation.
    pub fn new() -> (a: Self)
        ensures
            a@ == AnimationView::<R, P>::blank(),
    {
        Animation::default()
    }

    /// Sets the priority of the header and of every joint. The value is taken
    /// as it is given.
    pub fn set_priority(&mut self, priority: i32) -> (r: &mut Self)
        ensures
            *final(self) == *final(r),
            r@ == old(self)@.with_priority(priority),
    {
        self.header.base_priority = priority;
        let r = self.set_joint_priority(priority);
        r
    }

    /// Sets the priority of every joint and leaves the header alone.
    pub fn set_joint_priority(&mut self, priority: i32) -> (r: &mut Self)
        ensures
            *final(self) == *final(r),
            r@ == old(self)@.with_joint_priority(priority),
    {
        let mut i: usize = 0;
        while i < self.joints.len()
            invariant
                self.header == old(self).header,
                self.constraints == old(self).constraints,
                self.joints@.len() == old(self).joints@.len(),
                i <= self.joints@.len(),
                forall|k: int|
                    0 <= k < i ==> (#[trigger] self.joints@[k])@ == old(self).joints@[k]@.with_priority(priority),
                forall|k: int|
                    i <= k < self.joints@.len() ==> #[trigger] self.joints@[k] == old(self).joints@[k],
            decreases self.joints.len() - i,
        {
            self.joints[i].priority = priority;
            i += 1;
        }
        assert(self@.joints =~= old(self)@.with_joint_priority(priority).joints);
        self
    }

    /// Removes every rotation key.
    pub fn drop_rotation_keys(&mut self) -> (r: &mut Self)
        ensures
            *final(self) == *final(r),
            r@ == old(self)@.without_rotation_keys(),
    {
        let mut i: usize = 0;
        while i < self.joints.len()
            invariant
                self.header == old(self).header,
                self.constraints == old(self).constraints,
                self.joints@.len() == old(self).joints@.len(),
                i <= self.joints@.len(),
                forall|k: int|
                    0 <= k < i ==> (#[trigger] self.joints@[k])@ == old(self).joints@[k]@.without_rotation_keys(),
                forall|k: int|
                    i <= k < self.joints@.len() ==> #[trigger] self.joints@[k] == old(self).joints@[k],
            decreases self.joints.len() - i,
        {
            self.joints[i].rotation_keys.clear();
            i += 1;
        }
        assert(self@.joints =~= old(self)@.without_rotation_keys().joints);
        self
    }

    /// Removes every position key.
    pub fn drop_position_keys(&mut self) -> (r: &mut Self)
        ensures
            *final(self) == *final(r),
            r@ == old(self)@.without_position_keys(),
    {
        let mut i: usize = 0;
        while i < self.joints.len()
            invariant
                self.header == old(self).header,
                self.constraints == old(self).constraints,
                self.joints@.len() == old(self).joints@.len(),
                i <= self.joints@.len(),
                forall|k: int|
                    0 <= k < i ==> (#[trigger] self.joints@[k])@ == old(self).joints@[k]@.without_position_keys(),
                forall|k: int|
                    i <= k < self.joints@.len() ==> #[trigger] self.joints@[k] == old(self).joints@[k],
            decreases self.joints.len() - i,
        {
            self.joints[i].position_keys.clear();
            i += 1;
        }
        assert(self@.joints =~= old(self)@.without_position_keys().joints);
        self
    }

    /// Removes the rotation keys of the joints that `chosen` answers `true`
    /// for, each joint asked once, in order.
    pub fn drop_rotation<F: Fn(&JointData<R, P>) -> bool>(&mut self, chosen: F) -> (r: &mut Self)
        requires
            forall|j: JointData<R, P>| call_requires(chosen, (&j,)),
        ensures
            *final(self) == *final(r),
            r.header == old(self).header,
            r.constraints == old(self).constraints,
            rotation_dropped(old(self).joints@, r.joints@, chosen),
    {
        let mut i: usize = 0;
        while i < self.joints.len()
            invariant
                forall|j: JointData<R, P>| call_requires(chosen, (&j,)),
                self.header == old(self).header,
                self.constraints == old(self).constraints,
                self.joints@.len() == old(self).joints@.len(),
                i <= self.joints@.len(),
                rotation_dropped(old(self).joints@.take(i as int), self.joints@.take(i as int), chosen),
                forall|k: int|
                    i <= k < self.joints@.len() ==> #[trigger] self.joints@[k] == old(self).joints@[k],
            decreases self.joints.len() - i,
        {
            let ghost before = self.joints@;
            let hit = chosen(&self.joints[i]);
            if hit {
                self.joints[i].rotation_keys.clear();
            }
            proof {
                let a = old(self).joints@.take(i as int + 1);
                let b = self.joints@.take(i as int + 1);
                assert forall|k: int| 0 <= k < a.len() implies {
                    ||| call_ensures(chosen, (&#[trigger] a[k],), true) && b[k]@
                        == a[k]@.without_rotation_keys()
                    ||| call_ensures(chosen, (&a[k],), false) && b[k]@ == a[k]@
                } by {
                    if k < i {
                        assert(old(self).joints@.take(i as int)[k] == a[k]);
                        assert(before.take(i as int)[k] == b[k]);
                    } else {
                        assert(before[k] == a[k]);
                    }
                }
            }
            i += 1;
        }
        assert(self.joints@.take(i as int) == self.joints@);
        assert(old(self).joints@.take(i as int) == old(self).joints@);
        self
    }

    /// Removes the position keys of the joints that `chosen` answers `true`
    /// for, each joint asked once, in order.
    pub fn drop_position<F: Fn(&JointData<R, P>) -> bool>(&mut self, chosen: F) -> (r: &mut Self)
        requires
            forall|j: JointData<R, P>| call_requires(chosen, (&j,)),
        ensures
            *final(self) == *final(r),
            r.header == old(self).header,
            r.constraints == old(self).constraints,
            position_dropped(old(self).joints@, r.joints@, chosen),
    {
        let mut i: usize = 0;
        while i < self.joints.len()
            invariant
                forall|j: JointData<R, P>| call_requires(chosen, (&j,)),
                self.header == old(self).header,
                self.constraints == old(self).constraints,
                self.joints@.len() == old(self).joints@.len(),
                i <= self.joints@.len(),
                position_dropped(old(self).joints@.take(i as int), self.joints@.take(i as int), chosen),
                forall|k: int|
                    i <= k < self.joints@.len() ==> #[trigger] self.joints@[k] == old(self).joints@[k],
            decreases self.joints.len() - i,
        {
            let ghost before = self.joints@;
            let hit = chosen(&self.joints[i]);
            if hit {
                self.joints[i].position_keys.clear();
            }
            proof {
                let a = old(self).joints@.take(i as int + 1);
                let b = self.joints@.take(i as int + 1);
                assert forall|k: int| 0 <= k < a.len() implies {
                    ||| call_ensures(chosen, (&#[trigger] a[k],), true) && b[k]@
                        == a[k]@.without_position_keys()
                    ||| call_ensures(chosen, (&a[k],), false) && b[k]@ == a[k]@
                } by {
                    if k < i {
                        assert(old(self).joints@.take(i as int)[k] == a[k]);
                        assert(before.take(i as int)[k] == b[k]);
                    } else {
                        assert(before[k] == a[k]);
                    }
                }
            }
            i += 1;
        }
        assert(self.joints@.take(i as int) == self.joints@);
        assert(old(self).joints@.take(i as int) == old(self).joints@);
        self
    }

    /// Removes the joints that have no key on either channel; the others keep
    /// their order.
    pub fn drop_empty_joints(&mut self) -> (r: &mut Self)
        ensures
            *final(self) == *final(r),
            r@ == old(self)@.without_empty_joints(),
    {
        let mut all: Vec<JointData<R, P>> = Vec::new();
        core::mem::swap(&mut all, &mut self.joints);
        let ghost views = joint_views(all@);
        let ghost full = |j: JointView<R, P>| !j.is_empty();
        assert(joint_views(self.joints@) =~= views.take(0).filter(full)) by {
            reveal(Seq::filter);
        }
        for joint in it: all.into_iter()
            invariant
                it.seq() == old(self).joints@,
                views == joint_views(old(self).joints@),
                full == |j: JointView<R, P>| !j.is_empty(),
                self.header == old(self).header,
                self.constraints == old(self).constraints,
                joint_views(self.joints@) == views.take(it.index() as int).filter(full),
        {
            let ghost n = it.index() as int;
            let ghost kept = joint_views(self.joints@);
            assert(joint@ == views[n]);
            let some = joint.rotation_keys.len() != 0 || joint.position_keys.len() != 0;
            if some {
                self.joints.push(joint);
            }
            proof {
                assert(views.take(n + 1) == views.take(n).push(views[n]));
                views.take(n).lemma_filter_push(views[n], full);
                if some {
                    assert(joint_views(self.joints@) =~= kept.push(joint@));
                }
            }
        }
        assert(views.take(views.len() as int) == views);
        self
    }

    /// The first joint called `name`, if there is one. Names need not be
    /// unique; of several joints of one name the first is found.
    pub fn joint(&self, name: &str) -> (found: Option<&JointData<R, P>>)
        ensures
            match found {
                Some(j) => exists|i: int|
                    self@.is_first_named(name@, i) && *j == #[trigger] self.joints@[i],
                None => !self@.has_joint(name@),
            },
    {
        match self.joint_index(name) {
            Some(i) => Some(&self.joints[i]),
            None => None,
        }
    }

    /// The place of the first joint called `name`, if there is one.
    pub fn joint_index(&self, name: &str) -> (found: Option<usize>)
        ensures
            match found {
                Some(i) => self@.is_first_named(name@, i as int),
                None => !self@.has_joint(name@),
            },
    {
        let wanted = name.to_owned();
        let mut i: usize = 0;
        while i < self.joints.len()
            invariant
                wanted@ == name@,
                i <= self.joints@.len(),
                forall|k: int| 0 <= k < i ==> (#[trigger] self@.joints[k]).name != name@,
            decreases self.joints.len() - i,
        {
            if self.joints[i].name == wanted {
                assert(self@.joints[i as int].name == name@);
                return Some(i);
            }
            assert(self@.joints[i as int].name != name@);
            i += 1;
        }
        None
    }

    /// The first joint called `name`, if there is one, to be changed in place.
    pub fn joint_mut(&mut self, name: &str) -> (found: Option<&mut JointData<R, P>>)
        ensures
            match found {
                Some(j) => exists|i: int|
                    old(self)@.is_first_named(name@, i) && *j == #[trigger] old(self).joints@[i]
                        && final(self).joints@ == old(self).joints@.update(i, *final(j))
                        && final(self).header == old(self).header && final(self).constraints
                        == old(self).constraints,
                None => !old(self)@.has_joint(name@) && *final(self) == *old(self),
            },
    {
        match self.joint_index(name) {
            Some(i) => Some(&mut self.joints[i]),
            None => None,
        }
    }

    /// The place of the first joint called `name`; where there is none, a
    /// joint of that name with priority 0 and no keys is added at the end.
    pub fn ensure_joint(&mut self, name: &str) -> (i: usize)
        ensures
            final(self)@ == old(self)@.ensuring(name@),
            final(self)@.is_first_named(name@, i as int),
            old(self)@.has_joint(name@) ==> *final(self) == *old(self),
    {
        match self.joint_index(name) {
            Some(i) => i,
            None => {
                let i = self.joints.len();
                self.joints.push(
                    JointData {
                        name: name.to_owned(),
                        priority: 0,
                        rotation_keys: Vec::new(),
                        position_keys: Vec::new(),
                    },
                );
                proof {
                    assert(final(self)@.joints =~= old(self)@.joints.push(JointView::bare(name@)));
                    assert forall|k: int| 0 <= k < i implies (#[trigger] final(self)@.joints[k]).name
                        != name@ by {
                        assert(old(self)@.joints[k].name != name@);
                    }
                }
                i
            },
        }
    }

    /// Appends a rotation key to the first joint called `name`, which is
    /// created at the end where it is missing. Without a `time` the key stands
    /// at the end of the animation.
    pub fn insert_rotation_key(&mut self, name: &str, time: Option<u16>, rot: R)
        ensures
            final(self)@ == old(self)@.with_rotation_key(
                name@,
                RotationKey { time: stamp_or_end(time), rot },
            ),
    {
        let at = match time {
            Some(t) => t,
            None => END_OF_ANIMATION,
        };
        let i = self.ensure_joint(name);
        let ghost base = self@;
        self.joints[i].rotation_keys.push(RotationKey { time: at, rot });
        proof {
            assert(base == old(self)@.ensuring(name@));
            base.lemma_first_named_unique(name@, i as int);
            assert(self@.joints =~= old(self)@.with_rotation_key(
                name@,
                RotationKey { time: at, rot },
            ).joints);
        }
    }

    /// Appends a position key to the first joint called `name`, which is
    /// created at the end where it is missing. Without a `time` the key stands
    /// at the end of the animation.
    pub fn insert_position_key(&mut self, name: &str, time: Option<u16>, pos: P)
        ensures
            final(self)@ == old(self)@.with_position_key(
                name@,
                PositionKey { time: stamp_or_end(time), pos },
            ),
    {
        let at = match time {
            Some(t) => t,
            None => END_OF_ANIMATION,
        };
        let i = self.ensure_joint(name);
        let ghost base = self@;
        self.joints[i].position_keys.push(PositionKey { time: at, pos });
        proof {
            assert(base == old(self)@.ensuring(name@));
            base.lemma_first_named_unique(name@, i as int);
            assert(self@.joints =~= old(self)@.with_position_key(
                name@,
                PositionKey { time: at, pos },
            ).joints);
        }
    }
}


/// `after` is the key list `before` with each value handed through `rot`:
/// as many keys, at the same timestamps.
pub open spec fn rotations_converted<R, S, FR: Fn(R) -> S>(
    after: Seq<RotationKey<S>>,
    before: Seq<RotationKey<R>>,
    rot: FR,
) -> bool {
    &&& after.len() == before.len()
    &&& forall|i: int|
        0 <= i < before.len() ==> (#[trigger] after[i]).time == before[i].time && call_ensures(
            rot,
            (before[i].rot,),
            after[i].rot,
        )
}

/// `after` is the key list `before` with each value handed through `pos`:
/// as many keys, at the same timestamps.
pub open spec fn positions_converted<P, Q, FP: Fn(P) -> Q>(
    after: Seq<PositionKey<Q>>,
    before: Seq<PositionKey<P>>,
    pos: FP,
) -> bool {
    &&& after.len() == before.len()
    &&& forall|i: int|
        0 <= i < before.len() ==> (#[trigger] after[i]).time == before[i].time && call_ensures(
            pos,
            (before[i].pos,),
            after[i].pos,
        )
}

/// `after` is the joint `before` with the value of every key converted.
pub open spec fn joint_converted<R, P, S, Q, FR: Fn(R) -> S, FP: Fn(P) -> Q>(
    after: JointData<S, Q>,
    before: JointData<R, P>,
    rot: FR,
    pos: FP,
) -> bool {
    &&& after.name@ == before.name@
    &&& after.priority == before.priority
    &&& rotations_converted(after.rotation_keys@, before.rotation_keys@, rot)
    &&& positions_converted(after.position_keys@, before.position_keys@, pos)
}

impl<R: Copy, P: Copy> Animation<R, P> {
    /// The same animation with the value of every key converted: rotations
    /// by `rot`, positions by `pos`, each key in its turn. This is how an
    /// animation passes between the codes of the file and real values.
    pub fn convert<S, Q, FR: Fn(R) -> S, FP: Fn(P) -> Q>(self, rot: FR, pos: FP) -> (out:
        Animation<S, Q>)
        requires
            forall|r: R| call_requires(rot, (r,)),
            forall|p: P| call_requires(pos, (p,)),
        ensures
            out.header == self.header,
            out.constraints == self.constraints,
            out.joints@.len() == self.joints@.len(),
            forall|i: int|
                0 <= i < self.joints@.len() ==> joint_converted(
                    #[trigger] out.joints@[i],
                    self.joints@[i],
                    rot,
                    pos,
                ),
    {
        let mut joints: Vec<JointData<S, Q>> = Vec::new();
        let mut i: usize = 0;
        while i < self.joints.len()
            invariant
                i <= self.joints@.len(),
                forall|r: R| call_requires(rot, (r,)),
                forall|p: P| call_requires(pos, (p,)),
                joints@.len() == i,
                forall|k: int|
                    0 <= k < i ==> joint_converted(
                        #[trigger] joints@[k],
                        self.joints@[k],
                        rot,
                        pos,
                    ),
            decreases self.joints.len() - i,
        {
            let from = &self.joints[i];
            let mut rotation_keys: Vec<RotationKey<S>> = Vec::new();
            let mut n: usize = 0;
            while n < from.rotation_keys.len()
                invariant
                    n <= from.rotation_keys@.len(),
                    forall|r: R| call_requires(rot, (r,)),
                    rotations_converted(rotation_keys@, from.rotation_keys@.take(n as int), rot),
                decreases from.rotation_keys.len() - n,
            {
                let k = from.rotation_keys[n];
                let value = rot(k.rot);
                rotation_keys.push(RotationKey { time: k.time, rot: value });
                n += 1;
            }
            assert(from.rotation_keys@.take(n as int) == from.rotation_keys@);
            let mut position_keys: Vec<PositionKey<Q>> = Vec::new();
            let mut m: usize = 0;
            while m < from.position_keys.len()
                invariant
                    m <= from.position_keys@.len(),
                    forall|p: P| call_requires(pos, (p,)),
                    positions_converted(position_keys@, from.position_keys@.take(m as int), pos),
                decreases from.position_keys.len() - m,
            {
                let k = from.position_keys[m];
                let value = pos(k.pos);
                position_keys.push(PositionKey { time: k.time, pos: value });
                m += 1;
            }
            assert(from.position_keys@.take(m as int) == from.position_keys@);
            let ghost before = joints@;
            joints.push(
                JointData {
                    name: from.name.clone(),
                    priority: from.priority,
                    rotation_keys,
                    position_keys,
                },
            );
            assert forall|k: int| 0 <= k < i + 1 implies joint_converted(
                #[trigger] joints@[k],
                self.joints@[k],
                rot,
                pos,
            ) by {
                if k < i {
                    assert(joints@[k] == before[k]);
                }
            }
            i += 1;
        }
        Animation { header: self.header, joints, constraints: self.constraints }
    }
}

} // verus!
