//! Learning a rotation: every angle is moved to either side, and down the slope
//! between the losses there.
//!
//! A loss takes sines and cosines, which are found elsewhere. A descent hands
//! out the rotation whose loss it needs next, and goes on once it is told.

use vstd::prelude::*;

use super::butterfly::{ButterflyRotation, ButterflyStage};
use crate::single::{
    add_singles, difference_bits, divide_singles, multiply_singles, product_bits, quotient_bits,
    subtract_singles, sum_bits, TWO,
};

verus! {

/// The bits of the ten-thousandth by which an angle is moved to either side.
pub const NUDGE: u32 = 0x38d1_b717;

/// A rotation: its angles and strides by stages.
#[verifier::ext_equal]
pub struct RotationModel {
    pub dim: usize,
    pub angles: Seq<Seq<u32>>,
    pub strides: Seq<usize>,
    pub version: u64,
}

impl View for ButterflyRotation {
    type V = RotationModel;

    open spec fn view(&self) -> RotationModel {
        RotationModel {
            dim: self.dim,
            angles: self.stages@.map_values(|s: ButterflyStage| s.angles@),
            strides: self.stages@.map_values(|s: ButterflyStage| s.stride),
            version: self.version,
        }
    }
}

/// A rotation with another angle.
pub open spec fn moved(r: RotationModel, stage: int, i: int, x: u32) -> RotationModel {
    RotationModel { angles: r.angles.update(stage, r.angles[stage].update(i, x)), ..r }
}

/// A rotation with an angle moved up.
pub open spec fn raised(r: RotationModel, stage: int, i: int) -> RotationModel {
    moved(r, stage, i, sum_bits(r.angles[stage][i], NUDGE))
}

/// A rotation with an angle that was moved up moved to the other side.
pub open spec fn lowered(r: RotationModel, stage: int, i: int) -> RotationModel {
    moved(
        r,
        stage,
        i,
        difference_bits(difference_bits(r.angles[stage][i], NUDGE), NUDGE),
    )
}

/// The slope between the losses on both sides of an angle.
pub open spec fn slope_between(above: u32, below: u32) -> u32 {
    quotient_bits(difference_bits(above, below), product_bits(TWO, NUDGE))
}

/// A rotation after the angles of a stage went down their slopes.
pub open spec fn descended(
    r: RotationModel,
    stage: int,
    slopes: Seq<u32>,
    rate: u32,
) -> RotationModel {
    RotationModel {
        angles: r.angles.update(
            stage,
            Seq::new(
                r.angles[stage].len(),
                |i: int| difference_bits(r.angles[stage][i], product_bits(rate, slopes[i])),
            ),
        ),
        ..r
    }
}

/// A rotation after an angle was moved to both sides and back: rounding may
/// have changed it. The loss of every rotation is given.
pub open spec fn tried(
    loss: spec_fn(RotationModel) -> u32,
    r: RotationModel,
    stage: int,
    i: int,
) -> (RotationModel, u32) {
    let up = raised(r, stage, i);
    let down = lowered(up, stage, i);
    (raised(down, stage, i), slope_between(loss(up), loss(down)))
}

/// A rotation and the slopes of a stage after its angles were tried, from the
/// first that has no slope yet.
pub open spec fn all_tried(
    loss: spec_fn(RotationModel) -> u32,
    r: RotationModel,
    stage: int,
    slopes: Seq<u32>,
) -> (RotationModel, Seq<u32>)
    decreases r.angles[stage].len() - slopes.len(),
{
    if !(0 <= stage < r.angles.len()) || slopes.len() >= r.angles[stage].len() {
        (r, slopes)
    } else {
        let (after, slope) = tried(loss, r, stage, slopes.len() as int);
        all_tried(loss, after, stage, slopes.push(slope))
    }
}

/// A rotation after a step of its stages from one on.
pub open spec fn stages_learned(
    loss: spec_fn(RotationModel) -> u32,
    r: RotationModel,
    rate: u32,
    stage: nat,
) -> RotationModel
    decreases r.angles.len() - stage,
    via stages_learned_end
{
    if stage >= r.angles.len() {
        r
    } else {
        let (after, slopes) = all_tried(loss, r, stage as int, Seq::empty());
        stages_learned(loss, descended(after, stage as int, slopes, rate), rate, stage + 1)
    }
}

#[via_fn]
proof fn stages_learned_end(
    loss: spec_fn(RotationModel) -> u32,
    r: RotationModel,
    rate: u32,
    stage: nat,
) {
    if stage < r.angles.len() {
        lemma_trials_keep_the_shape(loss, r, stage as int, Seq::empty());
    }
}

/// A rotation after steps: what is learned of it.
pub open spec fn learned(
    loss: spec_fn(RotationModel) -> u32,
    r: RotationModel,
    rate: u32,
    steps: nat,
) -> RotationModel
    decreases steps,
{
    if steps == 0 {
        r
    } else {
        learned(loss, stages_learned(loss, r, rate, 0), rate, (steps - 1) as nat)
    }
}

proof fn lemma_trials_keep_the_shape(
    loss: spec_fn(RotationModel) -> u32,
    r: RotationModel,
    stage: int,
    slopes: Seq<u32>,
)
    requires
        0 <= stage < r.angles.len(),
    ensures
        all_tried(loss, r, stage, slopes).0.angles.len() == r.angles.len(),
        all_tried(loss, r, stage, slopes).0.angles[stage].len() == r.angles[stage].len(),
    decreases r.angles[stage].len() - slopes.len(),
{
    if slopes.len() < r.angles[stage].len() {
        let (after, slope) = tried(loss, r, stage, slopes.len() as int);
        lemma_trials_keep_the_shape(loss, after, stage, slopes.push(slope));
    }
}

/// Where a descent is: the steps that are left with this one, the stage, the
/// slopes that it has so far, and the loss above the angle that is next.
#[verifier::ext_equal]
pub struct DescentModel {
    pub rotation: RotationModel,
    pub rate: u32,
    pub steps: nat,
    pub stage: nat,
    pub slopes: Seq<u32>,
    pub above: Option<u32>,
}

/// Whether a descent that is not at its end is at an angle.
pub open spec fn is_at_angle(m: DescentModel) -> bool {
    m.steps > 0 ==> m.stage < m.rotation.angles.len() && m.slopes.len()
        < m.rotation.angles[m.stage as int].len()
}

/// A descent that goes on to its next angle, which is moved up, or to its end.
pub open spec fn onward(m: DescentModel) -> DescentModel
    decreases m.steps, m.rotation.angles.len() - m.stage,
{
    if m.steps == 0 {
        m
    } else if m.stage >= m.rotation.angles.len() {
        onward(
            DescentModel { steps: (m.steps - 1) as nat, stage: 0, slopes: Seq::empty(), ..m },
        )
    } else if m.slopes.len() >= m.rotation.angles[m.stage as int].len() {
        onward(
            DescentModel {
                rotation: descended(m.rotation, m.stage as int, m.slopes, m.rate),
                stage: m.stage + 1,
                slopes: Seq::empty(),
                ..m
            },
        )
    } else {
        DescentModel {
            rotation: raised(m.rotation, m.stage as int, m.slopes.len() as int),
            ..m
        }
    }
}

/// A descent that was told the loss of its rotation.
pub open spec fn advanced(m: DescentModel, loss: u32) -> DescentModel {
    let stage = m.stage as int;
    let i = m.slopes.len() as int;
    match m.above {
        None => DescentModel {
            rotation: lowered(m.rotation, stage, i),
            above: Some(loss),
            ..m
        },
        Some(above) => onward(
            DescentModel {
                rotation: raised(m.rotation, stage, i),
                slopes: m.slopes.push(slope_between(above, loss)),
                above: None,
                ..m
            },
        ),
    }
}

/// A descent at its start.
pub open spec fn started(r: RotationModel, rate: u32, steps: nat) -> DescentModel {
    onward(
        DescentModel { rotation: r, rate, steps, stage: 0, slopes: Seq::empty(), above: None },
    )
}

/// A descent.
pub struct Descent {
    rotation: ButterflyRotation,
    rate: u32,
    steps: usize,
    stage: usize,
    slopes: Vec<u32>,
    above: Option<u32>,
    learns: bool,
}

impl View for Descent {
    type V = DescentModel;

    closed spec fn view(&self) -> DescentModel {
        DescentModel {
            rotation: self.rotation@,
            rate: self.rate,
            steps: self.steps as nat,
            stage: self.stage as nat,
            slopes: self.slopes@,
            above: self.above,
        }
    }
}

impl Descent {
    /// Whether there are samples to learn from.
    pub closed spec fn has_samples(&self) -> bool {
        self.learns
    }

    /// A descent of a rotation with so many samples to learn from; without any it
    /// is at its end.
    pub fn start(rotation: ButterflyRotation, samples: usize, steps: usize, rate: u32) -> (r: Self)
        ensures
            r.has_samples() == (samples > 0),
            r@ == started(
                rotation@,
                rate,
                if samples > 0 {
                    steps as nat
                } else {
                    0
                },
            ),
            is_at_angle(r@),
    {
        let mut r: Descent = Descent {
            rotation,
            rate,
            steps: if samples > 0 {
                steps
            } else {
                0
            },
            stage: 0,
            slopes: Vec::new(),
            above: None,
            learns: samples > 0,
        };
        r.go_on();
        r
    }

    /// The rotation whose loss is needed next, if the descent is not at its end.
    pub fn next(&self) -> (r: Option<&ButterflyRotation>)
        ensures
            r is Some <==> self@.steps > 0,
            r matches Some(x) ==> x@ == self@.rotation,
    {
        if self.steps > 0 {
            Some(&self.rotation)
        } else {
            None
        }
    }

    /// Goes on with the loss of the rotation.
    pub fn take(&mut self, loss: u32)
        requires
            old(self)@.steps > 0,
            is_at_angle(old(self)@),
        ensures
            final(self)@ == advanced(old(self)@, loss),
            is_at_angle(final(self)@),
            final(self).has_samples() == old(self).has_samples(),
    {
        let i: usize = self.slopes.len();
        let angle: u32 = self.angle(i);
        match self.above {
            None => {
                self.set_angle(i, subtract_singles(subtract_singles(angle, NUDGE), NUDGE));
                self.above = Some(loss);
            },
            Some(above) => {
                self.set_angle(i, add_singles(angle, NUDGE));
                let rise: u32 = subtract_singles(above, loss);
                self.slopes.push(divide_singles(rise, multiply_singles(TWO, NUDGE)));
                self.above = None;
                self.go_on();
            },
        }
    }

    /// The rotation at the end, which counts as learned once more if there were
    /// samples.
    pub fn finish(self) -> (r: ButterflyRotation)
        requires
            self@.steps == 0,
            self.has_samples() ==> self@.rotation.version < u64::MAX,
        ensures
            r@ == (RotationModel {
                version: if self.has_samples() {
                    (self@.rotation.version + 1) as u64
                } else {
                    self@.rotation.version
                },
                ..self@.rotation
            }),
    {
        let mut rotation: ButterflyRotation = self.rotation;
        if self.learns {
            rotation.version = rotation.version + 1;
        }
        rotation
    }

    fn angle(&self, i: usize) -> (r: u32)
        requires
            self@.stage < self@.rotation.angles.len(),
            i < self@.rotation.angles[self@.stage as int].len(),
        ensures
            r == self@.rotation.angles[self@.stage as int][i as int],
    {
        self.rotation.stages[self.stage].angles[i]
    }

    fn set_angle(&mut self, i: usize, x: u32)
        requires
            old(self)@.stage < old(self)@.rotation.angles.len(),
            i < old(self)@.rotation.angles[old(self)@.stage as int].len(),
        ensures
            final(self)@ == (DescentModel {
                rotation: moved(old(self)@.rotation, old(self)@.stage as int, i as int, x),
                ..old(self)@
            }),
            final(self).has_samples() == old(self).has_samples(),
    {
        let stage: usize = self.stage;
        let ghost before = self@;
        self.rotation.stages[stage].angles[i] = x;
        proof {
            let after = self@.rotation;
            let goal = moved(before.rotation, stage as int, i as int, x);
            assert(after.angles =~= goal.angles);
            assert(after.strides =~= goal.strides);
        }
    }

    fn go_down(&mut self)
        requires
            old(self)@.stage < old(self)@.rotation.angles.len(),
            old(self)@.slopes.len() >= old(self)@.rotation.angles[old(self)@.stage as int].len(),
        ensures
            final(self)@ == (DescentModel {
                rotation: descended(
                    old(self)@.rotation,
                    old(self)@.stage as int,
                    old(self)@.slopes,
                    old(self)@.rate,
                ),
                ..old(self)@
            }),
            final(self).has_samples() == old(self).has_samples(),
    {
        let ghost start = self@;
        let ghost at = self@.stage as int;
        let ghost goal = descended(start.rotation, at, start.slopes, start.rate);
        let len: usize = self.rotation.stages[self.stage].angles.len();
        let mut i: usize = 0;
        while i < len
            invariant
                i <= len == start.rotation.angles[at].len(),
                0 <= at < start.rotation.angles.len(),
                at == start.stage,
                len <= start.slopes.len(),
                goal == descended(start.rotation, at, start.slopes, start.rate),
                self.has_samples() == old(self).has_samples(),
                self@ == (DescentModel { rotation: self@.rotation, ..start }),
                self@.rotation == (RotationModel {
                    angles: self@.rotation.angles,
                    ..start.rotation
                }),
                self@.rotation.angles.len() == start.rotation.angles.len(),
                self@.rotation.angles[at].len() == len,
                forall|k: int|
                    0 <= k < start.rotation.angles.len() && k != at ==> (
                    #[trigger] self@.rotation.angles[k]) == start.rotation.angles[k],
                forall|k: int|
                    0 <= k < i ==> (#[trigger] self@.rotation.angles[at][k])
                        == goal.angles[at][k],
                forall|k: int|
                    i <= k < len ==> (#[trigger] self@.rotation.angles[at][k])
                        == start.rotation.angles[at][k],
            decreases len - i,
        {
            let fall: u32 = multiply_singles(self.rate, self.slopes[i]);
            let angle: u32 = self.angle(i);
            self.set_angle(i, subtract_singles(angle, fall));
            i += 1;
        }
        proof {
            assert(self@.rotation.angles[at] =~= goal.angles[at]);
            assert(self@.rotation.angles =~= goal.angles);
        }
    }

    fn go_on(&mut self)
        requires
            old(self)@.above is None,
        ensures
            final(self)@ == onward(old(self)@),
            is_at_angle(final(self)@),
            final(self).has_samples() == old(self).has_samples(),
    {
        let ghost goal = onward(self@);
        while self.steps > 0
            invariant
                onward(self@) == goal,
                goal == onward(old(self)@),
                self@.above is None,
                self.has_samples() == old(self).has_samples(),
            decreases self@.steps, self@.rotation.angles.len() - self@.stage,
        {
            if self.stage >= self.rotation.stages.len() {
                self.steps = self.steps - 1;
                self.stage = 0;
                self.slopes = Vec::new();
            } else if self.slopes.len() >= self.rotation.stages[self.stage].angles.len() {
                self.go_down();
                self.stage = self.stage + 1;
                self.slopes = Vec::new();
            } else {
                let i: usize = self.slopes.len();
                let angle: u32 = self.angle(i);
                self.set_angle(i, add_singles(angle, NUDGE));
                return;
            }
        }
    }
}

/// What a descent comes to from a place between angles, if the loss of every
/// rotation is given.
spec fn end_from(loss: spec_fn(RotationModel) -> u32, m: DescentModel) -> RotationModel {
    if m.steps == 0 {
        m.rotation
    } else {
        let after = if m.stage >= m.rotation.angles.len() {
            m.rotation
        } else {
            let (r, slopes) = all_tried(loss, m.rotation, m.stage as int, m.slopes);
            stages_learned(
                loss,
                descended(r, m.stage as int, slopes, m.rate),
                m.rate,
                m.stage + 1,
            )
        };
        learned(loss, after, m.rate, (m.steps - 1) as nat)
    }
}

/// What a descent comes to once the loss above an angle is known.
spec fn end_below(loss: spec_fn(RotationModel) -> u32, m: DescentModel, above: u32) -> RotationModel {
    end_from(
        loss,
        DescentModel {
            rotation: raised(m.rotation, m.stage as int, m.slopes.len() as int),
            slopes: m.slopes.push(slope_between(above, loss(m.rotation))),
            above: None,
            ..m
        },
    )
}

/// What a descent comes to.
pub closed spec fn end_of(loss: spec_fn(RotationModel) -> u32, m: DescentModel) -> RotationModel {
    if m.steps == 0 {
        m.rotation
    } else {
        match m.above {
            None => end_below(
                loss,
                DescentModel {
                    rotation: lowered(m.rotation, m.stage as int, m.slopes.len() as int),
                    ..m
                },
                loss(m.rotation),
            ),
            Some(above) => end_below(loss, m, above),
        }
    }
}

proof fn lemma_onward(loss: spec_fn(RotationModel) -> u32, m: DescentModel)
    requires
        m.above is None,
    ensures
        end_of(loss, onward(m)) == end_from(loss, m),
    decreases m.steps, m.rotation.angles.len() - m.stage,
{
    if m.steps == 0 {
    } else if m.stage >= m.rotation.angles.len() {
        let next = DescentModel {
            steps: (m.steps - 1) as nat,
            stage: 0,
            slopes: Seq::empty(),
            ..m
        };
        lemma_onward(loss, next);
    } else if m.slopes.len() >= m.rotation.angles[m.stage as int].len() {
        let next = DescentModel {
            rotation: descended(m.rotation, m.stage as int, m.slopes, m.rate),
            stage: m.stage + 1,
            slopes: Seq::empty(),
            ..m
        };
        lemma_onward(loss, next);
    }
}

/// Told the true loss, a descent still comes to the same.
pub proof fn law_a_loss_keeps_the_end(loss: spec_fn(RotationModel) -> u32, m: DescentModel)
    requires
        m.steps > 0,
        is_at_angle(m),
    ensures
        end_of(loss, advanced(m, loss(m.rotation))) == end_of(loss, m),
{
    if let Some(above) = m.above {
        lemma_onward(
            loss,
            DescentModel {
                rotation: raised(m.rotation, m.stage as int, m.slopes.len() as int),
                slopes: m.slopes.push(slope_between(above, loss(m.rotation))),
                above: None,
                ..m
            },
        );
    }
}

/// Whether rotations have as many stages and angles.
pub open spec fn same_shape(a: RotationModel, b: RotationModel) -> bool {
    &&& a.angles.len() == b.angles.len()
    &&& forall|k: int|
        0 <= k < a.angles.len() ==> (#[trigger] a.angles[k]).len() == b.angles[k].len()
}

/// Whether a descent has come further than another: in its steps, in a step in
/// its stages, in a stage in its angles, and at an angle in its losses.
pub open spec fn is_further(m: DescentModel, before: DescentModel) -> bool {
    ||| m.steps < before.steps
    ||| m.steps == before.steps && {
        ||| m.stage > before.stage
        ||| m.stage == before.stage && {
            ||| m.slopes.len() > before.slopes.len()
            ||| m.slopes.len() == before.slopes.len() && before.above is None && m.above is Some
        }
    }
}

proof fn lemma_onward_goes_on(m: DescentModel)
    requires
        m.above is None,
    ensures
        is_at_angle(onward(m)),
        same_shape(onward(m).rotation, m.rotation),
        onward(m).steps <= m.steps,
        onward(m).steps == m.steps ==> onward(m).stage >= m.stage,
        onward(m).steps == m.steps && onward(m).stage == m.stage ==> onward(m).slopes == m.slopes,
    decreases m.steps, m.rotation.angles.len() - m.stage,
{
    if m.steps == 0 {
    } else if m.stage >= m.rotation.angles.len() {
        lemma_onward_goes_on(
            DescentModel { steps: (m.steps - 1) as nat, stage: 0, slopes: Seq::empty(), ..m },
        );
    } else if m.slopes.len() >= m.rotation.angles[m.stage as int].len() {
        let next = DescentModel {
            rotation: descended(m.rotation, m.stage as int, m.slopes, m.rate),
            stage: m.stage + 1,
            slopes: Seq::empty(),
            ..m
        };
        lemma_onward_goes_on(next);
        assert(same_shape(onward(m).rotation, m.rotation)) by {
            assert forall|k: int| 0 <= k < m.rotation.angles.len() implies (
            #[trigger] onward(m).rotation.angles[k]).len() == m.rotation.angles[k].len() by {
                assert(next.rotation.angles[k].len() == m.rotation.angles[k].len());
            }
        }
    }
}

/// Every loss takes a descent further, so that it comes to its end.
pub proof fn law_a_loss_goes_on(m: DescentModel, loss: u32)
    requires
        m.steps > 0,
        is_at_angle(m),
    ensures
        is_further(advanced(m, loss), m),
        is_at_angle(advanced(m, loss)),
        same_shape(advanced(m, loss).rotation, m.rotation),
{
    if let Some(above) = m.above {
        let next = DescentModel {
            rotation: raised(m.rotation, m.stage as int, m.slopes.len() as int),
            slopes: m.slopes.push(slope_between(above, loss)),
            above: None,
            ..m
        };
        lemma_onward_goes_on(next);
        assert forall|k: int| 0 <= k < m.rotation.angles.len() implies (#[trigger] advanced(
            m,
            loss,
        ).rotation.angles[k]).len() == m.rotation.angles[k].len() by {
            assert(next.rotation.angles[k].len() == m.rotation.angles[k].len());
        }
    }
}

/// Whether a descent follows from the one before it by the loss of its rotation.
pub open spec fn follows(
    loss: spec_fn(RotationModel) -> u32,
    course: Seq<DescentModel>,
    i: int,
) -> bool {
    course[i - 1].steps > 0 && course[i] == advanced(course[i - 1], loss(course[i - 1].rotation))
}

/// Whether each descent follows from the one before it.
pub open spec fn is_course(loss: spec_fn(RotationModel) -> u32, course: Seq<DescentModel>) -> bool {
    forall|i: int| 0 < i < course.len() ==> #[trigger] follows(loss, course, i)
}

proof fn lemma_course(loss: spec_fn(RotationModel) -> u32, course: Seq<DescentModel>, i: int)
    requires
        0 <= i < course.len(),
        is_course(loss, course),
        is_at_angle(course[0]),
    ensures
        is_at_angle(course[i]),
        end_of(loss, course[i]) == end_of(loss, course[0]),
    decreases i,
{
    if i > 0 {
        lemma_course(loss, course, i - 1);
        let m = course[i - 1];
        assert(follows(loss, course, i));
        law_a_loss_goes_on(m, loss(m.rotation));
        law_a_loss_keeps_the_end(loss, m);
    }
}

/// A descent that is told the loss of every rotation that it hands out comes to
/// what is learned by them.
pub proof fn law_descent_comes_to_what_is_learned(
    loss: spec_fn(RotationModel) -> u32,
    r: RotationModel,
    rate: u32,
    steps: nat,
    course: Seq<DescentModel>,
)
    requires
        course.len() > 0,
        course[0] == started(r, rate, steps),
        is_course(loss, course),
        course.last().steps == 0,
    ensures
        course.last().rotation == learned(loss, r, rate, steps),
{
    let m = DescentModel {
        rotation: r,
        rate,
        steps,
        stage: 0,
        slopes: Seq::empty(),
        above: None,
    };
    lemma_onward(loss, m);
    lemma_onward_goes_on(m);
    lemma_course(loss, course, course.len() - 1);
}

/// An angle is tried a ten-thousandth above and as much below, and the slope is what
/// the losses there differ by over twice that.
pub proof fn law_slope_is_that_between_both_sides(
    loss: spec_fn(RotationModel) -> u32,
    r: RotationModel,
    stage: int,
    i: int,
)
    requires
        0 <= stage < r.angles.len(),
        0 <= i < r.angles[stage].len(),
    ensures
        ({
            let x = r.angles[stage][i];
            let above = sum_bits(x, 0x38d1_b717);
            let below = difference_bits(difference_bits(above, 0x38d1_b717), 0x38d1_b717);
            let up = moved(r, stage, i, above);
            let down = moved(up, stage, i, below);
            &&& up.angles[stage][i] == above
            &&& down.angles[stage][i] == below
            &&& tried(loss, r, stage, i).1 == quotient_bits(
                difference_bits(loss(up), loss(down)),
                product_bits(0x4000_0000, 0x38d1_b717),
            )
            &&& tried(loss, r, stage, i).0.angles[stage][i] == sum_bits(below, 0x38d1_b717)
        }),
{
}

/// Angles go down their slopes, by the rate times the slope, and those of other stages
/// stay.
pub proof fn law_angles_go_down_their_slopes(
    r: RotationModel,
    stage: int,
    slopes: Seq<u32>,
    rate: u32,
    s: int,
    i: int,
)
    requires
        0 <= stage < r.angles.len(),
        0 <= s < r.angles.len(),
        0 <= i < r.angles[s].len(),
    ensures
        descended(r, stage, slopes, rate).angles[s][i] == if s == stage {
            difference_bits(r.angles[s][i], product_bits(rate, slopes[i]))
        } else {
            r.angles[s][i]
        },
{
}

/// What is learned in one more step is learned of what the first step left, and
/// without steps nothing is.
pub proof fn law_steps_are_learned_in_turn(
    loss: spec_fn(RotationModel) -> u32,
    r: RotationModel,
    rate: u32,
    steps: nat,
)
    ensures
        learned(loss, r, rate, 0) == r,
        learned(loss, r, rate, steps + 1) == learned(
            loss,
            stages_learned(loss, r, rate, 0),
            rate,
            steps,
        ),
        onward(started(r, rate, 0)) == started(r, rate, 0),
{
}

} // verus!
