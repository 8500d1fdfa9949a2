//! The order in which one integration step visits the bodies.
//!
//! A step over `n` bodies first settles every velocity, body by body in
//! ascending index, and only then moves any position. While a body's velocity
//! is being settled it is held exclusively; every other body is read once, in
//! ascending index, for what it adds to the held body's acceleration.
//!
//! The number of bodies is fixed when the step starts: a body that is added
//! while a step runs takes part from the next step on.
//!
//! The arithmetic on masses, positions and velocities is the caller's. This
//! module decides which body is touched next, and proves that the resulting
//! order has the properties the integrator relies on: velocities settle
//! before positions move, every ordered pair of bodies is pulled once, a held
//! body is not interrupted, and no body is read while it is held.

use vstd::prelude::*;
use vstd::arithmetic::div_mod::*;

verus! {

/// One visit to a body during an integration step.
#[derive(Clone, Copy, PartialEq, Eq, Structural, Debug)]
pub enum Step {
    /// Take `subject` exclusively and clear its acceleration.
    Begin { subject: usize },
    /// Read `other` and add what it induces to the acceleration of `subject`.
    Pull { subject: usize, other: usize },
    /// Scale the summed acceleration of `subject` by the gravitational
    /// constant, add acceleration times step size to its velocity, release it.
    Kick { subject: usize },
    /// Add velocity times step size to the position of `subject`.
    Drift { subject: usize },
}

impl Step {
    /// The body that this visit changes.
    pub open spec fn spec_subject(self) -> usize {
        match self {
            Step::Begin { subject } => subject,
            Step::Pull { subject, .. } => subject,
            Step::Kick { subject } => subject,
            Step::Drift { subject } => subject,
        }
    }

    /// The visit names bodies among the first `n` only, and does not pull a
    /// body from itself.
    pub open spec fn within(self, n: usize) -> bool {
        match self {
            Step::Pull { subject, other } => subject < n && other < n && subject != other,
            _ => self.spec_subject() < n,
        }
    }

    /// The body that this visit changes.
    pub fn subject(self) -> (subject: usize)
        ensures
            subject == self.spec_subject(),
    {
        match self {
            Step::Begin { subject } => subject,
            Step::Pull { subject, .. } => subject,
            Step::Kick { subject } => subject,
            Step::Drift { subject } => subject,
        }
    }
}

/// The `slot`-th visit of the block that settles the velocity of `subject`
/// among `n` bodies: slot 0 begins, slot `n` kicks, and the slots between
/// pull from the other bodies in ascending index.
pub open spec fn block_step(n: usize, subject: usize, slot: int) -> Step {
    if slot == 0 {
        Step::Begin { subject }
    } else if slot == n {
        Step::Kick { subject }
    } else if slot - 1 < subject {
        Step::Pull { subject, other: (slot - 1) as usize }
    } else {
        Step::Pull { subject, other: slot as usize }
    }
}

/// The `n + 1` visits that settle the velocity of `subject`.
pub open spec fn velocity_block(n: usize, subject: usize) -> Seq<Step> {
    Seq::new((n + 1) as nat, |slot: int| block_step(n, subject, slot))
}

/// The velocity blocks of the first `m` bodies, one after the other.
pub open spec fn velocity_pass(n: usize, m: nat) -> Seq<Step>
    decreases m,
{
    if m == 0 {
        Seq::empty()
    } else {
        velocity_pass(n, (m - 1) as nat) + velocity_block(n, (m - 1) as usize)
    }
}

/// One drift for each of the `n` bodies, in ascending index.
pub open spec fn position_pass(n: usize) -> Seq<Step> {
    Seq::new(n as nat, |i: int| Step::Drift { subject: i as usize })
}

/// Every visit of one integration step over `n` bodies, in order.
pub open spec fn plan(n: usize) -> Seq<Step> {
    velocity_pass(n, n as nat) + position_pass(n)
}

/// Where in the plan slot `slot` of the velocity block of body `i` stands.
pub open spec fn slot_position(n: usize, i: int, slot: int) -> int {
    i * (n + 1) + slot
}

/// Where in the plan the drift of body `i` stands.
pub open spec fn drift_position(n: usize, i: int) -> int {
    n * (n + 1) + i
}

proof fn lemma_slot_bounds(n: usize, i: int, slot: int, m: int)
    requires
        0 <= i < m,
        0 <= slot <= n,
    ensures
        0 <= slot_position(n, i, slot) < m * (n + 1),
        slot_position(n, i, slot) - (m - 1) * (n + 1) == (i - (m - 1)) * (n + 1) + slot,
        i < m - 1 ==> slot_position(n, i, slot) < (m - 1) * (n + 1),
{
    let d = n + 1;
    assert(0 <= i * d) by (nonlinear_arith)
        requires
            0 <= i,
            0 < d,
    ;
    assert(i * d + d <= m * d) by (nonlinear_arith)
        requires
            i < m,
            0 < d,
    ;
    assert(i * d - (m - 1) * d == (i - (m - 1)) * d) by (nonlinear_arith);
    assert(i < m - 1 ==> i * d + d <= (m - 1) * d) by (nonlinear_arith)
        requires
            0 < d,
    ;
}

proof fn lemma_velocity_pass(n: usize, m: nat)
    requires
        m <= n,
    ensures
        velocity_pass(n, m).len() == m * (n + 1),
        forall|i: int, slot: int|
            0 <= i < m && 0 <= slot <= n ==> velocity_pass(n, m)[#[trigger] slot_position(
                n,
                i,
                slot,
            )] == block_step(n, i as usize, slot),
    decreases m,
{
    if m == 0 {
    } else {
        let prev = (m - 1) as nat;
        lemma_velocity_pass(n, prev);
        assert(prev * (n + 1) + (n + 1) == m * (n + 1)) by (nonlinear_arith)
            requires
                prev + 1 == m,
        ;
        assert forall|i: int, slot: int| 0 <= i < m && 0 <= slot <= n implies velocity_pass(
            n,
            m,
        )[#[trigger] slot_position(n, i, slot)] == block_step(n, i as usize, slot) by {
            lemma_slot_bounds(n, i, slot, m as int);
            if i < prev {
                assert(velocity_pass(n, prev)[slot_position(n, i, slot)] == block_step(
                    n,
                    i as usize,
                    slot,
                ));
            } else {
                assert(slot_position(n, i, slot) - prev * (n + 1) == slot) by (nonlinear_arith)
                    requires
                        i == prev,
                        slot_position(n, i, slot) == i * (n + 1) + slot,
                ;
                assert(velocity_block(n, prev as usize)[slot] == block_step(n, i as usize, slot));
            }
        }
    }
}

/// The plan over `n` bodies has `n * (n + 2)` visits: the velocity blocks
/// stand first, at `slot_position`, the drifts last, at `drift_position`.
pub proof fn lemma_plan_layout(n: usize)
    ensures
        plan(n).len() == n * (n + 2),
        forall|i: int, slot: int|
            0 <= i < n && 0 <= slot <= n ==> plan(n)[#[trigger] slot_position(n, i, slot)]
                == block_step(n, i as usize, slot),
        forall|i: int|
            0 <= i < n ==> plan(n)[#[trigger] drift_position(n, i)] == (Step::Drift {
                subject: i as usize,
            }),
{
    lemma_velocity_pass(n, n as nat);
    assert(n * (n + 1) + n == n * (n + 2)) by (nonlinear_arith);
    assert forall|i: int, slot: int| 0 <= i < n && 0 <= slot <= n implies plan(
        n,
    )[#[trigger] slot_position(n, i, slot)] == block_step(n, i as usize, slot) by {
        lemma_slot_bounds(n, i, slot, n as int);
        assert(velocity_pass(n, n as nat)[slot_position(n, i, slot)] == block_step(
            n,
            i as usize,
            slot,
        ));
    }
}

/// A position in the plan of a step: which visit comes next.
#[derive(Clone, Copy, Debug)]
pub struct Cursor {
    bodies: usize,
    drifting: bool,
    subject: usize,
    slot: usize,
}

impl Cursor {
    /// The cursor is at a position of the plan or at its end.
    pub closed spec fn well_formed(self) -> bool {
        if self.drifting {
            self.subject <= self.bodies && self.slot == 0
        } else {
            self.subject < self.bodies && self.slot <= self.bodies
        }
    }

    /// The number of bodies that the step runs over.
    pub closed spec fn spec_bodies(self) -> usize {
        self.bodies
    }

    /// How many visits of the plan have been handed out.
    pub closed spec fn position(self) -> int {
        if self.drifting {
            drift_position(self.bodies, self.subject as int)
        } else {
            slot_position(self.bodies, self.subject as int, self.slot as int)
        }
    }

    /// A cursor before the first visit of a step over `bodies` bodies.
    pub fn start(bodies: usize) -> (cursor: Cursor)
        ensures
            cursor.well_formed(),
            cursor.spec_bodies() == bodies,
            cursor.position() == 0,
    {
        assert(0 * (bodies + 1) == 0) by (nonlinear_arith);
        Cursor { bodies, drifting: bodies == 0, subject: 0, slot: 0 }
    }

    /// The number of bodies that the step runs over.
    pub fn bodies(&self) -> (bodies: usize)
        ensures
            bodies == self.spec_bodies(),
    {
        self.bodies
    }

    /// Whether every visit of the plan has been handed out.
    pub fn finished(&self) -> (done: bool)
        requires
            self.well_formed(),
        ensures
            done == (self.position() == plan(self.spec_bodies()).len()),
            0 <= self.position() <= plan(self.spec_bodies()).len(),
    {
        proof {
            self.lemma_position_bounds();
        }
        self.drifting && self.subject == self.bodies
    }

    /// A well-formed cursor stands inside the plan or at its end.
    pub proof fn lemma_position_in_plan(self)
        requires
            self.well_formed(),
        ensures
            0 <= self.position() <= plan(self.spec_bodies()).len(),
    {
        self.lemma_position_bounds();
    }

    proof fn lemma_position_bounds(self)
        requires
            self.well_formed(),
        ensures
            0 <= self.position() <= plan(self.bodies).len(),
            self.position() == plan(self.bodies).len() <==> self.drifting && self.subject
                == self.bodies,
            self.drifting <==> self.position() >= self.bodies * (self.bodies + 1),
    {
        let n = self.bodies;
        lemma_plan_layout(n);
        assert(n * (n + 1) + n == n * (n + 2)) by (nonlinear_arith);
        assert(0 <= n * (n + 1)) by (nonlinear_arith);
        if !self.drifting {
            lemma_slot_bounds(n, self.subject as int, self.slot as int, n as int);
        }
    }

    /// Hands out the next visit of the plan and moves past it; `None`, with
    /// the cursor unchanged, once the plan is exhausted.
    pub fn advance(&mut self) -> (step: Option<Step>)
        requires
            old(self).well_formed(),
        ensures
            final(self).well_formed(),
            final(self).spec_bodies() == old(self).spec_bodies(),
            old(self).position() < plan(old(self).spec_bodies()).len() ==> step == Some(
                plan(old(self).spec_bodies())[old(self).position()],
            ) && final(self).position() == old(self).position() + 1,
            old(self).position() >= plan(old(self).spec_bodies()).len() ==> step.is_none()
                && *final(self) == *old(self),
            step matches Some(visit) ==> visit.within(old(self).spec_bodies()),
    {
        let n: usize = self.bodies;
        let i: usize = self.subject;
        let k: usize = self.slot;
        proof {
            self.lemma_position_bounds();
            lemma_plan_layout(n);
            assert(i * (n + 1) + (n + 1) == (i + 1) * (n + 1)) by (nonlinear_arith);
            if self.position() < plan(n).len() {
                lemma_visits_in_range(n, self.position());
            }
        }
        if self.drifting {
            if i < n {
                assert(plan(n)[drift_position(n, i as int)] == (Step::Drift { subject: i }));
                self.subject = i + 1;
                Some(Step::Drift { subject: i })
            } else {
                None
            }
        } else {
            assert(plan(n)[slot_position(n, i as int, k as int)] == block_step(n, i, k as int));
            if k == 0 {
                self.slot = 1;
                Some(Step::Begin { subject: i })
            } else if k < n {
                self.slot = k + 1;
                if k - 1 < i {
                    Some(Step::Pull { subject: i, other: k - 1 })
                } else {
                    Some(Step::Pull { subject: i, other: k })
                }
            } else {
                self.slot = 0;
                if i + 1 < n {
                    self.subject = i + 1;
                } else {
                    self.subject = 0;
                    self.drifting = true;
                }
                Some(Step::Kick { subject: i })
            }
        }
    }
}

/// Every visit of one integration step over `bodies` bodies, in order.
pub fn steps(bodies: usize) -> (all: Vec<Step>)
    ensures
        all@ == plan(bodies),
{
    let mut cursor = Cursor::start(bodies);
    let mut all: Vec<Step> = Vec::new();
    proof {
        cursor.lemma_position_in_plan();
    }
    loop
        invariant
            cursor.well_formed(),
            cursor.spec_bodies() == bodies,
            0 <= cursor.position() <= plan(bodies).len(),
            all@ == plan(bodies).subrange(0, cursor.position()),
        ensures
            all@ == plan(bodies),
        decreases plan(bodies).len() - cursor.position(),
    {
        match cursor.advance() {
            Some(step) => {
                all.push(step);
                assert(all@ =~= plan(bodies).subrange(0, cursor.position()));
            },
            None => {
                assert(all@ =~= plan(bodies));
                break ;
            },
        }
    }
    all
}

/// Where in the plan body `subject` pulls from body `other`.
pub open spec fn pull_position(n: usize, subject: usize, other: usize) -> int {
    if other < subject {
        slot_position(n, subject as int, other + 1)
    } else {
        slot_position(n, subject as int, other as int)
    }
}

proof fn lemma_decompose(n: usize, p: int)
    requires
        0 <= p < n * (n + 1),
    ensures
        0 <= p / (n + 1) < n,
        0 <= p % (n + 1) <= n,
        p == slot_position(n, p / (n + 1), p % (n + 1)),
        plan(n)[p] == block_step(n, (p / (n + 1)) as usize, p % (n + 1)),
{
    let d = n + 1;
    lemma_fundamental_div_mod(p, d);
    lemma_mod_pos_bound(p, d);
    lemma_div_pos_is_pos(p, d);
    assert(d * n == n * d) by (nonlinear_arith);
    lemma_multiply_divide_lt(p, d, n as int);
    assert(d * (p / d) == (p / d) * d) by (nonlinear_arith);
    lemma_plan_layout(n);
    assert(plan(n)[slot_position(n, p / d, p % d)] == block_step(n, (p / d) as usize, p % d));
}

proof fn lemma_recompose(n: usize, i: int, slot: int)
    requires
        0 <= i < n,
        0 <= slot <= n,
    ensures
        0 <= slot_position(n, i, slot) < n * (n + 1),
        slot_position(n, i, slot) / (n + 1) == i,
        slot_position(n, i, slot) % (n + 1) == slot,
{
    lemma_slot_bounds(n, i, slot, n as int);
    lemma_fundamental_div_mod_converse(slot_position(n, i, slot), n + 1, i, slot);
}

/// Every visit names bodies of the step, and nothing pulls from itself.
pub proof fn lemma_visits_in_range(n: usize, p: int)
    requires
        0 <= p < plan(n).len(),
    ensures
        plan(n)[p].within(n),
{
    lemma_plan_layout(n);
    assert(n * (n + 1) + n == n * (n + 2)) by (nonlinear_arith);
    if p < n * (n + 1) {
        lemma_decompose(n, p);
    } else {
        assert(p == drift_position(n, p - n * (n + 1)));
    }
}

/// Velocities before positions: every visit that is not a drift stands
/// before every drift, so no position moves until all velocities are settled.
pub proof fn lemma_velocities_settle_first(n: usize, a: int, b: int)
    requires
        0 <= a < plan(n).len(),
        0 <= b < plan(n).len(),
        !(plan(n)[a] is Drift),
        plan(n)[b] is Drift,
    ensures
        a < b,
{
    lemma_plan_layout(n);
    assert(n * (n + 1) + n == n * (n + 2)) by (nonlinear_arith);
    if a >= n * (n + 1) {
        assert(a == drift_position(n, a - n * (n + 1)));
    }
    if b < n * (n + 1) {
        lemma_decompose(n, b);
    }
}

/// Each ordered pair once: for two different bodies the plan holds the pull
/// of `subject` from `other` at `pull_position`, and nowhere else.
pub proof fn lemma_each_pair_pulled_once(n: usize, subject: usize, other: usize)
    requires
        subject < n,
        other < n,
        subject != other,
    ensures
        0 <= pull_position(n, subject, other) < plan(n).len(),
        forall|p: int|
            0 <= p < plan(n).len() ==> (#[trigger] plan(n)[p] == (Step::Pull { subject, other })
                <==> p == pull_position(n, subject, other)),
{
    lemma_plan_layout(n);
    assert(n * (n + 1) + n == n * (n + 2)) by (nonlinear_arith);
    let slot: int = if other < subject {
        other + 1
    } else {
        other as int
    };
    lemma_recompose(n, subject as int, slot);
    assert(plan(n)[slot_position(n, subject as int, slot)] == block_step(n, subject, slot));
    assert forall|p: int| 0 <= p < plan(n).len() && #[trigger] plan(n)[p] == (Step::Pull {
        subject,
        other,
    }) implies p == pull_position(n, subject, other) by {
        if p < n * (n + 1) {
            lemma_decompose(n, p);
        } else {
            assert(p == drift_position(n, p - n * (n + 1)));
        }
    }
}

/// Each body once: body `subject` is begun, kicked and drifted at one place
/// of the plan each, as the layout says, and nowhere else.
pub proof fn lemma_each_body_once(n: usize, subject: usize)
    requires
        subject < n,
    ensures
        forall|p: int|
            0 <= p < plan(n).len() ==> (#[trigger] plan(n)[p] == (Step::Begin { subject }) <==> p
                == slot_position(n, subject as int, 0)),
        forall|p: int|
            0 <= p < plan(n).len() ==> (#[trigger] plan(n)[p] == (Step::Kick { subject }) <==> p
                == slot_position(n, subject as int, n as int)),
        forall|p: int|
            0 <= p < plan(n).len() ==> (#[trigger] plan(n)[p] == (Step::Drift { subject }) <==> p
                == drift_position(n, subject as int)),
{
    lemma_plan_layout(n);
    assert(n * (n + 1) + n == n * (n + 2)) by (nonlinear_arith);
    lemma_recompose(n, subject as int, 0);
    lemma_recompose(n, subject as int, n as int);
    assert(plan(n)[slot_position(n, subject as int, 0)] == block_step(n, subject, 0));
    assert(plan(n)[slot_position(n, subject as int, n as int)] == block_step(n, subject, n as int));
    assert(plan(n)[drift_position(n, subject as int)] == (Step::Drift { subject }));
    assert forall|p: int| 0 <= p < plan(n).len() implies (#[trigger] plan(n)[p] == (Step::Begin {
        subject,
    }) ==> p == slot_position(n, subject as int, 0)) && (plan(n)[p] == (Step::Kick { subject })
        ==> p == slot_position(n, subject as int, n as int)) && (plan(n)[p] == (Step::Drift {
        subject,
    }) ==> p == drift_position(n, subject as int)) by {
        if p < n * (n + 1) {
            lemma_decompose(n, p);
        } else {
            assert(p == drift_position(n, p - n * (n + 1)));
        }
    }
}

/// A pull happens while its subject is held: the visit that begins the
/// subject stands before it and the visit that kicks the subject after it,
/// `n` places apart.
pub proof fn lemma_pull_while_held(n: usize, p: int)
    requires
        0 <= p < plan(n).len(),
        plan(n)[p] is Pull,
    ensures
        ({
            let subject = plan(n)[p].spec_subject();
            let begun = slot_position(n, subject as int, 0);
            let kicked = slot_position(n, subject as int, n as int);
            &&& 0 <= begun < p < kicked < plan(n).len()
            &&& kicked == begun + n
            &&& plan(n)[begun] == (Step::Begin { subject })
            &&& plan(n)[kicked] == (Step::Kick { subject })
        }),
{
    lemma_plan_layout(n);
    assert(n * (n + 1) + n == n * (n + 2)) by (nonlinear_arith);
    if p < n * (n + 1) {
        lemma_decompose(n, p);
        let subject = plan(n)[p].spec_subject();
        lemma_recompose(n, subject as int, 0);
        lemma_recompose(n, subject as int, n as int);
        assert(plan(n)[slot_position(n, subject as int, 0)] == block_step(n, subject, 0));
        assert(plan(n)[slot_position(n, subject as int, n as int)] == block_step(
            n,
            subject,
            n as int,
        ));
    } else {
        assert(p == drift_position(n, p - n * (n + 1)));
    }
}

/// Pulls come in pairs: where one body pulls from another, the other pulls
/// from the one in the same plan, and both pulls stand before every drift.
pub proof fn lemma_pulls_come_in_pairs(n: usize, p: int)
    requires
        0 <= p < plan(n).len(),
        plan(n)[p] is Pull,
    ensures
        ({
            let subject = plan(n)[p].spec_subject();
            let other = plan(n)[p]->other;
            let back = pull_position(n, other, subject);
            &&& 0 <= back < plan(n).len()
            &&& back != p
            &&& plan(n)[back] == (Step::Pull { subject: other, other: subject })
            &&& forall|q: int|
                0 <= q < plan(n).len() && #[trigger] plan(n)[q] is Drift ==> p < q && back < q
        }),
{
    let subject = plan(n)[p].spec_subject();
    let other = plan(n)[p]->other;
    lemma_visits_in_range(n, p);
    lemma_each_pair_pulled_once(n, other, subject);
    let back = pull_position(n, other, subject);
    assert(plan(n)[back] == (Step::Pull { subject: other, other: subject }));
    assert forall|q: int| 0 <= q < plan(n).len() && #[trigger] plan(n)[q] is Drift implies p < q
        && back < q by {
        lemma_velocities_settle_first(n, p, q);
        lemma_velocities_settle_first(n, back, q);
    }
}

/// No visit occurs twice in a plan.
pub proof fn lemma_no_visit_twice(n: usize, p: int, q: int)
    requires
        0 <= p < plan(n).len(),
        0 <= q < plan(n).len(),
        plan(n)[p] == plan(n)[q],
    ensures
        p == q,
{
    lemma_plan_layout(n);
    assert(n * (n + 1) + n == n * (n + 2)) by (nonlinear_arith);
    if p < n * (n + 1) {
        lemma_decompose(n, p);
    } else {
        assert(p == drift_position(n, p - n * (n + 1)));
    }
    if q < n * (n + 1) {
        lemma_decompose(n, q);
    } else {
        assert(q == drift_position(n, q - n * (n + 1)));
    }
}

/// A body is held without interruption: between the visit that begins body
/// `subject` and the visit that kicks it, every visit changes `subject` alone.
pub proof fn lemma_held_without_interruption(n: usize, subject: usize, a: int, b: int, c: int)
    requires
        0 <= a <= b <= c < plan(n).len(),
        plan(n)[a] == (Step::Begin { subject }),
        plan(n)[c] == (Step::Kick { subject }),
    ensures
        plan(n)[b].spec_subject() == subject,
        !(plan(n)[b] is Drift),
{
    lemma_plan_layout(n);
    assert(n * (n + 1) + n == n * (n + 2)) by (nonlinear_arith);
    if c >= n * (n + 1) {
        assert(c == drift_position(n, c - n * (n + 1)));
    }
    lemma_decompose(n, a);
    lemma_decompose(n, b);
    lemma_decompose(n, c);
    let d = n + 1;
    assert(b / d == subject) by {
        let r = b - subject * d;
        assert(0 <= r <= n);
        lemma_fundamental_div_mod_converse(b, d, subject as int, r);
    }
}

/// Ascending order: within each pass the bodies are changed in ascending
/// index, and one body pulls from the others in ascending index.
pub proof fn lemma_ascending_order(n: usize, p: int, q: int)
    requires
        0 <= p < q < plan(n).len(),
    ensures
        (plan(n)[p] is Drift) == (plan(n)[q] is Drift) ==> plan(n)[p].spec_subject() <= plan(
            n,
        )[q].spec_subject(),
        forall|subject: usize, first: usize, second: usize|
            plan(n)[p] == (Step::Pull { subject, other: first }) && plan(n)[q] == (Step::Pull {
                subject,
                other: second,
            }) ==> first < second,
{
    lemma_plan_layout(n);
    assert(n * (n + 1) + n == n * (n + 2)) by (nonlinear_arith);
    let d = n + 1;
    if q < n * (n + 1) {
        lemma_decompose(n, p);
        lemma_decompose(n, q);
        lemma_div_is_ordered(p, q, d);
        if p / d == q / d {
            assert(p % d < q % d);
        }
    } else if p < n * (n + 1) {
        lemma_decompose(n, p);
        assert(q == drift_position(n, q - n * (n + 1)));
    } else {
        assert(p == drift_position(n, p - n * (n + 1)));
        assert(q == drift_position(n, q - n * (n + 1)));
    }
}

/// Without a second body there is nothing to pull from: the plan over no
/// body is empty, and the plan over one body begins it, kicks it and drifts it.
pub proof fn lemma_no_pull_without_a_pair(n: usize)
    requires
        n <= 1,
    ensures
        n == 0 ==> plan(n) == Seq::<Step>::empty(),
        n == 1 ==> plan(n) == seq![
            Step::Begin { subject: 0 },
            Step::Kick { subject: 0 },
            Step::Drift { subject: 0 },
        ],
        forall|p: int| 0 <= p < plan(n).len() ==> !(#[trigger] plan(n)[p] is Pull),
{
    lemma_plan_layout(n);
    if n == 0 {
        assert(plan(n) =~= Seq::<Step>::empty());
    } else {
        assert(slot_position(n, 0, 0) == 0);
        assert(slot_position(n, 0, 1) == 1);
        assert(drift_position(n, 0) == 2);
        assert(plan(n)[0] == block_step(n, 0, 0));
        assert(plan(n)[1] == block_step(n, 0, 1));
        assert(plan(n) =~= seq![
            Step::Begin { subject: 0 },
            Step::Kick { subject: 0 },
            Step::Drift { subject: 0 },
        ]);
    }
}

} // verus!
