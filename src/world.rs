//! The entity store and the per-tick systems that advance it.
use vstd::prelude::*;
use crate::geometry::{Vec2, Side, abs, collision_side, reflect, resolve_collision_side};

verus! {

pub const BALL_SIZE: i32 = 5;
pub const PADDLE_SPEED: i32 = 1;
pub const PADDLE_WIDTH: i32 = 10;
pub const PADDLE_HEIGHT: i32 = 50;
pub const GUTTER_HEIGHT: i32 = 20;
/// Distance from each side of the field to the center of a paddle.
pub const PADDLE_PADDING: i32 = 50;

/// Which paddle a paddle entity is.
#[derive(Clone, Copy, Debug, PartialEq, Eq, Structural)]
pub enum Team {
    Player,
    Ai,
}

/// The role of an entity; it decides which systems act on it.
#[derive(Clone, Copy, Debug, PartialEq, Eq, Structural)]
pub enum Role {
    Ball,
    Paddle(Team),
    Gutter,
}

/// One simulation object. For the ball, `shape.x` is the circle's radius;
/// for paddles and gutters `shape` is the full extent of a box centered on
/// `position`.
#[derive(Clone, Copy, Debug, PartialEq, Eq, Structural)]
pub struct Entity {
    pub role: Role,
    pub position: Vec2,
    pub velocity: Vec2,
    pub shape: Vec2,
}

/// Who scored.
#[derive(Clone, Copy, Debug, PartialEq, Eq, Structural)]
pub enum Scorer {
    Ai,
    Player,
}

/// A scoring event.
#[derive(Clone, Copy, Debug, PartialEq, Eq, Structural)]
pub struct Scored(pub Scorer);

#[derive(Clone, Copy, Debug, PartialEq, Eq, Structural)]
pub struct Score {
    pub player: u32,
    pub ai: u32,
}

/// The size of the play field, in the same units as positions.
#[derive(Clone, Copy, Debug, PartialEq, Eq, Structural)]
pub struct Field {
    pub width: u32,
    pub height: u32,
}

/// The whole simulation: entities, the score tally and the queue of scoring
/// events of this tick. The ball reset and the score tally each read the
/// queue from their own position, so each sees every event exactly once.
pub struct World {
    pub entities: Vec<Entity>,
    pub score: Score,
    pub events: Vec<Scored>,
    /// How many queued events the ball reset has already consumed.
    pub reset_read: usize,
    /// How many queued events the score tally has already consumed.
    pub score_read: usize,
}

/// The events from position `read` onward, not yet seen by that reader.
pub open spec fn pending(events: Seq<Scored>, read: int) -> Seq<Scored> {
    events.subrange(read, events.len() as int)
}

pub open spec fn is_ball(e: Entity) -> bool {
    e.role is Ball
}

pub open spec fn is_paddle_of(e: Entity, t: Team) -> bool {
    e.role == Role::Paddle(t)
}

pub open spec fn is_paddle(e: Entity) -> bool {
    e.role is Paddle
}

/// At most one ball and at most one paddle per team.
pub open spec fn entities_wf(s: Seq<Entity>) -> bool {
    &&& forall|i: int, j: int|
        0 <= i < s.len() && 0 <= j < s.len() && is_ball(s[i]) && is_ball(s[j]) ==> i == j
    &&& forall|i: int, j: int, t: Team|
        0 <= i < s.len() && 0 <= j < s.len() && is_paddle_of(s[i], t) && is_paddle_of(s[j], t)
            ==> i == j
}

pub open spec fn has_ball(s: Seq<Entity>) -> bool {
    exists|i: int| 0 <= i < s.len() && is_ball(s[i])
}

/// The index of the ball, meaningful when `has_ball(s)`.
pub open spec fn ball_index(s: Seq<Entity>) -> int {
    choose|i: int| 0 <= i < s.len() && is_ball(s[i])
}

pub open spec fn with_velocity(e: Entity, v: Vec2) -> Entity {
    Entity { velocity: v, ..e }
}

pub open spec fn with_position(e: Entity, p: Vec2) -> Entity {
    Entity { position: p, ..e }
}

pub open spec fn with_vy(e: Entity, vy: int) -> Entity {
    with_velocity(e, Vec2 { x: e.velocity.x, y: vy as i32 })
}

pub open spec fn sign(v: int) -> int {
    if v > 0 { 1 } else if v < 0 { -1 } else { 0 }
}

/// The vertical intent of the keys: up, down, or neither when both or none
/// are pressed.
pub open spec fn key_intent(up: bool, down: bool) -> int {
    if up && !down { 1 } else if down && !up { -1 } else { 0 }
}

/// The human input step: the player paddle's vertical velocity is replaced
/// by the key intent.
pub open spec fn input_step(s: Seq<Entity>, up: bool, down: bool) -> Seq<Entity> {
    Seq::new(s.len(), |i: int|
        if is_paddle_of(s[i], Team::Player) { with_vy(s[i], key_intent(up, down)) } else { s[i] })
}

/// The AI step: the AI paddle heads toward the ball's current height.
pub open spec fn ai_step(s: Seq<Entity>) -> Seq<Entity> {
    if has_ball(s) {
        let b = s[ball_index(s)];
        Seq::new(s.len(), |i: int|
            if is_paddle_of(s[i], Team::Ai) {
                with_vy(s[i], sign(b.position.y - s[i].position.y))
            } else {
                s[i]
            })
    } else {
        s
    }
}

pub open spec fn moved_ball(e: Entity) -> Entity {
    with_position(e, Vec2 {
        x: (e.position.x + e.velocity.x) as i32,
        y: (e.position.y + e.velocity.y) as i32,
    })
}

pub open spec fn fits_i32(v: int) -> bool {
    i32::MIN <= v <= i32::MAX
}

/// The ball's next position is representable.
pub open spec fn ball_can_move(s: Seq<Entity>) -> bool {
    forall|i: int| 0 <= i < s.len() && is_ball(s[i]) ==> fits_i32(s[i].position.x + s[i].velocity.x)
        && fits_i32(s[i].position.y + s[i].velocity.y)
}

/// The ball step: the ball advances by its velocity, unbounded.
pub open spec fn ball_step(s: Seq<Entity>) -> Seq<Entity> {
    Seq::new(s.len(), |i: int| if is_ball(s[i]) { moved_ball(s[i]) } else { s[i] })
}


/// Twice the largest distance a paddle's center may keep from the midline:
/// `height - 2 * GUTTER_HEIGHT - PADDLE_HEIGHT`, that is `2 * max_y`.
pub open spec fn double_max_y(height: int) -> int {
    height - 2 * GUTTER_HEIGHT - PADDLE_HEIGHT
}

/// A paddle moves by `velocity * PADDLE_SPEED` only when the new center
/// stays strictly inside `(-max_y, max_y)`; otherwise it stays put.
pub open spec fn moved_paddle(e: Entity, height: int) -> Entity {
    let cx = e.position.x + e.velocity.x * PADDLE_SPEED;
    let cy = e.position.y + e.velocity.y * PADDLE_SPEED;
    if 2 * abs(cy) < double_max_y(height) {
        with_position(e, Vec2 { x: cx as i32, y: cy as i32 })
    } else {
        e
    }
}

/// Every paddle's next horizontal position is representable.
pub open spec fn paddles_can_move(s: Seq<Entity>) -> bool {
    forall|i: int| 0 <= i < s.len() && is_paddle(s[i])
        ==> fits_i32(s[i].position.x + s[i].velocity.x * PADDLE_SPEED)
}

pub open spec fn paddle_step(s: Seq<Entity>, height: int) -> Seq<Entity> {
    Seq::new(s.len(), |i: int| if is_paddle(s[i]) { moved_paddle(s[i], height) } else { s[i] })
}

/// The side of `other` that the ball hit. Both are taken on the plane
/// scaled by two, where the ball's radius is `2 * shape.x` and the box's
/// half extent is its full `shape`, so every quantity stays integral.
pub open spec fn hit_side(ball: Entity, other: Entity) -> Option<Side> {
    collision_side(
        2 * ball.position.x,
        2 * ball.position.y,
        2 * ball.shape.x,
        2 * other.position.x,
        2 * other.position.y,
        other.shape.x as int,
        other.shape.y as int,
    )
}

/// The velocity `v` after the ball meets `other`.
pub open spec fn bounce(v: Vec2, ball: Entity, other: Entity) -> Vec2 {
    if is_ball(other) {
        v
    } else {
        match hit_side(ball, other) {
            Some(side) => reflect(v, side),
            None => v,
        }
    }
}

/// The ball's velocity after meeting the first `n` entities, in order.
pub open spec fn bounces(ball: Entity, s: Seq<Entity>, n: nat) -> Vec2
    decreases n,
{
    if n == 0 {
        ball.velocity
    } else {
        bounce(bounces(ball, s, (n - 1) as nat), ball, s[n - 1])
    }
}

/// The ball's velocity components can be negated.
pub open spec fn ball_can_bounce(s: Seq<Entity>) -> bool {
    forall|i: int| 0 <= i < s.len() && is_ball(s[i])
        ==> s[i].velocity.x > i32::MIN && s[i].velocity.y > i32::MIN
}

/// The collision step: the ball's velocity is reflected once per hit, in
/// entity order; positions do not change.
pub open spec fn collision_step(s: Seq<Entity>) -> Seq<Entity> {
    if has_ball(s) {
        let b = ball_index(s);
        s.update(b, with_velocity(s[b], bounces(s[b], s, s.len())))
    } else {
        s
    }
}

/// The scoring event of this tick, if any: the ball past the right edge
/// scores for the AI, past the left edge for the player.
pub open spec fn detect(s: Seq<Entity>, width: int) -> Option<Scorer> {
    if has_ball(s) {
        let x = s[ball_index(s)].position.x;
        if 2 * x > width {
            Some(Scorer::Ai)
        } else if 2 * x < -width {
            Some(Scorer::Player)
        } else {
            None
        }
    } else {
        None
    }
}

pub open spec fn detected(s: Seq<Entity>, width: int) -> Seq<Scored> {
    match detect(s, width) {
        Some(who) => seq![Scored(who)],
        None => Seq::empty(),
    }
}

/// The ball launches toward the side that did not just score.
pub open spec fn launch(who: Scorer) -> Vec2 {
    match who {
        Scorer::Ai => Vec2 { x: -1i32, y: 1 },
        Scorer::Player => Vec2 { x: 1, y: 1 },
    }
}

pub open spec fn reset_entity(e: Entity, who: Scorer) -> Entity {
    Entity { position: Vec2 { x: 0, y: 0 }, velocity: launch(who), ..e }
}

/// Each event recenters the ball; the last one decides its velocity.
pub open spec fn reset_step(s: Seq<Entity>, events: Seq<Scored>) -> Seq<Entity> {
    if has_ball(s) && events.len() > 0 {
        let b = ball_index(s);
        s.update(b, reset_entity(s[b], events.last().0))
    } else {
        s
    }
}

pub open spec fn count_of(events: Seq<Scored>, who: Scorer) -> nat
    decreases events.len(),
{
    if events.len() == 0 {
        0
    } else {
        count_of(events.drop_last(), who) + if events.last().0 == who { 1nat } else { 0nat }
    }
}

pub open spec fn new_ball(x: i32, y: i32) -> Entity {
    Entity {
        role: Role::Ball,
        position: Vec2 { x: 0, y: 0 },
        velocity: Vec2 { x, y },
        shape: Vec2 { x: BALL_SIZE, y: BALL_SIZE },
    }
}

pub open spec fn new_paddle(t: Team, x: i32, y: i32) -> Entity {
    Entity {
        role: Role::Paddle(t),
        position: Vec2 { x, y },
        velocity: Vec2 { x: 0, y: 0 },
        shape: Vec2 { x: PADDLE_WIDTH, y: PADDLE_HEIGHT },
    }
}

pub open spec fn new_gutter(x: i32, y: i32, width: i32) -> Entity {
    Entity {
        role: Role::Gutter,
        position: Vec2 { x, y },
        velocity: Vec2 { x: 0, y: 0 },
        shape: Vec2 { x: width, y: GUTTER_HEIGHT },
    }
}

/// What a tick requires of the entities so that every coordinate it
/// computes stays representable.
pub open spec fn tick_ready(s: Seq<Entity>) -> bool {
    ball_can_move(s) && paddles_can_move(s) && ball_can_bounce(s)
}

/// The entities after input, movement and collision, in that order.
pub open spec fn moved_entities(s: Seq<Entity>, up: bool, down: bool, field: Option<Field>) -> Seq<Entity> {
    let s1 = ball_step(ai_step(input_step(s, up, down)));
    let s2 = match field {
        Some(f) => paddle_step(s1, f.height as int),
        None => s1,
    };
    collision_step(s2)
}

/// The event queue after detection on the moved entities.
pub open spec fn tick_events(s: Seq<Entity>, events: Seq<Scored>, field: Option<Field>) -> Seq<Scored> {
    match field {
        Some(f) => events + detected(s, f.width as int),
        None => events,
    }
}

pub open spec fn same_roles(s: Seq<Entity>, t: Seq<Entity>) -> bool {
    s.len() == t.len() && forall|i: int| 0 <= i < s.len() ==> #[trigger] t[i].role == s[i].role
}

impl Entity {
    /// A ball at the origin with velocity `(x, y)`.
    pub fn ball(x: i32, y: i32) -> (e: Entity)
        ensures
            e == new_ball(x, y),
    {
        Entity {
            role: Role::Ball,
            position: Vec2 { x: 0, y: 0 },
            velocity: Vec2 { x, y },
            shape: Vec2 { x: BALL_SIZE, y: BALL_SIZE },
        }
    }

    /// A resting paddle of team `t` at `(x, y)`.
    pub fn paddle(t: Team, x: i32, y: i32) -> (e: Entity)
        ensures
            e == new_paddle(t, x, y),
    {
        Entity {
            role: Role::Paddle(t),
            position: Vec2 { x, y },
            velocity: Vec2 { x: 0, y: 0 },
            shape: Vec2 { x: PADDLE_WIDTH, y: PADDLE_HEIGHT },
        }
    }

    /// A static gutter of the given width at `(x, y)`.
    pub fn gutter(x: i32, y: i32, width: i32) -> (e: Entity)
        ensures
            e == new_gutter(x, y, width),
    {
        Entity {
            role: Role::Gutter,
            position: Vec2 { x, y },
            velocity: Vec2 { x: 0, y: 0 },
            shape: Vec2 { x: width, y: GUTTER_HEIGHT },
        }
    }
}

impl World {
    pub open spec fn wf(&self) -> bool {
        &&& entities_wf(self.entities@)
        &&& self.reset_read <= self.events@.len()
        &&& self.score_read <= self.events@.len()
    }

    /// An empty world with a zero score.
    pub fn new() -> (w: World)
        ensures
            w.entities@ == Seq::<Entity>::empty(),
            w.events@ == Seq::<Scored>::empty(),
            w.score == (Score { player: 0, ai: 0 }),
            w.reset_read == 0,
            w.score_read == 0,
            w.wf(),
    {
        World {
            entities: Vec::new(),
            score: Score { player: 0, ai: 0 },
            events: Vec::new(),
            reset_read: 0,
            score_read: 0,
        }
    }

    /// The index of the ball, if there is one.
    pub fn find_ball(&self) -> (r: Option<usize>)
        requires
            self.wf(),
        ensures
            r is None <==> !has_ball(self.entities@),
            r matches Some(b) ==> b as int == ball_index(self.entities@),
    {
        let n = self.entities.len();
        let mut i: usize = 0;
        while i < n
            invariant
                n == self.entities@.len(),
                0 <= i <= n,
                self.wf(),
                forall|k: int| 0 <= k < i ==> !is_ball(self.entities@[k]),
            decreases n - i,
        {
            if matches!(self.entities[i].role, Role::Ball) {
                let ghost s = self.entities@;
                assert(0 <= i < s.len() && is_ball(s[i as int]));
                assert(0 <= ball_index(s) < s.len() && is_ball(s[ball_index(s)]));
                assert(entities_wf(s));
                assert(i as int == ball_index(s));
                return Some(i);
            }
            i = i + 1;
        }
        None
    }

    /// Human input: sets the player paddle's vertical velocity to `1` when
    /// only `up` is pressed, `-1` when only `down` is, and `0` otherwise.
    pub fn handle_player_input(&mut self, up: bool, down: bool)
        requires
            old(self).wf(),
        ensures
            final(self).entities@ == input_step(old(self).entities@, up, down),
            final(self).score == old(self).score,
            final(self).events@ == old(self).events@,
            final(self).reset_read == old(self).reset_read,
            final(self).score_read == old(self).score_read,
    {
        let vy: i32 = if up && !down { 1 } else if down && !up { -1 } else { 0 };
        let n = self.entities.len();
        let mut i: usize = 0;
        while i < n
            invariant
                n == self.entities@.len(),
                n == old(self).entities@.len(),
                0 <= i <= n,
                vy == key_intent(up, down),
                self.score == old(self).score,
                self.events@ == old(self).events@,
                self.reset_read == old(self).reset_read,
                self.score_read == old(self).score_read,
                forall|k: int| 0 <= k < i ==> self.entities@[k] == input_step(old(self).entities@, up, down)[k],
                forall|k: int| i <= k < n ==> self.entities@[k] == old(self).entities@[k],
            decreases n - i,
        {
            let mut e = self.entities[i];
            if e.role == Role::Paddle(Team::Player) {
                e.velocity.y = vy;
                self.entities.set(i, e);
            }
            i = i + 1;
        }
        assert(self.entities@ =~= input_step(old(self).entities@, up, down));
    }

    /// AI input: when there is a ball, the AI paddle's vertical velocity
    /// becomes the sign of the ball's height relative to the paddle.
    pub fn move_ai(&mut self)
        requires
            old(self).wf(),
        ensures
            final(self).entities@ == ai_step(old(self).entities@),
            final(self).score == old(self).score,
            final(self).events@ == old(self).events@,
            final(self).reset_read == old(self).reset_read,
            final(self).score_read == old(self).score_read,
    {
        let b = match self.find_ball() {
            Some(b) => b,
            None => return,
        };
        let by: i64 = self.entities[b].position.y as i64;
        let n = self.entities.len();
        let mut i: usize = 0;
        while i < n
            invariant
                n == self.entities@.len(),
                n == old(self).entities@.len(),
                0 <= i <= n,
                has_ball(old(self).entities@),
                by == old(self).entities@[ball_index(old(self).entities@)].position.y,
                self.score == old(self).score,
                self.events@ == old(self).events@,
                self.reset_read == old(self).reset_read,
                self.score_read == old(self).score_read,
                forall|k: int| 0 <= k < i ==> self.entities@[k] == ai_step(old(self).entities@)[k],
                forall|k: int| i <= k < n ==> self.entities@[k] == old(self).entities@[k],
            decreases n - i,
        {
            let mut e = self.entities[i];
            if e.role == Role::Paddle(Team::Ai) {
                let d: i64 = by - e.position.y as i64;
                e.velocity.y = if d > 0 { 1 } else if d < 0 { -1 } else { 0 };
                self.entities.set(i, e);
            }
            i = i + 1;
        }
        assert(self.entities@ =~= ai_step(old(self).entities@));
    }

    /// Moves the ball by its velocity, with no bounds check.
    pub fn move_ball(&mut self)
        requires
            old(self).wf(),
            ball_can_move(old(self).entities@),
        ensures
            final(self).entities@ == ball_step(old(self).entities@),
            final(self).score == old(self).score,
            final(self).events@ == old(self).events@,
            final(self).reset_read == old(self).reset_read,
            final(self).score_read == old(self).score_read,
    {
        let n = self.entities.len();
        let mut i: usize = 0;
        while i < n
            invariant
                n == self.entities@.len(),
                n == old(self).entities@.len(),
                0 <= i <= n,
                ball_can_move(old(self).entities@),
                self.score == old(self).score,
                self.events@ == old(self).events@,
                self.reset_read == old(self).reset_read,
                self.score_read == old(self).score_read,
                forall|k: int| 0 <= k < i ==> self.entities@[k] == ball_step(old(self).entities@)[k],
                forall|k: int| i <= k < n ==> self.entities@[k] == old(self).entities@[k],
            decreases n - i,
        {
            let mut e = self.entities[i];
            if matches!(e.role, Role::Ball) {
                e.position = Vec2 { x: e.position.x + e.velocity.x, y: e.position.y + e.velocity.y };
                self.entities.set(i, e);
            }
            i = i + 1;
        }
        assert(self.entities@ =~= ball_step(old(self).entities@));
    }

    /// Moves every paddle by `velocity * PADDLE_SPEED`, but only where the
    /// new center stays strictly between `-max_y` and `max_y` for a field of
    /// the given height.
    pub fn move_paddles(&mut self, height: u32)
        requires
            paddles_can_move(old(self).entities@),
        ensures
            final(self).entities@ == paddle_step(old(self).entities@, height as int),
            final(self).score == old(self).score,
            final(self).events@ == old(self).events@,
            final(self).reset_read == old(self).reset_read,
            final(self).score_read == old(self).score_read,
    {
        let dmax: i64 = height as i64 - 2 * GUTTER_HEIGHT as i64 - PADDLE_HEIGHT as i64;
        let n = self.entities.len();
        let mut i: usize = 0;
        while i < n
            invariant
                n == self.entities@.len(),
                n == old(self).entities@.len(),
                0 <= i <= n,
                dmax == double_max_y(height as int),
                paddles_can_move(old(self).entities@),
                self.score == old(self).score,
                self.events@ == old(self).events@,
                self.reset_read == old(self).reset_read,
                self.score_read == old(self).score_read,
                forall|k: int| 0 <= k < i ==> self.entities@[k] == paddle_step(old(self).entities@, height as int)[k],
                forall|k: int| i <= k < n ==> self.entities@[k] == old(self).entities@[k],
            decreases n - i,
        {
            let mut e = self.entities[i];
            if matches!(e.role, Role::Paddle(_)) {
                let cy: i64 = e.position.y as i64 + e.velocity.y as i64 * PADDLE_SPEED as i64;
                let ay: i64 = if cy < 0 { -cy } else { cy };
                if 2 * ay < dmax {
                    let cx: i64 = e.position.x as i64 + e.velocity.x as i64 * PADDLE_SPEED as i64;
                    e.position = Vec2 { x: cx as i32, y: cy as i32 };
                    self.entities.set(i, e);
                }
            }
            i = i + 1;
        }
        assert(self.entities@ =~= paddle_step(old(self).entities@, height as int));
    }

    /// Reflects the ball's velocity once for every other entity it overlaps,
    /// in entity order; nothing is pushed apart.
    pub fn handle_collisions(&mut self)
        requires
            old(self).wf(),
            ball_can_bounce(old(self).entities@),
        ensures
            final(self).entities@ == collision_step(old(self).entities@),
            final(self).score == old(self).score,
            final(self).events@ == old(self).events@,
            final(self).reset_read == old(self).reset_read,
            final(self).score_read == old(self).score_read,
    {
        let b = match self.find_ball() {
            Some(b) => b,
            None => return,
        };
        let ghost s = self.entities@;
        let ball = self.entities[b];
        let mut v = ball.velocity;
        let n = self.entities.len();
        let mut i: usize = 0;
        while i < n
            invariant
                n == s.len(),
                self.entities@ == s,
                self.score == old(self).score,
                self.events@ == old(self).events@,
                self.reset_read == old(self).reset_read,
                self.score_read == old(self).score_read,
                0 <= i <= n,
                ball.velocity.x > i32::MIN,
                ball.velocity.y > i32::MIN,
                v == bounces(ball, s, i as nat),
                v.x == ball.velocity.x || v.x == -ball.velocity.x,
                v.y == ball.velocity.y || v.y == -ball.velocity.y,
            decreases n - i,
        {
            let e = self.entities[i];
            if !matches!(e.role, Role::Ball) {
                let side = resolve_collision_side(
                    2 * ball.position.x as i64,
                    2 * ball.position.y as i64,
                    2 * ball.shape.x as i64,
                    2 * e.position.x as i64,
                    2 * e.position.y as i64,
                    e.shape.x as i64,
                    e.shape.y as i64,
                );
                match side {
                    Some(Side::Left) | Some(Side::Right) => {
                        v = Vec2 { x: -v.x, y: v.y };
                    },
                    Some(Side::Top) | Some(Side::Bottom) => {
                        v = Vec2 { x: v.x, y: -v.y };
                    },
                    None => {},
                }
            }
            i = i + 1;
        }
        let mut nb = ball;
        nb.velocity = v;
        self.entities.set(b, nb);
        assert(self.entities@ =~= collision_step(old(self).entities@));
    }

    /// Queues a scoring event when the ball has left a field of the given
    /// width: past `width / 2` the AI scores, past `-width / 2` the player.
    pub fn detect_scoring(&mut self, width: u32)
        requires
            old(self).wf(),
        ensures
            final(self).entities@ == old(self).entities@,
            final(self).score == old(self).score,
            final(self).events@ == old(self).events@ + detected(old(self).entities@, width as int),
            final(self).reset_read == old(self).reset_read,
            final(self).score_read == old(self).score_read,
    {
        let ghost s = self.entities@;
        if let Some(b) = self.find_ball() {
            let x2: i64 = 2 * self.entities[b].position.x as i64;
            if x2 > width as i64 {
                self.events.push(Scored(Scorer::Ai));
            } else if x2 < -(width as i64) {
                self.events.push(Scored(Scorer::Player));
            }
        }
        assert(self.events@ =~= old(self).events@ + detected(s, width as int));
    }

    /// Consumes the events queued since its last call, in order: each
    /// recenters the ball and launches it toward the side that did not
    /// score. A second call with no new event changes nothing.
    pub fn reset_ball(&mut self)
        requires
            old(self).wf(),
        ensures
            final(self).entities@ == reset_step(
                old(self).entities@,
                pending(old(self).events@, old(self).reset_read as int),
            ),
            final(self).score == old(self).score,
            final(self).events@ == old(self).events@,
            final(self).reset_read == final(self).events@.len(),
            final(self).score_read == old(self).score_read,
            final(self).wf(),
    {
        let ghost s = self.entities@;
        let r0 = self.reset_read;
        let n = self.events.len();
        let mut i: usize = r0;
        while i < n
            invariant
                n == self.events@.len(),
                self.events@ == old(self).events@,
                self.score == old(self).score,
                self.reset_read == old(self).reset_read,
                self.score_read == old(self).score_read,
                r0 == old(self).reset_read,
                s == old(self).entities@,
                old(self).wf(),
                r0 <= i <= n,
                self.entities@ == reset_step(s, self.events@.subrange(r0 as int, i as int)),
            decreases n - i,
        {
            let who = self.events[i].0;
            proof {
                assert(self.events@.subrange(r0 as int, i + 1).last() == self.events@[i as int]);
                if i == r0 {
                    assert(self.events@.subrange(r0 as int, i as int).len() == 0);
                }
            }
            if let Some(b) = self.find_ball() {
                let mut e = self.entities[b];
                e.position = Vec2 { x: 0, y: 0 };
                e.velocity = match who {
                    Scorer::Ai => Vec2 { x: -1, y: 1 },
                    Scorer::Player => Vec2 { x: 1, y: 1 },
                };
                self.entities.set(b, e);
                proof {
                    assert(self.entities@ =~= reset_step(s, self.events@.subrange(r0 as int, i + 1)));
                }
            }
            i = i + 1;
        }
        self.reset_read = n;
    }

    /// Adds one point to the scorer of each event queued since its last
    /// call. A second call with no new event changes nothing.
    pub fn update_score(&mut self)
        requires
            old(self).score_read <= old(self).events@.len(),
            old(self).score.player + count_of(pending(old(self).events@, old(self).score_read as int), Scorer::Player)
                <= u32::MAX,
            old(self).score.ai + count_of(pending(old(self).events@, old(self).score_read as int), Scorer::Ai)
                <= u32::MAX,
        ensures
            final(self).entities@ == old(self).entities@,
            final(self).events@ == old(self).events@,
            final(self).reset_read == old(self).reset_read,
            final(self).score_read == final(self).events@.len(),
            final(self).score.player == old(self).score.player + count_of(
                pending(old(self).events@, old(self).score_read as int),
                Scorer::Player,
            ),
            final(self).score.ai == old(self).score.ai + count_of(
                pending(old(self).events@, old(self).score_read as int),
                Scorer::Ai,
            ),
    {
        let ghost p = pending(self.events@, self.score_read as int);
        let r0 = self.score_read;
        let n = self.events.len();
        let mut i: usize = r0;
        while i < n
            invariant
                n == self.events@.len(),
                self.events@ == old(self).events@,
                self.entities@ == old(self).entities@,
                self.reset_read == old(self).reset_read,
                r0 == old(self).score_read,
                p == pending(old(self).events@, r0 as int),
                r0 <= i <= n,
                self.score.player == old(self).score.player + count_of(p.take(i - r0), Scorer::Player),
                self.score.ai == old(self).score.ai + count_of(p.take(i - r0), Scorer::Ai),
                old(self).score.player + count_of(p, Scorer::Player) <= u32::MAX,
                old(self).score.ai + count_of(p, Scorer::Ai) <= u32::MAX,
            decreases n - i,
        {
            proof {
                let k = i + 1 - r0;
                let t = p.take(k);
                assert(t.drop_last() =~= p.take(k - 1));
                assert(t.last() == self.events@[i as int]);
                lemma_count_prefix(p, k, Scorer::Player);
                lemma_count_prefix(p, k, Scorer::Ai);
            }
            match self.events[i].0 {
                Scorer::Ai => self.score.ai = self.score.ai + 1,
                Scorer::Player => self.score.player = self.score.player + 1,
            }
            i = i + 1;
        }
        assert(p.take(n - r0) =~= p);
        self.score_read = n;
    }

    /// Adds the ball at the origin, launched toward `(1, 1)`.
    pub fn spawn_ball(&mut self)
        requires
            old(self).wf(),
            !has_ball(old(self).entities@),
        ensures
            final(self).entities@ == old(self).entities@.push(new_ball(1, 1)),
            final(self).score == old(self).score,
            final(self).events@ == old(self).events@,
            final(self).reset_read == old(self).reset_read,
            final(self).score_read == old(self).score_read,
            final(self).wf(),
    {
        let e = Entity::ball(1, 1);
        self.entities.push(e);
    }

    /// Adds both paddles, at rest on the midline, `PADDLE_PADDING` in from
    /// each side of a field of the given width: the player's on the right,
    /// the AI's on the left (half the width rounds down).
    pub fn spawn_paddles(&mut self, width: u32)
        requires
            old(self).wf(),
            forall|i: int| 0 <= i < old(self).entities@.len() ==> !is_paddle(#[trigger] old(self).entities@[i]),
        ensures
            final(self).entities@ == old(self).entities@
                .push(new_paddle(Team::Player, (width / 2 - PADDLE_PADDING) as i32, 0))
                .push(new_paddle(Team::Ai, (PADDLE_PADDING - width / 2) as i32, 0)),
            final(self).score == old(self).score,
            final(self).events@ == old(self).events@,
            final(self).reset_read == old(self).reset_read,
            final(self).score_read == old(self).score_read,
            final(self).wf(),
    {
        let half: i32 = (width / 2) as i32;
        let right = Entity::paddle(Team::Player, half - PADDLE_PADDING, 0);
        let left = Entity::paddle(Team::Ai, PADDLE_PADDING - half, 0);
        self.entities.push(right);
        self.entities.push(left);
    }

    /// Adds a gutter along the top and the bottom edge of the field, each as
    /// wide as the field and centered `GUTTER_HEIGHT / 2` in from its edge
    /// (half the height rounds down).
    pub fn spawn_gutters(&mut self, field: Field)
        requires
            old(self).wf(),
            field.width <= i32::MAX,
        ensures
            final(self).entities@ == old(self).entities@
                .push(new_gutter(0, (field.height / 2 - GUTTER_HEIGHT / 2) as i32, field.width as i32))
                .push(new_gutter(0, (GUTTER_HEIGHT / 2 - field.height / 2) as i32, field.width as i32)),
            final(self).score == old(self).score,
            final(self).events@ == old(self).events@,
            final(self).reset_read == old(self).reset_read,
            final(self).score_read == old(self).score_read,
            final(self).wf(),
    {
        let half: i32 = (field.height / 2) as i32;
        let w: i32 = field.width as i32;
        let top = Entity::gutter(0, half - GUTTER_HEIGHT / 2, w);
        let bottom = Entity::gutter(0, GUTTER_HEIGHT / 2 - half, w);
        self.entities.push(top);
        self.entities.push(bottom);
    }

    /// One simulation step, in this order: human and AI input, ball and
    /// paddle movement, collisions, scoring detection, then the ball reset
    /// and the score tally, which both see every queued event once; the
    /// queue is empty afterwards. Without a field size, paddles do not move
    /// and nothing scores.
    pub fn tick(&mut self, up: bool, down: bool, field: Option<Field>)
        requires
            old(self).wf(),
            tick_ready(old(self).entities@),
            old(self).score.player + count_of(pending(old(self).events@, old(self).score_read as int), Scorer::Player)
                < u32::MAX,
            old(self).score.ai + count_of(pending(old(self).events@, old(self).score_read as int), Scorer::Ai)
                < u32::MAX,
        ensures
            ({
                let m = moved_entities(old(self).entities@, up, down, field);
                let q = tick_events(m, old(self).events@, field);
                &&& final(self).entities@ == reset_step(m, pending(q, old(self).reset_read as int))
                &&& final(self).score.player == old(self).score.player + count_of(
                    pending(q, old(self).score_read as int),
                    Scorer::Player,
                )
                &&& final(self).score.ai == old(self).score.ai + count_of(
                    pending(q, old(self).score_read as int),
                    Scorer::Ai,
                )
            }),
            final(self).events@ == Seq::<Scored>::empty(),
            final(self).reset_read == 0,
            final(self).score_read == 0,
            final(self).wf(),
    {
        let ghost s0 = self.entities@;
        self.handle_player_input(up, down);
        proof {
            lemma_input_step(s0, up, down);
            lemma_wf_same_roles(s0, self.entities@);
        }
        let ghost s1 = self.entities@;
        self.move_ai();
        proof {
            lemma_ai_step(s1);
            lemma_wf_same_roles(s1, self.entities@);
        }
        let ghost s2 = self.entities@;
        self.move_ball();
        proof {
            lemma_ball_step(s2);
            lemma_wf_same_roles(s2, self.entities@);
        }
        if let Some(f) = field {
            let ghost s3 = self.entities@;
            self.move_paddles(f.height);
            proof {
                lemma_paddle_step(s3, f.height as int);
                lemma_wf_same_roles(s3, self.entities@);
            }
        }
        let ghost s4 = self.entities@;
        self.handle_collisions();
        proof {
            lemma_wf_same_roles(s4, self.entities@);
        }
        let ghost q0 = self.events@;
        if let Some(f) = field {
            self.detect_scoring(f.width);
        }
        proof {
            let q = self.events@;
            let r = self.score_read as int;
            if q.len() > q0.len() {
                assert(pending(q, r).drop_last() =~= pending(q0, r));
            } else {
                assert(q =~= q0);
            }
        }
        self.reset_ball();
        self.update_score();
        self.events.clear();
        self.reset_read = 0;
        self.score_read = 0;
    }
}

/// A sequence whose roles match a well-formed one is well formed.
proof fn lemma_wf_same_roles(s: Seq<Entity>, t: Seq<Entity>)
    requires
        entities_wf(s),
        same_roles(s, t),
    ensures
        entities_wf(t),
        has_ball(s) ==> has_ball(t),
{
    assert forall|i: int, j: int| 0 <= i < t.len() && 0 <= j < t.len() && is_ball(t[i]) && is_ball(t[j]) implies i == j by {
        assert(t[i].role == s[i].role && t[j].role == s[j].role);
    }
    assert forall|i: int, j: int, k: Team| 0 <= i < t.len() && 0 <= j < t.len() && is_paddle_of(t[i], k)
        && is_paddle_of(t[j], k) implies i == j by {
        assert(t[i].role == s[i].role && t[j].role == s[j].role);
        assert(is_paddle_of(s[i], k) && is_paddle_of(s[j], k));
    }
    if has_ball(s) {
        let b = ball_index(s);
        assert(t[b].role == s[b].role);
    }
}

proof fn lemma_input_step(s: Seq<Entity>, up: bool, down: bool)
    ensures
        same_roles(s, input_step(s, up, down)),
        tick_ready(s) ==> tick_ready(input_step(s, up, down)),
{
    let t = input_step(s, up, down);
    assert forall|i: int| 0 <= i < t.len() implies #[trigger] t[i].position == s[i].position
        && t[i].velocity.x == s[i].velocity.x && (is_ball(t[i]) ==> t[i].velocity == s[i].velocity) by {
    }
}

proof fn lemma_ai_step(s: Seq<Entity>)
    ensures
        same_roles(s, ai_step(s)),
        tick_ready(s) ==> tick_ready(ai_step(s)),
{
    let t = ai_step(s);
    assert forall|i: int| 0 <= i < t.len() implies #[trigger] t[i].position == s[i].position
        && t[i].role == s[i].role && t[i].velocity.x == s[i].velocity.x
        && (is_ball(t[i]) ==> t[i].velocity == s[i].velocity) by {
    }
}

proof fn lemma_ball_step(s: Seq<Entity>)
    ensures
        same_roles(s, ball_step(s)),
        tick_ready(s) ==> paddles_can_move(ball_step(s)) && ball_can_bounce(ball_step(s)),
{
    let t = ball_step(s);
    assert forall|i: int| 0 <= i < t.len() implies #[trigger] t[i].velocity == s[i].velocity
        && t[i].role == s[i].role && (!is_ball(t[i]) ==> t[i].position == s[i].position) by {
    }
}

proof fn lemma_paddle_step(s: Seq<Entity>, height: int)
    ensures
        same_roles(s, paddle_step(s, height)),
        ball_can_bounce(s) ==> ball_can_bounce(paddle_step(s, height)),
{
    let t = paddle_step(s, height);
    assert forall|i: int| 0 <= i < t.len() implies #[trigger] t[i].velocity == s[i].velocity
        && t[i].role == s[i].role by {
    }
}

/// Counting over a prefix never exceeds counting over the whole queue.
proof fn lemma_count_prefix(events: Seq<Scored>, k: int, who: Scorer)
    requires
        0 <= k <= events.len(),
    ensures
        count_of(events.take(k), who) <= count_of(events, who),
    decreases events.len() - k,
{
    if k < events.len() {
        lemma_count_prefix(events, k + 1, who);
        assert(events.take(k + 1).drop_last() =~= events.take(k));
    } else {
        assert(events.take(k) =~= events);
    }
}

/// A paddle step either leaves the paddle where it was or puts its center
/// strictly inside `(-max_y, max_y)`; it never crosses the limit.
pub proof fn lemma_paddle_stays_inside(e: Entity, height: int)
    requires
        0 <= height <= u32::MAX,
    ensures
        ({
            let m = moved_paddle(e, height);
            let cy = e.position.y + e.velocity.y * PADDLE_SPEED;
            ||| m == e && 2 * abs(cy) >= double_max_y(height)
            ||| m.position.y == cy && 2 * abs(m.position.y as int) < double_max_y(height)
        }),
{
}

/// After detection and reaction on a ball past the right edge, the ball is
/// at the origin heading `(-1, 1)`; past the left edge, heading `(1, 1)`.
/// Events queued earlier in the tick do not change this.
pub proof fn lemma_scoring_launch(s: Seq<Entity>, events: Seq<Scored>, width: int)
    requires
        0 <= width <= u32::MAX,
        entities_wf(s),
        has_ball(s),
    ensures
        ({
            let b = ball_index(s);
            let r = reset_step(s, events + detected(s, width))[b];
            &&& 2 * s[b].position.x > width ==> r.position == Vec2 { x: 0, y: 0 } && r.velocity == Vec2 {
                x: -1i32,
                y: 1,
            }
            &&& 2 * s[b].position.x < -width ==> r.position == Vec2 { x: 0, y: 0 } && r.velocity == Vec2 {
                x: 1,
                y: 1,
            }
        }),
{
    let b = ball_index(s);
    let d = detected(s, width);
    let q = events + d;
    assert(0 <= b < s.len() && is_ball(s[b]));
    if 2 * s[b].position.x > width {
        assert(d == seq![Scored(Scorer::Ai)]);
        assert(q.last() == Scored(Scorer::Ai));
    } else if 2 * s[b].position.x < -width {
        assert(d == seq![Scored(Scorer::Player)]);
        assert(q.last() == Scored(Scorer::Player));
    }
}

/// Every scoring event counts for exactly one side: the two counts add up
/// to the number of events.
pub proof fn lemma_score_total(events: Seq<Scored>)
    ensures
        count_of(events, Scorer::Player) + count_of(events, Scorer::Ai) == events.len(),
    decreases events.len(),
{
    if events.len() > 0 {
        lemma_score_total(events.drop_last());
    }
}

/// Whether meeting `other` flips the ball's horizontal velocity.
pub open spec fn horizontal_hit(ball: Entity, other: Entity) -> bool {
    !is_ball(other) && (hit_side(ball, other) == Some(Side::Left) || hit_side(ball, other) == Some(Side::Right))
}

/// Whether meeting `other` flips the ball's vertical velocity.
pub open spec fn vertical_hit(ball: Entity, other: Entity) -> bool {
    !is_ball(other) && (hit_side(ball, other) == Some(Side::Top) || hit_side(ball, other) == Some(Side::Bottom))
}

/// How many of the first `n` entities give a horizontal (or vertical) hit.
pub open spec fn hit_count(ball: Entity, s: Seq<Entity>, n: nat, horizontal: bool) -> nat
    decreases n,
{
    if n == 0 {
        0
    } else {
        hit_count(ball, s, (n - 1) as nat, horizontal) + if (horizontal && horizontal_hit(ball, s[n - 1]))
            || (!horizontal && vertical_hit(ball, s[n - 1])) {
            1nat
        } else {
            0nat
        }
    }
}

/// Hits are not merged: each one flips its axis, so a velocity component
/// ends negated exactly when its axis was hit an odd number of times.
pub proof fn lemma_bounces_parity(ball: Entity, s: Seq<Entity>, n: nat)
    requires
        n <= s.len(),
        ball.velocity.x > i32::MIN,
        ball.velocity.y > i32::MIN,
    ensures
        bounces(ball, s, n).x == if hit_count(ball, s, n, true) % 2 == 0 {
            ball.velocity.x as int
        } else {
            -ball.velocity.x
        },
        bounces(ball, s, n).y == if hit_count(ball, s, n, false) % 2 == 0 {
            ball.velocity.y as int
        } else {
            -ball.velocity.y
        },
    decreases n,
{
    if n > 0 {
        lemma_bounces_parity(ball, s, (n - 1) as nat);
    }
}

/// Two hits on the same axis in one tick, such as two `Left` hits, and none
/// on the other, leave the ball's velocity as it was.
pub proof fn lemma_double_hit_cancels(ball: Entity, s: Seq<Entity>)
    requires
        ball.velocity.x > i32::MIN,
        ball.velocity.y > i32::MIN,
        hit_count(ball, s, s.len(), true) == 2,
        hit_count(ball, s, s.len(), false) == 0,
    ensures
        bounces(ball, s, s.len()) == ball.velocity,
{
    lemma_bounces_parity(ball, s, s.len());
}

/// Paddles that start strictly inside `(-max_y, max_y)` stay there after
/// the paddle step: the bound holds every tick, not only at spawn.
pub proof fn lemma_paddles_stay_within(s: Seq<Entity>, height: int)
    requires
        0 <= height <= u32::MAX,
        forall|i: int| 0 <= i < s.len() && is_paddle(s[i])
            ==> 2 * abs(#[trigger] s[i].position.y as int) < double_max_y(height),
    ensures
        forall|i: int| 0 <= i < s.len() && is_paddle(paddle_step(s, height)[i])
            ==> 2 * abs(#[trigger] paddle_step(s, height)[i].position.y as int) < double_max_y(height),
{
    let t = paddle_step(s, height);
    assert forall|i: int| 0 <= i < s.len() && is_paddle(t[i]) implies 2 * abs(
        #[trigger] t[i].position.y as int,
    ) < double_max_y(height) by {
        lemma_paddle_stays_inside(s[i], height);
    }
}

/// Events that alternate between the two scorers.
pub open spec fn alternating(events: Seq<Scored>) -> bool {
    forall|i: int, j: int| 0 <= i && j == i + 1 && j < events.len() ==> #[trigger] events[i].0 != #[trigger] events[j].0
}

/// After alternating goals the two counts add up to the number of goals and
/// differ by at most one.
pub proof fn lemma_alternating_balance(events: Seq<Scored>)
    requires
        alternating(events),
    ensures
        count_of(events, Scorer::Player) + count_of(events, Scorer::Ai) == events.len(),
        -1 <= count_of(events, Scorer::Player) - count_of(events, Scorer::Ai) <= 1,
        events.len() > 0 ==> (count_of(events, Scorer::Player) - count_of(events, Scorer::Ai) == 0
            || (count_of(events, Scorer::Player) - count_of(events, Scorer::Ai) == 1
                && events.last().0 == Scorer::Player)
            || (count_of(events, Scorer::Player) - count_of(events, Scorer::Ai) == -1
                && events.last().0 == Scorer::Ai)),
    decreases events.len(),
{
    lemma_score_total(events);
    if events.len() > 0 {
        let e = events.drop_last();
        assert(alternating(e)) by {
            assert forall|i: int, j: int| 0 <= i && j == i + 1 && j < e.len() implies #[trigger] e[i].0
                != #[trigger] e[j].0 by {
                assert(e[i] == events[i] && e[j] == events[j]);
            }
        }
        lemma_alternating_balance(e);
        if e.len() > 0 {
            let k = events.len() - 2;
            assert(e.last() == events[k]);
            assert(events[k].0 != events[k + 1].0);
        }
    }
}

} // verus!
