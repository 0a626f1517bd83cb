use pong::geometry::{resolve_collision_side, Side, Vec2};
use pong::world::{
    Entity, Field, Role, Score, Scored, Scorer, Team, World, BALL_SIZE, GUTTER_HEIGHT,
    PADDLE_HEIGHT, PADDLE_WIDTH,
};

fn v(x: i32, y: i32) -> Vec2 {
    Vec2 { x, y }
}

fn world_with(entities: Vec<Entity>) -> World {
    let mut w = World::new();
    w.entities = entities;
    w
}

fn ball_at(x: i32, y: i32, vx: i32, vy: i32) -> Entity {
    let mut b = Entity::ball(vx, vy);
    b.position = v(x, y);
    b
}

fn wall(x: i32, y: i32, w: i32, h: i32) -> Entity {
    Entity { role: Role::Gutter, position: v(x, y), velocity: v(0, 0), shape: v(w, h) }
}

#[test]
fn no_collision_when_apart() {
    assert_eq!(resolve_collision_side(0, 0, 5, 20, 0, 5, 5), None);
    // Diagonally apart: each axis gap is within the radius, the distance is not.
    assert_eq!(resolve_collision_side(0, 0, 5, 9, 9, 5, 5), None);
}

#[test]
fn collision_on_each_side() {
    assert_eq!(resolve_collision_side(-8, 0, 5, 0, 0, 5, 5), Some(Side::Left));
    assert_eq!(resolve_collision_side(8, 0, 5, 0, 0, 5, 5), Some(Side::Right));
    assert_eq!(resolve_collision_side(0, 8, 5, 0, 0, 5, 5), Some(Side::Top));
    assert_eq!(resolve_collision_side(0, -8, 5, 0, 0, 5, 5), Some(Side::Bottom));
}

#[test]
fn touching_counts_as_collision() {
    assert_eq!(resolve_collision_side(10, 0, 5, 0, 0, 5, 5), Some(Side::Right));
    assert_eq!(resolve_collision_side(11, 0, 5, 0, 0, 5, 5), None);
}

#[test]
fn center_inside_box_resolves_bottom() {
    assert_eq!(resolve_collision_side(1, 1, 5, 0, 0, 5, 5), Some(Side::Bottom));
}

#[test]
fn side_resolution_is_deterministic() {
    let a = resolve_collision_side(7, 3, 5, 0, 0, 5, 5);
    let b = resolve_collision_side(7, 3, 5, 0, 0, 5, 5);
    assert_eq!(a, b);
    assert_eq!(a, Some(Side::Right));
}

#[test]
fn diagonal_corner_hit_is_vertical() {
    // Offset (2, 2) from the top-right corner (5, 5).
    assert_eq!(resolve_collision_side(7, 7, 5, 0, 0, 5, 5), Some(Side::Top));
    // Offset (-2, -2) from the bottom-left corner.
    assert_eq!(resolve_collision_side(-7, -7, 5, 0, 0, 5, 5), Some(Side::Bottom));
    // Offset (2, -2) from the bottom-right corner.
    assert_eq!(resolve_collision_side(7, -7, 5, 0, 0, 5, 5), Some(Side::Bottom));
}

#[test]
fn extreme_coordinates_do_not_overflow() {
    assert_eq!(resolve_collision_side(i64::MIN, i64::MIN, i64::MIN, i64::MAX, i64::MAX, 0, 0), None);
    assert_eq!(
        resolve_collision_side(i64::MAX, 0, i64::MIN, 0, 0, 0, 0),
        Some(Side::Right)
    );
}

#[test]
fn double_left_hit_cancels() {
    // Two identical boxes to the right of the ball: both struck on their left side.
    let mut w = world_with(vec![ball_at(0, 0, 3, 2), wall(12, 0, 20, 4), wall(12, 0, 20, 4)]);
    w.handle_collisions();
    assert_eq!(w.entities[0].velocity, v(3, 2));
    assert_eq!(w.entities[0].position, v(0, 0));
}

#[test]
fn single_hit_reflects() {
    let mut w = world_with(vec![ball_at(0, 0, 3, 2), wall(12, 0, 20, 4)]);
    w.handle_collisions();
    assert_eq!(w.entities[0].velocity, v(-3, 2));
    let mut w = world_with(vec![wall(0, 12, 4, 20), ball_at(0, 0, 3, 2)]);
    w.handle_collisions();
    assert_eq!(w.entities[1].velocity, v(3, -2));
}

#[test]
fn collisions_without_ball_do_nothing() {
    let mut w = world_with(vec![wall(0, 0, 10, 10)]);
    w.handle_collisions();
    assert_eq!(w.entities, vec![wall(0, 0, 10, 10)]);
}

#[test]
fn paddle_at_limit_freezes() {
    // height 600: max_y = 300 - 20 - 25 = 255.
    let mut p = Entity::paddle(Team::Player, 350, 254);
    p.velocity = v(0, 1);
    let mut w = world_with(vec![p]);
    w.move_paddles(600);
    assert_eq!(w.entities[0].position, v(350, 254));
}

#[test]
fn paddle_moves_inside_limit() {
    let mut p = Entity::paddle(Team::Ai, -350, 253);
    p.velocity = v(0, 1);
    let mut w = world_with(vec![p]);
    w.move_paddles(600);
    assert_eq!(w.entities[0].position, v(-350, 254));
    let mut q = Entity::paddle(Team::Ai, -350, -254);
    q.velocity = v(0, -1);
    let mut w = world_with(vec![q]);
    w.move_paddles(600);
    assert_eq!(w.entities[0].position, v(-350, -254));
}

#[test]
fn ball_moves_unbounded() {
    let mut w = world_with(vec![ball_at(1000, -7, 4, -3), wall(0, 0, 10, 10)]);
    w.move_ball();
    assert_eq!(w.entities[0].position, v(1004, -10));
    assert_eq!(w.entities[1].position, v(0, 0));
}

#[test]
fn player_input_sets_velocity() {
    let mut w = world_with(vec![Entity::paddle(Team::Player, 350, 0), Entity::paddle(Team::Ai, -350, 0)]);
    w.handle_player_input(true, false);
    assert_eq!(w.entities[0].velocity.y, 1);
    w.handle_player_input(false, true);
    assert_eq!(w.entities[0].velocity.y, -1);
    w.handle_player_input(true, true);
    assert_eq!(w.entities[0].velocity.y, 0);
    w.handle_player_input(true, false);
    w.handle_player_input(false, false);
    assert_eq!(w.entities[0].velocity.y, 0);
    assert_eq!(w.entities[1].velocity.y, 0);
}

#[test]
fn ai_tracks_ball() {
    for (by, expected) in [(5, 1), (-5, -1), (0, 0)] {
        let mut w = world_with(vec![Entity::paddle(Team::Ai, -350, 0), ball_at(0, by, 1, 1)]);
        w.move_ai();
        assert_eq!(w.entities[0].velocity.y, expected);
    }
}

#[test]
fn ai_without_ball_does_nothing() {
    let mut p = Entity::paddle(Team::Ai, -350, 0);
    p.velocity = v(0, 1);
    let mut w = world_with(vec![p]);
    w.move_ai();
    assert_eq!(w.entities[0].velocity.y, 1);
}

#[test]
fn scoring_past_right_edge_launches_left() {
    let mut w = world_with(vec![ball_at(401, 30, 1, 1)]);
    w.detect_scoring(800);
    assert_eq!(w.events, vec![Scored(Scorer::Ai)]);
    w.reset_ball();
    w.update_score();
    assert_eq!(w.entities[0].position, v(0, 0));
    assert_eq!(w.entities[0].velocity, v(-1, 1));
    assert_eq!(w.score, Score { player: 0, ai: 1 });
}

#[test]
fn scoring_past_left_edge_launches_right() {
    let mut w = world_with(vec![ball_at(-401, 30, -1, 1)]);
    w.detect_scoring(800);
    assert_eq!(w.events, vec![Scored(Scorer::Player)]);
    w.reset_ball();
    w.update_score();
    assert_eq!(w.entities[0].position, v(0, 0));
    assert_eq!(w.entities[0].velocity, v(1, 1));
    assert_eq!(w.score, Score { player: 1, ai: 0 });
}

#[test]
fn ball_on_edge_does_not_score() {
    let mut w = world_with(vec![ball_at(400, 0, 1, 1)]);
    w.detect_scoring(800);
    assert!(w.events.is_empty());
    let mut w = world_with(vec![ball_at(-400, 0, 1, 1)]);
    w.detect_scoring(800);
    assert!(w.events.is_empty());
    // An odd width: the edge lies at 200.5.
    let mut w = world_with(vec![ball_at(201, 0, 1, 1)]);
    w.detect_scoring(401);
    assert_eq!(w.events, vec![Scored(Scorer::Ai)]);
}

#[test]
fn last_queued_event_decides_reset() {
    let mut w = world_with(vec![ball_at(50, 50, 2, 2)]);
    w.events = vec![Scored(Scorer::Player), Scored(Scorer::Ai)];
    w.reset_ball();
    assert_eq!(w.entities[0].position, v(0, 0));
    assert_eq!(w.entities[0].velocity, v(-1, 1));
}

#[test]
fn alternating_scores_add_up() {
    let mut w = World::new();
    for k in 0..6 {
        let who = if k % 2 == 0 { Scorer::Player } else { Scorer::Ai };
        w.events.push(Scored(who));
        w.update_score();
    }
    assert_eq!(w.score, Score { player: 3, ai: 3 });
    assert_eq!(w.score.player + w.score.ai, 6);
    assert_eq!(w.score_read, 6);
}

#[test]
fn alternating_odd_count_stays_balanced() {
    let mut w = World::new();
    w.events = vec![Scored(Scorer::Ai), Scored(Scorer::Player), Scored(Scorer::Ai)];
    w.update_score();
    assert_eq!(w.score, Score { player: 1, ai: 2 });
}

#[test]
fn reset_consumes_each_event_once() {
    let mut w = world_with(vec![ball_at(401, 7, 1, 1)]);
    w.events = vec![Scored(Scorer::Ai)];
    w.reset_ball();
    assert_eq!(w.entities[0].position, v(0, 0));
    assert_eq!(w.reset_read, 1);
    w.move_ball();
    assert_eq!(w.entities[0].position, v(-1, 1));
    w.reset_ball();
    assert_eq!(w.entities[0].position, v(-1, 1));
    assert_eq!(w.entities[0].velocity, v(-1, 1));
    // A new event is seen by the next call.
    w.events.push(Scored(Scorer::Player));
    w.reset_ball();
    assert_eq!(w.entities[0].position, v(0, 0));
    assert_eq!(w.entities[0].velocity, v(1, 1));
}

#[test]
fn tally_consumes_each_event_once() {
    let mut w = World::new();
    w.events = vec![Scored(Scorer::Player), Scored(Scorer::Ai)];
    w.update_score();
    w.update_score();
    assert_eq!(w.score, Score { player: 1, ai: 1 });
    w.events.push(Scored(Scorer::Ai));
    w.update_score();
    assert_eq!(w.score, Score { player: 1, ai: 2 });
}

#[test]
fn readers_are_independent() {
    let mut w = world_with(vec![ball_at(5, 5, 2, 2)]);
    w.events = vec![Scored(Scorer::Player)];
    w.update_score();
    assert_eq!(w.entities[0].position, v(5, 5));
    w.reset_ball();
    assert_eq!(w.entities[0].position, v(0, 0));
    assert_eq!(w.score, Score { player: 1, ai: 0 });
}

#[test]
fn tick_clears_queue_and_read_positions() {
    let field = Field { width: 800, height: 600 };
    let mut w = world_with(vec![ball_at(-400, 0, -1, 0)]);
    w.tick(false, false, Some(field));
    assert_eq!(w.score, Score { player: 1, ai: 0 });
    assert!(w.events.is_empty());
    assert_eq!((w.reset_read, w.score_read), (0, 0));
    w.tick(false, false, Some(field));
    assert_eq!(w.score, Score { player: 1, ai: 0 });
    assert_eq!(w.entities[0].position, v(1, 1));
}

#[test]
fn left_and_right_hits_also_cancel() {
    // One box struck on its left side, one on its right side.
    let mut w = world_with(vec![wall(-12, 0, 20, 4), ball_at(0, 0, 3, 2), wall(12, 0, 20, 4)]);
    w.handle_collisions();
    assert_eq!(w.entities[1].velocity, v(3, 2));
}

#[test]
fn spawn_layout() {
    let mut w = World::new();
    w.spawn_ball();
    w.spawn_paddles(800);
    w.spawn_gutters(Field { width: 800, height: 600 });
    assert_eq!(w.entities.len(), 5);
    assert_eq!(w.entities[0], ball_at(0, 0, 1, 1));
    assert_eq!(w.entities[0].shape, v(BALL_SIZE, BALL_SIZE));
    assert_eq!(w.entities[1], Entity::paddle(Team::Player, 350, 0));
    assert_eq!(w.entities[1].shape, v(PADDLE_WIDTH, PADDLE_HEIGHT));
    assert_eq!(w.entities[2], Entity::paddle(Team::Ai, -350, 0));
    assert_eq!(w.entities[3], Entity::gutter(0, 290, 800));
    assert_eq!(w.entities[4], Entity::gutter(0, -290, 800));
    assert_eq!(w.entities[4].shape, v(800, GUTTER_HEIGHT));
    assert_eq!(w.score, Score { player: 0, ai: 0 });
}

#[test]
fn find_ball_locates_it() {
    let w = world_with(vec![wall(0, 0, 1, 1), ball_at(0, 0, 1, 1)]);
    assert_eq!(w.find_ball(), Some(1));
    assert_eq!(world_with(vec![]).find_ball(), None);
}

#[test]
fn tick_runs_systems_in_order() {
    let field = Field { width: 800, height: 600 };
    let mut w = World::new();
    w.spawn_ball();
    w.spawn_paddles(800);
    w.spawn_gutters(field);
    w.tick(true, false, Some(field));
    assert_eq!(w.entities[0].position, v(1, 1));
    assert_eq!(w.entities[0].velocity, v(1, 1));
    // The player paddle moved up with the key, the AI paddle toward the
    // ball's height before the ball moved (level with it: no move).
    assert_eq!(w.entities[1].position, v(350, 1));
    assert_eq!(w.entities[2].position, v(-350, 0));
    w.tick(false, false, Some(field));
    assert_eq!(w.entities[2].velocity.y, 1);
    assert_eq!(w.entities[2].position, v(-350, 1));
    assert!(w.events.is_empty());
}

#[test]
fn tick_scores_and_resets() {
    let field = Field { width: 800, height: 600 };
    let mut w = world_with(vec![ball_at(400, 0, 1, 0)]);
    w.tick(false, false, Some(field));
    assert_eq!(w.entities[0].position, v(0, 0));
    assert_eq!(w.entities[0].velocity, v(-1, 1));
    assert_eq!(w.score, Score { player: 0, ai: 1 });
    assert!(w.events.is_empty());
}

#[test]
fn tick_bounces_off_gutter() {
    let field = Field { width: 800, height: 600 };
    let mut w = world_with(vec![ball_at(0, 274, 0, 1), Entity::gutter(0, 290, 800)]);
    w.tick(false, false, Some(field));
    assert_eq!(w.entities[0].position, v(0, 275));
    assert_eq!(w.entities[0].velocity, v(0, -1));
}

#[test]
fn tick_without_field_skips_paddles_and_scoring() {
    let mut p = Entity::paddle(Team::Player, 350, 0);
    p.velocity = v(0, 1);
    let mut w = world_with(vec![ball_at(10000, 0, 1, 0), p]);
    w.tick(true, false, None);
    assert_eq!(w.entities[0].position, v(10001, 0));
    assert_eq!(w.entities[1].position, v(350, 0));
    assert_eq!(w.score, Score { player: 0, ai: 0 });
}
