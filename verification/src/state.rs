//! The game-state machine and the tick driver: Start waits for the
//! confirm key, Playing runs the simulation pipeline each tick and raises
//! the game-over outcome when the last ball is lost, GameOver waits for
//! the restart key. Transition hooks spawn and destroy the entity sets.

use vstd::prelude::*;
use crate::geometry::{near_unit, Vec2i};
use crate::config::{Config, COLL_BOUND, MAX_DT, POS_BOUND, REST_BOUND, STEP_BOUND};
use crate::store::{
    count_kind, entities_wf, is_kind, lemma_count_bounds, lemma_count_eq_pointwise,
    lemma_count_exists, lemma_count_le_pointwise, lemma_positions_widen,
    positions_within, slot_pos_within, slot_wf, Entity, EntityData, EntityStore, Kind,
};
use crate::systems::{grid_brick, kind_index, lemma_collected_nonneg, paddle_x_max, paddle_x_min, slot_pos, the_paddle_pos};
use crate::store::Paddle;
use crate::systems::{
    ball_confined_view, ball_moved_view, bricks_overlap, count_resolved_to, paddle_bounce_view,
    paddle_confined_view, paddle_moved_view, power_up_fallen_view, pre_collision_view,
    reflected_view, total_brick_hp_to,
};
use crate::systems::{
    ball_confined_slot, ball_moved_slot, ball_movement, ball_paddle_collision,
    ball_brick_collision, brick_cols, brick_stage_slot_rel, cleanup_game_entities, collect_slot,
    confine_ball, confine_paddle, paddle_confined_slot, paddle_collect_power_up,
    paddle_bounce_slot, paddle_moved_slot, paddle_movement, power_up_fall, power_up_fallen_slot,
    reflected_slot, spawn_ball, spawn_bricks, spawn_paddle, spawned_ball_ok, spawned_power_up_ok,
    update_ball_direction,
    SoundLog,
};

verus! {

/// The lifecycle of a play session.
#[derive(Clone, Copy, PartialEq, Eq, Structural, Debug)]
pub enum GameState {
    Start,
    Playing,
    GameOver,
}

/// The one-shot outcome raised when the last ball is lost, carrying the
/// final score for the host to present.
#[derive(Clone, Copy, PartialEq, Eq, Structural, Debug)]
pub struct GameOver {
    pub score: u32,
}

/// The player's input this frame, as logical actions.
#[derive(Clone, Copy, PartialEq, Eq, Structural, Debug)]
pub struct InputFrame {
    pub left: bool,
    pub right: bool,
    pub confirm: bool,
    pub restart: bool,
    pub quit: bool,
}

/// The whole simulation: the entity store, the score, the state machine,
/// the pending outcome, and the per-tick effects for the host.
pub struct Sim {
    pub cfg: Config,
    pub store: EntityStore,
    pub score: u32,
    pub state: GameState,
    pub pending: Option<GameOver>,
    pub last_outcome: Option<GameOver>,
    pub sounds: SoundLog,
    pub reported_score: Option<u32>,
}

/// Every paddle rests well within the field's order of magnitude; only
/// its horizontal coordinate ever moves.
pub open spec fn paddles_within(s: Seq<Option<Entity>>) -> bool {
    forall|i: int|
        0 <= i < s.len() && is_kind(#[trigger] s[i], Kind::PaddleKind) ==> slot_pos_within(
            s[i],
            1_000_000,
        )
}

/// Where each kind of entity stands right after confinement and
/// reflection: balls and the paddle are confined to the field, bricks
/// have not moved, and power-ups rest within the store's resting bound.
pub open spec fn confined_slot_summary(s: Option<Entity>, cfg: Config) -> bool {
    match s {
        Some(e) => match e.data {
            EntityData::BallData(_) => crate::systems::ball_x_min(cfg) <= e.pos.x
                <= crate::systems::ball_x_max(cfg) && crate::systems::ball_y_min(cfg) <= e.pos.y
                <= crate::systems::ball_y_max(cfg),
            EntityData::PaddleData(_) => paddle_x_min(cfg) <= e.pos.x <= paddle_x_max(cfg)
                && -1_000_000 <= e.pos.y <= 1_000_000,
            _ => -REST_BOUND <= e.pos.x <= REST_BOUND && -REST_BOUND <= e.pos.y <= REST_BOUND,
        },
        None => true,
    }
}

/// The simulation stages' effect on the store, score and break sounds,
/// with the store after the brick pass made explicit: the deterministic
/// stages - movement, confinement, reflection and the paddle bounce - are
/// applied slot by slot; then a brick pass resolves every ball that
/// overlaps a live brick, removing one hit point per resolution and
/// scoring ten per destroyed brick; then a collection pass consumes the
/// power-ups on the paddle and launches a ball for each, yielding `done`.
pub open spec fn stages_rel(
    pre_store: Seq<Option<Entity>>,
    cfg: Config,
    pre_score: u32,
    done: Seq<Option<Entity>>,
    post_score: u32,
    post_breaks: u64,
    input: InputFrame,
    dt: int,
) -> bool {
    let mid = pre_collision_view(pre_store, cfg, input.left, input.right, dt);
    exists|coll: Seq<Option<Entity>>|
        #![trigger coll.len()]
        {
            &&& mid.len() <= coll.len()
            &&& (forall|i: int| 0 <= i < mid.len() ==> brick_stage_slot_rel(mid, coll, i, cfg))
            &&& (forall|i: int|
                mid.len() <= i < coll.len() ==> spawned_power_up_ok(mid, coll, i))
            &&& (forall|i: int, j: int|
                #![trigger mid[i], coll[j]]
                0 <= i < mid.len() && 0 <= j < mid.len() && is_kind(mid[i], Kind::BallKind)
                    && coll[i] == mid[i] && is_kind(coll[j], Kind::BrickKind) ==> !bricks_overlap(
                    slot_pos(mid[i]),
                    slot_pos(coll[j]),
                    cfg,
                ))
            &&& total_brick_hp_to(mid, mid.len() as int) - total_brick_hp_to(
                coll,
                mid.len() as int,
            ) == count_resolved_to(mid, coll, mid.len() as int)
            &&& 0 <= count_kind(coll, Kind::BrickKind) <= count_kind(mid, Kind::BrickKind)
            &&& post_score == pre_score + 10 * (count_kind(mid, Kind::BrickKind) - count_kind(
                coll,
                Kind::BrickKind,
            ))
            &&& post_breaks == count_kind(mid, Kind::BrickKind) - count_kind(
                coll,
                Kind::BrickKind,
            )
            &&& coll.len() <= done.len()
            &&& (forall|i: int|
                0 <= i < coll.len() ==> done[i] == collect_slot(coll[i], cfg, the_paddle_pos(coll)))
            &&& (forall|i: int|
                coll.len() <= i < done.len() ==> spawned_ball_ok(done, i, the_paddle_pos(coll)))
        }
}

/// One Playing tick's full effect: the simulation stages run as
/// `stages_rel` describes, and the outcome check then ends the session
/// exactly when no ball is left, carrying the final score; otherwise play
/// continues on the stages' result.
pub open spec fn playing_tick_rel(
    pre_store: Seq<Option<Entity>>,
    cfg: Config,
    pre_score: u32,
    post: Sim,
    input: InputFrame,
    dt: int,
) -> bool {
    exists|done: Seq<Option<Entity>>|
        #![trigger done.len()]
        {
            &&& stages_rel(pre_store, cfg, pre_score, done, post.score, post.sounds.breaks, input, dt)
            &&& (if count_kind(done, Kind::BallKind) == 0 {
                post.state is GameOver && post.store@.len() == 0 && post.last_outcome == Some(
                    GameOver { score: post.score },
                )
            } else {
                post.state is Playing && post.store@ == done
            })
        }
}

impl Sim {
    /// The simulation's invariant: the configuration is sane, balls carry
    /// near-unit directions, bricks have hit points left, positions rest
    /// within bounds, the store and score leave arithmetic headroom, and
    /// during play exactly one paddle and at least one ball live; outside
    /// play the store is empty, and on the start screen the score is zero.
    pub open spec fn wf(self) -> bool {
        &&& self.cfg.wf()
        &&& entities_wf(self.store@)
        &&& positions_within(self.store@, REST_BOUND as int)
        &&& paddles_within(self.store@)
        &&& self.store@.len() + 2 * count_kind(self.store@, Kind::BrickKind) + count_kind(
            self.store@,
            Kind::PowerUpKind,
        ) <= 100_000_000
        &&& self.score + 10 * count_kind(self.store@, Kind::BrickKind) <= 1_000_000_000
        &&& (self.state is Playing ==> count_kind(self.store@, Kind::PaddleKind) == 1
            && count_kind(self.store@, Kind::BallKind) >= 1)
        &&& (!(self.state is Playing) ==> self.store@.len() == 0)
        &&& (self.state is Start ==> self.score == 0)
        &&& self.pending is None
    }

    /// A fresh session on the start screen.
    pub fn new(cfg: Config) -> (s: Sim)
        requires
            cfg.wf(),
        ensures
            s.wf(),
            s.state is Start,
            s.score == 0,
            s.cfg == cfg,
            s.store@.len() == 0,
            s.pending is None,
            s.last_outcome is None,
    {
        Sim {
            cfg,
            store: EntityStore::new(),
            score: 0,
            state: GameState::Start,
            pending: None,
            last_outcome: None,
            sounds: SoundLog { impacts: 0, breaks: 0 },
            reported_score: None,
        }
    }

    /// The Playing enter hook: clean up whatever is left, then spawn the
    /// paddle, one ball, and the brick grid. Because it begins with the
    /// cleanup, entering play always yields exactly this set, never
    /// duplicates.
    fn enter_playing(&mut self)
        requires
            old(self).cfg.wf(),
            old(self).score == 0,
        ensures
            final(self).wf(),
            final(self).state is Playing,
            final(self).cfg == old(self).cfg,
            final(self).score == 0,
            final(self).pending is None,
            final(self).last_outcome == old(self).last_outcome,
            final(self).reported_score == old(self).reported_score,
            final(self).sounds == old(self).sounds,
            count_kind(final(self).store@, Kind::PaddleKind) == 1,
            count_kind(final(self).store@, Kind::BallKind) == 1,
            count_kind(final(self).store@, Kind::BrickKind) == 10 * brick_cols(old(self).cfg),
            count_kind(final(self).store@, Kind::PowerUpKind) == 0,
            final(self).store@.len() == 2 + 10 * brick_cols(old(self).cfg),
            final(self).store@[0] == Some(
                Entity {
                    pos: Vec2i { x: 0, y: (-(old(self).cfg.field_h / 2) + 50) as i64 },
                    data: EntityData::PaddleData(Paddle {}),
                },
            ),
            match final(self).store@[1] {
                Some(e) => e.pos == (Vec2i {
                    x: 0,
                    y: (-(old(self).cfg.field_h / 2) + 80) as i64,
                }) && match e.data {
                    EntityData::BallData(b) => near_unit(b.direction) && b.direction.y > 0
                        && b.direction.x >= 0,
                    _ => false,
                },
                None => false,
            },
            forall|r: int, c: int|
                0 <= r < 10 && 0 <= c < brick_cols(old(self).cfg) ==> final(self).store@[2 + r
                    * brick_cols(old(self).cfg) + c] == Some(#[trigger] grid_brick(old(self).cfg, r, c)),
    {
        cleanup_game_entities(&mut self.store);
        let ghost s_clean = self.store@;
        spawn_paddle(&mut self.store, &self.cfg);
        let ghost s_pad = self.store@;
        spawn_ball(&mut self.store, &self.cfg);
        let ghost s_ball = self.store@;
        spawn_bricks(&mut self.store, &self.cfg);
        self.state = GameState::Playing;
        self.pending = None;
        proof {
            assert(s_pad.len() == 1 && s_ball.len() == 2);
            // counts after the paddle
            crate::store::lemma_count_push(s_clean, Kind::PaddleKind, s_pad[0]);
            crate::store::lemma_count_push(s_clean, Kind::BallKind, s_pad[0]);
            crate::store::lemma_count_push(s_clean, Kind::BrickKind, s_pad[0]);
            crate::store::lemma_count_push(s_clean, Kind::PowerUpKind, s_pad[0]);
            // counts after the ball
            crate::store::lemma_count_agree(s_ball, s_pad, Kind::PaddleKind, 1);
            crate::store::lemma_count_agree(s_ball, s_pad, Kind::BallKind, 1);
            crate::store::lemma_count_agree(s_ball, s_pad, Kind::BrickKind, 1);
            crate::store::lemma_count_agree(s_ball, s_pad, Kind::PowerUpKind, 1);
            assert(is_kind(s_ball[1], Kind::BallKind));
            // counts after the grid: everything appended is a brick
            crate::store::lemma_count_agree(self.store@, s_ball, Kind::PaddleKind, 2);
            crate::store::lemma_count_agree(self.store@, s_ball, Kind::BallKind, 2);
            crate::store::lemma_count_agree(self.store@, s_ball, Kind::BrickKind, 2);
            crate::store::lemma_count_agree(self.store@, s_ball, Kind::PowerUpKind, 2);
            crate::store::lemma_count_all_kind(
                self.store@,
                Kind::BrickKind,
                2,
                self.store@.len() as int,
            );
            crate::store::lemma_count_skip_nonkind(
                self.store@,
                Kind::PaddleKind,
                2,
                self.store@.len() as int,
            );
            crate::store::lemma_count_skip_nonkind(
                self.store@,
                Kind::BallKind,
                2,
                self.store@.len() as int,
            );
            crate::store::lemma_count_skip_nonkind(
                self.store@,
                Kind::PowerUpKind,
                2,
                self.store@.len() as int,
            );
            assert(0 <= brick_cols(self.cfg) <= 1_000_000);
            // well-formedness and positions of the fresh set
            assert forall|i: int| 0 <= i < self.store@.len() implies slot_wf(
                #[trigger] self.store@[i],
            ) && slot_pos_within(self.store@[i], REST_BOUND as int) by {
                if i == 0 {
                    assert(self.store@[0] == s_ball[0] && s_ball[0] == s_pad[0]);
                } else if i == 1 {
                    assert(self.store@[1] == s_ball[1]);
                }
            }
            assert forall|i: int|
                0 <= i < self.store@.len() && is_kind(
                    #[trigger] self.store@[i],
                    Kind::PaddleKind,
                ) implies slot_pos_within(self.store@[i], 1_000_000) by {
                if i == 0 {
                    assert(self.store@[0] == s_pad[0]);
                } else if i == 1 {
                    assert(self.store@[1] == s_ball[1]);
                }
            }
        }
    }

    /// On the start screen, the confirm key dismisses the prompt (the
    /// host's concern) and starts play.
    pub fn start_game(&mut self, confirm: bool)
        requires
            old(self).wf(),
            old(self).state is Start,
        ensures
            final(self).wf(),
            final(self).cfg == old(self).cfg,
            !confirm ==> *final(self) == *old(self),
            confirm ==> final(self).state is Playing && final(self).score == 0 && count_kind(
                final(self).store@,
                Kind::PaddleKind,
            ) == 1 && count_kind(final(self).store@, Kind::BallKind) == 1 && count_kind(
                final(self).store@,
                Kind::BrickKind,
            ) == 10 * brick_cols(old(self).cfg) && count_kind(
                final(self).store@,
                Kind::PowerUpKind,
            ) == 0,
            confirm ==> final(self).store@.len() == 2 + 10 * brick_cols(old(self).cfg),
            confirm ==> final(self).store@[0] == Some(
                Entity {
                    pos: Vec2i { x: 0, y: (-(old(self).cfg.field_h / 2) + 50) as i64 },
                    data: EntityData::PaddleData(Paddle {}),
                },
            ),
            confirm ==> match final(self).store@[1] {
                Some(e) => e.pos == (Vec2i {
                    x: 0,
                    y: (-(old(self).cfg.field_h / 2) + 80) as i64,
                }) && match e.data {
                    EntityData::BallData(b) => near_unit(b.direction) && b.direction.y > 0
                        && b.direction.x >= 0,
                    _ => false,
                },
                None => false,
            },
            confirm ==> forall|r: int, c: int|
                0 <= r < 10 && 0 <= c < brick_cols(old(self).cfg) ==> final(self).store@[2 + r
                    * brick_cols(old(self).cfg) + c] == Some(#[trigger] grid_brick(old(self).cfg, r, c)),
    {
        if confirm {
            self.enter_playing();
        }
    }

    /// The outcome check that runs every Playing tick: when no ball is
    /// left, raise the game-over outcome carrying the current score.
    pub fn check_game_over(&mut self)
        ensures
            final(self).pending == (if count_kind(old(self).store@, Kind::BallKind) == 0 {
                Some(GameOver { score: old(self).score })
            } else {
                old(self).pending
            }),
            final(self).store@ == old(self).store@,
            final(self).score == old(self).score,
            final(self).state == old(self).state,
            final(self).cfg == old(self).cfg,
            final(self).last_outcome == old(self).last_outcome,
            final(self).sounds == old(self).sounds,
            final(self).reported_score == old(self).reported_score,
    {
        let balls = self.store.count(Kind::BallKind);
        if balls == 0 {
            self.pending = Some(GameOver { score: self.score });
        }
    }

    /// Consumes a pending game-over outcome: play ends, the Playing exit
    /// hook destroys every game entity, and the outcome is kept for the
    /// host's final-score screen.
    pub fn handle_game_over(&mut self)
        ensures
            old(self).pending is None ==> *final(self) == *old(self),
            old(self).pending is Some ==> final(self).state is GameOver && final(self).store@.len()
                == 0 && final(self).pending is None && final(self).last_outcome == old(self).pending && final(self).score == old(self).score && final(self).cfg == old(self).cfg
                && final(self).sounds == old(self).sounds && final(self).reported_score == old(self).reported_score,
    {
        let fire = match &self.pending {
            Some(_) => true,
            None => false,
        };
        if fire {
            self.last_outcome = self.pending;
            self.pending = None;
            self.state = GameState::GameOver;
            cleanup_game_entities(&mut self.store);
        }
    }

    /// On the game-over screen, the restart key dismisses it (the host's
    /// concern), resets the score to zero and starts play again.
    pub fn restart_game(&mut self, restart: bool)
        requires
            old(self).wf(),
            old(self).state is GameOver,
        ensures
            final(self).wf(),
            final(self).cfg == old(self).cfg,
            !restart ==> *final(self) == *old(self),
            restart ==> final(self).state is Playing && final(self).score == 0 && count_kind(
                final(self).store@,
                Kind::PaddleKind,
            ) == 1 && count_kind(final(self).store@, Kind::BallKind) == 1 && count_kind(
                final(self).store@,
                Kind::BrickKind,
            ) == 10 * brick_cols(old(self).cfg) && count_kind(
                final(self).store@,
                Kind::PowerUpKind,
            ) == 0,
            restart ==> final(self).store@.len() == 2 + 10 * brick_cols(old(self).cfg),
            restart ==> final(self).store@[0] == Some(
                Entity {
                    pos: Vec2i { x: 0, y: (-(old(self).cfg.field_h / 2) + 50) as i64 },
                    data: EntityData::PaddleData(Paddle {}),
                },
            ),
            restart ==> match final(self).store@[1] {
                Some(e) => e.pos == (Vec2i {
                    x: 0,
                    y: (-(old(self).cfg.field_h / 2) + 80) as i64,
                }) && match e.data {
                    EntityData::BallData(b) => near_unit(b.direction) && b.direction.y > 0
                        && b.direction.x >= 0,
                    _ => false,
                },
                None => false,
            },
            restart ==> forall|r: int, c: int|
                0 <= r < 10 && 0 <= c < brick_cols(old(self).cfg) ==> final(self).store@[2 + r
                    * brick_cols(old(self).cfg) + c] == Some(#[trigger] grid_brick(old(self).cfg, r, c)),
    {
        if restart {
            self.score = 0;
            self.enter_playing();
        }
    }

    /// Reports the score once per change: returns the score when it
    /// differs from the last reported one, for the host to present.
    pub fn update_score(&mut self) -> (r: Option<u32>)
        ensures
            r == (if old(self).reported_score != Some(old(self).score) {
                Some(old(self).score)
            } else {
                None::<u32>
            }),
            final(self).reported_score == Some(old(self).score),
            final(self).store@ == old(self).store@,
            final(self).score == old(self).score,
            final(self).state == old(self).state,
            final(self).cfg == old(self).cfg,
            final(self).pending == old(self).pending,
            final(self).last_outcome == old(self).last_outcome,
            final(self).sounds == old(self).sounds,
    {
        let changed = match &self.reported_score {
            Some(v) => *v != self.score,
            None => true,
        };
        self.reported_score = Some(self.score);
        if changed {
            Some(self.score)
        } else {
            None
        }
    }

    /// The deterministic phase of one tick: movement of the paddle, the
    /// balls and the power-ups, confinement of the paddle and the balls,
    /// and direction reflection, applied in order, slot by slot.
    #[verifier::rlimit(100)]
    fn run_movement_phase(&mut self, input: &InputFrame, dt_ms: i64)
        requires
            old(self).wf(),
            old(self).state is Playing,
            0 <= dt_ms <= MAX_DT,
        ensures
            final(self).store@ == reflected_view(
                ball_confined_view(
                    paddle_confined_view(
                        power_up_fallen_view(
                            ball_moved_view(
                                paddle_moved_view(
                                    old(self).store@,
                                    old(self).cfg,
                                    input.left,
                                    input.right,
                                    dt_ms as int,
                                ),
                                old(self).cfg,
                                dt_ms as int,
                            ),
                            old(self).cfg,
                            dt_ms as int,
                        ),
                        old(self).cfg,
                    ),
                    old(self).cfg,
                ),
                old(self).cfg,
            ),
            final(self).store@.len() == old(self).store@.len(),
            entities_wf(final(self).store@),
            forall|i: int|
                0 <= i < final(self).store@.len() ==> confined_slot_summary(
                    #[trigger] final(self).store@[i],
                    old(self).cfg,
                ),
            count_kind(final(self).store@, Kind::PaddleKind) == 1,
            count_kind(final(self).store@, Kind::BrickKind) == count_kind(
                old(self).store@,
                Kind::BrickKind,
            ),
            count_kind(final(self).store@, Kind::PowerUpKind) <= count_kind(
                old(self).store@,
                Kind::PowerUpKind,
            ),
            final(self).cfg == old(self).cfg,
            final(self).score == old(self).score,
            final(self).sounds == old(self).sounds,
            final(self).state == old(self).state,
            final(self).pending == old(self).pending,
            final(self).last_outcome == old(self).last_outcome,
            final(self).reported_score == old(self).reported_score,
    {
        let cfg = self.cfg;
        let ghost g0 = self.store@;
        proof {
            lemma_positions_widen(g0, REST_BOUND as int, POS_BOUND as int);
        }
        paddle_movement(&mut self.store, &cfg, input.left, input.right, dt_ms);
        let ghost g1 = self.store@;
        proof {
            assert(positions_within(g1, REST_BOUND + STEP_BOUND));
            lemma_positions_widen(g1, REST_BOUND + STEP_BOUND, POS_BOUND as int);
        }
        ball_movement(&mut self.store, &cfg, dt_ms);
        let ghost g2 = self.store@;
        proof {
            assert(positions_within(g2, REST_BOUND + STEP_BOUND + STEP_BOUND));
            lemma_positions_widen(g2, REST_BOUND + 2 * STEP_BOUND, POS_BOUND as int);
        }
        power_up_fall(&mut self.store, &cfg, dt_ms);
        let ghost g3 = self.store@;
        confine_paddle(&mut self.store, &cfg);
        let ghost g4 = self.store@;
        confine_ball(&mut self.store, &cfg);
        let ghost g5 = self.store@;
        update_ball_direction(&mut self.store, &cfg);
        let ghost g6 = self.store@;
        proof {
            // the six pointwise stages keep every slot's kind, except that
            // falling may despawn a power-up
            assert forall|q: int|
                0 <= q < g6.len() implies (is_kind(#[trigger] g0[q], Kind::PaddleKind) <==> is_kind(
                #[trigger] g6[q],
                Kind::PaddleKind,
            )) && (is_kind(g0[q], Kind::BrickKind) <==> is_kind(g6[q], Kind::BrickKind)) && (is_kind(
                g6[q],
                Kind::PowerUpKind,
            ) ==> is_kind(g0[q], Kind::PowerUpKind)) by {
                assert(g1[q] == paddle_moved_slot(g0[q], cfg, input.left, input.right, dt_ms as int));
                assert(g2[q] == ball_moved_slot(g1[q], cfg, dt_ms as int));
                assert(g3[q] == power_up_fallen_slot(g2[q], cfg, dt_ms as int));
                assert(g4[q] == paddle_confined_slot(g3[q], cfg));
                assert(g5[q] == ball_confined_slot(g4[q], cfg));
                assert(g6[q] == reflected_slot(g5[q], cfg));
            }
            lemma_count_eq_pointwise(g0, g6, Kind::PaddleKind, g6.len() as int);
            lemma_count_eq_pointwise(g0, g6, Kind::BrickKind, g6.len() as int);
            lemma_count_le_pointwise(g0, g6, Kind::PowerUpKind, g6.len() as int);
            // after confinement every kind rests where the summary says
            assert forall|q: int|
                0 <= q < g6.len() implies confined_slot_summary(#[trigger] g6[q], cfg) by {
                assert(g1[q] == paddle_moved_slot(g0[q], cfg, input.left, input.right, dt_ms as int));
                assert(g2[q] == ball_moved_slot(g1[q], cfg, dt_ms as int));
                assert(g3[q] == power_up_fallen_slot(g2[q], cfg, dt_ms as int));
                assert(g4[q] == paddle_confined_slot(g3[q], cfg));
                assert(g5[q] == ball_confined_slot(g4[q], cfg));
                assert(g6[q] == reflected_slot(g5[q], cfg));
                assert(slot_pos_within(g0[q], REST_BOUND as int));
                assert(is_kind(g0[q], Kind::PaddleKind) ==> slot_pos_within(g0[q], 1_000_000));
            }
            // the result is the composed stage view
            let m1 = paddle_moved_view(g0, cfg, input.left, input.right, dt_ms as int);
            assert(g1 =~= m1) by {
                assert forall|i: int| 0 <= i < g0.len() implies g1[i] == m1[i] by {
                    assert(g1[i] == paddle_moved_slot(g0[i], cfg, input.left, input.right, dt_ms as int));
                }
            }
            let m2 = ball_moved_view(m1, cfg, dt_ms as int);
            assert(g2 =~= m2) by {
                assert forall|i: int| 0 <= i < g0.len() implies g2[i] == m2[i] by {
                    assert(g2[i] == ball_moved_slot(g1[i], cfg, dt_ms as int));
                }
            }
            let m3 = power_up_fallen_view(m2, cfg, dt_ms as int);
            assert(g3 =~= m3) by {
                assert forall|i: int| 0 <= i < g0.len() implies g3[i] == m3[i] by {
                    assert(g3[i] == power_up_fallen_slot(g2[i], cfg, dt_ms as int));
                }
            }
            let m4 = paddle_confined_view(m3, cfg);
            assert(g4 =~= m4) by {
                assert forall|i: int| 0 <= i < g0.len() implies g4[i] == m4[i] by {
                    assert(g4[i] == paddle_confined_slot(g3[i], cfg));
                }
            }
            let m5 = ball_confined_view(m4, cfg);
            assert(g5 =~= m5) by {
                assert forall|i: int| 0 <= i < g0.len() implies g5[i] == m5[i] by {
                    assert(g5[i] == ball_confined_slot(g4[i], cfg));
                }
            }
            let m6 = reflected_view(m5, cfg);
            assert(g6 =~= m6) by {
                assert forall|i: int| 0 <= i < g0.len() implies g6[i] == m6[i] by {
                    assert(g6[i] == reflected_slot(g5[i], cfg));
                }
            }
        }
    }

    /// The simulation stages of one Playing tick, in the fixed order:
    /// movement, then confinement, then direction reflection, then the
    /// three collision passes. This tick's sounds replace the previous
    /// tick's; the outcome check follows in the tick driver.
    #[verifier::rlimit(100)]
    fn playing_stages(&mut self, input: &InputFrame, dt_ms: i64)
        requires
            old(self).wf(),
            old(self).state is Playing,
            0 <= dt_ms <= MAX_DT,
        ensures
            final(self).cfg == old(self).cfg,
            final(self).state == old(self).state,
            final(self).pending == old(self).pending,
            final(self).last_outcome == old(self).last_outcome,
            final(self).reported_score == old(self).reported_score,
            old(self).score <= final(self).score,
            (final(self).score - old(self).score) % 10 == 0,
            entities_wf(final(self).store@),
            positions_within(final(self).store@, REST_BOUND as int),
            paddles_within(final(self).store@),
            count_kind(final(self).store@, Kind::PaddleKind) == 1,
            final(self).store@.len() + 2 * count_kind(final(self).store@, Kind::BrickKind)
                + count_kind(final(self).store@, Kind::PowerUpKind) <= 100_000_000,
            final(self).score + 10 * count_kind(final(self).store@, Kind::BrickKind)
                <= 1_000_000_000,
            forall|i: int|
                0 <= i < final(self).store@.len() && is_kind(
                    #[trigger] final(self).store@[i],
                    Kind::PaddleKind,
                ) ==> paddle_x_min(old(self).cfg) <= slot_pos(final(self).store@[i]).x
                    <= paddle_x_max(old(self).cfg),
            stages_rel(
                old(self).store@,
                old(self).cfg,
                old(self).score,
                final(self).store@,
                final(self).score,
                final(self).sounds.breaks,
                *input,
                dt_ms as int,
            ),
    {
        self.sounds = SoundLog { impacts: 0, breaks: 0 };
        let cfg = self.cfg;
        let ghost sc0 = self.score;
        let ghost g0 = self.store@;
        self.run_movement_phase(input, dt_ms);
        let ghost g6 = self.store@;
        proof {
            assert forall|q: int|
                0 <= q < g6.len() implies slot_pos_within(#[trigger] g6[q], REST_BOUND as int) by {
                assert(confined_slot_summary(g6[q], cfg));
            }
            lemma_positions_widen(g6, REST_BOUND as int, COLL_BOUND as int);
            lemma_count_bounds(g0, Kind::BrickKind, g0.len() as int);
            lemma_count_bounds(g0, Kind::PowerUpKind, g0.len() as int);
            assert(g6.len() <= 100_000_000);
        }
        ball_paddle_collision(&mut self.store, &cfg, &mut self.sounds);
        let ghost g7 = self.store@;
        proof {
            // the paddle bounce keeps every slot's kind
            assert forall|q: int|
                0 <= q < g7.len() implies (is_kind(#[trigger] g6[q], Kind::PaddleKind) <==> is_kind(
                #[trigger] g7[q],
                Kind::PaddleKind,
            )) && (is_kind(g6[q], Kind::BrickKind) <==> is_kind(g7[q], Kind::BrickKind)) && (is_kind(
                g6[q],
                Kind::PowerUpKind,
            ) <==> is_kind(g7[q], Kind::PowerUpKind)) by {
                assert(g7[q] == paddle_bounce_slot(g6[q], cfg, the_paddle_pos(g6)));
            }
            lemma_count_eq_pointwise(g6, g7, Kind::PaddleKind, g7.len() as int);
            lemma_count_eq_pointwise(g6, g7, Kind::BrickKind, g7.len() as int);
            lemma_count_eq_pointwise(g6, g7, Kind::PowerUpKind, g7.len() as int);
            // the bounce result is the composed pre-collision view
            assert(g7 =~= paddle_bounce_view(g6, cfg)) by {
                assert forall|i: int|
                    0 <= i < g6.len() implies g7[i] == paddle_bounce_view(g6, cfg)[i] by {
                    assert(g7[i] == paddle_bounce_slot(g6[i], cfg, the_paddle_pos(g6)));
                }
            }
            assert(g7 == pre_collision_view(g0, cfg, input.left, input.right, dt_ms as int));
            assert(positions_within(g7, REST_BOUND + 2_000_000));
            lemma_positions_widen(g7, REST_BOUND + 2_000_000, COLL_BOUND as int);
        }
        ball_brick_collision(&mut self.store, &cfg, &mut self.score, &mut self.sounds);
        let ghost g8 = self.store@;
        proof {
            assert(positions_within(g8, REST_BOUND + 4_000_000));
            lemma_positions_widen(g8, REST_BOUND + 4_000_000, COLL_BOUND as int);
            lemma_count_bounds(g8, Kind::BrickKind, g8.len() as int);
            assert(g8.len() <= 1_000_000_000);
        }
        paddle_collect_power_up(&mut self.store, &cfg);
        let ghost g9 = self.store@;
        proof {
            // the paddle that anchors the collected balls is the one the
            // summary bounds
            let pk = kind_index(g8, Kind::PaddleKind);
            assert(count_kind(g8, Kind::PaddleKind) == 1);
            lemma_count_exists(g8, Kind::PaddleKind, g8.len() as int);
            assert(0 <= pk < g8.len() && is_kind(g8[pk], Kind::PaddleKind));
            if pk >= g7.len() {
                assert(spawned_power_up_ok(g7, g8, pk));
                let jw = choose|j: int|
                    0 <= j < g7.len() && is_kind(#[trigger] g7[j], Kind::BrickKind) && g8[j]
                        is None && g8[pk] == Some(
                        Entity {
                            pos: slot_pos(g7[j]),
                            data: EntityData::PowerUpData(crate::store::PowerUp {}),
                        },
                    );
                assert(false);
            }
            assert(brick_stage_slot_rel(g7, g8, pk, cfg));
            assert(g8[pk] == g7[pk]);
            assert(g7[pk] == paddle_bounce_slot(g6[pk], cfg, the_paddle_pos(g6)));
            assert(confined_slot_summary(g6[pk], cfg));
            assert(slot_pos_within(g8[pk], 1_000_000));
            let p8 = the_paddle_pos(g8);
            assert(-1_000_000 <= p8.x <= 1_000_000 && -1_000_000 <= p8.y <= 1_000_000);
            // every slot rests within bounds again, and every paddle ends
            // the tick confined
            assert forall|i: int|
                0 <= i < g9.len() implies slot_pos_within(#[trigger] g9[i], REST_BOUND as int) && (
            is_kind(g9[i], Kind::PaddleKind) ==> slot_pos_within(g9[i], 1_000_000) && paddle_x_min(
                cfg,
            ) <= slot_pos(g9[i]).x <= paddle_x_max(cfg)) by {
                if i < g8.len() {
                    assert(g9[i] == collect_slot(g8[i], cfg, the_paddle_pos(g8)));
                    if i < g7.len() {
                        assert(brick_stage_slot_rel(g7, g8, i, cfg));
                        assert(g7[i] == paddle_bounce_slot(g6[i], cfg, the_paddle_pos(g6)));
                        assert(confined_slot_summary(g6[i], cfg));
                    } else {
                        assert(spawned_power_up_ok(g7, g8, i));
                        let jw = choose|j: int|
                            0 <= j < g7.len() && is_kind(#[trigger] g7[j], Kind::BrickKind)
                                && g8[j] is None && g8[i] == Some(
                                Entity {
                                    pos: slot_pos(g7[j]),
                                    data: EntityData::PowerUpData(crate::store::PowerUp {}),
                                },
                            );
                        assert(g7[jw] == paddle_bounce_slot(g6[jw], cfg, the_paddle_pos(g6)));
                        assert(confined_slot_summary(g6[jw], cfg));
                    }
                } else {
                    assert(spawned_ball_ok(g9, i, the_paddle_pos(g8)));
                }
            }
            assert(positions_within(g9, REST_BOUND as int));
            assert(paddles_within(g9));
            // the stages' whole effect, witnessed by the post-brick store
            let mid = pre_collision_view(g0, cfg, input.left, input.right, dt_ms as int);
            assert(mid == g7);
            assert(mid.len() <= g8.len());
            assert(total_brick_hp_to(g7, g7.len() as int) - total_brick_hp_to(
                g8,
                g7.len() as int,
            ) == count_resolved_to(g7, g8, g7.len() as int));
            assert(self.score == sc0 + 10 * (count_kind(g7, Kind::BrickKind) - count_kind(
                g8,
                Kind::BrickKind,
            )));
            assert(self.sounds.breaks == count_kind(g7, Kind::BrickKind) - count_kind(
                g8,
                Kind::BrickKind,
            ));
            assert forall|i: int|
                0 <= i < mid.len() implies brick_stage_slot_rel(mid, g8, i, cfg) by {
                assert(brick_stage_slot_rel(g7, g8, i, cfg));
            }
            assert forall|i: int|
                mid.len() <= i < g8.len() implies spawned_power_up_ok(mid, g8, i) by {
                assert(spawned_power_up_ok(g7, g8, i));
            }
            assert forall|i: int, j: int|
                #![trigger mid[i], g8[j]]
                0 <= i < mid.len() && 0 <= j < mid.len() && is_kind(mid[i], Kind::BallKind)
                    && g8[i] == mid[i] && is_kind(g8[j], Kind::BrickKind) implies !bricks_overlap(
                slot_pos(mid[i]),
                slot_pos(g8[j]),
                cfg,
            ) by {
                assert(g7[i] == mid[i] && g7[j] == mid[j]);
            }
            assert(total_brick_hp_to(mid, mid.len() as int) - total_brick_hp_to(
                g8,
                mid.len() as int,
            ) == count_resolved_to(mid, g8, mid.len() as int));
            assert(0 <= count_kind(g8, Kind::BrickKind) <= count_kind(mid, Kind::BrickKind));
            assert(self.score == sc0 + 10 * (count_kind(mid, Kind::BrickKind) - count_kind(
                g8,
                Kind::BrickKind,
            )));
            assert(self.sounds.breaks == count_kind(mid, Kind::BrickKind) - count_kind(
                g8,
                Kind::BrickKind,
            ));
            lemma_collected_nonneg(g8, cfg, the_paddle_pos(g8), g8.len() as int);
            assert(g8.len() <= g9.len());
            assert(stages_rel(g0, cfg, sc0, g9, self.score, self.sounds.breaks, *input, dt_ms as int)) by {
                assert(g8.len() >= 0);
            }
        }
    }

    /// One full Playing tick: the simulation stages, then the outcome
    /// check. The score never decreases and moves in steps of ten; the
    /// tick either stays in play with at least one ball, or ends the
    /// session with the outcome carrying the final score; and the paddle
    /// ends every tick within the horizontal field bounds.
    fn playing_tick(&mut self, input: &InputFrame, dt_ms: i64)
        requires
            old(self).wf(),
            old(self).state is Playing,
            0 <= dt_ms <= MAX_DT,
        ensures
            final(self).wf(),
            final(self).cfg == old(self).cfg,
            old(self).score <= final(self).score,
            (final(self).score - old(self).score) % 10 == 0,
            final(self).state is Playing || (final(self).state is GameOver && final(self).last_outcome == Some(GameOver { score: final(self).score }) && final(self).store@.len() == 0),
            final(self).state is Playing ==> forall|i: int|
                0 <= i < final(self).store@.len() && is_kind(
                    #[trigger] final(self).store@[i],
                    Kind::PaddleKind,
                ) ==> paddle_x_min(old(self).cfg) <= slot_pos(final(self).store@[i]).x
                    <= paddle_x_max(old(self).cfg),
            playing_tick_rel(
                old(self).store@,
                old(self).cfg,
                old(self).score,
                *final(self),
                *input,
                dt_ms as int,
            ),
    {
        self.playing_stages(input, dt_ms);
        let ghost done = self.store@;
        self.check_game_over();
        self.handle_game_over();
        proof {
            lemma_count_bounds(done, Kind::BallKind, done.len() as int);
            lemma_count_bounds(done, Kind::BrickKind, done.len() as int);
            lemma_count_bounds(done, Kind::PowerUpKind, done.len() as int);
            if count_kind(done, Kind::BallKind) == 0 {
                assert(self.state is GameOver && self.store@.len() == 0 && self.last_outcome
                    == Some(GameOver { score: self.score }));
                assert(entities_wf(self.store@));
                assert(positions_within(self.store@, REST_BOUND as int));
                assert(paddles_within(self.store@));
                assert(count_kind(self.store@, Kind::BrickKind) == 0);
                assert(count_kind(self.store@, Kind::PowerUpKind) == 0);
            } else {
                assert(self.state is Playing && self.store@ == done);
            }
            assert(self.pending is None);
            assert(self.cfg.wf());
            assert(entities_wf(self.store@));
            assert(positions_within(self.store@, REST_BOUND as int));
            assert(paddles_within(self.store@));
            assert(self.store@.len() + 2 * count_kind(self.store@, Kind::BrickKind) + count_kind(
                self.store@,
                Kind::PowerUpKind,
            ) <= 100_000_000);
            assert(self.score + 10 * count_kind(self.store@, Kind::BrickKind) <= 1_000_000_000);
            assert(self.state is Playing ==> count_kind(self.store@, Kind::PaddleKind) == 1
                && count_kind(self.store@, Kind::BallKind) >= 1);
            assert(!(self.state is Playing) ==> self.store@.len() == 0);
            assert(self.state is Start ==> self.score == 0);
            assert(self.wf());
            assert(playing_tick_rel(
                old(self).store@,
                old(self).cfg,
                old(self).score,
                *self,
                *input,
                dt_ms as int,
            )) by {
                assert(done.len() >= 0);
            }
        }
    }

    /// Advances the whole game by one frame: the quit action ends the
    /// process at once; otherwise the current state handles its input, and
    /// during play the full simulation pipeline runs. After every frame
    /// each ball's direction is still near-unit and each brick still has a
    /// hit point left, whatever the inputs were.
    pub fn step(&mut self, input: &InputFrame, dt_ms: i64) -> (exit: bool)
        requires
            old(self).wf(),
            0 <= dt_ms <= MAX_DT,
        ensures
            final(self).wf(),
            entities_wf(final(self).store@),
            exit == input.quit,
            input.quit ==> *final(self) == *old(self),
            final(self).cfg == old(self).cfg,
            !input.quit && old(self).state is Start && !input.confirm ==> final(self).state
                is Start && final(self).score == 0,
            !input.quit && old(self).state is Start && input.confirm ==> final(self).state
                is Playing && final(self).score == 0,
            !input.quit && old(self).state is GameOver && !input.restart ==> final(self).state
                is GameOver && final(self).score == old(self).score,
            !input.quit && old(self).state is GameOver && input.restart ==> final(self).state
                is Playing && final(self).score == 0 && count_kind(
                final(self).store@,
                Kind::PaddleKind,
            ) == 1 && count_kind(final(self).store@, Kind::BallKind) == 1 && count_kind(
                final(self).store@,
                Kind::BrickKind,
            ) == 10 * brick_cols(old(self).cfg) && count_kind(
                final(self).store@,
                Kind::PowerUpKind,
            ) == 0,
            !input.quit && old(self).state is Playing ==> old(self).score <= final(self).score && (
            final(self).score - old(self).score) % 10 == 0,
            !input.quit && old(self).state is Playing ==> (final(self).state is Playing || (final(self).state is GameOver && final(self).last_outcome == Some(
                GameOver { score: final(self).score },
            ) && final(self).store@.len() == 0)),
            !input.quit && old(self).state is Playing && final(self).state is Playing
                ==> forall|i: int|
                0 <= i < final(self).store@.len() && is_kind(
                    #[trigger] final(self).store@[i],
                    Kind::PaddleKind,
                ) ==> paddle_x_min(old(self).cfg) <= slot_pos(final(self).store@[i]).x
                    <= paddle_x_max(old(self).cfg),
            !input.quit && old(self).state is Playing ==> playing_tick_rel(
                old(self).store@,
                old(self).cfg,
                old(self).score,
                *final(self),
                *input,
                dt_ms as int,
            ),
    {
        if input.quit {
            return true;
        }
        let is_start = match self.state {
            GameState::Start => true,
            _ => false,
        };
        let is_playing = match self.state {
            GameState::Playing => true,
            _ => false,
        };
        if is_start {
            self.start_game(input.confirm);
        } else if is_playing {
            self.playing_tick(input, dt_ms);
        } else {
            self.restart_game(input.restart);
        }
        false
    }
}

} // verus!
