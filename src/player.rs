//! The player and the frame driver: one ray per screen column.
//!
//! Angles are integers in units of `1 / ANGLE_TURN` of a full turn, always
//! kept in `[0, ANGLE_TURN)`.
use crate::arith::floor_mod;
use crate::caster::{cast_model, cast_ray};
use crate::grid::{Direction, GridMap, Point};
use crate::projector::{is_projection, project, Strip, MAX_SCREEN, MAX_VISIBILITY};
use vstd::prelude::*;

verus! {

/// Angle units in a full turn.
pub const ANGLE_TURN: u64 = 65536;

/// The fixed parameters of a rendered view.
#[derive(Clone, Copy, Debug, PartialEq, Eq, Structural)]
pub struct ViewConfig {
    /// Screen width, in pixels: the number of columns.
    pub screen_width: u64,
    /// Screen height, in pixels.
    pub screen_height: u64,
    /// Field of view, in angle units.
    pub fov: u64,
    /// Distance, in world units, at which walls fade to black.
    pub visibility: u64,
}

impl ViewConfig {
    pub open spec fn wf(self) -> bool {
        &&& 1 <= self.screen_width <= MAX_SCREEN
        &&& 1 <= self.screen_height <= MAX_SCREEN
        &&& self.fov < ANGLE_TURN
        &&& 1 <= self.visibility <= MAX_VISIBILITY
    }
}

/// The viewer: a position in the world and a heading.
#[derive(Clone, Copy, Debug, PartialEq, Eq, Structural)]
pub struct Player {
    pub pos: Point,
    pub angle: u64,
}

/// An angle wrapped into `[0, ANGLE_TURN)`.
pub open spec fn wrap(a: int) -> int {
    a % (ANGLE_TURN as int)
}

/// The view angle of screen `column`: the heading minus half the field of
/// view, plus `column` steps of `fov / screen_width`, wrapped.
pub open spec fn column_angle_of(angle: int, column: int, view: ViewConfig) -> int {
    wrap(angle - view.fov / 2 + (column * view.fov) / (view.screen_width as int))
}

/// Wraps an angle into `[0, ANGLE_TURN)`.
pub fn normalize_angle(a: i64) -> (r: u64)
    ensures
        r == wrap(a as int),
        r < ANGLE_TURN,
{
    floor_mod(a, ANGLE_TURN as i64) as u64
}

impl Player {
    pub open spec fn wf(self) -> bool {
        self.pos.bounded() && self.angle < ANGLE_TURN
    }

    /// Turns the heading by `delta` angle units, wrapping.
    pub fn turn(&mut self, delta: i64)
        requires
            old(self).angle < ANGLE_TURN,
        ensures
            final(self).angle == wrap(old(self).angle + delta),
            final(self).pos == old(self).pos,
    {
        let d = normalize_angle(delta);
        proof {
            vstd::arithmetic::div_mod::lemma_add_mod_noop_right(
                self.angle as int,
                delta as int,
                ANGLE_TURN as int,
            );
        }
        self.angle = (self.angle + d) % ANGLE_TURN;
    }

    /// The view angle of screen `column`.
    pub fn column_angle(&self, column: u64, view: &ViewConfig) -> (r: u64)
        requires
            self.angle < ANGLE_TURN,
            view.wf(),
            column < view.screen_width,
        ensures
            r == column_angle_of(self.angle as int, column as int, *view),
            r < ANGLE_TURN,
    {
        assert(column * view.fov <= MAX_SCREEN * ANGLE_TURN) by (nonlinear_arith)
            requires
                column <= MAX_SCREEN,
                view.fov < ANGLE_TURN,
        ;
        let step = (column * view.fov) / view.screen_width;
        assert(step <= column * view.fov) by (nonlinear_arith)
            requires
                step == (column * view.fov) / (view.screen_width as int),
                view.screen_width >= 1,
        ;
        let raw = self.angle + ANGLE_TURN - view.fov / 2 + step;
        proof {
            vstd::arithmetic::div_mod::lemma_mod_add_multiples_vanish(
                self.angle - view.fov / 2 + step,
                ANGLE_TURN as int,
            );
        }
        raw % ANGLE_TURN
    }

    /// Renders one frame: one strip per screen column. `dirs[i]` is the
    /// direction of the view angle of column `i`; its ray is cast from the
    /// player's position and projected.
    pub fn cast(&self, map: &GridMap, view: &ViewConfig, dirs: &Vec<Direction>) -> (r: Vec<Strip>)
        requires
            map@.wf(),
            self.pos.bounded(),
            view.wf(),
            dirs@.len() == view.screen_width,
            forall|i: int| 0 <= i < dirs@.len() ==> (#[trigger] dirs@[i]).valid(),
        ensures
            r@.len() == dirs@.len(),
            forall|i: int|
                0 <= i < dirs@.len() ==> is_projection(
                    map@.tile,
                    cast_model(map@, self.pos, dirs@[i]),
                    dirs@[i],
                    i,
                    view.screen_height as int,
                    view.visibility as int,
                    #[trigger] r@[i],
                ),
    {
        let mut strips: Vec<Strip> = Vec::new();
        let mut i: usize = 0;
        while i < dirs.len()
            invariant
                map@.wf(),
                self.pos.bounded(),
                view.wf(),
                forall|j: int| 0 <= j < dirs@.len() ==> (#[trigger] dirs@[j]).valid(),
                i <= dirs@.len(),
                strips@.len() == i,
                forall|j: int|
                    0 <= j < i ==> is_projection(
                        map@.tile,
                        cast_model(map@, self.pos, dirs@[j]),
                        dirs@[j],
                        j,
                        view.screen_height as int,
                        view.visibility as int,
                        #[trigger] strips@[j],
                    ),
            decreases dirs@.len() - i,
        {
            let d = dirs[i];
            let hit = cast_ray(map, self.pos, d);
            let strip = project(
                map.tile(),
                &hit,
                d,
                i as u64,
                view.screen_height,
                view.visibility,
            );
            strips.push(strip);
            i = i + 1;
        }
        strips
    }
}

} // verus!
