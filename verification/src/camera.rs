//! The camera: the pose that turns a screen point into a ray of the world,
//! and the rig that scrolls, zooms and restrains it.
//!
//! The screen's x axis points right and its y axis points up, both in pixels
//! from the viewport's lower left corner.

use vstd::prelude::*;
use crate::geometry::{clamp_coord, lemma_product_bound, saturate, Point2, Point3, Ray, Size2};

verus! {

/// The lowest height the rig lets the camera have.
pub const CAMERA_MIN_HEIGHT: i32 = 3_000;

/// The greatest height the rig lets the camera have.
pub const CAMERA_MAX_HEIGHT: i32 = 16_000;

/// How far the camera scrolls per millisecond while the pointer rests on an
/// edge of the viewport.
pub const CAMERA_MOVE_SPEED: i64 = 50;

/// How far the camera rises or sinks per millisecond and wheel notch.
pub const ZOOM_SPEED: i64 = 10;

/// A snapshot of the camera: where it stands, its three axes (all scaled by
/// one common factor) and `focal`, the distance of the image plane from the
/// eye in half pixels. The ray through the screen point `(cx, cy)` of a
/// viewport `w` by `h` leaves `position` along
/// `forward * focal + right * (2 cx - w) + up * (2 cy - h)`.
#[derive(Clone, Copy, Debug, PartialEq, Eq, Structural)]
pub struct CameraPose {
    pub position: Point3,
    pub right: Point3,
    pub up: Point3,
    pub forward: Point3,
    pub focal: i32,
}

/// A viewport that can be looked through: both sides are positive.
pub open spec fn viewport_usable(viewport: Size2) -> bool {
    &&& 0 < viewport.width
    &&& 0 < viewport.height
}

/// The screen point lies in the viewport, edges included.
pub open spec fn in_viewport(viewport: Size2, cursor: Point2) -> bool {
    &&& 0 <= cursor.x <= viewport.width
    &&& 0 <= cursor.y <= viewport.height
}

/// One component of the direction of the ray through a screen point.
pub open spec fn ray_component(
    forward: int,
    right: int,
    up: int,
    focal: int,
    across: int,
    above: int,
) -> int {
    forward * focal + right * across + up * above
}

/// The number is one that a coordinate can hold.
pub open spec fn fits_coord(v: int) -> bool {
    i32::MIN <= v <= i32::MAX
}

fn component(forward: i32, right: i32, up: i32, focal: i32, across: i64, above: i64) -> (r: i128)
    requires
        -0x8000_0000 <= across <= 0x8000_0000,
        -0x8000_0000 <= above <= 0x8000_0000,
    ensures
        r == ray_component(
            forward as int,
            right as int,
            up as int,
            focal as int,
            across as int,
            above as int,
        ),
{
    proof {
        lemma_product_bound(forward as int, focal as int, 0x8000_0000, 0x8000_0000);
        lemma_product_bound(right as int, across as int, 0x8000_0000, 0x8000_0000);
        lemma_product_bound(up as int, above as int, 0x8000_0000, 0x8000_0000);
    }
    (forward as i128) * (focal as i128) + (right as i128) * (across as i128) + (up as i128) * (
    above as i128)
}

fn fits(v: i128) -> (r: bool)
    ensures
        r == fits_coord(v as int),
{
    i32::MIN as i128 <= v && v <= i32::MAX as i128
}

impl CameraPose {
    /// The direction of the ray through a screen point, along x.
    pub open spec fn through_x(&self, viewport: Size2, cursor: Point2) -> int {
        ray_component(
            self.forward.x as int,
            self.right.x as int,
            self.up.x as int,
            self.focal as int,
            2 * cursor.x - viewport.width,
            2 * cursor.y - viewport.height,
        )
    }

    /// The direction of the ray through a screen point, along y.
    pub open spec fn through_y(&self, viewport: Size2, cursor: Point2) -> int {
        ray_component(
            self.forward.y as int,
            self.right.y as int,
            self.up.y as int,
            self.focal as int,
            2 * cursor.x - viewport.width,
            2 * cursor.y - viewport.height,
        )
    }

    /// The direction of the ray through a screen point, along z.
    pub open spec fn through_z(&self, viewport: Size2, cursor: Point2) -> int {
        ray_component(
            self.forward.z as int,
            self.right.z as int,
            self.up.z as int,
            self.focal as int,
            2 * cursor.x - viewport.width,
            2 * cursor.y - viewport.height,
        )
    }

    /// The pose shows a ray through the screen point: the image plane lies
    /// before the eye, the viewport is usable and holds the point, and the
    /// ray's direction is one that a ray can hold.
    pub open spec fn shows(&self, viewport: Size2, cursor: Point2) -> bool {
        &&& 0 < self.focal
        &&& viewport_usable(viewport)
        &&& in_viewport(viewport, cursor)
        &&& fits_coord(self.through_x(viewport, cursor))
        &&& fits_coord(self.through_y(viewport, cursor))
        &&& fits_coord(self.through_z(viewport, cursor))
    }

    /// The ray through a screen point that the pose shows.
    pub open spec fn ray_through(&self, viewport: Size2, cursor: Point2) -> Ray {
        Ray {
            origin: self.position,
            direction: Point3 {
                x: self.through_x(viewport, cursor) as i32,
                y: self.through_y(viewport, cursor) as i32,
                z: self.through_z(viewport, cursor) as i32,
            },
        }
    }

    /// The pointer's ray, where there is one: the pointer is in the window, at
    /// a screen point that the pose shows a ray through.
    pub open spec fn pointer_ray(&self, viewport: Size2, cursor: Option<Point2>) -> Option<Ray> {
        match cursor {
            Some(c) => if self.shows(viewport, c) {
                Some(self.ray_through(viewport, c))
            } else {
                None
            },
            None => None,
        }
    }

    /// Turns a screen point into the ray of the world that it shows.
    pub fn viewport_to_world(&self, viewport: Size2, cursor: Option<Point2>) -> (r: Option<Ray>)
        ensures
            r == self.pointer_ray(viewport, cursor),
    {
        let c = match cursor {
            Some(c) => c,
            None => {
                return None;
            },
        };
        if self.focal <= 0 || viewport.width <= 0 || viewport.height <= 0 {
            return None;
        }
        if !(0 <= c.x && c.x <= viewport.width && 0 <= c.y && c.y <= viewport.height) {
            return None;
        }
        let across: i64 = 2 * (c.x as i64) - viewport.width as i64;
        let above: i64 = 2 * (c.y as i64) - viewport.height as i64;
        let x: i128 = component(
            self.forward.x,
            self.right.x,
            self.up.x,
            self.focal,
            across,
            above,
        );
        let y: i128 = component(
            self.forward.y,
            self.right.y,
            self.up.y,
            self.focal,
            across,
            above,
        );
        let z: i128 = component(
            self.forward.z,
            self.right.z,
            self.up.z,
            self.focal,
            across,
            above,
        );
        if !(fits(x) && fits(y) && fits(z)) {
            return None;
        }
        Some(Ray { origin: self.position, direction: Point3 { x: x as i32, y: y as i32, z: z as i32 } })
    }
}

/// Where edge scrolling for `elapsed_ms` milliseconds takes one coordinate:
/// forward while `ahead` holds, backward while `behind` holds.
pub open spec fn scrolled(v: int, ahead: bool, behind: bool, elapsed_ms: int) -> int {
    let a = if ahead {
        clamp_coord(v + CAMERA_MOVE_SPEED * elapsed_ms)
    } else {
        v
    };
    if behind {
        clamp_coord(a - CAMERA_MOVE_SPEED * elapsed_ms)
    } else {
        a
    }
}

fn scroll(v: i32, ahead: bool, behind: bool, elapsed_ms: u32) -> (r: i32)
    ensures
        r == scrolled(v as int, ahead, behind, elapsed_ms as int),
{
    let step: i64 = CAMERA_MOVE_SPEED * (elapsed_ms as i64);
    let a: i32 = if ahead {
        saturate(v as i64 + step)
    } else {
        v
    };
    if behind {
        saturate(a as i64 - step)
    } else {
        a
    }
}

/// Scrolls the camera while the pointer rests on an edge of the viewport:
/// along x at the right and left edges, against z at the top edge and along
/// z at the bottom edge. An edge is the outermost pixel. With the pointer
/// outside the window nothing moves.
pub fn move_camera(
    camera: &mut CameraPose,
    cursor: Option<Point2>,
    viewport: Size2,
    elapsed_ms: u32,
)
    ensures
        cursor is None ==> *final(camera) == *old(camera),
        cursor matches Some(c) ==> *final(camera) == (CameraPose {
            position: Point3 {
                x: scrolled(
                    old(camera).position.x as int,
                    c.x >= viewport.width - 1,
                    c.x <= 1,
                    elapsed_ms as int,
                ) as i32,
                y: old(camera).position.y,
                z: scrolled(
                    old(camera).position.z as int,
                    c.y <= 1,
                    c.y >= viewport.height - 1,
                    elapsed_ms as int,
                ) as i32,
            },
            ..*old(camera)
        }),
{
    if let Some(c) = cursor {
        let x: i32 = scroll(
            camera.position.x,
            c.x as i64 >= viewport.width as i64 - 1,
            c.x <= 1,
            elapsed_ms,
        );
        let z: i32 = scroll(
            camera.position.z,
            c.y <= 1,
            c.y as i64 >= viewport.height as i64 - 1,
            elapsed_ms,
        );
        camera.position.x = x;
        camera.position.z = z;
    }
}

/// The height the rig allows that is nearest to `y`.
pub open spec fn restricted_height(y: int) -> int {
    if y <= CAMERA_MIN_HEIGHT {
        CAMERA_MIN_HEIGHT as int
    } else if y >= CAMERA_MAX_HEIGHT {
        CAMERA_MAX_HEIGHT as int
    } else {
        y
    }
}

/// Keeps the camera between its lowest and its greatest height.
pub fn restrict_camera(camera: &mut CameraPose)
    ensures
        *final(camera) == (CameraPose {
            position: Point3 {
                y: restricted_height(old(camera).position.y as int) as i32,
                ..old(camera).position
            },
            ..*old(camera)
        }),
{
    if camera.position.y <= CAMERA_MIN_HEIGHT {
        camera.position.y = CAMERA_MIN_HEIGHT;
    }
    if camera.position.y >= CAMERA_MAX_HEIGHT {
        camera.position.y = CAMERA_MAX_HEIGHT;
    }
}

/// The camera's height after one wheel event: a notch of -1 raises it, a
/// notch of 1 lowers it, any other leaves it.
pub open spec fn zoom_step(y: int, notch: int, elapsed_ms: int) -> int {
    if notch == -1 {
        clamp_coord(y + ZOOM_SPEED * elapsed_ms)
    } else if notch == 1 {
        clamp_coord(y - ZOOM_SPEED * elapsed_ms)
    } else {
        y
    }
}

/// The camera's height after a run of wheel events, taken in order.
pub open spec fn zoomed(y: int, notches: Seq<i32>, elapsed_ms: int) -> int
    decreases notches.len(),
{
    if notches.len() == 0 {
        y
    } else {
        zoom_step(zoomed(y, notches.drop_last(), elapsed_ms), notches.last() as int, elapsed_ms)
    }
}

/// Raises or lowers the camera by the wheel events of one frame.
pub fn zoom(camera: &mut CameraPose, notches: &Vec<i32>, elapsed_ms: u32)
    ensures
        *final(camera) == (CameraPose {
            position: Point3 {
                y: zoomed(old(camera).position.y as int, notches@, elapsed_ms as int) as i32,
                ..old(camera).position
            },
            ..*old(camera)
        }),
{
    let step: i64 = ZOOM_SPEED * (elapsed_ms as i64);
    let mut y: i32 = camera.position.y;
    let ghost y0: int = y as int;
    let mut i: usize = 0;
    while i < notches.len()
        invariant
            i <= notches.len(),
            step == ZOOM_SPEED * elapsed_ms,
            y == zoomed(y0, notches@.take(i as int), elapsed_ms as int),
        decreases notches.len() - i,
    {
        let notch: i32 = notches[i];
        proof {
            assert(notches@.take(i + 1).drop_last() =~= notches@.take(i as int));
        }
        if notch == -1 {
            y = saturate(y as i64 + step);
        } else if notch == 1 {
            y = saturate(y as i64 - step);
        }
        i += 1;
    }
    proof {
        assert(notches@.take(notches.len() as int) =~= notches@);
    }
    camera.position.y = y;
}

} // verus!
