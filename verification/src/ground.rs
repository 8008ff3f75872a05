//! The ground: one bounded horizontal surface, and where a ray meets it.

use vstd::prelude::*;
use crate::geometry::{floor_div, lemma_product_bound, sq, Point3, Ray, MAX_RAY_LENGTH};

verus! {

/// The single ground surface of a scene: the horizontal rectangle at `height`
/// that reaches `half_width` along x and `half_depth` along z to either side
/// of the world's vertical axis.
#[derive(Clone, Copy, Debug, PartialEq, Eq, Structural)]
pub struct Ground {
    pub height: i32,
    pub half_width: i32,
    pub half_depth: i32,
}

impl Ground {
    /// Whether a point lies on the surface.
    pub open spec fn contains(&self, p: Point3) -> bool {
        &&& p.y == self.height
        &&& -self.half_width <= p.x <= self.half_width
        &&& -self.half_depth <= p.z <= self.half_depth
    }

    /// Whether the ray's height changes towards the surface's. A ray that
    /// stays level never does, and neither does one that leads away.
    pub open spec fn faces(&self, ray: Ray) -> bool {
        ||| ray.direction.y > 0 && ray.origin.y <= self.height
        ||| ray.direction.y < 0 && ray.origin.y >= self.height
    }

    /// The height the ray has to cover to reach the surface.
    pub open spec fn climb(&self, ray: Ray) -> int {
        if ray.direction.y > 0 {
            self.height - ray.origin.y
        } else {
            ray.origin.y - self.height
        }
    }

    /// The height the ray covers per unit of its parameter.
    pub open spec fn pitch(ray: Ray) -> int {
        if ray.direction.y > 0 {
            ray.direction.y as int
        } else {
            -ray.direction.y
        }
    }

    /// The x coordinate at which a facing ray crosses the surface's plane,
    /// rounded down to a fixed-point step.
    pub open spec fn crossing_x(&self, ray: Ray) -> int {
        ray.origin.x + (ray.direction.x * self.climb(ray)) / Self::pitch(ray)
    }

    /// The z coordinate at which a facing ray crosses the surface's plane,
    /// rounded down to a fixed-point step.
    pub open spec fn crossing_z(&self, ray: Ray) -> int {
        ray.origin.z + (ray.direction.z * self.climb(ray)) / Self::pitch(ray)
    }

    /// The point where the ray hits the surface, if it does: the ray faces the
    /// surface, crosses its plane inside the rectangle, and the crossing is no
    /// farther from the ray's origin than `MAX_RAY_LENGTH` (inclusive).
    pub open spec fn hit(&self, ray: Ray) -> Option<Point3> {
        let x = self.crossing_x(ray);
        let z = self.crossing_z(ray);
        if self.faces(ray) && -self.half_width <= x <= self.half_width && -self.half_depth <= z
            <= self.half_depth && sq(x - ray.origin.x) + sq(self.height - ray.origin.y) + sq(
            z - ray.origin.z,
        ) <= sq(MAX_RAY_LENGTH as int) {
            Some(Point3 { x: x as i32, y: self.height, z: z as i32 })
        } else {
            None
        }
    }

    /// Casts a ray at the surface.
    pub fn cast_ray(&self, ray: &Ray) -> (r: Option<Point3>)
        ensures
            r == self.hit(*ray),
    {
        let dy: i32 = ray.direction.y;
        if dy == 0 {
            return None;
        }
        let rise: i128 = self.height as i128 - ray.origin.y as i128;
        let (climb, pitch): (i128, i128) = if dy > 0 {
            (rise, dy as i128)
        } else {
            (-rise, -(dy as i128))
        };
        if climb < 0 {
            return None;
        }
        proof {
            lemma_product_bound(ray.direction.x as int, climb as int, 0x8000_0000, 0x1_0000_0000);
            lemma_product_bound(ray.direction.z as int, climb as int, 0x8000_0000, 0x1_0000_0000);
        }
        let x: i128 = ray.origin.x as i128 + floor_div(ray.direction.x as i128 * climb, pitch);
        let z: i128 = ray.origin.z as i128 + floor_div(ray.direction.z as i128 * climb, pitch);
        if x < -(self.half_width as i128) || x > self.half_width as i128 {
            return None;
        }
        if z < -(self.half_depth as i128) || z > self.half_depth as i128 {
            return None;
        }
        let ex: i128 = x - ray.origin.x as i128;
        let ez: i128 = z - ray.origin.z as i128;
        proof {
            lemma_product_bound(ex as int, ex as int, 0x1_0000_0000, 0x1_0000_0000);
            lemma_product_bound(rise as int, rise as int, 0x1_0000_0000, 0x1_0000_0000);
            lemma_product_bound(ez as int, ez as int, 0x1_0000_0000, 0x1_0000_0000);
        }
        let reach: i128 = MAX_RAY_LENGTH as i128;
        if ex * ex + rise * rise + ez * ez > reach * reach {
            return None;
        }
        Some(Point3 { x: x as i32, y: self.height, z: z as i32 })
    }
}

} // verus!
