//! Verified core of a small real-time ray tracer: pixel packing, the frame
//! buffer, keyboard-to-motion decisions and the shape of the bounding volume
//! hierarchy.
mod bvh;
mod color;
mod controls;
mod framebuffer;

pub use bvh::{BvhNode, is_permutation_of_range, lemma_halved_depth, order_can_fail, rearranges, split_as_ordered};
pub use color::{packed, to_u32};
pub use controls::{Keys, Step, camera_motion, held_steps, in_key_order, key_held, lemma_held_steps, step_rank};
pub use framebuffer::{FrameBuffer, pixel_index, lemma_pixel_index_in_bounds, lemma_pixel_index_injective};
