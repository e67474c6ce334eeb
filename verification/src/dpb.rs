//! The decoded picture buffer: eight slots of reference frames.

use std::sync::Arc;
use vstd::prelude::*;
use crate::framebuffer::Plane;
use crate::prob_tables::NUM_REF_FRAMES;

verus! {

/// One reference frame. The planes are cropped to the frame size (chroma after
/// subsampling), so motion compensation clamps to the planes' own edges.
#[derive(Debug)]
pub struct RefFrameData {
    /// Frame width in luma samples.
    pub width: u32,
    /// Frame height in luma samples.
    pub height: u32,
    pub subsampling_x: u32,
    pub subsampling_y: u32,
    pub bit_depth: u8,
    pub y: Plane,
    pub u: Plane,
    pub v: Plane,
}

/// The eight slots.
#[derive(Debug)]
pub struct Dpb {
    pub slots: [Option<Arc<RefFrameData>>; NUM_REF_FRAMES],
}

impl Clone for Dpb {
    fn clone(&self) -> (r: Self)
        ensures
            r.slots@ == self.slots@,
    {
        let r = Dpb {
            slots: [
                self.get_arc(0),
                self.get_arc(1),
                self.get_arc(2),
                self.get_arc(3),
                self.get_arc(4),
                self.get_arc(5),
                self.get_arc(6),
                self.get_arc(7),
            ],
        };
        assert(r.slots@ =~= self.slots@);
        r
    }
}

/// Whether bit `i` of the flags is set.
pub open spec fn flag_set(flags: u8, i: int) -> bool {
    (flags >> (i as u8)) & 1u8 == 1u8
}

impl Default for Dpb {
    fn default() -> (r: Self)
        ensures
            forall|i: int| 0 <= i < NUM_REF_FRAMES ==> (#[trigger] r.slots[i]) is None,
    {
        Self::new()
    }
}

/// A second handle to a shared value.
fn share(data: &Arc<RefFrameData>) -> (r: Arc<RefFrameData>)
    ensures
        r == *data,
{
    data.clone()
}

impl Dpb {
    /// Eight empty slots.
    pub fn new() -> (r: Self)
        ensures
            forall|i: int| 0 <= i < NUM_REF_FRAMES ==> (#[trigger] r.slots[i]) is None,
    {
        Dpb { slots: [None, None, None, None, None, None, None, None] }
    }

    /// The frame in a slot.
    pub fn get(&self, idx: u8) -> (r: Option<&RefFrameData>)
        requires
            idx < NUM_REF_FRAMES,
        ensures
            match (r, self.slots[idx as int]) {
                (Some(d), Some(slot)) => *d == *slot,
                (None, None) => true,
                _ => false,
            },
    {
        match &self.slots[idx as usize] {
            Some(d) => Some(&**d),
            None => None,
        }
    }

    /// The frame in a slot, shared.
    pub fn get_arc(&self, idx: u8) -> (r: Option<Arc<RefFrameData>>)
        requires
            idx < NUM_REF_FRAMES,
        ensures
            r == self.slots[idx as int],
    {
        match &self.slots[idx as usize] {
            Some(d) => Some(share(d)),
            None => None,
        }
    }

    /// Stores the frame in every slot whose flag is set; the others keep what
    /// they hold.
    pub fn update(&mut self, refresh_frame_flags: u8, data: &Arc<RefFrameData>)
        ensures
            updated(*old(self), refresh_frame_flags, *data, *final(self)),
    {
        for slot in 0..8usize
            invariant
                forall|i: int|
                    0 <= i < NUM_REF_FRAMES ==> #[trigger] self.slots[i] == if i < slot && flag_set(
                        refresh_frame_flags,
                        i,
                    ) {
                        Some(*data)
                    } else {
                        old(self).slots[i]
                    },
        {
            if (refresh_frame_flags >> (slot as u8)) & 1 == 1 {
                self.slots[slot] = Some(share(data));
            }
        }
    }
}

/// What an update leaves in the slots.
pub open spec fn updated(before: Dpb, flags: u8, data: Arc<RefFrameData>, after: Dpb) -> bool {
    forall|i: int|
        0 <= i < NUM_REF_FRAMES ==> #[trigger] after.slots[i] == if flag_set(flags, i) {
            Some(data)
        } else {
            before.slots[i]
        }
}

/// An update without flags changes nothing, and one with all flags fills every
/// slot.
pub proof fn lemma_update_extremes(before: Dpb, data: Arc<RefFrameData>, after: Dpb)
    ensures
        updated(before, 0, data, after) ==> after.slots@ == before.slots@,
        updated(before, 0xff, data, after) ==> forall|i: int|
            0 <= i < NUM_REF_FRAMES ==> #[trigger] after.slots[i] == Some(data),
{
    assert forall|i: int| 0 <= i < NUM_REF_FRAMES implies !flag_set(0, i) && flag_set(0xff, i) by {
        let k = i as u8;
        assert((0u8 >> k) & 1u8 != 1u8) by (bit_vector);
        assert((0xffu8 >> k) & 1u8 == 1u8) by (bit_vector)
            requires
                k < 8,
        ;
    }
    if updated(before, 0, data, after) {
        assert(after.slots@ =~= before.slots@);
    }
}

/// A later update wins: what it stores replaces what an earlier one stored.
pub proof fn lemma_last_update_wins(
    first: Dpb,
    flags: u8,
    data: Arc<RefFrameData>,
    second: Dpb,
    later_flags: u8,
    later: Arc<RefFrameData>,
    third: Dpb,
    i: int,
)
    requires
        0 <= i < NUM_REF_FRAMES,
        updated(first, flags, data, second),
        updated(second, later_flags, later, third),
    ensures
        third.slots[i] == if flag_set(later_flags, i) {
            Some(later)
        } else if flag_set(flags, i) {
            Some(data)
        } else {
            first.slots[i]
        },
{
}

} // verus!
