//! Copying the refreshed rectangles of the drawing surface into the framebuffer.

use vstd::prelude::*;

use crate::geometry::{spec_full_clip, ClipRect};

verus! {

/// The offset of the first byte of a pixel.
pub open spec fn pixel_offset(x: int, y: int, pitch: u32, cpp: u32) -> int {
    y * pitch + x * cpp
}

/// Whether byte `k` belongs to the columns of the rectangle in row `y`.
pub open spec fn row_covers(clip: ClipRect, pitch: u32, cpp: u32, y: int, k: int) -> bool {
    pixel_offset(clip.x1 as int, y, pitch, cpp) <= k < pixel_offset(clip.x2 as int, y, pitch, cpp)
}

/// Whether byte `k` belongs to one of the rows of the rectangle above row `end`.
pub open spec fn covers_until(clip: ClipRect, pitch: u32, cpp: u32, end: int, k: int) -> bool {
    exists|y: int| clip.y1 <= y < end && #[trigger] row_covers(clip, pitch, cpp, y, k)
}

/// Whether byte `k` belongs to the rectangle.
pub open spec fn covers(clip: ClipRect, pitch: u32, cpp: u32, k: int) -> bool {
    covers_until(clip, pitch, cpp, clip.y2 as int, k)
}

/// Whether byte `k` belongs to one of the rectangles.
pub open spec fn any_covers(clips: Seq<ClipRect>, pitch: u32, cpp: u32, k: int) -> bool {
    exists|i: int| 0 <= i < clips.len() && covers(#[trigger] clips[i], pitch, cpp, k)
}

/// Whether the rectangle is ordered and all its bytes lie below `len`.
pub open spec fn clip_fits(clip: ClipRect, pitch: u32, cpp: u32, len: int) -> bool {
    &&& clip.x1 <= clip.x2
    &&& clip.y1 <= clip.y2
    &&& clip.y1 < clip.y2 ==> pixel_offset(clip.x2 as int, clip.y2 - 1, pitch, cpp) <= len
}

/// The bytes of `fb`, replaced by those of `data` inside the rectangles.
pub open spec fn refreshed(
    fb: Seq<u8>,
    data: Seq<u8>,
    clips: Seq<ClipRect>,
    pitch: u32,
    cpp: u32,
) -> Seq<u8> {
    Seq::new(
        fb.len(),
        |k: int|
            if any_covers(clips, pitch, cpp, k) {
                data[k]
            } else {
                fb[k]
            },
    )
}

/// The number of bytes of a pixel of the given depth.
pub fn bytes_per_pixel(bpp: u32) -> (cpp: u32)
    ensures
        cpp == bpp / 8,
{
    bpp / 8
}

/// Whether the rectangle is ordered and all its bytes lie below `len`.
pub fn check_clip(clip: ClipRect, pitch: u32, cpp: u32, len: usize) -> (r: bool)
    ensures
        r == clip_fits(clip, pitch, cpp, len as int),
{
    if clip.x1 > clip.x2 || clip.y1 > clip.y2 {
        return false;
    }
    if clip.y1 == clip.y2 {
        return true;
    }
    let row: u32 = (clip.y2 - 1) as u32;
    proof {
        lemma_offset_bound(clip.x2 as int, row as int, pitch, cpp);
    }
    row as u64 * pitch as u64 + clip.x2 as u64 * cpp as u64 <= len as u64
}

/// Offsets of pixels fit in 64 bits.
proof fn lemma_offset_bound(x: int, y: int, pitch: u32, cpp: u32)
    requires
        0 <= x <= u16::MAX,
        0 <= y <= u16::MAX,
    ensures
        0 <= y * pitch <= u16::MAX * u32::MAX,
        0 <= x * cpp <= u16::MAX * u32::MAX,
        0 <= pixel_offset(x, y, pitch, cpp) <= 0x1_fffd_ffff_0000,
{
    assert(0 <= y * pitch <= u16::MAX * u32::MAX) by (nonlinear_arith)
        requires
            0 <= y <= u16::MAX,
            0 <= pitch <= u32::MAX,
    ;
    assert(0 <= x * cpp <= u16::MAX * u32::MAX) by (nonlinear_arith)
        requires
            0 <= x <= u16::MAX,
            0 <= cpp <= u32::MAX,
    ;
}

/// Columns further to the left and rows further up have smaller offsets.
pub proof fn lemma_offset_monotone(x: int, y: int, x_max: int, y_max: int, pitch: u32, cpp: u32)
    requires
        x <= x_max,
        y <= y_max,
    ensures
        pixel_offset(x, y, pitch, cpp) <= pixel_offset(x_max, y_max, pitch, cpp),
{
    assert(y * pitch <= y_max * pitch) by (nonlinear_arith)
        requires
            y <= y_max,
            0 <= pitch,
    ;
    assert(x * cpp <= x_max * cpp) by (nonlinear_arith)
        requires
            x <= x_max,
            0 <= cpp,
    ;
}

/// Copies the bytes `start..end` of `data` to the same place in `fb`.
fn copy_range(fb: &mut [u8], data: &[u8], start: usize, end: usize)
    requires
        start <= end <= old(fb)@.len(),
        end <= data@.len(),
    ensures
        final(fb)@ == Seq::new(
            old(fb)@.len(),
            |k: int|
                if start <= k < end {
                    data@[k]
                } else {
                    old(fb)@[k]
                },
        ),
{
    let ghost before = fb@;
    let mut k: usize = start;
    while k < end
        invariant
            start <= k <= end <= before.len(),
            end <= data@.len(),
            fb@.len() == before.len(),
            forall|j: int|
                #![trigger fb@[j]]
                0 <= j < before.len() ==> fb@[j] == (if start <= j < k {
                    data@[j]
                } else {
                    before[j]
                }),
        decreases end - k,
    {
        fb[k] = data[k];
        k = k + 1;
    }
}

/// Copies one rectangle from the drawing surface into the framebuffer, row by row.
fn copy_clip(fb: &mut [u8], data: &[u8], clip: ClipRect, pitch: u32, cpp: u32)
    requires
        clip_fits(clip, pitch, cpp, old(fb)@.len() as int),
        clip_fits(clip, pitch, cpp, data@.len() as int),
    ensures
        final(fb)@.len() == old(fb)@.len(),
        forall|k: int|
            #![trigger final(fb)@[k]]
            0 <= k < old(fb)@.len() ==> final(fb)@[k] == (if covers(clip, pitch, cpp, k) {
                data@[k]
            } else {
                old(fb)@[k]
            }),
{
    let ghost before = fb@;
    let mut y: u16 = clip.y1;
    while y < clip.y2
        invariant
            clip.y1 <= y <= clip.y2,
            clip_fits(clip, pitch, cpp, before.len() as int),
            clip_fits(clip, pitch, cpp, data@.len() as int),
            fb@.len() == before.len(),
            forall|k: int|
                #![trigger fb@[k]]
                0 <= k < before.len() ==> fb@[k] == (if covers_until(
                    clip,
                    pitch,
                    cpp,
                    y as int,
                    k,
                ) {
                    data@[k]
                } else {
                    before[k]
                }),
        decreases clip.y2 - y,
    {
        proof {
            lemma_offset_bound(clip.x1 as int, y as int, pitch, cpp);
            lemma_offset_bound(clip.x2 as int, y as int, pitch, cpp);
            lemma_offset_monotone(
                clip.x1 as int,
                y as int,
                clip.x2 as int,
                y as int,
                pitch,
                cpp,
            );
            lemma_offset_monotone(
                clip.x2 as int,
                y as int,
                clip.x2 as int,
                clip.y2 - 1,
                pitch,
                cpp,
            );
        }
        let row: u64 = y as u64 * pitch as u64;
        let start: u64 = row + clip.x1 as u64 * cpp as u64;
        let end: u64 = row + clip.x2 as u64 * cpp as u64;
        assert(end <= data.len());
        let ghost last = fb@;
        copy_range(fb, data, start as usize, end as usize);
        proof {
            assert forall|k: int| #![trigger fb@[k]] 0 <= k < before.len() implies fb@[k] == (
            if covers_until(clip, pitch, cpp, y + 1, k) {
                data@[k]
            } else {
                before[k]
            }) by {
                assert(last[k] == last[k]);
                if row_covers(clip, pitch, cpp, y as int, k) {
                    assert(covers_until(clip, pitch, cpp, y + 1, k));
                } else if covers_until(clip, pitch, cpp, y as int, k) {
                    let row = choose|row: int|
                        clip.y1 <= row < y && #[trigger] row_covers(clip, pitch, cpp, row, k);
                    assert(row_covers(clip, pitch, cpp, row, k));
                    assert(covers_until(clip, pitch, cpp, y + 1, k));
                }
            }
        }
        y = y + 1;
    }
}

/// Copies the rectangles from the drawing surface into the framebuffer. Both hold rows of `pitch`
/// bytes with `cpp` bytes to a pixel.
pub fn copy_clips(fb: &mut [u8], data: &[u8], clips: &[ClipRect], pitch: u32, cpp: u32)
    requires
        forall|i: int|
            0 <= i < clips@.len() ==> clip_fits(
                #[trigger] clips@[i],
                pitch,
                cpp,
                old(fb)@.len() as int,
            ),
        forall|i: int|
            0 <= i < clips@.len() ==> clip_fits(
                #[trigger] clips@[i],
                pitch,
                cpp,
                data@.len() as int,
            ),
    ensures
        final(fb)@ == refreshed(old(fb)@, data@, clips@, pitch, cpp),
{
    let ghost before = fb@;
    let mut i: usize = 0;
    while i < clips.len()
        invariant
            0 <= i <= clips@.len(),
            fb@.len() == before.len(),
            forall|j: int|
                0 <= j < clips@.len() ==> clip_fits(
                    #[trigger] clips@[j],
                    pitch,
                    cpp,
                    before.len() as int,
                ),
            forall|j: int|
                0 <= j < clips@.len() ==> clip_fits(
                    #[trigger] clips@[j],
                    pitch,
                    cpp,
                    data@.len() as int,
                ),
            fb@ == refreshed(before, data@, clips@.take(i as int), pitch, cpp),
        decreases clips@.len() - i,
    {
        let ghost last = fb@;
        copy_clip(fb, data, clips[i], pitch, cpp);
        proof {
            let done = clips@.take(i as int);
            let next = clips@.take(i + 1);
            assert forall|k: int| 0 <= k < before.len() implies #[trigger] fb@[k] == refreshed(
                before,
                data@,
                next,
                pitch,
                cpp,
            )[k] by {
                if covers(clips@[i as int], pitch, cpp, k) {
                    assert(next[i as int] == clips@[i as int]);
                    assert(any_covers(next, pitch, cpp, k));
                } else if any_covers(done, pitch, cpp, k) {
                    let j = choose|j: int|
                        0 <= j < done.len() && covers(#[trigger] done[j], pitch, cpp, k);
                    assert(next[j] == done[j]);
                } else if any_covers(next, pitch, cpp, k) {
                    let j = choose|j: int|
                        0 <= j < next.len() && covers(#[trigger] next[j], pitch, cpp, k);
                    if j < i {
                        assert(done[j] == next[j]);
                    }
                }
                assert(last[k] == refreshed(before, data@, done, pitch, cpp)[k]);
            }
            assert(fb@ =~= refreshed(before, data@, next, pitch, cpp));
        }
        i = i + 1;
    }
    assert(clips@.take(clips@.len() as int) =~= clips@);
}

/// Whether a pixel belongs to the rectangle.
pub open spec fn holds(clip: ClipRect, x: int, y: int) -> bool {
    clip.x1 <= x < clip.x2 && clip.y1 <= y < clip.y2
}

/// A row that begins after a pixel ends does not reach back to it.
proof fn lemma_rows_keep_apart(x: int, y: int, row: int, end: int, pitch: u32, cpp: u32)
    requires
        end * cpp <= pitch,
        row < y,
        0 <= x,
    ensures
        pixel_offset(end, row, pitch, cpp) <= pixel_offset(x, y, pitch, cpp),
{
    assert(row * pitch + pitch <= y * pitch) by (nonlinear_arith)
        requires
            row + 1 <= y,
            0 <= pitch,
    ;
    assert(0 <= x * cpp) by (nonlinear_arith)
        requires
            0 <= x,
            0 <= cpp,
    ;
}

/// So long as no row is longer than the pitch, the bytes that a rectangle covers are those of its
/// pixels.
pub proof fn law_rectangle_covers_its_pixels(
    clip: ClipRect,
    pitch: u32,
    cpp: u32,
    x: int,
    y: int,
    byte: int,
)
    requires
        0 <= x,
        0 <= byte < cpp,
        (x + 1) * cpp <= pitch,
        clip.x2 * cpp <= pitch,
    ensures
        covers(clip, pitch, cpp, pixel_offset(x, y, pitch, cpp) + byte) <==> holds(clip, x, y),
{
    let k = pixel_offset(x, y, pitch, cpp) + byte;
    assert((x + 1) * cpp == x * cpp + cpp) by (nonlinear_arith);
    if holds(clip, x, y) {
        lemma_offset_monotone(clip.x1 as int, y, x, y, pitch, cpp);
        lemma_offset_monotone(x + 1, y, clip.x2 as int, y, pitch, cpp);
        assert(row_covers(clip, pitch, cpp, y, k));
    }
    if covers(clip, pitch, cpp, k) {
        let row = choose|row: int|
            clip.y1 <= row < clip.y2 && #[trigger] row_covers(clip, pitch, cpp, row, k);
        assert(row_covers(clip, pitch, cpp, row, k));
        if row < y {
            lemma_rows_keep_apart(x, y, row, clip.x2 as int, pitch, cpp);
        } else if y < row {
            lemma_rows_keep_apart(clip.x1 as int, row, y, x + 1, pitch, cpp);
        } else {
            if x < clip.x1 {
                lemma_offset_monotone(x + 1, y, clip.x1 as int, y, pitch, cpp);
            }
            if clip.x2 <= x {
                lemma_offset_monotone(clip.x2 as int, y, x, y, pitch, cpp);
            }
        }
    }
}

/// Copying refreshes exactly the pixels of the rectangles.
pub proof fn law_copy_refreshes_pixels(
    fb: Seq<u8>,
    data: Seq<u8>,
    clips: Seq<ClipRect>,
    pitch: u32,
    cpp: u32,
    x: int,
    y: int,
    byte: int,
)
    requires
        0 <= x,
        0 <= byte < cpp,
        (x + 1) * cpp <= pitch,
        forall|i: int| 0 <= i < clips.len() ==> (#[trigger] clips[i]).x2 * cpp <= pitch,
        0 <= pixel_offset(x, y, pitch, cpp) + byte < fb.len(),
    ensures
        ({
            let k = pixel_offset(x, y, pitch, cpp) + byte;
            refreshed(fb, data, clips, pitch, cpp)[k] == if exists|i: int|
                0 <= i < clips.len() && holds(#[trigger] clips[i], x, y) {
                data[k]
            } else {
                fb[k]
            }
        }),
{
    let k = pixel_offset(x, y, pitch, cpp) + byte;
    assert forall|i: int| 0 <= i < clips.len() implies (covers(#[trigger] clips[i], pitch, cpp, k)
        <==> holds(clips[i], x, y)) by {
        law_rectangle_covers_its_pixels(clips[i], pitch, cpp, x, y, byte);
    }
}

/// After a copy of the whole bar every pixel of the bar shows the drawing surface.
pub proof fn law_full_copy_shows_the_surface(
    fb: Seq<u8>,
    data: Seq<u8>,
    height: u16,
    width: u16,
    pitch: u32,
    cpp: u32,
    x: int,
    y: int,
    byte: int,
)
    requires
        0 <= x < height,
        0 <= y < width,
        0 <= byte < cpp,
        height * cpp <= pitch,
        clip_fits(spec_full_clip(height, width), pitch, cpp, fb.len() as int),
    ensures
        ({
            let k = pixel_offset(x, y, pitch, cpp) + byte;
            &&& 0 <= k < fb.len()
            &&& refreshed(fb, data, seq![spec_full_clip(height, width)], pitch, cpp)[k] == data[k]
        }),
{
    let clips = seq![spec_full_clip(height, width)];
    assert((x + 1) * cpp <= height * cpp && (x + 1) * cpp == x * cpp + cpp) by (nonlinear_arith)
        requires
            x + 1 <= height,
            0 <= cpp,
    ;
    lemma_offset_monotone(x + 1, y, height as int, width - 1, pitch, cpp);
    lemma_offset_monotone(0, 0, x, y, pitch, cpp);
    assert(pixel_offset(0, 0, pitch, cpp) == 0);
    assert(holds(clips[0], x, y));
    law_copy_refreshes_pixels(fb, data, clips, pitch, cpp, x, y, byte);
}

/// Copying the same rectangles again changes nothing.
pub proof fn law_copying_twice_changes_nothing(
    fb: Seq<u8>,
    data: Seq<u8>,
    clips: Seq<ClipRect>,
    pitch: u32,
    cpp: u32,
)
    ensures
        refreshed(refreshed(fb, data, clips, pitch, cpp), data, clips, pitch, cpp) == refreshed(
            fb,
            data,
            clips,
            pitch,
            cpp,
        ),
{
}

/// Whether byte `k` lies in row `y` of a rectangle, from its first column up to its last.
pub open spec fn lies_in_row(clip: ClipRect, pitch: u32, cpp: u32, y: int, k: int) -> bool {
    clip.y1 <= y < clip.y2 && y * pitch + clip.x1 * cpp <= k < y * pitch + clip.x2 * cpp
}

/// A byte is copied if it lies in one of the rows of one of the rectangles; one that lies in none
/// stays as it was.
#[verifier::spinoff_prover]
pub proof fn law_rows_of_rectangles_are_copied(
    fb: Seq<u8>,
    data: Seq<u8>,
    clips: Seq<ClipRect>,
    pitch: u32,
    cpp: u32,
    k: int,
)
    requires
        0 <= k < fb.len(),
    ensures
        ({
            let copied = refreshed(fb, data, clips, pitch, cpp);
            &&& copied.len() == fb.len()
            &&& forall|i: int, y: int|
                0 <= i < clips.len() && #[trigger] lies_in_row(clips[i], pitch, cpp, y, k)
                    ==> copied[k] == data[k]
            &&& (forall|i: int, y: int|
                0 <= i < clips.len() ==> !#[trigger] lies_in_row(clips[i], pitch, cpp, y, k))
                ==> copied[k] == fb[k]
        }),
{
    assert forall|i: int, y: int|
        0 <= i < clips.len() && #[trigger] lies_in_row(
            clips[i],
            pitch,
            cpp,
            y,
            k,
        ) implies any_covers(clips, pitch, cpp, k) by {
        assert(row_covers(clips[i], pitch, cpp, y, k));
        assert(covers(clips[i], pitch, cpp, k));
    }
    if any_covers(clips, pitch, cpp, k) {
        let i = choose|i: int| 0 <= i < clips.len() && covers(#[trigger] clips[i], pitch, cpp, k);
        let y = choose|y: int|
            clips[i].y1 <= y < clips[i].y2 && #[trigger] row_covers(clips[i], pitch, cpp, y, k);
        assert(lies_in_row(clips[i], pitch, cpp, y, k));
    }
}

/// A rectangle fits exactly if its edges are in order and each of its rows ends within the buffer.
#[verifier::spinoff_prover]
pub proof fn law_rectangle_fits_with_all_its_rows(
    clip: ClipRect,
    pitch: u32,
    cpp: u32,
    len: int,
    row: int,
)
    ensures
        clip_fits(clip, pitch, cpp, len) ==> clip.x1 <= clip.x2 && clip.y1 <= clip.y2,
        clip_fits(clip, pitch, cpp, len) && clip.y1 <= row < clip.y2 ==> row * pitch + clip.x2 * cpp
            <= len,
        clip.x1 <= clip.x2 && clip.y1 == clip.y2 ==> clip_fits(clip, pitch, cpp, len),
        clip.x1 <= clip.x2 && clip.y1 < clip.y2 && (clip.y2 - 1) * pitch + clip.x2 * cpp <= len
            ==> clip_fits(clip, pitch, cpp, len),
{
    if clip.y1 <= row < clip.y2 {
        lemma_offset_monotone(
            clip.x2 as int,
            row,
            clip.x2 as int,
            clip.y2 - 1,
            pitch,
            cpp,
        );
    }
}

} // verus!
