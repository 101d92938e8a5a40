use tiny_dfr::framebuffer::{bytes_per_pixel, check_clip, copy_clips};
use tiny_dfr::geometry::{full_clip, ClipRect};

const PITCH: u32 = 16;
const CPP: u32 = 2;

fn clip(x1: u16, y1: u16, x2: u16, y2: u16) -> ClipRect {
    ClipRect { x1, y1, x2, y2 }
}

/// A framebuffer of six rows of eight pixels.
fn screen(byte: u8) -> Vec<u8> {
    vec![byte; 96]
}

fn surface() -> Vec<u8> {
    (100..196).collect()
}

#[test]
fn a_pixel_has_an_eighth_as_many_bytes_as_bits() {
    assert_eq!(bytes_per_pixel(32), 4);
    assert_eq!(bytes_per_pixel(24), 3);
    assert_eq!(bytes_per_pixel(15), 1);
    assert_eq!(bytes_per_pixel(0), 0);
}

#[test]
fn a_rectangle_is_copied_row_by_row() {
    let mut fb = screen(0);
    let data = surface();
    copy_clips(&mut fb, &data, &[clip(1, 2, 4, 4)], PITCH, CPP);
    for k in 0..96 {
        let (y, x) = (k / 16, k % 16 / 2);
        let inside = (1..4).contains(&x) && (2..4).contains(&y);
        assert_eq!(fb[k], if inside { data[k] } else { 0 }, "{k}");
    }
    assert_eq!(&fb[34..40], &[134, 135, 136, 137, 138, 139]);
}

#[test]
fn several_rectangles_are_copied() {
    let mut fb = screen(0);
    let data = surface();
    copy_clips(&mut fb, &data, &[clip(0, 0, 2, 2), clip(1, 1, 3, 3), clip(7, 5, 8, 6)], PITCH, CPP);
    let copied: Vec<usize> = (0..96).filter(|k| fb[*k] != 0).collect();
    assert_eq!(
        copied,
        vec![0, 1, 2, 3, 16, 17, 18, 19, 20, 21, 34, 35, 36, 37, 94, 95]
    );
    assert!(copied.iter().all(|k| fb[*k] == data[*k]));
}

#[test]
fn the_whole_bar_shows_the_surface() {
    let mut fb = screen(0);
    let data = surface();
    copy_clips(&mut fb, &data, &[full_clip(7, 6)], PITCH, CPP);
    for k in 0..96 {
        assert_eq!(fb[k], if k % 16 < 14 { data[k] } else { 0 });
    }
}

#[test]
fn copying_again_changes_nothing() {
    let mut fb = screen(3);
    let data = surface();
    let clips = [clip(1, 2, 4, 4), clip(3, 0, 8, 3)];
    copy_clips(&mut fb, &data, &clips, PITCH, CPP);
    let once = fb.clone();
    copy_clips(&mut fb, &data, &clips, PITCH, CPP);
    assert_eq!(fb, once);
}

#[test]
fn empty_rectangles_copy_nothing() {
    let mut fb = screen(9);
    let data = surface();
    copy_clips(&mut fb, &data, &[clip(3, 3, 3, 5), clip(2, 4, 6, 4)], PITCH, CPP);
    copy_clips(&mut fb, &data, &[], PITCH, CPP);
    assert_eq!(fb, screen(9));
}

#[test]
fn rectangles_have_to_fit() {
    assert!(check_clip(clip(0, 0, 8, 6), PITCH, CPP, 96));
    assert!(!check_clip(clip(0, 0, 8, 6), PITCH, CPP, 95));
    assert!(!check_clip(clip(0, 0, 8, 7), PITCH, CPP, 96));
    assert!(!check_clip(clip(0, 0, 9, 6), PITCH, CPP, 96));
    assert!(check_clip(clip(0, 0, 9, 5), PITCH, CPP, 96));
    assert!(!check_clip(clip(3, 0, 2, 6), PITCH, CPP, 96));
    assert!(!check_clip(clip(0, 3, 8, 2), PITCH, CPP, 96));
    assert!(check_clip(clip(0, 9, 8, 9), PITCH, CPP, 96));
    assert!(!check_clip(clip(9, 9, 8, 9), PITCH, CPP, 96));
    assert!(!check_clip(clip(0, 0, 65535, 65535), u32::MAX, u32::MAX, 96));
    assert!(check_clip(clip(0, 0, 0, 0), PITCH, CPP, 0));
}
