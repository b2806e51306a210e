use endo::render::{Dir, BITMAP_SIZE};
use endo::rna::{RnaAlpha, RnaColor};
use endo::{Rna, RnaRenderer, WIDTH};

fn pixel_at(r: &RnaRenderer, layer: usize, x: u32, y: u32) -> (u8, u8, u8, u8) {
    let v = r.to_vec(layer);
    let i = 4 * (y * WIDTH + x) as usize;
    (v[i], v[i + 1], v[i + 2], v[i + 3])
}

#[test]
fn starts_blank_facing_east() {
    let r = RnaRenderer::new();
    assert_eq!(*r.position(), (0, 0));
    assert_eq!(*r.mark(), (0, 0));
    assert_eq!(r.dir(), Dir::E);
    assert_eq!(r.current_pixel(), (0, 0, 0, 255));
    assert_eq!(r.to_vec(0).len(), 4 * BITMAP_SIZE);
    assert_eq!(pixel_at(&r, 0, 5, 5), (0, 0, 0, 255));
    assert!(r.to_vec(3).iter().all(|&b| b == 0));
}

#[test]
fn moves_and_turns_wrap_around() {
    let mut r = RnaRenderer::new();
    r.render(&[Rna::TurnCounterClockwise, Rna::Move]);
    assert_eq!(r.dir(), Dir::N);
    assert_eq!(*r.position(), (0, 599));
    r.render(&[Rna::TurnCounterClockwise, Rna::Move, Rna::Mark]);
    assert_eq!(r.dir(), Dir::W);
    assert_eq!(*r.position(), (599, 599));
    assert_eq!(*r.mark(), (599, 599));
    r.render(&[Rna::TurnClockwise, Rna::TurnClockwise, Rna::TurnClockwise, Rna::Move]);
    assert_eq!(r.dir(), Dir::S);
    assert_eq!(*r.position(), (599, 0));
}

#[test]
fn bucket_averages_colors_and_alpha() {
    let mut r = RnaRenderer::new();
    r.render(&[
        Rna::AddColor(RnaColor::Red),
        Rna::AddColor(RnaColor::Yellow),
        Rna::AddColor(RnaColor::Black),
        Rna::AddAlpha(RnaAlpha::Opaque),
        Rna::AddAlpha(RnaAlpha::Transparent),
    ]);
    // alpha 255 / 2 = 127; red 2 * 127 / 3 = 84, green 127 / 3 = 42
    assert_eq!(r.current_pixel(), (84, 42, 0, 127));
    r.render_command(&Rna::EmptyBucket);
    assert_eq!(r.current_pixel(), (0, 0, 0, 255));
    r.render_command(&Rna::AddColor(RnaColor::White));
    assert_eq!(r.current_pixel(), (255, 255, 255, 255));
}

#[test]
fn line_sets_both_ends_and_between() {
    let mut r = RnaRenderer::new();
    r.render(&[Rna::AddBitmap, Rna::AddColor(RnaColor::Blue), Rna::Mark]);
    for _ in 0..4 {
        r.render_command(&Rna::Move);
    }
    r.render_command(&Rna::Line);
    for x in 0..=4 {
        assert_eq!(pixel_at(&r, 0, x, 0), (0, 0, 255, 255));
    }
    assert_eq!(pixel_at(&r, 0, 5, 0), (0, 0, 0, 255));
    assert_eq!(pixel_at(&r, 1, 2, 0), (0, 0, 0, 0));
}

#[test]
fn fill_replaces_connected_region() {
    let mut r = RnaRenderer::new();
    r.render(&[Rna::AddBitmap, Rna::AddColor(RnaColor::Green), Rna::TryFill]);
    assert_eq!(pixel_at(&r, 0, 0, 0), (0, 255, 0, 255));
    assert_eq!(pixel_at(&r, 0, 599, 599), (0, 255, 0, 255));
    assert_eq!(pixel_at(&r, 1, 599, 599), (0, 0, 0, 0));
    // filling again with the same pixel changes nothing
    r.render_command(&Rna::TryFill);
    assert_eq!(pixel_at(&r, 0, 300, 300), (0, 255, 0, 255));
}

#[test]
fn fill_stops_at_border() {
    let mut r = RnaRenderer::new();
    r.render(&[Rna::AddBitmap, Rna::AddColor(RnaColor::Red), Rna::Mark]);
    r.render(&[Rna::TurnClockwise, Rna::Move, Rna::Move, Rna::Move]);
    // vertical red line on column 0, rows 0..=3, then fill from (1, 1) in white
    r.render_command(&Rna::Line);
    r.render(&[Rna::EmptyBucket, Rna::AddColor(RnaColor::White), Rna::TurnCounterClockwise, Rna::Move]);
    r.render(&[Rna::TurnCounterClockwise, Rna::Move, Rna::Move, Rna::TryFill]);
    assert_eq!(*r.position(), (1, 1));
    assert_eq!(pixel_at(&r, 0, 1, 1), (255, 255, 255, 255));
    assert_eq!(pixel_at(&r, 0, 0, 1), (255, 0, 0, 255));
    assert_eq!(pixel_at(&r, 0, 0, 3), (255, 0, 0, 255));
    assert_eq!(pixel_at(&r, 0, 0, 4), (255, 255, 255, 255));
    assert_eq!(pixel_at(&r, 0, 599, 599), (255, 255, 255, 255));
}

#[test]
fn compose_and_clip_merge_top_layers() {
    let mut r = RnaRenderer::new();
    r.render(&[Rna::AddBitmap, Rna::AddColor(RnaColor::Red), Rna::TryFill, Rna::AddBitmap]);
    r.render(&[Rna::EmptyBucket, Rna::AddColor(RnaColor::Blue), Rna::AddAlpha(RnaAlpha::Opaque)]);
    r.render(&[Rna::AddAlpha(RnaAlpha::Transparent), Rna::TryFill]);
    // top pixel (0, 0, 127, 127) over (255, 0, 0, 255)
    r.render_command(&Rna::Compose);
    assert_eq!(pixel_at(&r, 0, 10, 10), (128, 0, 127, 255));
    assert_eq!(pixel_at(&r, 1, 10, 10), (0, 0, 0, 0));
    r.render_command(&Rna::Clip);
    // top layer removed as mask: alpha 255 keeps the blank layer as it is
    assert_eq!(pixel_at(&r, 0, 10, 10), (0, 0, 0, 255));
    // fewer than two layers: nothing happens
    r.render(&[Rna::Compose, Rna::Clip]);
    assert_eq!(pixel_at(&r, 0, 10, 10), (0, 0, 0, 255));
}

#[test]
fn layer_stack_is_capped_at_ten() {
    let mut r = RnaRenderer::new();
    for _ in 0..12 {
        r.render_command(&Rna::AddBitmap);
    }
    assert_eq!(r.to_vec(9).len(), 4 * BITMAP_SIZE);
    assert!(r.to_vec(10).iter().all(|&b| b == 0));
}

#[test]
fn unknown_instruction_does_nothing() {
    let mut r = RnaRenderer::new();
    r.render_command(&Rna::Unknown(vec![]));
    assert_eq!(*r.position(), (0, 0));
    assert_eq!(r.current_pixel(), (0, 0, 0, 255));
}

fn face(r: &mut RnaRenderer, d: Dir) {
    while r.dir() != d {
        r.render_command(&Rna::TurnClockwise);
    }
}

fn goto(r: &mut RnaRenderer, x: u32, y: u32) {
    face(r, Dir::E);
    while r.position().0 != x {
        r.render_command(&Rna::Move);
    }
    face(r, Dir::S);
    while r.position().1 != y {
        r.render_command(&Rna::Move);
    }
}

#[test]
fn fill_leaves_enclosed_region_alone() {
    let mut r = RnaRenderer::new();
    r.render(&[Rna::AddBitmap, Rna::AddColor(RnaColor::Red)]);
    let corners = [(2, 2), (6, 2), (6, 6), (2, 6), (2, 2)];
    goto(&mut r, 2, 2);
    for &(x, y) in &corners[1..] {
        r.render_command(&Rna::Mark);
        goto(&mut r, x, y);
        r.render_command(&Rna::Line);
    }
    r.render(&[Rna::EmptyBucket, Rna::AddColor(RnaColor::Cyan)]);
    goto(&mut r, 0, 0);
    r.render_command(&Rna::TryFill);
    assert_eq!(pixel_at(&r, 0, 0, 0), (0, 255, 255, 255));
    assert_eq!(pixel_at(&r, 0, 10, 10), (0, 255, 255, 255));
    assert_eq!(pixel_at(&r, 0, 4, 2), (255, 0, 0, 255));
    assert_eq!(pixel_at(&r, 0, 4, 4), (0, 0, 0, 255));
    assert_eq!(pixel_at(&r, 0, 3, 5), (0, 0, 0, 255));
}
