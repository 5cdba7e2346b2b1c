//! Where the overlay goes.
use ed_compass::game_window::{
    find_game_window, overlay_placement, GameWindow, OverlayAnchor, PlotterGap, Rect, WindowProbe,
    PARKED_POSITION,
};

fn game() -> Rect {
    Rect {
        left: 0,
        top: 0,
        right: 1920,
        bottom: 1080,
    }
}

/// Pixels, from their millionths.
fn px(v: i128) -> f32 {
    (v as f64 / 1e6) as f32
}

#[test]
fn rect_geometry() {
    let r = game();
    assert_eq!(r.width(), 1920);
    assert_eq!(r.height(), 1080);
    assert!(r.is_usable());
    assert!(!Rect {
        left: 0,
        top: 0,
        right: 10,
        bottom: 10
    }
    .is_usable());
}

#[test]
fn the_default_clears_the_top_left_icons() {
    // A quarter of the overlay's own width in from the left edge: right of Elite's info
    // icons, still far left of centre.
    let a = OverlayAnchor::default();
    let (x, y) = a.position_in(game());
    assert_eq!((px(x), px(y)), (220.0, 0.0));

    // Measured from the window's corner, not the desktop's.
    let moved = Rect {
        left: 640,
        top: 200,
        right: 2560,
        bottom: 1280,
    };
    let (x, y) = a.position_in(moved);
    assert_eq!((px(x), px(y)), (860.0, 200.0));
}

#[test]
fn the_parked_position_is_off_every_plausible_desktop() {
    let (x, y) = PARKED_POSITION;
    let (x, y) = (px(x as i128), px(y as i128));

    // Beyond any real monitor arrangement, including a wide multi-head desktop, so no part
    // of the overlay can be on screen while parked.
    assert!(x >= 16_000.0, "parked x {x} could land on a wide desktop");
    assert!(y >= 16_000.0, "parked y {y} could land on a tall desktop");

    // Positive rather than negative: a negative position would land on a monitor arranged to
    // the left of the primary one, which is a common setup and would put the overlay right
    // back on screen.
    assert!(
        x > 0.0 && y > 0.0,
        "negative coordinates hit left/upper monitors"
    );

    // Inside the range the window manager works in.
    assert!(
        x < 32_768.0 && y < 32_768.0,
        "outside the 16-bit window space"
    );
}

#[test]
fn the_free_band_matches_srvsurvey_s_own_layout() {
    let gap = PlotterGap::default();

    // 2560x1440: the strict band runs 336..972, 636 wide. It is then grown by a tenth of its
    // own width at each end, because the plotters it avoids are the widest possible rather
    // than the ones usually on screen.
    let (x, w) = gap.band(2_560_000_000).expect("a 2560-wide window has room");
    assert_eq!(px(x), 336.0 - 63.6);
    assert!((px(w) - 763.2).abs() < 0.01, "width {w}");

    // Strictly inside the band with no expansion.
    let strict = PlotterGap {
        expand_each_side: 0,
        ..PlotterGap::default()
    };
    let (x, w) = strict.band(2_560_000_000).unwrap();
    assert_eq!((px(x), px(w)), (336.0, 636.0));
    assert!(px(x) + px(w) <= 980.0, "must not reach PlotJumpInfo at 980");
    assert!(px(x) >= 328.0, "must not reach PlotBodyInfo ending at 328");

    // 1920 is tighter but still usable, and never runs off the left edge.
    let (x, w) = gap.band(1_920_000_000).expect("1920 still has room");
    assert!(px(x) >= 0.0 && px(x) + px(w) <= 1920.0, "x={x} w={w}");

    // A small window has no useful band at all.
    assert_eq!(gap.band(1_280_000_000), None);
}

#[test]
fn the_offset_cannot_push_the_overlay_off_the_right_edge() {
    let a = OverlayAnchor {
        x_offset_px: 10_000_000_000,
        ..Default::default()
    };
    let (x, _) = a.position_in(game());
    assert!(
        (px(x) - (1920.0 - px(a.width as i128))).abs() < 0.01,
        "clamped to the right edge, got {x}"
    );
}

#[test]
fn placement_follows_a_moved_window() {
    let a = OverlayAnchor::default();
    let moved = Rect {
        left: 100,
        top: 50,
        right: 2020,
        bottom: 1130,
    };
    let (x, y) = a.position_in(moved);
    let (bx, by) = a.position_in(game());
    assert!((px(x) - (px(bx) + 100.0)).abs() < 0.01);
    assert!((px(y) - (px(by) + 50.0)).abs() < 0.01);
}

#[test]
fn placement_scales_with_resolution() {
    let a = OverlayAnchor {
        x_fraction: 375_000,
        x_offset_px: 0,
        ..Default::default()
    };
    let small = Rect {
        left: 0,
        top: 0,
        right: 1280,
        bottom: 720,
    };
    let (x, _) = a.position_in(small);
    let centre = px(x) + px(a.width as i128) / 2.0;
    assert!(
        (centre - 480.0).abs() < 1.0,
        "centre at {centre}, expected 480"
    );
}

#[test]
fn the_overlay_never_leaves_the_game_window() {
    let tiny = Rect {
        left: 0,
        top: 0,
        right: 260,
        bottom: 240,
    };
    let a = OverlayAnchor::default();
    let (x, y) = a.position_in(tiny);
    assert!(x >= 0 && y >= 0, "({x}, {y})");
    assert!(px(x) <= tiny.right as f32, "overlay ran off the right edge");

    // An extreme anchor is clamped rather than flung off screen.
    let far = OverlayAnchor {
        x_fraction: 5_000_000,
        ..OverlayAnchor::default()
    };
    let (x, _) = far.position_in(game());
    assert!(px(x) <= 1920.0 - px(far.width as i128) + 0.01, "x={x}");
}

#[test]
fn a_custom_anchor_is_honoured() {
    let right = OverlayAnchor {
        x_fraction: 750_000,
        y_fraction: 500_000,
        x_offset_px: 0,
        ..Default::default()
    };
    let (x, y) = right.position_in(game());
    assert!((px(x) + px(right.width as i128) / 2.0 - 1440.0).abs() < 1.0);
    assert!((px(y) - 540.0).abs() < 1.0);
}

#[test]
fn there_is_always_a_position_even_with_no_game_running() {
    let p = overlay_placement(OverlayAnchor::default(), None);
    assert!(!p.game_found);
    assert!(p.position.0 >= 0 && p.position.1 >= 0);
    assert!(
        !p.game_focused,
        "a window that is not there cannot be focused"
    );

    let found = overlay_placement(
        OverlayAnchor::default(),
        Some(GameWindow {
            rect: game(),
            focused: true,
        }),
    );
    assert!(found.game_found && found.game_focused);
    assert_eq!(found.position, (220_000_000, 0));
}

#[test]
fn the_first_usable_game_window_is_taken() {
    let shown = WindowProbe {
        visible: true,
        minimized: false,
        rect: Some(game()),
        foreground: true,
    };
    let hidden = WindowProbe {
        visible: false,
        ..shown
    };
    let minimized = WindowProbe {
        minimized: true,
        ..shown
    };
    let unread = WindowProbe { rect: None, ..shown };
    let tiny = WindowProbe {
        rect: Some(Rect {
            left: 0,
            top: 0,
            right: 10,
            bottom: 10,
        }),
        ..shown
    };
    assert!(find_game_window(&[None, Some(hidden), Some(minimized), Some(unread), Some(tiny)]).is_none());
    let g = find_game_window(&[None, Some(tiny), Some(shown)]).unwrap();
    assert_eq!(g.rect, game());
    assert!(g.focused);
}
