use lightblend::blend::{blend, IconState};
use lightblend::registry::Registry;
use lightblend::sample::{Corner, LightingSample, UNIT};

fn corner(mx: i32, r: i32, g: i32, b: i32) -> Option<Corner> {
    Some(Corner { max_intensity: mx, r, g, b })
}

#[test]
fn all_corners_absent_is_dark() {
    let s = LightingSample::new();
    let r = blend(&s);
    assert!(!r.luminous);
    assert_eq!(r.icon_state, IconState::Dark);
    assert!(r.color_matrix.is_none());
}

#[test]
fn single_ne_corner_is_lit_with_matrix() {
    let s = LightingSample::with_corners(corner(UNIT, UNIT, 0, 0), None, None, None);
    let r = blend(&s);
    assert!(r.luminous);
    // the lit case clears the icon state and carries the matrix
    assert_eq!(r.icon_state, IconState::Lit);
    assert!(r.color_matrix.is_some());
}

#[test]
fn sentinel_sum_is_transparent_even_when_luminous() {
    // each corner contributes r = g = b = one unit: the sum is twelve units
    let s = LightingSample::with_corners(
        corner(UNIT, UNIT, UNIT, UNIT),
        corner(UNIT, UNIT, UNIT, UNIT),
        corner(0, UNIT, UNIT, UNIT),
        corner(0, UNIT, UNIT, UNIT),
    );
    let r = blend(&s);
    assert_eq!(r.icon_state, IconState::Transparent);
    assert!(r.color_matrix.is_none());
    // the luminosity flag is carried verbatim even for transparent tiles
    assert!(r.luminous);
}

#[test]
fn sentinel_needs_exact_sum() {
    // one unit short of the sentinel: luminous, so the tile is lit
    let s = LightingSample::with_corners(
        corner(UNIT, UNIT, UNIT, UNIT),
        corner(0, UNIT, UNIT, UNIT),
        corner(0, UNIT, UNIT, UNIT),
        corner(0, UNIT, UNIT, UNIT - 1),
    );
    let r = blend(&s);
    assert_eq!(r.icon_state, IconState::Lit);
    assert!(r.color_matrix.is_some());
}

#[test]
fn sentinel_from_unequal_contributions() {
    // twelve units gathered unevenly still hit the sentinel
    let s = LightingSample::with_corners(
        corner(0, 12 * UNIT, 0, 0),
        None,
        None,
        None,
    );
    let r = blend(&s);
    assert!(!r.luminous);
    assert_eq!(r.icon_state, IconState::Transparent);
}

#[test]
fn dark_needs_no_luminosity_anywhere() {
    // a single corner with positive max-intensity makes the tile lit
    let s = LightingSample::with_corners(None, None, None, corner(1, 0, 0, 0));
    let r = blend(&s);
    assert!(r.luminous);
    assert_eq!(r.icon_state, IconState::Lit);
    // zero max-intensity everywhere keeps it dark
    let s2 = LightingSample::with_corners(corner(0, UNIT, 0, 0), None, None, None);
    let r2 = blend(&s2);
    assert!(!r2.luminous);
    assert_eq!(r2.icon_state, IconState::Dark);
    assert!(r2.color_matrix.is_none());
}

#[test]
fn matrix_layout_single_corner() {
    let s = LightingSample::with_corners(corner(UNIT, UNIT, 0, 0), None, None, None);
    let r = blend(&s);
    let m = r.color_matrix.expect("lit tile must carry a matrix");
    assert_eq!(m.len(), 20);
    // row 0 is the NE corner [r, g, b, 0]
    assert_eq!(&m[0..4], &[UNIT, 0, 0, 0]);
    // rows 1..3 are the absent corners, all zero
    assert_eq!(&m[4..8], &[0, 0, 0, 0]);
    assert_eq!(&m[8..12], &[0, 0, 0, 0]);
    assert_eq!(&m[12..16], &[0, 0, 0, 0]);
    // the trailing alpha identity row [0, 0, 0, 1]
    assert_eq!(&m[16..20], &[0, 0, 0, UNIT]);
}

#[test]
fn matrix_layout_corner_order() {
    let s = LightingSample::with_corners(
        corner(UNIT, 1, 2, 3),
        corner(0, 4, 5, 6),
        corner(0, 7, 8, 9),
        corner(0, 10, 11, 12),
    );
    let r = blend(&s);
    let m = r.color_matrix.expect("lit tile must carry a matrix");
    assert_eq!(
        m,
        vec![1, 2, 3, 0, 4, 5, 6, 0, 7, 8, 9, 0, 10, 11, 12, 0, 0, 0, 0, UNIT]
    );
}

#[test]
fn enqueue_then_dequeue_leaves_nothing() {
    let mut reg: Registry<u64> = Registry::new();
    reg.enqueue(7, 700, LightingSample::new());
    assert_eq!(reg.size(), 1);
    reg.dequeue(7);
    assert_eq!(reg.size(), 0);
    // no write is ever produced for the dequeued handle
    reg.compute();
    let writes = reg.flush();
    assert!(writes.is_empty());
}

#[test]
fn dequeue_unknown_handle_is_noop() {
    let mut reg: Registry<u64> = Registry::new();
    reg.enqueue(1, 100, LightingSample::new());
    reg.dequeue(2);
    assert_eq!(reg.size(), 1);
}

#[test]
fn batch_writes_each_handle_once() {
    let mut reg: Registry<u64> = Registry::new();
    reg.enqueue(1, 100, LightingSample::new());
    reg.enqueue(2, 200, LightingSample::with_corners(corner(UNIT, UNIT, 0, 0), None, None, None));
    reg.enqueue(3, 300, LightingSample::new());
    assert_eq!(reg.size(), 3);
    reg.compute();
    assert_eq!(reg.size(), 3);
    let mut writes = reg.flush();
    assert_eq!(reg.size(), 0);
    assert_eq!(writes.len(), 3);
    writes.sort_by_key(|w| w.handle);
    let handles: Vec<u32> = writes.iter().map(|w| w.handle).collect();
    assert_eq!(handles, vec![1, 2, 3]);
    let refs: Vec<u64> = writes.iter().map(|w| w.external_ref).collect();
    assert_eq!(refs, vec![100, 200, 300]);
    assert_eq!(writes[0].result.icon_state, IconState::Dark);
    assert_eq!(writes[1].result.icon_state, IconState::Lit);
    assert_eq!(writes[2].result.icon_state, IconState::Dark);
    // flushing again produces nothing
    let again = reg.flush();
    assert!(again.is_empty());
}

#[test]
fn flush_before_compute_writes_nothing() {
    let mut reg: Registry<u64> = Registry::new();
    reg.enqueue(5, 500, LightingSample::new());
    let writes = reg.flush();
    assert!(writes.is_empty());
    assert_eq!(reg.size(), 1);
}

#[test]
fn flush_skips_entries_enqueued_after_compute() {
    let mut reg: Registry<u64> = Registry::new();
    reg.enqueue(1, 100, LightingSample::new());
    reg.enqueue(2, 200, LightingSample::new());
    reg.compute();
    reg.enqueue(3, 300, LightingSample::new());
    let writes = reg.flush();
    assert_eq!(writes.len(), 2);
    assert!(writes.iter().all(|w| w.handle == 1 || w.handle == 2));
    assert_eq!(reg.size(), 1);
}

#[test]
fn re_enqueue_overwrites_pending_work() {
    let mut reg: Registry<u64> = Registry::new();
    reg.enqueue(9, 900, LightingSample::with_corners(corner(UNIT, UNIT, 0, 0), None, None, None));
    reg.compute();
    // re-enqueueing the same handle discards the completed work
    reg.enqueue(9, 901, LightingSample::new());
    assert_eq!(reg.size(), 1);
    let none_yet = reg.flush();
    assert!(none_yet.is_empty());
    reg.compute();
    let writes = reg.flush();
    assert_eq!(writes.len(), 1);
    assert_eq!(writes[0].handle, 9);
    assert_eq!(writes[0].external_ref, 901);
    assert_eq!(writes[0].result.icon_state, IconState::Dark);
    assert_eq!(reg.size(), 0);
}

#[test]
fn icon_state_labels() {
    assert_eq!(IconState::Dark.label(), Some("dark"));
    assert_eq!(IconState::Transparent.label(), Some("transparent"));
    assert_eq!(IconState::Lit.label(), None);
}

#[test]
fn luminous_flag_tracks_max_intensity() {
    // luminosity is the greatest max-intensity being positive, whichever
    // corner carries it
    for pos in 0..4 {
        let c = corner(3, 0, 0, 0);
        let s = match pos {
            0 => LightingSample::with_corners(c, None, None, None),
            1 => LightingSample::with_corners(None, c, None, None),
            2 => LightingSample::with_corners(None, None, c, None),
            _ => LightingSample::with_corners(None, None, None, c),
        };
        let r = blend(&s);
        assert!(r.luminous);
    }
}
