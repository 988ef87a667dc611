use screenshot::capture::{
    crop_image_region, AppState, CaptureError, CaptureRegion, LongCapture, LongCaptureStep,
    MonitorSnapshot,
};
use screenshot::raster::RgbaImage;

fn numbered(width: u32, height: u32, seed: u32) -> RgbaImage {
    let mut data = Vec::new();
    for y in 0..height {
        for x in 0..width {
            let v = ((x * 7 + y * 31 + seed * 101) % 256) as u8;
            data.extend_from_slice(&[v, v / 2, 255 - v, 255]);
        }
    }
    RgbaImage::from_raw(width, height, data).unwrap()
}

fn region(monitor_id: u32, x: u32, y: u32, width: u32, height: u32) -> CaptureRegion {
    CaptureRegion { monitor_id, x, y, width, height }
}

fn snapshot(id: u32, image: RgbaImage) -> MonitorSnapshot {
    MonitorSnapshot::new(id, format!("Display {id}"), 0, 0, 1.5_f32.to_bits(), "data:preview".to_string(), image)
}

#[test]
fn crop_image_region_checks_bounds() {
    let image = numbered(10, 8, 0);
    let cropped = crop_image_region(&image, &region(0, 2, 3, 4, 5)).unwrap();
    assert_eq!(cropped.dimensions(), (4, 5));
    assert_eq!(cropped.get_pixel(0, 0), image.get_pixel(2, 3));
    assert_eq!(cropped.get_pixel(3, 4), image.get_pixel(5, 7));
    assert!(crop_image_region(&image, &region(0, 2, 3, 9, 5)).is_none());
    assert!(crop_image_region(&image, &region(0, u32::MAX, 0, 2, 2)).is_none());
}

#[test]
fn no_monitor_is_refused() {
    let mut state: AppState<u8> = AppState::new();
    assert_eq!(state.store_snapshots(Vec::new()), Err(CaptureError::NoMonitors));
}

#[test]
fn overlay_snapshot_reports_the_monitor() {
    let mut state: AppState<u8> = AppState::new();
    state.store_snapshots(vec![snapshot(3, numbered(6, 4, 1)), snapshot(5, numbered(2, 2, 2))]).unwrap();
    let overlay = state.get_overlay_snapshot(3).unwrap();
    assert_eq!(overlay.monitor_id, 3);
    assert_eq!(overlay.name, "Display 3");
    assert_eq!((overlay.width, overlay.height), (6, 4));
    assert_eq!(f32::from_bits(overlay.scale_factor_bits), 1.5);
    assert_eq!(overlay.data_url, "data:preview");
    assert!(matches!(state.get_overlay_snapshot(4), Err(CaptureError::SessionExpired)));
}

#[test]
fn later_snapshot_of_a_monitor_replaces_earlier() {
    let mut state: AppState<u8> = AppState::new();
    state.store_snapshots(vec![snapshot(1, numbered(6, 4, 1)), snapshot(1, numbered(3, 3, 2))]).unwrap();
    let overlay = state.get_overlay_snapshot(1).unwrap();
    assert_eq!((overlay.width, overlay.height), (3, 3));
}

#[test]
fn region_capture_crops_and_clears() {
    let image = numbered(20, 10, 4);
    let mut state: AppState<u8> = AppState::new();
    state.store_snapshots(vec![snapshot(1, image.duplicate())]).unwrap();
    assert!(matches!(state.finish_region_capture(&region(1, 0, 0, 1, 5)), Err(CaptureError::RegionTooSmall)));
    assert!(matches!(state.finish_region_capture(&region(2, 0, 0, 5, 5)), Err(CaptureError::SessionExpired)));
    assert!(matches!(state.finish_region_capture(&region(1, 18, 0, 5, 5)), Err(CaptureError::RegionOutOfBounds)));
    // Refusals keep the snapshots.
    let cropped = state.finish_region_capture(&region(1, 3, 2, 5, 6)).unwrap();
    assert!(cropped.as_raw() == image.crop(3, 2, 5, 6).as_raw());
    // Afterwards the session is over.
    assert!(matches!(state.crop_snapshot(&region(1, 3, 2, 5, 6)), Err(CaptureError::SessionExpired)));
}

#[test]
fn long_capture_lifecycle() {
    let mut state: AppState<&str> = AppState::new();
    assert_eq!(state.check_can_begin(), Ok(()));
    state.store_snapshots(vec![snapshot(7, numbered(30, 30, 0))]).unwrap();
    let first = state.start_long_capture(&region(7, 0, 0, 10, 10), "stop-1").unwrap();
    assert_eq!(first.dimensions(), (10, 10));
    assert!(state.is_long_capture_active());
    assert_eq!(state.long_capture_signal(), Some(&"stop-1"));
    assert_eq!(state.check_can_begin(), Err(CaptureError::LongCaptureRunning));
    assert!(matches!(
        state.start_long_capture(&region(7, 0, 0, 10, 10), "stop-2"),
        Err(CaptureError::LongCaptureAlreadyRunning)
    ));
    assert_eq!(state.long_capture_signal(), Some(&"stop-1"));
    state.clear_long_capture();
    assert!(!state.is_long_capture_active());
    assert_eq!(state.long_capture_signal(), None);
}

#[test]
fn failed_long_capture_start_changes_nothing() {
    let mut state: AppState<&str> = AppState::new();
    state.store_snapshots(vec![snapshot(7, numbered(30, 30, 0))]).unwrap();
    assert!(matches!(
        state.start_long_capture(&region(7, 25, 0, 10, 10), "stop"),
        Err(CaptureError::RegionOutOfBounds)
    ));
    assert!(!state.is_long_capture_active());
    assert!(state.get_overlay_snapshot(7).is_ok());
    state.cancel_capture();
    assert!(state.get_overlay_snapshot(7).is_err());
}

#[test]
fn capture_gives_up_after_eight_failures() {
    let mut capture = LongCapture::new(numbered(40, 200, 0));
    for _ in 0..7 {
        assert_eq!(capture.capture_failed(), LongCaptureStep::Continue);
    }
    assert_eq!(capture.capture_failed(), LongCaptureStep::Failed);
}

#[test]
fn added_rows_reset_failures() {
    let mut capture = LongCapture::new(numbered(40, 200, 0));
    for _ in 0..7 {
        assert_eq!(capture.capture_failed(), LongCaptureStep::Continue);
    }
    let step = capture.frame_captured(numbered(40, 200, 1), |_: &RgbaImage, _: &RgbaImage| Some(50_u32));
    assert_eq!(step, LongCaptureStep::Progress);
    assert_eq!(capture.total_height(), 250);
    for _ in 0..7 {
        assert_eq!(capture.capture_failed(), LongCaptureStep::Continue);
    }
    assert_eq!(capture.capture_failed(), LongCaptureStep::Failed);
}

#[test]
fn unmatched_frames_count_as_failures() {
    let mut capture = LongCapture::new(numbered(40, 200, 0));
    for seed in 1..8 {
        let step = capture.frame_captured(numbered(40, 200, seed), |_: &RgbaImage, _: &RgbaImage| None);
        assert_eq!(step, LongCaptureStep::Continue);
    }
    assert_eq!(capture.capture_failed(), LongCaptureStep::Failed);
    assert_eq!(capture.total_height(), 200);
    let same = capture.frame_captured(numbered(40, 200, 0), |_: &RgbaImage, _: &RgbaImage| Some(10_u32));
    assert_eq!(same, LongCaptureStep::Continue);
    assert_eq!(capture.finish().height(), 200);
}

#[test]
fn limit_ends_long_capture() {
    let mut capture = LongCapture::new(numbered(32, 500, 0));
    let mut seed = 1;
    loop {
        let step = capture.frame_captured(numbered(32, 500, seed), |_: &RgbaImage, _: &RgbaImage| Some(375_u32));
        if step == LongCaptureStep::LimitReached {
            break;
        }
        assert_eq!(step, LongCaptureStep::Progress);
        seed += 1;
    }
    assert_eq!(capture.total_height(), 40_000);
}
