//! The capture session: frozen monitor snapshots that the user selects a
//! region on, the crop of a selected region, and the bookkeeping of a
//! running long capture.
use vstd::prelude::*;

use std::collections::HashMap;

use crate::raster::{ImageModel, RgbaImage};
use crate::stitch::{plausible_shift, ScrollStitcher, StitchModel, StitchOutcome};

verus! {

broadcast use vstd::std_specs::hash::group_hash_axioms;

/// Why a capture request was refused.
#[derive(Debug, Clone, Copy, PartialEq, Eq, Structural)]
pub enum CaptureError {
    /// A long capture is running; it must be stopped first.
    LongCaptureRunning,
    /// A long capture was asked for while one is running.
    LongCaptureAlreadyRunning,
    /// The selected region is narrower or lower than two pixels.
    RegionTooSmall,
    /// No snapshot of the selected monitor is held.
    SessionExpired,
    /// The selected region leaves the monitor.
    RegionOutOfBounds,
    /// No monitor could be captured.
    NoMonitors,
}

/// A rectangle selected on one monitor, in that monitor's pixels.
#[derive(Debug, Clone, Copy, PartialEq, Eq, Structural)]
pub struct CaptureRegion {
    pub monitor_id: u32,
    pub x: u32,
    pub y: u32,
    pub width: u32,
    pub height: u32,
}

/// A frozen picture of one monitor: its id, name and position, and its
/// picture, whose size is the monitor's size.  The scale factor is carried
/// as the bit pattern of the platform's single-precision value.
pub struct MonitorSnapshot {
    id: u32,
    name: String,
    x: i32,
    y: i32,
    width: u32,
    height: u32,
    scale_factor_bits: u32,
    preview_data_url: String,
    image: RgbaImage,
}

/// What a snapshot holds; its size is that of its image.
#[verifier::ext_equal]
pub struct SnapshotView {
    pub id: u32,
    pub name: Seq<char>,
    pub x: i32,
    pub y: i32,
    pub scale_factor_bits: u32,
    pub preview_data_url: Seq<char>,
    pub image: ImageModel,
}

impl View for MonitorSnapshot {
    type V = SnapshotView;

    closed spec fn view(&self) -> SnapshotView {
        SnapshotView {
            id: self.id,
            name: self.name@,
            x: self.x,
            y: self.y,
            scale_factor_bits: self.scale_factor_bits,
            preview_data_url: self.preview_data_url@,
            image: self.image@,
        }
    }
}

/// What the selection overlay of one monitor is given.
pub struct OverlaySnapshot {
    pub monitor_id: u32,
    pub name: String,
    pub width: u32,
    pub height: u32,
    pub scale_factor_bits: u32,
    pub data_url: String,
}

impl MonitorSnapshot {
    /// A snapshot whose size is that of its image.
    pub fn new(
        id: u32,
        name: String,
        x: i32,
        y: i32,
        scale_factor_bits: u32,
        preview_data_url: String,
        image: RgbaImage,
    ) -> (s: MonitorSnapshot)
        ensures
            s@ == (SnapshotView {
                id,
                name: name@,
                x,
                y,
                scale_factor_bits,
                preview_data_url: preview_data_url@,
                image: image@,
            }),
    {
        let (width, height) = image.dimensions();
        MonitorSnapshot { id, name, x, y, width, height, scale_factor_bits, preview_data_url, image }
    }

    /// The size always is the size of the picture.
    #[verifier::type_invariant]
    spec fn size_matches_image(self) -> bool {
        self.width == self.image@.width && self.height == self.image@.height
    }

    /// Id of the monitor.
    pub fn id(&self) -> (id: u32)
        ensures
            id == self@.id,
    {
        self.id
    }

    /// Left edge of the monitor on the desktop.
    pub fn x(&self) -> (x: i32)
        ensures
            x == self@.x,
    {
        self.x
    }

    /// Top edge of the monitor on the desktop.
    pub fn y(&self) -> (y: i32)
        ensures
            y == self@.y,
    {
        self.y
    }

    /// Width of the monitor in pixels.
    pub fn width(&self) -> (w: u32)
        ensures
            w == self@.image.width,
    {
        proof {
            use_type_invariant(self);
        }
        self.width
    }

    /// Height of the monitor in pixels.
    pub fn height(&self) -> (h: u32)
        ensures
            h == self@.image.height,
    {
        proof {
            use_type_invariant(self);
        }
        self.height
    }
}

/// `a + b`, or `u32::MAX` when that overflows.
pub open spec fn saturating_add(a: u32, b: u32) -> int {
    if a + b > u32::MAX {
        u32::MAX as int
    } else {
        a + b
    }
}

/// The crop of `image` to `region`, or `None` when the region leaves it.
pub open spec fn region_of_image(image: ImageModel, region: CaptureRegion) -> Option<ImageModel> {
    if region.x + region.width > u32::MAX || region.y + region.height > u32::MAX {
        None
    } else if region.x + region.width > image.width || region.y + region.height > image.height {
        None
    } else {
        Some(
            image.crop(
                region.x as int,
                region.y as int,
                region.width as nat,
                region.height as nat,
            ),
        )
    }
}

/// The image that selecting `region` on the held snapshots gives, or why
/// it cannot be had.
pub open spec fn region_capture(snapshots: Map<u32, MonitorSnapshot>, region: CaptureRegion) -> Result<
    ImageModel,
    CaptureError,
> {
    if region.width < 2 || region.height < 2 {
        Err(CaptureError::RegionTooSmall)
    } else if !snapshots.contains_key(region.monitor_id) {
        Err(CaptureError::SessionExpired)
    } else {
        let s = snapshots[region.monitor_id]@;
        if saturating_add(region.x, region.width) > s.image.width || saturating_add(
            region.y,
            region.height,
        ) > s.image.height {
            Err(CaptureError::RegionOutOfBounds)
        } else {
            match region_of_image(s.image, region) {
                Some(img) => Ok(img),
                None => Err(CaptureError::RegionOutOfBounds),
            }
        }
    }
}

/// Crops an image to a region; `None` when the region leaves the image.
pub fn crop_image_region(image: &RgbaImage, region: &CaptureRegion) -> (r: Option<RgbaImage>)
    ensures
        match region_of_image(image@, *region) {
            Some(m) => r matches Some(img) && img@ == m,
            None => r is None,
        },
{
    let right = match region.x.checked_add(region.width) {
        Some(v) => v,
        None => {
            return None;
        },
    };
    let bottom = match region.y.checked_add(region.height) {
        Some(v) => v,
        None => {
            return None;
        },
    };
    let (width, height) = image.dimensions();
    if right > width || bottom > height {
        return None;
    }
    Some(image.crop(region.x, region.y, region.width, region.height))
}

/// The state of the capture commands: the snapshots that the selection
/// overlays show, and the stop signal of a running long capture.
pub struct AppState<T> {
    snapshots: HashMap<u32, MonitorSnapshot>,
    long_capture_cancel: Option<T>,
}

/// The snapshots held after storing a list of them, later ones replacing
/// earlier ones of the same monitor.
pub open spec fn snapshot_map(list: Seq<MonitorSnapshot>) -> Map<u32, MonitorSnapshot>
    decreases list.len(),
{
    if list.len() == 0 {
        Map::empty()
    } else {
        snapshot_map(list.drop_last()).insert(list.last()@.id, list.last())
    }
}

impl<T> AppState<T> {
    /// Snapshots currently held, by monitor.
    pub closed spec fn snapshots(&self) -> Map<u32, MonitorSnapshot> {
        self.snapshots@
    }

    /// Stop signal of the running long capture, if any.
    pub closed spec fn long_capture(&self) -> Option<T> {
        self.long_capture_cancel
    }

    /// No snapshot and no long capture.
    pub fn new() -> (s: AppState<T>)
        ensures
            s.snapshots() == Map::<u32, MonitorSnapshot>::empty(),
            s.long_capture() is None,
    {
        AppState { snapshots: HashMap::new(), long_capture_cancel: None }
    }

    /// Whether a long capture is running.
    pub fn is_long_capture_active(&self) -> (active: bool)
        ensures
            active == self.long_capture() is Some,
    {
        self.long_capture_cancel.is_some()
    }

    /// The stop signal of the running long capture, if any.
    pub fn long_capture_signal(&self) -> (signal: Option<&T>)
        ensures
            match self.long_capture() {
                Some(t) => signal == Some(&t),
                None => signal is None,
            },
    {
        match &self.long_capture_cancel {
            Some(t) => Some(t),
            None => None,
        }
    }

    /// A new capture may start only while no long capture runs.
    pub fn check_can_begin(&self) -> (r: Result<(), CaptureError>)
        ensures
            r == if self.long_capture() is Some {
                Err(CaptureError::LongCaptureRunning)
            } else {
                Ok::<(), CaptureError>(())
            },
    {
        if self.long_capture_cancel.is_some() {
            Err(CaptureError::LongCaptureRunning)
        } else {
            Ok(())
        }
    }

    /// Replaces the held snapshots by freshly captured ones; refused, with
    /// nothing changed, when there are none.
    pub fn store_snapshots(&mut self, list: Vec<MonitorSnapshot>) -> (r: Result<(), CaptureError>)
        ensures
            final(self).long_capture() == old(self).long_capture(),
            list@.len() == 0 ==> r == Err::<(), CaptureError>(CaptureError::NoMonitors)
                && final(self).snapshots() == old(self).snapshots(),
            list@.len() > 0 ==> r is Ok && final(self).snapshots() == snapshot_map(list@),
    {
        if list.len() == 0 {
            return Err(CaptureError::NoMonitors);
        }
        let ghost items = list@;
        let mut map: HashMap<u32, MonitorSnapshot> = HashMap::new();
        let mut rest = list;
        let n = rest.len();
        let mut k: usize = 0;
        proof {
            assert(items.subrange(0, 0) =~= Seq::<MonitorSnapshot>::empty());
            assert(items.subrange(0, n as int) =~= items);
        }
        while k < n
            invariant
                k <= n,
                n == items.len(),
                rest@ == items.subrange(k as int, n as int),
                map@ == snapshot_map(items.subrange(0, k as int)),
            decreases n - k,
        {
            let s = rest.remove(0);
            proof {
                assert(s == items[k as int]);
                assert(rest@ =~= items.subrange(k + 1, n as int));
                let next = items.subrange(0, k + 1);
                assert(next.drop_last() =~= items.subrange(0, k as int));
                assert(next.last() == s);
            }
            map.insert(s.id, s);
            k = k + 1;
        }
        proof {
            assert(items.subrange(0, n as int) =~= items);
        }
        self.snapshots = map;
        Ok(())
    }

    /// What the selection overlay of one monitor shows.
    pub fn get_overlay_snapshot(&self, monitor_id: u32) -> (r: Result<OverlaySnapshot, CaptureError>)
        ensures
            !self.snapshots().contains_key(monitor_id) ==> r == Err::<OverlaySnapshot, CaptureError>(
                CaptureError::SessionExpired,
            ),
            self.snapshots().contains_key(monitor_id) ==> (r matches Ok(o) && {
                let s = self.snapshots()[monitor_id]@;
                &&& o.monitor_id == s.id
                &&& o.name@ == s.name
                &&& o.width == s.image.width
                &&& o.height == s.image.height
                &&& o.scale_factor_bits == s.scale_factor_bits
                &&& o.data_url@ == s.preview_data_url
            }),
    {
        match self.snapshots.get(&monitor_id) {
            Some(s) => {
                proof {
                    use_type_invariant(s);
                }
                Ok(
                OverlaySnapshot {
                    monitor_id: s.id,
                    name: s.name.clone(),
                    width: s.width,
                    height: s.height,
                    scale_factor_bits: s.scale_factor_bits,
                    data_url: s.preview_data_url.clone(),
                },
            )
            },
            None => Err(CaptureError::SessionExpired),
        }
    }

    /// The selected region of its monitor's snapshot.
    pub fn crop_snapshot(&self, region: &CaptureRegion) -> (r: Result<RgbaImage, CaptureError>)
        ensures
            match region_capture(self.snapshots(), *region) {
                Ok(m) => r matches Ok(img) && img@ == m,
                Err(e) => r matches Err(f) && f == e,
            },
            ({
                let image = self.snapshots()[region.monitor_id]@.image;
                region.width >= 2 && region.height >= 2 && self.snapshots().contains_key(
                    region.monitor_id,
                ) && region.x + region.width <= image.width && region.y + region.height
                    <= image.height ==> (r matches Ok(img) && img@ == image.crop(
                    region.x as int,
                    region.y as int,
                    region.width as nat,
                    region.height as nat,
                ))
            }),
    {
        if region.width < 2 || region.height < 2 {
            return Err(CaptureError::RegionTooSmall);
        }
        let snapshot = match self.snapshots.get(&region.monitor_id) {
            Some(s) => s,
            None => {
                return Err(CaptureError::SessionExpired);
            },
        };
        proof {
            use_type_invariant(snapshot);
            crate::raster::lemma_image_wf(&snapshot.image);
            lemma_region_within_snapshot(self.snapshots(), *region);
        }
        let right = region.x.saturating_add(region.width);
        let bottom = region.y.saturating_add(region.height);
        if right > snapshot.width || bottom > snapshot.height {
            return Err(CaptureError::RegionOutOfBounds);
        }
        match crop_image_region(&snapshot.image, region) {
            Some(img) => Ok(img),
            None => Err(CaptureError::RegionOutOfBounds),
        }
    }

    /// Ends a region selection with an ordinary screenshot: the crop of
    /// the region, after which the snapshots are dropped.  Nothing changes
    /// when the crop is refused.
    pub fn finish_region_capture(&mut self, region: &CaptureRegion) -> (r: Result<RgbaImage, CaptureError>)
        ensures
            final(self).long_capture() == old(self).long_capture(),
            match region_capture(old(self).snapshots(), *region) {
                Ok(m) => r matches Ok(img) && img@ == m && final(self).snapshots()
                    == Map::<u32, MonitorSnapshot>::empty(),
                Err(e) => r matches Err(f) && f == e && final(self).snapshots() == old(
                    self,
                ).snapshots(),
            },
    {
        let image = self.crop_snapshot(region)?;
        self.snapshots.clear();
        Ok(image)
    }

    /// Ends a region selection with the start of a long capture: the crop
    /// of the region is its first frame, the snapshots are dropped and
    /// `signal` becomes the stop signal.  Refused, with nothing changed,
    /// while a long capture runs or when the crop is refused.
    pub fn start_long_capture(&mut self, region: &CaptureRegion, signal: T) -> (r: Result<RgbaImage, CaptureError>)
        ensures
            old(self).long_capture() is Some ==> (r matches Err(e) && e
                == CaptureError::LongCaptureAlreadyRunning && final(self).snapshots() == old(
                self,
            ).snapshots() && final(self).long_capture() == old(self).long_capture()),
            old(self).long_capture() is None ==> match region_capture(old(self).snapshots(), *region) {
                Ok(m) => r matches Ok(img) && img@ == m && final(self).snapshots() == Map::<
                    u32,
                    MonitorSnapshot,
                >::empty() && final(self).long_capture() == Some(signal),
                Err(e) => r matches Err(f) && f == e && final(self).snapshots() == old(
                    self,
                ).snapshots() && final(self).long_capture() is None,
            },
    {
        if self.long_capture_cancel.is_some() {
            return Err(CaptureError::LongCaptureAlreadyRunning);
        }
        let first_frame = self.crop_snapshot(region)?;
        self.snapshots.clear();
        self.long_capture_cancel = Some(signal);
        Ok(first_frame)
    }

    /// Forgets the stop signal once a long capture has ended.
    pub fn clear_long_capture(&mut self)
        ensures
            final(self).long_capture() is None,
            final(self).snapshots() == old(self).snapshots(),
    {
        self.long_capture_cancel = None;
    }

    /// Drops the snapshots when a selection is cancelled.
    pub fn cancel_capture(&mut self)
        ensures
            final(self).snapshots() == Map::<u32, MonitorSnapshot>::empty(),
            final(self).long_capture() == old(self).long_capture(),
    {
        self.snapshots.clear();
    }
}

/// Cropping an image to a region succeeds exactly when the region lies
/// within the image (touching its right or bottom edge included), and then
/// gives exactly that part of the image.
pub proof fn lemma_region_of_image_inside(image: ImageModel, region: CaptureRegion)
    requires
        image.width <= u32::MAX,
        image.height <= u32::MAX,
    ensures
        region.x + region.width <= image.width && region.y + region.height <= image.height
            ==> region_of_image(image, region) == Some(
            image.crop(region.x as int, region.y as int, region.width as nat, region.height as nat),
        ),
        region.x + region.width > image.width || region.y + region.height > image.height
            ==> region_of_image(image, region) is None,
{
}

/// A selection of at least 2 by 2 pixels on a monitor whose snapshot is
/// held is answered with exactly that part of the snapshot when it lies
/// within the snapshot, a selection of the whole screen or one touching
/// its right or bottom edge included; it is refused as out of bounds
/// exactly when it reaches past the snapshot's right or bottom edge.
pub proof fn lemma_region_within_snapshot(snapshots: Map<u32, MonitorSnapshot>, region: CaptureRegion)
    requires
        region.width >= 2,
        region.height >= 2,
        snapshots.contains_key(region.monitor_id),
        snapshots[region.monitor_id]@.image.width <= u32::MAX,
        snapshots[region.monitor_id]@.image.height <= u32::MAX,
    ensures
        ({
            let image = snapshots[region.monitor_id]@.image;
            &&& region.x + region.width <= image.width && region.y + region.height <= image.height
                ==> region_capture(snapshots, region) == Ok::<ImageModel, CaptureError>(
                image.crop(region.x as int, region.y as int, region.width as nat, region.height as nat),
            )
            &&& region.x + region.width > image.width || region.y + region.height > image.height
                ==> region_capture(snapshots, region) == Err::<ImageModel, CaptureError>(
                CaptureError::RegionOutOfBounds,
            )
        }),
{
    lemma_region_of_image_inside(snapshots[region.monitor_id]@.image, region);
}

/// Once a selection has ended, the snapshots are gone and every further
/// request for a region is refused: as too small, or as expired.
pub proof fn lemma_ended_session_refuses(region: CaptureRegion)
    ensures
        region_capture(Map::<u32, MonitorSnapshot>::empty(), region) is Err,
{
}

/// Consecutive failures after which a long capture gives up.
pub const MAX_CAPTURE_FAILURES: u32 = 8;

/// Cap of the failure count that unmatched frames raise.
pub const MAX_MATCH_FAILURES: u32 = 20;

/// What the capture loop does after an event of a long capture.
#[derive(Debug, Clone, Copy, PartialEq, Eq, Structural)]
pub enum LongCaptureStep {
    /// Capture the next frame.
    Continue,
    /// Report the new height, then capture the next frame.
    Progress,
    /// Report that capturing keeps failing, and stop.
    Failed,
    /// Report that the size limit was reached, and stop.
    LimitReached,
}

/// A running long capture: the stitcher and the count of recent failures.
pub struct LongCapture {
    stitcher: ScrollStitcher,
    failures: u32,
}

impl LongCapture {
    pub closed spec fn stitcher_model(&self) -> StitchModel {
        self.stitcher@
    }

    /// The frame that the next captured frame is matched against.
    pub closed spec fn last_frame(&self) -> RgbaImage {
        self.stitcher.last_frame_value()
    }

    /// The frame that the next captured frame is matched against is the
    /// last frame of the stitcher's model.
    pub proof fn lemma_last_frame(&self)
        ensures
            self.last_frame()@ == self.stitcher_model().last_frame,
    {
        self.stitcher.lemma_last_frame_value();
    }

    /// Failures since the last frame that added rows.
    pub closed spec fn failures(&self) -> nat {
        self.failures as nat
    }

    /// Starts with the first frame and no failure.
    pub fn new(first_frame: RgbaImage) -> (lc: LongCapture)
        ensures
            lc.stitcher_model().well_formed(),
            lc.stitcher_model().total_height == first_frame@.height,
            lc.stitcher_model().last_frame == first_frame@,
            lc.failures() == 0,
    {
        LongCapture { stitcher: ScrollStitcher::new(first_frame), failures: 0 }
    }

    /// Height of the long screenshot so far.
    pub fn total_height(&self) -> (h: u32)
        ensures
            h == self.stitcher_model().total_height,
    {
        self.stitcher.total_height()
    }

    /// A frame could not be captured: one more failure; the capture gives
    /// up once failures reach [`MAX_CAPTURE_FAILURES`].
    pub fn capture_failed(&mut self) -> (step: LongCaptureStep)
        ensures
            final(self).stitcher_model() == old(self).stitcher_model(),
            final(self).failures() == if old(self).failures() < u32::MAX {
                old(self).failures() + 1
            } else {
                old(self).failures()
            },
            step == if final(self).failures() >= MAX_CAPTURE_FAILURES {
                LongCaptureStep::Failed
            } else {
                LongCaptureStep::Continue
            },
    {
        self.failures = self.failures.saturating_add(1);
        if self.failures >= MAX_CAPTURE_FAILURES {
            LongCaptureStep::Failed
        } else {
            LongCaptureStep::Continue
        }
    }

    /// A frame was captured and offered to the stitcher: rows added reset
    /// the failures and are reported; a frame that matches nothing counts
    /// as a failure, up to [`MAX_MATCH_FAILURES`]; the size limit ends the
    /// capture.
    pub fn frame_captured<F: Fn(&RgbaImage, &RgbaImage) -> Option<u32>>(
        &mut self,
        frame: RgbaImage,
        find_shift: F,
    ) -> (step: LongCaptureStep)
        requires
            old(self).stitcher_model().well_formed(),
            forall|a: RgbaImage, b: RgbaImage| #[trigger] find_shift.requires((&a, &b)),
            forall|a: RgbaImage, b: RgbaImage, s: Option<u32>|
                #[trigger] find_shift.ensures((&a, &b), s) ==> (s matches Some(v) ==> plausible_shift(
                    a@.width,
                    a@.height,
                    v as nat,
                )),
        ensures
            final(self).stitcher_model().well_formed(),
            exists|outcome: StitchOutcome|
                {
                    &&& stitch_step(outcome) == step
                    &&& final(self).failures() == failures_after(old(self).failures(), outcome)
                    &&& push_agrees(
                        old(self).stitcher_model(),
                        final(self).stitcher_model(),
                        old(self).last_frame(),
                        frame,
                        find_shift,
                        outcome,
                    )
                },
            frame@.width == old(self).stitcher_model().last_frame.width && frame@.height == old(
                self,
            ).stitcher_model().last_frame.height && crate::stitch::frames_look_unchanged(
                old(self).stitcher_model().last_frame,
                frame@,
            ) ==> {
                &&& step == LongCaptureStep::Continue
                &&& final(self).failures() == old(self).failures()
                &&& final(self).stitcher_model() == old(self).stitcher_model()
            },
            final(self).failures() > old(self).failures() ==> {
                &&& step == LongCaptureStep::Continue
                &&& final(self).failures() == old(self).failures() + 1
                &&& final(self).stitcher_model() == old(self).stitcher_model()
            },
    {
        let ghost before = self.stitcher@;
        let ghost last = self.stitcher.last_frame_value();
        let ghost old_failures = self.failures as nat;
        let ghost fr = frame;
        let ghost fm = frame@;
        let outcome = self.stitcher.try_push(frame, find_shift);
        proof {
            if !(fm.width != before.last_frame.width || fm.height != before.last_frame.height)
                && !crate::stitch::frames_look_unchanged(before.last_frame, fm) {
                let s = choose|s: Option<u32>|
                    #[trigger] find_shift.ensures((&last, &fr), s)
                        && (self.stitcher@, outcome) == before.after_shift(fm, s);
                assert(find_shift.ensures((&last, &fr), s));
                assert((self.stitcher@, outcome) == before.after_shift(fm, s));
            }
            assert(push_agrees(before, self.stitcher@, last, fr, find_shift, outcome));
        }
        let step = match outcome {
            StitchOutcome::Added(_) => {
                self.failures = 0;
                LongCaptureStep::Progress
            },
            StitchOutcome::Unchanged => LongCaptureStep::Continue,
            StitchOutcome::NoReliableMatch => {
                let raised = self.failures.saturating_add(1);
                self.failures = if raised < MAX_MATCH_FAILURES {
                    raised
                } else {
                    MAX_MATCH_FAILURES
                };
                LongCaptureStep::Continue
            },
            StitchOutcome::LimitReached => LongCaptureStep::LimitReached,
        };
        proof {
            assert(stitch_step(outcome) == step);
            assert(self.failures as nat == failures_after(old_failures, outcome));
        }
        step
    }

    /// Ends the capture with the long screenshot.
    pub fn finish(self) -> (out: RgbaImage)
        requires
            self.stitcher_model().well_formed(),
        ensures
            out@.width == self.stitcher_model().width,
            out@.height == self.stitcher_model().total_height,
            out@ == crate::stitch::compose(
                self.stitcher_model().segments,
                self.stitcher_model().segments.len(),
                self.stitcher_model().width,
                self.stitcher_model().total_height,
            ),
    {
        self.stitcher.finish()
    }
}

/// The step that the loop takes after a stitch outcome.
pub open spec fn stitch_step(outcome: StitchOutcome) -> LongCaptureStep {
    match outcome {
        StitchOutcome::Added(_) => LongCaptureStep::Progress,
        StitchOutcome::Unchanged => LongCaptureStep::Continue,
        StitchOutcome::NoReliableMatch => LongCaptureStep::Continue,
        StitchOutcome::LimitReached => LongCaptureStep::LimitReached,
    }
}

/// Frames that show what the last one showed are no failure: after an
/// `Unchanged` outcome the failure count is what it was and the capture
/// goes on, so a capture failure right after such frames ends the capture
/// only if the failures before them had already nearly reached
/// [`MAX_CAPTURE_FAILURES`].
pub proof fn lemma_unchanged_frame_is_no_failure(failures: nat)
    ensures
        failures_after(failures, StitchOutcome::Unchanged) == failures,
        stitch_step(StitchOutcome::Unchanged) == LongCaptureStep::Continue,
        failures_after(failures, StitchOutcome::Unchanged) + 1 >= MAX_CAPTURE_FAILURES ==> failures
            >= MAX_CAPTURE_FAILURES - 1,
{
}

/// Only an unmatched frame raises the failure count, by one and up to
/// [`MAX_MATCH_FAILURES`]; rows added clear it, and any other outcome
/// leaves it.
pub proof fn lemma_failures_after_outcomes(failures: nat, outcome: StitchOutcome)
    ensures
        failures_after(failures, outcome) <= failures + 1,
        failures_after(failures, outcome) > failures ==> outcome == StitchOutcome::NoReliableMatch,
        outcome is Added ==> failures_after(failures, outcome) == 0,
        outcome == StitchOutcome::Unchanged || outcome == StitchOutcome::LimitReached
            ==> failures_after(failures, outcome) == failures,
{
}

/// The failure count after a stitch outcome.
pub open spec fn failures_after(failures: nat, outcome: StitchOutcome) -> nat {
    match outcome {
        StitchOutcome::Added(_) => 0,
        StitchOutcome::NoReliableMatch => if failures + 1 < MAX_MATCH_FAILURES {
            failures + 1
        } else {
            MAX_MATCH_FAILURES as nat
        },
        _ => failures,
    }
}

/// The stitcher went from `before` to `after` by pushing `frame` with the
/// given outcome: a frame of another size, or whose content did not
/// change, is not matched; otherwise `find_shift`, given the last frame
/// and the new one, returned the shift with which the frame was stitched.
pub open spec fn push_agrees<F: Fn(&RgbaImage, &RgbaImage) -> Option<u32>>(
    before: StitchModel,
    after: StitchModel,
    last: RgbaImage,
    frame: RgbaImage,
    find_shift: F,
    outcome: StitchOutcome,
) -> bool {
    if frame@.width != before.last_frame.width || frame@.height != before.last_frame.height {
        after == before && outcome == StitchOutcome::NoReliableMatch
    } else if crate::stitch::frames_look_unchanged(before.last_frame, frame@) {
        after == before && outcome == StitchOutcome::Unchanged
    } else {
        exists|s: Option<u32>|
            #[trigger] find_shift.ensures((&last, &frame), s) && (after, outcome)
                == before.after_shift(frame@, s)
    }
}

} // verus!
