use std::collections::HashSet;
use vstd::prelude::*;

verus! {

/// Where the user is in the load / calibrate / segment workflow.  `P` is a
/// point on the displayed image in normalised coordinates.
#[derive(Copy, Debug, PartialEq)]
pub enum Mode<P> {
    Idle,
    Ready,
    CalibP1,
    CalibP2 { p1: P },
    CalibLen { p1: P, p2: P },
    Segmented,
}

impl<P: Copy> Clone for Mode<P> {
    fn clone(&self) -> (r: Self)
        ensures
            r == *self,
    {
        *self
    }
}

impl<P: Copy> Mode<P> {
    /// Calibration is under way (a reference line is being drawn or measured).
    pub open spec fn calibrating(self) -> bool {
        self is CalibP1 || self is CalibP2 || self is CalibLen
    }

    pub fn is_calibrating(&self) -> (r: bool)
        ensures
            r == self.calibrating(),
    {
        match self {
            Mode::CalibP1 | Mode::CalibP2 { .. } | Mode::CalibLen { .. } => true,
            _ => false,
        }
    }

    /// Clicks on the image mean something: picking a calibration endpoint or
    /// selecting a region.
    pub fn accepts_clicks(&self) -> (r: bool)
        ensures
            r == (self is CalibP1 || self is CalibP2 || self is Segmented),
    {
        match self {
            Mode::CalibP1 | Mode::CalibP2 { .. } | Mode::Segmented => true,
            _ => false,
        }
    }

    /// The mode after a click at `norm`: the first click of a calibration
    /// records the first endpoint, the second click the second one; other
    /// modes stay as they are.
    pub open spec fn clicked(self, norm: P) -> Mode<P> {
        match self {
            Mode::CalibP1 => Mode::CalibP2 { p1: norm },
            Mode::CalibP2 { p1 } => Mode::CalibLen { p1, p2: norm },
            _ => self,
        }
    }

    /// The mode after a click at `norm` (see [`Mode::clicked`]) and the status
    /// message to show.
    pub fn after_click(&self, norm: P) -> (res: (Mode<P>, Option<&'static str>))
        ensures
            res.0 == self.clicked(norm),
            match *self {
                Mode::CalibP1 => res.0 == Mode::CalibP2 { p1: norm } && res.1 == Some(
                    "Now click the second endpoint.",
                ),
                Mode::CalibP2 { p1 } => res.0 == Mode::CalibLen { p1, p2: norm } && res.1 == Some(
                    "Enter the length of this line in the toolbar above.",
                ),
                _ => res.0 == *self && res.1 is None,
            },
    {
        match self {
            Mode::CalibP1 => (Mode::CalibP2 { p1: norm }, Some("Now click the second endpoint.")),
            Mode::CalibP2 { p1 } => (
                Mode::CalibLen { p1: *p1, p2: norm },
                Some("Enter the length of this line in the toolbar above."),
            ),
            _ => (*self, None),
        }
    }
}

/// What the length typed for the reference line turned out to be.
#[derive(Clone, Copy, Debug, PartialEq, Eq, Structural)]
pub enum LengthEntry {
    NotANumber,
    NotPositive,
    Positive,
}

impl<P: Copy> Mode<P> {
    /// The mode after "Set Scale" is pressed: with an image loaded and no
    /// calibration under way, a calibration starts; otherwise nothing changes.
    pub open spec fn started(self, has_image: bool) -> Mode<P> {
        if has_image && !self.calibrating() {
            Mode::CalibP1
        } else {
            self
        }
    }

    /// The mode after "Cancel": a calibration under way is abandoned.
    pub open spec fn cancelled(self) -> Mode<P> {
        if self.calibrating() {
            Mode::Ready
        } else {
            self
        }
    }

    /// The mode after "Confirm" with the typed length classified as `entry`:
    /// only a positive length ends the calibration.
    pub open spec fn confirmed(self, entry: LengthEntry) -> Mode<P> {
        if self is CalibLen && entry == LengthEntry::Positive {
            Mode::Ready
        } else {
            self
        }
    }

    /// Starts a calibration (see [`Mode::started`]) and gives the status
    /// message to show.
    pub fn start_calibration(&self, has_image: bool) -> (res: (Mode<P>, Option<&'static str>))
        ensures
            res.0 == self.started(has_image),
            res.1 == (if has_image && !self.calibrating() {
                Some("Click the first endpoint of your reference line.")
            } else {
                None
            }),
    {
        if has_image && !self.is_calibrating() {
            (Mode::CalibP1, Some("Click the first endpoint of your reference line."))
        } else {
            (*self, None)
        }
    }

    /// Abandons a calibration (see [`Mode::cancelled`]); the flag says
    /// whether the typed length is to be cleared, which is the case when the
    /// length was being asked for.
    pub fn cancel_calibration(&self) -> (res: (Mode<P>, bool))
        ensures
            res.0 == self.cancelled(),
            res.1 == (self is CalibLen),
    {
        match self {
            Mode::CalibP1 | Mode::CalibP2 { .. } => (Mode::Ready, false),
            Mode::CalibLen { .. } => (Mode::Ready, true),
            _ => (*self, false),
        }
    }

    /// Handles "Confirm" on the typed length (see [`Mode::confirmed`]) and
    /// gives the message for a length that was refused.  On success the
    /// caller sets the scale and reports it.
    pub fn confirm_length(&self, entry: LengthEntry) -> (res: (Mode<P>, Option<&'static str>))
        ensures
            res.0 == self.confirmed(entry),
            res.1 == (if self is CalibLen {
                match entry {
                    LengthEntry::NotANumber => Some("Enter a valid decimal number."),
                    LengthEntry::NotPositive => Some("Length must be > 0."),
                    LengthEntry::Positive => None,
                }
            } else {
                None
            }),
    {
        match self {
            Mode::CalibLen { .. } => match entry {
                LengthEntry::NotANumber => (*self, Some("Enter a valid decimal number.")),
                LengthEntry::NotPositive => (*self, Some("Length must be > 0.")),
                LengthEntry::Positive => (Mode::Ready, None),
            },
            _ => (*self, None),
        }
    }
}

/// A calibration started from `Ready` with an image, two clicks and a
/// positive length returns to `Ready`; a refused length keeps the two
/// endpoints, and cancelling at any step returns to `Ready`.
pub proof fn lemma_calibration_round<P: Copy>(a: P, b: P, bad: LengthEntry)
    requires
        bad != LengthEntry::Positive,
    ensures
        Mode::<P>::Ready.started(true) == Mode::<P>::CalibP1,
        Mode::<P>::Ready.started(true).clicked(a).clicked(b).confirmed(LengthEntry::Positive)
            == Mode::<P>::Ready,
        Mode::<P>::CalibP1.clicked(a).clicked(b).confirmed(bad) == (Mode::CalibLen { p1: a, p2: b }),
        Mode::<P>::CalibP1.cancelled() == Mode::<P>::Ready,
        Mode::<P>::CalibP1.clicked(a).cancelled() == Mode::<P>::Ready,
        Mode::<P>::CalibP1.clicked(a).clicked(b).cancelled() == Mode::<P>::Ready,
{
}

/// Cancelling or confirming never leaves a mode that is not calibrating any
/// different, and after a cancel no calibration is under way.
pub proof fn lemma_calibration_controls<P: Copy>(m: Mode<P>, entry: LengthEntry)
    ensures
        !m.cancelled().calibrating(),
        !m.calibrating() ==> m.cancelled() == m && m.confirmed(entry) == m,
        m.calibrating() ==> m.started(true) == m,
{
}

/// Segmentation may start: an image is loaded, the scale is known and no
/// calibration is under way.
pub fn can_segment<P: Copy>(has_image: bool, has_scale: bool, mode: &Mode<P>) -> (r: bool)
    ensures
        r == (has_image && has_scale && !mode.calibrating()),
{
    has_image && has_scale && !mode.is_calibrating()
}

/// Unit in which areas are shown.
#[derive(Clone, Copy, Debug, PartialEq, Eq, Structural)]
pub enum Unit {
    Cm2,
    Mm2,
}

impl Unit {
    pub fn label(&self) -> (s: &'static str)
        ensures
            s@ == (match *self {
                Unit::Cm2 => "cm²"@,
                Unit::Mm2 => "mm²"@,
            }),
    {
        match self {
            Unit::Cm2 => "cm²",
            Unit::Mm2 => "mm²",
        }
    }

    /// How many of this unit make one square centimetre.
    pub fn factor(&self) -> (f: u32)
        ensures
            f == (match *self {
                Unit::Cm2 => 1u32,
                Unit::Mm2 => 100u32,
            }),
    {
        match self {
            Unit::Cm2 => 1,
            Unit::Mm2 => 100,
        }
    }
}

/// The selection after clicking a pixel of label `label`: a region (label
/// `>= 0`) joins the selection, or leaves it if it was selected; unlabelled
/// pixels change nothing.
pub open spec fn toggled(s: Set<usize>, label: i32) -> Set<usize> {
    if label < 0 {
        s
    } else if s.contains(label as usize) {
        s.remove(label as usize)
    } else {
        s.insert(label as usize)
    }
}

/// Clicking the same region twice leaves the selection as it was.
pub proof fn lemma_toggle_twice(s: Set<usize>, label: i32)
    ensures
        toggled(toggled(s, label), label) == s,
{
    if label >= 0 {
        let l = label as usize;
        if s.contains(l) {
            assert(s.remove(l).insert(l) =~= s);
        } else {
            assert(s.insert(l).remove(l) =~= s);
        }
    }
}

/// Two clicks during calibration record the two endpoints of the reference
/// line, in order; further clicks change nothing until the length is entered.
pub proof fn lemma_calibration_clicks<P: Copy>(a: P, b: P, c: P)
    ensures
        Mode::<P>::CalibP1.clicked(a).clicked(b) == (Mode::CalibLen { p1: a, p2: b }),
        Mode::<P>::CalibP1.clicked(a).clicked(b).clicked(c) == (Mode::CalibLen { p1: a, p2: b }),
{
}

/// Updates the selection for a click on a pixel of label `label` (see
/// [`toggled`]); returns whether it changed.
pub fn toggle_selection(selected: &mut HashSet<usize>, label: i32) -> (changed: bool)
    ensures
        changed == (label >= 0),
        final(selected)@ == toggled(old(selected)@, label),
{
    broadcast use vstd::std_specs::hash::group_hash_axioms;

    if label < 0 {
        return false;
    }
    let ri = label as usize;
    if selected.contains(&ri) {
        selected.remove(&ri);
    } else {
        selected.insert(ri);
    }
    true
}

/// Label of pixel `(px, py)` of a row-major label map of width `w`, if that
/// index is inside the map.
pub fn region_at(labels: &[i32], w: u32, px: usize, py: usize) -> (r: Option<i32>)
    requires
        py * w + px <= usize::MAX,
    ensures
        r == (if py * w + px < labels@.len() {
            Some(labels@[py * w + px])
        } else {
            None::<i32>
        }),
{
    let i = py * (w as usize) + px;
    if i < labels.len() {
        Some(labels[i])
    } else {
        None
    }
}

} // verus!
