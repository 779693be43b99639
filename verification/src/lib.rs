//! A rotating sequence of numbered log files behind a plain byte-sink
//! interface.
//!
//! Output is split across a bounded set of files named `{base}.{index}.log`,
//! where index 0 is always the live, most recently created file and larger
//! indices are strictly older. A [`RotationPeriod`] decides when the set
//! rolls over; rolling over renumbers the files so that indices stay
//! contiguous and bounded, evicting the oldest files and optionally
//! compressing a file as it leaves the live slot.
//!
//! This crate holds the decision and renumbering logic only: it parses and
//! produces filenames, tracks write volume, and turns a directory listing
//! into an explicit list of file operations. Performing those operations
//! against a real directory is left to the caller.

use vstd::prelude::*;

pub mod model;
pub mod names;
pub mod plan;
pub mod retire;
pub mod rotation_tracker;

use rotation_tracker::RotationTracker;

verus! {

/// A specifier for how often the file set should roll over.
#[derive(Clone, Copy, Debug, Ord, PartialOrd, Eq, PartialEq, Structural)]
#[non_exhaustive]
pub enum RotationPeriod {
    /// Rotate every N line terminator bytes (0x0a, `b'\n'`).
    Lines(usize),
    /// Rotate every N bytes successfully written.
    ///
    /// Only bytes actually accepted by the underlying file count; a partial
    /// write advances the counter by the number of bytes persisted.
    Bytes(usize),
    /// Rotate every time the given number of monotonic clock ticks passes.
    ///
    /// The tick unit is chosen by the caller (for instance nanoseconds); the
    /// same unit must be used for every clock reading handed to the sink.
    Interval(u64),
    /// Rotate only on an explicit call to [`RotatingFile::rotate`].
    Manual,
}

/// What happens to a file as it is pushed out of the live slot.
///
/// The live file (`{base}.0.log`) is always written uncompressed; the retire
/// transform applies exactly once, when the file moves from index 0 to
/// index 1, and is never re-applied on later shifts.
#[derive(Clone, Copy, Debug, PartialEq, Eq, Structural)]
pub enum Compression {
    /// No transform: a retired file keeps its bytes and is simply renamed.
    Uncompressed,
    /// Zstd compression with the given level; level 0 means the codec's
    /// default. A retired file gains a `.zstd` suffix after `.log`.
    Zstd { level: i32 },
}

/// The rotation decision engine of one rotating file set.
///
/// It owns the base name, the policy's live counters, the retained-file
/// bound and the retire transform selection, and it remembers whether a live
/// file is currently open. It decides when to rotate and what file
/// operations a rotation performs; carrying those operations out against the
/// directory, and writing bytes to the live file, is the caller's part.
#[derive(Debug)]
pub struct RotatingFile {
    /// The base name of every file of the set.
    pub name: String,
    /// Live counters of the rotation policy.
    pub rotation_tracker: RotationTracker,
    /// The largest index a file of the set may occupy: the retained file
    /// count minus one.
    pub max_index: usize,
    /// The retire transform for files leaving the live slot.
    pub compression: Compression,
    /// Whether a live file is currently open. Starts out false; the first
    /// write must rotate.
    pub file_open: bool,
}

impl RotatingFile {
    /// Create a new rotating file set with the given base name, rotating
    /// every given period and keeping at most `max_files` files; `now` is
    /// the current reading of the caller's monotonic clock.
    pub fn new(
        name: &str,
        rotate_every: RotationPeriod,
        max_files: usize,
        compression: Compression,
        now: u64,
    ) -> (r: Self)
        requires
            max_files >= 1,
        ensures
            r.name@ == name@,
            r.rotation_tracker == RotationTracker::spec_new(rotate_every, now),
            r.max_index == max_files - 1,
            r.compression == compression,
            !r.file_open,
    {
        RotatingFile {
            name: name.to_owned(),
            rotation_tracker: RotationTracker::new(rotate_every, now),
            max_index: max_files - 1,
            compression,
            file_open: false,
        }
    }

    /// Whether the next write must rotate first: there is no live file yet,
    /// or the policy's counters call for a rotation.
    pub open spec fn spec_should_rotate(self, now: u64) -> bool {
        !self.file_open || self.rotation_tracker.spec_should_rotate(now)
    }

    /// Ask whether a rotation is due before the next write, given the clock
    /// reading `now`.
    pub fn should_rotate(&self, now: u64) -> (r: bool)
        ensures
            r == self.spec_should_rotate(now),
    {
        !self.file_open || self.rotation_tracker.should_rotate(now)
    }

    /// The index slot a filename occupies for this set's base name, or
    /// `None` for a filename outside the naming scheme.
    pub fn logfile_index(&self, filename: &str) -> (r: Option<usize>)
        ensures
            r matches Some(i) ==> names::spec_logfile_index(self.name@, filename@) == Some(
                i as int,
            ),
            r is None ==> names::spec_logfile_index(self.name@, filename@) is None,
    {
        names::parse_logfile_index(self.name.as_str(), filename)
    }

    /// The filename of index slot `index` for this set's base name.
    pub fn make_filepath(&self, index: usize) -> (r: String)
        ensures
            r@ == names::spec_logfile_name(self.name@, index as nat),
    {
        names::make_logfile_name(self.name.as_str(), index)
    }

    /// Record that a rotation just completed: a fresh live file is open and
    /// the policy's counters start over at clock reading `now`.
    ///
    /// The caller performs the planned file operations first and calls this
    /// only when they all succeeded; on a failure the state is left as it
    /// was, so the next write retries the whole rotation from the directory
    /// as it then stands.
    pub fn rotate(&mut self, now: u64)
        ensures
            final(self).name == old(self).name,
            final(self).rotation_tracker == old(self).rotation_tracker.spec_reset(now),
            final(self).max_index == old(self).max_index,
            final(self).compression == old(self).compression,
            final(self).file_open,
    {
        self.rotation_tracker.reset(now);
        self.file_open = true;
    }

    /// Record that `buf` was durably written to the live file.
    ///
    /// Hand in exactly the bytes the underlying file accepted, not the whole
    /// requested buffer, so that a partial write counts only what was
    /// persisted.
    pub fn record_write(&mut self, buf: &[u8])
        ensures
            final(self).name == old(self).name,
            final(self).rotation_tracker == old(self).rotation_tracker.spec_wrote(buf@),
            final(self).max_index == old(self).max_index,
            final(self).compression == old(self).compression,
            final(self).file_open == old(self).file_open,
    {
        self.rotation_tracker.wrote(buf);
    }
}

} // verus!
