use vstd::prelude::*;
use crate::graph::Timestamp;

verus! {

/// The smallest Unix timestamp a stored date may carry: midnight of the
/// first day of year -9999, the lower bound of the calendar the pass's date
/// handling supports.
pub const MIN_UNIX_SECONDS: i64 = -377705116800;

/// The largest Unix timestamp a stored date may carry: the last second of
/// year 9999.
pub const MAX_UNIX_SECONDS: i64 = 253402300799;

/// The widest zone offset a stored date may carry, in minutes: whole-second
/// offsets are limited to 25:59:59 on either side of UTC, and 1559 minutes
/// is the largest whole-minute offset within that.
pub const MAX_OFFSET_MINUTES: i32 = 1559;

/// Why a raw (seconds, offset) pair was refused.
#[derive(Clone, Copy, PartialEq, Eq, Structural, Debug)]
pub enum TimeError {
    /// The zone offset lies outside ±`MAX_OFFSET_MINUTES`.
    OffsetRange,
    /// The seconds lie outside `MIN_UNIX_SECONDS..=MAX_UNIX_SECONDS`.
    TimestampRange,
}

/// Whether a raw (seconds, offset) pair is a representable point in time.
pub open spec fn time_in_range(seconds: i64, offset_minutes: i32) -> bool {
    &&& -1559 <= offset_minutes <= 1559
    &&& -377705116800 <= seconds <= 253402300799
}

/// Validate a commit's raw time fields and turn them into a [`Timestamp`].
/// The offset is checked first, as a conversion to whole seconds would check
/// it; a pair out of range is refused, never silently clamped.
pub fn get_time(seconds: i64, offset_minutes: i32) -> (r: Result<Timestamp, TimeError>)
    ensures
        r is Ok <==> time_in_range(seconds, offset_minutes),
        match r {
            Ok(t) => t.seconds == seconds && t.offset_minutes == offset_minutes,
            Err(e) => {
                &&& (e == TimeError::OffsetRange <==> !(-1559 <= offset_minutes <= 1559))
                &&& (e == TimeError::TimestampRange <==> (-1559 <= offset_minutes <= 1559
                    && !(-377705116800 <= seconds <= 253402300799)))
            },
        },
{
    if offset_minutes < -MAX_OFFSET_MINUTES || offset_minutes > MAX_OFFSET_MINUTES {
        return Err(TimeError::OffsetRange);
    }
    if seconds < MIN_UNIX_SECONDS || seconds > MAX_UNIX_SECONDS {
        return Err(TimeError::TimestampRange);
    }
    Ok(Timestamp { seconds, offset_minutes })
}

} // verus!
