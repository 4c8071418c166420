//! Rendering an accepted result into the final payload string.

use vstd::prelude::*;
use crate::text::find_from;
use crate::worker;
use crate::worker::format_spec;

verus! {

/// Renders an accepted result into the output payload line for `path`.
pub fn format(res: worker::Result, path: &str) -> (r: String)
    requires
        res.job.substring@.len() >= 1,
        res.job.substring@ != res.job.identifier@ ==> find_from(
            res.value@,
            res.job.substring@,
            0,
        ) is Some,
    ensures
        r@ == format_spec(
            res.value@,
            res.expression@,
            res.job.identifier@,
            res.job.substring@,
            path@,
        ),
{
    res.format(path)
}

} // verus!
