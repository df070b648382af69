//! Reading a log of solver runs, one `payload,status` record per line, and
//! laying the records out as a scatter chart: record `i` at x = `i`, its
//! payload as y, coloured by its status.

use vstd::prelude::*;

pub mod error;
pub mod log_file_loader;
pub mod pipeline;
pub mod plotter;
pub mod text;

verus! {

} // verus!
