use vstd::prelude::*;

use crate::error::{ProgramError, ProgramErrorView};
use crate::log_file_loader::{parse_log_file, records_of_log, StatusValue};
use crate::text::push_str;
use crate::plotter::{build_geometry, is_geometry_of, Config, PlotGeometry};

verus! {

/// The drawing settings of one run.
pub fn build_config(width: u32, height: u32, margin: u32, radius: u32) -> (r: Config)
    ensures
        r == (Config { width, height, margin, radius }),
{
    Config::new().set_size(width, height).set_margin(margin).set_radius(radius)
}

/// The chart of a whole log: `None` where the log holds no record, so that
/// there is nothing to draw; the first line that does not read decides the error.
pub fn run_plot(data: &str, config: Config) -> (r: Result<Option<PlotGeometry>, ProgramError>)
    ensures
        match r {
            Err(e) => records_of_log(data@) == Err::<Seq<StatusValue>, ProgramErrorView>(e@),
            Ok(None) => records_of_log(data@) == Ok::<Seq<StatusValue>, ProgramErrorView>(
                Seq::empty(),
            ),
            Ok(Some(g)) => records_of_log(data@) is Ok && records_of_log(data@)->Ok_0.len() > 0
                && is_geometry_of(g, records_of_log(data@)->Ok_0, config),
        },
{
    let data = match parse_log_file(data) {
        Ok(d) => d,
        Err(e) => return Err(e),
    };
    if data.len() > 0 {
        Ok(Some(build_geometry(&data, config)))
    } else {
        assert(data@ =~= Seq::empty());
        Ok(None)
    }
}


/// How the warning for an empty log names its input.
pub open spec fn input_label(input: Option<Option<Seq<char>>>) -> Seq<char> {
    match input {
        None => "<STDIN>"@,
        Some(None) => "**UNKONW FILE NAME**"@,
        Some(Some(name)) => name,
    }
}

/// The warning for a log without records. `input` is `None` for standard
/// input, and otherwise the file's name where it is valid text.
pub fn warning_message(input: Option<Option<&str>>) -> (r: String)
    ensures
        r@ == "WARNING: Given data log is empty: "@ + input_label(
            match input {
                None => None,
                Some(None) => Some(None),
                Some(Some(n)) => Some(Some(n@)),
            },
        ),
{
    let mut r = String::new();
    push_str(&mut r, "WARNING: Given data log is empty: ");
    match input {
        None => push_str(&mut r, "<STDIN>"),
        Some(None) => push_str(&mut r, "**UNKONW FILE NAME**"),
        Some(Some(name)) => push_str(&mut r, name),
    }
    r
}

} // verus!
