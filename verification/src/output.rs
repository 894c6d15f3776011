//! Output settings.
use vstd::prelude::*;

verus! {

/// Colors are on unless `--no-color` is given, `NO_COLOR` is set, or
/// standard error is not a terminal.
pub fn color_enabled(no_color_flag: bool, no_color_env_set: bool, stderr_is_terminal: bool) -> (b: bool)
    ensures
        b == (!no_color_flag && !no_color_env_set && stderr_is_terminal),
{
    !no_color_flag && !no_color_env_set && stderr_is_terminal
}

} // verus!
