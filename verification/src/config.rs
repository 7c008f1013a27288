use vstd::prelude::*;

verus! {

/// Spaces per indentation level when no width is given on the command line.
pub const SOFT_TAB_WIDTH: usize = 4;

/// Soft maximum line width when none is given on the command line.
pub const MAX_LINE_WIDTH: usize = 40;

/// Formatting and invocation options.
///
/// The layout engine receives a `Config` explicitly with every call instead
/// of consulting process-wide state, so one process can format several
/// documents under different settings without interference.
pub struct Config {
    pub soft_tab_width: usize,
    pub max_line_width: usize,
    pub target_file_path: String,
    pub format_in_place: bool,
    pub with_backup: bool,
}

/// Builds a `Config` from already-decoded command-line values, applying the
/// defaults where an option is absent. `no_backup` suppresses the backup
/// copy that an in-place rewrite otherwise makes first.
pub fn get_config(
    target_file_path: String,
    soft_tab_width: Option<usize>,
    max_line_width: Option<usize>,
    format_in_place: bool,
    no_backup: bool,
) -> (c: Config)
    ensures
        c.soft_tab_width == (match soft_tab_width {
            Some(w) => w,
            None => SOFT_TAB_WIDTH,
        }),
        c.max_line_width == (match max_line_width {
            Some(w) => w,
            None => MAX_LINE_WIDTH,
        }),
        c.target_file_path@ == target_file_path@,
        c.format_in_place == format_in_place,
        c.with_backup == !no_backup,
{
    let soft_tab_width = match soft_tab_width {
        Some(w) => w,
        None => SOFT_TAB_WIDTH,
    };
    let max_line_width = match max_line_width {
        Some(w) => w,
        None => MAX_LINE_WIDTH,
    };
    Config {
        soft_tab_width,
        max_line_width,
        target_file_path,
        format_in_place,
        with_backup: !no_backup,
    }
}

} // verus!
