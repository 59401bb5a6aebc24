use vstd::prelude::*;

pub mod model;
pub mod tracker;
pub mod builder;
pub mod laws;
pub mod sorter;
pub mod sizefmt;
pub mod pathops;
pub mod render;

verus! {

use crate::model::{RawEntry, raws_view};
use crate::builder::{build_list, build_forest};
use crate::sorter::{sort_forest, sort_trees};
use crate::render::{render_forest, render_lines};
use crate::pathops::strings_view;

/// One whole run over an already gathered forest of raw entries: build the
/// deduplicated trees with one shared tracker, order every directory's
/// children, and render the lines.
pub fn analyze(
    roots: &Vec<RawEntry>,
    apparent: bool,
    reverse: bool,
    max_depth: Option<u32>,
    long_paths: bool,
) -> (lines: Vec<String>)
    ensures
        strings_view(lines@) == render_forest(
            sort_forest(build_list(raws_view(roots@), Set::empty(), apparent).0, reverse),
            max_depth,
            long_paths,
            reverse,
        ),
{
    let forest = build_forest(roots, apparent);
    let sorted = sort_trees(&forest, reverse);
    render_lines(&sorted, max_depth, long_paths, reverse)
}

} // verus!
