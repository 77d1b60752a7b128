//! KaleidoSky lineup database: performers, shows, the commands that edit
//! them, the workbook importer and the site helpers, with their contracts.
use vstd::prelude::*;

pub mod text;
pub mod date;
pub mod sorting;
pub mod seqs;
pub mod performer;
pub mod show;
pub mod data;
pub mod commands;
pub mod import_text;
pub mod sheet;
pub mod import;
pub mod site;
pub mod editor;

verus! {

} // verus!
