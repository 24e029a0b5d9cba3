//! The state of the program that the interface shows and changes.

use vstd::prelude::*;

use crate::batch::{LogLevel, Plan};
use crate::model::{Channel, OutputFormat, SizePolicy};

verus! {

/// Pack one texture, or a batch of materials.
#[derive(Clone, Copy, PartialEq, Eq, Debug, Structural)]
pub enum Mode {
    Pack,
    Batch,
}

/// What the large preview shows.
#[derive(Clone, Copy, PartialEq, Eq, Debug, Structural)]
pub enum ViewMode {
    Rgba,
    Rgb,
    Channel(Channel),
}

/// Where a loaded image goes.
#[derive(Clone, Copy, Debug, PartialEq, Eq, Structural)]
pub enum LoadTarget {
    Slot(Channel),
    /// By the suffix of its name. `single`: the file came alone, and without a
    /// match it takes the first empty channel.
    Auto { single: bool },
    /// Read again from disk the image with this id.
    Replace(u64),
    /// Only into the library: a map of another material.
    Library,
}

/// How the result is written.
pub struct OutputSettings {
    pub template: String,
    pub format: OutputFormat,
    pub sixteen: bool,
    /// The output folder. `None`: beside the first source.
    pub folder: Option<String>,
    pub policy: SizePolicy,
    pub custom: (u32, u32),
    /// Batch mode: whether existing files are overwritten.
    pub overwrite: bool,
}

impl Default for OutputSettings {
    /// The settings a session starts with: `{basename}{label}` as PNG,
    /// 8 bits, beside the first source, at the size of the largest one.
    fn default() -> (r: OutputSettings)
        ensures
            r.template@ == "{basename}{label}"@,
            r.format == OutputFormat::Png,
            !r.sixteen,
            r.folder is None,
            r.policy == SizePolicy::Largest,
            r.custom == (2048u32, 2048u32),
            !r.overwrite,
    {
        OutputSettings {
            template: "{basename}{label}".to_owned(),
            format: OutputFormat::Png,
            sixteen: false,
            folder: None,
            policy: SizePolicy::Largest,
            custom: (2048, 2048),
            overwrite: false,
        }
    }
}

/// How a notification looks.
#[derive(Clone, Copy, PartialEq, Eq, Debug, Structural)]
pub enum ToastKind {
    Info,
    Success,
    Warning,
    Error,
}

/// A question the interface is waiting on.
#[derive(Clone, Debug)]
pub enum Dialog {
    DeletePreset(usize),
    /// Moving to another preset while the current one has unsaved changes.
    SwitchPreset(usize),
    Overwrite(String),
    About,
    Shortcuts,
}

/// A batch under way.
pub struct BatchRun {
    /// How many materials the job has.
    pub total: usize,
    /// The materials of the job, by their number.
    pub bases: Vec<String>,
}

/// The batch tab: the files, how they sort into materials, and the last run.
pub struct BatchState {
    /// The files, sorted as paths, each once.
    pub files: Vec<String>,
    pub plan: Plan,
    /// What the plan was made for: the suffixes of each channel, whether alpha
    /// is written, and how many files there were.
    pub plan_key: Option<(Vec<Vec<String>>, bool, usize)>,
    /// The materials switched off, by their name in lowercase.
    pub disabled: Vec<String>,
    pub run: Option<BatchRun>,
    pub log: Vec<(LogLevel, String)>,
    /// How each material of the last run went, by its name in lowercase.
    pub status: Vec<(String, bool)>,
    /// Where the last run wrote, once it is over.
    pub finished_dir: Option<String>,
}

impl Default for BatchState {
    fn default() -> (r: BatchState)
        ensures
            r.files@.len() == 0,
            r.plan.groups@.len() == 0,
            r.plan.unmatched@.len() == 0,
            r.plan.conflicts@.len() == 0,
            r.plan_key is None,
            r.disabled@.len() == 0,
            r.run is None,
            r.log@.len() == 0,
            r.status@.len() == 0,
            r.finished_dir is None,
    {
        BatchState {
            files: Vec::new(),
            plan: Plan { groups: Vec::new(), unmatched: Vec::new(), conflicts: Vec::new() },
            plan_key: None,
            disabled: Vec::new(),
            run: None,
            log: Vec::new(),
            status: Vec::new(),
            finished_dir: None,
        }
    }
}

} // verus!
