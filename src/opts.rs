use vstd::prelude::*;

use crate::text::{contains_text, text_contains};

verus! {

/// The ranking policy of a report.
#[derive(Clone, Copy, Debug, PartialEq, Eq, Structural)]
pub enum DisplayMode {
    /// Traffic through a prefix, for prefixes that are run on their own often enough.
    Fuzzy,
    /// How often exactly this command was run.
    Exact,
    /// Traffic through a prefix.
    Heat,
}

/// The shell whose history is read.
#[derive(Clone, Copy, Debug, PartialEq, Eq, Structural)]
pub enum HistoryFlavor {
    Zsh,
    Bash,
}

/// Why the command-line selections cannot be used.
#[derive(Clone, Copy, Debug, PartialEq, Eq, Structural)]
pub enum OptsError {
    /// More than one shell flavor was selected.
    MultipleShells,
    /// No flavor was selected and none could be told from the shell's path.
    ShellNotDetected,
    /// More than one display mode was selected.
    MultipleDisplayModes,
}

impl OptsError {
    /// The message shown to the user.
    pub fn message(&self) -> (r: &'static str)
        ensures
            r@ == match self {
                OptsError::MultipleShells => "Multiple shell modes selected, please select one or none"@,
                OptsError::ShellNotDetected => "Unable to detect shell, please manually select a shell flavor"@,
                OptsError::MultipleDisplayModes => "Multiple display modes selected, please select one or none"@,
            },
    {
        match self {
            OptsError::MultipleShells => "Multiple shell modes selected, please select one or none",
            OptsError::ShellNotDetected => "Unable to detect shell, please manually select a shell flavor",
            OptsError::MultipleDisplayModes => "Multiple display modes selected, please select one or none",
        }
    }
}

/// Which report to show; fuzzy when none is chosen.
pub struct DisplayOpts {
    pub fuzzy: bool,
    pub exact: bool,
    pub heat: bool,
}

/// Which shell's history to read; detected when none is chosen.
pub struct ShellOpts {
    pub zsh: bool,
    pub bash: bool,
}

/// Everything the command line selects.
pub struct Options {
    pub display: DisplayOpts,
    pub shell: ShellOpts,
    /// The history file, when given; else the selected shell's own.
    pub file: Option<String>,
    /// How many entries to show.
    pub count: usize,
}

/// The flavor that a shell's path names, if any: zsh is looked for first.
pub open spec fn flavor_of_path(p: Seq<char>) -> Option<HistoryFlavor> {
    if contains_text(p, "zsh"@) {
        Some(HistoryFlavor::Zsh)
    } else if contains_text(p, "bash"@) {
        Some(HistoryFlavor::Bash)
    } else {
        None
    }
}

impl ShellOpts {
    /// Tells the flavor from the path of the user's shell, when it is known.
    pub fn detect_shell(shell_path: Option<&str>) -> (r: Option<HistoryFlavor>)
        ensures
            r == match shell_path {
                Some(p) => flavor_of_path(p@),
                None => None,
            },
    {
        match shell_path {
            Some(p) => {
                if text_contains(p, "zsh") {
                    Some(HistoryFlavor::Zsh)
                } else if text_contains(p, "bash") {
                    Some(HistoryFlavor::Bash)
                } else {
                    None
                }
            },
            None => None,
        }
    }

    /// The flavor selected, or else the one detected from the shell's path.
    pub fn validate(self, shell_path: Option<&str>) -> (r: Result<HistoryFlavor, OptsError>)
        ensures
            self.zsh && self.bash ==> r == Err::<HistoryFlavor, OptsError>(
                OptsError::MultipleShells,
            ),
            self.zsh && !self.bash ==> r == Ok::<HistoryFlavor, OptsError>(HistoryFlavor::Zsh),
            !self.zsh && self.bash ==> r == Ok::<HistoryFlavor, OptsError>(HistoryFlavor::Bash),
            !self.zsh && !self.bash ==> r == match shell_path {
                Some(p) => match flavor_of_path(p@) {
                    Some(f) => Ok::<HistoryFlavor, OptsError>(f),
                    None => Err(OptsError::ShellNotDetected),
                },
                None => Err(OptsError::ShellNotDetected),
            },
    {
        match (self.zsh, self.bash) {
            (false, false) => match Self::detect_shell(shell_path) {
                Some(sh) => Ok(sh),
                None => Err(OptsError::ShellNotDetected),
            },
            (true, false) => Ok(HistoryFlavor::Zsh),
            (false, true) => Ok(HistoryFlavor::Bash),
            (true, true) => Err(OptsError::MultipleShells),
        }
    }
}

impl HistoryFlavor {
    /// The name of the flavor's history file in the home directory.
    pub fn history_file_name(&self) -> (r: &'static str)
        ensures
            r@ == match self {
                HistoryFlavor::Zsh => ".zsh_history"@,
                HistoryFlavor::Bash => ".bash_history"@,
            },
    {
        match self {
            HistoryFlavor::Zsh => ".zsh_history",
            HistoryFlavor::Bash => ".bash_history",
        }
    }
}

impl DisplayOpts {
    /// The selected display mode: fuzzy unless exact or heat alone is chosen;
    /// an error when more than one is chosen.
    pub fn validate(self) -> (r: Result<DisplayMode, OptsError>)
        ensures
            !self.exact && !self.heat ==> r == Ok::<DisplayMode, OptsError>(DisplayMode::Fuzzy),
            !self.fuzzy && self.exact && !self.heat ==> r == Ok::<DisplayMode, OptsError>(
                DisplayMode::Exact,
            ),
            !self.fuzzy && !self.exact && self.heat ==> r == Ok::<DisplayMode, OptsError>(
                DisplayMode::Heat,
            ),
            (self.exact && self.heat) || (self.fuzzy && (self.exact || self.heat)) ==> r
                == Err::<DisplayMode, OptsError>(OptsError::MultipleDisplayModes),
    {
        match (self.fuzzy, self.exact, self.heat) {
            (_, false, false) => Ok(DisplayMode::Fuzzy),
            (false, true, false) => Ok(DisplayMode::Exact),
            (false, false, true) => Ok(DisplayMode::Heat),
            _ => Err(OptsError::MultipleDisplayModes),
        }
    }
}

/// Where a history file is to be found.
#[derive(Clone, Debug, PartialEq, Eq)]
pub enum HistoryPath {
    /// The path that `HISTFILE` gives.
    Given(String),
    /// A file of this name in the user's home directory.
    InHome(&'static str),
}

impl HistoryFlavor {
    /// Where the flavor's history is: the `HISTFILE` value when it is set,
    /// else the flavor's own file in the home directory.
    pub fn history_path(&self, histfile: Option<String>) -> (r: HistoryPath)
        ensures
            histfile matches Some(h) ==> (r matches HistoryPath::Given(g) && g@ == h@),
            histfile is None ==> (r matches HistoryPath::InHome(n) && n@ == match self {
                HistoryFlavor::Zsh => ".zsh_history"@,
                HistoryFlavor::Bash => ".bash_history"@,
            }),
    {
        match histfile {
            Some(h) => HistoryPath::Given(h),
            None => HistoryPath::InHome(self.history_file_name()),
        }
    }
}

} // verus!
