//! The decoded form of a rule line, and the abstract values the contracts use.

use crate::pattern::{regex_source, source_text};
use crate::text::same_text;
use regex::Regex;
use vstd::prelude::*;

verus! {

/// A line in the configuration file
#[derive(Debug, PartialEq)]
pub struct Conf {
    /// Whether to stop if this filter matches
    pub stop: bool,
    /// Environment variables that must match, all of them, in this order
    pub envmatches: Vec<EnvMatch>,
    /// Filter used to match the devices
    pub filter: Filter,
    /// User that will own the device
    pub user: String,
    /// Group that will own the device
    pub group: String,
    /// Permissions that the specified user and group have on the device
    pub mode: u32,
    /// What to do with the device node, if [`None`] it gets placed in `/dev/` with its
    /// original name
    pub on_creation: Option<OnCreation>,
    /// Additional command that has to be executed when creating and/or removing the node
    pub command: Option<Command>,
}

/// An environment variable whose value must match a regex.
#[derive(Debug)]
pub struct EnvMatch {
    pub envvar: String,
    pub regex: Regex,
}

/// Filter used for matching the devices
#[derive(Debug, PartialEq)]
pub enum Filter {
    DeviceRegex(DeviceRegex),
    MajMin(MajMin),
}

/// A regex used for matching devices based on their names
#[derive(Debug)]
pub struct DeviceRegex {
    /// Set when the filter was written `$VAR=regex`
    pub envvar: Option<String>,
    /// [`Regex`] used for matching
    pub regex: Regex,
}

/// A kernel major number with a minor number or an inclusive minor range.
#[derive(Clone, Copy, Debug, PartialEq, Eq, Structural)]
pub struct MajMin {
    pub maj: u32,
    pub min: u32,
    /// Upper end of the minor range, when the filter gives one
    pub min2: Option<u32>,
}

/// Additional actions to take on creation of the device node
#[derive(Clone, Debug, PartialEq)]
pub enum OnCreation {
    /// Moves/renames the device. If the path ends with `/` then the name will stay the same
    Move(String),
    /// Same as [`OnCreation::Move`] but also creates a symlink in `/dev/` to the
    /// renamed/moved device
    SymLink(String),
    /// Prevents the creation of the device node
    Prevent,
}

/// When to run the [`Command`]
#[derive(Clone, Copy, Debug, PartialEq, Eq, Structural)]
pub enum WhenToRun {
    /// After creating the device
    After,
    /// Before removing the device
    Before,
    /// Both after the creation and before removing
    Both,
}

/// An external program to run for the device.
#[derive(Debug, PartialEq)]
pub struct Command {
    /// When to run the command
    pub when: WhenToRun,
    /// Path to the executable
    pub path: String,
    /// Command line arguments
    pub args: Vec<String>,
}

/// Why a line was rejected.
#[derive(Debug, PartialEq)]
pub enum ConfError {
    /// The first field has no recognizable stop marker, clauses and filter
    Matcher,
    /// An environment-match pattern does not compile
    EnvRegex(regex::Error),
    /// The device-name pattern does not compile
    DeviceRegex(regex::Error),
    /// The major/minor filter is malformed or out of range
    MajMin,
    /// The `user:group` field is missing or has no `:`
    UserGroup,
    /// The mode field is missing or is not three octal digits
    Mode,
    /// The on-creation field has an unknown symbol or trailing text
    OnCreation,
    /// The command field has no executable path
    Command,
}

/// The kind of a [`ConfError`], without the compiler's diagnostic.
#[derive(Clone, Copy, Debug, PartialEq, Eq, Structural)]
pub enum ErrorKind {
    Matcher,
    EnvRegex,
    DeviceRegex,
    MajMin,
    UserGroup,
    Mode,
    OnCreation,
    Command,
}

impl ConfError {
    pub open spec fn kind(&self) -> ErrorKind {
        match self {
            ConfError::Matcher => ErrorKind::Matcher,
            ConfError::EnvRegex(_) => ErrorKind::EnvRegex,
            ConfError::DeviceRegex(_) => ErrorKind::DeviceRegex,
            ConfError::MajMin => ErrorKind::MajMin,
            ConfError::UserGroup => ErrorKind::UserGroup,
            ConfError::Mode => ErrorKind::Mode,
            ConfError::OnCreation => ErrorKind::OnCreation,
            ConfError::Command => ErrorKind::Command,
        }
    }

    /// The kind of this error.
    pub fn error_kind(&self) -> (r: ErrorKind)
        ensures
            r == self.kind(),
    {
        match self {
            ConfError::Matcher => ErrorKind::Matcher,
            ConfError::EnvRegex(_) => ErrorKind::EnvRegex,
            ConfError::DeviceRegex(_) => ErrorKind::DeviceRegex,
            ConfError::MajMin => ErrorKind::MajMin,
            ConfError::UserGroup => ErrorKind::UserGroup,
            ConfError::Mode => ErrorKind::Mode,
            ConfError::OnCreation => ErrorKind::OnCreation,
            ConfError::Command => ErrorKind::Command,
        }
    }
}

/// The abstract value of a [`Filter`]: patterns are their source text.
pub enum FilterView {
    DeviceRegex { envvar: Option<Seq<char>>, regex: Seq<char> },
    MajMin(MajMin),
}

/// The abstract value of an [`OnCreation`].
pub enum OnCreationView {
    Move(Seq<char>),
    SymLink(Seq<char>),
    Prevent,
}

/// The abstract value of a [`Command`].
pub struct CommandView {
    pub when: WhenToRun,
    pub path: Seq<char>,
    pub args: Seq<Seq<char>>,
}

/// The abstract value of a [`Conf`]; an environment match is the pair of
/// variable name and pattern text.
pub struct ConfView {
    pub stop: bool,
    pub envmatches: Seq<(Seq<char>, Seq<char>)>,
    pub filter: FilterView,
    pub user: Seq<char>,
    pub group: Seq<char>,
    pub mode: u32,
    pub on_creation: Option<OnCreationView>,
    pub command: Option<CommandView>,
}

pub open spec fn opt_text(o: Option<String>) -> Option<Seq<char>> {
    match o {
        Some(s) => Some(s@),
        None => None,
    }
}

impl View for EnvMatch {
    type V = (Seq<char>, Seq<char>);

    open spec fn view(&self) -> (Seq<char>, Seq<char>) {
        (self.envvar@, regex_source(self.regex))
    }
}

impl View for DeviceRegex {
    type V = FilterView;

    open spec fn view(&self) -> FilterView {
        FilterView::DeviceRegex { envvar: opt_text(self.envvar), regex: regex_source(self.regex) }
    }
}

impl View for Filter {
    type V = FilterView;

    open spec fn view(&self) -> FilterView {
        match self {
            Filter::DeviceRegex(d) => d@,
            Filter::MajMin(m) => FilterView::MajMin(*m),
        }
    }
}

impl View for OnCreation {
    type V = OnCreationView;

    open spec fn view(&self) -> OnCreationView {
        match self {
            OnCreation::Move(p) => OnCreationView::Move(p@),
            OnCreation::SymLink(p) => OnCreationView::SymLink(p@),
            OnCreation::Prevent => OnCreationView::Prevent,
        }
    }
}

impl View for Command {
    type V = CommandView;

    open spec fn view(&self) -> CommandView {
        CommandView {
            when: self.when,
            path: self.path@,
            args: self.args@.map_values(|a: String| a@),
        }
    }
}

impl View for Conf {
    type V = ConfView;

    open spec fn view(&self) -> ConfView {
        ConfView {
            stop: self.stop,
            envmatches: self.envmatches@.map_values(|e: EnvMatch| e@),
            filter: self.filter@,
            user: self.user@,
            group: self.group@,
            mode: self.mode,
            on_creation: match self.on_creation {
                Some(o) => Some(o@),
                None => None,
            },
            command: match self.command {
                Some(c) => Some(c@),
                None => None,
            },
        }
    }
}

impl PartialEq for EnvMatch {
    fn eq(&self, other: &Self) -> (r: bool) {
        self.envvar == other.envvar && same_text(
            source_text(&self.regex),
            source_text(&other.regex),
        )
    }
}

impl vstd::std_specs::cmp::PartialEqSpecImpl for EnvMatch {
    open spec fn obeys_eq_spec() -> bool {
        true
    }

    open spec fn eq_spec(&self, other: &EnvMatch) -> bool {
        self@ == other@
    }
}

impl PartialEq for DeviceRegex {
    fn eq(&self, other: &Self) -> (r: bool) {
        let same_var = match (&self.envvar, &other.envvar) {
            (Some(a), Some(b)) => *a == *b,
            (None, None) => true,
            _ => false,
        };
        same_var && same_text(source_text(&self.regex), source_text(&other.regex))
    }
}

impl vstd::std_specs::cmp::PartialEqSpecImpl for DeviceRegex {
    open spec fn obeys_eq_spec() -> bool {
        true
    }

    open spec fn eq_spec(&self, other: &DeviceRegex) -> bool {
        self@ == other@
    }
}

impl From<DeviceRegex> for Filter {
    fn from(v: DeviceRegex) -> (r: Filter) {
        Filter::DeviceRegex(v)
    }
}

impl vstd::std_specs::convert::FromSpecImpl<DeviceRegex> for Filter {
    open spec fn obeys_from_spec() -> bool {
        true
    }

    open spec fn from_spec(v: DeviceRegex) -> Filter {
        Filter::DeviceRegex(v)
    }
}

impl From<MajMin> for Filter {
    fn from(v: MajMin) -> (r: Filter) {
        Filter::MajMin(v)
    }
}

impl vstd::std_specs::convert::FromSpecImpl<MajMin> for Filter {
    open spec fn obeys_from_spec() -> bool {
        true
    }

    open spec fn from_spec(v: MajMin) -> Filter {
        Filter::MajMin(v)
    }
}

} // verus!
