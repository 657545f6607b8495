//! The options each command runs with. Running a command (opening the repository,
//! spawning tests, printing) is the program's part.

use vstd::prelude::*;

verus! {

/// Options of the isolation analysis: which failing test to isolate.
pub struct AnalyzeIsolationCommand {
    pub base_path: Option<String>,
    pub target_test: String,
}

impl AnalyzeIsolationCommand {
    /// The command's name on the command line.
    pub fn name(&self) -> (r: &'static str)
        ensures
            r@ == "analyze-isolation"@,
    {
        "analyze-isolation"
    }

    /// Analysis of `target_test` in the repository under `base_path`.
    pub fn new(base_path: Option<String>, target_test: String) -> (r: Self)
        ensures
            r.base_path == base_path,
            r.target_test == target_test,
    {
        AnalyzeIsolationCommand { base_path, target_test }
    }
}

/// Options of the command that shows the failing tests.
pub struct FailingCommand {
    pub base_path: Option<String>,
    pub list_only: bool,
    pub subunit: bool,
    pub show_output: bool,
}

impl FailingCommand {
    /// Shows failing tests with their output.
    pub fn new(base_path: Option<String>) -> (r: Self)
        ensures
            r.base_path == base_path,
            !r.list_only && !r.subunit && r.show_output,
    {
        FailingCommand { base_path, list_only: false, subunit: false, show_output: true }
    }

    /// Lists the failing test ids only.
    pub fn with_list_only(base_path: Option<String>) -> (r: Self)
        ensures
            r.base_path == base_path,
            r.list_only && !r.subunit && !r.show_output,
    {
        FailingCommand { base_path, list_only: true, subunit: false, show_output: false }
    }

    /// Writes the failing tests as a raw stream.
    pub fn with_subunit(base_path: Option<String>) -> (r: Self)
        ensures
            r.base_path == base_path,
            !r.list_only && r.subunit && !r.show_output,
    {
        FailingCommand { base_path, list_only: false, subunit: true, show_output: false }
    }

    /// Shows failing tests, with their output or not.
    pub fn with_output_control(base_path: Option<String>, show_output: bool) -> (r: Self)
        ensures
            r.base_path == base_path,
            !r.list_only && !r.subunit && r.show_output == show_output,
    {
        FailingCommand { base_path, list_only: false, subunit: false, show_output }
    }
}

/// Options of the help command: the command to explain, or none for the overview.
pub struct HelpCommand {
    pub command_name: Option<String>,
}

impl HelpCommand {
    /// Help on `command_name`, or the overview.
    pub fn new(command_name: Option<String>) -> (r: Self)
        ensures
            r.command_name == command_name,
    {
        HelpCommand { command_name }
    }
}

/// Options of the command that creates a repository.
pub struct InitCommand {
    pub base_path: Option<String>,
}

impl InitCommand {
    /// Creates the repository under `base_path`.
    pub fn new(base_path: Option<String>) -> (r: Self)
        ensures
            r.base_path == base_path,
    {
        InitCommand { base_path }
    }
}

/// Options of the command that shows the latest run.
pub struct LastCommand {
    pub base_path: Option<String>,
    pub subunit: bool,
    pub show_output: bool,
}

impl LastCommand {
    /// Shows the latest run with the output of failing tests.
    pub fn new(base_path: Option<String>) -> (r: Self)
        ensures
            r.base_path == base_path,
            !r.subunit && r.show_output,
    {
        LastCommand { base_path, subunit: false, show_output: true }
    }

    /// Writes the latest run as a raw stream.
    pub fn with_subunit(base_path: Option<String>) -> (r: Self)
        ensures
            r.base_path == base_path,
            r.subunit && !r.show_output,
    {
        LastCommand { base_path, subunit: true, show_output: false }
    }

    /// Shows the latest run, with failing output or not.
    pub fn with_output_control(base_path: Option<String>, show_output: bool) -> (r: Self)
        ensures
            r.base_path == base_path,
            !r.subunit && r.show_output == show_output,
    {
        LastCommand { base_path, subunit: false, show_output }
    }
}

/// Options of the command that lists the available tests.
pub struct ListTestsCommand {
    pub base_path: Option<String>,
}

impl ListTestsCommand {
    /// Lists the tests of the project under `base_path`.
    pub fn new(base_path: Option<String>) -> (r: Self)
        ensures
            r.base_path == base_path,
    {
        ListTestsCommand { base_path }
    }
}

/// Options of the command that loads a stream into the repository.
pub struct LoadCommand {
    pub base_path: Option<String>,
    pub force_init: bool,
    pub partial: bool,
}

impl LoadCommand {
    /// Loads a full run into an existing repository.
    pub fn new(base_path: Option<String>) -> (r: Self)
        ensures
            r.base_path == base_path,
            !r.force_init && !r.partial,
    {
        LoadCommand { base_path, force_init: false, partial: false }
    }

    /// Loads a full run, creating the repository when there is none.
    pub fn with_force_init(base_path: Option<String>) -> (r: Self)
        ensures
            r.base_path == base_path,
            r.force_init && !r.partial,
    {
        LoadCommand { base_path, force_init: true, partial: false }
    }

    /// Loads a run, partial or full, creating the repository or not.
    pub fn with_partial(base_path: Option<String>, partial: bool, force_init: bool) -> (r: Self)
        ensures
            r.base_path == base_path,
            r.force_init == force_init && r.partial == partial,
    {
        LoadCommand { base_path, force_init, partial }
    }
}

/// The quick start guide command.
pub struct QuickstartCommand {}

impl QuickstartCommand {
    /// The guide.
    pub fn new() -> (r: Self) {
        QuickstartCommand {}
    }
}

/// Options of the command that runs tests.
pub struct RunCommand {
    pub base_path: Option<String>,
    pub failing_only: bool,
    pub force_init: bool,
    pub partial: bool,
    pub load_list: Option<String>,
    pub concurrency: Option<usize>,
    pub until_failure: bool,
    pub isolated: bool,
    pub subunit: bool,
    pub all_output: bool,
    pub test_filters: Option<Vec<String>>,
    pub test_args: Option<Vec<String>>,
}

impl RunCommand {
    /// The command's name on the command line.
    pub fn name(&self) -> (r: &'static str)
        ensures
            r@ == "run"@,
    {
        "run"
    }

    /// Runs every test once, serially unless configured otherwise; a full run.
    pub fn new(base_path: Option<String>) -> (r: Self)
        ensures
            r.base_path == base_path,
            !r.failing_only && !r.force_init && !r.partial && !r.until_failure && !r.isolated,
            !r.subunit && !r.all_output,
            r.load_list is None && r.concurrency is None && r.test_filters is None && r.test_args is None,
    {
        RunCommand::with_all_options(base_path, false, false, false, None, None, false, false, false, false, None, None)
    }

    /// Runs the tests that failed last; failing-only runs are partial.
    pub fn with_failing_only(base_path: Option<String>) -> (r: Self)
        ensures
            r.base_path == base_path,
            r.failing_only && !r.force_init && r.partial && !r.until_failure && !r.isolated,
            !r.subunit && !r.all_output,
            r.load_list is None && r.concurrency is None && r.test_filters is None && r.test_args is None,
    {
        RunCommand::with_all_options(base_path, true, true, false, None, None, false, false, false, false, None, None)
    }

    /// Runs tests, creating the repository when there is none.
    pub fn with_force_init(base_path: Option<String>, failing_only: bool) -> (r: Self)
        ensures
            r.base_path == base_path,
            r.failing_only == failing_only && r.force_init && r.partial == failing_only,
            !r.until_failure && !r.isolated && !r.subunit && !r.all_output,
            r.load_list is None && r.concurrency is None && r.test_filters is None && r.test_args is None,
    {
        RunCommand::with_all_options(base_path, failing_only, failing_only, true, None, None, false, false, false, false, None, None)
    }

    /// Runs tests with the given partial, failing-only and creation choices.
    pub fn with_partial(base_path: Option<String>, partial: bool, failing_only: bool, force_init: bool) -> (r: Self)
        ensures
            r.base_path == base_path,
            r.failing_only == failing_only && r.force_init == force_init && r.partial == partial,
            !r.until_failure && !r.isolated && !r.subunit && !r.all_output,
            r.load_list is None && r.concurrency is None && r.test_filters is None && r.test_args is None,
    {
        RunCommand::with_all_options(base_path, partial, failing_only, force_init, None, None, false, false, false, false, None, None)
    }

    /// Runs tests with every option given.
    pub fn with_all_options(
        base_path: Option<String>,
        partial: bool,
        failing_only: bool,
        force_init: bool,
        load_list: Option<String>,
        concurrency: Option<usize>,
        until_failure: bool,
        isolated: bool,
        subunit: bool,
        all_output: bool,
        test_filters: Option<Vec<String>>,
        test_args: Option<Vec<String>>,
    ) -> (r: Self)
        ensures
            r.base_path == base_path,
            r.partial == partial && r.failing_only == failing_only && r.force_init == force_init,
            r.load_list == load_list && r.concurrency == concurrency,
            r.until_failure == until_failure && r.isolated == isolated,
            r.subunit == subunit && r.all_output == all_output,
            r.test_filters == test_filters && r.test_args == test_args,
    {
        RunCommand {
            base_path,
            failing_only,
            force_init,
            partial,
            load_list,
            concurrency,
            until_failure,
            isolated,
            subunit,
            all_output,
            test_filters,
            test_args,
        }
    }
}

/// Options of the command that lists the slowest tests.
pub struct SlowestCommand {
    pub base_path: Option<String>,
    pub count: usize,
}

impl SlowestCommand {
    /// The ten slowest tests.
    pub fn new(base_path: Option<String>) -> (r: Self)
        ensures
            r.base_path == base_path,
            r.count == 10,
    {
        SlowestCommand { base_path, count: 10 }
    }

    /// The `count` slowest tests.
    pub fn with_count(base_path: Option<String>, count: usize) -> (r: Self)
        ensures
            r.base_path == base_path,
            r.count == count,
    {
        SlowestCommand { base_path, count }
    }
}

/// Options of the command that shows repository statistics.
pub struct StatsCommand {
    pub base_path: Option<String>,
}

impl StatsCommand {
    /// Statistics of the repository under `base_path`.
    pub fn new(base_path: Option<String>) -> (r: Self)
        ensures
            r.base_path == base_path,
    {
        StatsCommand { base_path }
    }
}

} // verus!
