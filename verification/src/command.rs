//! The launcher's command line and what each command does.

use vstd::prelude::*;

use crate::text::{str_equals, trim, trimmed};

verus! {

/// What the launcher was asked to do.
#[derive(Debug, Clone, Copy, PartialEq, Eq, Structural)]
pub enum LauncherCommand {
    Ui,
    Start,
    Stop,
    Restart,
    Status,
    OpenWeb,
    OpenLogs,
}

/// The command that an argument names; any other argument asks for the window.
pub open spec fn command_named(arg: Seq<char>) -> LauncherCommand {
    if arg == "--start"@ || arg == "start"@ {
        LauncherCommand::Start
    } else if arg == "--stop"@ || arg == "stop"@ {
        LauncherCommand::Stop
    } else if arg == "--restart"@ || arg == "restart"@ {
        LauncherCommand::Restart
    } else if arg == "--status"@ || arg == "status"@ {
        LauncherCommand::Status
    } else if arg == "--open"@ || arg == "open"@ || arg == "web"@ {
        LauncherCommand::OpenWeb
    } else if arg == "--logs"@ || arg == "logs"@ {
        LauncherCommand::OpenLogs
    } else {
        LauncherCommand::Ui
    }
}

/// The command that the arguments (the program's name left out) ask for: the first argument
/// decides, and without one the launcher opens its window.
pub fn parse_launcher_command(args: &[&str]) -> (r: LauncherCommand)
    ensures
        args@.len() == 0 ==> r == LauncherCommand::Ui,
        args@.len() > 0 ==> r == command_named(args@[0]@),
{
    if args.len() == 0 {
        return LauncherCommand::Ui;
    }
    let arg = args[0];
    if str_equals(arg, "--start") || str_equals(arg, "start") {
        LauncherCommand::Start
    } else if str_equals(arg, "--stop") || str_equals(arg, "stop") {
        LauncherCommand::Stop
    } else if str_equals(arg, "--restart") || str_equals(arg, "restart") {
        LauncherCommand::Restart
    } else if str_equals(arg, "--status") || str_equals(arg, "status") {
        LauncherCommand::Status
    } else if str_equals(arg, "--open") || str_equals(arg, "open") || str_equals(arg, "web") {
        LauncherCommand::OpenWeb
    } else if str_equals(arg, "--logs") || str_equals(arg, "logs") {
        LauncherCommand::OpenLogs
    } else {
        LauncherCommand::Ui
    }
}

/// A task of the service script.
#[derive(Debug, Clone, Copy, PartialEq, Eq, Structural)]
pub enum RunnerTask {
    Start,
    Stop,
    Restart,
    Status,
}

/// The argument that names the task to the service script.
pub open spec fn task_argument(task: RunnerTask) -> Seq<char> {
    match task {
        RunnerTask::Start => "start"@,
        RunnerTask::Stop => "stop"@,
        RunnerTask::Restart => "restart"@,
        RunnerTask::Status => "status"@,
    }
}

impl RunnerTask {
    /// The argument that names the task to the service script.
    pub fn argument(&self) -> (r: &'static str)
        ensures
            r@ == task_argument(*self),
    {
        match self {
            RunnerTask::Start => "start",
            RunnerTask::Stop => "stop",
            RunnerTask::Restart => "restart",
            RunnerTask::Status => "status",
        }
    }

    /// Starting the services needs a prepared `.env` first.
    pub fn prepares_env(&self) -> (r: bool)
        ensures
            r == (*self == RunnerTask::Start || *self == RunnerTask::Restart),
    {
        match self {
            RunnerTask::Start | RunnerTask::Restart => true,
            _ => false,
        }
    }

    /// The status report is shown to the user.
    pub fn shows_output(&self) -> (r: bool)
        ensures
            r == (*self == RunnerTask::Status),
    {
        match self {
            RunnerTask::Status => true,
            _ => false,
        }
    }
}

/// What the launcher does for a command.
#[derive(Debug, Clone, Copy, PartialEq, Eq, Structural)]
pub enum LaunchPlan {
    ShowWindow,
    Run(RunnerTask),
    OpenWebConsole,
    OpenLogFolder,
}

/// What the launcher does for each command.
pub open spec fn plan_of(command: LauncherCommand) -> LaunchPlan {
    match command {
        LauncherCommand::Ui => LaunchPlan::ShowWindow,
        LauncherCommand::Start => LaunchPlan::Run(RunnerTask::Start),
        LauncherCommand::Stop => LaunchPlan::Run(RunnerTask::Stop),
        LauncherCommand::Restart => LaunchPlan::Run(RunnerTask::Restart),
        LauncherCommand::Status => LaunchPlan::Run(RunnerTask::Status),
        LauncherCommand::OpenWeb => LaunchPlan::OpenWebConsole,
        LauncherCommand::OpenLogs => LaunchPlan::OpenLogFolder,
    }
}

/// What the launcher does for `command`.
pub fn plan_for(command: LauncherCommand) -> (r: LaunchPlan)
    ensures
        r == plan_of(command),
{
    match command {
        LauncherCommand::Ui => LaunchPlan::ShowWindow,
        LauncherCommand::Start => LaunchPlan::Run(RunnerTask::Start),
        LauncherCommand::Stop => LaunchPlan::Run(RunnerTask::Stop),
        LauncherCommand::Restart => LaunchPlan::Run(RunnerTask::Restart),
        LauncherCommand::Status => LaunchPlan::Run(RunnerTask::Status),
        LauncherCommand::OpenWeb => LaunchPlan::OpenWebConsole,
        LauncherCommand::OpenLogs => LaunchPlan::OpenLogFolder,
    }
}

/// What a run of the service script reports: its trimmed output when it succeeded (or a note
/// that it completed, when it printed nothing), else its trimmed error output (or a note that it
/// failed, when that is empty).
pub open spec fn script_outcome(
    success: bool,
    stdout: Seq<char>,
    stderr: Seq<char>,
    action: Seq<char>,
) -> Result<Seq<char>, Seq<char>> {
    if success {
        if trim(stdout).len() == 0 {
            Ok("BeeBotOS "@ + action + " 已完成。"@)
        } else {
            Ok(trim(stdout))
        }
    } else if trim(stderr).len() == 0 {
        Err("BeeBotOS "@ + action + " 失败。"@)
    } else {
        Err(trim(stderr))
    }
}

/// The report of a run of the service script for the task `action`, from whether it succeeded
/// and what it printed.
pub fn command_output(success: bool, stdout: &str, stderr: &str, action: &str) -> (r: Result<
    String,
    String,
>)
    ensures
        match (r, script_outcome(success, stdout@, stderr@, action@)) {
            (Ok(x), Ok(y)) => x@ == y,
            (Err(x), Err(y)) => x@ == y,
            _ => false,
        },
{
    let out = trimmed(stdout);
    let err = trimmed(stderr);
    if success {
        if out.as_str().unicode_len() == 0 {
            let mut m = String::from_str("BeeBotOS ");
            m.append(action);
            m.append(" 已完成。");
            Ok(m)
        } else {
            Ok(out)
        }
    } else if err.as_str().unicode_len() == 0 {
        let mut m = String::from_str("BeeBotOS ");
        m.append(action);
        m.append(" 失败。");
        Err(m)
    } else {
        Err(err)
    }
}


/// A run's report depends on whether the script succeeded: a successful run is reported as a
/// success whatever its error output holds, with its trimmed output or, when that is blank,
/// the completion note; a failed run is reported as a failure whatever its output holds, with
/// its trimmed error output or, when that is blank, the failure note.
pub proof fn law_script_outcome(
    stdout: Seq<char>,
    stderr: Seq<char>,
    other_stdout: Seq<char>,
    other_stderr: Seq<char>,
    action: Seq<char>,
)
    ensures
        script_outcome(true, stdout, stderr, action) is Ok,
        script_outcome(false, stdout, stderr, action) is Err,
        script_outcome(true, stdout, stderr, action) == script_outcome(
            true,
            stdout,
            other_stderr,
            action,
        ),
        script_outcome(false, stdout, stderr, action) == script_outcome(
            false,
            other_stdout,
            stderr,
            action,
        ),
        trim(stdout).len() > 0 ==> script_outcome(true, stdout, stderr, action) == Ok::<
            Seq<char>,
            Seq<char>,
        >(trim(stdout)),
        trim(stdout).len() == 0 ==> script_outcome(true, stdout, stderr, action) == Ok::<
            Seq<char>,
            Seq<char>,
        >("BeeBotOS "@ + action + " 已完成。"@),
        trim(stderr).len() > 0 ==> script_outcome(false, stdout, stderr, action) == Err::<
            Seq<char>,
            Seq<char>,
        >(trim(stderr)),
        trim(stderr).len() == 0 ==> script_outcome(false, stdout, stderr, action) == Err::<
            Seq<char>,
            Seq<char>,
        >("BeeBotOS "@ + action + " 失败。"@),
{
}


/// Which argument names which command: `start`, `stop`, `restart`, `status` and `logs`, bare or
/// after `--`, name their commands; `--open`, `open` and `web` open the web console; any other
/// argument opens the window.
pub proof fn law_command_names(arg: Seq<char>)
    ensures
        command_named(arg) == LauncherCommand::Start <==> (arg == "--start"@ || arg == "start"@),
        command_named(arg) == LauncherCommand::Stop <==> (arg == "--stop"@ || arg == "stop"@),
        command_named(arg) == LauncherCommand::Restart <==> (arg == "--restart"@ || arg
            == "restart"@),
        command_named(arg) == LauncherCommand::Status <==> (arg == "--status"@ || arg
            == "status"@),
        command_named(arg) == LauncherCommand::OpenWeb <==> (arg == "--open"@ || arg == "open"@
            || arg == "web"@),
        command_named(arg) == LauncherCommand::OpenLogs <==> (arg == "--logs"@ || arg == "logs"@),
{
    reveal_strlit("--start");
    reveal_strlit("start");
    reveal_strlit("--stop");
    reveal_strlit("stop");
    reveal_strlit("--restart");
    reveal_strlit("restart");
    reveal_strlit("--status");
    reveal_strlit("status");
    reveal_strlit("--open");
    reveal_strlit("open");
    reveal_strlit("web");
    reveal_strlit("--logs");
    reveal_strlit("logs");
    assert("--start"@[0] != "restart"@[0]);
    assert("--start"@.len() == 7);
    assert("start"@.len() == 5);
    assert("--stop"@.len() == 6);
    assert("stop"@.len() == 4);
    assert("--restart"@.len() == 9);
    assert("restart"@.len() == 7);
    assert("--status"@.len() == 8);
    assert("status"@.len() == 6);
    assert("--open"@.len() == 6);
    assert("open"@.len() == 4);
    assert("web"@.len() == 3);
    assert("--logs"@.len() == 6);
    assert("logs"@.len() == 4);
    assert("--stop"@[0] != "status"@[0]);
    assert("--stop"@[2] != "--open"@[2]);
    assert("--stop"@[2] != "--logs"@[2]);
    assert("--open"@[2] != "--logs"@[2]);
    assert("status"@[0] != "--open"@[0]);
    assert("status"@[0] != "--logs"@[0]);
    assert("stop"@[0] != "open"@[0]);
    assert("stop"@[0] != "logs"@[0]);
    assert("open"@[0] != "logs"@[0]);
}

/// Each service command runs the script with its own task; the window, the web console and the
/// log folder run no script.
pub proof fn law_plans(command: LauncherCommand)
    ensures
        plan_of(command) is Run <==> (command == LauncherCommand::Start || command
            == LauncherCommand::Stop || command == LauncherCommand::Restart || command
            == LauncherCommand::Status),
        plan_of(command) matches LaunchPlan::Run(t) ==> task_argument(t) == (match command {
            LauncherCommand::Start => "start"@,
            LauncherCommand::Stop => "stop"@,
            LauncherCommand::Restart => "restart"@,
            _ => "status"@,
        }),
        command == LauncherCommand::Ui <==> plan_of(command) == LaunchPlan::ShowWindow,
        command == LauncherCommand::OpenWeb <==> plan_of(command) == LaunchPlan::OpenWebConsole,
        command == LauncherCommand::OpenLogs <==> plan_of(command) == LaunchPlan::OpenLogFolder,
{
}

} // verus!
