use beebotos_launcher::command::{
    command_output, parse_launcher_command, plan_for, LaunchPlan, LauncherCommand, RunnerTask,
};

#[test]
fn no_argument_opens_window() {
    assert_eq!(parse_launcher_command(&[]), LauncherCommand::Ui);
}

#[test]
fn named_commands() {
    let cases = [
        ("--start", LauncherCommand::Start),
        ("start", LauncherCommand::Start),
        ("--stop", LauncherCommand::Stop),
        ("stop", LauncherCommand::Stop),
        ("--restart", LauncherCommand::Restart),
        ("restart", LauncherCommand::Restart),
        ("--status", LauncherCommand::Status),
        ("status", LauncherCommand::Status),
        ("--open", LauncherCommand::OpenWeb),
        ("open", LauncherCommand::OpenWeb),
        ("web", LauncherCommand::OpenWeb),
        ("--logs", LauncherCommand::OpenLogs),
        ("logs", LauncherCommand::OpenLogs),
    ];
    for (arg, expected) in cases {
        assert_eq!(parse_launcher_command(&[arg]), expected, "{arg}");
    }
}

#[test]
fn unknown_argument_opens_window() {
    assert_eq!(parse_launcher_command(&["--web"]), LauncherCommand::Ui);
    assert_eq!(parse_launcher_command(&["START"]), LauncherCommand::Ui);
    assert_eq!(parse_launcher_command(&[""]), LauncherCommand::Ui);
}

#[test]
fn only_first_argument_counts() {
    assert_eq!(parse_launcher_command(&["stop", "start"]), LauncherCommand::Stop);
    assert_eq!(parse_launcher_command(&["x", "start"]), LauncherCommand::Ui);
}

#[test]
fn plans() {
    assert_eq!(plan_for(LauncherCommand::Ui), LaunchPlan::ShowWindow);
    assert_eq!(plan_for(LauncherCommand::Start), LaunchPlan::Run(RunnerTask::Start));
    assert_eq!(plan_for(LauncherCommand::Stop), LaunchPlan::Run(RunnerTask::Stop));
    assert_eq!(plan_for(LauncherCommand::Restart), LaunchPlan::Run(RunnerTask::Restart));
    assert_eq!(plan_for(LauncherCommand::Status), LaunchPlan::Run(RunnerTask::Status));
    assert_eq!(plan_for(LauncherCommand::OpenWeb), LaunchPlan::OpenWebConsole);
    assert_eq!(plan_for(LauncherCommand::OpenLogs), LaunchPlan::OpenLogFolder);
}

#[test]
fn runner_tasks() {
    assert_eq!(RunnerTask::Start.argument(), "start");
    assert_eq!(RunnerTask::Stop.argument(), "stop");
    assert_eq!(RunnerTask::Restart.argument(), "restart");
    assert_eq!(RunnerTask::Status.argument(), "status");
    assert!(RunnerTask::Start.prepares_env());
    assert!(RunnerTask::Restart.prepares_env());
    assert!(!RunnerTask::Stop.prepares_env());
    assert!(!RunnerTask::Status.prepares_env());
    assert!(RunnerTask::Status.shows_output());
    assert!(!RunnerTask::Start.shows_output());
}

#[test]
fn script_output_reports() {
    assert_eq!(command_output(true, "  done \n", "", "start"), Ok("done".to_string()));
    assert_eq!(
        command_output(true, " \n", "warn", "stop"),
        Ok("BeeBotOS stop 已完成。".to_string())
    );
    assert_eq!(
        command_output(false, "out", "  boom\n", "start"),
        Err("boom".to_string())
    );
    assert_eq!(
        command_output(false, "out", "", "restart"),
        Err("BeeBotOS restart 失败。".to_string())
    );
}
