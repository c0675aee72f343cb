use clr_profiler::launch::get_command_line;

#[test]
fn dll_target_runs_under_dotnet() {
    let line = get_command_line(&"/opt/app/.dll".to_string(), &".dll".to_string(), &["x".to_string()]);
    assert_eq!(line, "dotnet /opt/app/.dll");
}

#[test]
fn program_target_runs_with_its_arguments() {
    let args = vec!["--fast".to_string(), "input.txt".to_string()];
    let line = get_command_line(&"/opt/app/tool.exe".to_string(), &"tool.exe".to_string(), &args);
    assert_eq!(line, "/opt/app/tool.exe --fast input.txt");
}

#[test]
fn program_target_without_arguments_is_its_path() {
    let line = get_command_line(&"/opt/app/app.dll".to_string(), &"app.dll".to_string(), &[]);
    assert_eq!(line, "/opt/app/app.dll");
}
