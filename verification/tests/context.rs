use vaktum::context::{classify_process_name, ApplicationKind};

#[test]
fn classifies_vscode() {
    assert_eq!(classify_process_name("Code.exe"), ApplicationKind::VsCode);
    assert_eq!(
        classify_process_name("C:\\Program Files\\Microsoft VS Code\\Code.exe"),
        ApplicationKind::VsCode
    );
    assert_eq!(classify_process_name("code-insiders.exe"), ApplicationKind::VsCode);
}

#[test]
fn classifies_notepad() {
    assert_eq!(classify_process_name("notepad.exe"), ApplicationKind::Notepad);
}

#[test]
fn classifies_common_browsers() {
    assert_eq!(classify_process_name("chrome.exe"), ApplicationKind::Browser);
    assert_eq!(classify_process_name("msedge.exe"), ApplicationKind::Browser);
    assert_eq!(classify_process_name("firefox.exe"), ApplicationKind::Browser);
}

#[test]
fn classifies_windows_terminals() {
    assert_eq!(classify_process_name("WindowsTerminal.exe"), ApplicationKind::Terminal);
    assert_eq!(classify_process_name("wt.exe"), ApplicationKind::Terminal);
    assert_eq!(classify_process_name("cmd.exe"), ApplicationKind::Terminal);
    assert_eq!(classify_process_name("powershell.exe"), ApplicationKind::Terminal);
    assert_eq!(classify_process_name("pwsh.exe"), ApplicationKind::Terminal);
}

#[test]
fn unsupported_process_is_unknown() {
    assert_eq!(classify_process_name("explorer.exe"), ApplicationKind::Unknown);
}

#[test]
fn empty_process_name_is_unknown() {
    assert_eq!(classify_process_name(""), ApplicationKind::Unknown);
    assert_eq!(classify_process_name("   "), ApplicationKind::Unknown);
}

#[test]
fn classification_does_not_modify_process_name() {
    let process_name = "C:\\Program Files\\Google\\Chrome\\chrome.exe";
    assert_eq!(classify_process_name(process_name), ApplicationKind::Browser);
    assert_eq!(process_name, "C:\\Program Files\\Google\\Chrome\\chrome.exe");
}

#[test]
fn classification_does_not_panic_for_invalid_names() {
    let names = ["", " ", ".", ".exe", "not-an-executable", "???"];
    for name in names {
        let _ = classify_process_name(name);
    }
}

use vaktum::context::{detect, executable_name};

#[test]
fn classification_ignores_case_and_directory() {
    assert_eq!(classify_process_name("C:/Tools/PWSH.EXE"), ApplicationKind::Terminal);
    assert_eq!(classify_process_name("/opt\\apps/FireFox.Exe  "), ApplicationKind::Browser);
    assert_eq!(classify_process_name("C:\\chrome.exe\\"), ApplicationKind::Unknown);
}

#[test]
fn executable_name_is_the_last_path_part() {
    assert_eq!(executable_name("C:\\Windows\\notepad.exe"), "notepad.exe");
    assert_eq!(executable_name("/usr/bin/code"), "code");
    assert_eq!(executable_name("cmd.exe"), "cmd.exe");
    assert_eq!(executable_name("dir/"), "");
}

#[test]
fn detect_classifies_the_resolved_process() {
    let context = detect(Some("C:\\Program Files\\Microsoft VS Code\\Code.exe".to_owned()), 1_700_000_000);
    assert_eq!(context.application, ApplicationKind::VsCode);
    assert_eq!(context.process_name, "C:\\Program Files\\Microsoft VS Code\\Code.exe");
    assert_eq!(context.captured_at, 1_700_000_000);

    let unknown = detect(None, 7);
    assert_eq!(unknown.application, ApplicationKind::Unknown);
    assert_eq!(unknown.process_name, "");
    assert_eq!(unknown.captured_at, 7);
}
