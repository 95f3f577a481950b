use desktop_snapshot::commands::{
    backup_task_arguments, backup_task_command, elevation_script, powershell_arguments,
    powershell_quote, unregister_task_arguments,
};
use desktop_snapshot::environment::{environment_variable_names, expand_environment_variables};
use desktop_snapshot::text::{compare_text, push_signed_decimal, trimmed, Rank};

#[test]
fn decimal_rendering() {
    for n in [0i64, 7, 10, 99, 1700000000, -1, -42, i64::MAX, i64::MIN] {
        let mut s = String::new();
        push_signed_decimal(&mut s, n);
        assert_eq!(s, n.to_string());
    }
}

#[test]
fn text_order_is_byte_order() {
    assert_eq!(compare_text("a", "b"), Rank::Before);
    assert_eq!(compare_text("b", "a"), Rank::After);
    assert_eq!(compare_text("ab", "ab"), Rank::Same);
    assert_eq!(compare_text("ab", "abc"), Rank::Before);
    assert_eq!(compare_text("Z", "a"), Rank::Before);
    assert_eq!(compare_text("é", "z"), Rank::After);
}

#[test]
fn trimming_unicode_whitespace() {
    assert_eq!(trimmed("  a b \n"), "a b");
    assert_eq!(trimmed("\u{2003}\u{3000}x\u{85}"), "x");
    assert_eq!(trimmed(" \t "), "");
    assert_eq!(trimmed("\u{200b}x"), "\u{200b}x");
}

#[test]
fn references_and_expansion() {
    let value = "%SystemRoot%\\system32\\%X%%Y%\\100% done";
    let names = environment_variable_names(value);
    assert_eq!(names, vec!["SystemRoot".to_owned(), "X".to_owned(), "Y".to_owned()]);
    let values = vec![Some("C:\\Windows".to_owned()), None, Some("y".to_owned())];
    assert_eq!(
        expand_environment_variables(value, &values),
        "C:\\Windows\\system32\\%X%y\\100% done\\100% done"
    );
}

#[test]
fn expansion_without_values_keeps_the_text() {
    for value in ["plain", "%A%", "%%", "a%b%c", ""] {
        assert_eq!(expand_environment_variables(value, &[]), value);
    }
    assert_eq!(expand_environment_variables("50%", &[]), "50%50%");
    assert_eq!(expand_environment_variables("a%b%c%d", &[]), "a%b%c%dc%d");
    assert_eq!(expand_environment_variables("%A%x%", &[Some("1".to_owned())]), "1x%x%");
    assert_eq!(environment_variable_names("%%"), vec!["".to_owned()]);
    assert_eq!(expand_environment_variables("%%", &[Some("v".to_owned())]), "v");
    assert_eq!(expand_environment_variables("%A%", &[Some("1".to_owned()), Some("2".to_owned())]), "1");
}

#[test]
fn task_scheduler_arguments() {
    assert_eq!(
        backup_task_command("C:\\Apps\\desktop-snapshot.exe"),
        "\"C:\\Apps\\desktop-snapshot.exe\" backup --quiet"
    );
    let args = backup_task_arguments("C:\\cli.exe", 15);
    assert_eq!(
        args,
        vec![
            "/Create", "/TN", "DesktopSnapshot\\自动备份", "/TR", "\"C:\\cli.exe\" backup --quiet",
            "/SC", "MINUTE", "/MO", "15", "/F", "/RL", "LIMITED",
        ]
    );
    assert_eq!(backup_task_arguments("c", 0)[8], "1");
    assert_eq!(unregister_task_arguments(), vec!["/Delete", "/TN", "DesktopSnapshot\\自动备份", "/F"]);
}

#[test]
fn powershell_quoting_and_script() {
    assert_eq!(powershell_quote("it's"), "'it''s'");
    assert_eq!(powershell_quote(""), "''");
    let script = elevation_script("C:\\a b\\ui.exe", &["--elevated-restore".to_owned(), "17".to_owned()]);
    assert_eq!(
        script,
        "$process = Start-Process -FilePath 'C:\\a b\\ui.exe' -ArgumentList @('--elevated-restore', '17') -Verb RunAs -WindowStyle Hidden -Wait -PassThru; exit $process.ExitCode"
    );
    assert_eq!(
        elevation_script("x", &[]),
        "$process = Start-Process -FilePath 'x' -ArgumentList @() -Verb RunAs -WindowStyle Hidden -Wait -PassThru; exit $process.ExitCode"
    );
    let args = powershell_arguments("S".to_owned());
    assert_eq!(args, vec!["-NoProfile", "-NonInteractive", "-ExecutionPolicy", "Bypass", "-Command", "S"]);
}
