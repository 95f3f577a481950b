//! The command lines that the desktop procedures hand to Windows tools: the
//! task scheduler, and PowerShell for running a process with administrator
//! rights.

use vstd::prelude::*;
use crate::storage::texts;
use crate::text::{chars_of, decimal, push_decimal};

verus! {

broadcast use vstd::string::group_string_axioms;

/// The name of the scheduled task that runs the automatic backup.
pub open spec fn backup_task_name() -> Seq<char> {
    "DesktopSnapshot\\自动备份"@
}

/// The command that the scheduled task runs: the command-line tool, quoted,
/// with `backup --quiet`.
pub open spec fn backup_task_command_text(cli_path: Seq<char>) -> Seq<char> {
    seq!['"'] + cli_path + "\" backup --quiet"@
}

/// The arguments of `schtasks.exe` that register the backup task, run every
/// `interval_minutes` minutes (at least every minute).
pub open spec fn backup_task_argument_texts(cli_path: Seq<char>, interval_minutes: u32) -> Seq<
    Seq<char>,
> {
    seq![
        "/Create"@,
        "/TN"@,
        backup_task_name(),
        "/TR"@,
        backup_task_command_text(cli_path),
        "/SC"@,
        "MINUTE"@,
        "/MO"@,
        decimal(if interval_minutes < 1 { 1 } else { interval_minutes as nat }),
        "/F"@,
        "/RL"@,
        "LIMITED"@,
    ]
}

fn push_text(list: &mut Vec<String>, text: &str)
    ensures
        texts(final(list)@) == texts(old(list)@).push(text@),
{
    let ghost before = list@;
    list.push(String::from_str(text));
    proof {
        assert(texts(list@) =~= texts(before).push(text@));
    }
}

fn push_string(list: &mut Vec<String>, text: String)
    ensures
        texts(final(list)@) == texts(old(list)@).push(text@),
{
    let ghost before = list@;
    let ghost t = text@;
    list.push(text);
    proof {
        assert(texts(list@) =~= texts(before).push(t));
    }
}

/// The command that the scheduled backup task runs.
pub fn backup_task_command(cli_path: &str) -> (command: String)
    ensures
        command@ == backup_task_command_text(cli_path@),
{
    let mut command = String::new();
    command.push('"');
    command.append(cli_path);
    command.append("\" backup --quiet");
    proof {
        assert(command@ =~= backup_task_command_text(cli_path@));
    }
    command
}

/// The arguments of `schtasks.exe` that register (or replace) the automatic
/// backup task.
pub fn backup_task_arguments(cli_path: &str, interval_minutes: u32) -> (arguments: Vec<String>)
    ensures
        texts(arguments@) == backup_task_argument_texts(cli_path@, interval_minutes),
{
    let mut arguments: Vec<String> = Vec::new();
    push_text(&mut arguments, "/Create");
    push_text(&mut arguments, "/TN");
    push_text(&mut arguments, "DesktopSnapshot\\自动备份");
    push_text(&mut arguments, "/TR");
    push_string(&mut arguments, backup_task_command(cli_path));
    push_text(&mut arguments, "/SC");
    push_text(&mut arguments, "MINUTE");
    push_text(&mut arguments, "/MO");
    let interval: u32 = if interval_minutes < 1 {
        1
    } else {
        interval_minutes
    };
    let mut every = String::new();
    push_decimal(&mut every, interval as u128);
    push_string(&mut arguments, every);
    push_text(&mut arguments, "/F");
    push_text(&mut arguments, "/RL");
    push_text(&mut arguments, "LIMITED");
    proof {
        assert(texts(arguments@) =~= backup_task_argument_texts(cli_path@, interval_minutes));
    }
    arguments
}

/// The arguments of `schtasks.exe` that remove the automatic backup task.
pub fn unregister_task_arguments() -> (arguments: Vec<String>)
    ensures
        texts(arguments@) == seq!["/Delete"@, "/TN"@, backup_task_name(), "/F"@],
{
    let mut arguments: Vec<String> = Vec::new();
    push_text(&mut arguments, "/Delete");
    push_text(&mut arguments, "/TN");
    push_text(&mut arguments, "DesktopSnapshot\\自动备份");
    push_text(&mut arguments, "/F");
    proof {
        assert(texts(arguments@) =~= seq!["/Delete"@, "/TN"@, backup_task_name(), "/F"@]);
    }
    arguments
}

/// `s` with every `'` doubled, as PowerShell escapes it inside single quotes.
pub open spec fn double_apostrophes(s: Seq<char>) -> Seq<char>
    decreases s.len(),
{
    if s.len() == 0 {
        seq![]
    } else {
        double_apostrophes(s.drop_last()) + if s.last() == '\'' {
            seq!['\'', '\'']
        } else {
            seq![s.last()]
        }
    }
}

/// A PowerShell single-quoted string literal holding `s`.
pub open spec fn powershell_literal(s: Seq<char>) -> Seq<char> {
    seq!['\''] + double_apostrophes(s) + seq!['\'']
}

/// The quoted arguments, separated by `, `.
pub open spec fn quoted_list(arguments: Seq<Seq<char>>) -> Seq<char>
    decreases arguments.len(),
{
    if arguments.len() == 0 {
        seq![]
    } else if arguments.len() == 1 {
        powershell_literal(arguments[0])
    } else {
        quoted_list(arguments.drop_last()) + ", "@ + powershell_literal(arguments.last())
    }
}

/// The PowerShell script that starts `executable` with `arguments` with
/// administrator rights, waits for it, and exits with its exit code.
pub open spec fn elevation_script_text(executable: Seq<char>, arguments: Seq<Seq<char>>) -> Seq<
    char,
> {
    "$process = Start-Process -FilePath "@ + powershell_literal(executable) + " -ArgumentList @("@
        + quoted_list(arguments)
        + ") -Verb RunAs -WindowStyle Hidden -Wait -PassThru; exit $process.ExitCode"@
}

/// A PowerShell single-quoted literal holding `value`.
pub fn powershell_quote(value: &str) -> (quoted: String)
    ensures
        quoted@ == powershell_literal(value@),
{
    let chars = chars_of(value);
    let mut quoted = String::new();
    quoted.push('\'');
    let mut i: usize = 0;
    while i < chars.len()
        invariant
            i <= chars@.len(),
            chars@ == value@,
            quoted@ == seq!['\''] + double_apostrophes(value@.take(i as int)),
        decreases chars.len() - i,
    {
        let c = chars[i];
        quoted.push(c);
        if c == '\'' {
            quoted.push('\'');
        }
        proof {
            assert(value@.take(i + 1).drop_last() =~= value@.take(i as int));
            assert(quoted@ =~= seq!['\''] + double_apostrophes(value@.take(i + 1)));
        }
        i = i + 1;
    }
    quoted.push('\'');
    proof {
        assert(value@.take(chars.len() as int) =~= value@);
        assert(quoted@ =~= powershell_literal(value@));
    }
    quoted
}

/// The PowerShell script that runs `executable` with `arguments` with
/// administrator rights and waits for it.
pub fn elevation_script(executable: &str, arguments: &[String]) -> (script: String)
    ensures
        script@ == elevation_script_text(executable@, texts(arguments@)),
{
    let mut script = String::from_str("$process = Start-Process -FilePath ");
    let quoted_executable = powershell_quote(executable);
    script.append(quoted_executable.as_str());
    script.append(" -ArgumentList @(");
    let ghost prefix = script@;
    let mut i: usize = 0;
    while i < arguments.len()
        invariant
            i <= arguments@.len(),
            script@ == prefix + quoted_list(texts(arguments@).take(i as int)),
        decreases arguments.len() - i,
    {
        if i > 0 {
            script.append(", ");
        }
        let quoted = powershell_quote(arguments[i].as_str());
        script.append(quoted.as_str());
        proof {
            let done = texts(arguments@).take(i + 1);
            assert(done.drop_last() =~= texts(arguments@).take(i as int));
            assert(done.last() == arguments@[i as int]@);
            assert(script@ =~= prefix + quoted_list(done));
        }
        i = i + 1;
    }
    script.append(") -Verb RunAs -WindowStyle Hidden -Wait -PassThru; exit $process.ExitCode");
    proof {
        assert(texts(arguments@).take(arguments@.len() as int) =~= texts(arguments@));
        assert(script@ =~= elevation_script_text(executable@, texts(arguments@)));
    }
    script
}

/// The arguments of `powershell.exe` that run a script.
pub fn powershell_arguments(script: String) -> (arguments: Vec<String>)
    ensures
        texts(arguments@) == seq![
            "-NoProfile"@,
            "-NonInteractive"@,
            "-ExecutionPolicy"@,
            "Bypass"@,
            "-Command"@,
            script@,
        ],
{
    let mut arguments: Vec<String> = Vec::new();
    push_text(&mut arguments, "-NoProfile");
    push_text(&mut arguments, "-NonInteractive");
    push_text(&mut arguments, "-ExecutionPolicy");
    push_text(&mut arguments, "Bypass");
    push_text(&mut arguments, "-Command");
    let ghost text = script@;
    push_string(&mut arguments, script);
    proof {
        assert(texts(arguments@) =~= seq![
            "-NoProfile"@,
            "-NonInteractive"@,
            "-ExecutionPolicy"@,
            "Bypass"@,
            "-Command"@,
            text,
        ]);
    }
    arguments
}

} // verus!
