//! Building Python scripts into Wasm components: the WIT directory, the
//! `componentize-py` command line and what is reported about it.
use vstd::prelude::*;

use crate::text::{i32_to_decimal, signed_decimal};

verus! {

/// The WIT directory: the one given, else `./wit`.
pub fn resolve_wit_path(wit_path: Option<String>) -> (r: String)
    ensures
        match wit_path {
            Some(p) => r == p,
            None => r@ == "./wit"@,
        },
{
    match wit_path {
        Some(p) => p,
        None => String::from_str("./wit"),
    }
}

/// The arguments of `componentize-py` that build the script module `app_name`
/// against the WIT directory `wit_dir` into `out`; the global flags `-d` and
/// `-w` come before the subcommand.
pub fn componentize_args(wit_dir: &str, app_name: &str, out: &str) -> (r: Vec<String>)
    ensures
        r@.map_values(|s: String| s@) == seq![
            "-d"@,
            wit_dir@,
            "-w"@,
            "task-component"@,
            "componentize"@,
            app_name@,
            "-o"@,
            out@,
        ],
{
    let mut v: Vec<String> = Vec::new();
    v.push(String::from_str("-d"));
    v.push(wit_dir.to_owned());
    v.push(String::from_str("-w"));
    v.push(String::from_str("task-component"));
    v.push(String::from_str("componentize"));
    v.push(app_name.to_owned());
    v.push(String::from_str("-o"));
    v.push(out.to_owned());
    assert(v@.map_values(|s: String| s@) =~= seq![
        "-d"@,
        wit_dir@,
        "-w"@,
        "task-component"@,
        "componentize"@,
        app_name@,
        "-o"@,
        out@,
    ]);
    v
}

/// Why `componentize-py` could not be started: it is not installed
/// (`not_found`), or the error `err`.
pub fn componentize_launch_failure(not_found: bool, err: &str) -> (r: String)
    ensures
        not_found ==> r@ == "`componentize-py` not found on PATH.\nInstall it with: pip install componentize-py"@,
        !not_found ==> r@ == "failed to run componentize-py: "@ + err@,
{
    if not_found {
        String::from_str("`componentize-py` not found on PATH.\nInstall it with: pip install componentize-py")
    } else {
        let mut m = String::from_str("failed to run componentize-py: ");
        m.append(err);
        m
    }
}

/// The failure of a `componentize-py` run that exited with `code` (none when
/// a signal ended it, reported as -1).
pub fn componentize_exit_failure(code: Option<i32>) -> (r: String)
    ensures
        r@ == "componentize-py exited with status "@ + signed_decimal(
            match code {
                Some(c) => c as int,
                None => -1,
            },
        ),
{
    let c = match code {
        Some(c) => c,
        None => -1,
    };
    let mut m = String::from_str("componentize-py exited with status ");
    let d = i32_to_decimal(c);
    m.append(d.as_str());
    m
}

/// The report of a built component.
pub fn built_message(script: &str, out: &str) -> (r: String)
    ensures
        r@ == "Built "@ + script@ + " \u{2192} "@ + out@,
{
    let mut m = String::from_str("Built ");
    m.append(script);
    m.append(" \u{2192} ");
    m.append(out);
    m
}

} // verus!
