//! Built-in patterns used when no configuration file is found.
use vstd::prelude::*;
use super::schema::{Config, Filter, config_view};
use crate::matcher::classifier::Severity;
use super::loader::is_lowercase_text;

verus! {

/// The built-in filters, in order.
///
/// All patterns are stored **lowercase**.  The processor lowercases each line
/// before matching, so these patterns match any capitalisation variant:
/// `ERROR`, `Error`, `error`, `eRrOr`, etc.
pub open spec fn default_filter_table() -> Seq<(Seq<char>, Severity)> {
    seq![
        ("panic"@, Severity::Critical),
        ("fatal"@, Severity::Critical),
        ("critical"@, Severity::Critical),
        ("segfault"@, Severity::Critical),
        ("sigsegv"@, Severity::Critical),
        ("out of memory"@, Severity::Critical),
        ("oom"@, Severity::Critical),
        ("killed"@, Severity::Critical),
        ("timeout"@, Severity::Critical),
        ("deadlock"@, Severity::Critical),
        ("error"@, Severity::Error),
        ("err:"@, Severity::Error),
        ("exception"@, Severity::Error),
        ("traceback"@, Severity::Error),
        ("stacktrace"@, Severity::Error),
        ("stack trace"@, Severity::Error),
        ("failed"@, Severity::Error),
        ("failure"@, Severity::Error),
        ("crash"@, Severity::Error),
        ("abort"@, Severity::Error),
        ("denied"@, Severity::Error),
        ("refused"@, Severity::Error),
        ("cannot"@, Severity::Error),
        ("no such"@, Severity::Error),
        ("not found"@, Severity::Error),
        ("undefined"@, Severity::Error),
        ("unhandled"@, Severity::Error),
        ("uncaught"@, Severity::Error),
        ("warn"@, Severity::Warn),
        ("warning"@, Severity::Warn),
        ("deprecated"@, Severity::Warn),
        ("retrying"@, Severity::Warn),
        ("retry"@, Severity::Warn),
        ("slow"@, Severity::Warn),
        ("high memory"@, Severity::Warn),
        ("success"@, Severity::Info),
        ("successfully"@, Severity::Info),
        ("started"@, Severity::Info),
        ("running"@, Severity::Info),
        ("ready"@, Severity::Info),
        ("listening"@, Severity::Info),
        ("connected"@, Severity::Info),
        ("built"@, Severity::Info),
    ]
}

fn filter(pattern: &str, severity: Severity) -> (f: Filter)
    ensures
        f.pattern@ == pattern@,
        f.severity == severity,
{
    Filter { pattern: pattern.to_owned(), severity }
}

/// Built-in patterns used when no `.sentinel.toml` is found.
///
/// Patterns are matched as substrings, so they fire on any line that
/// *contains* the pattern, not just lines that start with it.
pub fn default_config() -> (c: Config)
    ensures
        config_view(c) == default_filter_table(),
{
    let mut filters: Vec<Filter> = Vec::new();
        // ── Critical / Fatal (bold yellow on red + beep)
        filters.push(filter("panic", Severity::Critical));
        filters.push(filter("fatal", Severity::Critical));
        filters.push(filter("critical", Severity::Critical));
        filters.push(filter("segfault", Severity::Critical));
        filters.push(filter("sigsegv", Severity::Critical));
        filters.push(filter("out of memory", Severity::Critical));
        filters.push(filter("oom", Severity::Critical));
        filters.push(filter("killed", Severity::Critical));
        filters.push(filter("timeout", Severity::Critical));
        filters.push(filter("deadlock", Severity::Critical));
        // ── Errors (bold white on red + beep)
        filters.push(filter("error", Severity::Error));
        filters.push(filter("err:", Severity::Error));
        filters.push(filter("exception", Severity::Error));
        filters.push(filter("traceback", Severity::Error));
        filters.push(filter("stacktrace", Severity::Error));
        filters.push(filter("stack trace", Severity::Error));
        filters.push(filter("failed", Severity::Error));
        filters.push(filter("failure", Severity::Error));
        filters.push(filter("crash", Severity::Error));
        filters.push(filter("abort", Severity::Error));
        filters.push(filter("denied", Severity::Error));
        filters.push(filter("refused", Severity::Error));
        filters.push(filter("cannot", Severity::Error));
        filters.push(filter("no such", Severity::Error));
        filters.push(filter("not found", Severity::Error));
        filters.push(filter("undefined", Severity::Error));
        filters.push(filter("unhandled", Severity::Error));
        filters.push(filter("uncaught", Severity::Error));
        // ── Warnings (bold yellow, no beep)
        filters.push(filter("warn", Severity::Warn));
        filters.push(filter("warning", Severity::Warn));
        filters.push(filter("deprecated", Severity::Warn));
        filters.push(filter("retrying", Severity::Warn));
        filters.push(filter("retry", Severity::Warn));
        filters.push(filter("slow", Severity::Warn));
        filters.push(filter("high memory", Severity::Warn));
        // ── Info / Success (bold cyan, no beep)
        filters.push(filter("success", Severity::Info));
        filters.push(filter("successfully", Severity::Info));
        filters.push(filter("started", Severity::Info));
        filters.push(filter("running", Severity::Info));
        filters.push(filter("ready", Severity::Info));
        filters.push(filter("listening", Severity::Info));
        filters.push(filter("connected", Severity::Info));
        filters.push(filter("built", Severity::Info));
    let c = Config { filters };
    assert(config_view(c) =~= default_filter_table());
    c
}

/// Law: every built-in pattern is non-empty lowercase text, so each one
/// matches the lowercased lines whatever their case.
pub proof fn lemma_default_patterns_lowercase()
    ensures
        forall|i: int|
            0 <= i < default_filter_table().len() ==> is_lowercase_text(
                #[trigger] default_filter_table()[i].0,
            ) && default_filter_table()[i].0.len() > 0,
{
    reveal_strlit("panic");
    reveal_strlit("fatal");
    reveal_strlit("critical");
    reveal_strlit("segfault");
    reveal_strlit("sigsegv");
    reveal_strlit("out of memory");
    reveal_strlit("oom");
    reveal_strlit("killed");
    reveal_strlit("timeout");
    reveal_strlit("deadlock");
    reveal_strlit("error");
    reveal_strlit("err:");
    reveal_strlit("exception");
    reveal_strlit("traceback");
    reveal_strlit("stacktrace");
    reveal_strlit("stack trace");
    reveal_strlit("failed");
    reveal_strlit("failure");
    reveal_strlit("crash");
    reveal_strlit("abort");
    reveal_strlit("denied");
    reveal_strlit("refused");
    reveal_strlit("cannot");
    reveal_strlit("no such");
    reveal_strlit("not found");
    reveal_strlit("undefined");
    reveal_strlit("unhandled");
    reveal_strlit("uncaught");
    reveal_strlit("warn");
    reveal_strlit("warning");
    reveal_strlit("deprecated");
    reveal_strlit("retrying");
    reveal_strlit("retry");
    reveal_strlit("slow");
    reveal_strlit("high memory");
    reveal_strlit("success");
    reveal_strlit("successfully");
    reveal_strlit("started");
    reveal_strlit("running");
    reveal_strlit("ready");
    reveal_strlit("listening");
    reveal_strlit("connected");
    reveal_strlit("built");
    let t = default_filter_table();
    assert forall|i: int| 0 <= i < t.len() implies is_lowercase_text(#[trigger] t[i].0) && t[i].0.len()
        > 0 by {
        assert(is_lowercase_text(t[i].0));
    }
}

/// The documented built-in patterns of each severity.
///
/// - Critical: panic, fatal, critical, segfault, sigsegv, out of memory,
///   oom, killed, timeout, deadlock;
/// - Error: error, err:, exception, traceback, stacktrace, stack trace,
///   failed, failure, crash, abort, denied, refused, cannot, no such,
///   not found, undefined, unhandled, uncaught;
/// - Warn: warn, warning, deprecated, retrying, retry, slow, high memory;
/// - Info: success, successfully, started, running, ready, listening,
///   connected, built.
pub open spec fn builtin_group(severity: Severity) -> Seq<Seq<char>> {
    match severity {
        Severity::Critical => seq![
            "panic"@, "fatal"@, "critical"@, "segfault"@, "sigsegv"@,
            "out of memory"@, "oom"@, "killed"@, "timeout"@, "deadlock"@,
        ],
        Severity::Error => seq![
            "error"@, "err:"@, "exception"@, "traceback"@, "stacktrace"@,
            "stack trace"@, "failed"@, "failure"@, "crash"@, "abort"@,
            "denied"@, "refused"@, "cannot"@, "no such"@, "not found"@,
            "undefined"@, "unhandled"@, "uncaught"@,
        ],
        Severity::Warn => seq![
            "warn"@, "warning"@, "deprecated"@, "retrying"@, "retry"@, "slow"@,
            "high memory"@,
        ],
        Severity::Info => seq![
            "success"@, "successfully"@, "started"@, "running"@, "ready"@,
            "listening"@, "connected"@, "built"@,
        ],
    }
}

/// Law: the built-in table holds every documented pattern with its
/// documented severity (for instance `failed` is an Error pattern, `ready`
/// an Info pattern), and has exactly as many entries as there are
/// documented patterns.
pub proof fn lemma_builtin_severities()
    ensures
        default_filter_table().len() == builtin_group(Severity::Critical).len() + builtin_group(
            Severity::Error,
        ).len() + builtin_group(Severity::Warn).len() + builtin_group(Severity::Info).len(),
        forall|severity: Severity, k: int|
            0 <= k < builtin_group(severity).len() ==> default_filter_table().contains(
                (#[trigger] builtin_group(severity)[k], severity),
            ),
{
    let t = default_filter_table();
    assert forall|severity: Severity, k: int|
        0 <= k < builtin_group(severity).len() implies t.contains(
            (#[trigger] builtin_group(severity)[k], severity),
        ) by {
        let g = builtin_group(severity);
        let off: int = match severity {
            Severity::Critical => 0,
            Severity::Error => 10,
            Severity::Warn => 28,
            Severity::Info => 35,
        };
        assert(t.subrange(off, off + g.len()) =~= g.map_values(|p: Seq<char>| (p, severity)));
        assert(t.subrange(off, off + g.len())[k] == t[off + k]);
        assert(t[off + k] == (g[k], severity));
    }
}

} // verus!
