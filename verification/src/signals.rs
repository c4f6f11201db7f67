//! Signal descriptions and names.
use vstd::prelude::*;
use vstd::string::*;
use vstd::utf8::encode_utf8;
use crate::memory::{mapped, put, Memory, Ptr};
use crate::scan::{c_bytes, c_ended, c_len, read_c_string_bytes, readable};
use crate::text::{c_text, decimal, push_bytes, push_decimal, push_text, store_text};

verus! {

pub const GLIBC_SIGRTMIN: i32 = 34;

pub const GLIBC_SIGRTMAX: i32 = 64;

/// Entries in the signal tables.
pub const SYS_SIGLIST_LEN: usize = 65;

/// Bytes in the thread's buffer for [`strsignal`].
pub const STRSIGNAL_BUF_LEN: usize = 64;

/// The description of each standard signal.
pub open spec fn signal_text(sig: int) -> Seq<char> {
    if sig == 1 {
        "Hangup"@
    } else if sig == 2 {
        "Interrupt"@
    } else if sig == 3 {
        "Quit"@
    } else if sig == 4 {
        "Illegal instruction"@
    } else if sig == 5 {
        "Trace/breakpoint trap"@
    } else if sig == 6 {
        "Aborted"@
    } else if sig == 7 {
        "Bus error"@
    } else if sig == 8 {
        "Floating point exception"@
    } else if sig == 9 {
        "Killed"@
    } else if sig == 10 {
        "User defined signal 1"@
    } else if sig == 11 {
        "Segmentation fault"@
    } else if sig == 12 {
        "User defined signal 2"@
    } else if sig == 13 {
        "Broken pipe"@
    } else if sig == 14 {
        "Alarm clock"@
    } else if sig == 15 {
        "Terminated"@
    } else if sig == 16 {
        "Stack fault"@
    } else if sig == 17 {
        "Child exited"@
    } else if sig == 18 {
        "Continued"@
    } else if sig == 19 {
        "Stopped (signal)"@
    } else if sig == 20 {
        "Stopped"@
    } else if sig == 21 {
        "Stopped (tty input)"@
    } else if sig == 22 {
        "Stopped (tty output)"@
    } else if sig == 23 {
        "Urgent I/O condition"@
    } else if sig == 24 {
        "CPU time limit exceeded"@
    } else if sig == 25 {
        "File size limit exceeded"@
    } else if sig == 26 {
        "Virtual timer expired"@
    } else if sig == 27 {
        "Profiling timer expired"@
    } else if sig == 28 {
        "Window changed"@
    } else if sig == 29 {
        "I/O possible"@
    } else if sig == 30 {
        "Power failure"@
    } else if sig == 31 {
        "Bad system call"@
    } else {
        "Unknown signal"@
    }
}

/// The description of a standard signal.
pub fn signal_name(sig: i32) -> (r: &'static str)
    ensures
        r@ == signal_text(sig as int),
{
    match sig {
        1 => "Hangup",
        2 => "Interrupt",
        3 => "Quit",
        4 => "Illegal instruction",
        5 => "Trace/breakpoint trap",
        6 => "Aborted",
        7 => "Bus error",
        8 => "Floating point exception",
        9 => "Killed",
        10 => "User defined signal 1",
        11 => "Segmentation fault",
        12 => "User defined signal 2",
        13 => "Broken pipe",
        14 => "Alarm clock",
        15 => "Terminated",
        16 => "Stack fault",
        17 => "Child exited",
        18 => "Continued",
        19 => "Stopped (signal)",
        20 => "Stopped",
        21 => "Stopped (tty input)",
        22 => "Stopped (tty output)",
        23 => "Urgent I/O condition",
        24 => "CPU time limit exceeded",
        25 => "File size limit exceeded",
        26 => "Virtual timer expired",
        27 => "Profiling timer expired",
        28 => "Window changed",
        29 => "I/O possible",
        30 => "Power failure",
        31 => "Bad system call",
        _ => "Unknown signal",
    }
}

/// What `strsignal` says of a signal.
pub open spec fn signal_description(sig: i32) -> Seq<u8> {
    if 1 <= sig <= 31 {
        encode_utf8(signal_text(sig as int))
    } else if GLIBC_SIGRTMIN <= sig <= GLIBC_SIGRTMAX {
        "Real-time signal ".spec_bytes() + decimal(sig - GLIBC_SIGRTMIN)
    } else {
        "Unknown signal ".spec_bytes() + decimal(sig as int)
    }
}

/// What `psignal` says of a signal: real-time signals have no description.
pub open spec fn psignal_description(sig: i32) -> Seq<u8> {
    if 1 <= sig <= 31 {
        encode_utf8(signal_text(sig as int))
    } else {
        "Unknown signal ".spec_bytes() + decimal(sig as int)
    }
}

/// Appends what `strsignal` says of `sig`.
pub fn signal_description_into(sig: i32, dst: &mut Vec<u8>)
    ensures
        final(dst)@ == old(dst)@ + signal_description(sig),
{
    if 1 <= sig && sig <= 31 {
        push_text(dst, signal_name(sig));
        return;
    }
    if GLIBC_SIGRTMIN <= sig && sig <= GLIBC_SIGRTMAX {
        push_text(dst, "Real-time signal ");
        push_decimal(dst, sig - GLIBC_SIGRTMIN);
    } else {
        push_text(dst, "Unknown signal ");
        push_decimal(dst, sig);
    }
    assert(dst@ =~= old(dst)@ + signal_description(sig));
}

/// Appends what `psignal` says of `sig`.
pub fn psignal_description_into(sig: i32, dst: &mut Vec<u8>)
    ensures
        final(dst)@ == old(dst)@ + psignal_description(sig),
{
    if 1 <= sig && sig <= 31 {
        push_text(dst, signal_name(sig));
        return;
    }
    push_text(dst, "Unknown signal ");
    push_decimal(dst, sig);
    assert(dst@ =~= old(dst)@ + psignal_description(sig));
}

/// Writes the description of `sig` into the thread's buffer at `buf`, cut to
/// fit, and returns `buf`.
pub fn strsignal(mem: &mut Memory, sig: i32, buf: usize) -> (r: usize)
    requires
        mapped(old(mem)@, buf as int, STRSIGNAL_BUF_LEN as int),
    ensures
        r == buf,
        final(mem)@ == put(
            old(mem)@,
            buf as int,
            c_text(signal_description(sig), STRSIGNAL_BUF_LEN as int),
        ),
{
    let mut name: Vec<u8> = Vec::new();
    signal_description_into(sig, &mut name);
    assert(name@ =~= signal_description(sig));
    store_text(mem, buf, STRSIGNAL_BUF_LEN, name.as_slice());
    buf
}

/// The line that `psignal` prints: the prefix and a colon where the caller gave
/// a readable one that is not empty, the description, and a line feed.
pub open spec fn psignal_line(m: Seq<u8>, sig: i32, s: Ptr) -> Seq<u8> {
    let prefix = if !s.null() && c_ended(m, s.at(), s.remaining) {
        c_bytes(m, s.at(), s.remaining)
    } else {
        seq![]
    };
    (if prefix.len() == 0 {
        seq![]
    } else {
        prefix + seq![0x3au8, 0x20]
    }) + psignal_description(sig) + seq![0x0au8]
}

/// The line that `psignal` prints on standard error.
pub fn psignal(mem: &Memory, sig: i32, s: Ptr) -> (r: Vec<u8>)
    requires
        !s.null() ==> readable(mem@, s.at(), s.remaining),
    ensures
        r@ == psignal_line(mem@, sig, s),
{
    let mut msg: Vec<u8> = Vec::new();
    match read_c_string_bytes(mem, s) {
        Some(prefix) => if prefix.len() != 0 {
            push_bytes(&mut msg, prefix.as_slice());
            msg.push(0x3a);
            msg.push(0x20);
        },
        None => {},
    }
    psignal_description_into(sig, &mut msg);
    msg.push(0x0a);
    assert(msg@ =~= psignal_line(mem@, sig, s));
    msg
}

/// A table of texts indexed by signal number.
pub struct SysSigList(pub [&'static str; 65]);

/// Entry `i` of the table of descriptions.
pub open spec fn siglist_text(i: int) -> Seq<char> {
    if i == 0 {
        ""@
    } else if i <= 31 {
        signal_text(i)
    } else {
        "Real-time signal"@
    }
}

/// Entry `i` of the table of short names.
pub open spec fn signame_text(i: int) -> Seq<char> {
    if i == 0 {
        ""@
    } else if i == 1 {
        "HUP"@
    } else if i == 2 {
        "INT"@
    } else if i == 3 {
        "QUIT"@
    } else if i == 4 {
        "ILL"@
    } else if i == 5 {
        "TRAP"@
    } else if i == 6 {
        "ABRT"@
    } else if i == 7 {
        "BUS"@
    } else if i == 8 {
        "FPE"@
    } else if i == 9 {
        "KILL"@
    } else if i == 10 {
        "USR1"@
    } else if i == 11 {
        "SEGV"@
    } else if i == 12 {
        "USR2"@
    } else if i == 13 {
        "PIPE"@
    } else if i == 14 {
        "ALRM"@
    } else if i == 15 {
        "TERM"@
    } else if i == 16 {
        "STKFLT"@
    } else if i == 17 {
        "CHLD"@
    } else if i == 18 {
        "CONT"@
    } else if i == 19 {
        "STOP"@
    } else if i == 20 {
        "TSTP"@
    } else if i == 21 {
        "TTIN"@
    } else if i == 22 {
        "TTOU"@
    } else if i == 23 {
        "URG"@
    } else if i == 24 {
        "XCPU"@
    } else if i == 25 {
        "XFSZ"@
    } else if i == 26 {
        "VTALRM"@
    } else if i == 27 {
        "PROF"@
    } else if i == 28 {
        "WINCH"@
    } else if i == 29 {
        "IO"@
    } else if i == 30 {
        "PWR"@
    } else if i == 31 {
        "SYS"@
    } else {
        "RT"@
    }
}

/// The descriptions of all signals: none for signal 0, one for all real-time
/// signals.
pub fn sys_siglist() -> (r: SysSigList)
    ensures
        forall|i: int| 0 <= i < 65 ==> (#[trigger] r.0@[i])@ == siglist_text(i),
{
    SysSigList(
        [
            "",
            "Hangup",
            "Interrupt",
            "Quit",
            "Illegal instruction",
            "Trace/breakpoint trap",
            "Aborted",
            "Bus error",
            "Floating point exception",
            "Killed",
            "User defined signal 1",
            "Segmentation fault",
            "User defined signal 2",
            "Broken pipe",
            "Alarm clock",
            "Terminated",
            "Stack fault",
            "Child exited",
            "Continued",
            "Stopped (signal)",
            "Stopped",
            "Stopped (tty input)",
            "Stopped (tty output)",
            "Urgent I/O condition",
            "CPU time limit exceeded",
            "File size limit exceeded",
            "Virtual timer expired",
            "Profiling timer expired",
            "Window changed",
            "I/O possible",
            "Power failure",
            "Bad system call",
            "Real-time signal",
            "Real-time signal",
            "Real-time signal",
            "Real-time signal",
            "Real-time signal",
            "Real-time signal",
            "Real-time signal",
            "Real-time signal",
            "Real-time signal",
            "Real-time signal",
            "Real-time signal",
            "Real-time signal",
            "Real-time signal",
            "Real-time signal",
            "Real-time signal",
            "Real-time signal",
            "Real-time signal",
            "Real-time signal",
            "Real-time signal",
            "Real-time signal",
            "Real-time signal",
            "Real-time signal",
            "Real-time signal",
            "Real-time signal",
            "Real-time signal",
            "Real-time signal",
            "Real-time signal",
            "Real-time signal",
            "Real-time signal",
            "Real-time signal",
            "Real-time signal",
            "Real-time signal",
            "Real-time signal",
        ],
    )
}

/// As [`sys_siglist`].
pub fn _sys_siglist() -> (r: SysSigList)
    ensures
        forall|i: int| 0 <= i < 65 ==> (#[trigger] r.0@[i])@ == siglist_text(i),
{
    sys_siglist()
}

/// The short names of all signals: none for signal 0, one for all real-time
/// signals.
pub fn sys_signame() -> (r: SysSigList)
    ensures
        forall|i: int| 0 <= i < 65 ==> (#[trigger] r.0@[i])@ == signame_text(i),
{
    SysSigList(
        [
            "",
            "HUP",
            "INT",
            "QUIT",
            "ILL",
            "TRAP",
            "ABRT",
            "BUS",
            "FPE",
            "KILL",
            "USR1",
            "SEGV",
            "USR2",
            "PIPE",
            "ALRM",
            "TERM",
            "STKFLT",
            "CHLD",
            "CONT",
            "STOP",
            "TSTP",
            "TTIN",
            "TTOU",
            "URG",
            "XCPU",
            "XFSZ",
            "VTALRM",
            "PROF",
            "WINCH",
            "IO",
            "PWR",
            "SYS",
            "RT",
            "RT",
            "RT",
            "RT",
            "RT",
            "RT",
            "RT",
            "RT",
            "RT",
            "RT",
            "RT",
            "RT",
            "RT",
            "RT",
            "RT",
            "RT",
            "RT",
            "RT",
            "RT",
            "RT",
            "RT",
            "RT",
            "RT",
            "RT",
            "RT",
            "RT",
            "RT",
            "RT",
            "RT",
            "RT",
            "RT",
            "RT",
            "RT",
        ],
    )
}

/// The table of descriptions words each standard signal as `strsignal` does.
pub proof fn law_siglist_words_like_strsignal(sig: i32)
    requires
        1 <= sig <= 31,
    ensures
        encode_utf8(siglist_text(sig as int)) == signal_description(sig),
{
}

/// `strsignal` and `psignal` differ on the real-time signals only.
pub proof fn law_psignal_agrees_off_realtime(sig: i32)
    requires
        !(GLIBC_SIGRTMIN <= sig <= GLIBC_SIGRTMAX),
    ensures
        psignal_description(sig) == signal_description(sig),
{
}

/// A real-time signal is described by its number counted from the first one, 34,
/// to the last, 64; any other number without a word of its own is unknown, and
/// `psignal` counts the real-time signals among these.
pub proof fn law_numbered_signals(sig: i32)
    ensures
        34 <= sig <= 64 ==> signal_description(sig) == "Real-time signal ".spec_bytes() + decimal(
            sig - 34,
        ),
        sig <= 0 || sig == 32 || sig == 33 || sig > 64 ==> signal_description(sig)
            == "Unknown signal ".spec_bytes() + decimal(sig as int),
        sig <= 0 || sig > 31 ==> psignal_description(sig) == "Unknown signal ".spec_bytes()
            + decimal(sig as int),
{
}

/// A line on a signal is its description and a newline; a prefix that is there,
/// has an end and is not empty stands in front of it with a colon and a space.
pub proof fn law_signal_line(m: Seq<u8>, sig: i32, s: Ptr)
    ensures
        s.addr == 0 || !c_ended(m, s.at(), s.remaining) || c_len(m, s.at(), s.remaining) == 0
            ==> psignal_line(m, sig, s) == psignal_description(sig).push(0x0a),
        s.addr != 0 && c_ended(m, s.at(), s.remaining) && c_len(m, s.at(), s.remaining) > 0
            ==> psignal_line(m, sig, s) == c_bytes(m, s.at(), s.remaining).push(0x3a).push(0x20)
            + psignal_description(sig).push(0x0a),
{
    let x = c_bytes(m, s.at(), s.remaining);
    if s.addr == 0 || !c_ended(m, s.at(), s.remaining) || c_len(m, s.at(), s.remaining) == 0 {
        assert(psignal_line(m, sig, s) =~= psignal_description(sig).push(0x0a));
    } else if c_len(m, s.at(), s.remaining) > 0 {
        assert(psignal_line(m, sig, s) =~= x.push(0x3a).push(0x20) + psignal_description(sig).push(
            0x0a,
        ));
    }
}

/// The tables of descriptions and of names start with an empty text and have one
/// text for all real-time signals.
pub proof fn law_signal_tables(i: int)
    requires
        0 <= i < 65,
    ensures
        siglist_text(0).len() == 0,
        signame_text(0).len() == 0,
        1 <= i <= 31 ==> siglist_text(i) == signal_text(i),
        i > 31 ==> siglist_text(i) == "Real-time signal"@ && signame_text(i) == "RT"@,
{
    reveal_strlit("");
}

} // verus!
