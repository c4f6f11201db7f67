//! Error numbers with their names and descriptions.
use vstd::prelude::*;
use vstd::string::*;
use vstd::utf8::encode_utf8;
use crate::memory::{mapped, put, Memory};
use crate::text::{c_text, decimal, push_decimal, push_text, store_text};

verus! {

pub const EPERM: i32 = 1;

pub const ENOENT: i32 = 2;

pub const ESRCH: i32 = 3;

pub const EINTR: i32 = 4;

pub const EIO: i32 = 5;

pub const ENXIO: i32 = 6;

pub const E2BIG: i32 = 7;

pub const ENOEXEC: i32 = 8;

pub const EBADF: i32 = 9;

pub const ECHILD: i32 = 10;

pub const EAGAIN: i32 = 11;

pub const ENOMEM: i32 = 12;

pub const EACCES: i32 = 13;

pub const EFAULT: i32 = 14;

pub const ENOTBLK: i32 = 15;

pub const EBUSY: i32 = 16;

pub const EEXIST: i32 = 17;

pub const EXDEV: i32 = 18;

pub const ENODEV: i32 = 19;

pub const ENOTDIR: i32 = 20;

pub const EISDIR: i32 = 21;

pub const EINVAL: i32 = 22;

pub const ENFILE: i32 = 23;

pub const EMFILE: i32 = 24;

pub const ENOTTY: i32 = 25;

pub const ETXTBSY: i32 = 26;

pub const EFBIG: i32 = 27;

pub const ENOSPC: i32 = 28;

pub const ESPIPE: i32 = 29;

pub const EROFS: i32 = 30;

pub const EMLINK: i32 = 31;

pub const EPIPE: i32 = 32;

pub const EDOM: i32 = 33;

pub const ERANGE: i32 = 34;

pub const EDEADLK: i32 = 35;

pub const ENAMETOOLONG: i32 = 36;

pub const ENOLCK: i32 = 37;

pub const ENOSYS: i32 = 38;

pub const ENOTEMPTY: i32 = 39;

pub const ELOOP: i32 = 40;

pub const ENOMSG: i32 = 42;

pub const EIDRM: i32 = 43;

pub const ECHRNG: i32 = 44;

pub const EL2NSYNC: i32 = 45;

pub const EL3HLT: i32 = 46;

pub const EL3RST: i32 = 47;

pub const ELNRNG: i32 = 48;

pub const EUNATCH: i32 = 49;

pub const ENOCSI: i32 = 50;

pub const EL2HLT: i32 = 51;

pub const EBADE: i32 = 52;

pub const EBADR: i32 = 53;

pub const EXFULL: i32 = 54;

pub const ENOANO: i32 = 55;

pub const EBADRQC: i32 = 56;

pub const EBADSLT: i32 = 57;

pub const EBFONT: i32 = 59;

pub const ENOSTR: i32 = 60;

pub const ENODATA: i32 = 61;

pub const ETIME: i32 = 62;

pub const ENOSR: i32 = 63;

pub const ENONET: i32 = 64;

pub const ENOPKG: i32 = 65;

pub const EREMOTE: i32 = 66;

pub const ENOLINK: i32 = 67;

pub const EADV: i32 = 68;

pub const ESRMNT: i32 = 69;

pub const ECOMM: i32 = 70;

pub const EPROTO: i32 = 71;

pub const EMULTIHOP: i32 = 72;

pub const EDOTDOT: i32 = 73;

pub const EBADMSG: i32 = 74;

pub const EOVERFLOW: i32 = 75;

pub const ENOTUNIQ: i32 = 76;

pub const EBADFD: i32 = 77;

pub const EREMCHG: i32 = 78;

pub const ELIBACC: i32 = 79;

pub const ELIBBAD: i32 = 80;

pub const ELIBSCN: i32 = 81;

pub const ELIBMAX: i32 = 82;

pub const ELIBEXEC: i32 = 83;

pub const EILSEQ: i32 = 84;

pub const ERESTART: i32 = 85;

pub const ESTRPIPE: i32 = 86;

pub const EUSERS: i32 = 87;

pub const ENOTSOCK: i32 = 88;

pub const EDESTADDRREQ: i32 = 89;

pub const EMSGSIZE: i32 = 90;

pub const EPROTOTYPE: i32 = 91;

pub const ENOPROTOOPT: i32 = 92;

pub const EPROTONOSUPPORT: i32 = 93;

pub const ESOCKTNOSUPPORT: i32 = 94;

pub const EOPNOTSUPP: i32 = 95;

pub const EPFNOSUPPORT: i32 = 96;

pub const EAFNOSUPPORT: i32 = 97;

pub const EADDRINUSE: i32 = 98;

pub const EADDRNOTAVAIL: i32 = 99;

pub const ENETDOWN: i32 = 100;

pub const ENETUNREACH: i32 = 101;

pub const ENETRESET: i32 = 102;

pub const ECONNABORTED: i32 = 103;

pub const ECONNRESET: i32 = 104;

pub const ENOBUFS: i32 = 105;

pub const EISCONN: i32 = 106;

pub const ENOTCONN: i32 = 107;

pub const ESHUTDOWN: i32 = 108;

pub const ETOOMANYREFS: i32 = 109;

pub const ETIMEDOUT: i32 = 110;

pub const ECONNREFUSED: i32 = 111;

pub const EHOSTDOWN: i32 = 112;

pub const EHOSTUNREACH: i32 = 113;

pub const EALREADY: i32 = 114;

pub const EINPROGRESS: i32 = 115;

pub const ESTALE: i32 = 116;

pub const EUCLEAN: i32 = 117;

pub const ENOTNAM: i32 = 118;

pub const ENAVAIL: i32 = 119;

pub const EISNAM: i32 = 120;

pub const EREMOTEIO: i32 = 121;

pub const EDQUOT: i32 = 122;

pub const ENOMEDIUM: i32 = 123;

pub const EMEDIUMTYPE: i32 = 124;

pub const ECANCELED: i32 = 125;

pub const ENOKEY: i32 = 126;

pub const EKEYEXPIRED: i32 = 127;

pub const EKEYREVOKED: i32 = 128;

pub const EKEYREJECTED: i32 = 129;

pub const EOWNERDEAD: i32 = 130;

pub const ENOTRECOVERABLE: i32 = 131;

pub const ERFKILL: i32 = 132;

pub const EHWPOISON: i32 = 133;

/// The characters of an optional text.
pub open spec fn opt_text(o: Option<&'static str>) -> Option<Seq<char>> {
    match o {
        Some(t) => Some(t@),
        None => None,
    }
}

/// The description of each known error number.
pub open spec fn errno_description(e: i32) -> Option<Seq<char>> {
    match e {
        0 => Some("Success"@),
        1 => Some("Operation not permitted"@),
        2 => Some("No such file or directory"@),
        3 => Some("No such process"@),
        4 => Some("Interrupted system call"@),
        5 => Some("Input/output error"@),
        6 => Some("No such device or address"@),
        7 => Some("Argument list too long"@),
        8 => Some("Exec format error"@),
        9 => Some("Bad file descriptor"@),
        10 => Some("No child processes"@),
        11 => Some("Resource temporarily unavailable"@),
        12 => Some("Cannot allocate memory"@),
        13 => Some("Permission denied"@),
        14 => Some("Bad address"@),
        15 => Some("Block device required"@),
        16 => Some("Device or resource busy"@),
        17 => Some("File exists"@),
        18 => Some("Invalid cross-device link"@),
        19 => Some("No such device"@),
        20 => Some("Not a directory"@),
        21 => Some("Is a directory"@),
        22 => Some("Invalid argument"@),
        23 => Some("Too many open files in system"@),
        24 => Some("Too many open files"@),
        25 => Some("Inappropriate ioctl for device"@),
        26 => Some("Text file busy"@),
        27 => Some("File too large"@),
        28 => Some("No space left on device"@),
        29 => Some("Illegal seek"@),
        30 => Some("Read-only file system"@),
        31 => Some("Too many links"@),
        32 => Some("Broken pipe"@),
        33 => Some("Numerical argument out of domain"@),
        34 => Some("Numerical result out of range"@),
        35 => Some("Resource deadlock avoided"@),
        36 => Some("File name too long"@),
        37 => Some("No locks available"@),
        38 => Some("Function not implemented"@),
        39 => Some("Directory not empty"@),
        40 => Some("Too many levels of symbolic links"@),
        42 => Some("No message of desired type"@),
        43 => Some("Identifier removed"@),
        44 => Some("Channel number out of range"@),
        45 => Some("Level 2 not synchronized"@),
        46 => Some("Level 3 halted"@),
        47 => Some("Level 3 reset"@),
        48 => Some("Link number out of range"@),
        49 => Some("Protocol driver not attached"@),
        50 => Some("No CSI structure available"@),
        51 => Some("Level 2 halted"@),
        52 => Some("Invalid exchange"@),
        53 => Some("Invalid request descriptor"@),
        54 => Some("Exchange full"@),
        55 => Some("No anode"@),
        56 => Some("Invalid request code"@),
        57 => Some("Invalid slot"@),
        59 => Some("Bad font file format"@),
        60 => Some("Device not a stream"@),
        61 => Some("No data available"@),
        62 => Some("Timer expired"@),
        63 => Some("Out of streams resources"@),
        64 => Some("Machine is not on the network"@),
        65 => Some("Package not installed"@),
        66 => Some("Object is remote"@),
        67 => Some("Link has been severed"@),
        68 => Some("Advertise error"@),
        69 => Some("Srmount error"@),
        70 => Some("Communication error on send"@),
        71 => Some("Protocol error"@),
        72 => Some("Multihop attempted"@),
        73 => Some("RFS specific error"@),
        74 => Some("Bad message"@),
        75 => Some("Value too large for defined data type"@),
        76 => Some("Name not unique on network"@),
        77 => Some("File descriptor in bad state"@),
        78 => Some("Remote address changed"@),
        79 => Some("Can not access a needed shared library"@),
        80 => Some("Accessing a corrupted shared library"@),
        81 => Some(".lib section in a.out corrupted"@),
        82 => Some("Attempting to link in too many shared libraries"@),
        83 => Some("Cannot exec a shared library directly"@),
        84 => Some("Invalid or incomplete multibyte or wide character"@),
        85 => Some("Interrupted system call should be restarted"@),
        86 => Some("Streams pipe error"@),
        87 => Some("Too many users"@),
        88 => Some("Socket operation on non-socket"@),
        89 => Some("Destination address required"@),
        90 => Some("Message too long"@),
        91 => Some("Protocol wrong type for socket"@),
        92 => Some("Protocol not available"@),
        93 => Some("Protocol not supported"@),
        94 => Some("Socket type not supported"@),
        95 => Some("Operation not supported"@),
        96 => Some("Protocol family not supported"@),
        97 => Some("Address family not supported by protocol"@),
        98 => Some("Address already in use"@),
        99 => Some("Cannot assign requested address"@),
        100 => Some("Network is down"@),
        101 => Some("Network is unreachable"@),
        102 => Some("Network dropped connection on reset"@),
        103 => Some("Software caused connection abort"@),
        104 => Some("Connection reset by peer"@),
        105 => Some("No buffer space available"@),
        106 => Some("Transport endpoint is already connected"@),
        107 => Some("Transport endpoint is not connected"@),
        108 => Some("Cannot send after transport endpoint shutdown"@),
        109 => Some("Too many references: cannot splice"@),
        110 => Some("Connection timed out"@),
        111 => Some("Connection refused"@),
        112 => Some("Host is down"@),
        113 => Some("No route to host"@),
        114 => Some("Operation already in progress"@),
        115 => Some("Operation now in progress"@),
        116 => Some("Stale file handle"@),
        117 => Some("Structure needs cleaning"@),
        118 => Some("Not a XENIX named type file"@),
        119 => Some("No XENIX semaphores available"@),
        120 => Some("Is a named type file"@),
        121 => Some("Remote I/O error"@),
        122 => Some("Disk quota exceeded"@),
        123 => Some("No medium found"@),
        124 => Some("Wrong medium type"@),
        125 => Some("Operation canceled"@),
        126 => Some("Required key not available"@),
        127 => Some("Key has expired"@),
        128 => Some("Key has been revoked"@),
        129 => Some("Key was rejected by service"@),
        130 => Some("Owner died"@),
        131 => Some("State not recoverable"@),
        132 => Some("Operation not possible due to RF-kill"@),
        133 => Some("Memory page has hardware error"@),
        _ => None,
    }
}

/// The name of each known error number.
pub open spec fn errno_name(e: i32) -> Option<Seq<char>> {
    match e {
        0 => Some("0"@),
        1 => Some("EPERM"@),
        2 => Some("ENOENT"@),
        3 => Some("ESRCH"@),
        4 => Some("EINTR"@),
        5 => Some("EIO"@),
        6 => Some("ENXIO"@),
        7 => Some("E2BIG"@),
        8 => Some("ENOEXEC"@),
        9 => Some("EBADF"@),
        10 => Some("ECHILD"@),
        11 => Some("EAGAIN"@),
        12 => Some("ENOMEM"@),
        13 => Some("EACCES"@),
        14 => Some("EFAULT"@),
        15 => Some("ENOTBLK"@),
        16 => Some("EBUSY"@),
        17 => Some("EEXIST"@),
        18 => Some("EXDEV"@),
        19 => Some("ENODEV"@),
        20 => Some("ENOTDIR"@),
        21 => Some("EISDIR"@),
        22 => Some("EINVAL"@),
        23 => Some("ENFILE"@),
        24 => Some("EMFILE"@),
        25 => Some("ENOTTY"@),
        26 => Some("ETXTBSY"@),
        27 => Some("EFBIG"@),
        28 => Some("ENOSPC"@),
        29 => Some("ESPIPE"@),
        30 => Some("EROFS"@),
        31 => Some("EMLINK"@),
        32 => Some("EPIPE"@),
        33 => Some("EDOM"@),
        34 => Some("ERANGE"@),
        35 => Some("EDEADLK"@),
        36 => Some("ENAMETOOLONG"@),
        37 => Some("ENOLCK"@),
        38 => Some("ENOSYS"@),
        39 => Some("ENOTEMPTY"@),
        40 => Some("ELOOP"@),
        42 => Some("ENOMSG"@),
        43 => Some("EIDRM"@),
        44 => Some("ECHRNG"@),
        45 => Some("EL2NSYNC"@),
        46 => Some("EL3HLT"@),
        47 => Some("EL3RST"@),
        48 => Some("ELNRNG"@),
        49 => Some("EUNATCH"@),
        50 => Some("ENOCSI"@),
        51 => Some("EL2HLT"@),
        52 => Some("EBADE"@),
        53 => Some("EBADR"@),
        54 => Some("EXFULL"@),
        55 => Some("ENOANO"@),
        56 => Some("EBADRQC"@),
        57 => Some("EBADSLT"@),
        59 => Some("EBFONT"@),
        60 => Some("ENOSTR"@),
        61 => Some("ENODATA"@),
        62 => Some("ETIME"@),
        63 => Some("ENOSR"@),
        64 => Some("ENONET"@),
        65 => Some("ENOPKG"@),
        66 => Some("EREMOTE"@),
        67 => Some("ENOLINK"@),
        68 => Some("EADV"@),
        69 => Some("ESRMNT"@),
        70 => Some("ECOMM"@),
        71 => Some("EPROTO"@),
        72 => Some("EMULTIHOP"@),
        73 => Some("EDOTDOT"@),
        74 => Some("EBADMSG"@),
        75 => Some("EOVERFLOW"@),
        76 => Some("ENOTUNIQ"@),
        77 => Some("EBADFD"@),
        78 => Some("EREMCHG"@),
        79 => Some("ELIBACC"@),
        80 => Some("ELIBBAD"@),
        81 => Some("ELIBSCN"@),
        82 => Some("ELIBMAX"@),
        83 => Some("ELIBEXEC"@),
        84 => Some("EILSEQ"@),
        85 => Some("ERESTART"@),
        86 => Some("ESTRPIPE"@),
        87 => Some("EUSERS"@),
        88 => Some("ENOTSOCK"@),
        89 => Some("EDESTADDRREQ"@),
        90 => Some("EMSGSIZE"@),
        91 => Some("EPROTOTYPE"@),
        92 => Some("ENOPROTOOPT"@),
        93 => Some("EPROTONOSUPPORT"@),
        94 => Some("ESOCKTNOSUPPORT"@),
        95 => Some("EOPNOTSUPP"@),
        96 => Some("EPFNOSUPPORT"@),
        97 => Some("EAFNOSUPPORT"@),
        98 => Some("EADDRINUSE"@),
        99 => Some("EADDRNOTAVAIL"@),
        100 => Some("ENETDOWN"@),
        101 => Some("ENETUNREACH"@),
        102 => Some("ENETRESET"@),
        103 => Some("ECONNABORTED"@),
        104 => Some("ECONNRESET"@),
        105 => Some("ENOBUFS"@),
        106 => Some("EISCONN"@),
        107 => Some("ENOTCONN"@),
        108 => Some("ESHUTDOWN"@),
        109 => Some("ETOOMANYREFS"@),
        110 => Some("ETIMEDOUT"@),
        111 => Some("ECONNREFUSED"@),
        112 => Some("EHOSTDOWN"@),
        113 => Some("EHOSTUNREACH"@),
        114 => Some("EALREADY"@),
        115 => Some("EINPROGRESS"@),
        116 => Some("ESTALE"@),
        117 => Some("EUCLEAN"@),
        118 => Some("ENOTNAM"@),
        119 => Some("ENAVAIL"@),
        120 => Some("EISNAM"@),
        121 => Some("EREMOTEIO"@),
        122 => Some("EDQUOT"@),
        123 => Some("ENOMEDIUM"@),
        124 => Some("EMEDIUMTYPE"@),
        125 => Some("ECANCELED"@),
        126 => Some("ENOKEY"@),
        127 => Some("EKEYEXPIRED"@),
        128 => Some("EKEYREVOKED"@),
        129 => Some("EKEYREJECTED"@),
        130 => Some("EOWNERDEAD"@),
        131 => Some("ENOTRECOVERABLE"@),
        132 => Some("ERFKILL"@),
        133 => Some("EHWPOISON"@),
        _ => None,
    }
}

/// The description of an error number, or `None` for an unknown one. Zero is a
/// success.
pub fn strerrordesc_np(errnum: i32) -> (r: Option<&'static str>)
    ensures
        opt_text(r) == errno_description(errnum),
{
    match errnum {
        0 => Some("Success"),
        EPERM => Some("Operation not permitted"),
        ENOENT => Some("No such file or directory"),
        ESRCH => Some("No such process"),
        EINTR => Some("Interrupted system call"),
        EIO => Some("Input/output error"),
        ENXIO => Some("No such device or address"),
        E2BIG => Some("Argument list too long"),
        ENOEXEC => Some("Exec format error"),
        EBADF => Some("Bad file descriptor"),
        ECHILD => Some("No child processes"),
        EAGAIN => Some("Resource temporarily unavailable"),
        ENOMEM => Some("Cannot allocate memory"),
        EACCES => Some("Permission denied"),
        EFAULT => Some("Bad address"),
        ENOTBLK => Some("Block device required"),
        EBUSY => Some("Device or resource busy"),
        EEXIST => Some("File exists"),
        EXDEV => Some("Invalid cross-device link"),
        ENODEV => Some("No such device"),
        ENOTDIR => Some("Not a directory"),
        EISDIR => Some("Is a directory"),
        EINVAL => Some("Invalid argument"),
        ENFILE => Some("Too many open files in system"),
        EMFILE => Some("Too many open files"),
        ENOTTY => Some("Inappropriate ioctl for device"),
        ETXTBSY => Some("Text file busy"),
        EFBIG => Some("File too large"),
        ENOSPC => Some("No space left on device"),
        ESPIPE => Some("Illegal seek"),
        EROFS => Some("Read-only file system"),
        EMLINK => Some("Too many links"),
        EPIPE => Some("Broken pipe"),
        EDOM => Some("Numerical argument out of domain"),
        ERANGE => Some("Numerical result out of range"),
        EDEADLK => Some("Resource deadlock avoided"),
        ENAMETOOLONG => Some("File name too long"),
        ENOLCK => Some("No locks available"),
        ENOSYS => Some("Function not implemented"),
        ENOTEMPTY => Some("Directory not empty"),
        ELOOP => Some("Too many levels of symbolic links"),
        ENOMSG => Some("No message of desired type"),
        EIDRM => Some("Identifier removed"),
        ECHRNG => Some("Channel number out of range"),
        EL2NSYNC => Some("Level 2 not synchronized"),
        EL3HLT => Some("Level 3 halted"),
        EL3RST => Some("Level 3 reset"),
        ELNRNG => Some("Link number out of range"),
        EUNATCH => Some("Protocol driver not attached"),
        ENOCSI => Some("No CSI structure available"),
        EL2HLT => Some("Level 2 halted"),
        EBADE => Some("Invalid exchange"),
        EBADR => Some("Invalid request descriptor"),
        EXFULL => Some("Exchange full"),
        ENOANO => Some("No anode"),
        EBADRQC => Some("Invalid request code"),
        EBADSLT => Some("Invalid slot"),
        EBFONT => Some("Bad font file format"),
        ENOSTR => Some("Device not a stream"),
        ENODATA => Some("No data available"),
        ETIME => Some("Timer expired"),
        ENOSR => Some("Out of streams resources"),
        ENONET => Some("Machine is not on the network"),
        ENOPKG => Some("Package not installed"),
        EREMOTE => Some("Object is remote"),
        ENOLINK => Some("Link has been severed"),
        EADV => Some("Advertise error"),
        ESRMNT => Some("Srmount error"),
        ECOMM => Some("Communication error on send"),
        EPROTO => Some("Protocol error"),
        EMULTIHOP => Some("Multihop attempted"),
        EDOTDOT => Some("RFS specific error"),
        EBADMSG => Some("Bad message"),
        EOVERFLOW => Some("Value too large for defined data type"),
        ENOTUNIQ => Some("Name not unique on network"),
        EBADFD => Some("File descriptor in bad state"),
        EREMCHG => Some("Remote address changed"),
        ELIBACC => Some("Can not access a needed shared library"),
        ELIBBAD => Some("Accessing a corrupted shared library"),
        ELIBSCN => Some(".lib section in a.out corrupted"),
        ELIBMAX => Some("Attempting to link in too many shared libraries"),
        ELIBEXEC => Some("Cannot exec a shared library directly"),
        EILSEQ => Some("Invalid or incomplete multibyte or wide character"),
        ERESTART => Some("Interrupted system call should be restarted"),
        ESTRPIPE => Some("Streams pipe error"),
        EUSERS => Some("Too many users"),
        ENOTSOCK => Some("Socket operation on non-socket"),
        EDESTADDRREQ => Some("Destination address required"),
        EMSGSIZE => Some("Message too long"),
        EPROTOTYPE => Some("Protocol wrong type for socket"),
        ENOPROTOOPT => Some("Protocol not available"),
        EPROTONOSUPPORT => Some("Protocol not supported"),
        ESOCKTNOSUPPORT => Some("Socket type not supported"),
        EOPNOTSUPP => Some("Operation not supported"),
        EPFNOSUPPORT => Some("Protocol family not supported"),
        EAFNOSUPPORT => Some("Address family not supported by protocol"),
        EADDRINUSE => Some("Address already in use"),
        EADDRNOTAVAIL => Some("Cannot assign requested address"),
        ENETDOWN => Some("Network is down"),
        ENETUNREACH => Some("Network is unreachable"),
        ENETRESET => Some("Network dropped connection on reset"),
        ECONNABORTED => Some("Software caused connection abort"),
        ECONNRESET => Some("Connection reset by peer"),
        ENOBUFS => Some("No buffer space available"),
        EISCONN => Some("Transport endpoint is already connected"),
        ENOTCONN => Some("Transport endpoint is not connected"),
        ESHUTDOWN => Some("Cannot send after transport endpoint shutdown"),
        ETOOMANYREFS => Some("Too many references: cannot splice"),
        ETIMEDOUT => Some("Connection timed out"),
        ECONNREFUSED => Some("Connection refused"),
        EHOSTDOWN => Some("Host is down"),
        EHOSTUNREACH => Some("No route to host"),
        EALREADY => Some("Operation already in progress"),
        EINPROGRESS => Some("Operation now in progress"),
        ESTALE => Some("Stale file handle"),
        EUCLEAN => Some("Structure needs cleaning"),
        ENOTNAM => Some("Not a XENIX named type file"),
        ENAVAIL => Some("No XENIX semaphores available"),
        EISNAM => Some("Is a named type file"),
        EREMOTEIO => Some("Remote I/O error"),
        EDQUOT => Some("Disk quota exceeded"),
        ENOMEDIUM => Some("No medium found"),
        EMEDIUMTYPE => Some("Wrong medium type"),
        ECANCELED => Some("Operation canceled"),
        ENOKEY => Some("Required key not available"),
        EKEYEXPIRED => Some("Key has expired"),
        EKEYREVOKED => Some("Key has been revoked"),
        EKEYREJECTED => Some("Key was rejected by service"),
        EOWNERDEAD => Some("Owner died"),
        ENOTRECOVERABLE => Some("State not recoverable"),
        ERFKILL => Some("Operation not possible due to RF-kill"),
        EHWPOISON => Some("Memory page has hardware error"),
        _ => None,
    }
}

/// The name of an error number, or `None` for an unknown one.
pub fn strerrorname_np(errnum: i32) -> (r: Option<&'static str>)
    ensures
        opt_text(r) == errno_name(errnum),
{
    match errnum {
        0 => Some("0"),
        EPERM => Some("EPERM"),
        ENOENT => Some("ENOENT"),
        ESRCH => Some("ESRCH"),
        EINTR => Some("EINTR"),
        EIO => Some("EIO"),
        ENXIO => Some("ENXIO"),
        E2BIG => Some("E2BIG"),
        ENOEXEC => Some("ENOEXEC"),
        EBADF => Some("EBADF"),
        ECHILD => Some("ECHILD"),
        EAGAIN => Some("EAGAIN"),
        ENOMEM => Some("ENOMEM"),
        EACCES => Some("EACCES"),
        EFAULT => Some("EFAULT"),
        ENOTBLK => Some("ENOTBLK"),
        EBUSY => Some("EBUSY"),
        EEXIST => Some("EEXIST"),
        EXDEV => Some("EXDEV"),
        ENODEV => Some("ENODEV"),
        ENOTDIR => Some("ENOTDIR"),
        EISDIR => Some("EISDIR"),
        EINVAL => Some("EINVAL"),
        ENFILE => Some("ENFILE"),
        EMFILE => Some("EMFILE"),
        ENOTTY => Some("ENOTTY"),
        ETXTBSY => Some("ETXTBSY"),
        EFBIG => Some("EFBIG"),
        ENOSPC => Some("ENOSPC"),
        ESPIPE => Some("ESPIPE"),
        EROFS => Some("EROFS"),
        EMLINK => Some("EMLINK"),
        EPIPE => Some("EPIPE"),
        EDOM => Some("EDOM"),
        ERANGE => Some("ERANGE"),
        EDEADLK => Some("EDEADLK"),
        ENAMETOOLONG => Some("ENAMETOOLONG"),
        ENOLCK => Some("ENOLCK"),
        ENOSYS => Some("ENOSYS"),
        ENOTEMPTY => Some("ENOTEMPTY"),
        ELOOP => Some("ELOOP"),
        ENOMSG => Some("ENOMSG"),
        EIDRM => Some("EIDRM"),
        ECHRNG => Some("ECHRNG"),
        EL2NSYNC => Some("EL2NSYNC"),
        EL3HLT => Some("EL3HLT"),
        EL3RST => Some("EL3RST"),
        ELNRNG => Some("ELNRNG"),
        EUNATCH => Some("EUNATCH"),
        ENOCSI => Some("ENOCSI"),
        EL2HLT => Some("EL2HLT"),
        EBADE => Some("EBADE"),
        EBADR => Some("EBADR"),
        EXFULL => Some("EXFULL"),
        ENOANO => Some("ENOANO"),
        EBADRQC => Some("EBADRQC"),
        EBADSLT => Some("EBADSLT"),
        EBFONT => Some("EBFONT"),
        ENOSTR => Some("ENOSTR"),
        ENODATA => Some("ENODATA"),
        ETIME => Some("ETIME"),
        ENOSR => Some("ENOSR"),
        ENONET => Some("ENONET"),
        ENOPKG => Some("ENOPKG"),
        EREMOTE => Some("EREMOTE"),
        ENOLINK => Some("ENOLINK"),
        EADV => Some("EADV"),
        ESRMNT => Some("ESRMNT"),
        ECOMM => Some("ECOMM"),
        EPROTO => Some("EPROTO"),
        EMULTIHOP => Some("EMULTIHOP"),
        EDOTDOT => Some("EDOTDOT"),
        EBADMSG => Some("EBADMSG"),
        EOVERFLOW => Some("EOVERFLOW"),
        ENOTUNIQ => Some("ENOTUNIQ"),
        EBADFD => Some("EBADFD"),
        EREMCHG => Some("EREMCHG"),
        ELIBACC => Some("ELIBACC"),
        ELIBBAD => Some("ELIBBAD"),
        ELIBSCN => Some("ELIBSCN"),
        ELIBMAX => Some("ELIBMAX"),
        ELIBEXEC => Some("ELIBEXEC"),
        EILSEQ => Some("EILSEQ"),
        ERESTART => Some("ERESTART"),
        ESTRPIPE => Some("ESTRPIPE"),
        EUSERS => Some("EUSERS"),
        ENOTSOCK => Some("ENOTSOCK"),
        EDESTADDRREQ => Some("EDESTADDRREQ"),
        EMSGSIZE => Some("EMSGSIZE"),
        EPROTOTYPE => Some("EPROTOTYPE"),
        ENOPROTOOPT => Some("ENOPROTOOPT"),
        EPROTONOSUPPORT => Some("EPROTONOSUPPORT"),
        ESOCKTNOSUPPORT => Some("ESOCKTNOSUPPORT"),
        EOPNOTSUPP => Some("EOPNOTSUPP"),
        EPFNOSUPPORT => Some("EPFNOSUPPORT"),
        EAFNOSUPPORT => Some("EAFNOSUPPORT"),
        EADDRINUSE => Some("EADDRINUSE"),
        EADDRNOTAVAIL => Some("EADDRNOTAVAIL"),
        ENETDOWN => Some("ENETDOWN"),
        ENETUNREACH => Some("ENETUNREACH"),
        ENETRESET => Some("ENETRESET"),
        ECONNABORTED => Some("ECONNABORTED"),
        ECONNRESET => Some("ECONNRESET"),
        ENOBUFS => Some("ENOBUFS"),
        EISCONN => Some("EISCONN"),
        ENOTCONN => Some("ENOTCONN"),
        ESHUTDOWN => Some("ESHUTDOWN"),
        ETOOMANYREFS => Some("ETOOMANYREFS"),
        ETIMEDOUT => Some("ETIMEDOUT"),
        ECONNREFUSED => Some("ECONNREFUSED"),
        EHOSTDOWN => Some("EHOSTDOWN"),
        EHOSTUNREACH => Some("EHOSTUNREACH"),
        EALREADY => Some("EALREADY"),
        EINPROGRESS => Some("EINPROGRESS"),
        ESTALE => Some("ESTALE"),
        EUCLEAN => Some("EUCLEAN"),
        ENOTNAM => Some("ENOTNAM"),
        ENAVAIL => Some("ENAVAIL"),
        EISNAM => Some("EISNAM"),
        EREMOTEIO => Some("EREMOTEIO"),
        EDQUOT => Some("EDQUOT"),
        ENOMEDIUM => Some("ENOMEDIUM"),
        EMEDIUMTYPE => Some("EMEDIUMTYPE"),
        ECANCELED => Some("ECANCELED"),
        ENOKEY => Some("ENOKEY"),
        EKEYEXPIRED => Some("EKEYEXPIRED"),
        EKEYREVOKED => Some("EKEYREVOKED"),
        EKEYREJECTED => Some("EKEYREJECTED"),
        EOWNERDEAD => Some("EOWNERDEAD"),
        ENOTRECOVERABLE => Some("ENOTRECOVERABLE"),
        ERFKILL => Some("ERFKILL"),
        EHWPOISON => Some("EHWPOISON"),
        _ => None,
    }
}

/// The message of an error number: its description, or its number where it is
/// unknown.
pub open spec fn strerror_message(e: i32) -> Seq<u8> {
    match errno_description(e) {
        Some(t) => encode_utf8(t),
        None => "Unknown error ".spec_bytes() + decimal(e as int),
    }
}

/// The message of an error number, and whether the number is unknown.
pub fn rendered_strerror_message(errnum: i32) -> (r: (Vec<u8>, bool))
    ensures
        r.0@ == strerror_message(errnum),
        r.1 == errno_description(errnum) is None,
{
    let mut msg: Vec<u8> = Vec::new();
    match strerrordesc_np(errnum) {
        Some(t) => {
            push_text(&mut msg, t);
            assert(msg@ =~= t.spec_bytes());
            (msg, false)
        },
        None => {
            push_text(&mut msg, "Unknown error ");
            push_decimal(&mut msg, errnum);
            assert(msg@ =~= strerror_message(errnum));
            (msg, true)
        },
    }
}

/// Bytes in the thread's buffer for [`strerror`].
pub const STRERROR_BUF_LEN: usize = 256;

/// Writes the message of `errnum` into the thread's buffer at `buf`, cut to fit,
/// and returns `buf`; null where the thread has no buffer.
pub fn strerror(mem: &mut Memory, errnum: i32, buf: usize) -> (r: usize)
    requires
        buf != 0 ==> mapped(old(mem)@, buf as int, STRERROR_BUF_LEN as int),
    ensures
        r == buf,
        final(mem)@ == if buf == 0 {
            old(mem)@
        } else {
            put(old(mem)@, buf as int, c_text(strerror_message(errnum), STRERROR_BUF_LEN as int))
        },
{
    let (msg, _unknown) = rendered_strerror_message(errnum);
    if buf != 0 {
        store_text(mem, buf, STRERROR_BUF_LEN, msg.as_slice());
    }
    buf
}

/// Where a message stands.
pub enum ErrorText {
    /// An immutable text.
    Fixed(&'static str),
    /// The caller's buffer.
    Buffer(usize),
}

/// The description of a known `errnum`, with `buf` left alone; for an unknown
/// one a message in the `buflen` bytes at `buf`, cut to fit.
pub fn strerror_r(mem: &mut Memory, errnum: i32, buf: usize, buflen: usize) -> (r: ErrorText)
    requires
        buf != 0 && errno_description(errnum) is None ==> mapped(
            old(mem)@,
            buf as int,
            buflen as int,
        ),
    ensures
        match errno_description(errnum) {
            Some(t) => r is Fixed && r->Fixed_0@ == t && final(mem)@ == old(mem)@,
            None => r == ErrorText::Buffer(buf) && final(mem)@ == if buf == 0 || buflen == 0 {
                old(mem)@
            } else {
                put(old(mem)@, buf as int, c_text(strerror_message(errnum), buflen as int))
            },
        },
{
    match strerrordesc_np(errnum) {
        Some(t) => ErrorText::Fixed(t),
        None => {
            if buf != 0 && buflen != 0 {
                let (msg, _unknown) = rendered_strerror_message(errnum);
                store_text(mem, buf, buflen, msg.as_slice());
            }
            ErrorText::Buffer(buf)
        },
    }
}

/// As [`strerror_r`].
pub fn __strerror_r(mem: &mut Memory, errnum: i32, buf: usize, buflen: usize) -> (r: ErrorText)
    requires
        buf != 0 && errno_description(errnum) is None ==> mapped(
            old(mem)@,
            buf as int,
            buflen as int,
        ),
    ensures
        match errno_description(errnum) {
            Some(t) => r is Fixed && r->Fixed_0@ == t && final(mem)@ == old(mem)@,
            None => r == ErrorText::Buffer(buf) && final(mem)@ == if buf == 0 || buflen == 0 {
                old(mem)@
            } else {
                put(old(mem)@, buf as int, c_text(strerror_message(errnum), buflen as int))
            },
        },
{
    strerror_r(mem, errnum, buf, buflen)
}

/// An error number has a name exactly where it has a description.
pub proof fn law_named_iff_described(e: i32)
    ensures
        errno_name(e) is Some == errno_description(e) is Some,
        errno_name(e) is Some ==> 0 <= e <= 133,
{
}

/// Letter `i` of a name, or zero behind its end.
spec fn letter(s: Seq<char>, i: int) -> int {
    if i < s.len() {
        s[i] as int
    } else {
        0
    }
}

/// The length of a name and its letters 1, 2, 4 and 5, one byte each: enough to
/// tell the names of error numbers apart.
spec fn mark(s: Seq<char>) -> int {
    s.len() * 0x1_0000_0000 + letter(s, 1) * 0x100_0000 + letter(s, 2) * 0x1_0000 + letter(s, 4)
        * 0x100 + letter(s, 5)
}

/// The error number whose name has the mark `k`.
spec fn marked(k: int) -> int {
    if k == 0x01_0000_0000 {
        0
    } else if k == 0x05_5045_4d00 {
        1
    } else if k == 0x06_4e4f_4e54 {
        2
    } else if k == 0x05_5352_4800 {
        3
    } else if k == 0x05_494e_5200 {
        4
    } else if k == 0x03_494f_0000 {
        5
    } else if k == 0x05_4e58_4f00 {
        6
    } else if k == 0x05_3242_4700 {
        7
    } else if k == 0x07_4e4f_5845 {
        8
    } else if k == 0x05_4241_4600 {
        9
    } else if k == 0x06_4348_4c44 {
        10
    } else if k == 0x06_4147_494e {
        11
    } else if k == 0x06_4e4f_454d {
        12
    } else if k == 0x06_4143_4553 {
        13
    } else if k == 0x06_4641_4c54 {
        14
    } else if k == 0x07_4e4f_424c {
        15
    } else if k == 0x05_4255_5900 {
        16
    } else if k == 0x06_4558_5354 {
        17
    } else if k == 0x05_5844_5600 {
        18
    } else if k == 0x06_4e4f_4556 {
        19
    } else if k == 0x07_4e4f_4449 {
        20
    } else if k == 0x06_4953_4952 {
        21
    } else if k == 0x06_494e_414c {
        22
    } else if k == 0x06_4e46_4c45 {
        23
    } else if k == 0x06_4d46_4c45 {
        24
    } else if k == 0x06_4e4f_5459 {
        25
    } else if k == 0x07_5458_4253 {
        26
    } else if k == 0x05_4642_4700 {
        27
    } else if k == 0x06_4e4f_5043 {
        28
    } else if k == 0x06_5350_5045 {
        29
    } else if k == 0x05_524f_5300 {
        30
    } else if k == 0x06_4d4c_4e4b {
        31
    } else if k == 0x05_5049_4500 {
        32
    } else if k == 0x04_444f_0000 {
        33
    } else if k == 0x06_5241_4745 {
        34
    } else if k == 0x07_4445_444c {
        35
    } else if k == 0x0c_4e41_4554 {
        36
    } else if k == 0x06_4e4f_434b {
        37
    } else if k == 0x06_4e4f_5953 {
        38
    } else if k == 0x09_4e4f_454d {
        39
    } else if k == 0x05_4c4f_5000 {
        40
    } else if k == 0x06_4e4f_5347 {
        42
    } else if k == 0x05_4944_4d00 {
        43
    } else if k == 0x06_4348_4e47 {
        44
    } else if k == 0x08_4c32_5359 {
        45
    } else if k == 0x06_4c33_4c54 {
        46
    } else if k == 0x06_4c33_5354 {
        47
    } else if k == 0x06_4c4e_4e47 {
        48
    } else if k == 0x07_554e_5443 {
        49
    } else if k == 0x06_4e4f_5349 {
        50
    } else if k == 0x06_4c32_4c54 {
        51
    } else if k == 0x05_4241_4500 {
        52
    } else if k == 0x05_4241_5200 {
        53
    } else if k == 0x06_5846_4c4c {
        54
    } else if k == 0x06_4e4f_4e4f {
        55
    } else if k == 0x07_4241_5251 {
        56
    } else if k == 0x07_4241_534c {
        57
    } else if k == 0x06_4246_4e54 {
        59
    } else if k == 0x06_4e4f_5452 {
        60
    } else if k == 0x07_4e4f_4154 {
        61
    } else if k == 0x05_5449_4500 {
        62
    } else if k == 0x05_4e4f_5200 {
        63
    } else if k == 0x06_4e4f_4554 {
        64
    } else if k == 0x06_4e4f_4b47 {
        65
    } else if k == 0x07_5245_4f54 {
        66
    } else if k == 0x07_4e4f_494e {
        67
    } else if k == 0x04_4144_0000 {
        68
    } else if k == 0x06_5352_4e54 {
        69
    } else if k == 0x05_434f_4d00 {
        70
    } else if k == 0x06_5052_544f {
        71
    } else if k == 0x09_4d55_5449 {
        72
    } else if k == 0x07_444f_444f {
        73
    } else if k == 0x07_4241_4d53 {
        74
    } else if k == 0x09_4f56_5246 {
        75
    } else if k == 0x08_4e4f_554e {
        76
    } else if k == 0x06_4241_4644 {
        77
    } else if k == 0x07_5245_4348 {
        78
    } else if k == 0x07_4c49_4143 {
        79
    } else if k == 0x07_4c49_4241 {
        80
    } else if k == 0x07_4c49_5343 {
        81
    } else if k == 0x07_4c49_4d41 {
        82
    } else if k == 0x08_4c49_4558 {
        83
    } else if k == 0x06_494c_4551 {
        84
    } else if k == 0x08_5245_5441 {
        85
    } else if k == 0x08_5354_5049 {
        86
    } else if k == 0x06_5553_5253 {
        87
    } else if k == 0x08_4e4f_534f {
        88
    } else if k == 0x0c_4445_5441 {
        89
    } else if k == 0x08_4d53_5349 {
        90
    } else if k == 0x0a_5052_544f {
        91
    } else if k == 0x0b_4e4f_524f {
        92
    } else if k == 0x0f_5052_544f {
        93
    } else if k == 0x0f_534f_4b54 {
        94
    } else if k == 0x0a_4f50_4f54 {
        95
    } else if k == 0x0c_5046_4f53 {
        96
    } else if k == 0x0c_4146_4f53 {
        97
    } else if k == 0x0a_4144_5249 {
        98
    } else if k == 0x0d_4144_524e {
        99
    } else if k == 0x08_4e45_444f {
        100
    } else if k == 0x0b_4e45_554e {
        101
    } else if k == 0x09_4e45_5245 {
        102
    } else if k == 0x0c_434f_4e41 {
        103
    } else if k == 0x0a_434f_4e52 {
        104
    } else if k == 0x07_4e4f_5546 {
        105
    } else if k == 0x07_4953_4f4e {
        106
    } else if k == 0x08_4e4f_434f {
        107
    } else if k == 0x09_5348_5444 {
        108
    } else if k == 0x0c_544f_4d41 {
        109
    } else if k == 0x09_5449_4544 {
        110
    } else if k == 0x0c_434f_4e52 {
        111
    } else if k == 0x09_484f_5444 {
        112
    } else if k == 0x0c_484f_5455 {
        113
    } else if k == 0x08_414c_4541 {
        114
    } else if k == 0x0b_494e_524f {
        115
    } else if k == 0x06_5354_4c45 {
        116
    } else if k == 0x07_5543_4541 {
        117
    } else if k == 0x07_4e4f_4e41 {
        118
    } else if k == 0x07_4e41_4149 {
        119
    } else if k == 0x06_4953_414d {
        120
    } else if k == 0x09_5245_4f54 {
        121
    } else if k == 0x06_4451_4f54 {
        122
    } else if k == 0x09_4e4f_4544 {
        123
    } else if k == 0x0b_4d45_4955 {
        124
    } else if k == 0x09_4341_4345 {
        125
    } else if k == 0x06_4e4f_4559 {
        126
    } else if k == 0x0b_4b45_4558 {
        127
    } else if k == 0x0b_4b45_5245 {
        128
    } else if k == 0x0c_4b45_5245 {
        129
    } else if k == 0x0a_4f57_4552 {
        130
    } else if k == 0x0f_4e4f_5245 {
        131
    } else if k == 0x07_5246_494c {
        132
    } else if k == 0x09_4857_4f49 {
        133
    } else {
        -1
    }
}

/// The mark of a name leads back to its error number.
proof fn lemma_mark(e: i32)
    requires
        errno_name(e) is Some,
    ensures
        marked(mark(errno_name(e)->Some_0)) == e,
{
    if e == 0 {
        reveal_strlit("0");
    } else if e == 1 {
        reveal_strlit("EPERM");
    } else if e == 2 {
        reveal_strlit("ENOENT");
    } else if e == 3 {
        reveal_strlit("ESRCH");
    } else if e == 4 {
        reveal_strlit("EINTR");
    } else if e == 5 {
        reveal_strlit("EIO");
    } else if e == 6 {
        reveal_strlit("ENXIO");
    } else if e == 7 {
        reveal_strlit("E2BIG");
    } else if e == 8 {
        reveal_strlit("ENOEXEC");
    } else if e == 9 {
        reveal_strlit("EBADF");
    } else if e == 10 {
        reveal_strlit("ECHILD");
    } else if e == 11 {
        reveal_strlit("EAGAIN");
    } else if e == 12 {
        reveal_strlit("ENOMEM");
    } else if e == 13 {
        reveal_strlit("EACCES");
    } else if e == 14 {
        reveal_strlit("EFAULT");
    } else if e == 15 {
        reveal_strlit("ENOTBLK");
    } else if e == 16 {
        reveal_strlit("EBUSY");
    } else if e == 17 {
        reveal_strlit("EEXIST");
    } else if e == 18 {
        reveal_strlit("EXDEV");
    } else if e == 19 {
        reveal_strlit("ENODEV");
    } else if e == 20 {
        reveal_strlit("ENOTDIR");
    } else if e == 21 {
        reveal_strlit("EISDIR");
    } else if e == 22 {
        reveal_strlit("EINVAL");
    } else if e == 23 {
        reveal_strlit("ENFILE");
    } else if e == 24 {
        reveal_strlit("EMFILE");
    } else if e == 25 {
        reveal_strlit("ENOTTY");
    } else if e == 26 {
        reveal_strlit("ETXTBSY");
    } else if e == 27 {
        reveal_strlit("EFBIG");
    } else if e == 28 {
        reveal_strlit("ENOSPC");
    } else if e == 29 {
        reveal_strlit("ESPIPE");
    } else if e == 30 {
        reveal_strlit("EROFS");
    } else if e == 31 {
        reveal_strlit("EMLINK");
    } else if e == 32 {
        reveal_strlit("EPIPE");
    } else if e == 33 {
        reveal_strlit("EDOM");
    } else if e == 34 {
        reveal_strlit("ERANGE");
    } else if e == 35 {
        reveal_strlit("EDEADLK");
    } else if e == 36 {
        reveal_strlit("ENAMETOOLONG");
    } else if e == 37 {
        reveal_strlit("ENOLCK");
    } else if e == 38 {
        reveal_strlit("ENOSYS");
    } else if e == 39 {
        reveal_strlit("ENOTEMPTY");
    } else if e == 40 {
        reveal_strlit("ELOOP");
    } else if e == 42 {
        reveal_strlit("ENOMSG");
    } else if e == 43 {
        reveal_strlit("EIDRM");
    } else if e == 44 {
        reveal_strlit("ECHRNG");
    } else if e == 45 {
        reveal_strlit("EL2NSYNC");
    } else if e == 46 {
        reveal_strlit("EL3HLT");
    } else if e == 47 {
        reveal_strlit("EL3RST");
    } else if e == 48 {
        reveal_strlit("ELNRNG");
    } else if e == 49 {
        reveal_strlit("EUNATCH");
    } else if e == 50 {
        reveal_strlit("ENOCSI");
    } else if e == 51 {
        reveal_strlit("EL2HLT");
    } else if e == 52 {
        reveal_strlit("EBADE");
    } else if e == 53 {
        reveal_strlit("EBADR");
    } else if e == 54 {
        reveal_strlit("EXFULL");
    } else if e == 55 {
        reveal_strlit("ENOANO");
    } else if e == 56 {
        reveal_strlit("EBADRQC");
    } else if e == 57 {
        reveal_strlit("EBADSLT");
    } else if e == 59 {
        reveal_strlit("EBFONT");
    } else if e == 60 {
        reveal_strlit("ENOSTR");
    } else if e == 61 {
        reveal_strlit("ENODATA");
    } else if e == 62 {
        reveal_strlit("ETIME");
    } else if e == 63 {
        reveal_strlit("ENOSR");
    } else if e == 64 {
        reveal_strlit("ENONET");
    } else if e == 65 {
        reveal_strlit("ENOPKG");
    } else if e == 66 {
        reveal_strlit("EREMOTE");
    } else if e == 67 {
        reveal_strlit("ENOLINK");
    } else if e == 68 {
        reveal_strlit("EADV");
    } else if e == 69 {
        reveal_strlit("ESRMNT");
    } else if e == 70 {
        reveal_strlit("ECOMM");
    } else if e == 71 {
        reveal_strlit("EPROTO");
    } else if e == 72 {
        reveal_strlit("EMULTIHOP");
    } else if e == 73 {
        reveal_strlit("EDOTDOT");
    } else if e == 74 {
        reveal_strlit("EBADMSG");
    } else if e == 75 {
        reveal_strlit("EOVERFLOW");
    } else if e == 76 {
        reveal_strlit("ENOTUNIQ");
    } else if e == 77 {
        reveal_strlit("EBADFD");
    } else if e == 78 {
        reveal_strlit("EREMCHG");
    } else if e == 79 {
        reveal_strlit("ELIBACC");
    } else if e == 80 {
        reveal_strlit("ELIBBAD");
    } else if e == 81 {
        reveal_strlit("ELIBSCN");
    } else if e == 82 {
        reveal_strlit("ELIBMAX");
    } else if e == 83 {
        reveal_strlit("ELIBEXEC");
    } else if e == 84 {
        reveal_strlit("EILSEQ");
    } else if e == 85 {
        reveal_strlit("ERESTART");
    } else if e == 86 {
        reveal_strlit("ESTRPIPE");
    } else if e == 87 {
        reveal_strlit("EUSERS");
    } else if e == 88 {
        reveal_strlit("ENOTSOCK");
    } else if e == 89 {
        reveal_strlit("EDESTADDRREQ");
    } else if e == 90 {
        reveal_strlit("EMSGSIZE");
    } else if e == 91 {
        reveal_strlit("EPROTOTYPE");
    } else if e == 92 {
        reveal_strlit("ENOPROTOOPT");
    } else if e == 93 {
        reveal_strlit("EPROTONOSUPPORT");
    } else if e == 94 {
        reveal_strlit("ESOCKTNOSUPPORT");
    } else if e == 95 {
        reveal_strlit("EOPNOTSUPP");
    } else if e == 96 {
        reveal_strlit("EPFNOSUPPORT");
    } else if e == 97 {
        reveal_strlit("EAFNOSUPPORT");
    } else if e == 98 {
        reveal_strlit("EADDRINUSE");
    } else if e == 99 {
        reveal_strlit("EADDRNOTAVAIL");
    } else if e == 100 {
        reveal_strlit("ENETDOWN");
    } else if e == 101 {
        reveal_strlit("ENETUNREACH");
    } else if e == 102 {
        reveal_strlit("ENETRESET");
    } else if e == 103 {
        reveal_strlit("ECONNABORTED");
    } else if e == 104 {
        reveal_strlit("ECONNRESET");
    } else if e == 105 {
        reveal_strlit("ENOBUFS");
    } else if e == 106 {
        reveal_strlit("EISCONN");
    } else if e == 107 {
        reveal_strlit("ENOTCONN");
    } else if e == 108 {
        reveal_strlit("ESHUTDOWN");
    } else if e == 109 {
        reveal_strlit("ETOOMANYREFS");
    } else if e == 110 {
        reveal_strlit("ETIMEDOUT");
    } else if e == 111 {
        reveal_strlit("ECONNREFUSED");
    } else if e == 112 {
        reveal_strlit("EHOSTDOWN");
    } else if e == 113 {
        reveal_strlit("EHOSTUNREACH");
    } else if e == 114 {
        reveal_strlit("EALREADY");
    } else if e == 115 {
        reveal_strlit("EINPROGRESS");
    } else if e == 116 {
        reveal_strlit("ESTALE");
    } else if e == 117 {
        reveal_strlit("EUCLEAN");
    } else if e == 118 {
        reveal_strlit("ENOTNAM");
    } else if e == 119 {
        reveal_strlit("ENAVAIL");
    } else if e == 120 {
        reveal_strlit("EISNAM");
    } else if e == 121 {
        reveal_strlit("EREMOTEIO");
    } else if e == 122 {
        reveal_strlit("EDQUOT");
    } else if e == 123 {
        reveal_strlit("ENOMEDIUM");
    } else if e == 124 {
        reveal_strlit("EMEDIUMTYPE");
    } else if e == 125 {
        reveal_strlit("ECANCELED");
    } else if e == 126 {
        reveal_strlit("ENOKEY");
    } else if e == 127 {
        reveal_strlit("EKEYEXPIRED");
    } else if e == 128 {
        reveal_strlit("EKEYREVOKED");
    } else if e == 129 {
        reveal_strlit("EKEYREJECTED");
    } else if e == 130 {
        reveal_strlit("EOWNERDEAD");
    } else if e == 131 {
        reveal_strlit("ENOTRECOVERABLE");
    } else if e == 132 {
        reveal_strlit("ERFKILL");
    } else if e == 133 {
        reveal_strlit("EHWPOISON");
    }
}

/// Different error numbers have different names.
pub proof fn law_names_differ(a: i32, b: i32)
    requires
        a != b,
        errno_name(a) is Some,
        errno_name(b) is Some,
    ensures
        errno_name(a) != errno_name(b),
{
    lemma_mark(a);
    lemma_mark(b);
}

/// An error number has a description exactly where it has a name: from 0 to 133,
/// but for 41 and 58.
pub proof fn law_known_errors(e: i32)
    ensures
        errno_description(e) is Some <==> 0 <= e <= 133 && e != 41 && e != 58,
        errno_name(e) is Some <==> 0 <= e <= 133 && e != 41 && e != 58,
{
}

/// The message of an unknown error names its number.
pub proof fn law_unknown_errors_are_numbered(e: i32)
    requires
        e < 0 || e > 133,
    ensures
        strerror_message(e) == "Unknown error ".spec_bytes() + decimal(e as int),
{
    law_known_errors(e);
}

} // verus!
