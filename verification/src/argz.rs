//! Argument vectors: entries that each end in a NUL, one behind the other.
//!
//! A vector is its bytes; an empty one stands for no vector. A place in it is
//! the offset of an entry. `None` in place of a vector stands for a caller that
//! gave no vector to work on. The allocator's answer to a request for a new
//! block comes as an argument: a refused request leaves the vector alone.
use vstd::prelude::*;
use crate::errors::{EINVAL, ENOMEM};
use crate::memory::{Memory, Ptr};
use crate::scan::{
    c_bytes,
    c_ended,
    find,
    is_first,
    is_not_byte,
    is_nul,
    lemma_find,
    lemma_find_is,
    read_c_string_bytes,
    readable,
};
use crate::search::{is_byte, low_byte, to_low_byte};
use crate::text::push_bytes;

verus! {

/// The bytes of a vector, if there is one.
pub open spec fn bytes_of(v: Option<Vec<u8>>) -> Seq<u8> {
    match v {
        Some(b) => b@,
        None => seq![],
    }
}

/// The entries, each with its NUL, one behind the other.
pub open spec fn joined(es: Seq<Seq<u8>>) -> Seq<u8>
    decreases es.len(),
{
    if es.len() == 0 {
        seq![]
    } else {
        joined(es.drop_last()) + es.last().push(0)
    }
}

/// The length of the entry at `pos`, or of what is left where no NUL ends it.
pub open spec fn entry_len(b: Seq<u8>, pos: int) -> int {
    find(b, pos, b.len() - pos, is_nul())
}

/// A NUL ends the entry at `pos`.
pub open spec fn entry_ends(b: Seq<u8>, pos: int) -> bool {
    entry_len(b, pos) < b.len() - pos
}

/// Facts of the entry at `pos`.
pub proof fn lemma_entry(b: Seq<u8>, pos: int)
    requires
        0 <= pos <= b.len(),
    ensures
        0 <= entry_len(b, pos) <= b.len() - pos,
        forall|j: int| pos <= j < pos + entry_len(b, pos) ==> #[trigger] b[j] != 0,
        entry_ends(b, pos) ==> b[pos + entry_len(b, pos)] == 0,
{
    lemma_find(b, pos, b.len() - pos, is_nul());
    assert forall|j: int| pos <= j < pos + entry_len(b, pos) implies #[trigger] b[j] != 0 by {
        assert(!is_nul()(b[j]));
    }
}

/// The first byte from `pos` on that is `c`, as an offset from `pos`, or the
/// length of what is left.
pub(crate) fn byte_from(b: &[u8], pos: usize, c: u8) -> (r: usize)
    requires
        pos <= b@.len(),
    ensures
        r == find(b@, pos as int, b@.len() - pos, is_byte(c)),
        r <= b@.len() - pos,
        r < b@.len() - pos ==> b@[pos + r] == c,
        forall|j: int| pos <= j < pos + r ==> #[trigger] b@[j] != c,
{
    let len: usize = b.len();
    let n: usize = len - pos;
    let mut i: usize = 0;
    while i < n && b[pos + i] != c
        invariant
            i <= n,
            len == b@.len(),
            n == len - pos,
            forall|j: int| pos <= j < pos + i ==> #[trigger] b@[j] != c,
        decreases n - i,
    {
        i += 1;
    }
    proof {
        assert(is_first(b@, pos as int, n as int, is_byte(c), i as int));
        lemma_find_is(b@, pos as int, n as int, is_byte(c), i as int);
    }
    i
}

/// The length of the entry at `pos`, if a NUL ends it.
pub fn argz_entry_len_at(argz: &[u8], pos: usize) -> (r: Option<usize>)
    ensures
        r is Some == (pos < argz@.len() && entry_ends(argz@, pos as int)),
        r matches Some(n) ==> n == entry_len(argz@, pos as int) && pos + n < argz@.len(),
{
    if pos >= argz.len() {
        return None;
    }
    let n: usize = byte_from(argz, pos, 0);
    proof {
        assert(is_first(argz@, pos as int, argz@.len() - pos, is_nul(), n as int));
        lemma_find_is(argz@, pos as int, argz@.len() - pos, is_nul(), n as int);
    }
    if n < argz.len() - pos {
        Some(n)
    } else {
        None
    }
}

/// An entry starts at `pos`.
pub open spec fn starts_entry(b: Seq<u8>, pos: int) -> bool {
    0 <= pos < b.len() && (pos == 0 || b[pos - 1] == 0)
}

/// `entry`, where an entry starts there.
pub fn argz_entry_offset(argz: &[u8], entry: Option<usize>) -> (r: Option<usize>)
    ensures
        r is Some == (entry is Some && starts_entry(argz@, entry->Some_0 as int)),
        r is Some ==> r == entry,
{
    match entry {
        Some(pos) => {
            if pos >= argz.len() {
                return None;
            }
            if pos > 0 && argz[pos - 1] != 0 {
                return None;
            }
            Some(pos)
        },
        None => None,
    }
}

/// The number of NUL bytes.
pub open spec fn nul_count(b: Seq<u8>) -> int
    decreases b.len(),
{
    if b.len() == 0 {
        0
    } else {
        nul_count(b.drop_last()) + if b.last() == 0 {
            1int
        } else {
            0
        }
    }
}

/// The number of entries.
pub fn argz_count(argz: &[u8]) -> (r: usize)
    ensures
        r == nul_count(argz@),
{
    let mut count: usize = 0;
    let mut i: usize = 0;
    while i < argz.len()
        invariant
            i <= argz@.len(),
            count <= i,
            count == nul_count(argz@.take(i as int)),
        decreases argz@.len() - i,
    {
        assert(argz@.take(i + 1).drop_last() =~= argz@.take(i as int));
        if argz[i] == 0 {
            count += 1;
        }
        i += 1;
    }
    assert(argz@.take(i as int) =~= argz@);
    count
}

/// The place of the entry behind `entry`, or of the first one; `None` where there
/// is none.
pub open spec fn next_place(b: Seq<u8>, entry: Option<usize>) -> Option<usize> {
    match entry {
        None => if b.len() > 0 {
            Some(0usize)
        } else {
            None
        },
        Some(pos) => if pos < b.len() && pos + entry_len(b, pos as int) + 1 < b.len() {
            Some((pos + entry_len(b, pos as int) + 1) as usize)
        } else {
            None
        },
    }
}

/// The entry behind `entry`, or the first one for `None`; `None` where there is
/// none, or `entry` lies outside the vector.
pub fn argz_next(argz: &[u8], entry: Option<usize>) -> (r: Option<usize>)
    ensures
        r == match entry {
            None => if argz@.len() == 0 {
                None
            } else {
                Some(0usize)
            },
            Some(pos) => if pos < argz@.len() && pos + entry_len(argz@, pos as int) + 1
                < argz@.len() {
                Some((pos + entry_len(argz@, pos as int) + 1) as usize)
            } else {
                None
            },
        },
        r == next_place(argz@, entry),
{
    if argz.len() == 0 {
        return None;
    }
    match entry {
        None => Some(0),
        Some(pos) => {
            proof {
                if pos < argz@.len() {
                    lemma_entry(argz@, pos as int);
                }
            }
            match argz_entry_len_at(argz, pos) {
                Some(n) => {
                    if n + 1 < argz.len() - pos {
                        Some(pos + n + 1)
                    } else {
                        None
                    }
                },
                None => None,
            }
        },
    }
}

/// The runs of bytes that are not `sep`, from `pos` on.
pub open spec fn runs_from(b: Seq<u8>, sep: u8, pos: int) -> Seq<Seq<u8>>
    decreases b.len() - pos,
    via runs_go_on
{
    if pos < 0 || pos >= b.len() {
        seq![]
    } else {
        let st = pos + find(b, pos, b.len() - pos, is_not_byte(sep));
        if st >= b.len() {
            seq![]
        } else {
            let en = st + find(b, st, b.len() - st, is_byte(sep));
            seq![b.subrange(st, en)] + runs_from(b, sep, en)
        }
    }
}

#[via_fn]
proof fn runs_go_on(b: Seq<u8>, sep: u8, pos: int) {
    if 0 <= pos < b.len() {
        lemma_find(b, pos, b.len() - pos, is_not_byte(sep));
        let st = pos + find(b, pos, b.len() - pos, is_not_byte(sep));
        if st < b.len() {
            lemma_find(b, st, b.len() - st, is_byte(sep));
        }
    }
}

/// The entries of a string with separators: its runs between them, and an empty
/// one where a separator ends it.
pub open spec fn sep_entries(b: Seq<u8>, sep: u8) -> Seq<Seq<u8>> {
    if b.len() > 0 && b.last() == sep {
        runs_from(b, sep, 0).push(seq![])
    } else {
        runs_from(b, sep, 0)
    }
}

/// The views of a list of entries.
pub open spec fn views(es: Seq<Vec<u8>>) -> Seq<Seq<u8>> {
    Seq::new(es.len(), |i: int| es[i]@)
}

fn copy_range(b: &[u8], from: usize, to: usize) -> (r: Vec<u8>)
    requires
        from <= to <= b@.len(),
    ensures
        r@ == b@.subrange(from as int, to as int),
{
    let mut r: Vec<u8> = Vec::new();
    let mut i: usize = from;
    while i < to
        invariant
            from <= i <= to,
            to <= b@.len(),
            r@ == b@.subrange(from as int, i as int),
        decreases to - i,
    {
        r.push(b[i]);
        i += 1;
        assert(r@ =~= b@.subrange(from as int, i as int));
    }
    r
}

/// The first byte from `pos` on that is not `c`, as an offset from `pos`, or the
/// length of what is left.
fn other_byte_from(b: &[u8], pos: usize, c: u8) -> (r: usize)
    requires
        pos <= b@.len(),
    ensures
        r == find(b@, pos as int, b@.len() - pos, is_not_byte(c)),
        r <= b@.len() - pos,
        r < b@.len() - pos ==> b@[pos + r] != c,
{
    let len: usize = b.len();
    let n: usize = len - pos;
    let mut i: usize = 0;
    while i < n && b[pos + i] == c
        invariant
            i <= n,
            len == b@.len(),
            n == len - pos,
            forall|j: int| pos <= j < pos + i ==> #[trigger] b@[j] == c,
        decreases n - i,
    {
        i += 1;
    }
    proof {
        assert(is_first(b@, pos as int, n as int, is_not_byte(c), i as int));
        lemma_find_is(b@, pos as int, n as int, is_not_byte(c), i as int);
    }
    i
}

/// The entries of a string with separators.
pub fn argz_sep_entries(bytes: &[u8], sep: u8) -> (r: Vec<Vec<u8>>)
    ensures
        views(r@) == sep_entries(bytes@, sep),
{
    let ghost b = bytes@;
    let mut entries: Vec<Vec<u8>> = Vec::new();
    let mut pos: usize = 0;
    assert(views(entries@) + runs_from(b, sep, 0) =~= runs_from(b, sep, 0));
    while pos < bytes.len()
        invariant_except_break
            views(entries@) + runs_from(b, sep, pos as int) == runs_from(b, sep, 0),
        invariant
            b == bytes@,
            pos <= b.len(),
        ensures
            views(entries@) == runs_from(b, sep, 0),
        decreases b.len() - pos,
    {
        let ghost before = views(entries@);
        let skip: usize = other_byte_from(bytes, pos, sep);
        let st: usize = pos + skip;
        if st == bytes.len() {
            assert(before + runs_from(b, sep, pos as int) =~= before);
            break;
        }
        let n: usize = byte_from(bytes, st, sep);
        let en: usize = st + n;
        entries.push(copy_range(bytes, st, en));
        proof {
            assert(views(entries@) =~= before.push(b.subrange(st as int, en as int)));
            assert(before + runs_from(b, sep, pos as int) =~= views(entries@) + runs_from(
                b,
                sep,
                en as int,
            ));
        }
        pos = en;
        assert(pos == b.len() ==> views(entries@) + runs_from(b, sep, pos as int) =~= views(
            entries@,
        ));
    }
    if bytes.len() != 0 && bytes[bytes.len() - 1] == sep {
        let ghost before = views(entries@);
        entries.push(Vec::new());
        assert(views(entries@) =~= before.push(seq![]));
    }
    entries
}

/// The entries of a list, joined.
fn join_entries(entries: &Vec<Vec<u8>>) -> (r: Vec<u8>)
    ensures
        r@ == joined(views(entries@)),
{
    let mut out: Vec<u8> = Vec::new();
    let mut i: usize = 0;
    while i < entries.len()
        invariant
            i <= entries@.len(),
            out@ == joined(views(entries@).take(i as int)),
        decreases entries@.len() - i,
    {
        push_bytes(&mut out, entries[i].as_slice());
        out.push(0);
        proof {
            let es = views(entries@);
            assert(es.take(i + 1).drop_last() =~= es.take(i as int));
            assert(es.take(i + 1).last() == entries@[i as int]@);
            assert(out@ =~= joined(es.take(i as int)) + entries@[i as int]@.push(0));
        }
        i += 1;
    }
    assert(views(entries@).take(i as int) =~= views(entries@));
    out
}

/// A readable C string, ended before the end of its allocation.
pub open spec fn given(m: Seq<u8>, p: Ptr) -> bool {
    !p.null() && c_ended(m, p.at(), p.remaining)
}

/// The bytes of a C string argument.
pub open spec fn text(m: Seq<u8>, p: Ptr) -> Seq<u8> {
    c_bytes(m, p.at(), p.remaining)
}

/// The strings of a list of pointers, which ends at a null pointer.
pub open spec fn argv_entries(m: Seq<u8>, argv: Seq<Ptr>) -> Seq<Seq<u8>>
    decreases argv.len(),
{
    if argv.len() == 0 || argv[0].null() {
        seq![]
    } else {
        seq![text(m, argv[0])] + argv_entries(m, argv.drop_first())
    }
}

/// Every string of a list of pointers ends before its allocation does.
pub open spec fn argv_given(m: Seq<u8>, argv: Seq<Ptr>) -> bool
    decreases argv.len(),
{
    argv.len() == 0 || argv[0].null() || (given(m, argv[0]) && argv_given(m, argv.drop_first()))
}

/// The pointers before the null pointer can be read.
pub open spec fn argv_readable(m: Seq<u8>, argv: Seq<Ptr>) -> bool {
    forall|i: int|
        0 <= i < argv.len() && !(#[trigger] argv[i]).null() ==> readable(
            m,
            argv[i].at(),
            argv[i].remaining,
        )
}

/// Makes a vector of the strings of `argv`, which ends at a null pointer and may
/// be absent.
pub fn argz_create(
    mem: &Memory,
    argv: Option<&[Ptr]>,
    argz: &mut Option<Vec<u8>>,
    granted: bool,
) -> (r: i32)
    requires
        argv is Some ==> argv_readable(mem@, argv->Some_0@),
    ensures
        ({
            let es = match argv {
                Some(a) => argv_entries(mem@, a@),
                None => seq![],
            };
            let ok = match argv {
                Some(a) => argv_given(mem@, a@),
                None => true,
            };
            let refused = es.len() > 0 && !granted;
            &&& r == if *old(argz) is None || !ok {
                EINVAL
            } else if refused {
                ENOMEM
            } else {
                0
            }
            &&& r != 0 ==> *final(argz) == *old(argz)
            &&& r == 0 ==> *final(argz) is Some && final(argz)->Some_0@ == joined(es)
        }),
{
    if argz.is_none() {
        return EINVAL;
    }
    let list: &[Ptr] = match argv {
        Some(a) => a,
        None => {
            *argz = Some(Vec::new());
            return 0;
        },
    };
    let ghost m = mem@;
    let mut entries: Vec<Vec<u8>> = Vec::new();
    let mut i: usize = 0;
    proof {
        assert(list@.skip(0) =~= list@);
        assert(views(entries@) + argv_entries(m, list@) =~= argv_entries(m, list@));
    }
    while i < list.len()
        invariant_except_break
            views(entries@) + argv_entries(m, list@.skip(i as int)) == argv_entries(m, list@),
            argv_given(m, list@.skip(i as int)) == argv_given(m, list@),
        invariant
            m == mem@,
            i <= list@.len(),
            argv_readable(m, list@),
            *argz == *old(argz),
            *old(argz) is Some,
            argv is Some,
            list == argv->Some_0,
        ensures
            views(entries@) == argv_entries(m, list@),
            argv_given(m, list@),
        decreases list@.len() - i,
    {
        let p: Ptr = list[i];
        let ghost rest = list@.skip(i as int);
        assert(rest[0] == p);
        assert(rest.drop_first() =~= list@.skip(i + 1));
        if p.is_null() {
            assert(views(entries@) + argv_entries(m, rest) =~= views(entries@));
            break;
        }
        match read_c_string_bytes(mem, p) {
            None => {
                return EINVAL;
            },
            Some(b) => {
                let ghost before = views(entries@);
                entries.push(b);
                proof {
                    assert(views(entries@) =~= before.push(text(m, p)));
                    assert(before + argv_entries(m, rest) =~= views(entries@) + argv_entries(
                        m,
                        rest.drop_first(),
                    ));
                }
            },
        }
        i += 1;
        assert(i == list@.len() ==> views(entries@) + argv_entries(m, list@.skip(i as int))
            =~= views(entries@));
    }
    if entries.len() == 0 {
        *argz = Some(Vec::new());
        assert(views(entries@).len() == 0);
        return 0;
    }
    if !granted {
        return ENOMEM;
    }
    *argz = Some(join_entries(&entries));
    0
}

/// Makes a vector of the string at `string`, split at `sep`.
pub fn argz_create_sep(
    mem: &Memory,
    string: Ptr,
    sep: i32,
    argz: &mut Option<Vec<u8>>,
    granted: bool,
) -> (r: i32)
    requires
        !string.null() ==> readable(mem@, string.at(), string.remaining),
    ensures
        ({
            let es = if string.null() {
                seq![]
            } else {
                sep_entries(text(mem@, string), low_byte(sep))
            };
            &&& r == if *old(argz) is None || (!string.null() && !given(mem@, string)) {
                EINVAL
            } else if es.len() > 0 && !granted {
                ENOMEM
            } else {
                0
            }
            &&& r != 0 ==> *final(argz) == *old(argz)
            &&& r == 0 ==> *final(argz) is Some && final(argz)->Some_0@ == joined(es)
        }),
{
    if argz.is_none() {
        return EINVAL;
    }
    if string.is_null() {
        *argz = Some(Vec::new());
        return 0;
    }
    match read_c_string_bytes(mem, string) {
        None => EINVAL,
        Some(b) => {
            let entries: Vec<Vec<u8>> = argz_sep_entries(b.as_slice(), to_low_byte(sep));
            assert(views(entries@).len() == entries@.len());
            if entries.len() == 0 {
                *argz = Some(Vec::new());
                return 0;
            }
            if !granted {
                return ENOMEM;
            }
            *argz = Some(join_entries(&entries));
            0
        },
    }
}

/// Whether `a` and `b` bytes, and `c` more, are too many for a size.
fn too_long(a: usize, b: usize, c: usize) -> (r: bool)
    ensures
        r == (a + b + c > usize::MAX),
{
    match a.checked_add(b) {
        Some(n) => match n.checked_add(c) {
            Some(_total) => false,
            None => true,
        },
        None => true,
    }
}

/// A vector of `len` bytes cannot grow by `more`.
pub open spec fn no_room(len: nat, more: nat, granted: bool) -> bool {
    len + more > usize::MAX || !granted
}

/// Appends an entry to a vector.
pub(crate) fn argz_add_bytes(argz: &mut Vec<u8>, bytes: &[u8], granted: bool) -> (r: i32)
    ensures
        r == if no_room(old(argz)@.len(), bytes@.len() + 1, granted) {
            ENOMEM
        } else {
            0
        },
        final(argz)@ == if r == 0 {
            old(argz)@ + bytes@.push(0)
        } else {
            old(argz)@
        },
{
    if too_long(argz.len(), bytes.len(), 1) || !granted {
        return ENOMEM;
    }
    push_bytes(argz, bytes);
    argz.push(0);
    assert(argz@ =~= old(argz)@ + bytes@.push(0));
    0
}

/// Appends the string at `str_` to a vector.
pub fn argz_add(argz: &mut Option<Vec<u8>>, mem: &Memory, str_: Ptr, granted: bool) -> (r: i32)
    requires
        !str_.null() ==> readable(mem@, str_.at(), str_.remaining),
    ensures
        r == if *old(argz) is None || !given(mem@, str_) {
            EINVAL
        } else if no_room(
            bytes_of(*old(argz)).len(),
            text(mem@, str_).len() + 1,
            granted,
        ) {
            ENOMEM
        } else {
            0
        },
        *final(argz) is Some == *old(argz) is Some,
        bytes_of(*final(argz)) == if r == 0 {
            bytes_of(*old(argz)) + text(mem@, str_).push(0)
        } else {
            bytes_of(*old(argz))
        },
{
    match argz {
        None => EINVAL,
        Some(v) => match read_c_string_bytes(mem, str_) {
            None => EINVAL,
            Some(b) => argz_add_bytes(v, b.as_slice(), granted),
        },
    }
}

/// The outcome of adding entries one by one under the allocator's answers: the
/// vector, and the error that stopped it.
pub open spec fn added_all(b: Seq<u8>, es: Seq<Seq<u8>>, grants: Seq<bool>) -> (Seq<u8>, i32)
    decreases es.len(),
{
    if es.len() == 0 {
        (b, 0)
    } else if no_room(b.len(), es[0].len() + 1, grants.len() > 0 && grants[0]) {
        (b, ENOMEM)
    } else {
        added_all(b + es[0].push(0), es.drop_first(), grants.drop_first())
    }
}

/// Appends the entries of the string at `string`, split at `sep`, to a vector.
/// The allocator is asked once for each entry; `grants` holds its answers, and
/// what is missing there is refused.
pub fn argz_add_sep(
    argz: &mut Option<Vec<u8>>,
    mem: &Memory,
    string: Ptr,
    sep: i32,
    grants: &[bool],
) -> (r: i32)
    requires
        !string.null() ==> readable(mem@, string.at(), string.remaining),
    ensures
        *final(argz) is Some == *old(argz) is Some,
        *old(argz) is None || !given(mem@, string) ==> r == EINVAL && *final(argz) == *old(argz),
        *old(argz) is Some && given(mem@, string) ==> (bytes_of(*final(argz)), r) == added_all(
            bytes_of(*old(argz)),
            sep_entries(text(mem@, string), low_byte(sep)),
            grants@,
        ),
{
    match argz {
        None => EINVAL,
        Some(v) => match read_c_string_bytes(mem, string) {
            None => EINVAL,
            Some(b) => {
                let entries: Vec<Vec<u8>> = argz_sep_entries(b.as_slice(), to_low_byte(sep));
                add_entries(v, &entries, grants)
            },
        },
    }
}

fn add_entries(v: &mut Vec<u8>, entries: &Vec<Vec<u8>>, grants: &[bool]) -> (r: i32)
    ensures
        (final(v)@, r) == added_all(old(v)@, views(entries@), grants@),
{
    let ghost es = views(entries@);
    let mut i: usize = 0;
    proof {
        assert(es.skip(0) =~= es);
        assert(grants@.skip(0) =~= grants@);
    }
    let ghost mut gs = grants@;
    while i < entries.len()
        invariant
            i <= entries@.len(),
            es == views(entries@),
            gs.len() == if i < grants@.len() {
                grants@.len() - i
            } else {
                0
            },
            forall|k: int| 0 <= k < gs.len() ==> #[trigger] gs[k] == grants@[i + k],
            added_all(v@, es.skip(i as int), gs) == added_all(old(v)@, es, grants@),
        decreases entries@.len() - i,
    {
        let granted: bool = i < grants.len() && grants[i];
        let ghost rest = es.skip(i as int);
        assert(rest[0] == entries@[i as int]@);
        assert(rest.drop_first() =~= es.skip(i + 1));
        let rc: i32 = argz_add_bytes(v, entries[i].as_slice(), granted);
        if rc != 0 {
            return rc;
        }
        proof {
            gs = gs.drop_first();
        }
        i += 1;
    }
    assert(es.skip(i as int).len() == 0);
    0
}

/// Appends the bytes of another vector.
pub fn argz_append(argz: &mut Option<Vec<u8>>, buf: &[u8], granted: bool) -> (r: i32)
    ensures
        r == if *old(argz) is None {
            EINVAL
        } else if buf@.len() > 0 && no_room(
            bytes_of(*old(argz)).len(),
            buf@.len(),
            granted,
        ) {
            ENOMEM
        } else {
            0
        },
        *final(argz) is Some == *old(argz) is Some,
        bytes_of(*final(argz)) == if r == 0 {
            bytes_of(*old(argz)) + buf@
        } else {
            bytes_of(*old(argz))
        },
{
    match argz {
        None => EINVAL,
        Some(v) => {
            if buf.len() == 0 {
                assert(v@ + buf@ =~= v@);
                return 0;
            }
            if too_long(v.len(), buf.len(), 0) || !granted {
                return ENOMEM;
            }
            push_bytes(v, buf);
            0
        },
    }
}

/// The vector without the entry at `pos`.
pub open spec fn deleted(b: Seq<u8>, pos: int) -> Seq<u8> {
    if starts_entry(b, pos) && entry_ends(b, pos) {
        b.take(pos) + b.skip(pos + entry_len(b, pos) + 1)
    } else {
        b
    }
}

/// Removes the entry at `pos` from a vector; nothing where none starts there, or
/// no NUL ends it.
pub(crate) fn delete_entry(argz: &mut Vec<u8>, pos: usize)
    ensures
        final(argz)@ == deleted(old(argz)@, pos as int),
{
    match argz_entry_offset(argz.as_slice(), Some(pos)) {
        None => {},
        Some(at) => match argz_entry_len_at(argz.as_slice(), at) {
            None => {},
            Some(n) => {
                let ghost b = argz@;
                let len: usize = argz.len();
                let gap: usize = n + 1;
                let mut i: usize = at + gap;
                while i < len
                    invariant
                        b == old(argz)@,
                        len == b.len(),
                        argz@.len() == len,
                        at + gap <= i <= len,
                        gap >= 1,
                        forall|k: int| 0 <= k < at ==> #[trigger] argz@[k] == b[k],
                        forall|k: int| at <= k < i - gap ==> #[trigger] argz@[k] == b[k + gap],
                        forall|k: int| i <= k < len ==> #[trigger] argz@[k] == b[k],
                    decreases len - i,
                {
                    let c: u8 = argz[i];
                    argz[i - gap] = c;
                    i += 1;
                }
                argz.truncate(len - gap);
                assert(argz@ =~= deleted(b, pos as int));
            },
        },
    }
}

/// Removes the entry at `entry` from a vector; nothing where none starts there,
/// or no NUL ends it.
pub fn argz_delete(argz: &mut Option<Vec<u8>>, entry: Option<usize>)
    ensures
        *final(argz) is Some == *old(argz) is Some,
        bytes_of(*final(argz)) == match entry {
            Some(pos) => deleted(bytes_of(*old(argz)), pos as int),
            None => bytes_of(*old(argz)),
        },
{
    match argz {
        None => {
            assert(deleted(Seq::<u8>::empty(), 0) =~= Seq::<u8>::empty());
        },
        Some(v) => match entry {
            None => {},
            Some(pos) => {
                delete_entry(v, pos);
            },
        },
    }
}

/// The entries from `pos` on, as places; the list ends with `None`.
pub open spec fn places_from(b: Seq<u8>, pos: int) -> Seq<Option<usize>>
    decreases b.len() - pos,
    via places_go_on
{
    if pos < 0 || pos >= b.len() || !entry_ends(b, pos) {
        seq![None]
    } else {
        seq![Some(pos as usize)] + places_from(b, pos + entry_len(b, pos) + 1)
    }
}

#[via_fn]
proof fn places_go_on(b: Seq<u8>, pos: int) {
    if 0 <= pos < b.len() {
        lemma_entry(b, pos);
    }
}

/// The places of the entries, up to one that no NUL ends, with a `None` at the
/// end; nothing for an empty vector.
pub fn argz_extract(argz: &[u8]) -> (r: Vec<Option<usize>>)
    ensures
        r@ == if argz@.len() == 0 {
            seq![]
        } else {
            places_from(argz@, 0)
        },
{
    let ghost b = argz@;
    let mut out: Vec<Option<usize>> = Vec::new();
    if argz.len() == 0 {
        return out;
    }
    let mut pos: usize = 0;
    assert(out@ + places_from(b, 0) =~= places_from(b, 0));
    while pos < argz.len()
        invariant_except_break
            out@ + places_from(b, pos as int) == places_from(b, 0),
        invariant
            b == argz@,
            pos <= b.len(),
        ensures
            out@ + seq![None] == places_from(b, 0),
        decreases b.len() - pos,
    {
        match argz_entry_len_at(argz, pos) {
            None => {
                break;
            },
            Some(n) => {
                let ghost before = out@;
                out.push(Some(pos));
                proof {
                    lemma_entry(b, pos as int);
                    assert(before + places_from(b, pos as int) =~= out@ + places_from(
                        b,
                        pos + n + 1,
                    ));
                }
                pos = pos + n + 1;
            },
        }
    }
    out.push(None);
    out
}

/// The vector with the entry `e` in front of place `pos`.
pub open spec fn inserted(b: Seq<u8>, pos: int, e: Seq<u8>) -> Seq<u8> {
    b.take(pos) + e.push(0) + b.skip(pos)
}

/// Inserts the string at `entry` in front of the entry at `before`, or behind
/// the last one for `None`.
pub fn argz_insert(
    argz: &mut Option<Vec<u8>>,
    before: Option<usize>,
    mem: &Memory,
    entry: Ptr,
    granted: bool,
) -> (r: i32)
    requires
        !entry.null() ==> readable(mem@, entry.at(), entry.remaining),
    ensures
        ({
            let b = bytes_of(*old(argz));
            let pos = match before {
                Some(p) => p as int,
                None => b.len() as int,
            };
            &&& r == if *old(argz) is None || !given(mem@, entry) || (before is Some
                && !starts_entry(b, pos)) {
                EINVAL
            } else if no_room(b.len(), text(mem@, entry).len() + 1, granted) {
                ENOMEM
            } else {
                0
            }
            &&& *final(argz) is Some == *old(argz) is Some
            &&& bytes_of(*final(argz)) == if r == 0 {
                inserted(b, pos, text(mem@, entry))
            } else {
                b
            }
        }),
{
    let pos: usize = match before {
        None => {
            proof {
                let b = bytes_of(*argz);
                let e = text(mem@, entry);
                assert(inserted(b, b.len() as int, e) =~= b + e.push(0));
            }
            return argz_add(argz, mem, entry, granted);
        },
        Some(p) => p,
    };
    match argz {
        None => EINVAL,
        Some(v) => match read_c_string_bytes(mem, entry) {
            None => EINVAL,
            Some(e) => match argz_entry_offset(v.as_slice(), before) {
                None => EINVAL,
                Some(_at) => {
                    if too_long(v.len(), e.len(), 1) || !granted {
                        return ENOMEM;
                    }
                    let ghost b = v@;
                    let mut tail: Vec<u8> = copy_range(v.as_slice(), pos, v.len());
                    v.truncate(pos);
                    push_bytes(v, e.as_slice());
                    v.push(0);
                    v.append(&mut tail);
                    assert(v@ =~= inserted(b, pos as int, e@));
                    0
                },
            },
        },
    }
}

/// `f` stands in `e` at `i`.
pub open spec fn stands(e: Seq<u8>, f: Seq<u8>, i: int) -> bool {
    0 <= i && i + f.len() <= e.len() && e.subrange(i, i + f.len()) == f
}

/// The bytes of `e` from `i` on with each `f` replaced by `w`, from left to
/// right.
pub open spec fn replaced_from(e: Seq<u8>, f: Seq<u8>, w: Seq<u8>, i: int) -> Seq<u8>
    decreases e.len() - i,
{
    if i < 0 || i >= e.len() {
        seq![]
    } else if f.len() > 0 && stands(e, f, i) {
        w + replaced_from(e, f, w, i + f.len())
    } else {
        seq![e[i]] + replaced_from(e, f, w, i + 1)
    }
}

/// `f` is not empty and stands in `e` at `i` or behind it.
pub open spec fn replaces_from(e: Seq<u8>, f: Seq<u8>, i: int) -> bool
    decreases e.len() - i,
{
    if i < 0 || i >= e.len() || f.len() == 0 {
        false
    } else {
        stands(e, f, i) || replaces_from(e, f, i + 1)
    }
}

/// Every entry from `pos` on ends in a NUL.
pub open spec fn all_end(b: Seq<u8>, pos: int) -> bool
    decreases b.len() - pos,
    via all_end_goes_on
{
    pos < 0 || pos >= b.len() || (entry_ends(b, pos) && all_end(b, pos + entry_len(b, pos) + 1))
}

#[via_fn]
proof fn all_end_goes_on(b: Seq<u8>, pos: int) {
    if 0 <= pos < b.len() {
        lemma_entry(b, pos);
    }
}

/// The vector from `pos` on with each `f` in an entry replaced by `w`.
pub open spec fn vector_replaced(b: Seq<u8>, f: Seq<u8>, w: Seq<u8>, pos: int) -> Seq<u8>
    decreases b.len() - pos,
    via vector_replaced_goes_on
{
    if pos < 0 || pos >= b.len() || !entry_ends(b, pos) {
        seq![]
    } else {
        let n = entry_len(b, pos);
        replaced_from(b.subrange(pos, pos + n), f, w, 0).push(0) + vector_replaced(
            b,
            f,
            w,
            pos + n + 1,
        )
    }
}

#[via_fn]
proof fn vector_replaced_goes_on(b: Seq<u8>, f: Seq<u8>, w: Seq<u8>, pos: int) {
    if 0 <= pos < b.len() {
        lemma_entry(b, pos);
    }
}

/// How many entries from `pos` on hold `f`.
pub open spec fn replaced_count(b: Seq<u8>, f: Seq<u8>, pos: int) -> int
    decreases b.len() - pos,
    via replaced_count_goes_on
{
    if pos < 0 || pos >= b.len() || !entry_ends(b, pos) {
        0
    } else {
        let n = entry_len(b, pos);
        (if replaces_from(b.subrange(pos, pos + n), f, 0) {
            1int
        } else {
            0
        }) + replaced_count(b, f, pos + n + 1)
    }
}

#[via_fn]
proof fn replaced_count_goes_on(b: Seq<u8>, f: Seq<u8>, pos: int) {
    if 0 <= pos < b.len() {
        lemma_entry(b, pos);
    }
}

/// Whether the bytes of `f` stand in `e` at `i`.
fn starts_with_at(e: &[u8], i: usize, f: &[u8]) -> (r: bool)
    requires
        i <= e@.len(),
    ensures
        r == stands(e@, f@, i as int),
{
    let len: usize = e.len();
    if f.len() > len - i {
        return false;
    }
    let mut k: usize = 0;
    while k < f.len()
        invariant
            k <= f@.len(),
            len == e@.len(),
            i + f@.len() <= len,
            forall|j: int| 0 <= j < k ==> #[trigger] e@[i + j] == f@[j],
        decreases f@.len() - k,
    {
        if e[i + k] != f[k] {
            assert(e@.subrange(i as int, i + f@.len())[k as int] != f@[k as int]);
            return false;
        }
        k += 1;
    }
    assert forall|j: int| 0 <= j < f@.len() implies e@.subrange(i as int, i + f@.len())[j]
        == f@[j] by {
        assert(e@[i + j] == f@[j]);
    }
    assert(e@.subrange(i as int, i + f@.len()) =~= f@);
    true
}

/// A place where `f` does not stand can be left out.
proof fn lemma_replaces_step(e: Seq<u8>, f: Seq<u8>, i: int)
    requires
        0 <= i < e.len(),
        !stands(e, f, i),
    ensures
        replaces_from(e, f, i) == replaces_from(e, f, i + 1),
{
}

/// `e` with each `f` replaced by `w`, and whether there was one.
fn replace_in_entry(e: &[u8], f: &[u8], w: &[u8]) -> (r: (Vec<u8>, bool))
    ensures
        r.0@ == replaced_from(e@, f@, w@, 0),
        r.1 == replaces_from(e@, f@, 0),
{
    let mut out: Vec<u8> = Vec::new();
    let mut matched: bool = false;
    let mut i: usize = 0;
    assert(out@ + replaced_from(e@, f@, w@, 0) =~= replaced_from(e@, f@, w@, 0));
    while i < e.len()
        invariant
            i <= e@.len(),
            out@ + replaced_from(e@, f@, w@, i as int) == replaced_from(e@, f@, w@, 0),
            matched ==> replaces_from(e@, f@, 0),
            !matched ==> replaces_from(e@, f@, i as int) == replaces_from(e@, f@, 0),
        decreases e@.len() - i,
    {
        let ghost before = out@;
        if f.len() != 0 && starts_with_at(e, i, f) {
            push_bytes(&mut out, w);
            assert(before + replaced_from(e@, f@, w@, i as int) =~= out@ + replaced_from(
                e@,
                f@,
                w@,
                i + f@.len(),
            ));
            i += f.len();
            matched = true;
        } else {
            proof {
                if f@.len() > 0 {
                    lemma_replaces_step(e@, f@, i as int);
                }
            }
            out.push(e[i]);
            assert(before + replaced_from(e@, f@, w@, i as int) =~= out@ + replaced_from(
                e@,
                f@,
                w@,
                i + 1,
            ));
            i += 1;
        }
    }
    assert(out@ + replaced_from(e@, f@, w@, i as int) =~= out@);
    (out, matched)
}

/// The vector with each `f` in an entry replaced by `w`, and how many entries
/// held it, counted around; `None` where an entry has no end.
fn replace_in_vector(b: &[u8], f: &[u8], w: &[u8]) -> (r: Option<(Vec<u8>, u32, bool)>)
    ensures
        r is Some == all_end(b@, 0),
        r matches Some((v, k, any)) ==> v@ == vector_replaced(b@, f@, w@, 0) && k
            == replaced_count(b@, f@, 0) % 0x1_0000_0000 && any == (k != 0),
{
    let mut out: Vec<u8> = Vec::new();
    let mut k: u32 = 0;
    let mut pos: usize = 0;
    let ghost mut count: int = 0;
    assert(out@ + vector_replaced(b@, f@, w@, 0) =~= vector_replaced(b@, f@, w@, 0));
    while pos < b.len()
        invariant
            pos <= b@.len(),
            out@ + vector_replaced(b@, f@, w@, pos as int) == vector_replaced(b@, f@, w@, 0),
            all_end(b@, pos as int) == all_end(b@, 0),
            count >= 0,
            count + replaced_count(b@, f@, pos as int) == replaced_count(b@, f@, 0),
            k == count % 0x1_0000_0000,
        decreases b@.len() - pos,
    {
        match argz_entry_len_at(b, pos) {
            None => {
                return None;
            },
            Some(n) => {
                let ghost before = out@;
                let e: Vec<u8> = copy_range(b, pos, pos + n);
                let (mut part, matched) = replace_in_entry(e.as_slice(), f, w);
                let ghost p = part@;
                out.append(&mut part);
                out.push(0);
                if matched {
                    k = k.wrapping_add(1);
                    proof {
                        count = count + 1;
                    }
                }
                proof {
                    lemma_entry(b@, pos as int);
                    assert(out@ =~= before + p.push(0));
                    assert(before + vector_replaced(b@, f@, w@, pos as int) =~= out@
                        + vector_replaced(b@, f@, w@, pos + n + 1));
                }
                pos = pos + n + 1;
            },
        }
    }
    assert(out@ + vector_replaced(b@, f@, w@, pos as int) =~= out@);
    Some((out, k, k != 0))
}

/// Replaces each occurrence of the string at `str_` inside an entry by the one
/// at `with`. `count`, where the caller gave one, grows by the number of entries
/// that held it, counted around.
pub fn argz_replace(
    argz: &mut Option<Vec<u8>>,
    mem: &Memory,
    str_: Ptr,
    with: Ptr,
    count: &mut Option<u32>,
    granted: bool,
) -> (r: i32)
    requires
        !str_.null() ==> readable(mem@, str_.at(), str_.remaining),
        !with.null() ==> readable(mem@, with.at(), with.remaining),
    ensures
        ({
            let b = bytes_of(*old(argz));
            let f = text(mem@, str_);
            let w = text(mem@, with);
            let bad = *old(argz) is None || !given(mem@, str_) || !given(mem@, with) || !all_end(
                b,
                0,
            );
            let k = replaced_count(b, f, 0) % 0x1_0000_0000;
            &&& r == if bad {
                EINVAL
            } else if k != 0 && !granted {
                ENOMEM
            } else {
                0
            }
            &&& *final(argz) is Some == *old(argz) is Some
            &&& bytes_of(*final(argz)) == if r == 0 && k != 0 {
                vector_replaced(b, f, w, 0)
            } else {
                b
            }
            &&& match *old(count) {
                Some(c) => *final(count) == Some(
                    if bad {
                        c
                    } else {
                        ((c + k) % 0x1_0000_0000) as u32
                    },
                ),
                None => *final(count) is None,
            }
        }),
{
    match argz {
        None => EINVAL,
        Some(v) => match read_c_string_bytes(mem, str_) {
            None => EINVAL,
            Some(f) => match read_c_string_bytes(mem, with) {
                None => EINVAL,
                Some(w) => match replace_in_vector(v.as_slice(), f.as_slice(), w.as_slice()) {
                    None => EINVAL,
                    Some((new, k, any)) => {
                        match *count {
                            Some(c) => {
                                *count = Some(c.wrapping_add(k));
                            },
                            None => {},
                        }
                        if !any {
                            return 0;
                        }
                        if !granted {
                            return ENOMEM;
                        }
                        *v = new;
                        0
                    },
                },
            },
        },
    }
}

/// The vector as one string: each NUL but the last byte becomes `sep`.
pub open spec fn stringified(b: Seq<u8>, sep: u8) -> Seq<u8> {
    Seq::new(
        b.len(),
        |i: int|
            if i + 1 < b.len() && b[i] == 0 {
                sep
            } else {
                b[i]
            },
    )
}

/// Makes one string of a vector: each NUL but the last byte becomes `sep`.
pub fn argz_stringify(argz: &mut Vec<u8>, sep: i32)
    ensures
        final(argz)@ == stringified(old(argz)@, low_byte(sep)),
{
    let len: usize = argz.len();
    if len < 2 {
        assert(argz@ =~= stringified(argz@, low_byte(sep)));
        return;
    }
    let byte: u8 = to_low_byte(sep);
    let mut i: usize = 0;
    while i < len - 1
        invariant
            i <= len - 1,
            len >= 2,
            argz@.len() == len,
            old(argz)@.len() == len,
            byte == low_byte(sep),
            forall|k: int|
                0 <= k < i ==> #[trigger] argz@[k] == stringified(old(argz)@, low_byte(sep))[k],
            forall|k: int| i <= k < len ==> #[trigger] argz@[k] == old(argz)@[k],
        decreases len - i,
    {
        if argz[i] == 0 {
            argz[i] = byte;
        }
        i += 1;
    }
    assert(argz@ =~= stringified(old(argz)@, low_byte(sep)));
}

proof fn lemma_nul_count_concat(a: Seq<u8>, b: Seq<u8>)
    ensures
        nul_count(a + b) == nul_count(a) + nul_count(b),
    decreases b.len(),
{
    if b.len() == 0 {
        assert(a + b =~= a);
    } else {
        assert((a + b).drop_last() =~= a + b.drop_last());
        assert((a + b).last() == b.last());
        lemma_nul_count_concat(a, b.drop_last());
    }
}

proof fn lemma_nul_count_of_entry(e: Seq<u8>)
    requires
        !e.contains(0),
    ensures
        nul_count(e) == 0,
        nul_count(e.push(0)) == 1,
    decreases e.len(),
{
    assert(e.push(0).drop_last() =~= e);
    if e.len() > 0 {
        let d = e.drop_last();
        assert(!d.contains(0)) by {
            if d.contains(0) {
                let i = choose|i: int| 0 <= i < d.len() && d[i] == 0;
                assert(e[i] == 0);
            }
        }
        lemma_nul_count_of_entry(d);
        assert(e.contains(e.last()));
    }
}

/// Adding an entry makes a vector longer by one entry.
pub proof fn law_added_entry_counts(b: Seq<u8>, e: Seq<u8>)
    requires
        !e.contains(0),
    ensures
        nul_count(b + e.push(0)) == nul_count(b) + 1,
{
    lemma_nul_count_concat(b, e.push(0));
    lemma_nul_count_of_entry(e);
}

/// A vector made of entries holds as many entries as it was made of.
pub proof fn law_joined_entries_count(es: Seq<Seq<u8>>)
    requires
        forall|i: int| 0 <= i < es.len() ==> !(#[trigger] es[i]).contains(0),
    ensures
        nul_count(joined(es)) == es.len(),
    decreases es.len(),
{
    if es.len() > 0 {
        assert(!es.last().contains(0));
        law_joined_entries_count(es.drop_last());
        law_added_entry_counts(joined(es.drop_last()), es.last());
    }
}

/// The first entries of a list, joined, stand at the front of all of them.
proof fn lemma_joined_prefix(es: Seq<Seq<u8>>, k: int)
    requires
        0 <= k <= es.len(),
    ensures
        joined(es.take(k)).len() <= joined(es).len(),
        joined(es).take(joined(es.take(k)).len() as int) == joined(es.take(k)),
    decreases es.len(),
{
    if k == es.len() {
        assert(es.take(k) =~= es);
        assert(joined(es).take(joined(es).len() as int) =~= joined(es));
    } else {
        let front = es.drop_last();
        lemma_joined_prefix(front, k);
        assert(front.take(k) =~= es.take(k));
        let n = joined(es.take(k)).len() as int;
        assert(joined(es).take(n) =~= joined(front).take(n));
    }
}

/// Entry `k` of a vector made of entries.
proof fn lemma_joined_entry(es: Seq<Seq<u8>>, k: int)
    requires
        0 <= k < es.len(),
        forall|i: int| 0 <= i < es.len() ==> !(#[trigger] es[i]).contains(0),
    ensures
        ({
            let b = joined(es);
            let at = joined(es.take(k)).len() as int;
            &&& at < b.len()
            &&& entry_len(b, at) == es[k].len()
            &&& entry_ends(b, at)
            &&& b.subrange(at, at + es[k].len()) == es[k]
            &&& at + es[k].len() + 1 == joined(es.take(k + 1)).len()
        }),
{
    let b = joined(es);
    let at = joined(es.take(k)).len() as int;
    let e = es[k];
    lemma_joined_prefix(es, k + 1);
    let front = es.take(k + 1);
    assert(front.drop_last() =~= es.take(k));
    assert(front.last() == e);
    assert(joined(front) == joined(es.take(k)) + e.push(0));
    assert forall|j: int| 0 <= j <= e.len() implies #[trigger] b[at + j] == e.push(0)[j] by {
        assert(b.take(joined(front).len() as int)[at + j] == joined(front)[at + j]);
    }
    assert forall|j: int| at <= j < at + e.len() implies !is_nul()(#[trigger] b[j]) by {
        assert(b[at + (j - at)] == e.push(0)[j - at]);
        assert(e.contains(e[j - at]));
    }
    assert(b[at + e.len()] == 0);
    assert(is_first(b, at, b.len() - at, is_nul(), e.len() as int));
    lemma_find_is(b, at, b.len() - at, is_nul(), e.len() as int);
    assert(b.subrange(at, at + e.len()) =~= e) by {
        assert forall|j: int| 0 <= j < e.len() implies b.subrange(at, at + e.len())[j] == e[j] by {
            assert(b[at + j] == e.push(0)[j]);
        }
    }
}

/// The places of the entries from number `k` on.
proof fn lemma_joined_places(es: Seq<Seq<u8>>, k: int)
    requires
        0 <= k <= es.len(),
        forall|i: int| 0 <= i < es.len() ==> !(#[trigger] es[i]).contains(0),
        joined(es).len() <= usize::MAX,
    ensures
        ({
            let ps = places_from(joined(es), joined(es.take(k)).len() as int);
            &&& ps.len() == es.len() - k + 1
            &&& ps.last() is None
            &&& forall|i: int|
                k <= i < es.len() ==> ps[i - k] == Some(
                    (#[trigger] joined(es.take(i))).len() as usize,
                )
        }),
    decreases es.len() - k,
{
    let b = joined(es);
    let at = joined(es.take(k)).len() as int;
    if k == es.len() {
        assert(es.take(k) =~= es);
    } else {
        lemma_joined_entry(es, k);
        lemma_joined_places(es, k + 1);
        let rest = places_from(b, joined(es.take(k + 1)).len() as int);
        assert(places_from(b, at) == seq![Some(at as usize)] + rest);
        assert forall|i: int| k <= i < es.len() implies places_from(b, at)[i - k] == Some(
            (#[trigger] joined(es.take(i))).len() as usize,
        ) by {
            if i > k {
                assert(rest[i - (k + 1)] == Some(joined(es.take(i)).len() as usize));
            }
        }
    }
}

/// Taking a vector that was made of entries apart gives each of them back, in
/// order.
pub proof fn law_joined_entries_read_back(es: Seq<Seq<u8>>)
    requires
        forall|i: int| 0 <= i < es.len() ==> !(#[trigger] es[i]).contains(0),
        joined(es).len() <= usize::MAX,
    ensures
        ({
            let b = joined(es);
            let ps = places_from(b, 0);
            &&& ps.len() == es.len() + 1
            &&& ps.last() is None
            &&& forall|i: int|
                0 <= i < es.len() ==> {
                    &&& (#[trigger] ps[i]) is Some
                    &&& starts_entry(b, ps[i]->Some_0 as int)
                    &&& b.subrange(
                        ps[i]->Some_0 as int,
                        ps[i]->Some_0 + entry_len(b, ps[i]->Some_0 as int),
                    ) == es[i]
                }
        }),
{
    let b = joined(es);
    assert(es.take(0) =~= seq![]);
    assert(joined(es.take(0)).len() == 0);
    lemma_joined_places(es, 0);
    let ps = places_from(b, 0);
    assert forall|i: int| 0 <= i < es.len() implies {
        &&& (#[trigger] ps[i]) is Some
        &&& starts_entry(b, ps[i]->Some_0 as int)
        &&& b.subrange(
            ps[i]->Some_0 as int,
            ps[i]->Some_0 + entry_len(b, ps[i]->Some_0 as int),
        ) == es[i]
    } by {
        assert(ps[i - 0] == Some(joined(es.take(i)).len() as usize));
        lemma_joined_entry(es, i);
        lemma_joined_prefix(es, i);
        let at = joined(es.take(i)).len() as int;
        if i > 0 {
            assert(es.take(i).last() == es[i - 1]);
            assert(joined(es.take(i)).last() == 0);
            assert(b.take(at)[at - 1] == b[at - 1]);
        }
    }
}

/// Deleting an entry that was just inserted gives the vector back.
pub proof fn law_delete_undoes_insert(b: Seq<u8>, pos: int, e: Seq<u8>)
    requires
        0 <= pos <= b.len(),
        pos == 0 || b[pos - 1] == 0,
        !e.contains(0),
    ensures
        deleted(inserted(b, pos, e), pos) == b,
{
    let v = inserted(b, pos, e);
    assert forall|j: int| pos <= j < pos + e.len() implies #[trigger] v[j] != 0 by {
        assert(v[j] == e[j - pos]);
        assert(e.contains(e[j - pos]));
    }
    assert(v[pos + e.len()] == 0);
    assert(is_first(v, pos, v.len() - pos, is_nul(), e.len() as int));
    lemma_find_is(v, pos, v.len() - pos, is_nul(), e.len() as int);
    assert(deleted(v, pos) =~= b);
}

/// No entry of a split string holds the separator.
pub proof fn law_split_entries_hold_no_separator(b: Seq<u8>, sep: u8, pos: int)
    ensures
        forall|i: int|
            0 <= i < runs_from(b, sep, pos).len() ==> !(#[trigger] runs_from(
                b,
                sep,
                pos,
            )[i]).contains(sep),
    decreases b.len() - pos,
{
    if 0 <= pos < b.len() {
        lemma_find(b, pos, b.len() - pos, is_not_byte(sep));
        let st = pos + find(b, pos, b.len() - pos, is_not_byte(sep));
        if st < b.len() {
            lemma_find(b, st, b.len() - st, is_byte(sep));
            let n = find(b, st, b.len() - st, is_byte(sep));
            let en = st + n;
            let run = b.subrange(st, en);
            assert(!run.contains(sep)) by {
                if run.contains(sep) {
                    let k = choose|k: int| 0 <= k < run.len() && run[k] == sep;
                    assert(!is_byte(sep)(b[st + k]));
                }
            }
            assert(b[st] != sep);
            assert(n > 0);
            law_split_entries_hold_no_separator(b, sep, en);
            let rest = runs_from(b, sep, en);
            let all = runs_from(b, sep, pos);
            assert(all =~= seq![run] + rest);
            assert forall|i: int| 0 <= i < all.len() implies !(#[trigger] all[i]).contains(sep) by {
                if i > 0 {
                    assert(all[i] == rest[i - 1]);
                }
            }
        }
    }
}

/// A vector made one string holds no NUL before its last byte.
pub proof fn law_stringified_is_one_string(b: Seq<u8>, sep: u8)
    requires
        sep != 0,
    ensures
        forall|i: int| 0 <= i < b.len() - 1 ==> #[trigger] stringified(b, sep)[i] != 0,
        b.len() > 0 ==> stringified(b, sep).last() == b.last(),
{
}

/// What is replaced from a place on does not depend on the bytes in front.
proof fn lemma_replaced_shift(e: Seq<u8>, f: Seq<u8>, w: Seq<u8>, k: int, i: int)
    requires
        0 <= k <= i <= e.len(),
    ensures
        replaced_from(e, f, w, i) == replaced_from(e.skip(k), f, w, i - k),
    decreases e.len() - i,
{
    let t = e.skip(k);
    if i < e.len() {
        if i + f.len() <= e.len() {
            assert(e.subrange(i, i + f.len()) =~= t.subrange(i - k, i - k + f.len()));
        }
        if f.len() > 0 && stands(e, f, i) {
            lemma_replaced_shift(e, f, w, k, i + f.len());
        } else {
            lemma_replaced_shift(e, f, w, k, i + 1);
        }
    }
}

/// Bytes at which nothing to replace stands are kept.
proof fn lemma_replaced_keeps(e: Seq<u8>, f: Seq<u8>, w: Seq<u8>, k: int, i: int)
    requires
        0 <= k <= i <= e.len(),
        forall|j: int| k <= j < i ==> f.len() == 0 || !#[trigger] stands(e, f, j),
    ensures
        replaced_from(e, f, w, k) == e.subrange(k, i) + replaced_from(e, f, w, i),
    decreases i - k,
{
    if k < i {
        assert(f.len() == 0 || !stands(e, f, k));
        lemma_replaced_keeps(e, f, w, k + 1, i);
        assert(seq![e[k]] + e.subrange(k + 1, i) =~= e.subrange(k, i));
        assert(replaced_from(e, f, w, k) =~= e.subrange(k, i) + replaced_from(e, f, w, i));
    } else {
        assert(replaced_from(e, f, w, k) =~= e.subrange(k, i) + replaced_from(e, f, w, i));
    }
}

/// Where `f` stands in an entry first at `i`, the bytes in front of it are kept,
/// `w` takes its place, and what lies behind it is replaced in the same way.
pub proof fn law_first_occurrence_is_replaced(e: Seq<u8>, f: Seq<u8>, w: Seq<u8>, i: int)
    requires
        f.len() > 0,
        0 <= i <= e.len() - f.len(),
        e.subrange(i, i + f.len()) == f,
        forall|j: int| 0 <= j < i ==> #[trigger] e.subrange(j, j + f.len()) != f,
    ensures
        replaced_from(e, f, w, 0) == e.take(i) + w + replaced_from(e.skip(i + f.len()), f, w, 0),
        replaces_from(e, f, 0),
{
    assert forall|j: int| 0 <= j < i implies f.len() == 0 || !#[trigger] stands(e, f, j) by {
        assert(e.subrange(j, j + f.len()) != f);
    }
    lemma_replaced_keeps(e, f, w, 0, i);
    lemma_replaced_shift(e, f, w, i + f.len(), i + f.len());
    assert(e.subrange(0, i) =~= e.take(i));
    assert(replaced_from(e, f, w, 0) =~= e.take(i) + w + replaced_from(
        e.skip(i + f.len()),
        f,
        w,
        0,
    ));
    lemma_replaces_iff(e, f, 0);
    assert(stands(e, f, i));
}

/// An entry is changed only where `f` stands in it.
proof fn lemma_replaces_iff(e: Seq<u8>, f: Seq<u8>, i: int)
    requires
        0 <= i,
        f.len() > 0,
    ensures
        replaces_from(e, f, i) <==> exists|j: int| i <= j && #[trigger] stands(e, f, j),
    decreases e.len() - i,
{
    if i < e.len() {
        lemma_replaces_iff(e, f, i + 1);
        if exists|j: int| i <= j && #[trigger] stands(e, f, j) {
            let j = choose|j: int| i <= j && #[trigger] stands(e, f, j);
            assert(stands(e, f, i) || i + 1 <= j);
        }
    }
}

/// An entry in which `f` stands nowhere, and every entry where `f` is empty, stays
/// as it is, and is not counted as replaced.
pub proof fn law_entry_without_occurrence_is_kept(e: Seq<u8>, f: Seq<u8>, w: Seq<u8>)
    requires
        f.len() == 0 || forall|j: int|
            0 <= j <= e.len() - f.len() ==> #[trigger] e.subrange(j, j + f.len()) != f,
    ensures
        replaced_from(e, f, w, 0) == e,
        !replaces_from(e, f, 0),
{
    assert forall|j: int| 0 <= j < e.len() implies f.len() == 0 || !#[trigger] stands(e, f, j) by {
        if f.len() > 0 && stands(e, f, j) {
            assert(e.subrange(j, j + f.len()) != f);
        }
    }
    lemma_replaced_keeps(e, f, w, 0, e.len() as int);
    assert(replaced_from(e, f, w, 0) =~= e);
    if f.len() > 0 {
        lemma_replaces_iff(e, f, 0);
        if exists|j: int| 0 <= j && #[trigger] stands(e, f, j) {
            let j = choose|j: int| 0 <= j && #[trigger] stands(e, f, j);
            assert(e.subrange(j, j + f.len()) != f);
        }
    }
}

/// Where `f` stands in an entry once, only those bytes give way to `w`.
pub proof fn law_only_occurrence_is_replaced(a: Seq<u8>, f: Seq<u8>, b: Seq<u8>, w: Seq<u8>)
    requires
        f.len() > 0,
        forall|j: int|
            0 <= j <= a.len() + b.len() && j != a.len() ==> #[trigger] (a + f + b).subrange(
                j,
                j + f.len(),
            ) != f,
    ensures
        replaced_from(a + f + b, f, w, 0) == a + w + b,
{
    let e = a + f + b;
    let i = a.len() as int;
    assert(e.subrange(i, i + f.len()) =~= f);
    law_first_occurrence_is_replaced(e, f, w, i);
    assert(e.skip(i + f.len()) =~= b);
    assert(e.take(i) =~= a);
    assert forall|j: int| 0 <= j <= b.len() - f.len() implies #[trigger] b.subrange(j, j + f.len())
        != f by {
        let k = i + f.len() + j;
        assert(e.subrange(k, k + f.len()) =~= b.subrange(j, j + f.len()));
    }
    law_entry_without_occurrence_is_kept(b, f, w);
}

/// To replace bytes by themselves changes nothing.
pub proof fn law_replacing_by_itself_changes_nothing(e: Seq<u8>, f: Seq<u8>)
    ensures
        replaced_from(e, f, f, 0) == e,
{
    lemma_replaced_by_itself(e, f, 0);
    assert(e.skip(0) =~= e);
}

proof fn lemma_replaced_by_itself(e: Seq<u8>, f: Seq<u8>, i: int)
    requires
        0 <= i <= e.len(),
    ensures
        replaced_from(e, f, f, i) == e.skip(i),
    decreases e.len() - i,
{
    if i < e.len() {
        if f.len() > 0 && stands(e, f, i) {
            lemma_replaced_by_itself(e, f, i + f.len());
            assert(f + e.skip(i + f.len()) =~= e.skip(i)) by {
                assert(e.subrange(i, i + f.len()) == f);
                assert(e.subrange(i, i + f.len()) + e.skip(i + f.len()) =~= e.skip(i));
            }
        } else {
            lemma_replaced_by_itself(e, f, i + 1);
            assert(seq![e[i]] + e.skip(i + 1) =~= e.skip(i));
        }
    } else {
        assert(e.skip(i) =~= seq![]);
    }
}

/// The replacement in the entries from number `k` on.
proof fn lemma_vector_replaced(es: Seq<Seq<u8>>, f: Seq<u8>, w: Seq<u8>, k: int)
    requires
        0 <= k <= es.len(),
        forall|i: int| 0 <= i < es.len() ==> !(#[trigger] es[i]).contains(0),
    ensures
        ({
            let rs = Seq::new(es.len(), |i: int| replaced_from(es[i], f, w, 0));
            &&& joined(rs) == joined(rs.take(k)) + vector_replaced(
                joined(es),
                f,
                w,
                joined(es.take(k)).len() as int,
            )
        }),
    decreases es.len() - k,
{
    let rs = Seq::new(es.len(), |i: int| replaced_from(es[i], f, w, 0));
    let at = joined(es.take(k)).len() as int;
    if k == es.len() {
        assert(es.take(k) =~= es);
        assert(rs.take(k) =~= rs);
        assert(joined(rs) =~= joined(rs) + vector_replaced(joined(es), f, w, at));
    } else {
        lemma_joined_entry(es, k);
        lemma_vector_replaced(es, f, w, k + 1);
        let next = joined(es.take(k + 1)).len() as int;
        assert(rs.take(k + 1).drop_last() =~= rs.take(k));
        assert(joined(rs.take(k + 1)) == joined(rs.take(k)) + rs[k].push(0));
        assert(vector_replaced(joined(es), f, w, at) == rs[k].push(0) + vector_replaced(
            joined(es),
            f,
            w,
            next,
        ));
        assert(joined(rs) =~= joined(rs.take(k)) + vector_replaced(joined(es), f, w, at));
    }
}

/// In a vector made of entries each entry is replaced on its own, and the entries
/// stay in order.
pub proof fn law_replacing_goes_entry_by_entry(es: Seq<Seq<u8>>, f: Seq<u8>, w: Seq<u8>)
    requires
        forall|i: int| 0 <= i < es.len() ==> !(#[trigger] es[i]).contains(0),
    ensures
        vector_replaced(joined(es), f, w, 0) == joined(
            Seq::new(es.len(), |i: int| replaced_from(es[i], f, w, 0)),
        ),
{
    let rs = Seq::new(es.len(), |i: int| replaced_from(es[i], f, w, 0));
    lemma_vector_replaced(es, f, w, 0);
    assert(es.take(0) =~= seq![]);
    assert(rs.take(0) =~= seq![]);
    assert(joined(rs) =~= vector_replaced(joined(es), f, w, 0));
}

/// The number of entries from number `k` on that hold `f`.
proof fn lemma_replaced_count(es: Seq<Seq<u8>>, f: Seq<u8>, k: int)
    requires
        0 <= k <= es.len(),
        forall|i: int| 0 <= i < es.len() ==> !(#[trigger] es[i]).contains(0),
        f.len() > 0,
    ensures
        replaced_count(joined(es), f, joined(es.take(k)).len() as int) == es.skip(k).filter(
            |e: Seq<u8>|
                exists|j: int| 0 <= j <= e.len() - f.len() && #[trigger] e.subrange(j, j + f.len()) == f,
        ).len(),
    decreases es.len() - k,
{
    let holds = |e: Seq<u8>|
        exists|j: int| 0 <= j <= e.len() - f.len() && #[trigger] e.subrange(j, j + f.len()) == f;
    let at = joined(es.take(k)).len() as int;
    reveal(Seq::filter);
    if k == es.len() {
        assert(es.take(k) =~= es);
        assert(es.skip(k) =~= seq![]);
        assert(es.skip(k).filter(holds).len() == 0);
    } else {
        lemma_joined_entry(es, k);
        lemma_replaced_count(es, f, k + 1);
        let e = es[k];
        lemma_replaces_iff(e, f, 0);
        if replaces_from(e, f, 0) {
            let j = choose|j: int| 0 <= j && #[trigger] stands(e, f, j);
            assert(e.subrange(j, j + f.len()) == f);
            assert(holds(e));
        } else {
            if holds(e) {
                let j = choose|j: int|
                    0 <= j <= e.len() - f.len() && #[trigger] e.subrange(j, j + f.len()) == f;
                assert(stands(e, f, j));
            }
        }
        assert(es.skip(k) =~= seq![e] + es.skip(k + 1));
        Seq::filter_distributes_over_add(seq![e], es.skip(k + 1), holds);
        assert(seq![e].filter(holds).len() == if holds(e) { 1int } else { 0 }) by {
            assert(seq![e].drop_last() =~= seq![]);
            assert(seq![e].drop_last().filter(holds).len() == 0);
        }
    }
}

/// A replacement counts the entries in which `f` stands, each once.
pub proof fn law_replaced_entries_are_counted(es: Seq<Seq<u8>>, f: Seq<u8>)
    requires
        forall|i: int| 0 <= i < es.len() ==> !(#[trigger] es[i]).contains(0),
        f.len() > 0,
    ensures
        replaced_count(joined(es), f, 0) == es.filter(
            |e: Seq<u8>|
                exists|j: int| 0 <= j <= e.len() - f.len() && #[trigger] e.subrange(j, j + f.len()) == f,
        ).len(),
{
    lemma_replaced_count(es, f, 0);
    assert(es.take(0) =~= seq![]);
    assert(es.skip(0) =~= es);
}

/// The runs from a place on do not depend on the bytes in front.
proof fn lemma_runs_shift(b: Seq<u8>, sep: u8, k: int, pos: int)
    requires
        0 <= k <= pos <= b.len(),
    ensures
        runs_from(b, sep, pos) == runs_from(b.skip(k), sep, pos - k),
    decreases b.len() - pos,
{
    let t = b.skip(k);
    if pos < b.len() {
        lemma_find(b, pos, b.len() - pos, is_not_byte(sep));
        let n = find(b, pos, b.len() - pos, is_not_byte(sep));
        assert(is_first(t, pos - k, t.len() - (pos - k), is_not_byte(sep), n)) by {
            assert forall|j: int| pos - k <= j < pos - k + n implies !is_not_byte(sep)(
                #[trigger] t[j],
            ) by {
                assert(!is_not_byte(sep)(b[j + k]));
            }
        }
        lemma_find_is(t, pos - k, t.len() - (pos - k), is_not_byte(sep), n);
        let st = pos + n;
        if st < b.len() {
            lemma_find(b, st, b.len() - st, is_byte(sep));
            let m = find(b, st, b.len() - st, is_byte(sep));
            assert(is_first(t, st - k, t.len() - (st - k), is_byte(sep), m)) by {
                assert forall|j: int| st - k <= j < st - k + m implies !is_byte(sep)(
                    #[trigger] t[j],
                ) by {
                    assert(!is_byte(sep)(b[j + k]));
                }
            }
            lemma_find_is(t, st - k, t.len() - (st - k), is_byte(sep), m);
            assert(b.subrange(st, st + m) =~= t.subrange(st - k, st - k + m));
            assert(b[st] != sep);
            if m == 0 {
                assert(is_byte(sep)(b[st]));
            }
            lemma_runs_shift(b, sep, k, st + m);
        }
    }
}

/// A separator in front of a run is passed over.
proof fn lemma_runs_pass(b: Seq<u8>, sep: u8, pos: int)
    requires
        0 <= pos < b.len(),
        b[pos] == sep,
    ensures
        runs_from(b, sep, pos) == runs_from(b, sep, pos + 1),
{
    lemma_find(b, pos, b.len() - pos, is_not_byte(sep));
    let n = find(b, pos, b.len() - pos, is_not_byte(sep));
    assert(!is_not_byte(sep)(b[pos]));
    assert(n > 0);
    if pos + 1 < b.len() {
        assert(is_first(b, pos + 1, b.len() - (pos + 1), is_not_byte(sep), n - 1));
        lemma_find_is(b, pos + 1, b.len() - (pos + 1), is_not_byte(sep), n - 1);
    }
}

/// A string without separators is one entry, and an empty one none.
pub proof fn law_string_without_separator_is_one_entry(a: Seq<u8>, sep: u8)
    requires
        !a.contains(sep),
    ensures
        sep_entries(a, sep) == if a.len() == 0 {
            seq![]
        } else {
            seq![a]
        },
{
    if a.len() > 0 {
        assert(a.contains(a.last()));
        lemma_first_run(a, seq![], sep);
        assert(a + seq![] =~= a);
        assert(sep_entries(a, sep) =~= seq![a]);
    }
}

/// The first run of a string, which ends at a separator or at the end.
proof fn lemma_first_run(a: Seq<u8>, b: Seq<u8>, sep: u8)
    requires
        !a.contains(sep),
        a.len() > 0,
        b.len() > 0 ==> b[0] == sep,
    ensures
        runs_from(a + b, sep, 0) == seq![a] + runs_from(b, sep, 0),
{
    let s = a + b;
    assert(a.contains(a[0]));
    assert(is_first(s, 0, s.len() as int, is_not_byte(sep), 0));
    lemma_find_is(s, 0, s.len() as int, is_not_byte(sep), 0);
    assert forall|j: int| 0 <= j < a.len() implies !is_byte(sep)(#[trigger] s[j]) by {
        assert(a.contains(a[j]));
    }
    assert(is_first(s, 0, s.len() as int, is_byte(sep), a.len() as int));
    lemma_find_is(s, 0, s.len() as int, is_byte(sep), a.len() as int);
    assert(s.subrange(0, a.len() as int) =~= a);
    lemma_runs_shift(s, sep, a.len() as int, a.len() as int);
    assert(s.skip(a.len() as int) =~= b);
}

/// What stands in front of the first separator is an entry of its own, unless it
/// is empty, and the entries of what lies behind follow; a separator at the end
/// gives one empty entry.
pub proof fn law_split_at_the_first_separator(a: Seq<u8>, b: Seq<u8>, sep: u8)
    requires
        !a.contains(sep),
    ensures
        ({
            let rest = if b.len() == 0 {
                seq![seq![]]
            } else {
                sep_entries(b, sep)
            };
            sep_entries(a + seq![sep] + b, sep) == if a.len() == 0 {
                rest
            } else {
                seq![a] + rest
            }
        }),
{
    let t = seq![sep] + b;
    let s = a + seq![sep] + b;
    assert(s =~= a + t);
    lemma_runs_pass(t, sep, 0);
    lemma_runs_shift(t, sep, 1, 1);
    assert(t.skip(1) =~= b);
    let rest = if b.len() == 0 {
        seq![seq![]]
    } else {
        sep_entries(b, sep)
    };
    if a.len() > 0 {
        lemma_first_run(a, t, sep);
        assert(runs_from(s, sep, 0) == seq![a] + runs_from(b, sep, 0));
        if b.len() > 0 {
            assert(s.last() == b.last());
        } else {
            assert(s.last() == sep);
        }
        assert(sep_entries(s, sep) =~= seq![a] + rest);
    } else {
        assert(s =~= t);
        if b.len() > 0 {
            assert(s.last() == b.last());
        }
        assert(sep_entries(s, sep) =~= rest);
    }
}

/// A vector made one string has the separator in place of each NUL but the last
/// byte, and every other byte as it was.
pub proof fn law_stringified_bytes(b: Seq<u8>, sep: u8, i: int)
    requires
        0 <= i < b.len(),
    ensures
        stringified(b, sep).len() == b.len(),
        b[i] != 0 ==> stringified(b, sep)[i] == b[i],
        i == b.len() - 1 ==> stringified(b, sep)[i] == b[i],
        b[i] == 0 && i < b.len() - 1 ==> stringified(b, sep)[i] == sep,
{
}

/// Nothing is deleted where no entry starts, or where no NUL ends it.
pub proof fn law_delete_needs_an_entry(b: Seq<u8>, pos: int)
    requires
        0 <= pos,
        pos >= b.len() || (pos > 0 && b[pos - 1] != 0) || forall|j: int|
            pos <= j < b.len() ==> #[trigger] b[j] != 0,
    ensures
        deleted(b, pos) == b,
{
    if pos < b.len() {
        lemma_find(b, pos, b.len() - pos, is_nul());
        if entry_ends(b, pos) {
            assert(b[pos + entry_len(b, pos)] == 0);
        }
    }
}

/// Deleting entry `k` of a vector made of entries leaves the others in order.
pub proof fn law_delete_takes_one_entry(a: Seq<Seq<u8>>, e: Seq<u8>, b: Seq<Seq<u8>>)
    requires
        forall|i: int| 0 <= i < a.len() ==> !(#[trigger] a[i]).contains(0),
        !e.contains(0),
    ensures
        deleted(joined(a) + e.push(0) + joined(b), joined(a).len() as int) == joined(a) + joined(b),
{
    let v = joined(a) + joined(b);
    let pos = joined(a).len() as int;
    if a.len() > 0 {
        assert(joined(a).last() == 0);
        assert(v[pos - 1] == 0);
    }
    law_delete_undoes_insert(v, pos, e);
    assert(inserted(v, pos, e) =~= joined(a) + e.push(0) + joined(b));
}

/// Entries that are added one by one stand behind the vector in order: all of
/// them where the allocator grants each and there is room, and else those before
/// the first that is refused.
pub proof fn law_added_entries_follow_in_order(
    b: Seq<u8>,
    es: Seq<Seq<u8>>,
    grants: Seq<bool>,
    k: int,
)
    requires
        0 <= k <= es.len(),
        k <= grants.len(),
        forall|i: int| 0 <= i < k ==> #[trigger] grants[i],
        b.len() + joined(es.take(k)).len() <= usize::MAX,
        k < es.len() ==> k == grants.len() || !grants[k] || b.len() + joined(es.take(k)).len()
            + es[k].len() + 1 > usize::MAX,
    ensures
        added_all(b, es, grants) == (
            b + joined(es.take(k)),
            if k < es.len() {
                12i32
            } else {
                0
            },
        ),
    decreases es.len(),
{
    if k == 0 {
        assert(es.take(0) =~= seq![]);
        assert(b + joined(es.take(0)) =~= b);
    } else {
        let e = es[0];
        let rest = es.drop_first();
        lemma_joined_first(es.take(k));
        assert(es.take(k)[0] == e);
        assert(es.take(k).drop_first() =~= rest.take(k - 1));
        assert(grants[0]);
        assert forall|i: int| 0 <= i < k - 1 implies #[trigger] grants.drop_first()[i] by {
            assert(grants[i + 1]);
        }
        law_added_entries_follow_in_order(b + e.push(0), rest, grants.drop_first(), k - 1);
        assert(b + joined(es.take(k)) =~= b + e.push(0) + joined(rest.take(k - 1)));
    }
}

/// The entries joined, taken from the front.
proof fn lemma_joined_first(es: Seq<Seq<u8>>)
    requires
        es.len() > 0,
    ensures
        joined(es) == es[0].push(0) + joined(es.drop_first()),
    decreases es.len(),
{
    if es.len() == 1 {
        assert(es.drop_last() =~= seq![]);
        assert(es.drop_first() =~= seq![]);
        assert(joined(es.drop_first()) =~= seq![]);
        assert(joined(es) =~= es[0].push(0) + joined(es.drop_first()));
    } else {
        lemma_joined_first(es.drop_last());
        assert(es.drop_first().drop_last() =~= es.drop_last().drop_first());
        assert(joined(es) =~= es[0].push(0) + joined(es.drop_first()));
    }
}

/// A list of pointers gives its strings in order, up to the first null pointer.
pub proof fn law_argv_entries_in_order(m: Seq<u8>, argv: Seq<Ptr>, n: int)
    requires
        0 <= n <= argv.len(),
        forall|i: int| 0 <= i < n ==> (#[trigger] argv[i]).addr != 0,
        n < argv.len() ==> argv[n].addr == 0,
    ensures
        argv_entries(m, argv).len() == n,
        forall|i: int|
            0 <= i < n ==> #[trigger] argv_entries(m, argv)[i] == c_bytes(
                m,
                argv[i].at(),
                argv[i].remaining,
            ),
    decreases argv.len(),
{
    if n > 0 {
        assert(argv[0].addr != 0);
        let rest = argv.drop_first();
        assert forall|i: int| 0 <= i < n - 1 implies (#[trigger] rest[i]).addr != 0 by {
            assert(argv[i + 1].addr != 0);
        }
        law_argv_entries_in_order(m, rest, n - 1);
        let all = argv_entries(m, argv);
        assert(all == seq![text(m, argv[0])] + argv_entries(m, rest));
        assert forall|i: int| 0 <= i < n implies #[trigger] all[i] == c_bytes(
            m,
            argv[i].at(),
            argv[i].remaining,
        ) by {
            if i > 0 {
                assert(all[i] == argv_entries(m, rest)[i - 1]);
            }
        }
    }
}

/// Going from each entry of a vector made of entries to the next one meets all of
/// them in order, and ends behind the last.
pub proof fn law_next_entry_follows(es: Seq<Seq<u8>>, k: int)
    requires
        forall|i: int| 0 <= i < es.len() ==> !(#[trigger] es[i]).contains(0),
        joined(es).len() <= usize::MAX,
        0 <= k < es.len(),
    ensures
        next_place(joined(es), None) == Some(0usize),
        next_place(joined(es), Some(joined(es.take(k)).len() as usize)) == if k + 1 < es.len() {
            Some((joined(es.take(k)).len() + es[k].len() + 1) as usize)
        } else {
            None::<usize>
        },
        joined(es).subrange(
            joined(es.take(k)).len() as int,
            (joined(es.take(k)).len() + es[k].len()) as int,
        ) == es[k],
        joined(es)[(joined(es.take(k)).len() + es[k].len()) as int] == 0,
{
    lemma_joined_entry(es, k);
    let b = joined(es);
    let at = joined(es.take(k)).len() as int;
    lemma_entry(b, at);
    lemma_joined_prefix(es, k + 1);
    if k + 1 < es.len() {
        lemma_joined_entry(es, k + 1);
    } else {
        assert(es.take(k + 1) =~= es);
    }
}

/// A vector grows where its new length is a size and the allocator grants it.
pub proof fn law_room_to_grow(len: nat, more: nat)
    ensures
        no_room(len, more, false),
        no_room(len, more, true) <==> len + more > usize::MAX,
{
}

/// The length of an entry: no NUL stands in it, and one stands behind it where it
/// has an end. Entries start at the front and behind each NUL.
pub proof fn law_entry_ends_at_the_nul(b: Seq<u8>, pos: int)
    requires
        0 <= pos < b.len(),
    ensures
        0 <= entry_len(b, pos) <= b.len() - pos,
        forall|j: int| pos <= j < pos + entry_len(b, pos) ==> #[trigger] b[j] != 0,
        entry_ends(b, pos) <==> exists|j: int| pos <= j < b.len() && #[trigger] b[j] == 0,
        entry_ends(b, pos) ==> b[pos + entry_len(b, pos)] == 0,
        starts_entry(b, pos) <==> pos == 0 || b[pos - 1] == 0,
{
    lemma_find(b, pos, b.len() - pos, is_nul());
    let n = entry_len(b, pos);
    assert forall|j: int| pos <= j < pos + n implies #[trigger] b[j] != 0 by {
        assert(!is_nul()(b[j]));
    }
    if entry_ends(b, pos) {
        assert(b[pos + n] == 0);
    }
}

/// An inserted entry stands at its place with its NUL, with what was in front of
/// the place in front and the rest behind.
pub proof fn law_inserted_entry_stands_at_its_place(b: Seq<u8>, pos: int, e: Seq<u8>)
    requires
        0 <= pos <= b.len(),
    ensures
        inserted(b, pos, e).len() == b.len() + e.len() + 1,
        inserted(b, pos, e).take(pos) == b.take(pos),
        inserted(b, pos, e).subrange(pos, pos + e.len()) == e,
        inserted(b, pos, e)[pos + e.len()] == 0,
        inserted(b, pos, e).skip(pos + e.len() + 1) == b.skip(pos),
{
    let v = inserted(b, pos, e);
    assert(v.take(pos) =~= b.take(pos));
    assert(v.subrange(pos, pos + e.len()) =~= e);
    assert(v.skip(pos + e.len() + 1) =~= b.skip(pos));
}

/// Every entry of a vector has an end exactly where the vector is empty or ends in
/// a NUL.
pub proof fn law_all_entries_end_where_the_last_does(b: Seq<u8>)
    ensures
        all_end(b, 0) <==> b.len() == 0 || b.last() == 0,
{
    lemma_all_end(b, 0);
}

proof fn lemma_all_end(b: Seq<u8>, pos: int)
    requires
        0 <= pos <= b.len(),
    ensures
        all_end(b, pos) <==> pos == b.len() || b.last() == 0,
    decreases b.len() - pos,
{
    if pos < b.len() {
        law_entry_ends_at_the_nul(b, pos);
        if entry_ends(b, pos) {
            lemma_all_end(b, pos + entry_len(b, pos) + 1);
        } else if b.last() == 0 {
            assert(b[b.len() - 1] == 0);
        }
    }
}

} // verus!
