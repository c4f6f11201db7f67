//! Environment vectors: argument vectors whose entries are names, with or
//! without a value behind an equals sign.
use vstd::prelude::*;
use crate::argz::{
    all_end,
    argz_add_bytes,
    argz_entry_len_at,
    byte_from,
    bytes_of,
    delete_entry,
    deleted,
    entry_ends,
    entry_len,
    given,
    lemma_entry,
    no_room,
    starts_entry,
    text,
};
use crate::errors::{EINVAL, ENOMEM};
use crate::memory::{Memory, Ptr};
use crate::scan::{
    find,
    is_first,
    is_nul,
    lemma_find,
    lemma_find_is,
    read_c_string_bytes,
    readable,
};
use crate::search::is_byte;
use crate::text::push_bytes;

verus! {

/// The entry of `n` bytes at `pos` is for `name`: it is the name, alone or with
/// a value.
pub open spec fn is_for(b: Seq<u8>, pos: int, n: int, name: Seq<u8>) -> bool {
    &&& name.len() <= n
    &&& b.subrange(pos, pos + name.len()) == name
    &&& name.len() == n || b[pos + name.len()] == 0x3d
}

/// The first entry from `pos` on that is for `name`, up to one that no NUL ends.
pub open spec fn entry_for(b: Seq<u8>, name: Seq<u8>, pos: int) -> Option<int>
    decreases b.len() - pos,
    via entry_for_goes_on
{
    if pos < 0 || pos >= b.len() || !entry_ends(b, pos) {
        None
    } else if is_for(b, pos, entry_len(b, pos), name) {
        Some(pos)
    } else {
        entry_for(b, name, pos + entry_len(b, pos) + 1)
    }
}

#[via_fn]
proof fn entry_for_goes_on(b: Seq<u8>, name: Seq<u8>, pos: int) {
    if 0 <= pos < b.len() {
        lemma_entry(b, pos);
    }
}

/// What [`entry_for`] finds is an entry for the name.
pub proof fn lemma_entry_for(b: Seq<u8>, name: Seq<u8>, pos: int)
    requires
        0 <= pos <= b.len(),
        pos == 0 || b[pos - 1] == 0,
    ensures
        entry_for(b, name, pos) matches Some(i) ==> pos <= i < b.len() && starts_entry(b, i)
            && entry_ends(b, i) && is_for(b, i, entry_len(b, i), name),
    decreases b.len() - pos,
{
    if pos < b.len() && entry_ends(b, pos) && !is_for(b, pos, entry_len(b, pos), name) {
        lemma_entry(b, pos);
        lemma_entry_for(b, name, pos + entry_len(b, pos) + 1);
    }
}

fn matches_name(envz: &[u8], pos: usize, n: usize, name: &[u8]) -> (r: bool)
    requires
        pos + n <= envz@.len(),
    ensures
        r == is_for(envz@, pos as int, n as int, name@),
{
    let len: usize = envz.len();
    let k: usize = name.len();
    if k > n {
        return false;
    }
    let mut i: usize = 0;
    while i < k
        invariant
            i <= k,
            k == name@.len(),
            k <= n,
            len == envz@.len(),
            pos + n <= len,
            forall|j: int| 0 <= j < i ==> #[trigger] envz@[pos + j] == name@[j],
        decreases k - i,
    {
        if envz[pos + i] != name[i] {
            assert(envz@.subrange(pos as int, pos + name@.len())[i as int] != name@[i as int]);
            return false;
        }
        i += 1;
    }
    assert forall|j: int| 0 <= j < name@.len() implies envz@.subrange(
        pos as int,
        pos + name@.len(),
    )[j] == name@[j] by {
        assert(envz@[pos + j] == name@[j]);
    }
    assert(envz@.subrange(pos as int, pos + name@.len()) =~= name@);
    k == n || envz[pos + k] == 0x3d
}

/// The first entry for `name`.
fn find_entry(envz: &[u8], name: &[u8]) -> (r: Option<usize>)
    ensures
        match r {
            Some(i) => entry_for(envz@, name@, 0) == Some(i as int) && i < envz@.len(),
            None => entry_for(envz@, name@, 0) is None,
        },
{
    let mut pos: usize = 0;
    while pos < envz.len()
        invariant
            pos <= envz@.len(),
            entry_for(envz@, name@, pos as int) == entry_for(envz@, name@, 0),
        decreases envz@.len() - pos,
    {
        match argz_entry_len_at(envz, pos) {
            None => {
                return None;
            },
            Some(n) => {
                if matches_name(envz, pos, n, name) {
                    return Some(pos);
                }
                pos = pos + n + 1;
            },
        }
    }
    None
}

/// The place of the first entry for the name at `name`; `None` where there is
/// none or the name cannot be read.
pub fn envz_entry(envz: &[u8], mem: &Memory, name: Ptr) -> (r: Option<usize>)
    requires
        !name.null() ==> readable(mem@, name.at(), name.remaining),
    ensures
        match r {
            Some(i) => given(mem@, name) && entry_for(envz@, text(mem@, name), 0) == Some(i as int),
            None => !given(mem@, name) || entry_for(envz@, text(mem@, name), 0) is None,
        },
{
    match read_c_string_bytes(mem, name) {
        None => None,
        Some(b) => find_entry(envz, b.as_slice()),
    }
}

/// The place of the value of the entry at `pos`: behind its first equals sign,
/// if it has one.
pub open spec fn value_place(b: Seq<u8>, pos: int) -> Option<int> {
    let n = entry_len(b, pos);
    let i = find(b, pos, n, is_byte(0x3d));
    if i < n {
        Some(pos + i + 1)
    } else {
        None
    }
}

/// The place of the value for the name at `name`; `None` where the name has no
/// entry, or none with a value.
pub fn envz_get(envz: &[u8], mem: &Memory, name: Ptr) -> (r: Option<usize>)
    requires
        !name.null() ==> readable(mem@, name.at(), name.remaining),
    ensures
        ({
            let place = if given(mem@, name) {
                match entry_for(envz@, text(mem@, name), 0) {
                    Some(i) => value_place(envz@, i),
                    None => None,
                }
            } else {
                None
            };
            match r {
                Some(i) => place == Some(i as int),
                None => place is None,
            }
        }),
{
    match envz_entry(envz, mem, name) {
        None => None,
        Some(pos) => {
            let ghost b = envz@;
            proof {
                lemma_entry_for(b, text(mem@, name), 0);
            }
            match argz_entry_len_at(envz, pos) {
                None => None,
                Some(n) => {
                    let len: usize = envz.len();
                    let mut i: usize = 0;
                    while i < n && envz[pos + i] != 0x3d
                        invariant
                            b == envz@,
                            i <= n,
                            len == b.len(),
                            pos + n < len,
                            forall|j: int| pos <= j < pos + i ==> #[trigger] b[j] != 0x3d,
                        decreases n - i,
                    {
                        i += 1;
                    }
                    proof {
                        assert(is_first(b, pos as int, n as int, is_byte(0x3d), i as int));
                        lemma_find_is(b, pos as int, n as int, is_byte(0x3d), i as int);
                    }
                    if i < n {
                        Some(pos + i + 1)
                    } else {
                        None
                    }
                },
            }
        },
    }
}

/// The vector without the first entry for `name`.
pub open spec fn without(b: Seq<u8>, name: Seq<u8>) -> Seq<u8> {
    match entry_for(b, name, 0) {
        Some(i) => deleted(b, i),
        None => b,
    }
}

fn remove_name(envz: &mut Vec<u8>, name: &[u8])
    ensures
        final(envz)@ == without(old(envz)@, name@),
{
    match find_entry(envz.as_slice(), name) {
        Some(i) => {
            delete_entry(envz, i);
        },
        None => {},
    }
}

/// Removes the first entry for the name at `name`.
pub fn envz_remove(envz: &mut Option<Vec<u8>>, mem: &Memory, name: Ptr)
    requires
        !name.null() ==> readable(mem@, name.at(), name.remaining),
    ensures
        *final(envz) is Some == *old(envz) is Some,
        bytes_of(*final(envz)) == if *old(envz) is Some && given(mem@, name) {
            without(bytes_of(*old(envz)), text(mem@, name))
        } else {
            bytes_of(*old(envz))
        },
{
    match envz {
        None => {},
        Some(v) => match read_c_string_bytes(mem, name) {
            None => {},
            Some(b) => {
                remove_name(v, b.as_slice());
            },
        },
    }
}

/// An entry of a name and an optional value.
pub open spec fn entry_of(name: Seq<u8>, value: Option<Seq<u8>>) -> Seq<u8> {
    match value {
        Some(v) => name.push(0x3d) + v,
        None => name,
    }
}

/// The outcome of setting a name: the vector, and the error. The old entry is
/// gone also where there is no room for the new one.
pub open spec fn set_name(
    b: Seq<u8>,
    name: Seq<u8>,
    value: Option<Seq<u8>>,
    granted: bool,
) -> (Seq<u8>, i32) {
    let rest = without(b, name);
    let e = entry_of(name, value);
    if e.len() > usize::MAX {
        (b, ENOMEM)
    } else if no_room(rest.len(), e.len() + 1, granted) {
        (rest, ENOMEM)
    } else {
        (rest + e.push(0), 0)
    }
}

/// The view of optional bytes.
pub open spec fn opt_bytes(v: Option<&[u8]>) -> Option<Seq<u8>> {
    match v {
        Some(b) => Some(b@),
        None => None,
    }
}

/// Sets `name` to `value`, or to no value.
pub(crate) fn envz_add_bytes(
    envz: &mut Vec<u8>,
    name: &[u8],
    value: Option<&[u8]>,
    granted: bool,
) -> (r: i32)
    ensures
        (final(envz)@, r) == set_name(old(envz)@, name@, opt_bytes(value), granted),
{
    let extra: usize = match value {
        Some(v) => v.len(),
        None => 0,
    };
    let capacity: usize = match name.len().checked_add(extra) {
        Some(n) => n,
        None => {
            return ENOMEM;
        },
    };
    if value.is_some() && capacity.checked_add(1).is_none() {
        return ENOMEM;
    }
    remove_name(envz, name);
    let mut entry: Vec<u8> = Vec::new();
    push_bytes(&mut entry, name);
    match value {
        Some(v) => {
            entry.push(0x3d);
            push_bytes(&mut entry, v);
        },
        None => {},
    }
    assert(entry@ =~= entry_of(name@, opt_bytes(value)));
    argz_add_bytes(envz, entry.as_slice(), granted)
}

/// The value argument of [`envz_add`].
pub open spec fn value_of(m: Seq<u8>, value: Ptr) -> Option<Seq<u8>> {
    if value.null() {
        None
    } else {
        Some(text(m, value))
    }
}

/// Sets the name at `name` to the value at `value`, or to no value where that is
/// null.
pub fn envz_add(
    envz: &mut Option<Vec<u8>>,
    mem: &Memory,
    name: Ptr,
    value: Ptr,
    granted: bool,
) -> (r: i32)
    requires
        !name.null() ==> readable(mem@, name.at(), name.remaining),
        !value.null() ==> readable(mem@, value.at(), value.remaining),
    ensures
        *final(envz) is Some == *old(envz) is Some,
        ({
            let bad = *old(envz) is None || !given(mem@, name) || (!value.null() && !given(
                mem@,
                value,
            ));
            (bytes_of(*final(envz)), r) == if bad {
                (bytes_of(*old(envz)), EINVAL)
            } else {
                set_name(
                    bytes_of(*old(envz)),
                    text(mem@, name),
                    value_of(mem@, value),
                    granted,
                )
            }
        }),
{
    match envz {
        None => EINVAL,
        Some(v) => match read_c_string_bytes(mem, name) {
            None => EINVAL,
            Some(n) => {
                if value.is_null() {
                    return envz_add_bytes(v, n.as_slice(), None, granted);
                }
                match read_c_string_bytes(mem, value) {
                    None => EINVAL,
                    Some(w) => envz_add_bytes(v, n.as_slice(), Some(w.as_slice()), granted),
                }
            },
        },
    }
}

/// The name of an entry: what stands before its first equals sign.
pub open spec fn name_in(e: Seq<u8>) -> Seq<u8> {
    e.take(find(e, 0, e.len() as int, is_byte(0x3d)))
}

/// The value of an entry: what stands behind its first equals sign.
pub open spec fn value_in(e: Seq<u8>) -> Option<Seq<u8>> {
    let i = find(e, 0, e.len() as int, is_byte(0x3d));
    if i < e.len() {
        Some(e.skip(i + 1))
    } else {
        None
    }
}

/// The outcome of merging the entries of `b2` from `pos` on into `b`: the vector,
/// and the error that stopped it. An entry whose name is already set is left out
/// unless `over` is set. Each entry that is set asks the allocator once.
pub open spec fn merged(b: Seq<u8>, b2: Seq<u8>, pos: int, over: bool, grants: Seq<bool>) -> (
    Seq<u8>,
    i32,
)
    decreases b2.len() - pos,
    via merged_goes_on
{
    if pos < 0 || pos >= b2.len() {
        (b, 0)
    } else if !entry_ends(b2, pos) {
        (b, EINVAL)
    } else {
        let n = entry_len(b2, pos);
        let e = b2.subrange(pos, pos + n);
        if entry_for(b, name_in(e), 0) is None || over {
            let (next, rc) = set_name(
                b,
                name_in(e),
                value_in(e),
                grants.len() > 0 && grants[0],
            );
            if rc != 0 {
                (next, rc)
            } else {
                merged(next, b2, pos + n + 1, over, grants.drop_first())
            }
        } else {
            merged(b, b2, pos + n + 1, over, grants)
        }
    }
}

#[via_fn]
proof fn merged_goes_on(b: Seq<u8>, b2: Seq<u8>, pos: int, over: bool, grants: Seq<bool>) {
    if 0 <= pos < b2.len() {
        lemma_entry(b2, pos);
    }
}

/// Merges the entries of `envz2`; those whose name is already set only where
/// `override_` is not zero. `grants` holds the allocator's answers, and what is
/// missing there is refused.
pub fn envz_merge(
    envz: &mut Option<Vec<u8>>,
    envz2: &[u8],
    override_: i32,
    grants: &[bool],
) -> (r: i32)
    ensures
        *final(envz) is Some == *old(envz) is Some,
        (bytes_of(*final(envz)), r) == if *old(envz) is None {
            (bytes_of(*old(envz)), EINVAL)
        } else {
            merged(bytes_of(*old(envz)), envz2@, 0, override_ != 0, grants@)
        },
{
    match envz {
        None => EINVAL,
        Some(v) => merge_entries(v, envz2, override_ != 0, grants),
    }
}

fn merge_entries(v: &mut Vec<u8>, b2: &[u8], over: bool, grants: &[bool]) -> (r: i32)
    ensures
        (final(v)@, r) == merged(old(v)@, b2@, 0, over, grants@),
{
    let mut pos: usize = 0;
    let mut used: usize = 0;
    let ghost mut gs = grants@;
    while pos < b2.len()
        invariant
            pos <= b2@.len(),
            used <= pos,
            gs.len() == if used < grants@.len() {
                grants@.len() - used
            } else {
                0
            },
            forall|k: int| 0 <= k < gs.len() ==> #[trigger] gs[k] == grants@[used + k],
            merged(v@, b2@, pos as int, over, gs) == merged(old(v)@, b2@, 0, over, grants@),
        decreases b2@.len() - pos,
    {
        match argz_entry_len_at(b2, pos) {
            None => {
                return EINVAL;
            },
            Some(n) => {
                proof {
                    lemma_entry(b2@, pos as int);
                }
                let e: Vec<u8> = entry_bytes(b2, pos, n);
                let (name, value) = split_entry(e.as_slice());
                let present: bool = find_entry(v.as_slice(), name.as_slice()).is_some();
                if !present || over {
                    let granted: bool = used < grants.len() && grants[used];
                    let rc: i32 = match &value {
                        Some(w) => envz_add_bytes(v, name.as_slice(), Some(w.as_slice()), granted),
                        None => envz_add_bytes(v, name.as_slice(), None, granted),
                    };
                    if rc != 0 {
                        return rc;
                    }
                    proof {
                        gs = gs.drop_first();
                    }
                    used += 1;
                }
                pos = pos + n + 1;
            },
        }
    }
    0
}

fn entry_bytes(b: &[u8], pos: usize, n: usize) -> (r: Vec<u8>)
    requires
        pos + n <= b@.len(),
    ensures
        r@ == b@.subrange(pos as int, pos + n),
{
    let len: usize = b.len();
    let mut r: Vec<u8> = Vec::new();
    let mut i: usize = 0;
    while i < n
        invariant
            i <= n,
            len == b@.len(),
            pos + n <= len,
            r@ == b@.subrange(pos as int, pos + i),
        decreases n - i,
    {
        r.push(b[pos + i]);
        i += 1;
        assert(r@ =~= b@.subrange(pos as int, pos + i));
    }
    r
}

/// The name and the value of an entry.
fn split_entry(e: &[u8]) -> (r: (Vec<u8>, Option<Vec<u8>>))
    ensures
        r.0@ == name_in(e@),
        match r.1 {
            Some(v) => value_in(e@) == Some(v@),
            None => value_in(e@) is None,
        },
{
    let i: usize = byte_from(e, 0, 0x3d);
    let name: Vec<u8> = entry_bytes(e, 0, i);
    assert(name@ =~= name_in(e@));
    if i < e.len() {
        let value: Vec<u8> = entry_bytes(e, i + 1, e.len() - i - 1);
        assert(value@ =~= e@.skip(i + 1));
        (name, Some(value))
    } else {
        (name, None)
    }
}

/// The entries from `pos` on that have a value, each with its NUL.
pub open spec fn valued_from(b: Seq<u8>, pos: int) -> Seq<u8>
    decreases b.len() - pos,
    via valued_goes_on
{
    if pos < 0 || pos >= b.len() || !entry_ends(b, pos) {
        seq![]
    } else {
        let n = entry_len(b, pos);
        (if value_place(b, pos) is Some {
            b.subrange(pos, pos + n + 1)
        } else {
            seq![]
        }) + valued_from(b, pos + n + 1)
    }
}

#[via_fn]
proof fn valued_goes_on(b: Seq<u8>, pos: int) {
    if 0 <= pos < b.len() {
        lemma_entry(b, pos);
    }
}

/// Removes the entries that have no value; nothing where an entry has no end.
pub fn envz_strip(envz: &mut Option<Vec<u8>>)
    ensures
        *final(envz) is Some == *old(envz) is Some,
        bytes_of(*final(envz)) == if all_end(bytes_of(*old(envz)), 0) {
            valued_from(bytes_of(*old(envz)), 0)
        } else {
            bytes_of(*old(envz))
        },
{
    match envz {
        None => {},
        Some(v) => {
            strip_entries(v);
        },
    }
}

fn strip_entries(v: &mut Vec<u8>)
    ensures
        final(v)@ == if all_end(old(v)@, 0) {
            valued_from(old(v)@, 0)
        } else {
            old(v)@
        },
{
    let mut out: Vec<u8> = Vec::new();
    let ghost b = v@;
    let mut pos: usize = 0;
    assert(out@ + valued_from(b, 0) =~= valued_from(b, 0));
    while pos < v.len()
        invariant
            b == v@,
            b == old(v)@,
            pos <= b.len(),
            out@ + valued_from(b, pos as int) == valued_from(b, 0),
            all_end(b, pos as int) == all_end(b, 0),
        decreases b.len() - pos,
    {
        match argz_entry_len_at(v.as_slice(), pos) {
            None => {
                return;
            },
            Some(n) => {
                let ghost before = out@;
                let mut e: Vec<u8> = entry_bytes(v.as_slice(), pos, n + 1);
                let whole: Vec<u8> = entry_bytes(v.as_slice(), pos, n);
                let i: usize = byte_from(whole.as_slice(), 0, 0x3d);
                proof {
                    lemma_entry(b, pos as int);
                    let w = whole@;
                    assert forall|j: int| pos <= j < pos + i implies !is_byte(0x3d)(
                        #[trigger] b[j],
                    ) by {
                        assert(w[j - pos] == b[j]);
                    }
                    assert(i < n ==> w[i as int] == b[pos + i]);
                    assert(is_first(b, pos as int, n as int, is_byte(0x3d), i as int));
                    lemma_find_is(b, pos as int, n as int, is_byte(0x3d), i as int);
                }
                if i < n {
                    out.append(&mut e);
                }
                assert(before + valued_from(b, pos as int) =~= out@ + valued_from(b, pos + n + 1));
                pos = pos + n + 1;
            },
        }
    }
    assert(out@ + valued_from(b, pos as int) =~= out@);
    *v = out;
}

proof fn lemma_entry_of_concat(b: Seq<u8>, t: Seq<u8>, pos: int)
    requires
        0 <= pos < b.len(),
        entry_ends(b, pos),
    ensures
        entry_len(b + t, pos) == entry_len(b, pos),
        entry_ends(b + t, pos),
{
    lemma_entry(b, pos);
    let n = entry_len(b, pos);
    let v = b + t;
    assert forall|j: int| pos <= j < pos + n implies !is_nul()(#[trigger] v[j]) by {
        assert(v[j] == b[j]);
    }
    assert(is_first(v, pos, v.len() - pos, is_nul(), n));
    lemma_find_is(v, pos, v.len() - pos, is_nul(), n);
}

/// What a vector holds for a name: nothing, an entry without a value, or a value.
pub open spec fn held(b: Seq<u8>, name: Seq<u8>) -> Option<Option<Seq<u8>>> {
    match entry_for(b, name, 0) {
        None => None,
        Some(i) => Some(
            match value_place(b, i) {
                None => None,
                Some(p) => Some(b.subrange(p, i + entry_len(b, i))),
            },
        ),
    }
}

/// Entry `pos` of `b` as an entry of a vector that ends in `b`.
proof fn lemma_entry_behind(x: Seq<u8>, b: Seq<u8>, pos: int, name: Seq<u8>)
    requires
        0 <= pos < b.len(),
    ensures
        ({
            let v = x + b;
            let at = x.len() + pos;
            let n = entry_len(b, pos);
            &&& entry_len(v, at) == n
            &&& entry_ends(v, at) == entry_ends(b, pos)
            &&& is_for(v, at, n, name) == is_for(b, pos, n, name)
            &&& match value_place(b, pos) {
                None => value_place(v, at) is None,
                Some(p) => value_place(v, at) == Some(x.len() + p) && v.subrange(
                    x.len() + p,
                    at + n,
                ) == b.subrange(p, pos + n),
            }
        }),
{
    let v = x + b;
    let at = x.len() + pos;
    let n = entry_len(b, pos);
    lemma_entry(b, pos);
    assert forall|j: int| at <= j < at + n implies !is_nul()(#[trigger] v[j]) by {
        assert(v[j] == b[j - x.len()]);
    }
    assert(n < b.len() - pos ==> v[at + n] == b[pos + n]);
    assert(is_first(v, at, v.len() - at, is_nul(), n));
    lemma_find_is(v, at, v.len() - at, is_nul(), n);
    if name.len() <= n {
        assert(v.subrange(at, at + name.len()) =~= b.subrange(pos, pos + name.len()));
    }
    let i = find(b, pos, n, is_byte(0x3d));
    lemma_find(b, pos, n, is_byte(0x3d));
    assert forall|j: int| at <= j < at + i implies !is_byte(0x3d)(#[trigger] v[j]) by {
        assert(v[j] == b[j - x.len()]);
    }
    assert(i < n ==> v[at + i] == b[pos + i]);
    assert(is_first(v, at, n, is_byte(0x3d), i));
    lemma_find_is(v, at, n, is_byte(0x3d), i);
    if i < n {
        let p = pos + i + 1;
        assert(v.subrange(x.len() + p, at + n) =~= b.subrange(p, pos + n));
    }
}

proof fn lemma_entry_for_behind(x: Seq<u8>, b: Seq<u8>, pos: int, name: Seq<u8>)
    requires
        0 <= pos <= b.len(),
    ensures
        entry_for(x + b, name, x.len() + pos) == match entry_for(b, name, pos) {
            Some(i) => Some(x.len() + i),
            None => None::<int>,
        },
    decreases b.len() - pos,
{
    if pos < b.len() {
        lemma_entry_behind(x, b, pos, name);
        lemma_entry(b, pos);
        if entry_ends(b, pos) && !is_for(b, pos, entry_len(b, pos), name) {
            lemma_entry_for_behind(x, b, pos + entry_len(b, pos) + 1, name);
        }
    }
}

/// An entry of `x` as an entry of a vector that starts with `x`.
proof fn lemma_entry_in_front(x: Seq<u8>, t: Seq<u8>, pos: int, name: Seq<u8>)
    requires
        0 <= pos < x.len(),
        entry_ends(x, pos),
    ensures
        ({
            let v = x + t;
            let n = entry_len(x, pos);
            &&& entry_len(v, pos) == n
            &&& entry_ends(v, pos)
            &&& is_for(v, pos, n, name) == is_for(x, pos, n, name)
            &&& value_place(v, pos) == value_place(x, pos)
            &&& value_place(x, pos) matches Some(p) ==> v.subrange(p, pos + n) == x.subrange(
                p,
                pos + n,
            )
        }),
{
    let v = x + t;
    let n = entry_len(x, pos);
    lemma_entry(x, pos);
    lemma_entry_of_concat(x, t, pos);
    if name.len() <= n {
        assert(v.subrange(pos, pos + name.len()) =~= x.subrange(pos, pos + name.len()));
    }
    let i = find(x, pos, n, is_byte(0x3d));
    lemma_find(x, pos, n, is_byte(0x3d));
    assert forall|j: int| pos <= j < pos + i implies !is_byte(0x3d)(#[trigger] v[j]) by {
        assert(v[j] == x[j]);
    }
    assert(i < n ==> v[pos + i] == x[pos + i]);
    assert(is_first(v, pos, n, is_byte(0x3d), i));
    lemma_find_is(v, pos, n, is_byte(0x3d), i);
    if i < n {
        assert(v.subrange(pos + i + 1, pos + n) =~= x.subrange(pos + i + 1, pos + n));
    }
}

proof fn lemma_entry_for_in_front(x: Seq<u8>, t: Seq<u8>, pos: int, name: Seq<u8>)
    requires
        0 <= pos <= x.len(),
        all_end(x, pos),
    ensures
        entry_for(x + t, name, pos) == match entry_for(x, name, pos) {
            Some(i) => Some(i),
            None => entry_for(x + t, name, x.len() as int),
        },
        all_end(x + t, pos) == all_end(x + t, x.len() as int),
    decreases x.len() - pos,
{
    if pos < x.len() {
        lemma_entry_in_front(x, t, pos, name);
        lemma_entry(x, pos);
        lemma_entry_for_in_front(x, t, pos + entry_len(x, pos) + 1, name);
    }
}

proof fn lemma_all_end_behind(x: Seq<u8>, b: Seq<u8>, pos: int)
    requires
        0 <= pos <= b.len(),
    ensures
        all_end(x + b, x.len() + pos) == all_end(b, pos),
    decreases b.len() - pos,
{
    if pos < b.len() {
        lemma_entry_behind(x, b, pos, seq![]);
        lemma_entry(b, pos);
        if entry_ends(b, pos) {
            lemma_all_end_behind(x, b, pos + entry_len(b, pos) + 1);
        }
    }
}

/// What two vectors, one behind the other, hold for a name: what the first one
/// holds, or else the second.
proof fn lemma_held_concat(x: Seq<u8>, t: Seq<u8>, name: Seq<u8>)
    requires
        all_end(x, 0),
    ensures
        held(x + t, name) == match held(x, name) {
            Some(v) => Some(v),
            None => held(t, name),
        },
        all_end(x + t, 0) == all_end(t, 0),
{
    lemma_entry_for_in_front(x, t, 0, name);
    lemma_entry_for_behind(x, t, 0, name);
    lemma_all_end_behind(x, t, 0);
    match entry_for(x, name, 0) {
        Some(i) => {
            lemma_entry_for(x, name, 0);
            lemma_entry_in_front(x, t, i, name);
        },
        None => {
            lemma_entry_for(t, name, 0);
            if entry_for(t, name, 0) is Some {
                lemma_entry_behind(x, t, entry_for(t, name, 0)->Some_0, name);
            }
        },
    }
}

/// The entries before the one that is found end where it starts.
proof fn lemma_front_ends(b: Seq<u8>, name: Seq<u8>, pos: int, i: int)
    requires
        0 <= pos <= i <= b.len(),
        entry_for(b, name, pos) == Some(i),
    ensures
        all_end(b.take(i), pos),
    decreases b.len() - pos,
{
    if pos < i {
        let x = b.take(i);
        let n = entry_len(b, pos);
        lemma_entry(b, pos);
        lemma_entry_for(b, name, pos + n + 1);
        assert forall|j: int| pos <= j < pos + n implies !is_nul()(#[trigger] x[j]) by {
            assert(x[j] == b[j]);
        }
        assert(x[pos + n] == 0);
        assert(is_first(x, pos, x.len() - pos, is_nul(), n));
        lemma_find_is(x, pos, x.len() - pos, is_nul(), n);
        lemma_front_ends(b, name, pos + n + 1, i);
    }
}

/// A vector of the one entry `e`.
proof fn lemma_single_entry(e: Seq<u8>)
    requires
        !e.contains(0),
    ensures
        entry_len(e.push(0), 0) == e.len(),
        entry_ends(e.push(0), 0),
        all_end(e.push(0), 0),
        forall|name: Seq<u8>|
            entry_for(e.push(0), name, 0) == if #[trigger] is_for(
                e.push(0),
                0,
                e.len() as int,
                name,
            ) {
                Some(0int)
            } else {
                None
            },
{
    let v = e.push(0);
    assert forall|j: int| 0 <= j < e.len() implies !is_nul()(#[trigger] v[j]) by {
        assert(e.contains(e[j]));
    }
    assert(v[e.len() as int] == 0);
    assert(is_first(v, 0, v.len() as int, is_nul(), e.len() as int));
    lemma_find_is(v, 0, v.len() as int, is_nul(), e.len() as int);
    assert(all_end(v, v.len() as int));
    assert forall|name: Seq<u8>|
        entry_for(v, name, 0) == if #[trigger] is_for(v, 0, e.len() as int, name) {
            Some(0int)
        } else {
            None
        } by {
        assert(entry_for(v, name, v.len() as int) is None);
    }
}

/// An entry is for one name without an equals sign at most.
proof fn lemma_one_name(b: Seq<u8>, pos: int, n: int, name: Seq<u8>, other: Seq<u8>)
    requires
        0 <= pos,
        pos + n <= b.len(),
        is_for(b, pos, n, name),
        is_for(b, pos, n, other),
        !name.contains(0x3d),
        !other.contains(0x3d),
    ensures
        name == other,
{
    let x = b.subrange(pos, pos + name.len());
    let y = b.subrange(pos, pos + other.len());
    if name.len() < other.len() {
        assert(y[name.len() as int] == 0x3d);
        assert(other.contains(other[name.len() as int]));
    } else if other.len() < name.len() {
        assert(x[other.len() as int] == 0x3d);
        assert(name.contains(name[other.len() as int]));
    }
}

/// A vector around the first entry for a name.
proof fn lemma_split(b: Seq<u8>, name: Seq<u8>)
    requires
        entry_for(b, name, 0) is Some,
    ensures
        ({
            let i = entry_for(b, name, 0)->Some_0;
            let n = entry_len(b, i);
            let e = b.subrange(i, i + n);
            &&& 0 <= i && i + n < b.len()
            &&& b == b.take(i) + (e.push(0) + b.skip(i + n + 1))
            &&& without(b, name) == b.take(i) + b.skip(i + n + 1)
            &&& all_end(b.take(i), 0)
            &&& !e.contains(0)
            &&& is_for(e.push(0), 0, n, name)
        }),
{
    lemma_entry_for(b, name, 0);
    let i = entry_for(b, name, 0)->Some_0;
    let n = entry_len(b, i);
    let e = b.subrange(i, i + n);
    lemma_entry(b, i);
    lemma_front_ends(b, name, 0, i);
    assert(b =~= b.take(i) + (e.push(0) + b.skip(i + n + 1)));
    if e.contains(0) {
        let j = choose|j: int| 0 <= j < e.len() && e[j] == 0;
        assert(b[i + j] == 0);
    }
    assert(e.push(0).subrange(0, name.len() as int) =~= b.subrange(i, i + name.len()));
}

/// Removing a name leaves a vector whose entries have an end.
proof fn lemma_without_ends(b: Seq<u8>, name: Seq<u8>)
    requires
        all_end(b, 0),
    ensures
        all_end(without(b, name), 0),
{
    if entry_for(b, name, 0) is Some {
        lemma_split(b, name);
        let i = entry_for(b, name, 0)->Some_0;
        let n = entry_len(b, i);
        let e = b.subrange(i, i + n);
        let y = b.skip(i + n + 1);
        lemma_single_entry(e);
        lemma_held_concat(b.take(i), e.push(0) + y, name);
        lemma_held_concat(e.push(0), y, name);
        lemma_held_concat(b.take(i), y, name);
    }
}

/// Removing a name keeps what the vector holds for every other name: where every
/// entry has an end.
pub proof fn law_removing_a_name_keeps_the_others(b: Seq<u8>, name: Seq<u8>, other: Seq<u8>)
    requires
        all_end(b, 0),
        !name.contains(0x3d),
        !other.contains(0x3d),
        name != other,
    ensures
        held(without(b, name), other) == held(b, other),
{
    if entry_for(b, name, 0) is Some {
        lemma_split(b, name);
        let i = entry_for(b, name, 0)->Some_0;
        let n = entry_len(b, i);
        let e = b.subrange(i, i + n);
        let y = b.skip(i + n + 1);
        lemma_single_entry(e);
        lemma_held_concat(b.take(i), e.push(0) + y, other);
        lemma_held_concat(e.push(0), y, other);
        lemma_held_concat(b.take(i), y, other);
        if is_for(e.push(0), 0, n, other) {
            lemma_one_name(e.push(0), 0, n, name, other);
        }
    }
}

/// Setting a name keeps what the vector holds for every other name, also where
/// there is no room for the new entry.
pub proof fn law_setting_a_name_keeps_the_others(
    b: Seq<u8>,
    name: Seq<u8>,
    value: Option<Seq<u8>>,
    granted: bool,
    other: Seq<u8>,
)
    requires
        all_end(b, 0),
        !name.contains(0),
        !name.contains(0x3d),
        value is Some ==> !value->Some_0.contains(0),
        !other.contains(0x3d),
        name != other,
    ensures
        held(set_name(b, name, value, granted).0, other) == held(b, other),
{
    law_removing_a_name_keeps_the_others(b, name, other);
    lemma_without_ends(b, name);
    let rest = without(b, name);
    let e = entry_of(name, value);
    lemma_new_entry(name, value);
    lemma_held_concat(rest, e.push(0), other);
    if is_for(e.push(0), 0, e.len() as int, other) {
        lemma_one_name(e.push(0), 0, e.len() as int, name, other);
    }
}

/// The entry of a name and a value, as a vector of its own.
proof fn lemma_new_entry(name: Seq<u8>, value: Option<Seq<u8>>)
    requires
        !name.contains(0),
        !name.contains(0x3d),
        value is Some ==> !value->Some_0.contains(0),
    ensures
        ({
            let e = entry_of(name, value);
            &&& entry_len(e.push(0), 0) == e.len()
            &&& entry_ends(e.push(0), 0)
            &&& is_for(e.push(0), 0, e.len() as int, name)
            &&& held(e.push(0), name) == Some(value)
            &&& forall|other: Seq<u8>|
                entry_for(e.push(0), other, 0) == if #[trigger] is_for(
                    e.push(0),
                    0,
                    e.len() as int,
                    other,
                ) {
                    Some(0int)
                } else {
                    None
                }
        }),
{
    let e = entry_of(name, value);
    let v = e.push(0);
    let k = name.len() as int;
    if e.contains(0) {
        let j = choose|j: int| 0 <= j < e.len() && e[j] == 0;
        if j < k {
            assert(name.contains(name[j]));
        } else if j > k {
            assert(value->Some_0.contains(value->Some_0[j - k - 1]));
        }
    }
    lemma_single_entry(e);
    assert(v.subrange(0, k) =~= name);
    assert forall|j: int| 0 <= j < k implies !is_byte(0x3d)(#[trigger] v[j]) by {
        assert(v[j] == name[j]);
        assert(name.contains(name[j]));
    }
    assert(value is Some ==> v[k] == 0x3d);
    assert(is_first(v, 0, e.len() as int, is_byte(0x3d), k));
    lemma_find_is(v, 0, e.len() as int, is_byte(0x3d), k);
    if value is Some {
        assert(v.subrange(k + 1, e.len() as int) =~= value->Some_0);
    }
    assert(is_for(v, 0, e.len() as int, name));
}

/// No entry from `pos` on is for a name that is not found there.
proof fn lemma_no_entry_for(b: Seq<u8>, name: Seq<u8>, pos: int, at: int)
    requires
        0 <= pos <= at,
        all_end(b, pos),
        entry_for(b, name, pos) is None,
        starts_entry(b, at),
        pos == at || pos == 0 || b[pos - 1] == 0,
    ensures
        entry_ends(b, at),
        !is_for(b, at, entry_len(b, at), name),
    decreases b.len() - pos,
{
    lemma_entry(b, pos);
    if pos < at {
        assert(b[at - 1] == 0);
        lemma_no_entry_for(b, name, pos + entry_len(b, pos) + 1, at);
    }
}

/// A name that was set holds the value that it was set to, or none where none was
/// given, and has one entry, the last one: where no second entry was for it, and
/// every entry has an end.
pub proof fn law_set_name_reads_back(b: Seq<u8>, name: Seq<u8>, value: Option<Seq<u8>>)
    requires
        all_end(b, 0),
        entry_for(without(b, name), name, 0) is None,
        !name.contains(0),
        !name.contains(0x3d),
        value is Some ==> !value->Some_0.contains(0),
        set_name(b, name, value, true).1 == 0,
    ensures
        ({
            let v = set_name(b, name, value, true).0;
            let at = without(b, name).len() as int;
            &&& held(v, name) == Some(value)
            &&& entry_for(v, name, 0) == Some(at)
            &&& at + entry_len(v, at) + 1 == v.len()
            &&& forall|p: int| #[trigger]
                starts_entry(v, p) && is_for(v, p, entry_len(v, p), name) ==> p == at
        }),
{
    let rest = without(b, name);
    let e = entry_of(name, value);
    let v = rest + e.push(0);
    let at = rest.len() as int;
    lemma_without_ends(b, name);
    lemma_new_entry(name, value);
    lemma_held_concat(rest, e.push(0), name);
    lemma_entry_for_in_front(rest, e.push(0), 0, name);
    lemma_entry_for_behind(rest, e.push(0), 0, name);
    lemma_entry_behind(rest, e.push(0), 0, name);
    lemma_entry(v, at);
    assert forall|p: int| #[trigger]
        starts_entry(v, p) && is_for(v, p, entry_len(v, p), name) implies p == at by {
        if p < at {
            assert(starts_entry(rest, p));
            lemma_no_entry_for(rest, name, 0, p);
            lemma_entry_in_front(rest, e.push(0), p, name);
        } else if p > at {
            assert(v[p - 1] == 0);
        }
    }
}

/// A name that was set is found, at the entry that was added, with its value:
/// where no other entry is for it, and every entry has an end.
pub proof fn law_set_name_is_found(b: Seq<u8>, name: Seq<u8>, value: Seq<u8>)
    requires
        all_end(without(b, name), 0),
        entry_for(without(b, name), name, 0) is None,
        !name.contains(0),
        !name.contains(0x3d),
        !value.contains(0),
        set_name(b, name, Some(value), true).1 == 0,
    ensures
        ({
            let v = set_name(b, name, Some(value), true).0;
            let at = without(b, name).len() as int;
            &&& entry_for(v, name, 0) == Some(at)
            &&& value_place(v, at) == Some(at + name.len() + 1)
            &&& v.subrange(at + name.len() + 1, v.len() - 1) == value
        }),
{
    let rest = without(b, name);
    let e = entry_of(name, Some(value));
    let v = rest + e.push(0);
    let at = rest.len() as int;
    lemma_entry_for_in_front(rest, e.push(0), 0, name);
    assert forall|j: int| at <= j < at + e.len() implies !is_nul()(#[trigger] v[j]) by {
        assert(v[j] == e[j - at]);
        if j - at < name.len() {
            assert(e[j - at] == name[j - at]);
            assert(name.contains(name[j - at]));
        } else if j - at > name.len() {
            assert(e[j - at] == value[j - at - name.len() - 1]);
            assert(value.contains(value[j - at - name.len() - 1]));
        }
    }
    assert(v[at + e.len()] == 0);
    assert(is_first(v, at, v.len() - at, is_nul(), e.len() as int));
    lemma_find_is(v, at, v.len() - at, is_nul(), e.len() as int);
    assert(v.subrange(at, at + name.len()) =~= name);
    assert(v[at + name.len()] == 0x3d);
    let n = e.len() as int;
    assert forall|j: int| at <= j < at + name.len() implies !is_byte(0x3d)(#[trigger] v[j]) by {
        assert(v[j] == name[j - at]);
        assert(name.contains(name[j - at]));
    }
    assert(is_first(v, at, n, is_byte(0x3d), name.len() as int));
    lemma_find_is(v, at, n, is_byte(0x3d), name.len() as int);
    assert(v.subrange(at + name.len() + 1, v.len() - 1) =~= value);
}

/// Merging without the right to override keeps all that was there, and puts new
/// entries behind it.
pub proof fn law_merge_without_override_only_adds(
    b: Seq<u8>,
    b2: Seq<u8>,
    pos: int,
    grants: Seq<bool>,
)
    ensures
        b.is_prefix_of(merged(b, b2, pos, false, grants).0),
    decreases b2.len() - pos,
{
    if 0 <= pos < b2.len() && entry_ends(b2, pos) {
        lemma_entry(b2, pos);
        let n = entry_len(b2, pos);
        let e = b2.subrange(pos, pos + n);
        if entry_for(b, name_in(e), 0) is None {
            let (next, rc) = set_name(b, name_in(e), value_in(e), grants.len() > 0 && grants[0]);
            assert(b.is_prefix_of(next));
            if rc == 0 {
                law_merge_without_override_only_adds(next, b2, pos + n + 1, grants.drop_first());
            }
        } else {
            law_merge_without_override_only_adds(b, b2, pos + n + 1, grants);
        }
    }
}

/// Removing a name that has no entry changes nothing.
pub proof fn law_removing_an_absent_name_changes_nothing(b: Seq<u8>, name: Seq<u8>)
    requires
        entry_for(b, name, 0) is None,
    ensures
        without(b, name) == b,
{
}

/// The name of an entry ends at its first equals sign and its value is all that
/// follows, further equals signs too: the two put together are the entry.
pub proof fn law_entry_is_its_name_and_value(e: Seq<u8>)
    ensures
        entry_of(name_in(e), value_in(e)) == e,
        e == match value_in(e) {
            Some(v) => name_in(e) + seq![0x3du8] + v,
            None => name_in(e),
        },
        !name_in(e).contains(0x3d),
{
    let i = find(e, 0, e.len() as int, is_byte(0x3d));
    lemma_find(e, 0, e.len() as int, is_byte(0x3d));
    let name = name_in(e);
    if name.contains(0x3d) {
        let k = choose|k: int| 0 <= k < name.len() && name[k] == 0x3d;
        assert(!is_byte(0x3d)(e[k]));
    }
    if i < e.len() {
        assert(is_byte(0x3d)(e[0 + i]));
        assert(e =~= name.push(0x3d) + e.skip(i + 1));
        assert(e =~= name + seq![0x3du8] + e.skip(i + 1));
    } else {
        assert(e =~= name);
    }
}

/// A name without an equals sign, and a value behind one, are taken apart again.
pub proof fn law_name_and_value_are_taken_apart(name: Seq<u8>, v: Seq<u8>)
    requires
        !name.contains(0x3d),
    ensures
        name_in(name + seq![0x3du8] + v) == name,
        value_in(name + seq![0x3du8] + v) == Some(v),
        name_in(name) == name,
        value_in(name) is None,
{
    let e = name + seq![0x3du8] + v;
    let n = name.len() as int;
    assert forall|j: int| 0 <= j < n implies !is_byte(0x3d)(#[trigger] e[j]) by {
        assert(e[j] == name[j]);
        assert(name.contains(name[j]));
    }
    assert(e[n] == 0x3d);
    assert(is_first(e, 0, e.len() as int, is_byte(0x3d), n));
    lemma_find_is(e, 0, e.len() as int, is_byte(0x3d), n);
    assert(e.take(n) =~= name);
    assert(e.skip(n + 1) =~= v);
    assert forall|j: int| 0 <= j < n implies !is_byte(0x3d)(#[trigger] name[j]) by {
        assert(name.contains(name[j]));
    }
    assert(is_first(name, 0, n, is_byte(0x3d), n));
    lemma_find_is(name, 0, n, is_byte(0x3d), n);
    assert(name.take(n) =~= name);
}

/// An entry of the second vector, behind `x`.
proof fn lemma_merged_behind(
    b: Seq<u8>,
    x: Seq<u8>,
    t: Seq<u8>,
    pos: int,
    over: bool,
    grants: Seq<bool>,
)
    requires
        0 <= pos <= t.len(),
    ensures
        merged(b, x + t, x.len() + pos, over, grants) == merged(b, t, pos, over, grants),
    decreases t.len() - pos,
{
    if pos < t.len() {
        lemma_entry_behind(x, t, pos, seq![]);
        lemma_entry(t, pos);
        if entry_ends(t, pos) {
            let n = entry_len(t, pos);
            let e = t.subrange(pos, pos + n);
            let at = x.len() + pos;
            assert((x + t).subrange(at, at + n) =~= e);
            if entry_for(b, name_in(e), 0) is None || over {
                let (next, rc) = set_name(
                    b,
                    name_in(e),
                    value_in(e),
                    grants.len() > 0 && grants[0],
                );
                if rc == 0 {
                    lemma_merged_behind(next, x, t, pos + n + 1, over, grants.drop_first());
                }
            } else {
                lemma_merged_behind(b, x, t, pos + n + 1, over, grants);
            }
        }
    }
}

/// The first entry of a vector.
proof fn lemma_first_entry(e: Seq<u8>, t: Seq<u8>)
    requires
        !e.contains(0),
    ensures
        entry_len(e.push(0) + t, 0) == e.len(),
        entry_ends(e.push(0) + t, 0),
        (e.push(0) + t).subrange(0, e.len() as int) == e,
{
    lemma_single_entry(e);
    lemma_entry_of_concat(e.push(0), t, 0);
    assert((e.push(0) + t).subrange(0, e.len() as int) =~= e);
}

/// Merging an entry whose name is not set appends that entry and its NUL, and
/// goes on with the entries behind it.
pub proof fn law_merge_appends_an_unset_entry(
    b: Seq<u8>,
    e: Seq<u8>,
    t: Seq<u8>,
    over: bool,
    grants: Seq<bool>,
)
    requires
        !e.contains(0),
        entry_for(b, name_in(e), 0) is None,
        b.len() + e.len() + 1 <= usize::MAX,
        grants.len() > 0 && grants[0],
    ensures
        merged(b, e.push(0) + t, 0, over, grants) == merged(
            b + e.push(0),
            t,
            0,
            over,
            grants.drop_first(),
        ),
        merged(b, e.push(0), 0, over, grants) == (b + e.push(0), 0i32),
{
    law_entry_is_its_name_and_value(e);
    lemma_first_entry(e, t);
    lemma_first_entry(e, seq![]);
    assert(e.push(0) + seq![] =~= e.push(0));
    assert(merged(b, e.push(0), 0, over, grants) == merged(
        b + e.push(0),
        e.push(0),
        e.len() as int + 1,
        over,
        grants.drop_first(),
    ));
    lemma_merged_behind(b + e.push(0), e.push(0), t, 0, over, grants.drop_first());
}

/// Merging an entry whose name is set passes over it without an override, and
/// with one takes the old entry out before the new one is appended.
pub proof fn law_merge_of_a_set_entry(
    b: Seq<u8>,
    e: Seq<u8>,
    t: Seq<u8>,
    grants: Seq<bool>,
)
    requires
        !e.contains(0),
        entry_for(b, name_in(e), 0) is Some,
    ensures
        merged(b, e.push(0) + t, 0, false, grants) == merged(b, t, 0, false, grants),
        grants.len() > 0 && grants[0] && without(b, name_in(e)).len() + e.len() + 1 <= usize::MAX
            ==> merged(b, e.push(0) + t, 0, true, grants) == merged(
            without(b, name_in(e)) + e.push(0),
            t,
            0,
            true,
            grants.drop_first(),
        ),
        grants.len() == 0 || !grants[0] ==> merged(b, e.push(0) + t, 0, true, grants).1 == 12,
{
    law_entry_is_its_name_and_value(e);
    lemma_first_entry(e, t);
    lemma_merged_behind(b, e.push(0), t, 0, false, grants);
    lemma_merged_behind(
        without(b, name_in(e)) + e.push(0),
        e.push(0),
        t,
        0,
        true,
        grants.drop_first(),
    );
}

/// Merging nothing changes nothing, and entries without an end are refused.
pub proof fn law_merge_ends(b: Seq<u8>, t: Seq<u8>, over: bool, grants: Seq<bool>)
    requires
        !t.contains(0),
    ensures
        merged(b, t, 0, over, grants) == if t.len() == 0 {
            (b, 0i32)
        } else {
            (b, 22i32)
        },
{
    if t.len() > 0 {
        lemma_entry(t, 0);
        if entry_ends(t, 0) {
            assert(t.contains(t[entry_len(t, 0)]));
        }
    }
}

/// An entry that is the name alone, or the name, an equals sign and a value,
/// decides what a vector holds for the name; removing the name takes it out.
pub proof fn law_first_entry_for_a_name_decides(name: Seq<u8>, v: Seq<u8>, t: Seq<u8>)
    requires
        !name.contains(0),
        !name.contains(0x3d),
        !v.contains(0),
    ensures
        held(name.push(0) + t, name) == Some(None::<Seq<u8>>),
        without(name.push(0) + t, name) == t,
        held((name.push(0x3d) + v).push(0) + t, name) == Some(Some(v)),
        without((name.push(0x3d) + v).push(0) + t, name) == t,
{
    let w = name.push(0x3d) + v;
    assert(!w.contains(0)) by {
        if w.contains(0) {
            let k = choose|k: int| 0 <= k < w.len() && w[k] == 0;
            if k < name.len() {
                assert(name.contains(name[k]));
            } else if k > name.len() {
                assert(v.contains(v[k - name.len() - 1]));
            }
        }
    }
    lemma_new_entry(name, None);
    lemma_new_entry(name, Some(v));
    lemma_single_entry(name);
    lemma_single_entry(w);
    lemma_held_concat(name.push(0), t, name);
    lemma_held_concat(w.push(0), t, name);
    lemma_first_entry_out(name, name, t);
    lemma_first_entry_out(w, name, t);
}

/// An entry that neither is the name nor starts with the name and an equals sign
/// is passed over, and stays where the name is removed.
pub proof fn law_other_entries_are_passed_over(name: Seq<u8>, e: Seq<u8>, t: Seq<u8>)
    requires
        !e.contains(0),
        e != name,
        !(name.len() < e.len() && e.take(name.len() as int) == name && e[name.len() as int]
            == 0x3d),
    ensures
        held(Seq::<u8>::empty(), name) is None,
        held(e.push(0) + t, name) == held(t, name),
        without(e.push(0) + t, name) == e.push(0) + without(t, name),
{
    let s = e.push(0);
    let n = name.len() as int;
    lemma_single_entry(e);
    assert(!is_for(s, 0, e.len() as int, name)) by {
        if is_for(s, 0, e.len() as int, name) {
            assert(e.take(n) =~= s.subrange(0, n));
            if n == e.len() {
                assert(e.take(n) =~= e);
            } else {
                assert(s[0 + n] == 0x3d);
            }
        }
    }
    lemma_held_concat(s, t, name);
    lemma_entry_for_in_front(s, t, 0, name);
    lemma_entry_for_behind(s, t, 0, name);
    if entry_for(t, name, 0) is Some {
        let i = entry_for(t, name, 0)->Some_0;
        lemma_passed_over(s, t, i, name);
    }
}

/// Removing an entry behind `x`.
proof fn lemma_passed_over(x: Seq<u8>, t: Seq<u8>, i: int, name: Seq<u8>)
    requires
        entry_for(t, name, 0) == Some(i),
        entry_for(x + t, name, 0) == Some(x.len() + i),
    ensures
        without(x + t, name) == x + without(t, name),
{
    lemma_split(t, name);
    lemma_split(x + t, name);
    lemma_entry_for(t, name, 0);
    lemma_entry_behind(x, t, i, name);
    let n = entry_len(t, i);
    let at = x.len() + i;
    assert((x + t).take(at) =~= x + t.take(i));
    assert((x + t).skip(at + n + 1) =~= t.skip(i + n + 1));
    assert(x + t.take(i) + t.skip(i + n + 1) =~= x + (t.take(i) + t.skip(i + n + 1)));
}

/// A first entry that is for a name is taken out.
proof fn lemma_first_entry_out(e: Seq<u8>, name: Seq<u8>, t: Seq<u8>)
    requires
        !e.contains(0),
        is_for(e.push(0), 0, e.len() as int, name),
    ensures
        without(e.push(0) + t, name) == t,
{
    lemma_first_entry(e, t);
    lemma_single_entry(e);
    lemma_entry_in_front(e.push(0), t, 0, name);
    let b = e.push(0) + t;
    assert(entry_for(b, name, 0) == Some(0int));
    assert(b.take(0) + b.skip((e.len() + 1) as int) =~= t);
}

/// The entries with a value from a place on, behind `x`.
proof fn lemma_valued_behind(x: Seq<u8>, t: Seq<u8>, pos: int)
    requires
        0 <= pos <= t.len(),
    ensures
        valued_from(x + t, x.len() + pos) == valued_from(t, pos),
    decreases t.len() - pos,
{
    if pos < t.len() {
        lemma_entry_behind(x, t, pos, seq![]);
        lemma_entry(t, pos);
        if entry_ends(t, pos) {
            let n = entry_len(t, pos);
            let at = x.len() + pos;
            assert((x + t).subrange(at, at + n + 1) =~= t.subrange(pos, pos + n + 1));
            lemma_valued_behind(x, t, pos + n + 1);
        }
    }
}

/// Stripping a vector keeps each entry that holds an equals sign, with its NUL
/// and in order, and drops the others.
pub proof fn law_strip_keeps_entries_with_a_value(e: Seq<u8>, t: Seq<u8>)
    requires
        !e.contains(0),
    ensures
        valued_from(e.push(0) + t, 0) == if e.contains(0x3d) {
            e.push(0) + valued_from(t, 0)
        } else {
            valued_from(t, 0)
        },
        valued_from(seq![], 0) == Seq::<u8>::empty(),
{
    let b = e.push(0) + t;
    let n = e.len() as int;
    lemma_first_entry(e, t);
    lemma_valued_behind(e.push(0), t, 0);
    lemma_find(b, 0, n, is_byte(0x3d));
    let i = find(b, 0, n, is_byte(0x3d));
    if i < n {
        assert(is_byte(0x3d)(b[0 + i]));
        assert(e[i] == 0x3d);
        assert(e.contains(0x3d));
    } else if e.contains(0x3d) {
        let k = choose|k: int| 0 <= k < n && e[k] == 0x3d;
        assert(!is_byte(0x3d)(b[k]));
    }
    assert(b.subrange(0, n + 1) =~= e.push(0));
    assert(valued_from(b, 0) =~= if e.contains(0x3d) {
        e.push(0) + valued_from(t, 0)
    } else {
        valued_from(t, 0)
    });
}

/// Setting a name takes its old entry out and appends a new one: the name, and
/// with a value an equals sign and the value. Where the allocator refuses, or
/// there is no room, only the old entry is gone.
pub proof fn law_set_name_replaces_the_entry(b: Seq<u8>, name: Seq<u8>, v: Seq<u8>)
    requires
        name.len() + v.len() < usize::MAX,
    ensures
        without(b, name).len() + name.len() + v.len() + 2 <= usize::MAX ==> set_name(
            b,
            name,
            Some(v),
            true,
        ) == (without(b, name) + name + seq![0x3du8] + v + seq![0u8], 0i32),
        without(b, name).len() + name.len() + 1 <= usize::MAX ==> set_name(b, name, None, true) == (
            without(b, name) + name + seq![0u8],
            0i32,
        ),
        without(b, name).len() + name.len() + v.len() + 2 > usize::MAX ==> set_name(
            b,
            name,
            Some(v),
            true,
        ) == (without(b, name), 12i32),
        without(b, name).len() + name.len() + 1 > usize::MAX ==> set_name(b, name, None, true) == (
            without(b, name),
            12i32,
        ),
        set_name(b, name, Some(v), false) == (without(b, name), 12i32),
        set_name(b, name, None, false) == (without(b, name), 12i32),
{
    let rest = without(b, name);
    assert(rest + (name.push(0x3d) + v).push(0) =~= rest + name + seq![0x3du8] + v + seq![0u8]);
    assert(rest + name.push(0) =~= rest + name + seq![0u8]);
}

} // verus!
