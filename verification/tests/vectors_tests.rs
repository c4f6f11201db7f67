use string_abi::argz::{
    argz_add, argz_add_sep, argz_append, argz_count, argz_create, argz_create_sep, argz_delete,
    argz_entry_len_at, argz_entry_offset, argz_extract, argz_insert, argz_next, argz_replace,
    argz_sep_entries, argz_stringify,
};
use string_abi::envz::{envz_add, envz_entry, envz_get, envz_merge, envz_remove, envz_strip};
use string_abi::errors::{EINVAL, ENOMEM};
use string_abi::memory::{Memory, Ptr};

fn at(addr: usize) -> Ptr {
    Ptr { addr, remaining: None, owned: false }
}

fn known(addr: usize, remaining: usize) -> Ptr {
    Ptr { addr, remaining: Some(remaining), owned: true }
}

fn null() -> Ptr {
    at(0)
}

fn space(texts: &[(usize, &[u8])]) -> Memory {
    let mut mem = Memory::new(1);
    for (addr, text) in texts {
        mem.write(*addr, text);
    }
    mem
}

fn vector(b: &[u8]) -> Option<Vec<u8>> {
    Some(b.to_vec())
}

#[test]
fn argz_create_joins_strings() {
    let mem = space(&[(100, b"one\0"), (200, b"\0"), (300, b"three\0")]);
    let list = [at(100), at(200), at(300), null(), at(100)];
    let mut v = vector(b"");
    assert_eq!(argz_create(&mem, Some(&list), &mut v, true), 0);
    assert_eq!(v, vector(b"one\0\0three\0"));
    assert_eq!(argz_create(&mem, None, &mut v, false), 0);
    assert_eq!(v, vector(b""));
    assert_eq!(argz_create(&mem, Some(&[null()]), &mut v, false), 0);
    assert_eq!(argz_create(&mem, Some(&list), &mut v, false), ENOMEM);
    assert_eq!(v, vector(b""));
    assert_eq!(argz_create(&mem, Some(&list), &mut None, true), EINVAL);
    assert_eq!(argz_create(&mem, Some(&[known(100, 3)]), &mut v, true), EINVAL);
}

#[test]
fn argz_create_sep_splits() {
    let mem = space(&[(100, b"::a:b::c\0"), (200, b"a:\0"), (300, b":::\0"), (400, b"\0")]);
    let mut v = vector(b"old\0");
    assert_eq!(argz_create_sep(&mem, at(100), b':' as i32, &mut v, true), 0);
    assert_eq!(v, vector(b"a\0b\0c\0"));
    assert_eq!(argz_create_sep(&mem, at(200), b':' as i32, &mut v, true), 0);
    assert_eq!(v, vector(b"a\0\0"));
    assert_eq!(argz_create_sep(&mem, at(300), b':' as i32, &mut v, true), 0);
    assert_eq!(v, vector(b"\0"));
    assert_eq!(argz_create_sep(&mem, at(400), b':' as i32, &mut v, false), 0);
    assert_eq!(v, vector(b""));
    assert_eq!(argz_create_sep(&mem, null(), b':' as i32, &mut v, false), 0);
    assert_eq!(argz_create_sep(&mem, at(100), b':' as i32, &mut v, false), ENOMEM);
    assert_eq!(argz_create_sep(&mem, known(100, 2), b':' as i32, &mut v, true), EINVAL);
    assert_eq!(argz_create_sep(&mem, at(100), b':' as i32, &mut None, true), EINVAL);
}

#[test]
fn separated_entries() {
    let none: Vec<Vec<u8>> = Vec::new();
    assert_eq!(argz_sep_entries(b"", b','), none);
    assert_eq!(argz_sep_entries(b"a,,b", b','), vec![b"a".to_vec(), b"b".to_vec()]);
    assert_eq!(argz_sep_entries(b",", b','), vec![b"".to_vec()]);
    assert_eq!(argz_sep_entries(b"a,", b','), vec![b"a".to_vec(), b"".to_vec()]);
}

#[test]
fn argz_walks() {
    let v = b"ab\0\0c\0";
    assert_eq!(argz_count(v), 3);
    assert_eq!(argz_count(b""), 0);
    assert_eq!(argz_next(v, None), Some(0));
    assert_eq!(argz_next(v, Some(0)), Some(3));
    assert_eq!(argz_next(v, Some(1)), Some(3));
    assert_eq!(argz_next(v, Some(3)), Some(4));
    assert_eq!(argz_next(v, Some(4)), None);
    assert_eq!(argz_next(v, Some(99)), None);
    assert_eq!(argz_next(b"", None), None);
    assert_eq!(argz_extract(v), vec![Some(0), Some(3), Some(4), None]);
    assert_eq!(argz_extract(b"ab\0cd"), vec![Some(0), None]);
    assert!(argz_extract(b"").is_empty());
    assert_eq!(argz_entry_len_at(v, 0), Some(2));
    assert_eq!(argz_entry_len_at(b"ab", 0), None);
    assert_eq!(argz_entry_len_at(v, 6), None);
    assert_eq!(argz_entry_offset(v, Some(3)), Some(3));
    assert_eq!(argz_entry_offset(v, Some(1)), None);
    assert_eq!(argz_entry_offset(v, None), None);
}

#[test]
fn argz_add_and_append() {
    let mem = space(&[(100, b"new\0"), (200, b"x,y\0")]);
    let mut v = vector(b"a\0");
    assert_eq!(argz_add(&mut v, &mem, at(100), true), 0);
    assert_eq!(v, vector(b"a\0new\0"));
    assert_eq!(argz_add(&mut v, &mem, at(100), false), ENOMEM);
    assert_eq!(argz_add(&mut v, &mem, null(), true), EINVAL);
    assert_eq!(argz_add(&mut v, &mem, known(100, 3), true), EINVAL);
    assert_eq!(argz_add(&mut None, &mem, at(100), true), EINVAL);
    assert_eq!(argz_append(&mut v, b"p\0q\0", true), 0);
    assert_eq!(v, vector(b"a\0new\0p\0q\0"));
    assert_eq!(argz_append(&mut v, b"", false), 0);
    assert_eq!(argz_append(&mut v, b"z\0", false), ENOMEM);
    assert_eq!(argz_append(&mut None, b"z\0", true), EINVAL);
    let mut v = vector(b"a\0");
    assert_eq!(argz_add_sep(&mut v, &mem, at(200), b',' as i32, &[true, true]), 0);
    assert_eq!(v, vector(b"a\0x\0y\0"));
    let mut v = vector(b"a\0");
    assert_eq!(argz_add_sep(&mut v, &mem, at(200), b',' as i32, &[true]), ENOMEM);
    assert_eq!(v, vector(b"a\0x\0"));
    assert_eq!(argz_add_sep(&mut v, &mem, null(), b',' as i32, &[true]), EINVAL);
}

#[test]
fn argz_insert_and_delete() {
    let mem = space(&[(100, b"mid\0")]);
    let mut v = vector(b"a\0b\0");
    assert_eq!(argz_insert(&mut v, Some(2), &mem, at(100), true), 0);
    assert_eq!(v, vector(b"a\0mid\0b\0"));
    assert_eq!(argz_insert(&mut v, None, &mem, at(100), true), 0);
    assert_eq!(v, vector(b"a\0mid\0b\0mid\0"));
    assert_eq!(argz_insert(&mut v, Some(3), &mem, at(100), true), EINVAL);
    assert_eq!(argz_insert(&mut v, Some(99), &mem, at(100), true), EINVAL);
    assert_eq!(argz_insert(&mut v, Some(0), &mem, null(), true), EINVAL);
    assert_eq!(argz_insert(&mut v, Some(0), &mem, at(100), false), ENOMEM);
    argz_delete(&mut v, Some(2));
    assert_eq!(v, vector(b"a\0b\0mid\0"));
    argz_delete(&mut v, Some(1));
    argz_delete(&mut v, None);
    assert_eq!(v, vector(b"a\0b\0mid\0"));
    let mut one = vector(b"x\0");
    argz_delete(&mut one, Some(0));
    assert_eq!(one, vector(b""));
    let mut open = vector(b"x");
    argz_delete(&mut open, Some(0));
    assert_eq!(open, vector(b"x"));
}

#[test]
fn argz_replace_works_inside_entries() {
    let mem = space(&[(100, b"c\0"), (200, b"aac\0"), (300, b"\0"), (400, b"zz\0")]);
    let mut v = vector(b"ac\0xyz\0cc\0");
    let mut count = Some(5);
    assert_eq!(argz_replace(&mut v, &mem, at(100), at(200), &mut count, true), 0);
    assert_eq!(v, vector(b"aaac\0xyz\0aacaac\0"));
    assert_eq!(count, Some(7));
    let mut none = None;
    assert_eq!(argz_replace(&mut v, &mem, at(400), at(200), &mut none, false), 0);
    assert_eq!(argz_replace(&mut v, &mem, at(300), at(200), &mut count, false), 0);
    assert_eq!(count, Some(7));
    assert_eq!(argz_replace(&mut v, &mem, at(100), at(300), &mut count, false), ENOMEM);
    assert_eq!(count, Some(9));
    assert_eq!(v, vector(b"aaac\0xyz\0aacaac\0"));
    assert_eq!(argz_replace(&mut v, &mem, null(), at(300), &mut count, true), EINVAL);
    assert_eq!(argz_replace(&mut v, &mem, at(100), null(), &mut count, true), EINVAL);
    assert_eq!(argz_replace(&mut None, &mem, at(100), at(300), &mut count, true), EINVAL);
    let mut open = vector(b"c\0c");
    assert_eq!(argz_replace(&mut open, &mem, at(100), at(200), &mut count, true), EINVAL);
    assert_eq!(argz_replace(&mut vector(b""), &mem, at(100), at(200), &mut count, true), 0);
}

#[test]
fn argz_stringify_keeps_the_last_byte() {
    let mut v = b"a\0b\0".to_vec();
    argz_stringify(&mut v, b':' as i32);
    assert_eq!(v, b"a:b\0");
    let mut one = b"\0".to_vec();
    argz_stringify(&mut one, b':' as i32);
    assert_eq!(one, b"\0");
}

#[test]
fn envz_looks_up() {
    let mem = space(&[
        (100, b"PATH\0"),
        (200, b"EMPTY\0"),
        (300, b"FLAG\0"),
        (400, b"PA\0"),
        (500, b"HOME\0"),
    ]);
    let v = b"HOMER=x\0PATH=/bin=1\0EMPTY=\0FLAG\0";
    assert_eq!(envz_entry(v, &mem, at(100)), Some(8));
    assert_eq!(envz_get(v, &mem, at(100)), Some(13));
    assert_eq!(envz_get(v, &mem, at(200)), Some(26));
    assert_eq!(envz_entry(v, &mem, at(300)), Some(27));
    assert_eq!(envz_get(v, &mem, at(300)), None);
    assert_eq!(envz_entry(v, &mem, at(400)), None);
    assert_eq!(envz_entry(v, &mem, at(500)), None);
    assert_eq!(envz_entry(v, &mem, null()), None);
    assert_eq!(envz_entry(b"", &mem, at(100)), None);
    assert_eq!(envz_entry(b"A=1\0PATH", &mem, at(100)), None);
}

#[test]
fn envz_add_replaces() {
    let mem = space(&[(100, b"A\0"), (200, b"new\0"), (300, b"B\0")]);
    let mut v = vector(b"A=old\0C=3\0");
    assert_eq!(envz_add(&mut v, &mem, at(100), at(200), true), 0);
    assert_eq!(v, vector(b"C=3\0A=new\0"));
    assert_eq!(envz_add(&mut v, &mem, at(300), null(), true), 0);
    assert_eq!(v, vector(b"C=3\0A=new\0B\0"));
    assert_eq!(envz_add(&mut v, &mem, at(100), at(200), false), ENOMEM);
    assert_eq!(v, vector(b"C=3\0B\0"));
    assert_eq!(envz_add(&mut v, &mem, null(), at(200), true), EINVAL);
    assert_eq!(envz_add(&mut v, &mem, at(100), known(200, 2), true), EINVAL);
    assert_eq!(envz_add(&mut None, &mem, at(100), at(200), true), EINVAL);
    envz_remove(&mut v, &mem, at(300));
    assert_eq!(v, vector(b"C=3\0"));
    envz_remove(&mut v, &mem, at(300));
    envz_remove(&mut v, &mem, null());
    assert_eq!(v, vector(b"C=3\0"));
}

#[test]
fn envz_merge_overrides_on_demand() {
    let mut v = vector(b"A=1\0B=2\0");
    assert_eq!(envz_merge(&mut v, b"B=9\0C=3\0D\0", 0, &[true, true]), 0);
    assert_eq!(v, vector(b"A=1\0B=2\0C=3\0D\0"));
    assert_eq!(envz_merge(&mut v, b"B=9\0", 1, &[true]), 0);
    assert_eq!(v, vector(b"A=1\0C=3\0D\0B=9\0"));
    assert_eq!(envz_merge(&mut v, b"E=5\0F=6\0", 0, &[true]), ENOMEM);
    assert_eq!(v, vector(b"A=1\0C=3\0D\0B=9\0E=5\0"));
    assert_eq!(envz_merge(&mut v, b"G=7\0open", 0, &[true]), EINVAL);
    assert_eq!(v, vector(b"A=1\0C=3\0D\0B=9\0E=5\0G=7\0"));
    assert_eq!(envz_merge(&mut v, b"", 0, &[]), 0);
    assert_eq!(envz_merge(&mut None, b"A=1\0", 0, &[true]), EINVAL);
}

#[test]
fn envz_strip_drops_entries_without_a_value() {
    let mut v = vector(b"A=1\0FLAG\0B=\0OTHER\0");
    envz_strip(&mut v);
    assert_eq!(v, vector(b"A=1\0B=\0"));
    let mut open = vector(b"FLAG\0open");
    envz_strip(&mut open);
    assert_eq!(open, vector(b"FLAG\0open"));
}

#[test]
fn law_delete_undoes_insert() {
    let mem = space(&[(100, b"mid\0")]);
    let mut v = vector(b"a\0b\0");
    argz_insert(&mut v, Some(2), &mem, at(100), true);
    argz_delete(&mut v, Some(2));
    assert_eq!(v, vector(b"a\0b\0"));
}

#[test]
fn law_joined_entries_count() {
    let mem = space(&[(100, b"p\0"), (200, b"q\0")]);
    let mut v = vector(b"");
    argz_create(&mem, Some(&[at(100), at(200), at(100)]), &mut v, true);
    assert_eq!(argz_count(&v.clone().unwrap()), 3);
    argz_add(&mut v, &mem, at(200), true);
    assert_eq!(argz_count(&v.unwrap()), 4);
}

#[test]
fn law_joined_entries_read_back() {
    let mem = space(&[(100, b"one\0"), (200, b"\0"), (300, b"three\0")]);
    let mut v = vector(b"");
    argz_create(&mem, Some(&[at(100), at(200), at(300)]), &mut v, true);
    let b = v.unwrap();
    let places = argz_extract(&b);
    assert_eq!(places, vec![Some(0), Some(4), Some(5), None]);
    let words: [&[u8]; 3] = [b"one", b"", b"three"];
    for (place, word) in places.iter().flatten().zip(words) {
        let n = argz_entry_len_at(&b, *place).unwrap();
        assert_eq!(&b[*place..*place + n], word);
    }
}

#[test]
fn law_set_name_is_found() {
    let mem = space(&[(100, b"NAME\0"), (200, b"value\0")]);
    let mut v = vector(b"X=1\0NAME=old\0");
    envz_add(&mut v, &mem, at(100), at(200), true);
    let b = v.unwrap();
    let place = envz_get(&b, &mem, at(100)).unwrap();
    assert_eq!(&b[place..], b"value\0");
}

#[test]
fn law_set_name_reads_back() {
    let mem = space(&[(100, b"NAME\0"), (200, b"value\0")]);
    let mut v = vector(b"NAME=old\0X=1\0");
    assert_eq!(envz_add(&mut v, &mem, at(100), null(), true), 0);
    let b = v.clone().unwrap();
    assert_eq!(b, b"X=1\0NAME\0");
    assert_eq!(envz_entry(&b, &mem, at(100)), Some(4));
    assert_eq!(envz_get(&b, &mem, at(100)), None);
    assert_eq!(envz_add(&mut v, &mem, at(100), at(200), true), 0);
    let b = v.unwrap();
    assert_eq!(b, b"X=1\0NAME=value\0");
    assert_eq!(envz_get(&b, &mem, at(100)), Some(9));
}

#[test]
fn law_setting_a_name_keeps_the_others() {
    let mem = space(&[(100, b"B\0"), (200, b"A\0"), (300, b"C\0"), (400, b"new\0")]);
    for granted in [true, false] {
        let mut v = vector(b"A=1\0B=2\0BB=3\0C\0");
        envz_add(&mut v, &mem, at(100), at(400), granted);
        let b = v.unwrap();
        let place = envz_get(&b, &mem, at(200)).unwrap();
        assert_eq!(&b[place..place + 2], b"1\0");
        assert!(envz_entry(&b, &mem, at(300)).is_some());
        assert_eq!(envz_get(&b, &mem, at(300)), None);
    }
}

#[test]
fn law_removing_a_name_keeps_the_others() {
    let mem = space(&[(100, b"B\0"), (200, b"BB\0")]);
    let mut v = vector(b"A=1\0B=2\0BB=3\0");
    envz_remove(&mut v, &mem, at(100));
    let b = v.unwrap();
    assert_eq!(b, b"A=1\0BB=3\0");
    assert_eq!(envz_get(&b, &mem, at(200)), Some(7));
}

#[test]
fn law_merge_without_override_only_adds() {
    let before = b"A=1\0B\0".to_vec();
    let mut v = Some(before.clone());
    envz_merge(&mut v, b"B=2\0C=3\0", 0, &[true]);
    assert!(v.unwrap().starts_with(&before));
}

#[test]
fn law_stringified_is_one_string() {
    let mut v = b"a\0\0b\0".to_vec();
    argz_stringify(&mut v, b'+' as i32);
    assert_eq!(v, b"a++b\0");
}
