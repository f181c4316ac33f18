use fefix::{Entries, FieldAccess, FieldMap, IntError, RepeatingGroup};

const PAYLOAD: &[u8] = b"35=D|49=AFUNDMGR|56=ABROKER|15=USD|59=0|";

#[test]
fn field_lookup() {
    let map = FieldMap::parse(PAYLOAD, b'|').unwrap();
    assert_eq!(map.fv_raw(15), Some(&b"USD"[..]));
    assert_eq!(map.fv_raw(99), None);
    assert_eq!(map.fv::<u32>(59), Ok(0));
    assert_eq!(map.fv::<u32>(99), Err(None));
    assert_eq!(map.fv::<u32>(49), Err(Some(IntError::Other)));
    assert_eq!(map.fv::<&[u8; 3]>(15), Ok(b"USD"));
    assert_eq!(map.fvl::<u32>(59), Ok(0));
    assert_eq!(map.fv_opt::<u32>(99), None);
    assert_eq!(map.fv_opt::<u32>(59), Some(Ok(0)));
    assert_eq!(map.fvl_opt::<bool>(15), Some(Err(fefix::BoolError::WrongLength)));
}

#[test]
fn duplicate_tags_first_wins() {
    let map = FieldMap::parse(b"58=first|58=second|", b'|').unwrap();
    assert_eq!(map.fv_raw(58), Some(&b"first"[..]));
}

#[test]
fn malformed_payloads() {
    assert!(FieldMap::parse(b"35=D", b'|').is_none());
    assert!(FieldMap::parse(b"=D|", b'|').is_none());
    assert!(FieldMap::parse(b"035=D|", b'|').is_none());
    assert!(FieldMap::parse(b"0=D|", b'|').is_none());
    assert!(FieldMap::parse(b"65536=D|", b'|').is_none());
    assert!(FieldMap::parse(b"3a=D|", b'|').is_none());
    assert!(FieldMap::parse(b"", b'|').is_some());
    let map = FieldMap::parse(b"58=a=b|", b'|').unwrap();
    assert_eq!(map.fv_raw(58), Some(&b"a=b"[..]));
}

const GROUPED: &[u8] = b"35=V|146=3|55=AAA|48=1|55=BBB|55=CCC|48=3|10000=x|";

#[test]
fn group_entries() {
    let map = FieldMap::parse(GROUPED, b'|').unwrap();
    let group = map.group(146, 55, &[48]).unwrap();
    assert_eq!(group.len(), 3);
    assert_eq!(group.entry(0).fv_raw(55), Some(&b"AAA"[..]));
    assert_eq!(group.entry(0).fv::<u32>(48), Ok(1));
    assert_eq!(group.entry(1).fv_raw(48), None);
    assert_eq!(group.entry(2).fv::<u32>(48), Ok(3));
    assert_eq!(group.entry(2).fv_raw(10000), None);
}

#[test]
fn group_errors() {
    let map = FieldMap::parse(GROUPED, b'|').unwrap();
    assert!(matches!(map.group(999, 55, &[48]), Err(None)));
    assert!(matches!(map.group(35, 55, &[48]), Err(Some(IntError::Other))));
    let short = FieldMap::parse(b"146=4|55=AAA|55=BBB|", b'|').unwrap();
    assert!(matches!(short.group(146, 55, &[]), Err(Some(IntError::Other))));
    let empty = FieldMap::parse(b"146=0|58=x|", b'|').unwrap();
    assert_eq!(empty.group(146, 55, &[]).unwrap().len(), 0);
}

#[test]
fn group_iteration_order() {
    let map = FieldMap::parse(GROUPED, b'|').unwrap();
    let group = map.group(146, 55, &[48]).unwrap();
    let mut forward = Vec::new();
    let mut it = Entries::new(&group);
    assert_eq!(it.size_hint(), (3, Some(3)));
    while let Some(entry) = it.next() {
        forward.push(entry.fv_raw(55).unwrap().to_vec());
        assert_eq!(it.size_hint().0, it.len());
    }
    assert_eq!(forward, vec![b"AAA".to_vec(), b"BBB".to_vec(), b"CCC".to_vec()]);
    assert!(it.next().is_none());
    assert!(it.next().is_none());
    assert_eq!(it.size_hint(), (0, Some(0)));

    let mut backward = Vec::new();
    let mut it = Entries::new(&group);
    while let Some(entry) = it.next_back() {
        backward.push(entry.fv_raw(55).unwrap().to_vec());
    }
    assert_eq!(backward, vec![b"CCC".to_vec(), b"BBB".to_vec(), b"AAA".to_vec()]);
}

#[test]
fn group_iteration_both_ends() {
    let map = FieldMap::parse(GROUPED, b'|').unwrap();
    let group = map.group(146, 55, &[48]).unwrap();
    let mut it = Entries::new(&group);
    let first = it.next().unwrap();
    let last = it.next_back().unwrap();
    assert_eq!(first.fv_raw(55), Some(&b"AAA"[..]));
    assert_eq!(last.fv_raw(55), Some(&b"CCC"[..]));
    assert_eq!(it.len(), 1);
    let middle = it.next_back().unwrap();
    assert_eq!(middle.fv_raw(55), Some(&b"BBB"[..]));
    assert!(it.next().is_none());
    assert!(it.next_back().is_none());
}

#[test]
fn group_entries_method() {
    let map = FieldMap::parse(GROUPED, b'|').unwrap();
    let group = map.group(146, 55, &[48]).unwrap();
    let mut it = group.entries();
    assert_eq!(it.len(), 3);
    assert_eq!(it.next().unwrap().fv_raw(55), Some(&b"AAA"[..]));
    assert_eq!(it.next_back().unwrap().fv_raw(55), Some(&b"CCC"[..]));
    assert_eq!(it.size_hint(), (1, Some(1)));
    assert!(matches!(map.group_opt(999, 55, &[48]), None));
    assert!(matches!(map.group_opt(146, 55, &[48]), Some(Ok(_))));
}
