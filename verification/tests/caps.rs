use k0::cap::{self, CNode, Cap, CapError, ObjKind, PhysRegion, RetypeError, CNODE_SLOTS};

const G: u64 = 0x1000;

fn region(base: u64, size: u64) -> PhysRegion {
    PhysRegion { base, size }
}

fn untypeds(c: &CNode) -> Vec<(u64, u64)> {
    c.slots()
        .iter()
        .filter_map(|c| match c {
            Cap::Untyped { base, size, used } => {
                assert_eq!(*used, 0);
                Some((*base, *size))
            }
            _ => None,
        })
        .collect()
}

#[test]
fn first_capabilities_in_their_slots() {
    let c = cap::bootstrap(&[region(0x4000_0000, 0x1000)], &[], 0x1234_5000).unwrap();
    assert_eq!(c.slots().len(), 5);
    assert_eq!(c.cap(0), Some(Cap::Empty));
    assert_eq!(c.cap(1), Some(Cap::RootTcb));
    assert_eq!(c.cap(2), Some(Cap::AddrSpace { root_pa: 0x1234_5000 }));
    assert_eq!(c.cap(3), Some(Cap::Console));
    assert_eq!(c.cap(4), Some(Cap::Untyped { base: 0x4000_0000, size: 0x1000, used: 0 }));
    assert_eq!(c.cap(5), None);
    assert_eq!(c.cap_at(4), c.cap(4));
    assert_eq!(c.cap_at(u64::MAX), None);
}

#[test]
fn untyped_memory_is_what_nobody_reserved() {
    let memory = [region(0x1000, 0x9000), region(0x2_0000, 0x1000)];
    // given out of order, touching, overlapping, and sticking out at both ends
    let reserved = [
        region(0x6000, 0x1000),
        region(0x0, 0x2000),
        region(0x3000, 0x800),
        region(0x3400, 0x1000),
        region(0x9800, 0x5000),
    ];
    let c = cap::bootstrap(&memory, &reserved, 0).unwrap();
    assert_eq!(
        untypeds(&c),
        vec![(0x2000, 0x1000), (0x4400, 0x1C00), (0x7000, 0x2800), (0x2_0000, 0x1000)]
    );
    // every byte is in exactly one of the two
    for at in (0x1000u64..0xA000).step_by(0x100) {
        let free = untypeds(&c).iter().filter(|(b, s)| *b <= at && at < b + s).count();
        let held = reserved.iter().any(|r| r.base <= at && at < r.base + r.size);
        assert_eq!(free, usize::from(!held));
    }
}

#[test]
fn fully_reserved_memory_gives_no_untyped() {
    let c = cap::bootstrap(&[region(0x1000, 0x1000)], &[region(0, 0x10_0000)], 0).unwrap();
    assert_eq!(untypeds(&c), vec![]);
    let c = cap::bootstrap(&[], &[region(5, 0)], 0).unwrap();
    assert_eq!(c.slots().len(), 4);
}

#[test]
fn bad_regions_are_refused() {
    let ok = region(0x1000, 0x1000);
    for bad in [region(0x5000, 0), region(u64::MAX, 1), region(2, u64::MAX)] {
        assert_eq!(cap::bootstrap(&[ok, bad], &[], 0).err(), Some(CapError::BadRegion));
        assert_eq!(cap::bootstrap(&[ok], &[bad], 0).err(), Some(CapError::BadRegion));
        assert!(!bad.is_valid());
    }
    assert!(ok.is_valid());
    assert_eq!(ok.end(), 0x2000);
}

#[test]
fn too_many_pieces_are_refused() {
    let mut reserved = Vec::new();
    for i in 0..28u64 {
        reserved.push(region(0x1_0000 + i * 0x2000, 0x1000));
    }
    // 28 holes leave 29 pieces, and 28 slots are free
    let memory = [region(0xF000, 0x10_0000)];
    assert_eq!(cap::bootstrap(&memory, &reserved, 0).err(), Some(CapError::OutOfSlots));
    let c = cap::bootstrap(&memory, &reserved[1..], 0).unwrap();
    assert_eq!(c.slots().len(), CNODE_SLOTS);
}

#[test]
fn retype_carves_in_ascending_order() {
    let mut c = cap::bootstrap(&[region(0x4000_0100, 0x4000)], &[], 0).unwrap();
    let seen = c.retype(4, ObjKind::Frame, G, |pa| pa == 0x4000_1000).unwrap();
    assert_eq!(seen, 5);
    assert_eq!(c.cap(5), Some(Cap::Frame { base: 0x4000_1000, mapped: false }));
    assert_eq!(c.cap(4), Some(Cap::Untyped { base: 0x4000_0100, size: 0x4000, used: 0x1F00 }));
    assert_eq!(c.retype(4, ObjKind::Tcb, G, |_| true), Ok(6));
    assert_eq!(c.cap(6), Some(Cap::Tcb { base: 0x4000_2000 }));
    assert_eq!(c.retype(4, ObjKind::PageTable, G, |_| true), Ok(7));
    assert_eq!(c.cap(7), Some(Cap::PageTable { base: 0x4000_3000, installed: false }));
    // 0x4000_4000..0x4000_5000 would end behind the region
    assert_eq!(c.retype(4, ObjKind::Endpoint, G, |_| true), Err(RetypeError::Exhausted));
}

#[test]
fn endpoint_is_carved_like_the_rest() {
    let mut c = cap::bootstrap(&[region(0x8000, 0x8000)], &[], 0).unwrap();
    assert_eq!(c.retype(4, ObjKind::Endpoint, 0x4000, |_| true), Ok(5));
    assert_eq!(c.cap(5), Some(Cap::Endpoint { base: 0x8000 }));
    assert_eq!(c.retype(4, ObjKind::Endpoint, 0x4000, |_| true), Ok(6));
    assert_eq!(c.cap(6), Some(Cap::Endpoint { base: 0xC000 }));
    assert_eq!(c.retype(4, ObjKind::Endpoint, 0x4000, |_| true), Err(RetypeError::Exhausted));
}

#[test]
fn refused_retype_changes_nothing() {
    let mut c = cap::bootstrap(&[region(0x4000_0000, 0x4000)], &[], 0).unwrap();
    let before = c.slots().to_vec();
    assert_eq!(c.retype(5, ObjKind::Frame, G, |_| true), Err(RetypeError::BadSlot));
    assert_eq!(c.retype(0, ObjKind::Frame, G, |_| true), Err(RetypeError::NotUntyped));
    assert_eq!(c.retype(3, ObjKind::Frame, G, |_| true), Err(RetypeError::NotUntyped));
    assert_eq!(c.retype(4, ObjKind::Frame, G, |_| false), Err(RetypeError::PrepFailed));
    assert_eq!(c.slots(), &before[..]);
}

#[test]
fn full_table_refuses_before_memory_is_looked_at() {
    let mut c = cap::bootstrap(&[region(0x4000_0000, 0x10_0000)], &[], 0).unwrap();
    while c.slots().len() < CNODE_SLOTS {
        c.retype(4, ObjKind::Frame, G, |_| true).unwrap();
    }
    let r = c.retype(4, ObjKind::Frame, G, |_| panic!("nothing to prepare"));
    assert_eq!(r, Err(RetypeError::OutOfSlots));
}

#[test]
fn carved_objects_do_not_overlap() {
    let memory = [region(0x4000_0000, 0x8000), region(0x5000_0800, 0x8000)];
    let mut c = cap::bootstrap(&memory, &[region(0x4000_3000, 0x1000)], 0).unwrap();
    let sources = [4usize, 5, 6];
    let mut bases: Vec<u64> = Vec::new();
    for s in sources {
        let mut last = 0;
        loop {
            match c.retype(s, ObjKind::Frame, G, |_| true) {
                Ok(slot) => match c.cap(slot) {
                    Some(Cap::Frame { base, .. }) => {
                        assert!(base > last || last == 0);
                        last = base;
                        bases.push(base);
                    }
                    other => panic!("{other:?}"),
                },
                Err(e) => {
                    assert_eq!(e, RetypeError::Exhausted);
                    break;
                }
            }
        }
    }
    assert_eq!(bases.len(), 3 + 4 + 7);
    bases.sort();
    for w in bases.windows(2) {
        assert!(w[0] + G <= w[1]);
    }
    assert!(!bases.contains(&0x4000_3000));
}

#[test]
fn site_and_commit_make_a_retype() {
    let mut c = cap::bootstrap(&[region(0x8000, 0x2000)], &[], 0).unwrap();
    assert_eq!(c.site(4, G), Ok(0x8000));
    assert_eq!(c.site(9, G), Err(RetypeError::BadSlot));
    assert_eq!(c.site(1, G), Err(RetypeError::NotUntyped));
    assert_eq!(c.commit(4, ObjKind::Tcb, G, 0x8000), 5);
    assert_eq!(c.cap(5), Some(Cap::Tcb { base: 0x8000 }));
    assert_eq!(c.site(4, G), Ok(0x9000));
}

#[test]
fn capability_can_be_changed_in_its_slot() {
    let mut c = cap::bootstrap(&[region(0x8000, 0x2000)], &[], 0).unwrap();
    c.retype(4, ObjKind::Frame, G, |_| true).unwrap();
    match c.cap_mut(5) {
        Some(Cap::Frame { mapped, .. }) => *mapped = true,
        other => panic!("{other:?}"),
    }
    assert_eq!(c.cap(5), Some(Cap::Frame { base: 0x8000, mapped: true }));
    assert!(c.cap_mut(6).is_none());
    assert!(CNode::new().slots().is_empty());
}

#[test]
fn kinds_name_their_capability() {
    assert_eq!(ObjKind::Frame.cap(7), Cap::Frame { base: 7, mapped: false });
    assert_eq!(ObjKind::PageTable.cap(7), Cap::PageTable { base: 7, installed: false });
    assert_eq!(ObjKind::Tcb.cap(7), Cap::Tcb { base: 7 });
    assert_eq!(ObjKind::Endpoint.cap(7), Cap::Endpoint { base: 7 });
}
