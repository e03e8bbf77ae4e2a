use k0::boot::fdt::{self, BootError, BootInfo, MemRegion};

const AT: usize = 0x4400_0000;

/// Writes a device tree.
struct Tree {
    rsv: Vec<u8>,
    body: Vec<u8>,
    strings: Vec<u8>,
}

impl Tree {
    fn new() -> Tree {
        Tree { rsv: Vec::new(), body: Vec::new(), strings: Vec::new() }
    }

    fn word(&mut self, v: u32) -> &mut Tree {
        self.body.extend_from_slice(&v.to_be_bytes());
        self
    }

    fn pad(&mut self) -> &mut Tree {
        while self.body.len() % 4 != 0 {
            self.body.push(0);
        }
        self
    }

    fn reserve(&mut self, base: u64, size: u64) -> &mut Tree {
        self.rsv.extend_from_slice(&base.to_be_bytes());
        self.rsv.extend_from_slice(&size.to_be_bytes());
        self
    }

    fn open(&mut self, name: &str) -> &mut Tree {
        self.word(1);
        self.body.extend_from_slice(name.as_bytes());
        self.body.push(0);
        self.pad()
    }

    fn close(&mut self) -> &mut Tree {
        self.word(2)
    }

    fn prop(&mut self, name: &str, value: &[u8]) -> &mut Tree {
        let off = self.strings.len() as u32;
        self.strings.extend_from_slice(name.as_bytes());
        self.strings.push(0);
        self.word(3).word(value.len() as u32).word(off);
        self.body.extend_from_slice(value);
        self.pad()
    }

    fn cells(&mut self, addr: u32, size: u32) -> &mut Tree {
        self.prop("#address-cells", &addr.to_be_bytes());
        self.prop("#size-cells", &size.to_be_bytes())
    }

    fn reg(&mut self, pairs: &[(u64, u64)]) -> &mut Tree {
        let mut v = Vec::new();
        for (b, s) in pairs {
            v.extend_from_slice(&b.to_be_bytes());
            v.extend_from_slice(&s.to_be_bytes());
        }
        self.prop("reg", &v)
    }

    fn blob(&self) -> Vec<u8> {
        let mut rsv = self.rsv.clone();
        rsv.extend_from_slice(&[0; 16]);
        let off_struct = 40 + rsv.len();
        let off_strings = off_struct + self.body.len();
        let total = off_strings + self.strings.len();
        let mut out = Vec::new();
        for v in [
            0xd00dfeed,
            total as u32,
            off_struct as u32,
            off_strings as u32,
            40,
            17,
            16,
            0,
            self.strings.len() as u32,
            self.body.len() as u32,
        ] {
            out.extend_from_slice(&(v as u32).to_be_bytes());
        }
        out.extend_from_slice(&rsv);
        out.extend_from_slice(&self.body);
        out.extend_from_slice(&self.strings);
        out
    }

    fn parse(&self) -> Result<BootInfo, BootError> {
        let b = self.blob();
        fdt::parse_blob(&b, AT..AT + b.len())
    }

    fn error(&self) -> BootError {
        match self.parse() {
            Ok(_) => panic!("accepted"),
            Err(e) => e,
        }
    }
}

fn region(base: u64, size: u64) -> MemRegion {
    MemRegion { base, size }
}

fn plain() -> Tree {
    let mut t = Tree::new();
    t.open("").cells(2, 2).open("memory@40000000").reg(&[(0x4000_0000, 0x800_0000)]).close();
    t.close().word(9);
    t
}

fn patched(at: usize, v: u32) -> Vec<u8> {
    let mut b = plain().blob();
    b[at..at + 4].copy_from_slice(&v.to_be_bytes());
    b
}

fn fails(b: &[u8]) -> BootError {
    match fdt::parse_blob(b, 0..b.len()) {
        Ok(_) => panic!("accepted"),
        Err(e) => e,
    }
}

#[test]
fn memory_reserved_and_seeds_are_found() {
    let mut t = Tree::new();
    t.reserve(0x4700_0000, 0x1000).reserve(0x1234, 0).reserve(0x100, 0x10);
    t.open("").cells(2, 2);
    t.open("memory").reg(&[(0x4000_0000, 0x800_0000), (0x1_0000_0000, 0)]).close();
    t.open("memory@80000000").reg(&[(0x8000_0000, 0x1000)]).close();
    t.open("memories").reg(&[(0x9000_0000, 0x1000)]).close();
    t.open("chosen").prop("rng-seed", &[1, 2, 3]).prop("kaslr-seed", &[4, 5]);
    t.prop("bootargs", b"quiet\0").close();
    t.open("reserved-memory").cells(1, 1).open("fw@1000");
    t.prop("reg", &[0, 0, 0x10, 0, 0, 0, 0x20, 0]).close().close();
    t.word(4).close().word(9);
    let info = t.parse().ok().unwrap();
    assert_eq!(info.memory(), &[region(0x4000_0000, 0x800_0000), region(0x8000_0000, 0x1000)]);
    assert_eq!(
        info.reserved(),
        &[region(0x4700_0000, 0x1000), region(0x100, 0x10), region(0x1000, 0x2000)]
    );
    assert_eq!(info.entropy(), &[1, 2, 3, 4, 5]);
    assert_eq!(info.dtb, AT..AT + t.blob().len());
}

#[test]
fn cells_default_to_two_and_one() {
    let mut t = Tree::new();
    t.open("").open("memory");
    t.prop("reg", &[0, 0, 0, 1, 0, 0, 0, 0, 0, 0, 0, 9]).close().close().word(9);
    assert_eq!(t.parse().ok().unwrap().memory(), &[region(0x1_0000_0000, 9)]);
}

#[test]
fn reserved_children_inherit_the_cells_of_the_root() {
    let mut t = Tree::new();
    t.open("").cells(2, 2).open("memory").reg(&[(0x1000, 0x1000)]).close();
    t.open("reserved-memory").open("a").reg(&[(0x3000, 0x10)]);
    t.open("deeper").reg(&[(0x5000, 0x10)]).close().close().close();
    t.close().word(9);
    assert_eq!(t.parse().ok().unwrap().reserved(), &[region(0x3000, 0x10)]);
}

#[test]
fn nested_memory_nodes_do_not_count() {
    let mut t = Tree::new();
    t.open("").cells(2, 2).open("soc").open("memory").reg(&[(0x1000, 0x1000)]).close().close();
    t.close().word(9);
    assert_eq!(t.error(), BootError::NoMemory);
}

/// A tree with all that counts, and what `extra` adds at one of four places in the root.
fn tree_with(place: usize, extra: impl Fn(&mut Tree)) -> Tree {
    let mut t = Tree::new();
    let at = |t: &mut Tree, here: usize| {
        if place == here {
            extra(t)
        }
    };
    t.reserve(0x4700_0000, 0x1000);
    t.open("").cells(2, 2);
    at(&mut t, 0);
    t.open("memory@40000000").reg(&[(0x4000_0000, 0x800_0000)]).close();
    at(&mut t, 1);
    t.open("chosen").prop("rng-seed", &[7, 8]).close();
    at(&mut t, 2);
    t.open("reserved-memory").open("a").reg(&[(0x3000, 0x10)]).close().close();
    at(&mut t, 3);
    t.close().word(9);
    t
}

fn tells_the_same(t: &Tree) {
    let info = t.parse().ok().unwrap();
    assert_eq!(info.memory(), &[region(0x4000_0000, 0x800_0000)]);
    assert_eq!(info.reserved(), &[region(0x4700_0000, 0x1000), region(0x3000, 0x10)]);
    assert_eq!(info.entropy(), &[7, 8]);
}

#[test]
fn other_nodes_do_not_matter() {
    for place in 0..4 {
        tells_the_same(&tree_with(place, |_| {}));
        tells_the_same(&tree_with(place, |t| {
            t.open("soc").cells(1, 1).reg(&[(0x1000, 0x1000)]).word(4);
            t.open("memory@0").reg(&[(0, 0x1000)]).close();
            t.open("chosen").prop("rng-seed", &[1]).close().close();
        }));
        // 32 levels are allowed, 33 are not
        for (levels, fits) in [(31, true), (32, false)] {
            let t = tree_with(place, |t| {
                for _ in 0..levels {
                    t.open("x");
                }
                for _ in 0..levels {
                    t.close();
                }
            });
            if fits {
                tells_the_same(&t);
            } else {
                assert_eq!(t.error(), BootError::TooDeep);
            }
        }
    }
}

#[test]
fn empty_tokens_do_not_matter() {
    for place in 0..4 {
        tells_the_same(&tree_with(place, |t| {
            t.word(4).word(4).word(4);
        }));
    }
    // inside a node that counts
    let mut t = Tree::new();
    t.word(4).open("").word(4).cells(2, 2).word(4).open("memory").word(4);
    t.reg(&[(0x1000, 0x1000)]).word(4).close().word(4).close().word(4).word(9);
    assert_eq!(t.parse().ok().unwrap().memory(), &[region(0x1000, 0x1000)]);
}

#[test]
fn seeds_are_cut_at_the_limit() {
    let mut t = Tree::new();
    t.open("").cells(2, 2).open("memory").reg(&[(0x1000, 0x1000)]).close();
    t.open("chosen").prop("rng-seed", &[7; 70]).prop("kaslr-seed", &[9; 8]).close();
    t.close().word(9);
    let info = t.parse().ok().unwrap();
    assert_eq!(info.entropy().len(), fdt::MAX_ENTROPY);
    assert_eq!(&info.entropy()[68..], &[7, 7, 9, 9]);
}

#[test]
fn address_and_header_errors() {
    let b = plain().blob();
    assert_eq!(fdt::dtb_span(0, &b), Err(BootError::NullPointer));
    assert_eq!(fdt::dtb_span(AT + 4, &b), Err(BootError::Misaligned));
    assert_eq!(fdt::dtb_span(AT, &patched(0, 0xd00dfeee)), Err(BootError::BadMagic));
    assert_eq!(fdt::dtb_span(AT, &patched(4, 39)), Err(BootError::BadHeader));
    assert_eq!(fdt::dtb_span(AT, &patched(4, 0x20_0001)), Err(BootError::BadHeader));
    assert_eq!(fdt::dtb_span(AT, &patched(4, 0x20_0000)), Ok(AT..AT + 0x20_0000));
    assert_eq!(fdt::dtb_span(AT, &b), Ok(AT..AT + b.len()));
    let top = usize::MAX - 7;
    assert_eq!(fdt::dtb_span(top, &b), Err(BootError::BadHeader));
    assert_eq!(fdt::check_address(8), Ok(()));
    assert_eq!(fdt::check_address(0), Err(BootError::NullPointer));
    assert_eq!(fdt::check_address(9), Err(BootError::Misaligned));
}

#[test]
fn whole_blob_is_read_at_its_place() {
    let b = plain().blob();
    let kernel = 0x4008_0000..0x4010_0000;
    let info = fdt::parse(AT, kernel.clone(), 0, &b).ok().unwrap();
    assert_eq!(info.dtb, AT..AT + b.len());
    assert_eq!(info.memory(), &[region(0x4000_0000, 0x800_0000)]);
    let err = |at: usize, k: std::ops::Range<usize>| fdt::parse(at, k, 0, &b).err();
    assert_eq!(err(0x4008_0000, kernel.clone()), Some(BootError::OverlapsKernel));
    assert_eq!(err(AT, AT + b.len() - 1..AT + 0x1_0000), Some(BootError::OverlapsKernel));
    assert_eq!(err(AT, AT + b.len()..AT + 0x1_0000), None);
    assert_eq!(fdt::parse(AT, kernel, usize::MAX, &b).err(), Some(BootError::BadHeader));
}

#[test]
fn layout_errors() {
    assert_eq!(fails(&patched(20, 16)), BootError::UnsupportedVersion);
    assert_eq!(fails(&patched(24, 18)), BootError::UnsupportedVersion);
    assert_eq!(fails(&patched(8, 58)), BootError::BadHeader);
    assert_eq!(fails(&patched(36, 6)), BootError::BadHeader);
    assert_eq!(fails(&patched(36, 0x1000)), BootError::BadHeader);
    assert_eq!(fails(&patched(32, 0x1000)), BootError::BadHeader);
    assert_eq!(fails(&patched(16, 41)), BootError::BadHeader);
    assert_eq!(fails(&patched(16, 0x1000)), BootError::Truncated);
    assert_eq!(fails(&plain().blob()[..38]), BootError::Truncated);
    assert_eq!(fails(&patched(36, 0)), BootError::BadStructure);
}

#[test]
fn structure_errors() {
    let mut t = Tree::new();
    t.open("named").close().word(9);
    assert_eq!(t.error(), BootError::BadStructure);
    let mut t = Tree::new();
    t.close();
    assert_eq!(t.error(), BootError::BadStructure);
    let mut t = Tree::new();
    t.prop("reg", &[]);
    assert_eq!(t.error(), BootError::BadStructure);
    let mut t = Tree::new();
    t.open("").word(9);
    assert_eq!(t.error(), BootError::BadStructure);
    let mut t = Tree::new();
    t.open("").word(7);
    assert_eq!(t.error(), BootError::BadStructure);
    let mut t = Tree::new();
    t.open("").close();
    assert_eq!(t.error(), BootError::BadStructure);
    let mut t = Tree::new();
    t.open("").close().word(9);
    assert_eq!(t.error(), BootError::NoMemory);
    let mut t = Tree::new();
    t.word(1).word(0x41414141);
    assert_eq!(t.error(), BootError::BadStructure);
}

#[test]
fn depth_is_limited() {
    let mut t = Tree::new();
    t.open("");
    for _ in 0..31 {
        t.open("x");
    }
    for _ in 0..32 {
        t.close();
    }
    t.word(9);
    assert_eq!(t.error(), BootError::NoMemory);
    let mut t = Tree::new();
    t.open("");
    for _ in 0..32 {
        t.open("x");
    }
    assert_eq!(t.error(), BootError::TooDeep);
}

#[test]
fn property_errors() {
    let mut t = Tree::new();
    t.open("").word(3).word(100).word(0);
    t.strings.push(0);
    assert_eq!(t.error(), BootError::Truncated);
    let mut t = Tree::new();
    t.open("").word(3).word(0).word(5);
    assert_eq!(t.error(), BootError::BadString);
    let mut t = Tree::new();
    t.open("").word(3).word(0).word(0);
    t.strings.extend_from_slice(b"open");
    assert_eq!(t.error(), BootError::BadString);
    let mut t = Tree::new();
    t.open("").prop("#address-cells", &[0, 0, 2]);
    assert_eq!(t.error(), BootError::UnsupportedCells);
    let mut t = Tree::new();
    t.open("").cells(3, 2).open("memory").reg(&[(0, 0x1000)]);
    assert_eq!(t.error(), BootError::UnsupportedCells);
    let mut t = Tree::new();
    t.open("").cells(2, 0).open("memory").reg(&[(0, 0x1000)]);
    assert_eq!(t.error(), BootError::UnsupportedCells);
}

#[test]
fn region_errors() {
    let memory = |value: &[u8]| {
        let mut t = Tree::new();
        t.open("").cells(2, 2).open("memory").prop("reg", value).close().close().word(9);
        t.error()
    };
    assert_eq!(memory(&[]), BootError::BadReg);
    assert_eq!(memory(&[0; 15]), BootError::BadReg);
    assert_eq!(memory(&[0xFF; 16]), BootError::BadReg);
    let mut many = Vec::new();
    for i in 1..=9u64 {
        many.extend_from_slice(&(i << 20).to_be_bytes());
        many.extend_from_slice(&0x1000u64.to_be_bytes());
    }
    assert_eq!(memory(&many), BootError::TooManyRegions);
    let mut t = Tree::new();
    for i in 1..=9u64 {
        t.reserve(i << 20, 0x1000);
    }
    assert_eq!(t.error(), BootError::TooManyRegions);
    let mut t = Tree::new();
    t.reserve(u64::MAX, 2);
    assert_eq!(t.error(), BootError::BadReg);
}

#[test]
fn eight_regions_fit() {
    let mut t = Tree::new();
    let pairs: Vec<(u64, u64)> = (1..=8).map(|i| (i << 20, 0x1000)).collect();
    t.open("").cells(2, 2).open("memory").reg(&pairs).close().close().word(9);
    assert_eq!(t.parse().ok().unwrap().memory().len(), 8);
}

#[test]
fn error_codes_count_up() {
    let all = [
        BootError::NullPointer,
        BootError::Misaligned,
        BootError::BadMagic,
        BootError::BadHeader,
        BootError::UnsupportedVersion,
        BootError::OverlapsKernel,
        BootError::Truncated,
        BootError::BadStructure,
        BootError::TooDeep,
        BootError::BadString,
        BootError::UnsupportedCells,
        BootError::BadReg,
        BootError::TooManyRegions,
        BootError::NoMemory,
    ];
    for (i, e) in all.iter().enumerate() {
        assert_eq!(e.code(), i as u64);
    }
}
