use gowr_noclip::memory_mappings;
use gowr_noclip::memory_resolver::{copy_word, ChainStep, ChainWalk, GameMappings};

fn walk(start: usize, offsets: &[usize], reads: &[Option<usize>]) -> (Option<usize>, Vec<usize>) {
    let mut w = ChainWalk::new(start, offsets);
    let mut addresses = Vec::new();
    let mut next = 0;
    loop {
        match w.step() {
            ChainStep::Read(a) => {
                addresses.push(a);
                w.feed(reads[next]);
                next += 1;
            }
            ChainStep::Done(r) => return (r, addresses),
        }
    }
}

#[test]
fn chain_walk_follows_pointers_and_offsets() {
    let (r, addrs) = walk(0x5000, &[0x10, 0x20], &[Some(0x10_0000), Some(0x20_0000)]);
    assert_eq!(r, Some(0x20_0020));
    assert_eq!(addrs, vec![0x5000, 0x10_0010]);
}

#[test]
fn chain_walk_of_no_links_is_the_start() {
    assert_eq!(walk(0x1234, &[], &[]), (Some(0x1234), vec![]));
}

#[test]
fn chain_walk_fails_on_small_pointer_or_failed_read() {
    assert_eq!(walk(0x5000, &[0x10, 0x20], &[Some(0xFFFF), Some(0x20_0000)]), (None, vec![0x5000]));
    assert_eq!(walk(0x5000, &[0x10, 0x20], &[Some(0x10_0000), None]), (None, vec![0x5000, 0x10_0010]));
}

#[test]
fn copy_word_fills_little_endian_bytes() {
    let mut buf = [0u8; 11];
    let next = copy_word(&mut buf, 0, 0x0807_0605_0403_0201);
    assert_eq!(next, 8);
    let next = copy_word(&mut buf, next, 0x0000_0000_00CC_BBAA);
    assert_eq!(next, 11);
    assert_eq!(buf, [1, 2, 3, 4, 5, 6, 7, 8, 0xAA, 0xBB, 0xCC]);
}

#[test]
fn current_layout_uses_the_build_globals() {
    let m = GameMappings::current_layout();
    assert_eq!(m.transform_global_rva, 0x5D95520);
    assert_eq!(m.directional_global_rva, 0x5D954A0);
    assert_eq!(memory_mappings::DIRECTIONAL_CHAIN, [0xB00, 0xDC0]);
}
