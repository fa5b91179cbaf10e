use kernel::fs::buffer::{locate, step, Cache};

fn sector(fill: u8) -> [u8; 512] {
    [fill; 512]
}

#[test]
fn a_cached_sector_is_read_and_written_in_place() {
    let mut c = Cache::new();
    assert!(!c.contains(7));
    assert!(c.copy_into(7, 0, 4).is_err());
    assert!(c.set_cache(7, &sector(0xa5)).is_none());
    assert!(c.contains(7));
    assert_eq!(c.copy_into(7, 510, 2), Ok(vec![0xa5, 0xa5]));
    assert_eq!(c.copy_from(7, 1, &vec![1, 2, 3]), Ok(()));
    assert_eq!(c.copy_into(7, 0, 6), Ok(vec![0xa5, 1, 2, 3, 0xa5, 0xa5]));
    assert!(c.copy_from(8, 0, &vec![1]).is_err());
    assert_eq!(c.copy_into(7, 0, 0), Ok(vec![]));
}

#[test]
fn the_oldest_sector_leaves_when_the_cache_is_full() {
    let mut c = Cache::new();
    for s in 0..60 {
        assert!(c.set_cache(100 + s, &sector(s as u8)).is_none());
    }
    let out = c.set_cache(500, &sector(0xff));
    let out = out.unwrap();
    assert_eq!(out.sector, 100);
    assert_eq!(out.data[0], 0);
    assert!(!c.contains(100));
    assert!(c.contains(101) && c.contains(500));
    let out = c.set_cache(501, &sector(0xfe)).unwrap();
    assert_eq!(out.sector, 101);
    assert_eq!(out.data[511], 1);
}

#[test]
fn next_slot_goes_round() {
    let mut c = Cache::new();
    let (slot, out) = c.next_sector_cache();
    assert_eq!(slot, 0);
    assert!(out.is_none());
    for expected in 1..60 {
        assert_eq!(c.next_sector_cache().0, expected);
    }
    assert_eq!(c.next_sector_cache().0, 0);
}

#[test]
fn flush_lists_what_is_cached() {
    let mut c = Cache::new();
    assert!(c.flush().is_empty());
    c.set_cache(9, &sector(1));
    c.set_cache(3, &sector(2));
    c.copy_from(3, 0, &vec![7]).unwrap();
    let all = c.flush();
    assert_eq!(all.len(), 2);
    assert_eq!((all[0].sector, all[0].data[0]), (9, 1));
    assert_eq!((all[1].sector, all[1].data[0], all[1].data[1]), (3, 7, 2));
}

#[test]
fn positions_and_steps() {
    assert_eq!(locate(0), (0, 0));
    assert_eq!(locate(513), (1, 1));
    assert_eq!(locate(51200), (100, 0));
    assert_eq!(step(0, 1000), 512);
    assert_eq!(step(500, 1000), 12);
    assert_eq!(step(500, 5), 5);
    assert_eq!(step(1024, 0), 0);
}
