use nbplink::address;
use nbplink::prn_id;

#[test]
fn prn_id_test_unique() {
    const SAMPLE_SIZE: usize = 2048;

    let mut table: [u32; SAMPLE_SIZE] = [0; SAMPLE_SIZE];
    let mut prn = prn_id::new(address::encode(['K', 'I', '7', 'E', 'S', 'T', '0']).unwrap());

    for i in 0..SAMPLE_SIZE {
        table[i] = prn.current();
        prn.next();
    }

    for id in table.iter() {
        assert!(table.iter().any(|test| test == id));
    }
}

#[test]
fn prn_id_test_unique_seq() {
    let mut prn_first = prn_id::new(address::encode(['K', 'I', '7', 'E', 'S', 'T', '0']).unwrap());
    let mut prn_second = prn_id::new(address::encode(['K', 'F', '7', 'S', 'J', 'K', '0']).unwrap());

    for _ in 0..1024 {
        assert!(prn_first.next() != prn_second.next());
    }
}

#[test]
fn prn_id_test_seed() {
    let mut prn = prn_id::new(address::encode(['K', 'I', '7', 'E', 'S', 'T', '0']).unwrap());

    const SEED: u32 = 0xFF123456;
    prn.seed(SEED);

    let initial: Vec<u32> = (0..1024).map(|_| prn.next()).collect();
    let different: Vec<u32> = (0..1024).map(|_| prn.next()).collect();

    prn.seed(SEED);

    let repeat: Vec<u32> = (0..1024).map(|_| prn.next()).collect();

    assert_eq!(initial, repeat);
    assert!(initial != different);
    assert!(repeat != different);
}

#[test]
fn prn_first_steps() {
    let mut prn = prn_id::new(0);
    assert_eq!(prn.current(), 0xFFFF_FFFF);
    // All ones: the feedback bit is 1 ^ 1 ^ 1 ^ 1 = 0.
    assert_eq!(prn.next(), 0x7FFF_FFFF);
    prn.seed(1);
    // Only bit 0 set: feedback is 1, shifted in at the top.
    assert_eq!(prn.next(), 0x8000_0000);
    let mut with_callsign = prn_id::new(0x0000_00FF);
    assert_eq!(with_callsign.next(), 0x7FFF_FF00);
}

#[test]
fn prn_never_reaches_zero() {
    let mut prn = prn_id::new(0);
    for _ in 0..5000 {
        assert_ne!(prn.next(), 0);
    }
}
