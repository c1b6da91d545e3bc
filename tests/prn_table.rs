use nbplink::address;
use nbplink::prn_id;
use nbplink::prn_table;

const TABLE_SIZE: usize = 1000;

#[test]
fn test_contains() {
    let mut prn = prn_id::new(address::encode(['K', 'I', '7', 'E', 'S', 'T', '0']).unwrap());
    let mut table = prn_table::new();

    for _ in 0..TABLE_SIZE * 2 {
        let prn_value = prn.next();
        table.add(prn_value);
        assert!(table.contains(prn_value));
    }
}

#[test]
fn test_last_1000() {
    let mut prn = prn_id::new(address::encode(['K', 'I', '7', 'E', 'S', 'T', '0']).unwrap());
    let mut table = prn_table::new();

    let first_prn = prn.next();
    table.add(first_prn);
    assert!(table.contains(first_prn));

    for _ in 0..TABLE_SIZE {
        table.add(prn.next());
    }

    assert!(!table.contains(first_prn));
}

#[test]
fn fresh_table_holds_zeros_only() {
    let table = prn_table::new();
    assert!(table.contains(0));
    assert!(!table.contains(1));
}
