use sleepy::model::Transaction;
use sleepy::pool::{Pool, Strategy};

#[test]
fn basic() {
    let mut p = Pool::new(2, 1);
    let mut tx1 = Transaction::new();
    tx1.set_data(vec![1]);
    let mut tx2 = Transaction::new();
    tx2.set_data(vec![1]);
    let mut tx3 = Transaction::new();
    tx3.set_data(vec![2]);
    let mut tx4 = Transaction::new();
    tx4.set_data(vec![3]);

    assert_eq!(p.enqueue(tx1.clone(), tx1.cal_hash()), true);
    assert_eq!(p.enqueue(tx2.clone(), tx2.cal_hash()), false);
    assert_eq!(p.enqueue(tx3.clone(), tx3.cal_hash()), true);
    assert_eq!(p.enqueue(tx4.clone(), tx4.cal_hash()), true);

    assert_eq!(p.len(), 3);
    p.update(&[tx1.cal_hash()]);
    assert_eq!(p.len(), 2);
    assert_eq!(p.package().0, vec![tx3.clone()]);
    p.update(&[tx3.cal_hash()]);
    assert_eq!(p.package().0, vec![tx4]);
    assert_eq!(p.len(), 1);
}

#[test]
fn package_respects_limit_and_order() {
    let mut p = Pool::new_with_strategy(10, 2, Strategy::FIFO);
    let mut txs = Vec::new();
    for i in 0u8..4 {
        let mut t = Transaction::new();
        t.set_data(vec![i, i + 1]);
        assert!(p.enqueue(t.clone(), t.cal_hash()));
        txs.push(t);
    }
    let (packed, hashes) = p.package();
    assert_eq!(packed.len(), 2);
    assert_eq!(hashes.len(), 2);
    // Insertion order is packaging order under FIFO.
    assert_eq!(packed[0], txs[0]);
    assert_eq!(packed[1], txs[1]);
    assert!(hashes[0] == txs[0].cal_hash());
    assert!(hashes[1] == txs[1].cal_hash());
    // Packaging does not consume the pool.
    assert_eq!(p.len(), 4);
}

#[test]
fn filter_forgets_oldest() {
    // Capacity 1: only the newest hash is remembered.
    let mut p = Pool::new(1, 5);
    let mut t1 = Transaction::new();
    t1.set_data(vec![7]);
    let mut t2 = Transaction::new();
    t2.set_data(vec![8]);
    assert!(p.enqueue(t1.clone(), t1.cal_hash()));
    assert!(!p.enqueue(t1.clone(), t1.cal_hash()));
    assert!(p.enqueue(t2.clone(), t2.cal_hash()));
    // t1's hash has been forgotten by the filter window.
    assert_eq!(p.len(), 2);
}

#[test]
fn update_with_unknown_hash_is_harmless() {
    let mut p = Pool::new(4, 3);
    let mut t = Transaction::new();
    t.set_data(vec![5]);
    assert!(p.enqueue(t.clone(), t.cal_hash()));
    let mut other = Transaction::new();
    other.set_data(vec![6]);
    p.update(&[other.cal_hash()]);
    assert_eq!(p.len(), 1);
    assert_eq!(p.package().0, vec![t]);
}

#[test]
fn order_set_and_content_map_agree() {
    // With a packaging limit above the pool size, one packaging walks the
    // whole ordered set: its length always equals the content map's.
    let mut p = Pool::new(16, 100);
    for i in 0u8..3 {
        let mut t = Transaction::new();
        t.set_data(vec![i]);
        assert!(p.enqueue(t.clone(), t.cal_hash()));
    }
    assert_eq!(p.package().0.len(), p.len());
    let mut victim = Transaction::new();
    victim.set_data(vec![1]);
    p.update(&[victim.cal_hash()]);
    assert_eq!(p.len(), 2);
    assert_eq!(p.package().0.len(), p.len());
}

#[test]
fn strategies_share_the_counter() {
    for s in [Strategy::FIFO, Strategy::PRIORITY, Strategy::VIP] {
        let mut p = Pool::new_with_strategy(8, 8, s);
        let mut a = Transaction::new();
        a.set_data(vec![1]);
        let mut b = Transaction::new();
        b.set_data(vec![2]);
        assert!(p.enqueue(a.clone(), a.cal_hash()));
        assert!(p.enqueue(b.clone(), b.cal_hash()));
        let (packed, _) = p.package();
        assert_eq!(packed, vec![a, b]);
    }
}
