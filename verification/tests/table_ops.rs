use intmap::IntMap;
use rand::Rng;

#[test]
fn put_and_get() {
    let mut hm = IntMap::<String>::new(8);
    hm.put(99, "Alley".to_string());
    hm.put(73, "Street".to_string());
    assert_eq!(hm.get(99).unwrap(), &"Alley".to_string());
    assert_eq!(hm.get(73).unwrap(), &"Street".to_string());
}

#[test]
fn remove() {
    let mut hm = IntMap::<String>::new(8);
    hm.put(99, "Alley".to_string());
    hm.put(73, "Street".to_string());
    assert_eq!(hm.remove(99).unwrap(), "Alley".to_string());
    assert_eq!(hm.remove(73).unwrap(), "Street".to_string());
    assert_eq!(hm.get(99), None);
    assert_eq!(hm.remove(73), None);
}

#[test]
fn rehash() {
    let mut hm = IntMap::<String>::new(2);
    let mut vals = vec![];
    let mut rng = rand::thread_rng();
    for _ in 0..1555 {
        let k: usize = rng.gen_range(0..99999);
        let v = format!("Street - {}", k);
        vals.push((k, v.clone()));
        hm.put(k, v);
    }
    for (i, (e, v)) in vals.iter().enumerate() {
        assert_eq!(Some(v), hm.get(*e), "at iteration {}", i);
    }
}

#[test]
fn not_exists() {
    let mut hm = IntMap::<String>::new(8);
    hm.put(99, "Alley".to_string());
    hm.put(73, "Street".to_string());
    assert_eq!(hm.get(88), None);
    assert_eq!(hm.remove(72), None);
}

#[test]
fn contains_value() {
    let mut hm = IntMap::<String>::new(8);
    hm.put(99, "Alley".to_string());
    hm.put(73, "Street".to_string());
    assert_eq!(hm.contains_value("Alley".to_string()), true);
    assert_eq!(hm.contains_value("Streets".to_string()), false);
}

#[test]
fn contains_key() {
    let mut hm = IntMap::<String>::new(8);
    hm.put(99, "Alley".to_string());
    hm.put(73, "Street".to_string());
    assert_eq!(hm.contains_key(73), true);
    assert_eq!(hm.contains_key(88), false);
}

#[test]
fn overwrite_keeps_one_entry() {
    let mut hm = IntMap::<String>::new(4);
    hm.put(5, "first".to_string());
    hm.put(5, "second".to_string());
    assert_eq!(hm.get(5).unwrap(), &"second".to_string());
    assert_eq!(hm.remove(5).unwrap(), "second".to_string());
    assert_eq!(hm.get(5), None);
}

#[test]
fn single_bucket_growth() {
    let mut hm = IntMap::<u64>::new(1);
    for k in 0..50usize {
        hm.put(k, (k * k) as u64);
    }
    for k in 0..50usize {
        assert_eq!(hm.get(k), Some(&((k * k) as u64)));
    }
    assert_eq!(hm.get(50), None);
}

#[test]
fn colliding_keys_displace() {
    // keys sharing the primary hash force the cascading displacement
    let mut hm = IntMap::<usize>::new(4);
    for j in 0..12usize {
        hm.put(4 * j, j);
    }
    for j in 0..12usize {
        assert_eq!(hm.get(4 * j), Some(&j));
    }
    assert_eq!(hm.contains_key(1), false);
}

#[test]
fn remove_then_reinsert() {
    let mut hm = IntMap::<i64>::new(3);
    for k in 0..9usize {
        hm.put(k, k as i64);
    }
    for k in 0..9usize {
        assert_eq!(hm.remove(k), Some(k as i64));
    }
    for k in 0..9usize {
        assert_eq!(hm.get(k), None);
    }
    hm.put(4, -4);
    assert_eq!(hm.get(4), Some(&-4));
    assert_eq!(hm.contains_value(-4), true);
    assert_eq!(hm.contains_value(4), false);
}

#[test]
fn entry_fields() {
    let e = intmap::Entry::new(7, "seven".to_string());
    assert_eq!(e.key, 7);
    assert_eq!(e.value, "seven".to_string());
}

#[test]
fn dense_mixed_workload() {
    let mut hm = IntMap::<usize>::new(2);
    for k in 0..300usize {
        hm.put(k, k + 1);
    }
    for k in (0..300usize).step_by(2) {
        assert_eq!(hm.remove(k), Some(k + 1));
    }
    for k in 0..300usize {
        if k % 2 == 0 {
            assert_eq!(hm.get(k), None);
        } else {
            assert_eq!(hm.get(k), Some(&(k + 1)));
        }
    }
    for k in (0..300usize).step_by(2) {
        hm.put(k, 2 * k);
    }
    for k in (0..300usize).step_by(2) {
        assert_eq!(hm.get(k), Some(&(2 * k)));
    }
}
