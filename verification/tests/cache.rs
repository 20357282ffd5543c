use std::collections::HashMap;
use std::marker::PhantomData;

use mydht_base::kvcache::rand_cache::RandCache;
use mydht_base::kvcache::{inner_cache_bv_rand, KVCache, NoCache};

#[test]
/// test of default random
fn test_rand_generic() {
    let t_none: Option<&fn(&bool) -> bool> = None;
    let filter_in = |b: &bool| *b;
    let filter = Some(&filter_in);
    let mut m: HashMap<usize, bool> = HashMap::new();
    assert!(0 == m.next_random_values(1, t_none).len());
    m.insert(1, true);
    assert!(0 == m.next_random_values(1, t_none).len());
    m.insert(2, true);
    assert!(1 == m.next_random_values(1, t_none).len());
    assert!(1 == m.next_random_values(2, t_none).len());
    m.insert(11, false);
    m.insert(12, false);
    assert!(2 == m.next_random_values(2, t_none).len());
    assert!(1 == m.next_random_values(2, filter).len());
    m.insert(3, true);
    assert!(1 == m.next_random_values(1, filter).len());
    assert!(2 == m.next_random_values(2, filter).len());
    // fill exactly 8 val
    for i in 4..9 {
        m.insert(i, true);
    }
    assert!(10 == m.len());
    assert!(1 == m.next_random_values(1, filter).len());
    assert!(5 == m.next_random_values(8, filter).len());
    m.insert(9, true);
    assert!(1 == m.next_random_values(1, filter).len());
    assert!(6 == m.next_random_values(8, filter).len());
}

#[test]
fn test_rand_generic_ca() {
    let h: HashMap<usize, ()> = HashMap::new();
    let mut m = RandCache::new_add(h, 3);
    assert!(0 == m.next_random_values(1).len());
    m.add_val_c(1, ());
    assert!(0 == m.next_random_values(1).len());
    m.add_val_c(2, ());
    assert!(1 == m.next_random_values(1).len());
    assert!(1 == m.next_random_values(2).len());
    m.add_val_c(3, ());
    assert!(1 == m.next_random_values(1).len());
    assert!(2 == m.next_random_values(2).len());
    // fill exactly 8 val
    for i in 4..9 {
        m.add_val_c(i, ());
    }
    assert!(8 == m.len_c());
    assert!(1 == m.next_random_values(1).len());
    assert!(5 == m.next_random_values(8).len());
    m.add_val_c(9, ());
    assert!(1 == m.next_random_values(1).len());
    assert!(6 == m.next_random_values(8).len());
}

#[test]
fn random_values_pass_the_filter_and_are_distinct() {
    let mut m: HashMap<usize, usize> = HashMap::new();
    for i in 0..30 {
        m.insert(i, i);
    }
    let even = |v: &usize| *v % 2 == 0;
    for _ in 0..20 {
        let r: Vec<usize> = m.next_random_values(6, Some(&even)).into_iter().copied().collect();
        // 15 values pass, at most ten (two thirds) are drawn: six asked
        assert_eq!(r.len(), 6);
        for v in r.iter() {
            assert!(*v % 2 == 0);
        }
        let mut sorted = r.clone();
        sorted.sort();
        sorted.dedup();
        assert_eq!(sorted.len(), 6);
    }
}

#[test]
fn random_values_capped_at_two_thirds() {
    let mut m: HashMap<usize, usize> = HashMap::new();
    for i in 0..6 {
        m.insert(i, i);
    }
    let none: Option<&fn(&usize) -> bool> = None;
    assert_eq!(m.next_random_values(100, none).len(), 4);
    assert_eq!(m.next_random_values(0, none).len(), 0);
}

#[test]
fn draw_takes_every_set_bit_in_order() {
    let vals: Vec<usize> = (1..9).collect();
    let refs: Vec<&usize> = vals.iter().collect();
    // all bits set: ratio 8 / 5 = 1, the first five are taken
    let r = inner_cache_bv_rand(&refs, &[0b1111_1111], 0, 5).unwrap();
    assert_eq!(r.into_iter().copied().collect::<Vec<usize>>(), vec![1, 2, 3, 4, 5]);
}

#[test]
fn draw_takes_every_ratio_th_set_bit() {
    let vals: Vec<usize> = (1..9).collect();
    let refs: Vec<&usize> = vals.iter().collect();
    // bits 1,0,1,0,1,0,1,0 (most significant first): four set, two wanted,
    // ratio 2: the first and the third set bits
    let r = inner_cache_bv_rand(&refs, &[0b1010_1010], 0, 2).unwrap();
    assert_eq!(r.into_iter().copied().collect::<Vec<usize>>(), vec![1, 5]);
}

#[test]
fn draw_fails_with_too_few_set_bits() {
    let vals: Vec<usize> = (1..9).collect();
    let refs: Vec<&usize> = vals.iter().collect();
    assert!(inner_cache_bv_rand(&refs, &[0b1010_1010], 0, 5).is_none());
    assert!(inner_cache_bv_rand(&refs, &[0], 0, 1).is_none());
}

#[test]
fn draw_ignores_leading_bits() {
    let vals = vec!['a', 'b', 'c'];
    let refs: Vec<&char> = vals.iter().collect();
    // five leading bits left out, the three values read the last three bits
    let r = inner_cache_bv_rand(&refs, &[0b1111_1011], 5, 2).unwrap();
    assert_eq!(r.into_iter().copied().collect::<Vec<char>>(), vec!['b', 'c']);
    assert!(inner_cache_bv_rand(&refs, &[0b1111_1000], 5, 1).is_none());
}

#[test]
fn hash_map_cache_add_get_remove() {
    let mut m: HashMap<u64, String> = KVCache::new();
    assert_eq!(m.len_c(), 0);
    m.add_val_c(1, "one".to_string());
    m.add_val_c(2, "two".to_string());
    assert_eq!(m.get_val_c(&1), Some(&"one".to_string()));
    assert!(m.has_val_c(&2));
    assert!(!m.has_val_c(&3));
    m.add_val_c(1, "uno".to_string());
    assert_eq!(m.get_val_c(&1), Some(&"uno".to_string()));
    assert_eq!(m.len_c(), 2);
    assert_eq!(m.remove_val_c(&1), Some("uno".to_string()));
    assert_eq!(m.remove_val_c(&1), None);
    assert_eq!(m.get_val_c(&1), None);
    assert_eq!(m.len_c(), 1);
}

#[test]
fn hash_map_cache_update() {
    let mut m: HashMap<u64, u64> = HashMap::new();
    m.add_val_c(1, 10);
    let r: Result<bool, ()> = m.update_val_c(&1, |v: &mut u64| {
        *v += 5;
        Ok(())
    });
    assert_eq!(r, Ok(true));
    assert_eq!(m.get_val_c(&1), Some(&15));
    let r: Result<bool, ()> = m.update_val_c(&2, |v: &mut u64| {
        *v += 5;
        Ok(())
    });
    assert_eq!(r, Ok(false));
    assert!(!m.has_val_c(&2));
    let r: Result<bool, &str> = m.update_val_c(&1, |_v: &mut u64| Err("refused"));
    assert_eq!(r, Err("refused"));
}

#[test]
fn hash_map_cache_folds() {
    let mut m: HashMap<u64, u64> = HashMap::new();
    for i in 1..5 {
        m.add_val_c(i, i * 10);
    }
    let s = m.strict_fold_c(0u64, |acc, (k, v)| acc + k + v);
    assert_eq!(s, 110);
    let mut calls = 0;
    let s = m.fold_c(0u64, |acc, (_, v)| {
        calls += 1;
        acc + v
    });
    assert_eq!(s, 100);
    assert_eq!(calls, 4);
    assert_eq!(m.len_where_c(&|v: &u64| *v > 15), 3);
    let all_ok: Result<(), u64> = m.map_inplace_c(|(_, _)| Ok(()));
    assert_eq!(all_ok, Ok(()));
    let stop: Result<(), u64> = m.map_inplace_c(|(k, _)| if *k == 3 { Err(*k) } else { Ok(()) });
    assert_eq!(stop, Err(3));
}

#[test]
fn no_cache_keeps_nothing() {
    let mut c: NoCache<u64, u64> = NoCache(PhantomData);
    c.add_val_c(1, 1);
    assert_eq!(c.get_val_c(&1), None);
    assert!(!c.has_val_c(&1));
    let r: Result<bool, ()> = c.update_val_c(&1, |_v: &mut u64| Ok(()));
    assert_eq!(r, Ok(false));
    assert_eq!(c.remove_val_c(&1), None);
    assert_eq!(c.strict_fold_c(7u64, |a, _| a + 1), 7);
    assert_eq!(c.fold_c(7u64, |a, _| a + 1), 7);
    assert_eq!(c.len_c(), 0);
    assert_eq!(c.len_where_c(&|_v: &u64| true), 0);
    let r: Result<(), ()> = c.map_inplace_c(|_| Err(()));
    assert_eq!(r, Ok(()));
    let none: Option<&fn(&u64) -> bool> = None;
    assert_eq!(c.next_random_values(3, none).len(), 0);
}

#[test]
fn rand_cache_delegates() {
    let mut m: RandCache<u64, u64, HashMap<u64, u64>> = KVCache::new();
    m.add_val_c(1, 2);
    m.add_val_c(3, 4);
    assert_eq!(m.get_val_c(&3), Some(&4));
    assert!(m.has_val_c(&1));
    let r: Result<bool, ()> = m.update_val_c(&1, |v: &mut u64| {
        *v = 9;
        Ok(())
    });
    assert_eq!(r, Ok(true));
    assert_eq!(m.get_val_c(&1), Some(&9));
    assert_eq!(m.strict_fold_c(0u64, |a, (_, v)| a + v), 13);
    assert_eq!(m.remove_val_c(&3), Some(4));
    assert_eq!(m.len_c(), 1);
    assert_eq!(m.len_where_c(&|v: &u64| *v == 9), 1);
}

#[test]
fn rand_cache_store_refills_and_grows() {
    // a store of one byte for draws of three bytes (17 values)
    let mut m = RandCache::new_add(HashMap::new(), 1);
    for i in 0..17u64 {
        m.add_val_c(i, i);
    }
    for _ in 0..5 {
        let r = m.next_random_values(3);
        assert_eq!(r.len(), 3);
        let mut seen: Vec<u64> = r.into_iter().copied().collect();
        seen.sort();
        seen.dedup();
        assert_eq!(seen.len(), 3);
    }
}
