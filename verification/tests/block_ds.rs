use hnu_algo::algorithms::bmssp::block_ds::{BlockDs, PullResult, NONE};
use hnu_algo::algorithms::bmssp::path_dist::PathDist;
use rustc_hash::FxHashMap;

struct NaiveModel {
    m: usize,
    upper: PathDist,
    map: FxHashMap<u32, PathDist>,
}

impl NaiveModel {
    fn new(m: usize, upper: PathDist) -> Self {
        Self { m: m.max(1), upper, map: FxHashMap::default() }
    }

    fn is_empty(&self) -> bool {
        self.map.is_empty()
    }

    fn len(&self) -> usize {
        self.map.len()
    }

    fn min_value(&self) -> Option<PathDist> {
        self.map.values().copied().min()
    }

    fn insert(&mut self, key: u32, value: PathDist) {
        match self.map.get(&key).copied() {
            None => {
                self.map.insert(key, value);
            }
            Some(old) => {
                if old > value {
                    self.map.insert(key, value);
                }
            }
        }
    }

    fn batch_prepend(&mut self, records: &[(u32, PathDist)]) {
        if records.is_empty() {
            return;
        }
        let mut per_key: FxHashMap<u32, PathDist> = FxHashMap::default();
        for &(k, v) in records {
            let e = per_key.entry(k).or_insert(v);
            if v < *e {
                *e = v;
            }
        }
        for (k, v) in per_key {
            self.map.insert(k, v);
        }
    }

    fn pull(&mut self) -> (PathDist, Vec<u32>) {
        let len_before = self.map.len();
        if len_before == 0 {
            return (self.upper, vec![]);
        }
        let mut items: Vec<(PathDist, u32)> = self.map.iter().map(|(&k, &v)| (v, k)).collect();
        items.sort_unstable();
        let take = items.len().min(self.m);
        let picked = &items[..take];
        for &(_, k) in picked {
            self.map.remove(&k);
        }
        let boundary = if len_before <= self.m { self.upper } else { items[take].0 };
        let keys = picked.iter().map(|&(_, k)| k).collect();
        (boundary, keys)
    }
}

const N: usize = 100;

fn make_ds(m: usize, upper: PathDist, buf: Vec<u32>) -> BlockDs {
    BlockDs::new(m, upper, buf)
}

#[test]
fn insert_update_then_pull_returns_m_smallest() {
    let buf = vec![NONE; N];
    let mut ds = make_ds(2, PathDist::scalar_upper(999), buf);
    ds.insert(1, PathDist::from_dis(30, 1));
    ds.insert(2, PathDist::from_dis(10, 2));
    ds.insert(3, PathDist::from_dis(20, 3));
    ds.insert(2, PathDist::from_dis(8, 2));
    ds.insert(1, PathDist::from_dis(40, 1));

    let PullResult { mut keys, boundary } = ds.pull();
    keys.sort_unstable();
    assert_eq!(keys, vec![2, 3]);
    assert_eq!(boundary, PathDist::from_dis(30, 1));
    assert_eq!(ds.len(), 1);
}

#[test]
fn batch_prepend_keeps_smallest_per_key() {
    let buf = vec![NONE; N];
    let mut ds = make_ds(4, PathDist::scalar_upper(1000), buf);
    ds.insert(10, PathDist::from_dis(100, 10));
    ds.insert(11, PathDist::from_dis(110, 11));
    let records = [
        (2u32, PathDist::from_dis(3, 2)),
        (1, PathDist::from_dis(4, 1)),
        (10, PathDist::from_dis(90, 10)),
    ];
    let mut pool = vec![PathDist::max_value(); N];
    ds.batch_prepend(&records, &mut pool);

    let PullResult { mut keys, boundary } = ds.pull();
    keys.sort_unstable();
    assert_eq!(keys, vec![1, 2, 10, 11]);
    assert_eq!(boundary, PathDist::scalar_upper(1000));
    assert!(pool.iter().all(|&p| p == PathDist::max_value()));
}

#[test]
fn pull_boundary_is_b_when_structure_becomes_empty() {
    let buf = vec![NONE; N];
    let mut ds = make_ds(2, PathDist::scalar_upper(777), buf);
    ds.insert(1, PathDist::from_dis(10, 1));
    ds.insert(2, PathDist::from_dis(20, 2));

    let PullResult { mut keys, boundary } = ds.pull();
    keys.sort_unstable();
    assert_eq!(keys, vec![1, 2]);
    assert_eq!(boundary, PathDist::scalar_upper(777));
    assert!(ds.is_empty());
}

#[test]
fn pull_boundary_is_smallest_remaining_value() {
    let buf = vec![NONE; N];
    let mut ds = make_ds(2, PathDist::scalar_upper(500), buf);
    ds.insert(1, PathDist::from_dis(10, 1));
    ds.insert(2, PathDist::from_dis(20, 2));
    ds.insert(3, PathDist::from_dis(30, 3));
    ds.insert(4, PathDist::from_dis(40, 4));

    let PullResult { mut keys, boundary } = ds.pull();
    keys.sort_unstable();
    assert_eq!(keys, vec![1, 2]);
    assert_eq!(boundary, PathDist::from_dis(30, 3));
}

#[test]
fn randomized_operations_match_naive_model_under_preconditions() {
    let m = 4usize;
    let upper = 1000u64;
    let upper_pd = PathDist::scalar_upper(upper);
    let buf = vec![NONE; 20];
    let mut ds = make_ds(m, upper_pd, buf);
    let mut model = NaiveModel::new(m, upper_pd);

    let mut seed: u64 = 0x1234_abcd_5678_ef01;
    let mut next_u64 = || {
        seed = seed.wrapping_mul(6364136223846793005u64).wrapping_add(1442695040888963407u64);
        seed
    };

    let key_space = 0u32..16u32;
    let mut history: Vec<String> = Vec::new();
    for _step in 0..160 {
        let op = next_u64() % 100;
        if op < 55 {
            let key = key_space.start + (next_u64() as u32 % key_space.len() as u32);
            let value = 1 + (next_u64() % upper.max(1));
            let pd = PathDist::from_dis(value, key as usize);
            history.push(format!("insert({}, {})", key, value));
            ds.insert(key, pd);
            model.insert(key, pd);
        } else if op < 82 {
            let cur_min_dis = model.min_value().map(|p| p.dis()).unwrap_or(upper + 1);
            if cur_min_dis <= 1 {
                history.push("skip(batch_prepend)".to_string());
                continue;
            }
            let cnt = 1usize + (next_u64() as usize % 5);
            let mut records: Vec<(u32, PathDist)> = Vec::with_capacity(cnt);
            for _ in 0..cnt {
                let key = key_space.start + (next_u64() as u32 % key_space.len() as u32);
                let value = 1 + (next_u64() % (cur_min_dis - 1).max(1));
                let value = value.min(cur_min_dis - 1).max(1);
                records.push((key, PathDist::from_dis(value, key as usize)));
            }
            history.push(format!("batch_prepend({:?})", records));
            let mut pool = vec![PathDist::max_value(); 20];
            ds.batch_prepend(&records, &mut pool);
            model.batch_prepend(&records);
        } else {
            history.push("pull()".to_string());
            let PullResult { boundary, mut keys } = ds.pull();
            let (b2, mut keys2) = model.pull();
            keys.sort_unstable();
            keys2.sort_unstable();
            if boundary != b2 || keys != keys2 {
                panic!(
                    "random mismatch: boundary ds={:?} model={:?} keys ds={:?} model={:?}\nlast_ops={:?}",
                    boundary,
                    b2,
                    keys,
                    keys2,
                    history.iter().rev().take(12).cloned().collect::<Vec<_>>()
                );
            }
            assert_eq!(ds.is_empty(), model.is_empty());
            assert_eq!(ds.len(), model.len());
        }
    }
}

#[test]
fn cleanup_restores_the_buffer() {
    let mut ds = make_ds(3, PathDist::scalar_upper(50), vec![NONE; 8]);
    ds.insert(5, PathDist::from_dis(7, 5));
    ds.insert(2, PathDist::from_dis(3, 2));
    ds.cleanup();
    let buf = ds.into_buffer();
    assert_eq!(buf.len(), 8);
    assert!(buf.iter().all(|&x| x == NONE));
}

#[test]
fn insert_keeps_the_smaller_value() {
    let buf = vec![NONE; 8];
    let mut ds = make_ds(1, PathDist::scalar_upper(50), buf);
    ds.insert(3, PathDist::from_dis(9, 3));
    ds.insert(3, PathDist::from_dis(12, 3));
    assert_eq!(ds.len(), 1);
    let r = ds.pull();
    assert_eq!(r.keys, vec![3]);
    assert_eq!(r.boundary, PathDist::scalar_upper(50));
}

#[test]
fn zero_batch_size_is_taken_as_one() {
    let buf = vec![NONE; 8];
    let mut ds = make_ds(0, PathDist::scalar_upper(50), buf);
    ds.insert(1, PathDist::from_dis(4, 1));
    ds.insert(2, PathDist::from_dis(2, 2));
    let r = ds.pull();
    assert_eq!(r.keys, vec![2]);
    assert_eq!(r.boundary, PathDist::from_dis(4, 1));
}

#[test]
fn path_dist_fields_round_trip() {
    let p = PathDist::new(17, 3, 5, 2);
    assert_eq!((p.dis(), p.hop(), p.end(), p.pred()), (17, 3, 5, 2));
    assert!(PathDist::new(17, 3, 5, 1).is_less(&p));
    assert!(p.is_less(&PathDist::new(18, 0, 0, 0)));
    assert_eq!(PathDist::from_dis(9, 4).end(), 4);
}
