use db::debug::{Test, TB};
use db::rand::SimpleRand;
use db::skip_list::bench::{setup, BenchList};
use db::skip_list::context::{Context, DebugContext};
use db::skip_list::node::{BaseNode, IndexNode, IndexNodeChild};
use db::skip_list::list::{max_level, SkipList};
use db::skip_list::skip_list::SkipList as MarkedSkipList;
use std::collections::{BTreeMap, HashMap};

#[test]
fn test_new_list() {
    let list: SkipList<i32> = SkipList::new();
    assert_eq!(list.len(), 0);
    assert_eq!(list.level(), 0);
    assert_eq!(list.is_empty(), true);
}

#[test]
fn test_iter_list() {
    let mut list: SkipList<i32> = SkipList::new();
    list.add(1, 1);
    list.add(2, 2);
    list.add(0, 0);
    list.add(3, 3);
    list.add(-1, -1);
    list.add(-2, -2);
    list.add(4, 4);
    list.to_graph();
    let mut iter = list.to_iter();
    assert_eq!((&iter.next().unwrap().get_key()), &-2);
    assert_eq!((&iter.next().unwrap().get_key()), &-1);
    assert_eq!((&iter.next().unwrap().get_key()), &0);
    assert_eq!((&iter.next().unwrap().get_key()), &1);
    assert_eq!((&iter.next().unwrap().get_key()), &2);
    assert_eq!((&iter.next().unwrap().get_key()), &3);
    assert_eq!((&iter.next().unwrap().get_key()), &4);
    assert_eq!(iter.next().is_none(), true);
    assert_eq!(list.len(), 7)
}

fn index_of(entries: &[(usize, Vec<i64>)]) -> BTreeMap<usize, Vec<i64>> {
    entries.iter().cloned().collect()
}

#[test]
fn test_add_list() {
    let mut list: SkipList<i32> = SkipList::new();
    list.add(1, 1);
    assert_eq!(1, list.len());
    assert_eq!(0, list.level());
    assert_eq!(false, list.is_empty());

    list.add(2, 2);
    assert_eq!(2, list.len());

    list.add(-1, 2);
    // {"base":[[-1,2],[1,1],[2,2]],"index":{"0":[-1,2]}}
    let g = list.to_graph();
    assert_eq!(g.base, vec![(-1, 2), (1, 1), (2, 2)]);
    assert_eq!(g.index, index_of(&[(0, vec![-1, 2])]));
}

#[test]
fn test_overwrite_list() {
    let mut list: SkipList<i32> = SkipList::new();
    list.add(1, 1);
    list.add(2, 2);
    list.add(0, 0);
    list.add(1, 3);
    list.add(0, 3);
    list.add(2, 3);
    let g = list.to_graph();
    println!("{:?} {:?}", g.base, g.index);
}

#[test]
fn test_get() {
    let mut list: SkipList<i32> = SkipList::with_max_level();
    assert!(list.get_value(2).is_none());
    list.add(1, 0);
    assert_eq!(list.get_value(1).unwrap(), 0);
    assert!(list.get_value(2).is_none());
    list.add(2, 3);
    assert_eq!(list.get_value(2).unwrap(), 3);
    list.add(1, 1);
    assert_eq!(list.get_value(1).unwrap(), 1);
}

fn build_list() -> SkipList<i32> {
    let mut list: SkipList<i32> = SkipList::with_max_level();
    list.add(1, 3);
    list.add(5, 3);
    list.add(2, 3);
    list.add(8, 3);
    list.add(0, 3);
    list
}

#[test]
fn test_print() {
    let list = build_list();
    // {"base":[[0,3],[1,3],[2,3],[5,3],[8,3]],"index":{"0":[0,2,5,8],"1":[0,2,8],"2":[0,8],"3":[0]}}
    let g = list.to_graph();
    assert_eq!(g.base, vec![(0, 3), (1, 3), (2, 3), (5, 3), (8, 3)]);
    assert_eq!(
        g.index,
        index_of(&[
            (0, vec![0, 2, 5, 8]),
            (1, vec![0, 2, 8]),
            (2, vec![0, 8]),
            (3, vec![0])
        ])
    );
    assert_eq!(list.len(), 5);
    assert_eq!(list.level(), 5 - 1);
}

#[test]
fn skip_list_get_after_add_with_out_of_order_keys() {
    // a key added to the right of a key that has no index node
    let mut list: SkipList<i32> = SkipList::new();
    list.add(5, 50);
    list.add(1, 10);
    list.add(7, 70);
    assert_eq!(list.get_value(5), Some(50));
    assert_eq!(list.get_value(1), Some(10));
    assert_eq!(list.get_value(7), Some(70));
    assert_eq!(list.to_graph().base, vec![(1, 10), (5, 50), (7, 70)]);
}

#[test]
fn skip_list_many_keys_stay_sorted() {
    let mut list: SkipList<i64> = SkipList::new();
    let mut r = SimpleRand::with_seed(7);
    let mut expected = BTreeMap::new();
    for _ in 0..500 {
        let k = (r.next_range(1000) as i64) - 500;
        let v = r.next_range(100) as i64;
        list.add(k, v);
        expected.insert(k, v);
    }
    let base = list.to_graph().base;
    let want: Vec<(i64, i64)> = expected.iter().map(|(k, v)| (*k, *v)).collect();
    assert_eq!(base, want);
    assert_eq!(list.len(), expected.len());
    for k in -510..510 {
        assert_eq!(list.get_value(k), expected.get(&k).copied());
    }
}

#[test]
fn skip_list_map_value_applies_function() {
    let mut list: SkipList<i32> = SkipList::new();
    list.add(3, 21);
    assert_eq!(list.map_value(3, |v: &i32| *v * 2), Some(42));
    assert_eq!(list.map_value(4, |v: &i32| *v * 2), None);
}

#[test]
fn level_cap_is_ceil_log2() {
    assert_eq!(max_level(0), 0);
    assert_eq!(max_level(1), 0);
    assert_eq!(max_level(2), 1);
    assert_eq!(max_level(3), 2);
    assert_eq!(max_level(4), 2);
    assert_eq!(max_level(5), 3);
    assert_eq!(max_level(1024), 10);
    assert_eq!(max_level(1025), 11);
}

#[test]
fn rand_test() {
    let mut r = SimpleRand::new();
    assert_eq!(r.next(), 705894);
    assert_eq!(r.next(), 1126542228);
    assert_eq!(r.next(), 1579402860);
    // a percentage is the next draw reduced below 100, over 100
    assert_eq!((r.next_range(100) as f64) / 100.0, 0.6);
    assert_eq!(r.next_range(100), 72);
}

#[test]
fn marked_skip_list_add_get_remove() {
    let mut list: MarkedSkipList<u32> = MarkedSkipList::new();
    assert_eq!(list.get(4), None);
    list.add(4, 40);
    list.add(u32::MAX, 1);
    assert_eq!(list.get(4), Some(40));
    assert_eq!(list.get(u32::MAX), Some(1));
    list.remove(4);
    assert_eq!(list.get(4), None);
    list.add(4, 41);
    assert_eq!(list.get(4), Some(41));
}

#[test]
fn bench_setup_fills_both_maps_alike() {
    let mut list: MarkedSkipList<u32> = MarkedSkipList::new();
    let mut map: HashMap<u32, u32> = HashMap::new();
    let mut r1 = SimpleRand::new();
    let mut r2 = SimpleRand::new();
    setup(&mut list, 100, &mut r1, 1000);
    setup(&mut map, 100, &mut r2, 1000);
    for k in 0..1000u32 {
        assert_eq!(BenchList::get(&list, k), BenchList::get(&map, k));
    }
    BenchList::remove(&mut list, 3);
    BenchList::remove(&mut map, 3);
    assert_eq!(BenchList::get(&list, 3), None);
    assert_eq!(BenchList::get(&map, 3), None);
}

fn test_test<T>(t: &dyn Test<T>, a: T) {
    t.foo(a);
}

#[test]
fn debug_test() {
    let i = 32;
    let tb = TB::new();
    test_test(&tb, i);
}

#[test]
fn debug_context_writes_visits() {
    let mut ctx = DebugContext::new(-5);
    assert_eq!(ctx.get_key(), -5);
    ctx.visit_index(&IndexNode::new(-12, None, IndexNodeChild::Base(0)));
    ctx.visit_matched_base(&BaseNode::new(i64::MIN, 3, None));
    assert_eq!(
        ctx.output(),
        "visitor index key:-12\nvisitor base key:-9223372036854775808,value:3\n"
    );
    assert!(ctx.is_base_node_match(&BaseNode::new(-5, 0i64, None)));
    assert!(!ctx.is_base_node_match(&BaseNode::new(5, 0i64, None)));
}


#[test]
fn bench_setup_of_nothing_takes_any_key_space() {
    let mut map: HashMap<u32, u32> = HashMap::new();
    let mut r = SimpleRand::new();
    let first = SimpleRand::new().next();
    setup(&mut map, 0, &mut r, 0);
    assert!(map.is_empty());
    assert_eq!(r.next(), first);
}

#[test]
fn index_iter_from_a_node_walks_rest_of_level() {
    let list = build_list();
    // level 1 holds 0, 2, 8; find the node of key 2 there
    let mut start = None;
    for id in 0..list.index_count() {
        let mut it = list.index_to_iter(id);
        let keys: Vec<i64> = std::iter::from_fn(|| it.next().map(|n| n.get_key())).collect();
        if keys == vec![2, 8] {
            start = Some(id);
        }
    }
    assert!(start.is_some());
    let mut it = list.index_to_iter(start.unwrap());
    assert_eq!(it.next().map(|n| n.get_key()), Some(2));
    assert_eq!(it.next().map(|n| n.get_key()), Some(8));
    assert!(it.next().is_none());
}

#[test]
fn with_max_level_towers_reach_the_cap() {
    let mut list: SkipList<i32> = SkipList::with_max_level();
    for k in [50, 60, 10, 70, 80, 90, 85] {
        list.add(k, 0);
    }
    let g = list.to_graph();
    // a key below every index head goes to the head of each level it reaches
    assert_eq!(g.index[&0][0], 85);
    assert_eq!(list.level(), g.index.len());
}

#[test]
fn towers_that_follow_the_search_keep_levels_sorted() {
    let mut list: SkipList<i32> = SkipList::with_max_level();
    for k in 1..40 {
        list.add(k, 0);
    }
    list.add(0, 0);
    let g = list.to_graph();
    assert_eq!(list.level(), g.index.len());
    for (l, keys) in g.index.iter() {
        assert!(!keys.is_empty());
        assert!(keys.windows(2).all(|w| w[0] < w[1]));
        if *l > 0 {
            let below = &g.index[&(l - 1)];
            assert!(keys.iter().all(|k| below.contains(k)));
        }
    }
}
