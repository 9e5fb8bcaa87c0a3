use collection_trace::{CollectionTrace, Offset};

type Store = CollectionTrace<String, u64, String, Vec<(String, Offset)>>;
type Grid = CollectionTrace<String, (u64, u64), String, Vec<(String, Offset)>>;

fn s(text: &str) -> String {
    text.to_string()
}

fn entries(items: &[(&str, i32)]) -> Vec<(String, i32)> {
    items.iter().map(|(v, w)| (v.to_string(), *w)).collect()
}

fn collection(store: &Store, key: &str, time: u64) -> Vec<(String, i32)> {
    let mut target = Vec::new();
    store.get_collection(&s(key), &time, &mut target);
    target
}

fn streamed(store: &Store, key: &str, time: u64) -> Vec<(String, i32)> {
    let mut stream = store.get_collection_iterator(&s(key), &time);
    let mut out = Vec::new();
    while let Some((value, weight)) = stream.next() {
        out.push((value.clone(), weight));
    }
    out
}

fn history(store: &Store, key: &str) -> Vec<(u64, Vec<(String, i32)>)> {
    let mut walk = store.trace(&s(key));
    let mut out = Vec::new();
    while let Some((time, batch)) = walk.next() {
        out.push((*time, batch.to_vec()));
    }
    out
}

fn first_install() -> Store {
    let mut store = Store::new(Vec::new());
    let mut keys = vec![s("a"), s("a"), s("b")];
    store.install_differences(1, &mut keys, entries(&[("x", 1), ("y", 1), ("x", 1)]));
    store
}

fn second_install() -> Store {
    let mut store = first_install();
    let mut keys = vec![s("a")];
    store.install_differences(2, &mut keys, entries(&[("x", -1)]));
    store
}

#[test]
fn empty_trace_has_nothing() {
    let store = Store::new(Vec::new());
    assert_eq!(collection(&store, "a", 7), entries(&[]));
    assert_eq!(store.get_difference(&s("a"), &7).to_vec(), entries(&[]));
    assert_eq!(history(&store, "a"), vec![]);
    assert_eq!(streamed(&store, "a", 7), entries(&[]));
}

#[test]
fn install_one_time() {
    let store = first_install();
    assert_eq!(collection(&store, "a", 1), entries(&[("x", 1), ("y", 1)]));
    assert_eq!(collection(&store, "b", 1), entries(&[("x", 1)]));
    assert_eq!(store.get_difference(&s("a"), &0).to_vec(), entries(&[]));
    assert_eq!(store.get_difference(&s("a"), &1).to_vec(), entries(&[("x", 1), ("y", 1)]));
    assert_eq!(store.get_difference(&s("b"), &1).to_vec(), entries(&[("x", 1)]));
}

#[test]
fn install_leaves_keys_as_they_were() {
    let mut store = Store::new(Vec::new());
    let mut keys = vec![s("a"), s("a"), s("b")];
    store.install_differences(1, &mut keys, entries(&[("x", 1), ("y", 1), ("x", 1)]));
    assert_eq!(keys, vec![s("a"), s("a"), s("b")]);
}

#[test]
fn collection_before_first_time_is_empty() {
    let store = first_install();
    assert_eq!(collection(&store, "a", 0), entries(&[]));
    assert_eq!(collection(&store, "c", 1), entries(&[]));
}

#[test]
fn install_second_time_retracts() {
    let store = second_install();
    assert_eq!(collection(&store, "a", 2), entries(&[("y", 1)]));
    assert_eq!(collection(&store, "a", 1), entries(&[("x", 1), ("y", 1)]));
    assert_eq!(collection(&store, "b", 2), entries(&[("x", 1)]));
    assert_eq!(store.get_difference(&s("a"), &2).to_vec(), entries(&[("x", -1)]));
}

#[test]
fn set_collection_after_installs() {
    let mut store = second_install();
    let mut wanted = entries(&[("y", 1), ("z", 5)]);
    store.set_collection(s("a"), 2, &mut wanted);
    assert_eq!(wanted, entries(&[("y", 1), ("z", 5)]));
    assert_eq!(collection(&store, "a", 2), entries(&[("y", 1), ("z", 5)]));
    assert_eq!(collection(&store, "a", 1), entries(&[("x", 1), ("y", 1)]));
    // exactly the difference was appended, as one more batch at the same time
    assert_eq!(
        history(&store, "a"),
        vec![
            (2, entries(&[("z", 5)])),
            (2, entries(&[("x", -1)])),
            (1, entries(&[("x", 1), ("y", 1)])),
        ]
    );
    assert_eq!(store.get_difference(&s("a"), &2).to_vec(), entries(&[("z", 5)]));
}

#[test]
fn set_collection_coalesces_its_argument() {
    let mut store = Store::new(Vec::new());
    let mut wanted = entries(&[("q", 2), ("p", 1), ("q", -2), ("p", 3), ("r", 0)]);
    store.set_collection(s("k"), 4, &mut wanted);
    assert_eq!(wanted, entries(&[("p", 4)]));
    assert_eq!(collection(&store, "k", 4), entries(&[("p", 4)]));
    assert_eq!(history(&store, "k"), vec![(4, entries(&[("p", 4)]))]);
}

#[test]
fn set_collection_that_cancels_changes_nothing() {
    let mut store = Store::new(Vec::new());
    let mut wanted = entries(&[("x", 1), ("x", -1)]);
    store.set_collection(s("a"), 1, &mut wanted);
    assert_eq!(wanted, entries(&[]));
    assert_eq!(collection(&store, "a", 1), entries(&[]));
    assert_eq!(history(&store, "a"), vec![]);
}

#[test]
fn set_collection_to_what_is_there_adds_no_entry() {
    let mut store = first_install();
    let mut wanted = entries(&[("y", 1), ("x", 1)]);
    store.set_collection(s("a"), 1, &mut wanted);
    assert_eq!(collection(&store, "a", 1), entries(&[("x", 1), ("y", 1)]));
    assert_eq!(history(&store, "a"), vec![(1, entries(&[("x", 1), ("y", 1)]))]);
}

#[test]
fn set_collection_at_a_new_time() {
    let mut store = first_install();
    let mut wanted = entries(&[("y", 3)]);
    store.set_collection(s("a"), 5, &mut wanted);
    assert_eq!(collection(&store, "a", 5), entries(&[("y", 3)]));
    assert_eq!(collection(&store, "a", 4), entries(&[("x", 1), ("y", 1)]));
    assert_eq!(
        history(&store, "a"),
        vec![(5, entries(&[("x", -1), ("y", 2)])), (1, entries(&[("x", 1), ("y", 1)]))]
    );
    // the other key is untouched
    assert_eq!(history(&store, "b"), vec![(1, entries(&[("x", 1)]))]);
}

#[test]
fn set_collection_twice_at_the_active_time() {
    let mut store = Store::new(Vec::new());
    let mut first = entries(&[("x", 2)]);
    store.set_collection(s("a"), 3, &mut first);
    let mut other = entries(&[("w", 1)]);
    store.set_collection(s("b"), 3, &mut other);
    let mut second = entries(&[("x", 1), ("y", 4)]);
    store.set_collection(s("a"), 3, &mut second);
    assert_eq!(collection(&store, "a", 3), entries(&[("x", 1), ("y", 4)]));
    assert_eq!(collection(&store, "b", 3), entries(&[("w", 1)]));
    assert_eq!(
        history(&store, "a"),
        vec![(3, entries(&[("x", -1), ("y", 4)])), (3, entries(&[("x", 2)]))]
    );
}

#[test]
fn ranges_follow_the_links() {
    let store = second_install();
    // links in order of arrival: a at time 1, b at time 1, a at time 2
    assert_eq!(store.get_range(Offset::new(0)).to_vec(), entries(&[("x", 1), ("y", 1)]));
    assert_eq!(store.get_range(Offset::new(1)).to_vec(), entries(&[("x", 1)]));
    assert_eq!(store.get_range(Offset::new(2)).to_vec(), entries(&[("x", -1)]));
}

#[test]
fn ranges_are_canonical() {
    let mut store = second_install();
    let mut wanted = entries(&[("z", 5), ("y", 1), ("w", 2)]);
    store.set_collection(s("a"), 2, &mut wanted);
    for position in 0..4 {
        let batch = store.get_range(Offset::new(position));
        for pair in batch.windows(2) {
            assert!(pair[0].0 < pair[1].0);
        }
        for entry in batch {
            assert_ne!(entry.1, 0);
        }
    }
}

#[test]
fn history_is_newest_first() {
    let mut store = second_install();
    let mut keys = vec![s("b"), s("c")];
    store.install_differences(3, &mut keys, entries(&[("v", 2), ("u", 1)]));
    let mut keys = vec![s("a")];
    store.install_differences(4, &mut keys, entries(&[("y", -1)]));
    let times: Vec<u64> = history(&store, "a").iter().map(|entry| entry.0).collect();
    assert_eq!(times, vec![4, 2, 1]);
    let times: Vec<u64> = history(&store, "b").iter().map(|entry| entry.0).collect();
    assert_eq!(times, vec![3, 1]);
    assert_eq!(collection(&store, "a", 4), entries(&[]));
    assert_eq!(collection(&store, "a", 3), entries(&[("y", 1)]));
}

#[test]
fn collection_is_the_sum_of_the_batches_so_far() {
    let mut store = Store::new(Vec::new());
    let mut keys = vec![s("k"), s("k")];
    store.install_differences(10, &mut keys, entries(&[("a", 2), ("c", 1)]));
    let mut keys = vec![s("k"), s("k")];
    store.install_differences(20, &mut keys, entries(&[("b", 7), ("c", -1)]));
    let mut keys = vec![s("k")];
    store.install_differences(30, &mut keys, entries(&[("a", 40)]));
    assert_eq!(collection(&store, "k", 9), entries(&[]));
    assert_eq!(collection(&store, "k", 10), entries(&[("a", 2), ("c", 1)]));
    assert_eq!(collection(&store, "k", 25), entries(&[("a", 2), ("b", 7)]));
    assert_eq!(collection(&store, "k", 30), entries(&[("a", 42), ("b", 7)]));
}

#[test]
fn stream_gives_what_get_collection_writes() {
    let mut store = second_install();
    let mut wanted = entries(&[("y", 1), ("z", 5)]);
    store.set_collection(s("a"), 2, &mut wanted);
    for time in 0..4 {
        assert_eq!(streamed(&store, "a", time), collection(&store, "a", time));
        assert_eq!(streamed(&store, "b", time), collection(&store, "b", time));
    }
    assert_eq!(streamed(&store, "a", 2), entries(&[("y", 1), ("z", 5)]));
}

#[test]
fn stream_can_stop_early() {
    let store = first_install();
    let key = s("a");
    let mut stream = store.get_collection_iterator(&key, &1);
    assert_eq!(stream.next(), Some((&s("x"), 1)));
}

#[test]
fn keys_that_are_not_adjacent_make_two_entries() {
    let mut store = Store::new(Vec::new());
    let mut keys = vec![s("a"), s("b"), s("a")];
    store.install_differences(1, &mut keys, entries(&[("x", 1), ("y", 1), ("x", 2)]));
    assert_eq!(history(&store, "a"), vec![(1, entries(&[("x", 2)])), (1, entries(&[("x", 1)]))]);
    assert_eq!(collection(&store, "a", 1), entries(&[("x", 3)]));
    assert_eq!(store.get_difference(&s("a"), &1).to_vec(), entries(&[("x", 2)]));
}

#[test]
fn install_without_keys_adds_a_time() {
    let mut store = first_install();
    let mut keys: Vec<String> = Vec::new();
    store.install_differences(2, &mut keys, Vec::new());
    assert_eq!(collection(&store, "a", 2), entries(&[("x", 1), ("y", 1)]));
    let mut wanted = entries(&[("x", 1)]);
    store.set_collection(s("a"), 2, &mut wanted);
    assert_eq!(history(&store, "a"), vec![(2, entries(&[("y", -1)])), (1, entries(&[("x", 1), ("y", 1)]))]);
}

#[test]
fn interesting_times_on_a_total_order() {
    let mut store = second_install();
    let mut result = Vec::new();
    store.interesting_times(&s("a"), &0, &mut result);
    assert_eq!(result, vec![2, 1]);
    let mut result = Vec::new();
    store.interesting_times(&s("a"), &2, &mut result);
    assert_eq!(result, vec![2]);
    let mut result = vec![9];
    store.interesting_times(&s("b"), &0, &mut result);
    assert_eq!(result, vec![9, 1]);
    let mut result = vec![3];
    store.interesting_times(&s("nobody"), &0, &mut result);
    assert_eq!(result, vec![3]);
}

#[test]
fn interesting_times_on_a_grid() {
    let mut store = Grid::new(Vec::new());
    let mut keys = vec![s("k")];
    store.install_differences((1, 0), &mut keys, entries(&[("x", 1)]));
    let mut keys = vec![s("k")];
    store.install_differences((0, 1), &mut keys, entries(&[("y", 1)]));
    let mut result = Vec::new();
    store.interesting_times(&s("k"), &(0, 0), &mut result);
    assert!(result.contains(&(1, 0)));
    assert!(result.contains(&(0, 1)));
    assert!(result.contains(&(1, 1)));
    assert_eq!(result.len(), 3);
    for a in result.iter() {
        for b in result.iter() {
            let lub = (a.0.max(b.0), a.1.max(b.1));
            assert!(result.contains(&lub));
        }
    }
    let mut result = Vec::new();
    store.interesting_times(&s("k"), &(0, 3), &mut result);
    assert!(result.contains(&(1, 3)));
    assert!(result.contains(&(0, 3)));
    assert_eq!(result.len(), 2);
}

#[test]
fn incomparable_times_are_left_out() {
    let mut store = Grid::new(Vec::new());
    let mut keys = vec![s("k")];
    store.install_differences((1, 0), &mut keys, entries(&[("x", 1)]));
    let mut keys = vec![s("k")];
    store.install_differences((2, 0), &mut keys, entries(&[("y", 1)]));
    let mut target = Vec::new();
    store.get_collection(&s("k"), &(0, 1), &mut target);
    assert_eq!(target, entries(&[]));
    let mut target = Vec::new();
    store.get_collection(&s("k"), &(1, 5), &mut target);
    assert_eq!(target, entries(&[("x", 1)]));
    let mut target = Vec::new();
    store.get_collection(&s("k"), &(2, 0), &mut target);
    assert_eq!(target, entries(&[("x", 1), ("y", 1)]));
}

#[test]
fn difference_picks_the_newest_batch_of_the_time() {
    let mut store = Grid::new(Vec::new());
    let mut keys = vec![s("k")];
    store.install_differences((1, 0), &mut keys, entries(&[("x", 1)]));
    let mut wanted = entries(&[("x", 1), ("y", 2)]);
    store.set_collection(s("k"), (1, 0), &mut wanted);
    assert_eq!(store.get_difference(&s("k"), &(1, 0)).to_vec(), entries(&[("y", 2)]));
    assert_eq!(store.get_difference(&s("k"), &(1, 1)).to_vec(), entries(&[]));
}

#[test]
fn weights_may_reach_the_ends_of_their_type() {
    let mut store = Store::new(Vec::new());
    let mut keys = vec![s("k")];
    store.install_differences(1, &mut keys, entries(&[("x", i32::MAX)]));
    let mut wanted = entries(&[("x", -1)]);
    store.set_collection(s("k"), 2, &mut wanted);
    assert_eq!(store.get_difference(&s("k"), &2).to_vec(), entries(&[("x", i32::MIN)]));
    assert_eq!(collection(&store, "k", 2), entries(&[("x", -1)]));
    assert_eq!(collection(&store, "k", 1), entries(&[("x", i32::MAX)]));
}

#[test]
fn many_keys_and_times() {
    let mut store = Store::new(Vec::new());
    for time in 1..6u64 {
        let mut keys = Vec::new();
        let mut vals = Vec::new();
        for key in 0..4u64 {
            keys.push(format!("k{}", key));
            vals.push((format!("v{}", (key + time) % 3), 1));
        }
        store.install_differences(time, &mut keys, vals);
    }
    // every key gets one value a time, in turn: v(key + time) mod 3
    assert_eq!(collection(&store, "k0", 5), entries(&[("v0", 1), ("v1", 2), ("v2", 2)]));
    assert_eq!(collection(&store, "k1", 3), entries(&[("v0", 1), ("v1", 1), ("v2", 1)]));
    assert_eq!(collection(&store, "k3", 1), entries(&[("v1", 1)]));
    assert_eq!(history(&store, "k2").len(), 5);
    assert_eq!(streamed(&store, "k0", 5), collection(&store, "k0", 5));
}
