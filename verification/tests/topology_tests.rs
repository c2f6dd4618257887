use gossip_glomers::topology::{build, parse_node_number, pick_neighbours, sort_by_node_number,
    Topology};

fn ids(names: &[&str]) -> Vec<String> {
    names.iter().map(|s| String::from(*s)).collect()
}

#[test]
fn parse_simple_suffix() {
    assert_eq!(parse_node_number("n7"), Some(7));
    assert_eq!(parse_node_number("n0"), Some(0));
    assert_eq!(parse_node_number("n123"), Some(123));
}

#[test]
fn parse_ignores_leading_byte() {
    assert_eq!(parse_node_number("x42"), Some(42));
    assert_eq!(parse_node_number("99"), Some(9));
}

#[test]
fn parse_rejects_malformed() {
    assert_eq!(parse_node_number(""), None);
    assert_eq!(parse_node_number("n"), None);
    assert_eq!(parse_node_number("n12a"), None);
    assert_eq!(parse_node_number("node"), None);
    assert_eq!(parse_node_number("n 5"), None);
}

#[test]
fn parse_bounds() {
    assert_eq!(parse_node_number("n18446744073709551615"), Some(u64::MAX));
    assert_eq!(parse_node_number("n18446744073709551616"), None);
}

#[test]
fn sort_is_numeric_not_lexicographic() {
    let sorted = sort_by_node_number(ids(&["n10", "n9", "n2"]));
    assert_eq!(sorted, ids(&["n2", "n9", "n10"]));
}

#[test]
fn sort_handles_arbitrary_order() {
    let sorted = sort_by_node_number(ids(&["n3", "n0", "n4", "n1", "n2"]));
    assert_eq!(sorted, ids(&["n0", "n1", "n2", "n3", "n4"]));
}

#[test]
fn relay_neighbours_ten_nodes() {
    let all = ids(&["n0", "n1", "n2", "n3", "n4", "n5", "n6", "n7", "n8", "n9"]);
    // Rank 0 is the first group's relay: the rest of its group, then the
    // other group's relay.
    let n0 = pick_neighbours(String::from("n0"), all.clone());
    assert_eq!(n0, ids(&["n1", "n2", "n3", "n4", "n5"]));
    // Rank 5 is the second group's relay.
    let n5 = pick_neighbours(String::from("n5"), all.clone());
    assert_eq!(n5, ids(&["n6", "n7", "n8", "n9", "n0"]));
}

#[test]
fn follower_neighbours_ten_nodes() {
    let all = ids(&["n0", "n1", "n2", "n3", "n4", "n5", "n6", "n7", "n8", "n9"]);
    // A follower's only neighbour is its group's relay.
    let n7 = pick_neighbours(String::from("n7"), all.clone());
    assert_eq!(n7, ids(&["n5"]));
    let n3 = pick_neighbours(String::from("n3"), all);
    assert_eq!(n3, ids(&["n0"]));
}

#[test]
fn neighbours_do_not_depend_on_member_order() {
    let shuffled = ids(&["n7", "n2", "n9", "n0", "n5", "n4", "n8", "n1", "n3", "n6"]);
    let n7 = pick_neighbours(String::from("n7"), shuffled.clone());
    assert_eq!(n7, ids(&["n5"]));
    let n0 = pick_neighbours(String::from("n0"), shuffled);
    assert_eq!(n0, ids(&["n1", "n2", "n3", "n4", "n5"]));
}

#[test]
fn degenerate_single_group() {
    // Fewer members than the group size: one group, no cross-group
    // relays.
    let all = ids(&["n0", "n1", "n2"]);
    let relay = pick_neighbours(String::from("n0"), all.clone());
    assert_eq!(relay, ids(&["n1", "n2"]));
    let follower = pick_neighbours(String::from("n1"), all);
    assert_eq!(follower, ids(&["n0"]));
}

#[test]
fn neighbour_sets_are_mutually_consistent() {
    let all = ids(&["n0", "n1", "n2", "n3", "n4", "n5", "n6", "n7", "n8", "n9", "n10", "n11"]);
    for a in &all {
        let na = pick_neighbours(a.clone(), all.clone());
        for b in &all {
            let nb = pick_neighbours(b.clone(), all.clone());
            assert_eq!(na.contains(b), nb.contains(a), "edge {} - {}", a, b);
        }
    }
}

#[test]
fn build_rejects_bad_input() {
    let all = ids(&["n0", "n1"]);
    assert!(build(&String::from("n0"), &all, 0).is_none());
    assert!(build(&String::from("n2"), &all, 5).is_none());
    assert!(build(&String::from("n0"), &ids(&["n0", "bad"]), 5).is_none());
    assert!(build(&String::from("n0"), &all, 5).is_some());
}

#[test]
fn build_with_other_group_sizes() {
    let all = ids(&["n0", "n1", "n2", "n3", "n4", "n5"]);
    // Group size two: three groups, relays at ranks 0, 2 and 4.
    let n0 = build(&String::from("n0"), &all, 2).unwrap();
    assert_eq!(n0, ids(&["n1", "n2", "n4"]));
    let n3 = build(&String::from("n3"), &all, 2).unwrap();
    assert_eq!(n3, ids(&["n2"]));
}

#[test]
fn topology_get_finds_first_entry() {
    let mut topology = Topology::new();
    topology.insert(String::from("n0"), ids(&["n1"]));
    topology.insert(String::from("n1"), ids(&["n0", "n2"]));
    assert_eq!(topology.get(&String::from("n1")), Some(&ids(&["n0", "n2"])));
    assert_eq!(topology.get(&String::from("n9")), None);
}
