use osm_road_graph::scc::{components, finish_order, largest_component_members};

fn reverse(adj: &Vec<Vec<usize>>) -> Vec<Vec<usize>> {
    let mut back = vec![Vec::new(); adj.len()];
    for (u, list) in adj.iter().enumerate() {
        for &w in list {
            back[w].push(u);
        }
    }
    back
}

#[test]
fn finish_order_is_the_post_order_of_the_traversal() {
    let adj = vec![vec![1, 2], vec![3], vec![3], vec![], vec![0]];
    assert_eq!(finish_order(&adj), vec![3, 1, 2, 0, 4]);
}

#[test]
fn finish_order_of_nothing_is_empty() {
    let adj: Vec<Vec<usize>> = Vec::new();
    assert_eq!(finish_order(&adj), Vec::<usize>::new());
}

#[test]
fn components_are_labelled_with_their_least_node() {
    // 0 -> 1 -> 2 -> 0, 2 -> 3, 3 <-> 4
    let adj = vec![vec![1], vec![2], vec![0, 3], vec![4], vec![3]];
    assert_eq!(components(&adj, &reverse(&adj)), vec![0, 0, 0, 3, 3]);
}

#[test]
fn later_finished_nodes_do_not_swallow_earlier_components() {
    // 1 -> 0, 0 <-> 2: the traversal finishes 1 last, yet 1 is alone
    let adj = vec![vec![2], vec![0], vec![0]];
    assert_eq!(components(&adj, &reverse(&adj)), vec![0, 1, 0]);
}

#[test]
fn largest_component_is_marked() {
    let adj = vec![vec![1], vec![0], vec![3], vec![4], vec![2], vec![5]];
    assert_eq!(
        largest_component_members(&adj, &reverse(&adj)),
        vec![false, false, true, true, true, false]
    );
}

#[test]
fn first_of_the_largest_components_is_marked() {
    let adj = vec![vec![], vec![2], vec![1], vec![4], vec![3]];
    assert_eq!(
        largest_component_members(&adj, &reverse(&adj)),
        vec![false, true, true, false, false]
    );
}

#[test]
fn graph_without_nodes_has_no_members() {
    let adj: Vec<Vec<usize>> = Vec::new();
    assert_eq!(largest_component_members(&adj, &adj), Vec::<bool>::new());
}
