use hammer::evicting_store::list::{Links, List, Node, NodeLocation};

fn unlinked_nodes(n: usize) -> Vec<Links> {
    vec![Links { prev: None, next: None }; n]
}

#[test]
fn list_new_is_empty() {
    let l = List::new();
    assert_eq!(l.len(), 0);
    assert_eq!(l.front, None);
    assert_eq!(l.back, None);
}

#[test]
fn links_location() {
    assert_eq!(Links { prev: None, next: None }.location(), NodeLocation::NotInList);
    assert_eq!(Links { prev: None, next: Some(1) }.location(), NodeLocation::Back);
    assert_eq!(Links { prev: Some(1), next: None }.location(), NodeLocation::Front);
    assert_eq!(Links { prev: Some(1), next: Some(2) }.location(), NodeLocation::Middle);
}

#[test]
fn push_front_links_to_old_front() {
    let mut nodes = unlinked_nodes(3);
    let mut l = List::new();
    l.push_front(&mut nodes, 0);
    assert_eq!(l.front, Some(0));
    assert_eq!(l.len(), 1);
    assert_eq!(nodes[0], Links { prev: None, next: None });

    l.push_front(&mut nodes, 1);
    assert_eq!(l.front, Some(1));
    assert_eq!(l.len(), 2);
    assert_eq!(nodes[0].prev, Some(1));
    assert_eq!(nodes[1].next, Some(0));

    l.push_front(&mut nodes, 2);
    assert_eq!(l.front, Some(2));
    assert_eq!(l.len(), 3);
    assert_eq!(nodes[1].prev, Some(2));
    assert_eq!(nodes[2].next, Some(1));
    // node 1 now has both links: it stands in the middle
    assert_eq!(nodes[1].location(), NodeLocation::Middle);
}

#[test]
fn remove_middle_links_neighbours() {
    let mut nodes = unlinked_nodes(3);
    let mut l = List::new();
    l.push_front(&mut nodes, 0);
    l.push_front(&mut nodes, 1);
    l.push_front(&mut nodes, 2);

    l.remove(&mut nodes, 1);
    assert_eq!(l.len(), 2);
    assert_eq!(nodes[1], Links { prev: None, next: None });
    assert_eq!(nodes[2].next, Some(0));
    assert_eq!(nodes[0].prev, Some(2));
    assert_eq!(l.front, Some(2));
}

#[test]
fn remove_unlinked_node_changes_nothing() {
    let mut nodes = unlinked_nodes(2);
    let mut l = List::new();
    l.push_front(&mut nodes, 0);
    let before = nodes.clone();
    l.remove(&mut nodes, 1);
    assert_eq!(nodes, before);
    assert_eq!(l.len(), 1);
    assert_eq!(l.front, Some(0));
}

#[test]
fn remove_by_location_moves_ends() {
    let mut nodes = unlinked_nodes(2);
    let mut l = List::new();
    l.push_front(&mut nodes, 0);
    l.push_front(&mut nodes, 1);
    // the older node carries only a prev link, the newer one only a next link
    assert_eq!(nodes[0].location(), NodeLocation::Front);
    assert_eq!(nodes[1].location(), NodeLocation::Back);

    l.remove(&mut nodes, 0);
    assert_eq!(l.front, Some(1));
    assert_eq!(l.len(), 1);
    assert_eq!(nodes[0], Links { prev: None, next: None });
    assert_eq!(nodes[1], Links { prev: None, next: None });

    l.back = Some(1);
    nodes[1] = Links { prev: None, next: Some(0) };
    l.remove(&mut nodes, 1);
    assert_eq!(l.back, Some(0));
    assert_eq!(l.len(), 0);
    assert_eq!(nodes[1], Links { prev: None, next: None });
}

use hammer::evicting_store::arc::ARC;

#[test]
fn arc_hits_misses_and_adapts() {
    let mut cache = ARC::with_capacity(2);
    assert_eq!(cache.get(1), (false, vec![]));
    assert_eq!(cache.get(2), (false, vec![]));
    // a second request is a hit
    assert_eq!(cache.get(1), (true, vec![]));
    // the cache is full: the least recent once-seen token goes
    assert_eq!(cache.get(3), (false, vec![2]));
    // a token remembered as evicted from the recent list grows its target,
    // and the frequent list gives up its least recent token
    assert_eq!(cache.get(2), (false, vec![1]));
    assert_eq!(cache.get(2), (true, vec![]));
}

#[test]
fn arc_replace_on_empty_cache_evicts_nothing() {
    let mut cache = ARC::with_capacity(3);
    assert_eq!(cache.replace(false), None);
}
