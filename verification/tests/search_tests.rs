use douconel::Douconel;
use douconel::NeighborCache;
use douconel::find_shortest_cycle;
use douconel::find_shortest_path;

fn diamond() -> NeighborCache {
    // 0 -> 1 -> 3 is cheap, 0 -> 2 -> 3 is dear, plus a direct dear arc
    let mut cache = NeighborCache::new(4);
    cache.add_neighbor(0, 1, 1);
    cache.add_neighbor(1, 3, 1);
    cache.add_neighbor(0, 2, 4);
    cache.add_neighbor(2, 3, 4);
    cache.add_neighbor(0, 3, 7);
    cache.add_neighbor(3, 0, 1);
    cache
}

#[test]
fn shortest_path_picks_the_cheap_route() {
    let cache = diamond();
    let (path, cost) = find_shortest_path(0, 3, &cache).unwrap();
    assert_eq!(cost, 2);
    assert_eq!(path, vec![0, 1, 3]);
}

#[test]
fn shortest_path_to_an_unreachable_node_is_none() {
    let mut cache = NeighborCache::new(3);
    cache.add_neighbor(0, 1, 1);
    assert!(find_shortest_path(0, 2, &cache).is_none());
    assert!(find_shortest_path(2, 0, &cache).is_none());
}

#[test]
fn shortest_path_from_a_node_to_itself_is_empty() {
    let cache = diamond();
    let (path, cost) = find_shortest_path(1, 1, &cache).unwrap();
    assert_eq!(cost, 0);
    assert_eq!(path, vec![1]);
}

#[test]
fn shortest_cycle_closes_through_the_cheap_route() {
    let cache = diamond();
    let (cycle, cost) = find_shortest_cycle(0, &cache).unwrap();
    assert_eq!(cycle[0], 0);
    assert_eq!(*cycle.last().unwrap(), 0);
    // the cost counts the return path only: neighbor 3 gets back for 1,
    // cheaper than 1 (via 3, cost 2) and 2 (via 3, cost 5)
    assert_eq!(cost, 1);
    assert_eq!(cycle, vec![0, 3, 0]);
}

#[test]
fn shortest_cycle_without_return_is_none() {
    let mut cache = NeighborCache::new(3);
    cache.add_neighbor(0, 1, 1);
    cache.add_neighbor(1, 2, 1);
    assert!(find_shortest_cycle(0, &cache).is_none());
}

#[test]
fn search_is_deterministic_across_fresh_caches() {
    let r1 = find_shortest_path(0, 3, &diamond());
    let r2 = find_shortest_path(0, 3, &diamond());
    assert_eq!(r1, r2);
    let c1 = find_shortest_cycle(0, &diamond());
    let c2 = find_shortest_cycle(0, &diamond());
    assert_eq!(c1, c2);
}

#[test]
fn vertex_view_routes_across_the_cube() {
    // route over the cube's vertex graph with unit weights
    let faces = vec![
        vec![0, 3, 2, 1],
        vec![4, 5, 6, 7],
        vec![0, 1, 5, 4],
        vec![1, 2, 6, 5],
        vec![2, 3, 7, 6],
        vec![3, 0, 4, 7],
    ];
    let (mesh, vm, _) = Douconel::from_faces(&faces).unwrap();
    let n = mesh.nr_verts();
    let mut cache = NeighborCache::new(n);
    let handles = mesh.vert_handles();
    for (i, v) in handles.iter().enumerate() {
        for w in mesh.vneighbors(*v) {
            let j = handles.iter().position(|h| *h == w).unwrap();
            cache.add_neighbor(i, j, 1);
        }
    }
    let a = handles
        .iter()
        .position(|h| *h == vm.get_by_left(0).unwrap())
        .unwrap();
    let b = handles
        .iter()
        .position(|h| *h == vm.get_by_left(6).unwrap())
        .unwrap();
    // opposite cube corners are three unit edges apart
    let (path, cost) = find_shortest_path(a, b, &cache).unwrap();
    assert_eq!(cost, 3);
    assert_eq!(path.len(), 4);
}
