use douconel::Douconel;
use douconel::StructuralError;

fn tetra_faces() -> Vec<Vec<usize>> {
    vec![vec![0, 2, 1], vec![0, 1, 3], vec![1, 2, 3], vec![0, 3, 2]]
}

fn cube_faces() -> Vec<Vec<usize>> {
    vec![
        vec![0, 3, 2, 1],
        vec![4, 5, 6, 7],
        vec![0, 1, 5, 4],
        vec![1, 2, 6, 5],
        vec![2, 3, 7, 6],
        vec![3, 0, 4, 7],
    ]
}

#[test]
fn from_manual() {
    let faces = vec![vec![0, 2, 1], vec![0, 1, 3], vec![1, 2, 3], vec![0, 3, 2]];
    let douconel = Douconel::from_faces(&faces);
    assert!(douconel.is_ok(), "{douconel:?}");
    if let Ok((douconel, _, _)) = douconel {
        assert!(douconel.nr_verts() == 4);
        assert!(douconel.nr_edges() == 6 * 2);
        assert!(douconel.nr_faces() == 4);

        for face_id in douconel.face_handles() {
            assert!(douconel.corners(face_id).len() == 3);
        }
    }
}

#[test]
fn cube_counts() {
    let (mesh, _, _) = Douconel::from_faces(&cube_faces()).unwrap();
    assert_eq!(mesh.nr_verts(), 8);
    assert_eq!(mesh.nr_edges(), 24);
    assert_eq!(mesh.nr_faces(), 6);
    for f in mesh.face_handles() {
        assert_eq!(mesh.corners(f).len(), 4);
        assert_eq!(mesh.edges(f).len(), 4);
    }
}

#[test]
fn duplicate_directed_edge_is_nonmanifold() {
    let faces = vec![vec![0, 1, 2], vec![0, 1, 3]];
    let r = Douconel::from_faces(&faces);
    assert!(matches!(r, Err(StructuralError::NonManifold(_, _))), "{r:?}");
}

#[test]
fn lone_triangle_is_nonwatertight() {
    let faces = vec![vec![0, 1, 2]];
    let r = Douconel::from_faces(&faces);
    assert!(matches!(r, Err(StructuralError::NonWatertight(_))), "{r:?}");
}

#[test]
fn two_corner_face_is_degenerate() {
    let faces = vec![vec![0, 1], vec![1, 0, 2]];
    let r = Douconel::from_faces(&faces);
    assert!(matches!(r, Err(StructuralError::DegenerateFace(0))), "{r:?}");
}

#[test]
fn repeated_corner_is_degenerate() {
    let faces = vec![vec![0, 1, 2], vec![0, 1, 1, 3]];
    let r = Douconel::from_faces(&faces);
    assert!(matches!(r, Err(StructuralError::DegenerateFace(1))), "{r:?}");
}

#[test]
fn constructed_mesh_passes_all_three_verifications() {
    let (mesh, _, _) = Douconel::from_faces(&tetra_faces()).unwrap();
    assert!(mesh.verify_properties().is_ok());
    assert!(mesh.verify_references().is_ok());
    assert!(mesh.verify_invariants().is_ok());

    let (cube, _, _) = Douconel::from_faces(&cube_faces()).unwrap();
    assert!(cube.verify_properties().is_ok());
    assert!(cube.verify_references().is_ok());
    assert!(cube.verify_invariants().is_ok());
}

#[test]
fn twin_is_an_involution() {
    let (mesh, _, _) = Douconel::from_faces(&tetra_faces()).unwrap();
    for e in mesh.edge_handles() {
        let t = mesh.twin(e).unwrap();
        assert_ne!(t, e);
        assert_eq!(mesh.twin(t).unwrap(), e);
    }
}

#[test]
fn next_returns_after_exactly_the_corner_count() {
    let (mesh, _, _) = Douconel::from_faces(&cube_faces()).unwrap();
    for e in mesh.edge_handles() {
        let f = mesh.face(e).unwrap();
        let degree = mesh.corners(f).len();
        let mut cur = e;
        for step in 1..=degree {
            cur = mesh.next(cur).unwrap();
            if step < degree {
                assert_ne!(cur, e, "returned early at step {step}");
            }
        }
        assert_eq!(cur, e, "did not return after {degree} steps");
    }
}

#[test]
fn face_edges_agree_with_corners() {
    let (mesh, _, _) = Douconel::from_faces(&tetra_faces()).unwrap();
    for f in mesh.face_handles() {
        let es = mesh.edges(f);
        let cs = mesh.corners(f);
        assert_eq!(es.len(), cs.len());
        for (k, e) in es.iter().enumerate() {
            assert_eq!(mesh.face(*e).unwrap(), f);
            assert_eq!(mesh.root(*e).unwrap(), cs[k]);
        }
    }
}

#[test]
fn corner_lists_read_back_as_the_input() {
    let faces = tetra_faces();
    let (mesh, vm, fm) = Douconel::from_faces(&faces).unwrap();
    let mut readback: Vec<Vec<usize>> = Vec::new();
    for i in 0..faces.len() {
        let f = fm.get_by_left(i).unwrap();
        let mut poly = Vec::new();
        for v in mesh.corners(f) {
            poly.push(vm.get_by_right(v).unwrap());
        }
        readback.push(poly);
    }
    assert_eq!(readback, faces);
}

#[test]
fn rebuilding_from_readback_gives_an_isomorphic_mesh() {
    let (mesh, vm, fm) = Douconel::from_faces(&cube_faces()).unwrap();
    let mut readback: Vec<Vec<usize>> = Vec::new();
    for i in 0..mesh.nr_faces() {
        let f = fm.get_by_left(i).unwrap();
        let poly: Vec<usize> = mesh
            .corners(f)
            .into_iter()
            .map(|v| vm.get_by_right(v).unwrap())
            .collect();
        readback.push(poly);
    }
    let (rebuilt, _, _) = Douconel::from_faces(&readback).unwrap();
    assert_eq!(rebuilt.nr_verts(), mesh.nr_verts());
    assert_eq!(rebuilt.nr_edges(), mesh.nr_edges());
    assert_eq!(rebuilt.nr_faces(), mesh.nr_faces());
    for (fa, fb) in rebuilt.face_handles().into_iter().zip(mesh.face_handles()) {
        assert_eq!(rebuilt.corners(fa).len(), mesh.corners(fb).len());
    }
}

#[test]
fn noncontiguous_vertex_indices_are_mapped() {
    let faces = vec![
        vec![10, 30, 20],
        vec![10, 20, 40],
        vec![20, 30, 40],
        vec![10, 40, 30],
    ];
    let (mesh, vm, _) = Douconel::from_faces(&faces).unwrap();
    assert_eq!(mesh.nr_verts(), 4);
    assert_eq!(vm.len(), 4);
    for idx in [10, 20, 30, 40] {
        let v = vm.get_by_left(idx).unwrap();
        assert_eq!(vm.get_by_right(v).unwrap(), idx);
    }
    assert!(vm.get_by_left(25).is_none());
}

#[test]
fn traversal_around_a_vertex() {
    let (mesh, vm, _) = Douconel::from_faces(&tetra_faces()).unwrap();
    for idx in 0..4 {
        let v = vm.get_by_left(idx).unwrap();
        let out = mesh.outgoing(v);
        assert_eq!(out.len(), 3, "a tetrahedron vertex has three outgoing edges");
        for e in &out {
            assert_eq!(mesh.root(*e).unwrap(), v);
        }
        assert_eq!(mesh.star(v).len(), 3);
        let mut neighbors = mesh.vneighbors(v);
        neighbors.sort_by_key(|n| vm.get_by_right(*n).unwrap());
        neighbors.dedup();
        assert_eq!(neighbors.len(), 3);
        assert!(neighbors.iter().all(|n| *n != v));
    }
}

#[test]
fn edges_between_vertices_and_faces() {
    let (mesh, vm, _) = Douconel::from_faces(&tetra_faces()).unwrap();
    let a = vm.get_by_left(0).unwrap();
    let b = vm.get_by_left(1).unwrap();
    let (ea, eb) = mesh.edge_between_verts(a, b).unwrap();
    assert_eq!(mesh.root(ea).unwrap(), a);
    assert_eq!(mesh.root(eb).unwrap(), b);
    assert_eq!(mesh.twin(ea).unwrap(), eb);

    let fs = mesh.face_handles();
    let (sa, sb) = mesh.edge_between_faces(fs[0], fs[1]).unwrap();
    assert_eq!(mesh.face(sa).unwrap(), fs[0]);
    assert_eq!(mesh.face(sb).unwrap(), fs[1]);
    assert_eq!(mesh.twin(sa).unwrap(), sb);
}

#[test]
fn no_edge_between_faces_of_a_cube_across_the_diagonal() {
    let (mesh, _, _) = Douconel::from_faces(&cube_faces()).unwrap();
    let fs = mesh.face_handles();
    // bottom and top of the cube share no edge
    assert!(mesh.edge_between_faces(fs[0], fs[1]).is_none());
}

#[test]
fn endpoints_and_side_faces() {
    let (mesh, _, _) = Douconel::from_faces(&tetra_faces()).unwrap();
    for e in mesh.edge_handles() {
        let (u, v) = mesh.endpoints(e).unwrap();
        assert_ne!(u, v);
        let t = mesh.twin(e).unwrap();
        let (tu, tv) = mesh.endpoints(t).unwrap();
        assert_eq!(u, tv);
        assert_eq!(v, tu);
        let (f1, f2) = mesh.faces(e);
        assert_ne!(f1, f2);
    }
}

#[test]
fn accessors_reject_a_dead_handle() {
    let (mesh, _, _) = Douconel::from_faces(&tetra_faces()).unwrap();
    let empty = Douconel::new();
    assert_eq!(empty.nr_verts(), 0);
    let stray = mesh.edge_handles()[0];
    assert!(empty.root(stray).is_err());
    assert!(empty.twin(stray).is_err());
    assert!(empty.next(stray).is_err());
    assert!(empty.face(stray).is_err());
    assert!(empty.verify_properties().is_ok());
}

#[test]
fn neighbor_views_on_the_tetrahedron() {
    let (mesh, _, _) = Douconel::from_faces(&tetra_faces()).unwrap();
    for v in mesh.vert_handles() {
        assert_eq!(mesh.neighbor_function_primal(v).len(), 3);
    }
    for e in mesh.edge_handles() {
        let succ = mesh.neighbor_function_edgegraph(e);
        assert_eq!(succ.len(), 3);
        let (_, head) = mesh.endpoints(e).unwrap();
        for s in &succ {
            assert_eq!(mesh.root(*s).unwrap(), head);
        }
        let prev = mesh.twin(e).unwrap();
        let pairs = mesh.neighbor_function_edgepairgraph((prev, e));
        // crossing into the adjacent triangle leaves two ways onward
        assert_eq!(pairs.len(), 2);
        for (from, to) in &pairs {
            assert_eq!(*from, mesh.twin(e).unwrap());
            assert_ne!(*to, *from);
            assert_eq!(mesh.face(*to).unwrap(), mesh.face(*from).unwrap());
        }
    }
}

#[test]
fn random_handles_are_distinct_and_live() {
    let (mesh, _, _) = Douconel::from_faces(&cube_faces()).unwrap();
    let vs = mesh.random_verts(5);
    assert_eq!(vs.len(), 5);
    let es = mesh.random_edges(100);
    assert_eq!(es.len(), 24, "asking for more edges than exist returns all");
    let fs = mesh.random_faces(3);
    assert_eq!(fs.len(), 3);
    let all_vs = mesh.vert_handles();
    for v in &vs {
        assert!(all_vs.contains(v));
    }
    let mut sorted = es.clone();
    sorted.sort_by_key(|e| format!("{e:?}"));
    sorted.dedup();
    assert_eq!(sorted.len(), es.len(), "sampled edges are distinct");
}

#[test]
fn empty_input_builds_an_empty_mesh() {
    let faces: Vec<Vec<usize>> = vec![];
    let (mesh, vm, fm) = Douconel::from_faces(&faces).unwrap();
    assert_eq!(mesh.nr_verts(), 0);
    assert_eq!(mesh.nr_edges(), 0);
    assert_eq!(mesh.nr_faces(), 0);
    assert_eq!(vm.len(), 0);
    assert_eq!(fm.len(), 0);
    assert!(mesh.verify_properties().is_ok());
    assert!(mesh.verify_references().is_ok());
    assert!(mesh.verify_invariants().is_ok());
}

#[test]
fn face_over_the_degree_bound_is_degenerate() {
    let big: Vec<usize> = (0..101).collect();
    let r = Douconel::from_faces(&vec![big]);
    assert!(matches!(r, Err(StructuralError::DegenerateFace(0))), "{r:?}");
}

#[test]
fn verifier_follows_the_construction_order_of_errors() {
    // a degenerate face is reported before the duplicated directed edge
    let faces = vec![vec![0, 1, 2], vec![0, 1], vec![0, 1, 3]];
    let r = Douconel::from_faces(&faces);
    assert!(matches!(r, Err(StructuralError::DegenerateFace(1))), "{r:?}");
}
