use lau_bridge_pattern_math::row_reduction::rank;
use lau_bridge_pattern_math::topology_homology::PatternComplex;

fn hollow_triangle() -> PatternComplex {
    let mut c = PatternComplex::new();
    let v0 = c.add_vertex("v0");
    let v1 = c.add_vertex("v1");
    let v2 = c.add_vertex("v2");
    c.add_edge(v0, v1);
    c.add_edge(v1, v2);
    c.add_edge(v0, v2);
    c
}

#[test]
fn test_empty_complex() {
    let c = PatternComplex::new();
    let (b0, b1, _b2) = c.betti_numbers();
    assert_eq!(b0, 0);
    assert_eq!(b1, 0);
}

#[test]
fn topology_homology_test_single_vertex() {
    let mut c = PatternComplex::new();
    c.add_vertex("v0");
    let (b0, b1, _) = c.betti_numbers();
    assert_eq!(b0, 1, "single vertex: β₀=1");
    assert_eq!(b1, 0, "single vertex: β₁=0");
}

#[test]
fn test_two_vertices_edge() {
    let mut c = PatternComplex::new();
    let v0 = c.add_vertex("v0");
    let v1 = c.add_vertex("v1");
    c.add_edge(v0, v1);
    let (b0, b1, _) = c.betti_numbers();
    assert_eq!(b0, 1, "two vertices connected: β₀=1");
    assert_eq!(b1, 0, "two vertices: β₁=0");
}

#[test]
fn test_triangle_no_fill() {
    let mut c = PatternComplex::new();
    let v0 = c.add_vertex("v0");
    let v1 = c.add_vertex("v1");
    let v2 = c.add_vertex("v2");
    c.add_edge(v0, v1);
    c.add_edge(v1, v2);
    c.add_edge(v0, v2);
    let (b0, b1, _) = c.betti_numbers();
    assert_eq!(b0, 1);
    assert_eq!(b1, 1, "triangle without fill: β₁=1 (one cycle)");
}

#[test]
fn test_triangle_filled() {
    let mut c = PatternComplex::new();
    let v0 = c.add_vertex("v0");
    let v1 = c.add_vertex("v1");
    let v2 = c.add_vertex("v2");
    c.add_edge(v0, v1);
    c.add_edge(v1, v2);
    c.add_edge(v0, v2);
    c.add_triangle(v0, v1, v2);
    let (b0, b1, _) = c.betti_numbers();
    assert_eq!(b0, 1);
    assert_eq!(b1, 0, "filled triangle: β₁=0 (cycle is a boundary)");
}

#[test]
fn test_disconnected_components() {
    let mut c = PatternComplex::new();
    let v0 = c.add_vertex("v0");
    let v1 = c.add_vertex("v1");
    let _v2 = c.add_vertex("v2");
    c.add_edge(v0, v1);
    // v2 is isolated
    let (b0, _, _) = c.betti_numbers();
    assert_eq!(b0, 2, "disconnected: β₀=2");
}

#[test]
fn test_euler_characteristic_triangle() {
    let mut c = PatternComplex::new();
    let v0 = c.add_vertex("v0");
    let v1 = c.add_vertex("v1");
    let v2 = c.add_vertex("v2");
    c.add_edge(v0, v1);
    c.add_edge(v1, v2);
    c.add_edge(v0, v2);
    c.add_triangle(v0, v1, v2);
    let chi = c.euler_characteristic();
    // χ = V - E + F = 3 - 3 + 1 = 1
    assert_eq!(chi, 1);
}

#[test]
fn test_euler_characteristic_unfilled() {
    let mut c = PatternComplex::new();
    let v0 = c.add_vertex("v0");
    let v1 = c.add_vertex("v1");
    let v2 = c.add_vertex("v2");
    c.add_edge(v0, v1);
    c.add_edge(v1, v2);
    c.add_edge(v0, v2);
    // χ = β₀ - β₁ = 1 - 1 = 0
    let chi = c.euler_characteristic();
    assert_eq!(chi, 0);
}

#[test]
fn test_boundary_matrices() {
    let mut c = PatternComplex::new();
    let v0 = c.add_vertex("v0");
    let v1 = c.add_vertex("v1");
    c.add_edge(v0, v1);
    let d1 = c.boundary_1();
    assert_eq!(d1.nrows(), 2);
    assert_eq!(d1.ncols(), 1);
}

#[test]
fn test_homology_result() {
    let mut c = PatternComplex::new();
    c.add_vertex("v0");
    let result = c.homology();
    assert_eq!(result.n_vertices, 1);
    assert_eq!(result.betti.0, 1);
}

#[test]
fn test_complex_cycle_detection() {
    let mut c = PatternComplex::new();
    let v0 = c.add_vertex("v0");
    let v1 = c.add_vertex("v1");
    let v2 = c.add_vertex("v2");
    c.add_edge(v0, v1);
    c.add_edge(v1, v2);
    c.add_edge(v0, v2);
    // The cycle {0,1,2} (all edges) is not a boundary without the triangle
    assert!(!c.is_boundary_cycle(&[0, 1, 2]));
}

#[test]
fn boundary_matrix_entries() {
    let mut c = hollow_triangle();
    c.add_triangle(2, 0, 1);
    assert_eq!(c.triangles, vec![(0, 1, 2)]);
    assert_eq!(c.edges, vec![(0, 1), (1, 2), (0, 2)]);
    let d1 = c.boundary_1();
    // Column of edge (i, j): -1 at i, +1 at j.
    assert_eq!((d1.entry(0, 0), d1.entry(1, 0), d1.entry(2, 0)), (-1, 1, 0));
    assert_eq!((d1.entry(0, 2), d1.entry(1, 2), d1.entry(2, 2)), (-1, 0, 1));
    let d2 = c.boundary_2();
    assert_eq!((d2.nrows(), d2.ncols()), (3, 1));
    // ∂(012) = (12) - (02) + (01)
    assert_eq!((d2.entry(0, 0), d2.entry(1, 0), d2.entry(2, 0)), (1, 1, -1));
    assert_eq!(rank(&d1), 2);
    assert_eq!(rank(&d2), 1);
}

#[test]
fn boundary_of_a_loop_and_of_a_missing_edge() {
    let mut c = PatternComplex::new();
    c.add_vertex("a");
    c.add_vertex("b");
    c.add_edge(1, 1);
    let d1 = c.boundary_1();
    assert_eq!((d1.entry(0, 0), d1.entry(1, 0)), (0, 1));
    c.add_triangle(0, 1, 1);
    let d2 = c.boundary_2();
    // Sides (0,1), (0,1), (1,1): only the loop (1,1) is an edge.
    assert_eq!(d2.entry(0, 0), 1);
}

#[test]
fn boundary_cycle_found_on_a_triangle() {
    let mut c = hollow_triangle();
    c.add_triangle(0, 1, 2);
    assert!(c.is_boundary_cycle(&[0, 1, 2]));
    assert!(c.is_boundary_cycle(&[2, 1, 0]));
    // A single edge, an open path or a missing edge is not a cycle.
    assert!(!c.is_boundary_cycle(&[2]));
    assert!(!c.is_boundary_cycle(&[0, 1]));
    assert!(!c.is_boundary_cycle(&[0, 7]));
    // The empty cycle is a boundary, with or without triangles.
    assert!(c.is_boundary_cycle(&[]));
    let plain = hollow_triangle();
    assert!(plain.is_boundary_cycle(&[]));
}

#[test]
fn square_bounded_by_two_triangles() {
    let mut c = PatternComplex::new();
    for name in ["a", "b", "c", "d"] {
        c.add_vertex(name);
    }
    for (i, j) in [(0, 1), (1, 2), (2, 3), (0, 3), (0, 2)] {
        c.add_edge(i, j);
    }
    // Without triangles the outer square is a cycle but not a boundary.
    assert!(!c.is_boundary_cycle(&[0, 1, 2, 3]));
    c.add_triangle(0, 1, 2);
    // One triangle fills only half of it.
    assert!(!c.is_boundary_cycle(&[0, 1, 2, 3]));
    assert!(c.is_boundary_cycle(&[0, 1, 4]));
    c.add_triangle(0, 2, 3);
    // e01 + e12 + e23 - e03 is the boundary of both triangles together.
    assert!(c.is_boundary_cycle(&[0, 1, 2, 3]));
    assert!(c.is_boundary_cycle(&[3, 2, 1, 0]));
    assert_eq!(c.betti_numbers().1, 0);
}

#[test]
fn betti_numbers_of_a_hollow_tetrahedron() {
    let mut c = PatternComplex::new();
    for name in ["a", "b", "c", "d"] {
        c.add_vertex(name);
    }
    for i in 0..4 {
        for j in (i + 1)..4 {
            c.add_edge(i, j);
        }
    }
    c.add_triangle(0, 1, 2);
    c.add_triangle(0, 1, 3);
    c.add_triangle(0, 2, 3);
    c.add_triangle(1, 2, 3);
    assert_eq!(c.betti_numbers(), (1, 0, 1));
    // Euler–Poincaré: 4 - 6 + 4 = 2
    assert_eq!(c.euler_characteristic(), 2);
    let h = c.homology();
    assert_eq!((h.n_vertices, h.n_edges, h.n_triangles), (4, 6, 4));
    assert_eq!(h.euler_characteristic, 2);
}

#[test]
fn betti_numbers_of_two_squares() {
    // Two disjoint 4-cycles: β₀ = 2, β₁ = 2.
    let mut c = PatternComplex::new();
    for k in 0..8 {
        c.add_vertex(&format!("v{}", k));
    }
    for base in [0, 4] {
        for k in 0..4 {
            c.add_edge(base + k, base + (k + 1) % 4);
        }
    }
    assert_eq!(c.betti_numbers(), (2, 2, 0));
    assert_eq!(c.euler_characteristic(), 0);
}

#[test]
fn add_vertex_returns_consecutive_indices() {
    let mut c = PatternComplex::new();
    assert_eq!(c.add_vertex("x"), 0);
    assert_eq!(c.add_vertex("y"), 1);
    assert_eq!(c.vertices, vec!["x".to_string(), "y".to_string()]);
    c.add_edge(1, 0);
    assert_eq!(c.edges, vec![(0, 1)]);
}

#[test]
fn betti_counts_components_and_cycles() {
    // A square cycle, an isolated vertex and a single edge: three components, one cycle.
    let mut c = PatternComplex::new();
    for name in ["a", "b", "c", "d", "e", "f", "g"] {
        c.add_vertex(name);
    }
    c.add_edge(0, 1);
    c.add_edge(1, 2);
    c.add_edge(2, 3);
    c.add_edge(3, 0);
    c.add_edge(5, 6);
    let (b0, b1, b2) = c.betti_numbers();
    assert_eq!(b0, 3);
    assert_eq!(b1, 1);
    assert_eq!(b2, 0);
    assert_eq!(b1 + 7, 5 + b0);
}

#[test]
fn hollow_tetrahedron_is_a_sphere() {
    let mut c = PatternComplex::new();
    for name in ["a", "b", "c", "d"] {
        c.add_vertex(name);
    }
    for (i, j) in [(0, 1), (0, 2), (0, 3), (1, 2), (1, 3), (2, 3)] {
        c.add_edge(i, j);
    }
    c.add_triangle(0, 1, 2);
    c.add_triangle(0, 1, 3);
    c.add_triangle(0, 2, 3);
    c.add_triangle(1, 2, 3);
    assert_eq!(c.betti_numbers(), (1, 0, 1));
    // V - E + T = 4 - 6 + 4.
    assert_eq!(c.euler_characteristic(), 2);
}

#[test]
fn filled_square_is_contractible() {
    let mut c = PatternComplex::new();
    for name in ["a", "b", "c", "d"] {
        c.add_vertex(name);
    }
    for (i, j) in [(0, 1), (1, 2), (2, 3), (0, 3), (0, 2)] {
        c.add_edge(i, j);
    }
    c.add_triangle(2, 0, 1);
    c.add_triangle(0, 3, 2);
    let h = c.homology();
    assert_eq!(h.betti, (1, 0, 0));
    // V - E + T = 4 - 5 + 2.
    assert_eq!(h.euler_characteristic, 1);
}

#[test]
fn unsorted_triangle_breaks_euler_poincare() {
    // The boundary of a triangle is read off its stored vertex order, so a triangle
    // stored as (2, 0, 1) is not a cycle: the hollow tetrahedron then loses its
    // 2-cycle and χ is 1, not V - E + T = 2.
    let mut c = PatternComplex::new();
    for name in ["a", "b", "c", "d"] {
        c.add_vertex(name);
    }
    for (i, j) in [(0, 1), (0, 2), (0, 3), (1, 2), (1, 3), (2, 3)] {
        c.add_edge(i, j);
    }
    c.triangles = vec![(2, 0, 1), (0, 1, 3), (0, 2, 3), (1, 2, 3)];
    assert_eq!(c.betti_numbers(), (1, 0, 0));
    assert_eq!(c.euler_characteristic(), 1);
}

#[test]
fn rank_is_taken_over_the_prime_field() {
    // Ones on and above the diagonal (top-right corner 0), minus ones just below it:
    // the determinant is 2^31 - 1, the field's modulus, so over that field the rank is
    // one short of the rank over the rationals.
    let n = 32;
    let rows: Vec<Vec<i64>> = (0..n)
        .map(|i| {
            (0..n)
                .map(|j| {
                    if i == 0 && j == n - 1 {
                        0
                    } else if j >= i {
                        1
                    } else if j + 1 == i {
                        -1
                    } else {
                        0
                    }
                })
                .collect()
        })
        .collect();
    let m = lau_bridge_pattern_math::row_reduction::IntMatrix::from_rows(n, n, rows);
    assert_eq!(rank(&m), 31);
}
