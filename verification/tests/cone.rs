use squishy_volumes_gpu::cone::{triangles, Triangle, CONE_VERTEX_COUNT};

#[test]
fn cone_triangles_in_order() {
    let expected: Vec<[u32; 3]> = vec![
        [31, 0, 1], [1, 2, 3], [3, 4, 5], [5, 6, 7], [7, 8, 9], [9, 10, 11],
        [11, 12, 13], [13, 14, 15], [15, 16, 17], [17, 18, 19], [19, 20, 21], [21, 22, 23],
        [23, 24, 25], [25, 26, 27], [27, 28, 29], [29, 30, 31], [31, 1, 7], [1, 3, 7],
        [3, 5, 7], [7, 9, 15], [9, 11, 15], [11, 13, 15], [15, 17, 23], [17, 19, 23],
        [19, 21, 23], [23, 25, 31], [25, 27, 31], [27, 29, 31], [31, 7, 15], [15, 23, 31],
        [0, 32, 1], [1, 32, 2], [2, 32, 3], [3, 32, 4], [4, 32, 5], [5, 32, 6],
        [6, 32, 7], [7, 32, 8], [8, 32, 9], [9, 32, 10], [10, 32, 11], [11, 32, 12],
        [12, 32, 13], [13, 32, 14], [14, 32, 15], [15, 32, 16], [16, 32, 17], [17, 32, 18],
        [18, 32, 19], [19, 32, 20], [20, 32, 21], [21, 32, 22], [22, 32, 23], [23, 32, 24],
        [24, 32, 25], [25, 32, 26], [26, 32, 27], [27, 32, 28], [28, 32, 29], [29, 32, 30],
        [30, 32, 31], [31, 32, 0],
    ];
    let got: Vec<[u32; 3]> = triangles()
        .into_iter()
        .map(|Triangle { a, b, c }| [a, b, c])
        .collect();
    assert_eq!(got, expected);
}

#[test]
fn cone_edges_come_in_opposite_pairs() {
    let tris = triangles();
    for t in &tris {
        for (u, v) in [(t.a, t.b), (t.b, t.c), (t.c, t.a)] {
            assert!(u < CONE_VERTEX_COUNT && v < CONE_VERTEX_COUNT && u != v);
            let back = tris
                .iter()
                .filter(|s| [(s.a, s.b), (s.b, s.c), (s.c, s.a)].contains(&(v, u)))
                .count();
            assert_eq!(back, 1);
        }
    }
}
