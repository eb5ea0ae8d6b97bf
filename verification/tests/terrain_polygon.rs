use shiku_home::ring::RingVec;
use shiku_home::terrain::TerrainGridTile;

#[test]
fn test_point_inside_polygon() {
    let vertices = RingVec::from(vec![(0, 0), (0, 5), (5, 5), (5, 0)]);

    assert!(TerrainGridTile::vertex_in_polygon(&vertices, (2, 2)));
    assert!(TerrainGridTile::vertex_in_polygon(&vertices, (0, 0)));
    assert!(TerrainGridTile::vertex_in_polygon(&vertices, (5, 5)));
    assert!(!TerrainGridTile::vertex_in_polygon(&vertices, (6, 6)));
    assert!(!TerrainGridTile::vertex_in_polygon(&vertices, (-1, -1)));
}

#[test]
fn vertex_in_polygon_bug_1() {
    let vertices = RingVec::from(vec![(9, 0), (25, 0), (25, 16), (9, 16)]);

    assert!(TerrainGridTile::vertex_in_polygon(&vertices, (9, 0)));
    assert!(!TerrainGridTile::vertex_in_polygon(&vertices, (8, 0)));
}

#[test]
fn test_point_on_polygon_edge() {
    let vertices = RingVec::from(vec![(0, 0), (5, 0), (5, 5), (0, 5)]);

    assert!(TerrainGridTile::vertex_in_polygon(&vertices, (0, 2)));
    assert!(TerrainGridTile::vertex_in_polygon(&vertices, (2, 5)));
    assert!(TerrainGridTile::vertex_in_polygon(&vertices, (5, 3)));
    assert!(TerrainGridTile::vertex_in_polygon(&vertices, (3, 0)));
}

#[test]
fn test_point_inside_concave_polygon() {
    let vertices = RingVec::from(vec![
        (0, 0),
        (0, 5),
        (2, 5),
        (2, 3),
        (4, 3),
        (4, 5),
        (6, 5),
        (6, 0),
    ]);

    assert!(TerrainGridTile::vertex_in_polygon(&vertices, (1, 2)));
    assert!(TerrainGridTile::vertex_in_polygon(&vertices, (5, 2)));
    assert!(TerrainGridTile::vertex_in_polygon(&vertices, (3, 2)));
    assert!(TerrainGridTile::vertex_in_polygon(&vertices, (2, 4)));
    assert!(TerrainGridTile::vertex_in_polygon(&vertices, (1, 4)));
    assert!(TerrainGridTile::vertex_in_polygon(&vertices, (0, 4)));
    assert!(!TerrainGridTile::vertex_in_polygon(&vertices, (7, 3)));
    assert!(!TerrainGridTile::vertex_in_polygon(&vertices, (3, 4)));
}

#[test]
fn vertex_in_polygon_bug_2() {
    let vertices = RingVec::from(vec![(32, 2), (32, 16), (16, 16), (16, 3)]);

    assert!(!TerrainGridTile::vertex_in_polygon(&vertices, (0, 3)));
}

#[test]
fn vertex_in_polygon_bug_3() {
    let vertices = RingVec::from(vec![(16, 0), (29, 0), (29, 9), (16, 15)]);

    assert!(!TerrainGridTile::vertex_in_polygon(&vertices, (0, 15)));
}

#[test]
fn moved_polygon_keeps_inside_points() {
    let vertices = RingVec::from(vec![(10, 10), (10, 15), (15, 15), (15, 10)]);

    assert!(TerrainGridTile::vertex_in_polygon(&vertices, (12, 12)));
    assert!(!TerrainGridTile::vertex_in_polygon(&vertices, (16, 16)));
}

#[test]
fn ring_positions_wrap_around() {
    let ring = RingVec::from(vec![1, 2, 3]);

    assert_eq!(*ring.get(-1), 3);
    assert_eq!(*ring.get(3), 1);
    assert_eq!(*ring.get(4), 2);
    assert_eq!(*ring.first(), 1);
    assert_eq!(*ring.last(), 3);
    assert_eq!(ring.len(), 3);
}
