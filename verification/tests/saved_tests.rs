use geogrid::util::lat_lon;
use geogrid::GeoGrid;
use geogrid::Node;
use road_match::saved::distance_buffer;
use road_match::saved::squared;
use road_match::saved::SavedLocation;

/// A grid of `n` by `n` cells with a road down its diagonal.
fn diagonal_grid(n: usize) -> GeoGrid {
    let step = 0.001_f32;
    let mut nodes = Vec::new();
    for k in 0..n {
        nodes.push(Node { lat: 10.0 - k as f32 * step, lon: 20.0 + k as f32 * step });
    }
    let north = nodes[0].lat;
    let south = nodes[n - 1].lat;
    let west = nodes[0].lon;
    let east = nodes[n - 1].lon;
    let (lat_len, lon_len) = lat_lon((south + north) / 2.0);
    let res_lat = lat_len * (north - south) / n as f32;
    let res_lon = lon_len * (east - west) / n as f32;
    GeoGrid::from_nodes(&nodes, (res_lat, res_lon))
}

#[test]
fn squares_of_small_values() {
    assert_eq!(squared(vec![0, 1, 2, 3, -4]), Some(vec![0, 1, 4, 9, 16]));
    assert_eq!(squared(Vec::new()), Some(Vec::new()));
}

#[test]
fn largest_square_that_fits() {
    assert_eq!(squared(vec![46340]), Some(vec![2147395600]));
    assert_eq!(squared(vec![46341]), None);
    assert_eq!(squared(vec![1, 2, -46341, 3]), None);
    assert_eq!(squared(vec![i32::MIN]), None);
}

#[test]
fn distances_to_a_diagonal_road() {
    let cells: Vec<u8> = vec![1, 0, 0, 0, 0, 1, 0, 0, 0, 0, 1, 0, 0, 0, 0, 1];
    assert_eq!(
        distance_buffer(&cells, 4, 4),
        Some(vec![0, 1, 4, 9, 1, 0, 1, 4, 4, 1, 0, 1, 9, 4, 1, 0])
    );
}

#[test]
fn distances_in_a_row() {
    let cells: Vec<u8> = vec![0, 0, 1, 0, 0, 0];
    assert_eq!(distance_buffer(&cells, 1, 6), Some(vec![4, 1, 0, 1, 4, 9]));
    assert_eq!(distance_buffer(&cells, 6, 1), Some(vec![4, 1, 0, 1, 4, 9]));
}

#[test]
fn cells_that_are_not_a_grid_have_no_distances() {
    let cells: Vec<u8> = vec![1, 0, 0, 0, 0, 1];
    assert_eq!(distance_buffer(&cells, 2, 2), None);
    assert_eq!(distance_buffer(&cells, 4, 2), None);
    assert_eq!(distance_buffer(&cells, usize::MAX, 2), None);
    assert_eq!(distance_buffer(&cells, 0, 0), None);
}

#[test]
fn empty_grid_has_an_empty_buffer() {
    let cells: Vec<u8> = Vec::new();
    assert_eq!(distance_buffer(&cells, 0, 0), Some(Vec::new()));
    assert_eq!(distance_buffer(&cells, 0, 7), Some(Vec::new()));
}

#[test]
fn grid_without_a_road_fails_where_the_squares_do_not_fit() {
    let small: Vec<u8> = vec![0; 4];
    assert_eq!(distance_buffer(&small, 2, 2), Some(vec![25, 25, 25, 25]));
    let large: Vec<u8> = vec![0; 50_000];
    assert_eq!(distance_buffer(&large, 200, 250), None);
}

#[test]
fn location_is_built_from_its_grid() {
    let geo = diagonal_grid(4);
    assert_eq!(geo.size(), (4, 4));
    let saved = SavedLocation::new(geo).unwrap();
    assert_eq!(saved.rows(), 4);
    assert_eq!(saved.cols(), 4);
    assert_eq!(saved.dt(), &[0, 1, 4, 9, 1, 0, 1, 4, 4, 1, 0, 1, 9, 4, 1, 0]);
    assert!(saved.geo().is_empty());
    assert_eq!(saved.geo().size(), (4, 4));
}

#[test]
fn location_is_put_together_from_parts() {
    let saved = SavedLocation::assemble(diagonal_grid(2), 2, 3, vec![1, 2, 3, 4, 5, 6]).unwrap();
    assert_eq!(saved.rows(), 2);
    assert_eq!(saved.cols(), 3);
    assert_eq!(saved.dt(), &[1, 2, 3, 4, 5, 6]);
}

#[test]
fn buffer_of_another_size_is_refused() {
    assert!(SavedLocation::assemble(diagonal_grid(2), 2, 3, vec![1, 2, 3]).is_none());
    assert!(SavedLocation::assemble(diagonal_grid(2), usize::MAX, 3, vec![1, 2, 3]).is_none());
    assert!(SavedLocation::assemble(diagonal_grid(2), 0, 3, Vec::new()).is_some());
}
