use geogrid::util::lat_lon;
use geogrid::GeoGrid;
use geogrid::Node;
use road_match::config::Engine;
use road_match::matcher::find_match;
use road_match::matcher::match_window;
use road_match::matcher::SUPPRESS_RADIUS;
use road_match::rank::rank;
use road_match::rank::window_offsets;
use road_match::saved::SavedLocation;
use road_match::window::subrect;

const M: i32 = i32::MAX;

fn diagonal_grid(n: usize) -> GeoGrid {
    let step = 0.001_f32;
    let mut nodes = Vec::new();
    for k in 0..n {
        nodes.push(Node { lat: 10.0 - k as f32 * step, lon: 20.0 + k as f32 * step });
    }
    let north = nodes[0].lat;
    let south = nodes[n - 1].lat;
    let west = nodes[0].lon;
    let east = nodes[n - 1].lon;
    let (lat_len, lon_len) = lat_lon((south + north) / 2.0);
    let res_lat = lat_len * (north - south) / n as f32;
    let res_lon = lon_len * (east - west) / n as f32;
    GeoGrid::from_nodes(&nodes, (res_lat, res_lon))
}

fn diagonal_distances() -> Vec<i32> {
    vec![0, 1, 4, 9, 1, 0, 1, 4, 4, 1, 0, 1, 9, 4, 1, 0]
}

#[test]
fn single_cell_shape_scores_the_road_cells_best() {
    let dt = diagonal_distances();
    let shape = vec![vec![true]];
    let scores = match_window(&dt, (4, 4), &shape, SUPPRESS_RADIUS, Engine::SingleCore).unwrap();
    assert_eq!(scores, vec![0, M, M, M, M, 0, M, M, M, M, 0, M, M, M, M, M]);
}

#[test]
fn all_cores_score_as_one_core() {
    let dt = diagonal_distances();
    let shape = vec![vec![true, false], vec![true, true]];
    let one = match_window(&dt, (4, 4), &shape, 1, Engine::SingleCore).unwrap();
    let all = match_window(&dt, (4, 4), &shape, 1, Engine::MultiCore).unwrap();
    assert_eq!(one, all);
    assert_eq!(one.len(), 16);
    assert_eq!(one[0], 1);
}

#[test]
fn end_to_end_on_a_four_by_four_grid() {
    let saved = SavedLocation::new(diagonal_grid(4)).unwrap();
    assert_eq!(saved.dt(), diagonal_distances().as_slice());
    let window = subrect(saved.dt(), saved.cols(), 0, (4, 4));
    let shape = vec![vec![true]];
    let scores = match_window(&window, (4, 4), &shape, SUPPRESS_RADIUS, Engine::MultiCore).unwrap();
    let best = rank(&scores, 2);
    assert_eq!(best, vec![0, 5]);
    assert_eq!(saved.dt()[best[0]], 0);
    assert_eq!(saved.dt()[best[1]], 0);
    assert_eq!(window_offsets(&best, 4), vec![(0, 0), (1, 1)]);
}

#[test]
fn find_match_reports_the_best_cells_first() {
    let saved = SavedLocation::new(diagonal_grid(4)).unwrap();
    let shape = vec![vec![true]];
    let cells = find_match(&saved, 0, (4, 4), &shape, Engine::SingleCore);
    assert_eq!(cells.len(), 11);
    assert_eq!(&cells[..3], &[(0, 0), (1, 1), (2, 2)]);
    assert_eq!(&cells[3..6], &[(0, 1), (0, 2), (0, 3)]);
}

#[test]
fn find_match_in_a_window_of_the_grid() {
    let saved = SavedLocation::new(diagonal_grid(4)).unwrap();
    let shape = vec![vec![true]];
    let cells = find_match(&saved, 5, (3, 3), &shape, Engine::SingleCore);
    assert_eq!(cells.len(), 9);
    assert_eq!(&cells[..2], &[(0, 0), (1, 1)]);
}

#[test]
fn window_outside_the_grid_has_no_match() {
    let saved = SavedLocation::new(diagonal_grid(4)).unwrap();
    let shape = vec![vec![true]];
    assert!(find_match(&saved, 10, (3, 3), &shape, Engine::SingleCore).is_empty());
    assert!(find_match(&saved, 0, (5, 4), &shape, Engine::SingleCore).is_empty());
    assert!(find_match(&saved, 0, (0, 0), &shape, Engine::SingleCore).is_empty());
}

#[test]
fn origin_cell_translates_to_the_origin() {
    let geo = diagonal_grid(4);
    let start = 5;
    let (s_lat, s_lon) = geo.to_lat_lon(start);
    let (r_lat, r_lon) = geo.degree_resolution();
    let cells = window_offsets(&vec![0], 3);
    let (row, col) = cells[0];
    let lat = s_lat - row as f32 * r_lat;
    let lon = s_lon + col as f32 * r_lon;
    assert_eq!((row, col), (0, 0));
    assert_eq!((lat, lon), (s_lat, s_lon));
}

#[test]
fn empty_shape_cannot_be_matched() {
    let dt = diagonal_distances();
    assert_eq!(match_window(&dt, (4, 4), &Vec::new(), 2, Engine::SingleCore), None);
}

#[test]
fn shape_larger_than_the_window_cannot_be_matched() {
    let dt = diagonal_distances();
    let tall = vec![vec![true]; 5];
    let wide = vec![vec![true; 5]];
    assert_eq!(match_window(&dt, (4, 4), &tall, 2, Engine::SingleCore), None);
    assert_eq!(match_window(&dt, (4, 4), &wide, 2, Engine::SingleCore), None);
}

#[test]
fn shape_as_large_as_the_window_matches_nowhere() {
    let dt = diagonal_distances();
    let full = vec![vec![true; 4]; 4];
    assert_eq!(match_window(&dt, (4, 4), &full, 2, Engine::SingleCore), Some(vec![M; 16]));
}

#[test]
fn row_longer_than_the_first_cannot_be_matched() {
    let dt = diagonal_distances();
    let ragged = vec![vec![true], vec![true, true]];
    assert_eq!(match_window(&dt, (4, 4), &ragged, 2, Engine::SingleCore), None);
    let shorter = vec![vec![true, true], vec![true]];
    assert!(match_window(&dt, (4, 4), &shorter, 2, Engine::SingleCore).is_some());
}

#[test]
fn window_of_another_size_cannot_be_matched() {
    let dt = diagonal_distances();
    let shape = vec![vec![true]];
    assert_eq!(match_window(&dt, (4, 5), &shape, 2, Engine::SingleCore), None);
    assert_eq!(match_window(&dt[..15], (4, 4), &shape, 2, Engine::SingleCore), None);
    assert_eq!(match_window(&dt, (usize::MAX, 4), &shape, 2, Engine::SingleCore), None);
}

#[test]
fn sums_that_do_not_fit_cannot_be_matched() {
    let shape = vec![vec![true, true], vec![true, false]];
    let fits = vec![715_827_882; 9];
    assert!(match_window(&fits, (3, 3), &shape, 2, Engine::SingleCore).is_some());
    let too_large = vec![715_827_883; 9];
    assert_eq!(match_window(&too_large, (3, 3), &shape, 2, Engine::SingleCore), None);
    let negative = vec![0, 0, 0, 0, -1, 0, 0, 0, 0];
    assert_eq!(match_window(&negative, (3, 3), &shape, 2, Engine::SingleCore), None);
}

#[test]
fn shape_without_marked_cells_matches_everywhere() {
    let window = vec![M; 9];
    let shape = vec![vec![false]];
    let scores = match_window(&window, (3, 3), &shape, 0, Engine::SingleCore).unwrap();
    assert_eq!(scores, vec![0, 0, M, 0, 0, M, M, M, M]);
}

#[test]
fn huge_radius_cannot_be_matched() {
    let dt = diagonal_distances();
    let shape = vec![vec![true]];
    assert_eq!(match_window(&dt, (4, 4), &shape, usize::MAX, Engine::SingleCore), None);
    assert_eq!(match_window(&dt, (4, 4), &shape, 2147483643, Engine::SingleCore), None);
    assert!(match_window(&dt, (4, 4), &shape, 2147483642, Engine::SingleCore).is_some());
}

#[test]
fn device_engine_without_a_device_scores_nothing() {
    let dt = diagonal_distances();
    let shape = vec![vec![true]];
    let scores = match_window(&dt, (4, 4), &shape, 2, Engine::Device { step: 256 }).unwrap();
    assert_eq!(scores, vec![M; 16]);
}
