use road_match::location::first_path;
use road_match::location::map_filename_match;
use road_match::location::map_list;
use road_match::location::Location;
use road_match::location::MapFile;

fn file(name: &str) -> MapFile {
    MapFile { name: String::from(name), path: format!("maps/{}", name) }
}

fn maps() -> Vec<MapFile> {
    vec![
        file("readme.txt"),
        file("houston.bounds.json"),
        file("houston.geojson.bz2"),
        file("austin.geojson"),
        file("houston.geojson"),
        file("austin.cm.png"),
    ]
}

#[test]
fn location_is_the_first_road_file_with_the_name() {
    let found = Location::new("houston", &maps()).unwrap();
    assert_eq!(found.name, "houston");
    assert_eq!(found.filepath, "maps/houston.geojson.bz2");
    let found = Location::new("austin", &maps()).unwrap();
    assert_eq!(found.filepath, "maps/austin.geojson");
}

#[test]
fn no_file_no_location() {
    assert!(Location::new("dallas", &maps()).is_none());
    assert!(Location::new("houston", &Vec::new()).is_none());
}

#[test]
fn file_with_the_name_and_another_ending_is_no_road_file() {
    assert!(Location::new("readme", &maps()).is_none());
    assert!(Location::new("austin.cm", &maps()).is_none());
    assert!(Location::new("bounds", &maps()).is_none());
}

#[test]
fn part_of_a_name_finds_the_location() {
    let found = Location::new("ust", &maps()).unwrap();
    assert_eq!(found.name, "ust");
    assert_eq!(found.filepath, "maps/houston.geojson.bz2");
    let found = Location::new("", &maps()).unwrap();
    assert_eq!(found.filepath, "maps/houston.geojson.bz2");
}

#[test]
fn locations_are_equal_by_path() {
    let a = Location { name: String::from("a"), filepath: String::from("maps/x.geojson") };
    let b = Location { name: String::from("b"), filepath: String::from("maps/x.geojson") };
    let c = Location { name: String::from("a"), filepath: String::from("maps/y.geojson") };
    assert!(a == b);
    assert!(a != c);
}

#[test]
fn predefined_bounds_are_found_by_name() {
    let houston = Location::new("houston", &maps()).unwrap();
    assert_eq!(houston.predefined_bounds(&maps()), Some(String::from("maps/houston.bounds.json")));
    let austin = Location::new("austin", &maps()).unwrap();
    assert_eq!(austin.predefined_bounds(&maps()), None);
}

#[test]
fn parent_is_the_directory_of_the_road_file() {
    let at = |path: &str| Location { name: String::from("x"), filepath: String::from(path) };
    assert_eq!(at("maps/x.geojson").parent(), "maps");
    assert_eq!(at("/srv/maps/x.geojson").parent(), "/srv/maps");
    assert_eq!(at("x.geojson").parent(), "");
    assert_eq!(at("/").parent(), ".");
    assert_eq!(at("").parent(), ".");
}

#[test]
fn compressed_files_end_in_bz2() {
    let houston = Location::new("houston", &maps()).unwrap();
    assert!(houston.is_compressed());
    let austin = Location::new("austin", &maps()).unwrap();
    assert!(!austin.is_compressed());
}

#[test]
fn map_list_names_the_road_files() {
    assert_eq!(map_list(&maps()), "houston.geojson.bz2\naustin.geojson\nhouston.geojson");
    assert_eq!(map_list(&vec![file("a.geojson")]), "a.geojson");
    assert_eq!(map_list(&vec![file("a.json"), file("b.png")]), "");
    assert_eq!(map_list(&Vec::new()), "");
}

#[test]
fn matching_files_come_in_their_order() {
    let found = map_filename_match(&maps(), |name: &str| name.starts_with("austin"));
    assert_eq!(found, vec![String::from("maps/austin.geojson"), String::from("maps/austin.cm.png")]);
    let none = map_filename_match(&maps(), |_: &str| false);
    assert!(none.is_empty());
}

#[test]
fn first_path_is_the_first_match() {
    assert_eq!(
        first_path(&maps(), |name: &str| name.len() > 14),
        Some(String::from("maps/houston.bounds.json"))
    );
    assert_eq!(first_path(&maps(), |name: &str| name.is_empty()), None);
}
