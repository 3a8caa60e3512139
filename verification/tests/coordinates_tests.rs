use netcdf_core::coordinates::{
    detect_coordinates, detect_latitude_coordinate, detect_longitude_coordinate,
    detect_time_coordinate, detect_time_units,
};
use netcdf_core::models::{AttrMap, FileMetadata, Variable};

fn make_var(name: &str, attrs: AttrMap) -> Variable {
    Variable {
        name: name.to_string(),
        data_type: "f64".to_string(),
        dimensions: vec![name.to_string()],
        shape: vec![100],
        attributes: attrs,
    }
}

fn make_metadata(variables: Vec<Variable>) -> FileMetadata {
    FileMetadata {
        file_path: "test.nc".to_string(),
        dimensions: vec![],
        variables,
        global_attrs: AttrMap::new(),
        coordinates: None,
    }
}

#[test]
fn test_detect_time_coordinate() {
    let mut attrs = AttrMap::new();
    attrs.insert("units".to_string(), "seconds since 1970-01-01".to_string());

    let metadata = FileMetadata {
        file_path: "test.nc".to_string(),
        dimensions: vec![],
        variables: vec![Variable {
            name: "time".to_string(),
            data_type: "f64".to_string(),
            dimensions: vec!["time".to_string()],
            shape: vec![100],
            attributes: attrs,
        }],
        global_attrs: AttrMap::new(),
        coordinates: None,
    };

    assert_eq!(detect_time_coordinate(&metadata), Some("time".to_string()));
}

#[test]
fn test_time_units_verbatim() {
    let mut attrs = AttrMap::new();
    attrs.insert("units".to_string(), "seconds since 1970-01-01".to_string());
    let metadata = make_metadata(vec![make_var("time", attrs)]);
    let info = detect_coordinates(&metadata);
    assert_eq!(info.time_var, Some("time".to_string()));
    assert_eq!(info.time_units, Some("seconds since 1970-01-01".to_string()));
}

#[test]
fn test_time_by_units_keyword_only() {
    let mut attrs = AttrMap::new();
    attrs.insert("units".to_string(), "Days Since 2000-01-01".to_string());
    let metadata = make_metadata(vec![make_var("record", attrs)]);
    assert_eq!(detect_time_coordinate(&metadata), Some("record".to_string()));
}

#[test]
fn test_lat_by_name_alone() {
    let metadata = make_metadata(vec![make_var("lat", AttrMap::new())]);
    assert_eq!(detect_latitude_coordinate(&metadata), Some("lat".to_string()));
}

#[test]
fn test_lat_by_uppercase_name() {
    let metadata = make_metadata(vec![make_var("LATITUDE", AttrMap::new())]);
    assert_eq!(
        detect_latitude_coordinate(&metadata),
        Some("LATITUDE".to_string())
    );
}

#[test]
fn test_lat_by_units() {
    let mut attrs = AttrMap::new();
    attrs.insert("units".to_string(), "degrees_north".to_string());
    let metadata = make_metadata(vec![make_var("yc", attrs)]);
    assert_eq!(detect_latitude_coordinate(&metadata), Some("yc".to_string()));
}

#[test]
fn test_lat_standard_name_exact_match_only() {
    let mut attrs = AttrMap::new();
    attrs.insert("standard_name".to_string(), "latitude_longitude".to_string());
    let metadata = make_metadata(vec![make_var("grid", attrs)]);
    assert_eq!(detect_latitude_coordinate(&metadata), None);
}

#[test]
fn test_lon_by_name_and_units() {
    let metadata = make_metadata(vec![make_var("nav_lon", AttrMap::new())]);
    assert_eq!(
        detect_longitude_coordinate(&metadata),
        Some("nav_lon".to_string())
    );
    let mut attrs = AttrMap::new();
    attrs.insert("units".to_string(), "degrees_east".to_string());
    let other = make_metadata(vec![make_var("xc", attrs)]);
    assert_eq!(detect_longitude_coordinate(&other), Some("xc".to_string()));
}

#[test]
fn test_first_matching_variable_wins() {
    let metadata = make_metadata(vec![
        make_var("lat", AttrMap::new()),
        make_var("latitude", AttrMap::new()),
    ]);
    assert_eq!(detect_latitude_coordinate(&metadata), Some("lat".to_string()));
}

#[test]
fn test_detection_is_idempotent() {
    let mut attrs = AttrMap::new();
    attrs.insert("units".to_string(), "hours since 1900-01-01".to_string());
    let mut metadata = make_metadata(vec![
        make_var("t", attrs),
        make_var("lat", AttrMap::new()),
        make_var("lon", AttrMap::new()),
    ]);
    let first = detect_coordinates(&metadata);
    metadata.coordinates = Some(detect_coordinates(&metadata));
    let second = detect_coordinates(&metadata);
    assert_eq!(first.time_var, second.time_var);
    assert_eq!(first.lat_var, second.lat_var);
    assert_eq!(first.lon_var, second.lon_var);
    assert_eq!(first.time_units, second.time_units);
}

#[test]
fn test_no_coordinates_detected() {
    let metadata = make_metadata(vec![make_var("salinity", AttrMap::new())]);
    let info = detect_coordinates(&metadata);
    assert_eq!(info.time_var, None);
    assert_eq!(info.lat_var, None);
    assert_eq!(info.lon_var, None);
    assert_eq!(info.time_units, None);
    assert_eq!(detect_time_units(&metadata), None);
}
