use netcdf_core::errors::NetCDFError;
use netcdf_core::loader::{attribute_to_string, open_netcdf, open_netcdf_file};
use netcdf_core::reader::{AttrValue, OpenOutcome, RawAttr, RawDim, RawFile, RawVar, VarKind};
use netcdf_core::strutil::{dec_string_i64, dec_string_u64};

fn attr(name: &str, value: AttrValue) -> RawAttr {
    RawAttr {
        name: name.to_string(),
        value: Some(value),
    }
}

#[test]
fn test_open_nonexistent_file() {
    let result = open_netcdf("/nonexistent/file.nc", OpenOutcome::Missing);
    assert!(result.is_err());
}

#[test]
fn test_missing_path_error_names_the_path() {
    let result = open_netcdf("/nonexistent/file.nc", OpenOutcome::Missing);
    match result {
        Err(NetCDFError::FileOpenError(m)) => {
            assert_eq!(m, "File not found: /nonexistent/file.nc");
            assert!(m.contains("/nonexistent/file.nc"));
        }
        _ => panic!("expected FileOpenError"),
    }
}

#[test]
fn test_rejected_file_error_carries_reader_message() {
    let result = open_netcdf("bad.nc", OpenOutcome::Rejected("not a data file".to_string()));
    match result {
        Err(e) => assert_eq!(
            e.message(),
            "Failed to open NetCDF file: Failed to open bad.nc: not a data file"
        ),
        Ok(_) => panic!("expected an error"),
    }
}

fn sample_file() -> RawFile {
    let time_dim = RawDim {
        name: "time".to_string(),
        size: 4,
        is_unlimited: true,
    };
    let level_dim = RawDim {
        name: "level".to_string(),
        size: 3,
        is_unlimited: false,
    };
    RawFile {
        dimensions: vec![time_dim.clone(), level_dim.clone()],
        variables: vec![RawVar {
            name: "temp".to_string(),
            kind: VarKind::Double,
            dims: vec![time_dim, level_dim],
            attrs: vec![
                attr("comment", AttrValue::Str("demo".to_string())),
                attr("units", AttrValue::Str("K".to_string())),
            ],
        }],
        global_attrs: vec![attr("title", AttrValue::Str("sample".to_string()))],
    }
}

#[test]
fn test_open_extracts_dimensions_and_variables() {
    let meta = open_netcdf("sample.nc", OpenOutcome::Opened(sample_file())).unwrap();
    assert_eq!(meta.file_path, "sample.nc");
    assert_eq!(meta.dimensions.len(), 2);
    assert_eq!(meta.dimensions[0].name, "time");
    assert_eq!(meta.dimensions[0].size, 4);
    assert!(meta.dimensions[0].is_unlimited);
    assert_eq!(meta.variables.len(), 1);
    let var = &meta.variables[0];
    assert_eq!(var.name, "temp");
    assert_eq!(var.data_type, "Basic(Double)");
    assert_eq!(var.dimensions, vec!["time".to_string(), "level".to_string()]);
    assert_eq!(var.shape, vec![4, 3]);
    assert!(meta.coordinates.is_none());
}

#[test]
fn test_shape_has_one_entry_per_dimension() {
    let meta = open_netcdf("sample.nc", OpenOutcome::Opened(sample_file())).unwrap();
    for var in &meta.variables {
        assert_eq!(var.shape.len(), var.dimensions.len());
    }
}

#[test]
fn test_variable_attributes_collected_once() {
    let meta = open_netcdf("sample.nc", OpenOutcome::Opened(sample_file())).unwrap();
    let var = &meta.variables[0];
    assert_eq!(var.attributes.len(), 2);
    assert_eq!(var.attributes.get("units"), Some(&"K".to_string()));
    assert_eq!(var.attributes.get("comment"), Some(&"demo".to_string()));
    assert_eq!(var.attributes.get("long_name"), None);
    assert_eq!(meta.global_attrs.get("title"), Some(&"sample".to_string()));
}

#[test]
fn test_undecodable_attribute_is_omitted() {
    let mut file = sample_file();
    file.variables[0].attrs.push(RawAttr {
        name: "broken".to_string(),
        value: None,
    });
    let meta = open_netcdf("sample.nc", OpenOutcome::Opened(file)).unwrap();
    assert_eq!(meta.variables[0].attributes.get("broken"), None);
    assert_eq!(meta.variables[0].attributes.len(), 2);
}

#[test]
fn test_attribute_to_string_scalars() {
    assert_eq!(
        attribute_to_string(&attr("a", AttrValue::Str("verbatim text".to_string()))),
        Some("verbatim text".to_string())
    );
    assert_eq!(
        attribute_to_string(&attr("a", AttrValue::Int(-42))),
        Some("-42".to_string())
    );
    assert_eq!(
        attribute_to_string(&attr("a", AttrValue::Uchar(255))),
        Some("255".to_string())
    );
    assert_eq!(
        attribute_to_string(&attr("a", AttrValue::Ulonglong(u64::MAX))),
        Some("18446744073709551615".to_string())
    );
    assert_eq!(
        attribute_to_string(&RawAttr {
            name: "a".to_string(),
            value: None,
        }),
        None
    );
}

#[test]
fn test_attribute_to_string_arrays() {
    assert_eq!(
        attribute_to_string(&attr("a", AttrValue::Ints(vec![1, -2, 3]))),
        Some("[1, -2, 3]".to_string())
    );
    assert_eq!(
        attribute_to_string(&attr("a", AttrValue::Shorts(vec![]))),
        Some("[]".to_string())
    );
    assert_eq!(
        attribute_to_string(&attr(
            "a",
            AttrValue::Doubles {
                texts: vec!["1.5".to_string(), "-0.25".to_string()],
            },
        )),
        Some("[1.5, -0.25]".to_string())
    );
    // The Debug rendering of a string list quotes its elements.
    assert_eq!(
        attribute_to_string(&attr(
            "a",
            AttrValue::Strs(vec!["x".to_string(), "y".to_string()]),
        )),
        Some("[\"x\", \"y\"]".to_string())
    );
}

#[test]
fn test_float_attribute_uses_boundary_rendering() {
    assert_eq!(
        attribute_to_string(&attr(
            "a",
            AttrValue::Double {
                bits: 1.5f64.to_bits(),
                text: "1.5".to_string(),
            },
        )),
        Some("1.5".to_string())
    );
}

#[test]
fn test_decimal_rendering_edges() {
    assert_eq!(dec_string_u64(0), "0");
    assert_eq!(dec_string_u64(1000), "1000");
    assert_eq!(dec_string_i64(i64::MIN), "-9223372036854775808");
    assert_eq!(dec_string_i64(-1), "-1");
}

#[test]
fn test_attr_map_insert_replaces() {
    let mut m = netcdf_core::models::AttrMap::new();
    m.insert("k".to_string(), "one".to_string());
    m.insert("k".to_string(), "two".to_string());
    m.insert("other".to_string(), "x".to_string());
    assert_eq!(m.len(), 2);
    assert_eq!(m.get("k"), Some(&"two".to_string()));
    assert!(m.contains_key("other"));
    assert!(!m.contains_key("missing"));
}

#[test]
fn test_priority_attribute_probed_first() {
    let mut file = sample_file();
    file.variables[0].attrs.push(attr("_FillValue", AttrValue::Double {
        bits: (-9999.0f64).to_bits(),
        text: "-9999".to_string(),
    }));
    let meta = open_netcdf("sample.nc", OpenOutcome::Opened(file)).unwrap();
    assert_eq!(
        meta.variables[0].attributes.get("_FillValue"),
        Some(&"-9999".to_string())
    );
}

#[test]
fn test_open_file_populates_coordinates() {
    let mut file = sample_file();
    file.variables.push(RawVar {
        name: "lat".to_string(),
        kind: VarKind::Double,
        dims: vec![],
        attrs: vec![],
    });
    let meta = open_netcdf_file("sample.nc", OpenOutcome::Opened(file)).unwrap();
    let coords = meta.coordinates.expect("coordinates populated");
    assert_eq!(coords.lat_var, Some("lat".to_string()));
    assert_eq!(coords.time_var, None);
    assert_eq!(meta.variables.len(), 2);
}
