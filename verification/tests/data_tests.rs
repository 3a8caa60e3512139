use netcdf_core::data_access::{
    count_missing, get_fill_value, get_variable_data, get_variable_subset, subset_extents,
    validate_subset,
};
use netcdf_core::errors::NetCDFError;
use netcdf_core::reader::{AttrValue, RawAttr, RawDim, RawValues, RawVar, RawVariable, VarFetch, VarKind};
use netcdf_core::models::VariableData;

fn dim(name: &str, size: usize) -> RawDim {
    RawDim {
        name: name.to_string(),
        size,
        is_unlimited: false,
    }
}

fn numeric_var(
    kind: VarKind,
    dims: Vec<RawDim>,
    attrs: Vec<RawAttr>,
    read: Result<RawValues, String>,
    near_fill: Vec<bool>,
) -> RawVariable {
    RawVariable {
        meta: RawVar {
            name: "data".to_string(),
            kind,
            dims,
            attrs,
        },
        read,
        near_fill,
    }
}

fn fill_attr_f64(v: f64) -> RawAttr {
    RawAttr {
        name: "_FillValue".to_string(),
        value: Some(AttrValue::Double {
            bits: v.to_bits(),
            text: v.to_string(),
        }),
    }
}

/// The flag the boundary computes for one element: within 1e-10 of the fill.
fn near(v: f64, fill: f64) -> bool {
    (v - fill).abs() < 1e-10
}

#[test]
fn test_all_nan_missing_count_without_fill() {
    let vals = vec![f64::NAN.to_bits(); 5];
    assert_eq!(count_missing(&vals, None, &vec![]), 5);
}

#[test]
fn test_all_nan_missing_count_with_fill() {
    let fill = -9999.0f64;
    let vals: Vec<u64> = vec![f64::NAN.to_bits(); 5];
    let flags: Vec<bool> = vals
        .iter()
        .map(|b| near(f64::from_bits(*b), fill))
        .collect();
    assert_eq!(count_missing(&vals, Some(fill.to_bits()), &flags), 5);
}

#[test]
fn test_missing_count_zero_without_fill_or_nan() {
    let vals: Vec<u64> = vec![1.0f64.to_bits(), 2.0f64.to_bits(), (-3.5f64).to_bits()];
    assert_eq!(count_missing(&vals, None, &vec![]), 0);
}

#[test]
fn test_fill_value_tolerance() {
    let fill = 100.0f64;
    let values: Vec<f64> = vec![100.0 + 5e-11, 100.0 + 1e-9, 42.0];
    let bits: Vec<u64> = values.iter().map(|v| v.to_bits()).collect();
    let flags: Vec<bool> = values.iter().map(|v| near(*v, fill)).collect();
    assert_eq!(flags, vec![true, false, false]);
    assert_eq!(count_missing(&bits, Some(fill.to_bits()), &flags), 1);
}

#[test]
fn test_get_fill_value_coercions() {
    let attrs = vec![fill_attr_f64(-9999.25)];
    assert_eq!(get_fill_value(&attrs), Some((-9999.25f64).to_bits()));

    let attrs = vec![RawAttr {
        name: "_FillValue".to_string(),
        value: Some(AttrValue::Float {
            bits: (-999.5f32).to_bits(),
            text: "-999.5".to_string(),
        }),
    }];
    assert_eq!(get_fill_value(&attrs), Some((-999.5f32 as f64).to_bits()));

    let attrs = vec![RawAttr {
        name: "_FillValue".to_string(),
        value: Some(AttrValue::Short(-32767)),
    }];
    assert_eq!(get_fill_value(&attrs), Some((-32767.0f64).to_bits()));

    // An array-valued fill attribute is not usable.
    let attrs = vec![RawAttr {
        name: "_FillValue".to_string(),
        value: Some(AttrValue::Ints(vec![1])),
    }];
    assert_eq!(get_fill_value(&attrs), None);
    assert_eq!(get_fill_value(&vec![]), None);
}

#[test]
fn test_full_read_coerces_i32_exactly() {
    let var = numeric_var(
        VarKind::Int,
        vec![dim("x", 3)],
        vec![],
        Ok(RawValues::I32(vec![1, -2, 100000])),
        vec![],
    );
    let resp = get_variable_data("f.nc", "data", &VarFetch::Found(var)).unwrap();
    assert_eq!(resp.var_name, "data");
    assert_eq!(resp.shape, vec![3]);
    assert_eq!(resp.missing_count, 0);
    match resp.values {
        VariableData::Numeric(bits) => {
            let expect: Vec<u64> = vec![1.0f64, -2.0, 100000.0]
                .into_iter()
                .map(|v| v.to_bits())
                .collect();
            assert_eq!(bits, expect);
        }
        VariableData::Text(_) => panic!("expected numeric data"),
    }
}

#[test]
fn test_full_read_rounds_large_u64_like_a_cast() {
    let big: u64 = (1u64 << 53) + 1;
    let var = numeric_var(
        VarKind::Uint64,
        vec![dim("x", 1)],
        vec![],
        Ok(RawValues::U64(vec![big])),
        vec![],
    );
    let resp = get_variable_data("f.nc", "data", &VarFetch::Found(var)).unwrap();
    match resp.values {
        VariableData::Numeric(bits) => assert_eq!(bits, vec![(big as f64).to_bits()]),
        VariableData::Text(_) => panic!("expected numeric data"),
    }
}

#[test]
fn test_full_read_widens_f32() {
    let var = numeric_var(
        VarKind::Float,
        vec![dim("x", 2)],
        vec![],
        Ok(RawValues::F32(vec![1.5f32.to_bits(), f32::NAN.to_bits()])),
        vec![],
    );
    let resp = get_variable_data("f.nc", "data", &VarFetch::Found(var)).unwrap();
    assert_eq!(resp.missing_count, 1);
    match resp.values {
        VariableData::Numeric(bits) => {
            assert_eq!(bits[0], 1.5f64.to_bits());
            assert!(f64::from_bits(bits[1]).is_nan());
        }
        VariableData::Text(_) => panic!("expected numeric data"),
    }
}

#[test]
fn test_all_nan_read_counts_every_element() {
    let var = numeric_var(
        VarKind::Double,
        vec![dim("x", 4)],
        vec![fill_attr_f64(-9999.0)],
        Ok(RawValues::F64(vec![f64::NAN.to_bits(); 4])),
        vec![false; 4],
    );
    let resp = get_variable_data("f.nc", "data", &VarFetch::Found(var)).unwrap();
    assert_eq!(resp.missing_count, 4);
}

#[test]
fn test_errors_for_each_fetch_outcome() {
    let missing = get_variable_data("gone.nc", "v", &VarFetch::Missing);
    match missing {
        Err(NetCDFError::FileOpenError(m)) => assert_eq!(m, "File not found: gone.nc"),
        _ => panic!("expected FileOpenError"),
    }
    let rejected = get_variable_data("f.nc", "v", &VarFetch::Rejected("bad magic".to_string()));
    match rejected {
        Err(NetCDFError::FileOpenError(m)) => assert_eq!(m, "Failed to open f.nc: bad magic"),
        _ => panic!("expected FileOpenError"),
    }
    let nosuch = get_variable_data("f.nc", "v", &VarFetch::NoSuchVar);
    match nosuch {
        Err(NetCDFError::VariableNotFound(n)) => assert_eq!(n, "v"),
        _ => panic!("expected VariableNotFound"),
    }
}

#[test]
fn test_read_failure_becomes_variable_read_error() {
    let var = numeric_var(
        VarKind::Double,
        vec![dim("x", 2)],
        vec![],
        Err("disk error".to_string()),
        vec![],
    );
    match get_variable_data("f.nc", "data", &VarFetch::Found(var)) {
        Err(NetCDFError::VariableReadError(n, d)) => {
            assert_eq!(n, "data");
            assert_eq!(d, "disk error");
        }
        _ => panic!("expected VariableReadError"),
    }
}

#[test]
fn test_unsupported_kind_fails_conversion() {
    let var = numeric_var(
        VarKind::Other("Compound(point)".to_string()),
        vec![dim("x", 1)],
        vec![],
        Ok(RawValues::U8(vec![0])),
        vec![],
    );
    match get_variable_data("f.nc", "data", &VarFetch::Found(var)) {
        Err(NetCDFError::ConversionError(m)) => {
            assert_eq!(m, "Unsupported variable type: Compound(point)");
        }
        _ => panic!("expected ConversionError"),
    }
}

#[test]
fn test_string_kind_not_yet_implemented() {
    let var = numeric_var(
        VarKind::Str,
        vec![dim("x", 1)],
        vec![],
        Ok(RawValues::U8(vec![0])),
        vec![],
    );
    match get_variable_data("f.nc", "data", &VarFetch::Found(var)) {
        Err(NetCDFError::ConversionError(m)) => {
            assert_eq!(
                m,
                "String variable reading not yet implemented for type: String"
            );
        }
        _ => panic!("expected ConversionError"),
    }
}

#[test]
fn test_char_array_decodes_to_trimmed_strings() {
    let bytes: Vec<u8> = b"abc\0wxyz".to_vec();
    let var = numeric_var(
        VarKind::Char,
        vec![dim("n", 3), dim("len", 4)],
        vec![],
        Ok(RawValues::U8(bytes)),
        vec![],
    );
    let resp = get_variable_data("f.nc", "data", &VarFetch::Found(var)).unwrap();
    assert_eq!(resp.missing_count, 0);
    match resp.values {
        VariableData::Text(strings) => {
            assert_eq!(strings, vec!["abc".to_string(), "wxyz".to_string()]);
        }
        VariableData::Numeric(_) => panic!("expected text data"),
    }
}

#[test]
fn test_one_dimensional_char_is_one_string() {
    let var = numeric_var(
        VarKind::Char,
        vec![dim("len", 8)],
        vec![],
        Ok(RawValues::U8(b"hello\0\0\0".to_vec())),
        vec![],
    );
    let resp = get_variable_data("f.nc", "data", &VarFetch::Found(var)).unwrap();
    match resp.values {
        VariableData::Text(strings) => assert_eq!(strings, vec!["hello".to_string()]),
        VariableData::Numeric(_) => panic!("expected text data"),
    }
}

#[test]
fn test_subset_dimensionality_mismatch() {
    for wrong in [0usize, 1, 3, 5] {
        let var = numeric_var(
            VarKind::Double,
            vec![dim("x", 4), dim("y", 4)],
            vec![],
            Ok(RawValues::F64(vec![0; 4])),
            vec![],
        );
        let start = vec![0usize; wrong];
        let count = vec![2usize, 2];
        let r = get_variable_subset("f.nc", "data", &start, &count, &VarFetch::Found(var));
        if wrong == 2 {
            assert!(r.is_ok());
        } else {
            match r {
                Err(NetCDFError::InvalidSubsetRequest(m)) => {
                    let expect = format!(
                        "Variable has 2 dimensions, but got start={} and count=2",
                        wrong
                    );
                    assert_eq!(m, expect);
                }
                _ => panic!("expected InvalidSubsetRequest"),
            }
        }
    }
}

#[test]
fn test_validate_subset_only_checks_lengths() {
    assert!(validate_subset(2, &vec![100, 100], &vec![100, 100]).is_ok());
    assert!(validate_subset(2, &vec![0], &vec![0, 0]).is_err());
    assert!(validate_subset(0, &vec![], &vec![]).is_ok());
}

#[test]
fn test_subset_shape_is_the_requested_count() {
    // Even when the requested count exceeds what the reader returned, the
    // reported shape is the count, never the variable's full shape.
    let var = numeric_var(
        VarKind::Double,
        vec![dim("x", 10)],
        vec![],
        Ok(RawValues::F64(vec![1.0f64.to_bits(); 3])),
        vec![],
    );
    let resp =
        get_variable_subset("f.nc", "data", &vec![0], &vec![99], &VarFetch::Found(var)).unwrap();
    assert_eq!(resp.shape, vec![99]);
}

#[test]
fn test_error_messages_render() {
    assert_eq!(
        NetCDFError::DimensionNotFound("lev".to_string()).message(),
        "Dimension 'lev' not found in file"
    );
    assert_eq!(
        NetCDFError::InvalidFormat("truncated header".to_string()).message(),
        "Invalid file format: truncated header"
    );
    assert_eq!(
        NetCDFError::IoError("permission denied".to_string()).message(),
        "IO error: permission denied"
    );
    assert_eq!(
        NetCDFError::VariableReadError("t".to_string(), "eof".to_string()).message(),
        "Failed to read variable 't': eof"
    );
    assert_eq!(
        NetCDFError::NetCDFLibError("unclassified".to_string()).message(),
        "NetCDF library error: unclassified"
    );
}

#[test]
fn test_scalar_char_is_single_byte_string() {
    let var = numeric_var(
        VarKind::Char,
        vec![],
        vec![],
        Ok(RawValues::U8(b"x".to_vec())),
        vec![],
    );
    let resp = get_variable_data("f.nc", "data", &VarFetch::Found(var)).unwrap();
    assert_eq!(resp.shape, Vec::<usize>::new());
    match resp.values {
        VariableData::Text(strings) => assert_eq!(strings, vec!["x".to_string()]),
        VariableData::Numeric(_) => panic!("expected text data"),
    }
}

#[test]
fn test_char_subset_chunks_by_count() {
    // The subset read partitions by the requested count's last entry, not
    // by the variable's own shape.
    let var = numeric_var(
        VarKind::Char,
        vec![dim("n", 5), dim("len", 4)],
        vec![],
        Ok(RawValues::U8(b"ab\0\0cd\0\0".to_vec())),
        vec![],
    );
    let resp = get_variable_subset(
        "f.nc",
        "data",
        &vec![0, 0],
        &vec![2, 4],
        &VarFetch::Found(var),
    )
    .unwrap();
    assert_eq!(resp.shape, vec![2, 4]);
    match resp.values {
        VariableData::Text(strings) => {
            assert_eq!(strings, vec!["ab".to_string(), "cd".to_string()]);
        }
        VariableData::Numeric(_) => panic!("expected text data"),
    }
}

#[test]
fn test_numeric_subset_counts_missing() {
    let fill = -9999.0f64;
    let values: Vec<f64> = vec![-9999.0, 1.0];
    let bits: Vec<u64> = values.iter().map(|v| v.to_bits()).collect();
    let flags: Vec<bool> = values.iter().map(|v| near(*v, fill)).collect();
    let var = numeric_var(
        VarKind::Double,
        vec![dim("x", 10)],
        vec![fill_attr_f64(fill)],
        Ok(RawValues::F64(bits)),
        flags,
    );
    let resp = get_variable_subset(
        "f.nc",
        "data",
        &vec![0],
        &vec![2],
        &VarFetch::Found(var),
    )
    .unwrap();
    assert_eq!(resp.missing_count, 1);
    assert_eq!(resp.shape, vec![2]);
}

#[test]
fn test_subset_extents_are_half_open() {
    assert_eq!(
        subset_extents(&vec![1, 2], &vec![3, 4]),
        vec![(1usize, 4usize), (2usize, 6usize)]
    );
    assert_eq!(subset_extents(&vec![], &vec![]), Vec::<(usize, usize)>::new());
}
