//! The error taxonomy. Every failure is terminal for its request and is
//! reported to the caller as one rendered message string.

use vstd::prelude::*;

verus! {

/// Everything that can go wrong while serving one request.
#[derive(Debug)]
pub enum NetCDFError {
    /// The path does not exist or the reader rejected the file.
    FileOpenError(String),
    /// The reader failed mid-read: variable name, then detail.
    VariableReadError(String, String),
    /// No variable of that name exists in the file.
    VariableNotFound(String),
    /// No dimension of that name exists in the file.
    DimensionNotFound(String),
    /// The file is malformed.
    InvalidFormat(String),
    /// A generic I/O failure, rendered to text at the boundary.
    IoError(String),
    /// Any otherwise-unclassified reader failure.
    NetCDFLibError(String),
    /// Unsupported element kind, or text decoding that is not implemented.
    ConversionError(String),
    /// A subset request whose dimensionality does not match the variable.
    InvalidSubsetRequest(String),
}

/// Concatenation of two string slices.
pub fn concat_strs(a: &str, b: &str) -> (r: String)
    ensures
        r@ == a@ + b@,
{
    let mut r = a.to_owned();
    r.append(b);
    r
}

/// Concatenation of three string slices.
pub fn concat3(a: &str, b: &str, c: &str) -> (r: String)
    ensures
        r@ == a@ + b@ + c@,
{
    let mut r = a.to_owned();
    r.append(b);
    r.append(c);
    r
}

impl NetCDFError {
    /// The rendered message of this error, as a specification.
    pub open spec fn spec_message(&self) -> Seq<char> {
        match self {
            NetCDFError::FileOpenError(m) => "Failed to open NetCDF file: "@ + m@,
            NetCDFError::VariableReadError(v, d) => "Failed to read variable '"@ + v@ + "': "@
                + d@,
            NetCDFError::VariableNotFound(v) => "Variable '"@ + v@ + "' not found in file"@,
            NetCDFError::DimensionNotFound(d) => "Dimension '"@ + d@ + "' not found in file"@,
            NetCDFError::InvalidFormat(m) => "Invalid file format: "@ + m@,
            NetCDFError::IoError(m) => "IO error: "@ + m@,
            NetCDFError::NetCDFLibError(m) => "NetCDF library error: "@ + m@,
            NetCDFError::ConversionError(m) => "Data conversion error: "@ + m@,
            NetCDFError::InvalidSubsetRequest(m) => "Invalid subset request: "@ + m@,
        }
    }

    /// Renders the message a caller sees for this error.
    pub fn message(&self) -> (r: String)
        ensures
            r@ == self.spec_message(),
    {
        match self {
            NetCDFError::FileOpenError(m) => concat_strs(
                "Failed to open NetCDF file: ",
                m.as_str(),
            ),
            NetCDFError::VariableReadError(v, d) => {
                let r = concat3("Failed to read variable '", v.as_str(), "': ");
                concat_strs(r.as_str(), d.as_str())
            },
            NetCDFError::VariableNotFound(v) => concat3(
                "Variable '",
                v.as_str(),
                "' not found in file",
            ),
            NetCDFError::DimensionNotFound(d) => concat3(
                "Dimension '",
                d.as_str(),
                "' not found in file",
            ),
            NetCDFError::InvalidFormat(m) => concat_strs("Invalid file format: ", m.as_str()),
            NetCDFError::IoError(m) => concat_strs("IO error: ", m.as_str()),
            NetCDFError::NetCDFLibError(m) => concat_strs(
                "NetCDF library error: ",
                m.as_str(),
            ),
            NetCDFError::ConversionError(m) => concat_strs(
                "Data conversion error: ",
                m.as_str(),
            ),
            NetCDFError::InvalidSubsetRequest(m) => concat_strs(
                "Invalid subset request: ",
                m.as_str(),
            ),
        }
    }
}

} // verus!
