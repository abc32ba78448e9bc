//! Errors of loading and querying MIME data.
use vstd::prelude::*;

verus! {

/// Declares std's I/O error, which query errors carry.
#[verifier::external_type_specification]
#[verifier::external_body]
pub struct ExIoError(std::io::Error);

/// Declares quick-xml's deserialization error, which package parse errors carry.
#[verifier::external_type_specification]
#[verifier::external_body]
pub struct ExDeError(quick_xml::DeError);

/// Errors of reading the shared MIME info from its directories.
#[derive(Debug)]
pub enum XDGError {
    /// A failure to read a directory or file.
    IO(std::io::Error),
    /// A package file that is not a valid package.
    Deserialize(quick_xml::DeError),
    /// Files not laid out as expected.
    Layout(String),
}

/// Errors that can occur when loading the MIME data.
#[derive(Debug)]
pub enum LoadError {
    /// Reading the shared MIME info failed.
    XDG(XDGError),
    /// No MIME database can be had.
    Unavailable,
    /// Some other failure, described.
    Generic(String),
}

/// Errors that can occur when querying the MIME data.
#[derive(Debug)]
pub enum QueryError {
    /// Some failure, described.
    Generic(String),
    /// A failure to read a file's facts.
    IO(std::io::Error),
}

/// Create a load error with the specified message.
pub fn load_error(msg: &str) -> (e: LoadError)
    ensures
        e matches LoadError::Generic(m) && m@ == msg@,
{
    LoadError::Generic(msg.to_owned())
}

/// Create a query error with the specified message.
pub fn query_error(msg: &str) -> (e: QueryError)
    ensures
        e matches QueryError::Generic(m) && m@ == msg@,
{
    QueryError::Generic(msg.to_owned())
}

} // verus!
