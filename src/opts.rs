//! Where the runner finds the schema and the query that the analysis reads.
use vstd::prelude::*;

verus! {

/// Why a source could not be had.
#[derive(Debug)]
pub enum OptsError {
    /// No schema file was named.
    SchemaPathMissing,
    /// No query file was named.
    QueryPathMissing,
    /// The named file could not be read; the reader's message.
    Unreadable(String),
}

/// The runner's options that locate the analysis inputs.
pub struct Opts {
    pub schema_path: Option<String>,
    pub query_path: Option<String>,
}

/// The outcome of a read as the options report it.
pub open spec fn lift_read(out: Result<String, String>) -> Result<String, OptsError> {
    match out {
        Ok(text) => Ok(text),
        Err(message) => Err(OptsError::Unreadable(message)),
    }
}

impl Opts {
    /// The schema's source text, read by `read_file` from the schema path;
    /// an error when no path is set.
    pub fn read_schema_to_string<F: Fn(String) -> Result<String, String>>(&self, read_file: F) -> (r:
        Result<String, OptsError>)
        requires
            forall|p: String| read_file.requires((p,)),
        ensures
            self.schema_path is None ==> r is Err && r->Err_0 is SchemaPathMissing,
            self.schema_path is Some ==> exists|out: Result<String, String>|
                read_file.ensures((self.schema_path->Some_0,), out) && r == lift_read(out),
    {
        match &self.schema_path {
            None => Err(OptsError::SchemaPathMissing),
            Some(p) => {
                let out = read_file(p.clone());
                let ghost seen = out;
                let r = match out {
                    Ok(text) => Ok(text),
                    Err(message) => Err(OptsError::Unreadable(message)),
                };
                assert(read_file.ensures((self.schema_path->Some_0,), seen) && r == lift_read(seen));
                r
            },
        }
    }

    /// The query's source text, read by `read_file` from the query path;
    /// an error when no path is set.
    pub fn read_query_to_string<F: Fn(String) -> Result<String, String>>(&self, read_file: F) -> (r:
        Result<String, OptsError>)
        requires
            forall|p: String| read_file.requires((p,)),
        ensures
            self.query_path is None ==> r is Err && r->Err_0 is QueryPathMissing,
            self.query_path is Some ==> exists|out: Result<String, String>|
                read_file.ensures((self.query_path->Some_0,), out) && r == lift_read(out),
    {
        match &self.query_path {
            None => Err(OptsError::QueryPathMissing),
            Some(p) => {
                let out = read_file(p.clone());
                let ghost seen = out;
                let r = match out {
                    Ok(text) => Ok(text),
                    Err(message) => Err(OptsError::Unreadable(message)),
                };
                assert(read_file.ensures((self.query_path->Some_0,), seen) && r == lift_read(seen));
                r
            },
        }
    }
}

} // verus!
