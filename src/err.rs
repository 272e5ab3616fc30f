use vstd::prelude::*;

verus! {

/// The failures that a table or a schema can report.
#[derive(Debug, Clone, PartialEq, Eq)]
pub enum CsvError {
    /// A table that appends to an existing file got a row with a column
    /// that the file's header lacks (or a data line has more cells than its header).
    MissingColumn(String),
    CouldNotOpen(String),
    CouldNotCreate(String),
    CouldNotWrite(String),
    CouldNotFindFile(String),
    /// SQL rendering met a value with no SQL column type in this column.
    UnsupportedType(String),
}

impl CsvError {
    /// The message that describes this error.
    pub fn message(&self) -> (r: String)
        ensures
            r@ == match self {
                CsvError::MissingColumn(s) => "Missing a column with name of: "@ + s@,
                CsvError::CouldNotOpen(s) => "Could not open file for "@ + s@,
                CsvError::CouldNotCreate(s) => "Could not create file for "@ + s@,
                CsvError::CouldNotWrite(s) => "Could not write file for "@ + s@,
                CsvError::CouldNotFindFile(s) => "Could not find file for "@ + s@,
                CsvError::UnsupportedType(s) => "No SQL type for the values of column "@ + s@,
            },
    {
        let (head, detail) = match self {
            CsvError::MissingColumn(s) => ("Missing a column with name of: ", s),
            CsvError::CouldNotOpen(s) => ("Could not open file for ", s),
            CsvError::CouldNotCreate(s) => ("Could not create file for ", s),
            CsvError::CouldNotWrite(s) => ("Could not write file for ", s),
            CsvError::CouldNotFindFile(s) => ("Could not find file for ", s),
            CsvError::UnsupportedType(s) => ("No SQL type for the values of column ", s),
        };
        let mut r = String::from_str(head);
        r.append(detail.as_str());
        r
    }
}

} // verus!
