use vstd::prelude::*;

verus! {

/// The settings of one run.
#[derive(Debug)]
pub struct Opts {
    /// The file of JSON records, one per line.
    pub in_file: String,
    /// The folder that receives one CSV file per table.
    pub out_folder: String,
    /// The name of the table that the top-level records go to.
    pub root_table_name: String,
    /// What follows a table's name in the name of its key column.
    pub column_id_postfix: String,
    /// Where set, a column of this name is added to the table in `in_file`
    /// instead of reading records.
    pub add_column_name: Option<String>,
    /// How many records are read between two writes to disk; where unset,
    /// all of them are kept in memory and written at the end.
    pub json_buf_size: Option<usize>,
    /// Whether SQL statements are written beside the CSV files.
    pub as_mysql: bool,
    /// Whether records are only scanned for their fields, with no rows written.
    pub scan_only: bool,
}

impl Opts {
    /// A copy of these settings.
    pub fn duplicate(&self) -> (r: Opts)
        ensures
            r == *self,
    {
        Opts {
            in_file: self.in_file.clone(),
            out_folder: self.out_folder.clone(),
            root_table_name: self.root_table_name.clone(),
            column_id_postfix: self.column_id_postfix.clone(),
            add_column_name: match &self.add_column_name {
                Some(s) => Some(s.clone()),
                None => None,
            },
            json_buf_size: self.json_buf_size,
            as_mysql: self.as_mysql,
            scan_only: self.scan_only,
        }
    }
}

} // verus!
