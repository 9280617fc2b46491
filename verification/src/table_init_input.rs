//! What a query engine hands to the initialisation of a table scan.

use vstd::prelude::*;

use crate::table_filter::TableFilter;

verus! {

/// Why a thread count is not usable.
#[derive(Clone, Copy, Debug, PartialEq, Eq, Structural)]
pub enum ThreadCountError {
    /// The count does not fit the machine's word.
    TooLarge,
    /// There are no threads.
    Zero,
}

/// The input to the initialisation of a table scan.
pub struct TableInitInput {
    /// The columns to scan.
    pub column_ids: Vec<u64>,
    /// The filters, each with the place of its column, if any were pushed down.
    pub filters: Option<Vec<(u64, TableFilter)>>,
    /// The number of threads that execute the scan, as the engine reports it.
    pub execution_threads: u64,
}

impl TableInitInput {
    /// The columns to scan.
    pub fn column_ids(&self) -> (ids: &[u64])
        ensures
            ids@ == self.column_ids@,
    {
        self.column_ids.as_slice()
    }

    /// The number of threads that execute the scan.
    pub fn execution_threads(&self) -> (threads: Result<usize, ThreadCountError>)
        ensures
            threads == (if self.execution_threads > usize::MAX {
                Err::<usize, ThreadCountError>(ThreadCountError::TooLarge)
            } else if self.execution_threads == 0 {
                Err(ThreadCountError::Zero)
            } else {
                Ok(self.execution_threads as usize)
            }),
    {
        let count: u64 = self.execution_threads;
        if count > usize::MAX as u64 {
            Err(ThreadCountError::TooLarge)
        } else if count == 0 {
            Err(ThreadCountError::Zero)
        } else {
            Ok(count as usize)
        }
    }

    /// The filters of the scan, if any were pushed down.
    pub fn table_filter_set(&self) -> (filters: Option<&Vec<(u64, TableFilter)>>)
        ensures
            match filters {
                Some(filters) => self.filters == Some(*filters),
                None => self.filters is None,
            },
    {
        match &self.filters {
            Some(filters) => Some(filters),
            None => None,
        }
    }
}

} // verus!
