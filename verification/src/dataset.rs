//! A dataset: a single file, or many files scanned as one.

use vstd::prelude::*;

use crate::expr::ExprTree;
use crate::expr::Expression;
use crate::expr::FnModel;
use crate::expr::ScalarFn;
use crate::files::MultiScanOptions;
use crate::table_filter::is_strictly_sorted;
use crate::table_filter::strictly_sorted;
use crate::table_filter::RowRange;

verus! {

/// Why a dataset cannot be read as asked.
#[derive(Clone, Copy, Debug, PartialEq, Eq, Structural)]
pub enum DatasetError {
    /// A partition of a single file was asked for.
    PartitionOfFile,
    /// Rows of many files were asked for by number.
    IndicesOfMany,
    /// A range of rows of many files was asked for.
    RowRangeOfMany,
    /// The row ranges of many files were asked for.
    SplitsOfMany,
    /// There are more rows than fit the machine's word.
    TooManyRows,
    /// The row numbers are not strictly increasing.
    UnsortedIndices,
    /// A column is named by something else than a text.
    ColumnNotText,
}

impl DatasetError {
    /// What went wrong.
    pub open spec fn message_spec(self) -> Seq<char> {
        match self {
            DatasetError::PartitionOfFile =>
                "partition is only supported for multi-file datasets"@,
            DatasetError::IndicesOfMany => "indices are not supported for multi-file datasets"@,
            DatasetError::RowRangeOfMany =>
                "row_range is not supported for multi-file datasets; scan a partition instead"@,
            DatasetError::SplitsOfMany =>
                "multi-file datasets split by partition, not by row range; see partition_count"@,
            DatasetError::TooManyRows => "out of range integral type conversion attempted"@,
            DatasetError::UnsortedIndices => "row indices must be strictly increasing"@,
            DatasetError::ColumnNotText => "projection: expected list of strings or None"@,
        }
    }

    /// What went wrong.
    pub fn message(self) -> (message: &'static str)
        ensures
            message@ == self.message_spec(),
    {
        match self {
            DatasetError::PartitionOfFile => "partition is only supported for multi-file datasets",
            DatasetError::IndicesOfMany => "indices are not supported for multi-file datasets",
            DatasetError::RowRangeOfMany =>
                "row_range is not supported for multi-file datasets; scan a partition instead",
            DatasetError::SplitsOfMany =>
                "multi-file datasets split by partition, not by row range; see partition_count",
            DatasetError::TooManyRows => "out of range integral type conversion attempted",
            DatasetError::UnsortedIndices => "row indices must be strictly increasing",
            DatasetError::ColumnNotText => "projection: expected list of strings or None",
        }
    }
}

/// The rows behind a dataset.
pub enum DatasetSource {
    /// A single file.
    File {
        /// How many rows it has.
        row_count: u64,
        /// Its natural splits.
        splits: Vec<RowRange>,
    },
    /// Many files scanned as one.
    Multi {
        /// How many files there are.
        children: usize,
        /// How many rows they have, where that is known exactly: the row counts of files that are
        /// not open yet are not.
        exact_rows: Option<u64>,
    },
}

/// Reject arguments that only apply to multi-file datasets.
pub fn check_file_arguments(partition: Option<u64>) -> (result: Result<(), DatasetError>)
    ensures
        result == (if partition is Some {
            Err::<(), DatasetError>(DatasetError::PartitionOfFile)
        } else {
            Ok(())
        }),
{
    if partition.is_some() {
        Err(DatasetError::PartitionOfFile)
    } else {
        Ok(())
    }
}

/// Reject arguments that multi-file datasets do not support.
pub fn check_multi_arguments(indices: bool, row_range: Option<(u64, u64)>) -> (result: Result<
    (),
    DatasetError,
>)
    ensures
        result == (if indices {
            Err::<(), DatasetError>(DatasetError::IndicesOfMany)
        } else if row_range is Some {
            Err(DatasetError::RowRangeOfMany)
        } else {
            Ok(())
        }),
{
    if indices {
        Err(DatasetError::IndicesOfMany)
    } else if row_range.is_some() {
        Err(DatasetError::RowRangeOfMany)
    } else {
        Ok(())
    }
}

/// What names a column of a projection.
pub enum ColumnArgument {
    /// A text.
    Name(String),
    /// Anything else.
    Other,
}

/// Whether every column is named by a text.
pub open spec fn all_named(columns: Seq<ColumnArgument>) -> bool {
    forall|i: int| 0 <= i < columns.len() ==> (#[trigger] columns[i]) is Name
}

/// The names of columns.
pub open spec fn column_names(columns: Seq<ColumnArgument>) -> Seq<Seq<char>> {
    Seq::new(columns.len(), |i: int| columns[i]->Name_0@)
}

/// The projection of a list of columns: all of them where there is no list.
pub fn projection_of(columns: Option<&Vec<ColumnArgument>>) -> (projection: Result<
    Expression,
    DatasetError,
>)
    ensures
        match columns {
            None => projection is Ok && projection->Ok_0@ == ExprTree::Root,
            Some(columns) => if all_named(columns@) {
                projection is Ok && projection->Ok_0@ == ExprTree::Call(
                    FnModel::Select(column_names(columns@)),
                    seq![ExprTree::Root],
                )
            } else {
                projection == Err::<Expression, _>(DatasetError::ColumnNotText)
            },
        },
{
    let list: &Vec<ColumnArgument> = match columns {
        Some(list) => list,
        None => return Ok(Expression::Root),
    };
    let mut names: Vec<String> = Vec::new();
    let mut i: usize = 0;
    while i < list.len()
        invariant
            columns == Some(list),
            i <= list@.len(),
            names@.len() == i,
            forall|j: int| 0 <= j < i ==> (#[trigger] list@[j]) is Name,
            forall|j: int| 0 <= j < i ==> (#[trigger] names@[j])@ == list@[j]->Name_0@,
        decreases list@.len() - i,
    {
        match &list[i] {
            ColumnArgument::Name(name) => names.push(name.clone()),
            ColumnArgument::Other => {
                assert(!(list@[i as int] is Name));
                return Err(DatasetError::ColumnNotText);
            },
        }
        i = i + 1;
    }
    assert(crate::expr::texts(names@) =~= column_names(list@));
    Ok(Expression::unary(ScalarFn::Select(names), Expression::Root))
}

/// A projection to no columns, by which rows are counted.
fn no_columns() -> (projection: Expression)
    ensures
        projection@ == ExprTree::Call(FnModel::Select(seq![]), seq![ExprTree::Root]),
{
    let names: Vec<String> = Vec::new();
    assert(crate::expr::texts(names@) =~= seq![]);
    Expression::unary(ScalarFn::Select(names), Expression::Root)
}

/// The scan of a single file.
pub struct FileScan {
    /// The projection expression.
    pub projection: Expression,
    /// The predicate used to filter rows.
    pub filter: Option<Expression>,
    /// The rows to read, if not all, in strictly increasing order.
    pub indices: Option<Vec<u64>>,
    /// The range of rows to read, if not all.
    pub row_range: Option<RowRange>,
    /// The rows of a batch, if not left to the file.
    pub split_by: Option<usize>,
}

/// How a dataset is read.
pub enum ReadPlan {
    /// By scanning a single file.
    File(FileScan),
    /// By scanning many files.
    Multi(MultiScanOptions),
}

/// The range of rows between two numbers.
pub open spec fn range_of(row_range: Option<(u64, u64)>) -> Option<RowRange> {
    match row_range {
        Some((start, end)) => Some(RowRange { start, end }),
        None => None,
    }
}

fn to_range(row_range: Option<(u64, u64)>) -> (range: Option<RowRange>)
    ensures
        range == range_of(row_range),
{
    match row_range {
        Some((start, end)) => Some(RowRange { start, end }),
        None => None,
    }
}

/// The scan of a single file: rows picked by number have to be in strictly increasing order.
pub fn read_file(
    projection: Expression,
    filter: Option<Expression>,
    indices: Option<Vec<u64>>,
    row_range: Option<(u64, u64)>,
) -> (scan: Result<FileScan, DatasetError>)
    ensures
        scan == (if indices is Some && !strictly_sorted(indices->Some_0@) {
            Err::<FileScan, DatasetError>(DatasetError::UnsortedIndices)
        } else {
            Ok(
                FileScan {
                    projection,
                    filter,
                    indices,
                    row_range: range_of(row_range),
                    split_by: None,
                },
            )
        }),
{
    if let Some(rows) = &indices {
        if !is_strictly_sorted(rows) {
            return Err(DatasetError::UnsortedIndices);
        }
    }
    Ok(FileScan { projection, filter, indices, row_range: to_range(row_range), split_by: None })
}

/// How the number of rows of a dataset is found.
pub enum CountPlan {
    /// It is known.
    Known(usize),
    /// By scanning and adding up the rows of the chunks.
    Scan(ReadPlan),
}

impl DatasetSource {
    /// How the dataset is read into one array.
    pub fn to_array(
        &self,
        projection: Expression,
        filter: Option<Expression>,
        indices: Option<Vec<u64>>,
        row_range: Option<(u64, u64)>,
        partition: Option<u64>,
    ) -> (plan: Result<ReadPlan, DatasetError>)
        ensures
            match self {
                DatasetSource::File { .. } => plan == (if partition is Some {
                    Err::<ReadPlan, DatasetError>(DatasetError::PartitionOfFile)
                } else if indices is Some && !strictly_sorted(indices->Some_0@) {
                    Err(DatasetError::UnsortedIndices)
                } else {
                    Ok(
                        ReadPlan::File(
                            FileScan {
                                projection,
                                filter,
                                indices,
                                row_range: range_of(row_range),
                                split_by: None,
                            },
                        ),
                    )
                }),
                DatasetSource::Multi { .. } => plan == (if indices is Some {
                    Err::<ReadPlan, DatasetError>(DatasetError::IndicesOfMany)
                } else if row_range is Some {
                    Err(DatasetError::RowRangeOfMany)
                } else {
                    Ok(
                        ReadPlan::Multi(
                            MultiScanOptions {
                                projection,
                                filter,
                                limit: None,
                                partition,
                                batch_size: None,
                                ordered: true,
                            },
                        ),
                    )
                }),
            },
    {
        match self {
            DatasetSource::File { .. } => match check_file_arguments(partition) {
                Err(error) => Err(error),
                Ok(()) => match read_file(projection, filter, indices, row_range) {
                    Ok(scan) => Ok(ReadPlan::File(scan)),
                    Err(error) => Err(error),
                },
            },
            DatasetSource::Multi { .. } => match check_multi_arguments(
                indices.is_some(),
                row_range,
            ) {
                Err(error) => Err(error),
                Ok(()) => {
                    let options = MultiScanOptions::default();
                    Ok(
                        ReadPlan::Multi(
                            MultiScanOptions { projection, filter, partition, ..options },
                        ),
                    )
                },
            },
        }
    }

    /// How the dataset is read in batches.
    pub fn to_record_batch_reader(
        &self,
        projection: Expression,
        filter: Option<Expression>,
        split_by: Option<usize>,
        row_range: Option<(u64, u64)>,
        partition: Option<u64>,
    ) -> (plan: Result<ReadPlan, DatasetError>)
        ensures
            match self {
                DatasetSource::File { .. } => plan == (if partition is Some {
                    Err::<ReadPlan, DatasetError>(DatasetError::PartitionOfFile)
                } else {
                    Ok(
                        ReadPlan::File(
                            FileScan {
                                projection,
                                filter,
                                indices: None,
                                row_range: range_of(row_range),
                                split_by,
                            },
                        ),
                    )
                }),
                DatasetSource::Multi { .. } => plan == (if row_range is Some {
                    Err::<ReadPlan, DatasetError>(DatasetError::RowRangeOfMany)
                } else {
                    Ok(
                        ReadPlan::Multi(
                            MultiScanOptions {
                                projection,
                                filter,
                                limit: None,
                                partition,
                                batch_size: split_by,
                                ordered: true,
                            },
                        ),
                    )
                }),
            },
    {
        match self {
            DatasetSource::File { .. } => match check_file_arguments(partition) {
                Err(error) => Err(error),
                Ok(()) => Ok(
                    ReadPlan::File(
                        FileScan {
                            projection,
                            filter,
                            indices: None,
                            row_range: to_range(row_range),
                            split_by,
                        },
                    ),
                ),
            },
            DatasetSource::Multi { .. } => match check_multi_arguments(false, row_range) {
                Err(error) => Err(error),
                Ok(()) => {
                    let options = MultiScanOptions::default();
                    Ok(
                        ReadPlan::Multi(
                            MultiScanOptions {
                                projection,
                                filter,
                                partition,
                                batch_size: split_by,
                                ..options
                            },
                        ),
                    )
                },
            },
        }
    }

    /// The number of rows that is known without a scan, if it is: of a single file that of the
    /// range asked for, of many files only that of all rows.
    pub open spec fn known_rows(
        self,
        filtered: bool,
        row_range: Option<(u64, u64)>,
        partition: Option<u64>,
    ) -> Option<int> {
        match self {
            DatasetSource::File { row_count, .. } => if filtered {
                None
            } else {
                match row_range {
                    Some((start, end)) => Some(end - start),
                    None => Some(row_count as int),
                }
            },
            DatasetSource::Multi { exact_rows, .. } => if filtered || partition is Some || row_range
                is Some {
                None
            } else {
                match exact_rows {
                    Some(rows) => Some(rows as int),
                    None => None,
                }
            },
        }
    }

    /// How the number of rows matching the filter is found.
    ///
    /// A range of rows of a single file that is counted without a filter does not end before it
    /// starts.
    pub fn count_rows(
        &self,
        filter: Option<Expression>,
        split_by: Option<usize>,
        row_range: Option<(u64, u64)>,
        partition: Option<u64>,
    ) -> (plan: Result<CountPlan, DatasetError>)
        requires
            self is File && partition is None && filter is None && row_range is Some
                ==> row_range->Some_0.0 <= row_range->Some_0.1,
        ensures
            match (self, self.known_rows(filter is Some, row_range, partition)) {
                (DatasetSource::File { .. }, _) if partition is Some => plan == Err::<
                    CountPlan,
                    _,
                >(DatasetError::PartitionOfFile),
                (_, Some(rows)) => plan == (if rows > usize::MAX {
                    Err::<CountPlan, DatasetError>(DatasetError::TooManyRows)
                } else {
                    Ok(CountPlan::Known(rows as usize))
                }),
                (DatasetSource::File { .. }, None) => plan matches Ok(
                    CountPlan::Scan(ReadPlan::File(scan)),
                ) && scan.projection@ == ExprTree::Call(
                    FnModel::Select(seq![]),
                    seq![ExprTree::Root],
                ) && scan.filter == filter && scan.indices is None && scan.row_range == range_of(
                    row_range,
                ) && scan.split_by == split_by,
                (DatasetSource::Multi { .. }, None) => if row_range is Some {
                    plan == Err::<CountPlan, _>(DatasetError::RowRangeOfMany)
                } else {
                    plan matches Ok(CountPlan::Scan(ReadPlan::Multi(options)))
                        && options.projection@ == ExprTree::Call(
                        FnModel::Select(seq![]),
                        seq![ExprTree::Root],
                    ) && options.filter == filter && options.limit is None && options.partition
                        == partition && options.batch_size is None && !options.ordered
                },
            },
    {
        match self {
            DatasetSource::File { row_count, .. } => {
                if let Err(error) = check_file_arguments(partition) {
                    return Err(error);
                }
                if filter.is_none() {
                    let rows: u64 = match row_range {
                        Some((start, end)) => end - start,
                        None => *row_count,
                    };
                    return known(rows);
                }
                Ok(
                    CountPlan::Scan(
                        ReadPlan::File(
                            FileScan {
                                projection: no_columns(),
                                filter,
                                indices: None,
                                row_range: to_range(row_range),
                                split_by,
                            },
                        ),
                    ),
                )
            },
            DatasetSource::Multi { exact_rows, .. } => {
                if filter.is_none() && partition.is_none() && row_range.is_none() {
                    if let Some(rows) = exact_rows {
                        return known(*rows);
                    }
                }
                match check_multi_arguments(false, row_range) {
                    Err(error) => Err(error),
                    Ok(()) => {
                        let options = MultiScanOptions::default();
                        Ok(
                            CountPlan::Scan(
                                ReadPlan::Multi(
                                    MultiScanOptions {
                                        projection: no_columns(),
                                        filter,
                                        partition,
                                        ordered: false,
                                        ..options
                                    },
                                ),
                            ),
                        )
                    },
                }
            },
        }
    }

    /// The natural splits of the dataset, used to build one fragment per split.
    ///
    /// Only a single file has splits by row range; many files are split by partition instead.
    pub fn splits(&self) -> (splits: Result<Vec<(u64, u64)>, DatasetError>)
        ensures
            match self {
                DatasetSource::File { splits: natural, .. } => {
                    &&& splits is Ok
                    &&& splits->Ok_0@ == natural@.map_values(|range: RowRange| (range.start, range.end))
                },
                DatasetSource::Multi { .. } => splits == Err::<Vec<(u64, u64)>, _>(
                    DatasetError::SplitsOfMany,
                ),
            },
    {
        match self {
            DatasetSource::File { splits, .. } => {
                let ghost pair = |range: RowRange| (range.start, range.end);
                let mut pairs: Vec<(u64, u64)> = Vec::new();
                let mut i: usize = 0;
                while i < splits.len()
                    invariant
                        i <= splits@.len(),
                        pair == |range: RowRange| (range.start, range.end),
                        pairs@ == splits@.take(i as int).map_values(pair),
                    decreases splits@.len() - i,
                {
                    let range: RowRange = splits[i];
                    pairs.push((range.start, range.end));
                    i = i + 1;
                    assert(pairs@ =~= splits@.take(i as int).map_values(pair));
                }
                assert(splits@.take(i as int) =~= splits@);
                Ok(pairs)
            },
            DatasetSource::Multi { .. } => Err(DatasetError::SplitsOfMany),
        }
    }

    /// The number of partitions (files) of many files, or `None` for a single file.
    pub fn partition_count(&self) -> (count: Option<usize>)
        ensures
            count == (match self {
                DatasetSource::File { .. } => None,
                DatasetSource::Multi { children, .. } => Some(*children),
            }),
    {
        match self {
            DatasetSource::File { .. } => None,
            DatasetSource::Multi { children, .. } => Some(*children),
        }
    }
}

/// A number of rows that is known.
fn known(rows: u64) -> (plan: Result<CountPlan, DatasetError>)
    ensures
        plan == (if rows > usize::MAX {
            Err::<CountPlan, DatasetError>(DatasetError::TooManyRows)
        } else {
            Ok(CountPlan::Known(rows as usize))
        }),
{
    if rows > usize::MAX as u64 {
        Err(DatasetError::TooManyRows)
    } else {
        Ok(CountPlan::Known(rows as usize))
    }
}

/// The rows of a sequence of chunks.
pub open spec fn total_rows(lens: Seq<usize>) -> int
    decreases lens.len(),
{
    if lens.len() == 0 {
        0
    } else {
        total_rows(lens.drop_last()) + lens.last()
    }
}

/// The rows of a prefix are no more than those of the whole.
proof fn lemma_total_prefix(lens: Seq<usize>, n: int)
    requires
        0 <= n <= lens.len(),
    ensures
        0 <= total_rows(lens.take(n)) <= total_rows(lens),
    decreases lens.len(),
{
    if n < lens.len() {
        assert(lens.drop_last().take(n) =~= lens.take(n));
        lemma_total_prefix(lens.drop_last(), n);
    } else {
        assert(lens.take(n) =~= lens);
        if lens.len() > 0 {
            lemma_total_prefix(lens.drop_last(), lens.len() - 1);
        }
    }
}

/// The rows of the chunks of a scan.
pub fn sum_rows(lens: &Vec<usize>) -> (rows: usize)
    requires
        total_rows(lens@) <= usize::MAX,
    ensures
        rows == total_rows(lens@),
{
    let mut rows: usize = 0;
    let mut i: usize = 0;
    while i < lens.len()
        invariant
            i <= lens@.len(),
            rows == total_rows(lens@.take(i as int)),
            total_rows(lens@) <= usize::MAX,
        decreases lens@.len() - i,
    {
        assert(lens@.take(i + 1).drop_last() =~= lens@.take(i as int));
        proof {
            lemma_total_prefix(lens@, i + 1);
        }
        rows = rows + lens[i];
        i = i + 1;
    }
    assert(lens@.take(i as int) =~= lens@);
    rows
}

/// The rows of chunks add up, however the chunks are split, and a single chunk has its own.
pub proof fn law_rows_add_up(front: Seq<usize>, back: Seq<usize>, len: usize)
    ensures
        total_rows(front + back) == total_rows(front) + total_rows(back),
        total_rows(seq![len]) == len,
    decreases back.len(),
{
    reveal_with_fuel(total_rows, 2);
    assert(seq![len].drop_last() =~= Seq::empty());
    if back.len() > 0 {
        law_rows_add_up(front, back.drop_last(), len);
        assert((front + back).drop_last() =~= front + back.drop_last());
    } else {
        assert(front + back =~= front);
    }
}

} // verus!
