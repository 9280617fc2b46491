//! Table filters: what a query engine pushes into the scan of one column, and the scan expressions
//! and row selections they become.

use vstd::prelude::*;

use crate::bloom::filter::fresh_probe;
use crate::bloom::filter::try_new_probe;
use crate::bloom::filter::DuckDbType;
use crate::bloom::filter::KeyDType;
use crate::expr::and_collect;
use crate::expr::collected;
use crate::expr::or_collect;
use crate::expr::trees;
use crate::expr::CompareOperator;
use crate::expr::ExprTree;
use crate::expr::Expression;
use crate::expr::FnModel;
use crate::expr::Literal;
use crate::expr::LiteralModel;
use crate::expr::RowReader;
use crate::expr::ScalarFn;

verus! {

/// The comparison of a filter, as the engine names it.
#[derive(Clone, Copy, Debug, PartialEq, Eq, Structural)]
pub enum ExprType {
    /// `=`
    Equal,
    /// `<>`
    NotEqual,
    /// `<`
    LessThan,
    /// `>`
    GreaterThan,
    /// `<=`
    LessThanOrEqualTo,
    /// `>=`
    GreaterThanOrEqualTo,
    /// Anything else, by its number.
    Other(u32),
}

impl ExprType {
    /// The comparison, if it is one.
    pub open spec fn operator_spec(self) -> Option<CompareOperator> {
        match self {
            ExprType::Equal => Some(CompareOperator::Eq),
            ExprType::NotEqual => Some(CompareOperator::NotEq),
            ExprType::LessThan => Some(CompareOperator::Lt),
            ExprType::GreaterThan => Some(CompareOperator::Gt),
            ExprType::LessThanOrEqualTo => Some(CompareOperator::Lte),
            ExprType::GreaterThanOrEqualTo => Some(CompareOperator::Gte),
            ExprType::Other(_) => None,
        }
    }

    /// The comparison, if it is one.
    pub fn operator(self) -> (operator: Option<CompareOperator>)
        ensures
            operator == self.operator_spec(),
    {
        match self {
            ExprType::Equal => Some(CompareOperator::Eq),
            ExprType::NotEqual => Some(CompareOperator::NotEq),
            ExprType::LessThan => Some(CompareOperator::Lt),
            ExprType::GreaterThan => Some(CompareOperator::Gt),
            ExprType::LessThanOrEqualTo => Some(CompareOperator::Lte),
            ExprType::GreaterThanOrEqualTo => Some(CompareOperator::Gte),
            ExprType::Other(_) => None,
        }
    }
}

/// The number that a value of the engine holds.
#[derive(Clone, Copy, Debug, PartialEq, Eq, Structural)]
pub enum ExtractedValue {
    /// BIGINT
    BigInt(i64),
    /// INTEGER
    Integer(i32),
    /// UBIGINT
    UBigInt(u64),
    /// UINTEGER
    UInteger(u32),
    /// A value of any other type.
    Other,
}

/// A constant of a filter.
#[derive(Clone, Copy, Debug, PartialEq, Eq, Structural)]
pub struct FilterValue {
    /// The scalar it converts to, by its place among the constants of the scan; `None` where it
    /// does not convert.
    pub scalar: Option<u64>,
    /// The number it holds.
    pub extracted: ExtractedValue,
}

/// What became of converting an expression that the engine pushed down as a filter.
#[derive(Clone, Copy, Debug, PartialEq, Eq, Structural)]
pub enum BoundConversion {
    /// It is this function of the column.
    Converted(u64),
    /// There is no expression for it.
    Unsupported,
    /// The conversion failed.
    Failed,
}

/// A filter over one column.
pub enum TableFilter {
    /// A comparison with a constant.
    ConstantComparison(FilterValue, ExprType),
    /// All of the children.
    ConjunctionAnd(Vec<TableFilter>),
    /// Any of the children.
    ConjunctionOr(Vec<TableFilter>),
    /// The value is NULL.
    IsNull,
    /// The value is not NULL.
    IsNotNull,
    /// The child, over the named field of the column.
    StructExtract(String, Box<TableFilter>),
    /// The child, which the engine does not need the scan to apply.
    Optional(Box<TableFilter>),
    /// The value is one of these.
    InFilter(Vec<FilterValue>),
    /// A comparison with a value, by its number, that may change while the scan runs.
    Dynamic(ExprType, u64),
    /// An expression over the column.
    ExpressionRef(BoundConversion),
    /// A bloom filter, by its identity, over keys of a type.
    Bloom(u64, DuckDbType),
}

/// Why a filter could not be converted.
#[derive(Clone, Copy, Debug, PartialEq, Eq, Structural)]
pub enum FilterError {
    /// A constant does not convert to a scalar.
    Value,
    /// The operator is not a comparison.
    Operator,
    /// The column has no type in the scanned row.
    ColumnType,
    /// A pushed-down expression failed to convert.
    Expression,
    /// A row number is negative.
    NegativeValue,
    /// A row number is of some other type.
    UnexpectedValue,
    /// The row numbers are not strictly increasing.
    Unsorted,
}

/// What is read of a column's type.
pub enum ColumnDType {
    /// A struct of named fields.
    Struct(Vec<(String, ColumnDType)>),
    /// A type of join keys, and the engine's name for it, if it has one.
    Key(KeyDType, Option<DuckDbType>),
}

impl ColumnDType {
    /// The first of `fields`, from `n` on, with the given name.
    pub open spec fn find(fields: Seq<(String, ColumnDType)>, name: Seq<char>, n: int) -> Option<int>
        decreases fields.len() - n,
    {
        if n < 0 || n >= fields.len() {
            None
        } else if fields[n].0@ == name {
            Some(n)
        } else {
            Self::find(fields, name, n + 1)
        }
    }

    /// The type of the named field, if the type is a struct that has it.
    pub open spec fn field_spec(self, name: Seq<char>) -> Option<ColumnDType> {
        match self {
            ColumnDType::Struct(fields) => match Self::find(fields@, name, 0) {
                Some(i) => Some(fields@[i].1),
                None => None,
            },
            ColumnDType::Key(..) => None,
        }
    }

    /// The type of the named field, if the type is a struct that has it.
    pub fn field(&self, name: &String) -> (dtype: Option<&ColumnDType>)
        ensures
            match dtype {
                Some(dtype) => self.field_spec(name@) == Some(*dtype),
                None => self.field_spec(name@) is None,
            },
    {
        match self {
            ColumnDType::Struct(fields) => {
                let mut i: usize = 0;
                while i < fields.len()
                    invariant
                        i <= fields@.len(),
                        Self::find(fields@, name@, 0) == Self::find(fields@, name@, i as int),
                        self.field_spec(name@) == (match Self::find(fields@, name@, 0) {
                            Some(k) => Some(fields@[k].1),
                            None => None,
                        }),
                    decreases fields@.len() - i,
                {
                    if fields[i].0.eq(name) {
                        return Some(&fields[i].1);
                    }
                    i = i + 1;
                }
                None
            },
            ColumnDType::Key(..) => None,
        }
    }
}

/// What becomes of a filter.
#[verifier::ext_equal]
pub enum Conversion {
    /// Reaching an empty list of alternatives: there is no such filter.
    Stuck,
    /// The conversion fails.
    Fails(FilterError),
    /// There is no expression for the filter.
    Declined,
    /// The filter becomes this expression.
    Becomes(ExprTree),
}

/// What becomes of the children of a disjunction.
#[verifier::ext_equal]
pub enum Alternatives {
    /// One of them does not become an expression.
    Stopped(Conversion),
    /// They become these expressions.
    All(Seq<ExprTree>),
}

/// What becomes of the children of a conjunction.
#[verifier::ext_equal]
pub enum Conjuncts {
    /// One of them stops the conversion.
    Stopped(Conversion),
    /// The expressions of those that the engine needs, of those that it does not, and of the last
    /// bloom filter.
    All(Seq<ExprTree>, Seq<ExprTree>, Option<ExprTree>),
}

/// The scalars of a list of constants, up to the first that has none.
pub open spec fn scalars_of(values: Seq<FilterValue>) -> Option<Seq<u64>>
    decreases values.len(),
{
    if values.len() == 0 {
        Some(seq![])
    } else {
        match (scalars_of(values.drop_last()), values.last().scalar) {
            (Some(front), Some(scalar)) => Some(front.push(scalar)),
            _ => None,
        }
    }
}

impl TableFilter {
    /// Whether the engine does not need the scan to apply the filter.
    pub open spec fn optional(self) -> bool {
        self is Optional
    }

    /// Whether the filter is a bloom filter, optional or not.
    pub open spec fn bloom(self) -> bool
        decreases self,
    {
        match self {
            TableFilter::Bloom(..) => true,
            TableFilter::Optional(child) => child.bloom(),
            _ => false,
        }
    }

    /// What becomes of the filter over the column `col`, of type `dtype` if it has one.
    pub open spec fn conversion(self, col: ExprTree, dtype: Option<ColumnDType>) -> Conversion
        decreases self, 0nat,
    {
        match self {
            TableFilter::ConstantComparison(value, operator) => match value.scalar {
                None => Conversion::Fails(FilterError::Value),
                Some(scalar) => match operator.operator_spec() {
                    None => Conversion::Fails(FilterError::Operator),
                    Some(operator) => Conversion::Becomes(
                        ExprTree::Call(
                            FnModel::Compare(operator),
                            seq![
                                col,
                                ExprTree::Call(
                                    FnModel::Literal(LiteralModel::Scalar(scalar)),
                                    seq![],
                                ),
                            ],
                        ),
                    ),
                },
            },
            TableFilter::ConjunctionAnd(children) => match conjuncts(
                children@,
                children@.len(),
                col,
                dtype,
            ) {
                Conjuncts::Stopped(conversion) => conversion,
                Conjuncts::All(required, optional, bloom) => Conversion::Becomes(
                    collected(
                        FnModel::And,
                        match bloom {
                            Some(bloom) => required.push(bloom),
                            None => required + optional,
                        },
                        true,
                    ),
                ),
            },
            TableFilter::ConjunctionOr(children) => match alternatives(
                children@,
                children@.len(),
                col,
                dtype,
            ) {
                Alternatives::Stopped(conversion) => conversion,
                Alternatives::All(list) => Conversion::Becomes(
                    collected(FnModel::Or, list, false),
                ),
            },
            TableFilter::IsNull => Conversion::Becomes(
                ExprTree::Call(FnModel::IsNull, seq![col]),
            ),
            TableFilter::IsNotNull => Conversion::Becomes(
                ExprTree::Call(FnModel::IsNotNull, seq![col]),
            ),
            TableFilter::StructExtract(name, child) => child.conversion(
                ExprTree::Call(FnModel::GetItem(name@), seq![col]),
                match dtype {
                    Some(dtype) => dtype.field_spec(name@),
                    None => None,
                },
            ),
            TableFilter::Optional(child) => match child.conversion(col, dtype) {
                Conversion::Fails(_) => Conversion::Declined,
                conversion => conversion,
            },
            TableFilter::InFilter(values) => match scalars_of(values@) {
                None => Conversion::Fails(FilterError::Value),
                Some(scalars) => if scalars.len() == 0 {
                    Conversion::Stuck
                } else {
                    Conversion::Becomes(
                        ExprTree::Call(
                            FnModel::ListContains,
                            seq![
                                ExprTree::Call(
                                    FnModel::Literal(LiteralModel::List(scalars)),
                                    seq![],
                                ),
                                col,
                            ],
                        ),
                    )
                },
            },
            TableFilter::Dynamic(operator, data) => match operator.operator_spec() {
                None => Conversion::Fails(FilterError::Operator),
                Some(operator) => if dtype is None {
                    Conversion::Fails(FilterError::ColumnType)
                } else {
                    Conversion::Becomes(
                        ExprTree::Call(
                            FnModel::Dynamic { operator, data, default: true },
                            seq![col],
                        ),
                    )
                },
            },
            TableFilter::ExpressionRef(conversion) => match conversion {
                BoundConversion::Failed => Conversion::Fails(FilterError::Expression),
                BoundConversion::Unsupported => Conversion::Declined,
                BoundConversion::Converted(function) => Conversion::Becomes(
                    ExprTree::Call(FnModel::Other(function), seq![col]),
                ),
            },
            TableFilter::Bloom(identity, key_type) => match dtype {
                None => Conversion::Fails(FilterError::ColumnType),
                Some(ColumnDType::Key(key, column_type)) => match fresh_probe(
                    identity,
                    key_type,
                    key,
                    column_type,
                ) {
                    Some(probe) => Conversion::Becomes(
                        ExprTree::Call(FnModel::Bloom(probe), seq![col]),
                    ),
                    None => Conversion::Declined,
                },
                Some(_) => Conversion::Declined,
            },
        }
    }
}

/// What becomes of the first `n` children of a disjunction: each has to become an expression, and
/// the first that does not decides.
pub open spec fn alternatives(
    children: Seq<TableFilter>,
    n: nat,
    col: ExprTree,
    dtype: Option<ColumnDType>,
) -> Alternatives
    decreases children, n,
{
    if n == 0 || n > children.len() {
        Alternatives::All(seq![])
    } else {
        match alternatives(children, (n - 1) as nat, col, dtype) {
            Alternatives::Stopped(conversion) => Alternatives::Stopped(conversion),
            Alternatives::All(front) => match children[n - 1].conversion(col, dtype) {
                Conversion::Becomes(tree) => Alternatives::All(front.push(tree)),
                conversion => Alternatives::Stopped(conversion),
            },
        }
    }
}

/// What becomes of the first `n` children of a conjunction: one that has no expression stops the
/// conversion unless it is optional.
pub open spec fn conjuncts(
    children: Seq<TableFilter>,
    n: nat,
    col: ExprTree,
    dtype: Option<ColumnDType>,
) -> Conjuncts
    decreases children, n,
{
    if n == 0 || n > children.len() {
        Conjuncts::All(seq![], seq![], None)
    } else {
        let child = children[n - 1];
        match conjuncts(children, (n - 1) as nat, col, dtype) {
            Conjuncts::Stopped(conversion) => Conjuncts::Stopped(conversion),
            Conjuncts::All(required, optional, bloom) => match child.conversion(col, dtype) {
                Conversion::Becomes(tree) => if child.bloom() {
                    Conjuncts::All(required, optional, Some(tree))
                } else if child.optional() {
                    Conjuncts::All(required, optional.push(tree), bloom)
                } else {
                    Conjuncts::All(required.push(tree), optional, bloom)
                },
                Conversion::Declined => if child.optional() {
                    Conjuncts::All(required, optional, bloom)
                } else {
                    Conjuncts::Stopped(Conversion::Declined)
                },
                conversion => Conjuncts::Stopped(conversion),
            },
        }
    }
}

/// A child that stops a disjunction stops it whatever follows.
proof fn lemma_alternatives_stopped(
    children: Seq<TableFilter>,
    n: nat,
    m: nat,
    col: ExprTree,
    dtype: Option<ColumnDType>,
)
    requires
        n <= m <= children.len(),
        alternatives(children, n, col, dtype) is Stopped,
    ensures
        alternatives(children, m, col, dtype) == alternatives(children, n, col, dtype),
    decreases m,
{
    if n < m {
        lemma_alternatives_stopped(children, n, (m - 1) as nat, col, dtype);
    }
}

/// A child that stops a conjunction stops it whatever follows.
proof fn lemma_conjuncts_stopped(
    children: Seq<TableFilter>,
    n: nat,
    m: nat,
    col: ExprTree,
    dtype: Option<ColumnDType>,
)
    requires
        n <= m <= children.len(),
        conjuncts(children, n, col, dtype) is Stopped,
    ensures
        conjuncts(children, m, col, dtype) == conjuncts(children, n, col, dtype),
    decreases m,
{
    if n < m {
        lemma_conjuncts_stopped(children, n, (m - 1) as nat, col, dtype);
    }
}

/// A constant without a scalar leaves the whole list without scalars.
proof fn lemma_scalars_stopped(values: Seq<FilterValue>, n: int)
    requires
        0 <= n <= values.len(),
        scalars_of(values.take(n)) is None,
    ensures
        scalars_of(values) is None,
    decreases values.len(),
{
    if n < values.len() {
        assert(values.drop_last().take(n) =~= values.take(n));
        lemma_scalars_stopped(values.drop_last(), n);
    } else {
        assert(values.take(n) =~= values);
    }
}

/// The trees of a list once an expression is appended.
proof fn lemma_trees_push(list: Seq<Expression>, expression: Expression)
    ensures
        trees(list.push(expression)) == trees(list).push(expression@),
{
    assert(trees(list.push(expression)) =~= trees(list).push(expression@));
}

/// The type of a column, as contracts see it.
pub open spec fn dtype_of(dtype: Option<&ColumnDType>) -> Option<ColumnDType> {
    match dtype {
        Some(dtype) => Some(*dtype),
        None => None,
    }
}

impl TableFilter {
    /// Whether the engine does not need the scan to apply the filter.
    pub fn is_optional(&self) -> (optional: bool)
        ensures
            optional == self.optional(),
    {
        match self {
            TableFilter::Optional(_) => true,
            _ => false,
        }
    }

    /// Whether the filter is a bloom filter, optional or not.
    pub fn is_bloom_filter(&self) -> (bloom: bool)
        ensures
            bloom == self.bloom(),
        decreases self,
    {
        match self {
            TableFilter::Bloom(..) => true,
            TableFilter::Optional(child) => child.is_bloom_filter(),
            _ => false,
        }
    }
}

/// The scalars of the constants of a filter.
fn scalars(values: &Vec<FilterValue>) -> (result: Result<Vec<u64>, FilterError>)
    ensures
        match result {
            Ok(scalars) => scalars_of(values@) == Some(scalars@),
            Err(error) => scalars_of(values@) is None && error == FilterError::Value,
        },
{
    let mut list: Vec<u64> = Vec::new();
    let mut i: usize = 0;
    while i < values.len()
        invariant
            i <= values@.len(),
            scalars_of(values@.take(i as int)) == Some(list@),
        decreases values@.len() - i,
    {
        assert(values@.take(i + 1).drop_last() =~= values@.take(i as int));
        match values[i].scalar {
            Some(scalar) => list.push(scalar),
            None => {
                proof {
                    lemma_scalars_stopped(values@, i + 1);
                }
                return Err(FilterError::Value);
            },
        }
        i = i + 1;
    }
    assert(values@.take(i as int) =~= values@);
    Ok(list)
}

/// The expression that a filter over the column `col` becomes, or `None` where there is none.
///
/// `dtype` is the type of the column in the scanned row, if it has one there.
pub fn try_from_table_filter(
    value: &TableFilter,
    col: &Expression,
    dtype: Option<&ColumnDType>,
) -> (result: Result<Option<Expression>, FilterError>)
    requires
        !(value.conversion(col@, dtype_of(dtype)) is Stuck),
    ensures
        match result {
            Ok(Some(expression)) => value.conversion(col@, dtype_of(dtype)) == Conversion::Becomes(
                expression@,
            ),
            Ok(None) => value.conversion(col@, dtype_of(dtype)) == Conversion::Declined,
            Err(error) => value.conversion(col@, dtype_of(dtype)) == Conversion::Fails(error),
        },
    decreases value,
{
    match value {
        TableFilter::ConstantComparison(constant, operator) => match constant.scalar {
            None => Err(FilterError::Value),
            Some(scalar) => match operator.operator() {
                None => Err(FilterError::Operator),
                Some(operator) => Ok(
                    Some(
                        Expression::binary(
                            ScalarFn::Compare(operator),
                            col.copy(),
                            Expression::leaf(ScalarFn::Literal(Literal::Scalar(scalar))),
                        ),
                    ),
                ),
            },
        },
        TableFilter::ConjunctionAnd(children) => try_from_conjunction(children, col, dtype),
        TableFilter::ConjunctionOr(children) => {
            let ghost kind = dtype_of(dtype);
            let mut list: Vec<Expression> = Vec::new();
            let mut i: usize = 0;
            while i < children.len()
                invariant
                    i <= children@.len(),
                    kind == dtype_of(dtype),
                    value == TableFilter::ConjunctionOr(*children),
                    !(value.conversion(col@, kind) is Stuck),
                    alternatives(children@, i as nat, col@, kind) == Alternatives::All(
                        trees(list@),
                    ),
                decreases children@.len() - i,
            {
                proof {
                    if alternatives(children@, (i + 1) as nat, col@, kind) is Stopped {
                        lemma_alternatives_stopped(
                            children@,
                            (i + 1) as nat,
                            children@.len(),
                            col@,
                            kind,
                        );
                    }
                }
                match try_from_table_filter(&children[i], col, dtype) {
                    Ok(Some(expression)) => {
                        proof {
                            lemma_trees_push(list@, expression);
                        }
                        list.push(expression);
                    },
                    Ok(None) => return Ok(None),
                    Err(error) => return Err(error),
                }
                i = i + 1;
            }
            Ok(Some(or_collect(list)))
        },
        TableFilter::IsNull => Ok(Some(Expression::unary(ScalarFn::IsNull, col.copy()))),
        TableFilter::IsNotNull => Ok(Some(Expression::unary(ScalarFn::IsNotNull, col.copy()))),
        TableFilter::StructExtract(name, child) => {
            let field = Expression::unary(ScalarFn::GetItem(name.clone()), col.copy());
            let dtype: Option<&ColumnDType> = match dtype {
                Some(dtype) => dtype.field(name),
                None => None,
            };
            try_from_table_filter(child, &field, dtype)
        },
        TableFilter::Optional(child) => match try_from_table_filter(child, col, dtype) {
            Ok(converted) => Ok(converted),
            Err(_) => Ok(None),
        },
        TableFilter::InFilter(values) => match scalars(values) {
            Ok(list) => Ok(
                Some(
                    Expression::binary(
                        ScalarFn::ListContains,
                        Expression::leaf(ScalarFn::Literal(Literal::List(list))),
                        col.copy(),
                    ),
                ),
            ),
            Err(error) => Err(error),
        },
        TableFilter::Dynamic(operator, data) => match operator.operator() {
            None => Err(FilterError::Operator),
            Some(operator) => match dtype {
                None => Err(FilterError::ColumnType),
                Some(_) => Ok(
                    Some(
                        Expression::unary(
                            ScalarFn::Dynamic { operator, data: *data, default: true },
                            col.copy(),
                        ),
                    ),
                ),
            },
        },
        TableFilter::ExpressionRef(conversion) => match conversion {
            BoundConversion::Failed => Err(FilterError::Expression),
            BoundConversion::Unsupported => Ok(None),
            BoundConversion::Converted(function) => Ok(
                Some(Expression::unary(ScalarFn::Other(*function), col.copy())),
            ),
        },
        TableFilter::Bloom(identity, key_type) => match dtype {
            None => Err(FilterError::ColumnType),
            Some(ColumnDType::Key(key, column_type)) => match try_new_probe(
                *identity,
                *key_type,
                key,
                *column_type,
            ) {
                Some(probe) => Ok(Some(Expression::unary(ScalarFn::Bloom(probe), col.copy()))),
                None => Ok(None),
            },
            Some(_) => Ok(None),
        },
    }
}

/// Converts a conjunction of filters over one column.
///
/// A join sends a bloom filter and the range filters of the same keys together, and marks all of
/// them optional. Every key the bloom filter admits lies in the same range, so evaluating the
/// range filters as well would decode the key column again for rows the bloom filter has already
/// ruled out. The bloom filter therefore replaces them.
///
/// There is no expression when a conjunct that the engine needs the scan to apply has none, since
/// leaving that one out would keep rows the query must not see.
fn try_from_conjunction(
    children: &Vec<TableFilter>,
    col: &Expression,
    dtype: Option<&ColumnDType>,
) -> (result: Result<Option<Expression>, FilterError>)
    requires
        !(TableFilter::ConjunctionAnd(*children).conversion(col@, dtype_of(dtype)) is Stuck),
    ensures
        match result {
            Ok(Some(expression)) => TableFilter::ConjunctionAnd(*children).conversion(
                col@,
                dtype_of(dtype),
            ) == Conversion::Becomes(expression@),
            Ok(None) => TableFilter::ConjunctionAnd(*children).conversion(col@, dtype_of(dtype))
                == Conversion::Declined,
            Err(error) => TableFilter::ConjunctionAnd(*children).conversion(col@, dtype_of(dtype))
                == Conversion::Fails(error),
        },
    decreases children,
{
    let ghost kind = dtype_of(dtype);
    let ghost whole = TableFilter::ConjunctionAnd(*children);
    let mut required: Vec<Expression> = Vec::new();
    let mut optional: Vec<Expression> = Vec::new();
    let mut bloom: Option<Expression> = None;
    let mut i: usize = 0;
    assert(trees(required@) =~= seq![]);
    assert(trees(optional@) =~= seq![]);
    while i < children.len()
        invariant
            i <= children@.len(),
            kind == dtype_of(dtype),
            whole == TableFilter::ConjunctionAnd(*children),
            !(whole.conversion(col@, kind) is Stuck),
            conjuncts(children@, i as nat, col@, kind) == Conjuncts::All(
                trees(required@),
                trees(optional@),
                match bloom {
                    Some(bloom) => Some(bloom@),
                    None => None,
                },
            ),
        decreases children@.len() - i,
    {
        proof {
            if conjuncts(children@, (i + 1) as nat, col@, kind) is Stopped {
                lemma_conjuncts_stopped(children@, (i + 1) as nat, children@.len(), col@, kind);
            }
        }
        match try_from_table_filter(&children[i], col, dtype) {
            Ok(Some(expression)) => if children[i].is_bloom_filter() {
                bloom = Some(expression);
            } else if children[i].is_optional() {
                proof {
                    lemma_trees_push(optional@, expression);
                }
                optional.push(expression);
            } else {
                proof {
                    lemma_trees_push(required@, expression);
                }
                required.push(expression);
            },
            Ok(None) => if !children[i].is_optional() {
                return Ok(None);
            },
            Err(error) => return Err(error),
        }
        i = i + 1;
    }
    match bloom {
        Some(bloom) => {
            proof {
                lemma_trees_push(required@, bloom);
            }
            required.push(bloom);
        },
        None => {
            let ghost (left, right) = (required@, optional@);
            required.append(&mut optional);
            assert(trees(required@) =~= trees(left) + trees(right));
        },
    }
    Ok(Some(and_collect(required)))
}

/// A filter that the engine does not need never fails to convert.
pub proof fn law_optional_never_fails(
    child: TableFilter,
    col: ExprTree,
    dtype: Option<ColumnDType>,
)
    ensures
        !(TableFilter::Optional(Box::new(child)).conversion(col, dtype) is Fails),
{
}

/// A conjunction becomes an expression only if each child that the engine needs does, and then
/// that child's expression is among those it is made of.
pub proof fn law_required_conjuncts_kept(
    children: Seq<TableFilter>,
    n: nat,
    col: ExprTree,
    dtype: Option<ColumnDType>,
    i: int,
)
    requires
        0 <= i < n <= children.len(),
        conjuncts(children, n, col, dtype) is All,
        !children[i].optional(),
    ensures
        children[i].conversion(col, dtype) is Becomes,
        !children[i].bloom() ==> conjuncts(children, n, col, dtype)->All_0.contains(
            children[i].conversion(col, dtype)->Becomes_0,
        ),
    decreases n,
{
    if i < n - 1 {
        law_required_conjuncts_kept(children, (n - 1) as nat, col, dtype, i);
        let before = conjuncts(children, (n - 1) as nat, col, dtype)->All_0;
        let after = conjuncts(children, n, col, dtype)->All_0;
        if !children[i].bloom() {
            let k = before.index_of(children[i].conversion(col, dtype)->Becomes_0);
            assert(after[k] == before[k]);
        }
    } else if !children[i].bloom() {
        let after = conjuncts(children, n, col, dtype)->All_0;
        assert(after[after.len() - 1] == children[i].conversion(col, dtype)->Becomes_0);
    }
}

impl ExprType {
    /// Whether a value compares so with a constant, given the sign of their difference.
    pub open spec fn accepts(self, sign: int) -> bool {
        match self {
            ExprType::Equal => sign == 0,
            ExprType::NotEqual => sign != 0,
            ExprType::LessThan => sign < 0,
            ExprType::GreaterThan => 0 < sign,
            ExprType::LessThanOrEqualTo => !(0 < sign),
            ExprType::GreaterThanOrEqualTo => !(sign < 0),
            ExprType::Other(_) => false,
        }
    }
}

impl TableFilter {
    /// Whether the filter keeps a value. A comparison keeps no NULL, and one with a value that is
    /// not there yet keeps everything.
    pub open spec fn keeps<V>(self, reader: RowReader<V>, value: V) -> bool
        decreases self,
    {
        match self {
            TableFilter::ConstantComparison(constant, operator) => {
                &&& constant.scalar is Some
                &&& !(reader.is_null)(value)
                &&& operator.accepts((reader.sign)(value, constant.scalar->0))
            },
            TableFilter::ConjunctionAnd(children) => 0 <= children@.len() && forall|i: int|
                0 <= i < children@.len() ==> (#[trigger] children@[i]).keeps(reader, value),
            TableFilter::ConjunctionOr(children) => 0 <= children@.len() && exists|i: int|
                0 <= i < children@.len() && (#[trigger] children@[i]).keeps(reader, value),
            TableFilter::IsNull => (reader.is_null)(value),
            TableFilter::IsNotNull => !(reader.is_null)(value),
            TableFilter::StructExtract(name, child) => child.keeps(
                reader,
                (reader.field)(value, name@),
            ),
            TableFilter::Optional(child) => child.keeps(reader, value),
            TableFilter::InFilter(constants) => !(reader.is_null)(value) && exists|k: int|
                0 <= k < constants@.len() && (#[trigger] constants@[k]).scalar is Some && (
                reader.sign)(value, constants@[k].scalar->0) == 0,
            TableFilter::Dynamic(operator, data) => match (reader.current)(data) {
                Some(scalar) => !(reader.is_null)(value) && operator.accepts(
                    (reader.sign)(value, scalar),
                ),
                None => true,
            },
            TableFilter::ExpressionRef(BoundConversion::Converted(function)) => (reader.other)(
                function,
                value,
            ),
            TableFilter::ExpressionRef(_) => true,
            TableFilter::Bloom(identity, _) => (reader.found)(identity, value),
        }
    }

    /// Whether the filter keeps a value for all that the engine needs: optional filters may be left
    /// out, and so may bloom filters, which only rule out some of the rows that do not join.
    pub open spec fn demands<V>(self, reader: RowReader<V>, value: V) -> bool
        decreases self,
    {
        match self {
            TableFilter::ConjunctionAnd(children) => 0 <= children@.len() && forall|i: int|
                0 <= i < children@.len() ==> (#[trigger] children@[i]).demands(reader, value),
            TableFilter::ConjunctionOr(children) => 0 <= children@.len() && exists|i: int|
                0 <= i < children@.len() && (#[trigger] children@[i]).demands(reader, value),
            TableFilter::StructExtract(name, child) => child.demands(
                reader,
                (reader.field)(value, name@),
            ),
            TableFilter::Optional(_) => true,
            TableFilter::Bloom(..) => true,
            _ => self.keeps(reader, value),
        }
    }

    /// The expression of a filter holds of every row whose column the filter keeps, so that no such
    /// row is lost, and of no row whose column does not meet what the engine needs of the filter.
    pub proof fn law_expression_of_filter<V>(
        self,
        reader: RowReader<V>,
        col: ExprTree,
        dtype: Option<ColumnDType>,
        row: V,
    )
        requires
            self.conversion(col, dtype) is Becomes,
        ensures
            self.keeps(reader, reader.value(col, row)) ==> reader.holds(
                self.conversion(col, dtype)->Becomes_0,
                row,
            ),
            reader.holds(self.conversion(col, dtype)->Becomes_0, row) ==> self.demands(
                reader,
                reader.value(col, row),
            ),
        decreases self, 0nat,
    {
        let value = reader.value(col, row);
        let tree = self.conversion(col, dtype)->Becomes_0;
        reveal_with_fuel(RowReader::holds, 2);
        match self {
            TableFilter::ConstantComparison(constant, operator) => {
                let scalar = ExprTree::Call(
                    FnModel::Literal(LiteralModel::Scalar(constant.scalar->0)),
                    seq![],
                );
                assert(seq![col, scalar][0] == col && seq![col, scalar][1] == scalar);
            },
            TableFilter::ConjunctionAnd(children) => {
                lemma_conjuncts_hold(children@, children@.len(), reader, col, dtype, row);
                if let Conjuncts::All(required, optional, bloom) = conjuncts(
                    children@,
                    children@.len(),
                    col,
                    dtype,
                ) {
                    let list = match bloom {
                        Some(bloom) => required.push(bloom),
                        None => required + optional,
                    };
                    reader.law_collected(list, row);
                    if self.keeps(reader, value) {
                        assert forall|i: int| 0 <= i < list.len() implies reader.holds(
                            #[trigger] list[i],
                            row,
                        ) by {
                            if i < required.len() {
                                assert(reader.holds(required[i], row));
                            } else if bloom is None {
                                assert(reader.holds(optional[i - required.len()], row));
                            }
                        }
                    }
                    if reader.holds(tree, row) {
                        assert forall|i: int| 0 <= i < required.len() implies reader.holds(
                            #[trigger] required[i],
                            row,
                        ) by {
                            assert(list[i] == required[i]);
                        }
                    }
                } else {
                    lemma_conjuncts_stop(children@, children@.len(), col, dtype);
                }
            },
            TableFilter::ConjunctionOr(children) => {
                lemma_alternatives_hold(children@, children@.len(), reader, col, dtype, row);
                if let Alternatives::All(list) = alternatives(
                    children@,
                    children@.len(),
                    col,
                    dtype,
                ) {
                    reader.law_collected(list, row);
                } else {
                    lemma_alternatives_stop(children@, children@.len(), col, dtype);
                }
            },
            TableFilter::StructExtract(name, child) => {
                let path = ExprTree::Call(FnModel::GetItem(name@), seq![col]);
                let field = match dtype {
                    Some(dtype) => dtype.field_spec(name@),
                    None => None,
                };
                assert(seq![col][0] == col);
                assert(reader.value(path, row) == (reader.field)(value, name@));
                child.law_expression_of_filter(reader, path, field, row);
            },
            TableFilter::Optional(child) => {
                child.law_expression_of_filter(reader, col, dtype, row);
            },
            TableFilter::InFilter(constants) => {
                lemma_scalars(constants@);
                let scalars = scalars_of(constants@)->0;
                let list = ExprTree::Call(FnModel::Literal(LiteralModel::List(scalars)), seq![]);
                assert(seq![list, col][0] == list && seq![list, col][1] == col);
                if self.keeps(reader, value) {
                    let k = choose|k: int|
                        0 <= k < constants@.len() && (#[trigger] constants@[k]).scalar is Some && (
                        reader.sign)(value, constants@[k].scalar->0) == 0;
                    assert((reader.sign)(value, scalars[k]) == 0);
                }
                if reader.holds(tree, row) {
                    let k = choose|k: int|
                        0 <= k < scalars.len() && (reader.sign)(value, #[trigger] scalars[k]) == 0;
                    assert(constants@[k].scalar == Some(scalars[k]));
                }
            },
            _ => {
                assert(seq![col][0] == col);
            },
        }
    }
}

/// A conjunction that stops does not become an expression.
proof fn lemma_conjuncts_stop(
    children: Seq<TableFilter>,
    n: nat,
    col: ExprTree,
    dtype: Option<ColumnDType>,
)
    ensures
        conjuncts(children, n, col, dtype) matches Conjuncts::Stopped(conversion) ==> !(
        conversion is Becomes),
    decreases n,
{
    if 0 < n <= children.len() {
        lemma_conjuncts_stop(children, (n - 1) as nat, col, dtype);
    }
}

/// A disjunction that stops does not become an expression.
proof fn lemma_alternatives_stop(
    children: Seq<TableFilter>,
    n: nat,
    col: ExprTree,
    dtype: Option<ColumnDType>,
)
    ensures
        alternatives(children, n, col, dtype) matches Alternatives::Stopped(conversion) ==> !(
        conversion is Becomes),
    decreases n,
{
    if 0 < n <= children.len() {
        lemma_alternatives_stop(children, (n - 1) as nat, col, dtype);
    }
}

/// The scalars of constants are theirs, one by one.
proof fn lemma_scalars(constants: Seq<FilterValue>)
    ensures
        scalars_of(constants) matches Some(scalars) ==> {
            &&& scalars.len() == constants.len()
            &&& forall|k: int|
                0 <= k < constants.len() ==> (#[trigger] constants[k]).scalar == Some(scalars[k])
        },
    decreases constants.len(),
{
    if constants.len() > 0 {
        lemma_scalars(constants.drop_last());
        if let Some(scalars) = scalars_of(constants) {
            assert forall|k: int| 0 <= k < constants.len() implies (
            #[trigger] constants[k]).scalar == Some(scalars[k]) by {
                if k < constants.len() - 1 {
                    assert(constants.drop_last()[k] == constants[k]);
                }
            }
        }
    }
}

/// What the first children of a conjunction keep, their expressions hold of; and where those that
/// the engine needs hold, the children demand no more.
proof fn lemma_conjuncts_hold<V>(
    children: Seq<TableFilter>,
    n: nat,
    reader: RowReader<V>,
    col: ExprTree,
    dtype: Option<ColumnDType>,
    row: V,
)
    requires
        n <= children.len(),
    ensures
        conjuncts(children, n, col, dtype) matches Conjuncts::All(required, optional, bloom) ==> {
            let value = reader.value(col, row);
            &&& (forall|i: int| 0 <= i < n ==> (#[trigger] children[i]).keeps(reader, value)) ==> {
                &&& forall|k: int|
                    0 <= k < required.len() ==> reader.holds(#[trigger] required[k], row)
                &&& forall|k: int|
                    0 <= k < optional.len() ==> reader.holds(#[trigger] optional[k], row)
                &&& bloom matches Some(bloom) ==> reader.holds(bloom, row)
            }
            &&& (forall|k: int|
                0 <= k < required.len() ==> reader.holds(#[trigger] required[k], row)) ==> (forall|
                i: int,
            |
                0 <= i < n ==> (#[trigger] children[i]).demands(reader, value))
        },
    decreases children, n,
{
    let value = reader.value(col, row);
    if n > 0 && conjuncts(children, n, col, dtype) is All {
        let before = (n - 1) as nat;
        let child = children[n - 1];
        lemma_conjuncts_hold(children, before, reader, col, dtype, row);
        if child.conversion(col, dtype) is Becomes {
            child.law_expression_of_filter(reader, col, dtype, row);
        }
        lemma_bloom_demands(child, reader, value);
        if let (
            Conjuncts::All(front, front_optional, front_bloom),
            Conjuncts::All(required, optional, bloom),
        ) = (conjuncts(children, before, col, dtype), conjuncts(children, n, col, dtype)) {
            if forall|i: int| 0 <= i < n ==> (#[trigger] children[i]).keeps(reader, value) {
                assert(child.keeps(reader, value));
                assert forall|k: int| 0 <= k < required.len() implies reader.holds(
                    #[trigger] required[k],
                    row,
                ) by {
                    if k < front.len() {
                        assert(reader.holds(front[k], row));
                    }
                }
                assert forall|k: int| 0 <= k < optional.len() implies reader.holds(
                    #[trigger] optional[k],
                    row,
                ) by {
                    if k < front_optional.len() {
                        assert(reader.holds(front_optional[k], row));
                    }
                }
            }
            if forall|k: int| 0 <= k < required.len() ==> reader.holds(#[trigger] required[k], row) {
                assert forall|k: int| 0 <= k < front.len() implies reader.holds(
                    #[trigger] front[k],
                    row,
                ) by {
                    assert(required[k] == front[k]);
                }
                if required.len() > front.len() {
                    assert(reader.holds(required[front.len() as int], row));
                }
                assert forall|i: int| 0 <= i < n implies (#[trigger] children[i]).demands(
                    reader,
                    value,
                ) by {
                    if i == n - 1 {
                        assert(children[i] == child);
                    }
                }
            }
        }
    }
}

/// Nothing is demanded by a bloom filter.
proof fn lemma_bloom_demands<V>(filter: TableFilter, reader: RowReader<V>, value: V)
    ensures
        filter.bloom() || filter.optional() ==> filter.demands(reader, value),
{
}

/// What one of the first children of a disjunction keeps, one of their expressions holds of; and
/// the other way round for what they demand.
proof fn lemma_alternatives_hold<V>(
    children: Seq<TableFilter>,
    n: nat,
    reader: RowReader<V>,
    col: ExprTree,
    dtype: Option<ColumnDType>,
    row: V,
)
    requires
        n <= children.len(),
    ensures
        alternatives(children, n, col, dtype) matches Alternatives::All(list) ==> {
            let value = reader.value(col, row);
            &&& list.len() == n
            &&& (exists|i: int| 0 <= i < n && (#[trigger] children[i]).keeps(reader, value)) ==> (
            exists|k: int| 0 <= k < list.len() && reader.holds(#[trigger] list[k], row))
            &&& (exists|k: int| 0 <= k < list.len() && reader.holds(#[trigger] list[k], row)) ==> (
            exists|i: int| 0 <= i < n && (#[trigger] children[i]).demands(reader, value))
        },
    decreases children, n,
{
    let value = reader.value(col, row);
    if n > 0 && alternatives(children, n, col, dtype) is All {
        let before = (n - 1) as nat;
        let child = children[n - 1];
        lemma_alternatives_hold(children, before, reader, col, dtype, row);
        child.law_expression_of_filter(reader, col, dtype, row);
        if let (Alternatives::All(front), Alternatives::All(list)) = (
            alternatives(children, before, col, dtype),
            alternatives(children, n, col, dtype),
        ) {
            assert(list == front.push(child.conversion(col, dtype)->Becomes_0));
            if exists|i: int| 0 <= i < n && (#[trigger] children[i]).keeps(reader, value) {
                let i = choose|i: int| 0 <= i < n && (#[trigger] children[i]).keeps(reader, value);
                if i < before {
                    let k = choose|k: int|
                        0 <= k < front.len() && reader.holds(#[trigger] front[k], row);
                    assert(reader.holds(list[k], row));
                } else {
                    assert(reader.holds(list[before as int], row));
                }
            }
            if exists|k: int| 0 <= k < list.len() && reader.holds(#[trigger] list[k], row) {
                let k = choose|k: int| 0 <= k < list.len() && reader.holds(#[trigger] list[k], row);
                if k < before {
                    assert(reader.holds(front[k], row));
                    let i = choose|i: int|
                        0 <= i < before && (#[trigger] children[i]).demands(reader, value);
                    assert(children[i].demands(reader, value));
                } else {
                    assert(children[n - 1].demands(reader, value));
                }
            }
        }
    }
}

/// The rows of a file that a filter on their numbers picks out.
pub enum Selection {
    /// All of them.
    All,
    /// These, in strictly increasing order.
    IncludeByIndex(Vec<u64>),
}

/// The rows that a filter picks out, as contracts see them.
#[verifier::ext_equal]
pub enum SelectionModel {
    /// All of them.
    All,
    /// These.
    IncludeByIndex(Seq<u64>),
}

impl View for Selection {
    type V = SelectionModel;

    open spec fn view(&self) -> SelectionModel {
        match self {
            Selection::All => SelectionModel::All,
            Selection::IncludeByIndex(rows) => SelectionModel::IncludeByIndex(rows@),
        }
    }
}

/// A range of row numbers.
#[derive(Clone, Copy, Debug, PartialEq, Eq, Structural)]
pub struct RowRange {
    /// The first row.
    pub start: u64,
    /// The row after the last.
    pub end: u64,
}

/// What becomes of a filter on row numbers.
#[verifier::ext_equal]
pub enum RowConversion {
    /// Reaching an equality with the largest number: there is no range that ends after it.
    Stuck,
    /// The conversion fails.
    Fails(FilterError),
    /// The filter picks out these rows of this range, if there is one.
    Becomes(SelectionModel, Option<RowRange>),
}

impl RowConversion {
    /// Whether a row is picked out: it is listed if rows are, and in the range if there is one.
    pub open spec fn picks(self, row: u64) -> bool {
        match self {
            RowConversion::Becomes(selection, range) => {
                &&& selection matches SelectionModel::IncludeByIndex(rows) ==> rows.contains(row)
                &&& range matches Some(range) ==> range.start <= row < range.end
            },
            _ => false,
        }
    }
}

impl ExtractedValue {
    /// The number, if it is a row number.
    pub open spec fn number(self) -> Result<u64, FilterError> {
        match self {
            ExtractedValue::BigInt(i) => if i < 0 {
                Err(FilterError::NegativeValue)
            } else {
                Ok(i as u64)
            },
            ExtractedValue::Integer(i) => if i < 0 {
                Err(FilterError::NegativeValue)
            } else {
                Ok(i as u64)
            },
            ExtractedValue::UBigInt(u) => Ok(u),
            ExtractedValue::UInteger(u) => Ok(u as u64),
            ExtractedValue::Other => Err(FilterError::UnexpectedValue),
        }
    }
}

/// The row number that a constant holds.
fn nonnegative_number_from_value(value: &FilterValue) -> (number: Result<u64, FilterError>)
    ensures
        number == value.extracted.number(),
{
    match value.extracted {
        ExtractedValue::BigInt(i) => if i < 0 {
            Err(FilterError::NegativeValue)
        } else {
            Ok(i as u64)
        },
        ExtractedValue::Integer(i) => if i < 0 {
            Err(FilterError::NegativeValue)
        } else {
            Ok(i as u64)
        },
        ExtractedValue::UBigInt(u) => Ok(u),
        ExtractedValue::UInteger(u) => Ok(u as u64),
        ExtractedValue::Other => Err(FilterError::UnexpectedValue),
    }
}

/// Whether numbers strictly increase.
pub open spec fn strictly_sorted(rows: Seq<u64>) -> bool {
    forall|i: int, j: int| 0 <= i < j < rows.len() ==> rows[i] < rows[j]
}

/// The numbers of `left` that are in `right` too, in order.
pub open spec fn common(left: Seq<u64>, right: Seq<u64>) -> Seq<u64>
    decreases left.len(),
{
    if left.len() == 0 {
        seq![]
    } else {
        let front = common(left.drop_last(), right);
        if right.contains(left.last()) {
            front.push(left.last())
        } else {
            front
        }
    }
}

/// The common numbers are those that both have, and increase where those of `left` do.
pub proof fn law_common(left: Seq<u64>, right: Seq<u64>)
    ensures
        forall|row: u64| #[trigger]
            common(left, right).contains(row) <==> left.contains(row) && right.contains(row),
        strictly_sorted(left) ==> strictly_sorted(common(left, right)),
    decreases left.len(),
{
    if left.len() > 0 {
        let front = left.drop_last();
        let rest = common(front, right);
        let whole = common(left, right);
        law_common(front, right);
        assert(left =~= front.push(left.last()));
        assert forall|row: u64| #[trigger] whole.contains(row) <==> left.contains(row)
            && right.contains(row) by {
            if whole.contains(row) {
                let k = whole.index_of(row);
                if k < rest.len() {
                    assert(rest[k] == row);
                    assert(rest.contains(row));
                    let m = front.index_of(row);
                    assert(left[m] == row);
                } else {
                    assert(left[left.len() - 1] == row);
                }
            }
            if left.contains(row) && right.contains(row) {
                let m = left.index_of(row);
                if m < front.len() {
                    assert(front[m] == row);
                    assert(front.contains(row));
                    assert(rest.contains(row));
                    let k = rest.index_of(row);
                    assert(whole[k] == row);
                } else {
                    assert(whole[whole.len() - 1] == row);
                }
            }
        }
        if strictly_sorted(left) {
            assert forall|i: int, j: int| 0 <= i < j < whole.len() implies whole[i] < whole[j] by {
                if j == rest.len() {
                    assert(rest[i] == whole[i]);
                    assert(rest.contains(rest[i]));
                    let m = front.index_of(rest[i]);
                    assert(left[m] < left[left.len() - 1]);
                }
            }
        }
    }
}

/// The common numbers of a list none of whose numbers from `n` on is in `right`.
proof fn lemma_common_tail(left: Seq<u64>, right: Seq<u64>, n: int)
    requires
        0 <= n <= left.len(),
        forall|m: int| n <= m < left.len() ==> !right.contains(#[trigger] left[m]),
    ensures
        common(left, right) == common(left.take(n), right),
    decreases left.len(),
{
    if n < left.len() {
        assert(left.drop_last().take(n) =~= left.take(n));
        lemma_common_tail(left.drop_last(), right, n);
    } else {
        assert(left.take(n) =~= left);
    }
}

/// The numbers that two strictly increasing lists share, in order.
fn intersect_sorted(left: &[u64], right: &[u64]) -> (shared: Vec<u64>)
    requires
        strictly_sorted(left@),
        strictly_sorted(right@),
    ensures
        shared@ == common(left@, right@),
        strictly_sorted(shared@),
{
    let mut shared: Vec<u64> = Vec::new();
    let mut i: usize = 0;
    let mut j: usize = 0;
    while i < left.len() && j < right.len()
        invariant
            i <= left@.len(),
            j <= right@.len(),
            strictly_sorted(left@),
            strictly_sorted(right@),
            shared@ == common(left@.take(i as int), right@),
            forall|k: int, m: int| 0 <= k < j && i <= m < left@.len() ==> right@[k] < left@[m],
        decreases left@.len() - i + right@.len() - j,
    {
        let ghost before = left@.take(i as int);
        let ghost after = left@.take(i + 1);
        assert(after.drop_last() =~= before);
        if left[i] == right[j] {
            assert(right@.contains(left@[i as int]));
            shared.push(left[i]);
            i = i + 1;
            j = j + 1;
        } else if left[i] < right[j] {
            assert(!right@.contains(left@[i as int]));
            i = i + 1;
        } else {
            j = j + 1;
        }
    }
    proof {
        lemma_common_tail(left@, right@, i as int);
        law_common(left@, right@);
    }
    shared
}

/// The numbers of a list of constants, or the error of the first that has none.
pub open spec fn numbers_of(values: Seq<FilterValue>) -> Result<Seq<u64>, FilterError>
    decreases values.len(),
{
    if values.len() == 0 {
        Ok(seq![])
    } else {
        match numbers_of(values.drop_last()) {
            Err(error) => Err(error),
            Ok(front) => match values.last().extracted.number() {
                Err(error) => Err(error),
                Ok(number) => Ok(front.push(number)),
            },
        }
    }
}

/// The rows and the range that the filters so far leave.
#[verifier::ext_equal]
pub enum RowConjuncts {
    /// One of the filters stops the conversion.
    Stopped(RowConversion),
    /// The range from the first number to the second, and the rows that are listed, if any are.
    All(u64, u64, Option<Seq<u64>>),
}

/// The larger of two numbers.
pub open spec fn larger(a: u64, b: u64) -> u64 {
    if a < b {
        b
    } else {
        a
    }
}

/// The smaller of two numbers.
pub open spec fn smaller(a: u64, b: u64) -> u64 {
    if b < a {
        b
    } else {
        a
    }
}

impl TableFilter {
    /// What becomes of the filter on row numbers.
    pub open spec fn row_conversion(self) -> RowConversion
        decreases self, 0nat,
    {
        match self {
            TableFilter::InFilter(values) => match numbers_of(values@) {
                Err(error) => RowConversion::Fails(error),
                Ok(rows) => if strictly_sorted(rows) {
                    RowConversion::Becomes(SelectionModel::IncludeByIndex(rows), None)
                } else {
                    RowConversion::Fails(FilterError::Unsorted)
                },
            },
            TableFilter::ConstantComparison(value, operator) => match value.extracted.number() {
                Err(error) => RowConversion::Fails(error),
                Ok(n) => {
                    let next = if n == u64::MAX {
                        n
                    } else {
                        (n + 1) as u64
                    };
                    match operator {
                        ExprType::Equal => if n == u64::MAX {
                            RowConversion::Stuck
                        } else {
                            RowConversion::Becomes(
                                SelectionModel::All,
                                Some(RowRange { start: n, end: next }),
                            )
                        },
                        ExprType::GreaterThanOrEqualTo => RowConversion::Becomes(
                            SelectionModel::All,
                            Some(RowRange { start: n, end: u64::MAX }),
                        ),
                        ExprType::GreaterThan => RowConversion::Becomes(
                            SelectionModel::All,
                            Some(RowRange { start: next, end: u64::MAX }),
                        ),
                        ExprType::LessThanOrEqualTo => RowConversion::Becomes(
                            SelectionModel::All,
                            Some(RowRange { start: 0, end: next }),
                        ),
                        ExprType::LessThan => RowConversion::Becomes(
                            SelectionModel::All,
                            Some(RowRange { start: 0, end: n }),
                        ),
                        _ => RowConversion::Becomes(SelectionModel::All, None),
                    }
                },
            },
            TableFilter::ConjunctionAnd(children) => match row_conjuncts(
                children@,
                children@.len(),
            ) {
                RowConjuncts::Stopped(conversion) => conversion,
                RowConjuncts::All(start, end, rows) => RowConversion::Becomes(
                    match rows {
                        Some(rows) => SelectionModel::IncludeByIndex(rows),
                        None => SelectionModel::All,
                    },
                    if start < end {
                        Some(RowRange { start, end })
                    } else {
                        Some(RowRange { start, end: start })
                    },
                ),
            },
            TableFilter::Optional(child) => match child.row_conversion() {
                RowConversion::Fails(_) => RowConversion::Becomes(SelectionModel::All, None),
                conversion => conversion,
            },
            _ => RowConversion::Becomes(SelectionModel::All, None),
        }
    }
}

/// What the first `n` of a conjunction of filters leave.
pub open spec fn row_conjuncts(children: Seq<TableFilter>, n: nat) -> RowConjuncts
    decreases children, n,
{
    if n == 0 || n > children.len() {
        RowConjuncts::All(0, u64::MAX, None)
    } else {
        match row_conjuncts(children, (n - 1) as nat) {
            RowConjuncts::Stopped(conversion) => RowConjuncts::Stopped(conversion),
            RowConjuncts::All(start, end, rows) => match children[n - 1].row_conversion() {
                RowConversion::Becomes(selection, range) => RowConjuncts::All(
                    match range {
                        Some(range) => larger(start, range.start),
                        None => start,
                    },
                    match range {
                        Some(range) => smaller(end, range.end),
                        None => end,
                    },
                    match (selection, rows) {
                        (SelectionModel::All, rows) => rows,
                        (SelectionModel::IncludeByIndex(listed), None) => Some(listed),
                        (SelectionModel::IncludeByIndex(listed), Some(rows)) => Some(
                            common(rows, listed),
                        ),
                    },
                ),
                conversion => RowConjuncts::Stopped(conversion),
            },
        }
    }
}

/// A filter that stops a conjunction stops it whatever follows.
proof fn lemma_row_conjuncts_stopped(children: Seq<TableFilter>, n: nat, m: nat)
    requires
        n <= m <= children.len(),
        row_conjuncts(children, n) is Stopped,
    ensures
        row_conjuncts(children, m) == row_conjuncts(children, n),
    decreases m,
{
    if n < m {
        lemma_row_conjuncts_stopped(children, n, (m - 1) as nat);
    }
}

/// A constant without a row number decides for the whole list.
proof fn lemma_numbers_stopped(values: Seq<FilterValue>, n: int)
    requires
        0 <= n <= values.len(),
        numbers_of(values.take(n)) is Err,
    ensures
        numbers_of(values) == numbers_of(values.take(n)),
    decreases values.len(),
{
    if n < values.len() {
        assert(values.drop_last().take(n) =~= values.take(n));
        lemma_numbers_stopped(values.drop_last(), n);
    } else {
        assert(values.take(n) =~= values);
    }
}

/// The row numbers of the constants of a filter.
fn numbers(values: &Vec<FilterValue>) -> (result: Result<Vec<u64>, FilterError>)
    ensures
        match result {
            Ok(rows) => numbers_of(values@) == Ok::<Seq<u64>, FilterError>(rows@),
            Err(error) => numbers_of(values@) == Err::<Seq<u64>, FilterError>(error),
        },
{
    let mut rows: Vec<u64> = Vec::new();
    let mut i: usize = 0;
    while i < values.len()
        invariant
            i <= values@.len(),
            numbers_of(values@.take(i as int)) == Ok::<Seq<u64>, FilterError>(rows@),
        decreases values@.len() - i,
    {
        assert(values@.take(i + 1).drop_last() =~= values@.take(i as int));
        match nonnegative_number_from_value(&values[i]) {
            Ok(number) => rows.push(number),
            Err(error) => {
                proof {
                    lemma_numbers_stopped(values@, i + 1);
                }
                return Err(error);
            },
        }
        i = i + 1;
    }
    assert(values@.take(i as int) =~= values@);
    Ok(rows)
}

/// Whether row numbers strictly increase.
pub fn is_strictly_sorted(rows: &Vec<u64>) -> (sorted: bool)
    ensures
        sorted == strictly_sorted(rows@),
{
    let mut i: usize = 1;
    while i < rows.len()
        invariant
            1 <= i,
            i <= rows@.len() || rows@.len() == 0,
            forall|a: int, b: int| 0 <= a < b < i && b < rows@.len() ==> rows@[a] < rows@[b],
        decreases rows@.len() - i,
    {
        if rows[i - 1] >= rows[i] {
            assert(rows@[i - 1] >= rows@[i as int]);
            return false;
        }
        i = i + 1;
    }
    true
}

/// The rows that a filter on the numbers of files or rows picks out: a list of them, a range that
/// they are in, or both. Of a filter made of lists and bounds they cover what it covers (see
/// [`TableFilter::law_selected_rows_are_admitted`]).
pub fn try_from_virtual_column_filter(filter: &TableFilter) -> (result: Result<
    (Selection, Option<RowRange>),
    FilterError,
>)
    requires
        !(filter.row_conversion() is Stuck),
    ensures
        match result {
            Ok((selection, range)) => {
                &&& filter.row_conversion() == RowConversion::Becomes(selection@, range)
                &&& selection@ matches SelectionModel::IncludeByIndex(rows) ==> strictly_sorted(rows)
            },
            Err(error) => filter.row_conversion() == RowConversion::Fails(error),
        },
    decreases filter,
{
    match filter {
        TableFilter::InFilter(values) => match numbers(values) {
            Ok(rows) => if is_strictly_sorted(&rows) {
                Ok((Selection::IncludeByIndex(rows), None))
            } else {
                Err(FilterError::Unsorted)
            },
            Err(error) => Err(error),
        },
        TableFilter::ConstantComparison(value, operator) => {
            let n: u64 = match nonnegative_number_from_value(value) {
                Ok(n) => n,
                Err(error) => return Err(error),
            };
            let range: Option<RowRange> = match operator {
                ExprType::Equal => Some(RowRange { start: n, end: n + 1 }),
                ExprType::GreaterThanOrEqualTo => Some(RowRange { start: n, end: u64::MAX }),
                ExprType::GreaterThan => Some(
                    RowRange { start: n.saturating_add(1), end: u64::MAX },
                ),
                ExprType::LessThanOrEqualTo => Some(RowRange { start: 0, end: n.saturating_add(1) }),
                ExprType::LessThan => Some(RowRange { start: 0, end: n }),
                _ => None,
            };
            Ok((Selection::All, range))
        },
        TableFilter::ConjunctionAnd(children) => {
            let mut start: u64 = 0;
            let mut end: u64 = u64::MAX;
            let mut rows: Option<Vec<u64>> = None;
            let mut i: usize = 0;
            while i < children.len()
                invariant
                    i <= children@.len(),
                    filter == TableFilter::ConjunctionAnd(*children),
                    !(filter.row_conversion() is Stuck),
                    row_conjuncts(children@, i as nat) == RowConjuncts::All(
                        start,
                        end,
                        match rows {
                            Some(rows) => Some(rows@),
                            None => None,
                        },
                    ),
                    rows matches Some(rows) ==> strictly_sorted(rows@),
                decreases children@.len() - i,
            {
                proof {
                    if row_conjuncts(children@, (i + 1) as nat) is Stopped {
                        lemma_row_conjuncts_stopped(children@, (i + 1) as nat, children@.len());
                    }
                }
                match try_from_virtual_column_filter(&children[i]) {
                    Ok((selection, range)) => {
                        if let Selection::IncludeByIndex(listed) = selection {
                            rows = match rows {
                                None => Some(listed),
                                Some(existing) => Some(
                                    intersect_sorted(existing.as_slice(), listed.as_slice()),
                                ),
                            };
                        }
                        if let Some(range) = range {
                            if start < range.start {
                                start = range.start;
                            }
                            if range.end < end {
                                end = range.end;
                            }
                        }
                    },
                    Err(error) => return Err(error),
                }
                i = i + 1;
            }
            // Bounds that contradict each other leave no row.
            let range: Option<RowRange> = if start < end {
                Some(RowRange { start, end })
            } else {
                Some(RowRange { start, end: start })
            };
            match rows {
                Some(rows) => Ok((Selection::IncludeByIndex(rows), range)),
                None => Ok((Selection::All, range)),
            }
        },
        TableFilter::Optional(child) => match try_from_virtual_column_filter(child) {
            Ok(converted) => Ok(converted),
            Err(_) => Ok((Selection::All, None)),
        },
        _ => Ok((Selection::All, None)),
    }
}

impl TableFilter {
    /// Whether the filter admits the row with a given number. Filters that say nothing about row
    /// numbers admit every row.
    pub open spec fn admits(self, row: u64) -> bool
        decreases self,
    {
        match self {
            TableFilter::InFilter(values) => exists|i: int|
                0 <= i < values@.len() && (#[trigger] values@[i]).extracted.number() == Ok::<
                    u64,
                    FilterError,
                >(row),
            TableFilter::ConstantComparison(value, operator) => match value.extracted.number() {
                Ok(n) => match operator {
                    ExprType::Equal => row == n,
                    ExprType::NotEqual => row != n,
                    ExprType::LessThan => row < n,
                    ExprType::GreaterThan => row > n,
                    ExprType::LessThanOrEqualTo => row <= n,
                    ExprType::GreaterThanOrEqualTo => row >= n,
                    ExprType::Other(_) => true,
                },
                Err(_) => true,
            },
            TableFilter::ConjunctionAnd(children) => 0 <= children@.len() && forall|i: int|
                0 <= i < children@.len() ==> (#[trigger] children@[i]).admits(row),
            TableFilter::Optional(child) => child.admits(row),
            _ => true,
        }
    }

    /// Whether the filter is made of lists of row numbers and of bounds on them alone.
    pub open spec fn bounds_rows(self) -> bool
        decreases self,
    {
        match self {
            TableFilter::InFilter(_) => true,
            TableFilter::ConstantComparison(_, operator) => match operator {
                ExprType::Equal | ExprType::LessThan | ExprType::GreaterThan
                | ExprType::LessThanOrEqualTo | ExprType::GreaterThanOrEqualTo => true,
                ExprType::NotEqual | ExprType::Other(_) => false,
            },
            TableFilter::ConjunctionAnd(children) => 0 <= children@.len() && forall|i: int|
                0 <= i < children@.len() ==> (#[trigger] children@[i]).bounds_rows(),
            _ => false,
        }
    }

    /// A filter made of lists and bounds picks out exactly the rows that it admits. The ranges end
    /// before the largest number. Bounds that contradict each other pick out no row.
    pub proof fn law_selected_rows_are_admitted(self, row: u64)
        requires
            row < u64::MAX,
            self.bounds_rows(),
            self.row_conversion() is Becomes,
        ensures
            self.row_conversion().picks(row) <==> self.admits(row),
        decreases self, 0nat,
    {
        if self.admits(row) {
            self.law_admitted_rows_are_selected(row);
        }
        match self {
            TableFilter::InFilter(values) => {
                assert(self == TableFilter::InFilter(values));
                assert(numbers_of(values@) is Ok);
                if self.row_conversion().picks(row) {
                    lemma_listed_number(values@, row);
                }
            },
            TableFilter::ConjunctionAnd(children) => {
                if row_conjuncts(children@, children@.len()) is Stopped {
                    lemma_stopped_is_final(children@, children@.len());
                }
                if self.row_conversion().picks(row) {
                    lemma_picked_by_all(children@, children@.len(), row);
                }
            },
            _ => {},
        }
    }

    /// A conversion never drops a row that the filter admits: such a row is listed if rows are,
    /// and in the range if there is one. The ranges end before the largest number.
    pub proof fn law_admitted_rows_are_selected(self, row: u64)
        requires
            row < u64::MAX,
            self.admits(row),
            self.row_conversion() is Becomes,
        ensures
            self.row_conversion().picks(row),
        decreases self, 0nat,
    {
        match self {
            TableFilter::InFilter(values) => {
                let i = choose|i: int|
                    0 <= i < values@.len() && (#[trigger] values@[i]).extracted.number() == Ok::<
                        u64,
                        FilterError,
                    >(row);
                assert(self == TableFilter::InFilter(values));
                assert(numbers_of(values@) is Ok);
                lemma_number_listed(values@, i);
            },
            TableFilter::ConjunctionAnd(children) => {
                if row_conjuncts(children@, children@.len()) is Stopped {
                    lemma_stopped_is_final(children@, children@.len());
                }
                lemma_admitted_by_all(children@, children@.len(), row);
            },
            TableFilter::Optional(child) => {
                if child.row_conversion() is Becomes {
                    child.law_admitted_rows_are_selected(row);
                }
            },
            _ => {},
        }
    }
}

/// The numbers of a list hold that of each constant.
proof fn lemma_number_listed(values: Seq<FilterValue>, i: int)
    requires
        numbers_of(values) is Ok,
        0 <= i < values.len(),
    ensures
        values[i].extracted.number() is Ok,
        numbers_of(values)->Ok_0.contains(values[i].extracted.number()->Ok_0),
    decreases values.len(),
{
    let rows = numbers_of(values)->Ok_0;
    if i < values.len() - 1 {
        lemma_number_listed(values.drop_last(), i);
        let front = numbers_of(values.drop_last())->Ok_0;
        let k = front.index_of(values[i].extracted.number()->Ok_0);
        assert(rows[k] == front[k]);
    } else {
        assert(rows[rows.len() - 1] == values[i].extracted.number()->Ok_0);
    }
}

/// A number of a list is that of one of the constants.
proof fn lemma_listed_number(values: Seq<FilterValue>, row: u64)
    requires
        numbers_of(values) is Ok,
        numbers_of(values)->Ok_0.contains(row),
    ensures
        exists|i: int|
            0 <= i < values.len() && (#[trigger] values[i]).extracted.number() == Ok::<
                u64,
                FilterError,
            >(row),
    decreases values.len(),
{
    if values.len() > 0 {
        let front = numbers_of(values.drop_last())->Ok_0;
        let k = numbers_of(values)->Ok_0.index_of(row);
        if k < front.len() {
            assert(front[k] == row);
            lemma_listed_number(values.drop_last(), row);
            let i = choose|i: int|
                0 <= i < values.len() - 1 && (#[trigger] values.drop_last()[i]).extracted.number()
                    == Ok::<u64, FilterError>(row);
            assert(values[i] == values.drop_last()[i]);
        } else {
            assert(values[values.len() - 1].extracted.number() == Ok::<u64, FilterError>(row));
        }
    }
}

/// What stops a conjunction is not a conversion.
proof fn lemma_stopped_is_final(children: Seq<TableFilter>, n: nat)
    requires
        row_conjuncts(children, n) is Stopped,
    ensures
        !(row_conjuncts(children, n)->Stopped_0 is Becomes),
    decreases n,
{
    if 0 < n <= children.len() && row_conjuncts(children, (n - 1) as nat) is Stopped {
        lemma_stopped_is_final(children, (n - 1) as nat);
    }
}

proof fn lemma_admitted_by_all(children: Seq<TableFilter>, n: nat, row: u64)
    requires
        row < u64::MAX,
        n <= children.len(),
        forall|i: int| 0 <= i < n ==> (#[trigger] children[i]).admits(row),
        row_conjuncts(children, n) is All,
    ensures
        row_conjuncts(children, n)->All_0 <= row < row_conjuncts(children, n)->All_1,
        row_conjuncts(children, n)->All_2 matches Some(rows) ==> rows.contains(row),
    decreases children, n,
{
    if n > 0 {
        lemma_admitted_by_all(children, (n - 1) as nat, row);
        children[n - 1].law_admitted_rows_are_selected(row);
        if let (Some(rows), SelectionModel::IncludeByIndex(listed)) = (
            row_conjuncts(children, (n - 1) as nat)->All_2,
            children[n - 1].row_conversion()->Becomes_0,
        ) {
            law_common(rows, listed);
            assert(common(rows, listed).contains(row));
        }
    }
}

/// A row that a conjunction of lists and bounds leaves is one that each of them admits.
proof fn lemma_picked_by_all(children: Seq<TableFilter>, n: nat, row: u64)
    requires
        row < u64::MAX,
        n <= children.len(),
        forall|i: int| 0 <= i < n ==> (#[trigger] children[i]).bounds_rows(),
        row_conjuncts(children, n) is All,
        row_conjuncts(children, n)->All_0 <= row < row_conjuncts(children, n)->All_1,
        row_conjuncts(children, n)->All_2 matches Some(rows) ==> rows.contains(row),
    ensures
        forall|i: int| 0 <= i < n ==> (#[trigger] children[i]).admits(row),
    decreases children, n,
{
    if n > 0 {
        if let (Some(rows), SelectionModel::IncludeByIndex(listed)) = (
            row_conjuncts(children, (n - 1) as nat)->All_2,
            children[n - 1].row_conversion()->Becomes_0,
        ) {
            law_common(rows, listed);
            assert(common(rows, listed).contains(row));
        }
        assert(children[n - 1].row_conversion().picks(row));
        children[n - 1].law_selected_rows_are_admitted(row);
        lemma_picked_by_all(children, (n - 1) as nat, row);
    }
}

impl ColumnDType {
    /// A field is found where its name stands first.
    pub proof fn law_find(fields: Seq<(String, ColumnDType)>, name: Seq<char>, n: int)
        requires
            0 <= n,
        ensures
            match Self::find(fields, name, n) {
                Some(i) => {
                    &&& n <= i < fields.len()
                    &&& fields[i].0@ == name
                    &&& forall|j: int| n <= j < i ==> (#[trigger] fields[j]).0@ != name
                },
                None => forall|j: int| n <= j < fields.len() ==> (#[trigger] fields[j]).0@ != name,
            },
        decreases fields.len() - n,
    {
        if n < fields.len() && fields[n].0@ != name {
            Self::law_find(fields, name, n + 1);
        }
    }
}

impl TableFilter {
    /// Whether every part of the filter has an expression over a column of type `dtype`: constants
    /// are scalars, comparisons are known, lists are not empty, and the column has a type where it
    /// is needed, for a bloom filter that of its keys.
    pub open spec fn expressible(self, dtype: Option<ColumnDType>) -> bool
        decreases self,
    {
        match self {
            TableFilter::ConstantComparison(constant, operator) => constant.scalar is Some && !(
            operator is Other),
            TableFilter::ConjunctionAnd(children) => 0 <= children@.len() && forall|i: int|
                0 <= i < children@.len() ==> (#[trigger] children@[i]).expressible(dtype),
            TableFilter::ConjunctionOr(children) => 0 <= children@.len() && forall|i: int|
                0 <= i < children@.len() ==> (#[trigger] children@[i]).expressible(dtype),
            TableFilter::IsNull | TableFilter::IsNotNull => true,
            TableFilter::StructExtract(name, child) => child.expressible(
                match dtype {
                    Some(dtype) => dtype.field_spec(name@),
                    None => None,
                },
            ),
            TableFilter::Optional(child) => child.expressible(dtype),
            TableFilter::InFilter(constants) => 0 < constants@.len() && forall|k: int|
                0 <= k < constants@.len() ==> (#[trigger] constants@[k]).scalar is Some,
            TableFilter::Dynamic(operator, _) => !(operator is Other) && dtype is Some,
            TableFilter::ExpressionRef(conversion) => conversion is Converted,
            TableFilter::Bloom(_, key_type) => match dtype {
                Some(ColumnDType::Key(key, column_type)) => {
                    &&& column_type == Some(key_type)
                    &&& key.key_kind_spec() is Some
                    &&& key.key_kind_spec() == key_type.key_kind_spec()
                },
                _ => false,
            },
        }
    }

    /// A filter of which every part has an expression becomes one.
    pub proof fn law_expressible_filters_convert(
        self,
        col: ExprTree,
        dtype: Option<ColumnDType>,
    )
        requires
            self.expressible(dtype),
        ensures
            self.conversion(col, dtype) is Becomes,
        decreases self, 0nat,
    {
        match self {
            TableFilter::ConjunctionAnd(children) => {
                lemma_expressible_conjuncts(children@, children@.len(), col, dtype);
            },
            TableFilter::ConjunctionOr(children) => {
                lemma_expressible_alternatives(children@, children@.len(), col, dtype);
            },
            TableFilter::StructExtract(name, child) => {
                let field = match dtype {
                    Some(dtype) => dtype.field_spec(name@),
                    None => None,
                };
                child.law_expressible_filters_convert(
                    ExprTree::Call(FnModel::GetItem(name@), seq![col]),
                    field,
                );
            },
            TableFilter::Optional(child) => {
                child.law_expressible_filters_convert(col, dtype);
            },
            TableFilter::InFilter(constants) => {
                lemma_all_scalars(constants@);
                lemma_scalars(constants@);
            },
            _ => {},
        }
    }
}

/// Constants that all are scalars have a list of them.
proof fn lemma_all_scalars(constants: Seq<FilterValue>)
    requires
        forall|k: int| 0 <= k < constants.len() ==> (#[trigger] constants[k]).scalar is Some,
    ensures
        scalars_of(constants) is Some,
    decreases constants.len(),
{
    if constants.len() > 0 {
        let front = constants.drop_last();
        assert forall|k: int| 0 <= k < front.len() implies (#[trigger] front[k]).scalar is Some by {
            assert(front[k] == constants[k]);
        }
        lemma_all_scalars(front);
        assert(constants[constants.len() - 1].scalar is Some);
    }
}

proof fn lemma_expressible_conjuncts(
    children: Seq<TableFilter>,
    n: nat,
    col: ExprTree,
    dtype: Option<ColumnDType>,
)
    requires
        n <= children.len(),
        forall|i: int| 0 <= i < children.len() ==> (#[trigger] children[i]).expressible(dtype),
    ensures
        conjuncts(children, n, col, dtype) is All,
    decreases children, n,
{
    if n > 0 {
        lemma_expressible_conjuncts(children, (n - 1) as nat, col, dtype);
        children[n - 1].law_expressible_filters_convert(col, dtype);
    }
}

proof fn lemma_expressible_alternatives(
    children: Seq<TableFilter>,
    n: nat,
    col: ExprTree,
    dtype: Option<ColumnDType>,
)
    requires
        n <= children.len(),
        forall|i: int| 0 <= i < children.len() ==> (#[trigger] children[i]).expressible(dtype),
    ensures
        alternatives(children, n, col, dtype) is All,
    decreases children, n,
{
    if n > 0 {
        lemma_expressible_alternatives(children, (n - 1) as nat, col, dtype);
        children[n - 1].law_expressible_filters_convert(col, dtype);
    }
}

/// A constant is a row number exactly if it holds an integer that is not negative, and then that one.
pub proof fn law_row_number(value: ExtractedValue, n: u64)
    ensures
        value.number() == Ok::<u64, FilterError>(n) <==> (match value {
            ExtractedValue::BigInt(i) => i == n,
            ExtractedValue::Integer(i) => i == n,
            ExtractedValue::UBigInt(i) => i == n,
            ExtractedValue::UInteger(i) => i == n,
            ExtractedValue::Other => false,
        }),
{
}

impl TableFilter {
    /// Whether the filter is made of strictly increasing lists of row numbers, and of bounds by row
    /// numbers, below the largest one where rows are equal to it.
    pub open spec fn names_rows(self) -> bool
        decreases self,
    {
        match self {
            TableFilter::InFilter(values) => {
                &&& forall|i: int|
                    0 <= i < values@.len() ==> (#[trigger] values@[i]).extracted.number() is Ok
                &&& forall|i: int, j: int|
                    0 <= i < j < values@.len() ==> (#[trigger] values@[i]).extracted.number()->Ok_0
                        < (#[trigger] values@[j]).extracted.number()->Ok_0
            },
            TableFilter::ConstantComparison(value, operator) => {
                &&& value.extracted.number() is Ok
                &&& operator == ExprType::Equal ==> value.extracted.number()->Ok_0 < u64::MAX
            },
            TableFilter::ConjunctionAnd(children) => 0 <= children@.len() && forall|i: int|
                0 <= i < children@.len() ==> (#[trigger] children@[i]).names_rows(),
            _ => false,
        }
    }

    /// A filter made of row numbers picks out rows.
    pub proof fn law_row_filters_convert(self)
        requires
            self.names_rows(),
        ensures
            self.row_conversion() is Becomes,
        decreases self, 0nat,
    {
        match self {
            TableFilter::InFilter(values) => {
                lemma_all_numbers(values@);
                let rows = numbers_of(values@)->Ok_0;
                assert forall|i: int, j: int| 0 <= i < j < rows.len() implies #[trigger] rows[i]
                    < #[trigger] rows[j] by {
                    assert(values@[i].extracted.number()->Ok_0
                        < values@[j].extracted.number()->Ok_0);
                }
            },
            TableFilter::ConjunctionAnd(children) => {
                lemma_row_filters_left(children@, children@.len());
            },
            _ => {},
        }
    }
}

/// Constants that all are row numbers have a list of them.
proof fn lemma_all_numbers(values: Seq<FilterValue>)
    requires
        forall|i: int|
            0 <= i < values.len() ==> (#[trigger] values[i]).extracted.number() is Ok,
    ensures
        numbers_of(values) is Ok,
        numbers_of(values)->Ok_0.len() == values.len(),
        forall|i: int|
            0 <= i < values.len() ==> (#[trigger] values[i]).extracted.number() == Ok::<
                u64,
                FilterError,
            >(numbers_of(values)->Ok_0[i]),
    decreases values.len(),
{
    if values.len() > 0 {
        let front = values.drop_last();
        assert forall|i: int| 0 <= i < front.len() implies (
        #[trigger] front[i]).extracted.number() is Ok by {
            assert(front[i] == values[i]);
        }
        lemma_all_numbers(front);
        assert(values[values.len() - 1].extracted.number() is Ok);
        assert forall|i: int| 0 <= i < values.len() implies (
        #[trigger] values[i]).extracted.number() == Ok::<u64, FilterError>(
            numbers_of(values)->Ok_0[i],
        ) by {
            if i < front.len() {
                assert(front[i] == values[i]);
            }
        }
    }
}

proof fn lemma_row_filters_left(children: Seq<TableFilter>, n: nat)
    requires
        n <= children.len(),
        forall|i: int| 0 <= i < children.len() ==> (#[trigger] children[i]).names_rows(),
    ensures
        row_conjuncts(children, n) is All,
    decreases children, n,
{
    if n > 0 {
        lemma_row_filters_left(children, (n - 1) as nat);
        children[n - 1].law_row_filters_convert();
    }
}

} // verus!
