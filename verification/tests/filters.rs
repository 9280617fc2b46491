use vortex_verus::abi::PType;
use vortex_verus::bloom::filter::BloomFilterProbe;
use vortex_verus::bloom::filter::DuckDbType;
use vortex_verus::bloom::filter::KeyDType;
use vortex_verus::bloom::filter::KeyKind;
use vortex_verus::executor::plans::pruning_conjuncts;
use vortex_verus::executor::plans::PlanCache;
use vortex_verus::executor::plans::PlanLookup;
use vortex_verus::executor::scan::ConjunctMode;
use vortex_verus::expr::static_conjuncts;
use vortex_verus::expr::unbind;
use vortex_verus::expr::BoundExpression;
use vortex_verus::expr::CompareOperator;
use vortex_verus::expr::ExprError;
use vortex_verus::expr::Expression;
use vortex_verus::expr::Literal;
use vortex_verus::expr::ScalarFn;
use vortex_verus::table_filter::try_from_table_filter;
use vortex_verus::table_filter::try_from_virtual_column_filter;
use vortex_verus::table_filter::BoundConversion;
use vortex_verus::table_filter::ColumnDType;
use vortex_verus::table_filter::ExprType;
use vortex_verus::table_filter::ExtractedValue;
use vortex_verus::table_filter::FilterError;
use vortex_verus::table_filter::FilterValue;
use vortex_verus::table_filter::RowRange;
use vortex_verus::table_filter::Selection;
use vortex_verus::table_filter::TableFilter;
use vortex_verus::table_init_input::TableInitInput;
use vortex_verus::table_init_input::ThreadCountError;

fn col() -> Expression {
    Expression::unary(ScalarFn::GetItem("a".to_string()), Expression::Root)
}

fn scalar(id: u64) -> Expression {
    Expression::leaf(ScalarFn::Literal(Literal::Scalar(id)))
}

fn lit(value: bool) -> Expression {
    Expression::leaf(ScalarFn::Literal(Literal::Bool(value)))
}

fn compare(operator: CompareOperator, id: u64) -> Expression {
    Expression::binary(ScalarFn::Compare(operator), col(), scalar(id))
}

fn value(id: u64) -> FilterValue {
    FilterValue {
        scalar: Some(id),
        extracted: ExtractedValue::UBigInt(id),
    }
}

fn bad_value() -> FilterValue {
    FilterValue {
        scalar: None,
        extracted: ExtractedValue::Other,
    }
}

fn comparison(operator: ExprType, id: u64) -> TableFilter {
    TableFilter::ConstantComparison(value(id), operator)
}

fn i64_column() -> ColumnDType {
    ColumnDType::Key(KeyDType::Primitive(PType::I64), Some(DuckDbType::BigInt))
}

fn convert(filter: &TableFilter) -> Result<Option<Expression>, FilterError> {
    try_from_table_filter(filter, &col(), Some(&i64_column()))
}

fn becomes(filter: &TableFilter, expected: &Expression) {
    match convert(filter) {
        Ok(Some(expression)) => assert!(expression.same(expected)),
        _ => panic!("the filter has an expression"),
    }
}

fn bloom() -> TableFilter {
    TableFilter::Bloom(7, DuckDbType::BigInt)
}

fn bloom_expression() -> Expression {
    Expression::unary(
        ScalarFn::Bloom(BloomFilterProbe {
            identity: 7,
            keys: KeyKind::Primitive(PType::I64),
            rows_passed: 0,
            rows_probed: 0,
            paused: false,
        }),
        col(),
    )
}

#[test]
fn a_pushed_bloom_filter_starts_afresh() {
    match convert(&bloom()) {
        Ok(Some(Expression::Call(ScalarFn::Bloom(probe), _))) => {
            assert_eq!(probe.identity, 7);
            assert_eq!(probe.keys, KeyKind::Primitive(PType::I64));
            assert_eq!((probe.rows_passed, probe.rows_probed), (0, 0));
            assert!(!probe.paused);
        }
        _ => panic!("the filter has a probe"),
    }
}

fn optional(filter: TableFilter) -> TableFilter {
    TableFilter::Optional(Box::new(filter))
}

#[test]
fn comparisons_become_comparisons() {
    for (operator, expected) in [
        (ExprType::Equal, CompareOperator::Eq),
        (ExprType::NotEqual, CompareOperator::NotEq),
        (ExprType::LessThan, CompareOperator::Lt),
        (ExprType::GreaterThan, CompareOperator::Gt),
        (ExprType::LessThanOrEqualTo, CompareOperator::Lte),
        (ExprType::GreaterThanOrEqualTo, CompareOperator::Gte),
    ] {
        becomes(&comparison(operator, 3), &compare(expected, 3));
    }
    assert!(matches!(
        convert(&comparison(ExprType::Other(25), 3)),
        Err(FilterError::Operator)
    ));
    assert!(matches!(
        convert(&TableFilter::ConstantComparison(bad_value(), ExprType::Equal)),
        Err(FilterError::Value)
    ));
}

#[test]
fn null_tests_and_fields() {
    becomes(
        &TableFilter::IsNull,
        &Expression::unary(ScalarFn::IsNull, col()),
    );
    becomes(
        &TableFilter::IsNotNull,
        &Expression::unary(ScalarFn::IsNotNull, col()),
    );
    let field = Expression::unary(ScalarFn::GetItem("b".to_string()), col());
    becomes(
        &TableFilter::StructExtract("b".to_string(), Box::new(TableFilter::IsNull)),
        &Expression::unary(ScalarFn::IsNull, field),
    );
}

#[test]
fn in_filters_become_lists() {
    becomes(
        &TableFilter::InFilter(vec![value(1), value(2)]),
        &Expression::binary(
            ScalarFn::ListContains,
            Expression::leaf(ScalarFn::Literal(Literal::List(vec![1, 2]))),
            col(),
        ),
    );
    assert!(matches!(
        convert(&TableFilter::InFilter(vec![value(1), bad_value()])),
        Err(FilterError::Value)
    ));
}

#[test]
fn disjunctions_need_all_their_children() {
    becomes(&TableFilter::ConjunctionOr(vec![]), &lit(false));
    becomes(
        &TableFilter::ConjunctionOr(vec![comparison(ExprType::Equal, 1)]),
        &compare(CompareOperator::Eq, 1),
    );
    becomes(
        &TableFilter::ConjunctionOr(vec![
            comparison(ExprType::Equal, 1),
            comparison(ExprType::LessThan, 2),
        ]),
        &Expression::Call(
            ScalarFn::Or,
            vec![
                compare(CompareOperator::Eq, 1),
                compare(CompareOperator::Lt, 2),
            ],
        ),
    );
    let declined = TableFilter::ExpressionRef(BoundConversion::Unsupported);
    assert!(matches!(
        convert(&TableFilter::ConjunctionOr(vec![
            declined,
            TableFilter::ExpressionRef(BoundConversion::Failed),
        ])),
        Ok(None)
    ));
    assert!(matches!(
        convert(&TableFilter::ConjunctionOr(vec![
            TableFilter::ExpressionRef(BoundConversion::Failed),
            TableFilter::IsNull,
        ])),
        Err(FilterError::Expression)
    ));
}

#[test]
fn optional_filters_never_fail() {
    assert!(matches!(
        convert(&optional(TableFilter::ExpressionRef(
            BoundConversion::Failed
        ))),
        Ok(None)
    ));
    becomes(
        &optional(TableFilter::IsNull),
        &Expression::unary(ScalarFn::IsNull, col()),
    );
}

#[test]
fn a_bloom_filter_replaces_optional_ranges() {
    let filter = TableFilter::ConjunctionAnd(vec![
        comparison(ExprType::NotEqual, 5),
        optional(comparison(ExprType::GreaterThan, 1)),
        optional(bloom()),
        optional(comparison(ExprType::LessThan, 9)),
    ]);
    becomes(
        &filter,
        &Expression::Call(
            ScalarFn::And,
            vec![compare(CompareOperator::NotEq, 5), bloom_expression()],
        ),
    );
    let without = TableFilter::ConjunctionAnd(vec![
        optional(comparison(ExprType::GreaterThan, 1)),
        comparison(ExprType::NotEqual, 5),
    ]);
    becomes(
        &without,
        &Expression::Call(
            ScalarFn::And,
            vec![
                compare(CompareOperator::NotEq, 5),
                compare(CompareOperator::Gt, 1),
            ],
        ),
    );
}

#[test]
fn a_required_conjunct_without_expression_declines_the_conjunction() {
    becomes(&TableFilter::ConjunctionAnd(vec![]), &lit(true));
    let declined = || TableFilter::ExpressionRef(BoundConversion::Unsupported);
    assert!(matches!(
        convert(&TableFilter::ConjunctionAnd(vec![
            TableFilter::IsNull,
            declined()
        ])),
        Ok(None)
    ));
    becomes(
        &TableFilter::ConjunctionAnd(vec![TableFilter::IsNull, optional(declined())]),
        &Expression::unary(ScalarFn::IsNull, col()),
    );
}

#[test]
fn dynamic_filters_pass_rows_while_there_is_no_value() {
    becomes(
        &TableFilter::Dynamic(ExprType::LessThan, 4),
        &Expression::unary(
            ScalarFn::Dynamic {
                operator: CompareOperator::Lt,
                data: 4,
                default: true,
            },
            col(),
        ),
    );
    assert!(matches!(
        try_from_table_filter(&TableFilter::Dynamic(ExprType::LessThan, 4), &col(), None),
        Err(FilterError::ColumnType)
    ));
    assert!(matches!(
        convert(&TableFilter::Dynamic(ExprType::Other(0), 4)),
        Err(FilterError::Operator)
    ));
}

#[test]
fn bloom_filters_over_other_columns_are_declined() {
    becomes(&bloom(), &bloom_expression());
    let i32_column = ColumnDType::Key(KeyDType::Primitive(PType::I32), Some(DuckDbType::Integer));
    assert!(matches!(
        try_from_table_filter(&bloom(), &col(), Some(&i32_column)),
        Ok(None)
    ));
    assert!(matches!(
        try_from_table_filter(&bloom(), &col(), None),
        Err(FilterError::ColumnType)
    ));
    let nested = ColumnDType::Struct(vec![("k".to_string(), i64_column())]);
    let extract = TableFilter::StructExtract("k".to_string(), Box::new(bloom()));
    assert!(matches!(
        try_from_table_filter(&extract, &col(), Some(&nested)),
        Ok(Some(_))
    ));
    let missing = TableFilter::StructExtract("x".to_string(), Box::new(bloom()));
    assert!(matches!(
        try_from_table_filter(&missing, &col(), Some(&nested)),
        Err(FilterError::ColumnType)
    ));
}

fn rows_of(filter: &TableFilter) -> Result<(Option<Vec<u64>>, Option<RowRange>), FilterError> {
    match try_from_virtual_column_filter(filter) {
        Ok((Selection::All, range)) => Ok((None, range)),
        Ok((Selection::IncludeByIndex(rows), range)) => Ok((Some(rows), range)),
        Err(error) => Err(error),
    }
}

fn range(start: u64, end: u64) -> Option<RowRange> {
    Some(RowRange { start, end })
}

#[test]
fn row_number_comparisons_become_ranges() {
    assert_eq!(
        rows_of(&comparison(ExprType::Equal, 5)),
        Ok((None, range(5, 6)))
    );
    assert_eq!(
        rows_of(&comparison(ExprType::GreaterThanOrEqualTo, 5)),
        Ok((None, range(5, u64::MAX)))
    );
    assert_eq!(
        rows_of(&comparison(ExprType::GreaterThan, u64::MAX)),
        Ok((None, range(u64::MAX, u64::MAX)))
    );
    assert_eq!(
        rows_of(&comparison(ExprType::LessThanOrEqualTo, 5)),
        Ok((None, range(0, 6)))
    );
    assert_eq!(
        rows_of(&comparison(ExprType::LessThan, 5)),
        Ok((None, range(0, 5)))
    );
    assert_eq!(rows_of(&comparison(ExprType::NotEqual, 5)), Ok((None, None)));
    assert_eq!(rows_of(&TableFilter::IsNull), Ok((None, None)));
}

#[test]
fn row_numbers_are_checked() {
    let of = |extracted: ExtractedValue| {
        rows_of(&TableFilter::InFilter(vec![FilterValue {
            scalar: None,
            extracted,
        }]))
    };
    assert_eq!(of(ExtractedValue::BigInt(3)), Ok((Some(vec![3]), None)));
    assert_eq!(of(ExtractedValue::Integer(4)), Ok((Some(vec![4]), None)));
    assert_eq!(of(ExtractedValue::UInteger(6)), Ok((Some(vec![6]), None)));
    assert_eq!(
        of(ExtractedValue::BigInt(-1)),
        Err(FilterError::NegativeValue)
    );
    assert_eq!(
        of(ExtractedValue::Integer(-1)),
        Err(FilterError::NegativeValue)
    );
    assert_eq!(of(ExtractedValue::Other), Err(FilterError::UnexpectedValue));
    assert_eq!(
        rows_of(&TableFilter::InFilter(vec![value(2), value(2)])),
        Err(FilterError::Unsorted)
    );
}

#[test]
fn conjunctions_intersect_rows_and_ranges() {
    let filter = TableFilter::ConjunctionAnd(vec![
        TableFilter::InFilter(vec![value(1), value(3), value(5), value(7)]),
        TableFilter::InFilter(vec![value(3), value(4), value(7)]),
        comparison(ExprType::GreaterThan, 2),
        comparison(ExprType::LessThan, 100),
    ]);
    assert_eq!(rows_of(&filter), Ok((Some(vec![3, 7]), range(3, 100))));
    let empty = TableFilter::ConjunctionAnd(vec![
        comparison(ExprType::GreaterThan, 9),
        comparison(ExprType::LessThan, 5),
    ]);
    assert_eq!(rows_of(&empty), Ok((None, range(10, 10))));
    let nested = TableFilter::ConjunctionAnd(vec![
        TableFilter::ConjunctionAnd(vec![
            comparison(ExprType::GreaterThan, 5),
            comparison(ExprType::LessThan, 3),
        ]),
        TableFilter::InFilter(vec![value(1), value(6)]),
    ]);
    assert_eq!(rows_of(&nested), Ok((Some(vec![1, 6]), range(6, 6))));
    assert_eq!(
        rows_of(&optional(TableFilter::InFilter(vec![bad_value()]))),
        Ok((None, None))
    );
}

#[test]
fn execution_threads_are_checked() {
    let mut input = TableInitInput {
        column_ids: vec![],
        filters: None,
        execution_threads: 14,
    };
    assert_eq!(input.execution_threads(), Ok(14));
    input.execution_threads = 1;
    assert_eq!(input.execution_threads(), Ok(1));
    input.execution_threads = 0;
    assert!(input.execution_threads().is_err());
    assert_eq!(input.execution_threads(), Err(ThreadCountError::Zero));
    assert!(input.column_ids().is_empty());
    assert!(input.table_filter_set().is_none());
}

fn bound(function: ScalarFn, children: Vec<BoundExpression>) -> BoundExpression {
    BoundExpression {
        scalar_fn: Some(function),
        children,
        dtype: 0,
    }
}

fn root() -> BoundExpression {
    BoundExpression {
        scalar_fn: None,
        children: vec![],
        dtype: 0,
    }
}

fn dynamic() -> BoundExpression {
    bound(
        ScalarFn::Dynamic {
            operator: CompareOperator::Lt,
            data: 1,
            default: true,
        },
        vec![root()],
    )
}

#[test]
fn static_conjuncts_are_flattened_in_order() {
    let filter = bound(
        ScalarFn::And,
        vec![
            bound(
                ScalarFn::And,
                vec![bound(ScalarFn::IsNull, vec![root()]), dynamic()],
            ),
            bound(ScalarFn::IsNotNull, vec![bound(ScalarFn::RowIdx, vec![])]),
            bound(ScalarFn::Other(9), vec![root()]),
        ],
    );
    let conjuncts = static_conjuncts(&filter);
    assert_eq!(conjuncts.len(), 2);
    assert!(matches!(conjuncts[0].scalar_fn, Some(ScalarFn::IsNull)));
    assert!(matches!(conjuncts[1].scalar_fn, Some(ScalarFn::Other(9))));
    assert!(pruning_conjuncts(Some(&dynamic())).is_none());
    assert!(pruning_conjuncts(None).is_none());
    assert!(pruning_conjuncts(Some(&filter)).is_some());
}

#[test]
fn unbinding_drops_types_and_checks_arity() {
    let expr = bound(ScalarFn::IsNull, vec![root()]);
    match unbind(&expr) {
        Ok(expression) => assert!(
            expression.same(&Expression::unary(ScalarFn::IsNull, Expression::Root))
        ),
        Err(_) => panic!("the function takes one child"),
    }
    assert!(matches!(
        unbind(&bound(ScalarFn::IsNull, vec![])),
        Err(ExprError::ArityMismatch)
    ));
}

#[test]
fn plans_are_kept_by_what_they_are_made_for() {
    let mut cache: PlanCache<u32> = PlanCache::new();
    let filter = bound(ScalarFn::IsNull, vec![root()]);
    let key = match cache.plan(&root(), Some(&filter), ConjunctMode::Cascade, 0) {
        Ok(PlanLookup::Build(key)) => key,
        _ => panic!("nothing is kept yet"),
    };
    cache.insert(key, 11);
    assert!(matches!(
        cache.plan(&root(), Some(&filter), ConjunctMode::Cascade, 0),
        Ok(PlanLookup::Kept(11))
    ));
    assert!(matches!(
        cache.plan(&root(), Some(&filter), ConjunctMode::Parallel, 0),
        Ok(PlanLookup::Build(_))
    ));
    assert!(matches!(
        cache.plan(&root(), None, ConjunctMode::Cascade, 0),
        Ok(PlanLookup::Build(_))
    ));
    assert!(matches!(
        cache.plan(&root(), Some(&filter), ConjunctMode::Cascade, 5),
        Ok(PlanLookup::Build(_))
    ));
    assert!(matches!(
        cache.plan(
            &bound(ScalarFn::RowIdx, vec![root()]),
            None,
            ConjunctMode::Cascade,
            0
        ),
        Err(ExprError::ArityMismatch)
    ));
}
