//! Scan expressions: trees of scalar functions over the scanned row.

use vstd::prelude::*;

use crate::bloom::filter::BloomFilterProbe;

verus! {

/// How two values are compared.
#[derive(Clone, Copy, Debug, PartialEq, Eq, Structural)]
pub enum CompareOperator {
    /// Equal.
    Eq,
    /// Not equal.
    NotEq,
    /// Less than.
    Lt,
    /// Greater than.
    Gt,
    /// Less than or equal.
    Lte,
    /// Greater than or equal.
    Gte,
}

/// A constant. A scalar is named by its place among the constants of the scan.
pub enum Literal {
    /// A boolean.
    Bool(bool),
    /// A scalar.
    Scalar(u64),
    /// A list of scalars.
    List(Vec<u64>),
}

/// A scalar function, with its options.
pub enum ScalarFn {
    /// The conjunction of the children.
    And,
    /// The disjunction of the children.
    Or,
    /// A comparison of two children.
    Compare(CompareOperator),
    /// Whether the child is NULL.
    IsNull,
    /// Whether the child is not NULL.
    IsNotNull,
    /// A field of the child.
    GetItem(String),
    /// The struct of the named fields of the child.
    Select(Vec<String>),
    /// A constant.
    Literal(Literal),
    /// Whether the first child, a list, contains the second.
    ListContains,
    /// A comparison of the child with a value that may change while the scan runs. While there is
    /// no value, `default` is the answer.
    Dynamic {
        /// How the child is compared.
        operator: CompareOperator,
        /// Which value it is compared with.
        data: u64,
        /// The answer while there is no value.
        default: bool,
    },
    /// The probe of a bloom filter with the child.
    Bloom(BloomFilterProbe),
    /// The number of the row in its file.
    RowIdx,
    /// A function known only by its number.
    Other(u64),
}

/// How many children a function takes.
#[derive(Clone, Copy, Debug, PartialEq, Eq, Structural)]
pub enum Arity {
    /// Exactly so many.
    Exact(usize),
    /// Any number.
    Variadic,
}

/// A constant, as contracts see it.
#[verifier::ext_equal]
pub enum LiteralModel {
    /// A boolean.
    Bool(bool),
    /// A scalar.
    Scalar(u64),
    /// A list of scalars.
    List(Seq<u64>),
}

/// A scalar function, as contracts see it.
#[verifier::ext_equal]
pub enum FnModel {
    /// The conjunction of the children.
    And,
    /// The disjunction of the children.
    Or,
    /// A comparison of two children.
    Compare(CompareOperator),
    /// Whether the child is NULL.
    IsNull,
    /// Whether the child is not NULL.
    IsNotNull,
    /// A field of the child.
    GetItem(Seq<char>),
    /// The struct of the named fields of the child.
    Select(Seq<Seq<char>>),
    /// A constant.
    Literal(LiteralModel),
    /// Whether the first child, a list, contains the second.
    ListContains,
    /// A comparison with a value that may change.
    Dynamic {
        /// How the child is compared.
        operator: CompareOperator,
        /// Which value it is compared with.
        data: u64,
        /// The answer while there is no value.
        default: bool,
    },
    /// The probe of a bloom filter with the child.
    Bloom(BloomFilterProbe),
    /// The number of the row in its file.
    RowIdx,
    /// A function known only by its number.
    Other(u64),
}

/// The characters of a list of names.
pub open spec fn texts(names: Seq<String>) -> Seq<Seq<char>> {
    Seq::new(names.len(), |i: int| names[i]@)
}

/// A copy of a list of names.
fn copy_names(names: &Vec<String>) -> (copy: Vec<String>)
    ensures
        texts(copy@) == texts(names@),
{
    let mut copy: Vec<String> = Vec::new();
    let mut i: usize = 0;
    while i < names.len()
        invariant
            i <= names@.len(),
            copy@ == names@.take(i as int),
        decreases names@.len() - i,
    {
        copy.push(names[i].clone());
        i = i + 1;
        assert(names@.take(i as int) =~= names@.take(i - 1).push(names@[i - 1]));
    }
    assert(names@.take(i as int) =~= names@);
    copy
}

/// Whether two lists of names are the same.
fn same_names(a: &Vec<String>, b: &Vec<String>) -> (same: bool)
    ensures
        same == (texts(a@) == texts(b@)),
{
    if a.len() != b.len() {
        assert(texts(a@).len() != texts(b@).len());
        return false;
    }
    let mut i: usize = 0;
    while i < a.len()
        invariant
            i <= a@.len(),
            a@.len() == b@.len(),
            forall|j: int| 0 <= j < i ==> (#[trigger] a@[j])@ == b@[j]@,
        decreases a@.len() - i,
    {
        if !a[i].eq(&b[i]) {
            assert(texts(a@)[i as int] != texts(b@)[i as int]);
            return false;
        }
        i = i + 1;
    }
    assert(texts(a@) =~= texts(b@));
    true
}

impl View for Literal {
    type V = LiteralModel;

    open spec fn view(&self) -> LiteralModel {
        match self {
            Literal::Bool(value) => LiteralModel::Bool(*value),
            Literal::Scalar(scalar) => LiteralModel::Scalar(*scalar),
            Literal::List(scalars) => LiteralModel::List(scalars@),
        }
    }
}

impl View for ScalarFn {
    type V = FnModel;

    open spec fn view(&self) -> FnModel {
        match self {
            ScalarFn::And => FnModel::And,
            ScalarFn::Or => FnModel::Or,
            ScalarFn::Compare(operator) => FnModel::Compare(*operator),
            ScalarFn::IsNull => FnModel::IsNull,
            ScalarFn::IsNotNull => FnModel::IsNotNull,
            ScalarFn::GetItem(name) => FnModel::GetItem(name@),
            ScalarFn::Select(names) => FnModel::Select(texts(names@)),
            ScalarFn::Literal(literal) => FnModel::Literal(literal@),
            ScalarFn::ListContains => FnModel::ListContains,
            ScalarFn::Dynamic { operator, data, default } => FnModel::Dynamic {
                operator: *operator,
                data: *data,
                default: *default,
            },
            ScalarFn::Bloom(probe) => FnModel::Bloom(*probe),
            ScalarFn::RowIdx => FnModel::RowIdx,
            ScalarFn::Other(number) => FnModel::Other(*number),
        }
    }
}

/// A tree of scalar functions, as contracts see it.
#[verifier::ext_equal]
pub enum ExprTree {
    /// The scanned row itself.
    Root,
    /// A function of its children.
    Call(FnModel, Seq<ExprTree>),
}

impl FnModel {
    /// What the function is told apart by: a bloom filter's probe by the filter's identity alone,
    /// whatever was counted, and any other function by all of it.
    pub open spec fn key(self) -> FnModel {
        match self {
            FnModel::Bloom(probe) => FnModel::Bloom(probe.named()),
            function => function,
        }
    }

    /// How many children the function takes. A function known only by its number takes however
    /// many it is given.
    pub open spec fn arity(self) -> Arity {
        match self {
            FnModel::And | FnModel::Or | FnModel::Other(_) => Arity::Variadic,
            FnModel::Compare(_) | FnModel::ListContains => Arity::Exact(2),
            FnModel::Literal(_) | FnModel::RowIdx => Arity::Exact(0),
            _ => Arity::Exact(1),
        }
    }

    /// Whether the function takes so many children.
    pub open spec fn takes(self, children: nat) -> bool {
        match self.arity() {
            Arity::Exact(n) => n == children,
            Arity::Variadic => true,
        }
    }
}

/// Functions are told apart by all of their options, but for two probes of one bloom filter, which
/// are the same whatever they counted.
pub proof fn law_function_keys(a: FnModel, b: FnModel)
    ensures
        a.key() == b.key() <==> a == b || (a is Bloom && b is Bloom && a->Bloom_0.identity
            == b->Bloom_0.identity),
{
}

/// What the trees of a sequence are told apart by.
pub open spec fn tree_keys(trees: Seq<ExprTree>) -> Seq<ExprTree>
    decreases trees,
{
    Seq::new(
        trees.len(),
        |i: int|
            if 0 <= i < trees.len() {
                trees[i].key()
            } else {
                arbitrary()
            },
    )
}

impl ExprTree {
    /// What the expression is told apart by: its functions, each by its own key.
    pub open spec fn key(self) -> ExprTree
        decreases self,
    {
        match self {
            ExprTree::Root => ExprTree::Root,
            ExprTree::Call(function, children) => ExprTree::Call(
                function.key(),
                tree_keys(children),
            ),
        }
    }

    /// Whether every function has as many children as it takes.
    pub open spec fn well_formed(self) -> bool
        decreases self,
    {
        match self {
            ExprTree::Root => true,
            ExprTree::Call(function, children) => function.takes(children.len()) && forall|i: int|
                0 <= i < children.len() ==> (#[trigger] children[i]).well_formed(),
        }
    }

    /// Whether the value of the expression for a row is fixed when the scan starts and does not
    /// depend on where the row stands: there is no dynamic comparison and no row number in it.
    pub open spec fn is_static(self) -> bool
        decreases self,
    {
        match self {
            ExprTree::Root => true,
            ExprTree::Call(function, children) => {
                &&& !(function is Dynamic)
                &&& !(function is RowIdx)
                &&& forall|i: int|
                    0 <= i < children.len() ==> (#[trigger] children[i]).is_static()
            },
        }
    }

    /// The static conjuncts of a filter, in order.
    pub open spec fn static_conjuncts(self) -> Seq<ExprTree>
        decreases self, 0nat,
    {
        match self {
            ExprTree::Call(FnModel::And, children) => conjuncts_of(children, children.len()),
            _ => if self.is_static() {
                seq![self]
            } else {
                seq![]
            },
        }
    }

    /// The static conjuncts of a filter say no more than the filter: for any reading of the
    /// conjuncts, if the filter holds then each of them does.
    pub proof fn law_conjuncts_are_implied(self, holds: spec_fn(ExprTree) -> bool, i: int)
        requires
            reads_conjunctions(holds),
            holds(self),
            0 <= i < self.static_conjuncts().len(),
        ensures
            holds(self.static_conjuncts()[i]),
            self.static_conjuncts()[i].is_static(),
        decreases self, 0nat,
    {
        if let ExprTree::Call(FnModel::And, children) = self {
            assert(holds(ExprTree::Call(FnModel::And, children)));
            lemma_conjuncts_implied(children, children.len(), holds, i);
        }
    }
}

impl ExprTree {
    /// The conjuncts of a filter that is static say as much as the filter: for any reading of the
    /// conjuncts, if each of them holds then the filter does.
    pub proof fn law_conjuncts_suffice(self, holds: spec_fn(ExprTree) -> bool)
        requires
            reads_conjunctions(holds),
            self.is_static(),
            forall|i: int|
                0 <= i < self.static_conjuncts().len() ==> holds(
                    #[trigger] self.static_conjuncts()[i],
                ),
        ensures
            holds(self),
        decreases self,
    {
        if let ExprTree::Call(FnModel::And, children) = self {
            assert forall|c: int| 0 <= c < children.len() implies holds(
                #[trigger] children[c],
            ) by {
                let child = children[c];
                assert(child.is_static());
                assert forall|k: int| 0 <= k < child.static_conjuncts().len() implies holds(
                    #[trigger] child.static_conjuncts()[k],
                ) by {
                    let i = lemma_conjunct_place(children, children.len(), c, k);
                    assert(self.static_conjuncts()[i] == child.static_conjuncts()[k]);
                }
                child.law_conjuncts_suffice(holds);
            }
            assert(holds(ExprTree::Call(FnModel::And, children)));
        } else {
            assert(self.static_conjuncts()[0] == self);
        }
    }

    /// A conjunction has the static conjuncts of each of its children, in their order.
    pub proof fn law_conjuncts_of_children(self, c: int, k: int) -> (i: int)
        requires
            self is Call && self->Call_0 == FnModel::And,
            0 <= c < self->Call_1.len(),
            0 <= k < self->Call_1[c].static_conjuncts().len(),
        ensures
            k <= i < self.static_conjuncts().len(),
            self.static_conjuncts()[i] == self->Call_1[c].static_conjuncts()[k],
    {
        lemma_conjunct_place(self->Call_1, self->Call_1.len(), c, k)
    }
}

/// Where conjunct `k` of child `c` stands among those of the first `n` children.
proof fn lemma_conjunct_place(children: Seq<ExprTree>, n: nat, c: int, k: int) -> (i: int)
    requires
        0 <= c < n <= children.len(),
        0 <= k < children[c].static_conjuncts().len(),
    ensures
        k <= i < conjuncts_of(children, n).len(),
        conjuncts_of(children, n)[i] == children[c].static_conjuncts()[k],
    decreases n,
{
    let front = conjuncts_of(children, (n - 1) as nat);
    if c < n - 1 {
        lemma_conjunct_place(children, (n - 1) as nat, c, k)
    } else {
        front.len() + k
    }
}

/// Whether a reading of expressions takes a conjunction to hold if and only if its children do.
pub open spec fn reads_conjunctions(holds: spec_fn(ExprTree) -> bool) -> bool {
    forall|children: Seq<ExprTree>| #[trigger]
        holds(ExprTree::Call(FnModel::And, children)) == (forall|i: int|
            0 <= i < children.len() ==> holds(#[trigger] children[i]))
}

/// The static conjuncts of the first `n` children of a conjunction, in order.
pub open spec fn conjuncts_of(children: Seq<ExprTree>, n: nat) -> Seq<ExprTree>
    decreases children, n,
{
    if n == 0 || n > children.len() {
        seq![]
    } else {
        conjuncts_of(children, (n - 1) as nat) + children[n - 1].static_conjuncts()
    }
}

proof fn lemma_conjuncts_implied(
    children: Seq<ExprTree>,
    n: nat,
    holds: spec_fn(ExprTree) -> bool,
    i: int,
)
    requires
        reads_conjunctions(holds),
        n <= children.len(),
        forall|j: int| 0 <= j < n ==> holds(#[trigger] children[j]),
        0 <= i < conjuncts_of(children, n).len(),
    ensures
        holds(conjuncts_of(children, n)[i]),
        conjuncts_of(children, n)[i].is_static(),
    decreases children, n,
{
    let front = conjuncts_of(children, (n - 1) as nat);
    if i < front.len() {
        lemma_conjuncts_implied(children, (n - 1) as nat, holds, i);
    } else {
        children[n - 1].law_conjuncts_are_implied(holds, i - front.len());
    }
}

/// A scan expression.
pub enum Expression {
    /// The scanned row itself.
    Root,
    /// A function of its children.
    Call(ScalarFn, Vec<Expression>),
}

/// The trees of a sequence of expressions.
pub open spec fn trees(expressions: Seq<Expression>) -> Seq<ExprTree>
    decreases expressions,
{
    Seq::new(
        expressions.len(),
        |i: int|
            if 0 <= i < expressions.len() {
                expressions[i].tree()
            } else {
                arbitrary()
            },
    )
}

impl Expression {
    /// The tree of the expression.
    pub open spec fn tree(self) -> ExprTree
        decreases self,
    {
        match self {
            Expression::Root => ExprTree::Root,
            Expression::Call(function, children) => ExprTree::Call(function@, trees(children@)),
        }
    }
}

impl View for Expression {
    type V = ExprTree;

    open spec fn view(&self) -> ExprTree {
        self.tree()
    }
}

/// An expression resolved against the scanned row's type.
pub struct BoundExpression {
    /// The function, or `None` for the scanned row itself.
    pub scalar_fn: Option<ScalarFn>,
    /// The children.
    pub children: Vec<BoundExpression>,
    /// The type the expression has, by its number.
    pub dtype: u64,
}

/// The trees of a sequence of bound expressions.
pub open spec fn bound_trees(expressions: Seq<BoundExpression>) -> Seq<ExprTree>
    decreases expressions,
{
    Seq::new(
        expressions.len(),
        |i: int|
            if 0 <= i < expressions.len() {
                expressions[i].tree()
            } else {
                arbitrary()
            },
    )
}

impl BoundExpression {
    /// The tree of the expression, without types.
    pub open spec fn tree(self) -> ExprTree
        decreases self,
    {
        match self.scalar_fn {
            None => ExprTree::Root,
            Some(function) => ExprTree::Call(function@, bound_trees(self.children@)),
        }
    }
}

impl View for BoundExpression {
    type V = ExprTree;

    open spec fn view(&self) -> ExprTree {
        self.tree()
    }
}

impl Literal {
    /// A copy of the constant.
    pub fn copy(&self) -> (copy: Literal)
        ensures
            copy@ == self@,
    {
        match self {
            Literal::Bool(value) => Literal::Bool(*value),
            Literal::Scalar(scalar) => Literal::Scalar(*scalar),
            Literal::List(scalars) => Literal::List(
                vstd::slice::slice_to_vec(scalars.as_slice()),
            ),
        }
    }

    /// Whether two constants are the same.
    pub fn same(&self, other: &Literal) -> (same: bool)
        ensures
            same == (self@ == other@),
    {
        match (self, other) {
            (Literal::Bool(a), Literal::Bool(b)) => *a == *b,
            (Literal::Scalar(a), Literal::Scalar(b)) => *a == *b,
            (Literal::List(a), Literal::List(b)) => {
                if a.len() != b.len() {
                    return false;
                }
                let mut i: usize = 0;
                while i < a.len()
                    invariant
                        i <= a@.len(),
                        a@.len() == b@.len(),
                        a@.take(i as int) == b@.take(i as int),
                        self@ == LiteralModel::List(a@),
                        other@ == LiteralModel::List(b@),
                    decreases a@.len() - i,
                {
                    if a[i] != b[i] {
                        return false;
                    }
                    i = i + 1;
                    assert(a@.take(i as int) =~= a@.take(i - 1).push(a@[i - 1]));
                    assert(b@.take(i as int) =~= b@.take(i - 1).push(b@[i - 1]));
                }
                assert(a@.take(i as int) =~= a@);
                assert(b@.take(i as int) =~= b@);
                true
            },
            _ => false,
        }
    }
}

impl ScalarFn {
    /// Whether the function takes so many children.
    pub fn takes(&self, children: usize) -> (takes: bool)
        ensures
            takes == self@.takes(children as nat),
    {
        match self {
            ScalarFn::And | ScalarFn::Or | ScalarFn::Other(_) => true,
            ScalarFn::Compare(_) | ScalarFn::ListContains => children == 2,
            ScalarFn::Literal(_) | ScalarFn::RowIdx => children == 0,
            _ => children == 1,
        }
    }

    /// A copy of the function.
    pub fn copy(&self) -> (copy: ScalarFn)
        ensures
            copy@ == self@,
    {
        match self {
            ScalarFn::And => ScalarFn::And,
            ScalarFn::Or => ScalarFn::Or,
            ScalarFn::Compare(operator) => ScalarFn::Compare(*operator),
            ScalarFn::IsNull => ScalarFn::IsNull,
            ScalarFn::IsNotNull => ScalarFn::IsNotNull,
            ScalarFn::GetItem(name) => ScalarFn::GetItem(name.clone()),
            ScalarFn::Select(names) => ScalarFn::Select(copy_names(names)),
            ScalarFn::Literal(literal) => ScalarFn::Literal(literal.copy()),
            ScalarFn::ListContains => ScalarFn::ListContains,
            ScalarFn::Dynamic { operator, data, default } => ScalarFn::Dynamic {
                operator: *operator,
                data: *data,
                default: *default,
            },
            ScalarFn::Bloom(probe) => ScalarFn::Bloom(*probe),
            ScalarFn::RowIdx => ScalarFn::RowIdx,
            ScalarFn::Other(number) => ScalarFn::Other(*number),
        }
    }

    /// Whether two functions are the same, bloom filters by their identity.
    pub fn same(&self, other: &ScalarFn) -> (same: bool)
        ensures
            same == (self@.key() == other@.key()),
    {
        match (self, other) {
            (ScalarFn::And, ScalarFn::And) => true,
            (ScalarFn::Or, ScalarFn::Or) => true,
            (ScalarFn::Compare(a), ScalarFn::Compare(b)) => *a == *b,
            (ScalarFn::IsNull, ScalarFn::IsNull) => true,
            (ScalarFn::IsNotNull, ScalarFn::IsNotNull) => true,
            (ScalarFn::GetItem(a), ScalarFn::GetItem(b)) => a.eq(b),
            (ScalarFn::Select(a), ScalarFn::Select(b)) => same_names(a, b),
            (ScalarFn::Literal(a), ScalarFn::Literal(b)) => a.same(b),
            (ScalarFn::ListContains, ScalarFn::ListContains) => true,
            (
                ScalarFn::Dynamic { operator: a, data: b, default: c },
                ScalarFn::Dynamic { operator: d, data: e, default: f },
            ) => *a == *d && *b == *e && *c == *f,
            (ScalarFn::Bloom(a), ScalarFn::Bloom(b)) => a.identity == b.identity,
            (ScalarFn::RowIdx, ScalarFn::RowIdx) => true,
            (ScalarFn::Other(a), ScalarFn::Other(b)) => *a == *b,
            _ => false,
        }
    }
}

impl Expression {
    /// A copy of the expression.
    pub fn copy(&self) -> (copy: Expression)
        ensures
            copy@ == self@,
        decreases self,
    {
        match self {
            Expression::Root => Expression::Root,
            Expression::Call(function, children) => {
                let mut copies: Vec<Expression> = Vec::new();
                let mut i: usize = 0;
                while i < children.len()
                    invariant
                        i <= children@.len(),
                        decreases_to!(self => children@),
                        trees(copies@) == trees(children@).take(i as int),
                    decreases children@.len() - i,
                {
                    let ghost before = copies@;
                    copies.push(children[i].copy());
                    i = i + 1;
                    assert(trees(copies@) =~= trees(before).push(trees(children@)[i - 1]));
                    assert(trees(children@).take(i as int) =~= trees(children@).take(i - 1).push(
                        trees(children@)[i - 1],
                    ));
                }
                assert(trees(children@).take(i as int) =~= trees(children@));
                Expression::Call(function.copy(), copies)
            },
        }
    }

    /// Whether two expressions are the same, bloom filters by their identity.
    pub fn same(&self, other: &Expression) -> (same: bool)
        ensures
            same == (self@.key() == other@.key()),
        decreases self,
    {
        match (self, other) {
            (Expression::Root, Expression::Root) => true,
            (Expression::Call(f, xs), Expression::Call(g, ys)) => {
                let ghost (left, right) = (tree_keys(trees(xs@)), tree_keys(trees(ys@)));
                if !f.same(g) || xs.len() != ys.len() {
                    assert(left.len() == xs@.len() && right.len() == ys@.len());
                    return false;
                }
                let mut i: usize = 0;
                while i < xs.len()
                    invariant
                        i <= xs@.len(),
                        xs@.len() == ys@.len(),
                        left == tree_keys(trees(xs@)),
                        right == tree_keys(trees(ys@)),
                        decreases_to!(self => xs@),
                        left.take(i as int) == right.take(i as int),
                        self@.key() == ExprTree::Call(f@.key(), left),
                        other@.key() == ExprTree::Call(g@.key(), right),
                    decreases xs@.len() - i,
                {
                    if !xs[i].same(&ys[i]) {
                        assert(left[i as int] != right[i as int]);
                        return false;
                    }
                    i = i + 1;
                    assert(left.take(i as int) =~= left.take(i - 1).push(left[i - 1]));
                    assert(right.take(i as int) =~= right.take(i - 1).push(right[i - 1]));
                }
                assert(left.take(i as int) =~= left);
                assert(right.take(i as int) =~= right);
                true
            },
            _ => false,
        }
    }

    /// A function of no children.
    pub fn leaf(function: ScalarFn) -> (expression: Expression)
        ensures
            expression@ == ExprTree::Call(function@, seq![]),
    {
        let expression = Expression::Call(function, Vec::new());
        assert(expression@->Call_1 =~= seq![]);
        expression
    }

    /// A function of one child.
    pub fn unary(function: ScalarFn, child: Expression) -> (expression: Expression)
        ensures
            expression@ == ExprTree::Call(function@, seq![child@]),
    {
        let ghost tree = child@;
        let mut children: Vec<Expression> = Vec::new();
        children.push(child);
        let expression = Expression::Call(function, children);
        assert(expression@->Call_1 =~= seq![tree]);
        expression
    }

    /// A function of two children.
    pub fn binary(function: ScalarFn, left: Expression, right: Expression) -> (expression:
        Expression)
        ensures
            expression@ == ExprTree::Call(function@, seq![left@, right@]),
    {
        let ghost both = seq![left@, right@];
        let mut children: Vec<Expression> = Vec::new();
        children.push(left);
        children.push(right);
        let expression = Expression::Call(function, children);
        assert(expression@->Call_1 =~= both);
        expression
    }
}

/// The expression that combines a list with a variadic function: the one there is, the function
/// of several, or a constant for none.
pub open spec fn collected(function: FnModel, list: Seq<ExprTree>, none: bool) -> ExprTree {
    if list.len() == 0 {
        ExprTree::Call(FnModel::Literal(LiteralModel::Bool(none)), seq![])
    } else if list.len() == 1 {
        list[0]
    } else {
        ExprTree::Call(function, list)
    }
}

/// How the values `V` of a scanned row are read.
#[verifier::reject_recursive_types(V)]
pub struct RowReader<V> {
    /// Whether a value is NULL.
    pub is_null: spec_fn(V) -> bool,
    /// The named field of a value.
    pub field: spec_fn(V, Seq<char>) -> V,
    /// The sign of the difference of a value and a scalar: negative where the value is smaller.
    pub sign: spec_fn(V, u64) -> int,
    /// The scalar that a changing value is now, if there is one.
    pub current: spec_fn(u64) -> Option<u64>,
    /// Whether a bloom filter might hold a value.
    pub found: spec_fn(u64, V) -> bool,
    /// Whether a function known only by its number holds of a value.
    pub other: spec_fn(u64, V) -> bool,
}

impl<V> RowReader<V> {
    /// The value that a path of fields leads to in a row.
    pub open spec fn value(self, tree: ExprTree, row: V) -> V
        decreases tree,
    {
        match tree {
            ExprTree::Call(FnModel::GetItem(name), children) => if children.len() == 1 {
                (self.field)(self.value(children[0], row), name)
            } else {
                row
            },
            _ => row,
        }
    }

    /// Whether a value compares so with a scalar. NULL compares with nothing.
    pub open spec fn compares(self, operator: CompareOperator, value: V, scalar: u64) -> bool {
        let sign = (self.sign)(value, scalar);
        !(self.is_null)(value) && (match operator {
            CompareOperator::Eq => sign == 0,
            CompareOperator::NotEq => sign != 0,
            CompareOperator::Lt => sign < 0,
            CompareOperator::Gt => sign > 0,
            CompareOperator::Lte => sign <= 0,
            CompareOperator::Gte => sign >= 0,
        })
    }

    /// Whether a value equals one of the scalars.
    pub open spec fn among(self, scalars: Seq<u64>, value: V) -> bool {
        !(self.is_null)(value) && exists|k: int|
            0 <= k < scalars.len() && (self.sign)(value, #[trigger] scalars[k]) == 0
    }

    /// Whether a predicate over paths of fields holds of a row.
    pub open spec fn holds(self, tree: ExprTree, row: V) -> bool
        decreases tree,
    {
        match tree {
            ExprTree::Root => false,
            ExprTree::Call(function, children) => match function {
                FnModel::And => forall|i: int|
                    0 <= i < children.len() ==> self.holds(#[trigger] children[i], row),
                FnModel::Or => exists|i: int|
                    0 <= i < children.len() && self.holds(#[trigger] children[i], row),
                FnModel::Literal(LiteralModel::Bool(constant)) => constant,
                FnModel::Compare(operator) => children.len() == 2 && (match children[1] {
                    ExprTree::Call(FnModel::Literal(LiteralModel::Scalar(scalar)), _) =>
                        self.compares(operator, self.value(children[0], row), scalar),
                    _ => false,
                }),
                FnModel::ListContains => children.len() == 2 && (match children[0] {
                    ExprTree::Call(FnModel::Literal(LiteralModel::List(scalars)), _) => self.among(
                        scalars,
                        self.value(children[1], row),
                    ),
                    _ => false,
                }),
                FnModel::IsNull => children.len() == 1 && (self.is_null)(
                    self.value(children[0], row),
                ),
                FnModel::IsNotNull => children.len() == 1 && !(self.is_null)(
                    self.value(children[0], row),
                ),
                FnModel::Dynamic { operator, data, default } => children.len() == 1 && (match (
                self.current)(data) {
                    Some(scalar) => self.compares(
                        operator,
                        self.value(children[0], row),
                        scalar,
                    ),
                    None => default,
                }),
                FnModel::Bloom(probe) => children.len() == 1 && (self.found)(
                    probe.identity,
                    self.value(children[0], row),
                ),
                FnModel::Other(number) => children.len() == 1 && (self.other)(
                    number,
                    self.value(children[0], row),
                ),
                _ => false,
            },
        }
    }

    /// A collected conjunction holds where all of its parts do, and a collected disjunction where
    /// one of them does.
    pub proof fn law_collected(self, list: Seq<ExprTree>, row: V)
        ensures
            self.holds(collected(FnModel::And, list, true), row) <==> (forall|i: int|
                0 <= i < list.len() ==> self.holds(#[trigger] list[i], row)),
            self.holds(collected(FnModel::Or, list, false), row) <==> (exists|i: int|
                0 <= i < list.len() && self.holds(#[trigger] list[i], row)),
    {
        reveal_with_fuel(RowReader::holds, 2);
        if list.len() == 1 {
            assert(self.holds(list[0], row) == self.holds(
                collected(FnModel::And, list, true),
                row,
            ));
        }
    }
}

fn collect(function: ScalarFn, list: Vec<Expression>, none: bool) -> (expression: Expression)
    ensures
        expression@ == collected(function@, trees(list@), none),
{
    if list.len() == 0 {
        Expression::leaf(ScalarFn::Literal(Literal::Bool(none)))
    } else if list.len() == 1 {
        let mut list = list;
        let ghost whole = list@;
        match list.pop() {
            Some(only) => {
                assert(only@ == trees(whole)[0]);
                only
            },
            None => Expression::Root,
        }
    } else {
        Expression::Call(function, list)
    }
}

/// The conjunction of a list of expressions: true when there are none.
pub fn and_collect(list: Vec<Expression>) -> (expression: Expression)
    ensures
        expression@ == collected(FnModel::And, trees(list@), true),
{
    collect(ScalarFn::And, list, true)
}

/// The disjunction of a list of expressions: false when there are none.
pub fn or_collect(list: Vec<Expression>) -> (expression: Expression)
    ensures
        expression@ == collected(FnModel::Or, trees(list@), false),
{
    collect(ScalarFn::Or, list, false)
}

/// Why an expression could not be built.
#[derive(Clone, Copy, Debug, PartialEq, Eq, Structural)]
pub enum ExprError {
    /// A function has another number of children than it takes.
    ArityMismatch,
}

/// The expression that a bound expression was resolved from.
///
/// The expression is the same tree without its types, and there is one if and only if every
/// function has as many children as it takes.
pub fn unbind(expr: &BoundExpression) -> (result: Result<Expression, ExprError>)
    ensures
        match result {
            Ok(expression) => expr@.well_formed() && expression@ == expr@,
            Err(error) => !expr@.well_formed() && error == ExprError::ArityMismatch,
        },
    decreases expr,
{
    let function: &ScalarFn = match &expr.scalar_fn {
        Some(function) => function,
        None => return Ok(Expression::Root),
    };
    let ghost bound = bound_trees(expr.children@);
    let mut children: Vec<Expression> = Vec::new();
    let mut i: usize = 0;
    while i < expr.children.len()
        invariant
            i <= expr.children@.len(),
            bound == bound_trees(expr.children@),
            expr@ == ExprTree::Call(function@, bound),
            trees(children@) == bound.take(i as int),
            forall|j: int| 0 <= j < i ==> (#[trigger] bound[j]).well_formed(),
        decreases expr.children@.len() - i,
    {
        match unbind(&expr.children[i]) {
            Ok(child) => {
                let ghost before = children@;
                assert(child@ == bound[i as int]);
                children.push(child);
                i = i + 1;
                assert(trees(children@) =~= trees(before).push(bound[i - 1]));
                assert(bound.take(i as int) =~= bound.take(i - 1).push(bound[i - 1]));
            },
            Err(error) => {
                assert(!bound[i as int].well_formed());
                return Err(error);
            },
        }
    }
    assert(bound.take(i as int) =~= bound);
    if function.takes(children.len()) {
        Ok(Expression::Call(function.copy(), children))
    } else {
        Err(ExprError::ArityMismatch)
    }
}

impl BoundExpression {
    /// Whether there is no dynamic comparison and no row number in the expression.
    pub fn is_static(&self) -> (is_static: bool)
        ensures
            is_static == self@.is_static(),
        decreases self,
    {
        match &self.scalar_fn {
            None => true,
            Some(ScalarFn::Dynamic { .. }) => false,
            Some(ScalarFn::RowIdx) => false,
            Some(function) => {
                let ghost bound = bound_trees(self.children@);
                let mut i: usize = 0;
                while i < self.children.len()
                    invariant
                        i <= self.children@.len(),
                        bound == bound_trees(self.children@),
                        self@ == ExprTree::Call(function@, bound),
                        !(function@ is Dynamic) && !(function@ is RowIdx),
                        forall|j: int| 0 <= j < i ==> (#[trigger] bound[j]).is_static(),
                    decreases self.children@.len() - i,
                {
                    if !self.children[i].is_static() {
                        assert(!bound[i as int].is_static());
                        assert(self@->Call_1 == bound);
                        return false;
                    }
                    assert(bound[i as int].is_static());
                    i = i + 1;
                }
                true
            },
        }
    }
}

/// The trees of a sequence of borrowed bound expressions.
pub open spec fn borrowed_trees<'a>(expressions: Seq<&'a BoundExpression>) -> Seq<ExprTree> {
    Seq::new(expressions.len(), |i: int| expressions[i].tree())
}

/// The bound expressions that are borrowed.
pub open spec fn lent<'a>(expressions: Seq<&'a BoundExpression>) -> Seq<BoundExpression> {
    Seq::new(expressions.len(), |i: int| *expressions[i])
}

/// The static conjuncts of the first `n` children of a conjunction, in order, with their types.
pub open spec fn bound_conjuncts_of(children: Seq<BoundExpression>, n: nat) -> Seq<BoundExpression>
    decreases children, n,
{
    if n == 0 || n > children.len() {
        seq![]
    } else {
        bound_conjuncts_of(children, (n - 1) as nat) + children[n - 1].bound_conjuncts()
    }
}

impl BoundExpression {
    /// The static conjuncts of a filter, in order, with their types.
    pub open spec fn bound_conjuncts(self) -> Seq<BoundExpression>
        decreases self, 0nat,
    {
        match self.scalar_fn {
            Some(ScalarFn::And) => bound_conjuncts_of(self.children@, self.children@.len()),
            _ => if self.tree().is_static() {
                seq![self]
            } else {
                seq![]
            },
        }
    }
}

fn push_static_conjuncts<'a>(expr: &'a BoundExpression, conjuncts: &mut Vec<&'a BoundExpression>)
    ensures
        borrowed_trees(final(conjuncts)@) == borrowed_trees(old(conjuncts)@)
            + expr@.static_conjuncts(),
        lent(final(conjuncts)@) == lent(old(conjuncts)@) + expr.bound_conjuncts(),
    decreases expr,
{
    match &expr.scalar_fn {
        Some(ScalarFn::And) => {
            let ghost bound = bound_trees(expr.children@);
            let ghost start = borrowed_trees(conjuncts@);
            let ghost held = lent(conjuncts@);
            let mut i: usize = 0;
            assert(start + conjuncts_of(bound, 0) =~= start);
            assert(held + bound_conjuncts_of(expr.children@, 0) =~= held);
            while i < expr.children.len()
                invariant
                    i <= expr.children@.len(),
                    bound == bound_trees(expr.children@),
                    borrowed_trees(conjuncts@) == start + conjuncts_of(bound, i as nat),
                    lent(conjuncts@) == held + bound_conjuncts_of(expr.children@, i as nat),
                decreases expr.children@.len() - i,
            {
                push_static_conjuncts(&expr.children[i], conjuncts);
                assert(expr.children@[i as int]@ == bound[i as int]);
                i = i + 1;
                assert(borrowed_trees(conjuncts@) =~= start + conjuncts_of(bound, i as nat));
                assert(lent(conjuncts@) =~= held + bound_conjuncts_of(
                    expr.children@,
                    i as nat,
                ));
            }
        },
        _ => {
            let ghost start = conjuncts@;
            if expr.is_static() {
                conjuncts.push(expr);
            }
            assert(borrowed_trees(conjuncts@) =~= borrowed_trees(start)
                + expr@.static_conjuncts());
            assert(lent(conjuncts@) =~= lent(start) + expr.bound_conjuncts());
        },
    }
}

/// The conjuncts of a filter that rows can be ruled out by before the scan starts. Dynamic
/// comparisons are left out because their bounds can change after that, and so is whatever
/// depends on a row's number.
pub fn static_conjuncts(filter: &BoundExpression) -> (conjuncts: Vec<&BoundExpression>)
    ensures
        borrowed_trees(conjuncts@) == filter@.static_conjuncts(),
        lent(conjuncts@) == filter.bound_conjuncts(),
{
    let mut conjuncts: Vec<&BoundExpression> = Vec::new();
    push_static_conjuncts(filter, &mut conjuncts);
    assert(borrowed_trees(conjuncts@) =~= filter@.static_conjuncts());
    assert(lent(conjuncts@) =~= filter.bound_conjuncts());
    conjuncts
}

} // verus!
