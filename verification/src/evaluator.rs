//! The evaluator: reduces a parsed [`Expression`] to a single [`Value`] by
//! four elimination passes, one per operator, run strictly in the order
//! multiply, divide, add, minus. Each pass sweeps the sequence left to right
//! and collapses every occurrence of its operator before the next pass runs,
//! so mixed chains of operators do not evaluate in textual order.

use crate::parser::{Expression, ExpressionEnum, ExpressionModel, ExpressionEnumModel};
use crate::Span;
use vstd::prelude::*;

verus! {

/// One of the four binary operators.
#[derive(Debug, Clone, Copy, PartialEq, Eq, Structural)]
pub enum Operator {
    Add,
    Minus,
    Multiply,
    Divide,
}

/// The result of a successful evaluation: a tree recording, leaf to root, the
/// numeric literals of the input and the exact order in which the elimination
/// passes combined them. Applying 32-bit float arithmetic over this tree,
/// bottom up, yields the calculator's numeric answer.
#[derive(Debug)]
pub enum Value {
    /// A numeric literal, as the run of characters it was written with.
    Literal(Vec<char>),
    /// A binary combination of two already-reduced operands.
    Binary(Operator, Box<Value>, Box<Value>),
}

/// The mathematical model of a [`Value`].
pub enum ValueModel {
    Literal(Seq<char>),
    Binary(Operator, Box<ValueModel>, Box<ValueModel>),
}

/// The model of a [`Value`], recursively.
pub open spec fn value_view(v: Value) -> ValueModel
    decreases v,
{
    match v {
        Value::Literal(lit) => ValueModel::Literal(lit@),
        Value::Binary(op, l, r) => ValueModel::Binary(
            op,
            Box::new(value_view(*l)),
            Box::new(value_view(*r)),
        ),
    }
}

impl View for Value {
    type V = ValueModel;

    open spec fn view(&self) -> ValueModel {
        value_view(*self)
    }
}

/// The expression node an operator kind was parsed from.
pub open spec fn operator_expression(kind: Operator) -> ExpressionEnumModel {
    match kind {
        Operator::Add => ExpressionEnumModel::Add,
        Operator::Minus => ExpressionEnumModel::Minus,
        Operator::Multiply => ExpressionEnumModel::Multiply,
        Operator::Divide => ExpressionEnumModel::Divide,
    }
}

/// An error found while evaluating.
#[derive(Debug)]
pub enum EvaluateError {
    /// The top-level expression was a bare operator token.
    UnexpectedToken(Expression),
    /// Defensive: an operand position that held no constant.
    ExpectedConstant { got: Expression },
    /// Defensive: an operator position that held no operator.
    ExpectedOperation { got: Expression },
    /// Defensive: an operator with no right-hand operand.
    MissingRightHandSide { span: Span },
    /// A group with nothing in it.
    EmptyBlock { span: Span },
    /// A sequence that the four passes could not reduce to one constant.
    InvalidExpression { span: Span },
}

/// The mathematical model of an [`EvaluateError`].
pub enum EvaluateErrorModel {
    UnexpectedToken(ExpressionModel),
    ExpectedConstant { got: ExpressionModel },
    ExpectedOperation { got: ExpressionModel },
    MissingRightHandSide { span: Span },
    EmptyBlock { span: Span },
    InvalidExpression { span: Span },
}

impl View for EvaluateError {
    type V = EvaluateErrorModel;

    open spec fn view(&self) -> EvaluateErrorModel {
        match self {
            EvaluateError::UnexpectedToken(e) => EvaluateErrorModel::UnexpectedToken(e@),
            EvaluateError::ExpectedConstant { got } => EvaluateErrorModel::ExpectedConstant {
                got: got@,
            },
            EvaluateError::ExpectedOperation { got } => EvaluateErrorModel::ExpectedOperation {
                got: got@,
            },
            EvaluateError::MissingRightHandSide { span } => EvaluateErrorModel::MissingRightHandSide {
                span: *span,
            },
            EvaluateError::EmptyBlock { span } => EvaluateErrorModel::EmptyBlock { span: *span },
            EvaluateError::InvalidExpression { span } => EvaluateErrorModel::InvalidExpression {
                span: *span,
            },
        }
    }
}

impl EvaluateErrorModel {
    /// The span of the model, mirroring [`EvaluateError::get_span`].
    pub open spec fn spec_get_span(self) -> Option<Span> {
        match self {
            EvaluateErrorModel::ExpectedConstant { got } => Some(got.span),
            EvaluateErrorModel::UnexpectedToken(got) => Some(got.span),
            EvaluateErrorModel::ExpectedOperation { got } => Some(got.span),
            EvaluateErrorModel::MissingRightHandSide { span } => Some(span),
            EvaluateErrorModel::EmptyBlock { span } => Some(span),
            EvaluateErrorModel::InvalidExpression { span } => Some(span),
        }
    }
}

impl EvaluateError {
    /// The source location of the error.
    pub fn get_span(&self) -> (r: Option<Span>)
        ensures
            r == self@.spec_get_span(),
    {
        match self {
            EvaluateError::ExpectedConstant { got } => Some(got.span),
            EvaluateError::UnexpectedToken(got) => Some(got.span),
            EvaluateError::ExpectedOperation { got } => Some(got.span),
            EvaluateError::MissingRightHandSide { span } => Some(*span),
            EvaluateError::EmptyBlock { span } => Some(*span),
            EvaluateError::InvalidExpression { span } => Some(*span),
        }
    }
}

/// One element of the working sequence during the elimination passes: an
/// operator token, a constant (a parsed literal or a combined result), or a
/// nested group carried together with what evaluating it yields.
pub enum ItemModel {
    Op { kind: Operator, span: Span },
    Num { val: ValueModel, span: Span },
    Group { result: Result<ValueModel, EvaluateErrorModel>, span: Span },
}

/// The span of a working item.
pub open spec fn item_span(it: ItemModel) -> Span {
    match it {
        ItemModel::Op { span, .. } => span,
        ItemModel::Num { span, .. } => span,
        ItemModel::Group { span, .. } => span,
    }
}

/// Whether a working item is the operator a pass eliminates.
pub open spec fn item_is_op(it: ItemModel, kind: Operator) -> bool {
    match it {
        ItemModel::Op { kind: k, .. } => k == kind,
        _ => false,
    }
}

/// What consuming a working item as an operand yields: a constant's value, a
/// group's evaluation, or `UnexpectedToken` for an operator token.
pub open spec fn item_result(it: ItemModel) -> Result<ValueModel, EvaluateErrorModel> {
    match it {
        ItemModel::Op { kind, span } => Err(
            EvaluateErrorModel::UnexpectedToken(
                ExpressionModel { span, expression: operator_expression(kind) },
            ),
        ),
        ItemModel::Num { val, .. } => Ok(val),
        ItemModel::Group { result, .. } => result,
    }
}

/// Combining a matched triple: the left operand is consumed first, then the
/// right; their values form one binary node whose span merges both operands.
pub open spec fn spec_combine(kind: Operator, left: ItemModel, right: ItemModel) -> Result<
    ItemModel,
    EvaluateErrorModel,
> {
    match item_result(left) {
        Err(e) => Err(e),
        Ok(lv) => match item_result(right) {
            Err(e) => Err(e),
            Ok(rv) => Ok(
                ItemModel::Num {
                    val: ValueModel::Binary(kind, Box::new(lv), Box::new(rv)),
                    span: item_span(left).spec_merge(item_span(right)),
                },
            ),
        },
    }
}

/// One elimination pass over the working sequence, from position `i`: while
/// an operator of this pass's kind stands one past the scan position with an
/// operand two past it, the triple collapses in place and the scan position
/// stays put; otherwise the scan advances.
pub open spec fn run_pass(kind: Operator, items: Seq<ItemModel>, i: int) -> Result<
    Seq<ItemModel>,
    EvaluateErrorModel,
>
    decreases items.len() - i,
        when 0 <= i
{
    if items.len() > 2 && i < items.len() - 2 {
        if item_is_op(items[i + 1], kind) {
            match spec_combine(kind, items[i], items[i + 2]) {
                Err(e) => Err(e),
                Ok(it) => run_pass(
                    kind,
                    items.subrange(0, i) + seq![it] + items.subrange(i + 3, items.len() as int),
                    i,
                ),
            }
        } else {
            run_pass(kind, items, i + 1)
        }
    } else {
        Ok(items)
    }
}

/// The diagnostic span for a sequence that failed to reduce: the spans of
/// all elements past the first, folded left to right, where an accumulator
/// still at the zero span is replaced rather than merged.
pub open spec fn fold_leftover(items: Seq<ItemModel>, k: int, acc: Span) -> Span
    decreases items.len() - k,
        when 0 <= k
{
    if k >= items.len() {
        acc
    } else {
        fold_leftover(
            items,
            k + 1,
            if acc.from == 0 && acc.to == 0 {
                item_span(items[k])
            } else {
                acc.spec_merge(item_span(items[k]))
            },
        )
    }
}

/// After the four passes: exactly one constant must remain, and its value is
/// the answer; anything else is `InvalidExpression`.
pub open spec fn finish_pass(items: Seq<ItemModel>) -> Result<ValueModel, EvaluateErrorModel> {
    if items.len() != 1 {
        Err(
            EvaluateErrorModel::InvalidExpression {
                span: fold_leftover(items, 1, Span { from: 0, to: 0 }),
            },
        )
    } else {
        match items[0] {
            ItemModel::Num { val, .. } => Ok(val),
            ItemModel::Op { span, .. } => Err(EvaluateErrorModel::InvalidExpression { span }),
            ItemModel::Group { span, .. } => Err(EvaluateErrorModel::InvalidExpression { span }),
        }
    }
}

/// The working item a block's statement becomes: constants and operators
/// stand as themselves; a nested group carries its own evaluation.
pub open spec fn to_item(e: ExpressionModel) -> ItemModel
    decreases e, 1int,
{
    match e.expression {
        ExpressionEnumModel::Constant(lit) => ItemModel::Num {
            val: ValueModel::Literal(lit),
            span: e.span,
        },
        ExpressionEnumModel::Add => ItemModel::Op { kind: Operator::Add, span: e.span },
        ExpressionEnumModel::Minus => ItemModel::Op { kind: Operator::Minus, span: e.span },
        ExpressionEnumModel::Multiply => ItemModel::Op { kind: Operator::Multiply, span: e.span },
        ExpressionEnumModel::Divide => ItemModel::Op { kind: Operator::Divide, span: e.span },
        ExpressionEnumModel::Block(_) => ItemModel::Group {
            result: spec_evaluate(e),
            span: e.span,
        },
    }
}

/// The working items of a block's statements, elementwise.
pub open spec fn items_of(stmts: Seq<ExpressionModel>) -> Seq<ItemModel>
    decreases stmts, 0int,
{
    if stmts.len() == 0 {
        Seq::empty()
    } else {
        items_of(stmts.subrange(0, stmts.len() - 1)).push(to_item(stmts[stmts.len() - 1]))
    }
}

/// The whole evaluation of an expression: a constant is its own value, a
/// bare operator is `UnexpectedToken`, an empty block is `EmptyBlock`, and a
/// non-empty block runs the four elimination passes in the fixed order
/// multiply, divide, add, minus, then demands a single constant.
pub open spec fn spec_evaluate(e: ExpressionModel) -> Result<ValueModel, EvaluateErrorModel>
    decreases e, 0int,
{
    match e.expression {
        ExpressionEnumModel::Constant(lit) => Ok(ValueModel::Literal(lit)),
        ExpressionEnumModel::Block(stmts) => {
            if stmts.len() == 0 {
                Err(EvaluateErrorModel::EmptyBlock { span: e.span })
            } else {
                match run_pass(Operator::Multiply, items_of(stmts), 0) {
                    Err(er) => Err(er),
                    Ok(items1) => match run_pass(Operator::Divide, items1, 0) {
                        Err(er) => Err(er),
                        Ok(items2) => match run_pass(Operator::Add, items2, 0) {
                            Err(er) => Err(er),
                            Ok(items3) => match run_pass(Operator::Minus, items3, 0) {
                                Err(er) => Err(er),
                                Ok(items4) => finish_pass(items4),
                            },
                        },
                    },
                }
            }
        },
        _ => Err(EvaluateErrorModel::UnexpectedToken(e)),
    }
}

/// An evaluation error's span runs forward and lies within an input of
/// `len` characters.
pub open spec fn eval_error_span_wf(e: EvaluateErrorModel, len: nat) -> bool {
    match e.spec_get_span() {
        Some(sp) => sp.from <= sp.to <= len,
        None => true,
    }
}

/// A working item's span is well-formed, and so is the span of any error a
/// nested group carries.
pub open spec fn item_wf(it: ItemModel, len: nat) -> bool {
    &&& item_span(it).wf(len)
    &&& match it {
        ItemModel::Group { result, .. } => match result {
            Err(e) => eval_error_span_wf(e, len),
            Ok(_) => true,
        },
        _ => true,
    }
}

/// Every item of a working sequence is well-formed.
pub open spec fn items_wf(items: Seq<ItemModel>, len: nat) -> bool {
    forall|i: int| 0 <= i < items.len() ==> item_wf(#[trigger] items[i], len)
}

/// An elimination pass keeps working items well-formed, and any error it
/// returns carries a well-formed span.
proof fn lemma_run_pass_wf(kind: Operator, items: Seq<ItemModel>, i: int, len: nat)
    requires
        0 <= i,
        items_wf(items, len),
    ensures
        match run_pass(kind, items, i) {
            Ok(out) => items_wf(out, len),
            Err(e) => eval_error_span_wf(e, len),
        },
    decreases items.len() - i,
{
    if items.len() > 2 && i < items.len() - 2 {
        if item_is_op(items[i + 1], kind) {
            match spec_combine(kind, items[i], items[i + 2]) {
                Err(e) => {},
                Ok(it) => {
                    let next = items.subrange(0, i) + seq![it] + items.subrange(
                        i + 3,
                        items.len() as int,
                    );
                    assert(item_wf(it, len));
                    assert(items_wf(next, len));
                    lemma_run_pass_wf(kind, next, i, len);
                },
            }
        } else {
            lemma_run_pass_wf(kind, items, i + 1, len);
        }
    }
}

/// Folding the spans of well-formed items keeps the accumulator well-formed.
proof fn lemma_fold_leftover_wf(items: Seq<ItemModel>, k: int, acc: Span, len: nat)
    requires
        0 <= k,
        items_wf(items, len),
        acc.wf(len),
    ensures
        fold_leftover(items, k, acc).wf(len),
    decreases items.len() - k,
{
    if k < items.len() {
        let acc2 = if acc.from == 0 && acc.to == 0 {
            item_span(items[k])
        } else {
            acc.spec_merge(item_span(items[k]))
        };
        lemma_fold_leftover_wf(items, k + 1, acc2, len);
    }
}

/// A statement's working item is well-formed when the statement is.
proof fn lemma_to_item_wf(e: ExpressionModel, len: nat)
    requires
        crate::parser::wf_expr(e, len),
    ensures
        item_wf(to_item(e), len),
    decreases e, 1int,
{
    match e.expression {
        ExpressionEnumModel::Block(_) => {
            lemma_spec_evaluate_wf(e, len);
        },
        _ => {},
    }
}

/// The working items of well-formed statements are all well-formed.
proof fn lemma_items_of_wf(stmts: Seq<ExpressionModel>, len: nat)
    requires
        forall|i: int| 0 <= i < stmts.len() ==> crate::parser::wf_expr(#[trigger] stmts[i], len),
    ensures
        items_wf(items_of(stmts), len),
        items_of(stmts).len() == stmts.len(),
    decreases stmts, 0int,
{
    if stmts.len() > 0 {
        let fore = stmts.subrange(0, stmts.len() - 1);
        assert(forall|i: int| 0 <= i < fore.len() ==> fore[i] == stmts[i]);
        lemma_items_of_wf(fore, len);
        lemma_to_item_wf(stmts[stmts.len() - 1], len);
        assert(items_wf(items_of(stmts), len));
    }
}

/// Law: evaluating an expression whose spans are well-formed only ever
/// reports errors whose spans are well-formed: they run forward and lie
/// within the input.
pub proof fn lemma_spec_evaluate_wf(e: ExpressionModel, len: nat)
    requires
        crate::parser::wf_expr(e, len),
    ensures
        match spec_evaluate(e) {
            Err(er) => eval_error_span_wf(er, len),
            Ok(_) => true,
        },
    decreases e, 0int,
{
    match e.expression {
        ExpressionEnumModel::Block(stmts) => {
            if stmts.len() > 0 {
                lemma_items_of_wf(stmts, len);
                lemma_run_pass_wf(Operator::Multiply, items_of(stmts), 0, len);
                match run_pass(Operator::Multiply, items_of(stmts), 0) {
                    Err(_) => {},
                    Ok(items1) => {
                        lemma_run_pass_wf(Operator::Divide, items1, 0, len);
                        match run_pass(Operator::Divide, items1, 0) {
                            Err(_) => {},
                            Ok(items2) => {
                                lemma_run_pass_wf(Operator::Add, items2, 0, len);
                                match run_pass(Operator::Add, items2, 0) {
                                    Err(_) => {},
                                    Ok(items3) => {
                                        lemma_run_pass_wf(Operator::Minus, items3, 0, len);
                                        match run_pass(Operator::Minus, items3, 0) {
                                            Err(_) => {},
                                            Ok(items4) => {
                                                if items4.len() != 1 {
                                                    lemma_fold_leftover_wf(
                                                        items4,
                                                        1,
                                                        Span { from: 0, to: 0 },
                                                        len,
                                                    );
                                                }
                                            },
                                        }
                                    },
                                }
                            },
                        }
                    },
                }
            }
        },
        _ => {},
    }
}

/// One element of the working vector: the executable counterpart of
/// [`ItemModel`].
enum WorkItem {
    Op { kind: Operator, span: Span },
    Num { val: Value, span: Span },
    Group { result: Result<Value, EvaluateError>, span: Span },
}

/// The model of a working item.
spec fn work_item_view(w: WorkItem) -> ItemModel {
    match w {
        WorkItem::Op { kind, span } => ItemModel::Op { kind, span },
        WorkItem::Num { val, span } => ItemModel::Num { val: val@, span },
        WorkItem::Group { result, span } => ItemModel::Group {
            result: match result {
                Ok(v) => Ok(v@),
                Err(e) => Err(e@),
            },
            span,
        },
    }
}

/// The models of a working vector's elements, elementwise.
spec fn work_views(v: Seq<WorkItem>) -> Seq<ItemModel>
    decreases v,
{
    if v.len() == 0 {
        Seq::empty()
    } else {
        work_views(v.subrange(0, v.len() - 1)).push(work_item_view(v[v.len() - 1]))
    }
}

proof fn lemma_work_views_index(v: Seq<WorkItem>)
    ensures
        work_views(v).len() == v.len(),
        forall|i: int| 0 <= i < v.len() ==> work_views(v)[i] == work_item_view(v[i]),
    decreases v.len(),
{
    if v.len() > 0 {
        let fore = v.subrange(0, v.len() - 1);
        lemma_work_views_index(fore);
        assert(forall|i: int| 0 <= i < fore.len() ==> fore[i] == v[i]);
    }
}

proof fn lemma_work_views_push(v: Seq<WorkItem>, w: WorkItem)
    ensures
        work_views(v.push(w)) == work_views(v).push(work_item_view(w)),
{
    assert(v.push(w).subrange(0, v.push(w).len() - 1) =~= v);
}

/// The span of a working item.
fn work_item_span(w: &WorkItem) -> (r: Span)
    ensures
        r == item_span(work_item_view(*w)),
{
    match w {
        WorkItem::Op { span, .. } => *span,
        WorkItem::Num { span, .. } => *span,
        WorkItem::Group { span, .. } => *span,
    }
}

/// Consuming a working item as an operand.
fn work_item_value(w: WorkItem) -> (r: Result<Value, EvaluateError>)
    ensures
        match item_result(work_item_view(w)) {
            Ok(v) => r matches Ok(val) && val@ == v,
            Err(e) => r matches Err(er) && er@ == e,
        },
{
    match w {
        WorkItem::Op { kind, span } => {
            let expression = match kind {
                Operator::Add => ExpressionEnum::Add,
                Operator::Minus => ExpressionEnum::Minus,
                Operator::Multiply => ExpressionEnum::Multiply,
                Operator::Divide => ExpressionEnum::Divide,
            };
            Err(EvaluateError::UnexpectedToken(Expression { span, expression }))
        },
        WorkItem::Num { val, .. } => Ok(val),
        WorkItem::Group { result, .. } => result,
    }
}

/// One elimination pass, in place: sweep the working vector left to right
/// and collapse every triple whose middle element is this pass's operator,
/// re-examining the same position after each collapse.
#[verifier::loop_isolation(false)]
fn eliminate(kind: Operator, statements: &mut Vec<WorkItem>) -> (r: Result<(), EvaluateError>)
    ensures
        match run_pass(kind, work_views(old(statements)@), 0) {
            Ok(items) => r is Ok && work_views(final(statements)@) == items,
            Err(e) => r matches Err(er) && er@ == e,
        },
{
    let ghost items0 = work_views(old(statements)@);
    let mut i: usize = 0;
    while statements.len() > 2 && i < statements.len() - 2
        invariant
            items0 == work_views(old(statements)@),
            run_pass(kind, items0, 0) == run_pass(kind, work_views(statements@), i as int),
        decreases statements@.len() - i,
    {
        let ghost pre = statements@;
        proof {
            lemma_work_views_index(pre);
        }
        let is_match = match &statements[i + 1] {
            WorkItem::Op { kind: k, .. } => *k == kind,
            _ => false,
        };
        if is_match {
            let left = statements.remove(i);
            let right = statements.remove(i + 1);
            let left_span = work_item_span(&left);
            let right_span = work_item_span(&right);
            let lv = match work_item_value(left) {
                Ok(v) => v,
                Err(e) => {
                    proof {
                        lemma_work_views_index(statements@);
                    }
                    return Err(e);
                },
            };
            let rv = match work_item_value(right) {
                Ok(v) => v,
                Err(e) => {
                    return Err(e);
                },
            };
            let combined = WorkItem::Num {
                val: Value::Binary(kind, Box::new(lv), Box::new(rv)),
                span: left_span.merge(right_span),
            };
            let ghost mid = statements@;
            let _operator = statements.remove(i);
            statements.insert(i, combined);
            proof {
                assert(statements@ =~= pre.subrange(0, i as int) + seq![combined] + pre.subrange(
                    i + 3,
                    pre.len() as int,
                ));
                lemma_work_views_decompose(pre, i as int, combined);
            }
        } else {
            i = i + 1;
        }
    }
    proof {
        lemma_work_views_index(statements@);
    }
    Ok(())
}

/// The elementwise model of a replaced working sequence equals the spec
/// pass's replacement of the corresponding models.
proof fn lemma_work_views_decompose(pre: Seq<WorkItem>, i: int, combined: WorkItem)
    requires
        0 <= i,
        i + 3 <= pre.len(),
    ensures
        work_views(pre.subrange(0, i) + seq![combined] + pre.subrange(i + 3, pre.len() as int))
            =~= work_views(pre).subrange(0, i) + seq![work_item_view(combined)] + work_views(
            pre,
        ).subrange(i + 3, pre.len() as int),
{
    let lhs = pre.subrange(0, i) + seq![combined] + pre.subrange(i + 3, pre.len() as int);
    lemma_work_views_index(lhs);
    lemma_work_views_index(pre);
}

/// Evaluate a parsed expression to a single value: a constant stands for
/// itself; a block is reduced by the four elimination passes, in the fixed
/// order multiply, divide, add, minus, each nested group being evaluated to
/// a value when an operand is first needed; a bare operator is an error.
#[verifier::loop_isolation(false)]
pub fn evaluate(expr: Expression) -> (r: Result<Value, EvaluateError>)
    ensures
        match spec_evaluate(expr@) {
            Ok(v) => r matches Ok(val) && val@ == v,
            Err(e) => r matches Err(er) && er@ == e,
        },
    decreases expr,
{
    let ghost gexpr = expr;
    match expr.expression {
        ExpressionEnum::Constant(lit) => Ok(Value::Literal(lit)),
        ExpressionEnum::Block(statements) => {
            let span = expr.span;
            let ghost gvec = statements;
            let ghost stmts_m = crate::parser::views_of_exprs(gvec@);
            proof {
                crate::parser::lemma_views_of_exprs_index(gvec@);
            }
            if statements.is_empty() {
                return Err(EvaluateError::EmptyBlock { span });
            }
            let mut work: Vec<WorkItem> = Vec::new();
            let mut rest = statements;
            let ghost total = gvec@.len();
            proof {
                assert(gvec@.subrange(0, total as int) =~= gvec@);
                assert(work_views(work@) =~= items_of(stmts_m.subrange(0, 0)));
            }
            while !rest.is_empty()
                invariant
                    rest@ =~= gvec@.subrange(total - rest@.len(), total as int),
                    rest@.len() <= total,
                    work_views(work@) == items_of(
                        stmts_m.subrange(0, total - rest@.len()),
                    ),
                decreases rest@.len(),
            {
                let ghost done = total - rest@.len();
                let child = rest.remove(0);
                proof {
                    assert(child == gvec@[done]);
                    crate::parser::lemma_views_of_exprs_index(gvec@);
                    assert(child@ == stmts_m[done]);
                    assert(rest@ =~= gvec@.subrange(total - rest@.len(), total as int));
                }
                let cspan = child.span;
                let item: WorkItem = match child.expression {
                    ExpressionEnum::Constant(lit) => WorkItem::Num {
                        val: Value::Literal(lit),
                        span: cspan,
                    },
                    ExpressionEnum::Add => WorkItem::Op { kind: Operator::Add, span: cspan },
                    ExpressionEnum::Minus => WorkItem::Op { kind: Operator::Minus, span: cspan },
                    ExpressionEnum::Multiply => WorkItem::Op {
                        kind: Operator::Multiply,
                        span: cspan,
                    },
                    ExpressionEnum::Divide => WorkItem::Op {
                        kind: Operator::Divide,
                        span: cspan,
                    },
                    ExpressionEnum::Block(inner) => {
                        let sub = Expression { span: cspan, expression: ExpressionEnum::Block(inner) };
                        proof {
                            assert(sub == gvec@[done]);
                            assert(gexpr.expression->Block_0 == gvec);
                            assert(decreases_to!(gexpr => gexpr.expression));
                            assert(decreases_to!(gexpr.expression => gexpr.expression->Block_0));
                            assert(decreases_to!(gvec => gvec@));
                            assert(decreases_to!(gvec@ => gvec@[done]));
                            assert(decreases_to!(gexpr => sub));
                        }
                        let result = evaluate(sub);
                        WorkItem::Group { result, span: cspan }
                    },
                };
                proof {
                    assert(work_item_view(item) == to_item(stmts_m[done]));
                    lemma_work_views_push(work@, item);
                    assert(stmts_m.subrange(0, done + 1).subrange(0, done) =~= stmts_m.subrange(
                        0,
                        done,
                    ));
                    assert(items_of(stmts_m.subrange(0, done + 1)) == items_of(
                        stmts_m.subrange(0, done),
                    ).push(to_item(stmts_m[done])));
                }
                work.push(item);
            }
            proof {
                assert(stmts_m.subrange(0, total as int) =~= stmts_m);
            }
            match eliminate(Operator::Multiply, &mut work) {
                Ok(_) => {},
                Err(e) => {
                    return Err(e);
                },
            }
            match eliminate(Operator::Divide, &mut work) {
                Ok(_) => {},
                Err(e) => {
                    return Err(e);
                },
            }
            match eliminate(Operator::Add, &mut work) {
                Ok(_) => {},
                Err(e) => {
                    return Err(e);
                },
            }
            match eliminate(Operator::Minus, &mut work) {
                Ok(_) => {},
                Err(e) => {
                    return Err(e);
                },
            }
            proof {
                lemma_work_views_index(work@);
            }
            if work.len() != 1 {
                let mut acc = Span { from: 0, to: 0 };
                let mut t: usize = 1;
                let ghost items4 = work_views(work@);
                while t < work.len()
                    invariant
                        1 <= t,
                        items4 == work_views(work@),
                        items4.len() == work@.len(),
                        forall|x: int|
                            0 <= x < work@.len() ==> items4[x] == work_item_view(work@[x]),
                        fold_leftover(items4, 1, Span { from: 0, to: 0 }) == fold_leftover(
                            items4,
                            t as int,
                            acc,
                        ),
                    decreases work@.len() - t,
                {
                    let sp = work_item_span(&work[t]);
                    acc = if acc.from == 0 && acc.to == 0 {
                        sp
                    } else {
                        acc.merge(sp)
                    };
                    t = t + 1;
                }
                return Err(EvaluateError::InvalidExpression { span: acc });
            }
            let single = work.remove(0);
            match single {
                WorkItem::Num { val, .. } => Ok(val),
                WorkItem::Op { span: sp, .. } => Err(EvaluateError::InvalidExpression { span: sp }),
                WorkItem::Group { span: sp, .. } => Err(
                    EvaluateError::InvalidExpression { span: sp },
                ),
            }
        },
        ExpressionEnum::Add => Err(
            EvaluateError::UnexpectedToken(Expression { span: expr.span, expression: ExpressionEnum::Add }),
        ),
        ExpressionEnum::Minus => Err(
            EvaluateError::UnexpectedToken(
                Expression { span: expr.span, expression: ExpressionEnum::Minus },
            ),
        ),
        ExpressionEnum::Multiply => Err(
            EvaluateError::UnexpectedToken(
                Expression { span: expr.span, expression: ExpressionEnum::Multiply },
            ),
        ),
        ExpressionEnum::Divide => Err(
            EvaluateError::UnexpectedToken(
                Expression { span: expr.span, expression: ExpressionEnum::Divide },
            ),
        ),
    }
}

} // verus!
