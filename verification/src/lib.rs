//! A small arithmetic calculator: a recursive-descent parser for expressions
//! built from numeric literals, the four binary operators `+ - * /`, and
//! nested bracket groups `( ) [ ] { }`, together with an evaluator that
//! reduces the parsed tree by a fixed sequence of single-operator elimination
//! passes (multiply, then divide, then add, then minus).
//!
//! Every token, group and error carries a [`Span`]: a half-open range of
//! character offsets into the original input. The evaluator returns a
//! [`evaluator::Value`]: a tree of binary operations over the numeric
//! literals of the input, recording exactly which operands were combined and
//! in which order. Turning that tree into a machine float is left to the
//! caller, since floating-point arithmetic stays outside the verified code.

use vstd::prelude::*;

pub mod evaluator;
pub mod parser;

verus! {

/// A half-open range `[from, to)` of character offsets into the input text.
#[derive(Debug, Clone, Copy, PartialEq, Eq, Structural)]
pub struct Span {
    pub from: usize,
    pub to: usize,
}

impl Span {
    /// The smallest span covering both `self` and `other`.
    pub fn merge(self, other: Span) -> (r: Span)
        ensures
            r == self.spec_merge(other),
    {
        Span {
            from: if self.from <= other.from {
                self.from
            } else {
                other.from
            },
            to: if self.to >= other.to {
                self.to
            } else {
                other.to
            },
        }
    }

    /// What `merge` returns: the pointwise minimum and maximum of the bounds.
    pub open spec fn spec_merge(self, other: Span) -> Span {
        Span {
            from: if self.from <= other.from {
                self.from
            } else {
                other.from
            },
            to: if self.to >= other.to {
                self.to
            } else {
                other.to
            },
        }
    }

    /// A well-formed span within an input of `len` characters.
    pub open spec fn wf(self, len: nat) -> bool {
        self.from <= self.to <= len
    }
}

/// The whole pipeline on an input text: parse, then evaluate, with either
/// stage's error wrapped as a [`MathErrorModel`].
pub open spec fn spec_evaluate_text(s: Seq<char>) -> Result<
    evaluator::ValueModel,
    MathErrorModel,
> {
    match parser::spec_parse(s) {
        Err(pe) => Err(MathErrorModel::ParseError(pe)),
        Ok(e) => match evaluator::spec_evaluate(e) {
            Ok(v) => Ok(v),
            Err(ee) => Err(MathErrorModel::EvaluateError(ee)),
        },
    }
}

/// Parse and evaluate a statement: the single entry point of the calculator.
/// The result is a [`evaluator::Value`] tree; folding 32-bit float
/// arithmetic over it yields the numeric answer.
pub fn evaluate(statement: &str) -> (r: Result<evaluator::Value, MathError>)
    requires
        statement@.len() < usize::MAX,
    ensures
        match spec_evaluate_text(statement@) {
            Ok(v) => r matches Ok(val) && val@ == v,
            Err(e) => r matches Err(er) && er@ == e,
        },
{
    let expression = match parser::Expression::parse(statement) {
        Ok(e) => e,
        Err(pe) => {
            return Err(MathError::ParseError(pe));
        },
    };
    match evaluator::evaluate(expression) {
        Ok(v) => Ok(v),
        Err(ee) => Err(MathError::EvaluateError(ee)),
    }
}

/// Law: an input that is, in whole, one valid numeric literal evaluates to
/// exactly that literal. The numeric answer is then the literal parsed as a
/// 32-bit float, since folding float arithmetic over a lone literal leaf is
/// just parsing it.
pub proof fn lemma_literal_input_evaluates(s: Seq<char>)
    requires
        s.len() < usize::MAX,
        parser::valid_literal(s),
    ensures
        spec_evaluate_text(s) == Ok::<evaluator::ValueModel, MathErrorModel>(
            evaluator::ValueModel::Literal(s),
        ),
{
    let len = s.len() as int;
    assert(parser::is_ascii_digit_char(s[0]));
    assert(!parser::is_whitespace_char(s[0]));
    assert(parser::skip_ws(s, 0) == 0);
    parser::lemma_literal_end_all(s, 1);
    assert(forall|i: int| 0 <= i < len ==> s[i] != '_');
    parser::lemma_literal_chars_plain(s, 0, len);
    assert(s.subrange(0, len) =~= s);
    let token = parser::ExpressionModel {
        span: Span { from: 0, to: s.len() as usize },
        expression: parser::ExpressionEnumModel::Constant(s),
    };
    assert(parser::spec_parse_impl(s, 0) == parser::ParseStep::Token(token, len));
    assert(parser::skip_ws(s, len) == len);
    assert(parser::spec_parse_impl(s, len) == parser::ParseStep::Stop(len));
    assert(parser::spec_collect(s, len) == parser::CollectResult::Collected(
        Seq::<parser::ExpressionModel>::empty(),
        len,
    ));
    assert(seq![token] + Seq::<parser::ExpressionModel>::empty() =~= seq![token]);
    assert(parser::spec_collect(s, 0) == parser::CollectResult::Collected(seq![token], len));
    assert(parser::spec_parse(s) == Ok::<parser::ExpressionModel, parser::ParseError>(token));
}

/// Law: an input holding nothing but whitespace, the empty input included,
/// fails with `UnexpectedEnd`, which carries no span: there is nothing to
/// point at.
pub proof fn lemma_blank_input_unexpected_end(s: Seq<char>)
    requires
        s.len() < usize::MAX,
        forall|i: int| 0 <= i < s.len() ==> parser::is_whitespace_char(s[i]),
    ensures
        spec_evaluate_text(s) == Err::<evaluator::ValueModel, MathErrorModel>(
            MathErrorModel::ParseError(parser::ParseError::UnexpectedEnd),
        ),
{
    parser::lemma_skip_ws_all(s, 0);
    let len = s.len() as int;
    assert(parser::spec_parse_impl(s, 0) == parser::ParseStep::Stop(len));
    assert(parser::spec_collect(s, 0) == parser::CollectResult::Collected(
        Seq::<parser::ExpressionModel>::empty(),
        len,
    ));
}

/// Law (span monotonicity): every error the pipeline reports with a span has
/// `0 <= from <= to`, and `to` lies within the input, with one exception: a
/// missing end bracket discovered at the very end of input carries a span
/// ending one position past it, where the cursor came to rest after looking
/// for the closing character.
pub proof fn lemma_error_span_monotonic(s: Seq<char>)
    requires
        s.len() < usize::MAX,
    ensures
        match spec_evaluate_text(s) {
            Err(e) => match e.spec_get_span() {
                Some(sp) => {
                    &&& sp.from <= sp.to <= s.len() + 1
                    &&& (!(e matches MathErrorModel::ParseError(pe)
                        && pe is MissingEndBracket) ==> sp.to <= s.len())
                },
                None => true,
            },
            Ok(_) => true,
        },
{
    parser::lemma_parse_wf(s);
    match parser::spec_parse(s) {
        Ok(e) => {
            evaluator::lemma_spec_evaluate_wf(e, s.len());
        },
        Err(_) => {},
    }
}

/// An error from either stage of the pipeline.
#[derive(Debug)]
pub enum MathError {
    ParseError(parser::ParseError),
    EvaluateError(evaluator::EvaluateError),
}

/// The mathematical model of a [`MathError`].
pub enum MathErrorModel {
    ParseError(parser::ParseError),
    EvaluateError(evaluator::EvaluateErrorModel),
}

impl View for MathError {
    type V = MathErrorModel;

    open spec fn view(&self) -> MathErrorModel {
        match self {
            MathError::ParseError(e) => MathErrorModel::ParseError(*e),
            MathError::EvaluateError(e) => MathErrorModel::EvaluateError(e@),
        }
    }
}

impl MathErrorModel {
    /// The span of the model, mirroring [`MathError::get_span`].
    pub open spec fn spec_get_span(self) -> Option<Span> {
        match self {
            MathErrorModel::ParseError(e) => e.spec_get_span(),
            MathErrorModel::EvaluateError(e) => e.spec_get_span(),
        }
    }
}

impl MathError {
    /// The source location of the error, when one is known.
    pub fn get_span(&self) -> (r: Option<Span>)
        ensures
            r == self@.spec_get_span(),
    {
        match self {
            MathError::ParseError(e) => e.get_span(),
            MathError::EvaluateError(e) => e.get_span(),
        }
    }
}

impl From<parser::ParseError> for MathError {
    fn from(e: parser::ParseError) -> (r: MathError) {
        MathError::ParseError(e)
    }
}

impl vstd::std_specs::convert::FromSpecImpl<parser::ParseError> for MathError {
    open spec fn obeys_from_spec() -> bool {
        true
    }

    open spec fn from_spec(e: parser::ParseError) -> MathError {
        MathError::ParseError(e)
    }
}

impl From<evaluator::EvaluateError> for MathError {
    fn from(e: evaluator::EvaluateError) -> (r: MathError) {
        MathError::EvaluateError(e)
    }
}

impl vstd::std_specs::convert::FromSpecImpl<evaluator::EvaluateError> for MathError {
    open spec fn obeys_from_spec() -> bool {
        true
    }

    open spec fn from_spec(e: evaluator::EvaluateError) -> MathError {
        MathError::EvaluateError(e)
    }
}

} // verus!
