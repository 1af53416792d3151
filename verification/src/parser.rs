//! The parser: a single-pass cursor over the input characters and a
//! recursive-descent, bracket-aware tokenizer/grouper producing one
//! [`Expression`] tree with a [`Span`] on every node.

use crate::Span;
use vstd::prelude::*;
use vstd::string::StrSliceExecFns;

verus! {

/// A parsed expression together with the span of input text it covers.
#[derive(Debug)]
pub struct Expression {
    pub span: Span,
    pub expression: ExpressionEnum,
}

/// The value of an expression node: a numeric literal (held as the run of
/// characters it was written with), one of the four operator tokens, or a
/// grouped sequence of expressions.
#[derive(Debug)]
pub enum ExpressionEnum {
    Constant(Vec<char>),
    Add,
    Minus,
    Multiply,
    Divide,
    Block(Vec<Expression>),
}

/// The mathematical model of an [`Expression`].
pub struct ExpressionModel {
    pub span: Span,
    pub expression: ExpressionEnumModel,
}

/// The mathematical model of an [`ExpressionEnum`].
pub enum ExpressionEnumModel {
    Constant(Seq<char>),
    Add,
    Minus,
    Multiply,
    Divide,
    Block(Seq<ExpressionModel>),
}

/// The model of an [`Expression`], recursively.
pub open spec fn expr_view(e: Expression) -> ExpressionModel
    decreases e,
{
    ExpressionModel {
        span: e.span,
        expression: match e.expression {
            ExpressionEnum::Constant(lit) => ExpressionEnumModel::Constant(lit@),
            ExpressionEnum::Add => ExpressionEnumModel::Add,
            ExpressionEnum::Minus => ExpressionEnumModel::Minus,
            ExpressionEnum::Multiply => ExpressionEnumModel::Multiply,
            ExpressionEnum::Divide => ExpressionEnumModel::Divide,
            ExpressionEnum::Block(stmts) => ExpressionEnumModel::Block(views_of_exprs(stmts@)),
        },
    }
}

/// The models of a sequence of expressions, elementwise.
pub open spec fn views_of_exprs(v: Seq<Expression>) -> Seq<ExpressionModel>
    decreases v,
{
    if v.len() == 0 {
        Seq::empty()
    } else {
        views_of_exprs(v.subrange(0, v.len() - 1)).push(expr_view(v[v.len() - 1]))
    }
}

impl View for Expression {
    type V = ExpressionModel;

    open spec fn view(&self) -> ExpressionModel {
        expr_view(*self)
    }
}

/// Span-ignoring equality of expressions: only the tagged values are
/// compared, since spans are provenance metadata, not semantic content.
pub open spec fn tag_eq(a: ExpressionModel, b: ExpressionModel) -> bool
    decreases a,
{
    match a.expression {
        ExpressionEnumModel::Constant(x) => b.expression matches ExpressionEnumModel::Constant(y)
            && x == y,
        ExpressionEnumModel::Add => b.expression is Add,
        ExpressionEnumModel::Minus => b.expression is Minus,
        ExpressionEnumModel::Multiply => b.expression is Multiply,
        ExpressionEnumModel::Divide => b.expression is Divide,
        ExpressionEnumModel::Block(x) => b.expression matches ExpressionEnumModel::Block(y)
            && x.len() == y.len() && (forall|i: int|
            0 <= i < x.len() ==> tag_eq(#[trigger] x[i], y[i])),
    }
}

fn chars_eq(x: &Vec<char>, y: &Vec<char>) -> (r: bool)
    ensures
        r == (x@ == y@),
{
    if x.len() != y.len() {
        return false;
    }
    let mut i: usize = 0;
    while i < x.len()
        invariant
            i <= x@.len(),
            x@.len() == y@.len(),
            forall|j: int| 0 <= j < i ==> x@[j] == y@[j],
        decreases x@.len() - i,
    {
        if x[i] != y[i] {
            return false;
        }
        i = i + 1;
    }
    proof {
        assert(x@ =~= y@);
    }
    true
}

#[verifier::loop_isolation(false)]
fn expr_eq(a: &Expression, b: &Expression) -> (r: bool)
    ensures
        r == tag_eq(a@, b@),
    decreases a,
{
    let ghost ga = *a;
    match (&a.expression, &b.expression) {
        (ExpressionEnum::Constant(x), ExpressionEnum::Constant(y)) => chars_eq(x, y),
        (ExpressionEnum::Add, ExpressionEnum::Add) => true,
        (ExpressionEnum::Minus, ExpressionEnum::Minus) => true,
        (ExpressionEnum::Multiply, ExpressionEnum::Multiply) => true,
        (ExpressionEnum::Divide, ExpressionEnum::Divide) => true,
        (ExpressionEnum::Block(x), ExpressionEnum::Block(y)) => {
            proof {
                lemma_views_of_exprs_index(x@);
                lemma_views_of_exprs_index(y@);
                assert(a@.expression == ExpressionEnumModel::Block(views_of_exprs(x@)));
                assert(b@.expression == ExpressionEnumModel::Block(views_of_exprs(y@)));
            }
            if x.len() != y.len() {
                return false;
            }
            let mut i: usize = 0;
            while i < x.len()
                invariant
                    i <= x@.len(),
                    x@.len() == y@.len(),
                    forall|j: int|
                        0 <= j < i ==> tag_eq(views_of_exprs(x@)[j], views_of_exprs(y@)[j]),
                decreases x@.len() - i,
            {
                proof {
                    assert(ga.expression->Block_0 == *x);
                    assert(decreases_to!(ga => ga.expression));
                    assert(decreases_to!(ga.expression => ga.expression->Block_0));
                    assert(decreases_to!(ga.expression->Block_0 => x@));
                    assert(decreases_to!(x@ => x@[i as int]));
                    assert(decreases_to!(ga => x@[i as int]));
                }
                let sub_eq = expr_eq(&x[i], &y[i]);
                if !sub_eq {
                    proof {
                        assert(views_of_exprs(x@)[i as int] == expr_view(x@[i as int]));
                        assert(views_of_exprs(y@)[i as int] == expr_view(y@[i as int]));
                        assert(!tag_eq(
                            views_of_exprs(x@)[i as int],
                            views_of_exprs(y@)[i as int],
                        ));
                        assert(!tag_eq(a@, b@));
                    }
                    return false;
                }
                i = i + 1;
            }
            true
        },
        _ => false,
    }
}

impl PartialEq for Expression {
    /// Equality compares only the tagged values, never the spans.
    fn eq(&self, other: &Expression) -> bool {
        expr_eq(self, other)
    }
}

impl vstd::std_specs::cmp::PartialEqSpecImpl for Expression {
    open spec fn obeys_eq_spec() -> bool {
        true
    }

    open spec fn eq_spec(&self, other: &Expression) -> bool {
        tag_eq((*self)@, (*other)@)
    }
}

/// What `char::is_numeric` returns outside the ASCII range.
pub uninterp spec fn unicode_numeric(c: char) -> bool;

/// What `char::is_whitespace` returns outside the ASCII range.
pub uninterp spec fn unicode_whitespace(c: char) -> bool;

/// An ASCII decimal digit.
pub open spec fn is_ascii_digit_char(c: char) -> bool {
    48 <= c as u32 && c as u32 <= 57
}

/// A character on which tokenizing starts a numeric literal: the Unicode
/// number categories. Within ASCII those are exactly the digits.
pub open spec fn is_numeric_char(c: char) -> bool {
    if (c as u32) < 128 {
        is_ascii_digit_char(c)
    } else {
        unicode_numeric(c)
    }
}

/// A character the tokenizer skips: the Unicode `White_Space` set. Within
/// ASCII those are the space and the control characters U+0009 to U+000D.
pub open spec fn is_whitespace_char(c: char) -> bool {
    if (c as u32) < 128 {
        c == ' ' || (9 <= c as u32 && c as u32 <= 13)
    } else {
        unicode_whitespace(c)
    }
}

/// Relies on `char::is_numeric`: true exactly for the Unicode number
/// categories (Nd, Nl, No); within ASCII those are the digits 0 to 9.
#[verifier::external_body]
fn char_is_numeric(c: char) -> (r: bool)
    ensures
        r == is_numeric_char(c),
        c as u32 >= 128 ==> r == unicode_numeric(c),
{
    c.is_numeric()
}

/// Relies on `char::is_whitespace`: true exactly for the Unicode
/// `White_Space` property; within ASCII that is the space and U+0009 to
/// U+000D.
#[verifier::external_body]
fn char_is_whitespace(c: char) -> (r: bool)
    ensures
        r == is_whitespace_char(c),
        c as u32 >= 128 ==> r == unicode_whitespace(c),
{
    c.is_whitespace()
}

/// The operator token a character stands for, if any.
pub open spec fn operator_of(c: char) -> Option<ExpressionEnumModel> {
    if c == '*' {
        Some(ExpressionEnumModel::Multiply)
    } else if c == '/' {
        Some(ExpressionEnumModel::Divide)
    } else if c == '-' {
        Some(ExpressionEnumModel::Minus)
    } else if c == '+' {
        Some(ExpressionEnumModel::Add)
    } else {
        None
    }
}

/// An opening bracket.
pub open spec fn is_opener(c: char) -> bool {
    c == '(' || c == '[' || c == '{'
}

/// A closing bracket.
pub open spec fn is_closer(c: char) -> bool {
    c == ')' || c == ']' || c == '}'
}

/// The single closing character required for an opening bracket. Anything
/// that is neither `(` nor `[` is paired with `}`, as the tokenizer only
/// enters a group on one of the three openers.
pub open spec fn closer_of(c: char) -> char {
    if c == '(' {
        ')'
    } else if c == '[' {
        ']'
    } else {
        '}'
    }
}

/// The first offset at or after `i` holding a non-whitespace character, or
/// the input's length if only whitespace remains.
pub open spec fn skip_ws(s: Seq<char>, i: int) -> int
    decreases s.len() - i,
        when 0 <= i
{
    if i >= s.len() {
        i
    } else if is_whitespace_char(s[i]) {
        skip_ws(s, i + 1)
    } else {
        i
    }
}

pub proof fn lemma_skip_ws(s: Seq<char>, i: int)
    requires
        0 <= i <= s.len(),
    ensures
        i <= skip_ws(s, i) <= s.len(),
        skip_ws(s, i) < s.len() ==> !is_whitespace_char(s[skip_ws(s, i)]),
    decreases s.len() - i,
{
    if i < s.len() && is_whitespace_char(s[i]) {
        lemma_skip_ws(s, i + 1);
    }
}

/// Skipping whitespace over a run that is all whitespace reaches the end of
/// the input.
pub proof fn lemma_skip_ws_all(s: Seq<char>, m: int)
    requires
        0 <= m <= s.len(),
        forall|i: int| m <= i < s.len() ==> is_whitespace_char(s[i]),
    ensures
        skip_ws(s, m) == s.len(),
    decreases s.len() - m,
{
    if m < s.len() {
        lemma_skip_ws_all(s, m + 1);
    }
}

/// The first offset at or after `i` holding a character that ends a numeric
/// literal: one that is not numeric, not `.` and not `_`.
pub open spec fn literal_end(s: Seq<char>, i: int) -> int
    decreases s.len() - i,
        when 0 <= i
{
    if i >= s.len() {
        i
    } else if is_numeric_char(s[i]) || s[i] == '.' || s[i] == '_' {
        literal_end(s, i + 1)
    } else {
        i
    }
}

pub proof fn lemma_literal_end(s: Seq<char>, i: int)
    requires
        0 <= i <= s.len(),
    ensures
        i <= literal_end(s, i) <= s.len(),
    decreases s.len() - i,
{
    if i < s.len() && (is_numeric_char(s[i]) || s[i] == '.' || s[i] == '_') {
        lemma_literal_end(s, i + 1);
    }
}

/// The characters of the literal scanned over `[j, k)`, with each `_`
/// (a digit-grouping separator) consumed but not kept.
pub open spec fn literal_chars(s: Seq<char>, j: int, k: int) -> Seq<char>
    decreases k - j,
        when j <= k
{
    if k <= j {
        Seq::empty()
    } else if s[k - 1] == '_' {
        literal_chars(s, j, k - 1)
    } else {
        literal_chars(s, j, k - 1).push(s[k - 1])
    }
}

/// How many `.` characters a literal holds.
pub open spec fn dot_count(s: Seq<char>) -> nat
    decreases s.len(),
{
    if s.len() == 0 {
        0
    } else {
        dot_count(s.subrange(0, s.len() - 1)) + if s[s.len() - 1] == '.' {
            1nat
        } else {
            0nat
        }
    }
}

/// A literal the system accepts as a 32-bit float: digits with at most one
/// decimal point. Everything else the scanner can accumulate, such as a
/// second point or a numeral outside ASCII, is rejected by float parsing.
pub open spec fn valid_literal(lit: Seq<char>) -> bool {
    &&& lit.len() > 0
    &&& is_ascii_digit_char(lit[0])
    &&& forall|i: int| 0 <= i < lit.len() ==> is_ascii_digit_char(lit[i]) || lit[i] == '.'
    &&& dot_count(lit) <= 1
}

/// What one step of the tokenizer yields: a token or group together with the
/// cursor position after it, a stop (end of input, or an unconsumed closing
/// bracket) with the cursor's resting position, or an error.
pub enum ParseStep {
    Token(ExpressionModel, int),
    Stop(int),
    Failed(ParseError),
}

/// What collecting tokens until a stop yields: the tokens in order and the
/// cursor position of the stop, or the first error.
pub enum CollectResult {
    Collected(Seq<ExpressionModel>, int),
    Failed(ParseError),
}

/// One step of the tokenizer at offset `i`: skip whitespace, then read an
/// operator, a bracket group, a numeric literal, or report a stop or an
/// error, exactly as [`Expression::parse_impl`] does.
pub open spec fn spec_parse_impl(s: Seq<char>, i: int) -> ParseStep
    decreases s.len() - i, 1int,
        when 0 <= i <= s.len()
{
    let j = skip_ws(s, i);
    if j >= s.len() {
        ParseStep::Stop(j)
    } else {
        let c = s[j];
        if operator_of(c) is Some {
            ParseStep::Token(
                ExpressionModel {
                    span: Span { from: j as usize, to: (j + 1) as usize },
                    expression: operator_of(c)->Some_0,
                },
                j + 1,
            )
        } else if is_opener(c) {
            proof {
                lemma_skip_ws(s, i);
            }
            spec_parse_block(s, j)
        } else if is_closer(c) {
            ParseStep::Stop(j)
        } else if is_numeric_char(c) {
            let k = literal_end(s, j + 1);
            let lit = literal_chars(s, j, k);
            let span = Span { from: j as usize, to: k as usize };
            if valid_literal(lit) {
                ParseStep::Token(
                    ExpressionModel { span, expression: ExpressionEnumModel::Constant(lit) },
                    k,
                )
            } else {
                ParseStep::Failed(ParseError::ParseFloatError { span })
            }
        } else {
            ParseStep::Failed(
                ParseError::InvalidToken {
                    token: c,
                    span: Span { from: j as usize, to: (j + 1) as usize },
                },
            )
        }
    }
}

/// A bracket group opened at offset `j`: collect inner tokens, then demand
/// the single closing character paired with the opener. The cursor advances
/// past the position examined for the closer even when the input has ended
/// there, exactly as [`Expression::parse_block`] does.
pub open spec fn spec_parse_block(s: Seq<char>, j: int) -> ParseStep
    decreases s.len() - j, 0int,
        when 0 <= j < s.len()
{
    let closer = closer_of(s[j]);
    match spec_collect(s, j + 1) {
        CollectResult::Failed(e) => ParseStep::Failed(e),
        CollectResult::Collected(items, p) => {
            if p < s.len() && s[p] == closer {
                ParseStep::Token(
                    ExpressionModel {
                        span: Span { from: j as usize, to: (p + 1) as usize },
                        expression: ExpressionEnumModel::Block(items),
                    },
                    p + 1,
                )
            } else {
                ParseStep::Failed(
                    ParseError::MissingEndBracket {
                        start_bracket: s[j],
                        span: Span { from: j as usize, to: (p + 1) as usize },
                    },
                )
            }
        },
    }
}

/// Tokens collected from offset `i` until the tokenizer stops: the implicit
/// sequence at the top level and inside every bracket group.
pub open spec fn spec_collect(s: Seq<char>, i: int) -> CollectResult
    decreases s.len() - i, 2int,
        when 0 <= i <= s.len()
{
    match spec_parse_impl(s, i) {
        ParseStep::Failed(e) => CollectResult::Failed(e),
        ParseStep::Stop(p) => CollectResult::Collected(Seq::empty(), p),
        ParseStep::Token(e, p) => {
            if i < p <= s.len() {
                match spec_collect(s, p) {
                    CollectResult::Failed(e2) => CollectResult::Failed(e2),
                    CollectResult::Collected(rest, q) => CollectResult::Collected(
                        seq![e] + rest,
                        q,
                    ),
                }
            } else {
                // never reached: a token always advances the cursor,
                // as lemma_parse_impl_progress shows
                CollectResult::Collected(seq![e], p)
            }
        },
    }
}

/// The whole parse of an input: collect the top-level tokens; an empty
/// collection is `UnexpectedEnd`, a stop before the end of input is
/// `TrailingTokens`, a single token stands alone, and anything longer is
/// wrapped in a block spanning the consumed input.
pub open spec fn spec_parse(s: Seq<char>) -> Result<ExpressionModel, ParseError> {
    match spec_collect(s, 0) {
        CollectResult::Failed(e) => Err(e),
        CollectResult::Collected(items, p) => {
            if items.len() == 0 {
                Err(ParseError::UnexpectedEnd)
            } else if p < s.len() {
                Err(
                    ParseError::TrailingTokens {
                        span: Span { from: p as usize, to: s.len() as usize },
                    },
                )
            } else if items.len() == 1 {
                Ok(items[0])
            } else {
                Ok(
                    ExpressionModel {
                        span: Span { from: 0, to: p as usize },
                        expression: ExpressionEnumModel::Block(items),
                    },
                )
            }
        },
    }
}

/// A tokenizer step always moves the cursor forward (strictly so when it
/// yields a token) and never past the end of input.
pub proof fn lemma_parse_impl_progress(s: Seq<char>, i: int)
    requires
        0 <= i <= s.len(),
    ensures
        match spec_parse_impl(s, i) {
            ParseStep::Token(e, p) => i < p <= s.len(),
            ParseStep::Stop(p) => i <= p <= s.len(),
            ParseStep::Failed(_) => true,
        },
    decreases s.len() - i, 1int,
{
    lemma_skip_ws(s, i);
    let j = skip_ws(s, i);
    if j < s.len() {
        let c = s[j];
        if operator_of(c) is Some {
        } else if is_opener(c) {
            lemma_parse_block_progress(s, j);
        } else if is_closer(c) {
        } else if is_numeric_char(c) {
            lemma_literal_end(s, j + 1);
        }
    }
}

/// Parsing a bracket group always moves the cursor strictly forward and
/// never past the end of input.
pub proof fn lemma_parse_block_progress(s: Seq<char>, j: int)
    requires
        0 <= j < s.len(),
    ensures
        match spec_parse_block(s, j) {
            ParseStep::Token(e, p) => j < p <= s.len(),
            ParseStep::Stop(p) => false,
            ParseStep::Failed(_) => true,
        },
    decreases s.len() - j, 0int,
{
    lemma_collect_progress(s, j + 1);
}

/// Collecting tokens leaves the cursor at or after where it started and
/// never past the end of input.
pub proof fn lemma_collect_progress(s: Seq<char>, i: int)
    requires
        0 <= i <= s.len(),
    ensures
        match spec_collect(s, i) {
            CollectResult::Collected(items, p) => i <= p <= s.len(),
            CollectResult::Failed(_) => true,
        },
    decreases s.len() - i, 2int,
{
    lemma_parse_impl_progress(s, i);
    match spec_parse_impl(s, i) {
        ParseStep::Token(e, p) => {
            lemma_collect_progress(s, p);
        },
        _ => {},
    }
}

/// Scanning a run made only of digits and decimal points reaches the end of
/// the input.
pub proof fn lemma_literal_end_all(s: Seq<char>, m: int)
    requires
        0 <= m <= s.len(),
        forall|i: int| m <= i < s.len() ==> is_ascii_digit_char(s[i]) || s[i] == '.',
    ensures
        literal_end(s, m) == s.len(),
    decreases s.len() - m,
{
    if m < s.len() {
        assert(is_numeric_char(s[m]) || s[m] == '.');
        lemma_literal_end_all(s, m + 1);
    }
}

/// A scanned run without digit-grouping separators keeps its characters.
pub proof fn lemma_literal_chars_plain(s: Seq<char>, j: int, k: int)
    requires
        0 <= j <= k <= s.len(),
        forall|i: int| j <= i < k ==> s[i] != '_',
    ensures
        literal_chars(s, j, k) == s.subrange(j, k),
    decreases k - j,
{
    if k > j {
        lemma_literal_chars_plain(s, j, k - 1);
        assert(s.subrange(j, k) =~= s.subrange(j, k - 1).push(s[k - 1]));
    } else {
        assert(s.subrange(j, k) =~= Seq::<char>::empty());
    }
}

/// A collection with tokens put in front of it: the tokens already taken,
/// followed by whatever a continued collection yields.
pub open spec fn prepend_items(a: Seq<ExpressionModel>, cr: CollectResult) -> CollectResult {
    match cr {
        CollectResult::Failed(e) => CollectResult::Failed(e),
        CollectResult::Collected(rest, p) => CollectResult::Collected(a + rest, p),
    }
}

proof fn lemma_prepend_empty(cr: CollectResult)
    ensures
        prepend_items(Seq::empty(), cr) == cr,
{
    match cr {
        CollectResult::Collected(rest, p) => {
            assert(Seq::<ExpressionModel>::empty() + rest =~= rest);
        },
        CollectResult::Failed(_) => {},
    }
}

proof fn lemma_prepend_push(a: Seq<ExpressionModel>, e: ExpressionModel, cr: CollectResult)
    ensures
        prepend_items(a.push(e), cr) == prepend_items(a, prepend_items(seq![e], cr)),
{
    match cr {
        CollectResult::Collected(rest, p) => {
            assert(a.push(e) + rest =~= a + (seq![e] + rest));
        },
        CollectResult::Failed(_) => {},
    }
}

proof fn lemma_prepend_collected(a: Seq<ExpressionModel>, p: int)
    ensures
        prepend_items(a, CollectResult::Collected(Seq::empty(), p)) == CollectResult::Collected(
            a,
            p,
        ),
{
    assert(a + Seq::<ExpressionModel>::empty() =~= a);
}

proof fn lemma_views_of_exprs_push(v: Seq<Expression>, e: Expression)
    ensures
        views_of_exprs(v.push(e)) == views_of_exprs(v).push(expr_view(e)),
{
    assert(v.push(e).subrange(0, v.push(e).len() - 1) =~= v);
}

/// The elementwise model of a sequence of expressions keeps its length and
/// models each element in place.
pub proof fn lemma_views_of_exprs_index(v: Seq<Expression>)
    ensures
        views_of_exprs(v).len() == v.len(),
        forall|i: int| 0 <= i < v.len() ==> views_of_exprs(v)[i] == expr_view(v[i]),
    decreases v.len(),
{
    if v.len() > 0 {
        let fore = v.subrange(0, v.len() - 1);
        lemma_views_of_exprs_index(fore);
        assert(forall|i: int| 0 <= i < fore.len() ==> fore[i] == v[i]);
    }
}

/// Collecting where the tokenizer yields a token: that token in front of
/// the collection from the position after it.
proof fn lemma_collect_unfold_token(s: Seq<char>, i: int)
    requires
        0 <= i <= s.len(),
        spec_parse_impl(s, i) is Token,
    ensures
        spec_collect(s, i) == prepend_items(
            seq![spec_parse_impl(s, i)->Token_0],
            spec_collect(s, spec_parse_impl(s, i)->Token_1),
        ),
{
    lemma_parse_impl_progress(s, i);
    let p = spec_parse_impl(s, i)->Token_1;
    match spec_collect(s, p) {
        CollectResult::Collected(rest, q) => {},
        CollectResult::Failed(_) => {},
    }
}

/// Collecting right at a stop position (the end of input, or a closing
/// bracket) yields nothing and stays put.
proof fn lemma_collect_at_stop(s: Seq<char>, i: int)
    requires
        0 <= i <= s.len(),
        spec_parse_impl(s, i) is Stop,
    ensures
        i <= spec_parse_impl(s, i)->Stop_0 <= s.len(),
        spec_collect(s, spec_parse_impl(s, i)->Stop_0) == CollectResult::Collected(
            Seq::empty(),
            spec_parse_impl(s, i)->Stop_0,
        ),
{
    lemma_skip_ws(s, i);
    let j = skip_ws(s, i);
    let p = spec_parse_impl(s, i)->Stop_0;
    if j < s.len() {
        if is_opener(s[j]) {
            lemma_parse_block_progress(s, j);
            assert(false);
        }
        assert(is_closer(s[j]));
        assert(p == j);
        assert(!is_whitespace_char(s[p]));
        assert(skip_ws(s, p) == p);
        assert(spec_parse_impl(s, p) == ParseStep::Stop(p));
    } else {
        assert(p == j && j == s.len());
        assert(skip_ws(s, p) == p);
        assert(spec_parse_impl(s, p) == ParseStep::Stop(p));
    }
}

/// An error found while parsing.
#[derive(Debug, Clone, Copy)]
pub enum ParseError {
    /// The input held no token at all.
    UnexpectedEnd,
    /// Input remained after top-level collection stopped (an unmatched
    /// closing bracket).
    TrailingTokens { span: Span },
    /// A character that starts no token.
    InvalidToken { span: Span, token: char },
    /// A bracket group that did not end with the single closing character
    /// required by its opening character.
    MissingEndBracket { start_bracket: char, span: Span },
    /// A numeric literal whose characters do not form a valid float, such as
    /// one with two decimal points.
    ParseFloatError { span: Span },
}

impl ParseError {
    /// The span of the error, mirroring [`ParseError::get_span`].
    pub open spec fn spec_get_span(self) -> Option<Span> {
        match self {
            ParseError::TrailingTokens { span } => Some(span),
            ParseError::InvalidToken { span, .. } => Some(span),
            ParseError::MissingEndBracket { span, .. } => Some(span),
            ParseError::ParseFloatError { span } => Some(span),
            ParseError::UnexpectedEnd => None,
        }
    }

    /// The source location of the error, when one is known.
    pub fn get_span(&self) -> (r: Option<Span>)
        ensures
            r == self.spec_get_span(),
    {
        match *self {
            ParseError::TrailingTokens { span } => Some(span),
            ParseError::InvalidToken { span, .. } => Some(span),
            ParseError::MissingEndBracket { span, .. } => Some(span),
            ParseError::ParseFloatError { span } => Some(span),
            ParseError::UnexpectedEnd => None,
        }
    }
}

/// Every span in a parsed expression runs forward and lies within an input
/// of `len` characters.
pub open spec fn wf_expr(e: ExpressionModel, len: nat) -> bool
    decreases e,
{
    &&& e.span.wf(len)
    &&& match e.expression {
        ExpressionEnumModel::Block(items) => forall|i: int|
            0 <= i < items.len() ==> wf_expr(#[trigger] items[i], len),
        _ => true,
    }
}

/// A parse error's span runs forward and lies within the input, except that
/// a missing end bracket found at the very end of input carries a span
/// ending one past it, where the cursor came to rest.
pub open spec fn parse_error_span_wf(err: ParseError, len: nat) -> bool {
    match err.spec_get_span() {
        Some(sp) => sp.from <= sp.to <= len + 1 && (!(err is MissingEndBracket) ==> sp.to
            <= len),
        None => true,
    }
}

/// A tokenizer step yields tokens with well-formed spans and errors with
/// well-formed spans.
pub proof fn lemma_parse_impl_wf(s: Seq<char>, i: int)
    requires
        0 <= i <= s.len(),
        s.len() < usize::MAX,
    ensures
        match spec_parse_impl(s, i) {
            ParseStep::Token(e, p) => wf_expr(e, s.len()),
            ParseStep::Stop(p) => true,
            ParseStep::Failed(err) => parse_error_span_wf(err, s.len()),
        },
    decreases s.len() - i, 1int,
{
    lemma_skip_ws(s, i);
    let j = skip_ws(s, i);
    if j < s.len() {
        let c = s[j];
        if operator_of(c) is Some {
        } else if is_opener(c) {
            lemma_parse_block_wf(s, j);
        } else if is_closer(c) {
        } else if is_numeric_char(c) {
            lemma_literal_end(s, j + 1);
        }
    }
}

/// A parsed bracket group has well-formed spans throughout.
pub proof fn lemma_parse_block_wf(s: Seq<char>, j: int)
    requires
        0 <= j < s.len(),
        s.len() < usize::MAX,
    ensures
        match spec_parse_block(s, j) {
            ParseStep::Token(e, p) => wf_expr(e, s.len()),
            ParseStep::Stop(p) => true,
            ParseStep::Failed(err) => parse_error_span_wf(err, s.len()),
        },
    decreases s.len() - j, 0int,
{
    lemma_collect_progress(s, j + 1);
    lemma_collect_wf(s, j + 1);
}

/// Collected tokens all have well-formed spans.
pub proof fn lemma_collect_wf(s: Seq<char>, i: int)
    requires
        0 <= i <= s.len(),
        s.len() < usize::MAX,
    ensures
        match spec_collect(s, i) {
            CollectResult::Collected(items, p) => forall|t: int|
                0 <= t < items.len() ==> wf_expr(#[trigger] items[t], s.len()),
            CollectResult::Failed(err) => parse_error_span_wf(err, s.len()),
        },
    decreases s.len() - i, 2int,
{
    lemma_parse_impl_progress(s, i);
    lemma_parse_impl_wf(s, i);
    match spec_parse_impl(s, i) {
        ParseStep::Token(e, p) => {
            lemma_collect_wf(s, p);
        },
        _ => {},
    }
}

/// Law: whatever the parser returns has well-formed spans: every token's and
/// every error's span runs forward, and stays within the input but for a
/// missing end bracket at the end of input, which ends one past it.
pub proof fn lemma_parse_wf(s: Seq<char>)
    requires
        s.len() < usize::MAX,
    ensures
        match spec_parse(s) {
            Ok(e) => wf_expr(e, s.len()),
            Err(err) => parse_error_span_wf(err, s.len()),
        },
{
    lemma_collect_progress(s, 0);
    lemma_collect_wf(s, 0);
}

/// The parsing cursor: the input as a random-accessible sequence of
/// characters, and a single index.
pub struct Reader {
    pub chars: Vec<char>,
    pub index: usize,
}

impl Reader {
    /// A reader over the characters of `s`, with the cursor at the start.
    pub fn from(s: &str) -> (r: Reader)
        ensures
            r.chars@ == s@,
            r.index == 0,
    {
        let n = s.unicode_len();
        let mut chars: Vec<char> = Vec::new();
        let mut i: usize = 0;
        while i < n
            invariant
                n == s@.len(),
                i <= n,
                chars@ == s@.subrange(0, i as int),
            decreases n - i,
        {
            let c = s.get_char(i);
            chars.push(c);
            proof {
                assert(s@.subrange(0, i + 1 as int) =~= s@.subrange(0, i as int).push(
                    s@[i as int],
                ));
            }
            i = i + 1;
        }
        proof {
            assert(s@.subrange(0, n as int) =~= s@);
        }
        Reader { chars, index: 0 }
    }

    /// The character at the cursor, consumed. The cursor advances even when
    /// the input has already ended.
    pub fn take(&mut self) -> (r: Option<char>)
        requires
            old(self).index < usize::MAX,
        ensures
            final(self).chars == old(self).chars,
            final(self).index == old(self).index + 1,
            r == (if old(self).index < old(self).chars@.len() {
                Some(old(self).chars@[old(self).index as int])
            } else {
                None::<char>
            }),
    {
        let result = self.peek();
        self.index = self.index + 1;
        result
    }

    /// The character at the cursor, without advancing.
    pub fn peek(&mut self) -> (r: Option<char>)
        ensures
            *final(self) == *old(self),
            r == (if old(self).index < old(self).chars@.len() {
                Some(old(self).chars@[old(self).index as int])
            } else {
                None::<char>
            }),
    {
        if self.index < self.chars.len() {
            Some(self.chars[self.index])
        } else {
            None
        }
    }

    /// Whether the cursor is at or past the end of the input.
    pub fn is_at_eof(&self) -> (r: bool)
        ensures
            r == (self.index >= self.chars@.len()),
    {
        self.index >= self.chars.len()
    }
}

impl Expression {
    /// Parse a whole input into one expression: collect top-level tokens,
    /// then demand that something was read and that all input was consumed.
    pub fn parse(input: &str) -> (r: Result<Expression, ParseError>)
        requires
            input@.len() < usize::MAX,
        ensures
            match spec_parse(input@) {
                Ok(e) => r matches Ok(ex) && ex@ == e,
                Err(pe) => r matches Err(e2) && e2 == pe,
            },
    {
        let ghost s = input@;
        let mut reader = Reader::from(input);
        let mut result: Vec<Expression> = Vec::new();
        proof {
            lemma_prepend_empty(spec_collect(s, 0));
        }
        loop
            invariant
                s == input@,
                reader.chars@ == s,
                s.len() < usize::MAX,
                reader.index <= s.len(),
                spec_collect(s, 0) == prepend_items(
                    views_of_exprs(result@),
                    spec_collect(s, reader.index as int),
                ),
            ensures
                reader.chars@ == s,
                reader.index <= s.len(),
                spec_collect(s, 0) == CollectResult::Collected(
                    views_of_exprs(result@),
                    reader.index as int,
                ),
            decreases s.len() - reader.index,
        {
            let ghost idx0 = reader.index as int;
            match Expression::parse_impl(&mut reader) {
                Err(e) => {
                    return Err(e);
                },
                Ok(None) => {
                    proof {
                        lemma_parse_impl_progress(s, idx0);
                        lemma_collect_at_stop(s, idx0);
                        lemma_prepend_collected(views_of_exprs(result@), reader.index as int);
                    }
                    break ;
                },
                Ok(Some(child)) => {
                    proof {
                        lemma_parse_impl_progress(s, idx0);
                        lemma_collect_unfold_token(s, idx0);
                        lemma_prepend_push(
                            views_of_exprs(result@),
                            child@,
                            spec_collect(s, reader.index as int),
                        );
                        lemma_views_of_exprs_push(result@, child);
                    }
                    result.push(child);
                },
            }
        }
        proof {
            lemma_views_of_exprs_index(result@);
        }
        if result.len() == 0 {
            return Err(ParseError::UnexpectedEnd);
        }
        if !reader.is_at_eof() {
            return Err(
                ParseError::TrailingTokens {
                    span: Span { from: reader.index, to: reader.chars.len() },
                },
            );
        }
        if result.len() == 1 {
            let ghost items = views_of_exprs(result@);
            let first = result.remove(0);
            proof {
                assert(first@ == items[0]);
            }
            return Ok(first);
        }
        Ok(
            Expression {
                span: Span { from: 0, to: reader.index },
                expression: ExpressionEnum::Block(result),
            },
        )
    }

    /// A bracket group: record the opener, collect inner tokens, then demand
    /// the single closing character paired with the opener.
    fn parse_block(reader: &mut Reader) -> (r: Result<Option<Expression>, ParseError>)
        requires
            old(reader).index < old(reader).chars@.len(),
            old(reader).chars@.len() < usize::MAX,
            is_opener(old(reader).chars@[old(reader).index as int]),
        ensures
            final(reader).chars@ == old(reader).chars@,
            match spec_parse_block(old(reader).chars@, old(reader).index as int) {
                ParseStep::Token(e, p) => r matches Ok(o) && o matches Some(ex) && ex@ == e
                    && final(reader).index == p,
                ParseStep::Stop(p) => false,
                ParseStep::Failed(err) => r matches Err(e2) && e2 == err,
            },
        decreases old(reader).chars@.len() - old(reader).index, 0int,
    {
        let ghost s = reader.chars@;
        let ghost j = reader.index as int;
        let start_index = reader.index;
        let start = reader.take().unwrap();
        let end_token = if start == '(' {
            ')'
        } else if start == '[' {
            ']'
        } else {
            '}'
        };
        let mut inner: Vec<Expression> = Vec::new();
        proof {
            lemma_prepend_empty(spec_collect(s, j + 1));
        }
        loop
            invariant
                reader.chars@ == s,
                s.len() < usize::MAX,
                0 <= j < s.len(),
                j + 1 <= reader.index <= s.len(),
                end_token == closer_of(s[j]),
                start == s[j],
                start_index == j,
                old(reader).chars@ == s,
                old(reader).index as int == j,
                spec_collect(s, j + 1) == prepend_items(
                    views_of_exprs(inner@),
                    spec_collect(s, reader.index as int),
                ),
            ensures
                reader.chars@ == s,
                j + 1 <= reader.index <= s.len(),
                spec_collect(s, j + 1) == CollectResult::Collected(
                    views_of_exprs(inner@),
                    reader.index as int,
                ),
            decreases s.len() - reader.index,
        {
            let ghost idx0 = reader.index as int;
            match Expression::parse_impl(reader) {
                Err(e) => {
                    return Err(e);
                },
                Ok(None) => {
                    proof {
                        lemma_parse_impl_progress(s, idx0);
                        lemma_collect_at_stop(s, idx0);
                        lemma_prepend_collected(views_of_exprs(inner@), reader.index as int);
                    }
                    break ;
                },
                Ok(Some(child)) => {
                    proof {
                        lemma_parse_impl_progress(s, idx0);
                        lemma_collect_unfold_token(s, idx0);
                        lemma_prepend_push(
                            views_of_exprs(inner@),
                            child@,
                            spec_collect(s, reader.index as int),
                        );
                        lemma_views_of_exprs_push(inner@, child);
                    }
                    inner.push(child);
                },
            }
        }
        let took = reader.take();
        let matched = match took {
            Some(ch) => ch == end_token,
            None => false,
        };
        if !matched {
            return Err(
                ParseError::MissingEndBracket {
                    start_bracket: start,
                    span: Span { from: start_index, to: reader.index },
                },
            );
        }
        Ok(
            Some(
                Expression {
                    span: Span { from: start_index, to: reader.index },
                    expression: ExpressionEnum::Block(inner),
                },
            ),
        )
    }

    /// One parsing step: skip whitespace, then read an operator token, a
    /// bracket group or a numeric literal. `Ok(None)` reports that the
    /// current collection should stop: the input has ended, or a closing
    /// bracket stands at the cursor, left unconsumed for the enclosing
    /// group.
    fn parse_impl(reader: &mut Reader) -> (r: Result<Option<Expression>, ParseError>)
        requires
            old(reader).index <= old(reader).chars@.len(),
            old(reader).chars@.len() < usize::MAX,
        ensures
            final(reader).chars@ == old(reader).chars@,
            match spec_parse_impl(old(reader).chars@, old(reader).index as int) {
                ParseStep::Token(e, p) => r matches Ok(o) && o matches Some(ex) && ex@ == e
                    && final(reader).index == p,
                ParseStep::Stop(p) => r matches Ok(o) && o is None && final(reader).index == p,
                ParseStep::Failed(err) => r matches Err(e2) && e2 == err,
            },
        decreases old(reader).chars@.len() - old(reader).index, 1int,
    {
        let ghost s = reader.chars@;
        let ghost i0 = reader.index as int;
        let mut c: char;
        match reader.peek() {
            Some(ch) => {
                c = ch;
            },
            None => {
                return Ok(None);
            },
        }
        loop
            invariant
                reader.chars@ == s,
                s.len() < usize::MAX,
                i0 <= reader.index < s.len(),
                c == s[reader.index as int],
                skip_ws(s, i0) == skip_ws(s, reader.index as int),
                old(reader).chars@ == s,
                old(reader).index as int == i0,
                0 <= i0 <= s.len(),
            ensures
                reader.chars@ == s,
                i0 <= reader.index < s.len(),
                c == s[reader.index as int],
                reader.index as int == skip_ws(s, i0),
                !is_whitespace_char(c),
            decreases s.len() - reader.index,
        {
            if !char_is_whitespace(c) {
                proof {
                    assert(skip_ws(s, reader.index as int) == reader.index as int);
                }
                break ;
            }
            reader.take();
            match reader.peek() {
                Some(ch) => {
                    c = ch;
                },
                None => {
                    proof {
                        assert(reader.index == s.len());
                        assert(skip_ws(s, reader.index as int) == reader.index as int);
                    }
                    return Ok(None);
                },
            }
        }
        let ghost jj = reader.index as int;
        let operator: Option<ExpressionEnum> = if c == '*' {
            Some(ExpressionEnum::Multiply)
        } else if c == '/' {
            Some(ExpressionEnum::Divide)
        } else if c == '-' {
            Some(ExpressionEnum::Minus)
        } else if c == '+' {
            Some(ExpressionEnum::Add)
        } else {
            None
        };
        match operator {
            Some(op) => {
                reader.take();
                return Ok(
                    Some(
                        Expression {
                            span: Span { from: reader.index - 1, to: reader.index },
                            expression: op,
                        },
                    ),
                );
            },
            None => {},
        }
        if c == '(' || c == '[' || c == '{' {
            return Expression::parse_block(reader);
        }
        if c == ')' || c == ']' || c == '}' {
            return Ok(None);
        }
        if char_is_numeric(c) || c == '-' {
            let start_index = reader.index;
            let mut lit: Vec<char> = Vec::new();
            lit.push(c);
            reader.take();
            proof {
                assert(literal_chars(s, jj, jj) =~= Seq::<char>::empty());
                assert(lit@ =~= literal_chars(s, jj, jj + 1));
            }
            loop
                invariant
                    reader.chars@ == s,
                    s.len() < usize::MAX,
                    jj + 1 <= reader.index <= s.len(),
                    0 <= jj < s.len(),
                    literal_end(s, jj + 1) == literal_end(s, reader.index as int),
                    lit@ == literal_chars(s, jj, reader.index as int),
                    lit@.len() >= 1 && lit@[0] == c,
                    c == s[jj] && is_numeric_char(c),
                    start_index == jj,
                ensures
                    reader.chars@ == s,
                    jj + 1 <= reader.index <= s.len(),
                    reader.index as int == literal_end(s, jj + 1),
                    lit@ == literal_chars(s, jj, reader.index as int),
                    lit@.len() >= 1 && lit@[0] == c,
                decreases s.len() - reader.index,
            {
                match reader.peek() {
                    None => {
                        proof {
                            assert(literal_end(s, reader.index as int) == reader.index as int);
                        }
                        break ;
                    },
                    Some(c2) => {
                        if char_is_numeric(c2) || c2 == '.' {
                            lit.push(c2);
                            reader.take();
                        } else if c2 == '_' {
                            // the digit-grouping separator is consumed but not kept
                            reader.take();
                        } else {
                            proof {
                                assert(literal_end(s, reader.index as int)
                                    == reader.index as int);
                            }
                            break ;
                        }
                    },
                }
            }
            let k = reader.index;
            let mut dots: usize = 0;
            let mut all_plain = true;
            let mut t: usize = 0;
            while t < lit.len()
                invariant
                    t <= lit@.len(),
                    dots <= t,
                    dots == dot_count(lit@.subrange(0, t as int)),
                    all_plain == (forall|x: int|
                        0 <= x < t ==> is_ascii_digit_char(lit@[x]) || lit@[x] == '.'),
                decreases lit@.len() - t,
            {
                let ch = lit[t];
                let code = ch as u32;
                if ch == '.' {
                    dots = dots + 1;
                }
                if !((code >= 48 && code <= 57) || ch == '.') {
                    all_plain = false;
                }
                t = t + 1;
                proof {
                    assert(lit@.subrange(0, t as int).subrange(0, t - 1 as int) =~= lit@.subrange(
                        0,
                        t - 1 as int,
                    ));
                    assert(lit@.subrange(0, t as int)[t - 1 as int] == lit@[t - 1 as int]);
                }
            }
            proof {
                assert(lit@.subrange(0, lit@.len() as int) =~= lit@);
            }
            let span = Span { from: start_index, to: k };
            if all_plain && dots <= 1 {
                proof {
                    assert(lit@[0] != '.');
                    assert(valid_literal(lit@));
                }
                return Ok(
                    Some(Expression { span, expression: ExpressionEnum::Constant(lit) }),
                );
            } else {
                proof {
                    assert(!valid_literal(lit@));
                }
                return Err(ParseError::ParseFloatError { span });
            }
        }
        Err(
            ParseError::InvalidToken {
                token: c,
                span: Span { from: reader.index, to: reader.index + 1 },
            },
        )
    }
}

} // verus!
