//! Real numbers, held as the bits of an IEEE 754 double.
//!
//! What can be told from the bits alone, such as the sign and the order of two numbers, is
//! computed here. Arithmetic on reals is asked for: an evaluation that needs such a result
//! looks it up among the facts that it was given, and where it is not there, the evaluation
//! stops with the question. Whoever can compute with reals answers it, adds the answer to
//! the facts and starts the evaluation again.

use vstd::prelude::*;

use crate::common::error::{about, DbError, ErrorCode, ErrorView};
use crate::common::ordmap::Order;

verus! {

/// An operation on real numbers.
#[derive(Debug, Clone, Copy, PartialEq, Eq, Structural)]
pub enum RealOp {
    /// The real that is nearest to the integer `a`.
    FromInt,
    /// The integer part of `a`, at the limit of the integers where it lies beyond.
    ToInt,
    /// The real that a text spells, if it spells one.
    Parse,
    /// The shortest decimal text that is read as `a`.
    Show,
    /// `a` with `b` decimals.
    Fixed,
    /// `a` with `b` decimals and an exponent.
    Scientific,
    /// How JSON writes `a`, if it can.
    JsonText,
    Add,
    Subtract,
    Multiply,
    Divide,
    Remainder,
    Power,
    Atan2,
    /// The logarithm of `a` to the base `b`.
    Logarithm,
    /// `a` rounded to `b` decimals, `b` being a signed integer.
    RoundTo,
    Ceil,
    Floor,
    Truncate,
    Round,
    Sqrt,
    Exp,
    Sin,
    Cos,
    Tan,
    Sinh,
    Cosh,
    Tanh,
    Acos,
    Asin,
    Atan,
    Acosh,
    Asinh,
    Atanh,
    Ln,
    Log10,
    Log2,
    Degrees,
    Radians,
    /// The time, in whole seconds since the start of 1970.
    Now,
    /// The Julian day of the day number `a` at `b` milliseconds past midnight.
    JulianDay,
    /// `a` seconds and `b` milliseconds, as seconds.
    EpochReal,
    /// The whole number of milliseconds in a text that counts units of `a` milliseconds.
    ModifierMillis,
    /// The milliseconds in the fraction of `a`.
    FractionMillis,
    /// The day number that holds the Julian day `a`.
    DayNumber,
    /// The milliseconds past midnight of the Julian day `a`.
    DayMillis,
}

/// A question about real numbers.
#[derive(Debug)]
pub struct Question {
    pub op: RealOp,
    pub a: u64,
    pub b: u64,
    pub text: String,
}

/// The model of a question.
#[verifier::ext_equal]
pub struct QuestionView {
    pub op: RealOp,
    pub a: u64,
    pub b: u64,
    pub text: Seq<char>,
}

impl View for Question {
    type V = QuestionView;

    open spec fn view(&self) -> QuestionView {
        QuestionView { op: self.op, a: self.a, b: self.b, text: self.text@ }
    }
}

/// An answer to a question.
#[derive(Debug)]
pub enum RealAnswer {
    Nothing,
    Real(u64),
    Int(i64),
    Text(String),
}

/// The model of an answer.
pub enum AnswerView {
    Nothing,
    Real(u64),
    Int(i64),
    Text(Seq<char>),
}

impl View for RealAnswer {
    type V = AnswerView;

    open spec fn view(&self) -> AnswerView {
        match self {
            RealAnswer::Nothing => AnswerView::Nothing,
            RealAnswer::Real(bits) => AnswerView::Real(*bits),
            RealAnswer::Int(i) => AnswerView::Int(*i),
            RealAnswer::Text(t) => AnswerView::Text(t@),
        }
    }
}

/// Why an evaluation stopped without a value.
#[derive(Debug)]
pub enum Stop {
    Fail(DbError),
    Ask(Question),
}

/// The model of a stop.
pub enum StopView {
    Fail(ErrorView),
    Ask(QuestionView),
}

impl View for Stop {
    type V = StopView;

    open spec fn view(&self) -> StopView {
        match self {
            Stop::Fail(e) => StopView::Fail(e@),
            Stop::Ask(q) => StopView::Ask(q@),
        }
    }
}

/// The result of an evaluation.
pub type Eval<T> = core::result::Result<T, Stop>;

/// The model of known facts: questions and their answers.
pub type Facts = Seq<(QuestionView, AnswerView)>;

/// Answers to questions about real numbers.
pub struct RealFacts {
    known: Vec<(Question, RealAnswer)>,
}

impl View for RealFacts {
    type V = Facts;

    closed spec fn view(&self) -> Facts {
        Seq::new(self.known@.len(), |i: int| (self.known@[i].0@, self.known@[i].1@))
    }
}

/// The first answer to a question among the facts from a position on.
pub open spec fn answer_from(facts: Facts, question: QuestionView, i: int) -> Option<AnswerView>
    decreases facts.len() - i,
{
    if i < 0 || i >= facts.len() {
        None
    } else if facts[i].0 == question {
        Some(facts[i].1)
    } else {
        answer_from(facts, question, i + 1)
    }
}

/// The first answer to a question.
pub open spec fn answer(facts: Facts, question: QuestionView) -> Option<AnswerView> {
    answer_from(facts, question, 0)
}

/// A question about numbers.
pub open spec fn about_numbers(op: RealOp, a: u64, b: u64) -> QuestionView {
    QuestionView { op, a, b, text: Seq::empty() }
}

/// A question about a text.
pub open spec fn about_text(op: RealOp, text: Seq<char>) -> QuestionView {
    QuestionView { op, a: 0, b: 0, text }
}

/// A real that was asked for.
pub open spec fn real_answer(facts: Facts, op: RealOp, a: u64, b: u64) -> Result<u64, StopView> {
    match answer(facts, about_numbers(op, a, b)) {
        Some(AnswerView::Real(bits)) => Ok(bits),
        _ => Err(StopView::Ask(about_numbers(op, a, b))),
    }
}

/// An integer that was asked for.
pub open spec fn int_answer(facts: Facts, op: RealOp, a: u64) -> Result<i64, StopView> {
    match answer(facts, about_numbers(op, a, 0)) {
        Some(AnswerView::Int(i)) => Ok(i),
        _ => Err(StopView::Ask(about_numbers(op, a, 0))),
    }
}

/// A text that was asked for.
pub open spec fn text_answer(facts: Facts, op: RealOp, a: u64, b: u64) -> Result<
    Seq<char>,
    StopView,
> {
    match answer(facts, about_numbers(op, a, b)) {
        Some(AnswerView::Text(t)) => Ok(t),
        _ => Err(StopView::Ask(about_numbers(op, a, b))),
    }
}

/// A text that may not be there.
pub open spec fn optional_text_answer(facts: Facts, op: RealOp, a: u64) -> Result<
    Option<Seq<char>>,
    StopView,
> {
    match answer(facts, about_numbers(op, a, 0)) {
        Some(AnswerView::Text(t)) => Ok(Some(t)),
        Some(AnswerView::Nothing) => Ok(None),
        _ => Err(StopView::Ask(about_numbers(op, a, 0))),
    }
}

/// The real that a text spells.
pub open spec fn parsed_real(facts: Facts, text: Seq<char>) -> Result<Option<u64>, StopView> {
    match answer(facts, about_text(RealOp::Parse, text)) {
        Some(AnswerView::Real(bits)) => Ok(Some(bits)),
        Some(AnswerView::Nothing) => Ok(None),
        _ => Err(StopView::Ask(about_text(RealOp::Parse, text))),
    }
}

/// An integer that may not be there.
pub open spec fn optional_int_answer(facts: Facts, question: QuestionView) -> Result<
    Option<i64>,
    StopView,
> {
    match answer(facts, question) {
        Some(AnswerView::Int(i)) => Ok(Some(i)),
        Some(AnswerView::Nothing) => Ok(None),
        _ => Err(StopView::Ask(question)),
    }
}

/// The bits of an integer, as they stand in a question.
pub open spec fn int_bits(i: i64) -> u64 {
    if i < 0 {
        (0x1_0000_0000_0000_0000 + i) as u64
    } else {
        i as u64
    }
}

/// The real that stands for an integer.
pub open spec fn real_of_int(facts: Facts, i: i64) -> Result<u64, StopView> {
    real_answer(facts, RealOp::FromInt, int_bits(i), 0)
}

/// The integer that a real is cut to.
pub open spec fn int_of_real(facts: Facts, bits: u64) -> Result<i64, StopView> {
    int_answer(facts, RealOp::ToInt, bits)
}

/// What an evaluation came to.
pub open spec fn stop_view<T: View>(r: Eval<T>) -> Result<T::V, StopView> {
    match r {
        Ok(v) => Ok(v@),
        Err(s) => Err(s@),
    }
}

/// What an evaluation to a plain value came to.
pub open spec fn plain_view<T>(r: Eval<T>) -> Result<T, StopView> {
    match r {
        Ok(v) => Ok(v),
        Err(s) => Err(s@),
    }
}

impl Question {
    fn same(&self, other: &Question) -> (r: bool)
        ensures
            r == (self@ == other@),
    {
        self.op == other.op && self.a == other.a && self.b == other.b && self.text == other.text
    }
}

impl RealAnswer {
    fn copy(&self) -> (r: RealAnswer)
        ensures
            r@ == self@,
    {
        match self {
            RealAnswer::Nothing => RealAnswer::Nothing,
            RealAnswer::Real(bits) => RealAnswer::Real(*bits),
            RealAnswer::Int(i) => RealAnswer::Int(*i),
            RealAnswer::Text(t) => RealAnswer::Text(t.clone()),
        }
    }
}

/// The bits of an integer.
pub fn bits_of_int(i: i64) -> (r: u64)
    ensures
        r == int_bits(i),
{
    if i < 0 {
        0xFFFF_FFFF_FFFF_FFFF - ((-(i + 1)) as u64)
    } else {
        i as u64
    }
}

impl RealFacts {
    /// No facts.
    pub fn new() -> (r: RealFacts)
        ensures
            r@ == Seq::<(QuestionView, AnswerView)>::empty(),
    {
        let r = RealFacts { known: Vec::new() };
        assert(r@ =~= Seq::<(QuestionView, AnswerView)>::empty());
        r
    }

    /// Adds an answer.
    pub fn learn(&mut self, question: Question, answer: RealAnswer)
        ensures
            final(self)@ == old(self)@.push((question@, answer@)),
    {
        self.known.push((question, answer));
        assert(self@ =~= old(self)@.push((question@, answer@)));
    }

    fn find(&self, question: &Question) -> (r: Option<RealAnswer>)
        ensures
            match r {
                Some(a) => answer(self@, question@) == Some(a@),
                None => answer(self@, question@) is None,
            },
    {
        let mut i: usize = 0;
        while i < self.known.len()
            invariant
                i <= self.known@.len(),
                answer_from(self@, question@, i as int) == answer(self@, question@),
            decreases self.known@.len() - i,
        {
            if self.known[i].0.same(question) {
                return Some(self.known[i].1.copy());
            }
            i = i + 1;
        }
        None
    }

    /// Asks for a real.
    pub fn real_result(&self, op: RealOp, a: u64, b: u64) -> (r: Eval<u64>)
        ensures
            plain_view(r) == real_answer(self@, op, a, b),
    {
        let question = Question { op, a, b, text: String::new() };
        assert(question@ =~= about_numbers(op, a, b));
        match self.find(&question) {
            Some(RealAnswer::Real(bits)) => Ok(bits),
            _ => Err(Stop::Ask(question)),
        }
    }

    /// Asks for an integer.
    pub fn int_result(&self, op: RealOp, a: u64) -> (r: Eval<i64>)
        ensures
            plain_view(r) == int_answer(self@, op, a),
    {
        let question = Question { op, a, b: 0, text: String::new() };
        assert(question@ =~= about_numbers(op, a, 0));
        match self.find(&question) {
            Some(RealAnswer::Int(i)) => Ok(i),
            _ => Err(Stop::Ask(question)),
        }
    }

    /// Asks for a text.
    pub fn text_result(&self, op: RealOp, a: u64, b: u64) -> (r: Eval<String>)
        ensures
            stop_view(r) == text_answer(self@, op, a, b),
    {
        let question = Question { op, a, b, text: String::new() };
        assert(question@ =~= about_numbers(op, a, b));
        match self.find(&question) {
            Some(RealAnswer::Text(t)) => Ok(t),
            _ => Err(Stop::Ask(question)),
        }
    }

    /// Asks for a text that may not be there.
    pub fn optional_text_result(&self, op: RealOp, a: u64) -> (r: Eval<Option<String>>)
        ensures
            match r {
                Ok(Some(t)) => optional_text_answer(self@, op, a) == Ok::<_, StopView>(Some(t@)),
                Ok(None) => optional_text_answer(self@, op, a) == Ok::<
                    Option<Seq<char>>,
                    StopView,
                >(None),
                Err(s) => optional_text_answer(self@, op, a) == Err::<Option<Seq<char>>, _>(s@),
            },
    {
        let question = Question { op, a, b: 0, text: String::new() };
        assert(question@ =~= about_numbers(op, a, 0));
        match self.find(&question) {
            Some(RealAnswer::Text(t)) => Ok(Some(t)),
            Some(RealAnswer::Nothing) => Ok(None),
            _ => Err(Stop::Ask(question)),
        }
    }

    /// Asks for an integer that may not be there.
    pub fn optional_int_result(&self, question: Question) -> (r: Eval<Option<i64>>)
        ensures
            plain_view(r) == optional_int_answer(self@, question@),
    {
        match self.find(&question) {
            Some(RealAnswer::Int(i)) => Ok(Some(i)),
            Some(RealAnswer::Nothing) => Ok(None),
            _ => Err(Stop::Ask(question)),
        }
    }

    /// Asks for the real that a text spells.
    pub fn parse(&self, text: String) -> (r: Eval<Option<u64>>)
        ensures
            plain_view(r) == parsed_real(self@, text@),
    {
        let question = Question { op: RealOp::Parse, a: 0, b: 0, text };
        assert(question@ =~= about_text(RealOp::Parse, text@));
        match self.find(&question) {
            Some(RealAnswer::Real(bits)) => Ok(Some(bits)),
            Some(RealAnswer::Nothing) => Ok(None),
            _ => Err(Stop::Ask(question)),
        }
    }

    /// The real that stands for an integer.
    pub fn of_int(&self, i: i64) -> (r: Eval<u64>)
        ensures
            plain_view(r) == real_of_int(self@, i),
    {
        self.real_result(RealOp::FromInt, bits_of_int(i), 0)
    }

    /// The integer that a real is cut to.
    pub fn to_int(&self, bits: u64) -> (r: Eval<i64>)
        ensures
            plain_view(r) == int_of_real(self@, bits),
    {
        self.int_result(RealOp::ToInt, bits)
    }
}

/// A failure with a message of the storage.
pub open spec fn storage_stop(message: Seq<char>) -> StopView {
    StopView::Fail(about(ErrorCode::Storage, message))
}

/// Makes a failure with a message of the storage.
pub fn fail(message: &str) -> (r: Stop)
    ensures
        r@ == storage_stop(message@),
{
    Stop::Fail(DbError::about(ErrorCode::Storage, message))
}

/// The bits of one.
pub const ONE: u64 = 0x3FF0_0000_0000_0000;

/// The bits of minus one.
pub const MINUS_ONE: u64 = 0xBFF0_0000_0000_0000;

/// The bits of infinity.
pub const INFINITY: u64 = 0x7FF0_0000_0000_0000;

/// The bits of minus infinity.
pub const MINUS_INFINITY: u64 = 0xFFF0_0000_0000_0000;

/// The bit of the sign.
pub const SIGN: u64 = 0x8000_0000_0000_0000;

/// The bits without the sign.
pub open spec fn magnitude_bits(bits: u64) -> int {
    bits as int % 0x8000_0000_0000_0000
}

/// Whether the bits are those of no number.
pub open spec fn is_nan(bits: u64) -> bool {
    magnitude_bits(bits) > INFINITY
}

/// Whether a real is a finite number.
pub open spec fn is_finite(bits: u64) -> bool {
    magnitude_bits(bits) < INFINITY
}

/// Whether a real is zero.
pub open spec fn is_zero(bits: u64) -> bool {
    magnitude_bits(bits) == 0
}

/// Whether the sign of a real is set.
pub open spec fn is_signed(bits: u64) -> bool {
    bits >= SIGN
}

/// The real without its sign.
pub open spec fn real_abs(bits: u64) -> u64 {
    magnitude_bits(bits) as u64
}

/// The real with the other sign.
pub open spec fn real_negated(bits: u64) -> u64 {
    if is_signed(bits) {
        (bits - SIGN) as u64
    } else {
        (bits + SIGN) as u64
    }
}

/// A number that orders the reals as numbers.
pub open spec fn rank(bits: u64) -> int {
    if is_signed(bits) {
        -magnitude_bits(bits)
    } else {
        magnitude_bits(bits)
    }
}

/// Whether one real is smaller than another.
pub open spec fn real_below(a: u64, b: u64) -> bool {
    !is_nan(a) && !is_nan(b) && rank(a) < rank(b)
}

/// Whether two reals are equal as numbers.
pub open spec fn real_same(a: u64, b: u64) -> bool {
    !is_nan(a) && !is_nan(b) && rank(a) == rank(b)
}

/// A number that orders all bit patterns: negative before positive, and what is no number at
/// either end.
pub open spec fn total_rank(bits: u64) -> int {
    if is_signed(bits) {
        -1 - magnitude_bits(bits)
    } else {
        magnitude_bits(bits)
    }
}

/// The order of two integers.
pub open spec fn int_order(a: int, b: int) -> Order {
    if a < b {
        Order::Less
    } else if a == b {
        Order::Equal
    } else {
        Order::Greater
    }
}

/// The bits of a real without its sign.
pub fn abs_bits(bits: u64) -> (r: u64)
    ensures
        r == real_abs(bits),
        r == magnitude_bits(bits),
{
    if bits >= SIGN {
        bits - SIGN
    } else {
        bits
    }
}

/// The bits of a real with the other sign.
pub fn negated_bits(bits: u64) -> (r: u64)
    ensures
        r == real_negated(bits),
{
    if bits >= SIGN {
        bits - SIGN
    } else {
        bits + SIGN
    }
}

/// Whether one real is smaller than another.
pub fn below(a: u64, b: u64) -> (r: bool)
    ensures
        r == real_below(a, b),
{
    let x: u64 = abs_bits(a);
    let y: u64 = abs_bits(b);
    if x > INFINITY || y > INFINITY {
        return false;
    }
    if a >= SIGN {
        if b >= SIGN {
            x > y
        } else {
            x > 0 || y > 0
        }
    } else if b >= SIGN {
        false
    } else {
        x < y
    }
}

/// Whether two reals are equal as numbers.
pub fn equal(a: u64, b: u64) -> (r: bool)
    ensures
        r == real_same(a, b),
{
    let x: u64 = abs_bits(a);
    let y: u64 = abs_bits(b);
    x <= INFINITY && y <= INFINITY && ((x == 0 && y == 0) || a == b)
}

/// The order of all bit patterns.
pub fn total_order(a: u64, b: u64) -> (r: Order)
    ensures
        r == int_order(total_rank(a), total_rank(b)),
{
    if a == b {
        Order::Equal
    } else if a >= SIGN {
        if b >= SIGN {
            if a > b {
                Order::Less
            } else {
                Order::Greater
            }
        } else {
            Order::Less
        }
    } else if b >= SIGN {
        Order::Greater
    } else if a < b {
        Order::Less
    } else {
        Order::Greater
    }
}

/// The order of two integers.
pub fn order_of_ints(a: i64, b: i64) -> (r: Order)
    ensures
        r == int_order(a as int, b as int),
{
    if a < b {
        Order::Less
    } else if a == b {
        Order::Equal
    } else {
        Order::Greater
    }
}

} // verus!
