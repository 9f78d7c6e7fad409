//! The session: the tokens last read, their postfix form, and the result.

use vstd::prelude::*;
use crate::errors::{Fault, SyaError};
use crate::eval::{integers_only, lemma_run_stops, Evaluation, Halt, Machine};
use crate::number::{FloatOp, Number, Outcome};
use crate::rpn::{lemma_postfix_is_drawn, postfix_of, to_postfix};
use crate::text::{decimal, push_decimal};
use crate::tokenizer::{lemma_scan_stops, Pause, Scanner, Token, Tokenizer};

verus! {

/// Floating-point work that a session leaves to its caller: the double
/// nearest to a decimal literal, or a step of arithmetic.
#[derive(Debug, PartialEq)]
pub enum FloatTask {
    Literal(String),
    Arith(FloatOp),
}

/// A `FloatTask` as specifications see it.
pub ghost enum Task {
    Literal(Seq<char>),
    Arith(FloatOp),
}

impl View for FloatTask {
    type V = Task;

    open spec fn view(&self) -> Task {
        match self {
            FloatTask::Literal(text) => Task::Literal(text@),
            FloatTask::Arith(op) => Task::Arith(*op),
        }
    }
}

/// What a session is in the middle of.
pub ghost enum Phase {
    Idle,
    /// Reading a text, stopped at a literal.
    Scanning(Scanner),
    /// Evaluating the postfix tokens, stopped at an operator.
    Evaluating(Machine),
}

/// A session as specifications see it.
pub ghost struct Session {
    pub input: Seq<Token>,
    pub postfix: Seq<Token>,
    pub out: Option<Number>,
    pub phase: Phase,
}

impl Session {
    /// The session that holds nothing.
    pub open spec fn fresh() -> Session {
        Session { input: Seq::empty(), postfix: Seq::empty(), out: None, phase: Phase::Idle }
    }

    /// Lets `scanner` run. Once the text is read, its tokens replace the
    /// input, and the postfix form and the result are cleared. At a literal
    /// the session waits. On an error it keeps what it held.
    pub open spec fn scan(self, scanner: Scanner) -> (Session, Result<(), Fault>) {
        match scanner.run() {
            (here, Pause::Done) => (
                Session { input: here.tokens, postfix: Seq::empty(), out: None, phase: Phase::Idle },
                Ok(()),
            ),
            (here, Pause::Literal(_)) => (Session { phase: Phase::Scanning(here), ..self }, Ok(())),
            (_, Pause::Failed(fault)) => (Session { phase: Phase::Idle, ..self }, Err(fault)),
        }
    }

    /// Lets `machine` run. Its result becomes the session's. At arithmetic on
    /// doubles the session waits.
    pub open spec fn evaluate(self, machine: Machine) -> (Session, Result<(), Fault>) {
        match machine.run() {
            (_, Halt::Done(v)) => (Session { out: Some(v), phase: Phase::Idle, ..self }, Ok(())),
            (here, Halt::Ask(_)) => (Session { phase: Phase::Evaluating(here), ..self }, Ok(())),
            (_, Halt::Failed(fault)) => (Session { phase: Phase::Idle, ..self }, Err(fault)),
        }
    }

    /// Starts on a new text, whatever the session was in the middle of.
    pub open spec fn new_input(self, text: Seq<char>) -> (Session, Result<(), Fault>) {
        self.scan(Scanner::start(text))
    }

    /// Clears the postfix form and the result, converts the input and
    /// evaluates it, whatever the session was in the middle of.
    pub open spec fn calculate(self) -> (Session, Result<(), Fault>) {
        match postfix_of(self.input) {
            Ok(postfix) => (Session { postfix, out: None, phase: Phase::Idle, ..self }).evaluate(
                Machine::start(postfix),
            ),
            Err(fault) => (
                Session { postfix: Seq::empty(), out: None, phase: Phase::Idle, ..self },
                Err(fault),
            ),
        }
    }

    /// The work that the session waits for.
    pub open spec fn pending(self) -> Option<Task> {
        match self.phase {
            Phase::Idle => None,
            Phase::Scanning(scanner) => match scanner.waiting() {
                Some(text) => Some(Task::Literal(text)),
                None => None,
            },
            Phase::Evaluating(machine) => match machine.waiting() {
                Some(op) => Some(Task::Arith(op)),
                None => None,
            },
        }
    }

    /// Goes on with `bits` for the double that the session waited for. An
    /// idle session stays as it is.
    pub open spec fn resume(self, bits: u64) -> (Session, Result<(), Fault>) {
        match self.phase {
            Phase::Idle => (self, Ok(())),
            Phase::Scanning(scanner) => self.scan(scanner.supplied(bits)),
            Phase::Evaluating(machine) => self.evaluate(machine.supplied(bits)),
        }
    }
}

/// How many of `tokens` are doubles.
pub open spec fn float_count(tokens: Seq<Token>) -> nat
    decreases tokens.len(),
{
    if tokens.len() == 0 {
        0
    } else {
        float_count(tokens.drop_last()) + if tokens.last() is Number && tokens.last()->Number_0
            is Float {
            1nat
        } else {
            0
        }
    }
}

/// The word for the token at `i`: an integer in decimal, a binary operator as
/// its sign, a unary sign after a `u`, a parenthesis as itself. The word for
/// a double is its caller's: `floats` holds one text for each double among
/// the tokens, in their order.
pub open spec fn word(tokens: Seq<Token>, i: int, floats: Seq<Seq<char>>) -> Seq<char> {
    match tokens[i] {
        Token::Number(Number::Integer(n)) => decimal(n as int),
        Token::Number(Number::Float(_)) => floats[float_count(tokens.take(i)) as int],
        Token::Operator(o) => seq![o.sign],
        Token::UNARY(sign) => seq!['u', sign],
        Token::OPEN => seq!['('],
        Token::CLOSE => seq![')'],
    }
}

/// The words of the first `n` tokens, with one space between neighbours.
pub open spec fn phrase(tokens: Seq<Token>, n: nat, floats: Seq<Seq<char>>) -> Seq<char>
    decreases n,
{
    if n == 0 {
        Seq::empty()
    } else if n == 1 {
        word(tokens, 0, floats)
    } else {
        phrase(tokens, (n - 1) as nat, floats) + seq![' '] + word(tokens, n - 1, floats)
    }
}

/// Counts the doubles among `tokens`.
fn count_floats(tokens: &Vec<Token>) -> (n: usize)
    ensures
        n == float_count(tokens@),
{
    let mut n: usize = 0;
    let mut i: usize = 0;
    assert(tokens@.take(0) =~= Seq::<Token>::empty());
    while i < tokens.len()
        invariant
            i <= tokens.len(),
            n <= i,
            n == float_count(tokens@.take(i as int)),
        decreases tokens.len() - i,
    {
        assert(tokens@.take(i + 1).drop_last() =~= tokens@.take(i as int));
        if let Token::Number(Number::Float(_)) = tokens[i] {
            n = n + 1;
        }
        i = i + 1;
    }
    assert(tokens@.take(tokens@.len() as int) =~= tokens@);
    n
}

/// Writes `tokens` as words with spaces between them. The caller writes the
/// doubles: `floats` holds their texts, one for each double among the tokens,
/// in their order. With more or fewer texts than doubles there is nothing to
/// write.
pub fn format_postfix(tokens: &Vec<Token>, floats: &Vec<String>) -> (r: Option<String>)
    ensures
        match r {
            Some(s) => floats@.len() == float_count(tokens@) && s@ == phrase(
                tokens@,
                tokens@.len(),
                floats@.map_values(|t: String| t@),
            ),
            None => floats@.len() != float_count(tokens@),
        },
{
    if floats.len() != count_floats(tokens) {
        return None;
    }
    let ghost texts = floats@.map_values(|t: String| t@);
    let mut s = String::new();
    let mut seen: usize = 0;
    let mut i: usize = 0;
    assert(tokens@.take(0) =~= Seq::<Token>::empty());
    while i < tokens.len()
        invariant
            i <= tokens.len(),
            texts == floats@.map_values(|t: String| t@),
            floats@.len() == float_count(tokens@),
            seen == float_count(tokens@.take(i as int)),
            s@ == phrase(tokens@, i as nat, texts),
        decreases tokens.len() - i,
    {
        proof {
            assert(tokens@.take(i + 1).drop_last() =~= tokens@.take(i as int));
            lemma_float_count_grows(tokens@, i + 1);
        }
        let ghost before = s@;
        if i > 0 {
            s.push(' ');
        }
        match tokens[i] {
            Token::Number(Number::Integer(n)) => push_decimal(&mut s, n as i128),
            Token::Number(Number::Float(_)) => {
                assert(seen < floats.len());
                s.append(floats[seen].as_str());
                seen = seen + 1;
            },
            Token::Operator(o) => s.push(o.sign),
            Token::UNARY(sign) => {
                s.push('u');
                s.push(sign);
            },
            Token::OPEN => s.push('('),
            Token::CLOSE => s.push(')'),
        }
        proof {
            let w = word(tokens@, i as int, texts);
            if i > 0 {
                assert(s@ =~= before + seq![' '] + w);
            } else {
                assert(s@ =~= w);
            }
        }
        i = i + 1;
    }
    Some(s)
}

/// A longer run of tokens holds no fewer doubles.
proof fn lemma_float_count_grows(tokens: Seq<Token>, n: int)
    requires
        0 <= n <= tokens.len(),
    ensures
        float_count(tokens.take(n)) <= float_count(tokens),
    decreases tokens.len() - n,
{
    if n < tokens.len() {
        assert(tokens.take(n + 1).drop_last() =~= tokens.take(n));
        lemma_float_count_grows(tokens, n + 1);
    } else {
        assert(tokens.take(n) =~= tokens);
    }
}

/// A new text makes a session forget: what two sessions answer to one text,
/// and what they hold once it is read, is the same, whatever they held
/// before. While a literal waits for its double, both wait at the same place.
pub proof fn lemma_new_input_forgets(a: Session, b: Session, text: Seq<char>)
    ensures
        a.new_input(text).1 == b.new_input(text).1,
        a.new_input(text).0.phase == b.new_input(text).0.phase,
        a.new_input(text).1 is Ok && a.new_input(text).0.phase is Idle ==> a.new_input(text).0
            == b.new_input(text).0,
{
}

/// The same holds once the double of a literal is supplied: two sessions
/// that wait at the same place go on alike.
pub proof fn lemma_resumed_input_forgets(a: Session, b: Session, bits: u64)
    requires
        a.phase is Scanning,
        a.phase == b.phase,
    ensures
        a.resume(bits).1 == b.resume(bits).1,
        a.resume(bits).0.phase == b.resume(bits).0.phase,
        a.resume(bits).1 is Ok && a.resume(bits).0.phase is Idle ==> a.resume(bits).0
            == b.resume(bits).0,
{
}

/// A calculation depends on the input alone: two sessions with the same
/// input calculate the same postfix form, the same result and the same
/// answer, and where they wait, they wait for the same arithmetic.
pub proof fn lemma_calculate_repeats(a: Session, b: Session)
    requires
        a.input == b.input,
    ensures
        a.calculate() == b.calculate(),
{
}

/// Evaluating a text does not depend on what was evaluated before: two
/// sessions, whatever they hold, answer alike to a text, and once it is read
/// they calculate alike.
pub proof fn lemma_evaluation_repeats(a: Session, b: Session, text: Seq<char>)
    ensures
        a.new_input(text).1 == b.new_input(text).1,
        a.new_input(text).1 is Ok && a.new_input(text).0.phase is Idle ==> a.new_input(
            text,
        ).0.calculate() == b.new_input(text).0.calculate(),
{
    lemma_new_input_forgets(a, b, text);
}

/// After each step a session says what it waits for: the literal or the
/// arithmetic that the step stopped at, and nothing where the step came to
/// its end or failed. So a caller that answers what is pending until nothing
/// is has seen the step through.
pub proof fn lemma_pending_after(session: Session, text: Seq<char>, bits: u64)
    ensures
        session.new_input(text).0.pending() is None <==> session.new_input(text).0.phase is Idle,
        session.calculate().0.pending() is None <==> session.calculate().0.phase is Idle,
        session.resume(bits).0.pending() is None <==> session.resume(bits).0.phase is Idle,
        session.new_input(text).1 is Err ==> session.new_input(text).0.phase is Idle,
        session.calculate().1 is Err ==> session.calculate().0.phase is Idle,
        session.resume(bits).1 is Err ==> session.resume(bits).0.phase is Idle,
{
    lemma_scan_stops(Scanner::start(text));
    match postfix_of(session.input) {
        Ok(postfix) => lemma_run_stops(Machine::start(postfix)),
        Err(_) => {},
    }
    match session.phase {
        Phase::Idle => {},
        Phase::Scanning(scanner) => {
            lemma_scan_stops(scanner);
            lemma_scan_stops(scanner.supplied(bits));
        },
        Phase::Evaluating(machine) => {
            lemma_run_stops(machine);
            lemma_run_stops(machine.supplied(bits));
        },
    }
}

/// A session whose input holds no double and no division calculates in one
/// step, and its result, if it has one, is an integer.
pub proof fn lemma_integers_stay(session: Session)
    requires
        integers_only(session.input),
    ensures
        session.calculate().0.phase is Idle,
        session.calculate().0.pending() is None,
        session.calculate().0.out matches Some(v) ==> v is Integer,
{
    lemma_postfix_is_drawn(session.input);
    if let Ok(postfix) = postfix_of(session.input) {
        assert forall|i: int| 0 <= i < postfix.len() implies match #[trigger] postfix[i] {
            Token::Number(v) => v is Integer,
            Token::Operator(o) => o.sign != '/',
            _ => true,
        } by {
            let k = choose|k: int| 0 <= k < session.input.len() && session.input[k] == postfix[i];
            assert(session.input[k] == postfix[i]);
        }
        crate::eval::lemma_integers_stay(Machine::start(postfix));
    }
}

/// Whether a result is the one that the model gives.
pub open spec fn confirms(r: Result<(), SyaError>, model: Result<(), Fault>) -> bool {
    match model {
        Ok(_) => r is Ok,
        Err(fault) => r matches Err(e) && e@ == fault,
    }
}

/// The work that a session is in the middle of while it waits for its
/// caller.
#[derive(Debug)]
pub enum Work {
    Idle,
    Scanning(Tokenizer),
    Evaluating(Evaluation),
}

impl View for Work {
    type V = Phase;

    open spec fn view(&self) -> Phase {
        match self {
            Work::Idle => Phase::Idle,
            Work::Scanning(scanner) => Phase::Scanning(scanner@),
            Work::Evaluating(evaluation) => Phase::Evaluating(evaluation@),
        }
    }
}

/// A session. `input`, `rpn_stack` and `out` hold the tokens last read, their
/// postfix form and the result; `work` holds what the session is in the
/// middle of.
#[derive(Debug)]
pub struct Sya {
    pub input: Vec<Token>,
    pub rpn_stack: Vec<Token>,
    pub out: Option<Number>,
    pub work: Work,
}

impl View for Sya {
    type V = Session;

    open spec fn view(&self) -> Session {
        Session {
            input: self.input@,
            postfix: self.rpn_stack@,
            out: self.out,
            phase: self.work@,
        }
    }
}

impl Sya {
    /// A session on `input`. It fails where the text does not tokenize. At a
    /// literal with a point the new session waits for the double: see
    /// `pending`.
    pub fn new(input: &str) -> (r: Result<Sya, SyaError>)
        ensures
            match Session::fresh().new_input(input@) {
                (session, Ok(_)) => r matches Ok(sya) && sya@ == session,
                (_, Err(fault)) => r matches Err(e) && e@ == fault,
            },
    {
        let mut s = Sya {
            input: Vec::new(),
            rpn_stack: Vec::new(),
            out: None,
            work: Work::Idle,
        };
        match s.new_input(input) {
            Ok(_) => Ok(s),
            Err(e) => Err(e),
        }
    }

    /// Lets `scanner` run, and takes over its tokens or keeps it to wait.
    fn scan(&mut self, scanner: Tokenizer) -> (r: Result<(), SyaError>)
        ensures
            final(self)@ == old(self)@.scan(scanner@).0,
            confirms(r, old(self)@.scan(scanner@).1),
    {
        let mut scanner = scanner;
        self.work = Work::Idle;
        match scanner.parse() {
            Ok(None) => {
                self.input = scanner.into_tokens();
                self.rpn_stack = Vec::new();
                self.out = None;
                Ok(())
            },
            Ok(Some(_)) => {
                self.work = Work::Scanning(scanner);
                Ok(())
            },
            Err(e) => Err(e),
        }
    }

    /// Lets `evaluation` run, and takes over its result or keeps it to wait.
    fn evaluate(&mut self, evaluation: Evaluation) -> (r: Result<(), SyaError>)
        ensures
            final(self)@ == old(self)@.evaluate(evaluation@).0,
            confirms(r, old(self)@.evaluate(evaluation@).1),
    {
        let mut evaluation = evaluation;
        self.work = Work::Idle;
        match evaluation.run() {
            Ok(Outcome::Value(v)) => {
                self.out = Some(v);
                Ok(())
            },
            Ok(Outcome::Deferred(_)) => {
                self.work = Work::Evaluating(evaluation);
                Ok(())
            },
            Err(e) => Err(e),
        }
    }

    /// Starts on a new text. `Ok` with nothing pending says that the text is
    /// read; the caller answers what is pending through `resume`.
    pub fn new_input(&mut self, input: &str) -> (r: Result<(), SyaError>)
        ensures
            final(self)@ == old(self)@.new_input(input@).0,
            confirms(r, old(self)@.new_input(input@).1),
    {
        self.scan(Tokenizer::new(input))
    }

    /// Converts the input to postfix and evaluates it. `Ok` with nothing
    /// pending says that `out` holds the result; the caller answers what is
    /// pending through `resume`.
    pub fn calculate(&mut self) -> (r: Result<(), SyaError>)
        ensures
            final(self)@ == old(self)@.calculate().0,
            confirms(r, old(self)@.calculate().1),
    {
        self.work = Work::Idle;
        self.out = None;
        match to_postfix(&self.input) {
            Ok(postfix) => {
                self.rpn_stack = postfix.clone();
                self.evaluate(Evaluation::new(postfix))
            },
            Err(e) => {
                self.rpn_stack = Vec::new();
                Err(e)
            },
        }
    }

    /// Writes the postfix form as words with spaces between them. The caller
    /// writes the doubles: `floats` holds their texts, one for each double in
    /// `rpn_stack`, in their order. With more or fewer texts than doubles
    /// there is nothing to write.
    pub fn rpn_formatted(&self, floats: &Vec<String>) -> (r: Option<String>)
        ensures
            match r {
                Some(s) => floats@.len() == float_count(self.rpn_stack@) && s@ == phrase(
                    self.rpn_stack@,
                    self.rpn_stack@.len(),
                    floats@.map_values(|t: String| t@),
                ),
                None => floats@.len() != float_count(self.rpn_stack@),
            },
    {
        format_postfix(&self.rpn_stack, floats)
    }

    /// The floating-point work that the session waits for, if it waits.
    pub fn pending(&self) -> (r: Option<FloatTask>)
        ensures
            match self@.pending() {
                Some(task) => r matches Some(t) && t@ == task,
                None => r is None,
            },
    {
        match &self.work {
            Work::Idle => None,
            Work::Scanning(scanner) => match scanner.pending() {
                Some(text) => Some(FloatTask::Literal(text)),
                None => None,
            },
            Work::Evaluating(evaluation) => match evaluation.pending() {
                Some(op) => Some(FloatTask::Arith(op)),
                None => None,
            },
        }
    }

    /// Goes on with `bits`, the double that answers the pending work.
    pub fn resume(&mut self, bits: u64) -> (r: Result<(), SyaError>)
        ensures
            final(self)@ == old(self)@.resume(bits).0,
            confirms(r, old(self)@.resume(bits).1),
    {
        let mut work = Work::Idle;
        std::mem::swap(&mut self.work, &mut work);
        match work {
            Work::Idle => Ok(()),
            Work::Scanning(scanner) => {
                let mut scanner = scanner;
                scanner.supply(bits);
                self.scan(scanner)
            },
            Work::Evaluating(evaluation) => {
                let mut evaluation = evaluation;
                evaluation.supply(bits);
                self.evaluate(evaluation)
            },
        }
    }
}

} // verus!
