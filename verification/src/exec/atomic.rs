//! Fire every leg of a position at once, and be honest about what happened.
use vstd::prelude::*;
use crate::exec::{FillView, NewOrder, OrderError, OrderErrorView, OrderFill};
use crate::fees;
use crate::text;
use crate::types::Cents;

verus! {

/// Default window for a whole multi-leg trade.
///
/// The edge being captured exists in the book right now. Half a second is long
/// enough for two round trips to a venue and short enough that a fill arriving
/// after it is priced off a book that has moved.
pub const DEFAULT_TIMEOUT_MS: u64 = 500;

#[derive(Clone, Debug, PartialEq)]
pub struct AtomicTrade {
    pub legs: Vec<NewOrder>,
    pub timeout_ms: u64,
}

#[derive(Clone, Debug, PartialEq)]
pub struct ExecutionResult {
    pub fills: Vec<OrderFill>,
}

pub open spec fn fills_view(fills: Seq<OrderFill>) -> Seq<FillView> {
    fills.map_values(|fill: OrderFill| fill@)
}

pub open spec fn errors_view(errors: Seq<OrderError>) -> Seq<OrderErrorView> {
    errors.map_values(|error: OrderError| error@)
}

/// What the first `n` fills cost together.
pub open spec fn total_cost(fills: Seq<FillView>, n: int) -> int
    decreases n,
{
    if n <= 0 {
        0
    } else {
        total_cost(fills, n - 1) + fills[n - 1].cost()
    }
}

/// Machine integers hold the cost of every fill and every running total.
pub open spec fn costs_fit(fills: Seq<FillView>) -> bool {
    &&& forall|i: int| 0 <= i < fills.len() ==> (#[trigger] fills[i]).cost_fits()
    &&& forall|n: int| 0 <= n <= fills.len() ==> fees::fits(#[trigger] total_cost(fills, n))
}

impl ExecutionResult {
    pub fn total_cost_cents(&self) -> (total: Cents)
        requires
            costs_fit(fills_view(self.fills@)),
        ensures
            total == total_cost(fills_view(self.fills@), self.fills@.len() as int),
    {
        let ghost fills = fills_view(self.fills@);
        let mut total: i64 = 0;
        let mut i: usize = 0;
        while i < self.fills.len()
            invariant
                i <= self.fills@.len(),
                fills == fills_view(self.fills@),
                costs_fit(fills),
                total == total_cost(fills, i as int),
            decreases self.fills@.len() - i,
        {
            proof {
                assert(fills[i as int] == self.fills@[i as int]@);
                assert(fees::fits(total_cost(fills, i + 1)));
            }
            total = total + self.fills[i].cost_cents();
            i = i + 1;
        }
        total
    }
}

/// Why a trade did not go on cleanly.
///
/// The distinction that matters is whether money is now at risk.
/// [`ExecutionError::NoFills`] is free. [`ExecutionError::Legged`] and
/// [`ExecutionError::Timeout`] both mean an unbalanced position may exist and a
/// human has to look.
#[derive(Clone, Debug, PartialEq)]
pub enum ExecutionError {
    /// Nothing filled. No position, no exposure, nothing to undo.
    NoFills { failed: Vec<OrderError> },
    /// Some legs filled and some did not. The fills are real and cannot be
    /// cancelled; they must be traded back out.
    Legged { filled: Vec<OrderFill>, failed: Vec<OrderError> },
    /// The window closed before every leg answered. Any leg may or may not have
    /// filled at the venue; the local view is not authoritative and the
    /// position must be reconciled against the venue before trading resumes.
    Timeout { elapsed_ms: u64 },
}

/// What an [`ExecutionError`] says.
#[verifier::ext_equal]
pub enum ExecutionErrorView {
    NoFills { failed: Seq<OrderErrorView> },
    Legged { filled: Seq<FillView>, failed: Seq<OrderErrorView> },
    Timeout { elapsed_ms: u64 },
}

impl View for ExecutionError {
    type V = ExecutionErrorView;

    open spec fn view(&self) -> ExecutionErrorView {
        match self {
            ExecutionError::NoFills { failed } => ExecutionErrorView::NoFills {
                failed: errors_view(failed@),
            },
            ExecutionError::Legged { filled, failed } => ExecutionErrorView::Legged {
                filled: fills_view(filled@),
                failed: errors_view(failed@),
            },
            ExecutionError::Timeout { elapsed_ms } => ExecutionErrorView::Timeout {
                elapsed_ms: *elapsed_ms,
            },
        }
    }
}

/// The message of an [`ExecutionError`].
pub open spec fn execution_error_message(error: ExecutionErrorView) -> Seq<char> {
    match error {
        ExecutionErrorView::NoFills { failed } => "no legs filled ("@ + text::decimal(failed.len())
            + " failure(s))"@,
        ExecutionErrorView::Legged { filled, failed } => "legged: "@ + text::decimal(filled.len())
            + " leg(s) filled and must be unwound, "@ + text::decimal(failed.len()) + " failed"@,
        ExecutionErrorView::Timeout { elapsed_ms } => "trade timed out after "@ + text::decimal(
            elapsed_ms as nat,
        ) + "ms; venue state unknown"@,
    }
}

impl ExecutionError {
    /// What happened, for a log line.
    pub fn message(&self) -> (out: String)
        ensures
            out@ == execution_error_message(self@),
    {
        match self {
            ExecutionError::NoFills { failed } => {
                let mut out: String = String::from_str("no legs filled (");
                text::push_u64(&mut out, failed.len() as u64);
                out.append(" failure(s))");
                out
            },
            ExecutionError::Legged { filled, failed } => {
                let mut out: String = String::from_str("legged: ");
                text::push_u64(&mut out, filled.len() as u64);
                out.append(" leg(s) filled and must be unwound, ");
                text::push_u64(&mut out, failed.len() as u64);
                out.append(" failed");
                out
            },
            ExecutionError::Timeout { elapsed_ms } => {
                let mut out: String = String::from_str("trade timed out after ");
                text::push_u64(&mut out, *elapsed_ms);
                out.append("ms; venue state unknown");
                out
            },
        }
    }
}

/// What one placement came back with.
pub type Answer = Result<OrderFill, OrderError>;

/// The fills among the answers, in leg order.
pub open spec fn filled_of(answers: Seq<Answer>) -> Seq<FillView>
    decreases answers.len(),
{
    if answers.len() == 0 {
        Seq::empty()
    } else {
        match answers.last() {
            Ok(fill) => filled_of(answers.drop_last()).push(fill@),
            Err(_) => filled_of(answers.drop_last()),
        }
    }
}

/// The failures among the answers, in leg order.
pub open spec fn failed_of(answers: Seq<Answer>) -> Seq<OrderErrorView>
    decreases answers.len(),
{
    if answers.len() == 0 {
        Seq::empty()
    } else {
        match answers.last() {
            Ok(_) => failed_of(answers.drop_last()),
            Err(error) => failed_of(answers.drop_last()).push(error@),
        }
    }
}

/// What a trade came to: its fills, or why it did not go on cleanly. `None`
/// stands for a window that closed before every leg answered.
pub open spec fn conclusion(
    legs: nat,
    timeout_ms: u64,
    answers: Option<Seq<Answer>>,
) -> Result<Seq<FillView>, ExecutionErrorView> {
    if legs == 0 {
        Ok(Seq::empty())
    } else {
        match answers {
            None => Err(ExecutionErrorView::Timeout { elapsed_ms: timeout_ms }),
            Some(answers) => {
                let filled = filled_of(answers);
                let failed = failed_of(answers);
                if failed.len() == 0 {
                    Ok(filled)
                } else if filled.len() == 0 {
                    Err(ExecutionErrorView::NoFills { failed })
                } else {
                    Err(ExecutionErrorView::Legged { filled, failed })
                }
            },
        }
    }
}

impl AtomicTrade {
    pub fn new(legs: Vec<NewOrder>) -> (trade: Self)
        ensures
            trade.legs == legs,
            trade.timeout_ms == DEFAULT_TIMEOUT_MS,
    {
        AtomicTrade { legs, timeout_ms: DEFAULT_TIMEOUT_MS }
    }

    /// Say what a trade came to, once every leg has answered or the window has
    /// closed (`None`).
    ///
    /// The legs go out together: sequential placement would price the second
    /// leg off a book that has already seen the first, which is exactly the
    /// move that removes the edge. A closed window says nothing about any leg,
    /// so it is reported as unknown whatever may have filled. A fill beside a
    /// failure is never "cancelled": it is done.
    pub fn conclude(&self, answers: Option<Vec<Answer>>) -> (result: Result<
        ExecutionResult,
        ExecutionError,
    >)
        ensures
            match result {
                Ok(execution) => conclusion(
                    self.legs@.len(),
                    self.timeout_ms,
                    (match answers {
                        Some(answers) => Some(answers@),
                        None => None,
                    }),
                ) == Ok::<Seq<FillView>, ExecutionErrorView>(fills_view(execution.fills@)),
                Err(error) => conclusion(
                    self.legs@.len(),
                    self.timeout_ms,
                    (match answers {
                        Some(answers) => Some(answers@),
                        None => None,
                    }),
                ) == Err::<Seq<FillView>, ExecutionErrorView>(error@),
            },
    {
        if self.legs.len() == 0 {
            let none: Vec<OrderFill> = Vec::new();
            assert(fills_view(none@) =~= Seq::<FillView>::empty());
            return Ok(ExecutionResult { fills: none });
        }
        let answers: Vec<Answer> = match answers {
            Some(answers) => answers,
            None => return Err(ExecutionError::Timeout { elapsed_ms: self.timeout_ms }),
        };
        let ghost all = answers@;
        let mut fills: Vec<OrderFill> = Vec::new();
        let mut failed: Vec<OrderError> = Vec::new();
        proof {
            assert(all.subrange(0, 0) =~= Seq::<Answer>::empty());
            assert(fills_view(fills@) =~= Seq::<FillView>::empty());
            assert(errors_view(failed@) =~= Seq::<OrderErrorView>::empty());
        }
        for answer in it: answers
            invariant
                it.seq() == all,
                fills_view(fills@) == filled_of(all.subrange(0, it.index() as int)),
                errors_view(failed@) == failed_of(all.subrange(0, it.index() as int)),
        {
            let ghost before_fills = fills@;
            let ghost before_failed = failed@;
            proof {
                let next = all.subrange(0, it.index() as int + 1);
                assert(next.drop_last() =~= all.subrange(0, it.index() as int));
                assert(next.last() == answer);
            }
            match answer {
                Ok(fill) => {
                    fills.push(fill);
                    assert(fills_view(fills@) =~= fills_view(before_fills).push(fill@));
                },
                Err(error) => {
                    failed.push(error);
                    assert(errors_view(failed@) =~= errors_view(before_failed).push(error@));
                },
            }
        }
        assert(all.subrange(0, all.len() as int) =~= all);
        if failed.len() == 0 {
            return Ok(ExecutionResult { fills });
        }
        if fills.len() == 0 {
            return Err(ExecutionError::NoFills { failed });
        }
        Err(ExecutionError::Legged { filled: fills, failed })
    }
}

// ---------------------------------------------------------------------------
// Laws
// ---------------------------------------------------------------------------

proof fn lemma_answers_counted(answers: Seq<Answer>)
    ensures
        filled_of(answers).len() + failed_of(answers).len() == answers.len(),
    decreases answers.len(),
{
    if answers.len() > 0 {
        lemma_answers_counted(answers.drop_last());
    }
}

/// A trade that is reported as done filled every leg, and one that filled some
/// but not all is never reported as clean or as free: every fill is handed
/// back.
pub proof fn no_fill_is_ever_lost(legs: nat, timeout_ms: u64, answers: Seq<Answer>)
    requires
        legs > 0,
        answers.len() == legs,
    ensures
        match conclusion(legs, timeout_ms, Some(answers)) {
            Ok(fills) => fills.len() == legs && fills == filled_of(answers),
            Err(ExecutionErrorView::NoFills { failed }) => failed.len() == legs && filled_of(
                answers,
            ).len() == 0,
            Err(ExecutionErrorView::Legged { filled, failed }) => filled == filled_of(answers)
                && 0 < filled.len() < legs && filled.len() + failed.len() == legs,
            Err(ExecutionErrorView::Timeout { .. }) => false,
        },
{
    lemma_answers_counted(answers);
}

} // verus!
