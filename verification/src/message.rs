//! Human-readable descriptions of carrier-layer errors.
use crate::carrier::{ChannelId, StockFlowError, SymbolId, ValueRole};
use crate::dynamics::{error_message, FlowRole};
use crate::format::{count_text, decimal, push_text, text_from_chars};
use crate::linear::MatrixError;
use crate::trace::{TraceError, TraceStateError};
use vstd::prelude::*;

verus! {

/// The `Debug` rendering of a string: the text in double quotes, with quotes,
/// backslashes and control characters escaped.
pub uninterp spec fn debug_quoted(text: Seq<char>) -> Seq<char>;

/// Renders a string as `Debug` does (`Debug` for `str`).
#[verifier::external_body]
fn quoted_text(text: &str) -> (result: String)
    ensures
        result@ == debug_quoted(text@),
{
    format!("{:?}", text)
}

/// The description of a carrier symbol: its class, then its identifier.
pub open spec fn symbol_text(symbol: SymbolId) -> Seq<char> {
    match symbol {
        SymbolId::Axis(id) => "axis "@ + id@,
        SymbolId::Flow(id) => "flow "@ + id@,
        SymbolId::Boundary(id) => "boundary "@ + id@,
        SymbolId::Ledger(id) => "ledger "@ + id@,
    }
}

/// The name of a value vector's role.
pub open spec fn role_text(role: ValueRole) -> Seq<char> {
    match role {
        ValueRole::Before => "Before"@,
        ValueRole::After => "After"@,
        ValueRole::RequestedInternal => "RequestedInternal"@,
        ValueRole::SettledInternal => "SettledInternal"@,
        ValueRole::RequestedBoundary => "RequestedBoundary"@,
        ValueRole::SettledBoundary => "SettledBoundary"@,
        ValueRole::LedgerBefore => "LedgerBefore"@,
        ValueRole::LedgerAfter => "LedgerAfter"@,
    }
}

/// The name of a flow's boundary role.
pub open spec fn flow_role_text(role: FlowRole) -> Seq<char> {
    match role {
        FlowRole::Input => "Input"@,
        FlowRole::Transfer => "Transfer"@,
        FlowRole::Output => "Output"@,
    }
}

/// The structural rendering of a channel name.
pub open spec fn channel_text(channel: ChannelId) -> Seq<char> {
    match channel {
        ChannelId::Internal(flow) => "Internal(FlowId("@ + debug_quoted(flow@) + "))"@,
        ChannelId::Boundary(boundary) => "Boundary(BoundaryId("@ + debug_quoted(boundary@) + "))"@,
    }
}

/// The description of a trace-state construction error.
pub open spec fn trace_state_text(error: TraceStateError) -> Seq<char> {
    match error {
        TraceStateError::Empty => "trace state must contain at least one axis"@,
        TraceStateError::DuplicateAxis(axis) => "duplicate trace-state axis "@ + axis@,
    }
}

/// The description of a trace-checking error.
pub open spec fn trace_text(error: TraceError) -> Seq<char> {
    match error {
        TraceError::TooShort { states } => "trace has "@ + decimal(states as int) + " states; at least two are required"@,
        TraceError::MissingAxis { state_index, axis } => "trace state "@ + decimal(state_index as int) + " is missing axis "@
            + axis@,
    }
}

/// The description of a matrix construction error.
pub open spec fn matrix_text(error: MatrixError) -> Seq<char> {
    match error {
        MatrixError::NoAxes => "matrix must contain at least one axis"@,
        MatrixError::NoTransitions => "matrix must contain at least one transition"@,
        MatrixError::AxisRowCount { axes, rows } => "matrix has "@ + decimal(axes as int) + " axes but "@ + decimal(
            rows as int,
        ) + " rows"@,
        MatrixError::RaggedRows { row, expected, actual } => "matrix row "@ + decimal(row as int) + " has "@ + decimal(
            actual as int,
        ) + " entries; expected "@ + decimal(expected as int),
        MatrixError::DuplicateAxis(axis) => "duplicate matrix axis "@ + axis@,
    }
}

/// The description of a carrier-layer error.
pub open spec fn carrier_message(error: StockFlowError) -> Seq<char> {
    match error {
        StockFlowError::StockAxisCount { expected, actual } => "carrier requires "@ + decimal(expected as int)
            + " stock-axis declarations, got "@ + decimal(actual as int),
        StockFlowError::DuplicateStock(stock) => "duplicate stock mapping "@ + stock@,
        StockFlowError::DuplicateAxis(axis) => "duplicate carrier axis "@ + axis@,
        StockFlowError::UnknownStock(stock) => "unknown carrier stock "@ + stock@,
        StockFlowError::ChannelCount { expected, actual } => "carrier requires "@ + decimal(expected as int)
            + " channel identifiers, got "@ + decimal(actual as int),
        StockFlowError::DuplicateFlow(flow) => "duplicate flow "@ + flow@,
        StockFlowError::DuplicateBoundary(boundary) => "duplicate boundary "@ + boundary@,
        StockFlowError::ChannelRole { channel, actual } => "channel "@ + channel_text(channel) + " does not match "@
            + flow_role_text(actual),
        StockFlowError::DuplicateLedger(ledger) => "duplicate ledger "@ + ledger@,
        StockFlowError::UnknownKind(kind) => "unknown carrier kind "@ + kind@,
        StockFlowError::DuplicateValue(symbol) => "duplicate value for "@ + symbol_text(symbol),
        StockFlowError::NegativeAmount(symbol) => "negative amount for "@ + symbol_text(symbol),
        StockFlowError::MissingValue { role, symbol } => role_text(role) + " is missing "@ + symbol_text(symbol),
        StockFlowError::ExtraValue { role, symbol } => role_text(role) + " contains unexpected "@ + symbol_text(symbol),
        StockFlowError::KindMismatch { role, symbol, expected, actual } => role_text(role) + " gives "@ + symbol_text(
            symbol,
        ) + " kind "@ + actual@ + "; expected "@ + expected@,
        StockFlowError::SettledExceedsRequested { symbol, requested, settled } => "settled amount "@ + settled.text_spec()
            + " exceeds request "@ + requested.text_spec() + " for "@ + symbol_text(symbol),
        StockFlowError::CarrierMismatch => "record and carrier identities differ"@,
        StockFlowError::AmountCount { expected, actual } => "expected "@ + decimal(expected as int) + " amounts, got "@
            + decimal(actual as int),
        StockFlowError::DiscontinuousState { transition, axis } => "transition "@ + decimal(transition as int)
            + " does not continue stock axis "@ + axis@,
        StockFlowError::DiscontinuousLedger { transition, ledger } => "transition "@ + decimal(transition as int)
            + " does not continue ledger "@ + ledger@,
        StockFlowError::Settlement(inner) => error_message(inner),
        StockFlowError::TraceState(inner) => trace_state_text(inner),
        StockFlowError::TooShort { transitions } => "trace has "@ + decimal(transitions as int)
            + " transitions; at least one is required"@,
        StockFlowError::UnknownFlow(flow) => "unknown flow "@ + flow@,
        StockFlowError::UnknownAxis(axis) => "unknown axis "@ + axis@,
        StockFlowError::UnknownBoundary(boundary) => "unknown boundary "@ + boundary@,
        StockFlowError::UnknownLedger(ledger) => "unknown ledger "@ + ledger@,
        StockFlowError::EmptyConstraint => "linear flow constraint needs a nonzero term"@,
        StockFlowError::EmptyBoundaryMapping => "boundary correspondence needs at least one port"@,
        StockFlowError::DuplicateBoundaryMapping(boundary) => "duplicate mapped boundary "@ + boundary@,
        StockFlowError::MixedBoundaryRoles => "boundary correspondence mixes inputs and outputs"@,
        StockFlowError::SentenceKindMismatch { sentence, symbol, expected, actual } => "sentence "@ + sentence@ + " gives "@
            + symbol_text(symbol) + " kind "@ + actual@ + "; expected "@ + expected@,
        StockFlowError::LedgerBoundaryKindMismatch { ledger, boundary, ledger_kind, boundary_kind } => "ledger "@ + ledger@
            + " has kind "@ + ledger_kind@ + ", but boundary "@ + boundary@ + " has kind "@ + boundary_kind@,
        StockFlowError::Trace(inner) => trace_text(inner),
        StockFlowError::Matrix(inner) => matrix_text(inner),
        StockFlowError::BalanceLaw(_) => "balance law must contain a nonzero coefficient"@,
        StockFlowError::NonNullCertificate { flow, residual } => "coefficient vector does not annihilate flow "@ + flow@
            + ": "@ + residual.text_spec(),
        StockFlowError::UncoveredBoundary(boundary) => "no selected ledger covers boundary "@ + boundary@,
        StockFlowError::DuplicateBoundaryCoverage(boundary) => "selected ledgers cover boundary "@ + boundary@
            + " more than once"@,
        StockFlowError::IncompatibleLedgerCoefficient(ledger) => "ledger "@ + ledger@
            + " groups unequal open-balance coefficients"@,
        StockFlowError::DuplicateSentence(sentence) => "duplicate suite sentence "@ + sentence@,
    }
}

/// Appends the description of a symbol.
fn push_symbol(out: &mut Vec<char>, symbol: &SymbolId)
    ensures
        final(out)@ == old(out)@ + symbol_text(*symbol),
{
    match symbol {
        SymbolId::Axis(id) => {
            push_text(out, "axis ");
            push_text(out, id.as_str());
        },
        SymbolId::Flow(id) => {
            push_text(out, "flow ");
            push_text(out, id.as_str());
        },
        SymbolId::Boundary(id) => {
            push_text(out, "boundary ");
            push_text(out, id.as_str());
        },
        SymbolId::Ledger(id) => {
            push_text(out, "ledger ");
            push_text(out, id.as_str());
        },
    }
    proof {
        assert(out@ =~= old(out)@ + symbol_text(*symbol));
    }
}

/// Appends the name of a value role.
fn push_role(out: &mut Vec<char>, role: ValueRole)
    ensures
        final(out)@ == old(out)@ + role_text(role),
{
    match role {
        ValueRole::Before => push_text(out, "Before"),
        ValueRole::After => push_text(out, "After"),
        ValueRole::RequestedInternal => push_text(out, "RequestedInternal"),
        ValueRole::SettledInternal => push_text(out, "SettledInternal"),
        ValueRole::RequestedBoundary => push_text(out, "RequestedBoundary"),
        ValueRole::SettledBoundary => push_text(out, "SettledBoundary"),
        ValueRole::LedgerBefore => push_text(out, "LedgerBefore"),
        ValueRole::LedgerAfter => push_text(out, "LedgerAfter"),
    }
}

/// Appends the decimal text of a count.
fn push_count(out: &mut Vec<char>, value: usize)
    ensures
        final(out)@ == old(out)@ + decimal(value as int),
{
    let text = count_text(value);
    push_text(out, text.as_str());
}

/// Appends the description of a trace-checking error.
fn push_trace(out: &mut Vec<char>, error: &TraceError)
    ensures
        final(out)@ == old(out)@ + trace_text(*error),
{
    match error {
        TraceError::TooShort { states } => {
            push_text(out, "trace has ");
            push_count(out, *states);
            push_text(out, " states; at least two are required");
        },
        TraceError::MissingAxis { state_index, axis } => {
            push_text(out, "trace state ");
            push_count(out, *state_index);
            push_text(out, " is missing axis ");
            push_text(out, axis.as_str());
        },
    }
    proof {
        assert(out@ =~= old(out)@ + trace_text(*error));
    }
}

/// Appends the description of a matrix construction error.
fn push_matrix(out: &mut Vec<char>, error: &MatrixError)
    ensures
        final(out)@ == old(out)@ + matrix_text(*error),
{
    match error {
        MatrixError::NoAxes => push_text(out, "matrix must contain at least one axis"),
        MatrixError::NoTransitions => push_text(out, "matrix must contain at least one transition"),
        MatrixError::AxisRowCount { axes, rows } => {
            push_text(out, "matrix has ");
            push_count(out, *axes);
            push_text(out, " axes but ");
            push_count(out, *rows);
            push_text(out, " rows");
        },
        MatrixError::RaggedRows { row, expected, actual } => {
            push_text(out, "matrix row ");
            push_count(out, *row);
            push_text(out, " has ");
            push_count(out, *actual);
            push_text(out, " entries; expected ");
            push_count(out, *expected);
        },
        MatrixError::DuplicateAxis(axis) => {
            push_text(out, "duplicate matrix axis ");
            push_text(out, axis.as_str());
        },
    }
    proof {
        assert(out@ =~= old(out)@ + matrix_text(*error));
    }
}

/// Appends the structural rendering of a channel name and the role it does not match.
fn push_channel_role(out: &mut Vec<char>, channel: &ChannelId, actual: FlowRole)
    ensures
        final(out)@ == old(out)@ + "channel "@ + channel_text(*channel) + " does not match "@ + flow_role_text(actual),
{
    push_text(out, "channel ");
    match channel {
        ChannelId::Internal(flow) => {
            push_text(out, "Internal(FlowId(");
            let quoted = quoted_text(flow.as_str());
            push_text(out, quoted.as_str());
            push_text(out, "))");
        },
        ChannelId::Boundary(boundary) => {
            push_text(out, "Boundary(BoundaryId(");
            let quoted = quoted_text(boundary.as_str());
            push_text(out, quoted.as_str());
            push_text(out, "))");
        },
    }
    push_text(out, " does not match ");
    match actual {
        FlowRole::Input => push_text(out, "Input"),
        FlowRole::Transfer => push_text(out, "Transfer"),
        FlowRole::Output => push_text(out, "Output"),
    }
    proof {
        assert(out@ =~= old(out)@ + "channel "@ + channel_text(*channel) + " does not match "@ + flow_role_text(actual));
    }
}

impl StockFlowError {
    /// Describes the error, naming the symbols, roles, kinds and amounts it
    /// carries.
    pub fn to_string(&self) -> (result: String)
        ensures
            result@ == carrier_message(*self),
    {
        let mut out: Vec<char> = Vec::new();
        match self {
            StockFlowError::StockAxisCount { expected, actual } => {
                push_text(&mut out, "carrier requires ");
                push_count(&mut out, *expected);
                push_text(&mut out, " stock-axis declarations, got ");
                push_count(&mut out, *actual);
            },
            StockFlowError::DuplicateStock(stock) => {
                push_text(&mut out, "duplicate stock mapping ");
                push_text(&mut out, stock.as_str());
            },
            StockFlowError::DuplicateAxis(axis) => {
                push_text(&mut out, "duplicate carrier axis ");
                push_text(&mut out, axis.as_str());
            },
            StockFlowError::UnknownStock(stock) => {
                push_text(&mut out, "unknown carrier stock ");
                push_text(&mut out, stock.as_str());
            },
            StockFlowError::ChannelCount { expected, actual } => {
                push_text(&mut out, "carrier requires ");
                push_count(&mut out, *expected);
                push_text(&mut out, " channel identifiers, got ");
                push_count(&mut out, *actual);
            },
            StockFlowError::DuplicateFlow(flow) => {
                push_text(&mut out, "duplicate flow ");
                push_text(&mut out, flow.as_str());
            },
            StockFlowError::DuplicateBoundary(boundary) => {
                push_text(&mut out, "duplicate boundary ");
                push_text(&mut out, boundary.as_str());
            },
            StockFlowError::ChannelRole { channel, actual } => {
                push_channel_role(&mut out, channel, *actual);
            },
            StockFlowError::DuplicateLedger(ledger) => {
                push_text(&mut out, "duplicate ledger ");
                push_text(&mut out, ledger.as_str());
            },
            StockFlowError::UnknownKind(kind) => {
                push_text(&mut out, "unknown carrier kind ");
                push_text(&mut out, kind.as_str());
            },
            StockFlowError::DuplicateValue(symbol) => {
                push_text(&mut out, "duplicate value for ");
                push_symbol(&mut out, symbol);
            },
            StockFlowError::NegativeAmount(symbol) => {
                push_text(&mut out, "negative amount for ");
                push_symbol(&mut out, symbol);
            },
            StockFlowError::MissingValue { role, symbol } => {
                push_role(&mut out, *role);
                push_text(&mut out, " is missing ");
                push_symbol(&mut out, symbol);
            },
            StockFlowError::ExtraValue { role, symbol } => {
                push_role(&mut out, *role);
                push_text(&mut out, " contains unexpected ");
                push_symbol(&mut out, symbol);
            },
            StockFlowError::KindMismatch { role, symbol, expected, actual } => {
                push_role(&mut out, *role);
                push_text(&mut out, " gives ");
                push_symbol(&mut out, symbol);
                push_text(&mut out, " kind ");
                push_text(&mut out, actual.as_str());
                push_text(&mut out, "; expected ");
                push_text(&mut out, expected.as_str());
            },
            StockFlowError::SettledExceedsRequested { symbol, requested, settled } => {
                push_text(&mut out, "settled amount ");
                let settled_text = settled.to_text();
                push_text(&mut out, settled_text.as_str());
                push_text(&mut out, " exceeds request ");
                let requested_text = requested.to_text();
                push_text(&mut out, requested_text.as_str());
                push_text(&mut out, " for ");
                push_symbol(&mut out, symbol);
            },
            StockFlowError::CarrierMismatch => {
                push_text(&mut out, "record and carrier identities differ");
            },
            StockFlowError::AmountCount { expected, actual } => {
                push_text(&mut out, "expected ");
                push_count(&mut out, *expected);
                push_text(&mut out, " amounts, got ");
                push_count(&mut out, *actual);
            },
            StockFlowError::DiscontinuousState { transition, axis } => {
                push_text(&mut out, "transition ");
                push_count(&mut out, *transition);
                push_text(&mut out, " does not continue stock axis ");
                push_text(&mut out, axis.as_str());
            },
            StockFlowError::DiscontinuousLedger { transition, ledger } => {
                push_text(&mut out, "transition ");
                push_count(&mut out, *transition);
                push_text(&mut out, " does not continue ledger ");
                push_text(&mut out, ledger.as_str());
            },
            StockFlowError::Settlement(inner) => {
                let text = inner.to_string();
                push_text(&mut out, text.as_str());
            },
            StockFlowError::TraceState(inner) => match inner {
                TraceStateError::Empty => push_text(&mut out, "trace state must contain at least one axis"),
                TraceStateError::DuplicateAxis(axis) => {
                    push_text(&mut out, "duplicate trace-state axis ");
                    push_text(&mut out, axis.as_str());
                },
            },
            StockFlowError::TooShort { transitions } => {
                push_text(&mut out, "trace has ");
                push_count(&mut out, *transitions);
                push_text(&mut out, " transitions; at least one is required");
            },
            StockFlowError::UnknownFlow(flow) => {
                push_text(&mut out, "unknown flow ");
                push_text(&mut out, flow.as_str());
            },
            StockFlowError::UnknownAxis(axis) => {
                push_text(&mut out, "unknown axis ");
                push_text(&mut out, axis.as_str());
            },
            StockFlowError::UnknownBoundary(boundary) => {
                push_text(&mut out, "unknown boundary ");
                push_text(&mut out, boundary.as_str());
            },
            StockFlowError::UnknownLedger(ledger) => {
                push_text(&mut out, "unknown ledger ");
                push_text(&mut out, ledger.as_str());
            },
            StockFlowError::EmptyConstraint => {
                push_text(&mut out, "linear flow constraint needs a nonzero term");
            },
            StockFlowError::EmptyBoundaryMapping => {
                push_text(&mut out, "boundary correspondence needs at least one port");
            },
            StockFlowError::DuplicateBoundaryMapping(boundary) => {
                push_text(&mut out, "duplicate mapped boundary ");
                push_text(&mut out, boundary.as_str());
            },
            StockFlowError::MixedBoundaryRoles => {
                push_text(&mut out, "boundary correspondence mixes inputs and outputs");
            },
            StockFlowError::SentenceKindMismatch { sentence, symbol, expected, actual } => {
                push_text(&mut out, "sentence ");
                push_text(&mut out, sentence.as_str());
                push_text(&mut out, " gives ");
                push_symbol(&mut out, symbol);
                push_text(&mut out, " kind ");
                push_text(&mut out, actual.as_str());
                push_text(&mut out, "; expected ");
                push_text(&mut out, expected.as_str());
            },
            StockFlowError::LedgerBoundaryKindMismatch { ledger, boundary, ledger_kind, boundary_kind } => {
                push_text(&mut out, "ledger ");
                push_text(&mut out, ledger.as_str());
                push_text(&mut out, " has kind ");
                push_text(&mut out, ledger_kind.as_str());
                push_text(&mut out, ", but boundary ");
                push_text(&mut out, boundary.as_str());
                push_text(&mut out, " has kind ");
                push_text(&mut out, boundary_kind.as_str());
            },
            StockFlowError::Trace(inner) => {
                push_trace(&mut out, inner);
            },
            StockFlowError::Matrix(inner) => {
                push_matrix(&mut out, inner);
            },
            StockFlowError::BalanceLaw(inner) => {
                push_text(&mut out, inner.message());
            },
            StockFlowError::NonNullCertificate { flow, residual } => {
                push_text(&mut out, "coefficient vector does not annihilate flow ");
                push_text(&mut out, flow.as_str());
                push_text(&mut out, ": ");
                let text = residual.to_text();
                push_text(&mut out, text.as_str());
            },
            StockFlowError::UncoveredBoundary(boundary) => {
                push_text(&mut out, "no selected ledger covers boundary ");
                push_text(&mut out, boundary.as_str());
            },
            StockFlowError::DuplicateBoundaryCoverage(boundary) => {
                push_text(&mut out, "selected ledgers cover boundary ");
                push_text(&mut out, boundary.as_str());
                push_text(&mut out, " more than once");
            },
            StockFlowError::IncompatibleLedgerCoefficient(ledger) => {
                push_text(&mut out, "ledger ");
                push_text(&mut out, ledger.as_str());
                push_text(&mut out, " groups unequal open-balance coefficients");
            },
            StockFlowError::DuplicateSentence(sentence) => {
                push_text(&mut out, "duplicate suite sentence ");
                push_text(&mut out, sentence.as_str());
            },
        }
        proof {
            assert(out@ =~= carrier_message(*self));
        }
        text_from_chars(&out)
    }
}

} // verus!
