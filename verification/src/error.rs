//! Errors raised while executing Cove code.
use crate::text::decimal;
use vstd::prelude::*;
use vstd::string::*;

verus! {

/// How many calls of a chain an error names.
pub const MAX_CALL_CHAIN: usize = 8;

/// A stretch of one source file.
#[derive(Clone, Copy, Debug, PartialEq, Eq, Structural)]
pub struct Span {
    pub file: u32,
    pub start: u32,
    pub end: u32,
}

/// How a run ended.
#[derive(Clone, Copy, Debug, PartialEq, Eq, Structural)]
pub enum RunOutcome {
    /// The entry answered.
    Success,
    /// The entry answered `Err`.
    Error,
    /// A rule of the language was broken.
    Invariant,
    /// A host refused, or broke its own contract.
    HostBoundary,
    /// A limit of the run was reached.
    Budget,
    /// The run was cancelled.
    Cancelled,
}

/// The calls that led to an error, the innermost first, and how many more
/// there were.
#[derive(Debug)]
pub struct Chain {
    pub sites: Vec<Span>,
    pub omitted: usize,
}

/// An error, mathematically.
pub ghost struct Failure {
    pub message: Seq<char>,
    pub span: Option<Span>,
    pub rule: Option<Seq<char>>,
    pub help: Option<Seq<char>>,
    pub chain: Option<(Seq<Span>, nat)>,
    pub outcome: RunOutcome,
    pub denied_capability: Option<Seq<char>>,
}

/// An error with nothing but its message.
pub open spec fn failure(message: Seq<char>) -> Failure {
    Failure {
        message,
        span: None,
        rule: None,
        help: None,
        chain: None,
        outcome: RunOutcome::Invariant,
        denied_capability: None,
    }
}

impl Failure {
    /// The error where it was not yet anywhere.
    pub open spec fn placed(self, span: Span) -> Failure {
        match self.span {
            Some(_) => self,
            None => Failure { span: Some(span), ..self },
        }
    }
}

/// A text that may be absent, mathematically.
pub open spec fn text_of(text: Option<String>) -> Option<Seq<char>> {
    match text {
        Some(t) => Some(t@),
        None => None,
    }
}

/// An error raised while executing Cove code: what went wrong, where, the rule
/// it broke and how to mend it.
#[derive(Debug)]
pub struct RuntimeError {
    pub message: String,
    pub span: Option<Span>,
    pub rule: Option<String>,
    pub help: Option<String>,
    pub chain: Option<Chain>,
    pub outcome: RunOutcome,
    pub denied_capability: Option<String>,
}

impl View for RuntimeError {
    type V = Failure;

    open spec fn view(&self) -> Failure {
        Failure {
            message: self.message@,
            span: self.span,
            rule: text_of(self.rule),
            help: text_of(self.help),
            chain: match self.chain {
                Some(chain) => Some((chain.sites@, chain.omitted as nat)),
                None => None,
            },
            outcome: self.outcome,
            denied_capability: text_of(self.denied_capability),
        }
    }
}

/// One note of a diagnostic.
#[derive(Debug)]
pub struct Label {
    pub span: Span,
    pub message: String,
}

/// An error as it is reported.
#[derive(Debug)]
pub struct Diagnostic {
    pub code: &'static str,
    pub message: String,
    pub span: Option<Span>,
    pub rule: Option<String>,
    pub help: Option<String>,
    pub labels: Vec<Label>,
}

/// The note on call `i` of a chain of `count` with `omitted` more.
pub open spec fn call_note(i: int, count: int, omitted: nat) -> Seq<char> {
    if i == count - 1 && omitted > 0 {
        "called from here ("@ + crate::text::digits(omitted) + " more call"@ + (if omitted == 1 {
            ""@
        } else {
            "s"@
        }) + " not shown)"@
    } else {
        "called from here"@
    }
}

impl RuntimeError {
    /// An error with nothing but its message.
    pub fn new(message: String) -> (error: RuntimeError)
        ensures
            error@ == failure(message@),
    {
        RuntimeError {
            message,
            span: None,
            rule: None,
            help: None,
            chain: None,
            outcome: RunOutcome::Invariant,
            denied_capability: None,
        }
    }

    /// Places the error, unless it already is somewhere.
    pub fn at(self, span: Span) -> (error: RuntimeError)
        ensures
            error@ == self@.placed(span),
    {
        let mut error = self;
        if error.span.is_none() {
            error.span = Some(span);
        }
        error
    }

    /// The calls that led here, the innermost first.
    pub fn chain(&self) -> (sites: Vec<Span>)
        ensures
            sites@ == (match self@.chain {
                Some(chain) => chain.0,
                None => Seq::empty(),
            }),
    {
        match &self.chain {
            None => Vec::new(),
            Some(chain) => {
                let mut sites: Vec<Span> = Vec::new();
                let mut i: usize = 0;
                while i < chain.sites.len()
                    invariant
                        i <= chain.sites@.len(),
                        sites@ == chain.sites@.take(i as int),
                    decreases chain.sites@.len() - i,
                {
                    sites.push(chain.sites[i]);
                    proof {
                        assert(sites@ =~= chain.sites@.take(i + 1));
                    }
                    i = i + 1;
                }
                proof {
                    assert(chain.sites@.take(i as int) =~= chain.sites@);
                }
                sites
            },
        }
    }

    /// How many calls beyond those the chain leaves out.
    pub fn chain_omitted(&self) -> (count: usize)
        ensures
            count == (match self@.chain {
                Some(chain) => chain.1,
                None => 0,
            }),
    {
        match &self.chain {
            None => 0,
            Some(chain) => chain.omitted,
        }
    }

    /// Gives the error the calls that led to it, unless it has them: the
    /// innermost few, and how many more there were.
    pub fn with_chain(self, sites: Vec<Span>) -> (error: RuntimeError)
        ensures
            error@ == (Failure {
                chain: match self@.chain {
                    Some(chain) => Some(chain),
                    None => if sites@.len() <= MAX_CALL_CHAIN {
                        Some((sites@, 0))
                    } else {
                        Some(
                            (
                                sites@.take(MAX_CALL_CHAIN as int),
                                (sites@.len() - MAX_CALL_CHAIN) as nat,
                            ),
                        )
                    },
                },
                ..self@
            }),
    {
        let mut error = self;
        if error.chain.is_some() {
            return error;
        }
        let total: usize = sites.len();
        let mut kept: Vec<Span> = sites;
        let mut omitted: usize = 0;
        if total > MAX_CALL_CHAIN {
            kept.truncate(MAX_CALL_CHAIN);
            omitted = total - MAX_CALL_CHAIN;
        }
        error.chain = Some(Chain { sites: kept, omitted });
        error
    }

    /// Names the rule that was broken.
    pub fn with_rule(self, rule: String) -> (error: RuntimeError)
        ensures
            error@ == (Failure { rule: Some(rule@), ..self@ }),
    {
        let mut error = self;
        error.rule = Some(rule);
        error
    }

    /// Says how to mend it.
    pub fn with_help(self, help: String) -> (error: RuntimeError)
        ensures
            error@ == (Failure { help: Some(help@), ..self@ }),
    {
        let mut error = self;
        error.help = Some(help);
        error
    }

    /// Says how the run it ends is to be called, unless that was said before:
    /// the innermost party to a failure is the one that knows what it was, and
    /// an error on its way out is not relabelled by what it passes through.
    pub fn with_outcome(self, outcome: RunOutcome) -> (error: RuntimeError)
        ensures
            error@ == (Failure {
                outcome: if self@.outcome == RunOutcome::Invariant {
                    outcome
                } else {
                    self@.outcome
                },
                ..self@
            }),
    {
        let mut error = self;
        if error.outcome == RunOutcome::Invariant {
            error.outcome = outcome;
        }
        error
    }

    /// Names the capability that was not granted.
    pub fn with_denied_capability(self, capability: String) -> (error: RuntimeError)
        ensures
            error@ == (Failure { denied_capability: Some(capability@), ..self@ }),
    {
        let mut error = self;
        error.denied_capability = Some(capability);
        error
    }

    /// The error as it is reported: each call of its chain a note, the last
    /// one saying how many more there were.
    pub fn to_diagnostic(&self) -> (diagnostic: Diagnostic)
        ensures
            diagnostic.code@ == "cove::runtime"@,
            diagnostic.message@ == self@.message,
            diagnostic.span == self@.span,
            text_of(diagnostic.rule) == self@.rule,
            text_of(diagnostic.help) == self@.help,
            match self@.chain {
                None => diagnostic.labels@.len() == 0,
                Some(chain) => {
                    &&& diagnostic.labels@.len() == chain.0.len()
                    &&& forall|i: int|
                        0 <= i < chain.0.len() ==> (#[trigger] diagnostic.labels@[i]).span
                            == chain.0[i] && diagnostic.labels@[i].message@ == call_note(
                            i,
                            chain.0.len() as int,
                            chain.1,
                        )
                },
            },
    {
        let mut labels: Vec<Label> = Vec::new();
        if let Some(chain) = &self.chain {
            let count: usize = chain.sites.len();
            let omitted: usize = chain.omitted;
            let mut i: usize = 0;
            while i < count
                invariant
                    count == chain.sites@.len(),
                    omitted == chain.omitted,
                    i <= count,
                    labels@.len() == i,
                    forall|j: int|
                        0 <= j < i ==> (#[trigger] labels@[j]).span == chain.sites@[j]
                            && labels@[j].message@ == call_note(j, count as int, omitted as nat),
                decreases count - i,
            {
                let message: String = if i == count - 1 && omitted > 0 {
                    let mut text: String = "called from here (".to_owned();
                    text.append(decimal(omitted as u64).as_str());
                    text.append(" more call");
                    if omitted == 1 {
                        text.append("");
                    } else {
                        text.append("s");
                    }
                    text.append(" not shown)");
                    text
                } else {
                    "called from here".to_owned()
                };
                labels.push(Label { span: chain.sites[i], message });
                i = i + 1;
            }
        }
        Diagnostic {
            code: "cove::runtime",
            message: self.message.clone(),
            span: self.span,
            rule: match &self.rule {
                Some(rule) => Some(rule.clone()),
                None => None,
            },
            help: match &self.help {
                Some(help) => Some(help.clone()),
                None => None,
            },
            labels,
        }
    }
}

/// Each call of a chain is noted where it stands; the last note alone tells of
/// calls that are left out, and only where there are some, and how many.
pub proof fn only_the_last_call_tells_of_more(i: int, count: int, omitted: nat)
    ensures
        omitted == 0 ==> call_note(i, count, omitted) == "called from here"@,
        i != count - 1 ==> call_note(i, count, omitted) == "called from here"@,
        i == count - 1 && omitted == 1 ==> call_note(i, count, omitted) == "called from here ("@
            + crate::text::digits(1) + " more call"@ + " not shown)"@,
        i == count - 1 && omitted > 1 ==> call_note(i, count, omitted) == "called from here ("@
            + crate::text::digits(omitted) + " more call"@ + "s"@ + " not shown)"@,
        MAX_CALL_CHAIN == 8,
{
    reveal_strlit("");
    let head = "called from here ("@ + crate::text::digits(1) + " more call"@;
    assert(head + ""@ =~= head);
}

/// An error is placed once: where it was first, it stays.
pub proof fn an_error_stays_where_it_was_placed(error: Failure, here: Span, there: Span)
    ensures
        error.placed(here).span is Some,
        error.span is None ==> error.placed(here).span == Some(here),
        error.span is Some ==> error.placed(here) == error,
        error.placed(here).placed(there) == error.placed(here),
        error.placed(here).message == error.message,
        error.placed(here).outcome == error.outcome,
{
}

} // verus!
