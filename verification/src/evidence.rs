use vstd::prelude::*;

verus! {

/// How certain a `Finding` is, given the evidence behind it. Declared
/// weakest to strongest, so the derived order is
/// `Unknown < Likely < Correlated < Observed`.
#[derive(Debug, Clone, Copy, PartialEq, Eq, PartialOrd, Ord, Structural)]
pub enum Confidence {
    /// The data was insufficient to say anything stronger.
    Unknown,
    /// A documented heuristic threshold matched, without certainty.
    Likely,
    /// Two or more observed facts combined without inference.
    Correlated,
    /// Read directly from a kernel/system source.
    Observed,
}

#[derive(Debug, Clone, Copy, PartialEq, Eq, PartialOrd, Ord, Structural)]
pub enum Severity {
    Info,
    Notice,
    Warning,
    Critical,
}

/// A single piece of raw data backing a `Finding`.
#[derive(Debug, Clone, PartialEq)]
pub struct Evidence {
    /// Where this came from, e.g. `"/proc/1234/status"`.
    pub source: String,
    /// Unix timestamp (seconds) this evidence was collected.
    pub collected_at: i64,
    /// Human-readable description of what this evidence shows.
    pub description: String,
    /// The raw value read, before any interpretation.
    pub raw: String,
}

/// The output of an investigation rule: a claim, backed by evidence, with
/// an honest confidence level.
#[derive(Debug, Clone, PartialEq)]
pub struct Finding {
    pub severity: Severity,
    pub title: String,
    pub narrative: String,
    pub confidence: Confidence,
    pub evidence: Vec<Evidence>,
}

/// The value of an `Evidence`, its strings as character sequences.
pub struct EvidenceView {
    pub source: Seq<char>,
    pub collected_at: i64,
    pub description: Seq<char>,
    pub raw: Seq<char>,
}

impl View for Evidence {
    type V = EvidenceView;

    open spec fn view(&self) -> EvidenceView {
        EvidenceView {
            source: self.source@,
            collected_at: self.collected_at,
            description: self.description@,
            raw: self.raw@,
        }
    }
}

/// The values of a list of evidence.
pub open spec fn evidence_views(v: Seq<Evidence>) -> Seq<EvidenceView> {
    v.map_values(|e: Evidence| e@)
}

/// The value of a `Finding`, its strings as character sequences.
pub struct FindingView {
    pub severity: Severity,
    pub title: Seq<char>,
    pub narrative: Seq<char>,
    pub confidence: Confidence,
    pub evidence: Seq<EvidenceView>,
}

impl View for Finding {
    type V = FindingView;

    open spec fn view(&self) -> FindingView {
        FindingView {
            severity: self.severity,
            title: self.title@,
            narrative: self.narrative@,
            confidence: self.confidence,
            evidence: evidence_views(self.evidence@),
        }
    }
}

/// A claim stronger than `Unknown` must point at some evidence.
pub open spec fn supported(confidence: Confidence, evidence: Seq<Evidence>) -> bool {
    confidence == Confidence::Unknown || evidence.len() > 0
}

impl Finding {
    /// Whether this finding respects the evidence rule (see `supported`).
    pub open spec fn is_supported(&self) -> bool {
        supported(self.confidence, self.evidence@)
    }

    /// Constructs a `Finding`. A confidence above `Unknown` without any
    /// evidence is a contract violation: no finding may claim more
    /// certainty than its data supports.
    pub fn new(
        severity: Severity,
        title: &str,
        narrative: &str,
        confidence: Confidence,
        evidence: Vec<Evidence>,
    ) -> (f: Self)
        requires
            supported(confidence, evidence@),
        ensures
            f.severity == severity,
            f.title@ == title@,
            f.narrative@ == narrative@,
            f.confidence == confidence,
            f.evidence@ == evidence@,
            f.is_supported(),
    {
        Finding {
            severity,
            title: String::from_str(title),
            narrative: String::from_str(narrative),
            confidence,
            evidence,
        }
    }
}

} // verus!
