use vstd::prelude::*;

verus! {

/// The rule family a finding belongs to.
#[derive(Clone, Copy, PartialEq, Eq, Structural, Debug)]
pub enum IssueType {
    Syntax,
    DeadCode,
    Style,
    Architecture,
}

#[derive(Clone, Copy, PartialEq, Eq, Structural, Debug)]
pub enum Severity {
    Error,
    Warning,
    Info,
}

impl IssueType {
    pub open spec fn label_spec(&self) -> Seq<char> {
        match self {
            IssueType::Syntax => "Syntax"@,
            IssueType::DeadCode => "DeadCode"@,
            IssueType::Style => "Style"@,
            IssueType::Architecture => "Architecture"@,
        }
    }

    /// Human-readable name of the issue type.
    pub fn label(&self) -> (r: &'static str)
        ensures
            r@ == self.label_spec(),
    {
        match self {
            IssueType::Syntax => "Syntax",
            IssueType::DeadCode => "DeadCode",
            IssueType::Style => "Style",
            IssueType::Architecture => "Architecture",
        }
    }
}

impl Severity {
    pub open spec fn label_spec(&self) -> Seq<char> {
        match self {
            Severity::Error => "Error"@,
            Severity::Warning => "Warning"@,
            Severity::Info => "Info"@,
        }
    }

    /// Human-readable name of the severity.
    pub fn label(&self) -> (r: &'static str)
        ensures
            r@ == self.label_spec(),
    {
        match self {
            Severity::Error => "Error",
            Severity::Warning => "Warning",
            Severity::Info => "Info",
        }
    }
}

/// Mathematical model of a finding.
pub struct IssueModel {
    pub file_path: Seq<u8>,
    pub line: int,
    pub column: int,
    pub issue_type: IssueType,
    pub severity: Severity,
    pub message: Seq<u8>,
    pub code: Seq<u8>,
    pub fix_available: bool,
}

/// One reported analysis result. Immutable once created.
#[derive(Clone, Debug)]
pub struct Issue {
    pub file_path: Vec<u8>,
    pub line: usize,
    pub column: usize,
    pub issue_type: IssueType,
    pub severity: Severity,
    pub message: Vec<u8>,
    pub code: Vec<u8>,
    pub fix_available: bool,
}

impl View for Issue {
    type V = IssueModel;

    open spec fn view(&self) -> IssueModel {
        IssueModel {
            file_path: self.file_path@,
            line: self.line as int,
            column: self.column as int,
            issue_type: self.issue_type,
            severity: self.severity,
            message: self.message@,
            code: self.code@,
            fix_available: self.fix_available,
        }
    }
}

impl DeepView for Issue {
    type V = IssueModel;

    open spec fn deep_view(&self) -> IssueModel {
        self@
    }
}

} // verus!
