//! Error types and validation results: structured errors carrying JSON
//! Pointer paths into both the document and the schema.
use crate::text::{decimal, push_decimal, to_string};
use vstd::prelude::*;

verus! {

/// A single validation error.
#[derive(Debug, Clone, PartialEq)]
pub struct ValidationError {
    /// JSON Pointer path to the rejected value in the instance document.
    pub instance_path: String,
    /// JSON Pointer path to the rejecting schema node.
    pub schema_path: String,
    /// Machine-readable error code.
    pub code: ErrorCode,
    /// Human-readable error message.
    pub message: String,
    /// Optional hint for fixing the error.
    pub hint: Option<String>,
}

/// The mathematical content of a [`ValidationError`].
pub struct ErrorView {
    pub instance_path: Seq<char>,
    pub schema_path: Seq<char>,
    pub code: ErrorCode,
    pub message: Seq<char>,
    pub hint: Option<Seq<char>>,
}

/// The view of an optional string.
pub open spec fn opt_view(o: Option<String>) -> Option<Seq<char>> {
    match o {
        Some(s) => Some(s@),
        None => None,
    }
}

impl View for ValidationError {
    type V = ErrorView;

    open spec fn view(&self) -> ErrorView {
        ErrorView {
            instance_path: self.instance_path@,
            schema_path: self.schema_path@,
            code: self.code,
            message: self.message@,
            hint: opt_view(self.hint),
        }
    }
}

/// The views of a sequence of errors.
pub open spec fn error_views(v: Seq<ValidationError>) -> Seq<ErrorView> {
    v.map_values(|e: ValidationError| e@)
}

/// Machine-readable validation error codes.
#[derive(Debug, Clone, Copy, PartialEq, Eq, Hash, Structural)]
pub enum ErrorCode {
    TypeMismatch,
    InvalidScalar,
    RequiredPropertyMissing,
    UnknownProperty,
    DuplicateKey,
    InvalidElement,
    InvalidEnumValue,
    NoMatchingVariant,
    AmbiguousVariant,
    InvalidDiscriminatorValue,
    UnresolvedRef,
    MaxDepthExceeded,
    PatternMismatch,
    ValueOutOfRange,
    InvalidSDL,
    InvalidYAML,
    InvalidJSON,
}

/// The snake-case name of an error code.
pub open spec fn code_text(c: ErrorCode) -> Seq<char> {
    match c {
        ErrorCode::TypeMismatch => "type_mismatch"@,
        ErrorCode::InvalidScalar => "invalid_scalar"@,
        ErrorCode::RequiredPropertyMissing => "required_property_missing"@,
        ErrorCode::UnknownProperty => "unknown_property"@,
        ErrorCode::DuplicateKey => "duplicate_key"@,
        ErrorCode::InvalidElement => "invalid_element"@,
        ErrorCode::InvalidEnumValue => "invalid_enum_value"@,
        ErrorCode::NoMatchingVariant => "no_matching_variant"@,
        ErrorCode::AmbiguousVariant => "ambiguous_variant"@,
        ErrorCode::InvalidDiscriminatorValue => "invalid_discriminator_value"@,
        ErrorCode::UnresolvedRef => "unresolved_ref"@,
        ErrorCode::MaxDepthExceeded => "max_depth_exceeded"@,
        ErrorCode::PatternMismatch => "pattern_mismatch"@,
        ErrorCode::ValueOutOfRange => "value_out_of_range"@,
        ErrorCode::InvalidSDL => "invalid_sdl"@,
        ErrorCode::InvalidYAML => "invalid_yaml"@,
        ErrorCode::InvalidJSON => "invalid_json"@,
    }
}

impl ErrorCode {
    /// The snake-case name of this code, as printed in reports.
    pub fn as_str(&self) -> (r: &'static str)
        ensures
            r@ == code_text(*self),
    {
        match self {
            ErrorCode::TypeMismatch => "type_mismatch",
            ErrorCode::InvalidScalar => "invalid_scalar",
            ErrorCode::RequiredPropertyMissing => "required_property_missing",
            ErrorCode::UnknownProperty => "unknown_property",
            ErrorCode::DuplicateKey => "duplicate_key",
            ErrorCode::InvalidElement => "invalid_element",
            ErrorCode::InvalidEnumValue => "invalid_enum_value",
            ErrorCode::NoMatchingVariant => "no_matching_variant",
            ErrorCode::AmbiguousVariant => "ambiguous_variant",
            ErrorCode::InvalidDiscriminatorValue => "invalid_discriminator_value",
            ErrorCode::UnresolvedRef => "unresolved_ref",
            ErrorCode::MaxDepthExceeded => "max_depth_exceeded",
            ErrorCode::PatternMismatch => "pattern_mismatch",
            ErrorCode::ValueOutOfRange => "value_out_of_range",
            ErrorCode::InvalidSDL => "invalid_sdl",
            ErrorCode::InvalidYAML => "invalid_yaml",
            ErrorCode::InvalidJSON => "invalid_json",
        }
    }

    /// The snake-case name of this code as an owned string.
    pub fn to_string(&self) -> (r: String)
        ensures
            r@ == code_text(*self),
    {
        to_string(self.as_str())
    }
}

/// SDL parsing error.
#[derive(Debug, Clone)]
pub enum SdlError {
    ParseError { line: usize, col: usize, message: String },
    UnknownType { name: String },
    DuplicateType { name: String },
    InvalidDirective { name: String, target: String, reason: String },
    CycleDetected { path: String },
}

/// The report text of an SDL error.
pub open spec fn sdl_error_text(e: SdlError) -> Seq<char> {
    match e {
        SdlError::ParseError { line, col, message } => "parse error at line "@ + decimal(
            line as nat,
        ) + ", column "@ + decimal(col as nat) + ": "@ + message@,
        SdlError::UnknownType { name } => "unknown type '"@ + name@ + "' referenced"@,
        SdlError::DuplicateType { name } => "duplicate type definition '"@ + name@ + "'"@,
        SdlError::InvalidDirective { name, target, reason } => "invalid directive '@"@ + name@
            + "' on "@ + target@ + ": "@ + reason@,
        SdlError::CycleDetected { path } => "cycle detected: "@ + path@,
    }
}

impl SdlError {
    /// The report text of this error.
    pub fn to_string(&self) -> (r: String)
        ensures
            r@ == sdl_error_text(*self),
    {
        let mut s = String::new();
        match self {
            SdlError::ParseError { line, col, message } => {
                s.append("parse error at line ");
                push_decimal(&mut s, *line as u64);
                s.append(", column ");
                push_decimal(&mut s, *col as u64);
                s.append(": ");
                s.append(message.as_str());
            },
            SdlError::UnknownType { name } => {
                s.append("unknown type '");
                s.append(name.as_str());
                s.append("' referenced");
            },
            SdlError::DuplicateType { name } => {
                s.append("duplicate type definition '");
                s.append(name.as_str());
                s.append("'");
            },
            SdlError::InvalidDirective { name, target, reason } => {
                s.append("invalid directive '@");
                s.append(name.as_str());
                s.append("' on ");
                s.append(target.as_str());
                s.append(": ");
                s.append(reason.as_str());
            },
            SdlError::CycleDetected { path } => {
                s.append("cycle detected: ");
                s.append(path.as_str());
            },
        }
        s
    }
}

/// Compiler lowering error.
#[derive(Debug, Clone)]
pub enum LoweringError {
    UnresolvedRef { name: String },
    InvalidDirective { directive: String, target: String, reason: String },
    RecursiveCycle { path: String },
    UnsupportedConstruct { detail: String },
    ConflictingDirectives { target: String, detail: String },
}

/// The content of a lowering error.
pub enum LoweringErrorView {
    UnresolvedRef { name: Seq<char> },
    InvalidDirective { directive: Seq<char>, target: Seq<char>, reason: Seq<char> },
    RecursiveCycle { path: Seq<char> },
    UnsupportedConstruct { detail: Seq<char> },
    ConflictingDirectives { target: Seq<char>, detail: Seq<char> },
}

impl View for LoweringError {
    type V = LoweringErrorView;

    open spec fn view(&self) -> LoweringErrorView {
        match self {
            LoweringError::UnresolvedRef { name } => LoweringErrorView::UnresolvedRef { name: name@ },
            LoweringError::InvalidDirective { directive, target, reason } =>
                LoweringErrorView::InvalidDirective {
                directive: directive@,
                target: target@,
                reason: reason@,
            },
            LoweringError::RecursiveCycle { path } => LoweringErrorView::RecursiveCycle {
                path: path@,
            },
            LoweringError::UnsupportedConstruct { detail } =>
                LoweringErrorView::UnsupportedConstruct { detail: detail@ },
            LoweringError::ConflictingDirectives { target, detail } =>
                LoweringErrorView::ConflictingDirectives { target: target@, detail: detail@ },
        }
    }
}

/// The contents of a sequence of lowering errors.
pub open spec fn lowering_views(v: Seq<LoweringError>) -> Seq<LoweringErrorView> {
    v.map_values(|e: LoweringError| e@)
}

/// The report text of a lowering error.
pub open spec fn lowering_error_text(e: LoweringError) -> Seq<char> {
    match e {
        LoweringError::UnresolvedRef { name } => "unresolved type reference '"@ + name@ + "'"@,
        LoweringError::InvalidDirective { directive, target, reason } => "invalid directive '"@
            + directive@ + "' on "@ + target@ + ": "@ + reason@,
        LoweringError::RecursiveCycle { path } => "recursive cycle: "@ + path@,
        LoweringError::UnsupportedConstruct { detail } => "unsupported SDL construct: "@ + detail@,
        LoweringError::ConflictingDirectives { target, detail } => "conflicting directives on "@
            + target@ + ": "@ + detail@,
    }
}

impl LoweringError {
    /// The report text of this error.
    pub fn to_string(&self) -> (r: String)
        ensures
            r@ == lowering_error_text(*self),
    {
        let mut s = String::new();
        match self {
            LoweringError::UnresolvedRef { name } => {
                s.append("unresolved type reference '");
                s.append(name.as_str());
                s.append("'");
            },
            LoweringError::InvalidDirective { directive, target, reason } => {
                s.append("invalid directive '");
                s.append(directive.as_str());
                s.append("' on ");
                s.append(target.as_str());
                s.append(": ");
                s.append(reason.as_str());
            },
            LoweringError::RecursiveCycle { path } => {
                s.append("recursive cycle: ");
                s.append(path.as_str());
            },
            LoweringError::UnsupportedConstruct { detail } => {
                s.append("unsupported SDL construct: ");
                s.append(detail.as_str());
            },
            LoweringError::ConflictingDirectives { target, detail } => {
                s.append("conflicting directives on ");
                s.append(target.as_str());
                s.append(": ");
                s.append(detail.as_str());
            },
        }
        s
    }
}

/// Source location for error reporting.
#[derive(Debug, Clone, Copy, PartialEq, Eq, Structural)]
pub struct SourceSpan {
    pub start_line: usize,
    pub start_col: usize,
    pub end_line: usize,
    pub end_col: usize,
}

impl SourceSpan {
    /// A span from a start position to an end position.
    pub fn new(start_line: usize, start_col: usize, end_line: usize, end_col: usize) -> (r: Self)
        ensures
            r == (SourceSpan { start_line, start_col, end_line, end_col }),
    {
        Self { start_line, start_col, end_line, end_col }
    }

    /// The empty span at one position.
    pub fn point(line: usize, col: usize) -> (r: Self)
        ensures
            r == (SourceSpan { start_line: line, start_col: col, end_line: line, end_col: col }),
    {
        Self { start_line: line, start_col: col, end_line: line, end_col: col }
    }
}

/// Validation result with structured errors.
#[derive(Debug, Clone)]
pub struct ValidationResult {
    pub valid: bool,
    pub errors: Vec<ValidationError>,
}

impl ValidationResult {
    /// A result with no errors.
    pub fn ok() -> (r: Self)
        ensures
            r.valid,
            r.errors@.len() == 0,
    {
        Self { valid: true, errors: Vec::new() }
    }

    /// A result holding `errors`; valid exactly when there are none.
    pub fn from_errors(errors: Vec<ValidationError>) -> (r: Self)
        ensures
            r.errors@ == errors@,
            r.valid == (errors@.len() == 0),
    {
        let valid = errors.len() == 0;
        Self { valid, errors }
    }

    /// Records one more error; the result is then invalid.
    pub fn add_error(&mut self, error: ValidationError)
        ensures
            !final(self).valid,
            final(self).errors@ == old(self).errors@.push(error),
    {
        self.valid = false;
        self.errors.push(error);
    }
}

/// Validation mode: strict vs open.
#[derive(Debug, Clone, Copy, PartialEq, Eq, Structural)]
pub enum ValidationMode {
    /// Reject unknown fields, duplicate keys, type mismatches.
    Strict,
    /// Ignore unknown fields, coerce types where safe.
    Open,
}

impl Default for ValidationMode {
    fn default() -> (r: Self)
        ensures
            r == ValidationMode::Strict,
    {
        ValidationMode::Strict
    }
}

} // verus!
