//! The error taxonomy of the mapping engine.
//!
//! Every failure is terminal and carries the data a caller needs to see:
//! the offending value, key or field name. A human-readable message is
//! produced by [`TransformError::message`].

use vstd::prelude::*;
use crate::render::{compact_of, pretty_of};
use crate::value::{SpecValue, Value};

verus! {

/// Why a `transform` call failed.
#[derive(Debug, PartialEq)]
pub enum TransformError {
    /// The template's top level is not an array.
    TemplateNotArray,
    /// A top-level template entry is not an object.
    TemplateEntryNotObject(Value),
    /// A top-level template entry is an object without any key.
    TemplateEntryNoKey(Value),
    /// A template leaf is not a string.
    MalformedTemplate(Value),
    /// An array-convertible bracket decoration is unbalanced.
    MalformedKey(String),
    /// A path segment is missing at the expected position of the input;
    /// carries the field name and the value that was searched.
    FieldNotFound(String, Value),
    /// An array-convertible object has no spread-array descendant;
    /// carries the decorated key.
    MissingSpreadArray(String),
    /// Navigating to the parent of a decorated key failed; carries the
    /// cleaned parent path.
    ParentNotFound(String),
    /// The parent of a decorated key is not an object; carries the
    /// cleaned parent path.
    ParentNotObject(String),
    /// A decorated key vanished from its parent object mid-pass.
    KeyVanished(String),
    /// The stack of spread-array locations ran out while splitting.
    SplitPathExhausted,
    /// A recorded spread-array path could not be related to the object
    /// being split; carries the recorded path.
    SplitPathMismatch(String),
    /// The relative spread path is missing inside a split copy.
    SplitTargetNotFound(String),
}

/// The mathematical shape of a [`TransformError`].
#[verifier::ext_equal]
pub enum SpecError {
    TemplateNotArray,
    TemplateEntryNotObject(SpecValue),
    TemplateEntryNoKey(SpecValue),
    MalformedTemplate(SpecValue),
    MalformedKey(Seq<char>),
    FieldNotFound(Seq<char>, SpecValue),
    MissingSpreadArray(Seq<char>),
    ParentNotFound(Seq<char>),
    ParentNotObject(Seq<char>),
    KeyVanished(Seq<char>),
    SplitPathExhausted,
    SplitPathMismatch(Seq<char>),
    SplitTargetNotFound(Seq<char>),
}

impl View for TransformError {
    type V = SpecError;

    open spec fn view(&self) -> SpecError {
        match self {
            TransformError::TemplateNotArray => SpecError::TemplateNotArray,
            TransformError::TemplateEntryNotObject(v) => SpecError::TemplateEntryNotObject(v@),
            TransformError::TemplateEntryNoKey(v) => SpecError::TemplateEntryNoKey(v@),
            TransformError::MalformedTemplate(v) => SpecError::MalformedTemplate(v@),
            TransformError::MalformedKey(k) => SpecError::MalformedKey(k@),
            TransformError::FieldNotFound(f, v) => SpecError::FieldNotFound(f@, v@),
            TransformError::MissingSpreadArray(k) => SpecError::MissingSpreadArray(k@),
            TransformError::ParentNotFound(p) => SpecError::ParentNotFound(p@),
            TransformError::ParentNotObject(p) => SpecError::ParentNotObject(p@),
            TransformError::KeyVanished(k) => SpecError::KeyVanished(k@),
            TransformError::SplitPathExhausted => SpecError::SplitPathExhausted,
            TransformError::SplitPathMismatch(p) => SpecError::SplitPathMismatch(p@),
            TransformError::SplitTargetNotFound(p) => SpecError::SplitTargetNotFound(p@),
        }
    }
}

/// The abstraction of a value-or-error result.
pub open spec fn res_view(r: Result<Value, TransformError>) -> Result<SpecValue, SpecError> {
    match r {
        Result::Ok(v) => Ok(v@),
        Result::Err(e) => Err(e@),
    }
}

/// The human-readable message of each failure. Embedded snapshots are
/// pretty-printed, except the malformed template leaf, which is shown
/// compactly.
pub open spec fn spec_message(e: SpecError) -> Seq<char> {
    match e {
        SpecError::TemplateNotArray => "output should be in an array of object structure"@,
        SpecError::TemplateEntryNotObject(v) => "output array elements should be in object structure: "@
            + pretty_of(v, 0),
        SpecError::TemplateEntryNoKey(v) => "failed to get the name of the output: "@ + pretty_of(
            v,
            0,
        ),
        SpecError::MalformedTemplate(v) => "Traversing output object failed; output object field should be string: "@
            + compact_of(v),
        SpecError::MalformedKey(k) => "Bad key format; array convertible objects notation should like \"[example_key]\": "@
            + k,
        SpecError::FieldNotFound(f, v) => "Failed to resolve mapping value; couldn't find field name "@
            + f + " in the obj "@ + pretty_of(v, 0),
        SpecError::MissingSpreadArray(k) => "Failed to process array convertible object; a array convertible object "@
            + k + " is detected but no spread array field was found"@,
        SpecError::ParentNotFound(p) => "Failed to process array convertible object; could not find the parent object at "@
            + p,
        SpecError::ParentNotObject(p) => "Failed to process array convertible object; the parent at "@
            + p + " is not an object"@,
        SpecError::KeyVanished(k) => "Failed to process array convertible object; couldn't find field name "@
            + k,
        SpecError::SplitPathExhausted => "Failed to split object to array; could not get path to the spread array"@,
        SpecError::SplitPathMismatch(p) => "Failed to split object to array; could not relate "@
            + p + " to the object being split"@,
        SpecError::SplitTargetNotFound(p) => "Failed to split object to array; could not find "@
            + p + " in a copy"@,
    }
}

impl TransformError {
    /// The human-readable message of this failure; see [`spec_message`].
    pub fn message(&self) -> (r: String)
        ensures
            r@ == spec_message(self@),
    {
        match self {
            TransformError::TemplateNotArray => String::from_str(
                "output should be in an array of object structure",
            ),
            TransformError::TemplateEntryNotObject(v) => {
                let mut s = String::from_str("output array elements should be in object structure: ");
                let p = v.to_pretty_string();
                s.append(p.as_str());
                s
            },
            TransformError::TemplateEntryNoKey(v) => {
                let mut s = String::from_str("failed to get the name of the output: ");
                let p = v.to_pretty_string();
                s.append(p.as_str());
                s
            },
            TransformError::MalformedTemplate(v) => {
                let mut s = String::from_str(
                    "Traversing output object failed; output object field should be string: ",
                );
                let p = v.to_json_string();
                s.append(p.as_str());
                s
            },
            TransformError::MalformedKey(k) => {
                let mut s = String::from_str(
                    "Bad key format; array convertible objects notation should like \"[example_key]\": ",
                );
                s.append(k.as_str());
                s
            },
            TransformError::FieldNotFound(f, v) => {
                let mut s = String::from_str(
                    "Failed to resolve mapping value; couldn't find field name ",
                );
                s.append(f.as_str());
                s.append(" in the obj ");
                let p = v.to_pretty_string();
                s.append(p.as_str());
                s
            },
            TransformError::MissingSpreadArray(k) => {
                let mut s = String::from_str(
                    "Failed to process array convertible object; a array convertible object ",
                );
                s.append(k.as_str());
                s.append(" is detected but no spread array field was found");
                s
            },
            TransformError::ParentNotFound(p) => {
                let mut s = String::from_str(
                    "Failed to process array convertible object; could not find the parent object at ",
                );
                s.append(p.as_str());
                s
            },
            TransformError::ParentNotObject(p) => {
                let mut s = String::from_str(
                    "Failed to process array convertible object; the parent at ",
                );
                s.append(p.as_str());
                s.append(" is not an object");
                s
            },
            TransformError::KeyVanished(k) => {
                let mut s = String::from_str(
                    "Failed to process array convertible object; couldn't find field name ",
                );
                s.append(k.as_str());
                s
            },
            TransformError::SplitPathExhausted => String::from_str(
                "Failed to split object to array; could not get path to the spread array",
            ),
            TransformError::SplitPathMismatch(p) => {
                let mut s = String::from_str("Failed to split object to array; could not relate ");
                s.append(p.as_str());
                s.append(" to the object being split");
                s
            },
            TransformError::SplitTargetNotFound(p) => {
                let mut s = String::from_str("Failed to split object to array; could not find ");
                s.append(p.as_str());
                s.append(" in a copy");
                s
            },
        }
    }
}


} // verus!
