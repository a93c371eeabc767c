//! Summaries of JVM method descriptors, parsed by the `jdescriptor` crate.
use vstd::prelude::*;
use crate::error::AnalysisError;
use crate::text::chars_of;
use jdescriptor::{MethodDescriptor, TypeDescriptor};
use std::str::FromStr;

verus! {

/// The shape of a descriptor type, as plain values.
pub enum TypeShape {
    Byte,
    Char,
    Double,
    Float,
    Integer,
    Long,
    Short,
    Boolean,
    Void,
    /// An array: the class name of its element type when that is a class, and
    /// its number of dimensions.
    Array(Option<Seq<char>>, u8),
    Object(Seq<char>),
}

/// A descriptor type: a primitive, `void`, an array, or a class by internal name.
#[derive(Clone, Debug)]
pub enum DescriptorType {
    Byte,
    Char,
    Double,
    Float,
    Integer,
    Long,
    Short,
    Boolean,
    Void,
    /// An array: the class name of its element type when that is a class, and
    /// its number of dimensions.
    Array(Option<String>, u8),
    Object(String),
}

impl View for DescriptorType {
    type V = TypeShape;

    open spec fn view(&self) -> TypeShape {
        match self {
            DescriptorType::Byte => TypeShape::Byte,
            DescriptorType::Char => TypeShape::Char,
            DescriptorType::Double => TypeShape::Double,
            DescriptorType::Float => TypeShape::Float,
            DescriptorType::Integer => TypeShape::Integer,
            DescriptorType::Long => TypeShape::Long,
            DescriptorType::Short => TypeShape::Short,
            DescriptorType::Boolean => TypeShape::Boolean,
            DescriptorType::Void => TypeShape::Void,
            DescriptorType::Array(element, dims) => TypeShape::Array(
                match element {
                    Some(e) => Some(e@),
                    None => None,
                },
                *dims,
            ),
            DescriptorType::Object(name) => TypeShape::Object(name@),
        }
    }
}

/// Parameter and return types of a parsed method descriptor.
#[derive(Clone, Debug)]
pub struct ParsedMethodDescriptor {
    pub parameter_types: Vec<DescriptorType>,
    pub return_type: DescriptorType,
}

impl View for ParsedMethodDescriptor {
    type V = (Seq<TypeShape>, TypeShape);

    open spec fn view(&self) -> (Seq<TypeShape>, TypeShape) {
        (self.parameter_types@.map_values(|t: DescriptorType| t@), self.return_type@)
    }
}

impl ParsedMethodDescriptor {
    /// A parsed descriptor from its parameter types and return type.
    pub fn new(parameter_types: Vec<DescriptorType>, return_type: DescriptorType) -> (res: Self)
        ensures
            res.parameter_types@ == parameter_types@,
            res.return_type == return_type,
    {
        ParsedMethodDescriptor { parameter_types, return_type }
    }
}

/// What `jdescriptor` parses a method descriptor into: `None` when it rejects it,
/// else the parameter types and the return type.
pub uninterp spec fn jdescriptor_parse(descriptor: Seq<char>) -> Option<(Seq<TypeShape>, TypeShape)>;

/// Parses a method descriptor with `jdescriptor::MethodDescriptor::from_str`.
/// Trusted: the result is `jdescriptor`'s own, with each `TypeDescriptor`
/// mapped to the variant of the same name (an array keeps the class name of its
/// base type when that is a class, and its dimensions; an object keeps its
/// class name).
#[verifier::external_body]
pub fn parse_method_descriptor(descriptor: &str) -> (res: Option<ParsedMethodDescriptor>)
    ensures
        match res {
            Some(parsed) => jdescriptor_parse(descriptor@) == Some(parsed@),
            None => jdescriptor_parse(descriptor@) is None,
        },
{
    let convert = |t: &TypeDescriptor| match t {
        TypeDescriptor::Byte => DescriptorType::Byte, TypeDescriptor::Char => DescriptorType::Char,
        TypeDescriptor::Double => DescriptorType::Double, TypeDescriptor::Float => DescriptorType::Float,
        TypeDescriptor::Integer => DescriptorType::Integer, TypeDescriptor::Long => DescriptorType::Long,
        TypeDescriptor::Short => DescriptorType::Short, TypeDescriptor::Boolean => DescriptorType::Boolean,
        TypeDescriptor::Void => DescriptorType::Void,
        TypeDescriptor::Array(base, dims) => DescriptorType::Array(match base.as_ref() {
            TypeDescriptor::Object(name) => Some(name.clone()), _ => None }, *dims),
        TypeDescriptor::Object(name) => DescriptorType::Object(name.clone()),
    };
    let parsed = MethodDescriptor::from_str(descriptor).ok()?;
    Some(ParsedMethodDescriptor::new(parsed.parameter_types().iter().map(convert).collect(), convert(parsed.return_type())))
}

/// Return kind of a method descriptor.
#[derive(Clone, Copy, Debug, PartialEq, Eq, Structural)]
pub enum ReturnKind {
    Void,
    Primitive,
    Reference,
}

/// The return kind of a type: `void`, a reference (class or array), or a primitive.
pub open spec fn return_kind_of(t: TypeShape) -> ReturnKind {
    match t {
        TypeShape::Void => ReturnKind::Void,
        TypeShape::Object(_) | TypeShape::Array(_, _) => ReturnKind::Reference,
        _ => ReturnKind::Primitive,
    }
}

/// Local variable slots a parameter of this type takes: two for `long` and `double`.
pub open spec fn slot_width(t: TypeShape) -> nat {
    match t {
        TypeShape::Long | TypeShape::Double => 2,
        _ => 1,
    }
}

/// Total slots of a parameter list.
pub open spec fn total_slots(params: Seq<TypeShape>) -> nat
    decreases params.len(),
{
    if params.len() == 0 {
        0
    } else {
        total_slots(params.drop_last()) + slot_width(params.last())
    }
}

/// Parameter count and return kind of a method descriptor.
#[derive(Clone, Copy, Debug, PartialEq, Eq, Structural)]
pub struct MethodDescriptorSummary {
    pub param_count: usize,
    pub return_kind: ReturnKind,
}

/// Summarizes a parsed descriptor.
pub fn summarize_descriptor(parsed: &ParsedMethodDescriptor) -> (res: MethodDescriptorSummary)
    ensures
        res.param_count == parsed@.0.len(),
        res.return_kind == return_kind_of(parsed@.1),
{
    let return_kind = match &parsed.return_type {
        DescriptorType::Void => ReturnKind::Void,
        DescriptorType::Object(_) | DescriptorType::Array(_, _) => ReturnKind::Reference,
        _ => ReturnKind::Primitive,
    };
    MethodDescriptorSummary { param_count: parsed.parameter_types.len(), return_kind }
}

fn invalid_descriptor(descriptor: &str) -> (res: AnalysisError)
    ensures
        res matches AnalysisError::InvalidDescriptor(text) && text@ == descriptor@,
{
    AnalysisError::InvalidDescriptor(descriptor.to_owned())
}

/// Parses a method descriptor once and summarizes it.
pub fn method_descriptor_summary(descriptor: &str) -> (res: Result<MethodDescriptorSummary, AnalysisError>)
    ensures
        match jdescriptor_parse(descriptor@) {
            Some((params, ret)) => params.len() <= usize::MAX && res == Ok::<MethodDescriptorSummary, AnalysisError>(
                MethodDescriptorSummary { param_count: params.len() as usize, return_kind: return_kind_of(ret) },
            ),
            None => res is Err && res->Err_0 is InvalidDescriptor,
        },
{
    match parse_method_descriptor(descriptor) {
        Some(parsed) => Ok(summarize_descriptor(&parsed)),
        None => Err(invalid_descriptor(descriptor)),
    }
}

/// Number of parameters of a method descriptor.
pub fn method_param_count(descriptor: &str) -> (res: Result<usize, AnalysisError>)
    ensures
        match jdescriptor_parse(descriptor@) {
            Some((params, _)) => params.len() <= usize::MAX && res == Ok::<usize, AnalysisError>(params.len() as usize),
            None => res is Err,
        },
{
    let summary = method_descriptor_summary(descriptor)?;
    Ok(summary.param_count)
}

/// Return kind of a method descriptor.
pub fn method_return_kind(descriptor: &str) -> (res: Result<ReturnKind, AnalysisError>)
    ensures
        match jdescriptor_parse(descriptor@) {
            Some((_, ret)) => res == Ok::<ReturnKind, AnalysisError>(return_kind_of(ret)),
            None => res is Err,
        },
{
    let summary = method_descriptor_summary(descriptor)?;
    Ok(summary.return_kind)
}

/// Local slots taken by the parameters of a parsed descriptor, or `None` when
/// the count does not fit in a `usize`.
pub fn param_slots_of(parsed: &ParsedMethodDescriptor) -> (res: Option<usize>)
    ensures
        total_slots(parsed@.0) <= usize::MAX ==> res == Some(total_slots(parsed@.0) as usize),
        total_slots(parsed@.0) > usize::MAX ==> res is None,
{
    let mut slots: usize = 0;
    let mut i: usize = 0;
    while i < parsed.parameter_types.len()
        invariant
            i <= parsed.parameter_types@.len(),
            slots == total_slots(parsed@.0.subrange(0, i as int)),
        decreases parsed.parameter_types.len() - i,
    {
        proof {
            let all = parsed@.0;
            assert(all.subrange(0, i + 1).drop_last() =~= all.subrange(0, i as int));
            lemma_total_slots_prefix(all, i + 1);
        }
        let width: usize = match &parsed.parameter_types[i] {
            DescriptorType::Long | DescriptorType::Double => 2,
            _ => 1,
        };
        match slots.checked_add(width) {
            Some(next) => slots = next,
            None => return None,
        }
        i = i + 1;
    }
    assert(parsed@.0.subrange(0, i as int) =~= parsed@.0);
    Some(slots)
}

proof fn lemma_total_slots_prefix(params: Seq<TypeShape>, k: int)
    requires
        0 <= k <= params.len(),
    ensures
        total_slots(params.subrange(0, k)) <= total_slots(params),
    decreases params.len() - k,
{
    if k < params.len() {
        lemma_total_slots_prefix(params, k + 1);
        assert(params.subrange(0, k + 1).drop_last() =~= params.subrange(0, k));
    } else {
        assert(params.subrange(0, k) =~= params);
    }
}

/// Local slots consumed by the parameters of a method descriptor (`long` and
/// `double` take two each).
pub fn method_param_slots(descriptor: &str) -> (res: Result<usize, AnalysisError>)
    ensures
        match jdescriptor_parse(descriptor@) {
            Some((params, _)) => total_slots(params) <= usize::MAX ==> res == Ok::<usize, AnalysisError>(
                total_slots(params) as usize,
            ),
            None => res is Err,
        },
{
    match parse_method_descriptor(descriptor) {
        Some(parsed) => match param_slots_of(&parsed) {
            Some(slots) => Ok(slots),
            None => Err(invalid_descriptor(descriptor)),
        },
        None => Err(invalid_descriptor(descriptor)),
    }
}

/// Class name of the return type when it is a class type.
pub fn return_class_of(parsed: &ParsedMethodDescriptor) -> (res: Option<String>)
    ensures
        match parsed@.1 {
            TypeShape::Object(name) => res is Some && res->0@ == name,
            _ => res is None,
        },
{
    match &parsed.return_type {
        DescriptorType::Object(name) => Some(name.clone()),
        _ => None,
    }
}

/// Class name of a descriptor's return type, when it is a class type.
pub fn method_return_class_name(descriptor: &str) -> (res: Result<Option<String>, AnalysisError>)
    ensures
        match jdescriptor_parse(descriptor@) {
            Some((_, TypeShape::Object(name))) => res is Ok && res->Ok_0 is Some && res->Ok_0->0@ == name,
            Some(_) => res is Ok && res->Ok_0 is None,
            None => res is Err,
        },
{
    match parse_method_descriptor(descriptor) {
        Some(parsed) => Ok(return_class_of(&parsed)),
        None => Err(invalid_descriptor(descriptor)),
    }
}

} // verus!
