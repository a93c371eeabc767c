//! Reports fields, method signatures and locals typed as a general
//! collection of an enum type, where an `EnumSet` would do.
//!
//! Generic signatures are read by a small parser over their bytes; only the
//! parts the rule needs are kept: whether a type is a class type, its name
//! (inner classes joined with `$`), and the shape of its first type argument.
use vstd::prelude::*;
use crate::engine::{AnalysisContext, opt_view};
use crate::error::AnalysisError;
use crate::flatten::{concat_map, lemma_concat_map_empty, lemma_concat_map_full, lemma_concat_map_step};
use crate::ir::{Class, Field, LocalVariableType, Method, line_for_offset_spec};
use crate::rules::location::{
    Finding, FindingView, RuleMetadata, class_location, class_location_spec, finding, finding_spec,
    finding_views, method_location_spec, method_location_with_line, push_finding,
};
use crate::text::{chars_eq, chars_of, decimal, push_decimal, str_eq};
use vstd::utf8::encode_utf8;

verus! {

/// The byte `(`.
pub const OPEN_PAREN: u8 = 40u8;

/// The byte `)`.
pub const CLOSE_PAREN: u8 = 41u8;

/// The byte `.`.
pub const DOT: u8 = 46u8;

/// The byte `>`.
pub const GREATER_THAN: u8 = 62u8;

/// The byte `<`.
pub const LESS_THAN: u8 = 60u8;

/// The byte `B`.
pub const LETTER_B: u8 = 66u8;

/// The byte `C`.
pub const LETTER_C: u8 = 67u8;

/// The byte `D`.
pub const LETTER_D: u8 = 68u8;

/// The byte `F`.
pub const LETTER_F: u8 = 70u8;

/// The byte `I`.
pub const LETTER_I: u8 = 73u8;

/// The byte `J`.
pub const LETTER_J: u8 = 74u8;

/// The byte `L`.
pub const LETTER_L: u8 = 76u8;

/// The byte `S`.
pub const LETTER_S: u8 = 83u8;

/// The byte `T`.
pub const LETTER_T: u8 = 84u8;

/// The byte `V`.
pub const LETTER_V: u8 = 86u8;

/// The byte `Z`.
pub const LETTER_Z: u8 = 90u8;

/// The byte `-`.
pub const MINUS: u8 = 45u8;

/// The byte `[`.
pub const OPEN_BRACKET: u8 = 91u8;

/// The byte `+`.
pub const PLUS: u8 = 43u8;

/// The byte `;`.
pub const SEMICOLON: u8 = 59u8;

/// The byte `*`.
pub const STAR: u8 = 42u8;


/// The bytes `i..j`, each read as the character of the same code.
pub open spec fn chars_between(b: Seq<u8>, i: int, j: int) -> Seq<char> {
    b.subrange(i, j).map_values(|x: u8| x as char)
}

/// A byte that ends a class name segment: `;`, `<` or `.`.
pub open spec fn is_name_stop(x: u8) -> bool {
    x == SEMICOLON || x == LESS_THAN || x == DOT
}

/// The end of the name segment starting at `p`.
pub open spec fn name_end(b: Seq<u8>, p: int) -> int
    decreases b.len() - p,
{
    if p < 0 || p >= b.len() {
        p
    } else if is_name_stop(b[p]) {
        p
    } else {
        name_end(b, p + 1)
    }
}

/// A name segment ends at or after its start.
pub proof fn lemma_name_end(b: Seq<u8>, p: int)
    requires
        0 <= p,
    ensures
        p <= name_end(b, p),
        p <= b.len() ==> name_end(b, p) <= b.len(),
        name_end(b, p) < b.len() ==> is_name_stop(b[name_end(b, p)]),
        forall|k: int| p <= k < name_end(b, p) ==> !is_name_stop(#[trigger] b[k]),
    decreases b.len() - p,
{
    if p < b.len() && !is_name_stop(b[p]) {
        lemma_name_end(b, p + 1);
    }
}

/// The position after the first `;` at or after `p`, or the end.
pub open spec fn semicolon_end(b: Seq<u8>, p: int) -> int
    decreases b.len() - p,
{
    if p < 0 || p >= b.len() {
        p
    } else if b[p] == SEMICOLON {
        p + 1
    } else {
        semicolon_end(b, p + 1)
    }
}

/// Skipping to a `;` stays within the bytes and does not go back.
pub proof fn lemma_semicolon_end(b: Seq<u8>, p: int)
    requires
        0 <= p <= b.len(),
    ensures
        p <= semicolon_end(b, p) <= b.len(),
    decreases b.len() - p,
{
    if p < b.len() && b[p] != SEMICOLON {
        lemma_semicolon_end(b, p + 1);
    }
}

/// The position after a bracketed `<...>` run entered with `depth` open
/// brackets: just past the `>` that closes the outermost, or the end.
pub open spec fn angle_end(b: Seq<u8>, p: int, depth: int) -> int
    decreases b.len() - p,
{
    if p < 0 || p >= b.len() {
        p
    } else if b[p] == LESS_THAN {
        angle_end(b, p + 1, depth + 1)
    } else if b[p] == GREATER_THAN {
        if depth <= 1 {
            p + 1
        } else {
            angle_end(b, p + 1, depth - 1)
        }
    } else {
        angle_end(b, p + 1, depth)
    }
}

/// Skipping brackets moves forward and stays within the bytes.
pub proof fn lemma_angle_end(b: Seq<u8>, p: int, depth: int)
    requires
        0 <= p <= b.len(),
    ensures
        p <= angle_end(b, p, depth) <= b.len(),
        p < b.len() ==> p < angle_end(b, p, depth),
    decreases b.len() - p,
{
    if p < b.len() {
        if b[p] == LESS_THAN {
            lemma_angle_end(b, p + 1, depth + 1);
        } else if b[p] == GREATER_THAN {
            if depth > 1 {
                lemma_angle_end(b, p + 1, depth - 1);
            }
        } else {
            lemma_angle_end(b, p + 1, depth);
        }
    }
}

/// Reads the name of a type variable starting at `p`: where it ends (past
/// its `;`) and the name.
pub fn scan_type_variable(b: &[u8], p: usize) -> (res: (usize, Vec<char>))
    requires
        p <= b@.len(),
    ensures
        res.0 == semicolon_end(b@, p as int),
        res.1@ == type_var_name(b@, p as int),
{
    let mut q = p;
    let mut name: Vec<char> = Vec::new();
    proof {
        assert(chars_between(b@, p as int, p as int) =~= Seq::<char>::empty());
    }
    while q < b.len()
        invariant
            p <= q <= b@.len(),
            semicolon_end(b@, q as int) == semicolon_end(b@, p as int),
            name@ == chars_between(b@, p as int, q as int),
            forall|k: int| p <= k < q ==> b@[k] != SEMICOLON,
        decreases b.len() - q,
    {
        if b[q] == SEMICOLON {
            return (q + 1, name);
        }
        name.push(b[q] as char);
        proof {
            assert(chars_between(b@, p as int, q + 1) =~= chars_between(b@, p as int, q as int).push(b@[q as int] as char));
        }
        q = q + 1;
    }
    (q, name)
}

/// Skips a `<...>` run starting at `p`, if there is one.
pub open spec fn skip_angles(b: Seq<u8>, p: int) -> int {
    if 0 <= p < b.len() && b[p] == LESS_THAN {
        angle_end(b, p, 0)
    } else {
        p
    }
}

/// The end of the name segment at `p`, with its characters appended to `out`.
pub fn scan_name(b: &[u8], p: usize, out: &mut Vec<char>) -> (res: usize)
    requires
        p <= b@.len(),
    ensures
        res == name_end(b@, p as int),
        p <= res <= b@.len(),
        final(out)@ == old(out)@ + chars_between(b@, p as int, res as int),
{
    let mut q = p;
    proof {
        assert(chars_between(b@, p as int, p as int) =~= Seq::<char>::empty());
    }
    while q < b.len() && !(b[q] == SEMICOLON || b[q] == LESS_THAN || b[q] == DOT)
        invariant
            p <= q <= b@.len(),
            name_end(b@, q as int) == name_end(b@, p as int),
            out@ == old(out)@ + chars_between(b@, p as int, q as int),
        decreases b.len() - q,
    {
        out.push(b[q] as char);
        proof {
            assert(chars_between(b@, p as int, q + 1) =~= chars_between(b@, p as int, q as int).push(b@[q as int] as char));
        }
        q = q + 1;
    }
    q
}

/// The position after the first `;` at or after `p`, or the end.
pub fn skip_to_semicolon(b: &[u8], p: usize) -> (res: usize)
    requires
        p <= b@.len(),
    ensures
        res == semicolon_end(b@, p as int),
{
    let mut q = p;
    while q < b.len()
        invariant
            p <= q <= b@.len(),
            semicolon_end(b@, q as int) == semicolon_end(b@, p as int),
        decreases b.len() - q,
    {
        if b[q] == SEMICOLON {
            return q + 1;
        }
        q = q + 1;
    }
    q
}

/// Skips a `<...>` run starting at `p`, if there is one.
pub fn skip_angle_run(b: &[u8], p: usize) -> (res: usize)
    requires
        p <= b@.len(),
    ensures
        res == skip_angles(b@, p as int),
{
    if !(p < b.len() && b[p] == LESS_THAN) {
        return p;
    }
    let mut q = p;
    let mut depth: u64 = 0;
    while q < b.len()
        invariant
            p <= q <= b@.len(),
            depth <= q - p,
            angle_end(b@, q as int, depth as int) == angle_end(b@, p as int, 0),
            skip_angles(b@, p as int) == angle_end(b@, p as int, 0),
        decreases b.len() - q,
    {
        let c = b[q];
        if c == LESS_THAN {
            depth = depth + 1;
        } else if c == GREATER_THAN {
            if depth <= 1 {
                assert(angle_end(b@, q as int, depth as int) == q + 1);
                return q + 1;
            }
            depth = depth - 1;
        }
        q = q + 1;
    }
    q
}


/// The shape of a type argument: a class type (by name), a type variable
/// (by name), or anything else.
pub enum ArgShape {
    NonClass,
    Class(Seq<char>),
    TypeVariable(Seq<char>),
}

/// The shape of a type signature: a class type, by name and with the shapes
/// of its type arguments in order, a type variable (by name), or anything
/// else.
pub enum SigShape {
    NonClass,
    Class(Seq<char>, Seq<ArgShape>),
    TypeVariable(Seq<char>),
}

/// The name of the type variable whose name starts at `p`: up to the next
/// `;` (or the end).
pub open spec fn type_var_name(b: Seq<u8>, p: int) -> Seq<char> {
    let e = semicolon_end(b, p);
    if p < e && e <= b.len() && b[e - 1] == SEMICOLON {
        chars_between(b, p, e - 1)
    } else {
        chars_between(b, p, e)
    }
}

/// A primitive type letter, or `V`.
pub open spec fn is_base_letter(x: u8) -> bool {
    x == LETTER_B || x == LETTER_C || x == LETTER_D || x == LETTER_F || x == LETTER_I || x == LETTER_J || x == LETTER_S || x == LETTER_Z || x
        == LETTER_V
}

/// The type signature at `p`: where it ends and its shape; `None` when it is
/// malformed.
pub open spec fn type_sig(b: Seq<u8>, p: int) -> Option<(int, SigShape)>
    decreases b.len() - p, 3int,
{
    if p < 0 || p >= b.len() {
        None
    } else if is_base_letter(b[p]) {
        Some((p + 1, SigShape::NonClass))
    } else if b[p] == OPEN_BRACKET {
        match type_sig(b, p + 1) {
            Some((e, _)) => Some((e, SigShape::NonClass)),
            None => None,
        }
    } else if b[p] == LETTER_T {
        Some((semicolon_end(b, p + 1), SigShape::TypeVariable(type_var_name(b, p + 1))))
    } else if b[p] == LETTER_L {
        match class_sig(b, p) {
            Some((e, n, f)) => Some((e, SigShape::Class(n, f))),
            None => None,
        }
    } else {
        None
    }
}

/// The reference type signature at `p` (a class, a type variable or an
/// array).
pub open spec fn ref_sig(b: Seq<u8>, p: int) -> Option<(int, SigShape)>
    decreases b.len() - p, 3int,
{
    if p < 0 || p >= b.len() {
        None
    } else if b[p] == LETTER_L {
        match class_sig(b, p) {
            Some((e, n, f)) => Some((e, SigShape::Class(n, f))),
            None => None,
        }
    } else if b[p] == LETTER_T {
        Some((semicolon_end(b, p + 1), SigShape::TypeVariable(type_var_name(b, p + 1))))
    } else if b[p] == OPEN_BRACKET {
        match type_sig(b, p + 1) {
            Some((e, _)) => Some((e, SigShape::NonClass)),
            None => None,
        }
    } else {
        None
    }
}

/// The class type signature starting with the `L` at `p`: where it ends, its
/// name (inner classes joined with `$`) and the shapes of its type arguments.
pub open spec fn class_sig(b: Seq<u8>, p: int) -> Option<(int, Seq<char>, Seq<ArgShape>)>
    decreases b.len() - p, 2int,
{
    if p < 0 || p >= b.len() {
        None
    } else {
        let q = name_end(b, p + 1);
        if q == p + 1 {
            None
        } else {
            let name = chars_between(b, p + 1, q);
            let args = if 0 <= q < b.len() && b[q] == LESS_THAN {
                proof {
                    lemma_name_end(b, p + 1);
                }
                args_from(b, q + 1)
            } else {
                Some((q, Seq::empty()))
            };
            match args {
                None => None,
                Some((q2, first)) => {
                    let (q3, full) = inner_segments(b, q2, name);
                    let q4 = if 0 <= q3 < b.len() && b[q3] == SEMICOLON {
                        q3 + 1
                    } else {
                        q3
                    };
                    Some((q4, full, first))
                },
            }
        }
    }
}

/// The shape of a reference type taken as a type argument.
pub open spec fn arg_of(r: Option<(int, SigShape)>) -> Option<(int, ArgShape)> {
    match r {
        Some((e, SigShape::Class(n, _))) => Some((e, ArgShape::Class(n))),
        Some((e, SigShape::NonClass)) => Some((e, ArgShape::NonClass)),
        Some((e, SigShape::TypeVariable(n))) => Some((e, ArgShape::TypeVariable(n))),
        None => None,
    }
}

/// The type arguments from `p` (after the `<`): where they end and their
/// shapes in order.
pub open spec fn args_from(b: Seq<u8>, p: int) -> Option<(int, Seq<ArgShape>)>
    decreases b.len() - p, 4int,
{
    if p < 0 {
        None
    } else if p >= b.len() {
        Some((p, Seq::empty()))
    } else if b[p] == GREATER_THAN {
        Some((p + 1, Seq::empty()))
    } else {
        let item = if b[p] == STAR {
            Some((p + 1, ArgShape::NonClass))
        } else if b[p] == PLUS || b[p] == MINUS {
            arg_of(ref_sig(b, p + 1))
        } else {
            arg_of(ref_sig(b, p))
        };
        match item {
            None => None,
            Some((e, shape)) => if e <= p || e > b.len() {
                None
            } else {
                match args_from(b, e) {
                    Some((e2, rest)) => Some((e2, seq![shape] + rest)),
                    None => None,
                }
            },
        }
    }
}

/// The inner class segments (`.Name`, each with type arguments skipped) from
/// `p`: where they end and the name with each segment joined by `$`.
pub open spec fn inner_segments(b: Seq<u8>, p: int, name: Seq<char>) -> (int, Seq<char>)
    decreases b.len() - p,
{
    if 0 <= p < b.len() && b[p] == DOT {
        let q = name_end(b, p + 1);
        proof {
            lemma_name_end(b, p + 1);
            if q < b.len() && b[q] == LESS_THAN {
                lemma_angle_end(b, q, 0);
            }
        }
        inner_segments(b, skip_angles(b, q), name + seq!['$'] + chars_between(b, p + 1, q))
    } else {
        (p, name)
    }
}


/// A parsed type argument: a class type (by name), a type variable (by
/// name), or anything else.
pub enum TypeArgument {
    NonClass,
    Class(Vec<char>),
    TypeVariable(Vec<char>),
}

impl View for TypeArgument {
    type V = ArgShape;

    open spec fn view(&self) -> ArgShape {
        match self {
            TypeArgument::NonClass => ArgShape::NonClass,
            TypeArgument::Class(n) => ArgShape::Class(n@),
            TypeArgument::TypeVariable(n) => ArgShape::TypeVariable(n@),
        }
    }
}

/// A parsed type signature: a class type with its name and type arguments,
/// a type variable with its name, or anything else.
pub enum TypeSignature {
    NonClass,
    Class(Vec<char>, Vec<TypeArgument>),
    TypeVariable(Vec<char>),
}

impl View for TypeSignature {
    type V = SigShape;

    open spec fn view(&self) -> SigShape {
        match self {
            TypeSignature::NonClass => SigShape::NonClass,
            TypeSignature::Class(n, args) => SigShape::Class(n@, args_view(args@)),
            TypeSignature::TypeVariable(n) => SigShape::TypeVariable(n@),
        }
    }
}

/// The views of parsed type arguments.
pub open spec fn args_view(v: Seq<TypeArgument>) -> Seq<ArgShape> {
    v.map_values(|a: TypeArgument| a@)
}

/// Parses the type signature at `p`.
pub fn parse_type(b: &[u8], p: usize) -> (res: Option<(usize, TypeSignature)>)
    requires
        p <= b@.len(),
    ensures
        match type_sig(b@, p as int) {
            Some((e, s)) => (res matches Some((e2, s2)) && e2 == e && s2@ == s),
            None => res is None,
        },
    decreases b@.len() - p, 3int,
{
    if p >= b.len() {
        return None;
    }
    let c = b[p];
    if c == LETTER_B || c == LETTER_C || c == LETTER_D || c == LETTER_F || c == LETTER_I || c == LETTER_J || c
        == LETTER_S || c == LETTER_Z || c == LETTER_V {
        Some((p + 1, TypeSignature::NonClass))
    } else if c == OPEN_BRACKET {
        match parse_type(b, p + 1) {
            Some((e, _)) => Some((e, TypeSignature::NonClass)),
            None => None,
        }
    } else if c == LETTER_T {
        let (e, name) = scan_type_variable(b, p + 1);
        Some((e, TypeSignature::TypeVariable(name)))
    } else if c == LETTER_L {
        match parse_class(b, p) {
            Some((e, n, f)) => Some((e, TypeSignature::Class(n, f))),
            None => None,
        }
    } else {
        None
    }
}

/// Parses the reference type signature at `p`.
pub fn parse_ref(b: &[u8], p: usize) -> (res: Option<(usize, TypeSignature)>)
    requires
        p <= b@.len(),
    ensures
        match ref_sig(b@, p as int) {
            Some((e, s)) => (res matches Some((e2, s2)) && e2 == e && s2@ == s),
            None => res is None,
        },
    decreases b@.len() - p, 3int,
{
    if p >= b.len() {
        return None;
    }
    let c = b[p];
    if c == LETTER_L {
        match parse_class(b, p) {
            Some((e, n, f)) => Some((e, TypeSignature::Class(n, f))),
            None => None,
        }
    } else if c == LETTER_T {
        let (e, name) = scan_type_variable(b, p + 1);
        Some((e, TypeSignature::TypeVariable(name)))
    } else if c == OPEN_BRACKET {
        match parse_type(b, p + 1) {
            Some((e, _)) => Some((e, TypeSignature::NonClass)),
            None => None,
        }
    } else {
        None
    }
}

/// Appends the inner class segments from `p` to `name`, joined by `$`, and
/// returns where they end.
pub fn scan_inner_segments(b: &[u8], p: usize, name: &mut Vec<char>) -> (res: usize)
    requires
        p <= b@.len(),
    ensures
        (res as int, final(name)@) == inner_segments(b@, p as int, old(name)@),
        res <= b@.len(),
{
    let mut q = p;
    while q < b.len() && b[q] == DOT
        invariant
            q <= b@.len(),
            inner_segments(b@, q as int, name@) == inner_segments(b@, p as int, old(name)@),
        decreases b.len() - q,
    {
        let ghost before = name@;
        name.push('$');
        let e = scan_name(b, q + 1, name);
        let next = skip_angle_run(b, e);
        proof {
            lemma_name_end(b@, q + 1);
            if e < b@.len() && b@[e as int] == LESS_THAN {
                lemma_angle_end(b@, e as int, 0);
            }
            assert(name@ =~= before + seq!['$'] + chars_between(b@, q + 1, e as int));
        }
        q = next;
    }
    q
}

/// Parses the class type signature starting with the `L` at `p`.
pub fn parse_class(b: &[u8], p: usize) -> (res: Option<(usize, Vec<char>, Vec<TypeArgument>)>)
    requires
        p <= b@.len(),
    ensures
        match class_sig(b@, p as int) {
            Some((e, n, f)) => (res matches Some((e2, n2, f2)) && e2 == e && n2@ == n && args_view(f2@) == f),
            None => res is None,
        },
    decreases b@.len() - p, 2int,
{
    if p >= b.len() {
        return None;
    }
    let mut name: Vec<char> = Vec::new();
    let q = scan_name(b, p + 1, &mut name);
    if q == p + 1 {
        return None;
    }
    proof {
        assert(name@ =~= chars_between(b@, p + 1, q as int));
        lemma_name_end(b@, p + 1);
    }
    let (q2, first) = if q < b.len() && b[q] == LESS_THAN {
        match parse_args(b, q + 1) {
            Some(x) => x,
            None => {
                return None;
            },
        }
    } else {
        let none: Vec<TypeArgument> = Vec::new();
        assert(args_view(none@) =~= Seq::<ArgShape>::empty());
        (q, none)
    };
    let q3 = scan_inner_segments(b, q2, &mut name);
    let q4 = if q3 < b.len() && b[q3] == SEMICOLON {
        q3 + 1
    } else {
        q3
    };
    Some((q4, name, first))
}

/// A parsed reference type taken as a type argument.
pub fn argument_of(r: Option<(usize, TypeSignature)>) -> (res: Option<(usize, TypeArgument)>)
    ensures
        match arg_of(
            match r {
                Some((e, s)) => Some((e as int, s@)),
                None => None,
            },
        ) {
            Some((e, a)) => (res matches Some((e2, a2)) && e2 == e && a2@ == a),
            None => res is None,
        },
{
    match r {
        Some((e, TypeSignature::Class(n, _))) => Some((e, TypeArgument::Class(n))),
        Some((e, TypeSignature::NonClass)) => Some((e, TypeArgument::NonClass)),
        Some((e, TypeSignature::TypeVariable(n))) => Some((e, TypeArgument::TypeVariable(n))),
        None => None,
    }
}

/// Parses the type arguments from `p` (after the `<`).
pub fn parse_args(b: &[u8], p: usize) -> (res: Option<(usize, Vec<TypeArgument>)>)
    requires
        p <= b@.len(),
    ensures
        match args_from(b@, p as int) {
            Some((e, f)) => (res matches Some((e2, f2)) && e2 == e && args_view(f2@) == f),
            None => res is None,
        },
        res matches Some((e, _)) ==> e <= b@.len(),
    decreases b@.len() - p, 4int,
{
    if p >= b.len() {
        let none: Vec<TypeArgument> = Vec::new();
        assert(args_view(none@) =~= Seq::<ArgShape>::empty());
        return Some((p, none));
    }
    let c = b[p];
    if c == GREATER_THAN {
        let none: Vec<TypeArgument> = Vec::new();
        assert(args_view(none@) =~= Seq::<ArgShape>::empty());
        return Some((p + 1, none));
    }
    let item = if c == STAR {
        Some((p + 1, TypeArgument::NonClass))
    } else if c == PLUS || c == MINUS {
        argument_of(parse_ref(b, p + 1))
    } else {
        argument_of(parse_ref(b, p))
    };
    match item {
        None => None,
        Some((e, shape)) => {
            if e <= p || e > b.len() {
                None
            } else {
                match parse_args(b, e) {
                    Some((e2, rest)) => {
                        let ghost tail = args_view(rest@);
                        let ghost head = shape@;
                        let mut all = rest;
                        all.insert(0, shape);
                        assert(args_view(all@) =~= seq![head] + tail);
                        Some((e2, all))
                    },
                    None => None,
                }
            }
        },
    }
}


/// The views of parsed type signatures.
pub open spec fn sig_views(v: Seq<TypeSignature>) -> Seq<SigShape> {
    v.map_values(|t: TypeSignature| t@)
}

/// The parameter types from `p` up to and past the `)`.
pub open spec fn params_from(b: Seq<u8>, p: int) -> Option<(int, Seq<SigShape>)>
    decreases b.len() - p,
{
    if p < 0 {
        None
    } else if p >= b.len() {
        Some((p, Seq::empty()))
    } else if b[p] == CLOSE_PAREN {
        Some((p + 1, Seq::empty()))
    } else {
        match type_sig(b, p) {
            None => None,
            Some((e, t)) => if e <= p || e > b.len() {
                None
            } else {
                match params_from(b, e) {
                    None => None,
                    Some((e2, rest)) => Some((e2, seq![t] + rest)),
                }
            },
        }
    }
}

/// A method signature: its parameter types, and its return type unless it
/// is `void`; `None` when malformed.
pub open spec fn method_sig(b: Seq<u8>) -> Option<(Seq<SigShape>, Option<SigShape>)> {
    let p0 = skip_angles(b, 0);
    if p0 >= b.len() || b[p0] != OPEN_PAREN {
        None
    } else {
        match params_from(b, p0 + 1) {
            None => None,
            Some((p1, params)) => if p1 >= b.len() {
                None
            } else if b[p1] == LETTER_V {
                Some((params, None))
            } else {
                match type_sig(b, p1) {
                    None => None,
                    Some((_, r)) => Some((params, Some(r))),
                }
            },
        }
    }
}

/// Parses the parameter types from `p` up to and past the `)`.
pub fn parse_params(b: &[u8], p: usize) -> (res: Option<(usize, Vec<TypeSignature>)>)
    requires
        p <= b@.len(),
    ensures
        match params_from(b@, p as int) {
            Some((e, ts)) => (res matches Some((e2, ts2)) && e2 == e && sig_views(ts2@) == ts),
            None => res is None,
        },
    decreases b@.len() - p,
{
    if p >= b.len() {
        let v: Vec<TypeSignature> = Vec::new();
        assert(sig_views(v@) =~= Seq::<SigShape>::empty());
        return Some((p, v));
    }
    if b[p] == CLOSE_PAREN {
        let v: Vec<TypeSignature> = Vec::new();
        assert(sig_views(v@) =~= Seq::<SigShape>::empty());
        return Some((p + 1, v));
    }
    match parse_type(b, p) {
        None => None,
        Some((e, t)) => {
            if e <= p || e > b.len() {
                None
            } else {
                match parse_params(b, e) {
                    None => None,
                    Some((e2, rest)) => {
                        let ghost tv = t@;
                        let ghost rv = sig_views(rest@);
                        let mut all = rest;
                        all.insert(0, t);
                        assert(sig_views(all@) =~= seq![tv] + rv);
                        Some((e2, all))
                    },
                }
            }
        },
    }
}

/// Parses a method signature.
pub fn parse_method_signature(b: &[u8]) -> (res: Option<(Vec<TypeSignature>, Option<TypeSignature>)>)
    ensures
        match method_sig(b@) {
            Some((ps, r)) => (res matches Some((ps2, r2)) && sig_views(ps2@) == ps && match r2 {
                Some(t) => r == Some(t@),
                None => r is None,
            }),
            None => res is None,
        },
{
    let p0 = skip_angle_run(b, 0);
    proof {
        if 0 < b@.len() && b@[0] == LESS_THAN {
            lemma_angle_end(b@, 0, 0);
        }
    }
    if p0 >= b.len() || b[p0] != OPEN_PAREN {
        return None;
    }
    match parse_params(b, p0 + 1) {
        None => None,
        Some((p1, params)) => {
            if p1 >= b.len() {
                None
            } else if b[p1] == LETTER_V {
                Some((params, None))
            } else {
                match parse_type(b, p1) {
                    None => None,
                    Some((_, r)) => Some((params, Some(r))),
                }
            }
        },
    }
}


/// The general collection types the rule looks at.
pub open spec fn is_target_collection(n: Seq<char>) -> bool {
    ||| n == "java/util/Set"@
    ||| n == "java/util/List"@
    ||| n == "java/util/Collection"@
    ||| n == "java/util/HashSet"@
    ||| n == "java/util/LinkedHashSet"@
    ||| n == "java/util/TreeSet"@
    ||| n == "java/util/ArrayList"@
    ||| n == "java/util/LinkedList"@
}

/// The general collections of `java.util` that an enum-only collection
/// should replace by an `EnumSet`.
pub open spec fn enum_replaceable_collections() -> Set<Seq<char>> {
    set![
        "java/util/Set"@,
        "java/util/List"@,
        "java/util/Collection"@,
        "java/util/HashSet"@,
        "java/util/LinkedHashSet"@,
        "java/util/TreeSet"@,
        "java/util/ArrayList"@,
        "java/util/LinkedList"@
    ]
}

/// The target collection types are exactly Set, List, Collection, HashSet,
/// LinkedHashSet, TreeSet, ArrayList and LinkedList of `java.util`.
pub proof fn lemma_target_collections(n: Seq<char>)
    ensures
        is_target_collection(n) <==> enum_replaceable_collections().contains(n),
{
}

/// The class is declared as an enum (its superclass is `java.lang.Enum`).
pub open spec fn is_enum_decl(c: Class) -> bool {
    c.super_name matches Some(s) && s@ == "java/lang/Enum"@
}

/// Every class of the context: the analysis targets, then the dependencies.
pub open spec fn context_classes(ctx: AnalysisContext) -> Seq<Class> {
    ctx.targets() + ctx.dependencies()
}

/// Some class of the context named `n` is an enum.
pub open spec fn is_enum_class(ctx: AnalysisContext, n: Seq<char>) -> bool {
    exists|i: int|
        0 <= i < context_classes(ctx).len() && is_enum_decl(#[trigger] context_classes(ctx)[i])
            && context_classes(ctx)[i].name@ == n
}

/// The collection and enum names when the type is a target collection of an
/// enum class.
pub open spec fn enum_collection(ctx: AnalysisContext, t: SigShape) -> Option<(Seq<char>, Seq<char>)> {
    match t {
        SigShape::Class(n, args) => if args.len() > 0 && (args[0] matches ArgShape::Class(a) && is_target_collection(n)
            && is_enum_class(ctx, a)) {
            Some((n, args[0]->Class_0))
        } else {
            None
        },
        _ => None,
    }
}

/// The part of a class name after its last `/` or `$`.
pub open spec fn simple_name(n: Seq<char>) -> Seq<char>
    decreases n.len(),
{
    if n.len() == 0 {
        n
    } else if n.last() == '/' || n.last() == '$' {
        Seq::empty()
    } else {
        simple_name(n.drop_last()).push(n.last())
    }
}

/// The message for a collection `coll` of enum `en`, about `subject`.
pub open spec fn enumset_message(coll: Seq<char>, en: Seq<char>, subject: Seq<char>) -> Seq<char> {
    "Prefer EnumSet<"@ + simple_name(en) + "> over "@ + simple_name(coll) + "<"@ + simple_name(en)
        + "> for enum collections ("@ + subject + ")."@
}

/// A finding when the type is an enum collection.
pub open spec fn match_finding(ctx: AnalysisContext, t: SigShape, subject: Seq<char>, loc: crate::rules::location::LocationView) -> Seq<FindingView> {
    match enum_collection(ctx, t) {
        Some((coll, en)) => seq![finding_spec(enumset_message(coll, en, subject), loc)],
        None => Seq::empty(),
    }
}

/// The finding for a field whose generic signature is an enum collection.
pub open spec fn field_finding(ctx: AnalysisContext, uri: Option<Seq<char>>, c: Class, f: Field) -> Seq<FindingView> {
    match f.signature {
        Some(sig) => match type_sig(encode_utf8(sig@), 0) {
            Some((_, t)) => match_finding(
                ctx,
                t,
                "field "@ + c.name@ + "."@ + f.name@,
                class_location_spec(c.name@, uri),
            ),
            None => Seq::empty(),
        },
        None => Seq::empty(),
    }
}

/// The findings for the first `n` parameter types.
pub open spec fn param_findings(ctx: AnalysisContext, params: Seq<SigShape>, n: int, c: Class, m: Method, loc: crate::rules::location::LocationView) -> Seq<FindingView>
    decreases n,
{
    if n <= 0 {
        Seq::empty()
    } else {
        param_findings(ctx, params, n - 1, c, m, loc) + match_finding(
            ctx,
            params[n - 1],
            "parameter "@ + decimal((n - 1) as nat) + " of "@ + c.name@ + "."@ + m.name@,
            loc,
        )
    }
}

/// The findings for a method's generic signature: the return type, then
/// each parameter.
pub open spec fn signature_findings(ctx: AnalysisContext, uri: Option<Seq<char>>, c: Class, m: Method) -> Seq<FindingView> {
    match m.signature {
        Some(sig) => match method_sig(encode_utf8(sig@)) {
            Some((params, ret)) => {
                let loc = method_location_spec(c.name@, m.name@, m.descriptor@, uri, line_for_offset_spec(m.line_numbers@, 0));
                let ret_findings = match ret {
                    Some(t) => match_finding(ctx, t, "return type of "@ + c.name@ + "."@ + m.name@, loc),
                    None => Seq::empty(),
                };
                ret_findings + param_findings(ctx, params, params.len() as int, c, m, loc)
            },
            None => Seq::empty(),
        },
        None => Seq::empty(),
    }
}

/// The finding for a local variable whose generic signature is an enum
/// collection.
pub open spec fn local_finding(ctx: AnalysisContext, uri: Option<Seq<char>>, c: Class, m: Method, l: LocalVariableType) -> Seq<FindingView> {
    match type_sig(encode_utf8(l.signature@), 0) {
        Some((_, t)) => match_finding(
            ctx,
            t,
            "local "@ + l.name@ + " in "@ + c.name@ + "."@ + m.name@,
            method_location_spec(c.name@, m.name@, m.descriptor@, uri, line_for_offset_spec(m.line_numbers@, l.start_pc)),
        ),
        None => Seq::empty(),
    }
}

/// The findings for a method: its signature, then its locals.
pub open spec fn method_enumset_findings(ctx: AnalysisContext, uri: Option<Seq<char>>, c: Class, m: Method) -> Seq<FindingView> {
    signature_findings(ctx, uri, c, m) + concat_map(
        m.local_variable_types@,
        |l: LocalVariableType| local_finding(ctx, uri, c, m, l),
    )
}

/// The findings for a class: its fields, then its methods.
pub open spec fn class_enumset_findings(ctx: AnalysisContext, uri: Option<Seq<char>>, c: Class) -> Seq<FindingView> {
    concat_map(c.fields@, |f: Field| field_finding(ctx, uri, c, f)) + concat_map(
        c.methods@,
        |m: Method| method_enumset_findings(ctx, uri, c, m),
    )
}

/// The rule's findings over the analysis-target classes, in order.
pub open spec fn prefer_enumset_findings(ctx: AnalysisContext) -> Seq<FindingView> {
    concat_map(ctx.targets(), |c: Class| class_enumset_findings(ctx, ctx.class_uri(c), c))
}


/// The class is one of the context's.
pub open spec fn in_context(ctx: AnalysisContext, c: Class) -> bool {
    exists|j: int| 0 <= j < context_classes(ctx).len() && #[trigger] context_classes(ctx)[j] == c
}

/// The enum classes of the context, each of them once per class.
pub open spec fn enum_list(ctx: AnalysisContext, enums: Seq<&Class>) -> bool {
    &&& forall|i: int| 0 <= i < enums.len() ==> is_enum_decl(*#[trigger] enums[i])
    &&& forall|i: int| 0 <= i < enums.len() ==> in_context(ctx, *#[trigger] enums[i])
    &&& forall|j: int|
        0 <= j < context_classes(ctx).len() && is_enum_decl(#[trigger] context_classes(ctx)[j]) ==> exists|i: int|
            0 <= i < enums.len() && *enums[i] == context_classes(ctx)[j]
}

/// The enum classes of the context.
pub fn enum_classes<'a>(context: &'a AnalysisContext) -> (res: Vec<&'a Class>)
    ensures
        enum_list(*context, res@),
{
    let all = context.all_classes();
    let ghost cc = context_classes(*context);
    proof {
        assert forall|j: int| 0 <= j < cc.len() implies *all@[j] == cc[j] by {
            if j < context.targets().len() {
                assert(cc[j] == context.targets()[j]);
            } else {
                assert(*all@[context.targets().len() + (j - context.targets().len())] == context.dependencies()[j
                    - context.targets().len()]);
            }
        }
    }
    let mut out: Vec<&Class> = Vec::new();
    let mut i: usize = 0;
    while i < all.len()
        invariant
            i <= all@.len(),
            all@.len() == cc.len(),
            cc == context_classes(*context),
            forall|j: int| 0 <= j < cc.len() ==> *all@[j] == cc[j],
            forall|k: int| 0 <= k < out@.len() ==> is_enum_decl(*#[trigger] out@[k]),
            forall|k: int| 0 <= k < out@.len() ==> in_context(*context, *#[trigger] out@[k]),
            forall|j: int|
                0 <= j < i && is_enum_decl(#[trigger] cc[j]) ==> exists|k: int| 0 <= k < out@.len() && *out@[k] == cc[j],
        decreases all.len() - i,
    {
        let class: &Class = all[i];
        let is_enum = match &class.super_name {
            Some(s) => str_eq(s.as_str(), "java/lang/Enum"),
            None => false,
        };
        if is_enum {
            let ghost before = out@;
            out.push(class);
            proof {
                assert(*out@[before.len() as int] == cc[i as int]);
                assert(context_classes(*context)[i as int] == cc[i as int]);
                assert(in_context(*context, cc[i as int]));
                assert forall|k: int| 0 <= k < out@.len() implies in_context(*context, *#[trigger] out@[k]) by {
                    if k < before.len() {
                        assert(out@[k] == before[k]);
                    }
                }
                assert forall|j: int|
                    0 <= j < i + 1 && is_enum_decl(#[trigger] cc[j]) implies exists|k: int|
                        0 <= k < out@.len() && *out@[k] == cc[j] by {
                    if j < i {
                        let k = choose|k: int| 0 <= k < before.len() && *before[k] == cc[j];
                        assert(*out@[k] == cc[j]);
                    } else {
                        assert(*out@[before.len() as int] == cc[j]);
                    }
                }
            }
        }
        i = i + 1;
    }
    out
}

/// The enum class named `name`, if the context has one.
pub fn find_enum<'a>(context: &AnalysisContext, enums: &Vec<&'a Class>, name: &Vec<char>) -> (res: Option<&'a Class>)
    requires
        enum_list(*context, enums@),
    ensures
        match res {
            Some(c) => c.name@ == name@ && is_enum_class(*context, name@),
            None => !is_enum_class(*context, name@),
        },
{
    let mut i: usize = 0;
    while i < enums.len()
        invariant
            i <= enums@.len(),
            enum_list(*context, enums@),
            forall|k: int| 0 <= k < i ==> (*#[trigger] enums@[k]).name@ != name@,
        decreases enums.len() - i,
    {
        let class: &Class = enums[i];
        let class_chars = chars_of(class.name.as_str());
        if chars_eq(name.as_slice(), class_chars.as_slice()) {
            proof {
                assert(in_context(*context, *enums@[i as int]));
                let j = choose|j: int|
                    0 <= j < context_classes(*context).len() && #[trigger] context_classes(*context)[j] == *enums@[i as int];
                assert(is_enum_decl(context_classes(*context)[j]));
            }
            return Some(class);
        }
        i = i + 1;
    }
    proof {
        if is_enum_class(*context, name@) {
            let j = choose|j: int|
                0 <= j < context_classes(*context).len() && is_enum_decl(#[trigger] context_classes(*context)[j])
                    && context_classes(*context)[j].name@ == name@;
            let k = choose|k: int| 0 <= k < enums@.len() && *enums@[k] == context_classes(*context)[j];
            assert((*enums@[k]).name@ != name@);
        }
    }
    None
}

/// The target collection type named `name`, as a literal, if it is one.
pub fn collection_name(name: &Vec<char>) -> (res: Option<&'static str>)
    ensures
        res is Some <==> is_target_collection(name@),
        res matches Some(s) ==> s@ == name@,
{
    let n = name.as_slice();
    if chars_eq(n, chars_of("java/util/Set").as_slice()) {
        return Some("java/util/Set");
    }
    if chars_eq(n, chars_of("java/util/List").as_slice()) {
        return Some("java/util/List");
    }
    if chars_eq(n, chars_of("java/util/Collection").as_slice()) {
        return Some("java/util/Collection");
    }
    if chars_eq(n, chars_of("java/util/HashSet").as_slice()) {
        return Some("java/util/HashSet");
    }
    if chars_eq(n, chars_of("java/util/LinkedHashSet").as_slice()) {
        return Some("java/util/LinkedHashSet");
    }
    if chars_eq(n, chars_of("java/util/TreeSet").as_slice()) {
        return Some("java/util/TreeSet");
    }
    if chars_eq(n, chars_of("java/util/ArrayList").as_slice()) {
        return Some("java/util/ArrayList");
    }
    if chars_eq(n, chars_of("java/util/LinkedList").as_slice()) {
        return Some("java/util/LinkedList");
    }
    None
}

/// The part of a class name after its last `/` or `$`.
pub fn simple_class_name(s: &str) -> (res: String)
    ensures
        res@ == simple_name(s@),
{
    let cs = chars_of(s);
    let n = cs.len();
    let mut k = n;
    proof {
        assert(s@.subrange(0, n as int) =~= s@);
        assert(s@.subrange(n as int, n as int) =~= Seq::<char>::empty());
        assert(simple_name(s@) =~= simple_name(s@.subrange(0, n as int)) + s@.subrange(n as int, n as int));
    }
    while k > 0 && cs[k - 1] != '/' && cs[k - 1] != '$'
        invariant
            k <= n,
            n == s@.len(),
            cs@ == s@,
            simple_name(s@) == simple_name(s@.subrange(0, k as int)) + s@.subrange(k as int, n as int),
        decreases k,
    {
        proof {
            let pre = s@.subrange(0, k as int);
            assert(pre.drop_last() =~= s@.subrange(0, k - 1));
            assert(pre.last() == s@[k - 1]);
            assert(s@.subrange(k - 1, n as int) =~= seq![s@[k - 1]] + s@.subrange(k as int, n as int));
            assert(simple_name(s@.subrange(0, k - 1)).push(s@[k - 1]) + s@.subrange(k as int, n as int)
                =~= simple_name(s@.subrange(0, k - 1)) + s@.subrange(k - 1, n as int));
        }
        k = k - 1;
    }
    proof {
        assert(simple_name(s@.subrange(0, k as int)) =~= Seq::<char>::empty());
        assert(simple_name(s@) =~= s@.subrange(k as int, n as int));
    }
    crate::text::substring(s, k, n)
}

/// The collection literal and the enum class when the type is a target
/// collection of an enum class.
pub fn match_collection_enum<'a>(context: &AnalysisContext, enums: &Vec<&'a Class>, t: &TypeSignature) -> (res: Option<(&'static str, &'a Class)>)
    requires
        enum_list(*context, enums@),
    ensures
        match enum_collection(*context, t@) {
            Some((coll, en)) => (res matches Some((c, e)) && c@ == coll && e.name@ == en),
            None => res is None,
        },
{
    match t {
        TypeSignature::Class(name, args) => {
            if args.len() == 0 {
                return None;
            }
            assert(args_view(args@)[0] == args@[0]@);
            match &args[0] {
                TypeArgument::Class(arg) => match collection_name(name) {
                    Some(coll) => match find_enum(context, enums, arg) {
                        Some(e) => Some((coll, e)),
                        None => None,
                    },
                    None => None,
                },
                _ => None,
            }
        },
        _ => None,
    }
}

/// The message for a collection literal `coll` of enum class `en`, about
/// `subject`.
pub fn enum_collection_message(coll: &str, en: &Class, subject: &str) -> (res: String)
    ensures
        res@ == enumset_message(coll@, en.name@, subject@),
{
    let en_simple = simple_class_name(en.name.as_str());
    let coll_simple = simple_class_name(coll);
    let mut out = "Prefer EnumSet<".to_owned();
    out.append(en_simple.as_str());
    out.append("> over ");
    out.append(coll_simple.as_str());
    out.append("<");
    out.append(en_simple.as_str());
    out.append("> for enum collections (");
    out.append(subject);
    out.append(").");
    out
}


/// The borrowed form of an optional URI.
fn uri_ref(uri: &Option<String>) -> (res: Option<&str>)
    ensures
        match res {
            Some(u) => opt_view(*uri) == Some(u@),
            None => opt_view(*uri) is None,
        },
{
    match uri {
        Some(s) => Some(s.as_str()),
        None => None,
    }
}

/// Appends the finding for a field whose generic signature is an enum
/// collection.
pub fn scan_field(
    context: &AnalysisContext,
    enums: &Vec<&Class>,
    uri: &Option<String>,
    class: &Class,
    field: &Field,
    results: &mut Vec<Finding>,
)
    requires
        enum_list(*context, enums@),
    ensures
        finding_views(final(results)@) == finding_views(old(results)@) + field_finding(
            *context,
            opt_view(*uri),
            *class,
            *field,
        ),
{
    let ghost start = finding_views(results@);
    if let Some(sig) = &field.signature {
        let bytes = sig.as_str().as_bytes();
        if let Some((_, t)) = parse_type(bytes, 0) {
            if let Some((coll, en)) = match_collection_enum(context, enums, &t) {
                let mut subject = "field ".to_owned();
                subject.append(class.name.as_str());
                subject.append(".");
                subject.append(field.name.as_str());
                let message = enum_collection_message(coll, en, subject.as_str());
                let location = class_location(class.name.as_str(), uri_ref(uri));
                push_finding(results, finding(message, location));
            }
        }
    }
    assert(finding_views(results@) =~= start + field_finding(*context, opt_view(*uri), *class, *field));
}

/// Appends the findings for a method's generic signature: the return type,
/// then each parameter.
pub fn scan_signature(
    context: &AnalysisContext,
    enums: &Vec<&Class>,
    uri: &Option<String>,
    class: &Class,
    method: &Method,
    results: &mut Vec<Finding>,
)
    requires
        enum_list(*context, enums@),
    ensures
        finding_views(final(results)@) == finding_views(old(results)@) + signature_findings(
            *context,
            opt_view(*uri),
            *class,
            *method,
        ),
{
    let ghost start = finding_views(results@);
    let sig = match &method.signature {
        Some(sig) => sig,
        None => {
            assert(finding_views(results@) =~= start + signature_findings(*context, opt_view(*uri), *class, *method));
            return;
        },
    };
    let bytes = sig.as_str().as_bytes();
    let (params, ret) = match parse_method_signature(bytes) {
        Some(x) => x,
        None => {
            assert(finding_views(results@) =~= start + signature_findings(*context, opt_view(*uri), *class, *method));
            return;
        },
    };
    let line = method.line_for_offset(0);
    let ghost loc = method_location_spec(
        class.name@,
        method.name@,
        method.descriptor@,
        opt_view(*uri),
        line_for_offset_spec(method.line_numbers@, 0),
    );
    let ghost ret_findings = match method_sig(encode_utf8(sig@)).unwrap().1 {
        Some(t) => match_finding(*context, t, "return type of "@ + class.name@ + "."@ + method.name@, loc),
        None => Seq::empty(),
    };
    if let Some(t) = &ret {
        if let Some((coll, en)) = match_collection_enum(context, enums, t) {
            let mut subject = "return type of ".to_owned();
            subject.append(class.name.as_str());
            subject.append(".");
            subject.append(method.name.as_str());
            let message = enum_collection_message(coll, en, subject.as_str());
            let location = method_location_with_line(
                class.name.as_str(),
                method.name.as_str(),
                method.descriptor.as_str(),
                uri_ref(uri),
                line,
            );
            push_finding(results, finding(message, location));
        }
    }
    assert(finding_views(results@) =~= start + ret_findings);
    let ghost pv = sig_views(params@);
    let mut i: usize = 0;
    while i < params.len()
        invariant
            i <= params@.len(),
            pv == sig_views(params@),
            enum_list(*context, enums@),
            line == line_for_offset_spec(method.line_numbers@, 0),
            loc == method_location_spec(class.name@, method.name@, method.descriptor@, opt_view(*uri), line),
            finding_views(results@) == start + ret_findings + param_findings(*context, pv, i as int, *class, *method, loc),
        decreases params.len() - i,
    {
        let ghost before = finding_views(results@);
        if let Some((coll, en)) = match_collection_enum(context, enums, &params[i]) {
            let mut subject = "parameter ".to_owned();
            push_decimal(&mut subject, i as u64);
            subject.append(" of ");
            subject.append(class.name.as_str());
            subject.append(".");
            subject.append(method.name.as_str());
            let message = enum_collection_message(coll, en, subject.as_str());
            let location = method_location_with_line(
                class.name.as_str(),
                method.name.as_str(),
                method.descriptor.as_str(),
                uri_ref(uri),
                line,
            );
            push_finding(results, finding(message, location));
        }
        proof {
            assert(pv[i as int] == params@[i as int]@);
            assert(finding_views(results@) =~= start + ret_findings + param_findings(
                *context,
                pv,
                i + 1,
                *class,
                *method,
                loc,
            ));
        }
        i = i + 1;
    }
}

/// Appends the finding for a local variable whose generic signature is an
/// enum collection.
pub fn scan_local(
    context: &AnalysisContext,
    enums: &Vec<&Class>,
    uri: &Option<String>,
    class: &Class,
    method: &Method,
    local: &LocalVariableType,
    results: &mut Vec<Finding>,
)
    requires
        enum_list(*context, enums@),
    ensures
        finding_views(final(results)@) == finding_views(old(results)@) + local_finding(
            *context,
            opt_view(*uri),
            *class,
            *method,
            *local,
        ),
{
    let ghost start = finding_views(results@);
    let bytes = local.signature.as_str().as_bytes();
    if let Some((_, t)) = parse_type(bytes, 0) {
        if let Some((coll, en)) = match_collection_enum(context, enums, &t) {
            let line = method.line_for_offset(local.start_pc);
            let mut subject = "local ".to_owned();
            subject.append(local.name.as_str());
            subject.append(" in ");
            subject.append(class.name.as_str());
            subject.append(".");
            subject.append(method.name.as_str());
            let message = enum_collection_message(coll, en, subject.as_str());
            let location = method_location_with_line(
                class.name.as_str(),
                method.name.as_str(),
                method.descriptor.as_str(),
                uri_ref(uri),
                line,
            );
            push_finding(results, finding(message, location));
        }
    }
    assert(finding_views(results@) =~= start + local_finding(*context, opt_view(*uri), *class, *method, *local));
}


/// Appends the findings for a method: its signature, then its locals.
pub fn scan_method(
    context: &AnalysisContext,
    enums: &Vec<&Class>,
    uri: &Option<String>,
    class: &Class,
    method: &Method,
    results: &mut Vec<Finding>,
)
    requires
        enum_list(*context, enums@),
    ensures
        finding_views(final(results)@) == finding_views(old(results)@) + method_enumset_findings(
            *context,
            opt_view(*uri),
            *class,
            *method,
        ),
{
    let ghost start = finding_views(results@);
    let ghost u = opt_view(*uri);
    scan_signature(context, enums, uri, class, method, results);
    let ghost mid = finding_views(results@);
    let ghost h = |l: LocalVariableType| local_finding(*context, u, *class, *method, l);
    proof {
        lemma_concat_map_empty(method.local_variable_types@, h);
        assert(mid + concat_map(method.local_variable_types@.take(0), h) =~= mid);
    }
    let mut k: usize = 0;
    while k < method.local_variable_types.len()
        invariant
            k <= method.local_variable_types@.len(),
            enum_list(*context, enums@),
            u == opt_view(*uri),
            h == (|l: LocalVariableType| local_finding(*context, u, *class, *method, l)),
            finding_views(results@) == mid + concat_map(method.local_variable_types@.take(k as int), h),
        decreases method.local_variable_types.len() - k,
    {
        proof {
            lemma_concat_map_step(method.local_variable_types@, h, k as int);
        }
        scan_local(context, enums, uri, class, method, &method.local_variable_types[k], results);
        proof {
            assert(finding_views(results@) =~= mid + concat_map(method.local_variable_types@.take(k + 1), h));
        }
        k = k + 1;
    }
    proof {
        lemma_concat_map_full(method.local_variable_types@, h);
        assert(finding_views(results@) =~= start + method_enumset_findings(*context, u, *class, *method));
    }
}

/// Appends the findings for a class: its fields, then its methods.
pub fn scan_class(
    context: &AnalysisContext,
    enums: &Vec<&Class>,
    uri: &Option<String>,
    class: &Class,
    results: &mut Vec<Finding>,
)
    requires
        enum_list(*context, enums@),
    ensures
        finding_views(final(results)@) == finding_views(old(results)@) + class_enumset_findings(
            *context,
            opt_view(*uri),
            *class,
        ),
{
    let ghost start = finding_views(results@);
    let ghost u = opt_view(*uri);
    let ghost gf = |f: Field| field_finding(*context, u, *class, f);
    proof {
        lemma_concat_map_empty(class.fields@, gf);
        assert(start + concat_map(class.fields@.take(0), gf) =~= start);
    }
    let mut i: usize = 0;
    while i < class.fields.len()
        invariant
            i <= class.fields@.len(),
            enum_list(*context, enums@),
            u == opt_view(*uri),
            gf == (|f: Field| field_finding(*context, u, *class, f)),
            finding_views(results@) == start + concat_map(class.fields@.take(i as int), gf),
        decreases class.fields.len() - i,
    {
        proof {
            lemma_concat_map_step(class.fields@, gf, i as int);
        }
        scan_field(context, enums, uri, class, &class.fields[i], results);
        proof {
            assert(finding_views(results@) =~= start + concat_map(class.fields@.take(i + 1), gf));
        }
        i = i + 1;
    }
    proof {
        lemma_concat_map_full(class.fields@, gf);
    }
    let ghost mid = finding_views(results@);
    let ghost gm = |m: Method| method_enumset_findings(*context, u, *class, m);
    proof {
        lemma_concat_map_empty(class.methods@, gm);
        assert(mid + concat_map(class.methods@.take(0), gm) =~= mid);
    }
    let mut j: usize = 0;
    while j < class.methods.len()
        invariant
            j <= class.methods@.len(),
            enum_list(*context, enums@),
            u == opt_view(*uri),
            gm == (|m: Method| method_enumset_findings(*context, u, *class, m)),
            finding_views(results@) == mid + concat_map(class.methods@.take(j as int), gm),
        decreases class.methods.len() - j,
    {
        proof {
            lemma_concat_map_step(class.methods@, gm, j as int);
        }
        scan_method(context, enums, uri, class, &class.methods[j], results);
        proof {
            assert(finding_views(results@) =~= mid + concat_map(class.methods@.take(j + 1), gm));
        }
        j = j + 1;
    }
    proof {
        lemma_concat_map_full(class.methods@, gm);
        assert(finding_views(results@) =~= start + class_enumset_findings(*context, u, *class));
    }
}

/// Reports general collections of enum types where an `EnumSet` would do.
#[derive(Clone, Copy, Debug)]
pub struct PreferEnumSetRule;

impl PreferEnumSetRule {
    /// The rule's id, name and description.
    pub fn metadata(&self) -> (res: RuleMetadata)
        ensures
            res.id@ == "PREFER_ENUMSET"@,
    {
        RuleMetadata {
            id: "PREFER_ENUMSET",
            name: "Prefer EnumSet for enum collections",
            description: "Using EnumSet for enum types provides better performance than general collections",
        }
    }

    /// For each analysis-target class: its fields, then for each method its
    /// generic signature (return type, then parameters) and its locals; one
    /// finding per such type that is a target collection of an enum class of
    /// the context.
    pub fn run(&self, context: &AnalysisContext) -> (res: Result<Vec<Finding>, AnalysisError>)
        ensures
            res matches Ok(v) && finding_views(v@) == prefer_enumset_findings(*context),
    {
        let enums = enum_classes(context);
        let classes = context.analysis_target_classes();
        let ghost g = |c: Class| class_enumset_findings(*context, context.class_uri(c), c);
        let mut results: Vec<Finding> = Vec::new();
        proof {
            lemma_concat_map_empty(classes@, g);
            assert(finding_views(results@) =~= Seq::<FindingView>::empty());
        }
        let mut i: usize = 0;
        while i < classes.len()
            invariant
                i <= classes@.len(),
                classes@ == context.targets(),
                enum_list(*context, enums@),
                g == (|c: Class| class_enumset_findings(*context, context.class_uri(c), c)),
                finding_views(results@) == concat_map(classes@.take(i as int), g),
            decreases classes.len() - i,
        {
            let class = &classes[i];
            let uri = context.class_artifact_uri(class);
            proof {
                lemma_concat_map_step(classes@, g, i as int);
            }
            scan_class(context, &enums, &uri, class, &mut results);
            proof {
                assert(finding_views(results@) =~= concat_map(classes@.take(i + 1), g));
            }
            i = i + 1;
        }
        proof {
            lemma_concat_map_full(classes@, g);
        }
        Ok(results)
    }
}

} // verus!
