//! A type declaration as it is written, before its layout is worked out.
use crate::attributes::Attribute;
use crate::schema::{SpecType, Type};

use crate::value::Value;
use vstd::prelude::*;

verus! {

/// The type of a field as it is written.
#[derive(Debug, PartialEq, Eq)]
pub enum TypeExpr {
    /// A path: `u8`, `Vec<u16>`, `Header`, `wire::Header`.
    Path(Vec<Segment>),
    /// A tuple of types: `(u16, u32)`, `()`.
    Tuple(Vec<TypeExpr>),
    /// An array of a fixed number of items: `[u16; 3]`.
    Array(Box<TypeExpr>, usize),
    /// Anything else.
    Other,
}

/// One segment of a path, with what stands behind its name.
#[derive(Debug, PartialEq, Eq)]
pub struct Segment {
    pub name: String,
    pub arguments: Arguments,
}

/// What stands behind the name of a path segment.
#[derive(Debug, PartialEq, Eq)]
pub enum Arguments {
    /// Nothing.
    Absent,
    /// Arguments in angle brackets: the `<u16>` of `Vec<u16>`.
    AngleBracketed(Vec<Argument>),
    /// Arguments in round brackets: the `(u8)` of `Fn(u8)`.
    Parenthesized,
}

/// One argument in angle brackets.
#[derive(Debug, PartialEq, Eq)]
pub enum Argument {
    /// A type.
    Type(TypeExpr),
    /// A lifetime, a constant or a binding.
    Other,
}

/// One field of a declaration.
#[derive(Debug, PartialEq, Eq)]
pub struct FieldDecl {
    pub name: String,
    pub ty: TypeExpr,
    pub attrs: Vec<Attribute>,
    /// The value the field gets on decoding where it never travels.
    pub default: Option<Value>,
}

/// The fields of a record or of a variant.
#[derive(Debug, PartialEq, Eq)]
pub enum FieldsDecl {
    /// Fields with names, in braces.
    Named(Vec<FieldDecl>),
    /// Fields without names, in round brackets.
    Unnamed(Vec<FieldDecl>),
    /// No fields and no brackets.
    Unit,
}

/// One variant of a declared sum type.
#[derive(Debug, PartialEq, Eq)]
pub struct VariantDecl {
    pub name: String,
    pub attrs: Vec<Attribute>,
    pub fields: FieldsDecl,
}

/// What a declaration declares.
#[derive(Debug, PartialEq, Eq)]
pub enum Data {
    /// A record.
    Struct(FieldsDecl),
    /// A sum type.
    Enum(Vec<VariantDecl>),
}

/// The declaration of one type.
#[derive(Debug, PartialEq, Eq)]
pub struct Declaration {
    pub name: String,
    pub attrs: Vec<Attribute>,
    pub data: Data,
}

/// The layouts of the types that declarations may name.
#[derive(Debug, PartialEq, Eq)]
pub struct Registry {
    pub entries: Vec<(String, Type)>,
}

/// The layout registered under `name` among `entries[from..]`: that of the first entry of that name.
pub open spec fn registered(entries: Seq<(String, Type)>, name: Seq<char>, from: nat) -> Option<
    SpecType,
>
    decreases entries.len() - from,
{
    if from >= entries.len() {
        None
    } else if entries[from as int].0@ == name {
        Some(entries[from as int].1@)
    } else {
        registered(entries, name, from + 1)
    }
}

impl Registry {
    /// A registry that knows no type.
    pub fn new() -> (registry: Registry)
        ensures
            registry.entries@.len() == 0,
    {
        Registry { entries: Vec::new() }
    }

    /// Makes the layout known under the name, behind the entries that are there.
    pub fn register(&mut self, name: String, layout: Type)
        ensures
            final(self).entries@ == old(self).entries@.push((name, layout)),
    {
        self.entries.push((name, layout));
    }

    /// The layout registered under the name, if there is one.
    pub fn find(&self, name: &String) -> (found: Option<&Type>)
        ensures
            match registered(self.entries@, name@, 0) {
                Some(t) => found matches Some(layout) && layout@ == t,
                None => found is None,
            },
    {
        let mut i: usize = 0;
        while i < self.entries.len()
            invariant
                i <= self.entries@.len(),
                registered(self.entries@, name@, 0) == registered(self.entries@, name@, i as nat),
            decreases self.entries@.len() - i,
        {
            if self.entries[i].0 == *name {
                return Some(&self.entries[i].1);
            }
            i = i + 1;
        }
        None
    }
}

} // verus!
