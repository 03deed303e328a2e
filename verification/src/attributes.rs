//! The settings that a declaration attaches to a type, a variant or a field.
use crate::endian::Endianness;
use crate::error::SchemaError;
use crate::schema::{clone_ranges, TagRange};
use crate::text::is_text;
use vstd::prelude::*;

verus! {

/// What stands behind the name of one setting.
#[derive(Debug, PartialEq, Eq)]
pub enum MetaArg {
    /// Nothing: `keep_tag`.
    Flag,
    /// Values behind an equals sign, each a range: `tag = 1`, `tag = 6..=8|10`.
    Values(Vec<TagRange>),
    /// A word: `tag_type(u8)`.
    Word(String),
    /// A word and a value: `magic(u16 = 0xbaba)`.
    Typed(String, i128),
}

/// One setting: its name and what stands behind it.
#[derive(Debug, PartialEq, Eq)]
pub struct MetaItem {
    pub name: String,
    pub arg: MetaArg,
}

/// One attribute of a declaration: the word in front and the settings in its brackets.
#[derive(Debug, PartialEq, Eq)]
pub struct Attribute {
    pub path: String,
    pub items: Vec<MetaItem>,
}

/// The settings in force at one place of a declaration.
#[derive(Debug, PartialEq, Eq)]
pub struct Attributes {
    /// The type of the discriminant of a sum type.
    pub tag_type: Option<String>,
    /// The discriminants that select a variant.
    pub tag: Option<Vec<TagRange>>,
    /// Whether the first field of a variant is its discriminant.
    pub keep_tag: bool,
    /// How much less than the discriminant the kept value is.  Nothing sets it.
    pub keep_diff: Option<i64>,
    /// The type of the length prefix of a sequence.
    pub size_type: Option<String>,
    /// Whether the length prefix counts bytes.
    pub byte_sized: bool,
    /// Whether the field or the variant never travels.
    pub skip: bool,
    /// Whether the field holds the context.
    pub is_context: bool,
    /// The type and the value of the magic constant.
    pub magic: Option<(String, i128)>,
    /// The byte order.
    pub endianness: Option<Endianness>,
}

/// The mathematical content of [`Attributes`].
pub struct AttributesModel {
    pub tag_type: Option<Seq<char>>,
    pub tag: Option<Seq<TagRange>>,
    pub keep_tag: bool,
    pub keep_diff: Option<i64>,
    pub size_type: Option<Seq<char>>,
    pub byte_sized: bool,
    pub skip: bool,
    pub is_context: bool,
    pub magic: Option<(Seq<char>, i128)>,
    pub endianness: Option<Endianness>,
}

impl View for Attributes {
    type V = AttributesModel;

    open spec fn view(&self) -> AttributesModel {
        AttributesModel {
            tag_type: match self.tag_type {
                Some(name) => Some(name@),
                None => None,
            },
            tag: match self.tag {
                Some(ranges) => Some(ranges@),
                None => None,
            },
            keep_tag: self.keep_tag,
            keep_diff: self.keep_diff,
            size_type: match self.size_type {
                Some(name) => Some(name@),
                None => None,
            },
            byte_sized: self.byte_sized,
            skip: self.skip,
            is_context: self.is_context,
            magic: match self.magic {
                Some((name, value)) => Some((name@, value)),
                None => None,
            },
            endianness: self.endianness,
        }
    }
}

/// The settings where nothing has been declared.
pub open spec fn no_attributes() -> AttributesModel {
    AttributesModel {
        tag_type: None,
        tag: None,
        keep_tag: false,
        keep_diff: None,
        size_type: None,
        byte_sized: false,
        skip: false,
        is_context: false,
        magic: None,
        endianness: None,
    }
}

/// The settings that a place inside another starts from: those of the
/// enclosing place, but for the two that say what a field is.
pub open spec fn inherited(a: AttributesModel) -> AttributesModel {
    AttributesModel { skip: false, is_context: false, ..a }
}

/// The settings once one more setting has been read.  A name that is not
/// known is refused, and so is a known name with the wrong thing behind it.
pub open spec fn applied_item(a: AttributesModel, item: MetaItem) -> Result<
    AttributesModel,
    SchemaError,
> {
    let name = item.name@;
    if name == "tag"@ {
        match item.arg {
            MetaArg::Values(ranges) => Ok(AttributesModel { tag: Some(ranges@), ..a }),
            _ => Err(SchemaError::MalformedAttribute),
        }
    } else if name == "keep_tag"@ {
        match item.arg {
            MetaArg::Flag => Ok(AttributesModel { keep_tag: true, ..a }),
            _ => Err(SchemaError::MalformedAttribute),
        }
    } else if name == "byte_sized"@ {
        match item.arg {
            MetaArg::Flag => Ok(AttributesModel { byte_sized: true, ..a }),
            _ => Err(SchemaError::MalformedAttribute),
        }
    } else if name == "keep_diff"@ {
        Ok(AttributesModel { keep_diff: None, ..a })
    } else if name == "tag_type"@ {
        match item.arg {
            MetaArg::Word(word) => Ok(AttributesModel { tag_type: Some(word@), ..a }),
            _ => Err(SchemaError::MalformedAttribute),
        }
    } else if name == "size_type"@ {
        match item.arg {
            MetaArg::Word(word) => Ok(AttributesModel { size_type: Some(word@), ..a }),
            _ => Err(SchemaError::MalformedAttribute),
        }
    } else if name == "skip"@ {
        match item.arg {
            MetaArg::Flag => Ok(AttributesModel { skip: true, ..a }),
            _ => Err(SchemaError::MalformedAttribute),
        }
    } else if name == "is_context"@ {
        match item.arg {
            MetaArg::Flag => Ok(AttributesModel { is_context: true, ..a }),
            _ => Err(SchemaError::MalformedAttribute),
        }
    } else if name == "magic"@ {
        match item.arg {
            MetaArg::Typed(word, value) => Ok(AttributesModel { magic: Some((word@, value)), ..a }),
            _ => Err(SchemaError::MalformedAttribute),
        }
    } else if name == "big_endian"@ {
        match item.arg {
            MetaArg::Flag => Ok(AttributesModel { endianness: Some(Endianness::Big), ..a }),
            _ => Err(SchemaError::MalformedAttribute),
        }
    } else if name == "little_endian"@ {
        match item.arg {
            MetaArg::Flag => Ok(AttributesModel { endianness: Some(Endianness::Little), ..a }),
            _ => Err(SchemaError::MalformedAttribute),
        }
    } else if name == "native_endian"@ {
        match item.arg {
            MetaArg::Flag => Ok(AttributesModel { endianness: Some(Endianness::Native), ..a }),
            _ => Err(SchemaError::MalformedAttribute),
        }
    } else if name == "context"@ {
        Ok(a)
    } else {
        Err(SchemaError::UnsupportedAttribute)
    }
}

/// The settings once the settings `items[from..]` have been read in order.
pub open spec fn applied_items(a: AttributesModel, items: Seq<MetaItem>, from: nat) -> Result<
    AttributesModel,
    SchemaError,
>
    decreases items.len() - from,
{
    if from >= items.len() {
        Ok(a)
    } else {
        match applied_item(a, items[from as int]) {
            Err(e) => Err(e),
            Ok(next) => applied_items(next, items, from + 1),
        }
    }
}

/// The settings once the attributes `attrs[from..]` have been read in
/// order.  Only those whose word is `plod` count.
pub open spec fn applied_attrs(a: AttributesModel, attrs: Seq<Attribute>, from: nat) -> Result<
    AttributesModel,
    SchemaError,
>
    decreases attrs.len() - from,
{
    if from >= attrs.len() {
        Ok(a)
    } else if attrs[from as int].path@ != "plod"@ {
        applied_attrs(a, attrs, from + 1)
    } else {
        match applied_items(a, attrs[from as int].items@, 0) {
            Err(e) => Err(e),
            Ok(next) => applied_attrs(next, attrs, from + 1),
        }
    }
}

/// What reading settings owes: the settings as specified, or the failure.
pub open spec fn settled(r: Result<Attributes, SchemaError>, expected: Result<
    AttributesModel,
    SchemaError,
>) -> bool {
    match expected {
        Ok(a) => r matches Ok(found) && found@ == a,
        Err(e) => r matches Err(failure) && failure == e,
    }
}

impl Default for Attributes {
    /// The settings where nothing has been declared.
    fn default() -> (a: Self)
        ensures
            a@ == no_attributes(),
    {
        Attributes {
            tag_type: None,
            tag: None,
            keep_tag: false,
            keep_diff: None,
            size_type: None,
            byte_sized: false,
            skip: false,
            is_context: false,
            magic: None,
            endianness: None,
        }
    }
}

impl Attributes {
    /// The settings that the attributes of a type declare.
    pub fn parse(attrs: &Vec<Attribute>) -> (r: Result<Attributes, SchemaError>)
        ensures
            settled(r, applied_attrs(no_attributes(), attrs@, 0)),
    {
        let mut result = Attributes::default();
        match result._parse(attrs) {
            Err(e) => Err(e),
            Ok(()) => Ok(result),
        }
    }

    /// Reads the attributes into these settings, each setting over what was there.
    #[verifier::loop_isolation(false)]
    fn _parse(&mut self, attrs: &Vec<Attribute>) -> (r: Result<(), SchemaError>)
        ensures
            match applied_attrs(old(self)@, attrs@, 0) {
                Ok(a) => r is Ok && final(self)@ == a,
                Err(e) => r == Err::<(), SchemaError>(e),
            },
    {
        let ghost start = self@;
        let mut i: usize = 0;
        while i < attrs.len()
            invariant
                i <= attrs@.len(),
                applied_attrs(start, attrs@, 0) == applied_attrs(self@, attrs@, i as nat),
            decreases attrs@.len() - i,
        {
            let attribute = &attrs[i];
            if is_text(&attribute.path, "plod") {
                let ghost before = self@;
                let mut j: usize = 0;
                while j < attribute.items.len()
                    invariant
                        j <= attribute.items@.len(),
                        applied_items(before, attribute.items@, 0) == applied_items(
                            self@,
                            attribute.items@,
                            j as nat,
                        ),
                    decreases attribute.items@.len() - j,
                {
                    match self.apply(&attribute.items[j]) {
                        Err(e) => {
                            return Err(e);
                        },
                        Ok(()) => {},
                    }
                    j = j + 1;
                }
            }
            i = i + 1;
        }
        Ok(())
    }

    /// Reads one setting into these settings.
    fn apply(&mut self, item: &MetaItem) -> (r: Result<(), SchemaError>)
        ensures
            match applied_item(old(self)@, *item) {
                Ok(a) => r is Ok && final(self)@ == a,
                Err(e) => r == Err::<(), SchemaError>(e),
            },
    {
        if is_text(&item.name, "tag") {
            match &item.arg {
                MetaArg::Values(ranges) => {
                    self.tag = Some(clone_ranges(ranges));
                    Ok(())
                },
                _ => Err(SchemaError::MalformedAttribute),
            }
        } else if is_text(&item.name, "keep_tag") {
            match &item.arg {
                MetaArg::Flag => {
                    self.keep_tag = true;
                    Ok(())
                },
                _ => Err(SchemaError::MalformedAttribute),
            }
        } else if is_text(&item.name, "byte_sized") {
            match &item.arg {
                MetaArg::Flag => {
                    self.byte_sized = true;
                    Ok(())
                },
                _ => Err(SchemaError::MalformedAttribute),
            }
        } else if is_text(&item.name, "keep_diff") {
            self.keep_diff = None;
            Ok(())
        } else if is_text(&item.name, "tag_type") {
            match &item.arg {
                MetaArg::Word(word) => {
                    self.tag_type = Some(word.clone());
                    Ok(())
                },
                _ => Err(SchemaError::MalformedAttribute),
            }
        } else if is_text(&item.name, "size_type") {
            match &item.arg {
                MetaArg::Word(word) => {
                    self.size_type = Some(word.clone());
                    Ok(())
                },
                _ => Err(SchemaError::MalformedAttribute),
            }
        } else if is_text(&item.name, "skip") {
            match &item.arg {
                MetaArg::Flag => {
                    self.skip = true;
                    Ok(())
                },
                _ => Err(SchemaError::MalformedAttribute),
            }
        } else if is_text(&item.name, "is_context") {
            match &item.arg {
                MetaArg::Flag => {
                    self.is_context = true;
                    Ok(())
                },
                _ => Err(SchemaError::MalformedAttribute),
            }
        } else if is_text(&item.name, "magic") {
            match &item.arg {
                MetaArg::Typed(word, value) => {
                    self.magic = Some((word.clone(), *value));
                    Ok(())
                },
                _ => Err(SchemaError::MalformedAttribute),
            }
        } else if is_text(&item.name, "big_endian") {
            match &item.arg {
                MetaArg::Flag => {
                    self.endianness = Some(Endianness::Big);
                    Ok(())
                },
                _ => Err(SchemaError::MalformedAttribute),
            }
        } else if is_text(&item.name, "little_endian") {
            match &item.arg {
                MetaArg::Flag => {
                    self.endianness = Some(Endianness::Little);
                    Ok(())
                },
                _ => Err(SchemaError::MalformedAttribute),
            }
        } else if is_text(&item.name, "native_endian") {
            match &item.arg {
                MetaArg::Flag => {
                    self.endianness = Some(Endianness::Native);
                    Ok(())
                },
                _ => Err(SchemaError::MalformedAttribute),
            }
        } else if is_text(&item.name, "context") {
            Ok(())
        } else {
            Err(SchemaError::UnsupportedAttribute)
        }
    }

    /// The settings of a place inside this one: these settings, with the
    /// attributes of that place read over them.
    pub fn extend(&self, attrs: &Vec<Attribute>) -> (r: Result<Attributes, SchemaError>)
        ensures
            settled(r, applied_attrs(inherited(self@), attrs@, 0)),
    {
        let mut result = Attributes {
            tag_type: match &self.tag_type {
                Some(name) => Some(name.clone()),
                None => None,
            },
            tag: match &self.tag {
                Some(ranges) => Some(clone_ranges(ranges)),
                None => None,
            },
            keep_tag: self.keep_tag,
            keep_diff: self.keep_diff,
            size_type: match &self.size_type {
                Some(name) => Some(name.clone()),
                None => None,
            },
            byte_sized: self.byte_sized,
            skip: false,
            is_context: false,
            magic: match &self.magic {
                Some((name, value)) => Some((name.clone(), *value)),
                None => None,
            },
            endianness: self.endianness,
        };
        match result._parse(attrs) {
            Err(e) => Err(e),
            Ok(()) => Ok(result),
        }
    }
}

} // verus!
