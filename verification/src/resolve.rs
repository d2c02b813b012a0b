use vstd::prelude::*;
use vstd::string::StringExecFns;
use crate::error::CodecError;
use crate::tag::TypeTag;

verus! {

/// The actual type arguments the host's introspection facility reports for
/// a type description. Only the first two ever matter: a sequence shape
/// reads the first, an associative-map shape the first two (key, then
/// value).
#[derive(Debug, PartialEq, Eq)]
pub enum TypeArgs {
    Empty,
    One(Box<TypeDescriptor>),
    Two(Box<TypeDescriptor>, Box<TypeDescriptor>),
}

/// What the codec reads of a reflective, runtime-introspected type
/// description: the fully qualified name, whether the type is a subtype of
/// the host's associative-map or sequence interfaces, and its actual type
/// arguments. The boundary layer fills one in from the host's introspection
/// calls; the resolver never touches reflection itself.
#[derive(Debug, PartialEq, Eq)]
pub struct TypeDescriptor {
    pub qualified_name: String,
    pub is_map_subtype: bool,
    pub is_list_subtype: bool,
    pub args: TypeArgs,
}

/// The fixed table of scalar names: each fully qualified boxed-scalar name
/// (and the raw byte-array name) maps directly to a leaf tag.
pub open spec fn scalar_tag_spec(name: Seq<char>) -> Option<TypeTag> {
    if name == "java.lang.Boolean"@ {
        Some(TypeTag::Boolean)
    } else if name == "java.lang.String"@ {
        Some(TypeTag::Text)
    } else if name == "byte[]"@ {
        Some(TypeTag::ByteArray)
    } else if name == "java.lang.Byte"@ {
        Some(TypeTag::Byte)
    } else if name == "java.lang.Short"@ {
        Some(TypeTag::Short)
    } else if name == "java.lang.Integer"@ {
        Some(TypeTag::Int)
    } else if name == "java.lang.Long"@ {
        Some(TypeTag::Long)
    } else if name == "java.lang.Float"@ {
        Some(TypeTag::Float)
    } else if name == "java.lang.Double"@ {
        Some(TypeTag::Double)
    } else {
        Option::None
    }
}

/// Whether tag tree `t` is a correct normalization of descriptor `d`:
/// a scalar name resolves to its leaf tag; otherwise a sequence subtype
/// with a first type argument resolves to `List` over its, a map subtype
/// with two type arguments to `MapOf` over theirs, and nothing else
/// resolves. The sequence test comes before the associative-map test, as
/// the resolver applies it.
pub open spec fn resolves(d: TypeDescriptor, t: TypeTag) -> bool
    decreases t,
{
    match scalar_tag_spec(d.qualified_name@) {
        Some(s) => t == s,
        Option::None => if d.is_list_subtype {
            match d.args {
                TypeArgs::One(e) => t matches TypeTag::List(te) && resolves(*e, *te),
                TypeArgs::Two(e, _) => t matches TypeTag::List(te) && resolves(*e, *te),
                TypeArgs::Empty => false,
            }
        } else if d.is_map_subtype {
            match d.args {
                TypeArgs::Two(k, w) => t matches TypeTag::MapOf(tk, tw) && resolves(*k, *tk)
                    && resolves(*w, *tw),
                _ => false,
            }
        } else {
            false
        },
    }
}

/// The error a descriptor resolves to, or `None` where it resolves to a
/// tag: an unrecognized plain shape is unsupported (carrying its name); a
/// composite shape without the type arguments its kind requires means the
/// introspection call itself handed back nonsense; and a composite shape
/// fails exactly where its first failing type argument does.
pub open spec fn resolve_err(d: TypeDescriptor) -> Option<CodecError>
    decreases d,
{
    match scalar_tag_spec(d.qualified_name@) {
        Some(_) => Option::None,
        Option::None => if d.is_list_subtype {
            match d.args {
                TypeArgs::One(e) => resolve_err(*e),
                TypeArgs::Two(e, _) => resolve_err(*e),
                TypeArgs::Empty => Some(CodecError::ReflectionCall),
            }
        } else if d.is_map_subtype {
            match d.args {
                TypeArgs::Two(k, w) => match resolve_err(*k) {
                    Some(e) => Some(e),
                    Option::None => resolve_err(*w),
                },
                _ => Some(CodecError::ReflectionCall),
            }
        } else {
            Some(CodecError::UnsupportedType(d.qualified_name))
        },
    }
}

/// Resolution is deterministic: any two tag trees a descriptor resolves to
/// are structurally equal, so resolving the same reflective type
/// description twice yields structurally equal results.
pub proof fn lemma_resolve_unique(d: TypeDescriptor, t1: TypeTag, t2: TypeTag)
    requires
        resolves(d, t1),
        resolves(d, t2),
    ensures
        t1 == t2,
    decreases t1,
{
    match scalar_tag_spec(d.qualified_name@) {
        Some(_) => {},
        Option::None => {
            if d.is_list_subtype {
                match d.args {
                    TypeArgs::One(e) => {
                        lemma_resolve_unique(*e, *t1->List_0, *t2->List_0);
                    },
                    TypeArgs::Two(e, _) => {
                        lemma_resolve_unique(*e, *t1->List_0, *t2->List_0);
                    },
                    TypeArgs::Empty => {},
                }
            } else if d.is_map_subtype {
                match d.args {
                    TypeArgs::Two(k, w) => {
                        lemma_resolve_unique(*k, *t1->MapOf_0, *t2->MapOf_0);
                        lemma_resolve_unique(*w, *t1->MapOf_1, *t2->MapOf_1);
                    },
                    _ => {},
                }
            }
        },
    }
}

/// A descriptor matching no scalar name and declaring neither the
/// associative-map nor the sequence supertype is rejected as unsupported,
/// naming the offending type; no tag tree resolves from it, so rejection
/// never partially succeeds.
pub proof fn lemma_unsupported_rejected(d: TypeDescriptor)
    requires
        scalar_tag_spec(d.qualified_name@) is None,
        !d.is_map_subtype,
        !d.is_list_subtype,
    ensures
        resolve_err(d) == Some(CodecError::UnsupportedType(d.qualified_name)),
        forall|t: TypeTag| !resolves(d, t),
{
    assert forall|t: TypeTag| !resolves(d, t) by {
        assert(!resolves(d, t));
    }
}

/// Compares a name against one table entry.
fn name_is(name: &String, lit: &str) -> (r: bool)
    ensures
        r == (name@ == lit@),
{
    let s = String::from_str(lit);
    *name == s
}

/// Looks a qualified name up in the fixed scalar table.
pub fn scalar_tag(name: &String) -> (r: Option<TypeTag>)
    ensures
        r == scalar_tag_spec(name@),
{
    if name_is(name, "java.lang.Boolean") {
        Some(TypeTag::Boolean)
    } else if name_is(name, "java.lang.String") {
        Some(TypeTag::Text)
    } else if name_is(name, "byte[]") {
        Some(TypeTag::ByteArray)
    } else if name_is(name, "java.lang.Byte") {
        Some(TypeTag::Byte)
    } else if name_is(name, "java.lang.Short") {
        Some(TypeTag::Short)
    } else if name_is(name, "java.lang.Integer") {
        Some(TypeTag::Int)
    } else if name_is(name, "java.lang.Long") {
        Some(TypeTag::Long)
    } else if name_is(name, "java.lang.Float") {
        Some(TypeTag::Float)
    } else if name_is(name, "java.lang.Double") {
        Some(TypeTag::Double)
    } else {
        Option::None
    }
}

/// Normalizes a reflective type description into a closed tag tree: scalar
/// names map to leaf tags; otherwise a sequence subtype recurses into its
/// first type argument, a map subtype into its two, and anything else is
/// rejected. Purely a type-shape normalization: the same output tree drives
/// both the serializer and the deserializer of one call.
pub fn resolve(d: &TypeDescriptor) -> (r: Result<TypeTag, CodecError>)
    ensures
        r matches Ok(t) ==> resolves(*d, t) && resolve_err(*d) is None,
        r matches Err(e) ==> resolve_err(*d) == Some(e),
        r is Ok <==> resolve_err(*d) is None,
    decreases *d,
{
    match scalar_tag(&d.qualified_name) {
        Some(t) => Ok(t),
        Option::None => {
            if d.is_list_subtype {
                match &d.args {
                    TypeArgs::One(e) => {
                        match resolve(e) {
                            Ok(t) => Ok(TypeTag::List(Box::new(t))),
                            Err(er) => Err(er),
                        }
                    },
                    TypeArgs::Two(e, _) => {
                        match resolve(e) {
                            Ok(t) => Ok(TypeTag::List(Box::new(t))),
                            Err(er) => Err(er),
                        }
                    },
                    TypeArgs::Empty => Err(CodecError::ReflectionCall),
                }
            } else if d.is_map_subtype {
                match &d.args {
                    TypeArgs::Two(k, w) => {
                        let kt = match resolve(k) {
                            Ok(t) => t,
                            Err(e) => {
                                return Err(e);
                            },
                        };
                        let wt = match resolve(w) {
                            Ok(t) => t,
                            Err(e) => {
                                return Err(e);
                            },
                        };
                        Ok(TypeTag::MapOf(Box::new(kt), Box::new(wt)))
                    },
                    _ => Err(CodecError::ReflectionCall),
                }
            } else {
                Err(CodecError::UnsupportedType(d.qualified_name.clone()))
            }
        },
    }
}

} // verus!
