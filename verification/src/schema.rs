//! Compiled schema classes: immutable definitions of named, typed fields,
//! loaded once at startup and referenced by numeric identifiers at runtime.
//!
//! Compilation fails on a duplicate class name or a duplicate field name
//! within a class — fatal at startup only. Every later encode or decode
//! names the exact compiled class and field; an identifier that matches no
//! compiled definition is a schema mismatch.

use vstd::prelude::*;
use crate::codec::FieldType;
use crate::codec::Value;
use crate::codec::ValView;
use crate::codec::dec;
use crate::codec::enc;
use crate::codec::encode;
use crate::codec::decode;
use crate::codec::has_type;
use crate::errors::CodecError;
use crate::errors::SchemaError;

verus! {

/// One named, typed field of a class; required fields must all be set
/// before an object of the class becomes visible.
pub struct FieldDef {
    pub name: String,
    pub ftype: FieldType,
    pub required: bool,
}

/// One class: a name and its fields in declaration order.
pub struct ClassDef {
    pub name: String,
    pub fields: Vec<FieldDef>,
}

/// A compiled schema: classes addressed by index, which is the numeric
/// class identifier used on the wire.
pub struct SchemaSet {
    pub classes: Vec<ClassDef>,
}

/// No two classes share a name.
pub open spec fn class_names_unique(cs: Seq<ClassDef>) -> bool {
    forall|i: int, j: int| 0 <= i < j < cs.len() ==> cs[i].name@ != cs[j].name@
}

/// No two fields of one class share a name.
pub open spec fn field_names_unique(fs: Seq<FieldDef>) -> bool {
    forall|i: int, j: int| 0 <= i < j < fs.len() ==> fs[i].name@ != fs[j].name@
}

/// Every class of the sequence has internally unique field names.
pub open spec fn all_field_names_unique(cs: Seq<ClassDef>) -> bool {
    forall|i: int| 0 <= i < cs.len() ==> field_names_unique(#[trigger] cs[i].fields@)
}

impl SchemaSet {
    /// The definitions compiled without fault: unique class names, unique
    /// field names within each class.
    pub open spec fn wf(self) -> bool {
        &&& class_names_unique(self.classes@)
        &&& all_field_names_unique(self.classes@)
    }

    /// `class_id` names a compiled class.
    pub open spec fn valid_class(self, class_id: int) -> bool {
        0 <= class_id < self.classes@.len()
    }

    /// `field_id` names a field of compiled class `class_id`.
    pub open spec fn valid_field(self, class_id: int, field_id: int) -> bool {
        self.valid_class(class_id) && 0 <= field_id < self.classes@[class_id].fields@.len()
    }

    /// The declared type of a compiled field.
    pub open spec fn field_type(self, class_id: int, field_id: int) -> FieldType {
        self.classes@[class_id].fields@[field_id].ftype
    }

    /// How many classes were compiled.
    pub fn class_count(&self) -> (n: usize)
        ensures
            n == self.classes@.len(),
    {
        self.classes.len()
    }

    /// The numeric identifier of the class with this name, if any.
    #[verifier::loop_isolation(false)]
    pub fn find_class(&self, name: &String) -> (r: Option<usize>)
        ensures
            r matches Some(i) ==> i < self.classes@.len() && self.classes@[i as int].name@
                == name@,
            r is None ==> forall|i: int|
                0 <= i < self.classes@.len() ==> self.classes@[i].name@ != name@,
    {
        let mut i: usize = 0;
        while i < self.classes.len()
            invariant
                i <= self.classes@.len(),
                forall|k: int| 0 <= k < i ==> self.classes@[k].name@ != name@,
            decreases self.classes@.len() - i,
        {
            if self.classes[i].name == *name {
                return Some(i);
            }
            i += 1;
        }
        None
    }

    /// Encode a value as the declared type of the named compiled field.
    ///
    /// An identifier naming no compiled class or field is a schema
    /// mismatch; otherwise exactly the codec's encoding contract applies.
    pub fn encode_field(&self, class_id: usize, field_id: usize, v: &Value) -> (r: Result<
        Vec<u8>,
        CodecError,
    >)
        ensures
            !self.valid_field(class_id as int, field_id as int) ==> r == Err::<
                Vec<u8>,
                CodecError,
            >(CodecError::SchemaMismatch),
            self.valid_field(class_id as int, field_id as int) ==> {
                let t = self.field_type(class_id as int, field_id as int);
                &&& (r is Ok <==> has_type(v@, t))
                &&& (r matches Ok(b) ==> b@ == enc(t, v@))
            },
    {
        if class_id >= self.classes.len() {
            return Err(CodecError::SchemaMismatch);
        }
        let class = &self.classes[class_id];
        if field_id >= class.fields.len() {
            return Err(CodecError::SchemaMismatch);
        }
        encode(&class.fields[field_id].ftype, v)
    }

    /// Decode bytes as the declared type of the named compiled field,
    /// consuming the whole buffer.
    pub fn decode_field(&self, class_id: usize, field_id: usize, b: &Vec<u8>) -> (r: Result<
        Value,
        CodecError,
    >)
        ensures
            !self.valid_field(class_id as int, field_id as int) ==> r == Err::<
                Value,
                CodecError,
            >(CodecError::SchemaMismatch),
            self.valid_field(class_id as int, field_id as int) ==> {
                let t = self.field_type(class_id as int, field_id as int);
                &&& (r matches Ok(v) ==> dec(t, b@) == Some((v@, b@.len() as int)))
                &&& (r is Ok <==> (dec(t, b@) matches Some(q) && q.1 == b@.len()))
            },
    {
        if class_id >= self.classes.len() {
            return Err(CodecError::SchemaMismatch);
        }
        let class = &self.classes[class_id];
        if field_id >= class.fields.len() {
            return Err(CodecError::SchemaMismatch);
        }
        decode(&class.fields[field_id].ftype, b)
    }
}

/// Whether two fields of `fs` share a name.
#[verifier::loop_isolation(false)]
fn fields_have_dup(fs: &Vec<FieldDef>) -> (r: bool)
    ensures
        r <==> !field_names_unique(fs@),
{
    let mut i: usize = 0;
    while i < fs.len()
        invariant
            i <= fs@.len(),
            forall|k: int, l: int| 0 <= k < l < fs@.len() && k < i ==> fs@[k].name@
                != fs@[l].name@,
        decreases fs@.len() - i,
    {
        let mut j: usize = i + 1;
        while j < fs.len()
            invariant
                i < j <= fs@.len() || (i as int == fs@.len() && j == i + 1),
                i < fs@.len() ==> forall|l: int| i < l < j ==> fs@[i as int].name@
                    != fs@[l].name@,
            decreases fs@.len() - j,
        {
            if fs[i].name == fs[j].name {
                return true;
            }
            j += 1;
        }
        i += 1;
    }
    false
}

/// Whether two classes of `cs` share a name.
#[verifier::loop_isolation(false)]
fn classes_have_dup(cs: &Vec<ClassDef>) -> (r: bool)
    ensures
        r <==> !class_names_unique(cs@),
{
    let mut i: usize = 0;
    while i < cs.len()
        invariant
            i <= cs@.len(),
            forall|k: int, l: int| 0 <= k < l < cs@.len() && k < i ==> cs@[k].name@
                != cs@[l].name@,
        decreases cs@.len() - i,
    {
        let mut j: usize = i + 1;
        while j < cs.len()
            invariant
                i < j <= cs@.len() || (i as int == cs@.len() && j == i + 1),
                i < cs@.len() ==> forall|l: int| i < l < j ==> cs@[i as int].name@
                    != cs@[l].name@,
            decreases cs@.len() - j,
        {
            if cs[i].name == cs[j].name {
                return true;
            }
            j += 1;
        }
        i += 1;
    }
    false
}

/// Compile class definitions into a schema set.
///
/// Fails with a duplicate-class-name error when two classes share a name;
/// otherwise with a duplicate-field-name error when some class declares
/// two fields of one name; otherwise succeeds with the definitions as
/// given, classes numbered in order.
#[verifier::loop_isolation(false)]
pub fn compile(defs: Vec<ClassDef>) -> (r: Result<SchemaSet, SchemaError>)
    ensures
        r is Ok <==> (class_names_unique(defs@) && all_field_names_unique(defs@)),
        r matches Ok(s) ==> s.classes@ == defs@ && s.wf(),
        r == Err::<SchemaSet, SchemaError>(SchemaError::DuplicateClassName) <==> !class_names_unique(
            defs@,
        ),
        r == Err::<SchemaSet, SchemaError>(SchemaError::DuplicateFieldName) <==> (
        class_names_unique(defs@) && !all_field_names_unique(defs@)),
{
    if classes_have_dup(&defs) {
        return Err(SchemaError::DuplicateClassName);
    }
    let mut i: usize = 0;
    while i < defs.len()
        invariant
            i <= defs@.len(),
            forall|k: int| 0 <= k < i ==> field_names_unique(#[trigger] defs@[k].fields@),
        decreases defs@.len() - i,
    {
        if fields_have_dup(&defs[i].fields) {
            return Err(SchemaError::DuplicateFieldName);
        }
        i += 1;
    }
    Ok(SchemaSet { classes: defs })
}

} // verus!
