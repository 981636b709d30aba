//! Metadata definitions of a RegXML metadictionary (SMPTE ST 2001-1).
use vstd::prelude::*;

use crate::types::Auid;

verus! {

// ── Class Definition ────────────────────────────────────────────────────────

#[derive(Debug, Clone)]
pub struct ClassDefinition {
    pub identification: Auid,
    pub symbol: String,
    pub namespace: String,
    pub parent_class: Option<Auid>,
    pub is_concrete: bool,
}

// ── Property Definition ─────────────────────────────────────────────────────

#[derive(Debug, Clone)]
pub struct PropertyDefinition {
    pub identification: Auid,
    pub symbol: String,
    pub namespace: String,
    pub member_of: Auid,
    pub property_type: Auid,
    pub is_optional: bool,
    pub is_unique_identifier: bool,
    pub local_identification: u16,
}

// ── Type Definitions ────────────────────────────────────────────────────────

#[derive(Debug, Clone)]
pub struct EnumerationElement {
    pub name: String,
    pub value: i64,
}

#[derive(Debug, Clone)]
pub struct RecordMember {
    pub name: String,
    pub field_type: Auid,
}

#[derive(Debug, Clone)]
pub struct CharacterTypeDef {
    pub identification: Auid,
    pub symbol: String,
    pub namespace: String,
}

#[derive(Debug, Clone)]
pub struct EnumerationTypeDef {
    pub identification: Auid,
    pub symbol: String,
    pub namespace: String,
    pub element_type: Auid,
    pub elements: Vec<EnumerationElement>,
}

#[derive(Debug, Clone)]
pub struct ExtEnumTypeDef {
    pub identification: Auid,
    pub symbol: String,
    pub namespace: String,
    pub elements: Vec<EnumerationElement>,
}

#[derive(Debug, Clone)]
pub struct FixedArrayTypeDef {
    pub identification: Auid,
    pub symbol: String,
    pub namespace: String,
    pub element_type: Auid,
    pub element_count: u32,
}

#[derive(Debug, Clone)]
pub struct FloatTypeDef {
    pub identification: Auid,
    pub symbol: String,
    pub namespace: String,
    pub size: u8,
}

#[derive(Debug, Clone)]
pub struct IndirectTypeDef {
    pub identification: Auid,
    pub symbol: String,
    pub namespace: String,
}

#[derive(Debug, Clone)]
pub struct IntegerTypeDef {
    pub identification: Auid,
    pub symbol: String,
    pub namespace: String,
    pub size: u8,
    pub is_signed: bool,
}

#[derive(Debug, Clone)]
pub struct LensSerialFloatTypeDef {
    pub identification: Auid,
    pub symbol: String,
    pub namespace: String,
}

#[derive(Debug, Clone)]
pub struct OpaqueTypeDef {
    pub identification: Auid,
    pub symbol: String,
    pub namespace: String,
}

#[derive(Debug, Clone)]
pub struct RecordTypeDef {
    pub identification: Auid,
    pub symbol: String,
    pub namespace: String,
    pub members: Vec<RecordMember>,
}

#[derive(Debug, Clone)]
pub struct RenameTypeDef {
    pub identification: Auid,
    pub symbol: String,
    pub namespace: String,
    pub renamed_type: Auid,
}

#[derive(Debug, Clone)]
pub struct SetTypeDef {
    pub identification: Auid,
    pub symbol: String,
    pub namespace: String,
    pub element_type: Auid,
}

#[derive(Debug, Clone)]
pub struct StreamTypeDef {
    pub identification: Auid,
    pub symbol: String,
    pub namespace: String,
}

#[derive(Debug, Clone)]
pub struct StringTypeDef {
    pub identification: Auid,
    pub symbol: String,
    pub namespace: String,
    pub element_type: Auid,
}

#[derive(Debug, Clone)]
pub struct StrongReferenceTypeDef {
    pub identification: Auid,
    pub symbol: String,
    pub namespace: String,
    pub referenced_type: Auid,
}

#[derive(Debug, Clone)]
pub struct VariableArrayTypeDef {
    pub identification: Auid,
    pub symbol: String,
    pub namespace: String,
    pub element_type: Auid,
}

#[derive(Debug, Clone)]
pub struct WeakReferenceTypeDef {
    pub identification: Auid,
    pub symbol: String,
    pub namespace: String,
    pub referenced_type: Auid,
    pub target_set: Vec<Auid>,
}

/// All 17 SMPTE type variants (ST 2001-1 §11).
#[derive(Debug, Clone)]
pub enum TypeDefinition {
    Character(CharacterTypeDef),
    Enumeration(EnumerationTypeDef),
    ExtendibleEnumeration(ExtEnumTypeDef),
    FixedArray(FixedArrayTypeDef),
    Float(FloatTypeDef),
    Indirect(IndirectTypeDef),
    Integer(IntegerTypeDef),
    LensSerialFloat(LensSerialFloatTypeDef),
    Opaque(OpaqueTypeDef),
    Record(RecordTypeDef),
    Rename(RenameTypeDef),
    SetType(SetTypeDef),
    Stream(StreamTypeDef),
    String(StringTypeDef),
    StrongReference(StrongReferenceTypeDef),
    VariableArray(VariableArrayTypeDef),
    WeakReference(WeakReferenceTypeDef),
}

// ── Top-level Definition ────────────────────────────────────────────────────

#[derive(Debug, Clone)]
pub enum Definition {
    Class(ClassDefinition),
    Property(PropertyDefinition),
    Type(TypeDefinition),
}

// ── Mathematical model ──────────────────────────────────────────────────────

/// The fields that every definition has, as values.
pub struct CommonView {
    pub id: Auid,
    pub symbol: Seq<char>,
    pub namespace: Seq<char>,
}

pub struct ClassView {
    pub common: CommonView,
    pub parent: Option<Auid>,
    pub is_concrete: bool,
}

pub struct PropertyView {
    pub common: CommonView,
    pub member_of: Auid,
    pub property_type: Auid,
    pub is_optional: bool,
    pub is_unique_identifier: bool,
    pub local_identification: u16,
}

/// A type definition as a value: its common fields and its kind-specific ones.
pub enum TypeDefView {
    Character(CommonView),
    Enumeration(CommonView, Auid, Seq<(Seq<char>, i64)>),
    ExtendibleEnumeration(CommonView, Seq<(Seq<char>, i64)>),
    FixedArray(CommonView, Auid, u32),
    Float(CommonView, u8),
    Indirect(CommonView),
    Integer(CommonView, u8, bool),
    LensSerialFloat(CommonView),
    Opaque(CommonView),
    Record(CommonView, Seq<(Seq<char>, Auid)>),
    Rename(CommonView, Auid),
    SetType(CommonView, Auid),
    Stream(CommonView),
    String(CommonView, Auid),
    StrongReference(CommonView, Auid),
    VariableArray(CommonView, Auid),
    WeakReference(CommonView, Auid, Seq<Auid>),
}

pub enum DefinitionView {
    Class(ClassView),
    Property(PropertyView),
    Type(TypeDefView),
}

/// Enumeration elements as (name, value) pairs.
pub open spec fn enum_elements_view(s: Seq<EnumerationElement>) -> Seq<(Seq<char>, i64)> {
    s.map_values(|e: EnumerationElement| (e.name@, e.value))
}

/// Record members as (name, type) pairs.
pub open spec fn record_members_view(s: Seq<RecordMember>) -> Seq<(Seq<char>, Auid)> {
    s.map_values(|m: RecordMember| (m.name@, m.field_type))
}

impl View for ClassDefinition {
    type V = ClassView;

    open spec fn view(&self) -> ClassView {
        ClassView {
            common: CommonView { id: self.identification, symbol: self.symbol@, namespace: self.namespace@ },
            parent: self.parent_class,
            is_concrete: self.is_concrete,
        }
    }
}

impl View for PropertyDefinition {
    type V = PropertyView;

    open spec fn view(&self) -> PropertyView {
        PropertyView {
            common: CommonView { id: self.identification, symbol: self.symbol@, namespace: self.namespace@ },
            member_of: self.member_of,
            property_type: self.property_type,
            is_optional: self.is_optional,
            is_unique_identifier: self.is_unique_identifier,
            local_identification: self.local_identification,
        }
    }
}

impl View for CharacterTypeDef {
    type V = TypeDefView;

    open spec fn view(&self) -> TypeDefView {
        TypeDefView::Character(
            CommonView { id: self.identification, symbol: self.symbol@, namespace: self.namespace@ },
        )
    }
}

impl View for EnumerationTypeDef {
    type V = TypeDefView;

    open spec fn view(&self) -> TypeDefView {
        TypeDefView::Enumeration(
            CommonView { id: self.identification, symbol: self.symbol@, namespace: self.namespace@ }, self.element_type, enum_elements_view(self.elements@),
        )
    }
}

impl View for ExtEnumTypeDef {
    type V = TypeDefView;

    open spec fn view(&self) -> TypeDefView {
        TypeDefView::ExtendibleEnumeration(
            CommonView { id: self.identification, symbol: self.symbol@, namespace: self.namespace@ }, enum_elements_view(self.elements@),
        )
    }
}

impl View for FixedArrayTypeDef {
    type V = TypeDefView;

    open spec fn view(&self) -> TypeDefView {
        TypeDefView::FixedArray(
            CommonView { id: self.identification, symbol: self.symbol@, namespace: self.namespace@ }, self.element_type, self.element_count,
        )
    }
}

impl View for FloatTypeDef {
    type V = TypeDefView;

    open spec fn view(&self) -> TypeDefView {
        TypeDefView::Float(
            CommonView { id: self.identification, symbol: self.symbol@, namespace: self.namespace@ }, self.size,
        )
    }
}

impl View for IndirectTypeDef {
    type V = TypeDefView;

    open spec fn view(&self) -> TypeDefView {
        TypeDefView::Indirect(
            CommonView { id: self.identification, symbol: self.symbol@, namespace: self.namespace@ },
        )
    }
}

impl View for IntegerTypeDef {
    type V = TypeDefView;

    open spec fn view(&self) -> TypeDefView {
        TypeDefView::Integer(
            CommonView { id: self.identification, symbol: self.symbol@, namespace: self.namespace@ }, self.size, self.is_signed,
        )
    }
}

impl View for LensSerialFloatTypeDef {
    type V = TypeDefView;

    open spec fn view(&self) -> TypeDefView {
        TypeDefView::LensSerialFloat(
            CommonView { id: self.identification, symbol: self.symbol@, namespace: self.namespace@ },
        )
    }
}

impl View for OpaqueTypeDef {
    type V = TypeDefView;

    open spec fn view(&self) -> TypeDefView {
        TypeDefView::Opaque(
            CommonView { id: self.identification, symbol: self.symbol@, namespace: self.namespace@ },
        )
    }
}

impl View for RecordTypeDef {
    type V = TypeDefView;

    open spec fn view(&self) -> TypeDefView {
        TypeDefView::Record(
            CommonView { id: self.identification, symbol: self.symbol@, namespace: self.namespace@ }, record_members_view(self.members@),
        )
    }
}

impl View for RenameTypeDef {
    type V = TypeDefView;

    open spec fn view(&self) -> TypeDefView {
        TypeDefView::Rename(
            CommonView { id: self.identification, symbol: self.symbol@, namespace: self.namespace@ }, self.renamed_type,
        )
    }
}

impl View for SetTypeDef {
    type V = TypeDefView;

    open spec fn view(&self) -> TypeDefView {
        TypeDefView::SetType(
            CommonView { id: self.identification, symbol: self.symbol@, namespace: self.namespace@ }, self.element_type,
        )
    }
}

impl View for StreamTypeDef {
    type V = TypeDefView;

    open spec fn view(&self) -> TypeDefView {
        TypeDefView::Stream(
            CommonView { id: self.identification, symbol: self.symbol@, namespace: self.namespace@ },
        )
    }
}

impl View for StringTypeDef {
    type V = TypeDefView;

    open spec fn view(&self) -> TypeDefView {
        TypeDefView::String(
            CommonView { id: self.identification, symbol: self.symbol@, namespace: self.namespace@ }, self.element_type,
        )
    }
}

impl View for StrongReferenceTypeDef {
    type V = TypeDefView;

    open spec fn view(&self) -> TypeDefView {
        TypeDefView::StrongReference(
            CommonView { id: self.identification, symbol: self.symbol@, namespace: self.namespace@ }, self.referenced_type,
        )
    }
}

impl View for VariableArrayTypeDef {
    type V = TypeDefView;

    open spec fn view(&self) -> TypeDefView {
        TypeDefView::VariableArray(
            CommonView { id: self.identification, symbol: self.symbol@, namespace: self.namespace@ }, self.element_type,
        )
    }
}

impl View for WeakReferenceTypeDef {
    type V = TypeDefView;

    open spec fn view(&self) -> TypeDefView {
        TypeDefView::WeakReference(
            CommonView { id: self.identification, symbol: self.symbol@, namespace: self.namespace@ }, self.referenced_type, self.target_set@,
        )
    }
}

impl View for TypeDefinition {
    type V = TypeDefView;

    open spec fn view(&self) -> TypeDefView {
        match self {
            TypeDefinition::Character(d) => d@,
            TypeDefinition::Enumeration(d) => d@,
            TypeDefinition::ExtendibleEnumeration(d) => d@,
            TypeDefinition::FixedArray(d) => d@,
            TypeDefinition::Float(d) => d@,
            TypeDefinition::Indirect(d) => d@,
            TypeDefinition::Integer(d) => d@,
            TypeDefinition::LensSerialFloat(d) => d@,
            TypeDefinition::Opaque(d) => d@,
            TypeDefinition::Record(d) => d@,
            TypeDefinition::Rename(d) => d@,
            TypeDefinition::SetType(d) => d@,
            TypeDefinition::Stream(d) => d@,
            TypeDefinition::String(d) => d@,
            TypeDefinition::StrongReference(d) => d@,
            TypeDefinition::VariableArray(d) => d@,
            TypeDefinition::WeakReference(d) => d@,
        }
    }
}

impl View for Definition {
    type V = DefinitionView;

    open spec fn view(&self) -> DefinitionView {
        match self {
            Definition::Class(d) => DefinitionView::Class(d@),
            Definition::Property(d) => DefinitionView::Property(d@),
            Definition::Type(d) => DefinitionView::Type(d@),
        }
    }
}

/// The common fields of a type definition.
pub open spec fn type_common(t: TypeDefView) -> CommonView {
    match t {
        TypeDefView::Character(c) => c,
        TypeDefView::Enumeration(c, _, _) => c,
        TypeDefView::ExtendibleEnumeration(c, _) => c,
        TypeDefView::FixedArray(c, _, _) => c,
        TypeDefView::Float(c, _) => c,
        TypeDefView::Indirect(c) => c,
        TypeDefView::Integer(c, _, _) => c,
        TypeDefView::LensSerialFloat(c) => c,
        TypeDefView::Opaque(c) => c,
        TypeDefView::Record(c, _) => c,
        TypeDefView::Rename(c, _) => c,
        TypeDefView::SetType(c, _) => c,
        TypeDefView::Stream(c) => c,
        TypeDefView::String(c, _) => c,
        TypeDefView::StrongReference(c, _) => c,
        TypeDefView::VariableArray(c, _) => c,
        TypeDefView::WeakReference(c, _, _) => c,
    }
}

/// The common fields of a definition.
pub open spec fn def_common(d: DefinitionView) -> CommonView {
    match d {
        DefinitionView::Class(c) => c.common,
        DefinitionView::Property(p) => p.common,
        DefinitionView::Type(t) => type_common(t),
    }
}

impl Definition {
    pub fn identification(&self) -> (r: &Auid)
        ensures
            *r == def_common(self@).id,
    {
        match self {
            Definition::Class(d) => &d.identification,
            Definition::Property(d) => &d.identification,
            Definition::Type(td) => td.identification(),
        }
    }

    pub fn symbol(&self) -> (r: &str)
        ensures
            r@ == def_common(self@).symbol,
    {
        match self {
            Definition::Class(d) => d.symbol.as_str(),
            Definition::Property(d) => d.symbol.as_str(),
            Definition::Type(td) => td.symbol(),
        }
    }
}

impl TypeDefinition {
    pub fn identification(&self) -> (r: &Auid)
        ensures
            *r == type_common(self@).id,
    {
        match self {
            TypeDefinition::Character(d) => &d.identification,
            TypeDefinition::Enumeration(d) => &d.identification,
            TypeDefinition::ExtendibleEnumeration(d) => &d.identification,
            TypeDefinition::FixedArray(d) => &d.identification,
            TypeDefinition::Float(d) => &d.identification,
            TypeDefinition::Indirect(d) => &d.identification,
            TypeDefinition::Integer(d) => &d.identification,
            TypeDefinition::LensSerialFloat(d) => &d.identification,
            TypeDefinition::Opaque(d) => &d.identification,
            TypeDefinition::Record(d) => &d.identification,
            TypeDefinition::Rename(d) => &d.identification,
            TypeDefinition::SetType(d) => &d.identification,
            TypeDefinition::Stream(d) => &d.identification,
            TypeDefinition::String(d) => &d.identification,
            TypeDefinition::StrongReference(d) => &d.identification,
            TypeDefinition::VariableArray(d) => &d.identification,
            TypeDefinition::WeakReference(d) => &d.identification,
        }
    }

    pub fn symbol(&self) -> (r: &str)
        ensures
            r@ == type_common(self@).symbol,
    {
        match self {
            TypeDefinition::Character(d) => d.symbol.as_str(),
            TypeDefinition::Enumeration(d) => d.symbol.as_str(),
            TypeDefinition::ExtendibleEnumeration(d) => d.symbol.as_str(),
            TypeDefinition::FixedArray(d) => d.symbol.as_str(),
            TypeDefinition::Float(d) => d.symbol.as_str(),
            TypeDefinition::Indirect(d) => d.symbol.as_str(),
            TypeDefinition::Integer(d) => d.symbol.as_str(),
            TypeDefinition::LensSerialFloat(d) => d.symbol.as_str(),
            TypeDefinition::Opaque(d) => d.symbol.as_str(),
            TypeDefinition::Record(d) => d.symbol.as_str(),
            TypeDefinition::Rename(d) => d.symbol.as_str(),
            TypeDefinition::SetType(d) => d.symbol.as_str(),
            TypeDefinition::Stream(d) => d.symbol.as_str(),
            TypeDefinition::String(d) => d.symbol.as_str(),
            TypeDefinition::StrongReference(d) => d.symbol.as_str(),
            TypeDefinition::VariableArray(d) => d.symbol.as_str(),
            TypeDefinition::WeakReference(d) => d.symbol.as_str(),
        }
    }

    pub fn namespace(&self) -> (r: &str)
        ensures
            r@ == type_common(self@).namespace,
    {
        match self {
            TypeDefinition::Character(d) => d.namespace.as_str(),
            TypeDefinition::Enumeration(d) => d.namespace.as_str(),
            TypeDefinition::ExtendibleEnumeration(d) => d.namespace.as_str(),
            TypeDefinition::FixedArray(d) => d.namespace.as_str(),
            TypeDefinition::Float(d) => d.namespace.as_str(),
            TypeDefinition::Indirect(d) => d.namespace.as_str(),
            TypeDefinition::Integer(d) => d.namespace.as_str(),
            TypeDefinition::LensSerialFloat(d) => d.namespace.as_str(),
            TypeDefinition::Opaque(d) => d.namespace.as_str(),
            TypeDefinition::Record(d) => d.namespace.as_str(),
            TypeDefinition::Rename(d) => d.namespace.as_str(),
            TypeDefinition::SetType(d) => d.namespace.as_str(),
            TypeDefinition::Stream(d) => d.namespace.as_str(),
            TypeDefinition::String(d) => d.namespace.as_str(),
            TypeDefinition::StrongReference(d) => d.namespace.as_str(),
            TypeDefinition::VariableArray(d) => d.namespace.as_str(),
            TypeDefinition::WeakReference(d) => d.namespace.as_str(),
        }
    }

}

impl PropertyDefinition {
    /// A copy of this definition.
    pub fn clone_def(&self) -> (r: PropertyDefinition)
        ensures
            r@ == self@,
    {
        PropertyDefinition {
            identification: self.identification,
            symbol: self.symbol.clone(),
            namespace: self.namespace.clone(),
            member_of: self.member_of,
            property_type: self.property_type,
            is_optional: self.is_optional,
            is_unique_identifier: self.is_unique_identifier,
            local_identification: self.local_identification,
        }
    }
}


fn copy_elements(v: &Vec<EnumerationElement>) -> (r: Vec<EnumerationElement>)
    ensures
        enum_elements_view(r@) == enum_elements_view(v@),
{
    let mut out: Vec<EnumerationElement> = Vec::new();
    let mut i: usize = 0;
    while i < v.len()
        invariant
            i <= v@.len(),
            out@.len() == i,
            forall|j: int| 0 <= j < i ==> #[trigger] out@[j].name@ == v@[j].name@ && out@[j].value == v@[j].value,
        decreases v.len() - i,
    {
        out.push(EnumerationElement { name: v[i].name.clone(), value: v[i].value });
        i = i + 1;
    }
    proof {
        assert(enum_elements_view(out@) =~= enum_elements_view(v@));
    }
    out
}

fn copy_members(v: &Vec<RecordMember>) -> (r: Vec<RecordMember>)
    ensures
        record_members_view(r@) == record_members_view(v@),
{
    let mut out: Vec<RecordMember> = Vec::new();
    let mut i: usize = 0;
    while i < v.len()
        invariant
            i <= v@.len(),
            out@.len() == i,
            forall|j: int| 0 <= j < i ==> #[trigger] out@[j].name@ == v@[j].name@ && out@[j].field_type
                == v@[j].field_type,
        decreases v.len() - i,
    {
        out.push(RecordMember { name: v[i].name.clone(), field_type: v[i].field_type });
        i = i + 1;
    }
    proof {
        assert(record_members_view(out@) =~= record_members_view(v@));
    }
    out
}

fn copy_auid_list(v: &Vec<Auid>) -> (r: Vec<Auid>)
    ensures
        r@ == v@,
{
    let mut out: Vec<Auid> = Vec::new();
    let mut i: usize = 0;
    while i < v.len()
        invariant
            i <= v@.len(),
            out@ == v@.take(i as int),
        decreases v.len() - i,
    {
        out.push(v[i]);
        proof {
            assert(v@.take(i as int + 1) =~= v@.take(i as int).push(v@[i as int]));
        }
        i = i + 1;
    }
    proof {
        assert(v@.take(i as int) =~= v@);
    }
    out
}

impl TypeDefinition {
    /// A copy of this type definition.
    pub fn clone_def(&self) -> (r: TypeDefinition)
        ensures
            r@ == self@,
    {
        match self {
            TypeDefinition::Character(d) => TypeDefinition::Character(CharacterTypeDef { identification: d.identification, symbol: d.symbol.clone(), namespace: d.namespace.clone() }),
            TypeDefinition::Enumeration(d) => TypeDefinition::Enumeration(EnumerationTypeDef { identification: d.identification, symbol: d.symbol.clone(), namespace: d.namespace.clone(), element_type: d.element_type, elements: copy_elements(&d.elements) }),
            TypeDefinition::ExtendibleEnumeration(d) => TypeDefinition::ExtendibleEnumeration(ExtEnumTypeDef { identification: d.identification, symbol: d.symbol.clone(), namespace: d.namespace.clone(), elements: copy_elements(&d.elements) }),
            TypeDefinition::FixedArray(d) => TypeDefinition::FixedArray(FixedArrayTypeDef { identification: d.identification, symbol: d.symbol.clone(), namespace: d.namespace.clone(), element_type: d.element_type, element_count: d.element_count }),
            TypeDefinition::Float(d) => TypeDefinition::Float(FloatTypeDef { identification: d.identification, symbol: d.symbol.clone(), namespace: d.namespace.clone(), size: d.size }),
            TypeDefinition::Indirect(d) => TypeDefinition::Indirect(IndirectTypeDef { identification: d.identification, symbol: d.symbol.clone(), namespace: d.namespace.clone() }),
            TypeDefinition::Integer(d) => TypeDefinition::Integer(IntegerTypeDef { identification: d.identification, symbol: d.symbol.clone(), namespace: d.namespace.clone(), size: d.size, is_signed: d.is_signed }),
            TypeDefinition::LensSerialFloat(d) => TypeDefinition::LensSerialFloat(LensSerialFloatTypeDef { identification: d.identification, symbol: d.symbol.clone(), namespace: d.namespace.clone() }),
            TypeDefinition::Opaque(d) => TypeDefinition::Opaque(OpaqueTypeDef { identification: d.identification, symbol: d.symbol.clone(), namespace: d.namespace.clone() }),
            TypeDefinition::Record(d) => TypeDefinition::Record(RecordTypeDef { identification: d.identification, symbol: d.symbol.clone(), namespace: d.namespace.clone(), members: copy_members(&d.members) }),
            TypeDefinition::Rename(d) => TypeDefinition::Rename(RenameTypeDef { identification: d.identification, symbol: d.symbol.clone(), namespace: d.namespace.clone(), renamed_type: d.renamed_type }),
            TypeDefinition::SetType(d) => TypeDefinition::SetType(SetTypeDef { identification: d.identification, symbol: d.symbol.clone(), namespace: d.namespace.clone(), element_type: d.element_type }),
            TypeDefinition::Stream(d) => TypeDefinition::Stream(StreamTypeDef { identification: d.identification, symbol: d.symbol.clone(), namespace: d.namespace.clone() }),
            TypeDefinition::String(d) => TypeDefinition::String(StringTypeDef { identification: d.identification, symbol: d.symbol.clone(), namespace: d.namespace.clone(), element_type: d.element_type }),
            TypeDefinition::StrongReference(d) => TypeDefinition::StrongReference(StrongReferenceTypeDef { identification: d.identification, symbol: d.symbol.clone(), namespace: d.namespace.clone(), referenced_type: d.referenced_type }),
            TypeDefinition::VariableArray(d) => TypeDefinition::VariableArray(VariableArrayTypeDef { identification: d.identification, symbol: d.symbol.clone(), namespace: d.namespace.clone(), element_type: d.element_type }),
            TypeDefinition::WeakReference(d) => TypeDefinition::WeakReference(WeakReferenceTypeDef { identification: d.identification, symbol: d.symbol.clone(), namespace: d.namespace.clone(), referenced_type: d.referenced_type, target_set: copy_auid_list(&d.target_set) }),
        }
    }
}

impl Definition {
    /// A copy of this definition.
    pub fn clone_def(&self) -> (r: Definition)
        ensures
            r@ == self@,
    {
        match self {
            Definition::Class(c) => Definition::Class(ClassDefinition {
                identification: c.identification,
                symbol: c.symbol.clone(),
                namespace: c.namespace.clone(),
                parent_class: c.parent_class,
                is_concrete: c.is_concrete,
            }),
            Definition::Property(p) => Definition::Property(p.clone_def()),
            Definition::Type(t) => Definition::Type(t.clone_def()),
        }
    }
}

} // verus!
