//! Derivation of the marker schema of a tagged-union type: one marker per
//! variant, under a namespace named after the type, and the text that the
//! derived code is made of.
use crate::naming::{get_mod_ident, namespace_of, texts};
use vstd::prelude::*;

verus! {

/// The shape of a variant's fields. It takes no part in marker selection.
#[derive(Clone, Copy, PartialEq, Eq, Debug)]
pub enum FieldShape {
    /// No fields: `Variant`.
    Unit,
    /// Positional fields: `Variant(..)`.
    Tuple,
    /// Named fields: `Variant { .. }`.
    Named,
}

/// One variant of a tagged-union type definition.
pub struct VariantDef {
    pub name: String,
    pub shape: FieldShape,
}

/// A variant as a mathematical value.
pub struct VariantSpec {
    pub name: Seq<char>,
    pub shape: FieldShape,
}

impl View for VariantDef {
    type V = VariantSpec;

    open spec fn view(&self) -> VariantSpec {
        VariantSpec { name: self.name@, shape: self.shape }
    }
}

/// The variants of a sequence of definitions, as values.
pub open spec fn variant_specs(v: Seq<VariantDef>) -> Seq<VariantSpec> {
    v.map_values(|d: VariantDef| d@)
}

/// What kind of type a definition declares.
pub enum TypeBody {
    /// A tagged union with these variants, in declaration order.
    Enum(Vec<VariantDef>),
    /// A record type.
    Struct,
    /// An untagged union.
    Union,
}

/// A type definition handed to the deriver.
pub struct TypeDef {
    pub name: String,
    pub body: TypeBody,
}

/// Why no schema can be derived for a type definition.
#[derive(Clone, Copy, PartialEq, Eq, Debug)]
pub enum GenerationError {
    /// The type is a record: it has no variants to mark.
    StructType,
    /// The type is an untagged union: it has no discriminant to read.
    UnionType,
    /// The tagged union declares no variant.
    NoVariants,
    /// The namespace derived from the type's name is already taken.
    NamespaceCollision,
}

impl GenerationError {
    /// The message reported for this error.
    pub fn message(&self) -> (r: &'static str)
        ensures
            *self == GenerationError::StructType ==> r@ == "Cannot derive `EnumTrait` on struct type"@,
            *self == GenerationError::UnionType ==> r@ == "Cannot derive `EnumTrait` on union type"@,
            *self == GenerationError::NoVariants ==> r@
                == "Cannot derive `EnumTrait` on an enum without variants"@,
            *self == GenerationError::NamespaceCollision ==> r@
                == "The marker namespace of this enum is already taken"@,
    {
        match self {
            GenerationError::StructType => "Cannot derive `EnumTrait` on struct type",
            GenerationError::UnionType => "Cannot derive `EnumTrait` on union type",
            GenerationError::NoVariants => "Cannot derive `EnumTrait` on an enum without variants",
            GenerationError::NamespaceCollision => "The marker namespace of this enum is already taken",
        }
    }
}

/// The markers of one tagged-union type: the namespace that holds them, and
/// one marker per variant, named as the variant, in declaration order. The
/// marker of variant `i` is marker `i`.
pub struct Schema {
    union_name: String,
    namespace: String,
    variants: Vec<VariantDef>,
}

/// A schema as a mathematical value.
pub struct SchemaView {
    pub union_name: Seq<char>,
    pub namespace: Seq<char>,
    pub variants: Seq<VariantSpec>,
}

impl View for Schema {
    type V = SchemaView;

    closed spec fn view(&self) -> SchemaView {
        SchemaView {
            union_name: self.union_name@,
            namespace: self.namespace@,
            variants: variant_specs(self.variants@),
        }
    }
}

/// The schema derived from a tagged union named `name` with `variants`, whose
/// markers live in `namespace`.
pub open spec fn schema_in(name: Seq<char>, namespace: Seq<char>, variants: Seq<VariantSpec>) -> SchemaView {
    SchemaView { union_name: name, namespace, variants }
}

/// The schema derived from a tagged union named `name` with `variants`.
pub open spec fn schema_of(name: Seq<char>, variants: Seq<VariantSpec>) -> SchemaView {
    schema_in(name, namespace_of(name), variants)
}

/// Derives the marker schema of a type definition, whose markers are to live
/// in `namespace`. `taken` lists the names already in use where the namespace
/// would be declared.
///
/// A record, an untagged union and a tagged union without variants have
/// nothing to mark; a namespace that is already taken is refused rather than
/// shadowed.
pub fn derive_schema_in(def: TypeDef, namespace: String, taken: &Vec<String>) -> (r: Result<
    Schema,
    GenerationError,
>)
    ensures
        def.body is Struct ==> r == Err::<Schema, GenerationError>(GenerationError::StructType),
        def.body is Union ==> r == Err::<Schema, GenerationError>(GenerationError::UnionType),
        def.body is Enum ==> {
            let vs = variant_specs(def.body->Enum_0@);
            if vs.len() == 0 {
                r == Err::<Schema, GenerationError>(GenerationError::NoVariants)
            } else if texts(taken@).contains(namespace@) {
                r == Err::<Schema, GenerationError>(GenerationError::NamespaceCollision)
            } else {
                r is Ok && r->Ok_0@ == schema_in(def.name@, namespace@, vs)
            }
        },
{
    let TypeDef { name, body } = def;
    let variants = match body {
        TypeBody::Struct => {
            return Err(GenerationError::StructType);
        },
        TypeBody::Union => {
            return Err(GenerationError::UnionType);
        },
        TypeBody::Enum(vs) => vs,
    };
    if variants.len() == 0 {
        return Err(GenerationError::NoVariants);
    }
    assert(variant_specs(variants@).len() > 0);
    let mut i: usize = 0;
    while i < taken.len()
        invariant
            i <= taken@.len(),
            def.body is Enum,
            variants@ == def.body->Enum_0@,
            variant_specs(variants@).len() > 0,
            name@ == def.name@,
            forall|j: int| 0 <= j < i ==> texts(taken@)[j] != namespace@,
        decreases taken@.len() - i,
    {
        if taken[i] == namespace {
            assert(texts(taken@)[i as int] == namespace@);
            assert(texts(taken@).contains(namespace@));
            return Err(GenerationError::NamespaceCollision);
        }
        i = i + 1;
    }
    assert(!texts(taken@).contains(namespace@));
    Ok(Schema { union_name: name, namespace, variants })
}

/// Derives the marker schema of a type definition, with its markers in the
/// namespace named after the type (see [`get_mod_ident`]). `taken` lists the
/// names already in use where the namespace would be declared.
pub fn derive_enum_component(def: TypeDef, taken: &Vec<String>) -> (r: Result<
    Schema,
    GenerationError,
>)
    ensures
        def.body is Struct ==> r == Err::<Schema, GenerationError>(GenerationError::StructType),
        def.body is Union ==> r == Err::<Schema, GenerationError>(GenerationError::UnionType),
        def.body is Enum ==> {
            let vs = variant_specs(def.body->Enum_0@);
            if vs.len() == 0 {
                r == Err::<Schema, GenerationError>(GenerationError::NoVariants)
            } else if texts(taken@).contains(namespace_of(def.name@)) {
                r == Err::<Schema, GenerationError>(GenerationError::NamespaceCollision)
            } else {
                r is Ok && r->Ok_0@ == schema_of(def.name@, vs)
            }
        },
{
    let namespace = get_mod_ident(def.name.as_str());
    derive_schema_in(def, namespace, taken)
}

/// How the derived code matches a variant, whatever its fields hold.
pub open spec fn fields_pattern(shape: FieldShape) -> Seq<char> {
    match shape {
        FieldShape::Unit => ""@,
        FieldShape::Tuple => "(..)"@,
        FieldShape::Named => " { .. }"@,
    }
}

/// The pattern that matches every value of variant `i`.
pub open spec fn arm_pattern_text(s: SchemaView, i: int) -> Seq<char> {
    s.union_name + "::"@ + s.variants[i].name + fields_pattern(s.variants[i].shape)
}

/// The path of the marker of variant `i`, from the scope of the union.
pub open spec fn marker_path_text(s: SchemaView, i: int) -> Seq<char> {
    s.namespace + "::"@ + s.variants[i].name
}

/// The documentation of the marker of variant `i`.
pub open spec fn marker_doc_text(s: SchemaView, i: int) -> Seq<char> {
    "Marker component for [`"@ + s.union_name + "::"@ + s.variants[i].name + "`][super::"@
        + s.union_name + "::"@ + s.variants[i].name + "]"@
}

/// The documentation of the namespace.
pub open spec fn namespace_doc_text(s: SchemaView) -> Seq<char> {
    "Marker components, one for each variant of [`"@ + s.union_name + "`][super::"@
        + s.union_name + "]"@
}

/// The first variant named `name`, if any.
pub open spec fn lookup_spec(s: SchemaView, name: Seq<char>) -> Option<int> {
    if exists|i: int| 0 <= i < s.variants.len() && s.variants[i].name == name {
        let i = choose|i: int|
            0 <= i < s.variants.len() && s.variants[i].name == name && forall|j: int|
                0 <= j < i ==> s.variants[j].name != name;
        Some(i)
    } else {
        None
    }
}

impl Schema {
    /// The name of the tagged union.
    pub fn union_name(&self) -> (r: &String)
        ensures
            r@ == self@.union_name,
    {
        &self.union_name
    }

    /// The namespace that holds the markers.
    pub fn namespace(&self) -> (r: &String)
        ensures
            r@ == self@.namespace,
    {
        &self.namespace
    }

    /// The number of variants, and so of markers.
    pub fn variant_count(&self) -> (r: usize)
        ensures
            r == self@.variants.len(),
    {
        self.variants.len()
    }

    /// The name of the marker of variant `i`, which is the variant's name.
    pub fn marker_name(&self, i: usize) -> (r: &String)
        requires
            i < self@.variants.len(),
        ensures
            r@ == self@.variants[i as int].name,
    {
        &self.variants[i].name
    }

    /// The field shape of variant `i`.
    pub fn shape(&self, i: usize) -> (r: FieldShape)
        requires
            i < self@.variants.len(),
        ensures
            r == self@.variants[i as int].shape,
    {
        self.variants[i].shape
    }

    /// The marker for the variant named `name`: the index of the first
    /// variant of that name, or `None` where the union has no such variant.
    pub fn marker_index(&self, name: &String) -> (r: Option<usize>)
        ensures
            r matches Some(i) ==> lookup_spec(self@, name@) == Some(i as int),
            r is None ==> lookup_spec(self@, name@) is None,
    {
        let mut i: usize = 0;
        while i < self.variants.len()
            invariant
                i <= self@.variants.len(),
                forall|j: int| 0 <= j < i ==> self@.variants[j].name != name@,
            decreases self@.variants.len() - i,
        {
            assert(self@.variants[i as int] == self.variants@[i as int]@);
            if self.variants[i].name == *name {
                assert(self@.variants[i as int].name == name@);
                let ghost k = choose|k: int|
                    0 <= k < self@.variants.len() && self@.variants[k].name == name@ && forall|j: int|
                        0 <= j < k ==> self@.variants[j].name != name@;
                assert(k == i) by {
                    if k < i {
                    } else if k > i {
                        assert(self@.variants[i as int].name != name@);
                    }
                }
                return Some(i);
            }
            i = i + 1;
        }
        None
    }

    /// The pattern with which the derived code matches variant `i`: the
    /// variant's path, then a pattern that ignores its fields.
    pub fn arm_pattern(&self, i: usize) -> (r: String)
        requires
            i < self@.variants.len(),
        ensures
            r@ == arm_pattern_text(self@, i as int),
    {
        let mut r = self.union_name.clone();
        r.append("::");
        r.append(self.variants[i].name.as_str());
        proof {
            reveal_strlit("");
        }
        match self.variants[i].shape {
            FieldShape::Unit => {},
            FieldShape::Tuple => r.append("(..)"),
            FieldShape::Named => r.append(" { .. }"),
        }
        proof {
            assert(r@ =~= arm_pattern_text(self@, i as int));
        }
        r
    }

    /// The path of the marker of variant `i`, from the scope of the union.
    pub fn marker_path(&self, i: usize) -> (r: String)
        requires
            i < self@.variants.len(),
        ensures
            r@ == marker_path_text(self@, i as int),
    {
        let mut r = self.namespace.clone();
        r.append("::");
        r.append(self.variants[i].name.as_str());
        r
    }

    /// The documentation of the marker of variant `i`.
    pub fn marker_doc(&self, i: usize) -> (r: String)
        requires
            i < self@.variants.len(),
        ensures
            r@ == marker_doc_text(self@, i as int),
    {
        let t = self.union_name.as_str();
        let v = self.variants[i].name.as_str();
        let mut r = String::from_str("Marker component for [`");
        r.append(t);
        r.append("::");
        r.append(v);
        r.append("`][super::");
        r.append(t);
        r.append("::");
        r.append(v);
        r.append("]");
        r
    }

    /// The documentation of the namespace.
    pub fn namespace_doc(&self) -> (r: String)
        ensures
            r@ == namespace_doc_text(self@),
    {
        let t = self.union_name.as_str();
        let mut r = String::from_str("Marker components, one for each variant of [`");
        r.append(t);
        r.append("`][super::");
        r.append(t);
        r.append("]");
        r
    }
}

/// Field shapes take no part in markers: two definitions of a union whose
/// variants bear the same names, in the same order, whatever their fields,
/// derive the same namespace, the same markers with the same paths and
/// documentation, and resolve every name to the same marker.
pub proof fn lemma_field_shapes_irrelevant(
    name: Seq<char>,
    a: Seq<VariantSpec>,
    b: Seq<VariantSpec>,
)
    requires
        a.len() == b.len(),
        forall|i: int| 0 <= i < a.len() ==> (#[trigger] a[i]).name == b[i].name,
    ensures
        schema_of(name, a).namespace == schema_of(name, b).namespace,
        forall|i: int|
            0 <= i < a.len() ==> marker_path_text(schema_of(name, a), i) == marker_path_text(
                schema_of(name, b),
                i,
            ) && marker_doc_text(schema_of(name, a), i) == marker_doc_text(schema_of(name, b), i),
        forall|n: Seq<char>|
            #[trigger] lookup_spec(schema_of(name, a), n) == lookup_spec(schema_of(name, b), n),
{
    let sa = schema_of(name, a);
    let sb = schema_of(name, b);
    assert forall|i: int|
        0 <= i < a.len() implies marker_path_text(sa, i) == marker_path_text(sb, i)
        && marker_doc_text(sa, i) == marker_doc_text(sb, i) by {
        assert(a[i].name == b[i].name);
    }
    assert forall|n: Seq<char>| #[trigger] lookup_spec(sa, n) == lookup_spec(sb, n) by {
        lemma_lookup_same(sa, sb, n);
    }
}

/// Two schemas whose variants bear the same names resolve `n` alike.
proof fn lemma_lookup_same(sa: SchemaView, sb: SchemaView, n: Seq<char>)
    requires
        sa.variants.len() == sb.variants.len(),
        forall|i: int| 0 <= i < sa.variants.len() ==> (#[trigger] sa.variants[i]).name == sb.variants[i].name,
    ensures
        lookup_spec(sa, n) == lookup_spec(sb, n),
{
    if exists|i: int| 0 <= i < sa.variants.len() && sa.variants[i].name == n {
        let i = choose|i: int| 0 <= i < sa.variants.len() && sa.variants[i].name == n;
        assert(sb.variants[i].name == n);
        lemma_first_exists(sa, n);
        lemma_first_exists(sb, n);
        let ia = choose|i: int|
            0 <= i < sa.variants.len() && sa.variants[i].name == n && forall|j: int|
                0 <= j < i ==> sa.variants[j].name != n;
        let ib = choose|i: int|
            0 <= i < sb.variants.len() && sb.variants[i].name == n && forall|j: int|
                0 <= j < i ==> sb.variants[j].name != n;
        if ia < ib {
            assert(sa.variants[ia].name == sb.variants[ia].name);
        } else if ib < ia {
            assert(sa.variants[ib].name == sb.variants[ib].name);
        }
    } else {
        assert forall|i: int| 0 <= i < sb.variants.len() implies sb.variants[i].name != n by {
            assert(sa.variants[i].name == sb.variants[i].name);
        }
    }
}

/// Where variant `k` is named `n`, a first variant is.
proof fn lemma_first_below(s: SchemaView, n: Seq<char>, k: int)
    requires
        0 <= k < s.variants.len(),
        s.variants[k].name == n,
    ensures
        exists|i: int|
            0 <= i < s.variants.len() && s.variants[i].name == n && forall|j: int|
                0 <= j < i ==> s.variants[j].name != n,
    decreases k,
{
    if exists|j: int| 0 <= j < k && s.variants[j].name == n {
        let j = choose|j: int| 0 <= j < k && s.variants[j].name == n;
        lemma_first_below(s, n, j);
    } else {
        assert(forall|j: int| 0 <= j < k ==> s.variants[j].name != n);
    }
}

/// Where some variant is named `n`, a first one is.
proof fn lemma_first_exists(s: SchemaView, n: Seq<char>)
    requires
        exists|i: int| 0 <= i < s.variants.len() && s.variants[i].name == n,
    ensures
        exists|i: int|
            0 <= i < s.variants.len() && s.variants[i].name == n && forall|j: int|
                0 <= j < i ==> s.variants[j].name != n,
{
    let k = choose|i: int| 0 <= i < s.variants.len() && s.variants[i].name == n;
    lemma_first_below(s, n, k);
}

} // verus!
