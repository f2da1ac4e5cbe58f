//! The attribute schema model: declared value types, example values, the
//! catalog of fully-qualified attribute names, and the usage aggregator that
//! folds observed column names back into the matching attributes.

use vstd::prelude::*;
use crate::paths::{
    lex_lt, last_dot, lemma_lex_neq, lemma_strs_sorted_pairwise, seg_views, str_eq, str_ins,
    str_lt, strs_sorted, find_last_dot, insert_sorted_str, lemma_str_ins_sorted,
    lemma_strs_pos_from_scan,
};

verus! {

broadcast use
    vstd::std_specs::vec::group_vec_axioms,
    vstd::seq::group_seq_axioms,
    vstd::string::group_string_axioms,
;

/// The value of one member of an enumeration type: a name or a number.
#[derive(Clone)]
pub enum MemberValue {
    StringType(String),
    IntegerType(i64),
}

/// One member of an enumeration type.
#[derive(Clone)]
pub struct Member {
    pub value: MemberValue,
}

/// A closed or open enumeration of named members.
#[derive(Clone)]
pub struct ComplexType {
    pub allow_custom_values: bool,
    pub members: Vec<Member>,
}

/// The sixteen primitive value kinds: four base kinds, each in scalar or
/// array form, each plain or template-parametrized. A template-parametrized
/// attribute's name is a prefix; concrete uses append a key after it.
#[derive(Clone, Copy, Debug, PartialEq, Eq, Structural)]
pub enum PrimitiveType {
    Str,
    Int,
    Double,
    Boolean,
    ArrayOfString,
    ArrayOfInt,
    ArrayOfDouble,
    ArrayOfBoolean,
    TemplateOfString,
    TemplateOfInt,
    TemplateOfDouble,
    TemplateOfBoolean,
    TemplateOfArrayOfString,
    TemplateOfArrayOfInt,
    TemplateOfArrayOfDouble,
    TemplateOfArrayOfBoolean,
}

/// The declared type of an attribute: a bare primitive label, or an
/// enumeration given by its members.
#[derive(Clone)]
pub enum Type {
    Simple(PrimitiveType),
    Complex(ComplexType),
}

/// An example value: a scalar or an array of one of the four base kinds.
/// Floating-point values are carried in their textual form.
#[derive(Clone)]
pub enum ValueType {
    Str(String),
    Bool(bool),
    Integer(i64),
    Float(String),
    ArrayString(Vec<String>),
    ArrayBool(Vec<bool>),
    ArrayInteger(Vec<i64>),
    ArrayFloat(Vec<String>),
}

/// Example values of an attribute: one value, or a list of values.
#[derive(Clone)]
pub enum Examples {
    ArrayType(Vec<ValueType>),
    SimpleType(ValueType),
}

/// An attribute definition, as it stands in the catalog.
#[derive(Clone)]
pub struct Attribute {
    pub id: Option<String>,
    pub declared_type: Option<Type>,
    pub brief: Option<String>,
    pub note: Option<String>,
    pub examples: Option<Examples>,
    pub deprecated: Option<String>,
    pub used_by: Option<Vec<String>>,
    pub template_suffixes: Option<Vec<(String, Vec<String>)>>,
    pub defined_in: Option<String>,
}

/// The mathematical shape of an attribute: every owned string as a character
/// sequence, the usage fields as ordered sequences.
#[verifier::ext_equal]
pub ghost struct AttributeModel {
    pub id: Option<Seq<char>>,
    pub declared_type: Option<Type>,
    pub brief: Option<Seq<char>>,
    pub note: Option<Seq<char>>,
    pub examples: Option<Examples>,
    pub deprecated: Option<Seq<char>>,
    pub used_by: Option<Seq<Seq<char>>>,
    pub template_suffixes: Option<Seq<(Seq<char>, Seq<Seq<char>>)>>,
    pub defined_in: Option<Seq<char>>,
}

/// The view of an optional owned string.
pub open spec fn opt_view(s: Option<String>) -> Option<Seq<char>> {
    match s {
        Some(t) => Some(t@),
        None => None,
    }
}

/// The views of a sequence of pairs of a name and a list of names.
pub open spec fn pairs_views(v: Seq<(String, Vec<String>)>) -> Seq<(Seq<char>, Seq<Seq<char>>)> {
    v.map_values(|p: (String, Vec<String>)| (p.0@, seg_views(p.1@)))
}

impl View for Attribute {
    type V = AttributeModel;

    open spec fn view(&self) -> AttributeModel {
        AttributeModel {
            id: opt_view(self.id),
            declared_type: self.declared_type,
            brief: opt_view(self.brief),
            note: opt_view(self.note),
            examples: self.examples,
            deprecated: opt_view(self.deprecated),
            used_by: match self.used_by {
                Some(u) => Some(seg_views(u@)),
                None => None,
            },
            template_suffixes: match self.template_suffixes {
                Some(ts) => Some(pairs_views(ts@)),
                None => None,
            },
            defined_in: opt_view(self.defined_in),
        }
    }
}

/// The fixed spelling of each primitive type label.
pub open spec fn spec_primitive_label(p: PrimitiveType) -> Seq<char> {
    match p {
        PrimitiveType::Str => "string"@,
        PrimitiveType::Int => "int"@,
        PrimitiveType::Double => "double"@,
        PrimitiveType::Boolean => "boolean"@,
        PrimitiveType::ArrayOfString => "string[]"@,
        PrimitiveType::ArrayOfInt => "int[]"@,
        PrimitiveType::ArrayOfDouble => "double[]"@,
        PrimitiveType::ArrayOfBoolean => "boolean[]"@,
        PrimitiveType::TemplateOfString => "template[string]"@,
        PrimitiveType::TemplateOfInt => "template[int]"@,
        PrimitiveType::TemplateOfDouble => "template[double]"@,
        PrimitiveType::TemplateOfBoolean => "template[boolean]"@,
        PrimitiveType::TemplateOfArrayOfString => "template[string[]]"@,
        PrimitiveType::TemplateOfArrayOfInt => "template[int[]]"@,
        PrimitiveType::TemplateOfArrayOfDouble => "template[double[]]"@,
        PrimitiveType::TemplateOfArrayOfBoolean => "template[boolean[]]"@,
    }
}

/// The exhaustive label table: which primitive kind a label denotes, if any.
pub open spec fn spec_parse_primitive(s: Seq<char>) -> Option<PrimitiveType> {
    if s == "string"@ {
        Some(PrimitiveType::Str)
    } else if s == "int"@ {
        Some(PrimitiveType::Int)
    } else if s == "double"@ {
        Some(PrimitiveType::Double)
    } else if s == "boolean"@ {
        Some(PrimitiveType::Boolean)
    } else if s == "string[]"@ {
        Some(PrimitiveType::ArrayOfString)
    } else if s == "int[]"@ {
        Some(PrimitiveType::ArrayOfInt)
    } else if s == "double[]"@ {
        Some(PrimitiveType::ArrayOfDouble)
    } else if s == "boolean[]"@ {
        Some(PrimitiveType::ArrayOfBoolean)
    } else if s == "template[string]"@ {
        Some(PrimitiveType::TemplateOfString)
    } else if s == "template[int]"@ {
        Some(PrimitiveType::TemplateOfInt)
    } else if s == "template[double]"@ {
        Some(PrimitiveType::TemplateOfDouble)
    } else if s == "template[boolean]"@ {
        Some(PrimitiveType::TemplateOfBoolean)
    } else if s == "template[string[]]"@ {
        Some(PrimitiveType::TemplateOfArrayOfString)
    } else if s == "template[int[]]"@ {
        Some(PrimitiveType::TemplateOfArrayOfInt)
    } else if s == "template[double[]]"@ {
        Some(PrimitiveType::TemplateOfArrayOfDouble)
    } else if s == "template[boolean[]]"@ {
        Some(PrimitiveType::TemplateOfArrayOfBoolean)
    } else {
        None
    }
}

/// Resolves a primitive type label through the fixed table.
pub fn parse_primitive_label(s: &str) -> (r: Option<PrimitiveType>)
    ensures
        r == spec_parse_primitive(s@),
{
    if str_eq(s, "string") {
        Some(PrimitiveType::Str)
    } else if str_eq(s, "int") {
        Some(PrimitiveType::Int)
    } else if str_eq(s, "double") {
        Some(PrimitiveType::Double)
    } else if str_eq(s, "boolean") {
        Some(PrimitiveType::Boolean)
    } else if str_eq(s, "string[]") {
        Some(PrimitiveType::ArrayOfString)
    } else if str_eq(s, "int[]") {
        Some(PrimitiveType::ArrayOfInt)
    } else if str_eq(s, "double[]") {
        Some(PrimitiveType::ArrayOfDouble)
    } else if str_eq(s, "boolean[]") {
        Some(PrimitiveType::ArrayOfBoolean)
    } else if str_eq(s, "template[string]") {
        Some(PrimitiveType::TemplateOfString)
    } else if str_eq(s, "template[int]") {
        Some(PrimitiveType::TemplateOfInt)
    } else if str_eq(s, "template[double]") {
        Some(PrimitiveType::TemplateOfDouble)
    } else if str_eq(s, "template[boolean]") {
        Some(PrimitiveType::TemplateOfBoolean)
    } else if str_eq(s, "template[string[]]") {
        Some(PrimitiveType::TemplateOfArrayOfString)
    } else if str_eq(s, "template[int[]]") {
        Some(PrimitiveType::TemplateOfArrayOfInt)
    } else if str_eq(s, "template[double[]]") {
        Some(PrimitiveType::TemplateOfArrayOfDouble)
    } else if str_eq(s, "template[boolean[]]") {
        Some(PrimitiveType::TemplateOfArrayOfBoolean)
    } else {
        None
    }
}

/// The label of a primitive type, as it is spelled in a document.
pub fn primitive_label(p: PrimitiveType) -> (r: String)
    ensures
        r@ == spec_primitive_label(p),
{
    match p {
        PrimitiveType::Str => "string".to_owned(),
        PrimitiveType::Int => "int".to_owned(),
        PrimitiveType::Double => "double".to_owned(),
        PrimitiveType::Boolean => "boolean".to_owned(),
        PrimitiveType::ArrayOfString => "string[]".to_owned(),
        PrimitiveType::ArrayOfInt => "int[]".to_owned(),
        PrimitiveType::ArrayOfDouble => "double[]".to_owned(),
        PrimitiveType::ArrayOfBoolean => "boolean[]".to_owned(),
        PrimitiveType::TemplateOfString => "template[string]".to_owned(),
        PrimitiveType::TemplateOfInt => "template[int]".to_owned(),
        PrimitiveType::TemplateOfDouble => "template[double]".to_owned(),
        PrimitiveType::TemplateOfBoolean => "template[boolean]".to_owned(),
        PrimitiveType::TemplateOfArrayOfString => "template[string[]]".to_owned(),
        PrimitiveType::TemplateOfArrayOfInt => "template[int[]]".to_owned(),
        PrimitiveType::TemplateOfArrayOfDouble => "template[double[]]".to_owned(),
        PrimitiveType::TemplateOfArrayOfBoolean => "template[boolean[]]".to_owned(),
    }
}

/// Every primitive kind's label resolves back to that very kind: the table
/// is exhaustive and free of clashes.
pub proof fn lemma_primitive_label_round_trip(p: PrimitiveType)
    ensures
        spec_parse_primitive(spec_primitive_label(p)) == Some(p),
{
    reveal_strlit("string");
    reveal_strlit("int");
    reveal_strlit("double");
    reveal_strlit("boolean");
    reveal_strlit("string[]");
    reveal_strlit("int[]");
    reveal_strlit("double[]");
    reveal_strlit("boolean[]");
    reveal_strlit("template[string]");
    reveal_strlit("template[int]");
    reveal_strlit("template[double]");
    reveal_strlit("template[boolean]");
    reveal_strlit("template[string[]]");
    reveal_strlit("template[int[]]");
    reveal_strlit("template[double[]]");
    reveal_strlit("template[boolean[]]");
    assert("string"@.len() == 6);
    assert("int"@.len() == 3);
    assert("double"@.len() == 6);
    assert("boolean"@.len() == 7);
    assert("string[]"@.len() == 8);
    assert("int[]"@.len() == 5);
    assert("double[]"@.len() == 8);
    assert("boolean[]"@.len() == 9);
    assert("template[string]"@.len() == 16);
    assert("template[int]"@.len() == 13);
    assert("template[double]"@.len() == 16);
    assert("template[boolean]"@.len() == 17);
    assert("template[string[]]"@.len() == 18);
    assert("template[int[]]"@.len() == 15);
    assert("template[double[]]"@.len() == 18);
    assert("template[boolean[]]"@.len() == 19);
    // labels of equal length are told apart by their first differing character
    assert("double"@[0] != "string"@[0]);
    assert("double"@ != "string"@);
    assert("double[]"@[0] != "string[]"@[0]);
    assert("double[]"@ != "string[]"@);
    assert("template[double]"@[9] != "template[string]"@[9]);
    assert("template[double]"@ != "template[string]"@);
    assert("template[double[]]"@[9] != "template[string[]]"@[9]);
    assert("template[double[]]"@ != "template[string[]]"@);
}

/// Whether a declared type is one of the eight template-parametrized
/// primitive kinds.
pub open spec fn spec_is_template(t: Option<Type>) -> bool {
    match t {
        Some(Type::Simple(p)) => match p {
            PrimitiveType::TemplateOfString => true,
            PrimitiveType::TemplateOfInt => true,
            PrimitiveType::TemplateOfDouble => true,
            PrimitiveType::TemplateOfBoolean => true,
            PrimitiveType::TemplateOfArrayOfString => true,
            PrimitiveType::TemplateOfArrayOfInt => true,
            PrimitiveType::TemplateOfArrayOfDouble => true,
            PrimitiveType::TemplateOfArrayOfBoolean => true,
            _ => false,
        },
        _ => false,
    }
}

impl Attribute {
    /// Whether this attribute's name is a prefix pattern: its declared type
    /// is template-parametrized.
    pub fn is_template_type(&self) -> (r: bool)
        ensures
            r == spec_is_template(self@.declared_type),
    {
        match &self.declared_type {
            Some(Type::Simple(p)) => match p {
                PrimitiveType::TemplateOfString => true,
                PrimitiveType::TemplateOfInt => true,
                PrimitiveType::TemplateOfDouble => true,
                PrimitiveType::TemplateOfBoolean => true,
                PrimitiveType::TemplateOfArrayOfString => true,
                PrimitiveType::TemplateOfArrayOfInt => true,
                PrimitiveType::TemplateOfArrayOfDouble => true,
                PrimitiveType::TemplateOfArrayOfBoolean => true,
                _ => false,
            },
            _ => false,
        }
    }
}

/// The display text of a member's value: the string itself, or the decimal
/// form of the integer.
pub open spec fn spec_member_value_text(v: MemberValue) -> Seq<char> {
    match v {
        MemberValue::StringType(s) => s@,
        MemberValue::IntegerType(i) => crate::text::spec_i64_text(i as int),
    }
}

impl MemberValue {
    /// The display text of this value.
    pub fn text(&self) -> (r: String)
        ensures
            r@ == spec_member_value_text(*self),
    {
        match self {
            MemberValue::StringType(s) => s.clone(),
            MemberValue::IntegerType(i) => crate::text::i64_to_string(*i),
        }
    }
}

/// The member values joined with a comma and a space.
pub open spec fn spec_members_text(ms: Seq<Member>) -> Seq<char>
    decreases ms.len(),
{
    if ms.len() == 0 {
        Seq::empty()
    } else if ms.len() == 1 {
        spec_member_value_text(ms[0].value)
    } else {
        spec_members_text(ms.drop_last()) + ", "@ + spec_member_value_text(ms.last().value)
    }
}

/// The display text of an enumeration: open or closed, then its member
/// values.
pub open spec fn spec_complex_text(c: ComplexType) -> Seq<char> {
    (if c.allow_custom_values {
        "open enum: "@
    } else {
        "enum: "@
    }) + spec_members_text(c.members@)
}

impl ComplexType {
    /// The display text of this enumeration.
    pub fn describe(&self) -> (r: String)
        ensures
            r@ == spec_complex_text(*self),
    {
        let ghost ms = self.members@;
        let mut values = String::new();
        let n = self.members.len();
        let mut i: usize = 0;
        while i < n
            invariant
                0 <= i <= n,
                n == self.members@.len(),
                ms == self.members@,
                values@ == spec_members_text(ms.subrange(0, i as int)),
            decreases n - i,
        {
            if i > 0 {
                proof {
                    reveal_strlit(", ");
                }
                values.append(", ");
            }
            values.append(self.members[i].value.text().as_str());
            proof {
                let pre = ms.subrange(0, i + 1 as int);
                assert(pre.drop_last() =~= ms.subrange(0, i as int));
                assert(pre.last() == ms[i as int]);
                if i == 0 {
                    assert(pre.len() == 1 && pre[0] == ms[0]);
                }
            }
            i += 1;
        }
        let mut r = if self.allow_custom_values {
            "open enum: ".to_owned()
        } else {
            "enum: ".to_owned()
        };
        r.append(values.as_str());
        proof {
            assert(ms.subrange(0, ms.len() as int) =~= ms);
        }
        r
    }
}

/// The display text of a declared type: the primitive's label, or the
/// enumeration's description.
pub open spec fn spec_type_text(t: Type) -> Seq<char> {
    match t {
        Type::Simple(p) => spec_primitive_label(p),
        Type::Complex(c) => spec_complex_text(c),
    }
}

impl Type {
    /// The display text of this type.
    pub fn describe(&self) -> (r: String)
        ensures
            r@ == spec_type_text(*self),
    {
        match self {
            Type::Simple(p) => primitive_label(*p),
            Type::Complex(c) => c.describe(),
        }
    }
}

/// The declared type of an attribute as a document spells it: a bare scalar
/// label, or a structure with enumeration members.
pub enum RawTypeDoc {
    Label(String),
    Structure(ComplexType),
}

/// A declared type label that the fixed table does not know.
#[derive(Debug)]
pub struct TypeParseError {
    pub label: String,
}

impl TypeParseError {
    /// A short description of the failure, naming the label.
    pub fn message(&self) -> (r: String)
        ensures
            r@ == "unrecognized type label: "@ + self.label@,
    {
        let mut r = "unrecognized type label: ".to_owned();
        r.append(self.label.as_str());
        r
    }
}

/// What a document's type field resolves to: a structure is an enumeration,
/// a label is looked up in the fixed table, an unknown label fails.
pub open spec fn spec_resolve_type(doc: RawTypeDoc) -> Option<Type> {
    match doc {
        RawTypeDoc::Label(s) => match spec_parse_primitive(s@) {
            Some(p) => Some(Type::Simple(p)),
            None => None,
        },
        RawTypeDoc::Structure(c) => Some(Type::Complex(c)),
    }
}

/// Resolves a document's declared type: structural shape first (a structure
/// with members is an enumeration), then the scalar label table.
pub fn resolve_type(doc: RawTypeDoc) -> (r: Result<Type, TypeParseError>)
    ensures
        match r {
            Ok(t) => spec_resolve_type(doc) == Some(t),
            Err(e) => spec_resolve_type(doc) is None && (doc matches RawTypeDoc::Label(s)
                && e.label@ == s@),
        },
{
    match doc {
        RawTypeDoc::Structure(c) => Ok(Type::Complex(c)),
        RawTypeDoc::Label(s) => match parse_primitive_label(s.as_str()) {
            Some(p) => Ok(Type::Simple(p)),
            None => Err(TypeParseError { label: s }),
        },
    }
}

/// The keys of a sequence of catalog entries, in order.
pub open spec fn entry_keys(s: Seq<(String, Attribute)>) -> Seq<Seq<char>> {
    s.map_values(|e: (String, Attribute)| e.0@)
}

/// The mapping that a sequence of catalog entries denotes; a later entry of
/// the same key overwrites an earlier one.
pub open spec fn assoc_map(s: Seq<(String, Attribute)>) -> Map<Seq<char>, AttributeModel>
    decreases s.len(),
{
    if s.len() == 0 {
        Map::empty()
    } else {
        assoc_map(s.drop_last()).insert(s.last().0@, s.last().1@)
    }
}

/// The keys of the pairs of a suffix table, in order.
pub open spec fn pair_keys(ts: Seq<(Seq<char>, Seq<Seq<char>>)>) -> Seq<Seq<char>> {
    ts.map_values(|p: (Seq<char>, Seq<Seq<char>>)| p.0)
}

/// A well-formed attribute keeps its usage fields ordered: `used_by` in
/// ascending order without duplicates, the suffix table likewise by suffix,
/// and each suffix's dataset list ordered as well.
pub open spec fn attr_wf(a: AttributeModel) -> bool {
    &&& match a.used_by {
        Some(u) => strs_sorted(u),
        None => true,
    }
    &&& match a.template_suffixes {
        Some(ts) => strs_sorted(pair_keys(ts)) && (forall|i: int|
            0 <= i < ts.len() ==> strs_sorted(#[trigger] ts[i].1)),
        None => true,
    }
}

/// The flat catalog of attribute definitions, keyed by fully-qualified
/// dotted name. Entries are kept in strictly ascending key order, so the
/// mapping has one entry per name and iteration order is deterministic.
pub struct SemanticConventions {
    pub attribute_map: Vec<(String, Attribute)>,
}

impl View for SemanticConventions {
    type V = Map<Seq<char>, AttributeModel>;

    open spec fn view(&self) -> Map<Seq<char>, AttributeModel> {
        assoc_map(self.attribute_map@)
    }
}

impl SemanticConventions {
    /// Keys strictly ascending and every attribute well-formed.
    pub open spec fn wf(self) -> bool {
        &&& strs_sorted(entry_keys(self.attribute_map@))
        &&& forall|i: int|
            0 <= i < self.attribute_map@.len() ==> attr_wf(#[trigger] self.attribute_map@[i].1@)
    }
}

/// What the mapping of a duplicate-free entry sequence holds: exactly the
/// entries, each under its own key.
pub proof fn lemma_assoc_map_facts(s: Seq<(String, Attribute)>)
    requires
        forall|i: int, j: int| 0 <= i < j < s.len() ==> s[i].0@ != s[j].0@,
    ensures
        forall|i: int|
            0 <= i < s.len() ==> assoc_map(s).contains_key(#[trigger] s[i].0@) && assoc_map(
                s,
            )[s[i].0@] == s[i].1@,
        forall|k: Seq<char>|
            #[trigger] assoc_map(s).contains_key(k) ==> exists|i: int|
                0 <= i < s.len() && s[i].0@ == k,
    decreases s.len(),
{
    if s.len() > 0 {
        let s0 = s.drop_last();
        assert(s0 =~= s.subrange(0, s.len() - 1));
        lemma_assoc_map_facts(s0);
        let last = s.last();
        assert forall|i: int|
            0 <= i < s.len() implies assoc_map(s).contains_key(#[trigger] s[i].0@) && assoc_map(
            s,
        )[s[i].0@] == s[i].1@ by {
            if i < s.len() - 1 {
                assert(s0[i] == s[i]);
                assert(s[i].0@ != last.0@);
            }
        }
        assert forall|k: Seq<char>| #[trigger] assoc_map(s).contains_key(k) implies exists|i: int|
            0 <= i < s.len() && s[i].0@ == k by {
            if k != last.0@ {
                assert(assoc_map(s0).contains_key(k));
                let i = choose|i: int| 0 <= i < s0.len() && s0[i].0@ == k;
                assert(s0[i] == s[i]);
                assert(s[i].0@ == k);
            } else {
                assert(s[s.len() - 1].0@ == k);
            }
        }
    }
}

/// Replacing the entry of a key by another entry of the same key denotes a
/// plain mapping update.
pub proof fn lemma_assoc_map_update(s: Seq<(String, Attribute)>, j: int, e: (String, Attribute))
    requires
        forall|i: int, k: int| 0 <= i < k < s.len() ==> s[i].0@ != s[k].0@,
        0 <= j < s.len(),
        e.0@ == s[j].0@,
    ensures
        assoc_map(s.update(j, e)) == assoc_map(s).insert(e.0@, e.1@),
{
    let s2 = s.update(j, e);
    assert forall|i: int, k: int| 0 <= i < k < s2.len() implies s2[i].0@ != s2[k].0@ by {
        assert(s2[i].0@ == s[i].0@ && s2[k].0@ == s[k].0@);
    }
    lemma_assoc_map_facts(s);
    lemma_assoc_map_facts(s2);
    let m1 = assoc_map(s2);
    let m2 = assoc_map(s).insert(e.0@, e.1@);
    assert forall|k: Seq<char>| m1.contains_key(k) <==> m2.contains_key(k) by {
        if m1.contains_key(k) {
            let i = choose|i: int| 0 <= i < s2.len() && s2[i].0@ == k;
            if i != j {
                assert(s[i].0@ == k);
            }
        }
        if m2.contains_key(k) {
            if k == e.0@ {
                assert(s2[j].0@ == k);
            } else {
                let i = choose|i: int| 0 <= i < s.len() && s[i].0@ == k;
                assert(i != j);
                assert(s2[i].0@ == k);
            }
        }
    }
    assert forall|k: Seq<char>| m1.contains_key(k) implies m1[k] == m2[k] by {
        if k == e.0@ {
            assert(s2[j].0@ == k && s2[j].1@ == e.1@);
        } else {
            let i = choose|i: int| 0 <= i < s2.len() && s2[i].0@ == k;
            assert(i != j);
            assert(s[i].0@ == k && s[i].1 == s2[i].1);
        }
    }
    assert(m1 =~= m2);
}

/// Adding an entry of a fresh key anywhere denotes a plain mapping update.
pub proof fn lemma_assoc_map_insert(s: Seq<(String, Attribute)>, j: int, e: (String, Attribute))
    requires
        forall|i: int, k: int| 0 <= i < k < s.len() ==> s[i].0@ != s[k].0@,
        0 <= j <= s.len(),
        forall|i: int| 0 <= i < s.len() ==> s[i].0@ != e.0@,
    ensures
        assoc_map(s.insert(j, e)) == assoc_map(s).insert(e.0@, e.1@),
{
    let s2 = s.insert(j, e);
    assert forall|i: int, k: int| 0 <= i < k < s2.len() implies s2[i].0@ != s2[k].0@ by {
        if i < j {
            assert(s2[i] == s[i]);
        } else if i == j {
            assert(s2[i] == e);
        } else {
            assert(s2[i] == s[i - 1]);
        }
        if k < j {
            assert(s2[k] == s[k]);
        } else if k == j {
            assert(s2[k] == e);
        } else {
            assert(s2[k] == s[k - 1]);
        }
    }
    lemma_assoc_map_facts(s);
    lemma_assoc_map_facts(s2);
    let m1 = assoc_map(s2);
    let m2 = assoc_map(s).insert(e.0@, e.1@);
    assert forall|k: Seq<char>| m1.contains_key(k) <==> m2.contains_key(k) by {
        if m1.contains_key(k) {
            let i = choose|i: int| 0 <= i < s2.len() && s2[i].0@ == k;
            if i < j {
                assert(s[i].0@ == k);
            } else if i > j {
                assert(s[i - 1].0@ == k);
            }
        }
        if m2.contains_key(k) {
            if k == e.0@ {
                assert(s2[j].0@ == k);
            } else {
                let i = choose|i: int| 0 <= i < s.len() && s[i].0@ == k;
                if i < j {
                    assert(s2[i].0@ == k);
                } else {
                    assert(s2[i + 1].0@ == k);
                }
            }
        }
    }
    assert forall|k: Seq<char>| m1.contains_key(k) implies m1[k] == m2[k] by {
        if k == e.0@ {
            assert(s2[j].0@ == k && s2[j].1@ == e.1@);
        } else {
            let i = choose|i: int| 0 <= i < s2.len() && s2[i].0@ == k;
            assert(i != j);
            if i < j {
                assert(s[i].0@ == k && s[i].1 == s2[i].1);
            } else {
                assert(s[i - 1].0@ == k && s[i - 1].1 == s2[i].1);
            }
        }
    }
    assert(m1 =~= m2);
}

impl SemanticConventions {
    /// An empty catalog.
    pub fn new() -> (r: Self)
        ensures
            r@ == Map::<Seq<char>, AttributeModel>::empty(),
            r.wf(),
    {
        let r = SemanticConventions { attribute_map: Vec::new() };
        proof {
            assert(r@ =~= Map::<Seq<char>, AttributeModel>::empty());
        }
        r
    }

    /// Inserts an attribute under its fully-qualified name; a name already
    /// present has its attribute overwritten (last write wins).
    #[verifier::rlimit(100)]
    pub fn insert(&mut self, key: String, attr: Attribute)
        requires
            old(self).wf(),
            attr_wf(attr@),
        ensures
            final(self).wf(),
            final(self)@ == old(self)@.insert(key@, attr@),
    {
        let ghost s = self.attribute_map@;
        let ghost keys = entry_keys(s);
        proof {
            lemma_strs_sorted_pairwise(keys);
        }
        let n = self.attribute_map.len();
        let mut j: usize = 0;
        while j < n && str_lt(self.attribute_map[j].0.as_str(), key.as_str())
            invariant
                0 <= j <= n,
                *self == *old(self),
                s == self.attribute_map@,
                keys == entry_keys(s),
                n == s.len(),
                forall|k: int| 0 <= k < j ==> lex_lt(#[trigger] keys[k], key@),
            decreases n - j,
        {
            proof {
                assert(keys[j as int] == s[j as int].0@);
            }
            j += 1;
        }
        proof {
            assert(j < n ==> !lex_lt(keys[j as int], key@));
            lemma_strs_pos_from_scan(keys, key@, j as int);
            lemma_str_ins_sorted(keys, key@);
        }
        if j < self.attribute_map.len() && str_eq(self.attribute_map[j].0.as_str(), key.as_str()) {
            self.attribute_map.remove(j);
            self.attribute_map.insert(j, (key, attr));
            proof {
                let e = self.attribute_map@[j as int];
                assert(self.attribute_map@ =~= s.update(j as int, e));
                assert forall|i: int, k: int| 0 <= i < k < s.len() implies s[i].0@ != s[k].0@ by {
                    assert(keys[i] == s[i].0@ && keys[k] == s[k].0@);
                }
                lemma_assoc_map_update(s, j as int, e);
                assert(entry_keys(self.attribute_map@) =~= keys);
            }
        } else {
            proof {
                if j < n {
                    assert(keys[j as int] == s[j as int].0@);
                }
            }
            self.attribute_map.insert(j, (key, attr));
            proof {
                let e = self.attribute_map@[j as int];
                assert(self.attribute_map@ =~= s.insert(j as int, e));
                assert forall|i: int, k: int| 0 <= i < k < s.len() implies s[i].0@ != s[k].0@ by {
                    assert(keys[i] == s[i].0@ && keys[k] == s[k].0@);
                }
                assert forall|i: int| 0 <= i < s.len() implies s[i].0@ != e.0@ by {
                    assert(keys[i] == s[i].0@);
                    if i < j {
                        lemma_lex_neq(keys[i], key@);
                    } else {
                        crate::paths::lemma_lex_connex(keys[i], key@);
                        if lex_lt(key@, keys[i]) {
                            lemma_lex_neq(key@, keys[i]);
                        } else if i == j {
                        } else {
                            crate::paths::lemma_lex_trans(keys[j as int], keys[i], key@);
                            assert(false);
                        }
                    }
                }
                lemma_assoc_map_insert(s, j as int, e);
                assert(entry_keys(self.attribute_map@) =~= str_ins(keys, key@));
            }
        }
    }

    /// The index of the entry with the given name, if it is present.
    fn find_index(&self, key: &str) -> (r: Option<usize>)
        ensures
            match r {
                Some(i) => i < self.attribute_map@.len() && self.attribute_map@[i as int].0@
                    == key@,
                None => forall|i: int|
                    0 <= i < self.attribute_map@.len() ==> (#[trigger] self.attribute_map@[
                        i
                    ].0)@ != key@,
            },
    {
        let n = self.attribute_map.len();
        let mut j: usize = 0;
        while j < n
            invariant
                0 <= j <= n,
                n == self.attribute_map@.len(),
                forall|i: int| 0 <= i < j ==> (#[trigger] self.attribute_map@[i].0)@ != key@,
            decreases n - j,
        {
            if str_eq(self.attribute_map[j].0.as_str(), key) {
                return Some(j);
            }
            j += 1;
        }
        None
    }

    /// The attribute stored under the given fully-qualified name.
    pub fn get(&self, key: &str) -> (r: Option<&Attribute>)
        requires
            self.wf(),
        ensures
            match r {
                Some(a) => self@.contains_key(key@) && self@[key@] == a@,
                None => !self@.contains_key(key@),
            },
    {
        proof {
            lemma_strs_sorted_pairwise(entry_keys(self.attribute_map@));
            assert forall|i: int, k: int|
                0 <= i < k < self.attribute_map@.len() implies self.attribute_map@[i].0@
                != self.attribute_map@[k].0@ by {
                assert(entry_keys(self.attribute_map@)[i] == self.attribute_map@[i].0@);
                assert(entry_keys(self.attribute_map@)[k] == self.attribute_map@[k].0@);
            }
            lemma_assoc_map_facts(self.attribute_map@);
        }
        match self.find_index(key) {
            Some(i) => Some(&self.attribute_map[i].1),
            None => {
                proof {
                    if self@.contains_key(key@) {
                        let i = choose|i: int|
                            0 <= i < self.attribute_map@.len() && self.attribute_map@[i].0@
                                == key@;
                        assert(false);
                    }
                }
                None
            },
        }
    }
}

/// One attribute record as a document spells it: schema fields only; the
/// usage and provenance fields are populated by this system, never read from
/// a document.
pub struct RawAttribute {
    pub id: Option<String>,
    pub declared_type: Option<RawTypeDoc>,
    pub brief: Option<String>,
    pub note: Option<String>,
    pub examples: Option<Examples>,
    pub deprecated: Option<String>,
}

/// One named group of a document: an optional name prefix and its attribute
/// records.
pub struct RawGroup {
    pub prefix: Option<String>,
    pub attributes: Option<Vec<RawAttribute>>,
}

/// Whether a record is kept: it carries a non-empty identifier.
pub open spec fn raw_kept(a: RawAttribute) -> bool {
    match a.id {
        Some(id) => id@.len() > 0,
        None => false,
    }
}

/// Whether a record's declared type resolves (an absent type resolves to
/// nothing).
pub open spec fn raw_type_ok(a: RawAttribute) -> bool {
    match a.declared_type {
        Some(d) => spec_resolve_type(d) is Some,
        None => true,
    }
}

/// The resolved declared type of a record.
pub open spec fn raw_type_of(a: RawAttribute) -> Option<Type> {
    match a.declared_type {
        Some(d) => spec_resolve_type(d),
        None => None,
    }
}

/// Every record of the group has a resolvable declared type.
pub open spec fn group_ok(g: RawGroup) -> bool {
    match g.attributes {
        Some(v) => forall|i: int| 0 <= i < v@.len() ==> raw_type_ok(#[trigger] v@[i]),
        None => true,
    }
}

/// Every record of every group has a resolvable declared type: the whole
/// document parses.
pub open spec fn doc_ok(gs: Seq<RawGroup>) -> bool {
    forall|i: int| 0 <= i < gs.len() ==> group_ok(#[trigger] gs[i])
}

/// The fully-qualified name of a record: the group's prefix, a dot, and the
/// identifier; just the identifier when the group has no prefix.
pub open spec fn spec_fqn(prefix: Option<String>, id: Seq<char>) -> Seq<char> {
    match prefix {
        Some(p) => p@ + seq!['.'] + id,
        None => id,
    }
}

/// The catalog entry a kept record becomes: its schema fields, no usage
/// data, and the given provenance.
pub open spec fn spec_loaded_attr(a: RawAttribute, defined_in: Seq<char>) -> AttributeModel {
    AttributeModel {
        id: opt_view(a.id),
        declared_type: raw_type_of(a),
        brief: opt_view(a.brief),
        note: opt_view(a.note),
        examples: a.examples,
        deprecated: opt_view(a.deprecated),
        used_by: None,
        template_suffixes: None,
        defined_in: Some(defined_in),
    }
}

/// Folds one record into the mapping: a kept record is inserted under its
/// fully-qualified name, overwriting any earlier entry; a record without an
/// identifier is dropped.
pub open spec fn apply_attr(
    m: Map<Seq<char>, AttributeModel>,
    prefix: Option<String>,
    a: RawAttribute,
    defined_in: Seq<char>,
) -> Map<Seq<char>, AttributeModel> {
    if raw_kept(a) {
        m.insert(spec_fqn(prefix, a.id->0@), spec_loaded_attr(a, defined_in))
    } else {
        m
    }
}

/// Folds a group's records into the mapping, in order.
pub open spec fn apply_attrs(
    m: Map<Seq<char>, AttributeModel>,
    prefix: Option<String>,
    attrs: Seq<RawAttribute>,
    defined_in: Seq<char>,
) -> Map<Seq<char>, AttributeModel>
    decreases attrs.len(),
{
    if attrs.len() == 0 {
        m
    } else {
        apply_attr(apply_attrs(m, prefix, attrs.drop_last(), defined_in), prefix, attrs.last(), defined_in)
    }
}

/// Folds one group into the mapping.
pub open spec fn apply_group(
    m: Map<Seq<char>, AttributeModel>,
    g: RawGroup,
    defined_in: Seq<char>,
) -> Map<Seq<char>, AttributeModel> {
    match g.attributes {
        Some(v) => apply_attrs(m, g.prefix, v@, defined_in),
        None => m,
    }
}

/// Folds a whole document into the mapping, group by group.
pub open spec fn apply_groups(
    m: Map<Seq<char>, AttributeModel>,
    gs: Seq<RawGroup>,
    defined_in: Seq<char>,
) -> Map<Seq<char>, AttributeModel>
    decreases gs.len(),
{
    if gs.len() == 0 {
        m
    } else {
        apply_group(apply_groups(m, gs.drop_last(), defined_in), gs.last(), defined_in)
    }
}

impl SemanticConventions {
    /// Checks that every declared type label of the document resolves
    /// through the fixed table.
    fn check_document(groups: &Vec<RawGroup>) -> (r: Result<(), TypeParseError>)
        ensures
            match r {
                Ok(_) => doc_ok(groups@),
                Err(e) => !doc_ok(groups@) && spec_parse_primitive(e.label@) is None,
            },
    {
        let mut gi: usize = 0;
        while gi < groups.len()
            invariant
                0 <= gi <= groups@.len(),
                forall|i: int| 0 <= i < gi ==> group_ok(#[trigger] groups@[i]),
            decreases groups@.len() - gi,
        {
            match &groups[gi].attributes {
                Some(attrs) => {
                    let mut ai: usize = 0;
                    while ai < attrs.len()
                        invariant
                            0 <= ai <= attrs@.len(),
                            gi < groups@.len(),
                            groups@[gi as int].attributes == Some(*attrs),
                            forall|k: int| 0 <= k < ai ==> raw_type_ok(#[trigger] attrs@[k]),
                        decreases attrs@.len() - ai,
                    {
                        match &attrs[ai].declared_type {
                            Some(d) => match d {
                                RawTypeDoc::Label(l) => {
                                    if parse_primitive_label(l.as_str()).is_none() {
                                        proof {
                                            assert(!raw_type_ok(attrs@[ai as int]));
                                            let v = groups@[gi as int].attributes->0;
                                            assert(v == *attrs);
                                            assert(!raw_type_ok(v@[ai as int]));
                                            assert(!group_ok(groups@[gi as int]));
                                            assert(!doc_ok(groups@));
                                        }
                                        return Err(TypeParseError { label: l.clone() });
                                    }
                                },
                                RawTypeDoc::Structure(_) => {},
                            },
                            None => {},
                        }
                        proof {
                            assert(raw_type_ok(attrs@[ai as int]));
                        }
                        ai += 1;
                    }
                    proof {
                        assert(group_ok(groups@[gi as int]));
                    }
                },
                None => {
                    proof {
                        assert(group_ok(groups@[gi as int]));
                    }
                },
            }
            gi += 1;
        }
        Ok(())
    }

    /// Folds one parsed document into the catalog. Every kept record lands
    /// under its fully-qualified name with the given provenance, a later
    /// record of the same name overwriting an earlier one. A record whose
    /// declared type label is unknown aborts the whole document, leaving the
    /// catalog exactly as it was.
    #[verifier::rlimit(100)]
    pub fn read_document(&mut self, groups: Vec<RawGroup>, defined_in: &str) -> (r: Result<
        (),
        TypeParseError,
    >)
        requires
            old(self).wf(),
        ensures
            match r {
                Ok(_) => doc_ok(groups@) && final(self).wf() && final(self)@ == apply_groups(
                    old(self)@,
                    groups@,
                    defined_in@,
                ),
                Err(e) => !doc_ok(groups@) && *final(self) == *old(self)
                    && spec_parse_primitive(e.label@) is None,
            },
    {
        let ghost gs0 = groups@;
        if let Err(e) = Self::check_document(&groups) {
            return Err(e);
        }
        proof {
            assert(doc_ok(gs0));
        }
        // second pass: fold every kept record in
        let ghost m0 = self@;
        let mut groups = groups;
        let glen = groups.len();
        proof {
            assert(gs0.len() == glen);
        }
        let mut gi: usize = 0;
        while groups.len() > 0
            invariant
                0 <= gi,
                gi + groups@.len() == gs0.len(),
                gs0.len() <= usize::MAX,
                groups@ == gs0.subrange(gi as int, gs0.len() as int),
                doc_ok(gs0),
                self.wf(),
                self@ == apply_groups(m0, gs0.subrange(0, gi as int), defined_in@),
            decreases groups@.len(),
        {
            let g = groups.remove(0);
            proof {
                assert(g == gs0[gi as int]);
                assert(groups@ =~= gs0.subrange(gi + 1 as int, gs0.len() as int));
            }
            let ghost mg = self@;
            let RawGroup { prefix, attributes } = g;
            match attributes {
                Some(mut attrs) => {
                    let ghost a0 = attrs@;
                    let n0 = attrs.len();
                    proof {
                        assert(a0.len() == n0);
                    }
                    let mut ai: usize = 0;
                    while attrs.len() > 0
                        invariant
                            0 <= ai,
                            ai + attrs@.len() == a0.len(),
                            a0.len() <= usize::MAX,
                            gi < gs0.len(),
                            attrs@ == a0.subrange(ai as int, a0.len() as int),
                            forall|k: int| 0 <= k < a0.len() ==> raw_type_ok(#[trigger] a0[k]),
                            prefix == gs0[gi as int].prefix,
                            self.wf(),
                            self@ == apply_attrs(mg, prefix, a0.subrange(0, ai as int), defined_in@),
                        decreases attrs@.len(),
                    {
                        let a = attrs.remove(0);
                        proof {
                            assert(a == a0[ai as int]);
                            assert(attrs@ =~= a0.subrange(ai + 1 as int, a0.len() as int));
                            assert(raw_type_ok(a));
                        }
                        let keep = match &a.id {
                            Some(id) => id.as_str().unicode_len() > 0,
                            None => false,
                        };
                        if keep {
                            let id = match &a.id {
                                Some(id) => id.clone(),
                                None => String::new(),
                            };
                            let fqn = match &prefix {
                                Some(p) => {
                                    proof {
                                        reveal_strlit(".");
                                        assert("."@ =~= seq!['.']);
                                    }
                                    let mut f = p.clone();
                                    f.append(".");
                                    f.append(id.as_str());
                                    f
                                },
                                None => id.clone(),
                            };
                            let t = match a.declared_type {
                                Some(d) => match resolve_type(d) {
                                    Ok(t) => Some(t),
                                    Err(e) => {
                                        proof {
                                            assert(false);
                                        }
                                        return Err(e);
                                    },
                                },
                                None => None,
                            };
                            let attr = Attribute {
                                id: a.id,
                                declared_type: t,
                                brief: a.brief,
                                note: a.note,
                                examples: a.examples,
                                deprecated: a.deprecated,
                                used_by: None,
                                template_suffixes: None,
                                defined_in: Some(defined_in.to_owned()),
                            };
                            proof {
                                assert(attr@ =~= spec_loaded_attr(a, defined_in@));
                                assert(fqn@ == spec_fqn(prefix, a.id->0@));
                                assert(attr_wf(attr@));
                            }
                            self.insert(fqn, attr);
                        }
                        proof {
                            assert(a0.subrange(0, ai + 1 as int).drop_last() =~= a0.subrange(
                                0,
                                ai as int,
                            ));
                            assert(a0.subrange(0, ai + 1 as int).last() == a);
                            assert(self@ == apply_attrs(
                                mg,
                                prefix,
                                a0.subrange(0, ai + 1 as int),
                                defined_in@,
                            ));
                        }
                        ai += 1;
                    }
                    proof {
                        assert(a0.subrange(0, a0.len() as int) =~= a0);
                        assert(self@ == apply_group(mg, gs0[gi as int], defined_in@));
                    }
                },
                None => {
                    proof {
                        assert(self@ == apply_group(mg, gs0[gi as int], defined_in@));
                    }
                },
            }
            proof {
                assert(gs0.subrange(0, gi + 1 as int).drop_last() =~= gs0.subrange(0, gi as int));
                assert(gs0.subrange(0, gi + 1 as int).last() == gs0[gi as int]);
                assert(self@ == apply_groups(m0, gs0.subrange(0, gi + 1 as int), defined_in@));
            }
            gi += 1;
        }
        proof {
            assert(gs0.subrange(0, gs0.len() as int) =~= gs0);
        }
        Ok(())
    }
}


/// The datasets recorded on an attribute, empty when none were yet.
pub open spec fn used_by_of(a: AttributeModel) -> Seq<Seq<char>> {
    match a.used_by {
        Some(u) => u,
        None => Seq::empty(),
    }
}

/// The suffix table of an attribute, empty when none was yet.
pub open spec fn suffixes_of(a: AttributeModel) -> Seq<(Seq<char>, Seq<Seq<char>>)> {
    match a.template_suffixes {
        Some(ts) => ts,
        None => Seq::empty(),
    }
}

/// Records that `ds` uses the attribute: the dataset name joins `used_by`,
/// in order, without duplication.
pub open spec fn attr_add_used_by(a: AttributeModel, ds: Seq<char>) -> AttributeModel {
    AttributeModel { used_by: Some(str_ins(used_by_of(a), ds)), ..a }
}

/// Sorted insert-or-append into a suffix table: a known suffix has the
/// dataset joined to its list, a fresh suffix gets a list of its own.
pub open spec fn pair_ins(
    ts: Seq<(Seq<char>, Seq<Seq<char>>)>,
    key: Seq<char>,
    ds: Seq<char>,
) -> Seq<(Seq<char>, Seq<Seq<char>>)> {
    let p = crate::paths::strs_pos(pair_keys(ts), key);
    if p < ts.len() && ts[p].0 == key {
        ts.update(p, (key, str_ins(ts[p].1, ds)))
    } else {
        ts.insert(p, (key, seq![ds]))
    }
}

/// Records that `ds` uses the attribute under a template suffix.
pub open spec fn attr_add_suffix(a: AttributeModel, suffix: Seq<char>, ds: Seq<char>) -> AttributeModel {
    AttributeModel { template_suffixes: Some(pair_ins(suffixes_of(a), suffix, ds)), ..a }
}

/// Folds one observed column name into the mapping: an exact match feeds the
/// attribute's `used_by`; otherwise, when the part before the last dot names
/// a template-typed attribute, the part after it is recorded as a suffix;
/// any other column is ignored.
pub open spec fn spec_apply_column(
    m: Map<Seq<char>, AttributeModel>,
    ds: Seq<char>,
    c: Seq<char>,
) -> Map<Seq<char>, AttributeModel> {
    if m.contains_key(c) {
        m.insert(c, attr_add_used_by(m[c], ds))
    } else {
        let d = last_dot(c);
        if d < 0 {
            m
        } else {
            let prefix = c.subrange(0, d);
            let suffix = c.subrange(d + 1, c.len() as int);
            if m.contains_key(prefix) && spec_is_template(m[prefix].declared_type) {
                m.insert(prefix, attr_add_suffix(m[prefix], suffix, ds))
            } else {
                m
            }
        }
    }
}

/// Folds one dataset's observed column names into the mapping, in order.
pub open spec fn spec_apply_dataset(
    m: Map<Seq<char>, AttributeModel>,
    ds: Seq<char>,
    cols: Seq<Seq<char>>,
) -> Map<Seq<char>, AttributeModel>
    decreases cols.len(),
{
    if cols.len() == 0 {
        m
    } else {
        spec_apply_column(spec_apply_dataset(m, ds, cols.drop_last()), ds, cols.last())
    }
}

/// Folds every dataset's observed column names into the mapping, in order.
pub open spec fn spec_apply_usage(
    m: Map<Seq<char>, AttributeModel>,
    usage: Seq<(Seq<char>, Seq<Seq<char>>)>,
) -> Map<Seq<char>, AttributeModel>
    decreases usage.len(),
{
    if usage.len() == 0 {
        m
    } else {
        spec_apply_dataset(
            spec_apply_usage(m, usage.drop_last()),
            usage.last().0,
            usage.last().1,
        )
    }
}

/// Keys of a pair sequence are untouched by `pair_ins` at a known key, and
/// gain exactly the fresh key otherwise; order is kept either way.
pub proof fn lemma_pair_ins_wf(ts: Seq<(Seq<char>, Seq<Seq<char>>)>, key: Seq<char>, ds: Seq<char>)
    requires
        strs_sorted(pair_keys(ts)),
        forall|i: int| 0 <= i < ts.len() ==> strs_sorted(#[trigger] ts[i].1),
    ensures
        strs_sorted(pair_keys(pair_ins(ts, key, ds))),
        forall|i: int|
            0 <= i < pair_ins(ts, key, ds).len() ==> strs_sorted(
                #[trigger] pair_ins(ts, key, ds)[i].1,
            ),
{
    let keys = pair_keys(ts);
    let p = crate::paths::strs_pos(keys, key);
    crate::paths::lemma_strs_pos_bounds(keys, key);
    let ts2 = pair_ins(ts, key, ds);
    if p < ts.len() && ts[p].0 == key {
        lemma_str_ins_sorted(ts[p].1, ds);
        assert(pair_keys(ts2) =~= keys);
        assert forall|i: int| 0 <= i < ts2.len() implies strs_sorted(#[trigger] ts2[i].1) by {
            if i != p {
                assert(ts2[i] == ts[i]);
            }
        }
    } else {
        lemma_str_ins_sorted(keys, key);
        assert(keys[p] == ts[p].0 || p == ts.len());
        assert forall|i: int| 0 <= i < keys.len() implies keys[i] == ts[i].0 by {}
        if p < ts.len() {
            assert(keys[p] != key);
        }
        assert(pair_keys(ts2) =~= str_ins(keys, key));
        assert forall|i: int| 0 <= i < ts2.len() implies strs_sorted(#[trigger] ts2[i].1) by {
            if i < p {
                assert(ts2[i] == ts[i]);
            } else if i == p {
                assert(ts2[i].1 =~= seq![ds]);
            } else {
                assert(ts2[i] == ts[i - 1]);
            }
        }
    }
}

/// Both attribute updates keep the attribute well-formed.
pub proof fn lemma_attr_updates_wf(a: AttributeModel, x: Seq<char>, ds: Seq<char>)
    requires
        attr_wf(a),
    ensures
        attr_wf(attr_add_used_by(a, ds)),
        attr_wf(attr_add_suffix(a, x, ds)),
{
    lemma_str_ins_sorted(used_by_of(a), ds);
    match a.template_suffixes {
        Some(ts) => {
            lemma_pair_ins_wf(ts, x, ds);
        },
        None => {
            lemma_pair_ins_wf(Seq::empty(), x, ds);
        },
    }
}

impl Attribute {
    /// Joins a dataset name to this attribute's `used_by`.
    fn add_used_by(&mut self, dataset: &str)
        requires
            attr_wf(old(self)@),
        ensures
            final(self)@ == attr_add_used_by(old(self)@, dataset@),
            attr_wf(final(self)@),
    {
        proof {
            lemma_attr_updates_wf(self@, Seq::empty(), dataset@);
        }
        match &mut self.used_by {
            Some(u) => {
                insert_sorted_str(u, dataset);
                proof {
                    assert(self@ =~= attr_add_used_by(old(self)@, dataset@));
                }
            },
            None => {
                let mut v: Vec<String> = Vec::new();
                v.push(dataset.to_owned());
                self.used_by = Some(v);
                proof {
                    assert(seg_views(v@) =~= seq![dataset@]);
                    assert(str_ins(Seq::<Seq<char>>::empty(), dataset@) =~= seq![dataset@]);
                    assert(self@ =~= attr_add_used_by(old(self)@, dataset@));
                }
            },
        }
    }

    /// Records a dataset under an observed template suffix.
    #[verifier::rlimit(100)]
    fn add_template_suffix(&mut self, suffix: &str, dataset: &str)
        requires
            attr_wf(old(self)@),
        ensures
            final(self)@ == attr_add_suffix(old(self)@, suffix@, dataset@),
            attr_wf(final(self)@),
    {
        proof {
            lemma_attr_updates_wf(self@, suffix@, dataset@);
        }
        match &mut self.template_suffixes {
            Some(ts) => {
                let ghost ts0 = pairs_views(ts@);
                let ghost keys = pair_keys(ts0);
                proof {
                    assert(forall|i: int| 0 <= i < ts0.len() ==> #[trigger] keys[i] == ts@[i].0@);
                }
                let n = ts.len();
                let mut j: usize = 0;
                while j < n && str_lt(ts[j].0.as_str(), suffix)
                    invariant
                        0 <= j <= n,
                        ts@.len() == n,
                        ts0 == pairs_views(ts@),
                        keys == pair_keys(ts0),
                        forall|k: int| 0 <= k < j ==> lex_lt(#[trigger] keys[k], suffix@),
                    decreases n - j,
                {
                    proof {
                        assert(keys[j as int] == ts@[j as int].0@);
                    }
                    j += 1;
                }
                proof {
                    assert(j < n ==> keys[j as int] == ts@[j as int].0@);
                    lemma_strs_pos_from_scan(keys, suffix@, j as int);
                }
                if j < ts.len() && str_eq(ts[j].0.as_str(), suffix) {
                    let (k, mut lst) = ts.remove(j);
                    proof {
                        assert(ts0[j as int] == (k@, seg_views(lst@)));
                        assert(strs_sorted(seg_views(lst@)));
                    }
                    insert_sorted_str(&mut lst, dataset);
                    ts.insert(j, (k, lst));
                    proof {
                        assert(pairs_views(ts@) =~= ts0.update(
                            j as int,
                            (suffix@, str_ins(ts0[j as int].1, dataset@)),
                        ));
                        assert(self@ =~= attr_add_suffix(old(self)@, suffix@, dataset@));
                    }
                } else {
                    proof {
                        if j < n {
                            assert(ts0[j as int].0 != suffix@);
                        }
                    }
                    let mut lst: Vec<String> = Vec::new();
                    lst.push(dataset.to_owned());
                    ts.insert(j, (suffix.to_owned(), lst));
                    proof {
                        assert(seg_views(lst@) =~= seq![dataset@]);
                        assert(pairs_views(ts@) =~= ts0.insert(j as int, (suffix@, seq![dataset@])));
                        assert(self@ =~= attr_add_suffix(old(self)@, suffix@, dataset@));
                    }
                }
            },
            None => {
                let mut lst: Vec<String> = Vec::new();
                lst.push(dataset.to_owned());
                let mut table: Vec<(String, Vec<String>)> = Vec::new();
                table.push((suffix.to_owned(), lst));
                self.template_suffixes = Some(table);
                proof {
                    assert(seg_views(lst@) =~= seq![dataset@]);
                    assert(pairs_views(table@) =~= seq![(suffix@, seq![dataset@])]);
                    assert(pair_ins(Seq::empty(), suffix@, dataset@) =~= seq![
                        (suffix@, seq![dataset@]),
                    ]);
                    assert(self@ =~= attr_add_suffix(old(self)@, suffix@, dataset@));
                }
            },
        }
    }
}

impl SemanticConventions {
    /// Replaces the entry at `i` by one of the same key whose attribute was
    /// put through an update, and re-establishes the catalog's shape.
    proof fn lemma_entry_update(
        s: Seq<(String, Attribute)>,
        s2: Seq<(String, Attribute)>,
        i: int,
    )
        requires
            strs_sorted(entry_keys(s)),
            forall|k: int| 0 <= k < s.len() ==> attr_wf(#[trigger] s[k].1@),
            0 <= i < s.len(),
            s2.len() == s.len(),
            forall|k: int| 0 <= k < s.len() && k != i ==> s2[k] == s[k],
            s2[i].0@ == s[i].0@,
            attr_wf(s2[i].1@),
        ensures
            strs_sorted(entry_keys(s2)),
            forall|k: int| 0 <= k < s2.len() ==> attr_wf(#[trigger] s2[k].1@),
            assoc_map(s2) == assoc_map(s).insert(s2[i].0@, s2[i].1@),
    {
        assert(entry_keys(s2) =~= entry_keys(s));
        lemma_strs_sorted_pairwise(entry_keys(s));
        assert forall|a: int, b: int| 0 <= a < b < s.len() implies s[a].0@ != s[b].0@ by {
            assert(entry_keys(s)[a] == s[a].0@ && entry_keys(s)[b] == s[b].0@);
        }
        assert(s2 =~= s.update(i, s2[i]));
        lemma_assoc_map_update(s, i, s2[i]);
    }

    /// Folds one observed column name of one dataset into the catalog.
    #[verifier::rlimit(100)]
    fn apply_column(&mut self, dataset: &str, c: &str)
        requires
            old(self).wf(),
        ensures
            final(self).wf(),
            final(self)@ == spec_apply_column(old(self)@, dataset@, c@),
    {
        proof {
            lemma_strs_sorted_pairwise(entry_keys(self.attribute_map@));
            assert forall|a: int, b: int|
                0 <= a < b < self.attribute_map@.len() implies self.attribute_map@[a].0@
                != self.attribute_map@[b].0@ by {
                assert(entry_keys(self.attribute_map@)[a] == self.attribute_map@[a].0@);
                assert(entry_keys(self.attribute_map@)[b] == self.attribute_map@[b].0@);
            }
            lemma_assoc_map_facts(self.attribute_map@);
        }
        let ghost s = self.attribute_map@;
        let ghost m = self@;
        match self.find_index(c) {
            Some(i) => {
                proof {
                    assert(m.contains_key(c@) && m[c@] == s[i as int].1@);
                }
                let (k, mut a) = self.attribute_map.remove(i);
                proof {
                    assert(a == s[i as int].1);
                    assert(attr_wf(a@));
                }
                a.add_used_by(dataset);
                self.attribute_map.insert(i, (k, a));
                proof {
                    assert(self.attribute_map@.len() == s.len());
                    assert forall|kk: int|
                        0 <= kk < s.len() && kk != i implies self.attribute_map@[kk] == s[kk] by {}
                    Self::lemma_entry_update(s, self.attribute_map@, i as int);
                    assert(self.attribute_map@[i as int].0@ == c@);
                    assert(self@ == m.insert(c@, attr_add_used_by(m[c@], dataset@)));
                }
            },
            None => {
                proof {
                    if m.contains_key(c@) {
                        let i = choose|i: int| 0 <= i < s.len() && s[i].0@ == c@;
                        assert(false);
                    }
                }
                match find_last_dot(c) {
                    None => {
                        proof {
                            assert(self@ == spec_apply_column(m, dataset@, c@));
                        }
                    },
                    Some(d) => {
                        proof {
                            crate::paths::lemma_last_dot(c@);
                        }
                        let len = c.unicode_len();
                        let prefix = c.substring_char(0, d);
                        let suffix = c.substring_char(d + 1, len);
                        match self.find_index(prefix) {
                            Some(i) => {
                                proof {
                                    assert(m.contains_key(prefix@) && m[prefix@] == s[i as int].1@);
                                }
                                if self.attribute_map[i].1.is_template_type() {
                                    let (k, mut a) = self.attribute_map.remove(i);
                                    proof {
                                        assert(a == s[i as int].1);
                                        assert(attr_wf(a@));
                                    }
                                    a.add_template_suffix(suffix, dataset);
                                    self.attribute_map.insert(i, (k, a));
                                    proof {
                                        assert(self.attribute_map@.len() == s.len());
                                        assert forall|kk: int|
                                            0 <= kk < s.len() && kk != i implies self.attribute_map@[
                                            kk] == s[kk] by {}
                                        Self::lemma_entry_update(s, self.attribute_map@, i as int);
                                        assert(self.attribute_map@[i as int].0@ == prefix@);
                                        assert(self@ == m.insert(
                                            prefix@,
                                            attr_add_suffix(m[prefix@], suffix@, dataset@),
                                        ));
                                    }
                                } else {
                                    proof {
                                        assert(!spec_is_template(m[prefix@].declared_type));
                                        assert(self@ == spec_apply_column(m, dataset@, c@));
                                    }
                                }
                            },
                            None => {
                                proof {
                                    if m.contains_key(prefix@) {
                                        let i = choose|i: int|
                                            0 <= i < s.len() && s[i].0@ == prefix@;
                                        assert(false);
                                    }
                                    assert(self@ == spec_apply_column(m, dataset@, c@));
                                }
                            },
                        }
                    },
                }
            },
        }
    }

    /// Folds one dataset's observed column names into the catalog, in the
    /// order they were observed. A dataset whose fetch failed simply never
    /// reaches this method, which is the same as handing it no columns.
    pub fn add_usage(&mut self, dataset: &str, columns: &Vec<String>)
        requires
            old(self).wf(),
        ensures
            final(self).wf(),
            final(self)@ == spec_apply_dataset(old(self)@, dataset@, seg_views(columns@)),
    {
        let ghost m0 = self@;
        let ghost cols = seg_views(columns@);
        let n = columns.len();
        let mut ci: usize = 0;
        while ci < n
            invariant
                0 <= ci <= n,
                n == columns@.len(),
                cols == seg_views(columns@),
                self.wf(),
                self@ == spec_apply_dataset(m0, dataset@, cols.subrange(0, ci as int)),
            decreases n - ci,
        {
            self.apply_column(dataset, columns[ci].as_str());
            proof {
                assert(cols[ci as int] == columns@[ci as int]@);
                assert(cols.subrange(0, ci + 1 as int).drop_last() =~= cols.subrange(0, ci as int));
                assert(cols.subrange(0, ci + 1 as int).last() == cols[ci as int]);
            }
            ci += 1;
        }
        proof {
            assert(cols.subrange(0, cols.len() as int) =~= cols);
        }
    }

    /// Folds every dataset's observed column names into the catalog, in
    /// order.
    pub fn add_usage_all(&mut self, usage: &Vec<(String, Vec<String>)>)
        requires
            old(self).wf(),
        ensures
            final(self).wf(),
            final(self)@ == spec_apply_usage(old(self)@, pairs_views(usage@)),
    {
        let ghost m0 = self@;
        let ghost u = pairs_views(usage@);
        let n = usage.len();
        let mut ui: usize = 0;
        while ui < n
            invariant
                0 <= ui <= n,
                n == usage@.len(),
                u == pairs_views(usage@),
                self.wf(),
                self@ == spec_apply_usage(m0, u.subrange(0, ui as int)),
            decreases n - ui,
        {
            self.add_usage(usage[ui].0.as_str(), &usage[ui].1);
            proof {
                assert(u[ui as int] == (usage@[ui as int].0@, seg_views(usage@[ui as int].1@)));
                assert(u.subrange(0, ui + 1 as int).drop_last() =~= u.subrange(0, ui as int));
                assert(u.subrange(0, ui + 1 as int).last() == u[ui as int]);
            }
            ui += 1;
        }
        proof {
            assert(u.subrange(0, u.len() as int) =~= u);
        }
    }
}

/// Two records of the same fully-qualified name: the later one wins
/// completely, and the provenance kept is the later document's.
pub proof fn lemma_last_write_wins(
    m: Map<Seq<char>, AttributeModel>,
    prefix1: Option<String>,
    a1: RawAttribute,
    d1: Seq<char>,
    prefix2: Option<String>,
    a2: RawAttribute,
    d2: Seq<char>,
)
    requires
        raw_kept(a1),
        raw_kept(a2),
        spec_fqn(prefix1, a1.id->0@) == spec_fqn(prefix2, a2.id->0@),
    ensures
        apply_attr(apply_attr(m, prefix1, a1, d1), prefix2, a2, d2) == apply_attr(
            m,
            prefix2,
            a2,
            d2,
        ),
        apply_attr(apply_attr(m, prefix1, a1, d1), prefix2, a2, d2)[spec_fqn(
            prefix2,
            a2.id->0@,
        )].defined_in == Some(d2),
{
    let k = spec_fqn(prefix2, a2.id->0@);
    assert(apply_attr(apply_attr(m, prefix1, a1, d1), prefix2, a2, d2) =~= apply_attr(
        m,
        prefix2,
        a2,
        d2,
    ));
}

/// A dataset that contributed no columns changes nothing.
pub proof fn lemma_empty_dataset_is_noop(m: Map<Seq<char>, AttributeModel>, ds: Seq<char>)
    ensures
        spec_apply_dataset(m, ds, Seq::empty()) == m,
{
}

/// A failed fetch is local to its dataset: a dataset standing anywhere in
/// the fold with no columns leaves exactly the fold of all the others.
pub proof fn lemma_fetch_failure_is_local(
    m: Map<Seq<char>, AttributeModel>,
    before: Seq<(Seq<char>, Seq<Seq<char>>)>,
    ds: Seq<char>,
    after: Seq<(Seq<char>, Seq<Seq<char>>)>,
)
    ensures
        spec_apply_usage(m, before + seq![(ds, Seq::<Seq<char>>::empty())] + after)
            == spec_apply_usage(m, before + after),
    decreases after.len(),
{
    let e = (ds, Seq::<Seq<char>>::empty());
    if after.len() == 0 {
        assert((before + seq![e] + after) =~= before + seq![e]);
        assert((before + seq![e]).drop_last() =~= before);
        assert((before + seq![e]).last() == e);
        assert(spec_apply_usage(m, before + seq![e]) == spec_apply_dataset(
            spec_apply_usage(m, before),
            ds,
            Seq::empty(),
        ));
        assert((before + after) =~= before);
    } else {
        let a2 = after.drop_last();
        assert((before + seq![e] + after).drop_last() =~= before + seq![e] + a2);
        assert((before + seq![e] + after).last() == after.last());
        assert((before + after).drop_last() =~= before + a2);
        assert((before + after).last() == after.last());
        lemma_fetch_failure_is_local(m, before, ds, a2);
    }
}

/// The tree that a sequence of catalog entries builds: every entry inserted
/// at its dotted name, in order, under a root named `root` with an empty
/// path.
pub open spec fn spec_root() -> crate::data::NodeModel<Attribute> {
    crate::data::NodeModel {
        name: "root"@,
        path: Seq::empty(),
        value: None,
        children: Seq::empty(),
    }
}

/// The fold of catalog entries into the tree, in order.
pub open spec fn spec_tree_of(s: Seq<(String, Attribute)>) -> crate::data::NodeModel<Attribute>
    decreases s.len(),
{
    if s.len() == 0 {
        spec_root()
    } else {
        spec_tree_of(s.drop_last()).ins(
            crate::paths::split_path(s.last().0@),
            Some(s.last().1),
        )
    }
}

/// Every catalog entry stands in the built tree: looking up its
/// fully-qualified dotted name finds a node carrying its attribute.
pub proof fn lemma_tree_holds_catalog(s: Seq<(String, Attribute)>, i: int)
    requires
        strs_sorted(entry_keys(s)),
        0 <= i < s.len(),
    ensures
        spec_tree_of(s).wf(),
        spec_tree_of(s).value_at(crate::paths::split_path(s[i].0@)) == Some(s[i].1),
    decreases s.len(),
{
    let s0 = s.drop_last();
    assert(entry_keys(s0) =~= entry_keys(s).subrange(0, s.len() - 1));
    assert(strs_sorted(entry_keys(s0)));
    let last = s.last();
    let p = crate::paths::split_path(last.0@);
    if s.len() == 1 {
        assert(spec_root().wf());
        crate::data::lemma_ins_wf(spec_root(), p, Some(last.1));
        crate::data::lemma_ins_get_same(spec_root(), p, Some(last.1));
    } else {
        let j: int = if i < s.len() - 1 {
            i
        } else {
            0
        };
        lemma_tree_holds_catalog(s0, j);
        crate::data::lemma_ins_wf(spec_tree_of(s0), p, Some(last.1));
        if i == s.len() - 1 {
            crate::data::lemma_ins_get_same(spec_tree_of(s0), p, Some(last.1));
        } else {
            let q = crate::paths::split_path(s[i].0@);
            assert(entry_keys(s)[i] == s[i].0@);
            assert(entry_keys(s)[s.len() - 1] == last.0@);
            lemma_strs_sorted_pairwise(entry_keys(s));
            assert(s[i].0@ != last.0@);
            crate::paths::lemma_split_path_injective(s[i].0@, last.0@);
            crate::data::lemma_ins_value_at_other(spec_tree_of(s0), p, Some(last.1), q);
            assert(s0[i] == s[i]);
        }
    }
}

impl SemanticConventions {
    /// Builds the namespace tree: every attribute inserted under its
    /// fully-qualified dotted name, in ascending name order.
    pub fn build_tree(self) -> (root: crate::data::Node<Attribute>)
        requires
            self.wf(),
        ensures
            root@ == spec_tree_of(self.attribute_map@),
            root@.wf(),
    {
        let ghost s = self.attribute_map@;
        let mut root = crate::data::Node::new("root".to_owned(), String::new(), None);
        proof {
            assert(root@ =~= spec_root());
            assert(root@.wf());
        }
        let mut entries = self.attribute_map;
        let n0 = entries.len();
        proof {
            assert(s.len() == n0);
        }
        let mut i: usize = 0;
        while entries.len() > 0
            invariant
                0 <= i,
                i + entries@.len() == s.len(),
                s.len() <= usize::MAX,
                entries@ == s.subrange(i as int, s.len() as int),
                root@ == spec_tree_of(s.subrange(0, i as int)),
                root@.wf(),
            decreases entries@.len(),
        {
            let (k, a) = entries.remove(0);
            proof {
                assert((k, a) == s[i as int]);
                assert(entries@ =~= s.subrange(i + 1 as int, s.len() as int));
            }
            root.add_node(k.as_str(), Some(a));
            proof {
                assert(s.subrange(0, i + 1 as int).drop_last() =~= s.subrange(0, i as int));
                assert(s.subrange(0, i + 1 as int).last() == s[i as int]);
            }
            i += 1;
        }
        proof {
            assert(s.subrange(0, s.len() as int) =~= s);
        }
        root
    }
}

} // verus!
