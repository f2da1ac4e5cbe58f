use honey_explore::honeycomb::{Authorizations, NameAndSlug};
use honey_explore::semconv::{ComplexType, Member, MemberValue};
use honey_explore::text::i64_to_string;
use honey_explore::semconv::{
    parse_primitive_label, primitive_label, resolve_type, Attribute, PrimitiveType, RawAttribute,
    RawGroup, RawTypeDoc, SemanticConventions, Type,
};

fn raw_attr(id: &str, label: Option<&str>) -> RawAttribute {
    RawAttribute {
        id: if id.is_empty() { None } else { Some(id.to_string()) },
        declared_type: label.map(|l| RawTypeDoc::Label(l.to_string())),
        brief: None,
        note: None,
        examples: None,
        deprecated: None,
    }
}

fn lookup<'a>(sc: &'a SemanticConventions, key: &str) -> Option<&'a Attribute> {
    sc.get(key)
}

#[test]
fn primitive_labels_resolve_exactly() {
    let cases = [
        ("string", PrimitiveType::Str),
        ("int", PrimitiveType::Int),
        ("double", PrimitiveType::Double),
        ("boolean", PrimitiveType::Boolean),
        ("string[]", PrimitiveType::ArrayOfString),
        ("int[]", PrimitiveType::ArrayOfInt),
        ("double[]", PrimitiveType::ArrayOfDouble),
        ("boolean[]", PrimitiveType::ArrayOfBoolean),
        ("template[string]", PrimitiveType::TemplateOfString),
        ("template[int]", PrimitiveType::TemplateOfInt),
        ("template[double]", PrimitiveType::TemplateOfDouble),
        ("template[boolean]", PrimitiveType::TemplateOfBoolean),
        ("template[string[]]", PrimitiveType::TemplateOfArrayOfString),
        ("template[int[]]", PrimitiveType::TemplateOfArrayOfInt),
        ("template[double[]]", PrimitiveType::TemplateOfArrayOfDouble),
        ("template[boolean[]]", PrimitiveType::TemplateOfArrayOfBoolean),
    ];
    for (label, kind) in cases {
        assert_eq!(parse_primitive_label(label), Some(kind));
        assert_eq!(primitive_label(kind), label);
    }
    assert_eq!(parse_primitive_label("Strings"), None);
    assert_eq!(parse_primitive_label(""), None);
    assert_eq!(parse_primitive_label("template[strings]"), None);
}

#[test]
fn unknown_label_is_a_parse_error() {
    let r = resolve_type(RawTypeDoc::Label("widget".to_string()));
    match r {
        Err(e) => {
            assert_eq!(e.label, "widget");
            assert_eq!(e.message(), "unrecognized type label: widget");
        }
        Ok(_) => panic!("a made-up label must not resolve"),
    }
}

#[test]
fn template_types_are_recognized() {
    let mut a = raw_attr("x", Some("template[string]"));
    let mut sc = SemanticConventions::new();
    sc.read_document(
        vec![RawGroup { prefix: None, attributes: Some(vec![a]) }],
        "c::f.yml",
    )
    .unwrap();
    assert!(lookup(&sc, "x").unwrap().is_template_type());

    a = raw_attr("y", Some("string"));
    sc.read_document(
        vec![RawGroup { prefix: None, attributes: Some(vec![a]) }],
        "c::f.yml",
    )
    .unwrap();
    assert!(!lookup(&sc, "y").unwrap().is_template_type());
}

#[test]
fn loader_qualifies_names_and_stamps_provenance() {
    let mut sc = SemanticConventions::new();
    let groups = vec![
        RawGroup {
            prefix: Some("aws.s3".to_string()),
            attributes: Some(vec![raw_attr("bucket", Some("string"))]),
        },
        RawGroup {
            prefix: None,
            attributes: Some(vec![raw_attr("region", Some("string"))]),
        },
    ];
    sc.read_document(groups, "otel::aws.yml").unwrap();
    let bucket = lookup(&sc, "aws.s3.bucket").unwrap();
    assert_eq!(bucket.id, Some("bucket".to_string()));
    assert_eq!(bucket.defined_in, Some("otel::aws.yml".to_string()));
    assert!(matches!(bucket.declared_type, Some(Type::Simple(PrimitiveType::Str))));
    assert!(lookup(&sc, "region").is_some());
    assert!(lookup(&sc, "bucket").is_none());
}

#[test]
fn records_without_identifier_are_dropped() {
    let mut sc = SemanticConventions::new();
    let groups = vec![RawGroup {
        prefix: Some("p".to_string()),
        attributes: Some(vec![raw_attr("", Some("string")), raw_attr("kept", None)]),
    }];
    sc.read_document(groups, "c::f.yml").unwrap();
    assert!(lookup(&sc, "p.kept").is_some());
    assert!(lookup(&sc, "p").is_none());
    assert!(lookup(&sc, "p.").is_none());
}

#[test]
fn bad_label_aborts_the_document_untouched() {
    let mut sc = SemanticConventions::new();
    let good = vec![RawGroup {
        prefix: None,
        attributes: Some(vec![raw_attr("before", Some("int"))]),
    }];
    sc.read_document(good, "c::good.yml").unwrap();
    let bad = vec![RawGroup {
        prefix: None,
        attributes: Some(vec![
            raw_attr("a", Some("string")),
            raw_attr("b", Some("no-such-type")),
        ]),
    }];
    let r = sc.read_document(bad, "c::bad.yml");
    assert!(r.is_err());
    assert_eq!(r.unwrap_err().label, "no-such-type");
    // nothing of the failing document was taken
    assert!(lookup(&sc, "a").is_none());
    assert!(lookup(&sc, "before").is_some());
}

#[test]
fn later_corpus_wins_on_duplicate_names() {
    let mut sc = SemanticConventions::new();
    let mut a = raw_attr("bar", Some("string"));
    a.brief = Some("from corpus A".to_string());
    sc.read_document(
        vec![RawGroup { prefix: Some("foo".to_string()), attributes: Some(vec![a]) }],
        "a::one.yml",
    )
    .unwrap();
    let mut b = raw_attr("bar", Some("int"));
    b.brief = Some("from corpus B".to_string());
    sc.read_document(
        vec![RawGroup { prefix: Some("foo".to_string()), attributes: Some(vec![b]) }],
        "b::two.yml",
    )
    .unwrap();
    let kept = lookup(&sc, "foo.bar").unwrap();
    assert_eq!(kept.brief, Some("from corpus B".to_string()));
    assert_eq!(kept.defined_in, Some("b::two.yml".to_string()));
    assert!(matches!(kept.declared_type, Some(Type::Simple(PrimitiveType::Int))));
}

#[test]
fn aggregation_matches_exactly_and_by_template_suffix() {
    let mut sc = SemanticConventions::new();
    let groups = vec![RawGroup {
        prefix: Some("http.request".to_string()),
        attributes: Some(vec![
            raw_attr("header", Some("template[string]")),
            raw_attr("method", Some("string")),
        ]),
    }];
    sc.read_document(groups, "otel::http.yml").unwrap();
    sc.add_usage(
        "web1",
        &vec![
            "http.request.header.accept".to_string(),
            "http.request.method".to_string(),
            "unrelated.column".to_string(),
        ],
    );
    let header = lookup(&sc, "http.request.header").unwrap();
    assert_eq!(
        header.template_suffixes,
        Some(vec![("accept".to_string(), vec!["web1".to_string()])])
    );
    assert_eq!(header.used_by, None);
    let method = lookup(&sc, "http.request.method").unwrap();
    assert_eq!(method.used_by, Some(vec!["web1".to_string()]));
    assert!(lookup(&sc, "unrelated").is_none());
}

#[test]
fn suffix_split_uses_the_last_dot() {
    let mut sc = SemanticConventions::new();
    let groups = vec![RawGroup {
        prefix: None,
        attributes: Some(vec![raw_attr("a.b", Some("template[int]"))]),
    }];
    sc.read_document(groups, "c::f.yml").unwrap();
    sc.add_usage("ds", &vec!["a.b.c".to_string()]);
    let a = lookup(&sc, "a.b").unwrap();
    assert_eq!(
        a.template_suffixes,
        Some(vec![("c".to_string(), vec!["ds".to_string()])])
    );
}

#[test]
fn used_by_is_sorted_and_deduplicated() {
    let mut sc = SemanticConventions::new();
    let groups = vec![RawGroup {
        prefix: None,
        attributes: Some(vec![raw_attr("m", Some("string"))]),
    }];
    sc.read_document(groups, "c::f.yml").unwrap();
    sc.add_usage("zeta", &vec!["m".to_string()]);
    sc.add_usage("alpha", &vec!["m".to_string()]);
    sc.add_usage("zeta", &vec!["m".to_string()]);
    let m = lookup(&sc, "m").unwrap();
    assert_eq!(
        m.used_by,
        Some(vec!["alpha".to_string(), "zeta".to_string()])
    );
}

#[test]
fn one_failed_dataset_does_not_stop_the_others() {
    let mut sc = SemanticConventions::new();
    let groups = vec![RawGroup {
        prefix: None,
        attributes: Some(vec![raw_attr("m", Some("string"))]),
    }];
    sc.read_document(groups, "c::f.yml").unwrap();
    // the failed dataset contributes zero columns; the other two still land
    sc.add_usage_all(&vec![
        ("good1".to_string(), vec!["m".to_string()]),
        ("failed".to_string(), vec![]),
        ("good2".to_string(), vec!["m".to_string()]),
    ]);
    let m = lookup(&sc, "m").unwrap();
    assert_eq!(
        m.used_by,
        Some(vec!["good1".to_string(), "good2".to_string()])
    );
}

#[test]
fn build_tree_holds_every_attribute() {
    let mut sc = SemanticConventions::new();
    let groups = vec![RawGroup {
        prefix: Some("aws.s3".to_string()),
        attributes: Some(vec![
            raw_attr("bucket", Some("string")),
            raw_attr("key", Some("string")),
        ]),
    }];
    sc.read_document(groups, "otel::aws.yml").unwrap();
    let root = sc.build_tree();
    assert_eq!(root.name, "root");
    let bucket = root.get_node("aws.s3.bucket").unwrap();
    let attr = bucket.value.as_ref().unwrap();
    assert_eq!(attr.id, Some("bucket".to_string()));
    assert!(root.get_node("aws.s3").unwrap().value.is_none());
    assert!(root.get_node("aws.nope").is_none());
}

#[test]
fn test_has_required_access() {
    let auth = Authorizations {
        api_key_access: vec![
            ("columns".to_string(), true),
            ("createDatasets".to_string(), true),
            ("queries".to_string(), false),
        ],
        environment: NameAndSlug { name: "env".to_string(), slug: "env".to_string() },
        team: NameAndSlug { name: "team".to_string(), slug: "team".to_string() },
    };
    assert!(auth.has_required_access(&vec![
        "columns".to_string(),
        "createDatasets".to_string()
    ]));
    assert!(!auth.has_required_access(&vec!["queries".to_string()]));
    assert!(!auth.has_required_access(&vec!["missing".to_string()]));
    assert!(auth.has_required_access(&vec![]));
}

#[test]
fn test_i64_to_string() {
    assert_eq!(i64_to_string(0), "0");
    assert_eq!(i64_to_string(7), "7");
    assert_eq!(i64_to_string(1234567890), "1234567890");
    assert_eq!(i64_to_string(-42), "-42");
    assert_eq!(i64_to_string(i64::MIN), "-9223372036854775808");
    assert_eq!(i64_to_string(i64::MAX), "9223372036854775807");
}

#[test]
fn enum_types_describe_their_members() {
    let closed = ComplexType {
        allow_custom_values: false,
        members: vec![
            Member { value: MemberValue::StringType("ok".to_string()) },
            Member { value: MemberValue::IntegerType(404) },
        ],
    };
    assert_eq!(closed.describe(), "enum: ok, 404");
    let open = ComplexType {
        allow_custom_values: true,
        members: vec![Member { value: MemberValue::StringType("lone".to_string()) }],
    };
    assert_eq!(open.describe(), "open enum: lone");
    let empty = ComplexType { allow_custom_values: false, members: vec![] };
    assert_eq!(empty.describe(), "enum: ");
}

#[test]
fn type_describe_uses_the_label() {
    assert_eq!(Type::Simple(PrimitiveType::TemplateOfDouble).describe(), "template[double]");
}

#[test]
fn authorizations_describe_lists_access() {
    let auth = Authorizations {
        api_key_access: vec![("columns".to_string(), true), ("queries".to_string(), false)],
        environment: NameAndSlug { name: "prod".to_string(), slug: "prod".to_string() },
        team: NameAndSlug { name: "acme".to_string(), slug: "acme".to_string() },
    };
    assert_eq!(
        auth.describe(),
        "api_key_access:\ncolumns: true\nqueries: false\n\nenvironment: prod\nteam: acme"
    );
}
