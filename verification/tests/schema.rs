use meilidb::schema::{diff, displayed, indexed, ranked, Diff, SchemaAttr, SchemaBuilder};
use meilidb::schema::Diff::{AttrMove, AttrPropsChange, IdentChange, NewAttr, RemovedAttr};

#[test]
fn difference() {

    let mut builder = SchemaBuilder::with_identifier("id".to_string());
    builder.new_attribute("alpha".to_string(), displayed());
    builder.new_attribute("beta".to_string(), displayed().union(indexed()));
    builder.new_attribute("gamma".to_string(), indexed());
    builder.new_attribute("omega".to_string(), indexed());
    let old = builder.build();

    let mut builder = SchemaBuilder::with_identifier("kiki".to_string());
    builder.new_attribute("beta".to_string(), displayed().union(indexed()));
    builder.new_attribute("alpha".to_string(), displayed().union(indexed()));
    builder.new_attribute("delta".to_string(), ranked());
    builder.new_attribute("gamma".to_string(), displayed());
    let new = builder.build();

    let differences = diff(&old, &new);
    let expected = &[
        IdentChange {
            before: format!("id"),
            after: format!("kiki"),
        },
        AttrMove {
            name: format!("alpha"),
            before: 0,
            after: 1,
        },
        AttrPropsChange {
            name: format!("alpha"),
            before: displayed(),
            after: displayed().union(indexed()),
        },
        AttrMove {
            name: format!("beta"),
            before: 1,
            after: 0,
        },
        AttrMove {
            name: format!("gamma"),
            before: 2,
            after: 3,
        },
        AttrPropsChange {
            name: format!("gamma"),
            before: indexed(),
            after: displayed(),
        },
        RemovedAttr {
            name: format!("omega"),
        },
        NewAttr {
            name: format!("delta"),
            pos: 2,
            props: ranked(),
        },
    ];

    assert_eq!(&differences, expected)
}

#[test]
fn diff_of_identical_schemas_is_empty() {
    let mut builder = SchemaBuilder::with_identifier("id".to_string());
    builder.new_attribute("title".to_string(), displayed().union(indexed()));
    builder.new_attribute("body".to_string(), indexed());
    let one = builder.build();

    let mut builder = SchemaBuilder::with_identifier("id".to_string());
    builder.new_attribute("title".to_string(), displayed().union(indexed()));
    builder.new_attribute("body".to_string(), indexed());
    let two = builder.build();

    assert_eq!(diff(&one, &two), Vec::<Diff>::new());
}

#[test]
fn schema_lookup() {
    let mut builder = SchemaBuilder::with_identifier("id".to_string());
    let alpha = builder.new_attribute("alpha".to_string(), displayed());
    let beta = builder.new_attribute("beta".to_string(), indexed());
    let schema = builder.build();

    assert_eq!(alpha, SchemaAttr(0));
    assert_eq!(beta, SchemaAttr(1));
    assert_eq!(schema.identifier_name(), "id");
    assert_eq!(schema.attribute("alpha"), Some(SchemaAttr(0)));
    assert_eq!(schema.attribute("beta"), Some(SchemaAttr(1)));
    assert_eq!(schema.attribute("gamma"), None);
    assert_eq!(schema.attribute_name(SchemaAttr(0)), "alpha");
    assert_eq!(schema.attribute_name(SchemaAttr(1)), "beta");
    assert!(schema.props(SchemaAttr(0)).is_displayed());
    assert!(!schema.props(SchemaAttr(0)).is_indexed());
    assert!(schema.props(SchemaAttr(1)).is_indexed());
    assert!(!schema.props(SchemaAttr(1)).is_ranked());

    let listed = schema.iter();
    assert_eq!(listed.len(), 2);
    assert_eq!(listed[0].0, "alpha");
    assert_eq!(listed[0].1, SchemaAttr(0));
    assert_eq!(listed[1].0, "beta");
    assert_eq!(listed[1].1, SchemaAttr(1));
}

#[test]
fn schema_attr_bounds() {
    assert_eq!(SchemaAttr::new(3), SchemaAttr(3));
    assert_eq!(SchemaAttr::min(), SchemaAttr(0));
    assert_eq!(SchemaAttr::max(), SchemaAttr(u16::MAX));
    assert_eq!(SchemaAttr(3).next(), Some(SchemaAttr(4)));
    assert_eq!(SchemaAttr::max().next(), None);
    assert_eq!(SchemaAttr(3).prev(), Some(SchemaAttr(2)));
    assert_eq!(SchemaAttr::min().prev(), None);
}
