use meilidb::error::UnsupportedOperation;
use meilidb::schema::{displayed, indexed, ranked, SchemaBuilder};
use meilidb::update::schema_update_decision;

fn three_attrs(ident: &str, third_ranked: bool) -> meilidb::schema::Schema {
    let mut builder = SchemaBuilder::with_identifier(ident.to_string());
    builder.new_attribute("id".to_string(), displayed());
    builder.new_attribute("title".to_string(), displayed().union(indexed()));
    if third_ranked {
        builder.new_attribute("rank".to_string(), ranked());
    } else {
        builder.new_attribute("rank".to_string(), displayed());
    }
    builder.build()
}

#[test]
fn first_schema_is_accepted() {
    let schema = three_attrs("id", false);
    assert_eq!(schema_update_decision(None, &schema), Ok(false));
}

#[test]
fn unchanged_schema_needs_no_reindex() {
    let old = three_attrs("id", false);
    let new = three_attrs("id", false);
    assert_eq!(schema_update_decision(Some(&old), &new), Ok(false));
}

#[test]
fn ranked_toggle_needs_reindex() {
    let old = three_attrs("id", false);
    let new = three_attrs("id", true);
    assert_eq!(schema_update_decision(Some(&old), &new), Ok(true));
}

#[test]
fn displayed_toggle_needs_no_reindex() {
    let mut builder = SchemaBuilder::with_identifier("id".to_string());
    builder.new_attribute("title".to_string(), displayed().union(indexed()));
    let old = builder.build();

    let mut builder = SchemaBuilder::with_identifier("id".to_string());
    builder.new_attribute("title".to_string(), indexed());
    let new = builder.build();

    assert_eq!(schema_update_decision(Some(&old), &new), Ok(false));
}

#[test]
fn identifier_change_is_refused() {
    let old = three_attrs("id", false);
    let new = three_attrs("key", false);
    assert_eq!(
        schema_update_decision(Some(&old), &new),
        Err(UnsupportedOperation::CannotUpdateSchemaIdentifier)
    );
}

#[test]
fn attribute_reorder_is_refused() {
    let mut builder = SchemaBuilder::with_identifier("id".to_string());
    builder.new_attribute("a".to_string(), displayed());
    builder.new_attribute("b".to_string(), displayed());
    let old = builder.build();

    let mut builder = SchemaBuilder::with_identifier("id".to_string());
    builder.new_attribute("b".to_string(), displayed());
    builder.new_attribute("a".to_string(), displayed());
    let new = builder.build();

    assert_eq!(
        schema_update_decision(Some(&old), &new),
        Err(UnsupportedOperation::CannotReorderSchemaAttribute)
    );
}

#[test]
fn new_attribute_is_refused() {
    let mut builder = SchemaBuilder::with_identifier("id".to_string());
    builder.new_attribute("a".to_string(), displayed());
    let old = builder.build();

    let mut builder = SchemaBuilder::with_identifier("id".to_string());
    builder.new_attribute("a".to_string(), displayed());
    builder.new_attribute("b".to_string(), displayed());
    let new = builder.build();

    assert_eq!(
        schema_update_decision(Some(&old), &new),
        Err(UnsupportedOperation::CannotIntroduceNewSchemaAttribute)
    );
}

#[test]
fn removed_attribute_is_refused() {
    let mut builder = SchemaBuilder::with_identifier("id".to_string());
    builder.new_attribute("a".to_string(), displayed());
    builder.new_attribute("b".to_string(), displayed());
    let old = builder.build();

    let mut builder = SchemaBuilder::with_identifier("id".to_string());
    builder.new_attribute("a".to_string(), displayed());
    let new = builder.build();

    assert_eq!(
        schema_update_decision(Some(&old), &new),
        Err(UnsupportedOperation::CannotRemoveSchemaAttribute)
    );
}
