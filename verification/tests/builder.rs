use tablestore::ast_builder::table;

#[test]
fn select() {
    // select node -> build
    let actual = table("App").select().build();
    let expected = "SELECT * FROM App";
    assert_eq!(actual, expected);

    let actual = table("Item").alias_as("i").select().build();
    let expected = "SELECT * FROM Item i";
    assert_eq!(actual, expected);
}

#[test]
fn builder_nodes_carry_fields() {
    let node = table("App").create_table();
    assert_eq!(node.table_name, "App");
    assert!(!node.if_not_exists);

    let node = table("App").create_table_if_not_exists();
    assert!(node.if_not_exists);

    let node = table("App").drop_table();
    assert!(!node.if_exists);

    let node = table("App").drop_table_if_exists();
    assert!(node.if_exists);

    let node = table("App").delete();
    assert_eq!(node.table_name, "App");

    let node = table("App").select().join("Item");
    assert_eq!(node.table_name, "Item");
    assert!(node.table_alias.is_none());

    let node = table("App").select().left_join_as("Item", "i");
    assert_eq!(node.table_alias.as_deref(), Some("i"));
}
