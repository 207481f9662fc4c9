//! A fluent builder for statements over one table.
//!
//! A `TableNode` names a table; each method moves the builder one step
//! further towards a concrete statement node. Every step's contract pins
//! the fields of the node it returns, and building a plain select renders
//! the statement text exactly.

use vstd::prelude::*;

use vstd::string::StringExecFns;

verus! {

/// A raw expression, carried as text.
#[derive(Debug, Clone, PartialEq, Eq)]
pub struct ExprNode {
    pub sql: String,
}

/// A list of expressions.
#[derive(Debug, Clone, PartialEq, Eq)]
pub struct ExprList {
    pub items: Vec<ExprNode>,
}

/// A list of select projection items, carried as text.
#[derive(Debug, Clone, PartialEq, Eq)]
pub struct SelectItemList {
    pub items: Vec<String>,
}

/// A list of ordering expressions, carried as text.
#[derive(Debug, Clone, PartialEq, Eq)]
pub struct OrderByExprList {
    pub items: Vec<String>,
}

/// One ordering expression, carried as text.
#[derive(Debug, Clone, PartialEq, Eq)]
pub struct OrderByExprNode {
    pub sql: String,
}

/// The flavour of a join.
#[derive(Debug, Clone, Copy, PartialEq, Eq)]
pub enum JoinOperatorType {
    Inner,
    Left,
}

/// A select over one table, optionally aliased.
#[derive(Debug, Clone, PartialEq, Eq)]
pub struct SelectNode {
    pub table_name: String,
    pub table_alias: Option<String>,
}

/// A select refined by a filter predicate.
#[derive(Debug, Clone, PartialEq, Eq)]
pub struct FilterNode {
    pub select: SelectNode,
    pub expr: ExprNode,
}

/// A select refined by a grouping list.
#[derive(Debug, Clone, PartialEq, Eq)]
pub struct GroupByNode {
    pub select: SelectNode,
    pub expr_list: ExprList,
}

/// A select refined by an offset.
#[derive(Debug, Clone, PartialEq, Eq)]
pub struct OffsetNode {
    pub select: SelectNode,
    pub expr: ExprNode,
}

/// A select refined by a row limit.
#[derive(Debug, Clone, PartialEq, Eq)]
pub struct LimitNode {
    pub select: SelectNode,
    pub expr: ExprNode,
}

/// A select refined by a projection list.
#[derive(Debug, Clone, PartialEq, Eq)]
pub struct ProjectNode {
    pub select: SelectNode,
    pub select_items: SelectItemList,
}

/// A select refined by an ordering list.
#[derive(Debug, Clone, PartialEq, Eq)]
pub struct OrderByNode {
    pub select: SelectNode,
    pub order_by_exprs: OrderByExprList,
}

/// A select joined with a second table.
#[derive(Debug, Clone, PartialEq, Eq)]
pub struct JoinNode {
    pub select: SelectNode,
    pub table_name: String,
    pub table_alias: Option<String>,
    pub operator: JoinOperatorType,
}

/// A delete over one table.
#[derive(Debug, Clone, PartialEq, Eq)]
pub struct DeleteNode {
    pub table_name: String,
}

/// An index drop on one table.
#[derive(Debug, Clone, PartialEq, Eq)]
pub struct DropIndexNode {
    pub table_name: String,
    pub name: String,
}

/// An index creation on one table.
#[derive(Debug, Clone, PartialEq, Eq)]
pub struct CreateIndexNode {
    pub table_name: String,
    pub name: String,
    pub column: OrderByExprNode,
}

/// A column listing of one table.
#[derive(Debug, Clone, PartialEq, Eq)]
pub struct ShowColumnsNode {
    pub table_name: String,
}

/// A schema alteration of one table.
#[derive(Debug, Clone, PartialEq, Eq)]
pub struct AlterTableNode {
    pub table_name: String,
}

/// A table creation.
#[derive(Debug, Clone, PartialEq, Eq)]
pub struct CreateTableNode {
    pub table_name: String,
    pub if_not_exists: bool,
}

/// A table drop.
#[derive(Debug, Clone, PartialEq, Eq)]
pub struct DropTableNode {
    pub table_name: String,
    pub if_exists: bool,
}

/// An update of one table.
#[derive(Debug, Clone, PartialEq, Eq)]
pub struct UpdateNode {
    pub table_name: String,
}

/// An insert into one table.
#[derive(Debug, Clone, PartialEq, Eq)]
pub struct InsertNode {
    pub table_name: String,
}

impl SelectNode {
    pub fn new(table_name: String, table_alias: Option<String>) -> (r: Self)
        ensures
            r.table_name == table_name,
            r.table_alias == table_alias,
    {
        Self { table_name, table_alias }
    }

    pub fn filter(self, expr: ExprNode) -> (r: FilterNode)
        ensures
            r.select == self,
            r.expr == expr,
    {
        FilterNode { select: self, expr }
    }

    pub fn group_by(self, expr_list: ExprList) -> (r: GroupByNode)
        ensures
            r.select == self,
            r.expr_list == expr_list,
    {
        GroupByNode { select: self, expr_list }
    }

    pub fn offset(self, expr: ExprNode) -> (r: OffsetNode)
        ensures
            r.select == self,
            r.expr == expr,
    {
        OffsetNode { select: self, expr }
    }

    pub fn limit(self, expr: ExprNode) -> (r: LimitNode)
        ensures
            r.select == self,
            r.expr == expr,
    {
        LimitNode { select: self, expr }
    }

    pub fn project(self, select_items: SelectItemList) -> (r: ProjectNode)
        ensures
            r.select == self,
            r.select_items == select_items,
    {
        ProjectNode { select: self, select_items }
    }

    pub fn order_by(self, order_by_exprs: OrderByExprList) -> (r: OrderByNode)
        ensures
            r.select == self,
            r.order_by_exprs == order_by_exprs,
    {
        OrderByNode { select: self, order_by_exprs }
    }

    pub fn join(self, table_name: &str) -> (r: JoinNode)
        ensures
            r.select == self,
            r.table_name@ == table_name@,
            r.table_alias is None,
            r.operator == JoinOperatorType::Inner,
    {
        JoinNode {
            select: self,
            table_name: table_name.to_owned(),
            table_alias: None,
            operator: JoinOperatorType::Inner,
        }
    }

    pub fn join_as(self, table_name: &str, alias: &str) -> (r: JoinNode)
        ensures
            r.select == self,
            r.table_name@ == table_name@,
            r.table_alias matches Some(a) && a@ == alias@,
            r.operator == JoinOperatorType::Inner,
    {
        JoinNode {
            select: self,
            table_name: table_name.to_owned(),
            table_alias: Some(alias.to_owned()),
            operator: JoinOperatorType::Inner,
        }
    }

    pub fn left_join(self, table_name: &str) -> (r: JoinNode)
        ensures
            r.select == self,
            r.table_name@ == table_name@,
            r.table_alias is None,
            r.operator == JoinOperatorType::Left,
    {
        JoinNode {
            select: self,
            table_name: table_name.to_owned(),
            table_alias: None,
            operator: JoinOperatorType::Left,
        }
    }

    pub fn left_join_as(self, table_name: &str, alias: &str) -> (r: JoinNode)
        ensures
            r.select == self,
            r.table_name@ == table_name@,
            r.table_alias matches Some(a) && a@ == alias@,
            r.operator == JoinOperatorType::Left,
    {
        JoinNode {
            select: self,
            table_name: table_name.to_owned(),
            table_alias: Some(alias.to_owned()),
            operator: JoinOperatorType::Left,
        }
    }

    /// The statement text a plain select renders to.
    pub open spec fn sql(self) -> Seq<char> {
        match self.table_alias {
            None => "SELECT * FROM "@ + self.table_name@,
            Some(a) => "SELECT * FROM "@ + self.table_name@ + " "@ + a@,
        }
    }

    /// Lower the builder into the shape of a full select statement: a
    /// wildcard projection over the named relation, with every other
    /// clause empty.
    pub fn prebuild(self) -> (r: NodeData)
        ensures
            r.projection@.len() == 1 && r.projection@[0] == SelectItem::Wildcard,
            r.relation matches TableFactor::Table { name, alias } && ({
                &&& name == self.table_name
                &&& match self.table_alias {
                    None => alias is None,
                    Some(a) => alias matches Some(ta) && ta.name == a && ta.columns@.len() == 0,
                }
            }),
            r.filter is None,
            r.group_by@.len() == 0,
            r.having is None,
            r.order_by@.len() == 0,
            r.offset is None,
            r.limit is None,
    {
        let alias = match self.table_alias {
            None => None,
            Some(name) => Some(TableAlias { name, columns: Vec::new() }),
        };
        let relation = TableFactor::Table { name: self.table_name, alias };
        let mut projection: Vec<SelectItem> = Vec::new();
        projection.push(SelectItem::Wildcard);
        NodeData {
            projection,
            relation,
            filter: None,
            group_by: Vec::new(),
            having: None,
            order_by: Vec::new(),
            offset: None,
            limit: None,
        }
    }

    /// Render the select as statement text.
    pub fn build(self) -> (r: String)
        ensures
            r@ == self.sql(),
    {
        let data = self.prebuild();
        let mut out = String::new();
        out.append("SELECT * FROM ");
        match data.relation {
            TableFactor::Table { name, alias } => {
                out.append(name.as_str());
                match alias {
                    None => {},
                    Some(a) => {
                        out.append(" ");
                        out.append(a.name.as_str());
                    },
                }
            },
        }
        out
    }
}

/// One item of a select's projection list.
#[derive(Debug, Clone, PartialEq, Eq)]
pub enum SelectItem {
    Wildcard,
}

/// A relation's alias, with optional column aliases.
#[derive(Debug, Clone, PartialEq, Eq)]
pub struct TableAlias {
    pub name: String,
    pub columns: Vec<String>,
}

/// The relation a select draws from.
#[derive(Debug, Clone, PartialEq, Eq)]
pub enum TableFactor {
    Table { name: String, alias: Option<TableAlias> },
}

/// The full shape of a select statement under construction.
#[derive(Debug, Clone, PartialEq, Eq)]
pub struct NodeData {
    pub projection: Vec<SelectItem>,
    pub relation: TableFactor,
    pub filter: Option<ExprNode>,
    pub group_by: Vec<ExprNode>,
    pub having: Option<ExprNode>,
    pub order_by: Vec<String>,
    pub offset: Option<ExprNode>,
    pub limit: Option<ExprNode>,
}

/// A named table, the root of every builder chain.
#[derive(Debug, Clone, PartialEq, Eq)]
pub struct TableNode {
    pub table_name: String,
}

/// A named table together with its alias.
#[derive(Debug, Clone, PartialEq, Eq)]
pub struct TableAliasNode {
    pub table_node: TableNode,
    pub table_alias: String,
}

/// Begin a builder chain on the named table.
pub fn table(table_name: &str) -> (r: TableNode)
    ensures
        r.table_name@ == table_name@,
{
    TableNode { table_name: table_name.to_owned() }
}

impl TableNode {
    pub fn alias_as(self, table_alias: &str) -> (r: TableAliasNode)
        ensures
            r.table_node == self,
            r.table_alias@ == table_alias@,
    {
        TableAliasNode { table_node: self, table_alias: table_alias.to_owned() }
    }

    pub fn select(self) -> (r: SelectNode)
        ensures
            r.table_name == self.table_name,
            r.table_alias is None,
    {
        SelectNode::new(self.table_name, None)
    }

    pub fn delete(self) -> (r: DeleteNode)
        ensures
            r.table_name == self.table_name,
    {
        DeleteNode { table_name: self.table_name }
    }

    pub fn drop_index(self, name: &str) -> (r: DropIndexNode)
        ensures
            r.table_name == self.table_name,
            r.name@ == name@,
    {
        DropIndexNode { table_name: self.table_name, name: name.to_owned() }
    }

    pub fn create_index(self, name: &str, column: OrderByExprNode) -> (r: CreateIndexNode)
        ensures
            r.table_name == self.table_name,
            r.name@ == name@,
            r.column == column,
    {
        CreateIndexNode { table_name: self.table_name, name: name.to_owned(), column }
    }

    pub fn show_columns(self) -> (r: ShowColumnsNode)
        ensures
            r.table_name == self.table_name,
    {
        ShowColumnsNode { table_name: self.table_name }
    }

    pub fn alter_table(self) -> (r: AlterTableNode)
        ensures
            r.table_name == self.table_name,
    {
        AlterTableNode { table_name: self.table_name }
    }

    pub fn create_table(self) -> (r: CreateTableNode)
        ensures
            r.table_name == self.table_name,
            !r.if_not_exists,
    {
        CreateTableNode { table_name: self.table_name, if_not_exists: false }
    }

    pub fn create_table_if_not_exists(self) -> (r: CreateTableNode)
        ensures
            r.table_name == self.table_name,
            r.if_not_exists,
    {
        CreateTableNode { table_name: self.table_name, if_not_exists: true }
    }

    pub fn drop_table(self) -> (r: DropTableNode)
        ensures
            r.table_name == self.table_name,
            !r.if_exists,
    {
        DropTableNode { table_name: self.table_name, if_exists: false }
    }

    pub fn drop_table_if_exists(self) -> (r: DropTableNode)
        ensures
            r.table_name == self.table_name,
            r.if_exists,
    {
        DropTableNode { table_name: self.table_name, if_exists: true }
    }

    pub fn update(self) -> (r: UpdateNode)
        ensures
            r.table_name == self.table_name,
    {
        UpdateNode { table_name: self.table_name }
    }

    pub fn insert(self) -> (r: InsertNode)
        ensures
            r.table_name == self.table_name,
    {
        InsertNode { table_name: self.table_name }
    }
}

impl TableAliasNode {
    pub fn select(self) -> (r: SelectNode)
        ensures
            r.table_name == self.table_node.table_name,
            r.table_alias matches Some(a) && a == self.table_alias,
    {
        SelectNode::new(self.table_node.table_name, Some(self.table_alias))
    }
}

} // verus!
