use nom_sql::create::{CreateTableStatement, CreateViewStatement, SelectSpecification};
use nom_sql::select::{limit_clause, GroupByClause, JoinClause, LimitClause, SelectStatement};

fn strings(items: &[&str]) -> Vec<String> {
    items.iter().map(|s| s.to_string()).collect()
}

#[test]
fn select_minimal() {
    let s = SelectStatement {
        fields: strings(&["*"]),
        ..Default::default()
    };
    assert_eq!(s.to_string(), "SELECT *");
}

#[test]
fn select_default_is_empty() {
    let s = SelectStatement::default();
    assert!(s.tables.is_empty() && s.fields.is_empty() && s.join.is_empty());
    assert!(!s.distinct && s.where_clause.is_none() && s.group_by.is_none());
    assert!(s.order.is_none() && s.limit.is_none());
    assert_eq!(s.to_string(), "SELECT ");
}

#[test]
fn select_full() {
    let s = SelectStatement {
        tables: strings(&["users", "orders"]),
        distinct: true,
        fields: strings(&["id", "name"]),
        join: vec![JoinClause {
            operator: "JOIN".to_string(),
            right: "items".to_string(),
            constraint: "ON items.id = orders.item".to_string(),
        }],
        where_clause: Some("id = ?".to_string()),
        group_by: Some(GroupByClause {
            columns: strings(&["name"]),
            having: Some("count(*) > 1".to_string()),
        }),
        order: Some("ORDER BY name ASC".to_string()),
        limit: Some(LimitClause { limit: 10, offset: 20 }),
    };
    assert_eq!(
        s.to_string(),
        "SELECT DISTINCT id, name FROM users, orders JOIN items ON items.id = orders.item \
         WHERE id = ? GROUP BY name HAVING count(*) > 1 ORDER BY name ASC LIMIT 10 OFFSET 20"
    );
}

#[test]
fn select_two_joins_no_tables() {
    let j = |op: &str, r: &str| JoinClause {
        operator: op.to_string(),
        right: r.to_string(),
        constraint: "USING (id)".to_string(),
    };
    let s = SelectStatement {
        fields: strings(&["a"]),
        join: vec![j("LEFT JOIN", "t1"), j("INNER JOIN", "t2")],
        ..Default::default()
    };
    assert_eq!(
        s.to_string(),
        "SELECT a LEFT JOIN t1 USING (id) INNER JOIN t2 USING (id)"
    );
}

#[test]
fn select_limit_reads_back() {
    let s = SelectStatement {
        tables: strings(&["t"]),
        fields: strings(&["x"]),
        limit: Some(LimitClause { limit: 3, offset: 0 }),
        ..Default::default()
    };
    let text = s.to_string();
    assert_eq!(text, "SELECT x FROM t LIMIT 3");
    let k = text.len() - s.limit.as_ref().unwrap().to_string().len() - 1;
    let (rest, c) = limit_clause(&text.as_bytes()[k..]).unwrap();
    assert_eq!(c, LimitClause { limit: 3, offset: 0 });
    assert!(rest.is_empty());
}

#[test]
fn group_by_text() {
    let g = GroupByClause { columns: strings(&["a", "b"]), having: None };
    assert_eq!(g.to_string(), "GROUP BY a, b");
    let g = GroupByClause { columns: strings(&["a"]), having: Some("a > 1".to_string()) };
    assert_eq!(g.to_string(), "GROUP BY a HAVING a > 1");
}

#[test]
fn join_text() {
    let j = JoinClause {
        operator: "JOIN".to_string(),
        right: "t".to_string(),
        constraint: "ON t.a = u.a".to_string(),
    };
    assert_eq!(j.to_string(), "JOIN t ON t.a = u.a");
}

#[test]
fn create_table_text() {
    let c = CreateTableStatement {
        table: "users".to_string(),
        fields: strings(&["id int", "name text"]),
        keys: None,
    };
    assert_eq!(c.to_string("users"), "CREATE TABLE users (id int, name text)");
    let c = CreateTableStatement {
        table: "order".to_string(),
        fields: strings(&["id int"]),
        keys: Some(strings(&["PRIMARY KEY (id)"])),
    };
    assert_eq!(
        c.to_string("`order`"),
        "CREATE TABLE `order` (id int, PRIMARY KEY (id))"
    );
}

#[test]
fn create_view_text() {
    let sel = SelectStatement {
        tables: strings(&["users"]),
        fields: strings(&["id"]),
        ..Default::default()
    };
    let v = CreateViewStatement {
        name: "v".to_string(),
        fields: vec![],
        definition: Box::new(SelectSpecification::Simple(sel)),
    };
    assert_eq!(v.to_string("v"), "CREATE VIEW v AS SELECT id FROM users");
    let v = CreateViewStatement {
        name: "v".to_string(),
        fields: strings(&["a", "b"]),
        definition: Box::new(SelectSpecification::Compound(
            "SELECT a FROM x UNION SELECT b FROM y".to_string(),
        )),
    };
    assert_eq!(
        v.to_string("v"),
        "CREATE VIEW v (a, b) AS SELECT a FROM x UNION SELECT b FROM y"
    );
}

#[test]
fn select_specification_text() {
    let s = SelectSpecification::Compound("SELECT 1 UNION SELECT 2".to_string());
    assert_eq!(s.to_string(), "SELECT 1 UNION SELECT 2");
}
