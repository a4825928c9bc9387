//! Plugins of the query engine: files in the working directory read as
//! tables, and the table of cluster members.
use vstd::prelude::*;

use crate::text::to_owned_string;

verus! {

/// How a plugin provides data to the engine.
#[derive(Debug, Clone, Copy, PartialEq, Eq, Structural)]
pub enum PluginType {
    /// Provides one table.
    TableProviderPlugin,
    /// Provides a schema of tables.
    SchemaProviderPlugin,
}

/// The plugin that serves the CSV files of the working directory.
#[derive(Debug, Default, Clone, Copy)]
pub struct FilesPlugin {}

impl FilesPlugin {
    /// The plugin's name.
    pub fn name(&self) -> (r: String)
        ensures
            r@ == "files"@,
    {
        String::from_str("files")
    }

    /// The plugin provides a schema.
    pub fn kind(&self) -> (r: PluginType)
        ensures
            r == PluginType::SchemaProviderPlugin,
    {
        PluginType::SchemaProviderPlugin
    }

    /// The category its tables are reached under.
    pub fn category(&self) -> (r: String)
        ensures
            r@ == "files"@,
    {
        String::from_str("files")
    }
}

/// The schema whose tables are the CSV files of the working directory.
#[derive(Debug, Default, Clone, Copy)]
pub struct FileSystemSchema {}

/// A file name is that of a CSV table.
pub open spec fn is_csv_name(name: Seq<char>) -> bool {
    ".csv"@.is_suffix_of(name)
}

/// The entries among `names` that are CSV tables, in order.
pub open spec fn csv_names(names: Seq<Seq<char>>) -> Seq<Seq<char>>
    decreases names.len(),
{
    if names.len() == 0 {
        Seq::empty()
    } else if is_csv_name(names.last()) {
        csv_names(names.drop_last()).push(names.last())
    } else {
        csv_names(names.drop_last())
    }
}

fn ends_with_csv(s: &str) -> (r: bool)
    ensures
        r == is_csv_name(s@),
{
    proof {
        reveal_strlit(".csv");
    }
    let n = s.unicode_len();
    if n < 4 {
        return false;
    }
    let tail = s.substring_char(n - 4, n);
    let t = crate::text::str_eq(tail, ".csv");
    assert(".csv"@.is_suffix_of(s@) <==> s@.subrange(n - 4, n as int) == ".csv"@) by {
        if ".csv"@.is_suffix_of(s@) {
            assert(s@.subrange(n - 4, n as int) =~= ".csv"@);
        }
    }
    t
}

impl FileSystemSchema {
    /// The tables of the schema, given the names of the directory's entries:
    /// those that end in `.csv`, in the order given.
    pub fn table_names(entries: &Vec<String>) -> (r: Vec<String>)
        ensures
            r.deep_view() == csv_names(entries.deep_view()),
    {
        let mut r: Vec<String> = Vec::new();
        let mut i: usize = 0;
        while i < entries.len()
            invariant
                i <= entries@.len(),
                r.deep_view() == csv_names(entries.deep_view().take(i as int)),
            decreases entries.len() - i,
        {
            let ghost t = entries.deep_view().take(i + 1);
            assert(t.drop_last() =~= entries.deep_view().take(i as int));
            assert(t.last() == entries@[i as int]@);
            if ends_with_csv(entries[i].as_str()) {
                let ghost before = r.deep_view();
                r.push(to_owned_string(entries[i].as_str()));
                assert(r.deep_view() =~= before.push(entries@[i as int]@));
            }
            i = i + 1;
        }
        assert(entries.deep_view().take(entries@.len() as int) =~= entries.deep_view());
        r
    }
}

/// The kinds of column value in the engine's tables.
#[derive(Debug, Clone, Copy, PartialEq, Eq, Structural)]
pub enum ColumnKind {
    Utf8,
    Int32,
    /// Microseconds since the Unix epoch.
    TimestampMicros,
}

/// A column of a table: its name, the kind of its values, and whether a value
/// may be missing.
#[derive(Debug, Clone, Copy)]
pub struct Column {
    pub name: &'static str,
    pub kind: ColumnKind,
    pub nullable: bool,
}

/// The table of the members of the cluster.
#[derive(Debug, Default, Clone, Copy)]
pub struct ClusterTable {}

/// The columns of the cluster table.
pub open spec fn cluster_columns() -> Seq<(Seq<char>, ColumnKind, bool)> {
    seq![
        ("host"@, ColumnKind::Utf8, false),
        ("addr"@, ColumnKind::Utf8, false),
        ("local_rank"@, ColumnKind::Int32, true),
        ("rank"@, ColumnKind::Int32, true),
        ("world_size"@, ColumnKind::Int32, true),
        ("group_rank"@, ColumnKind::Int32, true),
        ("group_world_size"@, ColumnKind::Int32, true),
        ("role_name"@, ColumnKind::Utf8, true),
        ("role_rank"@, ColumnKind::Int32, true),
        ("role_world_size"@, ColumnKind::Int32, true),
        ("status"@, ColumnKind::Utf8, true),
        ("timestamp"@, ColumnKind::TimestampMicros, false),
    ]
}

/// The description of a column.
pub open spec fn column_view(c: Column) -> (Seq<char>, ColumnKind, bool) {
    (c.name@, c.kind, c.nullable)
}

impl ClusterTable {
    /// The table's name.
    pub fn name() -> (r: &'static str)
        ensures
            r@ == "nodes"@,
    {
        "nodes"
    }

    /// The table's columns, one for each field of a member's record.
    pub fn schema() -> (r: Vec<Column>)
        ensures
            r@.map_values(|c: Column| column_view(c)) == cluster_columns(),
    {
        let r = vec![
            Column { name: "host", kind: ColumnKind::Utf8, nullable: false },
            Column { name: "addr", kind: ColumnKind::Utf8, nullable: false },
            Column { name: "local_rank", kind: ColumnKind::Int32, nullable: true },
            Column { name: "rank", kind: ColumnKind::Int32, nullable: true },
            Column { name: "world_size", kind: ColumnKind::Int32, nullable: true },
            Column { name: "group_rank", kind: ColumnKind::Int32, nullable: true },
            Column { name: "group_world_size", kind: ColumnKind::Int32, nullable: true },
            Column { name: "role_name", kind: ColumnKind::Utf8, nullable: true },
            Column { name: "role_rank", kind: ColumnKind::Int32, nullable: true },
            Column { name: "role_world_size", kind: ColumnKind::Int32, nullable: true },
            Column { name: "status", kind: ColumnKind::Utf8, nullable: true },
            Column { name: "timestamp", kind: ColumnKind::TimestampMicros, nullable: false },
        ];
        assert(r@.map_values(|c: Column| column_view(c)) =~= cluster_columns());
        r
    }
}

} // verus!
