use crate::association::{collect_associations, distinct_texts, has_text, is_derived};
use vstd::prelude::*;

verus! {

/// Direction of a transfer.
#[derive(Debug, Clone, Copy, PartialEq, Eq, Structural)]
pub enum SyncMode {
    Import,
    Export,
}

/// A column whose value is read from a field path of the entity.
#[derive(Debug, Clone)]
pub struct EntityPathMapping {
    pub file_column: String,
    /// Dotted path to the field; a segment may end in `?` where the
    /// relation is optional.
    pub entity_path: String,
}

/// A column whose value the serialize script produces under a key.
#[derive(Debug, Clone)]
pub struct EntityScriptMapping {
    pub file_column: String,
    pub key: String,
}

/// One column of the file and where its value comes from.
#[derive(Debug, Clone)]
pub enum Mapping {
    ByPath(EntityPathMapping),
    ByScript(EntityScriptMapping),
}

impl Mapping {
    /// Name of the file column.
    pub open spec fn spec_file_column(self) -> Seq<char> {
        match self {
            Mapping::ByPath(by_path) => by_path.file_column@,
            Mapping::ByScript(by_script) => by_script.file_column@,
        }
    }

    /// Name of the file column that this mapping fills.
    pub fn get_file_column(&self) -> (column: &str)
        ensures
            column@ == self.spec_file_column(),
    {
        match self {
            Mapping::ByPath(by_path) => by_path.file_column.as_str(),
            Mapping::ByScript(by_script) => by_script.file_column.as_str(),
        }
    }
}

/// The mapping schema: the remote entity and the file's columns in their
/// declared order.
#[derive(Debug, Clone)]
pub struct Schema {
    pub entity: String,
    pub mappings: Vec<Mapping>,
    pub associations: Vec<String>,
}

/// Description of one transfer, fixed before any work starts and only read
/// afterwards.
#[derive(Debug)]
pub struct SyncContext {
    pub schema: Schema,
    /// The input or output file.
    pub file: String,
    /// Configured cap on the page size.
    pub limit: Option<u64>,
    /// How many requests may be in flight at the same time.
    pub in_flight_limit: usize,
    /// Related entities that the remote service has to expand.
    pub associations: Vec<String>,
}

impl SyncContext {
    /// The relations to expand are those the schema names and those its
    /// field paths reach through, each once.
    pub open spec fn wf(self) -> bool {
        &&& distinct_texts(self.associations@)
        &&& forall|t: Seq<char>| #[trigger]
            has_text(self.associations@, t) <==> has_text(self.schema.associations@, t)
                || is_derived(self.schema.mappings@, t)
    }
}

/// Describes a transfer: keeps what it is given and works out which
/// relations the remote service has to expand.
pub fn create_context(
    schema: Schema,
    file: String,
    limit: Option<u64>,
    in_flight_limit: usize,
) -> (context: SyncContext)
    ensures
        context.schema == schema,
        context.file == file,
        context.limit == limit,
        context.in_flight_limit == in_flight_limit,
        context.wf(),
{
    let associations = collect_associations(&schema);
    SyncContext { schema, file, limit, in_flight_limit, associations }
}

/// The header row of a schema: the column names in declared order.
pub open spec fn spec_header_line(mappings: Seq<Mapping>) -> Seq<Seq<char>> {
    Seq::new(mappings.len(), |i: int| mappings[i].spec_file_column())
}

/// The text of each cell of a row.
pub open spec fn row_text(row: Seq<String>) -> Seq<Seq<char>> {
    Seq::new(row.len(), |i: int| row[i]@)
}

/// The header row: one cell per mapping, holding the mapping's file column,
/// in the order the schema declares them.
pub fn get_header_line(context: &SyncContext) -> (columns: Vec<String>)
    ensures
        row_text(columns@) == spec_header_line(context.schema.mappings@),
{
    let mut columns: Vec<String> = Vec::new();
    let n: usize = context.schema.mappings.len();
    let mut i: usize = 0;
    while i < n
        invariant
            n == context.schema.mappings@.len(),
            i <= n,
            columns@.len() == i,
            forall|j: int|
                0 <= j < i ==> (#[trigger] columns@[j])@
                    == context.schema.mappings@[j].spec_file_column(),
        decreases n - i,
    {
        columns.push(context.schema.mappings[i].get_file_column().to_owned());
        i = i + 1;
    }
    assert(row_text(columns@) =~= spec_header_line(context.schema.mappings@));
    columns
}

} // verus!
