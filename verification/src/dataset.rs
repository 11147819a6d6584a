//! Saved datasets: the checks made before an import is committed, the
//! field rows and source copy written for it, reading datasets back from
//! their stored rows, and which files a deletion may remove.

use vstd::prelude::*;

use crate::error::{invalid_input, AppError};
use crate::import::{ImportResult, ImportSourceType, ImportedFieldDefinition, ImportedFieldType, new_item_id};
use crate::paths::{file_name, file_name_of, opt_text, part_names, path_parts_of, plain_names, plain_parts_only};
use crate::text::{concat, concat3, contains_string, owned, str_eq, trim, trimmed, views};

verus! {

broadcast use vstd::seq_lib::group_seq_properties;

/// A field as saved with a dataset.
#[derive(Debug)]
pub struct SavedFieldDefinition {
    pub id: String,
    pub name: String,
    pub field_type: ImportedFieldType,
    pub display_order: usize,
    pub is_primary_identifier: bool,
    pub is_auxiliary_identifier: bool,
}

/// A saved dataset as listed.
#[derive(Debug)]
pub struct DatasetOverview {
    pub id: String,
    pub name: String,
    pub source_type: ImportSourceType,
    pub source_filename: Option<String>,
    pub item_count: usize,
    pub fields: Vec<SavedFieldDefinition>,
}

/// Where an import's content comes from: a file path or pasted text.
#[derive(Debug)]
pub enum DatasetImportSource {
    File(String),
    PastedText(String),
}

/// A request to import content as a new dataset of a project.
#[derive(Debug)]
pub struct CommitDatasetImport {
    pub project_path: String,
    pub dataset_name: String,
    pub source: DatasetImportSource,
    pub deduplicate: bool,
    pub json_pointer: Option<String>,
    pub primary_identifier: String,
    pub auxiliary_identifiers: Vec<String>,
}

/// A stored field row, its type still as stored text.
#[derive(Debug)]
pub struct StoredField {
    pub id: String,
    pub name: String,
    pub field_type: String,
    pub display_order: usize,
    pub is_primary_identifier: bool,
    pub is_auxiliary_identifier: bool,
}

/// A stored dataset row with its fields, types still as stored text.
#[derive(Debug)]
pub struct StoredDataset {
    pub id: String,
    pub name: String,
    pub source_type: String,
    pub source_filename: Option<String>,
    pub item_count: usize,
    pub fields: Vec<StoredField>,
}

/// What a commit writes besides the items: the trimmed name, the name of
/// the read-only source copy, and the field rows.
#[derive(Debug)]
pub struct CommitPlan {
    pub dataset_name: String,
    pub source_filename: String,
    pub fields: Vec<SavedFieldDefinition>,
}

/// Why the identifier choice is refused, if it is.
pub open spec fn identifier_problem(names: Seq<Seq<char>>, primary: Seq<char>, auxiliary: Seq<Seq<char>>) -> Option<
    Seq<char>,
> {
    if !names.contains(primary) {
        Some("必须选择有效的主标识字段"@)
    } else if exists|i: int| 0 <= i < auxiliary.len() && (#[trigger] auxiliary[i] == primary || !names.contains(auxiliary[i])) {
        Some("辅助标识字段无效，或与主标识字段重复"@)
    } else if !auxiliary.no_duplicates() {
        Some("辅助标识字段不能重复"@)
    } else {
        None
    }
}

/// The names of an import's fields.
pub open spec fn field_names(fields: Seq<ImportedFieldDefinition>) -> Seq<Seq<char>> {
    fields.map_values(|f: ImportedFieldDefinition| f.name@)
}

/// A short random id: a version 4 UUID as 32 hex digits
/// (`uuid::Uuid::new_v4().simple()`).
#[verifier::external_body]
fn new_simple_id() -> (id: String)
    ensures
        id@.len() == 32,
{
    uuid::Uuid::new_v4().simple().to_string()
}

/// The name under which the source of an import is kept, after a random
/// prefix and `_`: a file keeps its file name (`imported-data` when it has
/// none); pasted text becomes `pasted.` and the format's name, `txt` for
/// text.
pub open spec fn source_copy_suffix(source: DatasetImportSource, source_type: ImportSourceType) -> Seq<char> {
    match source {
        DatasetImportSource::File(path) => match file_name_of(path@) {
            Some(n) => n,
            None => "imported-data"@,
        },
        DatasetImportSource::PastedText(_) => "pasted."@ + (if source_type == ImportSourceType::Text {
            "txt"@
        } else {
            source_type.spec_name()
        }),
    }
}

/// Whether a stored source file name is a bare file name, safe to remove
/// from the source folder.
pub open spec fn is_bare_file_name(name: Seq<char>) -> bool {
    file_name_of(name) == Some(name)
}

/// Whether a stored media path lies inside the assets folder: made of
/// plain names and `.` only, the first name `assets`.
pub open spec fn is_asset_path(path: Seq<char>) -> bool {
    let parts = path_parts_of(path);
    plain_parts_only(parts) && part_names(parts).len() > 0 && part_names(parts)[0] == "assets"@
}

/// The saved form of a stored field, or the message for an unknown type.
pub open spec fn decoded_field_type(f: StoredField) -> Option<ImportedFieldType> {
    ImportedFieldType::spec_from_storage(f.field_type@)
}

/// The index of the first stored field whose type is unknown.
pub open spec fn first_bad_field(fields: Seq<StoredField>) -> Option<int> {
    if exists|i: int| 0 <= i < fields.len() && (#[trigger] decoded_field_type(fields[i])) is None {
        Some(choose|i: int| 0 <= i < fields.len() && decoded_field_type(fields[i]) is None && forall|j: int|
            0 <= j < i ==> (#[trigger] decoded_field_type(fields[j])) is Some)
    } else {
        None
    }
}

/// Why a stored dataset cannot be read, if it cannot: its first field of
/// unknown type, else an unknown source type.
pub open spec fn dataset_problem(d: StoredDataset) -> Option<Seq<char>> {
    match first_bad_field(d.fields@) {
        Some(i) => Some("未知的字段类型："@ + d.fields@[i].field_type@),
        None => if ImportSourceType::spec_from_storage(d.source_type@) is None {
            Some("未知的数据来源类型："@ + d.source_type@)
        } else {
            None
        },
    }
}

/// A saved field that mirrors a stored one.
pub open spec fn field_mirrors(s: SavedFieldDefinition, f: StoredField) -> bool {
    &&& s.id@ == f.id@
    &&& s.name@ == f.name@
    &&& Some(s.field_type) == decoded_field_type(f)
    &&& s.display_order == f.display_order
    &&& s.is_primary_identifier == f.is_primary_identifier
    &&& s.is_auxiliary_identifier == f.is_auxiliary_identifier
}

/// An overview that mirrors a stored dataset.
pub open spec fn overview_mirrors(o: DatasetOverview, d: StoredDataset) -> bool {
    &&& o.id@ == d.id@
    &&& o.name@ == d.name@
    &&& Some(o.source_type) == ImportSourceType::spec_from_storage(d.source_type@)
    &&& opt_text(o.source_filename) == opt_text(d.source_filename)
    &&& o.item_count == d.item_count
    &&& o.fields@.len() == d.fields@.len()
    &&& forall|k: int| 0 <= k < d.fields@.len() ==> field_mirrors(#[trigger] o.fields@[k], d.fields@[k])
}

/// The first stored dataset that cannot be read.
pub open spec fn first_bad_dataset(records: Seq<StoredDataset>) -> Option<int> {
    if exists|i: int| 0 <= i < records.len() && (#[trigger] dataset_problem(records[i])) is Some {
        Some(choose|i: int| 0 <= i < records.len() && dataset_problem(records[i]) is Some && forall|j: int|
            0 <= j < i ==> (#[trigger] dataset_problem(records[j])) is None)
    } else {
        None
    }
}

fn clone_opt(o: &Option<String>) -> (r: Option<String>)
    ensures
        opt_text(r) == opt_text(*o),
{
    match o {
        Some(s) => Some(owned(s.as_str())),
        None => None,
    }
}

/// Reads a stored dataset back, or says why it cannot be read.
fn decode_dataset(d: &StoredDataset) -> (r: Result<DatasetOverview, AppError>)
    ensures
        dataset_problem(*d) is None ==> (r matches Ok(o) && overview_mirrors(o, *d)),
        dataset_problem(*d) matches Some(m) ==> (r matches Err(AppError::InvalidProject(e)) && e@ == m),
{
    let mut fields: Vec<SavedFieldDefinition> = Vec::new();
    for k in 0..d.fields.len()
        invariant
            fields@.len() == k,
            forall|j: int| 0 <= j < k ==> (#[trigger] decoded_field_type(d.fields@[j])) is Some,
            forall|j: int| 0 <= j < k ==> field_mirrors(#[trigger] fields@[j], d.fields@[j]),
    {
        let f = &d.fields[k];
        match ImportedFieldType::from_storage(f.field_type.as_str()) {
            Some(t) => {
                fields.push(
                    SavedFieldDefinition {
                        id: owned(f.id.as_str()),
                        name: owned(f.name.as_str()),
                        field_type: t,
                        display_order: f.display_order,
                        is_primary_identifier: f.is_primary_identifier,
                        is_auxiliary_identifier: f.is_auxiliary_identifier,
                    },
                );
            },
            None => {
                proof {
                    let i = first_bad_field(d.fields@).unwrap();
                    assert(decoded_field_type(d.fields@[k as int]) is None);
                    assert(first_bad_field(d.fields@) is Some);
                    if i < k {
                        assert(decoded_field_type(d.fields@[i]) is Some);
                    }
                    if i > k {
                        assert(decoded_field_type(d.fields@[k as int]) is Some);
                    }
                    assert(i == k);
                }
                return Err(AppError::InvalidProject(concat("未知的字段类型：", f.field_type.as_str())));
            },
        }
    }
    assert(first_bad_field(d.fields@) is None);
    match ImportSourceType::from_storage(d.source_type.as_str()) {
        Some(source_type) => Ok(
            DatasetOverview {
                id: owned(d.id.as_str()),
                name: owned(d.name.as_str()),
                source_type,
                source_filename: clone_opt(&d.source_filename),
                item_count: d.item_count,
                fields,
            },
        ),
        None => Err(AppError::InvalidProject(concat("未知的数据来源类型：", d.source_type.as_str()))),
    }
}

/// Saved datasets: what a commit checks and writes, reading them back,
/// and what a deletion removes.
pub struct DatasetService;

impl DatasetService {
    /// The trimmed dataset name; `InvalidInput` when it is empty.
    pub fn check_dataset_name(name: &str) -> (r: Result<String, AppError>)
        ensures
            trimmed(name@).len() > 0 ==> (r matches Ok(n) && n@ == trimmed(name@)),
            trimmed(name@).len() == 0 ==> (r matches Err(AppError::InvalidInput(m)) && m@ == "数据集名称不能为空"@),
    {
        let t = trim(name);
        if crate::text::char_count(t.as_str()) == 0 {
            return Err(AppError::InvalidInput(owned("数据集名称不能为空")));
        }
        Ok(t)
    }

    /// Checks the identifier fields chosen for an import: the primary one
    /// must be a field; each auxiliary one a field other than the primary;
    /// no auxiliary one twice.
    pub fn validate_identifiers(names: &Vec<String>, primary: &str, auxiliary: &Vec<String>) -> (r: Result<
        (),
        AppError,
    >)
        ensures
            identifier_problem(views(names@), primary@, views(auxiliary@)) is None ==> r is Ok,
            identifier_problem(views(names@), primary@, views(auxiliary@)) matches Some(m) ==> (r matches Err(
                AppError::InvalidInput(e),
            ) && e@ == m),
    {
        let p = owned(primary);
        if !contains_string(names, &p) {
            return Err(AppError::InvalidInput(owned("必须选择有效的主标识字段")));
        }
        let ghost a = views(auxiliary@);
        for i in 0..auxiliary.len()
            invariant
                a == views(auxiliary@),
                p@ == primary@,
                views(names@).contains(primary@),
                forall|j: int| 0 <= j < i ==> !(#[trigger] a[j] == primary@ || !views(names@).contains(a[j])),
        {
            if str_eq(auxiliary[i].as_str(), primary) || !contains_string(names, &auxiliary[i]) {
                assert(a[i as int] == primary@ || !views(names@).contains(a[i as int]));
                return Err(AppError::InvalidInput(owned("辅助标识字段无效，或与主标识字段重复")));
            }
        }
        for i in 0..auxiliary.len()
            invariant
                a == views(auxiliary@),
                views(names@).contains(primary@),
                forall|j: int| 0 <= j < a.len() ==> !(#[trigger] a[j] == primary@ || !views(names@).contains(a[j])),
                forall|j: int, k: int| 0 <= j < k < i ==> a[j] != a[k],
        {
            for j in 0..i
                invariant
                    a == views(auxiliary@),
                    i < a.len(),
                    views(names@).contains(primary@),
                    forall|x: int| 0 <= x < a.len() ==> !(#[trigger] a[x] == primary@ || !views(names@).contains(a[x])),
                    forall|x: int, k: int| 0 <= x < k < i ==> a[x] != a[k],
                    forall|x: int| 0 <= x < j ==> a[x] != a[i as int],
            {
                if str_eq(auxiliary[j].as_str(), auxiliary[i].as_str()) {
                    assert(a[j as int] == a[i as int] && j != i);
                    assert(!a.no_duplicates());
                    return Err(AppError::InvalidInput(owned("辅助标识字段不能重复")));
                }
            }
        }
        assert(a.no_duplicates());
        Ok(())
    }

    /// The name of the source copy: `prefix`, `_`, and the suffix the
    /// source calls for.
    pub fn source_copy_name(prefix: &str, source: &DatasetImportSource, source_type: ImportSourceType) -> (r: String)
        ensures
            r@ == prefix@ + "_"@ + source_copy_suffix(*source, source_type),
    {
        match source {
            DatasetImportSource::File(path) => {
                let name = match file_name(path.as_str()) {
                    Some(n) => n,
                    None => owned("imported-data"),
                };
                concat3(prefix, "_", name.as_str())
            },
            DatasetImportSource::PastedText(_) => {
                let extension = match source_type {
                    ImportSourceType::Text => "txt",
                    _ => source_type.as_str(),
                };
                let head = concat3(prefix, "_pasted.", extension);
                proof {
                    assert(prefix@ + "_pasted."@ + extension@ =~= prefix@ + "_"@ + ("pasted."@ + extension@)) by {
                        reveal_strlit("_pasted.");
                        reveal_strlit("_");
                        reveal_strlit("pasted.");
                    }
                }
                head
            },
        }
    }

    /// The field rows saved for an import: each field with a fresh id, its
    /// name, type and place, and whether it is the primary or an auxiliary
    /// identifier.
    pub fn saved_fields(fields: &Vec<ImportedFieldDefinition>, primary: &str, auxiliary: &Vec<String>) -> (r: Vec<
        SavedFieldDefinition,
    >)
        ensures
            r@.len() == fields@.len(),
            forall|k: int|
                0 <= k < fields@.len() ==> {
                    let s = #[trigger] r@[k];
                    &&& s.name@ == fields@[k].name@
                    &&& s.field_type == fields@[k].field_type
                    &&& s.display_order == fields@[k].display_order
                    &&& s.is_primary_identifier == (fields@[k].name@ == primary@)
                    &&& s.is_auxiliary_identifier == views(auxiliary@).contains(fields@[k].name@)
                },
    {
        let mut r: Vec<SavedFieldDefinition> = Vec::new();
        for k in 0..fields.len()
            invariant
                r@.len() == k,
                forall|j: int|
                    0 <= j < k ==> {
                        let s = #[trigger] r@[j];
                        &&& s.name@ == fields@[j].name@
                        &&& s.field_type == fields@[j].field_type
                        &&& s.display_order == fields@[j].display_order
                        &&& s.is_primary_identifier == (fields@[j].name@ == primary@)
                        &&& s.is_auxiliary_identifier == views(auxiliary@).contains(fields@[j].name@)
                    },
        {
            let f = &fields[k];
            r.push(
                SavedFieldDefinition {
                    id: new_item_id(),
                    name: owned(f.name.as_str()),
                    field_type: f.field_type,
                    display_order: f.display_order,
                    is_primary_identifier: str_eq(f.name.as_str(), primary),
                    is_auxiliary_identifier: contains_string(auxiliary, &f.name),
                },
            );
        }
        r
    }

    /// Checks a commit against the import it would save and plans what it
    /// writes: the trimmed name (refused when empty), the identifier
    /// choice (refused as `validate_identifiers` says), the source copy's
    /// name under a fresh prefix, and the field rows.
    pub fn commit_import(request: &CommitDatasetImport, import: &ImportResult) -> (r: Result<CommitPlan, AppError>)
        ensures
            trimmed(request.dataset_name@).len() == 0 ==> (r matches Err(AppError::InvalidInput(m)) && m@
                == "数据集名称不能为空"@),
            trimmed(request.dataset_name@).len() > 0 ==> (identifier_problem(
                field_names(import.fields@),
                request.primary_identifier@,
                views(request.auxiliary_identifiers@),
            ) matches Some(m) ==> (r matches Err(AppError::InvalidInput(e)) && e@ == m)),
            trimmed(request.dataset_name@).len() > 0 && identifier_problem(
                field_names(import.fields@),
                request.primary_identifier@,
                views(request.auxiliary_identifiers@),
            ) is None ==> (r matches Ok(plan) && plan.dataset_name@ == trimmed(request.dataset_name@)
                && plan.source_filename@.len() >= 33 && plan.source_filename@.skip(32) == "_"@ + source_copy_suffix(request.source, import.source_type) && plan.fields@.len()
                == import.fields@.len() && forall|k: int|
                0 <= k < import.fields@.len() ==> {
                    let s = #[trigger] plan.fields@[k];
                    &&& s.name@ == import.fields@[k].name@
                    &&& s.field_type == import.fields@[k].field_type
                    &&& s.display_order == import.fields@[k].display_order
                    &&& s.is_primary_identifier == (import.fields@[k].name@ == request.primary_identifier@)
                    &&& s.is_auxiliary_identifier == views(request.auxiliary_identifiers@).contains(
                        import.fields@[k].name@,
                    )
                }),
    {
        let dataset_name = Self::check_dataset_name(request.dataset_name.as_str())?;
        let mut names: Vec<String> = Vec::new();
        for k in 0..import.fields.len()
            invariant
                views(names@) =~= field_names(import.fields@).take(k as int),
        {
            let ghost before = views(names@);
            names.push(owned(import.fields[k].name.as_str()));
            assert(views(names@) =~= before.push(import.fields@[k as int].name@));
        }
        assert(views(names@) =~= field_names(import.fields@));
        Self::validate_identifiers(&names, request.primary_identifier.as_str(), &request.auxiliary_identifiers)?;
        let prefix = new_simple_id();
        let source_filename = Self::source_copy_name(prefix.as_str(), &request.source, import.source_type);
        proof {
            let suffix = source_copy_suffix(request.source, import.source_type);
            assert(source_filename@.skip(32) =~= "_"@ + suffix);
            reveal_strlit("_");
            reveal_strlit("imported-data");
            reveal_strlit("pasted.");
        }
        let fields = Self::saved_fields(&import.fields, request.primary_identifier.as_str(), &request.auxiliary_identifiers);
        Ok(CommitPlan { dataset_name, source_filename, fields })
    }

    /// Reads stored datasets back in order; `InvalidProject` naming the
    /// first unknown field or source type met.
    pub fn list_datasets(records: &Vec<StoredDataset>) -> (r: Result<Vec<DatasetOverview>, AppError>)
        ensures
            first_bad_dataset(records@) is None ==> (r matches Ok(v) && v@.len() == records@.len() && forall|i: int|
                0 <= i < records@.len() ==> overview_mirrors(#[trigger] v@[i], records@[i])),
            first_bad_dataset(records@) matches Some(i) ==> (r matches Err(AppError::InvalidProject(m))
                && dataset_problem(records@[i]) == Some(m@)),
    {
        let mut out: Vec<DatasetOverview> = Vec::new();
        for i in 0..records.len()
            invariant
                out@.len() == i,
                forall|j: int| 0 <= j < i ==> (#[trigger] dataset_problem(records@[j])) is None,
                forall|j: int| 0 <= j < i ==> overview_mirrors(#[trigger] out@[j], records@[j]),
        {
            match decode_dataset(&records[i]) {
                Ok(o) => out.push(o),
                Err(e) => {
                    proof {
                        assert(dataset_problem(records@[i as int]) is Some);
                        assert(first_bad_dataset(records@) is Some);
                        let f = first_bad_dataset(records@).unwrap();
                        if f < i {
                            assert(dataset_problem(records@[f]) is None);
                        }
                        if f > i {
                            assert(dataset_problem(records@[i as int]) is None);
                        }
                        assert(f == i);
                    }
                    return Err(e);
                },
            }
        }
        assert(first_bad_dataset(records@) is None);
        Ok(out)
    }

    /// The result of deleting a dataset, from the number of rows the delete
    /// removed: no dataset with that id is refused.
    pub fn check_deleted(deleted: usize) -> (r: Result<(), AppError>)
        ensures
            deleted == 0 ==> (r matches Err(AppError::InvalidInput(m)) && m@ == "找不到要删除的数据表"@),
            deleted > 0 ==> r is Ok,
    {
        if deleted == 0 {
            return Err(invalid_input("找不到要删除的数据表"));
        }
        Ok(())
    }

    /// The files a dataset deletion removes, given its stored source file
    /// name and media paths: the source copy when its name is a bare file
    /// name, and the media paths that lie inside the assets folder, in
    /// order.
    pub fn delete_dataset(source_filename: &Option<String>, media_paths: &Vec<String>) -> (r: (
        Option<String>,
        Vec<String>,
    ))
        ensures
            match *source_filename {
                Some(f) => if is_bare_file_name(f@) {
                    opt_text(r.0) == Some(f@)
                } else {
                    r.0 is None
                },
                None => r.0 is None,
            },
            views(r.1@) == views(media_paths@).filter(|p: Seq<char>| is_asset_path(p)),
    {
        let source = match source_filename {
            Some(f) => match file_name(f.as_str()) {
                Some(n) => if str_eq(n.as_str(), f.as_str()) {
                    Some(owned(f.as_str()))
                } else {
                    None
                },
                None => None,
            },
            None => None,
        };
        let mut media: Vec<String> = Vec::new();
        let ghost all = views(media_paths@);
        for i in 0..media_paths.len()
            invariant
                all == views(media_paths@),
                views(media@) == all.take(i as int).filter(|p: Seq<char>| is_asset_path(p)),
        {
            let (names, plain) = plain_names(media_paths[i].as_str());
            let safe = plain && names.len() > 0 && str_eq(names[0].as_str(), "assets");
            let ghost before = views(media@);
            assert(all.take(i + 1) =~= all.take(i as int).push(all[i as int]));
            proof {
                all.take(i as int).lemma_filter_push(all[i as int], |p: Seq<char>| is_asset_path(p));
            }
            if safe {
                media.push(owned(media_paths[i].as_str()));
                assert(views(media@) =~= before.push(all[i as int]));
            }
        }
        assert(all.take(media_paths@.len() as int) =~= all);
        (source, media)
    }
}

} // verus!
