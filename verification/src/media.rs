//! Images of items: which image types can be previewed and how, which
//! references an import or a folder of images supplies, and how folder
//! files are matched to the references.

use vstd::prelude::*;

use crate::error::AppError;
use crate::import::{
    fields_view, image_reference, spec_image_reference, strip_query, before_query, ImportResult,
    ImportedFieldDefinition, ImportedFieldType, ImportedItem,
};
use crate::json::{find_member, lemma_object_view, lookup, JsonValue, JsonView};
use crate::paths::{
    file_name, file_name_of, lowercase_of, opt_text, part_names, path_extension, path_extension_of, path_parts_of,
    plain_names, to_lowercase,
};
use crate::text::{ascii_lower, chars_of, concat, concat3, joined, join, owned, str_eq, to_ascii_lowercase, views};

verus! {

broadcast use vstd::seq_lib::group_seq_properties;

/// The largest image file shown as a preview, in bytes.
pub const MAX_PREVIEW_BYTES: u64 = 20971520;

/// The most image files one folder import takes.
pub const MAX_FOLDER_IMAGES: usize = 10000;

/// What the interface shows for an item's image.
#[derive(Debug, PartialEq, Eq)]
pub enum MediaPreview {
    LocalReady { data_url: String },
    RemoteReady { url: String },
    RemoteBlocked,
    Missing,
    TooLarge,
}

/// How a folder import went.
#[derive(Debug, Clone, Copy, PartialEq, Eq, Structural)]
pub struct MediaFolderImportResult {
    pub image_file_count: usize,
    pub matched_item_count: usize,
    pub matched_asset_count: usize,
    pub unmatched_item_count: usize,
}

/// A stored media reference of an item's field.
#[derive(Debug)]
pub struct MediaAssetRecord {
    pub id: String,
    pub dataset_id: String,
    pub item_id: String,
    pub field_name: String,
    pub source_kind: String,
    pub source_value: String,
    pub local_path: Option<String>,
    pub created_at: String,
}

/// What a preview needs next: nothing more, or the stored local file at
/// this project-relative path.
#[derive(Debug)]
pub enum PreviewStep {
    Done(MediaPreview),
    ReadLocal(String),
}

/// An image reference found in an imported item's field.
#[derive(Debug)]
pub struct MediaReference {
    pub item_id: String,
    pub field_name: String,
    pub reference: String,
    pub remote: bool,
}

/// A stored item offered to a folder import: its id and fields.
#[derive(Debug)]
pub struct FolderItem {
    pub id: String,
    pub fields: Vec<(String, JsonValue)>,
}

/// A reference matched to a folder file, by the file's position.
#[derive(Debug)]
pub struct FolderAsset {
    pub item_id: String,
    pub field_name: String,
    pub reference: String,
    pub file: usize,
}

/// What a folder import matched, and its counts.
#[derive(Debug)]
pub struct FolderMatch {
    pub assets: Vec<FolderAsset>,
    pub result: MediaFolderImportResult,
}

/// The MIME type of an image file extension, in lower case.
pub open spec fn mime_of(extension: Seq<char>) -> Option<Seq<char>> {
    if extension == "png"@ {
        Some("image/png"@)
    } else if extension == "jpg"@ || extension == "jpeg"@ {
        Some("image/jpeg"@)
    } else if extension == "gif"@ {
        Some("image/gif"@)
    } else if extension == "webp"@ {
        Some("image/webp"@)
    } else if extension == "bmp"@ {
        Some("image/bmp"@)
    } else if extension == "svg"@ {
        Some("image/svg+xml"@)
    } else {
        None
    }
}

/// The MIME type of the image a path names, by its extension.
pub open spec fn spec_image_mime(path: Seq<char>) -> Option<Seq<char>> {
    match path_extension_of(path) {
        Some(e) => mime_of(ascii_lower(e)),
        None => None,
    }
}

/// The MIME type of the image a path names, by its extension without
/// regard to ASCII case; none for other files.
pub fn image_mime(path: &str) -> (r: Option<&'static str>)
    ensures
        match r {
            Some(m) => spec_image_mime(path@) == Some(m@),
            None => spec_image_mime(path@) is None,
        },
{
    let extension = match path_extension(path) {
        Some(e) => to_ascii_lowercase(e.as_str()),
        None => {
            return None;
        },
    };
    let e = extension.as_str();
    if str_eq(e, "png") {
        Some("image/png")
    } else if str_eq(e, "jpg") || str_eq(e, "jpeg") {
        Some("image/jpeg")
    } else if str_eq(e, "gif") {
        Some("image/gif")
    } else if str_eq(e, "webp") {
        Some("image/webp")
    } else if str_eq(e, "bmp") {
        Some("image/bmp")
    } else if str_eq(e, "svg") {
        Some("image/svg+xml")
    } else {
        None
    }
}

/// The key a path is matched by: its plain names joined by `/`, in
/// Unicode lower case.
pub open spec fn match_key(path: Seq<char>) -> Seq<char> {
    lowercase_of(joined(part_names(path_parts_of(path)), "/"@))
}

/// The key a path is matched by: its plain names joined by `/`, in
/// Unicode lower case.
pub fn normalize_match_path(path: &str) -> (r: String)
    ensures
        r@ == match_key(path@),
{
    let (names, _) = plain_names(path);
    let joined_names = join(&names, "/");
    to_lowercase(joined_names.as_str())
}

/// The character of a six-bit value in the standard base64 alphabet:
/// `A`–`Z`, `a`–`z`, `0`–`9`, `+`, `/`.
pub open spec fn base64_char(v: int) -> char {
    if v < 26 {
        (65 + v) as char
    } else if v < 52 {
        (71 + v) as char
    } else if v < 62 {
        (v - 4) as char
    } else if v == 62 {
        '+'
    } else {
        '/'
    }
}

/// Standard padded base64 (RFC 4648): each group of three bytes gives four
/// characters of six bits each; a last group of one or two bytes is padded
/// with `=`.
pub open spec fn base64_of(b: Seq<u8>) -> Seq<char>
    decreases b.len(),
{
    let x0 = if b.len() > 0 { b[0] as int } else { 0 };
    let x1 = if b.len() > 1 { b[1] as int } else { 0 };
    let x2 = if b.len() > 2 { b[2] as int } else { 0 };
    if b.len() == 0 {
        Seq::empty()
    } else if b.len() == 1 {
        seq![base64_char(x0 / 4), base64_char((x0 % 4) * 16), '=', '=']
    } else if b.len() == 2 {
        seq![base64_char(x0 / 4), base64_char((x0 % 4) * 16 + x1 / 16), base64_char((x1 % 16) * 4), '=']
    } else {
        seq![
            base64_char(x0 / 4),
            base64_char((x0 % 4) * 16 + x1 / 16),
            base64_char((x1 % 16) * 4 + x2 / 64),
            base64_char(x2 % 64),
        ] + base64_of(b.subrange(3, b.len() as int))
    }
}

/// Encodes bytes as standard padded base64
/// (`base64::engine::general_purpose::STANDARD.encode`): the contract
/// claims the crate's standard engine writes RFC 4648 base64 with the
/// standard alphabet and `=` padding, as its documentation states.
#[verifier::external_body]
fn base64_encode(bytes: &[u8]) -> (r: String)
    requires
        bytes@.len() <= MAX_PREVIEW_BYTES,
    ensures
        r@ == base64_of(bytes@),
{
    base64::Engine::encode(&base64::engine::general_purpose::STANDARD, bytes)
}

/// A reference that points to the web.
pub open spec fn is_remote(reference: Seq<char>) -> bool {
    (reference.len() >= 8 && reference.take(8) == "https://"@) || (reference.len() >= 7 && reference.take(7)
        == "http://"@)
}

fn starts_with(text: &str, prefix: &str) -> (r: bool)
    ensures
        r == (prefix@.len() <= text@.len() && text@.take(prefix@.len() as int) == prefix@),
{
    let t = chars_of(text);
    let p = chars_of(prefix);
    if p.len() > t.len() {
        return false;
    }
    for i in 0..p.len()
        invariant
            t@ == text@,
            p@ == prefix@,
            p@.len() <= t@.len(),
            forall|j: int| 0 <= j < i ==> t@[j] == p@[j],
    {
        if t[i] != p[i] {
            assert(text@.take(prefix@.len() as int)[i as int] != prefix@[i as int]);
            return false;
        }
    }
    assert(text@.take(prefix@.len() as int) =~= prefix@);
    true
}

fn remote_reference(reference: &str) -> (r: bool)
    ensures
        r == is_remote(reference@),
{
    proof {
        reveal_strlit("https://");
        reveal_strlit("http://");
    }
    starts_with(reference, "https://") || starts_with(reference, "http://")
}

/// The image reference a row holds under a field name: that of its text
/// value.
pub open spec fn row_reference(row: Seq<(Seq<char>, JsonView)>, name: Seq<char>) -> Option<Seq<char>> {
    match lookup(row, name) {
        Some(JsonView::Str(t)) => spec_image_reference(t),
        _ => None,
    }
}

/// The references a row holds under the named fields, field by field:
/// each field's name and reference.
pub open spec fn row_references(row: Seq<(Seq<char>, JsonView)>, names: Seq<Seq<char>>) -> Seq<
    (Seq<char>, Seq<char>),
>
    decreases names.len(),
{
    if names.len() == 0 {
        Seq::empty()
    } else {
        let before = row_references(row, names.drop_last());
        match row_reference(row, names.last()) {
            Some(r) => before.push((names.last(), r)),
            None => before,
        }
    }
}

/// The references of the rows, row by row: the row's id, the field and
/// the reference.
pub open spec fn all_references(rows: Seq<(Seq<char>, Seq<(Seq<char>, JsonView)>)>, names: Seq<Seq<char>>) -> Seq<
    (Seq<char>, Seq<char>, Seq<char>),
>
    decreases rows.len(),
{
    if rows.len() == 0 {
        Seq::empty()
    } else {
        let id = rows.last().0;
        all_references(rows.drop_last(), names) + row_references(rows.last().1, names).map_values(
            |p: (Seq<char>, Seq<char>)| (id, p.0, p.1),
        )
    }
}

/// The names of an import's image fields, in order.
pub open spec fn image_field_names(fields: Seq<ImportedFieldDefinition>) -> Seq<Seq<char>> {
    fields.filter(|f: ImportedFieldDefinition| f.field_type == ImportedFieldType::Image).map_values(
        |f: ImportedFieldDefinition| f.name@,
    )
}

/// An imported item as id and row.
pub open spec fn item_row(it: ImportedItem) -> (Seq<char>, Seq<(Seq<char>, JsonView)>) {
    (it.id@, fields_view(it.fields@))
}

/// A folder item as id and row.
pub open spec fn folder_row(it: FolderItem) -> (Seq<char>, Seq<(Seq<char>, JsonView)>) {
    (it.id@, fields_view(it.fields@))
}

/// A found reference as text.
pub open spec fn reference_view(r: MediaReference) -> (Seq<char>, Seq<char>, Seq<char>) {
    (r.item_id@, r.field_name@, r.reference@)
}

/// The reference an item's field holds, if any.
fn field_reference(fields: &Vec<(String, JsonValue)>, name: &str) -> (r: Option<String>)
    ensures
        opt_text(r) == row_reference(fields_view(fields@), name@),
{
    match find_member(fields, name) {
        Some(k) => {
            proof {
                lemma_object_view(fields@);
            }
            match &fields[k].1 {
                JsonValue::String(text) => image_reference(text.as_str()),
                _ => None,
            }
        },
        None => None,
    }
}

/// The references of one row under the named fields, appended to `out`
/// with the row's id.
fn collect_row_references(
    id: &String,
    fields: &Vec<(String, JsonValue)>,
    names: &Vec<String>,
    out: &mut Vec<MediaReference>,
)
    ensures
        final(out)@.map_values(|r: MediaReference| reference_view(r)) == old(out)@.map_values(
            |r: MediaReference| reference_view(r),
        ) + row_references(fields_view(fields@), views(names@)).map_values(
            |p: (Seq<char>, Seq<char>)| (id@, p.0, p.1),
        ),
        forall|k: int| 0 <= k < old(out)@.len() ==> #[trigger] final(out)@[k] == old(out)@[k],
        forall|k: int|
            old(out)@.len() <= k < final(out)@.len() ==> (#[trigger] final(out)@[k]).remote == is_remote(
                final(out)@[k].reference@,
            ),
{
    let ghost start = out@;
    let ghost row = fields_view(fields@);
    let ghost all = views(names@);
    for j in 0..names.len()
        invariant
            row == fields_view(fields@),
            all == views(names@),
            out@.len() >= start.len(),
            forall|k: int| 0 <= k < start.len() ==> #[trigger] out@[k] == start[k],
            forall|k: int| start.len() <= k < out@.len() ==> (#[trigger] out@[k]).remote == is_remote(out@[k].reference@),
            out@.map_values(|r: MediaReference| reference_view(r)) == start.map_values(|r: MediaReference| reference_view(r))
                + row_references(row, all.take(j as int)).map_values(|p: (Seq<char>, Seq<char>)| (id@, p.0, p.1)),
    {
        let ghost before = out@;
        assert(all.take(j + 1).drop_last() =~= all.take(j as int));
        match field_reference(fields, names[j].as_str()) {
            Some(reference) => {
                let remote = remote_reference(reference.as_str());
                out.push(MediaReference { item_id: owned(id.as_str()), field_name: owned(names[j].as_str()), reference, remote });
                assert(out@.map_values(|r: MediaReference| reference_view(r)) =~= before.map_values(
                    |r: MediaReference| reference_view(r),
                ).push((id@, all[j as int], out@.last().reference@)));
                assert(row_references(row, all.take(j + 1)).map_values(|p: (Seq<char>, Seq<char>)| (id@, p.0, p.1))
                    =~= row_references(row, all.take(j as int)).map_values(
                    |p: (Seq<char>, Seq<char>)| (id@, p.0, p.1),
                ).push((id@, all[j as int], out@.last().reference@)));
            },
            None => {
                assert(row_references(row, all.take(j + 1)) =~= row_references(row, all.take(j as int)));
            },
        }
    }
    assert(all.take(names@.len() as int) =~= all);
}

/// Where `x` last occurs in `s`.
pub open spec fn last_position(s: Seq<Seq<char>>, x: Seq<char>) -> Option<int> {
    if s.contains(x) {
        Some(choose|i: int| 0 <= i < s.len() && s[i] == x && forall|j: int| i < j < s.len() ==> s[j] != x)
    } else {
        None
    }
}

/// `Some(x)` occurs in `s` at `i` and nowhere else.
pub open spec fn sole_at(s: Seq<Option<Seq<char>>>, x: Seq<char>, i: int) -> bool {
    0 <= i < s.len() && s[i] == Some(x) && forall|j: int| 0 <= j < s.len() && j != i ==> s[j] != Some(x)
}

/// Where `Some(x)` occurs in `s`, when it occurs exactly once.
pub open spec fn sole_position(s: Seq<Option<Seq<char>>>, x: Seq<char>) -> Option<int> {
    if exists|i: int| #[trigger] sole_at(s, x, i) {
        Some(choose|i: int| #[trigger] sole_at(s, x, i))
    } else {
        None
    }
}

proof fn lemma_sole_position(s: Seq<Option<Seq<char>>>, x: Seq<char>, f: int, second: int)
    requires
        0 <= f < s.len(),
        s[f] == Some(x),
    ensures
        (0 <= second < s.len() && second != f && s[second] == Some(x)) ==> sole_position(s, x) is None,
        (forall|j: int| 0 <= j < s.len() && j != f ==> s[j] != Some(x)) ==> sole_position(s, x) == Some(f),
{
    if 0 <= second < s.len() && second != f && s[second] == Some(x) {
        if exists|i: int| #[trigger] sole_at(s, x, i) {
            let i = choose|i: int| #[trigger] sole_at(s, x, i);
            if i == f {
                assert(s[second] != Some(x));
            } else {
                assert(s[f] != Some(x));
            }
        }
    }
    if forall|j: int| 0 <= j < s.len() && j != f ==> s[j] != Some(x) {
        assert(sole_at(s, x, f));
        let c = choose|i: int| #[trigger] sole_at(s, x, i);
        assert(sole_at(s, x, c));
        if c != f {
            assert(s[c] != Some(x));
        }
    }
}

/// The key a file is found by from its file name: the name in Unicode
/// lower case.
pub open spec fn name_key(path: Seq<char>) -> Option<Seq<char>> {
    match file_name_of(path) {
        Some(n) => Some(lowercase_of(n)),
        None => None,
    }
}

/// The folder file a local reference is matched to, ignoring any query or
/// fragment: the last file whose path key is the reference's, else the
/// one file, if there is exactly one, whose name is the reference's file
/// name up to case.
pub open spec fn folder_match(files: Seq<Seq<char>>, reference: Seq<char>) -> Option<int> {
    let r = before_query(reference);
    match last_position(files.map_values(|f: Seq<char>| match_key(f)), match_key(r)) {
        Some(i) => Some(i),
        None => match file_name_of(r) {
            Some(n) => sole_position(files.map_values(|f: Seq<char>| name_key(f)), lowercase_of(n)),
            None => None,
        },
    }
}

/// The distinct elements of `s`, in order of first occurrence.
pub open spec fn distinct(s: Seq<Seq<char>>) -> Seq<Seq<char>>
    decreases s.len(),
{
    if s.len() == 0 {
        Seq::empty()
    } else {
        let d = distinct(s.drop_last());
        if d.contains(s.last()) {
            d
        } else {
            d.push(s.last())
        }
    }
}

/// The references of the rows that do not point to the web.
pub open spec fn local_references(rows: Seq<(Seq<char>, Seq<(Seq<char>, JsonView)>)>, names: Seq<Seq<char>>) -> Seq<
    (Seq<char>, Seq<char>, Seq<char>),
> {
    all_references(rows, names).filter(|t: (Seq<char>, Seq<char>, Seq<char>)| !is_remote(t.2))
}

/// The local references matched to a folder file, with the file.
pub open spec fn matched_references(files: Seq<Seq<char>>, refs: Seq<(Seq<char>, Seq<char>, Seq<char>)>) -> Seq<
    (Seq<char>, Seq<char>, Seq<char>, int),
> {
    refs.filter(|t: (Seq<char>, Seq<char>, Seq<char>)| folder_match(files, t.2) is Some).map_values(
        |t: (Seq<char>, Seq<char>, Seq<char>)| (t.0, t.1, t.2, folder_match(files, t.2).unwrap()),
    )
}

/// A folder asset as text and file position.
pub open spec fn asset_view(a: FolderAsset) -> (Seq<char>, Seq<char>, Seq<char>, int) {
    (a.item_id@, a.field_name@, a.reference@, a.file as int)
}

fn last_index(keys: &Vec<String>, key: &String) -> (r: Option<usize>)
    ensures
        match r {
            Some(i) => last_position(views(keys@), key@) == Some(i as int),
            None => last_position(views(keys@), key@) is None,
        },
{
    let ghost s = views(keys@);
    let mut found: Option<usize> = None;
    for k in 0..keys.len()
        invariant
            s == views(keys@),
            match found {
                Some(f) => f < k && s[f as int] == key@ && forall|j: int| f < j < k ==> s[j] != key@,
                None => forall|j: int| 0 <= j < k ==> s[j] != key@,
            },
    {
        if str_eq(keys[k].as_str(), key.as_str()) {
            found = Some(k);
        }
    }
    match found {
        Some(f) => {
            proof {
                assert(s[f as int] == key@);
                assert(s.contains(key@));
                let c = choose|i: int| 0 <= i < s.len() && s[i] == key@ && forall|j: int| i < j < s.len() ==> s[j] != key@;
                assert(0 <= c < s.len() && s[c] == key@ && forall|j: int| c < j < s.len() ==> s[j] != key@);
                if c < f as int {
                    assert(s[f as int] != key@);
                }
                if c > f as int {
                    assert(s[c] != key@);
                }
            }
        },
        None => {
            assert(!s.contains(key@));
        },
    }
    found
}

fn sole_index(names: &Vec<Option<String>>, name: &String) -> (r: Option<usize>)
    ensures
        match r {
            Some(i) => sole_position(names@.map_values(|o: Option<String>| opt_text(o)), name@) == Some(i as int),
            None => sole_position(names@.map_values(|o: Option<String>| opt_text(o)), name@) is None,
        },
{
    let ghost s = names@.map_values(|o: Option<String>| opt_text(o));
    let ghost x = Some(name@);
    let mut first: Option<usize> = None;
    let mut many = false;
    let ghost mut second: int = 0;
    for k in 0..names.len()
        invariant
            s == names@.map_values(|o: Option<String>| opt_text(o)),
            x == Some(name@),
            match first {
                Some(f) => f < k && s[f as int] == x,
                None => forall|j: int| 0 <= j < k ==> s[j] != x,
            },
            many ==> (first matches Some(f) && f < second < k && s[second] == x),
            !many ==> (first matches Some(f) ==> forall|j: int| 0 <= j < k && j != f ==> s[j] != x),
    {
        let hit = match &names[k] {
            Some(n) => str_eq(n.as_str(), name.as_str()),
            None => false,
        };
        assert(hit == (s[k as int] == x));
        if hit {
            if first.is_none() {
                first = Some(k);
            } else if !many {
                many = true;
                proof {
                    second = k as int;
                }
            }
        }
    }
    match first {
        Some(f) => {
            proof {
                lemma_sole_position(s, name@, f as int, second);
            }
            if many {
                None
            } else {
                Some(f)
            }
        },
        None => {
            proof {
                if exists|i: int| #[trigger] sole_at(s, name@, i) {
                    let i = choose|i: int| #[trigger] sole_at(s, name@, i);
                    assert(s[i] == x);
                }
            }
            None
        },
    }
}

fn push_distinct(seen: &mut Vec<String>, x: &String)
    ensures
        views(final(seen)@) == if views(old(seen)@).contains(x@) {
            views(old(seen)@)
        } else {
            views(old(seen)@).push(x@)
        },
{
    if !crate::text::contains_string(seen, x) {
        let ghost before = views(seen@);
        seen.push(owned(x.as_str()));
        assert(views(seen@) =~= before.push(x@));
    }
}

proof fn lemma_distinct_push(s: Seq<Seq<char>>, x: Seq<char>)
    ensures
        distinct(s.push(x)) == if distinct(s).contains(x) {
            distinct(s)
        } else {
            distinct(s).push(x)
        },
{
    assert(s.push(x).drop_last() =~= s);
}

/// Images of items: previews, references, folder matching.
pub struct MediaService;

impl MediaService {
    /// The image references an import holds: for each item in order, for
    /// each image field in order, the reference its text value holds, and
    /// whether it points to the web.
    pub fn imported_references(import: &ImportResult) -> (r: Vec<MediaReference>)
        ensures
            r@.map_values(|m: MediaReference| reference_view(m)) == all_references(
                import.items@.map_values(|it: ImportedItem| item_row(it)),
                image_field_names(import.fields@),
            ),
            forall|k: int| 0 <= k < r@.len() ==> (#[trigger] r@[k]).remote == is_remote(r@[k].reference@),
    {
        let mut names: Vec<String> = Vec::new();
        let ghost fields = import.fields@;
        for k in 0..import.fields.len()
            invariant
                fields == import.fields@,
                views(names@) == fields.take(k as int).filter(
                    |f: ImportedFieldDefinition| f.field_type == ImportedFieldType::Image,
                ).map_values(|f: ImportedFieldDefinition| f.name@),
        {
            let ghost before = views(names@);
            assert(fields.take(k + 1) =~= fields.take(k as int).push(fields[k as int]));
            proof {
                fields.take(k as int).lemma_filter_push(
                    fields[k as int],
                    |f: ImportedFieldDefinition| f.field_type == ImportedFieldType::Image,
                );
            }
            match import.fields[k].field_type {
                ImportedFieldType::Image => {
                    names.push(owned(import.fields[k].name.as_str()));
                    assert(views(names@) =~= before.push(fields[k as int].name@));
                },
                _ => {},
            }
        }
        assert(fields.take(fields.len() as int) =~= fields);
        let mut out: Vec<MediaReference> = Vec::new();
        let ghost rows = import.items@.map_values(|it: ImportedItem| item_row(it));
        for i in 0..import.items.len()
            invariant
                rows == import.items@.map_values(|it: ImportedItem| item_row(it)),
                views(names@) == image_field_names(import.fields@),
                out@.map_values(|m: MediaReference| reference_view(m)) == all_references(rows.take(i as int), views(names@)),
                forall|k: int| 0 <= k < out@.len() ==> (#[trigger] out@[k]).remote == is_remote(out@[k].reference@),
        {
            assert(rows.take(i + 1).drop_last() =~= rows.take(i as int));
            collect_row_references(&import.items[i].id, &import.items[i].fields, &names, &mut out);
        }
        assert(rows.take(import.items@.len() as int) =~= rows);
        out
    }

    /// What to show for a stored image: nothing stored is `Missing`; a web
    /// reference is shown as its address when the network is allowed and
    /// `RemoteBlocked` otherwise; a local one needs its copied file, or is
    /// `Missing` when there is none.
    pub fn preview(asset: &Option<MediaAssetRecord>, allow_network: bool) -> (r: PreviewStep)
        ensures
            match *asset {
                None => r matches PreviewStep::Done(MediaPreview::Missing),
                Some(a) => if a.source_kind@ == "remote"@ {
                    if allow_network {
                        r matches PreviewStep::Done(MediaPreview::RemoteReady { url }) && url@ == a.source_value@
                    } else {
                        r matches PreviewStep::Done(MediaPreview::RemoteBlocked)
                    }
                } else {
                    match a.local_path {
                        Some(p) => r matches PreviewStep::ReadLocal(q) && q@ == p@,
                        None => r matches PreviewStep::Done(MediaPreview::Missing),
                    }
                },
            },
    {
        match asset {
            None => PreviewStep::Done(MediaPreview::Missing),
            Some(a) => {
                if str_eq(a.source_kind.as_str(), "remote") {
                    if allow_network {
                        PreviewStep::Done(MediaPreview::RemoteReady { url: owned(a.source_value.as_str()) })
                    } else {
                        PreviewStep::Done(MediaPreview::RemoteBlocked)
                    }
                } else {
                    match &a.local_path {
                        Some(p) => PreviewStep::ReadLocal(owned(p.as_str())),
                        None => PreviewStep::Done(MediaPreview::Missing),
                    }
                }
            },
        }
    }

    /// Whether a local image file may be read for its preview: `Missing`
    /// unless it is a file inside the project's assets, `TooLarge` above
    /// `MAX_PREVIEW_BYTES`; none when it may be read.
    pub fn check_local_file(inside_assets: bool, size: u64) -> (r: Option<MediaPreview>)
        ensures
            !inside_assets ==> r matches Some(MediaPreview::Missing),
            inside_assets && size > MAX_PREVIEW_BYTES ==> r matches Some(MediaPreview::TooLarge),
            inside_assets && size <= MAX_PREVIEW_BYTES ==> r is None,
    {
        if !inside_assets {
            Some(MediaPreview::Missing)
        } else if size > MAX_PREVIEW_BYTES {
            Some(MediaPreview::TooLarge)
        } else {
            None
        }
    }

    /// The preview of a local image's bytes: a data URL of its MIME type
    /// and base64 content; `InvalidInput` for a type that has none.
    pub fn local_ready(path: &str, bytes: &[u8]) -> (r: Result<MediaPreview, AppError>)
        requires
            bytes@.len() <= MAX_PREVIEW_BYTES,
        ensures
            spec_image_mime(path@) matches Some(m) ==> (r matches Ok(MediaPreview::LocalReady { data_url })
                && data_url@ == "data:"@ + m + ";base64,"@ + base64_of(bytes@)),
            spec_image_mime(path@) is None ==> (r matches Err(AppError::InvalidInput(e)) && e@ == "当前图片格式不支持生成缩略图"@),
    {
        match image_mime(path) {
            Some(mime) => {
                let encoded = base64_encode(bytes);
                let head = concat3("data:", mime, ";base64,");
                Ok(MediaPreview::LocalReady { data_url: concat(head.as_str(), encoded.as_str()) })
            },
            None => Err(AppError::InvalidInput(owned("当前图片格式不支持生成缩略图"))),
        }
    }

    /// Matches the image references of stored items to the image files of
    /// a folder (given relative to it): for each item and image field in
    /// order, a text value's local image reference is matched as
    /// `folder_match` says. Refused when there is no image field, then
    /// when there is no image file. The counts are the files, the distinct
    /// items matched, the matches, and the distinct items with a local
    /// reference but no match.
    pub fn match_folder_images(image_files: &Vec<String>, items: &Vec<FolderItem>, image_fields: &Vec<String>) -> (r:
        Result<FolderMatch, AppError>)
        ensures
            image_fields@.len() == 0 ==> (r matches Err(AppError::InvalidInput(e)) && e@ == "当前数据表没有图片相关字段"@),
            image_fields@.len() > 0 && image_files@.len() == 0 ==> (r matches Err(AppError::InvalidInput(e)) && e@
                == "所选文件夹中没有支持的图片文件"@),
            image_fields@.len() > 0 && image_files@.len() > 0 ==> (r matches Ok(m) && {
                let refs = local_references(items@.map_values(|it: FolderItem| folder_row(it)), views(image_fields@));
                let matched = matched_references(views(image_files@), refs);
                let matched_ids = distinct(matched.map_values(|t: (Seq<char>, Seq<char>, Seq<char>, int)| t.0));
                &&& m.assets@.map_values(|a: FolderAsset| asset_view(a)) == matched
                &&& m.result.image_file_count == image_files@.len()
                &&& m.result.matched_asset_count == matched.len()
                &&& m.result.matched_item_count == matched_ids.len()
                &&& m.result.unmatched_item_count == distinct(
                    refs.map_values(|t: (Seq<char>, Seq<char>, Seq<char>)| t.0),
                ).filter(|x: Seq<char>| !matched_ids.contains(x)).len()
            }),
    {
        if image_fields.len() == 0 {
            return Err(AppError::InvalidInput(owned("当前数据表没有图片相关字段")));
        }
        if image_files.len() == 0 {
            return Err(AppError::InvalidInput(owned("所选文件夹中没有支持的图片文件")));
        }
        let ghost files = views(image_files@);
        let ghost names = views(image_fields@);
        let ghost rows = items@.map_values(|it: FolderItem| folder_row(it));
        let mut found: Vec<MediaReference> = Vec::new();
        for i in 0..items.len()
            invariant
                rows == items@.map_values(|it: FolderItem| folder_row(it)),
                names == views(image_fields@),
                found@.map_values(|m: MediaReference| reference_view(m)) == all_references(rows.take(i as int), names),
                forall|k: int| 0 <= k < found@.len() ==> (#[trigger] found@[k]).remote == is_remote(found@[k].reference@),
        {
            assert(rows.take(i + 1).drop_last() =~= rows.take(i as int));
            collect_row_references(&items[i].id, &items[i].fields, image_fields, &mut found);
        }
        assert(rows.take(items@.len() as int) =~= rows);
        let mut file_keys: Vec<String> = Vec::new();
        let mut name_keys: Vec<Option<String>> = Vec::new();
        for k in 0..image_files.len()
            invariant
                files == views(image_files@),
                views(file_keys@) =~= files.take(k as int).map_values(|f: Seq<char>| match_key(f)),
                name_keys@.map_values(|o: Option<String>| opt_text(o)) =~= files.take(k as int).map_values(
                    |f: Seq<char>| name_key(f),
                ),
        {
            let ghost k0 = views(file_keys@);
            let ghost n0 = name_keys@.map_values(|o: Option<String>| opt_text(o));
            file_keys.push(normalize_match_path(image_files[k].as_str()));
            let key = match file_name(image_files[k].as_str()) {
                Some(n) => Some(to_lowercase(n.as_str())),
                None => None,
            };
            name_keys.push(key);
            assert(views(file_keys@) =~= k0.push(match_key(files[k as int])));
            assert(name_keys@.map_values(|o: Option<String>| opt_text(o)) =~= n0.push(name_key(files[k as int])));
            assert(files.take(k + 1) =~= files.take(k as int).push(files[k as int]));
        }
        assert(files.take(files.len() as int) =~= files);
        let ghost fv = found@.map_values(|m: MediaReference| reference_view(m));
        let ghost local = |t: (Seq<char>, Seq<char>, Seq<char>)| !is_remote(t.2);
        let mut assets: Vec<FolderAsset> = Vec::new();
        let mut ref_ids: Vec<String> = Vec::new();
        let mut match_ids: Vec<String> = Vec::new();
        for t in 0..found.len()
            invariant
                files == views(image_files@),
                fv == found@.map_values(|m: MediaReference| reference_view(m)),
                forall|k: int| 0 <= k < found@.len() ==> (#[trigger] found@[k]).remote == is_remote(found@[k].reference@),
                local == |t: (Seq<char>, Seq<char>, Seq<char>)| !is_remote(t.2),
                views(file_keys@) == files.map_values(|f: Seq<char>| match_key(f)),
                name_keys@.map_values(|o: Option<String>| opt_text(o)) == files.map_values(|f: Seq<char>| name_key(f)),
                assets@.map_values(|a: FolderAsset| asset_view(a)) == matched_references(files, fv.take(t as int).filter(local)),
                views(ref_ids@) == distinct(fv.take(t as int).filter(local).map_values(|x: (Seq<char>, Seq<char>, Seq<char>)| x.0)),
                views(match_ids@) == distinct(matched_references(files, fv.take(t as int).filter(local)).map_values(
                    |x: (Seq<char>, Seq<char>, Seq<char>, int)| x.0,
                )),
        {
            let ghost before = fv.take(t as int);
            let ghost cur = fv[t as int];
            assert(fv.take(t + 1) =~= before.push(cur));
            proof {
                before.lemma_filter_push(cur, local);
            }
            if !found[t].remote {
                let ghost refs0 = before.filter(local);
                assert(before.push(cur).filter(local) == refs0.push(cur));
                let reference = &found[t].reference;
                let rc = chars_of(reference.as_str());
                let q = strip_query(&rc);
                let key = normalize_match_path(q.as_str());
                let hit = match last_index(&file_keys, &key) {
                    Some(i) => Some(i),
                    None => match file_name(q.as_str()) {
                        Some(n) => {
                            let lower = to_lowercase(n.as_str());
                            sole_index(&name_keys, &lower)
                        },
                        None => None,
                    },
                };
                let ghost m0 = matched_references(files, refs0);
                proof {
                    refs0.lemma_filter_push(cur, |x: (Seq<char>, Seq<char>, Seq<char>)| folder_match(files, x.2) is Some);
                    lemma_distinct_push(refs0.map_values(|x: (Seq<char>, Seq<char>, Seq<char>)| x.0), cur.0);
                    assert(refs0.push(cur).map_values(|x: (Seq<char>, Seq<char>, Seq<char>)| x.0) =~= refs0.map_values(
                        |x: (Seq<char>, Seq<char>, Seq<char>)| x.0,
                    ).push(cur.0));
                }
                assert(match hit {
                    Some(i) => folder_match(files, cur.2) == Some(i as int),
                    None => folder_match(files, cur.2) is None,
                });
                push_distinct(&mut ref_ids, &found[t].item_id);
                match hit {
                    Some(file) => {
                        let ghost a0 = assets@.map_values(|a: FolderAsset| asset_view(a));
                        assets.push(
                            FolderAsset {
                                item_id: owned(found[t].item_id.as_str()),
                                field_name: owned(found[t].field_name.as_str()),
                                reference: owned(reference.as_str()),
                                file,
                            },
                        );
                        assert(assets@.map_values(|a: FolderAsset| asset_view(a)) =~= a0.push(
                            (cur.0, cur.1, cur.2, file as int),
                        ));
                        assert(matched_references(files, refs0.push(cur)) =~= m0.push((cur.0, cur.1, cur.2, file as int)));
                        proof {
                            lemma_distinct_push(m0.map_values(|x: (Seq<char>, Seq<char>, Seq<char>, int)| x.0), cur.0);
                            assert(m0.push((cur.0, cur.1, cur.2, file as int)).map_values(
                                |x: (Seq<char>, Seq<char>, Seq<char>, int)| x.0,
                            ) =~= m0.map_values(|x: (Seq<char>, Seq<char>, Seq<char>, int)| x.0).push(cur.0));
                        }
                        push_distinct(&mut match_ids, &found[t].item_id);
                    },
                    None => {
                        assert(matched_references(files, refs0.push(cur)) =~= m0);
                    },
                }
            }
        }
        assert(fv.take(found@.len() as int) =~= fv);
        let ghost rid = views(ref_ids@);
        let ghost mid = views(match_ids@);
        let ghost unmatched = |x: Seq<char>| !mid.contains(x);
        let mut unmatched_count: usize = 0;
        for k in 0..ref_ids.len()
            invariant
                rid == views(ref_ids@),
                mid == views(match_ids@),
                unmatched == |x: Seq<char>| !mid.contains(x),
                unmatched_count == rid.take(k as int).filter(unmatched).len(),
                unmatched_count <= k,
        {
            assert(rid.take(k + 1) =~= rid.take(k as int).push(rid[k as int]));
            proof {
                rid.take(k as int).lemma_filter_push(rid[k as int], unmatched);
            }
            if !crate::text::contains_string(&match_ids, &ref_ids[k]) {
                unmatched_count = unmatched_count + 1;
            }
        }
        assert(rid.take(rid.len() as int) =~= rid);
        let result = MediaFolderImportResult {
            image_file_count: image_files.len(),
            matched_item_count: match_ids.len(),
            matched_asset_count: assets.len(),
            unmatched_item_count: unmatched_count,
        };
        Ok(FolderMatch { assets, result })
    }

    /// A folder import takes at most `MAX_FOLDER_IMAGES` image files.
    pub fn check_image_file_count(count: usize) -> (r: Result<(), AppError>)
        ensures
            count <= MAX_FOLDER_IMAGES ==> r is Ok,
            count > MAX_FOLDER_IMAGES ==> (r matches Err(AppError::InvalidInput(e)) && e@ == "单次最多导入 10,000 个图片文件"@),
    {
        if count > MAX_FOLDER_IMAGES {
            return Err(AppError::InvalidInput(owned("单次最多导入 10,000 个图片文件")));
        }
        Ok(())
    }
}

} // verus!
