//! Import parsing: plain text, CSV, JSON and Markdown become one list of
//! rows (original position and named fields), then deduplicated, counted
//! and given ids.

use vstd::prelude::*;

use crate::json::{
    collect_json_array_nodes, empty_value, find_member, is_empty_value, json_clone, json_eq,
    lemma_array_view, lemma_object_view, list_view, lookup, members_clone, members_eq,
    members_view, node_views, pointer_target, spec_nodes, spec_pointer, JsonArrayNode, JsonValue,
    JsonView,
};
use crate::paths::{path_extension, path_extension_of};
use crate::text::{
    chars_of, concat, concat3, decimal, decimal_string, owned, is_white_space, str_eq, string_from_chars, trim, trim_left, trimmed, white_space,
};

verus! {

broadcast use vstd::seq_lib::group_seq_properties;

/// The format an import came from.
#[derive(Debug, Clone, Copy, PartialEq, Eq, Structural)]
pub enum ImportSourceType {
    Text,
    Csv,
    Json,
    Markdown,
}

impl ImportSourceType {
    pub open spec fn spec_name(self) -> Seq<char> {
        match self {
            ImportSourceType::Text => "text"@,
            ImportSourceType::Csv => "csv"@,
            ImportSourceType::Json => "json"@,
            ImportSourceType::Markdown => "markdown"@,
        }
    }

    /// Storage name of the format.
    pub fn as_str(self) -> (s: &'static str)
        ensures
            s@ == self.spec_name(),
    {
        match self {
            ImportSourceType::Text => "text",
            ImportSourceType::Csv => "csv",
            ImportSourceType::Json => "json",
            ImportSourceType::Markdown => "markdown",
        }
    }

    pub open spec fn spec_from_storage(value: Seq<char>) -> Option<ImportSourceType> {
        if value == "text"@ {
            Some(ImportSourceType::Text)
        } else if value == "csv"@ {
            Some(ImportSourceType::Csv)
        } else if value == "json"@ {
            Some(ImportSourceType::Json)
        } else if value == "markdown"@ {
            Some(ImportSourceType::Markdown)
        } else {
            None
        }
    }

    /// Reads a stored format name.
    pub fn from_storage(value: &str) -> (r: Option<ImportSourceType>)
        ensures
            r == Self::spec_from_storage(value@),
    {
        if str_eq(value, "text") {
            Some(ImportSourceType::Text)
        } else if str_eq(value, "csv") {
            Some(ImportSourceType::Csv)
        } else if str_eq(value, "json") {
            Some(ImportSourceType::Json)
        } else if str_eq(value, "markdown") {
            Some(ImportSourceType::Markdown)
        } else {
            None
        }
    }
}

/// The type shown for an imported field.
#[derive(Debug, Clone, Copy, PartialEq, Eq, Structural)]
pub enum ImportedFieldType {
    Text,
    Image,
    Number,
    Boolean,
    Date,
    Null,
    Object,
    Array,
    Mixed,
}

impl ImportedFieldType {
    pub open spec fn spec_name(self) -> Seq<char> {
        match self {
            ImportedFieldType::Text => "text"@,
            ImportedFieldType::Image => "image"@,
            ImportedFieldType::Number => "number"@,
            ImportedFieldType::Boolean => "boolean"@,
            ImportedFieldType::Date => "date"@,
            ImportedFieldType::Null => "null"@,
            ImportedFieldType::Object => "object"@,
            ImportedFieldType::Array => "array"@,
            ImportedFieldType::Mixed => "mixed"@,
        }
    }

    /// Storage name of the type.
    pub fn as_str(self) -> (s: &'static str)
        ensures
            s@ == self.spec_name(),
    {
        match self {
            ImportedFieldType::Text => "text",
            ImportedFieldType::Image => "image",
            ImportedFieldType::Number => "number",
            ImportedFieldType::Boolean => "boolean",
            ImportedFieldType::Date => "date",
            ImportedFieldType::Null => "null",
            ImportedFieldType::Object => "object",
            ImportedFieldType::Array => "array",
            ImportedFieldType::Mixed => "mixed",
        }
    }

    pub open spec fn spec_from_storage(value: Seq<char>) -> Option<ImportedFieldType> {
        if value == "text"@ {
            Some(ImportedFieldType::Text)
        } else if value == "image"@ {
            Some(ImportedFieldType::Image)
        } else if value == "number"@ {
            Some(ImportedFieldType::Number)
        } else if value == "boolean"@ {
            Some(ImportedFieldType::Boolean)
        } else if value == "date"@ {
            Some(ImportedFieldType::Date)
        } else if value == "null"@ {
            Some(ImportedFieldType::Null)
        } else if value == "object"@ {
            Some(ImportedFieldType::Object)
        } else if value == "array"@ {
            Some(ImportedFieldType::Array)
        } else if value == "mixed"@ {
            Some(ImportedFieldType::Mixed)
        } else {
            None
        }
    }

    /// Reads a stored type name.
    pub fn from_storage(value: &str) -> (r: Option<ImportedFieldType>)
        ensures
            r == Self::spec_from_storage(value@),
    {
        if str_eq(value, "text") {
            Some(ImportedFieldType::Text)
        } else if str_eq(value, "image") {
            Some(ImportedFieldType::Image)
        } else if str_eq(value, "number") {
            Some(ImportedFieldType::Number)
        } else if str_eq(value, "boolean") {
            Some(ImportedFieldType::Boolean)
        } else if str_eq(value, "date") {
            Some(ImportedFieldType::Date)
        } else if str_eq(value, "null") {
            Some(ImportedFieldType::Null)
        } else if str_eq(value, "object") {
            Some(ImportedFieldType::Object)
        } else if str_eq(value, "array") {
            Some(ImportedFieldType::Array)
        } else if str_eq(value, "mixed") {
            Some(ImportedFieldType::Mixed)
        } else {
            None
        }
    }
}

/// Reading back a stored format name gives the format.
pub proof fn lemma_source_type_round_trip(t: ImportSourceType)
    ensures
        ImportSourceType::spec_from_storage(t.spec_name()) == Some(t),
{
    reveal_strlit("text");
    reveal_strlit("csv");
    reveal_strlit("json");
    reveal_strlit("markdown");
    assert("text"@[0] != "csv"@[0] && "text"@[0] != "json"@[0] && "text"@[0] != "markdown"@[0]);
    assert("csv"@[0] != "json"@[0] && "csv"@[0] != "markdown"@[0] && "json"@[0] != "markdown"@[0]);
}

/// Reading back a stored field type name gives the type.
pub proof fn lemma_field_type_round_trip(t: ImportedFieldType)
    ensures
        ImportedFieldType::spec_from_storage(t.spec_name()) == Some(t),
{
    reveal_strlit("text");
    reveal_strlit("image");
    reveal_strlit("number");
    reveal_strlit("boolean");
    reveal_strlit("date");
    reveal_strlit("null");
    reveal_strlit("object");
    reveal_strlit("array");
    reveal_strlit("mixed");
    assert("text"@[0] == 't' && "image"@[0] == 'i' && "number"@[0] == 'n' && "boolean"@[0] == 'b');
    assert("date"@[0] == 'd' && "null"@[0] == 'n' && "object"@[0] == 'o' && "array"@[0] == 'a');
    assert("mixed"@[0] == 'm' && "number"@[1] == 'u' && "null"@[1] == 'u' && "number"@[2] == 'm');
    assert("null"@[2] == 'l');
}

/// Why an import was refused.
#[derive(Debug)]
#[allow(inconsistent_fields)]
pub enum ImportError {
    FileRead { path: String, reason: String },
    InvalidEncoding,
    UnsupportedFormat(String),
    EmptyText,
    EmptyCsv,
    InvalidCsv { line: u64, reason: String },
    InvalidMarkdown,
    InvalidJson { line: usize, column: usize, reason: String },
    NoUsableJsonArray,
    JsonNodeNotFound(String),
    JsonItemNotObject { index: usize },
    TooFewItems { found: usize, required: usize },
}

impl ImportError {
    pub open spec fn spec_code(&self) -> Seq<char> {
        match self {
            ImportError::FileRead { .. } => "IMPORT_FILE_READ"@,
            ImportError::InvalidEncoding => "IMPORT_INVALID_ENCODING"@,
            ImportError::UnsupportedFormat(_) => "IMPORT_UNSUPPORTED_FORMAT"@,
            ImportError::EmptyText => "IMPORT_EMPTY_TEXT"@,
            ImportError::EmptyCsv => "IMPORT_EMPTY_CSV"@,
            ImportError::InvalidCsv { .. } => "IMPORT_INVALID_CSV"@,
            ImportError::InvalidMarkdown => "IMPORT_INVALID_MARKDOWN"@,
            ImportError::InvalidJson { .. } => "IMPORT_INVALID_JSON"@,
            ImportError::NoUsableJsonArray => "IMPORT_NO_JSON_ARRAY"@,
            ImportError::JsonNodeNotFound(_) => "IMPORT_JSON_NODE_NOT_FOUND"@,
            ImportError::JsonItemNotObject { .. } => "IMPORT_JSON_ITEM_NOT_OBJECT"@,
            ImportError::TooFewItems { .. } => "IMPORT_TOO_FEW_ITEMS"@,
        }
    }

    /// The message shown for this error.
    pub open spec fn spec_message(&self) -> Seq<char> {
        match self {
            ImportError::FileRead { path, reason } => "无法读取导入文件“"@ + path@ + "”："@ + reason@,
            ImportError::InvalidEncoding => "文件不是有效的 UTF-8 编码，请将文件另存为 UTF-8 后重试。"@,
            ImportError::UnsupportedFormat(e) => "不支持的导入格式“"@ + e@
                + "”，请选择 .txt、.csv、.json 或 .md 文件。"@,
            ImportError::EmptyText => "文本中没有可导入的非空行。"@,
            ImportError::EmptyCsv => "CSV 中没有可识别的记录。"@,
            ImportError::InvalidCsv { line, reason } => "CSV 第 "@ + decimal(*line as nat) + " 行解析失败："@
                + reason@,
            ImportError::InvalidMarkdown => "Markdown 中未找到至少两个表格数据行或列表项。"@,
            ImportError::InvalidJson { line, column, reason } => "JSON 解析失败（第 "@ + decimal(*line as nat)
                + " 行，第 "@ + decimal(*column as nat) + " 列）："@ + reason@,
            ImportError::NoUsableJsonArray => "JSON 中未找到可用的对象数组。"@,
            ImportError::JsonNodeNotFound(p) => "找不到 JSON 数组节点“"@ + p@ + "”。"@,
            ImportError::JsonItemNotObject { index } => "JSON 数组第 "@ + decimal(*index as nat)
                + " 项不是对象，当前版本仅支持对象数组。"@,
            ImportError::TooFewItems { found, required } => "清理空条目和去重后仅剩 "@ + decimal(*found as nat)
                + " 个条目；至少需要 "@ + decimal(*required as nat) + " 个条目才能继续。"@,
        }
    }

    /// The message shown for this error.
    pub fn message(&self) -> (m: String)
        ensures
            m@ == self.spec_message(),
    {
        match self {
            ImportError::FileRead { path, reason } => {
                let head = concat3("无法读取导入文件“", path.as_str(), "”：");
                concat(head.as_str(), reason.as_str())
            },
            ImportError::InvalidEncoding => owned("文件不是有效的 UTF-8 编码，请将文件另存为 UTF-8 后重试。"),
            ImportError::UnsupportedFormat(e) => concat3(
                "不支持的导入格式“",
                e.as_str(),
                "”，请选择 .txt、.csv、.json 或 .md 文件。",
            ),
            ImportError::EmptyText => owned("文本中没有可导入的非空行。"),
            ImportError::EmptyCsv => owned("CSV 中没有可识别的记录。"),
            ImportError::InvalidCsv { line, reason } => {
                let n = decimal_string(*line as u128);
                let head = concat3("CSV 第 ", n.as_str(), " 行解析失败：");
                concat(head.as_str(), reason.as_str())
            },
            ImportError::InvalidMarkdown => owned("Markdown 中未找到至少两个表格数据行或列表项。"),
            ImportError::InvalidJson { line, column, reason } => {
                let l = decimal_string(*line as u128);
                let c = decimal_string(*column as u128);
                let head = concat3("JSON 解析失败（第 ", l.as_str(), " 行，第 ");
                let mid = concat3(head.as_str(), c.as_str(), " 列）：");
                concat(mid.as_str(), reason.as_str())
            },
            ImportError::NoUsableJsonArray => owned("JSON 中未找到可用的对象数组。"),
            ImportError::JsonNodeNotFound(p) => concat3("找不到 JSON 数组节点“", p.as_str(), "”。"),
            ImportError::JsonItemNotObject { index } => {
                let n = decimal_string(*index as u128);
                concat3("JSON 数组第 ", n.as_str(), " 项不是对象，当前版本仅支持对象数组。")
            },
            ImportError::TooFewItems { found, required } => {
                let f = decimal_string(*found as u128);
                let q = decimal_string(*required as u128);
                let head = concat3("清理空条目和去重后仅剩 ", f.as_str(), " 个条目；至少需要 ");
                concat3(head.as_str(), q.as_str(), " 个条目才能继续。")
            },
        }
    }

    /// The stable code reported for this error.
    pub fn code(&self) -> (s: &'static str)
        ensures
            s@ == self.spec_code(),
    {
        match self {
            ImportError::FileRead { .. } => "IMPORT_FILE_READ",
            ImportError::InvalidEncoding => "IMPORT_INVALID_ENCODING",
            ImportError::UnsupportedFormat(_) => "IMPORT_UNSUPPORTED_FORMAT",
            ImportError::EmptyText => "IMPORT_EMPTY_TEXT",
            ImportError::EmptyCsv => "IMPORT_EMPTY_CSV",
            ImportError::InvalidCsv { .. } => "IMPORT_INVALID_CSV",
            ImportError::InvalidMarkdown => "IMPORT_INVALID_MARKDOWN",
            ImportError::InvalidJson { .. } => "IMPORT_INVALID_JSON",
            ImportError::NoUsableJsonArray => "IMPORT_NO_JSON_ARRAY",
            ImportError::JsonNodeNotFound(_) => "IMPORT_JSON_NODE_NOT_FOUND",
            ImportError::JsonItemNotObject { .. } => "IMPORT_JSON_ITEM_NOT_OBJECT",
            ImportError::TooFewItems { .. } => "IMPORT_TOO_FEW_ITEMS",
        }
    }
}

/// Options of a file import: whether to drop repeated entries, and for
/// JSON, which array to take.
#[derive(Debug, Clone, Copy, Default)]
pub struct ImportOptions<'a> {
    pub deduplicate: bool,
    pub json_pointer: Option<&'a str>,
}

/// The bytes after a leading UTF-8 byte order mark, or all of them.
pub open spec fn without_bom(bytes: Seq<u8>) -> Seq<u8> {
    if bytes.len() >= 3 && bytes[0] == 0xEFu8 && bytes[1] == 0xBBu8 && bytes[2] == 0xBFu8 {
        bytes.skip(3)
    } else {
        bytes
    }
}

/// Decodes UTF-8 (`std::str::from_utf8`): text exactly when the bytes are
/// valid UTF-8, and then the characters they encode.
#[verifier::external_body]
fn utf8_text(bytes: &[u8]) -> (r: Option<String>)
    ensures
        r is Some <==> vstd::utf8::valid_utf8(bytes@),
        r matches Some(s) ==> s@ == vstd::utf8::decode_utf8(bytes@),
{
    std::str::from_utf8(bytes).ok().map(|s| s.to_string())
}

/// The text of a file's bytes: a leading byte order mark dropped, the rest
/// decoded as UTF-8; `InvalidEncoding` when it is not valid UTF-8.
pub fn decode_utf8(bytes: &[u8]) -> (r: Result<String, ImportError>)
    ensures
        vstd::utf8::valid_utf8(without_bom(bytes@)) ==> (r matches Ok(s) && s@ == vstd::utf8::decode_utf8(
            without_bom(bytes@),
        )),
        !vstd::utf8::valid_utf8(without_bom(bytes@)) ==> r matches Err(ImportError::InvalidEncoding),
{
    let n = bytes.len();
    let decoded = if n >= 3 && bytes[0] == 0xEFu8 && bytes[1] == 0xBBu8 && bytes[2] == 0xBFu8 {
        let mut rest: Vec<u8> = Vec::new();
        for i in 3..n
            invariant
                n == bytes@.len(),
                3 <= n,
                rest@ =~= bytes@.subrange(3, i as int),
        {
            rest.push(bytes[i]);
        }
        assert(rest@ =~= without_bom(bytes@));
        utf8_text(rest.as_slice())
    } else {
        utf8_text(bytes)
    };
    match decoded {
        Some(text) => Ok(text),
        None => Err(ImportError::InvalidEncoding),
    }
}

/// The lower-case extension of a path, empty when it has none.
pub open spec fn extension_text(path: Seq<char>) -> Seq<char> {
    match path_extension_of(path) {
        Some(e) => crate::text::ascii_lower(e),
        None => Seq::empty(),
    }
}

/// The import format a lower-case extension selects.
pub open spec fn spec_format_of(extension: Seq<char>) -> Option<ImportSourceType> {
    if extension == "txt"@ {
        Some(ImportSourceType::Text)
    } else if extension == "csv"@ {
        Some(ImportSourceType::Csv)
    } else if extension == "json"@ {
        Some(ImportSourceType::Json)
    } else if extension == "md"@ || extension == "markdown"@ {
        Some(ImportSourceType::Markdown)
    } else {
        None
    }
}

/// The format of a file to import, chosen by its extension without regard
/// to ASCII case; `UnsupportedFormat` with the lower-case extension for any
/// other.
pub fn import_format(path: &str) -> (r: Result<ImportSourceType, ImportError>)
    ensures
        spec_format_of(extension_text(path@)) matches Some(f) ==> r matches Ok(g) && g == f,
        spec_format_of(extension_text(path@)) is None ==> (r matches Err(ImportError::UnsupportedFormat(e))
            && e@ == extension_text(path@)),
{
    let extension = match path_extension(path) {
        Some(e) => crate::text::to_ascii_lowercase(e.as_str()),
        None => String::new(),
    };
    proof {
        if path_extension_of(path@) is None {
            assert(extension@ =~= Seq::<char>::empty());
        }
    }
    let e = extension.as_str();
    if str_eq(e, "txt") {
        Ok(ImportSourceType::Text)
    } else if str_eq(e, "csv") {
        Ok(ImportSourceType::Csv)
    } else if str_eq(e, "json") {
        Ok(ImportSourceType::Json)
    } else if str_eq(e, "md") || str_eq(e, "markdown") {
        Ok(ImportSourceType::Markdown)
    } else {
        Err(ImportError::UnsupportedFormat(extension))
    }
}

/// `s` without one trailing carriage return.
pub open spec fn strip_cr(s: Seq<char>) -> Seq<char> {
    if s.len() > 0 && s.last() == '\r' {
        s.drop_last()
    } else {
        s
    }
}

/// Scanning the first `n` characters for lines: the finished lines and the
/// line being read. A newline finishes the line, without a carriage return
/// right before it.
pub open spec fn lines_scan(s: Seq<char>, n: nat) -> (Seq<Seq<char>>, Seq<char>)
    decreases n,
{
    if n == 0 {
        (Seq::empty(), Seq::empty())
    } else {
        let (done, current) = lines_scan(s, (n - 1) as nat);
        if s[n - 1] == '\n' {
            (done.push(strip_cr(current)), Seq::empty())
        } else {
            (done, current.push(s[n - 1]))
        }
    }
}

/// The lines of `s` as `str::lines` gives them: split at each newline
/// (dropping a carriage return before it), a final line without newline
/// kept, and no empty line after a final newline.
pub open spec fn spec_lines(s: Seq<char>) -> Seq<Seq<char>> {
    let (done, current) = lines_scan(s, s.len());
    if current.len() > 0 {
        done.push(current)
    } else {
        done
    }
}

/// The lines of `content`.
pub fn lines_of(content: &str) -> (r: Vec<String>)
    ensures
        crate::text::views(r@) == spec_lines(content@),
{
    let chars = chars_of(content);
    let mut done: Vec<String> = Vec::new();
    let mut current: Vec<char> = Vec::new();
    for i in 0..chars.len()
        invariant
            chars@ == content@,
            (crate::text::views(done@), current@) == lines_scan(content@, i as nat),
    {
        if chars[i] == '\n' {
            let n = current.len();
            let line = if n > 0 && current[n - 1] == '\r' {
                crate::text::string_from_range(&current, 0, n - 1)
            } else {
                string_from_chars(current.as_slice())
            };
            proof {
                if n > 0 && current@[n - 1] == '\r' {
                    assert(current@.subrange(0, n - 1) =~= current@.drop_last());
                }
            }
            let ghost before = done@;
            done.push(line);
            assert(crate::text::views(done@) =~= crate::text::views(before).push(strip_cr(current@)));
            current = Vec::new();
        } else {
            current.push(chars[i]);
        }
    }
    if current.len() > 0 {
        let ghost before = done@;
        done.push(string_from_chars(current.as_slice()));
        assert(crate::text::views(done@) =~= crate::text::views(before).push(current@));
    }
    done
}

/// What a Markdown list line holds after its marker (`- `, `* `, `+ ` or a
/// number and `. `), trimmed; none for other lines or an empty item.
pub open spec fn spec_list_item(line: Seq<char>) -> Option<Seq<char>> {
    let t = trim_left(line);
    if t.len() >= 2 && (t[0] == '-' || t[0] == '*' || t[0] == '+') && t[1] == ' ' {
        let value = trimmed(t.skip(2));
        if value.len() > 0 {
            Some(value)
        } else {
            None
        }
    } else if exists|p: int| #[trigger] first_dot_space(t, p) {
        let p = choose|p: int| #[trigger] first_dot_space(t, p);
        let number = t.take(p);
        let value = trimmed(t.skip(p + 2));
        if number.len() > 0 && (forall|k: int| 0 <= k < number.len() ==> is_ascii_digit(#[trigger] number[k]))
            && value.len() > 0 {
            Some(value)
        } else {
            None
        }
    } else {
        None
    }
}

pub open spec fn is_ascii_digit(c: char) -> bool {
    '0' <= c && c <= '9'
}

/// `p` is where `. ` first occurs in `t`.
pub open spec fn first_dot_space(t: Seq<char>, p: int) -> bool {
    &&& 0 <= p && p + 1 < t.len()
    &&& t[p] == '.' && t[p + 1] == ' '
    &&& forall|q: int| 0 <= q < p ==> !(t[q] == '.' && #[trigger] t[q + 1] == ' ')
}

/// The characters of `line` without its leading white space.
pub fn trim_start_chars(line: &str) -> (t: Vec<char>)
    ensures
        t@ == trim_left(line@),
{
    let chars = chars_of(line);
    let n = chars.len();
    let mut i: usize = 0;
    assert(line@.skip(0) =~= line@);
    while i < n && white_space(chars[i])
        invariant
            chars@ == line@,
            n == line@.len(),
            i <= n,
            trim_left(line@) == trim_left(line@.skip(i as int)),
        decreases n - i,
    {
        assert(line@.skip(i as int).drop_first() =~= line@.skip(i + 1));
        i = i + 1;
    }
    let mut t: Vec<char> = Vec::new();
    for k in i..n
        invariant
            chars@ == line@,
            n == line@.len(),
            i <= n,
            t@ == line@.subrange(i as int, k as int),
    {
        t.push(chars[k]);
    }
    assert(t@ =~= line@.skip(i as int));
    t
}

/// Where `. ` first occurs in `t`, if anywhere.
fn find_dot_space(t: &Vec<char>) -> (r: Option<usize>)
    ensures
        r matches Some(p) ==> first_dot_space(t@, p as int),
        r is None ==> forall|q: int| !(#[trigger] first_dot_space(t@, q)),
{
    let n = t.len();
    let mut p: usize = 0;
    while p < n && p + 1 < n
        invariant
            n == t@.len(),
            p <= n,
            forall|q: int| 0 <= q < p ==> !(t@[q] == '.' && #[trigger] t@[q + 1] == ' '),
        decreases n - p,
    {
        if t[p] == '.' && t[p + 1] == ' ' {
            return Some(p);
        }
        p = p + 1;
    }
    proof {
        assert forall|q: int| !(#[trigger] first_dot_space(t@, q)) by {
            if first_dot_space(t@, q) {
                assert(q < p);
                assert(!(t@[q] == '.' && t@[q + 1] == ' '));
            }
        }
    }
    None
}

/// Whether the first `end` characters of `t` are all ASCII digits.
fn all_ascii_digits(t: &Vec<char>, end: usize) -> (r: bool)
    requires
        end <= t@.len(),
    ensures
        r == forall|m: int| 0 <= m < end ==> is_ascii_digit(#[trigger] t@.take(end as int)[m]),
{
    for q in 0..end
        invariant
            end <= t@.len(),
            forall|m: int| 0 <= m < q ==> is_ascii_digit(#[trigger] t@.take(end as int)[m]),
    {
        if !('0' <= t[q] && t[q] <= '9') {
            assert(!is_ascii_digit(t@.take(end as int)[q as int]));
            return false;
        }
    }
    true
}

/// The text of a Markdown list item, if `line` is one.
pub fn strip_markdown_list_marker(line: &str) -> (r: Option<String>)
    ensures
        match r {
            Some(v) => spec_list_item(line@) == Some(v@),
            None => spec_list_item(line@) == None::<Seq<char>>,
        },
{
    let t = trim_start_chars(line);
    let n = t.len();
    if n >= 2 && (t[0] == '-' || t[0] == '*' || t[0] == '+') && t[1] == ' ' {
        let after = crate::text::string_from_range(&t, 2, n);
        assert(after@ =~= t@.skip(2));
        let value = trim(after.as_str());
        if crate::text::char_count(value.as_str()) > 0 {
            return Some(value);
        } else {
            return None;
        }
    }
    let p = match find_dot_space(&t) {
        Some(p) => p,
        None => {
            return None;
        },
    };
    proof {
        let c = choose|q: int| #[trigger] first_dot_space(t@, q);
        assert(first_dot_space(t@, c));
        if c < p {
            assert(t@[c + 1] == ' ');
        } else if c > p {
            assert(t@[p as int + 1] == ' ');
        }
        assert(c == p);
    }
    let digits = all_ascii_digits(&t, p);
    let after = crate::text::string_from_range(&t, p + 2, n);
    assert(after@ =~= t@.skip(p + 2));
    let value = trim(after.as_str());
    if p > 0 && digits && crate::text::char_count(value.as_str()) > 0 {
        Some(value)
    } else {
        None
    }
}


/// `s` without any leading `c`.
pub open spec fn drop_leading(s: Seq<char>, c: char) -> Seq<char>
    decreases s.len(),
{
    if s.len() > 0 && s[0] == c {
        drop_leading(s.drop_first(), c)
    } else {
        s
    }
}

/// `s` without any trailing `c`.
pub open spec fn drop_trailing(s: Seq<char>, c: char) -> Seq<char>
    decreases s.len(),
{
    if s.len() > 0 && s.last() == c {
        drop_trailing(s.drop_last(), c)
    } else {
        s
    }
}

/// The characters of `v` without any `c` at either end.
pub fn strip_char_ends(v: &Vec<char>, c: char) -> (r: Vec<char>)
    ensures
        r@ == drop_trailing(drop_leading(v@, c), c),
{
    let n = v.len();
    let mut i: usize = 0;
    assert(v@.subrange(0, n as int) =~= v@);
    while i < n && v[i] == c
        invariant
            n == v@.len(),
            i <= n,
            drop_leading(v@, c) == drop_leading(v@.subrange(i as int, n as int), c),
        decreases n - i,
    {
        assert(v@.subrange(i as int, n as int).drop_first() =~= v@.subrange(i + 1, n as int));
        i = i + 1;
    }
    let mut j: usize = n;
    while j > i && v[j - 1] == c
        invariant
            n == v@.len(),
            i <= j <= n,
            drop_leading(v@, c) == v@.subrange(i as int, n as int),
            drop_trailing(v@.subrange(i as int, n as int), c) == drop_trailing(v@.subrange(i as int, j as int), c),
        decreases j,
    {
        assert(v@.subrange(i as int, j as int).drop_last() =~= v@.subrange(i as int, j - 1));
        j = j - 1;
    }
    let mut r: Vec<char> = Vec::new();
    for k in i..j
        invariant
            j <= n,
            n == v@.len(),
            r@ == v@.subrange(i as int, k as int),
    {
        r.push(v[k]);
    }
    r
}

/// Scanning a table row's first `n` characters: the finished cells, the
/// cell being read, and whether a backslash is pending. A backslash makes
/// the next character literal; an unescaped `|` ends a cell, which is kept
/// trimmed.
pub open spec fn row_scan(s: Seq<char>, n: nat) -> (Seq<Seq<char>>, Seq<char>, bool)
    decreases n,
{
    if n == 0 {
        (Seq::empty(), Seq::empty(), false)
    } else {
        let (cells, current, escaped) = row_scan(s, (n - 1) as nat);
        let c = s[n - 1];
        if escaped {
            (cells, current.push(c), false)
        } else if c == '\\' {
            (cells, current, true)
        } else if c == '|' {
            (cells.push(trimmed(current)), Seq::empty(), false)
        } else {
            (cells, current.push(c), false)
        }
    }
}

/// The cells of a Markdown table row: the trimmed line without its outer
/// pipes, split at unescaped pipes, each cell trimmed; a dangling backslash
/// stays in the last cell.
pub open spec fn spec_split_row(line: Seq<char>) -> Seq<Seq<char>> {
    let t = drop_trailing(drop_leading(trimmed(line), '|'), '|');
    let (cells, current, escaped) = row_scan(t, t.len());
    let last = if escaped {
        current.push('\\')
    } else {
        current
    };
    cells.push(trimmed(last))
}

/// The trimmed text of some characters.
fn trimmed_string(v: &Vec<char>) -> (s: String)
    ensures
        s@ == trimmed(v@),
{
    let (i, j) = crate::text::trim_bounds(v);
    crate::text::string_from_range(v, i, j)
}

/// Splits a Markdown table row into its cells.
pub fn split_markdown_row(line: &str) -> (cells: Vec<String>)
    ensures
        crate::text::views(cells@) == spec_split_row(line@),
        cells@.len() >= 1,
{
    let whole = chars_of(line);
    let tr = trimmed_string(&whole);
    let tc = chars_of(tr.as_str());
    let t = strip_char_ends(&tc, '|');
    let mut cells: Vec<String> = Vec::new();
    let mut current: Vec<char> = Vec::new();
    let mut escaped = false;
    for k in 0..t.len()
        invariant
            (crate::text::views(cells@), current@, escaped) == row_scan(t@, k as nat),
    {
        let c = t[k];
        if escaped {
            current.push(c);
            escaped = false;
        } else if c == '\\' {
            escaped = true;
        } else if c == '|' {
            let ghost before = cells@;
            cells.push(trimmed_string(&current));
            assert(crate::text::views(cells@) =~= crate::text::views(before).push(trimmed(current@)));
            current = Vec::new();
        } else {
            current.push(c);
        }
    }
    if escaped {
        current.push('\\');
    }
    let ghost before = cells@;
    cells.push(trimmed_string(&current));
    assert(crate::text::views(cells@) =~= crate::text::views(before).push(trimmed(current@)));
    cells
}

/// Whether a table cell is a separator marker: trimmed and without colons
/// at either end, at least three characters, all dashes.
pub open spec fn is_separator_cell(cell: Seq<char>) -> bool {
    let marker = trimmed(drop_trailing(drop_leading(trimmed(cell), ':'), ':'));
    marker.len() >= 3 && forall|k: int| 0 <= k < marker.len() ==> #[trigger] marker[k] == '-'
}

/// Whether `line` is the separator row under a table header.
pub open spec fn spec_is_table_separator(line: Seq<char>) -> bool {
    let cells = spec_split_row(line);
    cells.len() > 0 && forall|i: int| 0 <= i < cells.len() ==> is_separator_cell(#[trigger] cells[i])
}

/// Whether a cell is a separator marker.
fn separator_cell(cell: &String) -> (r: bool)
    ensures
        r == is_separator_cell(cell@),
{
    let v = chars_of(cell.as_str());
    let t1 = trimmed_string(&v);
    let c1 = chars_of(t1.as_str());
    let stripped = strip_char_ends(&c1, ':');
    let marker_s = trimmed_string(&stripped);
    let marker = chars_of(marker_s.as_str());
    if marker.len() < 3 {
        return false;
    }
    for k in 0..marker.len()
        invariant
            marker@ == trimmed(drop_trailing(drop_leading(trimmed(cell@), ':'), ':')),
            forall|m: int| 0 <= m < k ==> #[trigger] marker@[m] == '-',
    {
        if marker[k] != '-' {
            assert(marker@ == trimmed(drop_trailing(drop_leading(trimmed(cell@), ':'), ':')));
            assert(!(marker@[k as int] == '-'));
            return false;
        }
    }
    true
}

/// Whether `line` is a table separator row.
pub fn is_table_separator(line: &str) -> (r: bool)
    ensures
        r == spec_is_table_separator(line@),
{
    let cells = split_markdown_row(line);
    let ghost cv = crate::text::views(cells@);
    for i in 0..cells.len()
        invariant
            cv == crate::text::views(cells@),
            cv == spec_split_row(line@),
            forall|k: int| 0 <= k < i ==> is_separator_cell(#[trigger] cv[k]),
    {
        if !separator_cell(&cells[i]) {
            assert(!is_separator_cell(cv[i as int]));
            assert(cv == spec_split_row(line@));
            assert(!(forall|k: int| 0 <= k < cv.len() ==> is_separator_cell(#[trigger] cv[k])));
            return false;
        }
    }
    cells.len() > 0
}

/// Fewest items an import must keep.
pub const MINIMUM_ITEM_COUNT: usize = 2;

/// The named values of a row, as a view.
pub open spec fn fields_view(f: Seq<(String, JsonValue)>) -> Seq<(Seq<char>, JsonView)> {
    members_view(f, f.len())
}

/// A row read from the source: its position there and its named values.
pub type Candidate = (usize, Vec<(String, JsonValue)>);

pub open spec fn candidate_view(c: Candidate) -> (nat, Seq<(Seq<char>, JsonView)>) {
    (c.0 as nat, fields_view(c.1@))
}

pub open spec fn candidates_view(cs: Seq<Candidate>) -> Seq<(nat, Seq<(Seq<char>, JsonView)>)> {
    cs.map_values(|c: Candidate| candidate_view(c))
}

/// A field of an import: its name, type, place, and what its values look
/// like.
#[derive(Debug)]
pub struct ImportedFieldDefinition {
    pub name: String,
    pub field_type: ImportedFieldType,
    pub display_order: usize,
    pub empty_count: usize,
    pub unique_count: usize,
    pub samples: Vec<JsonValue>,
}

/// An imported row with its id.
#[derive(Debug)]
pub struct ImportedItem {
    pub id: String,
    pub original_index: usize,
    pub fields: Vec<(String, JsonValue)>,
}

/// What an import produced.
#[derive(Debug)]
pub struct ImportResult {
    pub source_type: ImportSourceType,
    pub fields: Vec<ImportedFieldDefinition>,
    pub items: Vec<ImportedItem>,
    pub removed_empty_count: usize,
    pub duplicate_count: usize,
    pub deduplicated: bool,
}

/// The non-empty values named `name` in the rows, in row order.
pub open spec fn nonempty_values(rows: Seq<Seq<(Seq<char>, JsonView)>>, name: Seq<char>) -> Seq<JsonView>
    decreases rows.len(),
{
    if rows.len() == 0 {
        Seq::empty()
    } else {
        let before = nonempty_values(rows.drop_last(), name);
        match lookup(rows.last(), name) {
            Some(v) => if is_empty_value(v) {
                before
            } else {
                before.push(v)
            },
            None => before,
        }
    }
}

/// Each distinct value of `s` once, at its first occurrence.
pub open spec fn first_occurrences(s: Seq<JsonView>) -> Seq<JsonView>
    decreases s.len(),
{
    if s.len() == 0 {
        Seq::empty()
    } else {
        let before = first_occurrences(s.drop_last());
        if s.drop_last().contains(s.last()) {
            before
        } else {
            before.push(s.last())
        }
    }
}

proof fn lemma_first_occurrences_contains(s: Seq<JsonView>)
    ensures
        forall|x: JsonView| #[trigger] first_occurrences(s).contains(x) <==> s.contains(x),
    decreases s.len(),
{
    if s.len() > 0 {
        let d = s.drop_last();
        let l = s.last();
        lemma_first_occurrences_contains(d);
        let fo = first_occurrences(d);
        assert forall|x: JsonView| #[trigger] first_occurrences(s).contains(x) <==> s.contains(x) by {
            assert(s[s.len() - 1] == l);
            if s.contains(x) && x != l {
                let i = choose|i: int| 0 <= i < s.len() && s[i] == x;
                assert(d[i] == x);
            }
            if d.contains(x) {
                let i = choose|i: int| 0 <= i < d.len() && d[i] == x;
                assert(s[i] == x);
            }
            if !d.contains(l) {
                assert(first_occurrences(s) == fo.push(l));
                assert(fo.push(l)[fo.len() as int] == l);
                if fo.push(l).contains(x) && x != l {
                    let i = choose|i: int| 0 <= i < fo.push(l).len() && fo.push(l)[i] == x;
                    assert(fo[i] == x);
                }
                if fo.contains(x) {
                    let i = choose|i: int| 0 <= i < fo.len() && fo[i] == x;
                    assert(fo.push(l)[i] == x);
                }
            }
        }
    }
}

/// The statistics of the field `name` over the rows: rows without a
/// non-empty value, distinct non-empty values, and the first three
/// non-empty values.
pub open spec fn spec_field_stats(rows: Seq<Seq<(Seq<char>, JsonView)>>, name: Seq<char>) -> (int, nat, Seq<JsonView>) {
    let values = nonempty_values(rows, name);
    (
        rows.len() - values.len(),
        first_occurrences(values).len(),
        values.take(if values.len() < 3 { values.len() as int } else { 3 }),
    )
}

pub open spec fn item_rows(items: Seq<ImportedItem>) -> Seq<Seq<(Seq<char>, JsonView)>> {
    items.map_values(|it: ImportedItem| fields_view(it.fields@))
}

pub open spec fn json_views(v: Seq<JsonValue>) -> Seq<JsonView> {
    v.map_values(|x: JsonValue| x@)
}

proof fn lemma_nonempty_len(rows: Seq<Seq<(Seq<char>, JsonView)>>, name: Seq<char>)
    ensures
        nonempty_values(rows, name).len() <= rows.len(),
    decreases rows.len(),
{
    if rows.len() > 0 {
        lemma_nonempty_len(rows.drop_last(), name);
    }
}

/// Recomputes the statistics of field `name` over the items.
pub fn field_stats(name: &str, items: &Vec<ImportedItem>) -> (r: (usize, usize, Vec<JsonValue>))
    ensures
        (r.0 as int, r.1 as nat, json_views(r.2@)) == spec_field_stats(item_rows(items@), name@),
{
    let ghost rows = item_rows(items@);
    let mut count: usize = 0;
    let mut distinct: Vec<JsonValue> = Vec::new();
    let mut samples: Vec<JsonValue> = Vec::new();
    for i in 0..items.len()
        invariant
            rows == item_rows(items@),
            count == nonempty_values(rows.take(i as int), name@).len(),
            count <= i,
            json_views(distinct@) == first_occurrences(nonempty_values(rows.take(i as int), name@)),
            json_views(samples@) == nonempty_values(rows.take(i as int), name@).take(
                if count < 3 { count as int } else { 3 },
            ),
    {
        let ghost before = nonempty_values(rows.take(i as int), name@);
        assert(rows.take(i + 1).drop_last() =~= rows.take(i as int));
        assert(rows.take(i + 1).last() == fields_view(items@[i as int].fields@));
        let fields = &items[i].fields;
        match find_member(fields, name) {
            Some(k) => {
                let value = &fields[k].1;
                if !empty_value(value) {
                    proof {
                        lemma_first_occurrences_contains(before);
                    }
                    let mut seen = false;
                    for d in 0..distinct.len()
                        invariant
                            seen == exists|m: int| 0 <= m < d && json_views(distinct@)[m] == value@,
                    {
                        assert(json_views(distinct@)[d as int] == distinct@[d as int]@);
                        if json_eq(&distinct[d], value) {
                            seen = true;
                        }
                    }
                    assert(seen == first_occurrences(before).contains(value@));
                    assert(nonempty_values(rows.take(i + 1), name@) == before.push(value@));
                    assert(before.push(value@).drop_last() =~= before);
                    assert(before.push(value@).last() == value@);
                    if !seen {
                        let ghost prev = distinct@;
                        distinct.push(json_clone(value));
                        assert(json_views(distinct@) =~= json_views(prev).push(value@));
                    }
                    if count < 3 {
                        let ghost prev = samples@;
                        samples.push(json_clone(value));
                        assert(json_views(samples@) =~= json_views(prev).push(value@));
                        assert(before.push(value@).take(count + 1) =~= before.take(count as int).push(value@));
                    } else {
                        assert(before.push(value@).take(3) =~= before.take(3));
                    }
                    count = count + 1;
                } else {
                    assert(nonempty_values(rows.take(i + 1), name@) == before);
                }
            },
            None => {
                assert(nonempty_values(rows.take(i + 1), name@) == before);
            },
        }
    }
    assert(rows.take(items@.len() as int) =~= rows);
    proof {
        lemma_nonempty_len(rows, name@);
    }
    (items.len() - count, distinct.len(), samples)
}

/// Keeps the rows, noting each row whose values equal an earlier row's as
/// a duplicate (dropped when `dedup`): the kept rows and the number of
/// duplicates among the first `n`.
pub open spec fn dedup_scan(rows: Seq<(nat, Seq<(Seq<char>, JsonView)>)>, n: nat, dedup: bool) -> (
    Seq<(nat, Seq<(Seq<char>, JsonView)>)>,
    nat,
)
    decreases n,
{
    if n == 0 {
        (Seq::empty(), 0)
    } else {
        let (kept, dups) = dedup_scan(rows, (n - 1) as nat, dedup);
        let r = rows[n - 1];
        if exists|j: int| 0 <= j < n - 1 && #[trigger] rows[j].1 == r.1 {
            (if dedup {
                kept
            } else {
                kept.push(r)
            }, dups + 1)
        } else {
            (kept.push(r), dups)
        }
    }
}

proof fn lemma_dedup_bounds(rows: Seq<(nat, Seq<(Seq<char>, JsonView)>)>, n: nat, dedup: bool)
    ensures
        dedup_scan(rows, n, dedup).0.len() <= n,
        dedup_scan(rows, n, dedup).1 <= n,
    decreases n,
{
    if n > 0 {
        lemma_dedup_bounds(rows, (n - 1) as nat, dedup);
    }
}

/// A fresh id: a random version 4 UUID (`uuid::Uuid::new_v4`) in its
/// hyphenated form, which has 36 characters.
#[verifier::external_body]
pub(crate) fn new_item_id() -> (id: String)
    ensures
        id@.len() == 36,
{
    uuid::Uuid::new_v4().to_string()
}

pub open spec fn item_view(it: ImportedItem) -> (nat, Seq<(Seq<char>, JsonView)>) {
    (it.original_index as nat, fields_view(it.fields@))
}

/// The name, type and place a field definition was given.
pub open spec fn field_key(d: ImportedFieldDefinition) -> (Seq<char>, ImportedFieldType, usize) {
    (d.name@, d.field_type, d.display_order)
}

/// A finalised field definition: name, type and place as given, the
/// statistics over the kept rows.
pub open spec fn field_matches(
    out: ImportedFieldDefinition,
    given: (Seq<char>, ImportedFieldType, usize),
    rows: Seq<Seq<(Seq<char>, JsonView)>>,
) -> bool {
    let (empty, unique, samples) = spec_field_stats(rows, given.0);
    &&& out.name@ == given.0
    &&& out.field_type == given.1
    &&& out.display_order == given.2
    &&& out.empty_count == empty
    &&& out.unique_count == unique
    &&& json_views(out.samples@) == samples
}

/// What a finished import holds: the rows kept by the duplicate check, in
/// order, each with an id, and the fields' statistics over those rows.
pub open spec fn result_matches(
    res: ImportResult,
    source_type: ImportSourceType,
    fields: Seq<(Seq<char>, ImportedFieldType, usize)>,
    kept: Seq<(nat, Seq<(Seq<char>, JsonView)>)>,
    dups: nat,
    removed_empty_count: usize,
    deduplicate: bool,
) -> bool {
    &&& res.source_type == source_type
    &&& res.items@.map_values(|it: ImportedItem| item_view(it)) == kept
    &&& forall|i: int| 0 <= i < res.items@.len() ==> (#[trigger] res.items@[i]).id@.len() == 36
    &&& res.fields@.len() == fields.len()
    &&& forall|f: int|
        0 <= f < fields.len() ==> field_matches(
            #[trigger] res.fields@[f],
            fields[f],
            kept.map_values(|r: (nat, Seq<(Seq<char>, JsonView)>)| r.1),
        )
    &&& res.removed_empty_count == removed_empty_count
    &&& res.duplicate_count == dups
    &&& res.deduplicated == deduplicate
}

/// The outcome of finishing an import of the given rows: refused when
/// fewer than two rows are kept, else the finished result.
pub open spec fn finalize_outcome(
    r: Result<ImportResult, ImportError>,
    source_type: ImportSourceType,
    fields: Seq<(Seq<char>, ImportedFieldType, usize)>,
    candidates: Seq<(nat, Seq<(Seq<char>, JsonView)>)>,
    removed_empty_count: usize,
    deduplicate: bool,
) -> bool {
    let (kept, dups) = dedup_scan(candidates, candidates.len(), deduplicate);
    &&& kept.len() < MINIMUM_ITEM_COUNT ==> (r matches Err(ImportError::TooFewItems { found, required })
        && found == kept.len() && required == MINIMUM_ITEM_COUNT)
    &&& kept.len() >= MINIMUM_ITEM_COUNT ==> (r matches Ok(res) && result_matches(
        res,
        source_type,
        fields,
        kept,
        dups,
        removed_empty_count,
        deduplicate,
    ))
}

pub open spec fn field_keys(defs: Seq<ImportedFieldDefinition>) -> Seq<(Seq<char>, ImportedFieldType, usize)> {
    defs.map_values(|d: ImportedFieldDefinition| field_key(d))
}

/// Deduplicates the rows, refuses an import left with fewer than two, gives
/// every kept row an id and recomputes the field statistics.
pub fn finalize(
    source_type: ImportSourceType,
    fields: Vec<ImportedFieldDefinition>,
    candidates: Vec<Candidate>,
    removed_empty_count: usize,
    deduplicate: bool,
) -> (r: Result<ImportResult, ImportError>)
    ensures
        finalize_outcome(r, source_type, field_keys(fields@), candidates_view(candidates@), removed_empty_count, deduplicate),
{
    let ghost cv = candidates_view(candidates@);
    let n = candidates.len();
    let mut items: Vec<ImportedItem> = Vec::new();
    let mut duplicate_count: usize = 0;
    for i in 0..n
        invariant
            n == candidates@.len(),
            cv == candidates_view(candidates@),
            items@.map_values(|it: ImportedItem| item_view(it)) == dedup_scan(cv, i as nat, deduplicate).0,
            duplicate_count == dedup_scan(cv, i as nat, deduplicate).1,
            duplicate_count <= i,
            forall|k: int| 0 <= k < items@.len() ==> (#[trigger] items@[k]).id@.len() == 36,
    {
        proof {
            lemma_dedup_bounds(cv, i as nat, deduplicate);
        }
        let mut duplicate = false;
        for j in 0..i
            invariant
                i < n,
                n == candidates@.len(),
                cv == candidates_view(candidates@),
                duplicate == exists|m: int| 0 <= m < j && #[trigger] cv[m].1 == cv[i as int].1,
        {
            if members_eq(&candidates[j].1, &candidates[i].1) {
                assert(cv[j as int].1 == cv[i as int].1);
                duplicate = true;
            }
        }
        let ghost kept_before = items@;
        if duplicate {
            duplicate_count = duplicate_count + 1;
        }
        if !duplicate || !deduplicate {
            let copied = members_clone(&candidates[i].1);
            let item = ImportedItem { id: new_item_id(), original_index: candidates[i].0, fields: copied };
            items.push(item);
            assert(items@.map_values(|it: ImportedItem| item_view(it)) =~= kept_before.map_values(
                |it: ImportedItem| item_view(it),
            ).push(cv[i as int]));
        }
    }
    let ghost kept = dedup_scan(cv, n as nat, deduplicate).0;
    if items.len() < MINIMUM_ITEM_COUNT {
        return Err(ImportError::TooFewItems { found: items.len(), required: MINIMUM_ITEM_COUNT });
    }
    let mut out_fields: Vec<ImportedFieldDefinition> = Vec::new();
    proof {
        assert(item_rows(items@) =~= kept.map_values(|r: (nat, Seq<(Seq<char>, JsonView)>)| r.1));
    }
    for f in 0..fields.len()
        invariant
            item_rows(items@) == kept.map_values(|r: (nat, Seq<(Seq<char>, JsonView)>)| r.1),
            forall|k: int| 0 <= k < items@.len() ==> (#[trigger] items@[k]).id@.len() == 36,
            out_fields@.len() == f,
            forall|g: int|
                0 <= g < f ==> field_matches(
                    #[trigger] out_fields@[g],
                    field_key(fields@[g]),
                    kept.map_values(|r: (nat, Seq<(Seq<char>, JsonView)>)| r.1),
                ),
    {
        let given = &fields[f];
        let (empty_count, unique_count, samples) = field_stats(given.name.as_str(), &items);
        out_fields.push(
            ImportedFieldDefinition {
                name: given.name.clone(),
                field_type: given.field_type,
                display_order: given.display_order,
                empty_count,
                unique_count,
                samples,
            },
        );
    }
    Ok(
        ImportResult {
            source_type,
            fields: out_fields,
            items,
            removed_empty_count,
            duplicate_count,
            deduplicated: deduplicate,
        },
    )
}

/// The name a header starts from: its trimmed text, or `字段` and its
/// 1-based position when blank.
pub open spec fn header_base(value: Seq<char>, index: nat) -> Seq<char> {
    if trimmed(value).len() == 0 {
        "字段"@ + crate::text::decimal(index + 1)
    } else {
        trimmed(value)
    }
}

/// `base` with the numeric suffix `_k`.
pub open spec fn suffixed(base: Seq<char>, k: nat) -> Seq<char> {
    base + seq!['_'] + crate::text::decimal(k)
}

/// `k` is the first suffix from 2 on whose name is not yet used.
pub open spec fn first_free_suffix(used: Seq<Seq<char>>, base: Seq<char>, k: nat) -> bool {
    &&& k >= 2
    &&& !used.contains(suffixed(base, k))
    &&& forall|j: nat| 2 <= j < k ==> used.contains(#[trigger] suffixed(base, j))
}

/// The name chosen for `base` given the names already used: `base` itself
/// if free, else `base` with the first free suffix.
pub open spec fn pick_name(used: Seq<Seq<char>>, base: Seq<char>) -> Seq<char> {
    if !used.contains(base) {
        base
    } else {
        suffixed(base, choose|k: nat| first_free_suffix(used, base, k))
    }
}

/// The normalised names of the first `n` headers: unique, blank ones named
/// by position, repeats numbered.
pub open spec fn spec_normalized(headers: Seq<Seq<char>>, n: nat) -> Seq<Seq<char>>
    decreases n,
{
    if n == 0 {
        Seq::empty()
    } else {
        let before = spec_normalized(headers, (n - 1) as nat);
        before.push(pick_name(before, header_base(headers[n - 1], (n - 1) as nat)))
    }
}

proof fn lemma_suffixed_injective(base: Seq<char>, a: nat, b: nat)
    requires
        suffixed(base, a) == suffixed(base, b),
    ensures
        a == b,
{
    let x = suffixed(base, a);
    assert(x.skip(base.len() + 1int) =~= crate::text::decimal(a));
    assert(suffixed(base, b).skip(base.len() + 1int) =~= crate::text::decimal(b));
    crate::text::lemma_decimal_injective(a, b);
}

/// If the names with suffixes 2 to `k` are all used, there are at least
/// `k - 1` used names.
proof fn lemma_tried_bound(used: Seq<Seq<char>>, base: Seq<char>, k: nat)
    requires
        k >= 2,
        forall|j: nat| 2 <= j <= k ==> used.contains(#[trigger] suffixed(base, j)),
    ensures
        k - 1 <= used.len(),
{
    let range = vstd::set_lib::set_int_range(2, k + 1int);
    vstd::set_lib::lemma_int_range(2, k + 1int);
    let f = |j: int| suffixed(base, j as nat);
    let tried = range.map(f);
    assert(vstd::relations::injective_on(f, range)) by {
        assert forall|a: int, b: int| range.contains(a) && range.contains(b) && #[trigger] f(a) == #[trigger] f(b) implies a == b by {
            lemma_suffixed_injective(base, a as nat, b as nat);
        }
    }
    vstd::set_lib::lemma_map_size(range, tried, f);
    assert(tried.subset_of(used.to_set())) by {
        assert forall|x: Seq<char>| tried.contains(x) implies used.to_set().contains(x) by {
            let j = choose|j: int| range.contains(j) && f(j) == x;
            assert(used.contains(suffixed(base, j as nat)));
        }
    }
    vstd::seq_lib::seq_to_set_is_finite(used);
    vstd::set_lib::lemma_len_subset(tried, used.to_set());
    used.lemma_cardinality_of_set();
}

/// Some suffix from 2 on is free, and there is a first one.
proof fn lemma_first_free_exists(used: Seq<Seq<char>>, base: Seq<char>)
    ensures
        exists|k: nat| first_free_suffix(used, base, k),
{
    let bound = used.len() + 2;
    if forall|j: nat| 2 <= j <= bound ==> used.contains(#[trigger] suffixed(base, j)) {
        lemma_tried_bound(used, base, bound);
    }
    let free = choose|j: nat| 2 <= j <= bound && !used.contains(#[trigger] suffixed(base, j));
    lemma_first_free_from(used, base, 2, free);
}

proof fn lemma_first_free_from(used: Seq<Seq<char>>, base: Seq<char>, k: nat, free: nat)
    requires
        2 <= k <= free,
        !used.contains(suffixed(base, free)),
        forall|j: nat| 2 <= j < k ==> used.contains(#[trigger] suffixed(base, j)),
    ensures
        exists|m: nat| first_free_suffix(used, base, m),
    decreases free - k,
{
    if !used.contains(suffixed(base, k)) {
        assert(first_free_suffix(used, base, k));
    } else {
        assert forall|j: nat| 2 <= j < k + 1 implies used.contains(#[trigger] suffixed(base, j)) by {
            if j == k {
            }
        }
        lemma_first_free_from(used, base, k + 1, free);
    }
}

/// The chosen name is never one already used.
proof fn lemma_pick_name_fresh(used: Seq<Seq<char>>, base: Seq<char>)
    ensures
        !used.contains(pick_name(used, base)),
{
    if used.contains(base) {
        lemma_first_free_exists(used, base);
    }
}

/// Normalised column names are all different: blank headers get their
/// position, and a repeated name gets the first free numeric suffix.
pub proof fn lemma_normalized_headers_distinct(headers: Seq<Seq<char>>, n: nat)
    ensures
        spec_normalized(headers, n).no_duplicates(),
    decreases n,
{
    if n > 0 {
        let before = spec_normalized(headers, (n - 1) as nat);
        lemma_normalized_headers_distinct(headers, (n - 1) as nat);
        lemma_pick_name_fresh(before, header_base(headers[n - 1], (n - 1) as nat));
    }
}

/// Finds the name for `base` among `used`.
fn pick_header_name(used: &Vec<String>, base: String) -> (r: String)
    ensures
        r@ == pick_name(crate::text::views(used@), base@),
{
    let ghost u = crate::text::views(used@);
    if !crate::text::contains_string(used, &base) {
        return base;
    }
    let mut suffix: u128 = 2;
    let count = used.len();
    let underscore = crate::text::concat(base.as_str(), "_");
    proof {
        reveal_strlit("_");
        assert(underscore@ =~= base@ + seq!['_']);
    }
    loop
        invariant
            u == crate::text::views(used@),
            u.len() == count,
            u.contains(base@),
            underscore@ == base@ + seq!['_'],
            2 <= suffix,
            suffix - 2 <= u.len(),
            forall|j: nat| 2 <= j < suffix ==> u.contains(#[trigger] suffixed(base@, j)),
        decreases u.len() + 2 - suffix,
    {
        let digits = crate::text::decimal_string(suffix);
        let candidate = crate::text::concat(underscore.as_str(), digits.as_str());
        assert(candidate@ == suffixed(base@, suffix as nat));
        if !crate::text::contains_string(used, &candidate) {
            proof {
                assert(first_free_suffix(u, base@, suffix as nat));
                let c = choose|k: nat| first_free_suffix(u, base@, k);
                if c < suffix {
                    assert(u.contains(suffixed(base@, c)));
                } else if c > suffix {
                    assert(u.contains(suffixed(base@, suffix as nat)));
                }
                assert(c == suffix);
            }
            return candidate;
        }
        proof {
            lemma_tried_bound(u, base@, suffix as nat);
        }
        suffix = suffix + 1;
    }
}

/// Unique, non-blank column names for the given headers.
pub fn normalize_headers(headers: &Vec<String>) -> (r: Vec<String>)
    ensures
        crate::text::views(r@) == spec_normalized(crate::text::views(headers@), headers@.len() as nat),
{
    let ghost hv = crate::text::views(headers@);
    let mut out: Vec<String> = Vec::new();
    for i in 0..headers.len()
        invariant
            hv == crate::text::views(headers@),
            out@.len() == i,
            crate::text::views(out@) == spec_normalized(hv, i as nat),
    {
        let t = trim(headers[i].as_str());
        let base = if crate::text::char_count(t.as_str()) == 0 {
            let number = crate::text::decimal_string(i as u128 + 1);
            crate::text::concat("字段", number.as_str())
        } else {
            t
        };
        assert(base@ == header_base(hv[i as int], i as nat));
        let name = pick_header_name(&out, base);
        let ghost before = out@;
        out.push(name);
        assert(crate::text::views(out@) =~= crate::text::views(before).push(
            pick_name(crate::text::views(before), header_base(hv[i as int], i as nat)),
        ));
    }
    out
}

/// Two characters equal up to ASCII case.
pub open spec fn ascii_eq_ignore_case(a: char, b: char) -> bool {
    a == b || ('A' <= a && a <= 'Z' && a as u32 + 32 == b as u32) || ('A' <= b && b <= 'Z' && b as u32 + 32
        == a as u32)
}

/// Two texts equal up to ASCII case.
pub open spec fn spec_eq_ignore_ascii_case(a: Seq<char>, b: Seq<char>) -> bool {
    a.len() == b.len() && forall|i: int| 0 <= i < a.len() ==> ascii_eq_ignore_case(#[trigger] a[i], b[i])
}

/// Whether two texts are equal up to ASCII case.
pub fn eq_ignore_ascii_case(a: &str, b: &str) -> (r: bool)
    ensures
        r == spec_eq_ignore_ascii_case(a@, b@),
{
    let x = chars_of(a);
    let y = chars_of(b);
    if x.len() != y.len() {
        return false;
    }
    for i in 0..x.len()
        invariant
            x@ == a@,
            y@ == b@,
            x@.len() == y@.len(),
            forall|k: int| 0 <= k < i ==> ascii_eq_ignore_case(#[trigger] a@[k], b@[k]),
    {
        let c = x[i];
        let d = y[i];
        let cu = c as u32;
        let du = d as u32;
        let same = c == d || ('A' <= c && c <= 'Z' && cu + 32 == du) || ('A' <= d && d <= 'Z' && du + 32 == cu);
        if !same {
            assert(!ascii_eq_ignore_case(a@[i as int], b@[i as int]));
            return false;
        }
    }
    true
}

pub open spec fn is_e(c: char) -> bool {
    c == 'e' || c == 'E'
}

/// `k` is where the exponent of a number text starts: the first `e` or
/// `E`, or the end.
pub open spec fn exponent_start(b: Seq<char>, k: int) -> bool {
    &&& 0 <= k <= b.len()
    &&& forall|i: int| 0 <= i < k ==> !is_e(#[trigger] b[i])
    &&& (k == b.len() || is_e(b[k]))
}

/// Digits with at most one point, and at least one digit.
pub open spec fn mantissa_ok(m: Seq<char>) -> bool {
    &&& forall|i: int| 0 <= i < m.len() ==> is_ascii_digit(#[trigger] m[i]) || m[i] == '.'
    &&& forall|i: int, j: int| 0 <= i < j < m.len() ==> !(#[trigger] m[i] == '.' && #[trigger] m[j] == '.')
    &&& exists|i: int| 0 <= i < m.len() && is_ascii_digit(#[trigger] m[i])
}

/// Whether every character is an ASCII digit.
pub open spec fn all_digits(d: Seq<char>) -> bool {
    forall|i: int| 0 <= i < d.len() ==> is_ascii_digit(#[trigger] d[i])
}

/// The digits of an exponent `x`: after the `e` and an optional sign.
pub open spec fn exponent_digits(x: Seq<char>) -> Seq<char> {
    if x.skip(1)[0] == '+' || x.skip(1)[0] == '-' {
        x.skip(2)
    } else {
        x.skip(1)
    }
}

/// Nothing, or `e`, an optional sign and at least one digit.
pub open spec fn exponent_ok(x: Seq<char>) -> bool {
    x.len() == 0 || (x.len() >= 2 && is_e(x[0]) && exponent_digits(x).len() > 0 && all_digits(exponent_digits(x)))
}

/// A number text without its leading sign, if any.
pub open spec fn unsigned_part(s: Seq<char>) -> Seq<char> {
    if s.len() > 0 && (s[0] == '+' || s[0] == '-') {
        s.skip(1)
    } else {
        s
    }
}

/// Texts that `f64::from_str` accepts: an optional sign, then `inf`,
/// `infinity` or `nan` in any ASCII case, or a decimal number with an
/// optional exponent.
pub open spec fn is_float_text(s: Seq<char>) -> bool {
    spec_eq_ignore_ascii_case(unsigned_part(s), "inf"@) || spec_eq_ignore_ascii_case(unsigned_part(s), "infinity"@)
        || spec_eq_ignore_ascii_case(unsigned_part(s), "nan"@) || exists|k: int|
        #[trigger] exponent_start(unsigned_part(s), k) && mantissa_ok(unsigned_part(s).take(k)) && exponent_ok(
            unsigned_part(s).skip(k),
        )
}

fn mantissa_check(b: &Vec<char>, k: usize) -> (r: bool)
    requires
        k <= b@.len(),
    ensures
        r == mantissa_ok(b@.take(k as int)),
{
    let ghost m = b@.take(k as int);
    let mut dots: usize = 0;
    let mut digits = false;
    for i in 0..k
        invariant
            k <= b@.len(),
            m == b@.take(k as int),
            forall|j: int| 0 <= j < i ==> is_ascii_digit(#[trigger] m[j]) || m[j] == '.',
            dots <= 1,
            dots == 0 ==> forall|j: int| 0 <= j < i ==> m[j] != '.',
            dots == 1 ==> exists|j: int| 0 <= j < i && m[j] == '.',
            forall|p: int, q: int| 0 <= p < q < i ==> !(#[trigger] m[p] == '.' && #[trigger] m[q] == '.'),
            digits == exists|j: int| 0 <= j < i && is_ascii_digit(#[trigger] m[j]),
    {
        let c = b[i];
        assert(m[i as int] == c);
        if '0' <= c && c <= '9' {
            digits = true;
        } else if c == '.' {
            if dots == 1 {
                let ghost j = choose|j: int| 0 <= j < i && m[j] == '.';
                assert(m[j] == '.' && m[i as int] == '.');
                return false;
            }
            dots = 1;
        } else {
            assert(!(is_ascii_digit(m[i as int]) || m[i as int] == '.'));
            return false;
        }
    }
    digits
}

fn exponent_check(b: &Vec<char>, k: usize) -> (r: bool)
    requires
        k <= b@.len(),
    ensures
        r == exponent_ok(b@.skip(k as int)),
{
    let n = b.len();
    let ghost x = b@.skip(k as int);
    if k == n {
        return true;
    }
    assert(x[0] == b@[k as int]);
    if n - k < 2 || !(b[k] == 'e' || b[k] == 'E') {
        return false;
    }
    let ghost r = x.skip(1);
    assert(r =~= b@.skip(k + 1));
    assert(r[0] == b@[k + 1]);
    let mut start = k + 1;
    if b[start] == '+' || b[start] == '-' {
        start = start + 1;
        assert(r.skip(1) =~= b@.skip(k + 2));
    }
    let ghost d = b@.skip(start as int);
    proof {
        if r[0] == '+' || r[0] == '-' {
            assert(x.skip(2) =~= d);
        } else {
            assert(x.skip(1) =~= d);
        }
        assert(exponent_digits(x) == d);
    }
    if start >= n {
        return false;
    }
    for i in start..n
        invariant
            n == b@.len(),
            start <= n,
            d == b@.skip(start as int),
            x == b@.skip(k as int),
            exponent_ok(x) == (d.len() > 0 && all_digits(d)),
            forall|j: int| start <= j < i ==> is_ascii_digit(#[trigger] b@[j]),
    {
        if !('0' <= b[i] && b[i] <= '9') {
            proof {
                assert(d[i - start] == b@[i as int]);
                assert(!is_ascii_digit(d[i - start]));
                assert(!all_digits(d));
            }
            return false;
        }
    }
    proof {
        assert forall|i: int| 0 <= i < d.len() implies is_ascii_digit(#[trigger] d[i]) by {
            assert(d[i] == b@[start + i]);
        }
    }
    true
}

/// Whether `text` parses as an `f64`.
pub fn parses_as_float(text: &str) -> (r: bool)
    ensures
        r == is_float_text(text@),
{
    let s = chars_of(text);
    let start: usize = if s.len() > 0 && (s[0] == '+' || s[0] == '-') {
        1
    } else {
        0
    };
    let b_string = crate::text::string_from_range(&s, start, s.len());
    let ghost b = b_string@;
    assert(b =~= unsigned_part(text@));
    if eq_ignore_ascii_case(b_string.as_str(), "inf") || eq_ignore_ascii_case(b_string.as_str(), "infinity")
        || eq_ignore_ascii_case(b_string.as_str(), "nan") {
        return true;
    }
    let bv = chars_of(b_string.as_str());
    let n = bv.len();
    let mut k: usize = 0;
    while k < n && !(bv[k] == 'e' || bv[k] == 'E')
        invariant
            bv@ == b,
            n == b.len(),
            k <= n,
            forall|i: int| 0 <= i < k ==> !is_e(#[trigger] b[i]),
        decreases n - k,
    {
        k = k + 1;
    }
    assert(exponent_start(b, k as int));
    let ok = mantissa_check(&bv, k) && exponent_check(&bv, k);
    proof {
        assert forall|k2: int| #[trigger] exponent_start(b, k2) implies k2 == k by {
            if k2 < k {
                assert(!is_e(b[k2]));
            } else if k2 > k {
                assert(!is_e(b[k as int]));
            }
        }
        if ok {
            assert(exponent_start(b, k as int) && mantissa_ok(b.take(k as int)) && exponent_ok(b.skip(k as int)));
        }
    }
    ok
}

/// Image file extensions, lower case.
pub open spec fn is_image_extension(e: Seq<char>) -> bool {
    spec_eq_ignore_ascii_case(e, "png"@) || spec_eq_ignore_ascii_case(e, "jpg"@) || spec_eq_ignore_ascii_case(
        e,
        "jpeg"@,
    ) || spec_eq_ignore_ascii_case(e, "gif"@) || spec_eq_ignore_ascii_case(e, "webp"@)
        || spec_eq_ignore_ascii_case(e, "bmp"@) || spec_eq_ignore_ascii_case(e, "svg"@)
}

/// `p` is where `pat` first occurs in `t` at or after `from`.
pub open spec fn first_match_at(t: Seq<char>, pat: Seq<char>, from: int, p: int) -> bool {
    &&& from <= p && p + pat.len() <= t.len()
    &&& t.subrange(p, p + pat.len()) == pat
    &&& forall|q: int| from <= q < p ==> #[trigger] t.subrange(q, q + pat.len()) != pat
}

pub open spec fn has_match(t: Seq<char>, pat: Seq<char>, from: int) -> bool {
    exists|p: int| #[trigger] first_match_at(t, pat, from, p)
}

pub open spec fn match_at(t: Seq<char>, pat: Seq<char>, from: int) -> int {
    choose|p: int| #[trigger] first_match_at(t, pat, from, p)
}

/// The part of a path before its first `?` or `#`.
pub open spec fn before_query(t: Seq<char>) -> Seq<char> {
    if exists|i: int| 0 <= i < t.len() && (#[trigger] t[i] == '?' || t[i] == '#') {
        let i = choose|i: int|
            0 <= i < t.len() && (#[trigger] t[i] == '?' || t[i] == '#') && forall|j: int|
                0 <= j < i ==> !(#[trigger] t[j] == '?' || t[j] == '#');
        t.take(i)
    } else {
        t
    }
}

/// The image a value refers to: a plain path or the target of a Markdown
/// image `![..](target)`, when the file it names (ignoring any query or
/// fragment) has an image extension.
pub open spec fn spec_image_reference(value: Seq<char>) -> Option<Seq<char>> {
    let t = trimmed(value);
    let target = if t.len() >= 2 && t[0] == '!' && t[1] == '[' {
        if has_match(t, seq![']', '('], 0) {
            let open = match_at(t, seq![']', '('], 0) + 2;
            if has_match(t, seq![')'], open) {
                Some(trimmed(t.subrange(open, match_at(t, seq![')'], open))))
            } else {
                None
            }
        } else {
            None
        }
    } else {
        Some(t)
    };
    match target {
        Some(target) => match path_extension_of(before_query(target)) {
            Some(e) => if is_image_extension(e) {
                Some(target)
            } else {
                None
            },
            None => None,
        },
        None => None,
    }
}

/// Finds where `pat` first occurs in `t` from `from` on.
fn find_from(t: &Vec<char>, pat: &Vec<char>, from: usize) -> (r: Option<usize>)
    requires
        from <= t@.len(),
        pat@.len() > 0,
    ensures
        r matches Some(p) ==> first_match_at(t@, pat@, from as int, p as int),
        r is None ==> !has_match(t@, pat@, from as int),
{
    let n = t.len();
    let m = pat.len();
    if m > n {
        proof {
            assert forall|p: int| !(#[trigger] first_match_at(t@, pat@, from as int, p)) by {}
        }
        return None;
    }
    let mut p = from;
    while p <= n - m
        invariant
            n == t@.len(),
            m == pat@.len(),
            m <= n,
            from <= p,
            forall|q: int| from <= q < p ==> #[trigger] t@.subrange(q, q + m) != pat@,
        decreases n - p,
    {
        let mut same = true;
        for j in 0..m
            invariant
                p + m <= n,
                n == t@.len(),
                m == pat@.len(),
                same == forall|k: int| 0 <= k < j ==> t@[p + k] == pat@[k],
        {
            if t[p + j] != pat[j] {
                same = false;
            }
        }
        if same {
            assert(t@.subrange(p as int, p + m) =~= pat@);
            return Some(p);
        } else {
            proof {
                let k = choose|k: int| 0 <= k < m && t@[p + k] != pat@[k];
                assert(t@.subrange(p as int, p + m)[k] != pat@[k]);
            }
        }
        p = p + 1;
    }
    proof {
        assert forall|q: int| !(#[trigger] first_match_at(t@, pat@, from as int, q)) by {
            if first_match_at(t@, pat@, from as int, q) {
                assert(q < p);
            }
        }
    }
    None
}

proof fn lemma_match_unique(t: Seq<char>, pat: Seq<char>, from: int, p: int)
    requires
        first_match_at(t, pat, from, p),
    ensures
        has_match(t, pat, from),
        match_at(t, pat, from) == p,
{
    let c = match_at(t, pat, from);
    assert(first_match_at(t, pat, from, c));
    if c < p {
        assert(t.subrange(c, c + pat.len()) != pat);
    } else if c > p {
        assert(t.subrange(p, p + pat.len()) != pat);
    }
}

/// The part of `t` before its first `?` or `#`.
pub(crate) fn strip_query(t: &Vec<char>) -> (r: String)
    ensures
        r@ == before_query(t@),
{
    let n = t.len();
    for i in 0..n
        invariant
            n == t@.len(),
            forall|j: int| 0 <= j < i ==> !(#[trigger] t@[j] == '?' || t@[j] == '#'),
    {
        if t[i] == '?' || t[i] == '#' {
            proof {
                let c = choose|c: int|
                    0 <= c < t@.len() && (#[trigger] t@[c] == '?' || t@[c] == '#') && forall|j: int|
                        0 <= j < c ==> !(#[trigger] t@[j] == '?' || t@[j] == '#');
                if c < i {
                } else if c > i {
                    assert(!(t@[i as int] == '?' || t@[i as int] == '#'));
                }
                assert(c == i);
            }
            let r = crate::text::string_from_range(t, 0, i);
            assert(r@ =~= t@.take(i as int));
            return r;
        }
    }
    let r = crate::text::string_from_range(t, 0, n);
    assert(r@ =~= t@);
    r
}

/// The image a value refers to, if any.
pub fn image_reference(value: &str) -> (r: Option<String>)
    ensures
        match r {
            Some(x) => spec_image_reference(value@) == Some(x@),
            None => spec_image_reference(value@) == None::<Seq<char>>,
        },
{
    let tr = trim(value);
    let t = chars_of(tr.as_str());
    let n = t.len();
    let target: String;
    if n >= 2 && t[0] == '!' && t[1] == '[' {
        let mut pat1: Vec<char> = Vec::new();
        pat1.push(']');
        pat1.push('(');
        let open = match find_from(&t, &pat1, 0) {
            Some(p) => {
                proof {
                    lemma_match_unique(t@, pat1@, 0, p as int);
                    assert(pat1@ =~= seq![']', '(']);
                }
                p + 2
            },
            None => {
                assert(pat1@ =~= seq![']', '(']);
                return None;
            },
        };
        let mut pat2: Vec<char> = Vec::new();
        pat2.push(')');
        assert(pat2@ =~= seq![')']);
        let close = match find_from(&t, &pat2, open) {
            Some(c) => {
                proof {
                    lemma_match_unique(t@, pat2@, open as int, c as int);
                }
                c
            },
            None => {
                return None;
            },
        };
        let inner = crate::text::string_from_range(&t, open, close);
        target = trim(inner.as_str());
    } else {
        target = tr;
    }
    let tc = chars_of(target.as_str());
    let path = strip_query(&tc);
    match path_extension(path.as_str()) {
        Some(e) => {
            let ok = eq_ignore_ascii_case(e.as_str(), "png") || eq_ignore_ascii_case(e.as_str(), "jpg")
                || eq_ignore_ascii_case(e.as_str(), "jpeg") || eq_ignore_ascii_case(e.as_str(), "gif")
                || eq_ignore_ascii_case(e.as_str(), "webp") || eq_ignore_ascii_case(e.as_str(), "bmp")
                || eq_ignore_ascii_case(e.as_str(), "svg");
            if ok {
                Some(target)
            } else {
                None
            }
        },
        None => None,
    }
}

/// Whether `chrono::DateTime::parse_from_rfc3339` accepts a text.
pub uninterp spec fn rfc3339_accepts(text: Seq<char>) -> bool;

/// Whether `chrono::NaiveDate::parse_from_str` accepts a text in a format.
pub uninterp spec fn naive_date_accepts(text: Seq<char>, format: Seq<char>) -> bool;

/// Whether `chrono::DateTime::parse_from_rfc3339` reads `text` as a date
/// and time with offset.
#[verifier::external_body]
fn parses_rfc3339(text: &str) -> (r: bool)
    ensures
        r == rfc3339_accepts(text@),
{
    chrono::DateTime::parse_from_rfc3339(text).is_ok()
}

/// Whether `chrono::NaiveDate::parse_from_str` reads `text` as a date in
/// `format`.
#[verifier::external_body]
fn parses_naive_date(text: &str, format: &str) -> (r: bool)
    ensures
        r == naive_date_accepts(text@, format@),
{
    chrono::NaiveDate::parse_from_str(text, format).is_ok()
}

/// Texts read as dates: RFC 3339, or a date as `%Y-%m-%d`, `%Y/%m/%d` or
/// `%Y-%m-%d %H:%M:%S`.
pub open spec fn spec_is_date(text: Seq<char>) -> bool {
    rfc3339_accepts(text) || naive_date_accepts(text, "%Y-%m-%d"@) || naive_date_accepts(text, "%Y/%m/%d"@)
        || naive_date_accepts(text, "%Y-%m-%d %H:%M:%S"@)
}

/// Whether `text` reads as a date.
pub fn is_date(text: &str) -> (r: bool)
    ensures
        r == spec_is_date(text@),
{
    parses_rfc3339(text) || parses_naive_date(text, "%Y-%m-%d") || parses_naive_date(text, "%Y/%m/%d")
        || parses_naive_date(text, "%Y-%m-%d %H:%M:%S")
}

/// The non-blank trimmed texts named `name` in the rows; values that are
/// not text are passed over.
pub open spec fn text_values(rows: Seq<Seq<(Seq<char>, JsonView)>>, name: Seq<char>) -> Seq<Seq<char>>
    decreases rows.len(),
{
    if rows.len() == 0 {
        Seq::empty()
    } else {
        let before = text_values(rows.drop_last(), name);
        match lookup(rows.last(), name) {
            Some(JsonView::Str(s)) => if trimmed(s).len() > 0 {
                before.push(trimmed(s))
            } else {
                before
            },
            _ => before,
        }
    }
}

pub open spec fn is_boolean_text(v: Seq<char>) -> bool {
    spec_eq_ignore_ascii_case(v, "true"@) || spec_eq_ignore_ascii_case(v, "false"@)
}

/// The type of a text column: empty, or the first kind that every value
/// has among image, boolean, number and date, else text.
pub open spec fn spec_infer_text_type(values: Seq<Seq<char>>) -> ImportedFieldType {
    if values.len() == 0 {
        ImportedFieldType::Null
    } else if forall|i: int| 0 <= i < values.len() ==> #[trigger] spec_image_reference(values[i]) is Some {
        ImportedFieldType::Image
    } else if forall|i: int| 0 <= i < values.len() ==> is_boolean_text(#[trigger] values[i]) {
        ImportedFieldType::Boolean
    } else if forall|i: int| 0 <= i < values.len() ==> is_float_text(#[trigger] values[i]) {
        ImportedFieldType::Number
    } else if forall|i: int| 0 <= i < values.len() ==> spec_is_date(#[trigger] values[i]) {
        ImportedFieldType::Date
    } else {
        ImportedFieldType::Text
    }
}

pub open spec fn candidate_rows(cs: Seq<Candidate>) -> Seq<Seq<(Seq<char>, JsonView)>> {
    cs.map_values(|c: Candidate| fields_view(c.1@))
}

/// Collects the non-blank trimmed texts of field `name`.
fn collect_text_values(name: &str, candidates: &Vec<Candidate>) -> (r: Vec<String>)
    ensures
        crate::text::views(r@) == text_values(candidate_rows(candidates@), name@),
{
    let ghost rows = candidate_rows(candidates@);
    let mut out: Vec<String> = Vec::new();
    for i in 0..candidates.len()
        invariant
            rows == candidate_rows(candidates@),
            crate::text::views(out@) == text_values(rows.take(i as int), name@),
    {
        assert(rows.take(i + 1).drop_last() =~= rows.take(i as int));
        assert(rows.take(i + 1).last() == fields_view(candidates@[i as int].1@));
        let fields = &candidates[i].1;
        match find_member(fields, name) {
            Some(k) => {
                match &fields[k].1 {
                    JsonValue::String(text) => {
                        let t = trim(text.as_str());
                        if crate::text::char_count(t.as_str()) > 0 {
                            let ghost before = out@;
                            out.push(t);
                            assert(crate::text::views(out@) =~= crate::text::views(before).push(trimmed(text@)));
                        }
                    },
                    _ => {},
                }
            },
            None => {},
        }
    }
    assert(rows.take(candidates@.len() as int) =~= rows);
    out
}

/// Infers the type of a CSV or Markdown column from all its values.
pub fn infer_text_field_type(name: &str, candidates: &Vec<Candidate>) -> (t: ImportedFieldType)
    ensures
        t == spec_infer_text_type(text_values(candidate_rows(candidates@), name@)),
{
    let values = collect_text_values(name, candidates);
    let ghost vs = crate::text::views(values@);
    if values.len() == 0 {
        return ImportedFieldType::Null;
    }
    let mut all_image = true;
    let mut all_bool = true;
    let mut all_number = true;
    let mut all_date = true;
    for i in 0..values.len()
        invariant
            vs == crate::text::views(values@),
            all_image == forall|k: int| 0 <= k < i ==> #[trigger] spec_image_reference(vs[k]) is Some,
            all_bool == forall|k: int| 0 <= k < i ==> is_boolean_text(#[trigger] vs[k]),
            all_number == forall|k: int| 0 <= k < i ==> is_float_text(#[trigger] vs[k]),
            all_date == forall|k: int| 0 <= k < i ==> spec_is_date(#[trigger] vs[k]),
    {
        let v = values[i].as_str();
        assert(vs[i as int] == v@);
        if image_reference(v).is_none() {
            all_image = false;
        }
        if !(eq_ignore_ascii_case(v, "true") || eq_ignore_ascii_case(v, "false")) {
            all_bool = false;
        }
        if !parses_as_float(v) {
            all_number = false;
        }
        if !is_date(v) {
            all_date = false;
        }
    }
    if all_image {
        ImportedFieldType::Image
    } else if all_bool {
        ImportedFieldType::Boolean
    } else if all_number {
        ImportedFieldType::Number
    } else if all_date {
        ImportedFieldType::Date
    } else {
        ImportedFieldType::Text
    }
}

/// The values named `name` in the rows, in row order.
pub open spec fn present_values(rows: Seq<Seq<(Seq<char>, JsonView)>>, name: Seq<char>) -> Seq<JsonView>
    decreases rows.len(),
{
    if rows.len() == 0 {
        Seq::empty()
    } else {
        let before = present_values(rows.drop_last(), name);
        match lookup(rows.last(), name) {
            Some(v) => before.push(v),
            None => before,
        }
    }
}

/// A value that is text referring to an image.
pub open spec fn is_image_value(v: JsonView) -> bool {
    v matches JsonView::Str(s) && spec_image_reference(s) is Some
}

/// A value an image column may also hold: null, blank text, or an image.
pub open spec fn fits_image_column(v: JsonView) -> bool {
    v is Null || (v matches JsonView::Str(s) && (trimmed(s).len() == 0 || spec_image_reference(s) is Some))
}

/// The kind of a JSON value, as its field type.
pub open spec fn kind_of(v: JsonView) -> ImportedFieldType {
    match v {
        JsonView::Null => ImportedFieldType::Null,
        JsonView::Str(_) => ImportedFieldType::Text,
        JsonView::Number(_) => ImportedFieldType::Number,
        JsonView::Bool(_) => ImportedFieldType::Boolean,
        JsonView::Object(_) => ImportedFieldType::Object,
        JsonView::Array(_) => ImportedFieldType::Array,
    }
}

/// The type of a JSON column: image when some value is an image and every
/// value fits an image column; otherwise the one kind all its values have,
/// or mixed.
pub open spec fn spec_infer_json_type(values: Seq<JsonView>) -> ImportedFieldType {
    if (exists|i: int| 0 <= i < values.len() && #[trigger] is_image_value(values[i])) && (forall|i: int|
        0 <= i < values.len() ==> #[trigger] fits_image_column(values[i])) {
        ImportedFieldType::Image
    } else if values.len() > 0 && forall|i: int| 0 <= i < values.len() ==> #[trigger] kind_of(values[i]) == kind_of(values[0]) {
        kind_of(values[0])
    } else {
        ImportedFieldType::Mixed
    }
}

fn kind_of_value(v: &JsonValue) -> (t: ImportedFieldType)
    ensures
        t == kind_of(v@),
{
    match v {
        JsonValue::Null => ImportedFieldType::Null,
        JsonValue::String(_) => ImportedFieldType::Text,
        JsonValue::Number(_) => ImportedFieldType::Number,
        JsonValue::Bool(_) => ImportedFieldType::Boolean,
        JsonValue::Object(_) => ImportedFieldType::Object,
        JsonValue::Array(_) => ImportedFieldType::Array,
    }
}

/// Infers the type of a JSON field from all its values.
pub fn infer_json_field_type(name: &str, candidates: &Vec<Candidate>) -> (t: ImportedFieldType)
    ensures
        t == spec_infer_json_type(present_values(candidate_rows(candidates@), name@)),
{
    let ghost rows = candidate_rows(candidates@);
    let mut any_image = false;
    let mut all_fit = true;
    let mut first_kind: Option<ImportedFieldType> = None;
    let mut same_kind = true;
    let ghost mut vs: Seq<JsonView> = Seq::empty();
    for i in 0..candidates.len()
        invariant
            rows == candidate_rows(candidates@),
            vs == present_values(rows.take(i as int), name@),
            any_image == exists|k: int| 0 <= k < vs.len() && #[trigger] is_image_value(vs[k]),
            all_fit == forall|k: int| 0 <= k < vs.len() ==> #[trigger] fits_image_column(vs[k]),
            first_kind is None <==> vs.len() == 0,
            first_kind matches Some(f) ==> f == kind_of(vs[0]),
            same_kind == forall|k: int| 0 <= k < vs.len() ==> #[trigger] kind_of(vs[k]) == kind_of(vs[0]),
    {
        assert(rows.take(i + 1).drop_last() =~= rows.take(i as int));
        assert(rows.take(i + 1).last() == fields_view(candidates@[i as int].1@));
        let fields = &candidates[i].1;
        match find_member(fields, name) {
            Some(k) => {
                let value = &fields[k].1;
                let ghost prev = vs;
                proof {
                    vs = vs.push(value@);
                }
                let (is_image, fits) = match value {
                    JsonValue::Null => (false, true),
                    JsonValue::String(text) => {
                        let image = image_reference(text.as_str()).is_some();
                        let t = trim(text.as_str());
                        (image, image || crate::text::char_count(t.as_str()) == 0)
                    },
                    _ => (false, false),
                };
                assert(is_image == is_image_value(value@));
                assert(fits == fits_image_column(value@));
                let kind = kind_of_value(value);
                if is_image {
                    any_image = true;
                }
                if !fits {
                    all_fit = false;
                }
                match first_kind {
                    None => {
                        first_kind = Some(kind);
                    },
                    Some(f) => {
                        if f != kind {
                            same_kind = false;
                        }
                    },
                }
                proof {
                    assert(vs.last() == value@);
                    assert forall|k: int| 0 <= k < prev.len() implies vs[k] == prev[k] by {}
                    if any_image && !(exists|k: int| 0 <= k < prev.len() && #[trigger] is_image_value(prev[k])) {
                        assert(is_image_value(vs[prev.len() as int]));
                    }
                }
            },
            None => {},
        }
    }
    assert(rows.take(candidates@.len() as int) =~= rows);
    if any_image && all_fit {
        ImportedFieldType::Image
    } else {
        match first_kind {
            Some(f) => if same_kind {
                f
            } else {
                ImportedFieldType::Mixed
            },
            None => ImportedFieldType::Mixed,
        }
    }
}

/// The single field of a text or list import.
pub open spec fn content_field() -> Seq<char> {
    "内容"@
}

/// A row holding one text under the content field.
pub open spec fn content_row(value: Seq<char>) -> Seq<(Seq<char>, JsonView)> {
    seq![(content_field(), JsonView::Str(value))]
}

/// Builds the fields of a single-text row.
fn content_fields(value: String) -> (f: Vec<(String, JsonValue)>)
    ensures
        fields_view(f@) == content_row(value@),
{
    let mut f: Vec<(String, JsonValue)> = Vec::new();
    f.push((crate::text::owned("内容"), JsonValue::String(value)));
    proof {
        lemma_object_view(f@);
        assert(fields_view(f@) =~= content_row(value@));
    }
    f
}

/// A field definition before its statistics are counted.
fn bare_definition(name: String, field_type: ImportedFieldType, display_order: usize) -> (d: ImportedFieldDefinition)
    ensures
        field_key(d) == (name@, field_type, display_order),
{
    ImportedFieldDefinition { name, field_type, display_order, empty_count: 0, unique_count: 0, samples: Vec::new() }
}

/// The rows of a text import from its first `n` lines: each non-blank line,
/// trimmed, with its line number; and the number of blank lines.
pub open spec fn text_scan(lines: Seq<Seq<char>>, n: nat) -> (Seq<(nat, Seq<(Seq<char>, JsonView)>)>, nat)
    decreases n,
{
    if n == 0 {
        (Seq::empty(), 0)
    } else {
        let (rows, removed) = text_scan(lines, (n - 1) as nat);
        let v = trimmed(lines[n - 1]);
        if v.len() == 0 {
            (rows, removed + 1)
        } else {
            (rows.push(((n - 1) as nat, content_row(v))), removed)
        }
    }
}

pub struct ImportService;

impl ImportService {
    /// Imports plain text: one item per non-blank line.
    pub fn import_text(content: &str, deduplicate: bool) -> (r: Result<ImportResult, ImportError>)
        ensures
            ({
                let lines = spec_lines(content@);
                let (rows, removed) = text_scan(lines, lines.len());
                &&& rows.len() == 0 ==> (r matches Err(ImportError::EmptyText))
                &&& rows.len() > 0 ==> finalize_outcome(
                    r,
                    ImportSourceType::Text,
                    seq![(content_field(), ImportedFieldType::Text, 0usize)],
                    rows,
                    removed as usize,
                    deduplicate,
                )
            }),
    {
        let lines = lines_of(content);
        let ghost lv = crate::text::views(lines@);
        let mut candidates: Vec<Candidate> = Vec::new();
        let mut removed: usize = 0;
        for i in 0..lines.len()
            invariant
                lv == crate::text::views(lines@),
                candidates_view(candidates@) == text_scan(lv, i as nat).0,
                removed == text_scan(lv, i as nat).1,
                removed <= i,
        {
            let value = trim(lines[i].as_str());
            if crate::text::char_count(value.as_str()) == 0 {
                removed = removed + 1;
            } else {
                let ghost before = candidates@;
                let ghost v = value@;
                let fields = content_fields(value);
                candidates.push((i, fields));
                assert(candidates_view(candidates@) =~= candidates_view(before).push(((i as nat), content_row(v))));
            }
        }
        if candidates.len() == 0 {
            return Err(ImportError::EmptyText);
        }
        let mut defs: Vec<ImportedFieldDefinition> = Vec::new();
        defs.push(bare_definition(crate::text::owned("内容"), ImportedFieldType::Text, 0));
        assert(field_keys(defs@) =~= seq![(content_field(), ImportedFieldType::Text, 0usize)]);
        finalize(ImportSourceType::Text, defs, candidates, removed, deduplicate)
    }
}

pub open spec fn rows_of(cv: Seq<(nat, Seq<(Seq<char>, JsonView)>)>) -> Seq<Seq<(Seq<char>, JsonView)>> {
    cv.map_values(|r: (nat, Seq<(Seq<char>, JsonView)>)| r.1)
}

proof fn lemma_candidate_rows(cs: Seq<Candidate>)
    ensures
        candidate_rows(cs) == rows_of(candidates_view(cs)),
{
    assert(candidate_rows(cs) =~= rows_of(candidates_view(cs)));
}

/// `i` is the first table separator line.
pub open spec fn is_first_separator(lines: Seq<Seq<char>>, i: int) -> bool {
    &&& 0 <= i < lines.len()
    &&& spec_is_table_separator(lines[i])
    &&& forall|j: int| 0 <= j < i ==> !spec_is_table_separator(#[trigger] lines[j])
}

/// A table row's fields: each header with the cell under it, or empty text
/// when the row is short.
pub open spec fn row_fields(headers: Seq<Seq<char>>, cells: Seq<Seq<char>>) -> Seq<(Seq<char>, JsonView)> {
    Seq::new(
        headers.len(),
        |i: int|
            (headers[i], JsonView::Str(
                if i < cells.len() {
                    cells[i]
                } else {
                    Seq::empty()
                },
            )),
    )
}

/// Reading table rows from line `start` on, over `n` lines: the rows, the
/// number of blank rows, and whether the table has ended. A blank line
/// ends the table once a row was read (before, it is passed over); so does
/// a line without `|`; a row of blank cells is counted and passed over.
pub open spec fn table_scan(lines: Seq<Seq<char>>, start: nat, headers: Seq<Seq<char>>, n: nat) -> (
    Seq<(nat, Seq<(Seq<char>, JsonView)>)>,
    nat,
    bool,
)
    decreases n,
{
    if n == 0 {
        (Seq::empty(), 0, false)
    } else {
        let (rows, removed, ended) = table_scan(lines, start, headers, (n - 1) as nat);
        let index = start + n - 1;
        let line = lines[index];
        if ended {
            (rows, removed, true)
        } else if trimmed(line).len() == 0 {
            (rows, removed, rows.len() > 0)
        } else if !line.contains('|') {
            (rows, removed, true)
        } else if forall|k: int| 0 <= k < spec_split_row(line).len() ==> trimmed(#[trigger] spec_split_row(line)[k]).len() == 0 {
            (rows, removed + 1, false)
        } else {
            (rows.push((index as nat, row_fields(headers, spec_split_row(line)))), removed, false)
        }
    }
}

/// The table a Markdown text holds, when it holds one with at least two
/// rows: headers (normalised), rows and blank rows. The table is headed by
/// the line above the first separator line, which must have as many cells.
pub open spec fn spec_markdown_table(lines: Seq<Seq<char>>) -> Option<
    (Seq<Seq<char>>, Seq<(nat, Seq<(Seq<char>, JsonView)>)>, nat),
> {
    if exists|i: int| #[trigger] is_first_separator(lines, i) {
        let i = choose|i: int| #[trigger] is_first_separator(lines, i);
        let header_cells = spec_split_row(lines[i - 1]);
        if i > 0 && header_cells.len() == spec_split_row(lines[i]).len() {
            let headers = spec_normalized(header_cells, header_cells.len());
            let (rows, removed, _) = table_scan(lines, (i + 1) as nat, headers, (lines.len() - (i + 1)) as nat);
            if rows.len() >= MINIMUM_ITEM_COUNT {
                Some((headers, rows, removed))
            } else {
                None
            }
        } else {
            None
        }
    } else {
        None
    }
}

/// The list items among the first `n` lines, with their line numbers.
pub open spec fn list_scan(lines: Seq<Seq<char>>, n: nat) -> Seq<(nat, Seq<(Seq<char>, JsonView)>)>
    decreases n,
{
    if n == 0 {
        Seq::empty()
    } else {
        let before = list_scan(lines, (n - 1) as nat);
        match spec_list_item(lines[n - 1]) {
            Some(v) => before.push(((n - 1) as nat, content_row(v))),
            None => before,
        }
    }
}

/// The field names, inferred types and places of table columns.
pub open spec fn text_field_keys(headers: Seq<Seq<char>>, rows: Seq<(nat, Seq<(Seq<char>, JsonView)>)>) -> Seq<
    (Seq<char>, ImportedFieldType, usize),
> {
    Seq::new(
        headers.len(),
        |i: int| (headers[i], spec_infer_text_type(text_values(rows_of(rows), headers[i])), i as usize),
    )
}

/// Builds a table row's fields.
fn table_row_fields(headers: &Vec<String>, cells: &Vec<String>) -> (f: Vec<(String, JsonValue)>)
    ensures
        fields_view(f@) == row_fields(crate::text::views(headers@), crate::text::views(cells@)),
{
    let mut f: Vec<(String, JsonValue)> = Vec::new();
    for k in 0..headers.len()
        invariant
            f@.len() == k,
            forall|m: int|
                0 <= m < k ==> (#[trigger] f@[m]).0@ == headers@[m]@ && f@[m].1@ == JsonView::Str(
                    if m < cells@.len() {
                        cells@[m]@
                    } else {
                        Seq::empty()
                    },
                ),
    {
        let value = if k < cells.len() {
            cells[k].clone()
        } else {
            String::new()
        };
        f.push((headers[k].clone(), JsonValue::String(value)));
    }
    proof {
        lemma_object_view(f@);
        assert(fields_view(f@) =~= row_fields(crate::text::views(headers@), crate::text::views(cells@)));
    }
    f
}

/// Builds the definitions of table columns.
fn text_definitions(headers: &Vec<String>, candidates: &Vec<Candidate>) -> (defs: Vec<ImportedFieldDefinition>)
    ensures
        field_keys(defs@) == text_field_keys(crate::text::views(headers@), candidates_view(candidates@)),
{
    proof {
        lemma_candidate_rows(candidates@);
    }
    let mut defs: Vec<ImportedFieldDefinition> = Vec::new();
    for k in 0..headers.len()
        invariant
            candidate_rows(candidates@) == rows_of(candidates_view(candidates@)),
            defs@.len() == k,
            forall|m: int|
                0 <= m < k ==> #[trigger] field_key(defs@[m]) == text_field_keys(
                    crate::text::views(headers@),
                    candidates_view(candidates@),
                )[m],
    {
        let t = infer_text_field_type(headers[k].as_str(), candidates);
        defs.push(bare_definition(headers[k].clone(), t, k));
    }
    assert(field_keys(defs@) =~= text_field_keys(crate::text::views(headers@), candidates_view(candidates@)));
    defs
}

/// The first separator line, if any.
fn find_separator(lines: &Vec<String>) -> (r: Option<usize>)
    ensures
        r matches Some(i) ==> is_first_separator(crate::text::views(lines@), i as int),
        r is None ==> forall|i: int| !#[trigger] is_first_separator(crate::text::views(lines@), i),
{
    let ghost lv = crate::text::views(lines@);
    for i in 0..lines.len()
        invariant
            lv == crate::text::views(lines@),
            forall|j: int| 0 <= j < i ==> !spec_is_table_separator(#[trigger] lv[j]),
    {
        if is_table_separator(lines[i].as_str()) {
            return Some(i);
        }
    }
    proof {
        assert forall|i: int| !#[trigger] is_first_separator(lv, i) by {
            if is_first_separator(lv, i) {
                assert(!spec_is_table_separator(lv[i]));
            }
        }
    }
    None
}

/// Whether a line contains `|`.
fn has_pipe(line: &str) -> (r: bool)
    ensures
        r == line@.contains('|'),
{
    let v = chars_of(line);
    for k in 0..v.len()
        invariant
            v@ == line@,
            forall|m: int| 0 <= m < k ==> v@[m] != '|',
    {
        if v[k] == '|' {
            assert(line@[k as int] == '|');
            return true;
        }
    }
    false
}

/// Reads the table rows under a separator at `separator`.
fn read_table(lines: &Vec<String>, separator: usize, headers: &Vec<String>) -> (r: (Vec<Candidate>, usize))
    requires
        separator < lines@.len(),
    ensures
        ({
            let (rows, removed, _) = table_scan(
                crate::text::views(lines@),
                (separator + 1) as nat,
                crate::text::views(headers@),
                (lines@.len() - (separator + 1)) as nat,
            );
            candidates_view(r.0@) == rows && r.1 == removed
        }),
{
    let ghost lv = crate::text::views(lines@);
    let ghost hv = crate::text::views(headers@);
    let total = lines.len();
    let start = separator + 1;
    let mut candidates: Vec<Candidate> = Vec::new();
    let mut removed: usize = 0;
    let mut ended = false;
    let mut i = start;
    while i < lines.len()
        invariant
            lv == crate::text::views(lines@),
            hv == crate::text::views(headers@),
            start == separator + 1,
            start <= i <= lines@.len(),
            (candidates_view(candidates@), removed as nat, ended) == table_scan(lv, start as nat, hv, (i - start) as nat),
            removed <= i,
        decreases lines@.len() - i,
    {
        let line = lines[i].as_str();
        assert(lv[i as int] == line@);
        assert(start + (i + 1 - start) - 1 == i);
        if ended {
        } else {
            let t = trim(line);
            if crate::text::char_count(t.as_str()) == 0 {
                ended = candidates.len() > 0;
            } else if !has_pipe(line) {
                ended = true;
            } else {
                let cells = split_markdown_row(line);
                let ghost cv = crate::text::views(cells@);
                let mut blank = true;
                for k in 0..cells.len()
                    invariant
                        cv == crate::text::views(cells@),
                        blank == forall|m: int| 0 <= m < k ==> trimmed(#[trigger] cv[m]).len() == 0,
                {
                    let ct = trim(cells[k].as_str());
                    assert(cv[k as int] == cells@[k as int]@);
                    if crate::text::char_count(ct.as_str()) > 0 {
                        blank = false;
                    }
                }
                if blank {
                    removed = removed + 1;
                } else {
                    let fields = table_row_fields(headers, &cells);
                    let ghost before = candidates@;
                    candidates.push((i, fields));
                    assert(candidates_view(candidates@) =~= candidates_view(before).push(
                        (i as nat, row_fields(hv, cv)),
                    ));
                }
            }
        }
        i = i + 1;
    }
    (candidates, removed)
}

/// Collects the list items of the lines.
fn read_list(lines: &Vec<String>) -> (r: Vec<Candidate>)
    ensures
        candidates_view(r@) == list_scan(crate::text::views(lines@), lines@.len() as nat),
{
    let ghost lv = crate::text::views(lines@);
    let mut candidates: Vec<Candidate> = Vec::new();
    for i in 0..lines.len()
        invariant
            lv == crate::text::views(lines@),
            candidates_view(candidates@) == list_scan(lv, i as nat),
    {
        match strip_markdown_list_marker(lines[i].as_str()) {
            Some(v) => {
                let ghost value = v@;
                let fields = content_fields(v);
                let ghost before = candidates@;
                candidates.push((i, fields));
                assert(candidates_view(candidates@) =~= candidates_view(before).push((i as nat, content_row(value))));
            },
            None => {},
        }
    }
    candidates
}

impl ImportService {
    /// Imports Markdown: the first table with at least two rows, else the
    /// items of its lists.
    pub fn import_markdown(content: &str, deduplicate: bool) -> (r: Result<ImportResult, ImportError>)
        ensures
            ({
                let lines = spec_lines(content@);
                match spec_markdown_table(lines) {
                    Some((headers, rows, removed)) => finalize_outcome(
                        r,
                        ImportSourceType::Markdown,
                        text_field_keys(headers, rows),
                        rows,
                        removed as usize,
                        deduplicate,
                    ),
                    None => {
                        let items = list_scan(lines, lines.len());
                        &&& items.len() < MINIMUM_ITEM_COUNT ==> (r matches Err(ImportError::InvalidMarkdown))
                        &&& items.len() >= MINIMUM_ITEM_COUNT ==> finalize_outcome(
                            r,
                            ImportSourceType::Markdown,
                            text_field_keys(seq![content_field()], items),
                            items,
                            0,
                            deduplicate,
                        )
                    },
                }
            }),
    {
        let lines = lines_of(content);
        let ghost lv = crate::text::views(lines@);
        if let Some(separator) = find_separator(&lines) {
            proof {
                let c = choose|i: int| #[trigger] is_first_separator(lv, i);
                if c < separator {
                    assert(!spec_is_table_separator(lv[c]));
                } else if c > separator {
                    assert(!spec_is_table_separator(lv[separator as int]));
                }
            }
            if separator > 0 {
                let header_values = split_markdown_row(lines[separator - 1].as_str());
                let separators = split_markdown_row(lines[separator].as_str());
                if header_values.len() > 0 && header_values.len() == separators.len() {
                    let headers = normalize_headers(&header_values);
                    let (candidates, removed) = read_table(&lines, separator, &headers);
                    if candidates.len() >= MINIMUM_ITEM_COUNT {
                        let defs = text_definitions(&headers, &candidates);
                        return finalize(ImportSourceType::Markdown, defs, candidates, removed, deduplicate);
                    }
                }
            }
        }
        let candidates = read_list(&lines);
        if candidates.len() < MINIMUM_ITEM_COUNT {
            return Err(ImportError::InvalidMarkdown);
        }
        let mut names: Vec<String> = Vec::new();
        names.push(crate::text::owned("内容"));
        assert(crate::text::views(names@) =~= seq![content_field()]);
        let defs = text_definitions(&names, &candidates);
        finalize(ImportSourceType::Markdown, defs, candidates, 0, deduplicate)
    }
}

/// What the `csv` crate's reader (not flexible, all fields trimmed) gives as
/// the header row of a text: its fields, or the line and message of the
/// error.
pub uninterp spec fn csv_header_row(text: Seq<char>) -> Result<Seq<Seq<char>>, (Option<u64>, Seq<char>)>;

/// What the same reader gives as the records after the header row: their
/// fields, or the line and message of the first error.
pub uninterp spec fn csv_record_rows(text: Seq<char>) -> Result<Seq<Seq<Seq<char>>>, (Option<u64>, Seq<char>)>;

/// The line reported for a CSV error: the line of its position, or 0 when
/// it has none.
pub open spec fn error_line(position: Option<u64>) -> u64 {
    match position {
        Some(line) => line,
        None => 0,
    }
}

pub open spec fn rows_view(v: Seq<Vec<String>>) -> Seq<Seq<Seq<char>>> {
    v.map_values(|r: Vec<String>| crate::text::views(r@))
}

/// Reads the header row of a CSV text with `csv::Reader::headers`.
#[verifier::external_body]
fn csv_headers(content: &str) -> (r: Result<Vec<String>, (Option<u64>, String)>)
    ensures
        match (r, csv_header_row(content@)) {
            (Ok(h), Ok(v)) => crate::text::views(h@) == v,
            (Err((line, message)), Err((l, m))) => line == l && message@ == m,
            _ => false,
        },
{
    let mut reader = csv::ReaderBuilder::new().flexible(false).trim(csv::Trim::All).from_reader(content.as_bytes());
    match reader.headers() {
        Ok(h) => Ok(h.iter().map(|f| f.to_string()).collect()),
        Err(e) => Err((e.position().map(|p| p.line()), e.to_string())),
    }
}

/// Reads the records of a CSV text with `csv::Reader::records`, up to the
/// first error.
#[verifier::external_body]
fn csv_records(content: &str) -> (r: Result<Vec<Vec<String>>, (Option<u64>, String)>)
    ensures
        match (r, csv_record_rows(content@)) {
            (Ok(rows), Ok(v)) => rows_view(rows@) == v,
            (Err((line, message)), Err((l, m))) => line == l && message@ == m,
            _ => false,
        },
{
    let mut reader = csv::ReaderBuilder::new().flexible(false).trim(csv::Trim::All).from_reader(content.as_bytes());
    let collected: Result<Vec<csv::StringRecord>, csv::Error> = reader.records().collect();
    match collected {
        Ok(records) => Ok(records.iter().map(|rec| rec.iter().map(|f| f.to_string()).collect()).collect()),
        Err(e) => Err((e.position().map(|p| p.line()), e.to_string())),
    }
}

/// A CSV row's fields: each header with the trimmed value beside it, as far
/// as both go.
pub open spec fn zip_fields(headers: Seq<Seq<char>>, values: Seq<Seq<char>>) -> Seq<(Seq<char>, JsonView)> {
    Seq::new(
        if headers.len() < values.len() {
            headers.len()
        } else {
            values.len()
        },
        |i: int| (headers[i], JsonView::Str(trimmed(values[i]))),
    )
}

/// The rows of a CSV import from its first `n` records: rows with some
/// non-blank value, numbered by record; and the number of blank records.
pub open spec fn csv_scan(records: Seq<Seq<Seq<char>>>, headers: Seq<Seq<char>>, n: nat) -> (
    Seq<(nat, Seq<(Seq<char>, JsonView)>)>,
    nat,
)
    decreases n,
{
    if n == 0 {
        (Seq::empty(), 0)
    } else {
        let (rows, removed) = csv_scan(records, headers, (n - 1) as nat);
        let record = records[n - 1];
        if forall|k: int| 0 <= k < record.len() ==> trimmed(#[trigger] record[k]).len() == 0 {
            (rows, removed + 1)
        } else {
            (rows.push(((n - 1) as nat, zip_fields(headers, record))), removed)
        }
    }
}

/// Builds a CSV row's fields.
fn zipped_fields(headers: &Vec<String>, values: &Vec<String>) -> (f: Vec<(String, JsonValue)>)
    ensures
        fields_view(f@) == zip_fields(crate::text::views(headers@), crate::text::views(values@)),
{
    let n = if headers.len() < values.len() {
        headers.len()
    } else {
        values.len()
    };
    let mut f: Vec<(String, JsonValue)> = Vec::new();
    for k in 0..n
        invariant
            n <= headers@.len(),
            n <= values@.len(),
            f@.len() == k,
            forall|m: int|
                0 <= m < k ==> (#[trigger] f@[m]).0@ == headers@[m]@ && f@[m].1@ == JsonView::Str(
                    trimmed(values@[m]@),
                ),
    {
        f.push((headers[k].clone(), JsonValue::String(trim(values[k].as_str()))));
    }
    proof {
        lemma_object_view(f@);
        assert(fields_view(f@) =~= zip_fields(crate::text::views(headers@), crate::text::views(values@)));
    }
    f
}

impl ImportService {
    /// Imports CSV: a header row, then one item per record with a
    /// non-blank value.
    pub fn import_csv(content: &str, deduplicate: bool) -> (r: Result<ImportResult, ImportError>)
        ensures
            match csv_header_row(content@) {
                Err((line, reason)) => (r matches Err(ImportError::InvalidCsv { line: l, reason: m }) && l
                    == error_line(line) && m@ == reason),
                Ok(h) => if h.len() == 0 {
                    r matches Err(ImportError::EmptyCsv)
                } else {
                    let headers = spec_normalized(h, h.len());
                    match csv_record_rows(content@) {
                        Err((line, reason)) => (r matches Err(ImportError::InvalidCsv { line: l, reason: m })
                            && l == error_line(line) && m@ == reason),
                        Ok(records) => {
                            let (rows, removed) = csv_scan(records, headers, records.len());
                            &&& rows.len() == 0 ==> (r matches Err(ImportError::EmptyCsv))
                            &&& rows.len() > 0 ==> finalize_outcome(
                                r,
                                ImportSourceType::Csv,
                                text_field_keys(headers, rows),
                                rows,
                                removed as usize,
                                deduplicate,
                            )
                        },
                    }
                },
            },
    {
        let raw_headers = match csv_headers(content) {
            Ok(h) => h,
            Err((position, reason)) => {
                let line = match position {
                    Some(l) => l,
                    None => 0,
                };
                return Err(ImportError::InvalidCsv { line, reason });
            },
        };
        if raw_headers.len() == 0 {
            return Err(ImportError::EmptyCsv);
        }
        let headers = normalize_headers(&raw_headers);
        let records = match csv_records(content) {
            Ok(rows) => rows,
            Err((position, reason)) => {
                let line = match position {
                    Some(l) => l,
                    None => 0,
                };
                return Err(ImportError::InvalidCsv { line, reason });
            },
        };
        let ghost hv = crate::text::views(headers@);
        let ghost rv = rows_view(records@);
        let mut candidates: Vec<Candidate> = Vec::new();
        let mut removed: usize = 0;
        for i in 0..records.len()
            invariant
                hv == crate::text::views(headers@),
                rv == rows_view(records@),
                candidates_view(candidates@) == csv_scan(rv, hv, i as nat).0,
                removed == csv_scan(rv, hv, i as nat).1,
                removed <= i,
        {
            let record = &records[i];
            let ghost values = crate::text::views(record@);
            assert(rv[i as int] == values);
            let mut blank = true;
            for k in 0..record.len()
                invariant
                    values == crate::text::views(record@),
                    blank == forall|m: int| 0 <= m < k ==> trimmed(#[trigger] values[m]).len() == 0,
            {
                let t = trim(record[k].as_str());
                assert(values[k as int] == record@[k as int]@);
                if crate::text::char_count(t.as_str()) > 0 {
                    blank = false;
                }
            }
            if blank {
                removed = removed + 1;
            } else {
                let fields = zipped_fields(&headers, record);
                let ghost before = candidates@;
                candidates.push((i, fields));
                assert(candidates_view(candidates@) =~= candidates_view(before).push(
                    (i as nat, zip_fields(hv, values)),
                ));
            }
        }
        if candidates.len() == 0 {
            return Err(ImportError::EmptyCsv);
        }
        let defs = text_definitions(&headers, &candidates);
        finalize(ImportSourceType::Csv, defs, candidates, removed, deduplicate)
    }
}

/// Every name sorts strictly before the next.
pub open spec fn sorted_names(v: Seq<Seq<char>>) -> bool {
    forall|i: int, j: int| 0 <= i < j < v.len() ==> crate::text::seq_less(#[trigger] v[i], #[trigger] v[j])
}

/// Adds `x` to a sorted list of names unless present.
fn insert_name(v: &mut Vec<String>, x: &String)
    requires
        sorted_names(crate::text::views(old(v)@)),
    ensures
        sorted_names(crate::text::views(final(v)@)),
        forall|k: Seq<char>| #[trigger] crate::text::views(final(v)@).contains(k) <==> (crate::text::views(
            old(v)@,
        ).contains(k) || k == x@),
{
    let ghost before = crate::text::views(v@);
    let n = v.len();
    let mut pos: usize = 0;
    while pos < n && crate::text::str_less(&v[pos], x)
        invariant
            n == v@.len(),
            before == crate::text::views(v@),
            pos <= n,
            forall|i: int| 0 <= i < pos ==> crate::text::seq_less(#[trigger] before[i], x@),
        decreases n - pos,
    {
        pos = pos + 1;
    }
    if pos < n && v[pos] == *x {
        proof {
            assert(before[pos as int] == x@);
        }
        return;
    }
    proof {
        if pos < n {
            crate::text::lemma_seq_less_total(before[pos as int], x@);
            assert(crate::text::seq_less(x@, before[pos as int]));
        }
    }
    v.insert(pos, x.clone());
    proof {
        let after = crate::text::views(v@);
        assert(after =~= before.insert(pos as int, x@));
        assert forall|i: int, j: int| 0 <= i < j < after.len() implies crate::text::seq_less(
            #[trigger] after[i],
            #[trigger] after[j],
        ) by {
            if j < pos {
            } else if j == pos {
            } else if i < pos {
                if j - 1 > pos {
                    crate::text::lemma_seq_less_transitive(x@, before[pos as int], before[j - 1]);
                }
                crate::text::lemma_seq_less_transitive(after[i], x@, after[j]);
            } else if i == pos {
                if j - 1 > pos {
                    crate::text::lemma_seq_less_transitive(x@, before[pos as int], before[j - 1]);
                }
            } else {
                assert(after[i] == before[i - 1] && after[j] == before[j - 1]);
            }
        }
        assert forall|k: Seq<char>| #[trigger] after.contains(k) <==> (before.contains(k) || k == x@) by {
            if after.contains(k) {
                let i = choose|i: int| 0 <= i < after.len() && after[i] == k;
                if i < pos {
                    assert(before[i] == k);
                } else if i > pos {
                    assert(before[i - 1] == k);
                }
            }
            if before.contains(k) {
                let i = choose|i: int| 0 <= i < before.len() && before[i] == k;
                if i < pos {
                    assert(after[i] == k);
                } else {
                    assert(after[i + 1] == k);
                }
            }
            if k == x@ {
                assert(after[pos as int] == k);
            }
        }
    }
}

/// Whether some row has a field named `k`.
pub open spec fn has_key(rows: Seq<Seq<(Seq<char>, JsonView)>>, k: Seq<char>) -> bool {
    exists|r: int, i: int| 0 <= r < rows.len() && 0 <= i < rows[r].len() && #[trigger] rows[r][i].0 == k
}

/// `names` lists every field name of the rows once, in `String` order.
pub open spec fn all_field_names(rows: Seq<Seq<(Seq<char>, JsonView)>>, names: Seq<Seq<char>>) -> bool {
    sorted_names(names) && forall|k: Seq<char>| #[trigger] names.contains(k) <==> has_key(rows, k)
}

/// The field names of the rows, sorted.
fn collect_field_names(candidates: &Vec<Candidate>) -> (names: Vec<String>)
    ensures
        all_field_names(candidate_rows(candidates@), crate::text::views(names@)),
{
    let ghost rows = candidate_rows(candidates@);
    let mut names: Vec<String> = Vec::new();
    for r in 0..candidates.len()
        invariant
            rows == candidate_rows(candidates@),
            sorted_names(crate::text::views(names@)),
            forall|k: Seq<char>| #[trigger] crate::text::views(names@).contains(k) <==> has_key(rows.take(r as int), k),
    {
        let fields = &candidates[r].1;
        proof {
            lemma_object_view(fields@);
        }
        for i in 0..fields.len()
            invariant
                rows == candidate_rows(candidates@),
                r < candidates@.len(),
                fields == &candidates@[r as int].1,
                rows[r as int] == members_view(fields@, fields@.len()),
                forall|m: int|
                    0 <= m < fields@.len() ==> #[trigger] members_view(fields@, fields@.len())[m] == (
                        fields@[m].0@,
                        fields@[m].1@,
                    ),
                sorted_names(crate::text::views(names@)),
                forall|k: Seq<char>| #[trigger] crate::text::views(names@).contains(k) <==> (has_key(rows.take(r as int), k)
                    || exists|m: int| 0 <= m < i && #[trigger] rows[r as int][m].0 == k),
        {
            insert_name(&mut names, &fields[i].0);
            proof {
                assert(rows[r as int][i as int].0 == fields@[i as int].0@);
            }
        }
        proof {
            assert forall|k: Seq<char>| #[trigger] crate::text::views(names@).contains(k) <==> has_key(rows.take(r + 1), k) by {
                if has_key(rows.take(r + 1), k) {
                    let (a, b) = choose|a: int, b: int|
                        0 <= a < rows.take(r + 1).len() && 0 <= b < rows.take(r + 1)[a].len() && #[trigger] rows.take(r + 1)[a][b].0 == k;
                    if a < r {
                        assert(rows.take(r as int)[a][b].0 == k);
                    } else {
                        assert(rows[r as int][b].0 == k);
                    }
                }
                if has_key(rows.take(r as int), k) {
                    let (a, b) = choose|a: int, b: int|
                        0 <= a < rows.take(r as int).len() && 0 <= b < rows.take(r as int)[a].len() && #[trigger] rows.take(r as int)[a][b].0 == k;
                    assert(rows.take(r + 1)[a][b].0 == k);
                }
                if exists|m: int| 0 <= m < fields@.len() && #[trigger] rows[r as int][m].0 == k {
                    let m = choose|m: int| 0 <= m < fields@.len() && #[trigger] rows[r as int][m].0 == k;
                    assert(rows.take(r + 1)[r as int][m].0 == k);
                }
            }
        }
    }
    assert(rows.take(candidates@.len() as int) =~= rows);
    names
}

/// An object that holds nothing but nulls and blank texts.
pub open spec fn object_is_empty(ms: Seq<(Seq<char>, JsonView)>) -> bool {
    ms.len() == 0 || forall|i: int| 0 <= i < ms.len() ==> is_empty_value(#[trigger] ms[i].1)
}

/// The rows of a JSON import from the first `n` elements of the selected
/// array: each non-empty object with its position, the number of empty
/// objects, or the position of the first element that is not an object.
pub open spec fn json_scan(values: Seq<JsonView>, n: nat) -> Result<(Seq<(nat, Seq<(Seq<char>, JsonView)>)>, nat), nat>
    decreases n,
{
    if n == 0 {
        Ok((Seq::empty(), 0))
    } else {
        match json_scan(values, (n - 1) as nat) {
            Err(i) => Err(i),
            Ok((rows, removed)) => match values[n - 1] {
                JsonView::Object(ms) => if object_is_empty(ms) {
                    Ok((rows, removed + 1))
                } else {
                    Ok((rows.push(((n - 1) as nat, ms)), removed))
                },
                _ => Err((n - 1) as nat),
            },
        }
    }
}

proof fn lemma_json_scan_error_stays(values: Seq<JsonView>, n: nat, m: nat)
    requires
        n <= m <= values.len(),
        json_scan(values, n) is Err,
    ensures
        json_scan(values, m) == json_scan(values, n),
    decreases m - n,
{
    if n < m {
        lemma_json_scan_error_stays(values, n, (m - 1) as nat);
    }
}

/// The array a JSON import reads, or why there is none: `Err(Some(p))`
/// when the pointer `p` picks no array, `Err(None)` when the document holds
/// no usable array. Without a pointer, a root array is taken, else the
/// first array of objects found.
pub open spec fn spec_select(root: JsonView, pointer: Option<Seq<char>>) -> Result<Seq<JsonView>, Option<Seq<char>>> {
    match pointer {
        Some(p) => match spec_pointer(root, p) {
            Some(JsonView::Array(vs)) => Ok(vs),
            _ => Err(Some(p)),
        },
        None => match root {
            JsonView::Array(vs) => Ok(vs),
            _ => {
                let nodes = spec_nodes(root, Seq::empty());
                if nodes.len() == 0 {
                    Err(None)
                } else {
                    match spec_pointer(root, nodes[0].0) {
                        Some(JsonView::Array(vs)) => Ok(vs),
                        _ => Err(None),
                    }
                }
            },
        },
    }
}

/// The field names, inferred types and places of a JSON import.
pub open spec fn json_field_keys(
    names: Seq<Seq<char>>,
    rows: Seq<(nat, Seq<(Seq<char>, JsonView)>)>,
) -> Seq<(Seq<char>, ImportedFieldType, usize)> {
    Seq::new(
        names.len(),
        |i: int| (names[i], spec_infer_json_type(present_values(rows_of(rows), names[i])), i as usize),
    )
}

pub open spec fn opt_str(p: Option<&str>) -> Option<Seq<char>> {
    match p {
        Some(s) => Some(s@),
        None => None,
    }
}

/// Finds the array a JSON import reads.
fn select_json_array<'a>(root: &'a JsonValue, json_pointer: Option<&str>) -> (r: Result<&'a Vec<JsonValue>, ImportError>)
    ensures
        match spec_select(root@, opt_str(json_pointer)) {
            Ok(vs) => (r matches Ok(v) && list_view(v@, v@.len()) == vs),
            Err(Some(p)) => (r matches Err(ImportError::JsonNodeNotFound(x)) && x@ == p),
            Err(None) => r matches Err(ImportError::NoUsableJsonArray),
        },
{
    match json_pointer {
        Some(p) => {
            match pointer_target(root, p) {
                Some(JsonValue::Array(values)) => Ok(values),
                _ => Err(ImportError::JsonNodeNotFound(crate::text::owned(p))),
            }
        },
        None => {
            if let JsonValue::Array(values) = root {
                return Ok(values);
            }
            let mut nodes: Vec<JsonArrayNode> = Vec::new();
            let empty = String::new();
            collect_json_array_nodes(root, &empty, &mut nodes);
            assert(node_views(nodes@) =~= spec_nodes(root@, Seq::empty()));
            if nodes.len() == 0 {
                return Err(ImportError::NoUsableJsonArray);
            }
            assert(node_views(nodes@)[0].0 == nodes@[0].pointer@);
            match pointer_target(root, nodes[0].pointer.as_str()) {
                Some(JsonValue::Array(values)) => Ok(values),
                _ => Err(ImportError::NoUsableJsonArray),
            }
        },
    }
}

/// Whether an object holds nothing but nulls and blank texts.
fn object_empty(members: &Vec<(String, JsonValue)>) -> (r: bool)
    ensures
        r == object_is_empty(members_view(members@, members@.len())),
{
    proof {
        lemma_object_view(members@);
    }
    let ghost ms = members_view(members@, members@.len());
    if members.len() == 0 {
        return true;
    }
    for i in 0..members.len()
        invariant
            ms == members_view(members@, members@.len()),
            ms.len() == members@.len(),
            forall|m: int| 0 <= m < members@.len() ==> #[trigger] ms[m] == (members@[m].0@, members@[m].1@),
            forall|m: int| 0 <= m < i ==> is_empty_value(#[trigger] ms[m].1),
    {
        if !empty_value(&members[i].1) {
            assert(!is_empty_value(ms[i as int].1));
            return false;
        }
    }
    true
}

impl ImportService {
    /// Imports a JSON document: the objects of the selected array.
    pub fn import_json(root: &JsonValue, json_pointer: Option<&str>, deduplicate: bool) -> (r: Result<
        ImportResult,
        ImportError,
    >)
        ensures
            match spec_select(root@, opt_str(json_pointer)) {
                Err(Some(p)) => (r matches Err(ImportError::JsonNodeNotFound(x)) && x@ == p),
                Err(None) => r matches Err(ImportError::NoUsableJsonArray),
                Ok(vs) => match json_scan(vs, vs.len()) {
                    Err(i) => (r matches Err(ImportError::JsonItemNotObject { index }) && index == i),
                    Ok((rows, removed)) => exists|names: Seq<Seq<char>>|
                        #[trigger] all_field_names(rows_of(rows), names) && finalize_outcome(
                            r,
                            ImportSourceType::Json,
                            json_field_keys(names, rows),
                            rows,
                            removed as usize,
                            deduplicate,
                        ),
                },
            },
    {
        let selected = match select_json_array(root, json_pointer) {
            Ok(v) => v,
            Err(e) => {
                return Err(e);
            },
        };
        proof {
            lemma_array_view(selected@);
        }
        let ghost vs = list_view(selected@, selected@.len());
        assert(spec_select(root@, opt_str(json_pointer)) == Ok::<Seq<JsonView>, Option<Seq<char>>>(vs));
        let mut candidates: Vec<Candidate> = Vec::new();
        let mut removed: usize = 0;
        for i in 0..selected.len()
            invariant
                spec_select(root@, opt_str(json_pointer)) == Ok::<Seq<JsonView>, Option<Seq<char>>>(vs),
                vs == list_view(selected@, selected@.len()),
                vs.len() == selected@.len(),
                forall|m: int| 0 <= m < selected@.len() ==> #[trigger] vs[m] == selected@[m]@,
                json_scan(vs, i as nat) matches Ok((rows, rem)) && candidates_view(candidates@) == rows && removed == rem,
                removed <= i,
        {
            assert(vs[i as int] == selected@[i as int]@);
            match &selected[i] {
                JsonValue::Object(members) => {
                    if object_empty(members) {
                        removed = removed + 1;
                    } else {
                        let copied = members_clone(members);
                        let ghost before = candidates@;
                        candidates.push((i, copied));
                        assert(candidates_view(candidates@) =~= candidates_view(before).push(
                            (i as nat, members_view(members@, members@.len())),
                        ));
                    }
                },
                _ => {
                    proof {
                        assert(!(vs[i as int] is Object));
                        assert(json_scan(vs, (i + 1) as nat) == Err::<(Seq<(nat, Seq<(Seq<char>, JsonView)>)>, nat), nat>(i as nat));
                        lemma_json_scan_error_stays(vs, (i + 1) as nat, vs.len());
                    }
                    return Err(ImportError::JsonItemNotObject { index: i });
                },
            }
        }
        let names = collect_field_names(&candidates);
        proof {
            lemma_candidate_rows(candidates@);
        }
        let mut defs: Vec<ImportedFieldDefinition> = Vec::new();
        for k in 0..names.len()
            invariant
                candidate_rows(candidates@) == rows_of(candidates_view(candidates@)),
                defs@.len() == k,
                forall|m: int|
                    0 <= m < k ==> #[trigger] field_key(defs@[m]) == json_field_keys(
                        crate::text::views(names@),
                        candidates_view(candidates@),
                    )[m],
        {
            let t = infer_json_field_type(names[k].as_str(), &candidates);
            defs.push(bare_definition(names[k].clone(), t, k));
        }
        assert(field_keys(defs@) =~= json_field_keys(crate::text::views(names@), candidates_view(candidates@)));
        let r = finalize(ImportSourceType::Json, defs, candidates, removed, deduplicate);
        assert(all_field_names(rows_of(candidates_view(candidates@)), crate::text::views(names@)));
        r
    }

    /// The arrays of objects in a JSON document, depth first, with their
    /// pointers; an error when there is none.
    pub fn list_json_array_nodes(root: &JsonValue) -> (r: Result<Vec<JsonArrayNode>, ImportError>)
        ensures
            spec_nodes(root@, Seq::empty()).len() == 0 ==> r matches Err(ImportError::NoUsableJsonArray),
            spec_nodes(root@, Seq::empty()).len() > 0 ==> (r matches Ok(nodes) && node_views(nodes@) == spec_nodes(
                root@,
                Seq::empty(),
            )),
    {
        let mut nodes: Vec<JsonArrayNode> = Vec::new();
        let empty = String::new();
        collect_json_array_nodes(root, &empty, &mut nodes);
        assert(node_views(nodes@) =~= spec_nodes(root@, Seq::empty()));
        if nodes.len() == 0 {
            return Err(ImportError::NoUsableJsonArray);
        }
        Ok(nodes)
    }
}
} // verus!
