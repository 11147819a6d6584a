//! Project folders: the rules for a project's name, the layout and format
//! a folder must have to be opened, and the agreement between the metadata
//! file and the database.

use vstd::prelude::*;

use crate::error::AppError;
use crate::import::{eq_ignore_ascii_case, spec_eq_ignore_ascii_case};
use crate::paths::{path_extension, path_extension_of};
use crate::text::{chars_of, concat, owned, str_eq, trim, trimmed, views};

verus! {

/// The project format this version reads and writes: major, minor and
/// patch number of the first public release.
pub const CURRENT_DATA_FORMAT_VERSION: u32 = 10000;

/// The extension of a project folder.
pub open spec fn project_extension() -> Seq<char> {
    "subject-sort"@
}

/// The one database schema version a project may have.
pub const BASELINE_SCHEMA_VERSION: i64 = 10000;

/// Characters Windows refuses in a file name, besides control characters.
pub open spec fn is_forbidden_char(c: char) -> bool {
    c < '\u{20}' || c == '<' || c == '>' || c == ':' || c == '"' || c == '/' || c == '\\' || c == '|' || c
        == '?' || c == '*'
}

/// The name has a character Windows refuses, or ends in a dot or space.
pub open spec fn has_forbidden_char(t: Seq<char>) -> bool {
    (t.len() > 0 && (t.last() == '.' || t.last() == ' ')) || exists|i: int| 0 <= i < t.len() && is_forbidden_char(
        #[trigger] t[i],
    )
}

/// The device names Windows reserves.
pub open spec fn reserved_name(i: int) -> Seq<char> {
    if i == 0 {
        "CON"@
    } else if i == 1 {
        "PRN"@
    } else if i == 2 {
        "AUX"@
    } else if i == 3 {
        "NUL"@
    } else if 4 <= i <= 12 {
        "COM"@.push(((i - 3) + 48) as char)
    } else {
        "LPT"@.push(((i - 12) + 48) as char)
    }
}

/// How many reserved names there are.
pub const RESERVED_NAME_COUNT: usize = 22;

/// The name is a reserved device name, up to ASCII case.
pub open spec fn is_reserved(t: Seq<char>) -> bool {
    exists|i: int| 0 <= i < RESERVED_NAME_COUNT && spec_eq_ignore_ascii_case(t, #[trigger] reserved_name(i))
}

fn reserved_at(i: usize) -> (s: String)
    requires
        i < RESERVED_NAME_COUNT,
    ensures
        s@ == reserved_name(i as int),
{
    if i == 0 {
        owned("CON")
    } else if i == 1 {
        owned("PRN")
    } else if i == 2 {
        owned("AUX")
    } else if i == 3 {
        owned("NUL")
    } else if i <= 12 {
        let digit: u8 = (i - 3) as u8 + 48;
        let mut s = owned("COM");
        let d: char = digit as char;
        let tail = crate::text::string_from_chars(&[d]);
        s.append(tail.as_str());
        s
    } else {
        let digit: u8 = (i - 12) as u8 + 48;
        let mut s = owned("LPT");
        let d: char = digit as char;
        let tail = crate::text::string_from_chars(&[d]);
        s.append(tail.as_str());
        s
    }
}

/// Why a project name is refused, if it is.
pub open spec fn name_problem(name: Seq<char>) -> Option<Seq<char>> {
    let t = trimmed(name);
    if t.len() == 0 {
        Some("项目名称不能为空"@)
    } else if has_forbidden_char(t) {
        Some("项目名称包含 Windows 文件名不允许的字符"@)
    } else if is_reserved(t) {
        Some("项目名称是 Windows 保留名称"@)
    } else {
        None
    }
}

/// Project folders: names, layout, format.
pub struct ProjectService;

impl ProjectService {
    /// The name a project is saved under: the given name trimmed, when it
    /// is not empty, holds no character Windows refuses in a file name,
    /// does not end in a dot or space and is no reserved device name;
    /// otherwise `InvalidInput` saying which.
    pub fn validate_name(name: &str) -> (r: Result<String, AppError>)
        ensures
            name_problem(name@) is None ==> (r matches Ok(t) && t@ == trimmed(name@)),
            name_problem(name@) matches Some(m) ==> (r matches Err(AppError::InvalidInput(e)) && e@ == m),
    {
        let t = trim(name);
        let chars = chars_of(t.as_str());
        let n = chars.len();
        if n == 0 {
            return Err(AppError::InvalidInput(owned("项目名称不能为空")));
        }
        let mut bad = chars[n - 1] == '.' || chars[n - 1] == ' ';
        let mut i: usize = 0;
        while i < n && !bad
            invariant
                chars@ == t@,
                n == t@.len(),
                0 < n,
                i <= n,
                bad == (t@.last() == '.' || t@.last() == ' ' || exists|j: int| 0 <= j < i && is_forbidden_char(
                    #[trigger] t@[j],
                )),
            decreases n - i,
        {
            let c = chars[i];
            if c < '\u{20}' || c == '<' || c == '>' || c == ':' || c == '"' || c == '/' || c == '\\' || c == '|'
                || c == '?' || c == '*' {
                assert(is_forbidden_char(t@[i as int]));
                bad = true;
            }
            i = i + 1;
        }
        if bad {
            return Err(AppError::InvalidInput(owned("项目名称包含 Windows 文件名不允许的字符")));
        }
        assert(!has_forbidden_char(t@)) by {
            if exists|j: int| 0 <= j < n && is_forbidden_char(#[trigger] t@[j]) {
                assert(i == n);
            }
        }
        for k in 0..RESERVED_NAME_COUNT
            invariant
                t@ == trimmed(name@),
                t@.len() > 0,
                !has_forbidden_char(t@),
                forall|j: int| 0 <= j < k ==> !spec_eq_ignore_ascii_case(t@, #[trigger] reserved_name(j)),
        {
            let reserved = reserved_at(k);
            if eq_ignore_ascii_case(t.as_str(), reserved.as_str()) {
                assert(spec_eq_ignore_ascii_case(t@, reserved_name(k as int)));
                return Err(AppError::InvalidInput(owned("项目名称是 Windows 保留名称")));
            }
        }
        Ok(t)
    }

    /// The folder name of a project with an accepted name.
    pub fn folder_name(normalized_name: &str) -> (r: String)
        ensures
            r@ == normalized_name@ + "."@ + project_extension(),
    {
        let head = concat(normalized_name, ".");
        concat(head.as_str(), "subject-sort")
    }

    /// What a project folder must hold.
    pub fn required_entries() -> (r: Vec<String>)
        ensures
            views(r@) == seq!["metadata.json"@, "project.sqlite"@, "source"@, "assets"@],
    {
        let mut r: Vec<String> = Vec::new();
        r.push(owned("metadata.json"));
        r.push(owned("project.sqlite"));
        r.push(owned("source"));
        r.push(owned("assets"));
        assert(views(r@) =~= seq!["metadata.json"@, "project.sqlite"@, "source"@, "assets"@]);
        r
    }

    /// Whether a path can be opened as a project: a directory with the
    /// project extension holding every required entry; `InvalidProject`
    /// with the path otherwise.
    pub fn validate_project_layout(project_path: &str, is_directory: bool, has_required_entries: bool) -> (r: Result<
        (),
        AppError,
    >)
        ensures
            (is_directory && path_extension_of(project_path@) == Some(project_extension()) && has_required_entries)
                ==> r is Ok,
            !(is_directory && path_extension_of(project_path@) == Some(project_extension()) && has_required_entries)
                ==> (r matches Err(AppError::InvalidProject(m)) && m@ == project_path@),
    {
        let has_extension = match path_extension(project_path) {
            Some(e) => str_eq(e.as_str(), "subject-sort"),
            None => false,
        };
        if !is_directory || !has_extension || !has_required_entries {
            return Err(AppError::InvalidProject(owned(project_path)));
        }
        Ok(())
    }

    /// A project in another format is refused with both versions.
    pub fn check_data_format(found: u32) -> (r: Result<(), AppError>)
        ensures
            found == CURRENT_DATA_FORMAT_VERSION ==> r is Ok,
            found != CURRENT_DATA_FORMAT_VERSION ==> (r matches Err(
                AppError::UnsupportedVersion { found: f, supported: s },
            ) && f == found && s == CURRENT_DATA_FORMAT_VERSION),
    {
        if found != CURRENT_DATA_FORMAT_VERSION {
            return Err(AppError::UnsupportedVersion { found, supported: CURRENT_DATA_FORMAT_VERSION });
        }
        Ok(())
    }

    /// The database's schema versions (none when they could not be read)
    /// must be exactly the baseline.
    pub fn check_schema(versions: &Option<Vec<i64>>) -> (r: Result<(), AppError>)
        ensures
            (versions matches Some(v) && v@ == seq![BASELINE_SCHEMA_VERSION]) ==> r is Ok,
            !(versions matches Some(v) && v@ == seq![BASELINE_SCHEMA_VERSION]) ==> r matches Err(
                AppError::UnsupportedDatabaseSchema,
            ),
    {
        match versions {
            Some(v) => {
                if v.len() == 1 && v[0] == BASELINE_SCHEMA_VERSION {
                    assert(v@ =~= seq![BASELINE_SCHEMA_VERSION]);
                    Ok(())
                } else {
                    Err(AppError::UnsupportedDatabaseSchema)
                }
            },
            None => Err(AppError::UnsupportedDatabaseSchema),
        }
    }

    /// The metadata file must agree with the database's project row on
    /// id, name and format.
    pub fn check_metadata(stored: &Option<(String, String, u32)>, id: &str, name: &str, version: u32) -> (r: Result<
        (),
        AppError,
    >)
        ensures
            (stored matches Some(row) && row.0@ == id@ && row.1@ == name@ && row.2 == version) ==> r is Ok,
            !(stored matches Some(row) && row.0@ == id@ && row.1@ == name@ && row.2 == version) ==> (r matches Err(
                AppError::InvalidProject(m),
            ) && m@ == "元数据与项目数据库不一致"@),
    {
        match stored {
            Some(row) => {
                if str_eq(row.0.as_str(), id) && str_eq(row.1.as_str(), name) && row.2 == version {
                    Ok(())
                } else {
                    Err(AppError::InvalidProject(owned("元数据与项目数据库不一致")))
                }
            },
            None => Err(AppError::InvalidProject(owned("元数据与项目数据库不一致"))),
        }
    }
}

} // verus!
