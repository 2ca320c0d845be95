//! Rules for workspace folder names and the reserved folders of a workspace root.

use vstd::prelude::*;

use super::error::CoreError;
use super::names::{
    is_control_char, is_stream_date_markdown_name as date_markdown_name, is_stream_date_markdown_name_exec, prefix3,
    word3,
};
use super::parser::{is_white_space, lead_ws_end, lemma_lead_ws_end, trail_ws_start, trim_white_space, trim_white_space_chars};
use crate::text::{chars_to_string, eq_ci, push_char, str_chars};

verus! {

/// A character that a folder name may not hold on common file systems.
pub open spec fn is_folder_reserved_char(c: char) -> bool {
    c == '<' || c == '>' || c == ':' || c == '"' || c == '/' || c == '\\' || c == '|' || c == '?'
        || c == '*'
}

/// `CON`, `PRN`, `AUX`, `NUL`, `COM1`..`COM9` or `LPT1`..`LPT9`, in any ASCII case.
pub open spec fn is_folder_device_name(s: Seq<char>) -> bool {
    ||| word3(s, 'C', 'O', 'N')
    ||| word3(s, 'P', 'R', 'N')
    ||| word3(s, 'A', 'U', 'X')
    ||| word3(s, 'N', 'U', 'L')
    ||| (s.len() == 4 && prefix3(s, 'C', 'O', 'M') && '1' <= s[3] && s[3] <= '9')
    ||| (s.len() == 4 && prefix3(s, 'L', 'P', 'T') && '1' <= s[3] && s[3] <= '9')
}

/// The upper-case hexadecimal digit of `d < 16`.
pub open spec fn hex_digit(d: u32) -> char {
    if d < 10 {
        ((48 + d) as u8) as char
    } else {
        ((55 + d) as u8) as char
    }
}

/// `v` as four upper-case hexadecimal digits.
pub open spec fn hex4(v: u32) -> Seq<char> {
    seq![
        hex_digit((v / 4096 % 16) as u32),
        hex_digit((v / 256 % 16) as u32),
        hex_digit((v / 16 % 16) as u32),
        hex_digit((v % 16) as u32),
    ]
}

/// The first character of `s` that a folder name may not hold, at or after `i`.
pub open spec fn first_bad_folder_char(s: Seq<char>, i: int) -> Option<char>
    decreases s.len() - i,
{
    if i < 0 || i >= s.len() {
        None
    } else if is_control_char(s[i]) || is_folder_reserved_char(s[i]) {
        Some(s[i])
    } else {
        first_bad_folder_char(s, i + 1)
    }
}

/// The message for a character that a folder name may not hold.
pub open spec fn bad_char_message(c: char) -> Seq<char> {
    if is_control_char(c) {
        "workspace folder name contains control character U+"@ + hex4(c as u32)
    } else {
        "workspace folder name contains reserved character '"@ + seq![c] + "'"@
    }
}

/// Why `input` is not a usable workspace folder name, checked on the trimmed text
/// in this order; `None` when it is usable.
pub open spec fn folder_name_problem(input: Seq<char>) -> Option<Seq<char>> {
    let t = trim_white_space(input);
    if t.len() == 0 {
        Some("workspace folder name cannot be empty"@)
    } else if t == seq!['.'] || t == seq!['.', '.'] {
        Some("workspace folder name cannot be '.' or '..'"@)
    } else if t.last() == '.' || t.last() == ' ' {
        Some("workspace folder name cannot end with a dot or space"@)
    } else if first_bad_folder_char(t, 0) is Some {
        Some(bad_char_message(first_bad_folder_char(t, 0)->0))
    } else if is_folder_device_name(t) {
        Some("workspace folder name cannot be a reserved Windows device name"@)
    } else {
        None
    }
}

fn hex_digit_exec(d: u32) -> (r: char)
    requires
        d < 16,
    ensures
        r == hex_digit(d),
{
    if d < 10 {
        ((48 + d) as u8) as char
    } else {
        ((55 + d) as u8) as char
    }
}

/// The message for the character `c`, which a folder name may not hold.
fn bad_char_message_exec(c: char) -> (r: String)
    ensures
        r@ == bad_char_message(c),
{
    if c <= '\u{1f}' || ('\u{7f}' <= c && c <= '\u{9f}') {
        let mut out = "workspace folder name contains control character U+".to_owned();
        let v = c as u32;
        push_char(&mut out, hex_digit_exec(v / 4096 % 16));
        push_char(&mut out, hex_digit_exec(v / 256 % 16));
        push_char(&mut out, hex_digit_exec(v / 16 % 16));
        push_char(&mut out, hex_digit_exec(v % 16));
        proof {
            assert(out@ =~= "workspace folder name contains control character U+"@ + hex4(v));
        }
        out
    } else {
        let mut out = "workspace folder name contains reserved character '".to_owned();
        push_char(&mut out, c);
        out.append("'");
        proof {
            assert(out@ =~= "workspace folder name contains reserved character '"@ + seq![c] + "'"@);
        }
        out
    }
}

fn is_folder_device_name_exec(v: &Vec<char>) -> (r: bool)
    ensures
        r == is_folder_device_name(v@),
{
    let n = v.len();
    if n == 3 {
        (eq_ci(v[0], 'C') && eq_ci(v[1], 'O') && eq_ci(v[2], 'N')) || (eq_ci(v[0], 'P') && eq_ci(
            v[1],
            'R',
        ) && eq_ci(v[2], 'N')) || (eq_ci(v[0], 'A') && eq_ci(v[1], 'U') && eq_ci(v[2], 'X')) || (
        eq_ci(v[0], 'N') && eq_ci(v[1], 'U') && eq_ci(v[2], 'L'))
    } else if n == 4 {
        let digit = '1' <= v[3] && v[3] <= '9';
        digit && ((eq_ci(v[0], 'C') && eq_ci(v[1], 'O') && eq_ci(v[2], 'M')) || (eq_ci(v[0], 'L')
            && eq_ci(v[1], 'P') && eq_ci(v[2], 'T')))
    } else {
        false
    }
}

/// The trimmed folder name when it is usable for a workspace; otherwise
/// `Err(InvalidWorkspaceName)` with the message of the first rule it breaks.
pub fn validate_workspace_folder_name(input: &str) -> (r: Result<String, CoreError>)
    ensures
        folder_name_problem(input@) is None ==> (r matches Ok(s) && s@ == trim_white_space(input@)),
        folder_name_problem(input@) matches Some(m) ==> (r matches Err(e) && (e matches CoreError::InvalidWorkspaceName { message } && message@ == m)),
{
    let chars = str_chars(input);
    let t = trim_white_space_chars(&chars);
    let n = t.len();
    if n == 0 {
        return Err(
            CoreError::InvalidWorkspaceName {
                message: "workspace folder name cannot be empty".to_owned(),
            },
        );
    }
    if (n == 1 && t[0] == '.') || (n == 2 && t[0] == '.' && t[1] == '.') {
        proof {
            assert(t@ =~= seq!['.'] || t@ =~= seq!['.', '.']);
        }
        return Err(
            CoreError::InvalidWorkspaceName {
                message: "workspace folder name cannot be '.' or '..'".to_owned(),
            },
        );
    }
    proof {
        assert(t@ != seq!['.']) by {
            if t@ == seq!['.'] {
                assert(t@[0] == '.');
            }
        }
        assert(t@ != seq!['.', '.']) by {
            if t@ == seq!['.', '.'] {
                assert(t@[0] == '.' && t@[1] == '.');
            }
        }
    }
    if t[n - 1] == '.' || t[n - 1] == ' ' {
        return Err(
            CoreError::InvalidWorkspaceName {
                message: "workspace folder name cannot end with a dot or space".to_owned(),
            },
        );
    }
    let mut i: usize = 0;
    while i < n
        invariant
            n == t@.len(),
            t@ == trim_white_space(input@),
            n > 0,
            t@ != seq!['.'],
            t@ != seq!['.', '.'],
            t@.last() != '.' && t@.last() != ' ',
            i <= n,
            first_bad_folder_char(t@, 0) == first_bad_folder_char(t@, i as int),
        decreases n - i,
    {
        let c = t[i];
        let control = c <= '\u{1f}' || ('\u{7f}' <= c && c <= '\u{9f}');
        let reserved = c == '<' || c == '>' || c == ':' || c == '"' || c == '/' || c == '\\' || c
            == '|' || c == '?' || c == '*';
        if control || reserved {
            return Err(CoreError::InvalidWorkspaceName { message: bad_char_message_exec(c) });
        }
        i = i + 1;
    }
    if is_folder_device_name_exec(&t) {
        return Err(
            CoreError::InvalidWorkspaceName {
                message: "workspace folder name cannot be a reserved Windows device name".to_owned(),
            },
        );
    }
    Ok(chars_to_string(&t))
}

/// `pages`, `assets` or `uniseq`: the folders of a workspace root that are not streams.
pub open spec fn is_reserved_root(name: Seq<char>) -> bool {
    name == "pages"@ || name == "assets"@ || name == "uniseq"@
}

/// The folder name is one of the reserved folders of a workspace root.
pub fn is_reserved_root_name(name: &str) -> (r: bool)
    ensures
        r == is_reserved_root(name@),
{
    let v = name.to_owned();
    let pages = "pages".to_owned();
    let assets = "assets".to_owned();
    let uniseq = "uniseq".to_owned();
    v == pages || v == assets || v == uniseq
}

/// A file name of a dated stream page: `YYYY_MM_DD.md`, the extension in any case.
pub fn is_stream_date_markdown_name(file_name: &str) -> (r: bool)
    ensures
        r == date_markdown_name(file_name@),
{
    let chars = str_chars(file_name);
    is_stream_date_markdown_name_exec(&chars)
}


/// The folders a workspace root is given when it is prepared, in the order they
/// are created.
pub fn standard_workspace_folders() -> (r: Vec<&'static str>)
    ensures
        r@.len() == 5,
        r@[0]@ == "pages"@,
        r@[1]@ == "assets"@,
        r@[2]@ == "uniseq"@,
        r@[3]@ == "journals"@,
        r@[4]@ == "diary"@,
{
    let mut r: Vec<&'static str> = Vec::new();
    r.push("pages");
    r.push("assets");
    r.push("uniseq");
    r.push("journals");
    r.push("diary");
    r
}

proof fn lemma_first_bad_none(s: Seq<char>, i: int)
    requires
        0 <= i <= s.len(),
    ensures
        first_bad_folder_char(s, i) is None <==> forall|j: int|
            i <= j < s.len() ==> !is_control_char(#[trigger] s[j]) && !is_folder_reserved_char(s[j]),
    decreases s.len() - i,
{
    if i < s.len() {
        lemma_first_bad_none(s, i + 1);
    }
}

proof fn lemma_trail_not_ws(c: Seq<char>, lo: int, e: int)
    requires
        0 <= lo <= e <= c.len(),
    ensures
        lo <= trail_ws_start(c, lo, e) <= e,
        trail_ws_start(c, lo, e) > lo ==> !is_white_space(c[trail_ws_start(c, lo, e) - 1]),
    decreases e - lo,
{
    if lo < e && is_white_space(c[e - 1]) {
        lemma_trail_not_ws(c, lo, e - 1);
    }
}

/// What creating a workspace folder does, given what lies on disk.
#[derive(Debug, Clone, Copy, PartialEq, Eq, Structural)]
pub enum RootCreation {
    /// The parent folder does not exist.
    ParentMissing,
    /// The parent is not a folder.
    ParentNotDirectory,
    /// The folder already holds a workspace: it is reopened.
    Reopen,
    /// Something else stands where the folder would go.
    TargetExists,
    /// The folder is created.
    Create,
}

/// The choice `create_workspace_root` makes: the parent must exist and be a folder;
/// an existing target is reopened when it is a folder with a `pages/` folder and
/// refused otherwise; a missing one is created.
pub fn workspace_root_creation(
    parent_exists: bool,
    parent_is_dir: bool,
    target_exists: bool,
    target_is_workspace: bool,
) -> (r: RootCreation)
    ensures
        !parent_exists ==> r == RootCreation::ParentMissing,
        parent_exists && !parent_is_dir ==> r == RootCreation::ParentNotDirectory,
        parent_exists && parent_is_dir && target_exists && target_is_workspace ==> r == RootCreation::Reopen,
        parent_exists && parent_is_dir && target_exists && !target_is_workspace ==> r == RootCreation::TargetExists,
        parent_exists && parent_is_dir && !target_exists ==> r == RootCreation::Create,
{
    if !parent_exists {
        RootCreation::ParentMissing
    } else if !parent_is_dir {
        RootCreation::ParentNotDirectory
    } else if target_exists {
        if target_is_workspace {
            RootCreation::Reopen
        } else {
            RootCreation::TargetExists
        }
    } else {
        RootCreation::Create
    }
}

/// A workspace folder name is accepted exactly when its trimmed text is not empty,
/// not `.` or `..`, does not end with a dot, holds no control or reserved
/// character, and is no reserved device name; the name kept is the trimmed text.
pub proof fn law_folder_name_accepted(input: Seq<char>)
    ensures
        folder_name_problem(input) is None <==> {
            let t = trim_white_space(input);
            &&& t.len() > 0
            &&& t != seq!['.'] && t != seq!['.', '.']
            &&& t.last() != '.'
            &&& forall|j: int| 0 <= j < t.len() ==> !is_control_char(#[trigger] t[j]) && !is_folder_reserved_char(t[j])
            &&& !is_folder_device_name(t)
        },
{
    let t = trim_white_space(input);
    lemma_first_bad_none(t, 0);
    let a = lead_ws_end(input, 0);
    lemma_lead_ws_end(input, 0);
    lemma_trail_not_ws(input, a, input.len() as int);
    if t.len() > 0 {
        assert(t.last() == input[trail_ws_start(input, a, input.len() as int) - 1]);
        assert(is_white_space(' '));
    }
}

} // verus!
