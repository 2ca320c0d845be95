//! The canonical layout of a workspace and the journal files in it, read from the
//! `/`-separated text of a path as `std::path::Path` reads its components.

use vstd::prelude::*;

use crate::domain::keys::{has_md_suffix, journal_date, JournalDate};
use crate::model::{CompatibilityIssue, CompatibilitySeverity, WorkspaceConfig, WorkspacePaths};
use crate::domain::keys::{all_digits, digits_value, parse_unsigned};
use crate::domain::parser::{trim_white_space, trim_white_space_chars};
use crate::domain::transaction::{text_lines, text_lines_exec};
use crate::extract::{find_chars, find_from, lemma_find_from};
use crate::text::sub_chars;
use crate::parser::{add_pattern_issue, issues_view, pattern_issue, text_issues, IssueView};
use crate::text::{chars_eq, chars_to_string, split_chars, split_on, str_chars};

verus! {

/// `name` appended to `root` as `PathBuf::push` appends a relative name: with a
/// `/` between them unless `root` is empty or already ends in one.
pub open spec fn path_join(root: Seq<char>, name: Seq<char>) -> Seq<char> {
    if root.len() == 0 || root.last() == '/' {
        root + name
    } else {
        root + seq!['/'] + name
    }
}

/// The pieces of a path that name something: empty pieces (from a leading root,
/// repeated or trailing separators) and `.` pieces are no components.
pub open spec fn kept_names(pieces: Seq<Seq<char>>) -> Seq<Seq<char>>
    decreases pieces.len(),
{
    if pieces.len() == 0 {
        seq![]
    } else {
        let rest = kept_names(pieces.drop_last());
        let p = pieces.last();
        if p.len() > 0 && p != seq!['.'] {
            rest.push(p)
        } else {
            rest
        }
    }
}

/// The named components of a path.
pub open spec fn path_names(path: Seq<char>) -> Seq<Seq<char>> {
    kept_names(split_on(path, '/'))
}

/// The last component of a path, unless it is `..`.
pub open spec fn path_file_name(path: Seq<char>) -> Option<Seq<char>> {
    let n = path_names(path);
    if n.len() > 0 && n.last() != seq!['.', '.'] {
        Some(n.last())
    } else {
        None
    }
}

/// The last component of the parent of a path, unless it is `..`.
pub open spec fn parent_file_name(path: Seq<char>) -> Option<Seq<char>> {
    let n = path_names(path);
    if n.len() >= 2 && n[n.len() - 2] != seq!['.', '.'] {
        Some(n[n.len() - 2])
    } else {
        None
    }
}

/// The date a journal file name `YYYY-MM-DD.md` gives.
pub open spec fn journal_file_date(name: Seq<char>) -> Option<(nat, nat, nat)> {
    if has_md_suffix(name) {
        journal_date(name.take(name.len() - 3))
    } else {
        None
    }
}

/// A dated markdown file directly inside a `journals` directory.
pub open spec fn journal_file(path: Seq<char>) -> bool {
    &&& parent_file_name(path) == Some(seq!['j', 'o', 'u', 'r', 'n', 'a', 'l', 's'])
    &&& path_file_name(path) matches Some(f) && journal_file_date(f) is Some
}

/// `name` appended to `root` as a path.
fn join_path(root: &str, name: &str) -> (r: String)
    ensures
        r@ == path_join(root@, name@),
{
    let chars = str_chars(root);
    let mut out = root.to_owned();
    if chars.len() > 0 && chars[chars.len() - 1] != '/' {
        crate::text::push_char(&mut out, '/');
    }
    out.append(name);
    out
}

/// The standard directories of a workspace at `root`.
pub fn canonical_paths(root: &str) -> (r: WorkspacePaths)
    ensures
        r.root@ == root@,
        r.journals@ == path_join(root@, "journals"@),
        r.pages@ == path_join(root@, "pages"@),
        r.assets@ == path_join(root@, "assets"@),
        r.whiteboards@ == path_join(root@, "whiteboards"@),
        r.pdf@ == path_join(root@, "pdf"@),
        r.app@ == path_join(root@, "app"@),
        r.cache@ == path_join(root@, ".cache"@),
{
    WorkspacePaths {
        root: root.to_owned(),
        journals: join_path(root, "journals"),
        pages: join_path(root, "pages"),
        assets: join_path(root, "assets"),
        whiteboards: join_path(root, "whiteboards"),
        pdf: join_path(root, "pdf"),
        app: join_path(root, "app"),
        cache: join_path(root, ".cache"),
    }
}

/// The named components of `path`.
fn names_of(path: &str) -> (r: Vec<Vec<char>>)
    ensures
        r@.map_values(|p: Vec<char>| p@) == path_names(path@),
{
    let chars = str_chars(path);
    let pieces = split_chars(&chars, '/');
    let ghost pv = pieces@.map_values(|p: Vec<char>| p@);
    let dot: Vec<char> = vec!['.'];
    let mut out: Vec<Vec<char>> = Vec::new();
    let mut i: usize = 0;
    while i < pieces.len()
        invariant
            i <= pieces@.len(),
            pv == pieces@.map_values(|p: Vec<char>| p@),
            dot@ == seq!['.'],
            out@.map_values(|p: Vec<char>| p@) == kept_names(pv.take(i as int)),
        decreases pieces@.len() - i,
    {
        proof {
            assert(pv.take(i + 1).drop_last() =~= pv.take(i as int));
            assert(pv.take(i + 1).last() == pieces@[i as int]@);
        }
        let ghost before = out@;
        if pieces[i].len() > 0 && !chars_eq(&pieces[i], &dot) {
            let p = pieces[i].clone();
            out.push(p);
            proof {
                assert(out@.map_values(|p: Vec<char>| p@) =~= before.map_values(|p: Vec<char>| p@).push(
                    pieces@[i as int]@,
                ));
            }
        }
        i = i + 1;
    }
    proof {
        assert(pv.take(pieces@.len() as int) =~= pv);
    }
    out
}

/// The last component of `path`, unless it is `..`.
pub(crate) fn file_name_of(path: &str) -> (r: Option<String>)
    ensures
        match r {
            Some(f) => path_file_name(path@) == Some(f@),
            None => path_file_name(path@) is None,
        },
{
    let names = names_of(path);
    let ghost nv = names@.map_values(|p: Vec<char>| p@);
    let n = names.len();
    let dotdot: Vec<char> = vec!['.', '.'];
    proof {
        assert(dotdot@ =~= seq!['.', '.']);
    }
    if n == 0 {
        return None;
    }
    proof {
        assert(nv.last() == names@[n - 1]@);
    }
    if chars_eq(&names[n - 1], &dotdot) {
        return None;
    }
    Some(chars_to_string(&names[n - 1]))
}

/// Whether `path` names a dated markdown file directly inside `journals`.
pub fn is_journal_file(path: &str) -> (r: bool)
    ensures
        r == journal_file(path@),
{
    match journal_file_name(path) {
        Some(_) => true,
        None => false,
    }
}

/// The file name and date of `path` when it is a journal file.
pub(crate) fn journal_file_name(path: &str) -> (r: Option<(String, JournalDate)>)
    ensures
        journal_file(path@) <==> r is Some,
        r matches Some((f, d)) ==> path_file_name(path@) == Some(f@) && journal_file_date(f@) == Some(
            (d.year as nat, d.month as nat, d.day as nat),
        ),
{
    let names = names_of(path);
    let ghost nv = names@.map_values(|p: Vec<char>| p@);
    let n = names.len();
    let journals: Vec<char> = vec!['j', 'o', 'u', 'r', 'n', 'a', 'l', 's'];
    let dotdot: Vec<char> = vec!['.', '.'];
    if n < 2 || !chars_eq(&names[n - 2], &journals) || chars_eq(&names[n - 1], &dotdot) {
        proof {
            if n >= 2 {
                assert(nv[n - 2] == names@[n - 2]@);
                assert(nv.last() == names@[n - 1]@);
                assert(journals@ =~= seq!['j', 'o', 'u', 'r', 'n', 'a', 'l', 's']);
                assert(dotdot@ =~= seq!['.', '.']);
            }
        }
        return None;
    }
    proof {
        assert(nv[n - 2] == names@[n - 2]@);
        assert(nv.last() == names@[n - 1]@);
        assert(journals@ =~= seq!['j', 'o', 'u', 'r', 'n', 'a', 'l', 's']);
        assert(dotdot@ =~= seq!['.', '.']);
    }
    let file_name = chars_to_string(&names[n - 1]);
    match JournalDate::from_journal_file_name(file_name.as_str()) {
        Some(d) => Some((file_name, d)),
        None => None,
    }
}

/// The issues of one file with relative path `rel` and text `t`: manual block
/// refs, block embeds, durable block ids and advanced queries.
pub open spec fn file_issues(rel: Seq<char>, t: Seq<char>) -> Seq<IssueView> {
    text_issues(rel, t) + pattern_issue(
        rel,
        t,
        seq!['{', '{', 'q', 'u', 'e', 'r', 'y'],
        CompatibilitySeverity::Degraded,
        "advanced query"@,
        "advanced Logseq queries are not first-class in the markdown-first engine"@,
    )
}

/// The issues of files, file after file.
pub open spec fn files_issues(files: Seq<(Seq<char>, Seq<char>)>) -> Seq<IssueView>
    decreases files.len(),
{
    if files.len() == 0 {
        seq![]
    } else {
        files_issues(files.drop_last()) + file_issues(files.last().0, files.last().1)
    }
}

/// The compatibility issues of markdown files given as (relative path, text).
pub fn detect_compatibility_issues(files: &Vec<(String, String)>) -> (r: Vec<CompatibilityIssue>)
    ensures
        issues_view(r@) == files_issues(files@.map_values(|f: (String, String)| (f.0@, f.1@))),
{
    let ghost fv = files@.map_values(|f: (String, String)| (f.0@, f.1@));
    let p1: Vec<char> = vec!['(', '('];
    let p2: Vec<char> = vec!['{', '{', 'e', 'm', 'b', 'e', 'd'];
    let p3: Vec<char> = vec!['i', 'd', ':', ':'];
    let p4: Vec<char> = vec!['{', '{', 'q', 'u', 'e', 'r', 'y'];
    proof {
        assert(p1@ =~= seq!['(', '(']);
        assert(p2@ =~= seq!['{', '{', 'e', 'm', 'b', 'e', 'd']);
        assert(p3@ =~= seq!['i', 'd', ':', ':']);
        assert(p4@ =~= seq!['{', '{', 'q', 'u', 'e', 'r', 'y']);
    }
    let mut issues: Vec<CompatibilityIssue> = Vec::new();
    let mut i: usize = 0;
    proof {
        assert(issues_view(issues@) =~= Seq::<IssueView>::empty());
        assert(fv.take(0) =~= Seq::<(Seq<char>, Seq<char>)>::empty());
    }
    while i < files.len()
        invariant
            i <= files@.len(),
            fv == files@.map_values(|f: (String, String)| (f.0@, f.1@)),
            p1@ == seq!['(', '('],
            p2@ == seq!['{', '{', 'e', 'm', 'b', 'e', 'd'],
            p3@ == seq!['i', 'd', ':', ':'],
            p4@ == seq!['{', '{', 'q', 'u', 'e', 'r', 'y'],
            issues_view(issues@) == files_issues(fv.take(i as int)),
        decreases files@.len() - i,
    {
        let rel = files[i].0.as_str();
        let t = str_chars(files[i].1.as_str());
        let ghost before = issues_view(issues@);
        add_pattern_issue(&mut issues, rel, &t, &p1, CompatibilitySeverity::Unsupported, "manual block ref", "manual block refs are intentionally unsupported");
        add_pattern_issue(&mut issues, rel, &t, &p2, CompatibilitySeverity::Unsupported, "manual block embed", "block embeds are intentionally unsupported");
        add_pattern_issue(&mut issues, rel, &t, &p3, CompatibilitySeverity::Degraded, "durable block id", "durable block IDs degrade to file-and-span anchors");
        add_pattern_issue(&mut issues, rel, &t, &p4, CompatibilitySeverity::Degraded, "advanced query", "advanced Logseq queries are not first-class in the markdown-first engine");
        proof {
            assert(fv.take(i + 1).drop_last() =~= fv.take(i as int));
            assert(fv.take(i + 1).last() == (rel@, t@));
            assert(issues_view(issues@) =~= before + file_issues(rel@, t@));
        }
        i = i + 1;
    }
    proof {
        assert(fv.take(files@.len() as int) =~= fv);
    }
    issues
}

/// The position just past the leading `"` of `v[i..]`.
pub open spec fn lead_quote_end(v: Seq<char>, i: int) -> int
    decreases v.len() - i,
{
    if 0 <= i < v.len() && v[i] == '"' {
        lead_quote_end(v, i + 1)
    } else {
        i
    }
}

/// The end of `v[lo..e]` without its trailing `"`.
pub open spec fn trail_quote_start(v: Seq<char>, lo: int, e: int) -> int
    decreases e - lo,
{
    if lo < e && v[e - 1] == '"' {
        trail_quote_start(v, lo, e - 1)
    } else {
        e
    }
}

/// `v` without leading and trailing `"` (`str::trim_matches('"')`).
pub open spec fn trim_quotes(v: Seq<char>) -> Seq<char> {
    let a = lead_quote_end(v, 0);
    v.subrange(a, trail_quote_start(v, a, v.len() as int))
}

/// The configuration values a `key = value` line sets: a version that parses as
/// an unsigned 32-bit number, or a placeholder without surrounding quotes.
pub open spec fn config_step(c: (u32, Seq<char>), line: Seq<char>) -> (u32, Seq<char>) {
    let eq = find_from(line, seq!['='], 0);
    if eq < 0 {
        c
    } else {
        let key = trim_white_space(line.take(eq));
        let value = trim_white_space(line.skip(eq + 1));
        if key == "workspace_version"@ {
            match parse_unsigned(value, 4294967295) {
                Some(v) => (v as u32, c.1),
                None => c,
            }
        } else if key == "migration_placeholder"@ {
            (c.0, trim_quotes(value))
        } else {
            c
        }
    }
}

/// The configuration after `lines`, from the defaults.
pub open spec fn config_lines(lines: Seq<Seq<char>>) -> (u32, Seq<char>)
    decreases lines.len(),
{
    if lines.len() == 0 {
        (1, "reserved"@)
    } else {
        config_step(config_lines(lines.drop_last()), lines.last())
    }
}

/// `s` parsed as an unsigned 32-bit number, as `str::parse` does.
fn parse_u32(s: &Vec<char>) -> (r: Option<u32>)
    ensures
        match r {
            Some(v) => parse_unsigned(s@, 4294967295) == Some(v as nat),
            None => parse_unsigned(s@, 4294967295) is None,
        },
{
    let start: usize = if s.len() > 0 && s[0] == '+' { 1 } else { 0 };
    let ghost d = if s@.len() > 0 && s@[0] == '+' { s@.drop_first() } else { s@ };
    proof {
        assert(d =~= s@.skip(start as int));
    }
    if start >= s.len() {
        return None;
    }
    let mut value: u64 = 0;
    let mut i: usize = start;
    proof {
        assert(s@.subrange(start as int, start as int) =~= Seq::<char>::empty());
    }
    while i < s.len()
        invariant
            start <= i <= s@.len(),
            d == s@.skip(start as int),
            d == (if s@.len() > 0 && s@[0] == '+' { s@.drop_first() } else { s@ }),
            start < s@.len(),
            value <= 4294967295,
            all_digits(s@.subrange(start as int, i as int)),
            value == digits_value(s@.subrange(start as int, i as int)),
        decreases s@.len() - i,
    {
        let c = s[i];
        proof {
            assert(s@.subrange(start as int, i + 1).drop_last() =~= s@.subrange(start as int, i as int));
            assert(s@.subrange(start as int, i + 1).last() == c);
        }
        if c < '0' || c > '9' {
            proof {
                assert(d[i - start] == c);
                assert(!all_digits(d));
            }
            return None;
        }
        let digit = (c as u32 - '0' as u32) as u64;
        let next = value * 10 + digit;
        proof {
            assert(digits_value(s@.subrange(start as int, i + 1)) == value * 10 + (c as nat - 48));
            assert forall|j: int| 0 <= j < s@.subrange(start as int, i + 1).len() implies '0' <= #[trigger] s@.subrange(
                start as int,
                i + 1,
            )[j] && s@.subrange(start as int, i + 1)[j] <= '9' by {
                if j < i - start {
                    assert(s@.subrange(start as int, i + 1)[j] == s@.subrange(start as int, i as int)[j]);
                }
            }
        }
        if next > 4294967295 {
            proof {
                lemma_digits_grow(s@.subrange(start as int, i + 1), s@.subrange(i + 1, s@.len() as int));
                assert(s@.subrange(start as int, i + 1) + s@.subrange(i + 1, s@.len() as int) =~= d);
                if all_digits(d) {
                    assert(digits_value(d) > 4294967295);
                }
            }
            return None;
        }
        value = next;
        i = i + 1;
    }
    proof {
        assert(s@.subrange(start as int, s@.len() as int) =~= d);
    }
    Some(value as u32)
}

proof fn lemma_digits_grow(p: Seq<char>, q: Seq<char>)
    ensures
        all_digits(p + q) ==> digits_value(p + q) >= digits_value(p),
    decreases q.len(),
{
    if q.len() > 0 && all_digits(p + q) {
        assert((p + q).drop_last() =~= p + q.drop_last());
        assert forall|i: int| 0 <= i < (p + q.drop_last()).len() implies '0' <= #[trigger] (p + q.drop_last())[i] && (p
            + q.drop_last())[i] <= '9' by {
            assert((p + q.drop_last())[i] == (p + q)[i]);
        }
        lemma_digits_grow(p, q.drop_last());
    } else if q.len() == 0 {
        assert(p + q =~= p);
    }
}

/// The characters of `v` without surrounding `"`.
fn trim_quotes_exec(v: &Vec<char>) -> (r: Vec<char>)
    ensures
        r@ == trim_quotes(v@),
{
    let mut a: usize = 0;
    while a < v.len() && v[a] == '"'
        invariant
            a <= v@.len(),
            lead_quote_end(v@, 0) == lead_quote_end(v@, a as int),
        decreases v@.len() - a,
    {
        a = a + 1;
    }
    let mut e = v.len();
    while e > a && v[e - 1] == '"'
        invariant
            a <= e <= v@.len(),
            a as int == lead_quote_end(v@, 0),
            trail_quote_start(v@, a as int, v@.len() as int) == trail_quote_start(v@, a as int, e as int),
        decreases e,
    {
        e = e - 1;
    }
    sub_chars(v, a, e)
}

/// The workspace configuration that a `config.toml` text sets: `key = value`
/// lines for `workspace_version` and `migration_placeholder`, other lines ignored.
pub fn parse_config(content: &str) -> (r: WorkspaceConfig)
    ensures
        (r.workspace_version, r.migration_placeholder@) == config_lines(text_lines(content@)),
{
    let lines = text_lines_exec(content);
    let ghost lv = text_lines(content@);
    proof {
        assert(lines@.len() == lv.len());
        assert(forall|i: int| 0 <= i < lines@.len() ==> #[trigger] lines@[i]@ == lv[i]);
    }
    let mut version: u32 = 1;
    let mut placeholder: Vec<char> = vec!['r', 'e', 's', 'e', 'r', 'v', 'e', 'd'];
    let eq: Vec<char> = vec!['='];
    let kv: Vec<char> = vec!['w', 'o', 'r', 'k', 's', 'p', 'a', 'c', 'e', '_', 'v', 'e', 'r', 's', 'i', 'o', 'n'];
    let kp: Vec<char> = vec!['m', 'i', 'g', 'r', 'a', 't', 'i', 'o', 'n', '_', 'p', 'l', 'a', 'c', 'e', 'h', 'o', 'l', 'd', 'e', 'r'];
    proof {
        reveal_strlit("reserved");
        reveal_strlit("workspace_version");
        reveal_strlit("migration_placeholder");
        assert(placeholder@ =~= "reserved"@);
        assert(kv@ =~= "workspace_version"@);
        assert(kp@ =~= "migration_placeholder"@);
        assert(eq@ =~= seq!['=']);
        assert(lv.take(0) =~= Seq::<Seq<char>>::empty());
    }
    let mut i: usize = 0;
    while i < lines.len()
        invariant
            i <= lines@.len(),
            lines@.len() == lv.len(),
            forall|k: int| 0 <= k < lines@.len() ==> #[trigger] lines@[k]@ == lv[k],
            eq@ == seq!['='],
            kv@ == "workspace_version"@,
            kp@ == "migration_placeholder"@,
            (version, placeholder@) == config_lines(lv.take(i as int)),
        decreases lines@.len() - i,
    {
        proof {
            assert(lv.take(i + 1).drop_last() =~= lv.take(i as int));
            assert(lv.take(i + 1).last() == lines@[i as int]@);
        }
        let line = &lines[i];
        match find_chars(line, &eq, 0) {
            None => {},
            Some(p) => {
                proof {
                    lemma_find_from(line@, seq!['='], 0);
                    assert(line@.len() == line.len());
                }
                let kpart = sub_chars(line, 0, p);
                let vpart = sub_chars(line, p + 1, line.len());
                let key = trim_white_space_chars(&kpart);
                let value = trim_white_space_chars(&vpart);
                proof {
                    assert(kpart@ =~= line@.take(p as int));
                    assert(vpart@ =~= line@.skip(p + 1));
                }
                if crate::text::chars_eq(&key, &kv) {
                    match parse_u32(&value) {
                        Some(v) => {
                            version = v;
                        },
                        None => {},
                    }
                } else if crate::text::chars_eq(&key, &kp) {
                    placeholder = trim_quotes_exec(&value);
                }
            },
        }
        i = i + 1;
    }
    proof {
        assert(lv.take(lines@.len() as int) =~= lv);
    }
    WorkspaceConfig { workspace_version: version, migration_placeholder: crate::text::chars_to_string(&placeholder) }
}

} // verus!
