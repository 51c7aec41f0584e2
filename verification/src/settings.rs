//! Where the chooser keeps its files, and the text of the saved selection.

use vstd::prelude::*;

use crate::codes::{CodeSet, string_views};

verus! {

/// How the platform writes paths.
#[derive(Clone, Copy, Debug, PartialEq, Eq, Structural)]
pub enum PathStyle {
    /// `/` separates components.
    Unix,
    /// Backslash and `/` separate components; paths may start with a prefix
    /// such as a drive `C:`.
    Windows,
}

/// `base` joined with `name`, as `Path::join` does on Unix when `name` is one
/// plain component (no separator, not `.` or `..`): no separator is added to
/// an empty base or to one that ends in `/`.
pub open spec fn path_join(base: Seq<char>, name: Seq<char>) -> Seq<char> {
    if base.len() == 0 {
        name
    } else if base.last() == '/' {
        base + name
    } else {
        base + "/"@ + name
    }
}

fn join_path(base: &str, name: &str) -> (p: String)
    ensures
        p@ == path_join(base@, name@),
{
    let n = base.unicode_len();
    let mut p = String::from_str(base);
    if n == 0 {
        return String::from_str(name);
    }
    if base.get_char(n - 1) != '/' {
        p.append("/");
    }
    p.append(name);
    p
}

/// The components of a verbatim path's body (split at backslashes, empty
/// parts dropped), written back with one backslash between them; the flag
/// tells whether a backslash has been seen since the last character kept.
pub open spec fn squeezed(body: Seq<char>) -> (Seq<char>, bool)
    decreases body.len(),
{
    if body.len() == 0 {
        (Seq::empty(), false)
    } else {
        let before = squeezed(body.drop_last());
        let c = body.last();
        if c == '\\' {
            (before.0, before.0.len() > 0)
        } else if before.1 {
            (before.0 + seq!['\\', c], false)
        } else {
            (before.0.push(c), false)
        }
    }
}

/// Where the body of a Windows path begins: after its prefix and, when one
/// follows, the separator that makes it rooted.
pub open spec fn windows_body_start(p: Seq<char>) -> int {
    let pre = windows_prefix(p).0;
    if pre < p.len() && windows_sep(false, p[pre]) {
        pre + 1
    } else {
        pre
    }
}

/// `base` joined with `name`, as `Path::join` does on Windows when `name` is
/// one plain component (no separator, drive or `:`, not `.` or `..`). A
/// verbatim base (`\\?\...`) is rebuilt from its components: its prefix, a
/// backslash, its components and `name`, separated by backslashes. Otherwise
/// no separator goes after an empty base, after one that ends in a backslash
/// or `/`, or after a bare drive such as `C:`; else a backslash goes in
/// between.
pub open spec fn windows_path_join(base: Seq<char>, name: Seq<char>) -> Seq<char> {
    if base.len() == 0 {
        name
    } else if windows_prefix(base).1 {
        let body = squeezed(base.subrange(windows_body_start(base), base.len() as int)).0;
        base.subrange(0, windows_prefix(base).0) + seq!['\\'] + (if body.len() > 0 {
            body.push('\\')
        } else {
            body
        }) + name
    } else if base.last() == '\\' || base.last() == '/' {
        base + name
    } else if base.len() == 2 && base[1] == ':' && ascii_letter(base[0]) {
        base + name
    } else {
        base + "\\"@ + name
    }
}

fn windows_join_path(base: &str, name: &str) -> (p: String)
    ensures
        p@ == windows_path_join(base@, name@),
{
    let n = base.unicode_len();
    if n == 0 {
        return String::from_str(name);
    }
    let (pre, verbatim) = windows_prefix_exec(base, n);
    if verbatim {
        let root = pre < n && windows_sep_exec(false, base.get_char(pre));
        let start = if root {
            pre + 1
        } else {
            pre
        };
        let ghost bs = base@;
        let mut body = String::new();
        let mut pending = false;
        let mut i = start;
        while i < n
            invariant
                n == bs.len(),
                bs == base@,
                start <= i <= n,
                (body@, pending) == squeezed(bs.subrange(start as int, i as int)),
            decreases n - i,
        {
            let c = base.get_char(i);
            proof {
                assert(bs.subrange(start as int, i + 1).drop_last() =~= bs.subrange(start as int, i as int));
                assert(bs.subrange(start as int, i + 1).last() == c);
            }
            if c == '\\' {
                pending = body.unicode_len() > 0;
            } else {
                if pending {
                    crate::text::push_char(&mut body, '\\');
                    pending = false;
                }
                crate::text::push_char(&mut body, c);
            }
            i = i + 1;
        }
        let mut p = String::from_str(base.substring_char(0, pre));
        crate::text::push_char(&mut p, '\\');
        if body.unicode_len() > 0 {
            p.append(body.as_str());
            crate::text::push_char(&mut p, '\\');
        }
        p.append(name);
        proof {
            assert(start as int == windows_body_start(bs));
            if body@.len() > 0 {
                assert(p@ =~= bs.subrange(0, pre as int) + seq!['\\'] + body@.push('\\') + name@);
            } else {
                assert(p@ =~= bs.subrange(0, pre as int) + seq!['\\'] + body@ + name@);
            }
        }
        return p;
    }
    let mut p = String::from_str(base);
    let last = base.get_char(n - 1);
    let bare_drive = n == 2 && base.get_char(1) == ':' && ascii_letter_exec(base.get_char(0));
    if last != '\\' && last != '/' && !bare_drive {
        p.append("\\");
    }
    p.append(name);
    p
}

/// A path joined with one plain component in the given style.
pub open spec fn style_join(style: PathStyle, base: Seq<char>, name: Seq<char>) -> Seq<char> {
    match style {
        PathStyle::Unix => path_join(base, name),
        PathStyle::Windows => windows_path_join(base, name),
    }
}

fn join_in(style: PathStyle, base: &str, name: &str) -> (p: String)
    ensures
        p@ == style_join(style, base@, name@),
{
    match style {
        PathStyle::Unix => join_path(base, name),
        PathStyle::Windows => windows_join_path(base, name),
    }
}

/// The directory under which configuration lives: `$XDG_CONFIG_HOME` when set,
/// else `$HOME/.config`, else the current directory.
pub open spec fn config_base(xdg_config_home: Option<Seq<char>>, home: Option<Seq<char>>) -> Seq<char> {
    match xdg_config_home {
        Some(x) => x,
        None => match home {
            Some(h) => path_join(h, ".config"@),
            None => "."@,
        },
    }
}

/// The base configuration directory from the values of the `XDG_CONFIG_HOME`
/// and `HOME` environment variables.
pub fn platform_config_base(xdg_config_home: Option<&str>, home: Option<&str>) -> (p: String)
    ensures
        p@ == config_base(
            match xdg_config_home {
                Some(x) => Some(x@),
                None => None,
            },
            match home {
                Some(h) => Some(h@),
                None => None,
            },
        ),
{
    match xdg_config_home {
        Some(x) => String::from_str(x),
        None => match home {
            Some(h) => join_path(h, ".config"),
            None => String::from_str("."),
        },
    }
}

/// The directory under which configuration lives on Windows: `%APPDATA%`
/// when set, else the `AppData\Roaming` folder below `%USERPROFILE%`, else the
/// current directory.
pub open spec fn windows_config_base(appdata: Option<Seq<char>>, userprofile: Option<Seq<char>>) -> Seq<char> {
    match appdata {
        Some(a) => a,
        None => match userprofile {
            Some(h) => windows_path_join(windows_path_join(h, "AppData"@), "Roaming"@),
            None => "."@,
        },
    }
}

/// The base configuration directory on Windows from the values of the
/// `APPDATA` and `USERPROFILE` environment variables.
pub fn windows_platform_config_base(appdata: Option<&str>, userprofile: Option<&str>) -> (p: String)
    ensures
        p@ == windows_config_base(
            match appdata {
                Some(a) => Some(a@),
                None => None,
            },
            match userprofile {
                Some(h) => Some(h@),
                None => None,
            },
        ),
{
    match appdata {
        Some(a) => String::from_str(a),
        None => match userprofile {
            Some(h) => {
                let data = windows_join_path(h, "AppData");
                windows_join_path(data.as_str(), "Roaming")
            },
            None => String::from_str("."),
        },
    }
}

/// The chooser's configuration directory below the base directory.
pub fn config_dir(style: PathStyle, config_base: &str) -> (p: String)
    ensures
        p@ == style_join(style, config_base@, "cs2-server-chooser"@),
{
    join_in(style, config_base, "cs2-server-chooser")
}

/// Where the selection is saved.
pub fn selection_path(style: PathStyle, config_base: &str) -> (p: String)
    ensures
        p@ == style_join(style, style_join(style, config_base@, "cs2-server-chooser"@), "selection.json"@),
{
    let dir = config_dir(style, config_base);
    join_in(style, dir.as_str(), "selection.json")
}

/// Where a selection is exported unless the user picks another place.
pub fn default_export_path(style: PathStyle, config_base: &str) -> (p: String)
    ensures
        p@ == style_join(style, style_join(style, config_base@, "cs2-server-chooser"@), "selection-export.json"@),
{
    let dir = config_dir(style, config_base);
    join_in(style, dir.as_str(), "selection-export.json")
}

/// Where the last relay configuration is cached: below `$XDG_CACHE_HOME`, else
/// `$HOME/.cache`, else the current directory (on every platform).
pub fn cache_path(style: PathStyle, xdg_cache_home: Option<&str>, home: Option<&str>) -> (p: String)
    ensures
        p@ == style_join(
            style,
            style_join(
                style,
                match xdg_cache_home {
                    Some(x) => x@,
                    None => match home {
                        Some(h) => style_join(style, h@, ".cache"@),
                        None => "."@,
                    },
                },
                "cs2-server-chooser"@,
            ),
            "sdr_config.json"@,
        ),
{
    let base = match xdg_cache_home {
        Some(x) => String::from_str(x),
        None => match home {
            Some(h) => join_in(style, h, ".cache"),
            None => String::from_str("."),
        },
    };
    let dir = join_in(style, base.as_str(), "cs2-server-chooser");
    join_in(style, dir.as_str(), "sdr_config.json")
}

/// A lower-case hexadecimal digit (`0 <= d < 16`).
pub open spec fn hex_digit(d: int) -> char {
    if d < 10 {
        ((48 + d) as u32) as char
    } else {
        ((87 + d) as u32) as char
    }
}

/// How `serde_json` writes one character inside a string literal: `"` and
/// the backslash get a backslash before them; backspace, tab, line feed, form
/// feed and carriage return become `\b \t \n \f \r`; the other control
/// characters below U+0020 become `\u00` and two lower-case hex digits; every
/// other character stands as it is.
pub open spec fn json_escape_char(c: char) -> Seq<char> {
    let u = c as int;
    if c == '"' {
        seq!['\\', '"']
    } else if c == '\\' {
        seq!['\\', '\\']
    } else if u == 0x08 {
        seq!['\\', 'b']
    } else if u == 0x09 {
        seq!['\\', 't']
    } else if u == 0x0a {
        seq!['\\', 'n']
    } else if u == 0x0c {
        seq!['\\', 'f']
    } else if u == 0x0d {
        seq!['\\', 'r']
    } else if u < 0x20 {
        seq!['\\', 'u', '0', '0', hex_digit(u / 16), hex_digit(u % 16)]
    } else {
        seq![c]
    }
}

/// The characters of a text escaped one by one.
pub open spec fn json_escaped(s: Seq<char>) -> Seq<char>
    decreases s.len(),
{
    if s.len() == 0 {
        Seq::empty()
    } else {
        json_escaped(s.drop_last()) + json_escape_char(s.last())
    }
}

/// The JSON string literal for a text, as `serde_json` writes it: the escaped
/// text between double quotes.
pub open spec fn json_quoted(s: Seq<char>) -> Seq<char> {
    seq!['"'] + json_escaped(s) + seq!['"']
}

/// The lines of a pretty-printed list: the given JSON literals, each indented
/// by four spaces, separated by `,` and a line break.
pub open spec fn selection_lines(quoted: Seq<Seq<char>>) -> Seq<char>
    decreases quoted.len(),
{
    if quoted.len() == 0 {
        Seq::empty()
    } else if quoted.len() == 1 {
        "    "@ + quoted[0]
    } else {
        selection_lines(quoted.drop_last()) + ",\n    "@ + quoted.last()
    }
}

/// An object with the single field `key` whose value is the list of strings
/// `items`, in the layout of `serde_json`'s pretty printer: two spaces of
/// indentation per level, `[]` for an empty list.
pub open spec fn pretty_list_field(key: Seq<char>, items: Seq<Seq<char>>) -> Seq<char> {
    if items.len() == 0 {
        "{\n  "@ + json_quoted(key) + ": []\n}"@
    } else {
        "{\n  "@ + json_quoted(key) + ": [\n"@ + selection_lines(items.map_values(|c: Seq<char>| json_quoted(c)))
            + "\n  ]\n}"@
    }
}

/// The saved selection for codes in ascending order: the object
/// `{"allowed_pops": [...]}` as `serde_json::to_string_pretty` writes it.
pub open spec fn selection_text(codes: Seq<Seq<char>>) -> Seq<char> {
    pretty_list_field("allowed_pops"@, codes)
}

/// `serde_json::to_string_pretty` on a one-entry map from `key` to the list
/// `items`, which serde_json writes exactly as the object with that one field.
/// The contract states the text: the `PrettyFormatter` layout (`[` and `{`
/// open a level, each entry starts on a new line indented two spaces per
/// level, entries are separated by `,`, a closing bracket goes on its own line
/// unless the list is empty) around the strings quoted by
/// `format_escaped_str`. The call succeeds: the map's keys are strings, and
/// the only other errors are a writer's I/O errors, which writing into a
/// `Vec<u8>` never returns.
#[verifier::external_body]
fn pretty_json_list_field(key: &str, items: &Vec<String>) -> (r: Result<String, String>)
    ensures
        r is Ok,
        r matches Ok(j) ==> j@ == pretty_list_field(key@, string_views(items@)),
{
    serde_json::to_string_pretty(&std::collections::BTreeMap::from([(key, items)])).map_err(|e| e.to_string())
}

/// The JSON text of a saved selection, written by `serde_json`. It always
/// succeeds.
pub fn selection_json(allowed: &CodeSet) -> (r: Result<String, String>)
    ensures
        r matches Ok(j) && j@ == selection_text(allowed@),
{
    let codes = allowed.to_vec();
    pretty_json_list_field("allowed_pops", &codes)
}

/// A character of a root path after its leading `/`: another separator, or a
/// `.` that makes up a whole component (which `Path` skips).
pub open spec fn root_tail_char(p: Seq<char>, i: int) -> bool {
    p[i] == '/' || (p[i] == '.' && p[i - 1] == '/' && (i + 1 == p.len() || p[i + 1] == '/'))
}

/// Whether a path has a parent, as `Path::parent` decides on Unix: every path
/// has one except the empty path and a root (`/`, followed only by separators
/// and `.` components).
pub open spec fn path_has_parent(p: Seq<char>) -> bool {
    !(p.len() == 0 || (p[0] == '/' && forall|i: int| 0 < i < p.len() ==> #[trigger] root_tail_char(p, i)))
}

/// Whether a path has a parent directory.
pub fn has_parent(path: &str) -> (b: bool)
    ensures
        b == path_has_parent(path@),
{
    let n = path.unicode_len();
    if n == 0 {
        return false;
    }
    if path.get_char(0) != '/' {
        return true;
    }
    let mut i: usize = 1;
    while i < n
        invariant
            n == path@.len(),
            1 <= i <= n,
            path@[0] == '/',
            forall|k: int| 0 < k < i ==> #[trigger] root_tail_char(path@, k),
        decreases n - i,
    {
        let c = path.get_char(i);
        let whole_dot = c == '.' && path.get_char(i - 1) == '/' && (i + 1 == n || path.get_char(i + 1) == '/');
        if c != '/' && !whole_dot {
            assert(!root_tail_char(path@, i as int));
            return true;
        }
        i = i + 1;
    }
    false
}

/// A path separator on Windows: a backslash or `/`, but only the backslash
/// inside a verbatim path (one that starts with `\\?\`).
pub open spec fn windows_sep(verbatim: bool, c: char) -> bool {
    c == '\\' || (!verbatim && c == '/')
}

/// The index of the first separator at or after `from`, else the length.
pub open spec fn next_sep(p: Seq<char>, from: int, verbatim: bool) -> int
    decreases p.len() - from,
{
    if from < 0 || from >= p.len() {
        p.len() as int
    } else if windows_sep(verbatim, p[from]) {
        from
    } else {
        next_sep(p, from + 1, verbatim)
    }
}

/// An ASCII letter.
pub open spec fn ascii_letter(c: char) -> bool {
    ('a' <= c && c <= 'z') || ('A' <= c && c <= 'Z')
}

/// The length of the prefix of a Windows path and whether it is verbatim, as
/// `Path` parses it: `\\?\UNC\server\share`, `\\?\C:`, `\\?\name` (verbatim,
/// where only the backslash separates), `\\.\device`, `\\server\share` (both
/// parts non-empty), or a drive `C:`; else no prefix. In the leading
/// `\\`, `?\`, `.\` and `UNC\` either separator counts, except that a
/// verbatim start is all backslashes.
pub open spec fn windows_prefix(p: Seq<char>) -> (int, bool) {
    let n = p.len() as int;
    if n >= 2 && windows_sep(false, p[0]) && windows_sep(false, p[1]) {
        if n >= 4 && p[0] == '\\' && p[1] == '\\' && p[2] == '?' && p[3] == '\\' {
            if n >= 8 && p[4] == 'U' && p[5] == 'N' && p[6] == 'C' && windows_sep(false, p[7]) {
                let server_end = next_sep(p, 8, true);
                if server_end < n && next_sep(p, server_end + 1, true) > server_end + 1 {
                    (next_sep(p, server_end + 1, true), true)
                } else {
                    (server_end, true)
                }
            } else if n >= 6 && ascii_letter(p[4]) && p[5] == ':' && (n == 6 || windows_sep(false, p[6])) {
                (6, true)
            } else {
                (next_sep(p, 4, true), true)
            }
        } else if n >= 4 && p[2] == '.' && windows_sep(false, p[3]) {
            (next_sep(p, 4, false), false)
        } else {
            let server_end = next_sep(p, 2, false);
            if server_end > 2 && server_end < n && next_sep(p, server_end + 1, false) > server_end + 1 {
                (next_sep(p, server_end + 1, false), false)
            } else {
                (0, false)
            }
        }
    } else if n >= 2 && ascii_letter(p[0]) && p[1] == ':' {
        (2, false)
    } else {
        (0, false)
    }
}

/// A character after a Windows path's prefix and root that adds no
/// component: a separator, or (outside verbatim paths) a `.` that makes up a
/// whole component.
pub open spec fn windows_tail_char(p: Seq<char>, b: int, i: int, verbatim: bool) -> bool {
    windows_sep(verbatim, p[i]) || (!verbatim && p[i] == '.' && (i == b || windows_sep(verbatim, p[i - 1])) && (
    i + 1 == p.len() || windows_sep(verbatim, p[i + 1])))
}

/// Whether a path has a parent, as `Path::parent` decides on Windows: a path
/// has none when it is empty, or when after its prefix and root (a leading
/// separator) only separators and `.` components follow and it has a prefix
/// or a root.
pub open spec fn windows_path_has_parent(p: Seq<char>) -> bool {
    let pre = windows_prefix(p);
    let root = pre.0 < p.len() && windows_sep(false, p[pre.0]);
    let b = if root {
        pre.0 + 1
    } else {
        pre.0
    };
    !((pre.0 > 0 || root || pre.0 == p.len()) && windows_no_component_from(p, b, pre.1))
}

/// No character from `b` on adds a component.
pub open spec fn windows_no_component_from(p: Seq<char>, b: int, verbatim: bool) -> bool {
    forall|i: int| b <= i < p.len() ==> #[trigger] windows_tail_char(p, b, i, verbatim)
}

fn windows_sep_exec(verbatim: bool, c: char) -> (b: bool)
    ensures
        b == windows_sep(verbatim, c),
{
    c == '\\' || (!verbatim && c == '/')
}

fn next_sep_exec(p: &str, n: usize, from: usize, verbatim: bool) -> (r: usize)
    requires
        n == p@.len(),
        from <= n,
    ensures
        r as int == next_sep(p@, from as int, verbatim),
        from <= r <= n,
{
    let mut i = from;
    while i < n
        invariant
            n == p@.len(),
            from <= i <= n,
            next_sep(p@, i as int, verbatim) == next_sep(p@, from as int, verbatim),
        decreases n - i,
    {
        if windows_sep_exec(verbatim, p.get_char(i)) {
            return i;
        }
        i = i + 1;
    }
    i
}

fn ascii_letter_exec(c: char) -> (b: bool)
    ensures
        b == ascii_letter(c),
{
    ('a' <= c && c <= 'z') || ('A' <= c && c <= 'Z')
}

fn windows_prefix_exec(p: &str, n: usize) -> (r: (usize, bool))
    requires
        n == p@.len(),
    ensures
        (r.0 as int, r.1) == windows_prefix(p@),
        r.0 <= n,
{
    if n >= 2 && windows_sep_exec(false, p.get_char(0)) && windows_sep_exec(false, p.get_char(1)) {
        if n >= 4 && p.get_char(0) == '\\' && p.get_char(1) == '\\' && p.get_char(2) == '?' && p.get_char(3) == '\\' {
            if n >= 8 && p.get_char(4) == 'U' && p.get_char(5) == 'N' && p.get_char(6) == 'C' && windows_sep_exec(
                false,
                p.get_char(7),
            ) {
                let server_end = next_sep_exec(p, n, 8, true);
                if server_end < n {
                    let share_end = next_sep_exec(p, n, server_end + 1, true);
                    if share_end > server_end + 1 {
                        return (share_end, true);
                    }
                }
                (server_end, true)
            } else if n >= 6 && ascii_letter_exec(p.get_char(4)) && p.get_char(5) == ':' && (n == 6
                || windows_sep_exec(false, p.get_char(6))) {
                (6, true)
            } else {
                (next_sep_exec(p, n, 4, true), true)
            }
        } else if n >= 4 && p.get_char(2) == '.' && windows_sep_exec(false, p.get_char(3)) {
            (next_sep_exec(p, n, 4, false), false)
        } else {
            let server_end = next_sep_exec(p, n, 2, false);
            if server_end > 2 && server_end < n {
                let share_end = next_sep_exec(p, n, server_end + 1, false);
                if share_end > server_end + 1 {
                    return (share_end, false);
                }
            }
            (0, false)
        }
    } else if n >= 2 && ascii_letter_exec(p.get_char(0)) && p.get_char(1) == ':' {
        (2, false)
    } else {
        (0, false)
    }
}

/// Whether a path has a parent directory by the rules of Windows paths.
pub fn windows_has_parent(path: &str) -> (b: bool)
    ensures
        b == windows_path_has_parent(path@),
{
    let n = path.unicode_len();
    let (len, verbatim) = windows_prefix_exec(path, n);
    let root = len < n && windows_sep_exec(false, path.get_char(len));
    let start = if root {
        len + 1
    } else {
        len
    };
    if !(len > 0 || root || len == n) {
        return true;
    }
    let mut i = start;
    while i < n
        invariant
            n == path@.len(),
            start <= i <= n,
            (len as int, verbatim) == windows_prefix(path@),
            root == (len < n && windows_sep(false, path@[len as int])),
            start == (if root {
                len + 1
            } else {
                len as int
            }),
            len > 0 || root || len == n,
            forall|k: int| start <= k < i ==> #[trigger] windows_tail_char(path@, start as int, k, verbatim),
        decreases n - i,
    {
        let c = path.get_char(i);
        let whole_dot = !verbatim && c == '.' && (i == start || windows_sep_exec(verbatim, path.get_char(i - 1))) && (i
            + 1 == n || windows_sep_exec(verbatim, path.get_char(i + 1)));
        if !windows_sep_exec(verbatim, c) && !whole_dot {
            assert(!windows_tail_char(path@, start as int, i as int, verbatim));
            return true;
        }
        i = i + 1;
    }
    false
}

/// Whether a path has a parent in the given style.
pub open spec fn style_has_parent(style: PathStyle, p: Seq<char>) -> bool {
    match style {
        PathStyle::Unix => path_has_parent(p),
        PathStyle::Windows => windows_path_has_parent(p),
    }
}

/// Whether a path has a parent directory in the given style.
pub fn has_parent_in(style: PathStyle, path: &str) -> (b: bool)
    ensures
        b == style_has_parent(style, path@),
{
    match style {
        PathStyle::Unix => has_parent(path),
        PathStyle::Windows => windows_has_parent(path),
    }
}

/// The error for saving to a path without a parent directory.
pub open spec fn no_parent_error(path: Seq<char>) -> Seq<char> {
    "Selection path "@ + path + " has no parent"@
}

/// A file to write: where, and what.
#[derive(Debug)]
pub struct SelectionWrite {
    pub path: String,
    pub json: String,
}

/// What saving a selection to `path` writes: the selection's JSON text. A path
/// without a parent directory is refused.
pub fn write_allowed_pops(style: PathStyle, path: &str, allowed: &CodeSet) -> (r: Result<SelectionWrite, String>)
    ensures
        style_has_parent(style, path@) ==> (r matches Ok(w) && w.path@ == path@ && w.json@ == selection_text(allowed@)),
        !style_has_parent(style, path@) ==> (r matches Err(e) && e@ == no_parent_error(path@)),
{
    if !has_parent_in(style, path) {
        let mut e = String::from_str("Selection path ");
        e.append(path);
        e.append(" has no parent");
        return Err(e);
    }
    let json = selection_json(allowed)?;
    Ok(SelectionWrite { path: String::from_str(path), json })
}

/// `base` joined with a non-empty `name` ends with `name`'s last character.
proof fn lemma_join_last(style: PathStyle, base: Seq<char>, name: Seq<char>)
    requires
        name.len() > 0,
    ensures
        style_join(style, base, name).len() > 0,
        style_join(style, base, name).last() == name.last(),
{
    let j = style_join(style, base, name);
    assert(j =~= j.subrange(0, j.len() - name.len()) + name);
}

/// On Unix, a path that ends in a character other than `/` and `.` has a
/// parent.
proof fn lemma_unix_plain_end_has_parent(p: Seq<char>)
    requires
        p.len() > 0,
        p.last() != '/' && p.last() != '.',
    ensures
        path_has_parent(p),
{
    if p[0] == '/' {
        assert(!root_tail_char(p, p.len() - 1));
    }
}

/// The selection file below a configuration base.
pub open spec fn selection_file(style: PathStyle, config_base: Seq<char>) -> Seq<char> {
    style_join(style, style_join(style, config_base, "cs2-server-chooser"@), "selection.json"@)
}

/// What saving the allowed POPs writes: the selection file in the
/// configuration directory below `config_base`. On Unix this always
/// succeeds; on Windows a base such as `\\` can make the file's path a bare
/// network prefix without a parent, which is refused.
pub fn save_allowed_pops(style: PathStyle, config_base: &str, allowed: &CodeSet) -> (r: Result<SelectionWrite, String>)
    ensures
        style_has_parent(style, selection_file(style, config_base@)) ==> (r matches Ok(w) && w.path@ == selection_file(
            style,
            config_base@,
        ) && w.json@ == selection_text(allowed@)),
        !style_has_parent(style, selection_file(style, config_base@)) ==> (r matches Err(e) && e@ == no_parent_error(
            selection_file(style, config_base@),
        )),
        style == PathStyle::Unix ==> style_has_parent(style, selection_file(style, config_base@)),
{
    let path = selection_path(style, config_base);
    proof {
        reveal_strlit("selection.json");
        let name = "selection.json"@;
        assert(name.last() == 'n');
        lemma_join_last(style, style_join(style, config_base@, "cs2-server-chooser"@), name);
        if style == PathStyle::Unix {
            lemma_unix_plain_end_has_parent(path@);
        }
    }
    write_allowed_pops(style, path.as_str(), allowed)
}

/// What exporting the allowed POPs to `path` writes; a path without a parent
/// directory is refused.
pub fn export_allowed_pops(style: PathStyle, path: &str, allowed: &CodeSet) -> (r: Result<SelectionWrite, String>)
    ensures
        style_has_parent(style, path@) ==> (r matches Ok(w) && w.path@ == path@ && w.json@ == selection_text(allowed@)),
        !style_has_parent(style, path@) ==> (r matches Err(e) && e@ == no_parent_error(path@)),
{
    write_allowed_pops(style, path, allowed)
}

} // verus!
