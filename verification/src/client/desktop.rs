//! What the windows of the client show and decide.

use vstd::prelude::*;
use vstd::slice::slice_subrange;
use vstd::utf8::encode_utf8;

use crate::client::tun::{line, CommandLine};
use crate::config::{config_text, without_comments};
use crate::dns::lists::{below, join_path};
use crate::json::{json_text, text_field};
use crate::server::subscription::{qr_picture, qr_svg};
use crate::text::{
    begins, chars_of, comes_before, cut, decimal, ends_str, ends_with, eq_nocase, lemma_split_nonempty, lemma_text_less_transitive,
    lemma_text_order, lines, lines_of, lossy_text, owned, pieces, put_chars, put_decimal, put_str, rcut, replace_all, replaced, rsplit_once,
    same_chars, same_nocase, split, split_once, starts_with, string_of, string_views, text_less, trim, trim_end_char,
    trim_start_char, trimmed, utf8_lossy, utf8_of, views, without_leading, without_trailing,
};

verus! {

// ── The server in the menu ───────────────────────────────────────────────────

/// The server as the menu shows it: half of the address is hidden.
pub open spec fn masked(server: Seq<char>) -> Seq<char> {
    let parts = split(server, ':');
    let port = if parts.len() > 1 {
        parts[1]
    } else {
        Seq::empty()
    };
    let octets = split(parts[0], '.');
    if octets.len() == 4 {
        octets[0] + "."@ + octets[1] + ".**.**:"@ + port
    } else if octets.len() > 2 {
        octets[0] + "...:"@ + port
    } else {
        server
    }
}

/// The server as the menu shows it; `0.0.0.0` where none is set.
pub fn masked_server(server: Option<&str>) -> (r: String)
    ensures
        r@ == match server {
            Some(s) => masked(s@),
            None => "0.0.0.0"@,
        },
{
    let server = match server {
        Some(s) => s,
        None => {
            return owned("0.0.0.0");
        },
    };
    let v = chars_of(server);
    let parts = pieces(&v, ':');
    proof {
        lemma_split_nonempty(server@, ':');
        assert(views(parts@).len() == parts@.len());
        assert(views(parts@)[0] == parts@[0]@);
    }
    let octets = pieces(&parts[0], '.');
    assert(views(octets@).len() == octets@.len());
    let mut out: Vec<char> = Vec::new();
    if octets.len() == 4 {
        assert(views(octets@)[0] == octets@[0]@);
        assert(views(octets@)[1] == octets@[1]@);
        put_chars(&mut out, &octets[0]);
        put_str(&mut out, ".");
        put_chars(&mut out, &octets[1]);
        put_str(&mut out, ".**.**:");
    } else if octets.len() > 2 {
        assert(views(octets@)[0] == octets@[0]@);
        put_chars(&mut out, &octets[0]);
        put_str(&mut out, "...:");
    } else {
        return owned(server);
    }
    if parts.len() > 1 {
        assert(views(parts@)[1] == parts@[1]@);
        put_chars(&mut out, &parts[1]);
    }
    assert(out@ =~= masked(server@));
    string_of(&out)
}

/// The server of a configuration file as the menu shows it; `0.0.0.0` where the file cannot be
/// read or names none.
pub fn menu_server(file: &str) -> (r: String)
    ensures
        r@ == match without_comments(file@) {
            Some(t) => match json_text(t, "server"@) {
                Some(s) => masked(s),
                None => "0.0.0.0"@,
            },
            None => "0.0.0.0"@,
        },
{
    let server = match config_text(file) {
        Some(t) => text_field(&t, "server"),
        None => None,
    };
    masked_server(
        match &server {
            Some(s) => Some(s.as_str()),
            None => None,
        },
    )
}

// ── Processes ────────────────────────────────────────────────────────────────

/// Where the list of processes comes from.
#[derive(Debug, Clone, Copy, PartialEq, Eq, Structural)]
pub enum Platform {
    Windows,
    Linux,
    Macos,
}

/// What stands behind the last slash.
pub open spec fn base_name(s: Seq<char>) -> Seq<char> {
    match rsplit_once(s, '/') {
        Some((_, b)) => b,
        None => s,
    }
}

/// What stands before the first quotation mark.
pub open spec fn before_quote(s: Seq<char>) -> Seq<char> {
    match split_once(s, '"') {
        Some((a, _)) => a,
        None => s,
    }
}

/// The process that a line of the list names: the first column of `tasklist` on
/// Windows, where only programs count, and the command that `ps` prints elsewhere.
pub open spec fn process_name(platform: Platform, line: Seq<char>) -> Option<Seq<char>> {
    let name = match platform {
        Platform::Windows => before_quote(trim_end_char(trim_start_char(line, '"'), '"')),
        Platform::Linux => trim(line),
        Platform::Macos => base_name(trim(line)),
    };
    if name.len() == 0 || (platform is Windows && !ends_with(name, ".exe"@)) {
        None
    } else {
        Some(name)
    }
}

fn name_in_line(platform: Platform, line: &[char]) -> (r: Option<Vec<char>>)
    ensures
        match r {
            Some(n) => process_name(platform, line@) == Some(n@),
            None => process_name(platform, line@) is None,
        },
{
    let mut name: Vec<char> = Vec::new();
    match platform {
        Platform::Windows => {
            let t = without_trailing(without_leading(line, '"'), '"');
            match cut(t, '"') {
                Some((a, _)) => put_chars(&mut name, a),
                None => put_chars(&mut name, t),
            }
            assert(name@ =~= before_quote(t@));
            if !ends_str(&name, ".exe") {
                return None;
            }
        },
        Platform::Linux => {
            put_chars(&mut name, trimmed(line));
            assert(name@ =~= trim(line@));
        },
        Platform::Macos => {
            let t = trimmed(line);
            match rcut(t, '/') {
                Some((_, b)) => put_chars(&mut name, b),
                None => put_chars(&mut name, t),
            }
            assert(name@ =~= base_name(t@));
        },
    }
    if name.len() == 0 {
        None
    } else {
        Some(name)
    }
}

/// Each text comes before the next.
pub open spec fn rising(s: Seq<Seq<char>>) -> bool {
    forall|i: int, j: int| 0 <= i < j < s.len() ==> text_less(#[trigger] s[i], #[trigger] s[j])
}

/// A line names a process.
pub open spec fn named(platform: Platform, l: Seq<Seq<char>>, name: Seq<char>) -> bool {
    exists|i: int| 0 <= i < l.len() && process_name(platform, #[trigger] l[i]) == Some(name)
}

/// Adds a name to names in order; one that is there stays alone.
fn add_name(names: &mut Vec<Vec<char>>, name: Vec<char>)
    requires
        rising(views(old(names)@)),
    ensures
        rising(views(final(names)@)),
        forall|n: Seq<char>| #[trigger]
            views(final(names)@).contains(n) <==> n == name@ || views(old(names)@).contains(n),
{
    let ghost before = views(names@);
    let mut at: usize = 0;
    while at < names.len() && comes_before(&names[at], &name)
        invariant
            at <= names@.len(),
            names@ == old(names)@,
            before == views(names@),
            forall|i: int| 0 <= i < at ==> text_less(#[trigger] before[i], name@),
        decreases names@.len() - at,
    {
        assert(before[at as int] == names@[at as int]@);
        at += 1;
    }
    if at < names.len() {
        assert(before[at as int] == names@[at as int]@);
        if same_chars(&names[at], &name) {
            assert(before.contains(name@));
            return;
        }
    }
    let ghost new = name@;
    names.insert(at, name);
    let ghost after = views(names@);
    assert(after =~= before.insert(at as int, new));
    proof {
        assert forall|i: int, j: int| 0 <= i < j < after.len() implies text_less(#[trigger] after[i], #[trigger] after[j]) by {
            if i == at {
                lemma_text_order(new, before[at as int]);
                if j > at + 1 {
                    assert(text_less(before[at as int], before[j - 1]));
                    lemma_text_less_transitive(new, before[at as int], before[j - 1]);
                }
            } else if j == at {
                assert(after[i] == before[i]);
            } else {
                let a = if i < at {
                    i
                } else {
                    i - 1
                };
                let b = if j < at {
                    j
                } else {
                    j - 1
                };
                assert(after[i] == before[a] && after[j] == before[b]);
            }
        }
        assert forall|n: Seq<char>| #[trigger] after.contains(n) <==> n == new || before.contains(n) by {
            if before.contains(n) {
                let a = choose|a: int| 0 <= a < before.len() && before[a] == n;
                assert(after[if a < at {
                    a
                } else {
                    a + 1
                }] == n);
            }
            if n == new {
                assert(after[at as int] == n);
            }
            if after.contains(n) && n != new {
                let b = choose|b: int| 0 <= b < after.len() && after[b] == n;
                assert(before[if b < at {
                    b
                } else {
                    b - 1
                }] == n);
            }
        }
    }
}

/// The names of the processes that run, in order and each once, in what the list of the
/// platform prints.
pub fn running_processes(platform: Platform, printed: &[u8]) -> (r: Vec<String>)
    ensures
        rising(string_views(r@)),
        forall|n: Seq<char>| #[trigger]
            string_views(r@).contains(n) <==> named(platform, lines(utf8_lossy(printed@)), n),
{
    let text = chars_of(&lossy_text(printed));
    let l = lines_of(&text);
    let ghost all = views(l@);
    let mut names: Vec<Vec<char>> = Vec::new();
    let mut i: usize = 0;
    while i < l.len()
        invariant
            i <= l@.len(),
            all == views(l@),
            rising(views(names@)),
            forall|n: Seq<char>| #[trigger]
                views(names@).contains(n) <==> named(platform, all.subrange(0, i as int), n),
        decreases l@.len() - i,
    {
        let ghost done = all.subrange(0, i as int);
        let ghost more = all.subrange(0, i + 1);
        let ghost before = views(names@);
        assert(all[i as int] == l@[i as int]@);
        assert forall|n: Seq<char>| named(platform, more, n) <==> named(platform, done, n) || process_name(
            platform,
            all[i as int],
        ) == Some(n) by {
            if named(platform, done, n) {
                let k = choose|k: int| 0 <= k < done.len() && process_name(platform, #[trigger] done[k]) == Some(n);
                assert(more[k] == done[k]);
            }
            assert(more[i as int] == all[i as int]);
            if named(platform, more, n) && process_name(platform, all[i as int]) != Some(n) {
                let k = choose|k: int| 0 <= k < more.len() && process_name(platform, #[trigger] more[k]) == Some(n);
                assert(done[k] == more[k]);
            }
        }
        if let Some(name) = name_in_line(platform, &l[i]) {
            add_name(&mut names, name);
        }
        assert forall|n: Seq<char>| #[trigger] views(names@).contains(n) <==> named(platform, more, n) by {
            assert(before.contains(n) <==> named(platform, done, n));
        }
        i += 1;
    }
    assert(all.subrange(0, i as int) =~= all);
    let mut out: Vec<String> = Vec::new();
    let mut k: usize = 0;
    while k < names.len()
        invariant
            k <= names@.len(),
            out@.len() == k,
            forall|j: int| 0 <= j < k ==> (#[trigger] out@[j])@ == names@[j]@,
        decreases names@.len() - k,
    {
        out.push(string_of(&names[k]));
        k += 1;
    }
    assert(string_views(out@) =~= views(names@));
    out
}

// ── The task that starts the helper ──────────────────────────────────────────

/// Text without the escapes of XML. The ampersand comes last: what it would make is no
/// escape.
pub open spec fn unescaped(s: Seq<char>) -> Seq<char> {
    let a = replace_all(s, "&quot;"@, "\""@);
    let b = replace_all(a, "&apos;"@, "'"@);
    let c = replace_all(b, "&lt;"@, "<"@);
    let d = replace_all(c, "&gt;"@, ">"@);
    replace_all(d, "&amp;"@, "&"@)
}

fn swapped(s: &[char], from: &str, to: &str) -> (r: Vec<char>)
    requires
        from@.len() > 0,
    ensures
        r@ == replace_all(s@, from@, to@),
{
    let f = chars_of(from);
    let t = chars_of(to);
    replaced(s, &f, &t)
}

/// Text without the escapes of XML.
pub fn xml_unescape(s: &str) -> (r: String)
    ensures
        r@ == unescaped(s@),
{
    proof {
        reveal_strlit("&quot;");
        reveal_strlit("&apos;");
        reveal_strlit("&lt;");
        reveal_strlit("&gt;");
        reveal_strlit("&amp;");
    }
    let v = chars_of(s);
    let a = swapped(&v, "&quot;", "\"");
    let b = swapped(&a, "&apos;", "'");
    let c = swapped(&b, "&lt;", "<");
    let d = swapped(&c, "&gt;", ">");
    string_of(&swapped(&d, "&amp;", "&"))
}

/// What stands behind the first occurrence of a text.
pub open spec fn behind(s: Seq<char>, p: Seq<char>) -> Option<Seq<char>>
    decreases s.len(),
{
    if starts_with(s, p) {
        Some(s.subrange(p.len() as int, s.len() as int))
    } else if s.len() == 0 {
        None
    } else {
        behind(s.drop_first(), p)
    }
}

/// What stands before the first occurrence of a text.
pub open spec fn ahead(s: Seq<char>, p: Seq<char>) -> Option<Seq<char>>
    decreases s.len(),
{
    if starts_with(s, p) {
        Some(Seq::empty())
    } else if s.len() == 0 {
        None
    } else {
        match ahead(s.drop_first(), p) {
            Some(a) => Some(seq![s[0]] + a),
            None => None,
        }
    }
}

fn find_text(s: &[char], p: &[char]) -> (r: Option<usize>)
    ensures
        match r {
            Some(i) => {
                &&& i + p@.len() <= s@.len()
                &&& behind(s@, p@) == Some(s@.subrange(i + p@.len(), s@.len() as int))
                &&& ahead(s@, p@) == Some(s@.subrange(0, i as int))
            },
            None => behind(s@, p@) is None && ahead(s@, p@) is None,
        },
{
    let n: usize = s.len();
    let mut i: usize = 0;
    assert(s@.subrange(0, n as int) =~= s@);
    loop
        invariant
            n == s@.len(),
            i <= n,
            behind(s@, p@) == behind(s@.subrange(i as int, n as int), p@),
            match ahead(s@.subrange(i as int, n as int), p@) {
                Some(a) => ahead(s@, p@) == Some(s@.subrange(0, i as int) + a),
                None => ahead(s@, p@) is None,
            },
        decreases n - i,
    {
        let ghost rest = s@.subrange(i as int, n as int);
        if begins(slice_subrange(s, i, n), p) {
            assert(rest.subrange(p@.len() as int, rest.len() as int) =~= s@.subrange(i + p@.len(), n as int));
            assert(s@.subrange(0, i as int) + Seq::<char>::empty() =~= s@.subrange(0, i as int));
            return Some(i);
        }
        if i == n {
            return None;
        }
        assert(rest.drop_first() =~= s@.subrange(i + 1, n as int));
        proof {
            if let Some(a) = ahead(s@.subrange(i + 1, n as int), p@) {
                assert(s@.subrange(0, i as int) + (seq![s@[i as int]] + a) =~= s@.subrange(0, i + 1) + a);
            }
        }
        i += 1;
    }
}

/// The text of UTF-16 units in which what is not UTF-16 is replaced.
pub uninterp spec fn utf16_lossy(units: Seq<u16>) -> Seq<char>;

/// `String::from_utf16_lossy`: the text depends on the units alone.
#[verifier::external_body]
fn text_of_units(units: &[u16]) -> (r: String)
    ensures
        r@ == utf16_lossy(units@),
{
    String::from_utf16_lossy(units)
}

/// The units of bytes, the low byte first; an odd byte at the end is left out.
pub open spec fn units(b: Seq<u8>) -> Seq<u16> {
    Seq::new(b.len() / 2, |i: int| (b[2 * i] + 256 * b[2 * i + 1]) as u16)
}

/// What a program printed: UTF-16 behind a byte order mark, UTF-8 otherwise.
pub open spec fn printed_text(b: Seq<u8>) -> Seq<char> {
    if b.len() >= 2 && b[0] == 0xff && b[1] == 0xfe {
        utf16_lossy(units(b.subrange(2, b.len() as int)))
    } else {
        utf8_lossy(b)
    }
}

fn text_printed(b: &[u8]) -> (r: String)
    ensures
        r@ == printed_text(b@),
{
    if b.len() >= 2 && b[0] == 0xff && b[1] == 0xfe {
        let mut u: Vec<u16> = Vec::new();
        let len: usize = b.len();
        let n: usize = (len - 2) / 2;
        let ghost rest = b@.subrange(2, b@.len() as int);
        while u.len() < n
            invariant
                len == b@.len(),
                n == (len - 2) / 2,
                len >= 2,
                rest == b@.subrange(2, b@.len() as int),
                u@.len() <= n,
                forall|k: int| 0 <= k < u@.len() ==> #[trigger] u@[k] == units(rest)[k],
            decreases n - u@.len(),
        {
            let i: usize = 2 + 2 * u.len();
            u.push(b[i] as u16 + 256 * b[i + 1] as u16);
        }
        assert(u@ =~= units(rest));
        text_of_units(&u)
    } else {
        lossy_text(b)
    }
}

/// The command of a task, in its description as XML.
pub open spec fn command_in(xml: Seq<char>) -> Option<Seq<char>> {
    match behind(xml, "<Command>"@) {
        Some(rest) => match ahead(rest, "</Command>"@) {
            Some(c) => Some(unescaped(trim(c))),
            None => None,
        },
        None => None,
    }
}

/// The command of the task that starts the helper, in what the query of it printed.
pub fn helper_task_command(printed: &[u8]) -> (r: Option<String>)
    ensures
        match r {
            Some(c) => command_in(printed_text(printed@)) == Some(c@),
            None => command_in(printed_text(printed@)) is None,
        },
{
    let text = chars_of(&text_printed(printed));
    let len: usize = text.len();
    let open = chars_of("<Command>");
    let start: usize = match find_text(&text, &open) {
        Some(i) => i + open.len(),
        None => {
            return None;
        },
    };
    let rest = slice_subrange(&text, start, len);
    let close = chars_of("</Command>");
    match find_text(rest, &close) {
        Some(end) => {
            let c = string_of(trimmed(slice_subrange(rest, 0, end)));
            Some(xml_unescape(&c))
        },
        None => None,
    }
}

/// The path of a program, without the white space and then the quotes around it.
pub open spec fn bare_path(p: Seq<char>) -> Seq<char> {
    trim_end_char(trim_start_char(trim(p), '"'), '"')
}

/// Whether two paths are those of one program, whatever the case of their letters.
pub open spec fn same_path(a: Seq<char>, b: Seq<char>) -> bool {
    eq_nocase(bare_path(a), bare_path(b))
}

/// The path of the program that a task starts.
pub fn task_program(registered: &str) -> (r: String)
    ensures
        r@ == bare_path(registered@),
{
    let c = chars_of(registered);
    string_of(without_trailing(without_leading(trimmed(&c), '"'), '"'))
}

/// Whether the task can be used: it is registered, starts the very program that is about
/// to be run, and that program is there. A task of that name that starts another file,
/// such as a copy in another directory, is none.
pub fn helper_task_matches(registered: Option<&str>, exe: &str, exists: bool) -> (r: bool)
    ensures
        r == (exists && (registered matches Some(p) && same_path(p@, exe@))),
{
    match registered {
        Some(p) => {
            let a = chars_of(&task_program(p));
            let b = chars_of(&task_program(exe));
            same_nocase(&a, &b) && exists
        },
        None => false,
    }
}

/// How the helper is started.
#[derive(Debug, Clone, Copy, PartialEq, Eq, Structural)]
pub enum Launch {
    /// Through the task, which asks nobody.
    Task,
    /// Directly, after asking; arguments that were written for the task are deleted
    /// first.
    Direct { delete_arguments: bool },
}

/// How the helper is started, given whether the arguments could be written, the task
/// can be used and it was accepted.
pub fn launch(wrote_arguments: bool, task_matches: bool, accepted: bool) -> (r: Launch)
    ensures
        r == if wrote_arguments && task_matches && accepted {
            Launch::Task
        } else {
            Launch::Direct { delete_arguments: wrote_arguments }
        },
{
    if wrote_arguments && task_matches && accepted {
        Launch::Task
    } else {
        Launch::Direct { delete_arguments: wrote_arguments }
    }
}

// ── Files ────────────────────────────────────────────────────────────────────

/// Where the settings are kept.
#[derive(Debug, Clone, Copy, PartialEq, Eq, Structural)]
pub enum ConfigPlace {
    /// Beside the program.
    Portable,
    /// With the user's own files; what lies beside the program is copied there first.
    User { copy_first: bool },
}

/// Where the settings are kept: beside the program wherever they can be written there,
/// with the user's own files otherwise, and never relative to the working directory.
pub fn config_place(
    program_known: bool,
    portable_exists: bool,
    portable_writable: bool,
    directory_writable: bool,
    user_exists: bool,
) -> (r: ConfigPlace)
    ensures
        r == if program_known && ((portable_exists && portable_writable) || (!portable_exists && directory_writable)) {
            ConfigPlace::Portable
        } else {
            ConfigPlace::User { copy_first: program_known && portable_exists && !user_exists }
        },
{
    if program_known && portable_exists {
        if portable_writable {
            ConfigPlace::Portable
        } else {
            ConfigPlace::User { copy_first: !user_exists }
        }
    } else if program_known && directory_writable {
        ConfigPlace::Portable
    } else {
        ConfigPlace::User { copy_first: false }
    }
}

/// The directory of builds below `dir`.
pub open spec fn build_of(dir: Seq<char>, profile: Seq<char>, name: Seq<char>) -> Seq<char> {
    below(below(dir, profile), name)
}

/// The places where the helper is looked for, in order: beside the program, in the
/// directories of builds above it, and in and above the working directory.
pub open spec fn helper_places(program_dir: Option<Seq<char>>, targets: Seq<Seq<char>>, cwd: Seq<char>, name: Seq<char>) -> Seq<
    Seq<char>,
> {
    let up = below(cwd, ".."@);
    let upper = below(up, ".."@);
    (match program_dir {
        Some(d) => seq![below(d, name)] + build_places(targets, name),
        None => Seq::empty(),
    }) + seq![
        below(cwd, name),
        build_of(below(cwd, "target"@), "debug"@, name),
        build_of(below(cwd, "target"@), "release"@, name),
        build_of(below(up, "target"@), "debug"@, name),
        build_of(below(up, "target"@), "release"@, name),
        build_of(below(upper, "target"@), "debug"@, name),
        build_of(below(upper, "target"@), "release"@, name),
    ]
}

pub open spec fn build_places(targets: Seq<Seq<char>>, name: Seq<char>) -> Seq<Seq<char>>
    decreases targets.len(),
{
    if targets.len() == 0 {
        Seq::empty()
    } else {
        build_places(targets.drop_last(), name) + seq![
            build_of(targets.last(), "debug"@, name),
            build_of(targets.last(), "release"@, name),
        ]
    }
}

fn push_builds(out: &mut Vec<String>, dir: &str, name: &str)
    ensures
        string_views(final(out)@) == string_views(old(out)@) + seq![
            build_of(dir@, "debug"@, name@),
            build_of(dir@, "release"@, name@),
        ],
{
    out.push(join_path(&join_path(dir, "debug"), name));
    out.push(join_path(&join_path(dir, "release"), name));
    assert(string_views(out@) =~= string_views(old(out)@) + seq![
        build_of(dir@, "debug"@, name@),
        build_of(dir@, "release"@, name@),
    ]);
}

/// The places where the helper is looked for, in order.
pub fn helper_candidates(program_dir: Option<&str>, targets: &Vec<String>, cwd: &str, name: &str) -> (r: Vec<String>)
    ensures
        string_views(r@) == helper_places(
            match program_dir {
                Some(d) => Some(d@),
                None => None,
            },
            string_views(targets@),
            cwd@,
            name@,
        ),
{
    let mut out: Vec<String> = Vec::new();
    let ghost all = string_views(targets@);
    if let Some(d) = program_dir {
        out.push(join_path(d, name));
        let mut i: usize = 0;
        assert(all.subrange(0, 0) =~= Seq::<Seq<char>>::empty());
        assert(string_views(out@) =~= seq![below(d@, name@)] + build_places(all.subrange(0, 0), name@));
        while i < targets.len()
            invariant
                i <= targets@.len(),
                all == string_views(targets@),
                string_views(out@) == seq![below(d@, name@)] + build_places(all.subrange(0, i as int), name@),
            decreases targets@.len() - i,
        {
            let ghost u = all.subrange(0, i + 1);
            assert(u.drop_last() =~= all.subrange(0, i as int));
            assert(u.last() == targets@[i as int]@);
            let ghost before = string_views(out@);
            push_builds(&mut out, &targets[i], name);
            assert(string_views(out@) =~= seq![below(d@, name@)] + build_places(u, name@));
            i += 1;
        }
        assert(all.subrange(0, i as int) =~= all);
    } else {
        assert(string_views(out@) =~= Seq::<Seq<char>>::empty());
    }
    let ghost front = string_views(out@);
    let up = join_path(cwd, "..");
    let upper = join_path(&up, "..");
    out.push(join_path(cwd, name));
    assert(string_views(out@) =~= front + seq![below(cwd@, name@)]);
    push_builds(&mut out, &join_path(cwd, "target"), name);
    push_builds(&mut out, &join_path(&up, "target"), name);
    push_builds(&mut out, &join_path(&upper, "target"), name);
    assert(string_views(out@) =~= helper_places(
        match program_dir {
            Some(d) => Some(d@),
            None => None,
        },
        all,
        cwd@,
        name@,
    ));
    out
}

/// The file that a Linux desktop starts programs by, below the user's settings.
pub fn autostart_file(config_home: Option<&str>, home: Option<&str>) -> (r: Option<String>)
    ensures
        match autostart_base(
            match config_home {
                Some(c) => Some(c@),
                None => None,
            },
            match home {
                Some(h) => Some(h@),
                None => None,
            },
        ) {
            Some(b) => r matches Some(p) && p@ == below(below(b, "autostart"@), "ostp.desktop"@),
            None => r is None,
        },
{
    if let Some(c) = config_home {
        if chars_of(c).len() > 0 {
            return Some(join_path(&join_path(c, "autostart"), "ostp.desktop"));
        }
    }
    match home {
        Some(h) => Some(join_path(&join_path(&join_path(h, ".config"), "autostart"), "ostp.desktop")),
        None => None,
    }
}

/// The directory of the user's settings.
pub open spec fn autostart_base(config_home: Option<Seq<char>>, home: Option<Seq<char>>) -> Option<Seq<char>> {
    match config_home {
        Some(c) => if c.len() > 0 {
            Some(c)
        } else {
            match home {
                Some(h) => Some(below(h, ".config"@)),
                None => None,
            }
        },
        None => match home {
            Some(h) => Some(below(h, ".config"@)),
            None => None,
        },
    }
}

/// What that file holds.
pub fn autostart_entry(program: &str) -> (r: String)
    ensures
        r@ == "[Desktop Entry]\nType=Application\nName=OSTP\nExec=\""@ + program@
            + "\"\nTerminal=false\nX-GNOME-Autostart-enabled=true\n"@,
{
    let mut v: Vec<char> = Vec::new();
    put_str(&mut v, "[Desktop Entry]\nType=Application\nName=OSTP\nExec=\"");
    put_str(&mut v, program);
    put_str(&mut v, "\"\nTerminal=false\nX-GNOME-Autostart-enabled=true\n");
    string_of(&v)
}

/// The command that has Windows start the program at login, or no longer does; the
/// program is written in quotes.
pub fn autostart_registry(program: Option<&str>) -> (r: CommandLine)
    ensures
        r@ == match program {
            Some(p) => seq![
                "reg"@,
                "add"@,
                "HKCU\\Software\\Microsoft\\Windows\\CurrentVersion\\Run"@,
                "/v"@,
                "OSTP"@,
                "/t"@,
                "REG_SZ"@,
                "/d"@,
                "\""@ + p@ + "\""@,
                "/f"@,
            ],
            None => seq![
                "reg"@,
                "delete"@,
                "HKCU\\Software\\Microsoft\\Windows\\CurrentVersion\\Run"@,
                "/v"@,
                "OSTP"@,
                "/f"@,
            ],
        },
{
    let run = "HKCU\\Software\\Microsoft\\Windows\\CurrentVersion\\Run";
    match program {
        Some(p) => {
            let mut v: Vec<char> = Vec::new();
            put_str(&mut v, "\"");
            put_str(&mut v, p);
            put_str(&mut v, "\"");
            let quoted = string_of(&v);
            let words = ["reg", "add", run, "/v", "OSTP", "/t", "REG_SZ", "/d", quoted.as_str(), "/f"];
            let r = line(&words);
            assert(quoted@ =~= "\""@ + p@ + "\""@);
            assert(r@ =~= seq![
                "reg"@,
                "add"@,
                run@,
                "/v"@,
                "OSTP"@,
                "/t"@,
                "REG_SZ"@,
                "/d"@,
                "\""@ + p@ + "\""@,
                "/f"@,
            ]);
            r
        },
        None => {
            let words = ["reg", "delete", run, "/v", "OSTP", "/f"];
            let r = line(&words);
            assert(r@ =~= seq!["reg"@, "delete"@, run@, "/v"@, "OSTP"@, "/f"@]);
            r
        },
    }
}

/// The command that asks Windows whether it starts the program at login.
pub fn autostart_query() -> (r: CommandLine)
    ensures
        r@ == seq![
            "reg"@,
            "query"@,
            "HKCU\\Software\\Microsoft\\Windows\\CurrentVersion\\Run"@,
            "/v"@,
            "OSTP"@,
        ],
{
    let words = ["reg", "query", "HKCU\\Software\\Microsoft\\Windows\\CurrentVersion\\Run", "/v", "OSTP"];
    let r = line(&words);
    assert(r@ =~= seq![
        "reg"@,
        "query"@,
        "HKCU\\Software\\Microsoft\\Windows\\CurrentVersion\\Run"@,
        "/v"@,
        "OSTP"@,
    ]);
    r
}

/// What came of asking Windows to run the helper with more rights.
#[derive(Debug, Clone, Copy, PartialEq, Eq, Structural)]
pub enum Elevation {
    Granted,
    /// The user said no.
    Denied,
    /// It was not even asked.
    Failed,
}

/// What the number means that `ShellExecuteW` returns: up to 32 it failed, and 1223 is
/// the answer of a user who declined.
pub fn elevation(ret: i64) -> (r: Elevation)
    ensures
        r == if ret == 1223 {
            Elevation::Denied
        } else if ret <= 32 {
            Elevation::Failed
        } else {
            Elevation::Granted
        },
{
    if ret == 1223 {
        Elevation::Denied
    } else if ret <= 32 {
        Elevation::Failed
    } else {
        Elevation::Granted
    }
}

/// The command that runs the helper with more rights on Linux. The token goes through a
/// file, and not through the list of processes.
pub fn elevated_helper(helper: &str, port: u16, token_file: &str) -> (r: CommandLine)
    ensures
        r@ == seq!["pkexec"@, helper@, "--port"@, decimal(port as nat), "--token-file"@, token_file@],
{
    let mut v: Vec<char> = Vec::new();
    put_decimal(&mut v, port as u64);
    let number = string_of(&v);
    let words = ["pkexec", helper, "--port", number.as_str(), "--token-file", token_file];
    let r = line(&words);
    assert(r@ =~= seq!["pkexec"@, helper@, "--port"@, decimal(port as nat), "--token-file"@, token_file@]);
    r
}

/// A link as a QR code, made on this machine; nothing where it is too long for one.
pub fn generate_qr(text: &str) -> (r: Option<String>)
    ensures
        match r {
            Some(p) => qr_svg(encode_utf8(text@), 220, "#000000"@, "#ffffff"@) == Some(p@),
            None => qr_svg(encode_utf8(text@), 220, "#000000"@, "#ffffff"@) is None,
        },
{
    qr_picture(&utf8_of(text), 220, "#000000", "#ffffff")
}

/// Servers that differ only in the last two numbers of their address look alike once they are
/// masked, and what is shown is the first two numbers and the port.
pub proof fn addresses_are_masked(server: Seq<char>, host: Seq<char>, port: Seq<char>, o: Seq<Seq<char>>)
    requires
        split(server, ':') == seq![host, port],
        split(host, '.') == o,
    ensures
        o.len() == 4 ==> masked(server) == o[0] + "."@ + o[1] + ".**.**:"@ + port,
        o.len() == 3 || o.len() > 4 ==> masked(server) == o[0] + "...:"@ + port,
        o.len() <= 2 ==> masked(server) == server,
{
    assert(seq![host, port][1] == port && seq![host, port][0] == host);
}

/// The name of a process is the line without what surrounds it: on Windows only where it is that
/// of a program, on Macos without the directories before it.
pub proof fn processes_have_their_names(dir: Seq<char>, name: Seq<char>)
    requires
        name.len() > 0,
        !crate::text::has_char(name, '/') && !crate::text::has_char(name, '"'),
        trim(name) == name && trim(dir + "/"@ + name) == dir + "/"@ + name,
    ensures
        process_name(Platform::Linux, name) == Some(name),
        process_name(Platform::Macos, name) == Some(name),
        process_name(Platform::Macos, dir + "/"@ + name) == Some(name),
        ends_with(name, ".exe"@) ==> process_name(Platform::Windows, name) == Some(name),
        !ends_with(name, ".exe"@) ==> process_name(Platform::Windows, name) is None,
        forall|p: Platform| trim(Seq::<char>::empty()) == Seq::<char>::empty() ==> #[trigger] process_name(p, Seq::empty()) is None,
{
    reveal_strlit("/");
    crate::text::cuts_are_at_the_character(name, '/');
    crate::text::cuts_are_at_the_character(name, '"');
    assert(name[0] != '"' && name.last() != '"') by {
        if name[0] == '"' {
            assert(crate::text::has_char(name, '"'));
        }
        if name.last() == '"' {
            assert(name[name.len() - 1] == '"');
        }
    }
    assert(trim_start_char(name, '"') == name);
    assert(trim_end_char(name, '"') == name);
    let t = dir + "/"@ + name;
    let i = dir.len() as int;
    assert(t[i] == '/');
    assert forall|k: int| i < k < t.len() implies t[k] != '/' by {
        assert(t[k] == name[k - i - 1]);
    }
    crate::text::lemma_rfind_char_is(t, '/', i);
    assert(t.subrange(i + 1, t.len() as int) =~= name);
    let e = Seq::<char>::empty();
    assert(trim_start_char(e, '"') == e && trim_end_char(e, '"') == e);
    crate::text::cuts_are_at_the_character(e, '"');
    crate::text::cuts_are_at_the_character(e, '/');
    if let Some((a, b)) = rsplit_once(e, '/') {
        assert(e.len() == a.len() + 1 + b.len());
    }
    if let Some((a, b)) = split_once(e, '"') {
        assert(e.len() == a.len() + 1 + b.len());
    }
    assert forall|p: Platform| trim(e) == e implies #[trigger] process_name(p, Seq::empty()) is None by {
        assert(base_name(e).len() == 0);
        assert(before_quote(e).len() == 0);
    }
}

/// What stands behind the first occurrence of a text, and what stands ahead of it.
pub proof fn texts_are_found_where_they_first_are(s: Seq<char>, p: Seq<char>, k: int)
    requires
        0 <= k <= s.len(),
        starts_with(s.skip(k), p),
        forall|j: int| 0 <= j < k ==> !starts_with(#[trigger] s.skip(j), p),
    ensures
        behind(s, p) == Some(s.skip(k + p.len())),
        ahead(s, p) == Some(s.take(k)),
    decreases k,
{
    assert(s.skip(0) =~= s);
    if k > 0 {
        assert(!starts_with(s.skip(0), p));
        let d = s.drop_first();
        assert(d.skip(k - 1) =~= s.skip(k));
        assert forall|j: int| 0 <= j < k - 1 implies !starts_with(#[trigger] d.skip(j), p) by {
            assert(d.skip(j) =~= s.skip(j + 1));
        }
        texts_are_found_where_they_first_are(d, p, k - 1);
        assert(d.skip(k - 1 + p.len()) =~= s.skip(k + p.len()));
        assert(seq![s[0]] + d.take(k - 1) =~= s.take(k));
    } else {
        assert(s.subrange(p.len() as int, s.len() as int) =~= s.skip(p.len() as int));
        assert(s.take(0) =~= Seq::<char>::empty());
    }
}

/// Text of two bytes a character is told by its mark, the lower byte first; any other is UTF-8.
pub proof fn printed_text_is_told_by_its_mark(b: Seq<u8>, i: int)
    ensures
        b.len() >= 2 && b[0] == 0xff && b[1] == 0xfe ==> printed_text(b) == utf16_lossy(units(b.skip(2))),
        b.len() < 2 || b[0] != 0xff || b[1] != 0xfe ==> printed_text(b) == utf8_lossy(b),
        0 <= i < b.len() / 2 ==> units(b)[i] == b[2 * i] + 256 * b[2 * i + 1],
        units(b).len() == b.len() / 2,
{
    if b.len() >= 2 {
        assert(b.subrange(2, b.len() as int) =~= b.skip(2));
    }
}

/// The same file is meant whatever the case of the path and whether it is in quotes.
pub proof fn quoted_paths_mean_the_same(p: Seq<char>, q: Seq<char>)
    requires
        p.len() > 0,
        trim(p) == p,
        p[0] != '"',
        p.last() != '"',
    ensures
        same_path(p, p),
        same_path(seq!['"'] + p + seq!['"'], p),
        same_path(p, q) == same_path(q, p),
        same_path(p, q) == eq_nocase(p, bare_path(q)),
{
    let t = seq!['"'] + p + seq!['"'];
    assert(!crate::text::is_white('"'));
    assert(t[0] == '"' && t.last() == '"');
    assert(crate::text::trim_start(t) == t);
    assert(crate::text::trim_end(t) == t);
    let u = t.drop_first();
    assert(u[0] == p[0]);
    assert(trim_start_char(t, '"') == trim_start_char(u, '"'));
    assert(trim_start_char(u, '"') == u);
    assert(u.drop_last() =~= p);
    assert(trim_end_char(u, '"') == trim_end_char(p, '"'));
    assert(trim_end_char(p, '"') == p);
    assert(trim_start_char(p, '"') == p);
}

/// Programs that start with the session are named in the user's own settings: in the directory
/// that is set for them, or else in the usual one below the home.
pub proof fn settings_have_their_directory(config: Seq<char>, home: Option<Seq<char>>, h: Seq<char>)
    ensures
        config.len() > 0 ==> autostart_base(Some(config), home) == Some(config),
        autostart_base(None, Some(h)) == Some(below(h, ".config"@)),
        autostart_base(Some(Seq::empty()), Some(h)) == Some(below(h, ".config"@)),
        autostart_base(None, None) is None,
{
}

/// The helper is looked for beside the program first, then where it was built, and then from the
/// working directory on.
pub proof fn helpers_are_looked_for_beside_the_program(d: Seq<char>, targets: Seq<Seq<char>>, cwd: Seq<char>, name: Seq<char>)
    ensures
        helper_places(Some(d), targets, cwd, name)[0] == below(d, name),
        helper_places(None, targets, cwd, name)[0] == below(cwd, name),
        helper_places(Some(d), targets, cwd, name).len() == 8 + 2 * targets.len(),
        helper_places(None, targets, cwd, name).len() == 7,
        forall|i: int|
            0 <= i < targets.len() ==> helper_places(Some(d), targets, cwd, name)[1 + 2 * i] == below(
                below(#[trigger] targets[i], "debug"@),
                name,
            ) && helper_places(Some(d), targets, cwd, name)[2 + 2 * i] == below(below(targets[i], "release"@), name),
{
    lemma_build_places(targets, name);
    let all = helper_places(Some(d), targets, cwd, name);
    let b = build_places(targets, name);
    assert forall|i: int| 0 <= i < targets.len() implies all[1 + 2 * i] == below(below(#[trigger] targets[i], "debug"@), name)
        && all[2 + 2 * i] == below(below(targets[i], "release"@), name) by {
        assert(all[1 + 2 * i] == b[2 * i]);
        assert(all[2 + 2 * i] == b[2 * i + 1]);
        assert(b[2 * i] == build_of(targets[i], "debug"@, name));
    }
}

proof fn lemma_build_places(targets: Seq<Seq<char>>, name: Seq<char>)
    ensures
        build_places(targets, name).len() == 2 * targets.len(),
        forall|i: int|
            0 <= i < targets.len() ==> build_places(targets, name)[2 * i] == build_of(#[trigger] targets[i], "debug"@, name)
                && build_places(targets, name)[2 * i + 1] == build_of(targets[i], "release"@, name),
    decreases targets.len(),
{
    if targets.len() > 0 {
        let d = targets.drop_last();
        lemma_build_places(d, name);
        let r = build_places(d, name);
        let all = build_places(targets, name);
        assert forall|i: int| 0 <= i < targets.len() implies all[2 * i] == build_of(#[trigger] targets[i], "debug"@, name)
            && all[2 * i + 1] == build_of(targets[i], "release"@, name) by {
            if i < d.len() {
                assert(d[i] == targets[i]);
                assert(r[2 * i] == build_of(d[i], "debug"@, name));
                assert(all[2 * i] == r[2 * i] && all[2 * i + 1] == r[2 * i + 1]);
            }
        }
    }
}

proof fn lemma_nothing_to_replace(s: Seq<char>, from: Seq<char>, to: Seq<char>)
    requires
        from.len() > 0,
        !crate::text::has_char(s, from[0]),
    ensures
        replace_all(s, from, to) == s,
    decreases s.len(),
{
    if s.len() >= from.len() {
        assert(s[0] != from[0]);
        if starts_with(s, from) {
            assert(s.subrange(0, from.len() as int)[0] == from[0]);
        }
        let d = s.drop_first();
        assert forall|k: int| 0 <= k < d.len() implies d[k] != from[0] by {
            assert(s[k + 1] == d[k]);
        }
        lemma_nothing_to_replace(d, from, to);
        assert(seq![s[0]] + d =~= s);
    }
}

/// The command of a task is the text between its tags; one without entities is read as it is.
pub proof fn commands_are_read_between_their_tags(xml: Seq<char>, c: Seq<char>, rest: Seq<char>)
    requires
        behind(xml, "<Command>"@) == Some(rest),
        ahead(rest, "</Command>"@) == Some(c),
        trim(c) == c,
        !crate::text::has_char(c, '&'),
    ensures
        command_in(xml) == Some(c),
{
    reveal_strlit("&quot;");
    reveal_strlit("&apos;");
    reveal_strlit("&lt;");
    reveal_strlit("&gt;");
    reveal_strlit("&amp;");
    lemma_nothing_to_replace(c, "&quot;"@, "\""@);
    lemma_nothing_to_replace(c, "&apos;"@, "'"@);
    lemma_nothing_to_replace(c, "&lt;"@, "<"@);
    lemma_nothing_to_replace(c, "&gt;"@, ">"@);
    lemma_nothing_to_replace(c, "&amp;"@, "&"@);
}

} // verus!
