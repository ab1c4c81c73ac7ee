//! The line parser: strips terminal colour codes, infers each entry's
//! depth from fixed-width indentation units, requires a tree-connector
//! glyph, filters hidden entries together with their whole subtrees, and
//! rebuilds each entry's `/`-joined path from an ancestor stack.

use vstd::prelude::*;
use vstd::string::StrSliceExecFns;
use vstd::string::StringExecFns;
use crate::text::contains_char;
use crate::text::contains_sub;
use crate::text::dec_spec;
use crate::text::dec_string;
use crate::text::has_sub;
use crate::text::is_ws;
use crate::text::lines_of;
use crate::text::split_lines;
use crate::text::str_eq;
use crate::text::trim_spec;
use crate::text::trim_str;

verus! {

/// One parsed entry: display name, 1-based depth, whether it is a file,
/// and the `/`-joined path from the root down to it.
#[derive(Debug, Clone)]
pub struct TreeItem {
    pub name: String,
    pub level: usize,
    pub is_file: bool,
    pub full_path: String,
}

/// The mathematical image of a `TreeItem`.
pub ghost struct ItemModel {
    pub name: Seq<char>,
    pub level: int,
    pub is_file: bool,
    pub full_path: Seq<char>,
}

impl View for TreeItem {
    type V = ItemModel;

    open spec fn view(&self) -> ItemModel {
        ItemModel {
            name: self.name@,
            level: self.level as int,
            is_file: self.is_file,
            full_path: self.full_path@,
        }
    }
}

/// A character that terminates an ANSI escape sequence: an ASCII letter
/// or a tilde.
pub open spec fn is_ansi_end(c: char) -> bool {
    (97 <= c as u32 && c as u32 <= 122) || (65 <= c as u32 && c as u32 <= 90) || c == '~'
}

/// The text from position `i` on with ANSI escape sequences removed.
/// While `in_esc` is true, characters up to and including the first
/// terminator still belong to an open escape sequence and are dropped.
pub open spec fn strip_from(s: Seq<char>, i: int, in_esc: bool) -> Seq<char>
    decreases s.len() - i,
{
    if i < 0 || i >= s.len() {
        Seq::empty()
    } else if in_esc {
        if is_ansi_end(s[i]) {
            strip_from(s, i + 1, false)
        } else {
            strip_from(s, i + 1, true)
        }
    } else if s[i] == '\u{1b}' {
        if i + 1 < s.len() && s[i + 1] == '[' {
            strip_from(s, i + 2, true)
        } else {
            strip_from(s, i + 1, false)
        }
    } else {
        seq![s[i]] + strip_from(s, i + 1, false)
    }
}

/// The whole text with ANSI escape sequences removed.
pub open spec fn strip_ansi(s: Seq<char>) -> Seq<char> {
    strip_from(s, 0, false)
}

fn is_ansi_end_char(c: char) -> (r: bool)
    ensures
        r == is_ansi_end(c),
{
    let u = c as u32;
    (97 <= u && u <= 122) || (65 <= u && u <= 90) || c == '~'
}

/// The parser for glyph-drawn tree listings.  It carries the set of
/// extensionless names that still denote files, so the set can be
/// extended without touching the classification logic.
pub struct TreeParser {
    pub known_files: Vec<String>,
}

/// The default set of well-known extensionless file names.
pub open spec fn default_known_files() -> Seq<Seq<char>> {
    seq!["Cargo.lock"@, "Dockerfile"@, "Makefile"@, "LICENSE"@, "README"@, "CHANGELOG"@]
}

impl TreeParser {
    /// Create a parser with the default set of well-known plain file
    /// names.
    pub fn new() -> (r: Self)
        ensures
            r.known_files@.map_values(|s: String| s@) == default_known_files(),
    {
        let mut known: Vec<String> = Vec::new();
        known.push(String::from_str("Cargo.lock"));
        known.push(String::from_str("Dockerfile"));
        known.push(String::from_str("Makefile"));
        known.push(String::from_str("LICENSE"));
        known.push(String::from_str("README"));
        known.push(String::from_str("CHANGELOG"));
        proof {
            assert(known@.map_values(|s: String| s@) =~= default_known_files());
        }
        TreeParser { known_files: known }
    }

    /// Remove ANSI escape sequences: an escape character followed by `[`
    /// swallows everything up to and including the first ASCII letter or
    /// tilde; a bare escape character is dropped on its own.
    pub fn remove_ansi_codes(&self, text: &str) -> (r: String)
        ensures
            r@ == strip_ansi(text@),
    {
        let n = text.unicode_len();
        let mut out = String::new();
        let mut in_esc = false;
        let mut i: usize = 0;
        while i < n
            invariant
                i <= n,
                n == text@.len(),
                strip_ansi(text@) == out@ + strip_from(text@, i as int, in_esc),
            decreases n - i,
        {
            let c = text.get_char(i);
            if in_esc {
                if is_ansi_end_char(c) {
                    in_esc = false;
                }
                i += 1;
            } else if c == '\u{1b}' {
                if i + 1 < n && text.get_char(i + 1) == '[' {
                    in_esc = true;
                    i += 2;
                } else {
                    i += 1;
                }
            } else {
                out.push(c);
                proof {
                    assert(out@ + strip_from(text@, i + 1, false) =~= strip_ansi(text@));
                }
                i += 1;
            }
        }
        proof {
            assert(out@ + strip_from(text@, n as int, in_esc) =~= out@);
        }
        out
    }
}

/// No escape character survives stripping.
proof fn lemma_strip_no_esc(s: Seq<char>, i: int, in_esc: bool)
    ensures
        forall|k: int|
            0 <= k < strip_from(s, i, in_esc).len() ==> strip_from(s, i, in_esc)[k] != '\u{1b}',
    decreases s.len() - i,
{
    if i < 0 || i >= s.len() {
    } else if in_esc {
        if is_ansi_end(s[i]) {
            lemma_strip_no_esc(s, i + 1, false);
            assert(strip_from(s, i, in_esc) == strip_from(s, i + 1, false));
        } else {
            lemma_strip_no_esc(s, i + 1, true);
            assert(strip_from(s, i, in_esc) == strip_from(s, i + 1, true));
        }
    } else if s[i] == '\u{1b}' {
        if i + 1 < s.len() && s[i + 1] == '[' {
            lemma_strip_no_esc(s, i + 2, true);
            assert(strip_from(s, i, in_esc) == strip_from(s, i + 2, true));
        } else {
            lemma_strip_no_esc(s, i + 1, false);
            assert(strip_from(s, i, in_esc) == strip_from(s, i + 1, false));
        }
    } else {
        lemma_strip_no_esc(s, i + 1, false);
        assert forall|k: int|
            0 <= k < strip_from(s, i, in_esc).len() implies strip_from(s, i, in_esc)[k]
            != '\u{1b}' by {
            if k > 0 {
                assert(strip_from(s, i, in_esc)[k] == strip_from(s, i + 1, false)[k - 1]);
            }
        }
    }
}

/// Stripping text that holds no escape character changes nothing.
proof fn lemma_strip_id(s: Seq<char>, i: int)
    requires
        0 <= i <= s.len(),
        forall|k: int| 0 <= k < s.len() ==> s[k] != '\u{1b}',
    ensures
        strip_from(s, i, false) == s.subrange(i, s.len() as int),
    decreases s.len() - i,
{
    if i >= s.len() {
        assert(s.subrange(i, s.len() as int) =~= Seq::empty());
    } else {
        lemma_strip_id(s, i + 1);
        assert(strip_from(s, i, false) =~= s.subrange(i, s.len() as int));
    }
}

/// Stripping ANSI escape sequences is idempotent: running the stripper a
/// second time over already-stripped text is a no-op.
pub proof fn lemma_strip_ansi_idempotent(s: Seq<char>)
    ensures
        strip_ansi(strip_ansi(s)) == strip_ansi(s),
{
    let t = strip_ansi(s);
    lemma_strip_no_esc(s, 0, false);
    lemma_strip_id(t, 0);
    assert(t.subrange(0, t.len() as int) =~= t);
}

/// One indentation unit at position `p`: a continuation bar followed by
/// three whitespace characters, or four plain spaces.
pub open spec fn is_unit(s: Seq<char>, p: int) -> bool {
    &&& 0 <= p
    &&& p + 3 < s.len()
    &&& ((s[p] == '\u{2502}' && is_ws(s[p + 1]) && is_ws(s[p + 2]) && is_ws(s[p + 3])) || (s[p]
        == ' ' && s[p + 1] == ' ' && s[p + 2] == ' ' && s[p + 3] == ' '))
}

/// How many complete indentation units begin at position `p`.
pub open spec fn count_units(s: Seq<char>, p: int) -> int
    decreases s.len() - p,
{
    if is_unit(s, p) {
        1 + count_units(s, p + 4)
    } else {
        0
    }
}

pub proof fn lemma_count_units_nonneg(s: Seq<char>, p: int)
    ensures
        count_units(s, p) >= 0,
    decreases s.len() - p,
{
    if is_unit(s, p) {
        lemma_count_units_nonneg(s, p + 4);
    }
}

/// The tree connector at position `p`: an interior-child or last-child
/// glyph followed by two dashes.
pub open spec fn has_connector(s: Seq<char>, p: int) -> bool {
    &&& 0 <= p
    &&& p + 2 < s.len()
    &&& (s[p] == '\u{251c}' || s[p] == '\u{2514}')
    &&& s[p + 1] == '\u{2500}'
    &&& s[p + 2] == '\u{2500}'
}

/// A line that only marks the listing's root: a bare dot, or a bare name
/// ending in a path separator with no connector glyph anywhere in it.
pub open spec fn is_root_marker(line: Seq<char>) -> bool {
    let t = trim_spec(line);
    ||| t == "."@
    ||| (t.len() > 0 && t[t.len() - 1] == '/' && !t.contains('\u{251c}') && !t.contains(
        '\u{2514}',
    ))
}

/// What the line parser yields for one line: the entry's depth and its
/// trimmed display name, or nothing for a line that is no entry.
pub open spec fn parse_line_spec(line: Seq<char>) -> Option<(int, Seq<char>)> {
    if is_root_marker(line) {
        None
    } else {
        let s = strip_ansi(line);
        let u = count_units(s, 0);
        let p = 4 * u;
        if !has_connector(s, p) {
            None
        } else {
            let q0 = p + 3;
            let q = if q0 < s.len() && s[q0] == ' ' {
                q0 + 1
            } else {
                q0
            };
            if q >= s.len() {
                None
            } else {
                let name = trim_spec(s.subrange(q, s.len() as int));
                if name.len() == 0 {
                    None
                } else {
                    Some((u + 1, name))
                }
            }
        }
    }
}

impl TreeParser {
    /// Parse a single line into its depth and display name.  A root
    /// marker, a line without the connector glyph, or a line with an
    /// empty name yields nothing.
    pub fn parse_line(&self, line: &str) -> (r: Option<(usize, String)>)
        ensures
            match r {
                Option::None => parse_line_spec(line@) is None,
                Option::Some(p) => {
                    &&& parse_line_spec(line@) == Some((p.0 as int, p.1@))
                    &&& p.0 >= 1
                },
            },
    {
        let trimmed = trim_str(line);
        if str_eq(trimmed.as_str(), ".") {
            return None;
        }
        let tn = trimmed.as_str().unicode_len();
        if tn > 0 && trimmed.as_str().get_char(tn - 1) == '/' && !contains_char(
            trimmed.as_str(),
            '\u{251c}',
        ) && !contains_char(trimmed.as_str(), '\u{2514}') {
            return None;
        }
        proof {
            assert(!is_root_marker(line@));
        }
        let clean = self.remove_ansi_codes(line);
        let cs = clean.as_str();
        let n = cs.unicode_len();
        let mut pos: usize = 0;
        let mut level: usize = 0;
        let mut stop = false;
        while !stop && n - pos > 3
            invariant
                pos <= n,
                n == strip_ansi(line@).len(),
                cs@ == strip_ansi(line@),
                pos == 4 * level,
                count_units(cs@, 0) == level + count_units(cs@, pos as int),
                stop ==> !is_unit(cs@, pos as int),
            decreases n - pos, (if stop { 0int } else { 1int }),
        {
            let c0 = cs.get_char(pos);
            let c1 = cs.get_char(pos + 1);
            let c2 = cs.get_char(pos + 2);
            let c3 = cs.get_char(pos + 3);
            if c0 == '\u{2502}' && c1.is_whitespace() && c2.is_whitespace() && c3.is_whitespace() {
                level += 1;
                pos += 4;
            } else if c0 == ' ' && c1 == ' ' && c2 == ' ' && c3 == ' ' {
                level += 1;
                pos += 4;
            } else {
                stop = true;
            }
        }
        proof {
            assert(!is_unit(cs@, pos as int));
            assert(count_units(cs@, 0) == level as int);
        }
        if n - pos > 2 {
            let c0 = cs.get_char(pos);
            let c1 = cs.get_char(pos + 1);
            let c2 = cs.get_char(pos + 2);
            if (c0 == '\u{251c}' || c0 == '\u{2514}') && c1 == '\u{2500}' && c2 == '\u{2500}' {
                let mut q = pos + 3;
                if q < n && cs.get_char(q) == ' ' {
                    q += 1;
                }
                if q >= n {
                    return None;
                }
                let rest = cs.substring_char(q, n);
                let name = trim_str(rest);
                if name.as_str().is_empty() {
                    return None;
                }
                return Some((level + 1, name));
            } else {
                return None;
            }
        } else {
            proof {
                assert(!has_connector(cs@, 4 * count_units(cs@, 0)));
            }
            return None;
        }
    }
}

/// A dot that is neither the first nor the last character of the name:
/// a true extension separator.
pub open spec fn has_interior_dot(name: Seq<char>) -> bool {
    exists|i: int| 0 < i < name.len() - 1 && #[trigger] name[i] == '.'
}

/// Whether a display name denotes a file: it carries a true extension (a
/// dot that is neither leading nor trailing), or it is one of the known
/// plain file names.
pub open spec fn is_file_spec(names: Seq<Seq<char>>, name: Seq<char>) -> bool {
    has_interior_dot(name) || names.contains(name)
}

impl TreeParser {
    /// Classify a display name as file or directory.
    pub fn is_file(&self, name: &str) -> (r: bool)
        ensures
            r == is_file_spec(self.known_files@.map_values(|s: String| s@), name@),
    {
        let ghost knv = self.known_files@.map_values(|s: String| s@);
        let n = name.unicode_len();
        if n >= 3 {
            let mut i: usize = 1;
            while i < n - 1
                invariant
                    1 <= i <= n - 1,
                    n == name@.len(),
                    n >= 3,
                    forall|x: int| 0 < x < i ==> name@[x] != '.',
                decreases n - i,
            {
                if name.get_char(i) == '.' {
                    proof {
                        assert(0 < i < name@.len() - 1 && name@[i as int] == '.');
                    }
                    return true;
                }
                i += 1;
            }
        }
        proof {
            assert(!has_interior_dot(name@));
        }
        let mut k: usize = 0;
        while k < self.known_files.len()
            invariant
                k <= self.known_files@.len(),
                knv == self.known_files@.map_values(|s: String| s@),
                forall|x: int| 0 <= x < k ==> knv[x] != name@,
                !has_interior_dot(name@),
            decreases self.known_files@.len() - k,
        {
            proof {
                assert(knv[k as int] == self.known_files@[k as int]@);
            }
            if str_eq(self.known_files[k].as_str(), name) {
                proof {
                    assert(knv[k as int] == name@);
                    assert(knv.contains(name@)) by {
                        assert(0 <= k < knv.len() && knv[k as int] == name@);
                    }
                }
                return true;
            }
            k += 1;
        }
        proof {
            assert(!knv.contains(name@));
        }
        false
    }
}

/// The parser's running state over the lines seen so far.
pub ghost struct ParseState {
    pub items: Seq<ItemModel>,
    pub stack: Seq<Seq<char>>,
    pub hidden: Seq<int>,
    pub stats: Option<Seq<char>>,
}

/// The state before any line has been read.
pub open spec fn init_state() -> ParseState {
    ParseState { items: Seq::empty(), stack: Seq::empty(), hidden: Seq::empty(), stats: None }
}

/// The recorded hidden-subtree depths strictly below `level`; the rest
/// are out of scope once a line at `level` arrives.
pub open spec fn keep_below(h: Seq<int>, level: int) -> Seq<int>
    decreases h.len(),
{
    if h.len() == 0 {
        Seq::empty()
    } else {
        let rest = keep_below(h.drop_last(), level);
        if h.last() < level {
            rest.push(h.last())
        } else {
            rest
        }
    }
}

/// The `/`-joined path: the parts in order with one separator between
/// consecutive parts.
pub open spec fn join_path(parts: Seq<Seq<char>>) -> Seq<char>
    decreases parts.len(),
{
    if parts.len() == 0 {
        Seq::empty()
    } else if parts.len() == 1 {
        parts[0]
    } else {
        join_path(parts.drop_last()) + seq!['/'] + parts.last()
    }
}

/// The ancestor stack cut back to `level - 1` entries.
pub open spec fn trunc_stack(stack: Seq<Seq<char>>, level: int) -> Seq<Seq<char>> {
    if stack.len() > level - 1 {
        stack.take(level - 1)
    } else {
        stack
    }
}

/// A name that begins with the hidden marker.
pub open spec fn starts_hidden(n: Seq<char>) -> bool {
    n.len() > 0 && n[0] == '.'
}

/// The effect of one input line on the parser state: blank lines and
/// malformed lines change nothing, the first statistics line is captured,
/// hidden entries and everything below them are skipped when asked, and
/// an accepted entry is recorded with its reconstructed path.
pub open spec fn step_line(
    st: ParseState,
    line: Seq<char>,
    include_hidden: bool,
    names: Seq<Seq<char>>,
) -> ParseState {
    if trim_spec(line).len() == 0 {
        st
    } else if has_sub(line, "directories"@) && has_sub(line, "files"@) {
        if st.stats is None {
            ParseState { stats: Some(trim_spec(line)), ..st }
        } else {
            st
        }
    } else {
        match parse_line_spec(line) {
            None => st,
            Some(ln) => {
                let level = ln.0;
                let name = ln.1;
                let hidden1 = keep_below(st.hidden, level);
                if !include_hidden && (starts_hidden(name) || hidden1.len() > 0) {
                    if starts_hidden(name) {
                        ParseState { hidden: hidden1.push(level), ..st }
                    } else {
                        ParseState { hidden: hidden1, ..st }
                    }
                } else {
                    let stack1 = trunc_stack(st.stack, level);
                    let fp = if stack1.len() == 0 {
                        name
                    } else {
                        join_path(stack1) + seq!['/'] + name
                    };
                    let item = ItemModel {
                        name: name,
                        level: level,
                        is_file: is_file_spec(names, name),
                        full_path: fp,
                    };
                    ParseState {
                        items: st.items.push(item),
                        stack: stack1.push(name),
                        hidden: hidden1,
                        stats: st.stats,
                    }
                }
            },
        }
    }
}

/// The parser state after all the given lines.
pub open spec fn run_lines(
    lines: Seq<Seq<char>>,
    include_hidden: bool,
    names: Seq<Seq<char>>,
) -> ParseState
    decreases lines.len(),
{
    if lines.len() == 0 {
        init_state()
    } else {
        step_line(
            run_lines(lines.drop_last(), include_hidden, names),
            lines.last(),
            include_hidden,
            names,
        )
    }
}

/// How many of the items are classified as files.
pub open spec fn count_files(items: Seq<ItemModel>) -> int
    decreases items.len(),
{
    if items.len() == 0 {
        0
    } else {
        count_files(items.drop_last()) + if items.last().is_file {
            1int
        } else {
            0int
        }
    }
}

/// How many of the items are classified as directories.
pub open spec fn count_dirs(items: Seq<ItemModel>) -> int
    decreases items.len(),
{
    if items.len() == 0 {
        0
    } else {
        count_dirs(items.drop_last()) + if items.last().is_file {
            0int
        } else {
            1int
        }
    }
}

/// The fixed prefix of the synthetic summary entry's name.
pub open spec fn summary_prefix() -> Seq<char> {
    "\u{1f4ca} \u{7edf}\u{8ba1}: "@
}

/// The statistics phrase recomputed from the accepted items.
pub open spec fn recomputed_text(items: Seq<ItemModel>) -> Seq<char> {
    dec_spec(count_dirs(items)) + " directories, "@ + dec_spec(count_files(items)) + " files"@
}

/// The statistics phrase the summary carries: the phrase captured from
/// the input when hidden entries were included and one was seen, else the
/// counts recomputed from what was actually accepted.
pub open spec fn summary_text(st: ParseState, include_hidden: bool) -> Seq<char> {
    match st.stats {
        Some(s) => if include_hidden {
            s
        } else {
            recomputed_text(st.items)
        },
        None => recomputed_text(st.items),
    }
}

/// The synthetic summary item appended after all entries.
pub open spec fn summary_item(st: ParseState, include_hidden: bool) -> ItemModel {
    let t = summary_prefix() + summary_text(st, include_hidden);
    ItemModel { name: t, level: 0, is_file: false, full_path: t }
}

/// Everything `parse` returns for the given text: the accepted entries in
/// input order, then the summary item.
pub open spec fn parse_spec(
    text: Seq<char>,
    include_hidden: bool,
    names: Seq<Seq<char>>,
) -> Seq<ItemModel> {
    let st = run_lines(lines_of(text), include_hidden, names);
    st.items.push(summary_item(st, include_hidden))
}

/// The view of a possibly captured statistics line.
pub open spec fn opt_view(o: Option<String>) -> Option<Seq<char>> {
    match o {
        Some(s) => Some(s@),
        None => None,
    }
}

impl TreeParser {
    /// Parse a whole tree listing into the flat, ordered item list, with
    /// the synthetic summary item appended last.
    pub fn parse(&self, input: &str, include_hidden: bool) -> (r: Vec<TreeItem>)
        ensures
            r@.map_values(|it: TreeItem| it@) == parse_spec(
                input@,
                include_hidden,
                self.known_files@.map_values(|s: String| s@),
            ),
    {
        let ghost knv = self.known_files@.map_values(|s: String| s@);
        let lines = split_lines(input);
        let ghost lv = lines@.map_values(|s: String| s@);
        let mut items: Vec<TreeItem> = Vec::new();
        let mut path_stack: Vec<String> = Vec::new();
        let mut stats_line: Option<String> = None;
        let mut hidden_levels: Vec<usize> = Vec::new();
        proof {
            assert(lv.take(0) =~= Seq::<Seq<char>>::empty());
            assert(items@.map_values(|it: TreeItem| it@) =~= Seq::<ItemModel>::empty());
            assert(path_stack@.map_values(|s: String| s@) =~= Seq::<Seq<char>>::empty());
            assert(hidden_levels@.map_values(|u: usize| u as int) =~= Seq::<int>::empty());
            assert(run_lines(lv.take(0), include_hidden, knv) == init_state());
        }
        let mut li: usize = 0;
        while li < lines.len()
            invariant
                li <= lines.len(),
                lv == lines@.map_values(|s: String| s@),
                lv == lines_of(input@),
                knv == self.known_files@.map_values(|s: String| s@),
                run_lines(lv.take(li as int), include_hidden, knv) == (ParseState {
                    items: items@.map_values(|it: TreeItem| it@),
                    stack: path_stack@.map_values(|s: String| s@),
                    hidden: hidden_levels@.map_values(|u: usize| u as int),
                    stats: opt_view(stats_line),
                }),
            decreases lines.len() - li,
        {
            let ghost st = run_lines(lv.take(li as int), include_hidden, knv);
            proof {
                assert(lv.take(li + 1).drop_last() =~= lv.take(li as int));
                assert(run_lines(lv.take(li + 1), include_hidden, knv) == step_line(
                    st,
                    lv[li as int],
                    include_hidden,
                    knv,
                ));
            }
            let line = &lines[li];
            let t = trim_str(line.as_str());
            if t.as_str().is_empty() {
            } else if contains_sub(line.as_str(), "directories") && contains_sub(
                line.as_str(),
                "files",
            ) {
                if stats_line.is_none() {
                    stats_line = Some(t);
                }
            } else {
                match self.parse_line(line.as_str()) {
                    None => {},
                    Some((level, name)) => {
                        let ghost hv = hidden_levels@.map_values(|u: usize| u as int);
                        let mut kept: Vec<usize> = Vec::new();
                        let mut hi: usize = 0;
                        while hi < hidden_levels.len()
                            invariant
                                hi <= hidden_levels.len(),
                                hv == hidden_levels@.map_values(|u: usize| u as int),
                                kept@.map_values(|u: usize| u as int) == keep_below(
                                    hv.take(hi as int),
                                    level as int,
                                ),
                            decreases hidden_levels.len() - hi,
                        {
                            proof {
                                assert(hv.take(hi + 1).drop_last() =~= hv.take(hi as int));
                            }
                            let ghost keptv = kept@.map_values(|u: usize| u as int);
                            let h = hidden_levels[hi];
                            if h < level {
                                kept.push(h);
                                proof {
                                    assert(kept@.map_values(|u: usize| u as int) =~= keptv.push(
                                        h as int,
                                    ));
                                }
                            }
                            hi += 1;
                        }
                        proof {
                            assert(hv.take(hidden_levels@.len() as int) =~= hv);
                        }
                        hidden_levels = kept;
                        let in_hidden = hidden_levels.len() > 0;
                        let nlen = name.as_str().unicode_len();
                        let starts_dot = nlen > 0 && name.as_str().get_char(0) == '.';
                        if !include_hidden && (starts_dot || in_hidden) {
                            if starts_dot {
                                let ghost hv2 = hidden_levels@.map_values(|u: usize| u as int);
                                hidden_levels.push(level);
                                proof {
                                    assert(hidden_levels@.map_values(|u: usize| u as int)
                                        =~= hv2.push(level as int));
                                }
                            }
                        } else {
                            let ghost psv = path_stack@.map_values(|s: String| s@);
                            path_stack.truncate(level - 1);
                            proof {
                                if psv.len() > level - 1 {
                                    assert(path_stack@.map_values(|s: String| s@) =~= psv.take(
                                        level - 1,
                                    ));
                                } else {
                                    assert(path_stack@.map_values(|s: String| s@) =~= psv);
                                }
                            }
                            let ghost stack1 = path_stack@.map_values(|s: String| s@);
                            let full_path: String;
                            if path_stack.len() == 0 {
                                full_path = name.clone();
                            } else {
                                let mut fp = String::new();
                                let mut si: usize = 0;
                                while si < path_stack.len()
                                    invariant
                                        si <= path_stack.len(),
                                        stack1 == path_stack@.map_values(|s: String| s@),
                                        fp@ == join_path(stack1.take(si as int)),
                                    decreases path_stack.len() - si,
                                {
                                    proof {
                                        assert(stack1.take(si + 1).drop_last() =~= stack1.take(
                                            si as int,
                                        ));
                                        reveal_strlit("/");
                                    }
                                    if si > 0 {
                                        fp.append("/");
                                    }
                                    fp.append(path_stack[si].as_str());
                                    proof {
                                        if si == 0 {
                                            assert(fp@ =~= join_path(stack1.take(1)));
                                        }
                                    }
                                    si += 1;
                                }
                                proof {
                                    assert(stack1.take(path_stack@.len() as int) =~= stack1);
                                    reveal_strlit("/");
                                }
                                fp.append("/");
                                fp.append(name.as_str());
                                proof {
                                    assert(fp@ =~= join_path(stack1) + seq!['/'] + name@);
                                }
                                full_path = fp;
                            }
                            let is_f = self.is_file(name.as_str());
                            let ghost itemsv = items@.map_values(|it: TreeItem| it@);
                            let ghost psv1 = path_stack@.map_values(|s: String| s@);
                            path_stack.push(name.clone());
                            items.push(
                                TreeItem { name: name.clone(), level, is_file: is_f, full_path },
                            );
                            proof {
                                assert(path_stack@.map_values(|s: String| s@) =~= psv1.push(name@));
                                assert(items@.map_values(|it: TreeItem| it@) =~= itemsv.push(
                                    ItemModel {
                                        name: name@,
                                        level: level as int,
                                        is_file: is_f,
                                        full_path: full_path@,
                                    },
                                ));
                            }
                        }
                    },
                }
            }
            li += 1;
        }
        let ghost stf = run_lines(lv, include_hidden, knv);
        proof {
            assert(lv.take(lines@.len() as int) =~= lv);
        }
        let mut dir_count: usize = 0;
        let mut file_count: usize = 0;
        let ghost itemsv = items@.map_values(|it: TreeItem| it@);
        let mut ii: usize = 0;
        while ii < items.len()
            invariant
                ii <= items.len(),
                itemsv == items@.map_values(|it: TreeItem| it@),
                dir_count <= ii,
                file_count <= ii,
                dir_count == count_dirs(itemsv.take(ii as int)),
                file_count == count_files(itemsv.take(ii as int)),
            decreases items.len() - ii,
        {
            proof {
                assert(itemsv.take(ii + 1).drop_last() =~= itemsv.take(ii as int));
            }
            if items[ii].is_file {
                file_count += 1;
            } else {
                dir_count += 1;
            }
            ii += 1;
        }
        proof {
            assert(itemsv.take(items@.len() as int) =~= itemsv);
        }
        let stext: String;
        if include_hidden && stats_line.is_some() {
            stext = stats_line.unwrap();
        } else {
            let mut s = dec_string(dir_count);
            s.append(" directories, ");
            let fstr = dec_string(file_count);
            s.append(fstr.as_str());
            s.append(" files");
            stext = s;
        }
        proof {
            assert(stext@ == summary_text(stf, include_hidden));
        }
        let mut nm = String::from_str("\u{1f4ca} \u{7edf}\u{8ba1}: ");
        nm.append(stext.as_str());
        let fp2 = nm.clone();
        let ghost itemsv2 = items@.map_values(|it: TreeItem| it@);
        items.push(TreeItem { name: nm, level: 0, is_file: false, full_path: fp2 });
        proof {
            assert(items@.map_values(|it: TreeItem| it@) =~= itemsv2.push(
                summary_item(stf, include_hidden),
            ));
        }
        items
    }
}

/// For every line the parser accepts, the depth returned is the number of
/// complete four-character indentation units plus one.
pub proof fn lemma_depth_counts_units(line: Seq<char>)
    ensures
        parse_line_spec(line) matches Some(p) ==> p.0 == count_units(strip_ansi(line), 0) + 1,
{
}

/// Two accepted lines with equally many indentation units get equal
/// depths; in particular the interior-child and the last-child connector
/// at the same indentation yield the same depth.
pub proof fn lemma_equal_indent_equal_depth(l1: Seq<char>, l2: Seq<char>)
    requires
        parse_line_spec(l1) is Some,
        parse_line_spec(l2) is Some,
        count_units(strip_ansi(l1), 0) == count_units(strip_ansi(l2), 0),
    ensures
        parse_line_spec(l1)->Some_0.0 == parse_line_spec(l2)->Some_0.0,
{
    lemma_depth_counts_units(l1);
    lemma_depth_counts_units(l2);
}

proof fn lemma_count_units_same(s1: Seq<char>, s2: Seq<char>, p: int, q: int)
    requires
        s1.len() == s2.len(),
        forall|k: int| 0 <= k < s1.len() && k != p ==> s1[k] == s2[k],
        0 <= p < s1.len(),
        s1[p] != '\u{2502}' && s1[p] != ' ',
        s2[p] != '\u{2502}' && s2[p] != ' ',
        0 <= q <= p,
        (p - q) % 4 == 0,
    ensures
        count_units(s1, q) == count_units(s2, q),
    decreases p - q,
{
    if q == p {
        assert(!is_unit(s1, q));
        assert(!is_unit(s2, q));
    } else {
        assert(q + 4 <= p);
        if q + 3 < s1.len() {
            assert(s1[q] == s2[q] && s1[q + 1] == s2[q + 1] && s1[q + 2] == s2[q + 2] && s1[q + 3]
                == s2[q + 3]);
        }
        assert(is_unit(s1, q) == is_unit(s2, q));
        if is_unit(s1, q) {
            lemma_count_units_same(s1, s2, p, q + 4);
        }
    }
}

/// The connector glyph makes no difference: two lines whose colour-
/// stripped forms are identical except that one carries the interior-
/// child and the other the last-child glyph at the connector position
/// parse alike — both rejected, or both accepted with the same depth and
/// the same name.  (Root markers are excluded: a line that only names
/// the root is no entry line.)
pub proof fn lemma_connector_glyph_immaterial(a: Seq<char>, b: Seq<char>)
    requires
        !is_root_marker(a),
        !is_root_marker(b),
        ({
            let sa = strip_ansi(a);
            let p = 4 * count_units(sa, 0);
            &&& 0 <= p < sa.len()
            &&& (sa[p] == '\u{251c}' || sa[p] == '\u{2514}')
            &&& strip_ansi(b) == sa.update(
                p,
                if sa[p] == '\u{251c}' {
                    '\u{2514}'
                } else {
                    '\u{251c}'
                },
            )
        }),
    ensures
        parse_line_spec(a) is Some <==> parse_line_spec(b) is Some,
        parse_line_spec(a) matches Some(pa) ==> (parse_line_spec(b) matches Some(pb) && pa.0
            == pb.0 && pa.1 == pb.1),
{
    let sa = strip_ansi(a);
    let sb = strip_ansi(b);
    let u = count_units(sa, 0);
    let p = 4 * u;
    lemma_count_units_nonneg(sa, 0);
    assert(sb.len() == sa.len());
    assert forall|k: int| 0 <= k < sa.len() && k != p implies sa[k] == sb[k] by {
        assert(sb[k] == sa.update(p, sb[p])[k]);
    }
    lemma_count_units_same(sa, sb, p, 0);
    assert(count_units(sb, 0) == u);
    if has_connector(sa, p) {
        assert(has_connector(sb, p));
        let q0 = p + 3;
        let qa = if q0 < sa.len() && sa[q0] == ' ' {
            q0 + 1
        } else {
            q0
        };
        assert(q0 != p && q0 + 0 < sa.len() ==> sa[q0] == sb[q0]);
        if qa < sa.len() {
            assert(sa.subrange(qa, sa.len() as int) =~= sb.subrange(qa, sb.len() as int));
        }
    } else {
        assert(!has_connector(sb, p));
    }
}

/// The `/`-separated pieces of `s`, the current piece having begun at
/// `start` while the scan stands at `pos`.
pub open spec fn split_from(s: Seq<char>, start: int, pos: int) -> Seq<Seq<char>>
    decreases s.len() - pos,
{
    if pos < 0 || pos >= s.len() {
        seq![s.subrange(start, s.len() as int)]
    } else if s[pos] == '/' {
        seq![s.subrange(start, pos)] + split_from(s, pos + 1, pos + 1)
    } else {
        split_from(s, start, pos + 1)
    }
}

/// The `/`-separated pieces of a path.
pub open spec fn split_slash(s: Seq<char>) -> Seq<Seq<char>> {
    split_from(s, 0, 0)
}

proof fn lemma_split_scan(s: Seq<char>, start: int, pos: int, end: int)
    requires
        0 <= start <= pos <= end <= s.len(),
        forall|k: int| pos <= k < end ==> s[k] != '/',
    ensures
        split_from(s, start, pos) == split_from(s, start, end),
    decreases end - pos,
{
    if pos < end {
        lemma_split_scan(s, start, pos + 1, end);
    }
}

proof fn lemma_split_noslash(s: Seq<char>)
    requires
        !s.contains('/'),
    ensures
        split_slash(s) == seq![s],
{
    assert forall|k: int| 0 <= k < s.len() implies s[k] != '/' by {
        if s[k] == '/' {
            assert(s.contains('/'));
        }
    }
    lemma_split_scan(s, 0, 0, s.len() as int);
    assert(s.subrange(0, s.len() as int) =~= s);
}

proof fn lemma_split_shift(s: Seq<char>, off: int, st: int, pos: int)
    requires
        0 <= off <= s.len(),
        0 <= st <= pos <= s.len() - off,
    ensures
        split_from(s, off + st, off + pos) == split_from(
            s.subrange(off, s.len() as int),
            st,
            pos,
        ),
    decreases s.len() - off - pos,
{
    let b = s.subrange(off, s.len() as int);
    if pos >= b.len() {
        assert(s.subrange(off + st, s.len() as int) =~= b.subrange(st, b.len() as int));
    } else if s[off + pos] == '/' {
        lemma_split_shift(s, off, pos + 1, pos + 1);
        assert(s.subrange(off + st, off + pos) =~= b.subrange(st, pos));
        assert(b[pos] == s[off + pos]);
    } else {
        lemma_split_shift(s, off, st, pos + 1);
        assert(b[pos] != '/');
    }
}

proof fn lemma_join_front(parts: Seq<Seq<char>>)
    requires
        parts.len() >= 2,
    ensures
        join_path(parts) == parts[0] + seq!['/'] + join_path(parts.drop_first()),
    decreases parts.len(),
{
    if parts.len() == 2 {
        assert(parts.drop_last() =~= seq![parts[0]]);
        assert(parts.drop_first() =~= seq![parts[1]]);
        assert(join_path(seq![parts[0]]) == seq![parts[0]][0]);
        assert(join_path(seq![parts[1]]) == seq![parts[1]][0]);
        assert(join_path(parts) == join_path(parts.drop_last()) + seq!['/'] + parts.last());
        assert(parts.last() == parts[1]);
    } else {
        let dl = parts.drop_last();
        let df = parts.drop_first();
        lemma_join_front(dl);
        assert(dl.drop_first() =~= df.drop_last());
        assert(df.last() == parts.last());
        assert(dl[0] == parts[0]);
        assert(join_path(parts) == join_path(dl) + seq!['/'] + parts.last());
        assert(join_path(df) == join_path(df.drop_last()) + seq!['/'] + df.last());
        assert((parts[0] + seq!['/'] + join_path(df.drop_last())) + seq!['/'] + parts.last()
            =~= parts[0] + seq!['/'] + (join_path(df.drop_last()) + seq!['/'] + parts.last()));
    }
}

proof fn lemma_split_concat(a: Seq<char>, b: Seq<char>)
    requires
        a.len() > 0,
        !a.contains('/'),
    ensures
        split_slash(a + seq!['/'] + b) == seq![a] + split_slash(b),
{
    let s = a + seq!['/'] + b;
    assert forall|k: int| 0 <= k < a.len() implies s[k] != '/' by {
        assert(s[k] == a[k]);
        if a[k] == '/' {
            assert(a.contains('/'));
        }
    }
    lemma_split_scan(s, 0, 0, a.len() as int);
    assert(s[a.len() as int] == '/');
    assert(s.subrange(0, a.len() as int) =~= a);
    lemma_split_shift(s, a.len() as int + 1, 0, 0);
    assert(s.subrange(a.len() as int + 1, s.len() as int) =~= b);
}

/// Splitting the `/`-joined parts gives the parts back, provided each
/// part is non-empty and holds no separator.
pub proof fn lemma_split_join(parts: Seq<Seq<char>>)
    requires
        parts.len() > 0,
        forall|k: int|
            0 <= k < parts.len() ==> (#[trigger] parts[k]).len() > 0 && !parts[k].contains('/'),
    ensures
        split_slash(join_path(parts)) == parts,
    decreases parts.len(),
{
    if parts.len() == 1 {
        lemma_split_noslash(parts[0]);
        assert(seq![parts[0]] =~= parts);
    } else {
        lemma_join_front(parts);
        assert forall|k: int|
            0 <= k < parts.drop_first().len() implies (#[trigger] parts.drop_first()[k]).len() > 0
            && !parts.drop_first()[k].contains('/') by {
            assert(parts.drop_first()[k] == parts[k + 1]);
        }
        lemma_split_join(parts.drop_first());
        lemma_split_concat(parts[0], join_path(parts.drop_first()));
        assert(seq![parts[0]] + parts.drop_first() =~= parts);
    }
}

/// No `/`-separated piece of the path begins with the hidden marker.
pub open spec fn path_free_of_hidden(p: Seq<char>) -> bool {
    forall|j: int| 0 <= j < split_slash(p).len() ==> !starts_hidden(#[trigger] split_slash(p)[j])
}

/// Every part is a non-empty name without a separator or a leading
/// hidden marker.
pub open spec fn clean_parts(parts: Seq<Seq<char>>) -> bool {
    forall|k: int|
        0 <= k < parts.len() ==> (#[trigger] parts[k]).len() > 0 && !parts[k].contains('/')
            && !starts_hidden(parts[k])
}

spec fn state_clean(st: ParseState) -> bool {
    &&& clean_parts(st.stack)
    &&& forall|k: int|
        0 <= k < st.items.len() ==> !starts_hidden((#[trigger] st.items[k]).name)
            && path_free_of_hidden(st.items[k].full_path)
}

/// Every accepted display name in the given lines is free of the path
/// separator.
pub open spec fn names_slashfree(lines: Seq<Seq<char>>) -> bool {
    forall|i: int|
        0 <= i < lines.len() ==> (parse_line_spec(#[trigger] lines[i]) matches Some(p)
            ==> !p.1.contains('/'))
}

proof fn lemma_run_clean(lines: Seq<Seq<char>>, names: Seq<Seq<char>>)
    requires
        names_slashfree(lines),
    ensures
        state_clean(run_lines(lines, false, names)),
    decreases lines.len(),
{
    if lines.len() > 0 {
        assert forall|i: int|
            0 <= i < lines.drop_last().len() implies (parse_line_spec(
            #[trigger] lines.drop_last()[i],
        ) matches Some(p) ==> !p.1.contains('/')) by {
            assert(lines.drop_last()[i] == lines[i]);
        }
        lemma_run_clean(lines.drop_last(), names);
        let st = run_lines(lines.drop_last(), false, names);
        let line = lines.last();
        let stf = run_lines(lines, false, names);
        if trim_spec(line).len() == 0 {
        } else if has_sub(line, "directories"@) && has_sub(line, "files"@) {
        } else {
            match parse_line_spec(line) {
                None => {},
                Some(ln) => {
                    let level = ln.0;
                    let name = ln.1;
                    let hidden1 = keep_below(st.hidden, level);
                    if starts_hidden(name) || hidden1.len() > 0 {
                    } else {
                        assert(name.len() > 0);
                        assert(!name.contains('/'));
                        let stack1 = trunc_stack(st.stack, level);
                        assert forall|k: int|
                            0 <= k < stack1.len() implies (#[trigger] stack1[k]).len() > 0
                            && !stack1[k].contains('/') && !starts_hidden(stack1[k]) by {
                            assert(stack1[k] == st.stack[k]);
                        }
                        let parts = stack1.push(name);
                        assert forall|k: int|
                            0 <= k < parts.len() implies (#[trigger] parts[k]).len() > 0
                            && !parts[k].contains('/') && !starts_hidden(parts[k]) by {
                            if k < stack1.len() {
                                assert(parts[k] == stack1[k]);
                            } else {
                                assert(parts[k] == name);
                            }
                        }
                        let fp = stf.items.last().full_path;
                        if stack1.len() == 0 {
                            assert(fp == name);
                            lemma_split_noslash(name);
                            assert(split_slash(fp) == seq![name]);
                        } else {
                            assert(parts.len() >= 2);
                            assert(parts.drop_last() =~= stack1);
                            assert(parts.last() == name);
                            assert(fp == join_path(parts));
                            lemma_split_join(parts);
                            assert(split_slash(fp) == parts);
                        }
                        assert forall|j: int|
                            0 <= j < split_slash(fp).len() implies !starts_hidden(
                            #[trigger] split_slash(fp)[j],
                        ) by {}
                        assert forall|k: int|
                            0 <= k < stf.items.len() implies !starts_hidden(
                            (#[trigger] stf.items[k]).name,
                        ) && path_free_of_hidden(stf.items[k].full_path) by {
                            if k < st.items.len() {
                                assert(stf.items[k] == st.items[k]);
                            } else {
                                assert(stf.items[k] == stf.items.last());
                            }
                        }
                    }
                },
            }
        }
    }
}

/// Hidden filtering: when hidden entries are filtered out, every item the
/// parser keeps has a name that does not start with the hidden marker,
/// and no `/`-separated piece of its full path starts with it either — so
/// nothing from a suppressed subtree survives in any path.  This needs
/// every accepted display name to be free of the separator itself: a name
/// such as `x/.y` would smuggle a hidden-looking piece into the path.
pub proof fn lemma_hidden_filtering(text: Seq<char>, names: Seq<Seq<char>>)
    requires
        names_slashfree(lines_of(text)),
    ensures
        forall|k: int|
            0 <= k < run_lines(lines_of(text), false, names).items.len() ==> !starts_hidden(
                (#[trigger] run_lines(lines_of(text), false, names).items[k]).name,
            ) && path_free_of_hidden(run_lines(lines_of(text), false, names).items[k].full_path),
{
    lemma_run_clean(lines_of(text), names);
}

proof fn lemma_keep_below_keeps(h: Seq<int>, level: int, x: int)
    requires
        h.contains(x),
        x < level,
    ensures
        keep_below(h, level).contains(x),
    decreases h.len(),
{
    if h.len() > 0 {
        let rest = keep_below(h.drop_last(), level);
        if h.last() == x {
            assert(keep_below(h, level).last() == x);
            assert(keep_below(h, level).contains(x));
        } else {
            let w = choose|w: int| 0 <= w < h.len() && h[w] == x;
            assert(h.drop_last()[w] == x);
            assert(h.drop_last().contains(x));
            lemma_keep_below_keeps(h.drop_last(), level, x);
            let w2 = choose|w2: int| 0 <= w2 < rest.len() && rest[w2] == x;
            if h.last() < level {
                assert(keep_below(h, level)[w2] == x);
            }
            assert(keep_below(h, level).contains(x));
        }
    }
}

/// Hidden subtrees are pruned whole: with hidden filtering on, a line
/// whose parsed name starts with the hidden marker yields no item, and
/// as long as every later line that parses at all parses strictly
/// deeper, none of those lines yields an item either — the recorded
/// depth keeps the whole subtree out.  The opening line must be a real
/// entry line: not blank and not a statistics line.
pub proof fn lemma_hidden_subtree_pruned(
    lines: Seq<Seq<char>>,
    names: Seq<Seq<char>>,
    i: int,
    j: int,
)
    requires
        0 <= i <= j < lines.len(),
        trim_spec(lines[i]).len() != 0,
        !(has_sub(lines[i], "directories"@) && has_sub(lines[i], "files"@)),
        parse_line_spec(lines[i]) matches Some(pi) && starts_hidden(pi.1),
        forall|m: int|
            i < m <= j ==> (parse_line_spec(#[trigger] lines[m]) matches Some(pm) ==> pm.0
                > parse_line_spec(lines[i])->Some_0.0),
    ensures
        run_lines(lines.take(j + 1), false, names).items == run_lines(
            lines.take(i),
            false,
            names,
        ).items,
        run_lines(lines.take(j + 1), false, names).hidden.contains(
            parse_line_spec(lines[i])->Some_0.0,
        ),
    decreases j - i,
{
    let d = parse_line_spec(lines[i])->Some_0.0;
    if j == i {
        assert(lines.take(i + 1).drop_last() =~= lines.take(i));
        assert(lines.take(i + 1).last() == lines[i]);
        let st = run_lines(lines.take(i), false, names);
        let st2 = run_lines(lines.take(i + 1), false, names);
        assert(st2 == step_line(st, lines[i], false, names));
        assert(st2.hidden.last() == d);
        assert(st2.hidden.contains(d));
    } else {
        lemma_hidden_subtree_pruned(lines, names, i, j - 1);
        let st = run_lines(lines.take(j), false, names);
        let st2 = run_lines(lines.take(j + 1), false, names);
        assert(lines.take(j + 1).drop_last() =~= lines.take(j));
        assert(lines.take(j + 1).last() == lines[j]);
        assert(st2 == step_line(st, lines[j], false, names));
        let line = lines[j];
        if trim_spec(line).len() == 0 {
        } else if has_sub(line, "directories"@) && has_sub(line, "files"@) {
        } else {
            match parse_line_spec(line) {
                None => {},
                Some(ln) => {
                    assert(ln.0 > d);
                    lemma_keep_below_keeps(st.hidden, ln.0, d);
                    let hidden1 = keep_below(st.hidden, ln.0);
                    let w = choose|w: int| 0 <= w < hidden1.len() && hidden1[w] == d;
                    assert(hidden1.len() > 0);
                    if starts_hidden(ln.1) {
                        assert(st2.hidden == hidden1.push(ln.0));
                        assert(st2.hidden[w] == d);
                        assert(st2.hidden.contains(d));
                    } else {
                        assert(st2.hidden == hidden1);
                    }
                },
            }
        }
    }
}

/// When hidden filtering is on, the summary carries exactly the counts
/// recomputed from the accepted items: the number of directories and the
/// number of files that were actually kept.
pub proof fn lemma_summary_recounts(text: Seq<char>, names: Seq<Seq<char>>)
    ensures
        ({
            let st = run_lines(lines_of(text), false, names);
            parse_spec(text, false, names).last().name == summary_prefix() + dec_spec(
                count_dirs(st.items),
            ) + " directories, "@ + dec_spec(count_files(st.items)) + " files"@
        }),
{
}

} // verus!
