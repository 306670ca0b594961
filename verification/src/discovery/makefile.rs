//! Parser for `Makefile` targets.
//!
//! Heuristic, on purpose: only literal target names declared at column 0.
//! A line declares a target when it reads `name:` where `name` starts with an
//! ASCII letter or digit and goes on with letters, digits, `_`, `.` or `-`,
//! optional white space may precede the `:`, and the `:` is not the start of
//! a `:=` assignment. Dot-directives and pattern rules (`%`) are skipped, the
//! first declaration of a name wins, and a same-line `## comment` becomes the
//! description. The invocation is `make <target>`.

use vstd::prelude::*;
use crate::text::{
    all_ws, char_is_ws, char_rows, chars_of, concat, is_ws, lines, skip_ws, skip_ws_exec,
    split_lines, string_of_range, strip_ws_back_exec, trim,
};
use super::{command_of, command_views, CommandView, DiscoveredCommand, SourceType};

verus! {

/// `[a-zA-Z0-9]`
pub open spec fn is_ascii_alnum(c: char) -> bool {
    let u = c as u32;
    ||| 0x61 <= u <= 0x7a
    ||| 0x41 <= u <= 0x5a
    ||| 0x30 <= u <= 0x39
}

/// `[a-zA-Z0-9_.-]`
pub open spec fn is_name_char(c: char) -> bool {
    is_ascii_alnum(c) || c == '_' || c == '.' || c == '-'
}

/// End of the run of name characters that starts at `i`.
pub open spec fn name_end(line: Seq<char>, i: int) -> int
    decreases line.len() - i,
{
    if i < 0 || i >= line.len() || !is_name_char(line[i]) {
        i
    } else {
        name_end(line, i + 1)
    }
}

/// The target a line declares, if any: a name at column 0, optional white
/// space, then `:` not followed by `=`.
pub open spec fn target_name(line: Seq<char>) -> Option<Seq<char>> {
    if line.len() == 0 || !is_ascii_alnum(line[0]) {
        None
    } else {
        let n = name_end(line, 1);
        let k = skip_ws(line, n);
        if k < line.len() && line[k] == ':' && (k + 1 == line.len() || line[k + 1] != '=') {
            Some(line.subrange(0, n))
        } else {
            None
        }
    }
}

/// `line` declares a target named `line[0..n]` whose `:` stands at `k`:
/// an ASCII letter or digit, then name characters up to `n`, white space up
/// to `k`, the `:`, and after it the end of the line or anything but `=`.
pub open spec fn declares_target(line: Seq<char>, n: int, k: int) -> bool {
    &&& 1 <= n <= k < line.len()
    &&& is_ascii_alnum(line[0])
    &&& forall|i: int| 1 <= i < n ==> #[trigger] is_name_char(line[i])
    &&& !is_name_char(line[n])
    &&& forall|i: int| n <= i < k ==> #[trigger] is_ws(line[i])
    &&& line[k] == ':'
    &&& (k + 1 == line.len() || line[k + 1] != '=')
}

proof fn lemma_name_end_props(line: Seq<char>, i: int)
    requires
        0 <= i <= line.len(),
    ensures
        i <= name_end(line, i) <= line.len(),
        forall|j: int| i <= j < name_end(line, i) ==> #[trigger] is_name_char(line[j]),
        name_end(line, i) < line.len() ==> !is_name_char(line[name_end(line, i)]),
    decreases line.len() - i,
{
    if i < line.len() && is_name_char(line[i]) {
        lemma_name_end_props(line, i + 1);
    }
}

proof fn lemma_name_end_at(line: Seq<char>, i: int, n: int)
    requires
        0 <= i <= n < line.len(),
        forall|j: int| i <= j < n ==> #[trigger] is_name_char(line[j]),
        !is_name_char(line[n]),
    ensures
        name_end(line, i) == n,
    decreases n - i,
{
    if i < n {
        lemma_name_end_at(line, i + 1, n);
    }
}

proof fn lemma_skip_ws_props(line: Seq<char>, i: int)
    requires
        0 <= i <= line.len(),
    ensures
        i <= skip_ws(line, i) <= line.len(),
        forall|j: int| i <= j < skip_ws(line, i) ==> #[trigger] is_ws(line[j]),
        skip_ws(line, i) < line.len() ==> !is_ws(line[skip_ws(line, i)]),
    decreases line.len() - i,
{
    if i < line.len() && is_ws(line[i]) {
        lemma_skip_ws_props(line, i + 1);
    }
}

proof fn lemma_skip_ws_at(line: Seq<char>, i: int, k: int)
    requires
        0 <= i <= k < line.len(),
        forall|j: int| i <= j < k ==> #[trigger] is_ws(line[j]),
        !is_ws(line[k]),
    ensures
        skip_ws(line, i) == k,
    decreases k - i,
{
    if i < k {
        lemma_skip_ws_at(line, i + 1, k);
    }
}

/// The target-line grammar: a line declares a target exactly when it has
/// the form `declares_target` describes, and then the target is the whole
/// run of name characters at the start of the line, however long.
pub proof fn lemma_target_grammar(line: Seq<char>)
    ensures
        forall|n: int, k: int|
            #[trigger] declares_target(line, n, k) ==> target_name(line) == Some(
                line.subrange(0, n),
            ),
        target_name(line) is Some ==> exists|n: int, k: int|
            #[trigger] declares_target(line, n, k) && target_name(line) == Some(
                line.subrange(0, n),
            ),
{
    assert forall|n: int, k: int| #[trigger] declares_target(line, n, k) implies target_name(
        line,
    ) == Some(line.subrange(0, n)) by {
        lemma_name_end_at(line, 1, n);
        assert(!is_ws(line[k]));
        lemma_skip_ws_at(line, n, k);
    }
    if target_name(line) is Some {
        lemma_name_end_props(line, 1);
        let n = name_end(line, 1);
        lemma_skip_ws_props(line, n);
        let k = skip_ws(line, n);
        assert(is_name_char(line[n]) ==> false) by {
            if n == line.len() {
            }
        }
        assert(declares_target(line, n, k));
    }
}

/// Every line of a Makefile's text that declares a target (not a
/// dot-directive, not a pattern rule) yields a command of that name.
pub proof fn lemma_parse_finds_every_target(
    text: Seq<char>,
    repo: Seq<char>,
    cwd: Seq<char>,
    l: int,
    n: int,
    k: int,
)
    requires
        0 <= l < lines(text).len(),
        declares_target(lines(text)[l], n, k),
        !is_skipped_target(lines(text)[l].subrange(0, n)),
    ensures
        has_name(spec_parse(text, repo, cwd), lines(text)[l].subrange(0, n)),
{
    lemma_target_grammar(lines(text)[l]);
    lemma_make_commands_complete(lines(text), repo, cwd, l);
}

/// Position of the first `##` at or after `i` (`line.len()` when none).
pub open spec fn hash_pair_from(line: Seq<char>, i: int) -> int
    decreases line.len() - i,
{
    if i < 0 || i + 1 >= line.len() {
        line.len() as int
    } else if line[i] == '#' && line[i + 1] == '#' {
        i
    } else {
        hash_pair_from(line, i + 1)
    }
}

/// The description a line carries: what follows its first `##`, without
/// surrounding white space. When only white space follows, the description
/// is that run's last character; when nothing follows, there is none.
pub open spec fn doc_comment(line: Seq<char>) -> Option<Seq<char>> {
    let p = hash_pair_from(line, 0);
    if p + 2 >= line.len() {
        None
    } else {
        let rest = line.subrange(p + 2, line.len() as int);
        if all_ws(rest) {
            Some(seq![rest.last()])
        } else {
            Some(trim(rest))
        }
    }
}

/// `##` stands at `p`.
pub open spec fn hash_pair_at(line: Seq<char>, p: int) -> bool {
    0 <= p && p + 1 < line.len() && line[p] == '#' && line[p + 1] == '#'
}

proof fn lemma_hash_pair_first(line: Seq<char>, i: int, p: int)
    requires
        0 <= i <= p,
        hash_pair_at(line, p),
        forall|q: int| i <= q < p ==> !#[trigger] hash_pair_at(line, q),
    ensures
        hash_pair_from(line, i) == p,
    decreases p - i,
{
    if i < p {
        assert(!hash_pair_at(line, i));
        lemma_hash_pair_first(line, i + 1, p);
    }
}

proof fn lemma_hash_pair_none(line: Seq<char>, i: int)
    requires
        0 <= i,
        forall|q: int| i <= q ==> !#[trigger] hash_pair_at(line, q),
    ensures
        hash_pair_from(line, i) == line.len(),
    decreases line.len() - i,
{
    if i + 1 < line.len() {
        assert(!hash_pair_at(line, i));
        lemma_hash_pair_none(line, i + 1);
    }
}

/// The description comes from the first `##` of the line: none when the
/// line has no `##` or ends right after its first one; the trimmed rest
/// when the rest holds a non-white-space character; and the last character
/// when the rest is all white space.
pub proof fn lemma_doc_comment_cases(line: Seq<char>)
    ensures
        (forall|q: int| !#[trigger] hash_pair_at(line, q)) ==> doc_comment(line) is None,
        forall|p: int|
            #[trigger] hash_pair_at(line, p) && (forall|q: int| 0 <= q < p ==> !hash_pair_at(line, q))
                ==> {
                let rest = line.subrange(p + 2, line.len() as int);
                &&& rest.len() == 0 ==> doc_comment(line) is None
                &&& rest.len() > 0 && all_ws(rest) ==> doc_comment(line) == Some(seq![line.last()])
                &&& !all_ws(rest) ==> doc_comment(line) == Some(trim(rest))
            },
{
    if forall|q: int| !#[trigger] hash_pair_at(line, q) {
        lemma_hash_pair_none(line, 0);
    }
    assert forall|p: int|
        #[trigger] hash_pair_at(line, p) && (forall|q: int| 0 <= q < p ==> !hash_pair_at(line, q))
            implies {
            let rest = line.subrange(p + 2, line.len() as int);
            &&& rest.len() == 0 ==> doc_comment(line) is None
            &&& rest.len() > 0 && all_ws(rest) ==> doc_comment(line) == Some(seq![line.last()])
            &&& !all_ws(rest) ==> doc_comment(line) == Some(trim(rest))
        } by {
        lemma_hash_pair_first(line, 0, p);
        let rest = line.subrange(p + 2, line.len() as int);
        if rest.len() > 0 {
            assert(rest.last() == line.last());
        }
    }
}

/// Whether a target name is skipped: dot-directives and pattern rules.
pub open spec fn is_skipped_target(name: Seq<char>) -> bool {
    (name.len() > 0 && name[0] == '.') || (exists|k: int| 0 <= k < name.len() && name[k] == '%')
}

/// Whether some command of `cmds` already has this name.
pub open spec fn has_name(cmds: Seq<CommandView>, name: Seq<char>) -> bool {
    exists|j: int| 0 <= j < cmds.len() && #[trigger] cmds[j].name == name
}

/// The command a target becomes.
pub open spec fn make_command(
    name: Seq<char>,
    description: Option<Seq<char>>,
    repo: Seq<char>,
    cwd: Seq<char>,
) -> CommandView {
    command_of(repo, SourceType::Make, name, description, "make "@ + name, cwd)
}

/// The commands declared by `lines`, in order, first declaration winning.
pub open spec fn make_commands(lines: Seq<Seq<char>>, repo: Seq<char>, cwd: Seq<char>) -> Seq<
    CommandView,
>
    decreases lines.len(),
{
    if lines.len() == 0 {
        Seq::empty()
    } else {
        let prev = make_commands(lines.drop_last(), repo, cwd);
        let line = lines.last();
        match target_name(line) {
            Some(name) => if is_skipped_target(name) || has_name(prev, name) {
                prev
            } else {
                prev.push(make_command(name, doc_comment(line), repo, cwd))
            },
            None => prev,
        }
    }
}

/// The commands a Makefile's text declares.
pub open spec fn spec_parse(text: Seq<char>, repo: Seq<char>, cwd: Seq<char>) -> Seq<
    CommandView,
> {
    make_commands(lines(text), repo, cwd)
}

fn char_is_ascii_alnum(c: char) -> (r: bool)
    ensures
        r == is_ascii_alnum(c),
{
    let u = c as u32;
    (0x61 <= u && u <= 0x7a) || (0x41 <= u && u <= 0x5a) || (0x30 <= u && u <= 0x39)
}

fn char_is_name_char(c: char) -> (r: bool)
    ensures
        r == is_name_char(c),
{
    char_is_ascii_alnum(c) || c == '_' || c == '.' || c == '-'
}

/// Length of the target name a line declares, if it declares one.
fn target_name_len(line: &Vec<char>) -> (r: Option<usize>)
    ensures
        match r {
            Some(n) => n <= line.len() && target_name(line@) == Some(line@.subrange(0, n as int)),
            None => target_name(line@) is None,
        },
{
    if line.len() == 0 || !char_is_ascii_alnum(line[0]) {
        return None;
    }
    let mut n: usize = 1;
    while n < line.len() && char_is_name_char(line[n])
        invariant
            1 <= n <= line.len(),
            name_end(line@, 1) == name_end(line@, n as int),
        decreases line.len() - n,
    {
        n += 1;
    }
    let k = skip_ws_exec(line, n);
    if k < line.len() && line[k] == ':' && (k + 1 == line.len() || line[k + 1] != '=') {
        Some(n)
    } else {
        None
    }
}

/// Position of the first `##` at or after `i`.
fn hash_pair_exec(line: &Vec<char>, i: usize) -> (r: usize)
    requires
        i <= line.len(),
    ensures
        r as int == hash_pair_from(line@, i as int),
        r <= line.len(),
{
    let mut p = i;
    while line.len() > 0 && p < line.len() - 1 && !(line[p] == '#' && line[p + 1] == '#')
        invariant
            i <= p <= line.len(),
            hash_pair_from(line@, i as int) == hash_pair_from(line@, p as int),
        decreases line.len() - p,
    {
        p += 1;
    }
    if line.len() > 0 && p < line.len() - 1 {
        p
    } else {
        line.len()
    }
}

/// The description carried by a line's `## comment`, if any.
fn doc_comment_exec(line: &Vec<char>) -> (r: Option<String>)
    ensures
        r.deep_view() == doc_comment(line@),
{
    let p = hash_pair_exec(line, 0);
    if p >= line.len() || line.len() - p <= 2 {
        return None;
    }
    let start = p + 2;
    let ghost rest = line@.subrange(start as int, line@.len() as int);
    let a = skip_ws_exec(line, start);
    if a == line.len() {
        proof {
            assert forall|i: int| 0 <= i < rest.len() implies #[trigger] is_ws(rest[i]) by {
                lemma_skip_ws_all(line@, start as int, start + i);
            }
        }
        let last = line.len() - 1;
        return Some(string_of_range(line, last, line.len()));
    }
    let b = strip_ws_back_exec(line, a, line.len());
    proof {
        assert(!is_ws(rest[a - start]));
        lemma_skip_ws_shift(line@, start as int);
        lemma_strip_back_shift(line@, start as int, a as int, line@.len() as int);
        assert(rest.subrange(a - start, b - start) =~= line@.subrange(a as int, b as int));
    }
    Some(string_of_range(line, a, b))
}

/// Every character that `skip_ws` passes over is white space.
proof fn lemma_skip_ws_all(s: Seq<char>, i: int, j: int)
    requires
        0 <= i <= j < skip_ws(s, i),
        skip_ws(s, i) <= s.len(),
    ensures
        is_ws(s[j]),
    decreases j - i,
{
    if i < j {
        lemma_skip_ws_all(s, i + 1, j);
    }
}

/// `skip_ws` inside a suffix is `skip_ws` on the whole, shifted.
proof fn lemma_skip_ws_shift(s: Seq<char>, start: int)
    requires
        0 <= start <= s.len(),
    ensures
        skip_ws(s.subrange(start, s.len() as int), 0) == skip_ws(s, start) - start,
{
    lemma_skip_ws_shift_from(s, start, 0);
}

proof fn lemma_skip_ws_shift_from(s: Seq<char>, start: int, i: int)
    requires
        0 <= start <= s.len(),
        0 <= i <= s.len() - start,
    ensures
        skip_ws(s.subrange(start, s.len() as int), i) == skip_ws(s, start + i) - start,
    decreases s.len() - start - i,
{
    let r = s.subrange(start, s.len() as int);
    if i < r.len() {
        assert(r[i] == s[start + i]);
        if is_ws(r[i]) {
            lemma_skip_ws_shift_from(s, start, i + 1);
        }
    }
}

/// `strip_ws_back` inside a suffix is `strip_ws_back` on the whole, shifted.
proof fn lemma_strip_back_shift(s: Seq<char>, start: int, lo: int, j: int)
    requires
        0 <= start <= lo <= j <= s.len(),
    ensures
        crate::text::strip_ws_back(s.subrange(start, s.len() as int), lo - start, j - start)
            == crate::text::strip_ws_back(s, lo, j) - start,
    decreases j - lo,
{
    let r = s.subrange(start, s.len() as int);
    if j > lo {
        assert(r[j - start - 1] == s[j - 1]);
        if is_ws(s[j - 1]) {
            lemma_strip_back_shift(s, start, lo, j - 1);
        }
    }
}

/// Whether `line[0..n]` contains a `%`.
fn has_percent(line: &Vec<char>, n: usize) -> (r: bool)
    requires
        n <= line.len(),
    ensures
        r == exists|k: int| 0 <= k < n && line@[k] == '%',
{
    let mut k: usize = 0;
    while k < n
        invariant
            k <= n <= line.len(),
            forall|m: int| 0 <= m < k ==> line@[m] != '%',
        decreases n - k,
    {
        if line[k] == '%' {
            return true;
        }
        k += 1;
    }
    false
}

/// Whether a command of `cmds` already has this name.
fn name_seen(cmds: &Vec<DiscoveredCommand>, name: &String) -> (r: bool)
    ensures
        r == has_name(command_views(cmds@), name@),
{
    let ghost views = command_views(cmds@);
    let mut j: usize = 0;
    while j < cmds.len()
        invariant
            j <= cmds.len(),
            views == command_views(cmds@),
            forall|m: int| 0 <= m < j ==> #[trigger] views[m].name != name@,
        decreases cmds.len() - j,
    {
        if cmds[j].name == *name {
            assert(views[j as int].name == name@);
            return true;
        }
        j += 1;
    }
    false
}

/// Parse a Makefile's text into the targets it declares.
pub fn parse(text: &str, repo: &str, cwd: &str) -> (out: Vec<DiscoveredCommand>)
    ensures
        command_views(out@) == spec_parse(text@, repo@, cwd@),
{
    let chars = chars_of(text);
    let rows = split_lines(&chars);
    let ghost ls = lines(text@);
    let mut out: Vec<DiscoveredCommand> = Vec::new();
    let mut i: usize = 0;
    while i < rows.len()
        invariant
            i <= rows.len(),
            char_rows(rows@) == ls,
            command_views(out@) == make_commands(ls.take(i as int), repo@, cwd@),
        decreases rows.len() - i,
    {
        let line = &rows[i];
        proof {
            assert(ls.take(i + 1).drop_last() =~= ls.take(i as int));
            assert(ls.take(i + 1).last() == line@);
        }
        let ghost prev = command_views(out@);
        match target_name_len(line) {
            None => {},
            Some(n) => {
                let starts_with_dot = n > 0 && line[0] == '.';
                let has_pct = has_percent(line, n);
                let ghost nm = line@.subrange(0, n as int);
                proof {
                    if n > 0 {
                        assert(nm[0] == line@[0]);
                    }
                    if has_pct {
                        let k = choose|k: int| 0 <= k < n && line@[k] == '%';
                        assert(nm[k] == '%');
                    } else {
                        assert forall|k: int| 0 <= k < nm.len() implies nm[k] != '%' by {
                            assert(nm[k] == line@[k]);
                        }
                    }
                    assert(is_skipped_target(nm) == (starts_with_dot || has_pct));
                }
                if !starts_with_dot && !has_pct {
                    let name = string_of_range(line, 0, n);
                    if !name_seen(&out, &name) {
                        let description = doc_comment_exec(line);
                        let invocation = concat("make ", name.as_str());
                        let cmd = DiscoveredCommand::new(
                            repo.to_owned(),
                            SourceType::Make,
                            name,
                            description,
                            invocation,
                            cwd.to_owned(),
                        );
                        out.push(cmd);
                        assert(command_views(out@) =~= prev.push(cmd@));
                    }
                }
            },
        }
        i += 1;
    }
    assert(ls.take(rows.len() as int) =~= ls);
    out
}

/// The commands of `cmds` whose names `seen` does not already hold.
pub open spec fn drop_names(cmds: Seq<CommandView>, seen: Seq<CommandView>) -> Seq<CommandView>
    decreases cmds.len(),
{
    if cmds.len() == 0 {
        Seq::empty()
    } else {
        let prev = drop_names(cmds.drop_last(), seen);
        if has_name(seen, cmds.last().name) {
            prev
        } else {
            prev.push(cmds.last())
        }
    }
}

proof fn lemma_has_name_concat(a: Seq<CommandView>, b: Seq<CommandView>, n: Seq<char>)
    ensures
        has_name(a + b, n) <==> has_name(a, n) || has_name(b, n),
{
    if has_name(a + b, n) {
        let j = choose|j: int| 0 <= j < (a + b).len() && #[trigger] (a + b)[j].name == n;
        if j >= a.len() {
            assert(b[j - a.len()] == (a + b)[j]);
        }
    }
    if has_name(a, n) {
        let j = choose|j: int| 0 <= j < a.len() && #[trigger] a[j].name == n;
        assert((a + b)[j] == a[j]);
    }
    if has_name(b, n) {
        let j = choose|j: int| 0 <= j < b.len() && #[trigger] b[j].name == n;
        assert((a + b)[a.len() + j] == b[j]);
    }
}

proof fn lemma_has_name_drop(cmds: Seq<CommandView>, seen: Seq<CommandView>, n: Seq<char>)
    ensures
        has_name(drop_names(cmds, seen), n) <==> has_name(cmds, n) && !has_name(seen, n),
    decreases cmds.len(),
{
    if cmds.len() > 0 {
        let init = cmds.drop_last();
        lemma_has_name_drop(init, seen, n);
        assert(cmds =~= init.push(cmds.last()));
        lemma_has_name_concat(init, seq![cmds.last()], n);
        let d = drop_names(cmds, seen);
        let p = drop_names(init, seen);
        if !has_name(seen, cmds.last().name) {
            assert(d =~= p + seq![cmds.last()]);
            lemma_has_name_concat(p, seq![cmds.last()], n);
        }
        if has_name(seq![cmds.last()], n) {
            assert(seq![cmds.last()][0].name == n);
        }
        if cmds.last().name == n {
            assert(seq![cmds.last()][0].name == n);
        }
    }
}

/// Processing `l1` and then `l2` gives the commands of `l1` followed by
/// those of `l2` whose names are new.
pub proof fn lemma_make_commands_concat(
    l1: Seq<Seq<char>>,
    l2: Seq<Seq<char>>,
    repo: Seq<char>,
    cwd: Seq<char>,
)
    ensures
        make_commands(l1 + l2, repo, cwd) == make_commands(l1, repo, cwd) + drop_names(
            make_commands(l2, repo, cwd),
            make_commands(l1, repo, cwd),
        ),
    decreases l2.len(),
{
    let c1 = make_commands(l1, repo, cwd);
    if l2.len() == 0 {
        assert(l1 + l2 =~= l1);
        assert(c1 + Seq::<CommandView>::empty() =~= c1);
    } else {
        let l2p = l2.drop_last();
        lemma_make_commands_concat(l1, l2p, repo, cwd);
        assert((l1 + l2).drop_last() =~= l1 + l2p);
        assert((l1 + l2).last() == l2.last());
        let c2p = make_commands(l2p, repo, cwd);
        let c2 = make_commands(l2, repo, cwd);
        let prev = make_commands(l1 + l2p, repo, cwd);
        let line = l2.last();
        match target_name(line) {
            Some(name) => {
                if !is_skipped_target(name) {
                    lemma_has_name_concat(c1, drop_names(c2p, c1), name);
                    lemma_has_name_drop(c2p, c1, name);
                    let cmd = make_command(name, doc_comment(line), repo, cwd);
                    if !has_name(c2p, name) {
                        assert(c2 == c2p.push(cmd));
                        assert(c2.drop_last() =~= c2p);
                        assert(c2.last() == cmd);
                        if !has_name(c1, name) {
                            assert(drop_names(c2, c1) == drop_names(c2p, c1).push(cmd));
                            assert(prev.push(cmd) =~= c1 + drop_names(c2p, c1).push(cmd));
                        } else {
                            assert(drop_names(c2, c1) == drop_names(c2p, c1));
                        }
                    }
                }
            },
            None => {},
        }
    }
}

/// Parsing a text joined at a line break gives the commands of the first
/// part followed by those of the second part whose names are new.
pub proof fn lemma_parse_concat(t1: Seq<char>, t2: Seq<char>, repo: Seq<char>, cwd: Seq<char>)
    requires
        t1.len() == 0 || t1.last() == '\n',
    ensures
        spec_parse(t1 + t2, repo, cwd) == spec_parse(t1, repo, cwd) + drop_names(
            spec_parse(t2, repo, cwd),
            spec_parse(t1, repo, cwd),
        ),
{
    crate::text::lemma_lines_concat(t1, t2);
    lemma_make_commands_concat(lines(t1), lines(t2), repo, cwd);
}

/// Facts every result of `make_commands` keeps: each command is a `make`
/// invocation of a target some line declares, with the given repo and
/// working directory, no dot-directive or pattern rule among them, and no
/// name twice.
pub proof fn lemma_make_commands_shape(lines: Seq<Seq<char>>, repo: Seq<char>, cwd: Seq<char>)
    ensures
        forall|i: int|
            0 <= i < make_commands(lines, repo, cwd).len() ==> {
                let c = #[trigger] make_commands(lines, repo, cwd)[i];
                &&& c.source == SourceType::Make
                &&& c.invocation == "make "@ + c.name
                &&& c.repo == repo
                &&& c.cwd == cwd
                &&& c.id == super::spec_stable_id(SourceType::Make, cwd, c.name)
                &&& !is_skipped_target(c.name)
                &&& exists|l: int| 0 <= l < lines.len() && target_name(lines[l]) == Some(c.name)
            },
        forall|i: int, j: int|
            0 <= i < j < make_commands(lines, repo, cwd).len() ==> make_commands(
                lines,
                repo,
                cwd,
            )[i].name != make_commands(lines, repo, cwd)[j].name,
    decreases lines.len(),
{
    if lines.len() > 0 {
        let prev = make_commands(lines.drop_last(), repo, cwd);
        lemma_make_commands_shape(lines.drop_last(), repo, cwd);
        let cur = make_commands(lines, repo, cwd);
        assert forall|i: int| 0 <= i < cur.len() implies {
            let c = #[trigger] cur[i];
            &&& c.source == SourceType::Make
            &&& c.invocation == "make "@ + c.name
            &&& c.repo == repo
            &&& c.cwd == cwd
            &&& c.id == super::spec_stable_id(SourceType::Make, cwd, c.name)
            &&& !is_skipped_target(c.name)
            &&& exists|l: int| 0 <= l < lines.len() && target_name(lines[l]) == Some(c.name)
        } by {
            if i < prev.len() {
                assert(cur[i] == prev[i]);
                let l = choose|l: int|
                    0 <= l < lines.drop_last().len() && target_name(lines.drop_last()[l])
                        == Some(prev[i].name);
                assert(lines[l] == lines.drop_last()[l]);
            } else {
                assert(target_name(lines[lines.len() - 1]) == Some(cur[i].name));
            }
        }
        assert forall|i: int, j: int| 0 <= i < j < cur.len() implies cur[i].name
            != cur[j].name by {
            if j < prev.len() {
                assert(cur[i] == prev[i] && cur[j] == prev[j]);
            } else {
                assert(cur[i] == prev[i]);
                if cur[i].name == cur[j].name {
                    assert(has_name(prev, cur[j].name));
                }
            }
        }
    }
}

/// Every declared target that is not skipped ends up among the commands.
pub proof fn lemma_make_commands_complete(
    lines: Seq<Seq<char>>,
    repo: Seq<char>,
    cwd: Seq<char>,
    l: int,
)
    requires
        0 <= l < lines.len(),
        target_name(lines[l]) is Some,
        !is_skipped_target(target_name(lines[l])->0),
    ensures
        has_name(make_commands(lines, repo, cwd), target_name(lines[l])->0),
    decreases lines.len(),
{
    let prev = make_commands(lines.drop_last(), repo, cwd);
    let cur = make_commands(lines, repo, cwd);
    let name = target_name(lines[l])->0;
    if l < lines.len() - 1 {
        assert(lines.drop_last()[l] == lines[l]);
        lemma_make_commands_complete(lines.drop_last(), repo, cwd, l);
        let j = choose|j: int| 0 <= j < prev.len() && #[trigger] prev[j].name == name;
        assert(cur[j] == prev[j]);
    } else {
        if !has_name(prev, name) {
            assert(cur[prev.len() as int].name == name);
        } else {
            let j = choose|j: int| 0 <= j < prev.len() && #[trigger] prev[j].name == name;
            assert(cur[j] == prev[j]);
        }
    }
}

} // verus!
