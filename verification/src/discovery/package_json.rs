//! Commands from a `package.json` `scripts` map.
//!
//! The invocation is `<runner> run <name>`, where the runner is chosen by the
//! lockfile found beside the manifest (pnpm, then yarn, defaulting to npm).
//! A script's body is its description, unless the body is blank.
//!
//! Decoding the JSON text into a `PackageJson` is done by the caller with
//! serde; a document that does not decode is passed as `None`.

use vstd::prelude::*;
use crate::text::{all_ws, chars_of, concat, is_blank};
use super::{command_of, command_views, CommandView, DiscoveredCommand, SourceType};

verus! {

/// The package manager used to run scripts, decided by lockfile presence.
#[derive(Debug, Clone, Copy, PartialEq, Eq, Structural)]
pub enum Runner {
    Npm,
    Pnpm,
    Yarn,
}

/// The program name of a runner.
pub open spec fn runner_text(r: Runner) -> Seq<char> {
    match r {
        Runner::Npm => "npm"@,
        Runner::Pnpm => "pnpm"@,
        Runner::Yarn => "yarn"@,
    }
}

impl Runner {
    pub fn cmd(self) -> (r: &'static str)
        ensures
            r@ == runner_text(self),
    {
        match self {
            Runner::Npm => "npm",
            Runner::Pnpm => "pnpm",
            Runner::Yarn => "yarn",
        }
    }
}

/// The runner chosen by the lockfiles present: pnpm's wins over yarn's, and
/// with neither it is npm.
pub open spec fn runner_for(has_pnpm_lock: bool, has_yarn_lock: bool) -> Runner {
    if has_pnpm_lock {
        Runner::Pnpm
    } else if has_yarn_lock {
        Runner::Yarn
    } else {
        Runner::Npm
    }
}

/// A pnpm lockfile selects pnpm whatever else is present; otherwise a yarn
/// lockfile selects yarn; with neither the runner is npm. Each runner's
/// program is `npm`, `pnpm` or `yarn`.
pub proof fn lemma_runner_choice(has_pnpm_lock: bool, has_yarn_lock: bool)
    ensures
        has_pnpm_lock ==> runner_for(has_pnpm_lock, has_yarn_lock) == Runner::Pnpm,
        !has_pnpm_lock && has_yarn_lock ==> runner_for(has_pnpm_lock, has_yarn_lock)
            == Runner::Yarn,
        !has_pnpm_lock && !has_yarn_lock ==> runner_for(has_pnpm_lock, has_yarn_lock)
            == Runner::Npm,
        runner_text(Runner::Npm) == "npm"@,
        runner_text(Runner::Pnpm) == "pnpm"@,
        runner_text(Runner::Yarn) == "yarn"@,
{
}

/// Choose the runner from which lockfiles (`pnpm-lock.yaml`, `yarn.lock`)
/// exist beside the manifest.
pub fn detect_runner(has_pnpm_lock: bool, has_yarn_lock: bool) -> (r: Runner)
    ensures
        r == runner_for(has_pnpm_lock, has_yarn_lock),
        has_pnpm_lock ==> r == Runner::Pnpm,
        !has_pnpm_lock && has_yarn_lock ==> r == Runner::Yarn,
        !has_pnpm_lock && !has_yarn_lock ==> r == Runner::Npm,
{
    if has_pnpm_lock {
        Runner::Pnpm
    } else if has_yarn_lock {
        Runner::Yarn
    } else {
        Runner::Npm
    }
}

/// `<runner> run <name>`.
pub open spec fn invocation_text(runner: Runner, name: Seq<char>) -> Seq<char> {
    runner_text(runner) + " run "@ + name
}

/// The invocation string for a script name under a given runner.
pub fn invocation_for(runner: Runner, name: &str) -> (r: String)
    ensures
        r@ == invocation_text(runner, name@),
        r@ == runner_text(runner) + " run "@ + name@,
{
    let head = concat(runner.cmd(), " run ");
    concat(head.as_str(), name)
}

/// The part of a `package.json` the launcher reads: its `scripts` map as
/// (name, body) pairs, in the map's order. Decoded from a JSON object into
/// an ordered map, its names are strictly ascending (`wf`).
pub struct PackageJson {
    pub scripts: Vec<(String, String)>,
}

/// `a < b` for strings: lexicographic by code point, which is the order of
/// their UTF-8 bytes and so the order of `String` keys in a `BTreeMap`.
pub open spec fn text_lt(a: Seq<char>, b: Seq<char>) -> bool
    decreases a.len(),
{
    if a.len() == 0 {
        b.len() > 0
    } else if b.len() == 0 {
        false
    } else if (a[0] as u32) < (b[0] as u32) {
        true
    } else if a[0] == b[0] {
        text_lt(a.drop_first(), b.drop_first())
    } else {
        false
    }
}

/// No text is below itself.
pub proof fn lemma_text_lt_irreflexive(a: Seq<char>)
    ensures
        !text_lt(a, a),
    decreases a.len(),
{
    if a.len() > 0 {
        lemma_text_lt_irreflexive(a.drop_first());
    }
}

/// Each name is below every later one.
pub open spec fn names_strictly_ascending(names: Seq<Seq<char>>) -> bool {
    forall|i: int, j: int| 0 <= i < j < names.len() ==> text_lt(#[trigger] names[i], #[trigger] names[j])
}

/// The names of a scripts list.
pub open spec fn script_names(s: Seq<(Seq<char>, Seq<char>)>) -> Seq<Seq<char>> {
    s.map_values(|p: (Seq<char>, Seq<char>)| p.0)
}

/// The names of a sequence of commands.
pub open spec fn command_names(cmds: Seq<CommandView>) -> Seq<Seq<char>> {
    cmds.map_values(|c: CommandView| c.name)
}

impl PackageJson {
    /// The scripts come as from an ordered map: names strictly ascending.
    pub open spec fn wf(&self) -> bool {
        names_strictly_ascending(script_names(script_views(self.scripts@)))
    }
}

/// The (name, body) pairs of a scripts list, as character sequences.
pub open spec fn script_views(s: Seq<(String, String)>) -> Seq<(Seq<char>, Seq<char>)> {
    s.map_values(|p: (String, String)| (p.0@, p.1@))
}

/// The command a script becomes.
pub open spec fn script_command(
    name: Seq<char>,
    body: Seq<char>,
    repo: Seq<char>,
    cwd: Seq<char>,
    runner: Runner,
) -> CommandView {
    command_of(
        repo,
        SourceType::Npm,
        name,
        if all_ws(body) {
            None
        } else {
            Some(body)
        },
        invocation_text(runner, name),
        cwd,
    )
}

/// The commands of a decoded document (none when it did not decode).
pub open spec fn spec_parse(
    doc: Option<Seq<(Seq<char>, Seq<char>)>>,
    repo: Seq<char>,
    cwd: Seq<char>,
    runner: Runner,
) -> Seq<CommandView> {
    match doc {
        None => Seq::empty(),
        Some(scripts) => scripts.map_values(
            |p: (Seq<char>, Seq<char>)| script_command(p.0, p.1, repo, cwd, runner),
        ),
    }
}

/// The view of a possibly-absent document.
pub open spec fn doc_view(doc: Option<PackageJson>) -> Option<Seq<(Seq<char>, Seq<char>)>> {
    match doc {
        None => None,
        Some(d) => Some(script_views(d.scripts@)),
    }
}

/// The commands of a `package.json`: one per script, in the scripts' order,
/// run with `runner` in `cwd`. A document that did not decode yields none.
/// Scripts taken from an ordered map (names strictly ascending) give
/// commands whose names are strictly ascending, hence distinct.
pub fn parse(doc: &Option<PackageJson>, repo: &str, cwd: &str, runner: Runner) -> (out: Vec<
    DiscoveredCommand,
>)
    ensures
        command_views(out@) == spec_parse(doc_view(*doc), repo@, cwd@, runner),
        (*doc matches Some(d) && d.wf()) ==> names_strictly_ascending(
            command_names(command_views(out@)),
        ),
        (*doc matches Some(d) && d.wf()) ==> forall|i: int, j: int|
            0 <= i < j < out.len() ==> out@[i].name@ != out@[j].name@,
{
    let out = parse_scripts(doc, repo, cwd, runner);
    proof {
        if let Some(d) = doc {
            if d.wf() {
                lemma_parse_keeps_names(script_views(d.scripts@), repo@, cwd@, runner);
                assert forall|i: int, j: int| 0 <= i < j < out.len() implies out@[i].name@
                    != out@[j].name@ by {
                    assert(command_views(out@)[i].name == out@[i].name@);
                    assert(command_views(out@)[j].name == out@[j].name@);
                    assert(text_lt(
                        command_names(command_views(out@))[i],
                        command_names(command_views(out@))[j],
                    ));
                    lemma_text_lt_irreflexive(out@[i].name@);
                }
            }
        }
    }
    out
}

/// The commands a script list gives have the scripts' names, in order.
pub proof fn lemma_parse_keeps_names(
    scripts: Seq<(Seq<char>, Seq<char>)>,
    repo: Seq<char>,
    cwd: Seq<char>,
    runner: Runner,
)
    ensures
        command_names(spec_parse(Some(scripts), repo, cwd, runner)) == script_names(scripts),
{
    assert(command_names(spec_parse(Some(scripts), repo, cwd, runner)) =~= script_names(
        scripts,
    ));
}

/// One command per script of the document, in order.
fn parse_scripts(doc: &Option<PackageJson>, repo: &str, cwd: &str, runner: Runner) -> (out: Vec<
    DiscoveredCommand,
>)
    ensures
        command_views(out@) == spec_parse(doc_view(*doc), repo@, cwd@, runner),
{
    let mut out: Vec<DiscoveredCommand> = Vec::new();
    match doc {
        None => {
            assert(command_views(out@) =~= Seq::<CommandView>::empty());
            out
        },
        Some(d) => {
            let ghost want = spec_parse(doc_view(*doc), repo@, cwd@, runner);
            let mut i: usize = 0;
            while i < d.scripts.len()
                invariant
                    i <= d.scripts.len(),
                    want == spec_parse(doc_view(*doc), repo@, cwd@, runner),
                    *doc == Some(*d),
                    want.len() == d.scripts.len(),
                    command_views(out@) == want.take(i as int),
                decreases d.scripts.len() - i,
            {
                let name = &d.scripts[i].0;
                let body = &d.scripts[i].1;
                let body_chars = chars_of(body.as_str());
                let description = if is_blank(&body_chars) {
                    None
                } else {
                    Some(body.clone())
                };
                let invocation = invocation_for(runner, name.as_str());
                let cmd = DiscoveredCommand::new(
                    repo.to_owned(),
                    SourceType::Npm,
                    name.clone(),
                    description,
                    invocation,
                    cwd.to_owned(),
                );
                let ghost prev = command_views(out@);
                out.push(cmd);
                proof {
                    assert(cmd@ == want[i as int]);
                    assert(command_views(out@) =~= prev.push(cmd@));
                    assert(want.take(i + 1) =~= want.take(i as int).push(want[i as int]));
                }
                i += 1;
            }
            assert(want.take(want.len() as int) =~= want);
            out
        },
    }
}

/// One command per script, in order: each named after its script, run as
/// `<runner> run <name>` from `cwd`, described by its body unless the body
/// is blank; a document that did not decode gives no command.
pub proof fn lemma_parse_shape(
    doc: Option<Seq<(Seq<char>, Seq<char>)>>,
    repo: Seq<char>,
    cwd: Seq<char>,
    runner: Runner,
)
    ensures
        doc is None ==> spec_parse(doc, repo, cwd, runner).len() == 0,
        doc matches Some(scripts) ==> {
            &&& spec_parse(doc, repo, cwd, runner).len() == scripts.len()
            &&& forall|i: int|
                0 <= i < scripts.len() ==> {
                    let c = #[trigger] spec_parse(doc, repo, cwd, runner)[i];
                    &&& c.name == scripts[i].0
                    &&& c.source == SourceType::Npm
                    &&& c.invocation == runner_text(runner) + " run "@ + scripts[i].0
                    &&& c.repo == repo
                    &&& c.cwd == cwd
                    &&& (c.description is None <==> all_ws(scripts[i].1))
                    &&& (c.description matches Some(d) ==> d == scripts[i].1)
                }
        },
{
}

} // verus!
