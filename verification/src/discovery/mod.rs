//! Discovery: the runnable commands that already exist in a user's repos.
//!
//! Each parser turns the text of a committed file (package.json, Makefile)
//! into `DiscoveredCommand`s. A command's `id` is derived from its identity
//! (source, working directory, name) alone, so a rescan of unchanged files
//! yields the same ids. Walking the file system and reading files is done by
//! the caller; the choices it makes along the way (which directories to
//! skip, which files are manifests, which ancestor is the repo root) are
//! made here.

pub mod makefile;
pub mod package_json;

use vstd::prelude::*;
use crate::text::{chars_of, str_eq, string_of};

verus! {

/// Where a discovered command came from.
#[derive(Debug, Clone, Copy, PartialEq, Eq, Structural)]
pub enum SourceType {
    Npm,
    Make,
}

/// The text form of a source type.
pub open spec fn source_text(s: SourceType) -> Seq<char> {
    match s {
        SourceType::Npm => "npm"@,
        SourceType::Make => "make"@,
    }
}

/// The source type a text names, if any.
pub open spec fn source_of_text(s: Seq<char>) -> Option<SourceType> {
    if s == "npm"@ {
        Some(SourceType::Npm)
    } else if s == "make"@ {
        Some(SourceType::Make)
    } else {
        None
    }
}

impl SourceType {
    pub fn as_str(self) -> (r: &'static str)
        ensures
            r@ == source_text(self),
    {
        match self {
            SourceType::Npm => "npm",
            SourceType::Make => "make",
        }
    }

    pub fn from_str(s: &str) -> (r: Option<Self>)
        ensures
            r == source_of_text(s@),
    {
        if str_eq(s, "npm") {
            Some(SourceType::Npm)
        } else if str_eq(s, "make") {
            Some(SourceType::Make)
        } else {
            None
        }
    }
}

/// A single runnable command discovered in a repo.
#[derive(Debug, Clone)]
pub struct DiscoveredCommand {
    /// Stable identity derived from (source, cwd, name).
    pub id: String,
    /// Nearest ancestor dir that looks like a repo root.
    pub repo: String,
    pub source: SourceType,
    pub name: String,
    pub description: Option<String>,
    /// The resolved invocation, e.g. `npm run build` or `make test`.
    pub invocation: String,
    /// Absolute working directory the command should run in.
    pub cwd: String,
}

/// The view of a `DiscoveredCommand`: its fields as character sequences.
pub struct CommandView {
    pub id: Seq<char>,
    pub repo: Seq<char>,
    pub source: SourceType,
    pub name: Seq<char>,
    pub description: Option<Seq<char>>,
    pub invocation: Seq<char>,
    pub cwd: Seq<char>,
}

impl View for DiscoveredCommand {
    type V = CommandView;

    open spec fn view(&self) -> CommandView {
        CommandView {
            id: self.id@,
            repo: self.repo@,
            source: self.source,
            name: self.name@,
            description: self.description.deep_view(),
            invocation: self.invocation@,
            cwd: self.cwd@,
        }
    }
}

/// The views of a sequence of commands.
pub open spec fn command_views(v: Seq<DiscoveredCommand>) -> Seq<CommandView> {
    v.map_values(|c: DiscoveredCommand| c@)
}

/// The command that `DiscoveredCommand::new` builds from these fields.
pub open spec fn command_of(
    repo: Seq<char>,
    source: SourceType,
    name: Seq<char>,
    description: Option<Seq<char>>,
    invocation: Seq<char>,
    cwd: Seq<char>,
) -> CommandView {
    CommandView {
        id: spec_stable_id(source, cwd, name),
        repo,
        source,
        name,
        description,
        invocation,
        cwd,
    }
}

impl DiscoveredCommand {
    pub fn new(
        repo: String,
        source: SourceType,
        name: String,
        description: Option<String>,
        invocation: String,
        cwd: String,
    ) -> (c: Self)
        ensures
            c@ == command_of(
                repo@,
                source,
                name@,
                description.deep_view(),
                invocation@,
                cwd@,
            ),
    {
        let id = stable_id(source, cwd.as_str(), name.as_str());
        DiscoveredCommand { id, repo, source, name, description, invocation, cwd }
    }
}

/// FNV-1a offset basis (64 bit).
pub const FNV_OFFSET: u64 = 0xcbf29ce484222325;

/// FNV-1a prime (64 bit).
pub const FNV_PRIME: u64 = 0x100000001b3;

/// One FNV-1a round: xor in the byte, then multiply modulo 2^64.
pub open spec fn fnv_step(h: u64, b: u8) -> u64 {
    (h ^ (b as u64)).wrapping_mul(FNV_PRIME)
}

/// FNV-1a over `bytes`, starting from hash state `h`.
pub open spec fn fnv_fold(h: u64, bytes: Seq<u8>) -> u64
    decreases bytes.len(),
{
    if bytes.len() == 0 {
        h
    } else {
        fnv_step(fnv_fold(h, bytes.drop_last()), bytes.last())
    }
}

/// The bytes hashed for an id: the UTF-8 of source, cwd and name, joined by
/// NUL bytes.
pub open spec fn identity_bytes(source: SourceType, cwd: Seq<char>, name: Seq<char>) -> Seq<
    u8,
> {
    vstd::utf8::encode_utf8(source_text(source)) + seq![0u8] + vstd::utf8::encode_utf8(cwd)
        + seq![0u8] + vstd::utf8::encode_utf8(name)
}

/// Lower-case hexadecimal digit of `d` (0 <= d < 16).
pub open spec fn hex_digit(d: int) -> char {
    if d < 10 {
        (d + 48) as char
    } else {
        (d + 87) as char
    }
}

/// The last `n` hexadecimal digits of `v`, most significant first and
/// padded with zeros (`{:0nx}` for a value below 16^n).
pub open spec fn hex_digits(v: nat, n: nat) -> Seq<char>
    decreases n,
{
    if n == 0 {
        Seq::empty()
    } else {
        hex_digits(v / 16, (n - 1) as nat).push(hex_digit((v % 16) as int))
    }
}

/// The id of a command: `<source>-<16 hex digits of the FNV-1a hash of its
/// identity bytes>`.
pub open spec fn spec_stable_id(source: SourceType, cwd: Seq<char>, name: Seq<char>) -> Seq<char> {
    source_text(source) + seq!['-'] + hex_digits(
        fnv_fold(FNV_OFFSET, identity_bytes(source, cwd, name)) as nat,
        16,
    )
}

/// Hashing `a` and then `b` is hashing `a + b`.
pub proof fn lemma_fnv_concat(h: u64, a: Seq<u8>, b: Seq<u8>)
    ensures
        fnv_fold(fnv_fold(h, a), b) == fnv_fold(h, a + b),
    decreases b.len(),
{
    if b.len() == 0 {
        assert(a + b =~= a);
    } else {
        lemma_fnv_concat(h, a, b.drop_last());
        assert((a + b).drop_last() =~= a + b.drop_last());
        assert((a + b).last() == b.last());
    }
}

fn fnv_step_exec(h: u64, b: u8) -> (r: u64)
    ensures
        r == fnv_step(h, b),
{
    (h ^ (b as u64)).wrapping_mul(FNV_PRIME)
}

/// Feeds `bytes` into the hash state `h`.
fn fnv_mix(h: u64, bytes: &[u8]) -> (r: u64)
    ensures
        r == fnv_fold(h, bytes@),
{
    let mut hash = h;
    let mut i: usize = 0;
    while i < bytes.len()
        invariant
            i <= bytes@.len(),
            hash == fnv_fold(h, bytes@.take(i as int)),
        decreases bytes.len() - i,
    {
        assert(bytes@.take(i + 1).drop_last() =~= bytes@.take(i as int));
        hash = fnv_step_exec(hash, bytes[i]);
        i += 1;
    }
    assert(bytes@.take(bytes@.len() as int) =~= bytes@);
    hash
}

fn hex_char(d: u64) -> (c: char)
    requires
        d < 16,
    ensures
        c == hex_digit(d as int),
{
    if d < 10 {
        ((d + 48) as u8) as char
    } else {
        ((d + 87) as u8) as char
    }
}

/// `hex_digits(v, n)` as characters.
fn hex_chars(v: u64, n: usize) -> (r: Vec<char>)
    ensures
        r@ == hex_digits(v as nat, n as nat),
    decreases n,
{
    if n == 0 {
        Vec::new()
    } else {
        let mut r = hex_chars(v / 16, n - 1);
        r.push(hex_char(v % 16));
        r
    }
}

/// Hashing a single byte is one round.
proof fn lemma_fnv_one(h: u64, b: u8)
    ensures
        fnv_fold(h, seq![b]) == fnv_step(h, b),
{
    let z = seq![b];
    assert(z.drop_last() =~= Seq::<u8>::empty());
    assert(fnv_fold(h, z.drop_last()) == h);
}

/// Hashing the three fields in turn, with a NUL round between them, is
/// hashing `identity_bytes`.
proof fn lemma_identity_hash(source: SourceType, cwd: Seq<char>, name: Seq<char>)
    ensures
        fnv_fold(
            fnv_step(
                fnv_fold(
                    fnv_step(fnv_fold(FNV_OFFSET, vstd::utf8::encode_utf8(source_text(source))), 0),
                    vstd::utf8::encode_utf8(cwd),
                ),
                0,
            ),
            vstd::utf8::encode_utf8(name),
        ) == fnv_fold(FNV_OFFSET, identity_bytes(source, cwd, name)),
{
    let a = vstd::utf8::encode_utf8(source_text(source));
    let c = vstd::utf8::encode_utf8(cwd);
    let n = vstd::utf8::encode_utf8(name);
    let z = seq![0u8];
    lemma_fnv_one(fnv_fold(FNV_OFFSET, a), 0);
    lemma_fnv_concat(FNV_OFFSET, a, z);
    lemma_fnv_concat(FNV_OFFSET, a + z, c);
    lemma_fnv_one(fnv_fold(FNV_OFFSET, a + z + c), 0);
    lemma_fnv_concat(FNV_OFFSET, a + z + c, z);
    lemma_fnv_concat(FNV_OFFSET, a + z + c + z, n);
}

/// Deterministic id from the identity tuple; not cryptographic, just a
/// stable cache key (FNV-1a over the joined fields, hex-encoded).
fn stable_id(source: SourceType, cwd: &str, name: &str) -> (id: String)
    ensures
        id@ == spec_stable_id(source, cwd@, name@),
{
    let s = source.as_str();
    let mut hash = fnv_mix(FNV_OFFSET, s.as_bytes());
    hash = fnv_step_exec(hash, 0);
    hash = fnv_mix(hash, cwd.as_bytes());
    hash = fnv_step_exec(hash, 0);
    hash = fnv_mix(hash, name.as_bytes());
    proof {
        lemma_identity_hash(source, cwd@, name@);
    }
    let mut out = chars_of(s);
    out.push('-');
    let digits = hex_chars(hash, 16);
    let ghost before = out@;
    let mut i: usize = 0;
    while i < digits.len()
        invariant
            i <= digits.len(),
            out@ == before + digits@.take(i as int),
        decreases digits.len() - i,
    {
        out.push(digits[i]);
        i += 1;
        assert(out@ =~= before + digits@.take(i as int));
    }
    assert(digits@.take(digits@.len() as int) =~= digits@);
    string_of(&out)
}

/// `SourceType::from_str` undoes `SourceType::as_str`.
pub proof fn lemma_source_text_roundtrip(s: SourceType)
    ensures
        source_of_text(source_text(s)) == Some(s),
{
    reveal_strlit("npm");
    reveal_strlit("make");
    assert("npm"@.len() != "make"@.len());
}

/// Only the texts `as_str` produces are read back by `from_str`.
pub proof fn lemma_source_of_text_inverse(t: Seq<char>, s: SourceType)
    requires
        source_of_text(t) == Some(s),
    ensures
        source_text(s) == t,
{
    reveal_strlit("npm");
    reveal_strlit("make");
}

/// A command's id depends on its source, working directory and name only:
/// rebuilding a command with the same identity gives the same id.
pub proof fn lemma_id_depends_on_identity(
    source: SourceType,
    cwd1: Seq<char>,
    name1: Seq<char>,
    cwd2: Seq<char>,
    name2: Seq<char>,
)
    requires
        cwd1 == cwd2,
        name1 == name2,
    ensures
        spec_stable_id(source, cwd1, name1) == spec_stable_id(source, cwd2, name2),
{
}

/// `hex_digits(v, n)` has exactly `n` characters.
pub proof fn lemma_hex_digits_len(v: nat, n: nat)
    ensures
        hex_digits(v, n).len() == n,
    decreases n,
{
    if n > 0 {
        lemma_hex_digits_len(v / 16, (n - 1) as nat);
    }
}

/// An id is the source's text, a dash and sixteen hex digits; so ids of
/// commands from different sources never collide.
pub proof fn lemma_id_shape(
    s1: SourceType,
    cwd1: Seq<char>,
    name1: Seq<char>,
    s2: SourceType,
    cwd2: Seq<char>,
    name2: Seq<char>,
)
    ensures
        spec_stable_id(s1, cwd1, name1).len() == source_text(s1).len() + 17,
        spec_stable_id(s1, cwd1, name1).subrange(0, source_text(s1).len() + 1int) == source_text(
            s1,
        ) + seq!['-'],
        s1 != s2 ==> spec_stable_id(s1, cwd1, name1) != spec_stable_id(s2, cwd2, name2),
{
    reveal_strlit("npm");
    reveal_strlit("make");
    let h1 = fnv_fold(FNV_OFFSET, identity_bytes(s1, cwd1, name1)) as nat;
    let h2 = fnv_fold(FNV_OFFSET, identity_bytes(s2, cwd2, name2)) as nat;
    lemma_hex_digits_len(h1, 16);
    lemma_hex_digits_len(h2, 16);
    let i1 = spec_stable_id(s1, cwd1, name1);
    let i2 = spec_stable_id(s2, cwd2, name2);
    assert(i1.subrange(0, source_text(s1).len() + 1int) =~= source_text(s1) + seq!['-']);
    if s1 != s2 {
        assert(i1[0] == source_text(s1)[0]);
        assert(i2[0] == source_text(s2)[0]);
    }
}

/// Directory names the walk never descends into.
pub open spec fn is_skipped_dir_name(name: Seq<char>) -> bool {
    ||| name == "node_modules"@
    ||| name == ".git"@
    ||| name == "target"@
    ||| name == "dist"@
}

/// The walk prunes exactly the directories named `node_modules`, `.git`,
/// `target` and `dist`, and walks every other one.
pub proof fn lemma_skipped_dirs_exactly(name: Seq<char>)
    ensures
        is_skipped_dir_name(name) <==> (name == "node_modules"@ || name == ".git"@ || name
            == "target"@ || name == "dist"@),
{
}

/// Whether the walk prunes a directory with this name.
pub fn is_skipped_dir(name: &str) -> (r: bool)
    ensures
        r == is_skipped_dir_name(name@),
        r <==> (name@ == "node_modules"@ || name@ == ".git"@ || name@ == "target"@ || name@
            == "dist"@),
{
    str_eq(name, "node_modules") || str_eq(name, ".git") || str_eq(name, "target") || str_eq(
        name,
        "dist",
    )
}

/// The parser a file name calls for, if any.
pub open spec fn manifest_kind(file_name: Seq<char>) -> Option<SourceType> {
    if file_name == "package.json"@ {
        Some(SourceType::Npm)
    } else if file_name == "Makefile"@ || file_name == "makefile"@ || file_name
        == "GNUmakefile"@ {
        Some(SourceType::Make)
    } else {
        None
    }
}

/// `package.json` is read as npm scripts, `Makefile`, `makefile` and
/// `GNUmakefile` as Makefiles, and no other file name is read.
pub proof fn lemma_manifest_names_exactly(file_name: Seq<char>)
    ensures
        manifest_kind(file_name) == Some(SourceType::Npm) <==> file_name == "package.json"@,
        manifest_kind(file_name) == Some(SourceType::Make) <==> (file_name == "Makefile"@
            || file_name == "makefile"@ || file_name == "GNUmakefile"@),
        manifest_kind(file_name) is None <==> !(file_name == "package.json"@ || file_name
            == "Makefile"@ || file_name == "makefile"@ || file_name == "GNUmakefile"@),
{
    reveal_strlit("package.json");
    reveal_strlit("Makefile");
    reveal_strlit("makefile");
    reveal_strlit("GNUmakefile");
    assert("package.json"@ != "Makefile"@ && "package.json"@ != "makefile"@) by {
        assert("package.json"@.len() != "Makefile"@.len());
    }
    assert("package.json"@ != "GNUmakefile"@) by {
        assert("package.json"@[0] != "GNUmakefile"@[0]);
    }
}

/// Which parser, if any, handles a file of this name.
pub fn manifest_source(file_name: &str) -> (r: Option<SourceType>)
    ensures
        r == manifest_kind(file_name@),
{
    if str_eq(file_name, "package.json") {
        Some(SourceType::Npm)
    } else if str_eq(file_name, "Makefile") || str_eq(file_name, "makefile") || str_eq(
        file_name,
        "GNUmakefile",
    ) {
        Some(SourceType::Make)
    } else {
        None
    }
}

/// The first directory of `dirs[i..]` whose flag is set, else `dirs[0]`.
pub open spec fn first_repo_root_from(dirs: Seq<Seq<char>>, has_git: Seq<bool>, i: int) -> Seq<
    char,
>
    decreases dirs.len() - i,
{
    if i < 0 || i >= dirs.len() {
        dirs[0]
    } else if has_git[i] {
        dirs[i]
    } else {
        first_repo_root_from(dirs, has_git, i + 1)
    }
}

/// The repo root is the first directory flagged as holding `.git`,
/// whichever position it has (the scan root, last, included), and the
/// manifest's own directory exactly when no directory is flagged.
pub proof fn lemma_repo_root_is_nearest_git(dirs: Seq<Seq<char>>, has_git: Seq<bool>)
    requires
        dirs.len() >= 1,
        has_git.len() == dirs.len(),
    ensures
        forall|i: int|
            0 <= i < dirs.len() && #[trigger] has_git[i] && (forall|j: int|
                0 <= j < i ==> !has_git[j]) ==> first_repo_root_from(dirs, has_git, 0) == dirs[i],
        (forall|j: int| 0 <= j < dirs.len() ==> !has_git[j]) ==> first_repo_root_from(
            dirs,
            has_git,
            0,
        ) == dirs[0],
{
    assert forall|i: int|
        0 <= i < dirs.len() && #[trigger] has_git[i] && (forall|j: int|
            0 <= j < i ==> !has_git[j]) implies first_repo_root_from(dirs, has_git, 0)
        == dirs[i] by {
        lemma_first_root_reaches(dirs, has_git, 0, i);
    }
    if forall|j: int| 0 <= j < dirs.len() ==> !has_git[j] {
        lemma_first_root_none(dirs, has_git, 0);
    }
}

proof fn lemma_first_root_reaches(dirs: Seq<Seq<char>>, has_git: Seq<bool>, k: int, i: int)
    requires
        0 <= k <= i < dirs.len(),
        has_git.len() == dirs.len(),
        has_git[i],
        forall|j: int| k <= j < i ==> !has_git[j],
    ensures
        first_repo_root_from(dirs, has_git, k) == dirs[i],
    decreases i - k,
{
    if k < i {
        lemma_first_root_reaches(dirs, has_git, k + 1, i);
    }
}

proof fn lemma_first_root_none(dirs: Seq<Seq<char>>, has_git: Seq<bool>, k: int)
    requires
        0 <= k <= dirs.len(),
        has_git.len() == dirs.len(),
        forall|j: int| k <= j < dirs.len() ==> !has_git[j],
    ensures
        first_repo_root_from(dirs, has_git, k) == dirs[0],
    decreases dirs.len() - k,
{
    if k < dirs.len() {
        lemma_first_root_none(dirs, has_git, k + 1);
    }
}

/// The repo root of a manifest: `dirs` lists the manifest's directory and
/// then its ancestors up to the scan root, `has_git[i]` says whether
/// `dirs[i]` holds a `.git` entry. The nearest directory with `.git` wins;
/// if there is none, the manifest's own directory.
pub fn nearest_repo_root(dirs: &Vec<String>, has_git: &Vec<bool>) -> (r: String)
    requires
        dirs.len() >= 1,
        has_git.len() == dirs.len(),
    ensures
        r@ == first_repo_root_from(crate::text::string_views(dirs@), has_git@, 0),
        forall|i: int|
            0 <= i < dirs.len() && #[trigger] has_git@[i] && (forall|j: int|
                0 <= j < i ==> !has_git@[j]) ==> r@ == dirs@[i]@,
        (forall|j: int| 0 <= j < dirs.len() ==> !has_git@[j]) ==> r@ == dirs@[0]@,
{
    proof {
        lemma_repo_root_is_nearest_git(crate::text::string_views(dirs@), has_git@);
        assert forall|i: int| 0 <= i < dirs.len() implies crate::text::string_views(dirs@)[i]
            == (#[trigger] dirs@[i])@ by {}
    }
    let ghost views = crate::text::string_views(dirs@);
    let mut i: usize = 0;
    while i < dirs.len()
        invariant
            i <= dirs.len() == has_git.len(),
            dirs.len() >= 1,
            views == crate::text::string_views(dirs@),
            first_repo_root_from(views, has_git@, 0) == first_repo_root_from(
                views,
                has_git@,
                i as int,
            ),
        decreases dirs.len() - i,
    {
        if has_git[i] {
            proof {
                lemma_repo_root_is_nearest_git(views, has_git@);
                assert forall|m: int| 0 <= m < dirs.len() implies views[m] == (
                #[trigger] dirs@[m])@ by {}
            }
            return dirs[i].clone();
        }
        i += 1;
    }
    dirs[0].clone()
}

} // verus!
