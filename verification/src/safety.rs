//! Best-effort operator-error guard.
//!
//! This is not a security boundary: it cannot stop a determined or
//! obfuscated command. Its only job is to make a human pause before an
//! obviously consequential action. A resolved command is escalated when its
//! lowercase form contains the lowercase form of one of a fixed list of
//! destructive tokens.

use vstd::prelude::*;
use crate::text::{
    all_ascii, ascii_lower, ascii_lowercase, chars_of, contains, contains_chars,
    spec_to_lowercase, string_views, to_lowercase, trim, trim_str,
};

verus! {

/// Outcome of assessing a command.
#[derive(Debug, Clone)]
pub struct SafetyAssessment {
    /// True when at least one destructive token matched.
    pub escalate: bool,
    /// The tokens that matched (trimmed), in the list's order.
    pub matched: Vec<String>,
}

impl View for SafetyAssessment {
    type V = (bool, Seq<Seq<char>>);

    open spec fn view(&self) -> (bool, Seq<Seq<char>>) {
        (self.escalate, string_views(self.matched@))
    }
}

/// Substrings that escalate a run to the more deliberate confirmation.
pub open spec fn destructive_tokens() -> Seq<Seq<char>> {
    seq![
        "rm -rf"@,
        "rm "@,
        "kubectl delete"@,
        "terraform apply"@,
        "terraform destroy"@,
        "drop "@,
        "--force"@,
        "push --force"@,
    ]
}

fn destructive_token_strs() -> (v: Vec<&'static str>)
    ensures
        v.len() == destructive_tokens().len(),
        forall|i: int| 0 <= i < v.len() ==> #[trigger] v@[i]@ == destructive_tokens()[i],
{
    vec![
        "rm -rf",
        "rm ",
        "kubectl delete",
        "terraform apply",
        "terraform destroy",
        "drop ",
        "--force",
        "push --force",
    ]
}

/// The labels of the first `n` tokens whose pattern (`patterns[k]` for
/// token `k`) occurs in `haystack`, each label being the token trimmed.
pub open spec fn matched_upto(haystack: Seq<char>, patterns: Seq<Seq<char>>, n: int) -> Seq<
    Seq<char>,
>
    decreases n,
{
    if n <= 0 {
        Seq::empty()
    } else {
        let prev = matched_upto(haystack, patterns, n - 1);
        if contains(haystack, patterns[n - 1]) {
            prev.push(trim(destructive_tokens()[n - 1]))
        } else {
            prev
        }
    }
}

/// The assessment of an already lowercased command against the tokens'
/// patterns.
pub open spec fn assessment_of(haystack: Seq<char>, patterns: Seq<Seq<char>>) -> (
    bool,
    Seq<Seq<char>>,
) {
    let m = matched_upto(haystack, patterns, destructive_tokens().len() as int);
    (m.len() > 0, m)
}

/// The assessment of a command: its lowercase form is matched against the
/// tokens (which are their own lowercase form).
pub open spec fn spec_assess(resolved_command: Seq<char>) -> (bool, Seq<Seq<char>>) {
    assessment_of(spec_to_lowercase(resolved_command), destructive_tokens())
}

/// The assessment of an ASCII command, whose lowercase form is its ASCII
/// lowercase form.
pub open spec fn ascii_assess(resolved_command: Seq<char>) -> (bool, Seq<Seq<char>>) {
    assessment_of(ascii_lowercase(resolved_command), destructive_tokens())
}

/// ASCII text without upper-case letters.
pub open spec fn is_lower_ascii_text(t: Seq<char>) -> bool {
    forall|i: int|
        0 <= i < t.len() ==> (#[trigger] t[i] as u32) < 128 && !(0x41 <= (t[i] as u32) <= 0x5a)
}

proof fn lemma_lower_ascii_text_fixed(t: Seq<char>)
    requires
        is_lower_ascii_text(t),
    ensures
        all_ascii(t),
        ascii_lowercase(t) == t,
{
    assert(ascii_lowercase(t) =~= t);
}

/// Every token is ASCII and already lowercase.
pub proof fn lemma_tokens_lowercase_ascii()
    ensures
        forall|k: int|
            0 <= k < destructive_tokens().len() ==> all_ascii(#[trigger] destructive_tokens()[k])
                && ascii_lowercase(destructive_tokens()[k]) == destructive_tokens()[k],
{
    reveal_strlit("rm -rf");
    reveal_strlit("rm ");
    reveal_strlit("kubectl delete");
    reveal_strlit("terraform apply");
    reveal_strlit("terraform destroy");
    reveal_strlit("drop ");
    reveal_strlit("--force");
    reveal_strlit("push --force");
    let t = destructive_tokens();
    assert forall|k: int| 0 <= k < t.len() implies is_lower_ascii_text(#[trigger] t[k]) by {
        if k == 0 {
            assert(is_lower_ascii_text("rm -rf"@));
        } else if k == 1 {
            assert(is_lower_ascii_text("rm "@));
        } else if k == 2 {
            assert(is_lower_ascii_text("kubectl delete"@));
        } else if k == 3 {
            assert(is_lower_ascii_text("terraform apply"@));
        } else if k == 4 {
            assert(is_lower_ascii_text("terraform destroy"@));
        } else if k == 5 {
            assert(is_lower_ascii_text("drop "@));
        } else if k == 6 {
            assert(is_lower_ascii_text("--force"@));
        } else {
            assert(is_lower_ascii_text("push --force"@));
        }
    }
    assert forall|k: int| 0 <= k < t.len() implies all_ascii(#[trigger] t[k])
        && ascii_lowercase(t[k]) == t[k] by {
        lemma_lower_ascii_text_fixed(t[k]);
    }
}

/// Match an already lowercased command against the tokens' lowercase
/// forms (`patterns[k]` for token `k`).
pub fn assess_lowercased(haystack: &str, patterns: &Vec<String>) -> (a: SafetyAssessment)
    requires
        patterns.len() == destructive_tokens().len(),
    ensures
        a@ == assessment_of(haystack@, string_views(patterns@)),
        a.escalate <==> a.matched.len() > 0,
        a.matched.len() <= destructive_tokens().len(),
        exists|ks: Seq<int>|
            #[trigger] are_match_positions(
                ks,
                haystack@,
                string_views(patterns@),
                string_views(a.matched@),
            ),
{
    let a = assess_lowercased_list(haystack, patterns);
    proof {
        lemma_assessment_lists_occurring_tokens(haystack@, string_views(patterns@));
    }
    a
}

/// The matching loop behind `assess_lowercased`.
fn assess_lowercased_list(haystack: &str, patterns: &Vec<String>) -> (a: SafetyAssessment)
    requires
        patterns.len() == destructive_tokens().len(),
    ensures
        a@ == assessment_of(haystack@, string_views(patterns@)),
{
    let tokens = destructive_token_strs();
    let h = chars_of(haystack);
    let ghost pats = string_views(patterns@);
    let mut matched: Vec<String> = Vec::new();
    let mut k: usize = 0;
    while k < tokens.len()
        invariant
            k <= tokens.len() == patterns.len() == destructive_tokens().len(),
            h@ == haystack@,
            pats == string_views(patterns@),
            forall|i: int| 0 <= i < tokens.len() ==> #[trigger] tokens@[i]@ == destructive_tokens()[i],
            string_views(matched@) == matched_upto(haystack@, pats, k as int),
        decreases tokens.len() - k,
    {
        let p = chars_of(patterns[k].as_str());
        if contains_chars(&h, &p) {
            let label = trim_str(tokens[k]);
            let ghost before = matched@;
            matched.push(label);
            assert(string_views(matched@) =~= string_views(before).push(label@));
        }
        k += 1;
    }
    let escalate = matched.len() > 0;
    SafetyAssessment { escalate, matched }
}

/// Assess a fully resolved command string (case-insensitive substring
/// match against the destructive tokens).
pub fn assess(resolved_command: &str) -> (a: SafetyAssessment)
    ensures
        a@ == spec_assess(resolved_command@),
        all_ascii(resolved_command@) ==> a@ == ascii_assess(resolved_command@),
        a.escalate <==> a.matched.len() > 0,
        a.matched.len() <= destructive_tokens().len(),
        exists|ks: Seq<int>|
            #[trigger] are_match_positions(
                ks,
                spec_to_lowercase(resolved_command@),
                destructive_tokens(),
                string_views(a.matched@),
            ),
{
    let haystack = to_lowercase(resolved_command);
    let tokens = destructive_token_strs();
    let mut patterns: Vec<String> = Vec::new();
    proof {
        lemma_tokens_lowercase_ascii();
    }
    let mut k: usize = 0;
    while k < tokens.len()
        invariant
            k <= tokens.len() == destructive_tokens().len(),
            forall|i: int| 0 <= i < tokens.len() ==> #[trigger] tokens@[i]@ == destructive_tokens()[i],
            forall|i: int|
                0 <= i < destructive_tokens().len() ==> all_ascii(
                    #[trigger] destructive_tokens()[i],
                ) && ascii_lowercase(destructive_tokens()[i]) == destructive_tokens()[i],
            string_views(patterns@) == destructive_tokens().take(k as int),
        decreases tokens.len() - k,
    {
        let p = to_lowercase(tokens[k]);
        assert(p@ == destructive_tokens()[k as int]);
        let ghost before = patterns@;
        patterns.push(p);
        assert(string_views(patterns@) =~= string_views(before).push(p@));
        assert(destructive_tokens().take(k + 1) =~= destructive_tokens().take(k as int).push(
            destructive_tokens()[k as int],
        ));
        k += 1;
    }
    assert(destructive_tokens().take(tokens.len() as int) =~= destructive_tokens());
    let a = assess_lowercased(haystack.as_str(), &patterns);
    proof {
        lemma_assessment_lists_occurring_tokens(haystack@, destructive_tokens());
    }
    a
}

/// `ks` are the positions, strictly increasing, of exactly the tokens whose
/// pattern occurs in `haystack`, and `labels[i]` is the trimmed token at
/// `ks[i]`.
pub open spec fn are_match_positions(
    ks: Seq<int>,
    haystack: Seq<char>,
    patterns: Seq<Seq<char>>,
    labels: Seq<Seq<char>>,
) -> bool {
    &&& ks.len() == labels.len()
    &&& forall|i: int, j: int| 0 <= i < j < ks.len() ==> ks[i] < ks[j]
    &&& forall|i: int|
        0 <= i < ks.len() ==> 0 <= #[trigger] ks[i] < destructive_tokens().len() && contains(
            haystack,
            patterns[ks[i]],
        ) && labels[i] == trim(destructive_tokens()[ks[i]])
    &&& forall|k: int|
        0 <= k < destructive_tokens().len() && contains(haystack, patterns[k]) ==> ks.contains(k)
}

/// The labels matched among the first `n` tokens are, in list order and
/// once each, the trimmed tokens whose pattern occurs: `ks` lists those
/// token positions, strictly increasing and all of them.
pub proof fn lemma_matched_positions(haystack: Seq<char>, patterns: Seq<Seq<char>>, n: int) -> (ks:
    Seq<int>)
    requires
        0 <= n <= destructive_tokens().len(),
    ensures
        ks.len() == matched_upto(haystack, patterns, n).len(),
        forall|i: int, j: int| 0 <= i < j < ks.len() ==> ks[i] < ks[j],
        forall|i: int|
            0 <= i < ks.len() ==> 0 <= #[trigger] ks[i] < n && contains(haystack, patterns[ks[i]])
                && matched_upto(haystack, patterns, n)[i] == trim(destructive_tokens()[ks[i]]),
        forall|k: int| 0 <= k < n && contains(haystack, patterns[k]) ==> ks.contains(k),
    decreases n,
{
    if n == 0 {
        Seq::empty()
    } else {
        let prev = lemma_matched_positions(haystack, patterns, n - 1);
        if contains(haystack, patterns[n - 1]) {
            let ks = prev.push(n - 1);
            assert forall|k: int|
                0 <= k < n && contains(haystack, patterns[k]) implies ks.contains(k) by {
                if k < n - 1 {
                    assert(prev.contains(k));
                    let i = choose|i: int| 0 <= i < prev.len() && prev[i] == k;
                    assert(ks[i] == prev[i]);
                    assert(ks[i] == k);
                } else {
                    assert(ks[prev.len() as int] == k);
                }
            }
            ks
        } else {
            assert forall|k: int|
                0 <= k < n && contains(haystack, patterns[k]) implies prev.contains(k) by {
                assert(k < n - 1);
                assert(prev.contains(k));
            }
            prev
        }
    }
}

/// What an assessment lists: exactly the trimmed tokens whose pattern
/// occurs in the command, in list order, each once (so at most one label
/// per token), and it escalates exactly when that list is not empty.
pub proof fn lemma_assessment_lists_occurring_tokens(haystack: Seq<char>, patterns: Seq<Seq<char>>)
    ensures
        assessment_of(haystack, patterns).0 <==> assessment_of(haystack, patterns).1.len() > 0,
        assessment_of(haystack, patterns).1.len() <= destructive_tokens().len(),
        exists|ks: Seq<int>|
            #[trigger] are_match_positions(ks, haystack, patterns, assessment_of(haystack, patterns).1),
{
    let n = destructive_tokens().len() as int;
    let ks = lemma_matched_positions(haystack, patterns, n);
    lemma_increasing_bounded_len(ks, n);
    assert(are_match_positions(ks, haystack, patterns, assessment_of(haystack, patterns).1));
}

/// A strictly increasing sequence of positions below `n` has at most `n`
/// elements.
proof fn lemma_increasing_bounded_len(ks: Seq<int>, n: int)
    requires
        0 <= n,
        forall|i: int, j: int| 0 <= i < j < ks.len() ==> ks[i] < ks[j],
        forall|i: int| 0 <= i < ks.len() ==> 0 <= #[trigger] ks[i] < n,
    ensures
        ks.len() <= n,
    decreases ks.len(),
{
    if ks.len() > 0 {
        let init = ks.drop_last();
        assert forall|i: int| 0 <= i < init.len() implies 0 <= #[trigger] init[i] < ks.last() by {
            assert(init[i] == ks[i]);
        }
        assert(ks.last() == ks[ks.len() - 1]);
        assert(0 <= ks[ks.len() - 1] < n);
        lemma_increasing_bounded_len(init, ks.last());
    }
}

/// Something matched exactly when one of the first `n` patterns occurs.
pub proof fn lemma_matched_nonempty(haystack: Seq<char>, patterns: Seq<Seq<char>>, n: int)
    requires
        0 <= n,
    ensures
        matched_upto(haystack, patterns, n).len() > 0 <==> exists|k: int|
            0 <= k < n && #[trigger] contains(haystack, patterns[k]),
    decreases n,
{
    if n > 0 {
        lemma_matched_nonempty(haystack, patterns, n - 1);
        if contains(haystack, patterns[n - 1]) {
            assert(contains(haystack, patterns[n - 1]));
        } else {
            assert forall|k: int| 0 <= k < n && #[trigger] contains(haystack, patterns[k]) implies k
                < n - 1 by {}
        }
    }
}

/// A label is matched exactly when it is the trimmed form of a token, among
/// the first `n`, whose pattern occurs.
pub proof fn lemma_matched_members(
    haystack: Seq<char>,
    patterns: Seq<Seq<char>>,
    n: int,
    x: Seq<char>,
)
    requires
        0 <= n <= destructive_tokens().len(),
    ensures
        matched_upto(haystack, patterns, n).contains(x) <==> exists|k: int|
            0 <= k < n && #[trigger] contains(haystack, patterns[k]) && x == trim(
                destructive_tokens()[k],
            ),
    decreases n,
{
    if n > 0 {
        lemma_matched_members(haystack, patterns, n - 1, x);
        let prev = matched_upto(haystack, patterns, n - 1);
        let cur = matched_upto(haystack, patterns, n);
        if contains(haystack, patterns[n - 1]) {
            let lab = trim(destructive_tokens()[n - 1]);
            if cur.contains(x) {
                let j = choose|j: int| 0 <= j < cur.len() && cur[j] == x;
                if j < prev.len() {
                    assert(prev[j] == x);
                    assert(prev.contains(x));
                } else {
                    assert(x == lab);
                }
            }
            if exists|k: int|
                0 <= k < n && #[trigger] contains(haystack, patterns[k]) && x == trim(
                    destructive_tokens()[k],
                ) {
                let k = choose|k: int|
                    0 <= k < n && #[trigger] contains(haystack, patterns[k]) && x == trim(
                        destructive_tokens()[k],
                    );
                if k < n - 1 {
                    let j = choose|j: int| 0 <= j < prev.len() && prev[j] == x;
                    assert(cur[j] == x);
                } else {
                    assert(cur[prev.len() as int] == x);
                }
            }
        } else {
            assert forall|k: int|
                0 <= k < n && #[trigger] contains(haystack, patterns[k]) && x == trim(
                    destructive_tokens()[k],
                ) implies k < n - 1 by {}
        }
    }
}

/// Substring containment is transitive.
pub proof fn lemma_contains_trans(a: Seq<char>, b: Seq<char>, c: Seq<char>)
    requires
        contains(a, b),
        contains(b, c),
    ensures
        contains(a, c),
{
    let i = choose|i: int|
        0 <= i && i + b.len() <= a.len() && #[trigger] a.subrange(i, i + b.len()) == b;
    let j = choose|j: int|
        0 <= j && j + c.len() <= b.len() && #[trigger] b.subrange(j, j + c.len()) == c;
    assert forall|k: int| 0 <= k < c.len() implies a.subrange(i + j, i + j + c.len())[k]
        == c[k] by {
        assert(c[k] == b.subrange(j, j + c.len())[k]);
        assert(b[j + k] == a.subrange(i, i + b.len())[j + k]);
    }
    assert(a.subrange(i + j, i + j + c.len()) =~= c);
}

/// A command is escalated exactly when something matched, which happens
/// exactly when some token occurs in the lowercase form of the command.
pub proof fn lemma_escalate_iff_token(resolved_command: Seq<char>)
    ensures
        spec_assess(resolved_command).0 <==> spec_assess(resolved_command).1.len() > 0,
        spec_assess(resolved_command).0 <==> exists|k: int|
            0 <= k < destructive_tokens().len() && #[trigger] contains(
                spec_to_lowercase(resolved_command),
                destructive_tokens()[k],
            ),
{
    lemma_matched_nonempty(
        spec_to_lowercase(resolved_command),
        destructive_tokens(),
        destructive_tokens().len() as int,
    );
}

/// Matching is case-insensitive: two commands with the same lowercase form
/// get the same assessment.
pub proof fn lemma_case_insensitive(a: Seq<char>, b: Seq<char>)
    requires
        spec_to_lowercase(a) == spec_to_lowercase(b),
    ensures
        spec_assess(a) == spec_assess(b),
{
}

/// Commands equal up to ASCII case (`eq_ignore_ascii_case`) get the same
/// assessment, which for ASCII commands is what `assess` returns.
pub proof fn lemma_ascii_case_insensitive(a: Seq<char>, b: Seq<char>)
    requires
        ascii_lowercase(a) == ascii_lowercase(b),
    ensures
        ascii_assess(a) == ascii_assess(b),
        all_ascii(a) ==> all_ascii(b),
{
    assert(a.len() == ascii_lowercase(a).len());
    assert(b.len() == ascii_lowercase(b).len());
    assert forall|i: int|
        0 <= i < b.len() && all_ascii(a) implies #[trigger] crate::text::is_ascii_char(b[i]) by {
        assert(ascii_lowercase(a)[i] == ascii_lowercase(b)[i]);
        assert(ascii_lowercase(a)[i] == ascii_lower(a[i]));
        assert(ascii_lowercase(b)[i] == ascii_lower(b[i]));
        assert(crate::text::is_ascii_char(a[i]));
        assert((ascii_lower(a[i]) as u32) < 128);
        if !crate::text::is_ascii_char(b[i]) {
            assert(ascii_lower(b[i]) == b[i]);
        }
    }
}

/// Text containing another keeps every match of it: each label matched
/// in `ha` is matched in `hb`, and so is the escalation.
pub proof fn lemma_matches_survive_extension(ha: Seq<char>, hb: Seq<char>)
    requires
        contains(hb, ha),
    ensures
        forall|x: Seq<char>|
            assessment_of(ha, destructive_tokens()).1.contains(x) ==> #[trigger] assessment_of(
                hb,
                destructive_tokens(),
            ).1.contains(x),
        assessment_of(ha, destructive_tokens()).0 ==> assessment_of(hb, destructive_tokens()).0,
{
    let t = destructive_tokens();
    let n = t.len() as int;
    assert forall|x: Seq<char>|
        assessment_of(ha, t).1.contains(x) implies #[trigger] assessment_of(hb, t).1.contains(
        x,
    ) by {
        lemma_matched_members(ha, t, n, x);
        lemma_matched_members(hb, t, n, x);
        let k = choose|k: int|
            0 <= k < n && #[trigger] contains(ha, t[k]) && x == trim(t[k]);
        lemma_contains_trans(hb, ha, t[k]);
    }
    if assessment_of(ha, t).0 {
        let x = assessment_of(ha, t).1[0];
        assert(assessment_of(ha, t).1.contains(x));
        assert(assessment_of(hb, t).1.contains(x));
    }
}

/// Adding text around a command never lifts an escalation nor drops a
/// matched label: if the lowercase form of `a` occurs in that of `b`, every
/// label matched for `a` is matched for `b`.
pub proof fn lemma_escalation_survives_extension(a: Seq<char>, b: Seq<char>)
    requires
        contains(spec_to_lowercase(b), spec_to_lowercase(a)),
    ensures
        spec_assess(a).0 ==> spec_assess(b).0,
        forall|x: Seq<char>| spec_assess(a).1.contains(x) ==> #[trigger] spec_assess(b).1.contains(x),
{
    lemma_matches_survive_extension(spec_to_lowercase(a), spec_to_lowercase(b));
}

/// Lowercasing ASCII text keeps containment.
proof fn lemma_ascii_lowercase_contains(a: Seq<char>, b: Seq<char>)
    requires
        contains(b, a),
    ensures
        contains(ascii_lowercase(b), ascii_lowercase(a)),
{
    let i = choose|i: int|
        0 <= i && i + a.len() <= b.len() && #[trigger] b.subrange(i, i + a.len()) == a;
    let lb = ascii_lowercase(b);
    let la = ascii_lowercase(a);
    assert forall|k: int| 0 <= k < la.len() implies lb.subrange(i, i + la.len())[k] == la[k] by {
        assert(b.subrange(i, i + a.len())[k] == a[k]);
    }
    assert(lb.subrange(i, i + la.len()) =~= la);
}

/// For ASCII commands, a command contained in another keeps its flag and
/// its matched labels in the longer one.
pub proof fn lemma_ascii_extension(a: Seq<char>, b: Seq<char>)
    requires
        contains(b, a),
    ensures
        ascii_assess(a).0 ==> ascii_assess(b).0,
        forall|x: Seq<char>| ascii_assess(a).1.contains(x) ==> #[trigger] ascii_assess(b).1.contains(x),
{
    lemma_ascii_lowercase_contains(a, b);
    lemma_matches_survive_extension(ascii_lowercase(a), ascii_lowercase(b));
}

} // verus!
