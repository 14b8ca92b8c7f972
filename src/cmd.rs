//! The commands of the tool, and the choice of questions for a new form.
use vstd::prelude::*;
use crate::config::{QuestionConfig, ResponseKind};
use crate::text::{eq_ascii_case_insensitive, eq_ignore_ascii_case, lower_of, lowercase};

verus! {

/// What the tool is asked to do.
#[derive(Clone, Copy, Debug, PartialEq, Eq, Structural)]
pub enum Cmd {
    /// Create a feedback form from the catalog.
    Generate,
    /// Summarise the answers of a spreadsheet.
    Evaluate,
}

impl Cmd {
    /// The command that `s` names, `generate` or `eval`, in any ASCII case.
    pub fn from_name(s: &str) -> (r: Option<Cmd>)
        ensures
            r == (if eq_ignore_ascii_case(s@, "generate"@) {
                Some(Cmd::Generate)
            } else if eq_ignore_ascii_case(s@, "eval"@) {
                Some(Cmd::Evaluate)
            } else {
                None
            }),
    {
        if eq_ascii_case_insensitive(s, "generate") {
            Some(Cmd::Generate)
        } else if eq_ascii_case_insensitive(s, "eval") {
            Some(Cmd::Evaluate)
        } else {
            None
        }
    }
}

/// The title of a new form project: `kind-first-last-occasion`.
pub fn project_title(assessment_kind: &str, first_name: &str, last_name: &str, occasion: &str) -> (r: String)
    ensures
        r@ == assessment_kind@ + "-"@ + first_name@ + "-"@ + last_name@ + "-"@ + occasion@,
{
    let mut out = String::from_str(assessment_kind);
    out.append("-");
    out.append(first_name);
    out.append("-");
    out.append(last_name);
    out.append("-");
    out.append(occasion);
    out
}

/// The filled-in templates, in catalog order, of the questions of a kind whose
/// assessment kind, in the form given by `kinds`, is `wanted`.
pub open spec fn chosen(
    ts: Seq<QuestionConfig>,
    kinds: Seq<Seq<char>>,
    response_kind: ResponseKind,
    wanted: Seq<char>,
) -> Seq<Seq<char>>
    decreases ts.len(),
{
    if ts.len() == 0 {
        Seq::empty()
    } else {
        let rest = chosen(ts.drop_last(), kinds, response_kind, wanted);
        let i = ts.len() - 1;
        if ts[i].response_kind == response_kind && kinds[i] == wanted {
            rest.push(ts[i].template_final@)
        } else {
            rest
        }
    }
}

/// The lower-case forms of the questions' assessment kinds.
pub open spec fn lowered_kinds(ts: Seq<QuestionConfig>) -> Seq<Seq<char>> {
    ts.map_values(|t: QuestionConfig| lower_of(t.assessment_kind@))
}

/// The filled-in templates of the questions of a kind whose assessment kind,
/// given for each question in `kinds`, is `wanted`.
pub fn select_questions(
    templates: &[QuestionConfig],
    kinds: &[String],
    response_kind: ResponseKind,
    wanted: &str,
) -> (r: Vec<String>)
    requires
        kinds@.len() == templates@.len(),
    ensures
        crate::text::views(r@) == chosen(templates@, crate::text::views(kinds@), response_kind, wanted@),
{
    let ghost ks = crate::text::views(kinds@);
    let mut out: Vec<String> = Vec::new();
    let mut i: usize = 0;
    while i < templates.len()
        invariant
            ks == crate::text::views(kinds@),
            kinds@.len() == templates@.len(),
            i <= templates@.len(),
            crate::text::views(out@) == chosen(templates@.take(i as int), ks, response_kind, wanted@),
        decreases templates@.len() - i,
    {
        let t = &templates[i];
        assert(templates@.take(i + 1).drop_last() =~= templates@.take(i as int));
        assert(templates@.take(i + 1)[i as int] == templates@[i as int]);
        let wanted_kind = kinds[i].as_str();
        if t.response_kind == response_kind && eq_str(wanted_kind, wanted) {
            let ghost before = out@;
            out.push(t.template_final.clone());
            assert(crate::text::views(out@) =~= crate::text::views(before).push(t.template_final@));
        }
        i = i + 1;
    }
    assert(templates@.take(templates@.len() as int) =~= templates@);
    out
}

fn eq_str(a: &str, b: &str) -> (r: bool)
    ensures
        r == (a@ == b@),
{
    crate::survey::string_eq(&String::from_str(a), &String::from_str(b))
}

/// The filled-in templates, in catalog order, of the questions of a kind whose
/// assessment kind is `assessment_kind` once both are in lower case.
pub fn config_questions(templates: &[QuestionConfig], response_kind: ResponseKind, assessment_kind: &str) -> (r: Vec<
    String,
>)
    ensures
        crate::text::views(r@) == chosen(templates@, lowered_kinds(templates@), response_kind, lower_of(assessment_kind@)),
{
    let mut kinds: Vec<String> = Vec::new();
    let mut i: usize = 0;
    while i < templates.len()
        invariant
            i <= templates@.len(),
            crate::text::views(kinds@) == lowered_kinds(templates@.take(i as int)),
        decreases templates@.len() - i,
    {
        let ghost before = kinds@;
        let l = lowercase(templates[i].assessment_kind.as_str());
        kinds.push(l);
        assert(lowered_kinds(templates@.take(i + 1)) =~= lowered_kinds(templates@.take(i as int)).push(
            lower_of(templates@[i as int].assessment_kind@),
        ));
        assert(crate::text::views(kinds@) =~= crate::text::views(before).push(l@));
        i = i + 1;
    }
    assert(templates@.take(templates@.len() as int) =~= templates@);
    let wanted = lowercase(assessment_kind);
    select_questions(templates, kinds.as_slice(), response_kind, wanted.as_str())
}

} // verus!
