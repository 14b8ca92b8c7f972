//! Summaries of a spreadsheet's answers: one scan per kind of question.
use vstd::prelude::*;
use crate::config::{QuestionConfig, ResponseKind};
use crate::sheets::spreadsheets_values::SpreadsheetValueRange;
use crate::summary::Summary;
use crate::survey::{
    sheet_rows, first_template, scan_cells, scan_row, scan_rows, template_for, ScanError, ScanState,
    Survey,
};

verus! {

/// Two questions that read statements and answers alike.
pub open spec fn same_question(a: QuestionConfig, b: QuestionConfig) -> bool {
    &&& a.assessment_kind@ == b.assessment_kind@
    &&& a.response_kind == b.response_kind
    &&& a.category@ == b.category@
    &&& a.template_raw@ == b.template_raw@
    &&& a.template_final@ == b.template_final@
    &&& a.weight == b.weight
}

pub open spec fn same_catalog(a: Seq<QuestionConfig>, b: Seq<QuestionConfig>) -> bool {
    a.len() == b.len() && forall|i: int| 0 <= i < a.len() ==> same_question(#[trigger] a[i], b[i])
}

/// The questions of a kind, together with the discriminators, in catalog order.
pub open spec fn of_kind(ts: Seq<QuestionConfig>, kind: ResponseKind) -> Seq<QuestionConfig>
    decreases ts.len(),
{
    if ts.len() == 0 {
        Seq::empty()
    } else {
        let rest = of_kind(ts.drop_last(), kind);
        let t = ts.last();
        if t.response_kind == kind || t.response_kind == ResponseKind::Discriminator {
            rest.push(t)
        } else {
            rest
        }
    }
}

proof fn lemma_of_kind_wf(ts: Seq<QuestionConfig>, kind: ResponseKind)
    requires
        forall|i: int| 0 <= i < ts.len() ==> (#[trigger] ts[i]).wf(),
    ensures
        forall|i: int| 0 <= i < of_kind(ts, kind).len() ==> (#[trigger] of_kind(ts, kind)[i]).wf(),
    decreases ts.len(),
{
    if ts.len() > 0 {
        let front = ts.drop_last();
        assert forall|i: int| 0 <= i < front.len() implies (#[trigger] front[i]).wf() by {
            assert(front[i] == ts[i]);
        }
        lemma_of_kind_wf(front, kind);
        let k = of_kind(ts, kind);
        let rest = of_kind(front, kind);
        assert(ts[ts.len() - 1].wf());
        assert forall|i: int| 0 <= i < k.len() implies (#[trigger] k[i]).wf() by {
            if i < rest.len() {
                assert(k[i] == rest[i]);
            } else {
                assert(k[i] == ts.last());
            }
        }
    }
}

proof fn lemma_same_template_for(a: Seq<QuestionConfig>, b: Seq<QuestionConfig>, s: Seq<char>)
    requires
        same_catalog(a, b),
    ensures
        template_for(a, s) == template_for(b, s),
{
    assert forall|j: int| 0 <= j < a.len() implies (#[trigger] a[j]).matches(s) == b[j].matches(s) by {
        assert(same_question(a[j], b[j]));
    }
    assert forall|i: int| first_template(a, s, i) implies first_template(b, s, i) by {
        assert forall|j: int| 0 <= j < i implies !(#[trigger] b[j]).matches(s) by {
            assert(a[j].matches(s) == b[j].matches(s));
        }
    }
    assert forall|i: int| first_template(b, s, i) implies first_template(a, s, i) by {
        assert forall|j: int| 0 <= j < i implies !(#[trigger] a[j]).matches(s) by {
            assert(a[j].matches(s) == b[j].matches(s));
        }
    }
}

proof fn lemma_same_cells(
    t1: QuestionConfig,
    t2: QuestionConfig,
    ti: int,
    row: int,
    st: ScanState,
    cells: Seq<Seq<char>>,
)
    requires
        same_question(t1, t2),
    ensures
        scan_cells(t1, ti, row, st, cells) == scan_cells(t2, ti, row, st, cells),
    decreases cells.len(),
{
    if cells.len() > 0 {
        lemma_same_cells(t1, t2, ti, row, st, cells.drop_last());
    }
}

/// Scanning depends on what the questions hold, not on which values hold it.
proof fn lemma_same_scan(a: Seq<QuestionConfig>, b: Seq<QuestionConfig>, rows: Seq<Seq<Seq<char>>>)
    requires
        same_catalog(a, b),
    ensures
        scan_rows(a, rows) == scan_rows(b, rows),
    decreases rows.len(),
{
    if rows.len() > 0 {
        lemma_same_scan(a, b, rows.drop_last());
        let row = rows.last();
        if row.len() > 0 {
            lemma_same_template_for(a, b, row[0]);
            if template_for(a, row[0]) is Some {
                let ti = template_for(a, row[0])->Some_0;
                assert(first_template(a, row[0], ti));
                assert(same_question(a[ti], b[ti]));
                match scan_rows(a, rows.drop_last()) {
                    Ok(s) => {
                        lemma_same_cells(a[ti], b[ti], ti, rows.len() - 1, s, row.drop_first());
                        assert(scan_row(a, s, row, rows.len() - 1) == scan_row(b, s, row, rows.len() - 1));
                    },
                    Err(_) => {},
                }
            }
        }
    }
}

/// A copy of each question of a kind and of each discriminator, in catalog order.
pub fn templates_of_kind(templates: &[QuestionConfig], kind: ResponseKind) -> (r: Vec<QuestionConfig>)
    ensures
        same_catalog(r@, of_kind(templates@, kind)),
{
    let mut out: Vec<QuestionConfig> = Vec::new();
    let mut i: usize = 0;
    while i < templates.len()
        invariant
            i <= templates@.len(),
            same_catalog(out@, of_kind(templates@.take(i as int), kind)),
        decreases templates@.len() - i,
    {
        let t = &templates[i];
        assert(templates@.take(i + 1).drop_last() =~= templates@.take(i as int));
        assert(templates@.take(i + 1).last() == templates@[i as int]);
        if t.response_kind == kind || t.response_kind == ResponseKind::Discriminator {
            let ghost before = out@;
            out.push(t.duplicate());
            assert(same_catalog(out@, of_kind(templates@.take(i + 1), kind))) by {
                let k = of_kind(templates@.take(i + 1), kind);
                assert forall|j: int| 0 <= j < out@.len() implies same_question(#[trigger] out@[j], k[j]) by {
                    if j < before.len() {
                        assert(out@[j] == before[j]);
                    }
                }
            }
        }
        i = i + 1;
    }
    assert(templates@.take(templates@.len() as int) =~= templates@);
    out
}

/// The grade and text summaries of the answers in the ranges: each is a scan
/// of all the rows of the ranges with the questions of its kind and the
/// discriminators.
pub fn summarize(templates: &[QuestionConfig], data: &[SpreadsheetValueRange]) -> (r: Result<Summary, ScanError>)
    requires
        forall|i: int| 0 <= i < templates@.len() ==> (#[trigger] templates@[i]).wf(),
    ensures
        ({
            let grades = scan_rows(of_kind(templates@, ResponseKind::Grade), sheet_rows(data@));
            let texts = scan_rows(of_kind(templates@, ResponseKind::Text), sheet_rows(data@));
            match r {
                Ok(s) => grades matches Ok(g) && texts matches Ok(t) && s.grades_view() == g.groups
                    && s.texts_view() == t.groups,
                Err(e) => (grades == Err::<ScanState, ScanError>(e)) || (grades is Ok && texts == Err::<
                    ScanState,
                    ScanError,
                >(e)),
            }
        }),
{
    let mut summary = Summary::new();
    let kinds = [ResponseKind::Grade, ResponseKind::Text];
    let mut k: usize = 0;
    while k < 2
        invariant
            forall|i: int| 0 <= i < templates@.len() ==> (#[trigger] templates@[i]).wf(),
            kinds@ == seq![ResponseKind::Grade, ResponseKind::Text],
            k <= 2,
            k >= 1 ==> (scan_rows(of_kind(templates@, ResponseKind::Grade), sheet_rows(data@)) matches Ok(g)
                && summary.grades_view() == g.groups),
            k >= 2 ==> (scan_rows(of_kind(templates@, ResponseKind::Text), sheet_rows(data@)) matches Ok(t)
                && summary.texts_view() == t.groups),
        decreases 2 - k,
    {
        let kind = kinds[k];
        let by_kind = templates_of_kind(templates, kind);
        proof {
            lemma_of_kind_wf(templates@, kind);
            lemma_same_scan(by_kind@, of_kind(templates@, kind), sheet_rows(data@));
            assert forall|i: int| 0 <= i < by_kind@.len() implies (#[trigger] by_kind@[i]).wf() by {
                assert(same_question(by_kind@[i], of_kind(templates@, kind)[i]));
                assert(of_kind(templates@, kind)[i].wf());
            }
        }
        let survey = Survey::new(by_kind.as_slice());
        match survey.scan_all(data) {
            Ok(report) => summary.set_by_kind(&kind, report.responses),
            Err(e) => {
                return Err(e);
            },
        }
        k = k + 1;
    }
    Ok(summary)
}

} // verus!
