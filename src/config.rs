//! The catalog of question templates: loading, matching and evaluating answers.
use vstd::prelude::*;
use crate::decimal::{
    abs, average, average_of, bounded, decimal_string, decimal_text, lemma_average_permutation,
    lemma_pow10_18, lemma_pow10_36, lemma_text_round_trip, parse_decimal, product, parse_number, pow10, text_of, Decimal,
    INPUT_LIMIT, INPUT_SCALE,
};
use crate::text::{
    contains, eq_ascii_case_insensitive, eq_ignore_ascii_case, join, join_with, replace,
    replace_all, str_contains, views,
};

verus! {

/// How the answers to a question are read.
#[derive(Clone, Copy, Debug, PartialEq, Eq, Structural)]
pub enum ResponseKind {
    /// A number, weighted and averaged.
    Grade,
    /// Free text, collected as it is.
    Text,
    /// A value that relabels the answers below it in the same column.
    Discriminator,
}

/// The kind that a configuration cell names, compared without regard to ASCII case.
pub open spec fn kind_named(s: Seq<char>) -> Option<ResponseKind> {
    if eq_ignore_ascii_case(s, "grade"@) {
        Some(ResponseKind::Grade)
    } else if eq_ignore_ascii_case(s, "text"@) {
        Some(ResponseKind::Text)
    } else if eq_ignore_ascii_case(s, "discriminator"@) {
        Some(ResponseKind::Discriminator)
    } else {
        None
    }
}

/// The cell that a summary shows for the collected values of one group.
pub open spec fn summary_cell(kind: ResponseKind, vals: Seq<Seq<char>>) -> Option<Seq<char>> {
    match kind {
        ResponseKind::Grade => average_of(vals),
        ResponseKind::Text => if vals.len() == 0 {
            None
        } else {
            Some(join(vals, seq!['\n']))
        },
        ResponseKind::Discriminator => None,
    }
}

impl ResponseKind {
    /// The kind that `s` names: `grade`, `text` or `discriminator`, in any ASCII case.
    pub fn from_name(s: &str) -> (r: Option<ResponseKind>)
        ensures
            r == kind_named(s@),
    {
        if eq_ascii_case_insensitive(s, "grade") {
            Some(ResponseKind::Grade)
        } else if eq_ascii_case_insensitive(s, "text") {
            Some(ResponseKind::Text)
        } else if eq_ascii_case_insensitive(s, "discriminator") {
            Some(ResponseKind::Discriminator)
        } else {
            None
        }
    }

    /// The lower-case name of the kind.
    pub fn name(&self) -> (r: String)
        ensures
            r@ == (match *self {
                ResponseKind::Grade => "grade"@,
                ResponseKind::Text => "text"@,
                ResponseKind::Discriminator => "discriminator"@,
            }),
    {
        match self {
            ResponseKind::Grade => String::from_str("grade"),
            ResponseKind::Text => String::from_str("text"),
            ResponseKind::Discriminator => String::from_str("discriminator"),
        }
    }

    /// The summary cell for the collected values: their mean for grades, their
    /// lines joined for texts; `None` for no values and for discriminators.
    pub fn process_data(&self, responses: &[String]) -> (r: Option<String>)
        ensures
            text_of(r) == summary_cell(*self, views(responses@)),
    {
        match self {
            ResponseKind::Grade => self.process_grades(responses),
            ResponseKind::Text => self.process_reviews(responses),
            ResponseKind::Discriminator => None,
        }
    }

    fn process_grades(&self, grades: &[String]) -> (r: Option<String>)
        ensures
            text_of(r) == average_of(views(grades@)),
    {
        average(grades)
    }

    fn process_reviews(&self, reviews: &[String]) -> (r: Option<String>)
        ensures
            text_of(r) == (if reviews@.len() == 0 {
                None
            } else {
                Some(join(views(reviews@), seq!['\n']))
            }),
    {
        if reviews.len() == 0 {
            None
        } else {
            let r = join_with(reviews, "\n");
            proof {
                reveal_strlit("\n");
                assert("\n"@ =~= seq!['\n']);
            }
            Some(r)
        }
    }
}

/// The mean of grades does not depend on the order in which they were collected.
pub proof fn lemma_grade_cell_order(a: Seq<Seq<char>>, b: Seq<Seq<char>>)
    requires
        a.to_multiset() == b.to_multiset(),
    ensures
        summary_cell(ResponseKind::Grade, a) == summary_cell(ResponseKind::Grade, b),
{
    lemma_average_permutation(a, b);
}

/// Why a configuration row was refused; `row` counts the data rows from zero.
#[derive(Clone, Copy, Debug, PartialEq, Eq, Structural)]
pub enum ConfigError {
    /// The row has fewer than five cells.
    MissingColumn { row: usize },
    /// The response kind is not `grade`, `text` or `discriminator`.
    UnknownResponseKind { row: usize },
    /// The weight is not a number with a mantissa below `10^18` and at most nine decimals.
    InvalidWeight { row: usize },
    /// The template is empty once the placeholders are filled in.
    EmptyTemplate { row: usize },
    /// The text is not well-formed CSV.
    Csv,
}

/// One question of the catalog.
#[derive(Clone, Debug)]
pub struct QuestionConfig {
    pub assessment_kind: String,
    pub response_kind: ResponseKind,
    pub category: String,
    /// The template as configured.
    pub template_raw: String,
    /// The template with its placeholders filled in.
    pub template_final: String,
    pub weight: Decimal,
}

/// `s` with each pair `(from, to)` replaced in turn.
pub open spec fn substitute(s: Seq<char>, subs: Seq<(Seq<char>, Seq<char>)>) -> Seq<char>
    decreases subs.len(),
{
    if subs.len() == 0 {
        s
    } else {
        replace_all(substitute(s, subs.drop_last()), subs.last().0, subs.last().1)
    }
}

pub open spec fn pair_views(subs: Seq<(&str, &str)>) -> Seq<(Seq<char>, Seq<char>)> {
    subs.map_values(|p: (&str, &str)| (p.0@, p.1@))
}

/// The evaluated form of an answer, or `None` for a grade that is not a number
/// with a mantissa below `10^18` and at most nine decimals.
pub open spec fn evaluation(kind: ResponseKind, weight: (int, nat), input: Seq<char>) -> Option<Seq<char>> {
    match kind {
        ResponseKind::Grade => match bounded(parse_number(input), pow10(18), 9) {
            Some((m, k)) => Some(decimal_text(m * weight.0, k + weight.1)),
            None => None,
        },
        _ => Some(input),
    }
}

/// Why an answer could not be evaluated.
#[derive(Clone, Copy, Debug, PartialEq, Eq, Structural)]
pub enum EvalError {
    NonNumericGrade,
}

impl QuestionConfig {
    /// The weight is within the bounds of a grade.
    pub open spec fn wf(&self) -> bool {
        &&& abs(self.weight.mantissa as int) < INPUT_LIMIT
        &&& self.weight.scale <= INPUT_SCALE
        &&& self.template_final@.len() > 0
    }

    /// The statement belongs to this question.
    pub open spec fn matches(&self, statement: Seq<char>) -> bool {
        contains(statement, self.template_final@) || contains(statement, self.template_raw@)
    }

    pub open spec fn evaluates(&self, input: Seq<char>) -> Option<Seq<char>> {
        evaluation(self.response_kind, self.weight.model(), input)
    }

    fn fill_template(&mut self, replacers: &[(&str, &str)])
        ensures
            final(self).template_final@ == substitute(old(self).template_raw@, pair_views(replacers@)),
            final(self).template_raw == old(self).template_raw,
            final(self).assessment_kind == old(self).assessment_kind,
            final(self).category == old(self).category,
            final(self).response_kind == old(self).response_kind,
            final(self).weight == old(self).weight,
    {
        self.template_final = self.template_raw.clone();
        let mut i: usize = 0;
        while i < replacers.len()
            invariant
                i <= replacers@.len(),
                self.template_final@ == substitute(self.template_raw@, pair_views(replacers@.take(i as int))),
                self.template_raw == old(self).template_raw,
                self.assessment_kind == old(self).assessment_kind,
                self.category == old(self).category,
                self.response_kind == old(self).response_kind,
                self.weight == old(self).weight,
            decreases replacers@.len() - i,
        {
            let (from, to) = replacers[i];
            let next = replace(self.template_final.as_str(), from, to);
            assert(pair_views(replacers@.take(i + 1)).drop_last() =~= pair_views(replacers@.take(i as int)));
            self.template_final = next;
            i = i + 1;
        }
        assert(replacers@.take(replacers@.len() as int) =~= replacers@);
    }

    /// The answer evaluated: a grade times the weight, written exactly; any other
    /// answer as it is.
    pub fn eval_answer(&self, input: &str) -> (r: Result<String, EvalError>)
        requires
            self.wf(),
        ensures
            r matches Ok(s) ==> self.evaluates(input@) == Some(s@),
            r is Err <==> self.evaluates(input@) is None,
    {
        proof {
            lemma_pow10_36();
            lemma_pow10_18();
        }
        match self.response_kind {
            ResponseKind::Grade => match parse_decimal(input, INPUT_LIMIT, INPUT_SCALE) {
                Some(d) => {
                    proof {
                        reveal_with_fuel(pow10, 19);
                    }
                    let p = product(d, self.weight);
                    Ok(decimal_string(p))
                },
                None => {
                    proof {
                        reveal_with_fuel(pow10, 19);
                    }
                    Err(EvalError::NonNumericGrade)
                },
            },
            _ => Ok(String::from_str(input)),
        }
    }

    /// A copy of the question.
    pub fn duplicate(&self) -> (r: QuestionConfig)
        ensures
            r.assessment_kind@ == self.assessment_kind@,
            r.response_kind == self.response_kind,
            r.category@ == self.category@,
            r.template_raw@ == self.template_raw@,
            r.template_final@ == self.template_final@,
            r.weight == self.weight,
    {
        QuestionConfig {
            assessment_kind: self.assessment_kind.clone(),
            response_kind: self.response_kind,
            category: self.category.clone(),
            template_raw: self.template_raw.clone(),
            template_final: self.template_final.clone(),
            weight: self.weight,
        }
    }

    /// Whether the statement holds the filled-in or the configured template.
    pub fn match_template(&self, input: &str) -> (r: bool)
        ensures
            r == self.matches(input@),
    {
        str_contains(input, self.template_final.as_str()) || str_contains(input, self.template_raw.as_str())
    }
}

/// A graded answer reads back as the grade times the weight, exactly.
pub proof fn lemma_grade_is_weighted(q: QuestionConfig, input: Seq<char>)
    requires
        q.wf(),
        q.response_kind == ResponseKind::Grade,
        q.evaluates(input) is Some,
    ensures
        ({
            let (m, k) = parse_number(input)->0;
            parse_number(q.evaluates(input)->0) == Some((m * q.weight.mantissa, (k + q.weight.scale) as nat))
        }),
{
    let (m, k) = parse_number(input)->0;
    lemma_text_round_trip(m * q.weight.mantissa, (k + q.weight.scale) as nat);
}

/// The error of a configuration row, if it has one.
pub open spec fn row_error(row: Seq<Seq<char>>, index: int) -> Option<ConfigError> {
    if row.len() < 5 {
        Some(ConfigError::MissingColumn { row: index as usize })
    } else if kind_named(row[1]) is None {
        Some(ConfigError::UnknownResponseKind { row: index as usize })
    } else if bounded(parse_number(row[4]), pow10(18), 9) is None {
        Some(ConfigError::InvalidWeight { row: index as usize })
    } else {
        None
    }
}

/// The question that a valid configuration row describes.
pub open spec fn describes(
    q: QuestionConfig,
    row: Seq<Seq<char>>,
    subs: Seq<(Seq<char>, Seq<char>)>,
) -> bool {
    &&& q.assessment_kind@ == row[0]
    &&& Some(q.response_kind) == kind_named(row[1])
    &&& q.category@ == row[2]
    &&& q.template_raw@ == row[3]
    &&& q.template_final@ == substitute(row[3], subs)
    &&& Some(q.weight.model()) == bounded(parse_number(row[4]), pow10(18), 9)
}

/// The error of a row, an empty template included.
pub open spec fn load_error(
    row: Seq<Seq<char>>,
    index: int,
    subs: Seq<(Seq<char>, Seq<char>)>,
) -> Option<ConfigError> {
    if row_error(row, index) is Some {
        row_error(row, index)
    } else if substitute(row[3], subs).len() == 0 {
        Some(ConfigError::EmptyTemplate { row: index as usize })
    } else {
        None
    }
}

pub open spec fn rows_view(rows: Seq<Vec<String>>) -> Seq<Seq<Seq<char>>> {
    rows.map_values(|r: Vec<String>| views(r@))
}

/// Builds the catalog from configuration rows, each `AssessmentKind, ResponseKind,
/// Category, Template, Weight` (further cells are ignored), filling in each
/// template's placeholders in the order given.
pub fn from_records(rows: &[Vec<String>], replace_with: &[(&str, &str)]) -> (r: Result<
    Vec<QuestionConfig>,
    ConfigError,
>)
    ensures
        ({
            let rs = rows_view(rows@);
            let subs = pair_views(replace_with@);
            match r {
                Ok(qs) => qs@.len() == rs.len() && forall|i: int|
                    0 <= i < rs.len() ==> load_error(#[trigger] rs[i], i, subs) is None && describes(
                        qs@[i],
                        rs[i],
                        subs,
                    ) && qs@[i].wf(),
                Err(e) => exists|j: int|
                    0 <= j < rs.len() && load_error(#[trigger] rs[j], j, subs) == Some(e) && forall|
                        i: int,
                    |
                        0 <= i < j ==> load_error(#[trigger] rs[i], i, subs) is None,
            }
        }),
{
    let ghost rs = rows_view(rows@);
    let ghost subs = pair_views(replace_with@);
    let mut out: Vec<QuestionConfig> = Vec::new();
    let mut i: usize = 0;
    while i < rows.len()
        invariant
            rs == rows_view(rows@),
            subs == pair_views(replace_with@),
            i <= rows@.len(),
            out@.len() == i,
            forall|j: int|
                0 <= j < i ==> load_error(#[trigger] rs[j], j, subs) is None && describes(out@[j], rs[j], subs)
                    && out@[j].wf(),
        decreases rows@.len() - i,
    {
        let row = &rows[i];
        assert(rs[i as int] == views(row@));
        if row.len() < 5 {
            return Err(ConfigError::MissingColumn { row: i });
        }
        let kind = match ResponseKind::from_name(row[1].as_str()) {
            Some(k) => k,
            None => {
                return Err(ConfigError::UnknownResponseKind { row: i });
            },
        };
        proof {
            lemma_pow10_36();
            lemma_pow10_18();
        }
        let weight = match parse_decimal(row[4].as_str(), INPUT_LIMIT, INPUT_SCALE) {
            Some(w) => w,
            None => {
                return Err(ConfigError::InvalidWeight { row: i });
            },
        };
        let mut q = QuestionConfig {
            assessment_kind: row[0].clone(),
            response_kind: kind,
            category: row[2].clone(),
            template_raw: row[3].clone(),
            template_final: String::new(),
            weight,
        };
        q.fill_template(replace_with);
        if q.template_final.as_str().unicode_len() == 0 {
            return Err(ConfigError::EmptyTemplate { row: i });
        }
        out.push(q);
        i = i + 1;
    }
    Ok(out)
}

/// The data records of CSV text whose first line names the columns.
pub uninterp spec fn csv_records_of(text: Seq<u8>) -> Seq<Seq<Seq<char>>>;

/// The text is CSV that reads without error: valid UTF-8, every record with as
/// many fields as the header line.
pub uninterp spec fn csv_accepts(text: Seq<u8>) -> bool;

#[verifier::external_type_specification]
#[verifier::external_body]
pub struct ExCsvError(csv::Error);

/// Relies on `csv::Reader::from_reader` and `csv::Reader::records`: the records of
/// the text after its header line, each as its fields. Reading a slice with the
/// default settings succeeds or fails by the text alone.
#[verifier::external_body]
fn csv_records(text: &[u8]) -> (r: Result<Vec<Vec<String>>, csv::Error>)
    ensures
        r is Ok <==> csv_accepts(text@),
        r matches Ok(rows) ==> rows_view(rows@) == csv_records_of(text@),
{
    let mut reader = csv::Reader::from_reader(text);
    let mut rows: Vec<Vec<String>> = Vec::new();
    for record in reader.records() {
        rows.push(record?.iter().map(String::from).collect());
    }
    Ok(rows)
}

/// Builds the catalog from CSV text with a header line, as `from_records` does
/// from its records: `Csv` exactly when the text is not readable CSV; otherwise
/// the catalog when every record is valid, else the error of the first invalid one.
pub fn read(text: &[u8], replace_with: &[(&str, &str)]) -> (r: Result<Vec<QuestionConfig>, ConfigError>)
    ensures
        (r == Err::<Vec<QuestionConfig>, ConfigError>(ConfigError::Csv)) <==> !csv_accepts(text@),
        csv_accepts(text@) ==> ({
            let rs = csv_records_of(text@);
            let subs = pair_views(replace_with@);
            r is Ok <==> forall|i: int| 0 <= i < rs.len() ==> load_error(#[trigger] rs[i], i, subs) is None
        }),
        r matches Ok(qs) ==> ({
            let rs = csv_records_of(text@);
            let subs = pair_views(replace_with@);
            qs@.len() == rs.len() && forall|i: int|
                0 <= i < rs.len() ==> describes(qs@[i], #[trigger] rs[i], subs) && qs@[i].wf()
        }),
        r is Err && r->Err_0 != ConfigError::Csv ==> ({
            let rs = csv_records_of(text@);
            let subs = pair_views(replace_with@);
            exists|j: int|
                0 <= j < rs.len() && load_error(#[trigger] rs[j], j, subs) == Some(r->Err_0) && forall|i: int|
                    0 <= i < j ==> load_error(#[trigger] rs[i], i, subs) is None
        }),
{
    match csv_records(text) {
        Ok(rows) => {
            let records = rows.as_slice();
            assert(records@ == rows@);
            let r = from_records(records, replace_with);
            assert(rows_view(records@) == csv_records_of(text@));
            proof {
                let rs = csv_records_of(text@);
                let subs = pair_views(replace_with@);
                if r is Ok {
                    let qs = r->Ok_0;
                    assert(qs@.len() == rs.len());
                    assert(forall|i: int| 0 <= i < rs.len() ==> describes(qs@[i], #[trigger] rs[i], subs));
                } else {
                    let e = r->Err_0;
                    let j = choose|j: int|
                        0 <= j < rs.len() && load_error(#[trigger] rs[j], j, subs) == Some(e) && forall|i: int|
                            0 <= i < j ==> load_error(#[trigger] rs[i], i, subs) is None;
                    assert(load_error(rs[j], j, subs) is Some);
                    assert(e != ConfigError::Csv);
                }
            }
            r
        },
        Err(_) => Err(ConfigError::Csv),
    }
}

} // verus!
