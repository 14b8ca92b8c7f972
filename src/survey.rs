//! The scanner: matches each row of answers to a template and collects the
//! evaluated answers by group, in the order in which groups are first seen.
use vstd::prelude::*;
use crate::config::{QuestionConfig, ResponseKind};
use crate::sheets::spreadsheets_values::SpreadsheetValueRange;
use crate::summary::copy_row;
use crate::text::{contains, views};

verus! {

/// A group of collected answers: its label, its category and its values in order.
pub type Group = (Seq<char>, Seq<char>, Seq<Seq<char>>);

/// The answers collected for one group.
#[derive(Debug)]
pub struct Responses {
    /// The label: the template's assessment kind, or a discriminator's value.
    pub assessment_kind: String,
    pub category_name: String,
    vals: Vec<String>,
}

impl View for Responses {
    type V = Group;

    closed spec fn view(&self) -> Group {
        (self.assessment_kind@, self.category_name@, views(self.vals@))
    }
}

impl Responses {
    /// An empty group.
    pub fn new(assessment_kind: String, category_name: String) -> (r: Self)
        ensures
            r@ == (assessment_kind@, category_name@, Seq::<Seq<char>>::empty()),
    {
        let r = Responses { assessment_kind, category_name, vals: Vec::new() };
        assert(views(r.vals@) =~= Seq::<Seq<char>>::empty());
        r
    }

    /// Appends one value.
    pub fn write(&mut self, response: &str)
        ensures
            final(self)@ == (old(self)@.0, old(self)@.1, old(self)@.2.push(response@)),
    {
        self.vals.push(String::from_str(response));
        assert(views(self.vals@) =~= views(old(self).vals@).push(response@));
    }

    /// The values, in the order in which they were written.
    pub fn read(&self) -> (r: &Vec<String>)
        ensures
            views(r@) == self@.2,
    {
        &self.vals
    }

    /// The label of the group.
    pub fn label(&self) -> (r: &String)
        ensures
            r@ == self@.0,
    {
        &self.assessment_kind
    }

    /// The category of the group.
    pub fn category(&self) -> (r: &String)
        ensures
            r@ == self@.1,
    {
        &self.category_name
    }
}

pub open spec fn group_views(v: Seq<Responses>) -> Seq<Group> {
    v.map_values(|r: Responses| r@)
}

/// Why a scan stopped; `row` counts the rows scanned, `column` the answers of a row,
/// both from zero, and `template` is the position of the matched template.
#[derive(Clone, Copy, Debug, PartialEq, Eq, Structural)]
pub enum ScanError {
    /// A row has no statement cell.
    EmptyRow { row: usize },
    /// A graded answer is not a number within bounds.
    NonNumericGrade { row: usize, column: usize, template: usize },
}

/// The state of a scan: the last discriminator value seen in each column, the
/// groups in the order first seen, and the rows that matched no template.
pub struct ScanState {
    pub buffer: Map<int, Seq<char>>,
    pub groups: Seq<Group>,
    pub skipped: Seq<int>,
}

pub open spec fn initial_state() -> ScanState {
    ScanState { buffer: Map::empty(), groups: Seq::empty(), skipped: Seq::empty() }
}

/// `i` is the first template that the statement matches.
pub open spec fn first_template(ts: Seq<QuestionConfig>, statement: Seq<char>, i: int) -> bool {
    &&& 0 <= i < ts.len()
    &&& ts[i].matches(statement)
    &&& forall|j: int| 0 <= j < i ==> !(#[trigger] ts[j]).matches(statement)
}

/// The position of the first template, in catalog order, that the statement matches.
pub open spec fn template_for(ts: Seq<QuestionConfig>, statement: Seq<char>) -> Option<int> {
    if exists|i: int| first_template(ts, statement, i) {
        Some(choose|i: int| first_template(ts, statement, i))
    } else {
        None
    }
}

/// `i` is the first group with the given key.
pub open spec fn first_group(groups: Seq<Group>, label: Seq<char>, category: Seq<char>, i: int) -> bool {
    &&& 0 <= i < groups.len()
    &&& groups[i].0 == label
    &&& groups[i].1 == category
    &&& forall|j: int| 0 <= j < i ==> !((#[trigger] groups[j]).0 == label && groups[j].1 == category)
}

/// The groups with `v` appended to the group of the key, which is created at the
/// end when there is none yet.
pub open spec fn append_value(groups: Seq<Group>, label: Seq<char>, category: Seq<char>, v: Seq<char>) -> Seq<Group> {
    if exists|i: int| first_group(groups, label, category, i) {
        let i = choose|i: int| first_group(groups, label, category, i);
        groups.update(i, (groups[i].0, groups[i].1, groups[i].2.push(v)))
    } else {
        groups.push((label, category, seq![v]))
    }
}

/// One answer, in column `col` of row `row`, under template `t` at position `ti`.
pub open spec fn step(
    t: QuestionConfig,
    ti: int,
    row: int,
    st: ScanState,
    col: int,
    v: Seq<char>,
) -> Result<ScanState, ScanError> {
    match t.evaluates(v) {
        None => Err(ScanError::NonNumericGrade { row: row as usize, column: col as usize, template: ti as usize }),
        Some(e) => if t.response_kind == ResponseKind::Discriminator {
            Ok(ScanState { buffer: st.buffer.insert(col, e), groups: st.groups, skipped: st.skipped })
        } else {
            let label = if st.buffer.contains_key(col) {
                st.buffer[col]
            } else {
                t.assessment_kind@
            };
            Ok(
                ScanState {
                    buffer: st.buffer,
                    groups: append_value(st.groups, label, t.category@, e),
                    skipped: st.skipped,
                },
            )
        },
    }
}

/// The answers of one row, from the first column on.
pub open spec fn scan_cells(
    t: QuestionConfig,
    ti: int,
    row: int,
    st: ScanState,
    cells: Seq<Seq<char>>,
) -> Result<ScanState, ScanError>
    decreases cells.len(),
{
    if cells.len() == 0 {
        Ok(st)
    } else {
        match scan_cells(t, ti, row, st, cells.drop_last()) {
            Ok(s) => step(t, ti, row, s, cells.len() - 1, cells.last()),
            Err(e) => Err(e),
        }
    }
}

/// One row: its statement, then its answers; a row that matches no template is
/// recorded as skipped.
pub open spec fn scan_row(
    ts: Seq<QuestionConfig>,
    st: ScanState,
    row: Seq<Seq<char>>,
    r: int,
) -> Result<ScanState, ScanError> {
    if row.len() == 0 {
        Err(ScanError::EmptyRow { row: r as usize })
    } else {
        match template_for(ts, row[0]) {
            None => Ok(ScanState { buffer: st.buffer, groups: st.groups, skipped: st.skipped.push(r) }),
            Some(ti) => scan_cells(ts[ti], ti, r, st, row.drop_first()),
        }
    }
}

/// The rows, in order.
pub open spec fn scan_rows(ts: Seq<QuestionConfig>, rows: Seq<Seq<Seq<char>>>) -> Result<ScanState, ScanError>
    decreases rows.len(),
{
    if rows.len() == 0 {
        Ok(initial_state())
    } else {
        match scan_rows(ts, rows.drop_last()) {
            Ok(s) => scan_row(ts, s, rows.last(), rows.len() - 1),
            Err(e) => Err(e),
        }
    }
}

pub open spec fn rows_view(rows: Seq<Vec<String>>) -> Seq<Seq<Seq<char>>> {
    rows.map_values(|r: Vec<String>| views(r@))
}

/// The discriminator values that a column buffer holds.
pub open spec fn buffer_view(b: Seq<Option<String>>) -> Map<int, Seq<char>> {
    Map::new(|i: int| 0 <= i < b.len() && b[i] is Some, |i: int| b[i]->Some_0@)
}

pub open spec fn usize_views(v: Seq<usize>) -> Seq<int> {
    v.map_values(|x: usize| x as int)
}

/// The rows of all the ranges, one range after the other.
pub open spec fn sheet_rows(sheets: Seq<SpreadsheetValueRange>) -> Seq<Seq<Seq<char>>>
    decreases sheets.len(),
{
    if sheets.len() == 0 {
        Seq::empty()
    } else {
        sheet_rows(sheets.drop_last()) + rows_view(sheets.last().values@)
    }
}

/// What a scan collected.
pub struct ScanReport {
    /// The groups, in the order first seen.
    pub responses: Vec<Responses>,
    /// The positions of the rows whose statement matched no template.
    pub skipped: Vec<usize>,
}

/// A scan over a catalog of templates.
pub struct Survey<'a> {
    templates: &'a [QuestionConfig],
}

proof fn lemma_cells_error(
    t: QuestionConfig,
    ti: int,
    row: int,
    st: ScanState,
    cells: Seq<Seq<char>>,
    k: int,
)
    requires
        0 <= k <= cells.len(),
        scan_cells(t, ti, row, st, cells.take(k)) is Err,
    ensures
        scan_cells(t, ti, row, st, cells) == scan_cells(t, ti, row, st, cells.take(k)),
    decreases cells.len(),
{
    if k < cells.len() {
        assert(cells.drop_last().take(k) =~= cells.take(k));
        lemma_cells_error(t, ti, row, st, cells.drop_last(), k);
    } else {
        assert(cells.take(k) =~= cells);
    }
}

proof fn lemma_rows_error(ts: Seq<QuestionConfig>, rows: Seq<Seq<Seq<char>>>, k: int)
    requires
        0 <= k <= rows.len(),
        scan_rows(ts, rows.take(k)) is Err,
    ensures
        scan_rows(ts, rows) == scan_rows(ts, rows.take(k)),
    decreases rows.len(),
{
    if k < rows.len() {
        assert(rows.drop_last().take(k) =~= rows.take(k));
        lemma_rows_error(ts, rows.drop_last(), k);
    } else {
        assert(rows.take(k) =~= rows);
    }
}

impl<'a> Survey<'a> {
    /// The catalog, in load order.
    pub closed spec fn catalog(&self) -> Seq<QuestionConfig> {
        self.templates@
    }

    pub fn new(templates: &'a [QuestionConfig]) -> (r: Self)
        ensures
            r.catalog() == templates@,
    {
        Survey { templates }
    }

    /// The position of the first template, in catalog order, whose filled-in or
    /// configured template the statement holds.
    pub fn find_config_template(&self, input_question: &str) -> (r: Option<usize>)
        ensures
            r matches Some(i) ==> template_for(self.catalog(), input_question@) == Some(i as int),
            r is None ==> template_for(self.catalog(), input_question@) is None,
    {
        let ghost ts = self.catalog();
        let mut i: usize = 0;
        while i < self.templates.len()
            invariant
                ts == self.templates@,
                i <= ts.len(),
                forall|j: int| 0 <= j < i ==> !(#[trigger] ts[j]).matches(input_question@),
            decreases ts.len() - i,
        {
            if self.templates[i].match_template(input_question) {
                proof {
                    assert(first_template(ts, input_question@, i as int));
                    let c = choose|c: int| first_template(ts, input_question@, c);
                    assert(c == i) by {
                        if c < i {
                            assert(!ts[c].matches(input_question@));
                        } else if c > i {
                            assert(!ts[i as int].matches(input_question@));
                        }
                    }
                }
                return Some(i);
            }
            i = i + 1;
        }
        None
    }

    /// Scans the rows of all the ranges as one sequence, one range after the
    /// other; discriminator values carry over from one range to the next.
    pub fn scan_all(&self, from_sheets: &[SpreadsheetValueRange]) -> (r: Result<ScanReport, ScanError>)
        requires
            forall|i: int| 0 <= i < self.catalog().len() ==> (#[trigger] self.catalog()[i]).wf(),
        ensures
            match r {
                Ok(rep) => scan_rows(self.catalog(), sheet_rows(from_sheets@)) matches Ok(st)
                    && st.groups == group_views(rep.responses@)
                    && st.skipped == usize_views(rep.skipped@),
                Err(e) => scan_rows(self.catalog(), sheet_rows(from_sheets@)) == Err::<ScanState, ScanError>(e),
            },
    {
        let mut raw_data: Vec<Vec<String>> = Vec::new();
        let mut s: usize = 0;
        assert(rows_view(raw_data@) =~= sheet_rows(from_sheets@.take(0)));
        while s < from_sheets.len()
            invariant
                s <= from_sheets@.len(),
                rows_view(raw_data@) == sheet_rows(from_sheets@.take(s as int)),
            decreases from_sheets@.len() - s,
        {
            let ghost before = sheet_rows(from_sheets@.take(s as int));
            assert(from_sheets@.take(s + 1).drop_last() =~= from_sheets@.take(s as int));
            let values = &from_sheets[s].values;
            let mut k: usize = 0;
            assert(before + rows_view(values@.take(0)) =~= before);
            while k < values.len()
                invariant
                    s < from_sheets@.len(),
                    *values == from_sheets@[s as int].values,
                    k <= values@.len(),
                    rows_view(raw_data@) == before + rows_view(values@.take(k as int)),
                decreases values@.len() - k,
            {
                let ghost old_raw = raw_data@;
                raw_data.push(copy_row(&values[k]));
                assert(rows_view(raw_data@) =~= rows_view(old_raw).push(views(values@[k as int]@)));
                assert(before + rows_view(values@.take(k + 1)) =~= (before + rows_view(values@.take(k as int))).push(
                    views(values@[k as int]@),
                ));
                k = k + 1;
            }
            assert(values@.take(values@.len() as int) =~= values@);
            assert(sheet_rows(from_sheets@.take(s + 1)) == before + rows_view(values@));
            s = s + 1;
        }
        assert(from_sheets@.take(from_sheets@.len() as int) =~= from_sheets@);
        let rows = raw_data.as_slice();
        assert(rows@ == raw_data@);
        self.scan(rows)
    }

    /// Scans the rows in order. Each row is a statement followed by one answer
    /// per column; a statement that matches no template leaves its row skipped.
    /// A discriminator's answers relabel the later answers of the same column.
    /// A row without a statement, or a graded answer that is not a number within
    /// bounds, stops the scan with an error that names where it stood.
    pub fn scan(&self, rows: &[Vec<String>]) -> (r: Result<ScanReport, ScanError>)
        requires
            forall|i: int| 0 <= i < self.catalog().len() ==> (#[trigger] self.catalog()[i]).wf(),
        ensures
            match r {
                Ok(rep) => scan_rows(self.catalog(), rows_view(rows@)) matches Ok(st)
                    && st.groups == group_views(rep.responses@)
                    && st.skipped == usize_views(rep.skipped@),
                Err(e) => scan_rows(self.catalog(), rows_view(rows@)) == Err::<ScanState, ScanError>(e),
            },
    {
        let ghost ts = self.catalog();
        let ghost rs = rows_view(rows@);
        let mut buffer: Vec<Option<String>> = Vec::new();
        let mut groups: Vec<Responses> = Vec::new();
        let mut skipped: Vec<usize> = Vec::new();
        let mut i: usize = 0;
        assert(buffer_view(buffer@) =~= Map::<int, Seq<char>>::empty());
        assert(group_views(groups@) =~= Seq::<Group>::empty());
        assert(usize_views(skipped@) =~= Seq::<int>::empty());
        while i < rows.len()
            invariant
                ts == self.catalog(),
                ts == self.templates@,
                forall|k: int| 0 <= k < ts.len() ==> (#[trigger] ts[k]).wf(),
                rs == rows_view(rows@),
                i <= rows@.len(),
                scan_rows(ts, rs.take(i as int)) == Ok::<ScanState, ScanError>(
                    ScanState {
                        buffer: buffer_view(buffer@),
                        groups: group_views(groups@),
                        skipped: usize_views(skipped@),
                    },
                ),
            decreases rows@.len() - i,
        {
            let row = &rows[i];
            let ghost st0 = ScanState {
                buffer: buffer_view(buffer@),
                groups: group_views(groups@),
                skipped: usize_views(skipped@),
            };
            assert(rs[i as int] == views(row@));
            assert(rs.take(i + 1).drop_last() =~= rs.take(i as int));
            assert(rs.take(i + 1).last() == rs[i as int]);
            if row.len() == 0 {
                proof {
                    lemma_rows_error(ts, rs, i + 1);
                }
                return Err(ScanError::EmptyRow { row: i });
            }
            match self.find_config_template(row[0].as_str()) {
                None => {
                    skipped.push(i);
                    assert(usize_views(skipped@) =~= st0.skipped.push(i as int));
                },
                Some(ti) => {
                    let t = &self.templates[ti];
                    let ghost cells = views(row@).drop_first();
                    let mut j: usize = 1;
                    assert(cells.take(0) =~= Seq::<Seq<char>>::empty());
                    while j < row.len()
                        invariant
                            ts == self.templates@,
                            ts == self.catalog(),
                            forall|k: int| 0 <= k < ts.len() ==> (#[trigger] ts[k]).wf(),
                            rs == rows_view(rows@),
                            i < rows@.len(),
                            *row == rows@[i as int],
                            rs[i as int] == views(row@),
                            row@.len() > 0,
                            template_for(ts, row@[0]@) == Some(ti as int),
                            scan_rows(ts, rs.take(i as int)) == Ok::<ScanState, ScanError>(st0),
                            rs.take(i + 1).drop_last() == rs.take(i as int),
                            rs.take(i + 1).last() == rs[i as int],
                            0 <= ti < ts.len(),
                            *t == ts[ti as int],
                            1 <= j <= row@.len(),
                            cells == views(row@).drop_first(),
                            scan_cells(*t, ti as int, i as int, st0, cells.take(j - 1)) == Ok::<
                                ScanState,
                                ScanError,
                            >(
                                ScanState {
                                    buffer: buffer_view(buffer@),
                                    groups: group_views(groups@),
                                    skipped: usize_views(skipped@),
                                },
                            ),
                        decreases row@.len() - j,
                    {
                        let col: usize = j - 1;
                        let ghost s1 = ScanState {
                            buffer: buffer_view(buffer@),
                            groups: group_views(groups@),
                            skipped: usize_views(skipped@),
                        };
                        assert(cells.take(j as int).drop_last() =~= cells.take(col as int));
                        assert(cells.take(j as int).last() == row@[j as int]@);
                        match t.eval_answer(row[j].as_str()) {
                            Err(_) => {
                                proof {
                                    lemma_cells_error(*t, ti as int, i as int, st0, cells, j as int);
                                    assert(rs[i as int][0] == row@[0]@);
                                    assert(rs[i as int].drop_first() == cells);
                                    assert(scan_row(ts, st0, rs[i as int], i as int) is Err);
                                    assert(scan_rows(ts, rs.take(i + 1)) == scan_row(ts, st0, rs[i as int], i as int));
                                    lemma_rows_error(ts, rs, i + 1);
                                }
                                return Err(ScanError::NonNumericGrade { row: i, column: col, template: ti });
                            },
                            Ok(e) => {
                                if t.response_kind == ResponseKind::Discriminator {
                                    set_discriminator(&mut buffer, col, e);
                                } else {
                                    let label = match discriminator_at(&buffer, col) {
                                        Some(d) => d,
                                        None => t.assessment_kind.clone(),
                                    };
                                    append_response(&mut groups, label, t.category.clone(), e);
                                }
                            },
                        }
                        j = j + 1;
                    }
                    assert(cells.take(row@.len() - 1) =~= cells);
                },
            }
            i = i + 1;
        }
        assert(rs.take(rows@.len() as int) =~= rs);
        Ok(ScanReport { responses: groups, skipped })
    }
}

/// Records `v` as the discriminator value of column `col`.
fn set_discriminator(buffer: &mut Vec<Option<String>>, col: usize, v: String)
    ensures
        buffer_view(final(buffer)@) == buffer_view(old(buffer)@).insert(col as int, v@),
{
    while buffer.len() <= col
        invariant
            buffer_view(buffer@) == buffer_view(old(buffer)@),
        decreases col + 1 - buffer@.len(),
    {
        let ghost before = buffer@;
        buffer.push(None);
        assert(buffer_view(buffer@) =~= buffer_view(before));
    }
    let ghost before = buffer@;
    buffer.set(col, Some(v));
    assert(buffer_view(buffer@) =~= buffer_view(before).insert(col as int, v@));
}

/// The discriminator value recorded for column `col`, if any.
fn discriminator_at(buffer: &Vec<Option<String>>, col: usize) -> (r: Option<String>)
    ensures
        r is Some <==> buffer_view(buffer@).contains_key(col as int),
        r matches Some(s) ==> s@ == buffer_view(buffer@)[col as int],
{
    if col < buffer.len() {
        match &buffer[col] {
            Some(s) => Some(s.clone()),
            None => None,
        }
    } else {
        None
    }
}

/// Appends `v` to the first group with the key `(label, category)`, creating it
/// at the end when there is none.
fn append_response(groups: &mut Vec<Responses>, label: String, category: String, v: String)
    ensures
        group_views(final(groups)@) == append_value(group_views(old(groups)@), label@, category@, v@),
{
    let ghost gs = group_views(groups@);
    let mut i: usize = 0;
    while i < groups.len()
        invariant
            gs == group_views(groups@),
            groups@ == old(groups)@,
            i <= groups@.len(),
            forall|j: int| 0 <= j < i ==> !((#[trigger] gs[j]).0 == label@ && gs[j].1 == category@),
        decreases groups@.len() - i,
    {
        if string_eq(groups[i].label(), &label) && string_eq(groups[i].category(), &category) {
            proof {
                assert(first_group(gs, label@, category@, i as int));
                let c = choose|c: int| first_group(gs, label@, category@, c);
                assert(c == i) by {
                    if c < i {
                        assert(!(gs[c].0 == label@ && gs[c].1 == category@));
                    } else if c > i {
                        assert(!(gs[i as int].0 == label@ && gs[i as int].1 == category@));
                    }
                }
            }
            let mut g = groups.remove(i);
            g.write(v.as_str());
            groups.insert(i, g);
            assert(group_views(groups@) =~= gs.update(i as int, (gs[i as int].0, gs[i as int].1, gs[i as int].2.push(v@))));
            return;
        }
        i = i + 1;
    }
    let mut g = Responses::new(label, category);
    g.write(v.as_str());
    groups.push(g);
    assert(seq![v@] =~= Seq::<Seq<char>>::empty().push(v@));
    assert(group_views(groups@) =~= gs.push((label@, category@, seq![v@])));
}

/// Whether two strings are equal.
pub fn string_eq(a: &String, b: &String) -> (r: bool)
    ensures
        r == (a@ == b@),
{
    a.eq(b)
}

/// A statement that holds the filled-in template of some question is matched to
/// the first such question in catalog order, provided that no question before it
/// holds the statement's configured template either. The match is a function of
/// the catalog and the statement, so repeating it gives the same question.
pub proof fn lemma_first_match(ts: Seq<QuestionConfig>, statement: Seq<char>, i: int)
    requires
        0 <= i < ts.len(),
        contains(statement, ts[i].template_final@),
        forall|j: int|
            0 <= j < i ==> !contains(statement, (#[trigger] ts[j]).template_final@) && !contains(
                statement,
                ts[j].template_raw@,
            ),
    ensures
        template_for(ts, statement) == Some(i),
{
    assert(first_template(ts, statement, i));
    let c = choose|c: int| first_template(ts, statement, c);
    if c < i {
        assert(!ts[c].matches(statement));
    } else if c > i {
        assert(!ts[i].matches(statement));
    }
}

/// Some group with the key `(label, category)` holds `v`.
pub open spec fn holds(groups: Seq<Group>, label: Seq<char>, category: Seq<char>, v: Seq<char>) -> bool {
    exists|g: int| 0 <= g < groups.len() && (#[trigger] groups[g]).0 == label && groups[g].1 == category && groups[g].2.contains(v)
}

proof fn lemma_append_holds(groups: Seq<Group>, label: Seq<char>, category: Seq<char>, v: Seq<char>)
    ensures
        holds(append_value(groups, label, category, v), label, category, v),
{
    let r = append_value(groups, label, category, v);
    if exists|i: int| first_group(groups, label, category, i) {
        let i = choose|i: int| first_group(groups, label, category, i);
        assert(r[i].2[r[i].2.len() - 1] == v);
    } else {
        assert(r[groups.len() as int].2[0] == v);
    }
}

proof fn lemma_append_keeps(
    groups: Seq<Group>,
    label: Seq<char>,
    category: Seq<char>,
    v: Seq<char>,
    l: Seq<char>,
    c: Seq<char>,
    x: Seq<char>,
)
    requires
        holds(groups, l, c, x),
    ensures
        holds(append_value(groups, label, category, v), l, c, x),
{
    let r = append_value(groups, label, category, v);
    let g = choose|g: int| 0 <= g < groups.len() && (#[trigger] groups[g]).0 == l && groups[g].1 == c && groups[g].2.contains(x);
    let k = choose|k: int| 0 <= k < groups[g].2.len() && groups[g].2[k] == x;
    if exists|i: int| first_group(groups, label, category, i) {
        let i = choose|i: int| first_group(groups, label, category, i);
        if i == g {
            assert(r[g].2[k] == x);
        } else {
            assert(r[g] == groups[g]);
        }
    } else {
        assert(r[g] == groups[g]);
    }
    assert(r[g].2.contains(x));
}

proof fn lemma_discriminator_cells(t: QuestionConfig, ti: int, row: int, st: ScanState, cells: Seq<Seq<char>>)
    requires
        t.response_kind == ResponseKind::Discriminator,
        scan_cells(t, ti, row, st, cells) is Ok,
    ensures
        forall|col: int|
            0 <= col < cells.len() ==> (#[trigger] scan_cells(t, ti, row, st, cells)->Ok_0.buffer.contains_key(col))
                && scan_cells(t, ti, row, st, cells)->Ok_0.buffer[col] == t.evaluates(cells[col])->Some_0,
    decreases cells.len(),
{
    if cells.len() > 0 {
        let front = cells.drop_last();
        lemma_discriminator_cells(t, ti, row, st, front);
        let mid = scan_cells(t, ti, row, st, front)->Ok_0;
        let fin = scan_cells(t, ti, row, st, cells)->Ok_0;
        assert(fin.buffer == mid.buffer.insert(cells.len() - 1, t.evaluates(cells.last())->Some_0));
        assert forall|col: int| 0 <= col < cells.len() implies (#[trigger] fin.buffer.contains_key(col))
            && fin.buffer[col] == t.evaluates(cells[col])->Some_0 by {
            if col < cells.len() - 1 {
                assert(scan_cells(t, ti, row, st, front)->Ok_0.buffer.contains_key(col));
                assert(front[col] == cells[col]);
            }
        }
    }
}

proof fn lemma_answer_cells(t: QuestionConfig, ti: int, row: int, st: ScanState, cells: Seq<Seq<char>>)
    requires
        t.response_kind != ResponseKind::Discriminator,
        scan_cells(t, ti, row, st, cells) is Ok,
    ensures
        scan_cells(t, ti, row, st, cells)->Ok_0.buffer == st.buffer,
        forall|col: int|
            0 <= col < cells.len() && #[trigger] st.buffer.contains_key(col) ==> holds(
                scan_cells(t, ti, row, st, cells)->Ok_0.groups,
                st.buffer[col],
                t.category@,
                t.evaluates(cells[col])->Some_0,
            ),
    decreases cells.len(),
{
    if cells.len() > 0 {
        let front = cells.drop_last();
        lemma_answer_cells(t, ti, row, st, front);
        let mid = scan_cells(t, ti, row, st, front)->Ok_0;
        let fin = scan_cells(t, ti, row, st, cells)->Ok_0;
        let last = cells.len() - 1;
        let e = t.evaluates(cells.last())->Some_0;
        let label = if mid.buffer.contains_key(last) {
            mid.buffer[last]
        } else {
            t.assessment_kind@
        };
        assert(fin.groups == append_value(mid.groups, label, t.category@, e));
        assert forall|col: int| 0 <= col < cells.len() && #[trigger] st.buffer.contains_key(col) implies holds(
            fin.groups,
            st.buffer[col],
            t.category@,
            t.evaluates(cells[col])->Some_0,
        ) by {
            if col < last {
                assert(front[col] == cells[col]);
                lemma_append_keeps(mid.groups, label, t.category@, e, st.buffer[col], t.category@, t.evaluates(cells[col])->Some_0);
            } else {
                lemma_append_holds(mid.groups, label, t.category@, e);
            }
        }
    }
}

/// When a discriminator row comes before an answer row, the answer in a column
/// is grouped under the discriminator's value in that column, not under its
/// template's assessment kind.
pub proof fn lemma_discriminator_relabels(ts: Seq<QuestionConfig>, d: Seq<Seq<char>>, r: Seq<Seq<char>>, i: int)
    requires
        0 <= i,
        i + 1 < d.len(),
        i + 1 < r.len(),
        template_for(ts, d[0]) is Some,
        ts[template_for(ts, d[0])->Some_0].response_kind == ResponseKind::Discriminator,
        template_for(ts, r[0]) is Some,
        ts[template_for(ts, r[0])->Some_0].response_kind != ResponseKind::Discriminator,
        scan_rows(ts, seq![d, r]) is Ok,
    ensures
        ({
            let a = template_for(ts, d[0])->Some_0;
            let b = template_for(ts, r[0])->Some_0;
            holds(
                scan_rows(ts, seq![d, r])->Ok_0.groups,
                ts[a].evaluates(d[i + 1])->Some_0,
                ts[b].category@,
                ts[b].evaluates(r[i + 1])->Some_0,
            )
        }),
{
    let rows = seq![d, r];
    let a = template_for(ts, d[0])->Some_0;
    let b = template_for(ts, r[0])->Some_0;
    assert(first_template(ts, d[0], a));
    assert(first_template(ts, r[0], b));
    assert(rows.drop_last() =~= seq![d]);
    assert(seq![d].drop_last() =~= Seq::<Seq<Seq<char>>>::empty());
    let s0 = initial_state();
    assert(scan_rows(ts, seq![d].drop_last()) == Ok::<ScanState, ScanError>(s0));
    assert(seq![d].last() == d);
    assert(scan_rows(ts, seq![d]) == scan_row(ts, s0, d, 0));
    let s1 = scan_row(ts, s0, d, 0)->Ok_0;
    assert(scan_row(ts, s0, d, 0) == scan_cells(ts[a], a, 0, s0, d.drop_first()));
    lemma_discriminator_cells(ts[a], a, 0, s0, d.drop_first());
    assert(d.drop_first()[i] == d[i + 1]);
    assert(s1.buffer.contains_key(i));
    assert(scan_rows(ts, rows) == scan_row(ts, s1, r, 1));
    assert(scan_row(ts, s1, r, 1) == scan_cells(ts[b], b, 1, s1, r.drop_first()));
    lemma_answer_cells(ts[b], b, 1, s1, r.drop_first());
    assert(r.drop_first()[i] == r[i + 1]);
}

} // verus!
