//! Summary tables: rows keyed by their first cell, kept in first-seen order.
use vstd::prelude::*;
use crate::config::{summary_cell, ResponseKind};
use crate::survey::{group_views, Group, Responses};
use crate::text::views;

verus! {

/// The key of the row that lists the column headers.
pub const HEADER_KEY: &'static str = "Data";

/// The cell shown for a group whose values give no summary.
pub const NO_DATA: &'static str = "no data";

/// Rows of cells; the first cell of each row is its key, and keys are looked up
/// from the first row on.
pub struct SummaryRows {
    base: Vec<Vec<String>>,
}

pub open spec fn rows_of(v: Seq<Vec<String>>) -> Seq<Seq<Seq<char>>> {
    v.map_values(|r: Vec<String>| views(r@))
}

/// `i` is the first row with the given key.
pub open spec fn first_row(rows: Seq<Seq<Seq<char>>>, key: Seq<char>, i: int) -> bool {
    &&& 0 <= i < rows.len()
    &&& rows[i].len() > 0
    &&& rows[i][0] == key
    &&& forall|j: int| 0 <= j < i ==> !((#[trigger] rows[j]).len() > 0 && rows[j][0] == key)
}

/// The rows with `v` appended to the row of `key`, which is created at the end
/// as `[key, v]` when there is none yet.
pub open spec fn with_cell(rows: Seq<Seq<Seq<char>>>, key: Seq<char>, v: Seq<char>) -> Seq<Seq<Seq<char>>> {
    if exists|i: int| first_row(rows, key, i) {
        let i = choose|i: int| first_row(rows, key, i);
        rows.update(i, rows[i].push(v))
    } else {
        rows.push(seq![key, v])
    }
}

/// As `with_cell`, but nothing changes when the row of `key` already holds `v`.
pub open spec fn with_header(rows: Seq<Seq<Seq<char>>>, key: Seq<char>, v: Seq<char>) -> Seq<Seq<Seq<char>>> {
    if exists|i: int| first_row(rows, key, i) && rows[i].contains(v) {
        rows
    } else {
        with_cell(rows, key, v)
    }
}

/// Which part of a group keys a header or a row.
#[derive(Clone, Copy, Debug, PartialEq, Eq, Structural)]
pub enum KeyField {
    Category,
    AssessmentKind,
}

pub open spec fn key_of(field: KeyField, g: Group) -> Seq<char> {
    match field {
        KeyField::Category => g.1,
        KeyField::AssessmentKind => g.0,
    }
}

/// The cell of a group: its summary, or the marker for no data.
pub open spec fn cell_text(kind: ResponseKind, vals: Seq<Seq<char>>) -> Seq<char> {
    match summary_cell(kind, vals) {
        Some(c) => c,
        None => NO_DATA@,
    }
}

/// The table of the groups, in order: each adds its header key to the header row
/// once and its cell to the row of its cell key.
pub open spec fn table(kind: ResponseKind, data: Seq<Group>, header: KeyField, cell_key: KeyField) -> Seq<Seq<Seq<char>>>
    decreases data.len(),
{
    if data.len() == 0 {
        Seq::empty()
    } else {
        let g = data.last();
        let rows = with_header(table(kind, data.drop_last(), header, cell_key), HEADER_KEY@, key_of(header, g));
        with_cell(rows, key_of(cell_key, g), cell_text(kind, g.2))
    }
}

/// The grade table: categories across, one row of means per label.
pub open spec fn grade_table(data: Seq<Group>) -> Seq<Seq<Seq<char>>> {
    table(ResponseKind::Grade, data, KeyField::Category, KeyField::AssessmentKind)
}

/// The text table: labels across, one row of texts per category.
pub open spec fn text_table(data: Seq<Group>) -> Seq<Seq<Seq<char>>> {
    table(ResponseKind::Text, data, KeyField::AssessmentKind, KeyField::Category)
}

/// Copies a row of cells.
pub(crate) fn copy_row(row: &Vec<String>) -> (r: Vec<String>)
    ensures
        views(r@) == views(row@),
{
    let mut r: Vec<String> = Vec::new();
    let mut i: usize = 0;
    while i < row.len()
        invariant
            i <= row@.len(),
            views(r@) == views(row@.take(i as int)),
        decreases row@.len() - i,
    {
        r.push(row[i].clone());
        assert(views(row@.take(i + 1)) =~= views(row@.take(i as int)).push(row@[i as int]@));
        i = i + 1;
    }
    assert(row@.take(row@.len() as int) =~= row@);
    r
}

impl View for SummaryRows {
    type V = Seq<Seq<Seq<char>>>;

    closed spec fn view(&self) -> Seq<Seq<Seq<char>>> {
        rows_of(self.base@)
    }
}

impl SummaryRows {
    /// No rows.
    pub fn new() -> (r: Self)
        ensures
            r@ == Seq::<Seq<Seq<char>>>::empty(),
    {
        let r = SummaryRows { base: Vec::new() };
        assert(rows_of(r.base@) =~= Seq::<Seq<Seq<char>>>::empty());
        r
    }

    /// Adds `v` to the row of `group_key` unless that row already holds it.
    pub fn add_header(&mut self, group_key: &str, v: &str)
        ensures
            final(self)@ == with_header(old(self)@, group_key@, v@),
    {
        if self.unique_entry_exists(group_key, v).is_some() {
            return;
        }
        self.add_cell(group_key, v);
    }

    /// Appends `v` to the row of `group_key`, starting that row when there is none.
    pub fn add_cell(&mut self, group_key: &str, v: &str)
        ensures
            final(self)@ == with_cell(old(self)@, group_key@, v@),
    {
        match self.cell_entry_exists(group_key) {
            Some(i) => self.append(i, v),
            None => self.insert(group_key, v),
        }
    }

    /// The position of the row of `group_key` when it holds `v`.
    fn unique_entry_exists(&self, group_key: &str, v: &str) -> (r: Option<usize>)
        ensures
            r is Some <==> exists|i: int| first_row(self@, group_key@, i) && self@[i].contains(v@),
    {
        match self.cell_entry_exists(group_key) {
            Some(i) => {
                let row = &self.base[i];
                let mut j: usize = 0;
                while j < row.len()
                    invariant
                        *row == self.base@[i as int],
                        first_row(self@, group_key@, i as int),
                        j <= row@.len(),
                        forall|k: int| 0 <= k < j ==> (#[trigger] self@[i as int][k]) != v@,
                    decreases row@.len() - j,
                {
                    if row[j].as_str().unicode_len() == v.unicode_len() && crate::survey::string_eq(
                        &row[j],
                        &String::from_str(v),
                    ) {
                        assert(self@[i as int][j as int] == v@);
                        return Some(i);
                    }
                    j = j + 1;
                }
                proof {
                    assert forall|c: int| first_row(self@, group_key@, c) implies !self@[c].contains(v@) by {
                        self.lemma_first_row_unique(group_key@, c, i as int);
                    }
                }
                None
            },
            None => None,
        }
    }

    proof fn lemma_first_row_unique(&self, key: Seq<char>, a: int, b: int)
        requires
            first_row(self@, key, a),
            first_row(self@, key, b),
        ensures
            a == b,
    {
        if a < b {
            assert(!(self@[a].len() > 0 && self@[a][0] == key));
        } else if a > b {
            assert(!(self@[b].len() > 0 && self@[b][0] == key));
        }
    }

    /// The position of the first row of `group_key`.
    fn cell_entry_exists(&self, group_key: &str) -> (r: Option<usize>)
        ensures
            r matches Some(i) ==> first_row(self@, group_key@, i as int),
            r is None ==> !exists|i: int| first_row(self@, group_key@, i),
    {
        let key = String::from_str(group_key);
        let mut i: usize = 0;
        while i < self.base.len()
            invariant
                key@ == group_key@,
                i <= self@.len(),
                self@.len() == self.base@.len(),
                forall|j: int| 0 <= j < i ==> !((#[trigger] self@[j]).len() > 0 && self@[j][0] == group_key@),
            decreases self@.len() - i,
        {
            let row = &self.base[i];
            assert(self@[i as int] == views(row@));
            if row.len() > 0 && crate::survey::string_eq(&row[0], &key) {
                return Some(i);
            }
            i = i + 1;
        }
        None
    }

    /// Appends `v` to row `i`.
    fn append(&mut self, i: usize, v: &str)
        requires
            i < old(self)@.len(),
        ensures
            final(self)@ == old(self)@.update(i as int, old(self)@[i as int].push(v@)),
    {
        let mut row = self.base.remove(i);
        let ghost before = row@;
        row.push(String::from_str(v));
        assert(views(row@) =~= views(before).push(v@));
        self.base.insert(i, row);
        assert(rows_of(self.base@) =~= rows_of(old(self).base@).update(
            i as int,
            rows_of(old(self).base@)[i as int].push(v@),
        ));
    }

    /// Starts the row `[group_key, v]` at the end.
    fn insert(&mut self, group_key: &str, v: &str)
        ensures
            final(self)@ == old(self)@.push(seq![group_key@, v@]),
    {
        let mut row: Vec<String> = Vec::new();
        row.push(String::from_str(group_key));
        row.push(String::from_str(v));
        assert(views(row@) =~= seq![group_key@, v@]);
        self.base.push(row);
        assert(rows_of(self.base@) =~= rows_of(old(self).base@).push(seq![group_key@, v@]));
    }

    /// The rows, in the order in which their keys were first added.
    pub fn rows(&self) -> (r: Vec<Vec<String>>)
        ensures
            rows_of(r@) == self@,
    {
        let mut out: Vec<Vec<String>> = Vec::new();
        let mut i: usize = 0;
        while i < self.base.len()
            invariant
                i <= self.base@.len(),
                rows_of(out@) == rows_of(self.base@.take(i as int)),
            decreases self.base@.len() - i,
        {
            out.push(copy_row(&self.base[i]));
            assert(rows_of(self.base@.take(i + 1)) =~= rows_of(self.base@.take(i as int)).push(
                views(self.base@[i as int]@),
            ));
            assert(rows_of(out@) =~= rows_of(self.base@.take(i as int)).push(views(self.base@[i as int]@)));
            i = i + 1;
        }
        assert(self.base@.take(self.base@.len() as int) =~= self.base@);
        out
    }
}

/// The text of one of a group's keys.
fn key_text(field: KeyField, r: &Responses) -> (s: String)
    ensures
        s@ == key_of(field, r@),
{
    match field {
        KeyField::Category => r.category().clone(),
        KeyField::AssessmentKind => r.label().clone(),
    }
}

/// Builds the table of the groups in order: the header row, keyed `Data`,
/// gains each group's header key once; each group's summary cell, or `no data`,
/// is appended to the row of its cell key.
pub fn fill_summary_rows(
    response_kind: &ResponseKind,
    by_category: &Vec<Responses>,
    header: KeyField,
    cell_key: KeyField,
) -> (r: SummaryRows)
    ensures
        r@ == table(*response_kind, group_views(by_category@), header, cell_key),
{
    let ghost data = group_views(by_category@);
    let mut rows = SummaryRows::new();
    let mut i: usize = 0;
    while i < by_category.len()
        invariant
            data == group_views(by_category@),
            i <= by_category@.len(),
            rows@ == table(*response_kind, data.take(i as int), header, cell_key),
        decreases by_category@.len() - i,
    {
        let g = &by_category[i];
        assert(data.take(i + 1).drop_last() =~= data.take(i as int));
        assert(data.take(i + 1).last() == g@);
        let h = key_text(header, g);
        rows.add_header(HEADER_KEY, h.as_str());
        let k = key_text(cell_key, g);
        let cell = match response_kind.process_data(g.read().as_slice()) {
            Some(c) => c,
            None => String::from_str(NO_DATA),
        };
        rows.add_cell(k.as_str(), cell.as_str());
        i = i + 1;
    }
    assert(data.take(by_category@.len() as int) =~= data);
    rows
}

/// The table for a kind: categories across and a row per label for grades,
/// labels across and a row per category for texts; none for discriminators.
pub fn generate_summary_rows(response_kind: &ResponseKind, data: &Vec<Responses>) -> (r: Option<SummaryRows>)
    ensures
        match *response_kind {
            ResponseKind::Grade => r matches Some(t) && t@ == grade_table(group_views(data@)),
            ResponseKind::Text => r matches Some(t) && t@ == text_table(group_views(data@)),
            ResponseKind::Discriminator => r is None,
        },
{
    match response_kind {
        ResponseKind::Grade => Some(
            fill_summary_rows(response_kind, data, KeyField::Category, KeyField::AssessmentKind),
        ),
        ResponseKind::Text => Some(
            fill_summary_rows(response_kind, data, KeyField::AssessmentKind, KeyField::Category),
        ),
        ResponseKind::Discriminator => None,
    }
}

/// The groups collected for grades and for texts.
pub struct Summary {
    texts: Vec<Responses>,
    grades: Vec<Responses>,
}

impl Summary {
    pub closed spec fn grades_view(&self) -> Seq<Group> {
        group_views(self.grades@)
    }

    pub closed spec fn texts_view(&self) -> Seq<Group> {
        group_views(self.texts@)
    }

    /// No groups of either kind.
    pub fn new() -> (r: Self)
        ensures
            r.grades_view() == Seq::<Group>::empty(),
            r.texts_view() == Seq::<Group>::empty(),
    {
        let r = Summary { texts: Vec::new(), grades: Vec::new() };
        assert(group_views(r.grades@) =~= Seq::<Group>::empty());
        assert(group_views(r.texts@) =~= Seq::<Group>::empty());
        r
    }

    /// Sets the groups of a kind; discriminator groups are dropped.
    pub fn set_by_kind(&mut self, response_kind: &ResponseKind, v: Vec<Responses>)
        ensures
            final(self).grades_view() == (if *response_kind == ResponseKind::Grade {
                group_views(v@)
            } else {
                old(self).grades_view()
            }),
            final(self).texts_view() == (if *response_kind == ResponseKind::Text {
                group_views(v@)
            } else {
                old(self).texts_view()
            }),
    {
        match response_kind {
            ResponseKind::Grade => self.grades = v,
            ResponseKind::Text => self.texts = v,
            ResponseKind::Discriminator => {},
        }
    }

    /// The grade table, then the text table.
    pub fn generate_rows(self) -> (r: Vec<SummaryRows>)
        ensures
            r@.len() == 2,
            r@[0]@ == grade_table(self.grades_view()),
            r@[1]@ == text_table(self.texts_view()),
    {
        let mut all_rows: Vec<SummaryRows> = Vec::new();
        match generate_summary_rows(&ResponseKind::Grade, &self.grades) {
            Some(rows) => all_rows.push(rows),
            None => {},
        }
        match generate_summary_rows(&ResponseKind::Text, &self.texts) {
            Some(rows) => all_rows.push(rows),
            None => {},
        }
        all_rows
    }
}

proof fn lemma_first_row_at(rows: Seq<Seq<Seq<char>>>, key: Seq<char>, i: int)
    requires
        first_row(rows, key, i),
    ensures
        (choose|c: int| first_row(rows, key, c)) == i,
{
    let c = choose|c: int| first_row(rows, key, c);
    if c < i {
        assert(!(rows[c].len() > 0 && rows[c][0] == key));
    } else if c > i {
        assert(!(rows[i].len() > 0 && rows[i][0] == key));
    }
}

/// The shape of a grade table: the header row first, without repeats and with
/// every category; every other row keyed by something else.
proof fn lemma_header_row(data: Seq<Group>)
    requires
        forall|g: int| 0 <= g < data.len() ==> (#[trigger] data[g]).0 != HEADER_KEY@ && data[g].1 != HEADER_KEY@,
    ensures
        data.len() == 0 ==> grade_table(data).len() == 0,
        data.len() > 0 ==> ({
            let t = grade_table(data);
            &&& t.len() > 0
            &&& t[0].len() > 0
            &&& t[0][0] == HEADER_KEY@
            &&& t[0].no_duplicates()
            &&& forall|g: int| 0 <= g < data.len() ==> t[0].contains(#[trigger] data[g].1)
        }),
        forall|i: int|
            0 < i < grade_table(data).len() ==> (#[trigger] grade_table(data)[i]).len() > 0
                && grade_table(data)[i][0] != HEADER_KEY@,
    decreases data.len(),
{
    if data.len() > 0 {
        let front = data.drop_last();
        assert forall|g: int| 0 <= g < front.len() implies (#[trigger] front[g]).0 != HEADER_KEY@ && front[g].1
            != HEADER_KEY@ by {
            assert(front[g] == data[g]);
        }
        lemma_header_row(front);
        let t = grade_table(front);
        let gl = data.last();
        assert(gl == data[data.len() - 1]);
        let cat = gl.1;
        let label = gl.0;
        let t1 = with_header(t, HEADER_KEY@, cat);
        let t2 = with_cell(t1, label, cell_text(ResponseKind::Grade, gl.2));
        assert(grade_table(data) == t2);
        if front.len() == 0 {
            assert(!exists|i: int| first_row(t, HEADER_KEY@, i));
            assert(t1 == seq![seq![HEADER_KEY@, cat]]);
        } else {
            assert(first_row(t, HEADER_KEY@, 0));
            lemma_first_row_at(t, HEADER_KEY@, 0);
            if t[0].contains(cat) {
                assert(t1 == t);
            } else {
                assert(t1 == t.update(0, t[0].push(cat)));
                assert forall|g: int| 0 <= g < data.len() implies t1[0].contains(#[trigger] data[g].1) by {
                    if g < front.len() {
                        assert(front[g] == data[g]);
                        assert(t[0].contains(front[g].1));
                        let k = choose|k: int| 0 <= k < t[0].len() && t[0][k] == front[g].1;
                        assert(t1[0][k] == data[g].1);
                    } else {
                        assert(t1[0][t[0].len() as int] == cat);
                    }
                }
            }
        }
        assert(t1.len() > 0 && t1[0].len() > 0 && t1[0][0] == HEADER_KEY@);
        assert(t1[0].no_duplicates());
        assert(forall|g: int| 0 <= g < data.len() ==> t1[0].contains(#[trigger] data[g].1)) by {
            assert forall|g: int| 0 <= g < data.len() implies t1[0].contains(#[trigger] data[g].1) by {
                if g < front.len() {
                    assert(front[g] == data[g]);
                } else {
                    if !t1[0].contains(cat) {
                        assert(t1[0][1] == cat);
                    }
                }
            }
        }
        assert(forall|i: int| 0 < i < t1.len() ==> (#[trigger] t1[i]).len() > 0 && t1[i][0] != HEADER_KEY@);
        if exists|i: int| first_row(t1, label, i) {
            let i = choose|i: int| first_row(t1, label, i);
            assert(i != 0);
            assert(t2 == t1.update(i, t1[i].push(cell_text(ResponseKind::Grade, gl.2))));
            assert(t2[i][0] == t1[i][0]);
        } else {
            assert(t2 == t1.push(seq![label, cell_text(ResponseKind::Grade, gl.2)]));
        }
        assert(t2[0] == t1[0]);
    }
}

/// In a grade table built from groups whose labels and categories differ from
/// the header key, the header row holds each category name exactly once, however
/// many groups share it.
pub proof fn lemma_grade_header_once(data: Seq<Group>, category: Seq<char>)
    requires
        forall|g: int| 0 <= g < data.len() ==> (#[trigger] data[g]).0 != HEADER_KEY@ && data[g].1 != HEADER_KEY@,
        exists|g: int| 0 <= g < data.len() && (#[trigger] data[g]).1 == category,
    ensures
        grade_table(data).len() > 0,
        grade_table(data)[0][0] == HEADER_KEY@,
        grade_table(data)[0].to_multiset().count(category) == 1,
{
    lemma_header_row(data);
    let h = grade_table(data)[0];
    let g = choose|g: int| 0 <= g < data.len() && (#[trigger] data[g]).1 == category;
    assert(h.contains(data[g].1));
    h.to_multiset_ensures();
    h.lemma_multiset_has_no_duplicates();
}

/// The keys of the rows, in order.
pub open spec fn row_keys(rows: Seq<Seq<Seq<char>>>) -> Seq<Seq<char>> {
    rows.map_values(|r: Seq<Seq<char>>| r[0])
}

/// Scanning the same rows in the same order twice gives tables whose rows come in
/// the same order: the tables are a function of the catalog and the rows.
pub proof fn lemma_row_order_repeatable(
    ts1: Seq<crate::config::QuestionConfig>,
    rows1: Seq<Seq<Seq<char>>>,
    ts2: Seq<crate::config::QuestionConfig>,
    rows2: Seq<Seq<Seq<char>>>,
)
    requires
        ts1 == ts2,
        rows1 == rows2,
        crate::survey::scan_rows(ts1, rows1) is Ok,
    ensures
        crate::survey::scan_rows(ts2, rows2) is Ok,
        row_keys(grade_table(crate::survey::scan_rows(ts1, rows1)->Ok_0.groups)) == row_keys(
            grade_table(crate::survey::scan_rows(ts2, rows2)->Ok_0.groups),
        ),
        row_keys(text_table(crate::survey::scan_rows(ts1, rows1)->Ok_0.groups)) == row_keys(
            text_table(crate::survey::scan_rows(ts2, rows2)->Ok_0.groups),
        ),
{
}

/// The keys, each at its first occurrence only.
pub open spec fn first_seen(keys: Seq<Seq<char>>) -> Seq<Seq<char>>
    decreases keys.len(),
{
    if keys.len() == 0 {
        Seq::empty()
    } else {
        let rest = first_seen(keys.drop_last());
        if rest.contains(keys.last()) {
            rest
        } else {
            rest.push(keys.last())
        }
    }
}

/// The cell keys of the groups, in order.
pub open spec fn cell_keys(data: Seq<Group>, field: KeyField) -> Seq<Seq<char>> {
    data.map_values(|g: Group| key_of(field, g))
}

proof fn lemma_first_seen_distinct(keys: Seq<Seq<char>>)
    ensures
        first_seen(keys).no_duplicates(),
        forall|k: Seq<char>| first_seen(keys).contains(k) ==> keys.contains(k),
    decreases keys.len(),
{
    if keys.len() > 0 {
        let front = keys.drop_last();
        lemma_first_seen_distinct(front);
        assert forall|k: Seq<char>| first_seen(keys).contains(k) implies keys.contains(k) by {
            if front.contains(k) {
                let j = choose|j: int| 0 <= j < front.len() && front[j] == k;
                assert(keys[j] == k);
            } else {
                assert(keys[keys.len() - 1] == keys.last());
            }
        }
    }
}

/// The rows of a table come in the order in which their keys were first seen:
/// the header row, then one row per cell key. Repeating a build over the same
/// groups therefore repeats the layout.
pub proof fn lemma_rows_in_first_seen_order(
    kind: ResponseKind,
    data: Seq<Group>,
    header: KeyField,
    cell_key: KeyField,
)
    requires
        data.len() > 0,
        forall|g: int| 0 <= g < data.len() ==> key_of(cell_key, #[trigger] data[g]) != HEADER_KEY@,
    ensures
        row_keys(table(kind, data, header, cell_key)) == seq![HEADER_KEY@] + first_seen(cell_keys(data, cell_key)),
{
    lemma_table_keys(kind, data, header, cell_key);
}

proof fn lemma_table_keys(kind: ResponseKind, data: Seq<Group>, header: KeyField, cell_key: KeyField)
    requires
        forall|g: int| 0 <= g < data.len() ==> key_of(cell_key, #[trigger] data[g]) != HEADER_KEY@,
    ensures
        data.len() == 0 ==> table(kind, data, header, cell_key).len() == 0,
        data.len() > 0 ==> row_keys(table(kind, data, header, cell_key)) == seq![HEADER_KEY@] + first_seen(
            cell_keys(data, cell_key),
        ),
        forall|i: int|
            0 <= i < table(kind, data, header, cell_key).len() ==> (#[trigger] table(
                kind,
                data,
                header,
                cell_key,
            )[i]).len() > 0,
    decreases data.len(),
{
    if data.len() > 0 {
        let front = data.drop_last();
        assert forall|g: int| 0 <= g < front.len() implies key_of(cell_key, #[trigger] front[g]) != HEADER_KEY@ by {
            assert(front[g] == data[g]);
        }
        lemma_table_keys(kind, front, header, cell_key);
        let t = table(kind, front, header, cell_key);
        let gl = data.last();
        assert(gl == data[data.len() - 1]);
        let label = key_of(cell_key, gl);
        let cell = cell_text(kind, gl.2);
        let t1 = with_header(t, HEADER_KEY@, key_of(header, gl));
        let t2 = with_cell(t1, label, cell);
        assert(table(kind, data, header, cell_key) == t2);
        let ks = cell_keys(data, cell_key);
        assert(ks.drop_last() =~= cell_keys(front, cell_key));
        assert(ks.last() == label);
        let f = first_seen(cell_keys(front, cell_key));
        lemma_first_seen_distinct(cell_keys(front, cell_key));
        if front.len() == 0 {
            assert(!exists|i: int| first_row(t, HEADER_KEY@, i));
            assert(t1 == seq![seq![HEADER_KEY@, key_of(header, gl)]]);
            assert(!exists|i: int| first_row(t1, label, i));
            assert(t2 == t1.push(seq![label, cell]));
            assert(f =~= Seq::<Seq<char>>::empty());
            assert(first_seen(ks) =~= seq![label]);
            assert(row_keys(t2) =~= seq![HEADER_KEY@] + first_seen(ks));
        } else {
            assert(row_keys(t)[0] == HEADER_KEY@);
            assert(first_row(t, HEADER_KEY@, 0));
            lemma_first_row_at(t, HEADER_KEY@, 0);
            assert(row_keys(t1) =~= row_keys(t)) by {
                if !(exists|i: int| first_row(t, HEADER_KEY@, i) && t[i].contains(key_of(header, gl))) {
                    assert(t1 == t.update(0, t[0].push(key_of(header, gl))));
                }
            }
            assert(forall|i: int| 0 <= i < t1.len() ==> (#[trigger] t1[i]).len() > 0);
            let keys1 = row_keys(t1);
            assert(keys1 == seq![HEADER_KEY@] + f);
            if f.contains(label) {
                let j = choose|j: int| 0 <= j < f.len() && f[j] == label;
                assert(keys1[j + 1] == label);
                assert(first_row(t1, label, j + 1)) by {
                    assert forall|m: int| 0 <= m < j + 1 implies !((#[trigger] t1[m]).len() > 0 && t1[m][0] == label) by {
                        assert(t1[m][0] == keys1[m]);
                        if m > 0 {
                            assert(keys1[m] == f[m - 1]);
                        }
                    }
                }
                lemma_first_row_at(t1, label, j + 1);
                assert(t2 == t1.update(j + 1, t1[j + 1].push(cell)));
                assert(row_keys(t2) =~= keys1);
                assert(first_seen(ks) == f);
            } else {
                assert(!exists|i: int| first_row(t1, label, i)) by {
                    if exists|i: int| first_row(t1, label, i) {
                        let i = choose|i: int| first_row(t1, label, i);
                        assert(keys1[i] == label);
                        assert(i > 0);
                        assert(f[i - 1] == label);
                    }
                }
                assert(t2 == t1.push(seq![label, cell]));
                assert(first_seen(ks) == f.push(label));
                assert(seq![label, cell][0] == label);
                assert(row_keys(t2) =~= keys1.push(label));
                assert(keys1.push(label) =~= seq![HEADER_KEY@] + f.push(label));
            }
        }
    }
}

} // verus!
