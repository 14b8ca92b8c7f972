//! Skills: questions grouped by category, answered with whole-number grades or
//! with text, kept in the order of their names.
use vstd::prelude::*;
use crate::config::ResponseKind;
use crate::decimal::{all_digits, digits_value, is_digit};
use crate::text::{chars_of, contains, join, join_with, str_contains, views};

verus! {

/// Why skills could not be built or scanned; `row` counts rows from zero.
#[derive(Clone, Copy, Debug, PartialEq, Eq, Structural)]
pub enum SkillError {
    /// A configuration row has no category.
    MissingCategory { row: usize },
    /// A configuration row has no template.
    MissingTemplate { row: usize },
    /// An answer row has no question.
    MissingQuestion { row: usize },
    /// A grade is not a whole number that fits in 32 bits.
    InvalidGrade,
}

/// A whole-number grade: an optional `+` and at least one digit, at most `u32::MAX`.
pub open spec fn grade_value(s: Seq<char>) -> Option<nat> {
    let d = if s.len() > 0 && s[0] == '+' {
        s.drop_first()
    } else {
        s
    };
    if d.len() > 0 && all_digits(d) && digits_value(d) <= u32::MAX {
        Some(digits_value(d))
    } else {
        None
    }
}

/// Reads a whole-number grade.
pub fn parse_grade(s: &str) -> (r: Option<u32>)
    ensures
        r matches Some(g) ==> grade_value(s@) == Some(g as nat),
        r is None ==> grade_value(s@) is None,
{
    let c = chars_of(s);
    let n = c.len();
    let start: usize = if n > 0 && c[0] == '+' {
        1
    } else {
        0
    };
    let ghost d = c@.subrange(start as int, n as int);
    proof {
        if start == 1 {
            assert(d == s@.drop_first());
        } else {
            assert(d =~= s@);
        }
    }
    if n == start {
        return None;
    }
    let mut acc: u64 = 0;
    let mut over = false;
    let mut i: usize = start;
    while i < n
        invariant
            c@ == s@,
            n == c@.len(),
            start <= i <= n,
            d == c@.subrange(start as int, n as int),
            d == (if s@.len() > 0 && s@[0] == '+' {
                s@.drop_first()
            } else {
                s@
            }),
            all_digits(c@.subrange(start as int, i as int)),
            over ==> digits_value(c@.subrange(start as int, i as int)) > u32::MAX,
            !over ==> acc == digits_value(c@.subrange(start as int, i as int)) && acc <= u32::MAX,
        decreases n - i,
    {
        let ch = c[i];
        let ghost prev = c@.subrange(start as int, i as int);
        let ghost next = c@.subrange(start as int, i + 1);
        assert(next.drop_last() =~= prev);
        if '0' <= ch && ch <= '9' {
            if !over {
                let v = acc * 10 + ((ch as u32) - 48) as u64;
                if v > 4294967295 {
                    over = true;
                } else {
                    acc = v;
                }
            }
            assert forall|j: int| 0 <= j < next.len() implies is_digit(#[trigger] next[j]) by {
                if j < prev.len() {
                    assert(next[j] == prev[j]);
                }
            }
        } else {
            assert(!all_digits(d)) by {
                assert(d[i - start] == ch);
            }
            return None;
        }
        i = i + 1;
    }
    assert(c@.subrange(start as int, n as int) == d);
    if over {
        return None;
    }
    Some(acc as u32)
}

/// A skill: its name, kind, templates, grades and texts.
pub type SkillModel = (Seq<char>, ResponseKind, Seq<Seq<char>>, Seq<u32>, Seq<Seq<char>>);

/// One skill and the answers given to its questions.
pub struct EmployeeSkill {
    pub name: String,
    response_kind: ResponseKind,
    question_templates: Vec<String>,
    grades: Vec<u32>,
    texts: Vec<String>,
}

impl View for EmployeeSkill {
    type V = SkillModel;

    closed spec fn view(&self) -> SkillModel {
        (self.name@, self.response_kind, views(self.question_templates@), self.grades@, views(self.texts@))
    }
}

/// The skill after one more answer: a grade is read as a whole number and kept
/// beside its text; any other answer is kept as text.
pub open spec fn with_response(m: SkillModel, v: Seq<char>) -> Result<SkillModel, SkillError> {
    if m.1 == ResponseKind::Grade {
        match grade_value(v) {
            Some(g) => Ok((m.0, m.1, m.2, m.3.push(g as u32), m.4.push(v))),
            None => Err(SkillError::InvalidGrade),
        }
    } else {
        Ok((m.0, m.1, m.2, m.3, m.4.push(v)))
    }
}

impl EmployeeSkill {
    /// A skill with no templates and no answers.
    pub fn new(name: String, response_kind: ResponseKind) -> (r: EmployeeSkill)
        ensures
            r@ == (name@, response_kind, Seq::<Seq<char>>::empty(), Seq::<u32>::empty(), Seq::<Seq<char>>::empty()),
    {
        let r = EmployeeSkill {
            name,
            response_kind,
            question_templates: Vec::new(),
            grades: Vec::new(),
            texts: Vec::new(),
        };
        assert(views(r.question_templates@) =~= Seq::<Seq<char>>::empty());
        assert(views(r.texts@) =~= Seq::<Seq<char>>::empty());
        r
    }

    fn add_template(&mut self, v: String)
        ensures
            final(self)@ == (old(self)@.0, old(self)@.1, old(self)@.2.push(v@), old(self)@.3, old(self)@.4),
    {
        let ghost before = self.question_templates@;
        self.question_templates.push(v);
        assert(views(self.question_templates@) =~= views(before).push(v@));
    }

    fn is_graded(&self) -> (r: bool)
        ensures
            r == (self@.1 == ResponseKind::Grade),
    {
        match self.response_kind {
            ResponseKind::Grade => true,
            _ => false,
        }
    }

    /// Records an answer; a grade that is not a whole number leaves the skill as it was.
    pub fn add_response(&mut self, v: &str) -> (r: Result<(), SkillError>)
        ensures
            match r {
                Ok(()) => with_response(old(self)@, v@) == Ok::<SkillModel, SkillError>(final(self)@),
                Err(e) => with_response(old(self)@, v@) == Err::<SkillModel, SkillError>(e) && final(self)@
                    == old(self)@,
            },
    {
        if self.is_graded() {
            match parse_grade(v) {
                Some(g) => self.add_grade(g),
                None => {
                    return Err(SkillError::InvalidGrade);
                },
            }
        }
        let ghost before = self.texts@;
        self.texts.push(String::from_str(v));
        assert(views(self.texts@) =~= views(before).push(v@));
        Ok(())
    }

    fn add_grade(&mut self, v: u32)
        ensures
            final(self)@ == (old(self)@.0, old(self)@.1, old(self)@.2, old(self)@.3.push(v), old(self)@.4),
    {
        self.grades.push(v);
    }

    /// The texts, one per line.
    pub fn txt(&self) -> (r: String)
        ensures
            r@ == join(self@.4, "\n"@),
    {
        join_with(self.texts.as_slice(), "\n")
    }

    /// The grades, in the order given.
    pub fn grades(&self) -> (r: &Vec<u32>)
        ensures
            r@ == self@.3,
    {
        &self.grades
    }
}

/// `a` comes before `b` when their characters are compared in order.
pub open spec fn lex_lt(a: Seq<char>, b: Seq<char>) -> bool
    decreases a.len(),
{
    if a.len() == 0 {
        b.len() > 0
    } else if b.len() == 0 {
        false
    } else if a[0] != b[0] {
        a[0] < b[0]
    } else {
        lex_lt(a.drop_first(), b.drop_first())
    }
}

proof fn lemma_lex_irreflexive(a: Seq<char>)
    ensures
        !lex_lt(a, a),
    decreases a.len(),
{
    if a.len() > 0 {
        lemma_lex_irreflexive(a.drop_first());
    }
}

proof fn lemma_lex_transitive(a: Seq<char>, b: Seq<char>, c: Seq<char>)
    requires
        lex_lt(a, b),
        lex_lt(b, c),
    ensures
        lex_lt(a, c),
    decreases a.len(),
{
    if a.len() > 0 && a[0] == b[0] && b[0] == c[0] {
        lemma_lex_transitive(a.drop_first(), b.drop_first(), c.drop_first());
    }
}

proof fn lemma_lex_total(a: Seq<char>, b: Seq<char>)
    requires
        a != b,
    ensures
        lex_lt(a, b) || lex_lt(b, a),
    decreases a.len(),
{
    if a.len() > 0 && b.len() > 0 && a[0] == b[0] {
        if a.drop_first() == b.drop_first() {
            assert(a =~= seq![a[0]] + a.drop_first());
            assert(b =~= seq![b[0]] + b.drop_first());
        }
        lemma_lex_total(a.drop_first(), b.drop_first());
    } else if a.len() == 0 && b.len() == 0 {
        assert(a =~= b);
    }
}

/// Whether `a` comes before `b`.
pub fn less_than(a: &str, b: &str) -> (r: bool)
    ensures
        r == lex_lt(a@, b@),
{
    let ac = chars_of(a);
    let bc = chars_of(b);
    let mut i: usize = 0;
    assert(a@.subrange(0, a@.len() as int) =~= a@);
    assert(b@.subrange(0, b@.len() as int) =~= b@);
    loop
        invariant
            ac@ == a@,
            bc@ == b@,
            i <= ac@.len(),
            i <= bc@.len(),
            lex_lt(a@, b@) == lex_lt(a@.subrange(i as int, a@.len() as int), b@.subrange(i as int, b@.len() as int)),
        decreases ac@.len() - i,
    {
        let ghost sa = a@.subrange(i as int, a@.len() as int);
        let ghost sb = b@.subrange(i as int, b@.len() as int);
        if i == ac.len() {
            return i < bc.len();
        }
        if i == bc.len() {
            return false;
        }
        if ac[i] != bc[i] {
            assert(sa[0] == ac@[i as int] && sb[0] == bc@[i as int]);
            return ac[i] < bc[i];
        }
        assert(sa.drop_first() =~= a@.subrange(i + 1, a@.len() as int));
        assert(sb.drop_first() =~= b@.subrange(i + 1, b@.len() as int));
        i = i + 1;
    }
}

pub open spec fn skill_views(s: Seq<EmployeeSkill>) -> Seq<SkillModel> {
    s.map_values(|k: EmployeeSkill| k@)
}

/// The templates of the configuration rows of category `name`, in order.
pub open spec fn templates_named(rows: Seq<Seq<Seq<char>>>, name: Seq<char>) -> Seq<Seq<char>>
    decreases rows.len(),
{
    if rows.len() == 0 {
        Seq::empty()
    } else {
        let rest = templates_named(rows.drop_last(), name);
        if rows.last().len() >= 2 && rows.last()[0] == name {
            rest.push(rows.last()[1])
        } else {
            rest
        }
    }
}

/// The error of a configuration row, if it has one.
pub open spec fn config_row_error(row: Seq<Seq<char>>, r: int) -> Option<SkillError> {
    if row.len() == 0 {
        Some(SkillError::MissingCategory { row: r as usize })
    } else if row.len() == 1 {
        Some(SkillError::MissingTemplate { row: r as usize })
    } else {
        None
    }
}

/// Each name comes before the next.
pub open spec fn sorted(names: Seq<Seq<char>>) -> bool {
    forall|i: int, j: int| 0 <= i < j < names.len() ==> lex_lt(#[trigger] names[i], #[trigger] names[j])
}

pub open spec fn names_of(ms: Seq<SkillModel>) -> Seq<Seq<char>> {
    ms.map_values(|m: SkillModel| m.0)
}

/// The skills that the rows configure, one per category, in the order of their
/// names, each with its templates and no answers yet.
pub open spec fn configured(ms: Seq<SkillModel>, rows: Seq<Seq<Seq<char>>>, kind: ResponseKind) -> bool {
    &&& sorted(names_of(ms))
    &&& forall|i: int|
        0 <= i < ms.len() ==> (#[trigger] ms[i]).1 == kind && ms[i].2 == templates_named(rows, ms[i].0)
            && ms[i].2.len() > 0 && ms[i].3.len() == 0 && ms[i].4.len() == 0
    &&& forall|r: int| 0 <= r < rows.len() ==> exists|i: int| 0 <= i < ms.len() && (#[trigger] ms[i]).0 == (#[trigger] rows[r])[0]
}

proof fn lemma_templates_absent(rows: Seq<Seq<Seq<char>>>, name: Seq<char>)
    requires
        forall|r: int| 0 <= r < rows.len() ==> (#[trigger] rows[r]).len() < 2 || rows[r][0] != name,
    ensures
        templates_named(rows, name) == Seq::<Seq<char>>::empty(),
    decreases rows.len(),
{
    if rows.len() > 0 {
        let front = rows.drop_last();
        assert forall|r: int| 0 <= r < front.len() implies (#[trigger] front[r]).len() < 2 || front[r][0] != name by {
            assert(front[r] == rows[r]);
        }
        lemma_templates_absent(front, name);
        assert(rows.last() == rows[rows.len() - 1]);
    }
}

pub open spec fn rows_view(rows: Seq<Vec<String>>) -> Seq<Seq<Seq<char>>> {
    rows.map_values(|r: Vec<String>| views(r@))
}

/// `i` is the first skill one of whose templates the question holds.
pub open spec fn first_skill(ms: Seq<SkillModel>, q: Seq<char>, i: int) -> bool {
    &&& 0 <= i < ms.len()
    &&& skill_matches(ms[i], q)
    &&& forall|j: int| 0 <= j < i ==> !skill_matches(#[trigger] ms[j], q)
}

pub open spec fn skill_matches(m: SkillModel, q: Seq<char>) -> bool {
    exists|k: int| 0 <= k < m.2.len() && contains(q, #[trigger] m.2[k])
}

pub open spec fn skill_for(ms: Seq<SkillModel>, q: Seq<char>) -> Option<int> {
    if exists|i: int| first_skill(ms, q, i) {
        Some(choose|i: int| first_skill(ms, q, i))
    } else {
        None
    }
}

/// The skill after the answers of a row, in order, and the error that stopped
/// them, if any; the answers before the error stay recorded.
pub open spec fn scan_answers(m: SkillModel, cells: Seq<Seq<char>>) -> (SkillModel, Option<SkillError>)
    decreases cells.len(),
{
    if cells.len() == 0 {
        (m, None)
    } else {
        let (m1, e) = scan_answers(m, cells.drop_last());
        if e is Some {
            (m1, e)
        } else {
            match with_response(m1, cells.last()) {
                Ok(m2) => (m2, None),
                Err(err) => (m1, Some(err)),
            }
        }
    }
}

/// The skills after the answer rows, and the number of rows whose question
/// belonged to a skill; `base` is the position of the first row.
pub open spec fn scan_skill_rows(ms: Seq<SkillModel>, rows: Seq<Seq<Seq<char>>>, base: int) -> (
    Seq<SkillModel>,
    Result<nat, SkillError>,
)
    decreases rows.len(),
{
    if rows.len() == 0 {
        (ms, Ok(0))
    } else {
        let (ms1, r) = scan_skill_rows(ms, rows.drop_last(), base);
        match r {
            Err(e) => (ms1, Err(e)),
            Ok(n) => {
                let row = rows.last();
                if row.len() == 0 {
                    (ms1, Err(SkillError::MissingQuestion { row: (base + rows.len() - 1) as usize }))
                } else {
                    match skill_for(ms1, row[0]) {
                        None => (ms1, Ok(n)),
                        Some(i) => {
                            let (m2, e) = scan_answers(ms1[i], row.drop_first());
                            match e {
                                Some(err) => (ms1.update(i, m2), Err(err)),
                                None => (ms1.update(i, m2), Ok(n + 1)),
                            }
                        },
                    }
                }
            },
        }
    }
}

/// The skills of a survey.
pub struct EmployeeSkills {
    pub skills: Vec<EmployeeSkill>,
}

proof fn lemma_sorted_distinct(names: Seq<Seq<char>>, i: int, j: int)
    requires
        sorted(names),
        0 <= i < names.len(),
        0 <= j < names.len(),
        i != j,
    ensures
        names[i] != names[j],
{
    if i < j {
        assert(lex_lt(names[i], names[j]));
        lemma_lex_irreflexive(names[i]);
    } else {
        assert(lex_lt(names[j], names[i]));
        lemma_lex_irreflexive(names[i]);
    }
}

proof fn lemma_insert_sorted(names: Seq<Seq<char>>, p: int, n: Seq<char>)
    requires
        sorted(names),
        0 <= p <= names.len(),
        forall|i: int| 0 <= i < p ==> (#[trigger] names[i]) != n && !lex_lt(n, names[i]),
        p < names.len() ==> lex_lt(n, names[p]),
    ensures
        sorted(names.insert(p, n)),
{
    let s = names.insert(p, n);
    assert forall|i: int, j: int| 0 <= i < j < s.len() implies lex_lt(#[trigger] s[i], #[trigger] s[j]) by {
        if j < p {
            assert(s[i] == names[i] && s[j] == names[j]);
        } else if j == p {
            assert(s[i] == names[i]);
            lemma_lex_total(names[i], n);
        } else if i < p {
            assert(s[i] == names[i] && s[j] == names[j - 1]);
            if i < j - 1 {
                assert(lex_lt(names[i], names[j - 1]));
            }
        } else if i == p {
            assert(s[j] == names[j - 1]);
            if j - 1 > p {
                assert(lex_lt(names[p], names[j - 1]));
                lemma_lex_transitive(n, names[p], names[j - 1]);
            }
        } else {
            assert(s[i] == names[i - 1] && s[j] == names[j - 1]);
        }
    }
}

/// The position of the skill named `name`.
fn find_named(skills: &Vec<EmployeeSkill>, name: &String) -> (r: Option<usize>)
    ensures
        r matches Some(i) ==> i < skills@.len() && skill_views(skills@)[i as int].0 == name@,
        r is None ==> forall|i: int| 0 <= i < skills@.len() ==> (#[trigger] skill_views(skills@)[i]).0 != name@,
{
    let mut i: usize = 0;
    while i < skills.len()
        invariant
            i <= skills@.len(),
            forall|j: int| 0 <= j < i ==> (#[trigger] skill_views(skills@)[j]).0 != name@,
        decreases skills@.len() - i,
    {
        if crate::survey::string_eq(&skills[i].name, name) {
            return Some(i);
        }
        i = i + 1;
    }
    None
}

/// The position at which `name` keeps the names in order.
fn insert_position(skills: &Vec<EmployeeSkill>, name: &String) -> (p: usize)
    ensures
        p <= skills@.len(),
        forall|i: int| 0 <= i < p ==> !lex_lt(name@, #[trigger] skill_views(skills@)[i].0),
        p < skills@.len() ==> lex_lt(name@, skill_views(skills@)[p as int].0),
{
    let mut i: usize = 0;
    while i < skills.len()
        invariant
            i <= skills@.len(),
            forall|j: int| 0 <= j < i ==> !lex_lt(name@, #[trigger] skill_views(skills@)[j].0),
        decreases skills@.len() - i,
    {
        if less_than(name.as_str(), skills[i].name.as_str()) {
            return i;
        }
        i = i + 1;
    }
    i
}

/// The rows after the first `skip` of them.
pub open spec fn after(rows: Seq<Seq<Seq<char>>>, skip: int) -> Seq<Seq<Seq<char>>> {
    if skip >= rows.len() {
        Seq::empty()
    } else {
        rows.subrange(skip, rows.len() as int)
    }
}

proof fn lemma_answers_error(m: SkillModel, cells: Seq<Seq<char>>, k: int)
    requires
        0 <= k <= cells.len(),
        scan_answers(m, cells.take(k)).1 is Some,
    ensures
        scan_answers(m, cells) == scan_answers(m, cells.take(k)),
    decreases cells.len(),
{
    if k < cells.len() {
        assert(cells.drop_last().take(k) =~= cells.take(k));
        lemma_answers_error(m, cells.drop_last(), k);
    } else {
        assert(cells.take(k) =~= cells);
    }
}

proof fn lemma_skill_rows_error(ms: Seq<SkillModel>, rows: Seq<Seq<Seq<char>>>, base: int, k: int)
    requires
        0 <= k <= rows.len(),
        scan_skill_rows(ms, rows.take(k), base).1 is Err,
    ensures
        scan_skill_rows(ms, rows, base) == scan_skill_rows(ms, rows.take(k), base),
    decreases rows.len(),
{
    if k < rows.len() {
        assert(rows.drop_last().take(k) =~= rows.take(k));
        lemma_skill_rows_error(ms, rows.drop_last(), base, k);
    } else {
        assert(rows.take(k) =~= rows);
    }
}

impl EmployeeSkills {
    /// One skill per category of the configuration rows (`category, template`),
    /// with the templates of that category in row order, the skills in the
    /// order of their names.
    pub fn new(raw_cfg: &Vec<Vec<String>>, response_kind: ResponseKind) -> (r: Result<Self, SkillError>)
        ensures
            ({
                let rs = rows_view(raw_cfg@);
                match r {
                    Ok(es) => (forall|i: int| 0 <= i < rs.len() ==> config_row_error(#[trigger] rs[i], i) is None)
                        && configured(skill_views(es.skills@), rs, response_kind),
                    Err(e) => exists|j: int|
                        0 <= j < rs.len() && config_row_error(#[trigger] rs[j], j) == Some(e) && forall|i: int|
                            0 <= i < j ==> config_row_error(#[trigger] rs[i], i) is None,
                }
            }),
    {
        let ghost rs = rows_view(raw_cfg@);
        let mut skills: Vec<EmployeeSkill> = Vec::new();
        let mut k: usize = 0;
        assert(names_of(skill_views(skills@)) =~= Seq::<Seq<char>>::empty());
        while k < raw_cfg.len()
            invariant
                rs == rows_view(raw_cfg@),
                k <= raw_cfg@.len(),
                forall|i: int| 0 <= i < k ==> config_row_error(#[trigger] rs[i], i) is None,
                configured(skill_views(skills@), rs.take(k as int), response_kind),
            decreases raw_cfg@.len() - k,
        {
            let row = &raw_cfg[k];
            assert(rs[k as int] == views(row@));
            if row.len() == 0 {
                return Err(SkillError::MissingCategory { row: k });
            }
            if row.len() == 1 {
                return Err(SkillError::MissingTemplate { row: k });
            }
            let name = &row[0];
            let template = &row[1];
            let ghost ms = skill_views(skills@);
            let ghost prev = rs.take(k as int);
            let ghost rows1 = rs.take(k + 1);
            assert(rows1.drop_last() =~= prev);
            assert(rows1.last() == rs[k as int]);
            assert(forall|n: Seq<char>| #[trigger] templates_named(rows1, n) == (if n == name@ {
                templates_named(prev, n).push(template@)
            } else {
                templates_named(prev, n)
            }));
            match find_named(&skills, name) {
                Some(i) => {
                    let mut sk = skills.remove(i);
                    sk.add_template(template.clone());
                    skills.insert(i, sk);
                    proof {
                        let m = ms[i as int];
                        let ms2 = ms.update(i as int, (m.0, m.1, m.2.push(template@), m.3, m.4));
                        assert(skill_views(skills@) =~= ms2);
                        assert(names_of(ms2) =~= names_of(ms));
                        assert forall|j: int| 0 <= j < ms2.len() implies (#[trigger] ms2[j]).1 == response_kind
                            && ms2[j].2 == templates_named(rows1, ms2[j].0) && ms2[j].2.len() > 0
                            && ms2[j].3.len() == 0 && ms2[j].4.len() == 0 by {
                            if j != i {
                                assert(names_of(ms)[j] == ms[j].0 && names_of(ms)[i as int] == ms[i as int].0);
                                lemma_sorted_distinct(names_of(ms), j, i as int);
                            }
                        }
                        assert forall|r: int| 0 <= r < rows1.len() implies exists|j: int|
                            0 <= j < ms2.len() && (#[trigger] ms2[j]).0 == (#[trigger] rows1[r])[0] by {
                            if r < k {
                                assert(rows1[r] == prev[r]);
                                let j = choose|j: int| 0 <= j < ms.len() && (#[trigger] ms[j]).0 == prev[r][0];
                                assert(ms2[j].0 == ms[j].0);
                            } else {
                                assert(ms2[i as int].0 == rows1[r][0]);
                            }
                        }
                    }
                },
                None => {
                    let p = insert_position(&skills, name);
                    let mut sk = EmployeeSkill::new(name.clone(), response_kind);
                    sk.add_template(template.clone());
                    let ghost added = sk@;
                    skills.insert(p, sk);
                    proof {
                        let ms2 = ms.insert(p as int, added);
                        assert(skill_views(skills@) =~= ms2);
                        assert(names_of(ms2) =~= names_of(ms).insert(p as int, name@));
                        assert forall|i: int| 0 <= i < p implies (#[trigger] names_of(ms)[i]) != name@ && !lex_lt(
                            name@,
                            names_of(ms)[i],
                        ) by {
                            assert(names_of(ms)[i] == ms[i].0);
                        }
                        lemma_insert_sorted(names_of(ms), p as int, name@);
                        assert forall|r: int| 0 <= r < prev.len() implies (#[trigger] prev[r]).len() < 2 || prev[r][0] != name@ by {
                            let j = choose|j: int| 0 <= j < ms.len() && (#[trigger] ms[j]).0 == prev[r][0];
                        }
                        lemma_templates_absent(prev, name@);
                        assert(added.2 =~= templates_named(rows1, name@));
                        assert forall|j: int| 0 <= j < ms2.len() implies (#[trigger] ms2[j]).1 == response_kind
                            && ms2[j].2 == templates_named(rows1, ms2[j].0) && ms2[j].2.len() > 0
                            && ms2[j].3.len() == 0 && ms2[j].4.len() == 0 by {
                            if j < p {
                                assert(ms2[j] == ms[j]);
                            } else if j > p {
                                assert(ms2[j] == ms[j - 1]);
                            }
                        }
                        assert forall|r: int| 0 <= r < rows1.len() implies exists|j: int|
                            0 <= j < ms2.len() && (#[trigger] ms2[j]).0 == (#[trigger] rows1[r])[0] by {
                            if r < k {
                                assert(rows1[r] == prev[r]);
                                let j = choose|j: int| 0 <= j < ms.len() && (#[trigger] ms[j]).0 == prev[r][0];
                                if j < p {
                                    assert(ms2[j] == ms[j]);
                                } else {
                                    assert(ms2[j + 1] == ms[j]);
                                }
                            } else {
                                assert(ms2[p as int].0 == rows1[r][0]);
                            }
                        }
                    }
                },
            }
            k = k + 1;
        }
        assert(rs.take(raw_cfg@.len() as int) =~= rs);
        Ok(EmployeeSkills { skills })
    }

    /// The first skill, in order, one of whose templates the question holds.
    fn find_skill(&self, question: &str) -> (r: Option<usize>)
        ensures
            r matches Some(i) ==> skill_for(skill_views(self.skills@), question@) == Some(i as int),
            r is None ==> skill_for(skill_views(self.skills@), question@) is None,
    {
        let ghost ms = skill_views(self.skills@);
        let mut i: usize = 0;
        while i < self.skills.len()
            invariant
                ms == skill_views(self.skills@),
                i <= ms.len(),
                forall|j: int| 0 <= j < i ==> !skill_matches(#[trigger] ms[j], question@),
            decreases ms.len() - i,
        {
            let templates = &self.skills[i].question_templates;
            assert(ms[i as int].2 == views(templates@));
            let mut k: usize = 0;
            while k < templates.len()
                invariant
                    ms == skill_views(self.skills@),
                    i < ms.len(),
                    forall|j: int| 0 <= j < i ==> !skill_matches(#[trigger] ms[j], question@),
                    ms[i as int].2 == views(templates@),
                    k <= templates@.len(),
                    forall|j: int| 0 <= j < k ==> !contains(question@, #[trigger] ms[i as int].2[j]),
                decreases templates@.len() - k,
            {
                if str_contains(question, templates[k].as_str()) {
                    proof {
                        assert(ms[i as int].2[k as int] == templates@[k as int]@);
                        assert(skill_matches(ms[i as int], question@));
                        assert(first_skill(ms, question@, i as int));
                        let c = choose|c: int| first_skill(ms, question@, c);
                        if c < i {
                            assert(!skill_matches(ms[c], question@));
                        } else if c > i {
                            assert(!skill_matches(ms[i as int], question@));
                        }
                    }
                    return Some(i);
                }
                k = k + 1;
            }
            i = i + 1;
        }
        None
    }

    /// Records the answers of each row after the first `skip`: a row's question
    /// is matched to a skill, which records the row's answers in order; rows
    /// that match none are passed over. Returns the number of rows recorded.
    /// An error stops the scan, and what was recorded before it stays.
    pub fn scan(&mut self, skip: usize, from_raw: &Vec<Vec<String>>) -> (r: Result<usize, SkillError>)
        ensures
            ({
                let res = scan_skill_rows(skill_views(old(self).skills@), after(rows_view(from_raw@), skip as int), skip as int);
                &&& skill_views(final(self).skills@) == res.0
                &&& match r {
                    Ok(n) => res.1 == Ok::<nat, SkillError>(n as nat),
                    Err(e) => res.1 == Err::<nat, SkillError>(e),
                }
            }),
    {
        let ghost ms0 = skill_views(self.skills@);
        let ghost rs = rows_view(from_raw@);
        let ghost pending = after(rs, skip as int);
        let mut answered_count: usize = 0;
        if skip >= from_raw.len() {
            return Ok(0);
        }
        let mut k: usize = skip;
        assert(pending.take(0) =~= Seq::<Seq<Seq<char>>>::empty());
        while k < from_raw.len()
            invariant
                ms0 == skill_views(old(self).skills@),
                pending == after(rs, skip as int),
                rs == rows_view(from_raw@),
                skip <= k <= from_raw@.len(),
                skip < from_raw@.len(),
                pending == rs.subrange(skip as int, rs.len() as int),
                answered_count <= k - skip,
                scan_skill_rows(ms0, pending.take(k - skip), skip as int) == (
                    skill_views(self.skills@),
                    Ok::<nat, SkillError>(answered_count as nat),
                ),
            decreases from_raw@.len() - k,
        {
            let row = &from_raw[k];
            let ghost ms1 = skill_views(self.skills@);
            let ghost done = pending.take(k - skip);
            let ghost done1 = pending.take(k - skip + 1);
            assert(done1.drop_last() =~= done);
            assert(done1.last() == rs[k as int]);
            assert(rs[k as int] == views(row@));
            if row.len() == 0 {
                proof {
                    assert(done1.last().len() == 0);
                    assert(scan_skill_rows(ms0, done1, skip as int) == (
                        ms1,
                        Err::<nat, SkillError>(SkillError::MissingQuestion { row: k }),
                    ));
                    lemma_skill_rows_error(ms0, pending, skip as int, k - skip + 1);
                    assert(after(rs, skip as int) == pending);
                    assert(scan_skill_rows(ms0, pending, skip as int) == (
                        ms1,
                        Err::<nat, SkillError>(SkillError::MissingQuestion { row: k }),
                    ));
                }
                return Err(SkillError::MissingQuestion { row: k });
            }
            match self.find_skill(row[0].as_str()) {
                None => {},
                Some(i) => {
                    let ghost cells = views(row@).drop_first();
                    let mut sk = self.skills.remove(i);
                    assert(skill_views(self.skills@) =~= ms1.remove(i as int));
                    let mut j: usize = 1;
                    assert(cells.take(0) =~= Seq::<Seq<char>>::empty());
                    while j < row.len()
                        invariant
                            1 <= j <= row@.len(),
                            cells == views(row@).drop_first(),
                            i < ms1.len(),
                            skill_views(self.skills@) == ms1.remove(i as int),
                            ms0 == skill_views(old(self).skills@),
                            pending == after(rs, skip as int),
                            rs == rows_view(from_raw@),
                            skip <= k < from_raw@.len(),
                            pending == rs.subrange(skip as int, rs.len() as int),
                            *row == from_raw@[k as int],
                            rs[k as int] == views(row@),
                            row@.len() > 0,
                            done1.drop_last() == done,
                            done1.last() == rs[k as int],
                            done == pending.take(k - skip),
                            done1 == pending.take(k - skip + 1),
                            skill_for(ms1, row@[0]@) == Some(i as int),
                            scan_skill_rows(ms0, done, skip as int) == (ms1, Ok::<nat, SkillError>(answered_count as nat)),
                            scan_answers(ms1[i as int], cells.take(j - 1)) == (sk@, None::<SkillError>),
                        decreases row@.len() - j,
                    {
                        assert(cells.take(j as int).drop_last() =~= cells.take(j - 1));
                        assert(cells.take(j as int).last() == row@[j as int]@);
                        match sk.add_response(row[j].as_str()) {
                            Ok(()) => {},
                            Err(e) => {
                                let ghost m2 = sk@;
                                let ghost before = self.skills@;
                                assert(skill_views(before).len() == before.len());
                                assert(before.len() == ms1.len() - 1);
                                self.skills.insert(i, sk);
                                proof {
                                    assert(skill_views(self.skills@) =~= skill_views(before).insert(i as int, m2));
                                    assert(ms1.remove(i as int).insert(i as int, m2) =~= ms1.update(i as int, m2));
                                    lemma_answers_error(ms1[i as int], cells, j as int);
                                    assert(skill_views(self.skills@) =~= ms1.update(i as int, m2));
                                    assert(scan_answers(ms1[i as int], cells) == (m2, Some(e)));
                                    assert(scan_skill_rows(ms0, done1, skip as int) == (
                                        ms1.update(i as int, m2),
                                        Err::<nat, SkillError>(e),
                                    ));
                                    lemma_skill_rows_error(ms0, pending, skip as int, k - skip + 1);
                                    assert(after(rs, skip as int) == pending);
                                }
                                return Err(e);
                            },
                        }
                        j = j + 1;
                    }
                    assert(cells.take(row@.len() - 1) =~= cells);
                    let ghost m2 = sk@;
                    let ghost before = self.skills@;
                    assert(before.len() == ms1.len() - 1);
                    self.skills.insert(i, sk);
                    assert(skill_views(self.skills@) =~= skill_views(before).insert(i as int, m2));
                    assert(ms1.remove(i as int).insert(i as int, m2) =~= ms1.update(i as int, m2));
                    assert(skill_views(self.skills@) =~= ms1.update(i as int, m2));
                    answered_count = answered_count + 1;
                },
            }
            k = k + 1;
        }
        assert(pending.take(k - skip) =~= pending);
        Ok(answered_count)
    }
}

} // verus!
