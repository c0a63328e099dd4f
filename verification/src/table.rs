//! The table of grading scales and the queries on it.
//!
//! Every grade is held in integer thousandths (`6.0` is `6000`), so the
//! bounds below are exact.
use vstd::prelude::*;
use vstd::utf8::is_ascii_chars;
use crate::ascii::{folds_to, folds_to_exec, is_lower_ascii, lower_code};
use crate::bavarian::{
    bavarian_from_de, bavarian_to_de, between, in_bounds, opt_int, spec_bavarian_from_de,
    spec_bavarian_to_de, trunc_div,
};

verus! {

broadcast use vstd::string::group_string_axioms;

/// The mathematical content of a grading scale.
pub struct ScaleRow {
    /// Lowercase scale ID.
    pub id: Seq<char>,
    /// Best achievable grade, in thousandths.
    pub best: int,
    /// Worst possible grade (failing), in thousandths.
    pub worst: int,
    /// Lowest still-passing grade, in thousandths.
    pub pass: int,
    /// Advisory display hint.
    pub step: Seq<char>,
    /// Whether larger numbers are better.
    pub higher_is_better: bool,
}

/// A grading scale with its lowercase ID; grades are in thousandths.
#[derive(Debug, Clone, PartialEq, Eq)]
pub struct Scale {
    /// Lowercase scale ID, e.g. `ch`.
    pub id: String,
    /// Best achievable grade (`Nmax` in the formula), in thousandths.
    pub best: i64,
    /// Worst possible grade (failing), in thousandths.
    pub worst: i64,
    /// Lowest still-passing grade (`Nmin` in the formula), in thousandths.
    pub pass: i64,
    /// Advisory display hint only, never used in computation.
    pub step: String,
    /// Whether larger numbers are better (`false` for `de`/`at`).
    pub higher_is_better: bool,
}

impl View for Scale {
    type V = ScaleRow;

    open spec fn view(&self) -> ScaleRow {
        ScaleRow {
            id: self.id@,
            best: self.best as int,
            worst: self.worst as int,
            pass: self.pass as int,
            step: self.step@,
            higher_is_better: self.higher_is_better,
        }
    }
}

/// The scales of the table, sorted by ID.
pub open spec fn grade_table() -> Seq<ScaleRow> {
    seq![
        ScaleRow { id: seq!['a', 't'], best: 1000, worst: 5000, pass: 4000, step: seq!['1'], higher_is_better: false },
        ScaleRow { id: seq!['c', 'h'], best: 6000, worst: 1000, pass: 4000, step: seq!['0', '.', '5'], higher_is_better: true },
        ScaleRow { id: seq!['d', 'e'], best: 1000, worst: 6000, pass: 4000, step: seq!['0', '.', '1'], higher_is_better: false },
        ScaleRow { id: seq!['e', 's'], best: 10000, worst: 0, pass: 5000, step: seq!['0', '.', '1'], higher_is_better: true },
        ScaleRow { id: seq!['f', 'r'], best: 20000, worst: 0, pass: 10000, step: seq!['0', '.', '5'], higher_is_better: true },
        ScaleRow { id: seq!['i', 't'], best: 10000, worst: 0, pass: 6000, step: seq!['0', '.', '5'], higher_is_better: true },
        ScaleRow { id: seq!['u', 's'], best: 4000, worst: 0, pass: 1000, step: seq!['0', '.', '1'], higher_is_better: true },
    ]
}

/// The IDs of the supported scales.
pub open spec fn supported_ids() -> Seq<Seq<char>> {
    seq![
        seq!['a', 't'],
        seq!['c', 'h'],
        seq!['d', 'e'],
        seq!['e', 's'],
        seq!['f', 'r'],
        seq!['i', 't'],
        seq!['u', 's'],
    ]
}

/// The IDs of the table's scales, in table order.
pub open spec fn table_ids() -> Seq<Seq<char>> {
    grade_table().map_values(|r: ScaleRow| r.id)
}

/// Index of the first scale at or after `i` whose ID `s` folds to.
pub open spec fn find_scale_from(s: Seq<char>, i: int) -> Option<int>
    decreases grade_table().len() - i,
{
    if i < 0 || i >= grade_table().len() {
        None
    } else if folds_to(s, grade_table()[i].id) {
        Some(i)
    } else {
        find_scale_from(s, i + 1)
    }
}

/// Index of the scale whose ID the (case-insensitive) name `s` denotes.
pub open spec fn find_scale(s: Seq<char>) -> Option<int> {
    find_scale_from(s, 0)
}

/// The scale a (case-insensitive) name denotes, if any.
pub open spec fn spec_scale(s: Seq<char>) -> Option<ScaleRow> {
    match find_scale(s) {
        Some(i) => Some(grade_table()[i]),
        None => None,
    }
}

/// Whether the (case-insensitive) name `s` denotes a supported scale.
pub open spec fn spec_is_supported(s: Seq<char>) -> bool {
    exists|i: int| 0 <= i < supported_ids().len() && folds_to(s, #[trigger] supported_ids()[i])
}

/// A table row as stored in the executable table.
struct Row {
    id: &'static str,
    best: i64,
    worst: i64,
    pass: i64,
    step: &'static str,
    higher_is_better: bool,
}

impl Row {
    spec fn model(&self) -> ScaleRow {
        ScaleRow {
            id: self.id@,
            best: self.best as int,
            worst: self.worst as int,
            pass: self.pass as int,
            step: self.step@,
            higher_is_better: self.higher_is_better,
        }
    }
}

const N_SCALES: usize = 7;

/// The `i`-th row of the table.
fn row(i: usize) -> (r: Row)
    requires
        i < N_SCALES,
    ensures
        r.model() == grade_table()[i as int],
        is_ascii_chars(r.id@),
{
    let r = match i {
        0 => Row { id: "at", best: 1000, worst: 5000, pass: 4000, step: "1", higher_is_better: false },
        1 => Row { id: "ch", best: 6000, worst: 1000, pass: 4000, step: "0.5", higher_is_better: true },
        2 => Row { id: "de", best: 1000, worst: 6000, pass: 4000, step: "0.1", higher_is_better: false },
        3 => Row { id: "es", best: 10000, worst: 0, pass: 5000, step: "0.1", higher_is_better: true },
        4 => Row { id: "fr", best: 20000, worst: 0, pass: 10000, step: "0.5", higher_is_better: true },
        5 => Row { id: "it", best: 10000, worst: 0, pass: 6000, step: "0.5", higher_is_better: true },
        _ => Row { id: "us", best: 4000, worst: 0, pass: 1000, step: "0.1", higher_is_better: true },
    };
    proof {
        reveal_strlit("at");
        reveal_strlit("ch");
        reveal_strlit("de");
        reveal_strlit("es");
        reveal_strlit("fr");
        reveal_strlit("it");
        reveal_strlit("us");
        reveal_strlit("1");
        reveal_strlit("0.5");
        reveal_strlit("0.1");
        let t = grade_table()[i as int];
        assert(r.id@ =~= t.id);
        assert(r.step@ =~= t.step);
    }
    r
}

/// Whether a grade passes in its system; `None` for unknown systems and
/// grades outside the full `[worst .. best]` interval.
pub open spec fn spec_is_pass(s: Seq<char>, v: int) -> Option<bool> {
    match spec_scale(s) {
        None => None,
        Some(row) => if !between(row.best, row.worst, v) {
            None
        } else if row.higher_is_better {
            Some(v >= row.pass)
        } else {
            Some(v <= row.pass)
        },
    }
}

/// German grade (tenths) of a foreign grade (thousandths) in system `s`.
pub open spec fn spec_to_de(s: Seq<char>, v: int) -> Option<int> {
    match spec_scale(s) {
        None => None,
        Some(row) => spec_bavarian_to_de(row.best, row.pass, v),
    }
}

/// Foreign grade (hundredths) in system `s` of a German grade (thousandths).
pub open spec fn spec_from_de(s: Seq<char>, x: int) -> Option<int> {
    match spec_scale(s) {
        None => None,
        Some(row) => spec_bavarian_from_de(row.best, row.pass, x),
    }
}

/// Conversion between two systems through the German scale: the German
/// tenths `t` re-enter the inverse formula as the grade `t / 10`, that is
/// `100 * t` thousandths.
pub open spec fn spec_convert(from: Seq<char>, to: Seq<char>, v: int) -> Option<int> {
    match spec_to_de(from, v) {
        None => None,
        Some(t) => spec_from_de(to, 100 * t),
    }
}

/// `a` sorts strictly before `b` in lexicographic order.
pub open spec fn lex_lt(a: Seq<char>, b: Seq<char>) -> bool
    decreases a.len(),
{
    if a.len() == 0 {
        b.len() > 0
    } else if b.len() == 0 {
        false
    } else if a[0] != b[0] {
        a[0] < b[0]
    } else {
        lex_lt(a.drop_first(), b.drop_first())
    }
}

/// The IDs are in strictly increasing lexicographic order (sorted, no duplicates).
pub open spec fn strictly_sorted(ids: Seq<Seq<char>>) -> bool {
    forall|i: int, j: int| 0 <= i < j < ids.len() ==> lex_lt(#[trigger] ids[i], #[trigger] ids[j])
}

/// The `i`-th supported scale ID.
fn supported_id(i: usize) -> (r: &'static str)
    requires
        i < N_SCALES,
    ensures
        r@ == supported_ids()[i as int],
        is_ascii_chars(r@),
{
    let r = match i {
        0 => "at",
        1 => "ch",
        2 => "de",
        3 => "es",
        4 => "fr",
        5 => "it",
        _ => "us",
    };
    proof {
        reveal_strlit("at");
        reveal_strlit("ch");
        reveal_strlit("de");
        reveal_strlit("es");
        reveal_strlit("fr");
        reveal_strlit("it");
        reveal_strlit("us");
        assert(r@ =~= supported_ids()[i as int]);
    }
    r
}

/// Index of the table row for a (case-insensitive) scale name.
fn lookup(sys: &str) -> (r: Option<usize>)
    ensures
        match r {
            Some(i) => find_scale(sys@) == Some(i as int) && i < N_SCALES,
            None => find_scale(sys@) is None,
        },
{
    let mut i: usize = 0;
    while i < N_SCALES
        invariant
            i <= N_SCALES,
            find_scale(sys@) == find_scale_from(sys@, i as int),
        decreases N_SCALES - i,
    {
        let r = row(i);
        if folds_to_exec(sys, r.id) {
            return Some(i);
        }
        i += 1;
    }
    None
}

/// The public form of a table row.
fn entry_scale(r: &Row) -> (s: Scale)
    ensures
        s@ == r.model(),
{
    Scale {
        id: r.id.to_owned(),
        best: r.best,
        worst: r.worst,
        pass: r.pass,
        step: r.step.to_owned(),
        higher_is_better: r.higher_is_better,
    }
}

/// Grading scale for a (case-insensitive) ID, or `None` when unknown.
pub fn scale(sys: &str) -> (r: Option<Scale>)
    ensures
        match r {
            Some(s) => spec_scale(sys@) == Some(s@),
            None => spec_scale(sys@) is None,
        },
{
    match lookup(sys) {
        Some(i) => Some(entry_scale(&row(i))),
        None => None,
    }
}

/// Lowercase scale IDs with a table entry, sorted.
pub fn available_scales() -> (r: Vec<&'static str>)
    ensures
        r@.len() == grade_table().len(),
        forall|i: int| 0 <= i < r@.len() ==> #[trigger] r@[i]@ == grade_table()[i].id,
        strictly_sorted(r@.map_values(|s: &str| s@)),
{
    let mut ids: Vec<&'static str> = Vec::new();
    let mut i: usize = 0;
    while i < N_SCALES
        invariant
            i <= N_SCALES,
            ids@.len() == i,
            forall|j: int| 0 <= j < i ==> #[trigger] ids@[j]@ == grade_table()[j].id,
        decreases N_SCALES - i,
    {
        ids.push(row(i).id);
        i += 1;
    }
    proof {
        lemma_table_ids_sorted();
        assert(ids@.map_values(|s: &str| s@) =~= table_ids());
    }
    ids
}

/// Whether a scale ID is supported (present in the supported set),
/// ignoring ASCII case.
pub fn is_supported(sys: &str) -> (r: bool)
    ensures
        r == spec_is_supported(sys@),
{
    let mut i: usize = 0;
    while i < N_SCALES
        invariant
            i <= N_SCALES,
            supported_ids().len() == N_SCALES,
            forall|j: int| 0 <= j < i ==> !folds_to(sys@, #[trigger] supported_ids()[j]),
        decreases N_SCALES - i,
    {
        if folds_to_exec(sys, supported_id(i)) {
            return true;
        }
        i += 1;
    }
    false
}

/// Whether a grade passes in its system: `value >= pass` where higher is
/// better, `value <= pass` where lower is better. Returns `None` for
/// unknown systems and grades outside the full `[worst .. best]` interval
/// (grades that do not exist); existing but failing grades yield `false`.
/// The grade is in thousandths.
pub fn is_pass(sys: &str, value: i64) -> (r: Option<bool>)
    ensures
        r == spec_is_pass(sys@, value as int),
{
    let i = match lookup(sys) {
        Some(i) => i,
        None => return None,
    };
    let e = row(i);
    if !in_bounds(e.best, e.worst, value) {
        return None;
    }
    Some(if e.higher_is_better {
        value >= e.pass
    } else {
        value <= e.pass
    })
}

/// Convert a passing foreign grade (thousandths) to the German scale with the
/// modified Bavarian formula; the result is in tenths, truncated. Returns
/// `None` for unknown systems and grades outside `[pass .. best]`.
pub fn to_de(sys: &str, value: i64) -> (r: Option<i64>)
    ensures
        opt_int(r) == spec_to_de(sys@, value as int),
        r matches Some(t) ==> 10 <= t <= 40,
{
    match lookup(sys) {
        Some(i) => {
            let e = row(i);
            bavarian_to_de(e.best, e.pass, value)
        },
        None => None,
    }
}

/// Convert a German grade in `[1000, 4000]` thousandths (`[1.0, 4.0]`) to a
/// foreign scale with the inverse Bavarian formula; the result is in
/// hundredths, truncated. Returns `None` for unknown systems and
/// out-of-range German grades.
pub fn from_de(sys: &str, x_de: i64) -> (r: Option<i64>)
    ensures
        opt_int(r) == spec_from_de(sys@, x_de as int),
{
    match lookup(sys) {
        Some(i) => {
            let e = row(i);
            bavarian_from_de(e.best, e.pass, x_de)
        },
        None => None,
    }
}

/// Convert a grade (thousandths) from one system to another by pivoting
/// through the German scale; the result is in hundredths. This is an
/// approximation: the intermediate one-decimal truncation loses
/// information, so same-system conversion is not the identity. Returns
/// `None` whenever either leg is invalid.
pub fn convert(from_sys: &str, to_sys: &str, value: i64) -> (r: Option<i64>)
    ensures
        opt_int(r) == spec_convert(from_sys@, to_sys@, value as int),
{
    let x_de = match to_de(from_sys, value) {
        Some(t) => t,
        None => return None,
    };
    from_de(to_sys, x_de * 100)
}

/// The table's IDs are sorted and free of duplicates.
pub proof fn lemma_table_ids_sorted()
    ensures
        strictly_sorted(table_ids()),
{
    reveal_with_fuel(lex_lt, 2);
    let ids = table_ids();
    assert(ids =~= supported_ids());
    assert forall|i: int, j: int| 0 <= i < j < ids.len() implies lex_lt(#[trigger] ids[i], #[trigger] ids[j]) by {
        assert(ids[i][0] < ids[j][0]);
    }
}

/// A well-formed scale: a non-empty lowercase ASCII ID, a non-degenerate
/// passing interval, an orientation flag that agrees with the bounds, a
/// non-empty step hint, and a passing grade inside `[worst .. best]`.
pub open spec fn scale_wf(r: ScaleRow) -> bool {
    &&& r.id.len() > 0
    &&& is_lower_ascii(r.id)
    &&& r.best != r.pass
    &&& r.higher_is_better == (r.best > r.pass)
    &&& r.step.len() > 0
    &&& between(r.best, r.worst, r.pass)
}

/// The table's schema: every scale is well formed, the IDs are sorted without
/// duplicates, and exactly the table's scales are supported.
pub open spec fn table_wf() -> bool {
    &&& forall|i: int| 0 <= i < grade_table().len() ==> scale_wf(#[trigger] grade_table()[i])
    &&& strictly_sorted(table_ids())
    &&& supported_ids() == table_ids()
}

/// The table follows its schema.
pub proof fn lemma_table_well_formed()
    ensures
        table_wf(),
{
    lemma_table_ids_sorted();
    assert(supported_ids() =~= table_ids());
    assert forall|i: int| 0 <= i < grade_table().len() implies scale_wf(#[trigger] grade_table()[i]) by {
        let r = grade_table()[i];
        assert(is_lower_ascii(r.id));
    }
}

/// A lowercase ASCII ID folds to itself.
proof fn lemma_folds_to_self(id: Seq<char>)
    requires
        is_lower_ascii(id),
    ensures
        folds_to(id, id),
{
}

/// Two names that agree after ASCII lowercasing fold to the same IDs.
proof fn lemma_folds_alike(a: Seq<char>, b: Seq<char>, id: Seq<char>)
    requires
        a.len() == b.len(),
        forall|k: int| 0 <= k < a.len() ==> lower_code(#[trigger] a[k]) == lower_code(b[k]),
    ensures
        folds_to(a, id) == folds_to(b, id),
{
    if folds_to(a, id) {
        assert forall|k: int| 0 <= k < b.len() implies lower_code(#[trigger] b[k]) == id[k] as int by {
            assert(lower_code(a[k]) == id[k] as int);
        }
    }
    if folds_to(b, id) {
        assert forall|k: int| 0 <= k < a.len() implies lower_code(#[trigger] a[k]) == id[k] as int by {
            assert(lower_code(b[k]) == id[k] as int);
        }
    }
}

proof fn lemma_find_alike(a: Seq<char>, b: Seq<char>, i: int)
    requires
        a.len() == b.len(),
        forall|k: int| 0 <= k < a.len() ==> lower_code(#[trigger] a[k]) == lower_code(b[k]),
    ensures
        find_scale_from(a, i) == find_scale_from(b, i),
    decreases grade_table().len() - i,
{
    if 0 <= i < grade_table().len() {
        lemma_folds_alike(a, b, grade_table()[i].id);
        lemma_find_alike(a, b, i + 1);
    }
}

/// Scale names are case-insensitive: two names that are equal after ASCII
/// lowercasing denote the same scale, and both or neither are supported.
pub proof fn lemma_names_ignore_ascii_case(a: Seq<char>, b: Seq<char>)
    requires
        a.len() == b.len(),
        forall|k: int| 0 <= k < a.len() ==> lower_code(#[trigger] a[k]) == lower_code(b[k]),
    ensures
        spec_scale(a) == spec_scale(b),
        spec_is_supported(a) == spec_is_supported(b),
{
    lemma_find_alike(a, b, 0);
    assert forall|i: int| 0 <= i < supported_ids().len() implies folds_to(a, #[trigger] supported_ids()[i])
        == folds_to(b, supported_ids()[i]) by {
        lemma_folds_alike(a, b, supported_ids()[i]);
    }
}

/// Capital letters in a scale name count as their lowercase letters: if `b`
/// is `a` with any of its letters `'a'..='z'` written as the capital letter
/// 32 code points below, then `a` and `b` denote the same scale, and both or
/// neither are supported (so `"US"` is `"us"` and `"FR"` is `"fr"`).
pub proof fn lemma_capitals_denote_same_scale(a: Seq<char>, b: Seq<char>)
    requires
        a.len() == b.len(),
        forall|k: int|
            0 <= k < a.len() ==> #[trigger] a[k] == #[trigger] b[k] || ('a' <= a[k] && a[k] <= 'z'
                && b[k] as int == a[k] as int - 32),
    ensures
        spec_scale(a) == spec_scale(b),
        spec_is_supported(a) == spec_is_supported(b),
{
    assert forall|k: int| 0 <= k < a.len() implies lower_code(#[trigger] a[k]) == lower_code(b[k]) by {
        if a[k] != b[k] {
            assert('A' <= b[k] && b[k] <= 'Z');
        }
    }
    lemma_names_ignore_ascii_case(a, b);
}

/// Every scale of the table is found, and supported, under its own ID.
pub proof fn lemma_scale_by_own_id(i: int)
    requires
        0 <= i < grade_table().len(),
    ensures
        spec_scale(grade_table()[i].id) == Some(grade_table()[i]),
        spec_is_supported(grade_table()[i].id),
{
    lemma_table_well_formed();
    let id = grade_table()[i].id;
    lemma_folds_to_self(id);
    assert forall|j: int| 0 <= j < i implies !folds_to(id, #[trigger] grade_table()[j].id) by {
        reveal_with_fuel(lex_lt, 2);
        assert(lex_lt(table_ids()[j], table_ids()[i]));
        assert(id[0] != grade_table()[j].id[0]);
    }
    assert forall|j: int| 0 <= j <= i implies find_scale_from(id, j) == Some(i) by {
        lemma_find_reaches(id, j, i);
    }
    assert(supported_ids()[i] == id);
}

proof fn lemma_find_reaches(s: Seq<char>, j: int, i: int)
    requires
        0 <= j <= i < grade_table().len(),
        folds_to(s, grade_table()[i].id),
        forall|k: int| 0 <= k < i ==> !folds_to(s, #[trigger] grade_table()[k].id),
    ensures
        find_scale_from(s, j) == Some(i),
    decreases i - j,
{
    if j < i {
        lemma_find_reaches(s, j + 1, i);
    }
}

/// The scale a name denotes is a row of the table, and well formed.
proof fn lemma_found_row(s: Seq<char>)
    ensures
        spec_scale(s) matches Some(r) ==> scale_wf(r),
{
    lemma_table_well_formed();
    lemma_find_in_table(s, 0);
}

proof fn lemma_find_in_table(s: Seq<char>, i: int)
    ensures
        find_scale_from(s, i) matches Some(k) ==> 0 <= k < grade_table().len(),
    decreases grade_table().len() - i,
{
    if 0 <= i < grade_table().len() {
        lemma_find_in_table(s, i + 1);
    }
}

/// A grade that exists on its scale passes exactly when it lies between the
/// lowest passing grade and the best grade, whatever the orientation.
pub proof fn lemma_pass_iff_between(s: Seq<char>, v: int)
    requires
        spec_scale(s) matches Some(r) && between(r.best, r.worst, v),
    ensures
        spec_is_pass(s, v) == Some(between(spec_scale(s)->0.best, spec_scale(s)->0.pass, v)),
{
    lemma_found_row(s);
}

/// Whether a grade passes, for every name and grade: nothing for an unknown
/// name or a grade outside `[worst .. best]`; otherwise whether the grade lies
/// between the lowest passing grade and the best grade (both included).
pub proof fn lemma_is_pass_meaning(s: Seq<char>, v: int)
    ensures
        match spec_scale(s) {
            None => spec_is_pass(s, v) is None,
            Some(r) => if (r.best <= v <= r.worst) || (r.worst <= v <= r.best) {
                spec_is_pass(s, v) == Some((r.pass <= v <= r.best) || (r.best <= v <= r.pass))
            } else {
                spec_is_pass(s, v) is None
            },
        },
{
    lemma_found_row(s);
}

/// A name denotes a scale only if it spells that scale's ID, letter for
/// letter, with lowercase letters possibly written as capitals (the capital
/// sits 32 code points below): no other name is accepted.
pub proof fn lemma_scale_name_spells_id(s: Seq<char>)
    ensures
        spec_scale(s) matches Some(r) ==> {
            &&& s.len() == r.id.len()
            &&& forall|k: int|
                0 <= k < s.len() ==> #[trigger] s[k] == r.id[k] || ('a' <= r.id[k] && r.id[k] <= 'z'
                    && s[k] as int == r.id[k] as int - 32)
        },
{
    lemma_table_well_formed();
    lemma_find_in_table(s, 0);
    lemma_find_folds(s, 0);
    if let Some(r) = spec_scale(s) {
        assert forall|k: int| 0 <= k < s.len() implies #[trigger] s[k] == r.id[k] || ('a' <= r.id[k]
            && r.id[k] <= 'z' && s[k] as int == r.id[k] as int - 32) by {
            assert(lower_code(s[k]) == r.id[k] as int);
            assert(!('A' <= r.id[k] && r.id[k] <= 'Z'));
        }
    }
}

proof fn lemma_find_folds(s: Seq<char>, i: int)
    ensures
        find_scale_from(s, i) matches Some(k) ==> folds_to(s, grade_table()[k].id),
    decreases grade_table().len() - i,
{
    if 0 <= i < grade_table().len() {
        lemma_find_folds(s, i + 1);
    }
}

/// A name is supported exactly when it denotes a scale of the table.
pub proof fn lemma_supported_iff_known(s: Seq<char>)
    ensures
        spec_is_supported(s) <==> spec_scale(s) is Some,
{
    lemma_table_well_formed();
    lemma_find_in_table(s, 0);
    lemma_find_folds(s, 0);
    if spec_is_supported(s) {
        let i = choose|i: int| 0 <= i < supported_ids().len() && folds_to(s, #[trigger] supported_ids()[i]);
        assert(supported_ids()[i] == grade_table()[i].id);
        lemma_find_some(s, 0, i);
    }
    if let Some(k) = find_scale(s) {
        assert(supported_ids()[k] == grade_table()[k].id);
        assert(folds_to(s, supported_ids()[k]));
    }
}

proof fn lemma_find_some(s: Seq<char>, j: int, i: int)
    requires
        0 <= j <= i < grade_table().len(),
        folds_to(s, grade_table()[i].id),
    ensures
        find_scale_from(s, j) is Some,
    decreases i - j,
{
    if j < i && !folds_to(s, grade_table()[j].id) {
        lemma_find_some(s, j + 1, i);
    }
}

/// The foreign-to-German conversion is defined exactly on the passing grades.
pub proof fn lemma_to_de_defined_iff_passing(s: Seq<char>, v: int)
    ensures
        spec_to_de(s, v) is Some <==> spec_is_pass(s, v) == Some(true),
{
    lemma_found_row(s);
}

/// A conversion between systems is defined exactly when the grade passes in
/// the source system and the target system is known; its result is what the
/// inverse formula gives for the German grade in between.
pub proof fn lemma_convert_defined(from: Seq<char>, to: Seq<char>, v: int)
    ensures
        spec_convert(from, to, v) is Some <==> (spec_is_pass(from, v) == Some(true)
            && spec_scale(to) is Some),
{
    lemma_found_row(from);
    lemma_found_row(to);
    lemma_to_de_defined_iff_passing(from, v);
    if let Some(r) = spec_scale(from) {
        if spec_to_de(from, v) is Some {
            crate::bavarian::lemma_de_tenths_range(r.best, r.pass, v);
        }
    }
}

/// On every scale, the best grade converts to German 1.0 and the lowest
/// passing grade to German 4.0; German 1.0 and 4.0 convert back to the best
/// and the lowest passing grade (in hundredths, truncated toward zero).
pub proof fn lemma_scale_endpoints(s: Seq<char>)
    requires
        spec_scale(s) is Some,
    ensures
        ({
            let r = spec_scale(s)->0;
            &&& spec_to_de(s, r.best) == Some(10int)
            &&& spec_to_de(s, r.pass) == Some(40int)
            &&& spec_from_de(s, 1000) == Some(trunc_div(r.best, 10))
            &&& spec_from_de(s, 4000) == Some(trunc_div(r.pass, 10))
        }),
{
    lemma_found_row(s);
    let r = spec_scale(s)->0;
    crate::bavarian::lemma_to_de_endpoints(r.best, r.pass);
    crate::bavarian::lemma_from_de_endpoints(r.best, r.pass);
}

/// Every German grade in `[1.0, 4.0]` converts to a foreign grade between the
/// lowest passing grade and the best grade (both in hundredths, truncated
/// toward zero).
pub proof fn lemma_from_de_within_passing(s: Seq<char>, x: int)
    requires
        spec_scale(s) is Some,
        1000 <= x <= 4000,
    ensures
        spec_from_de(s, x) matches Some(h) && between(
            trunc_div(spec_scale(s)->0.best, 10),
            trunc_div(spec_scale(s)->0.pass, 10),
            h,
        ),
{
    lemma_found_row(s);
    let r = spec_scale(s)->0;
    crate::bavarian::lemma_from_de_endpoints(r.best, r.pass);
    crate::bavarian::lemma_from_de_monotone(r.best, r.pass, 1000, x);
}

} // verus!
