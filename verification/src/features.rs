//! Grade labels, design-matrix column names, and the categorical half of
//! a row's encoding (the z-scored numeric half is floating-point work).
use vstd::prelude::*;
use vstd::string::*;

use crate::data::Record;
use crate::text::same_text;

verus! {

/// Ordered target classes.
pub const GRADES: [&'static str; 5] = ["A", "B", "C", "D", "F"];

/// Numeric features, in the order they appear in the design matrix.
pub const NUMERIC_FEATURES: [&'static str; 4] = [
    "study_time_hours",
    "attendance_percent",
    "sleep_hours",
    "previous_grade",
];

/// `parental_education` levels encoded as one-hot columns ("None" is the
/// baseline and is dropped to avoid the dummy-variable trap).
pub const PARENTAL_EDUCATION_LEVELS: [&'static str; 4] = ["High School", "Bachelors", "Masters", "PhD"];

/// The number of columns of the design matrix.
pub const N_FEATURES: usize = 12;

/// The number of categorical (0/1) columns at the end of a design-matrix row.
pub const N_CATEGORICAL: usize = 8;

/// The position of `g` in `GRADES`, or 0 where it is none of them.
pub open spec fn grade_ordinal(g: Seq<char>) -> i32 {
    if g == GRADES[0]@ {
        0
    } else if g == GRADES[1]@ {
        1
    } else if g == GRADES[2]@ {
        2
    } else if g == GRADES[3]@ {
        3
    } else if g == GRADES[4]@ {
        4
    } else {
        0
    }
}

/// The grade at position `o` of `GRADES`, or `"?"` outside it.
pub open spec fn grade_label(o: int) -> Seq<char> {
    if 0 <= o < 5 {
        GRADES[o]@
    } else {
        "?"@
    }
}

/// `s` with every space replaced by an underscore.
pub open spec fn underscored(s: Seq<char>) -> Seq<char> {
    s.map_values(|c: char| if c == ' ' { '_' } else { c })
}

/// The name of the one-hot column of a parental-education level.
pub open spec fn parental_column(level: Seq<char>) -> Seq<char> {
    "parental_education_"@ + underscored(level)
}

/// The ordered column names of the design matrix.
pub open spec fn feature_name_list() -> Seq<Seq<char>> {
    seq![
        NUMERIC_FEATURES[0]@,
        NUMERIC_FEATURES[1]@,
        NUMERIC_FEATURES[2]@,
        NUMERIC_FEATURES[3]@,
        "gender_Male"@,
        parental_column(PARENTAL_EDUCATION_LEVELS[0]@),
        parental_column(PARENTAL_EDUCATION_LEVELS[1]@),
        parental_column(PARENTAL_EDUCATION_LEVELS[2]@),
        parental_column(PARENTAL_EDUCATION_LEVELS[3]@),
        "internet_access_Yes"@,
        "extracurricular_activities_Yes"@,
        "part_time_job_Yes"@,
    ]
}

pub open spec fn flag(b: bool) -> u8 {
    if b {
        1
    } else {
        0
    }
}

/// The categorical columns of a row, after the four numeric ones:
/// `gender_Male`, the four parental-education levels, then the three
/// `Yes` flags.
pub open spec fn categorical_columns(r: Record) -> Seq<u8> {
    seq![
        flag(r.gender@ == "Male"@),
        flag(r.parental_education@ == PARENTAL_EDUCATION_LEVELS[0]@),
        flag(r.parental_education@ == PARENTAL_EDUCATION_LEVELS[1]@),
        flag(r.parental_education@ == PARENTAL_EDUCATION_LEVELS[2]@),
        flag(r.parental_education@ == PARENTAL_EDUCATION_LEVELS[3]@),
        flag(r.internet_access@ == "Yes"@),
        flag(r.extracurricular_activities@ == "Yes"@),
        flag(r.part_time_job@ == "Yes"@),
    ]
}

/// The character views of a sequence of strings.
pub open spec fn string_views(v: Seq<String>) -> Seq<Seq<char>> {
    v.map_values(|s: String| s@)
}

/// The position of `grade` in `GRADES`; an unknown grade maps to 0.
pub fn grade_to_ordinal(grade: &str) -> (o: i32)
    ensures
        o == grade_ordinal(grade@),
        0 <= o < 5,
{
    let mut i: usize = 0;
    while i < 5
        invariant
            i <= 5,
            forall|k: int| 0 <= k < i ==> grade@ != #[trigger] GRADES[k]@,
        decreases 5 - i,
    {
        if same_text(grade, GRADES[i]) {
            return i as i32;
        }
        i = i + 1;
    }
    0
}

/// The grade at position `ordinal` of `GRADES`, or `"?"` outside it.
pub fn ordinal_to_grade(ordinal: i32) -> (g: &'static str)
    ensures
        g@ == grade_label(ordinal as int),
{
    if 0 <= ordinal && ordinal < 5 {
        GRADES[ordinal as usize]
    } else {
        "?"
    }
}

/// `parental_education_` followed by `level` with spaces made underscores.
fn parental_column_name(level: &str) -> (name: String)
    ensures
        name@ == parental_column(level@),
{
    let mut name = String::from_str("parental_education_");
    let ghost prefix = name@;
    let n = level.unicode_len();
    let mut i: usize = 0;
    while i < n
        invariant
            n == level@.len(),
            i <= n,
            prefix == "parental_education_"@,
            name@ == prefix + underscored(level@.take(i as int)),
        decreases n - i,
    {
        let c = level.get_char(i);
        let ghost before = name@;
        if c == ' ' {
            name.append("_");
            proof {
                reveal_strlit("_");
            }
        } else {
            name.append(level.substring_char(i, i + 1));
        }
        assert(underscored(level@.take(i + 1)) =~= underscored(level@.take(i as int)).push(
            if c == ' ' { '_' } else { c },
        ));
        i = i + 1;
    }
    assert(level@.take(n as int) =~= level@);
    name
}

/// The ordered list of column names of the design matrix.
pub fn feature_names() -> (names: Vec<String>)
    ensures
        string_views(names@) == feature_name_list(),
        names.len() == N_FEATURES,
{
    let mut names: Vec<String> = Vec::new();
    let mut i: usize = 0;
    while i < 4
        invariant
            i <= 4,
            names.len() == i,
            forall|k: int| 0 <= k < i ==> #[trigger] names@[k]@ == NUMERIC_FEATURES[k]@,
        decreases 4 - i,
    {
        names.push(String::from_str(NUMERIC_FEATURES[i]));
        i = i + 1;
    }
    names.push(String::from_str("gender_Male"));
    let mut j: usize = 0;
    while j < 4
        invariant
            j <= 4,
            names.len() == 5 + j,
            forall|k: int| 0 <= k < 4 ==> #[trigger] names@[k]@ == NUMERIC_FEATURES[k]@,
            names@[4]@ == "gender_Male"@,
            forall|k: int|
                5 <= k < 5 + j ==> #[trigger] names@[k]@ == parental_column(
                    PARENTAL_EDUCATION_LEVELS[k - 5]@,
                ),
        decreases 4 - j,
    {
        names.push(parental_column_name(PARENTAL_EDUCATION_LEVELS[j]));
        j = j + 1;
    }
    names.push(String::from_str("internet_access_Yes"));
    names.push(String::from_str("extracurricular_activities_Yes"));
    names.push(String::from_str("part_time_job_Yes"));
    assert(string_views(names@) =~= feature_name_list()) by {
        assert(names@[5]@ == parental_column(PARENTAL_EDUCATION_LEVELS[0]@));
        assert(names@[6]@ == parental_column(PARENTAL_EDUCATION_LEVELS[1]@));
        assert(names@[7]@ == parental_column(PARENTAL_EDUCATION_LEVELS[2]@));
        assert(names@[8]@ == parental_column(PARENTAL_EDUCATION_LEVELS[3]@));
    }
    names
}

/// The categorical columns of a row's encoding: 1 where the record has the
/// column's value, 0 elsewhere.
pub fn encode_categorical(r: &Record) -> (row: Vec<u8>)
    ensures
        row@ == categorical_columns(*r),
        row.len() == N_CATEGORICAL,
        row@[0] == 1 <==> r.gender@ == "Male"@,
        forall|k: int|
            #![trigger PARENTAL_EDUCATION_LEVELS[k]]
            0 <= k < 4 ==> (row@[1 + k] == 1 <==> r.parental_education@
                == PARENTAL_EDUCATION_LEVELS[k]@),
        row@[5] == 1 <==> r.internet_access@ == "Yes"@,
        row@[6] == 1 <==> r.extracurricular_activities@ == "Yes"@,
        row@[7] == 1 <==> r.part_time_job@ == "Yes"@,
        forall|j: int| 0 <= j < N_CATEGORICAL ==> #[trigger] row@[j] <= 1,
{
    let mut row: Vec<u8> = Vec::new();
    row.push(if same_text(r.gender.as_str(), "Male") { 1 } else { 0 });
    let mut j: usize = 0;
    while j < 4
        invariant
            j <= 4,
            row.len() == 1 + j,
            row@[0] == flag(r.gender@ == "Male"@),
            forall|k: int|
                1 <= k < 1 + j ==> #[trigger] row@[k] == flag(
                    r.parental_education@ == PARENTAL_EDUCATION_LEVELS[k - 1]@,
                ),
        decreases 4 - j,
    {
        row.push(
            if same_text(r.parental_education.as_str(), PARENTAL_EDUCATION_LEVELS[j]) {
                1
            } else {
                0
            },
        );
        j = j + 1;
    }
    row.push(if same_text(r.internet_access.as_str(), "Yes") { 1 } else { 0 });
    row.push(if same_text(r.extracurricular_activities.as_str(), "Yes") { 1 } else { 0 });
    row.push(if same_text(r.part_time_job.as_str(), "Yes") { 1 } else { 0 });
    assert(row@ =~= categorical_columns(*r)) by {
        assert(row@[1] == flag(r.parental_education@ == PARENTAL_EDUCATION_LEVELS[0]@));
        assert(row@[2] == flag(r.parental_education@ == PARENTAL_EDUCATION_LEVELS[1]@));
        assert(row@[3] == flag(r.parental_education@ == PARENTAL_EDUCATION_LEVELS[2]@));
        assert(row@[4] == flag(r.parental_education@ == PARENTAL_EDUCATION_LEVELS[3]@));
    }
    row
}


/// How many of `records` have the grade at position `k` of `GRADES`
/// (an unknown grade counting as position 0).
pub open spec fn grade_count(records: Seq<Record>, k: int) -> nat
    decreases records.len(),
{
    if records.len() == 0 {
        0
    } else {
        grade_count(records.drop_last(), k) + if grade_ordinal(records.last().final_grade@) == k {
            1nat
        } else {
            0nat
        }
    }
}

/// The number of students per final grade, in the order of `GRADES`.
pub fn grade_counts(records: &[Record]) -> (counts: Vec<usize>)
    ensures
        counts.len() == 5,
        forall|k: int| 0 <= k < 5 ==> #[trigger] counts@[k] == grade_count(records@, k),
        forall|k: int|
            0 <= k < 5 ==> #[trigger] counts@[k] == records@.filter(
                |r: Record| grade_ordinal(r.final_grade@) as int == k,
            ).len(),
{
    let mut counts: Vec<usize> = vec![0, 0, 0, 0, 0];
    let mut i: usize = 0;
    while i < records.len()
        invariant
            i <= records.len(),
            counts.len() == 5,
            forall|k: int| 0 <= k < 5 ==> #[trigger] counts@[k] == grade_count(records@.take(i as int), k),
        decreases records.len() - i,
    {
        let o = grade_to_ordinal(records[i].final_grade.as_str()) as usize;
        proof {
            assert(records@.take(i + 1).drop_last() =~= records@.take(i as int));
            lemma_grade_count_bounded(records@.take(i as int), o as int);
        }
        counts.set(o, counts[o] + 1);
        i = i + 1;
    }
    assert(records@.take(records.len() as int) =~= records@);
    proof {
        assert forall|k: int| 0 <= k < 5 implies #[trigger] counts@[k] == records@.filter(
            |r: Record| grade_ordinal(r.final_grade@) as int == k,
        ).len() by {
            lemma_grade_count_is_filter(records@, k);
        }
    }
    counts
}

proof fn lemma_grade_count_bounded(records: Seq<Record>, k: int)
    ensures
        grade_count(records, k) <= records.len(),
    decreases records.len(),
{
    if records.len() > 0 {
        lemma_grade_count_bounded(records.drop_last(), k);
    }
}

/// Every student falls under exactly one final grade: the five counts add
/// up to the number of students.
pub proof fn lemma_grade_counts_cover(records: Seq<Record>)
    ensures
        grade_count(records, 0) + grade_count(records, 1) + grade_count(records, 2)
            + grade_count(records, 3) + grade_count(records, 4) == records.len(),
    decreases records.len(),
{
    if records.len() > 0 {
        lemma_grade_counts_cover(records.drop_last());
    }
}

/// The grade labels are pairwise distinct.
proof fn lemma_grades_distinct()
    ensures
        forall|a: int, b: int| 0 <= a < 5 && 0 <= b < 5 && a != b ==> GRADES[a]@ != GRADES[b]@,
{
    reveal_strlit("A");
    reveal_strlit("B");
    reveal_strlit("C");
    reveal_strlit("D");
    reveal_strlit("F");
    assert(GRADES[0]@[0] == 'A' && GRADES[1]@[0] == 'B' && GRADES[2]@[0] == 'C'
        && GRADES[3]@[0] == 'D' && GRADES[4]@[0] == 'F');
    assert forall|a: int, b: int| 0 <= a < 5 && 0 <= b < 5 && a != b implies GRADES[a]@
        != GRADES[b]@ by {
        assert(GRADES[a]@[0] != GRADES[b]@[0]);
    }
}

/// Mapping a grade to its ordinal and back gives the grade again, and an
/// ordinal in range survives the trip the other way.
pub proof fn lemma_grade_round_trip(i: int)
    requires
        0 <= i < 5,
    ensures
        grade_ordinal(grade_label(i)) == i,
        grade_label(grade_ordinal(grade_label(i)) as int) == grade_label(i),
{
    lemma_grades_distinct();
}


/// The parental-education levels are pairwise distinct.
proof fn lemma_levels_distinct()
    ensures
        forall|a: int, b: int|
            0 <= a < 4 && 0 <= b < 4 && a != b ==> PARENTAL_EDUCATION_LEVELS[a]@
                != PARENTAL_EDUCATION_LEVELS[b]@,
{
    reveal_strlit("High School");
    reveal_strlit("Bachelors");
    reveal_strlit("Masters");
    reveal_strlit("PhD");
    assert(PARENTAL_EDUCATION_LEVELS[0]@[0] == 'H' && PARENTAL_EDUCATION_LEVELS[1]@[0] == 'B'
        && PARENTAL_EDUCATION_LEVELS[2]@[0] == 'M' && PARENTAL_EDUCATION_LEVELS[3]@[0] == 'P');
    assert forall|a: int, b: int|
        0 <= a < 4 && 0 <= b < 4 && a != b implies PARENTAL_EDUCATION_LEVELS[a]@
        != PARENTAL_EDUCATION_LEVELS[b]@ by {
        assert(PARENTAL_EDUCATION_LEVELS[a]@[0] != PARENTAL_EDUCATION_LEVELS[b]@[0]);
    }
}

/// The parental-education columns are one-hot: at most one of them is set,
/// and none for the baseline level or any other value.
pub proof fn lemma_parental_one_hot(r: Record)
    ensures
        categorical_columns(r)[1] + categorical_columns(r)[2] + categorical_columns(r)[3]
            + categorical_columns(r)[4] <= 1,
        (forall|k: int| 0 <= k < 4 ==> r.parental_education@ != #[trigger] PARENTAL_EDUCATION_LEVELS[k]@)
            ==> categorical_columns(r)[1] + categorical_columns(r)[2] + categorical_columns(r)[3]
            + categorical_columns(r)[4] == 0,
{
    lemma_levels_distinct();
}


/// The categorical half of a row lines up with the column names: after the
/// four numeric columns, column `4 + j` of the design matrix is named for
/// the value that sets encoded column `j`. In particular column `5 + k` is
/// named for parental-education level `k` and is set exactly for records
/// at that level, and every encoded column is 0 or 1.
pub proof fn lemma_encoding_matches_column_names(r: Record, k: int)
    requires
        0 <= k < 4,
    ensures
        NUMERIC_FEATURES.len() + N_CATEGORICAL == N_FEATURES,
        feature_name_list().len() == N_FEATURES,
        feature_name_list()[4] == "gender_Male"@,
        categorical_columns(r)[0] == 1 <==> r.gender@ == "Male"@,
        feature_name_list()[5 + k] == parental_column(PARENTAL_EDUCATION_LEVELS[k]@),
        categorical_columns(r)[1 + k] == 1 <==> r.parental_education@ == PARENTAL_EDUCATION_LEVELS[k]@,
        feature_name_list()[9] == "internet_access_Yes"@,
        categorical_columns(r)[5] == 1 <==> r.internet_access@ == "Yes"@,
        feature_name_list()[10] == "extracurricular_activities_Yes"@,
        categorical_columns(r)[6] == 1 <==> r.extracurricular_activities@ == "Yes"@,
        feature_name_list()[11] == "part_time_job_Yes"@,
        categorical_columns(r)[7] == 1 <==> r.part_time_job@ == "Yes"@,
        forall|j: int| 0 <= j < N_CATEGORICAL ==> #[trigger] categorical_columns(r)[j] <= 1,
{
}


/// The count of a grade is the number of records whose final grade maps to
/// it: `grade_count` agrees with filtering the records by their grade.
pub proof fn lemma_grade_count_is_filter(records: Seq<Record>, k: int)
    ensures
        grade_count(records, k) == records.filter(
            |r: Record| grade_ordinal(r.final_grade@) as int == k,
        ).len(),
    decreases records.len(),
{
    reveal(Seq::filter);
    if records.len() > 0 {
        lemma_grade_count_is_filter(records.drop_last(), k);
    }
}

/// Records whose final grade is the grade at position `k` are counted under
/// `k` and under no other grade.
pub proof fn lemma_graded_records_count_under_their_grade(records: Seq<Record>, k: int)
    requires
        0 <= k < 5,
        forall|i: int| 0 <= i < records.len() ==> (#[trigger] records[i]).final_grade@ == GRADES[k]@,
    ensures
        grade_count(records, k) == records.len(),
        forall|c: int| 0 <= c < 5 && c != k ==> #[trigger] grade_count(records, c) == 0,
    decreases records.len(),
{
    lemma_grades_distinct();
    if records.len() > 0 {
        let rest = records.drop_last();
        assert forall|i: int| 0 <= i < rest.len() implies (#[trigger] rest[i]).final_grade@
            == GRADES[k]@ by {
            assert(rest[i] == records[i]);
        }
        lemma_graded_records_count_under_their_grade(rest, k);
        assert(records.last() == records[records.len() - 1]);
        lemma_grade_round_trip(k);
        assert(grade_ordinal(records.last().final_grade@) == k);
        assert forall|c: int| 0 <= c < 5 && c != k implies #[trigger] grade_count(records, c)
            == 0 by {
            assert(grade_count(rest, c) == 0);
        }
    }
}

}
