//! One student row, and reading it from a comma-separated line.
use vstd::prelude::*;
use vstd::string::*;

use crate::text::{
    comma_fields, float_text, i64_text, is_float_text, parse_i64, split_commas, str_views, trim,
    trimmed,
};

verus! {

/// One row of the student dataset, in the column order of the CSV file.
///
/// The five measured quantities are kept as the text of their field,
/// trimmed, exactly as the line gives them, and `from_csv_line` admits only
/// texts that `f64::from_str` accepts; turning them into numbers is
/// floating-point work that this library leaves to its caller.
#[derive(Debug)]
pub struct Record {
    pub student_id: i64,
    pub gender: String,
    pub study_time_hours: String,
    pub attendance_percent: String,
    pub sleep_hours: String,
    pub parental_education: String,
    pub internet_access: String,
    pub extracurricular_activities: String,
    pub part_time_job: String,
    pub previous_grade: String,
    /// Dropped during feature engineering: it is the variable that directly
    /// determines `final_grade`, so including it would leak the target.
    pub final_exam_score: String,
    pub final_grade: String,
}

impl Clone for Record {
    fn clone(&self) -> (r: Self)
        ensures
            r == *self,
    {
        Record {
            student_id: self.student_id,
            gender: self.gender.clone(),
            study_time_hours: self.study_time_hours.clone(),
            attendance_percent: self.attendance_percent.clone(),
            sleep_hours: self.sleep_hours.clone(),
            parental_education: self.parental_education.clone(),
            internet_access: self.internet_access.clone(),
            extracurricular_activities: self.extracurricular_activities.clone(),
            part_time_job: self.part_time_job.clone(),
            previous_grade: self.previous_grade.clone(),
            final_exam_score: self.final_exam_score.clone(),
            final_grade: self.final_grade.clone(),
        }
    }
}

/// A clone of a record is the record itself, so copies of records (as a
/// train / test split makes them) hold exactly the rows they were made from.
pub proof fn lemma_record_clone_is_identity(a: Record, b: Record)
    requires
        cloned::<Record>(a, b),
    ensures
        a == b,
{
}

/// Why a line is not a student row.
#[derive(Debug, PartialEq, Eq, Structural)]
pub enum RecordError {
    /// The line does not hold the 12 comma-separated fields of a row.
    FieldCount { found: usize },
    /// The first field is not a decimal `i64`.
    StudentId,
    /// The field at this position (counting from 0) should be a number and
    /// is not one that `f64::from_str` accepts.
    Number { field: usize },
}

/// The number of comma-separated fields in one row.
pub const N_FIELDS: usize = 12;

/// `r` is the row that the (untrimmed) fields `f` describe.
pub open spec fn record_from_fields(r: Record, f: Seq<Seq<char>>) -> bool {
    &&& f.len() == N_FIELDS
    &&& i64_text(trimmed(f[0])) == Some(r.student_id)
    &&& r.gender@ == trimmed(f[1])
    &&& r.study_time_hours@ == trimmed(f[2])
    &&& r.attendance_percent@ == trimmed(f[3])
    &&& r.sleep_hours@ == trimmed(f[4])
    &&& r.parental_education@ == trimmed(f[5])
    &&& r.internet_access@ == trimmed(f[6])
    &&& r.extracurricular_activities@ == trimmed(f[7])
    &&& r.part_time_job@ == trimmed(f[8])
    &&& r.previous_grade@ == trimmed(f[9])
    &&& r.final_exam_score@ == trimmed(f[10])
    &&& r.final_grade@ == trimmed(f[11])
}

/// The position of the first measured field, in the order the row lists
/// them, whose trimmed text is not a number; `None` where all are numbers.
pub open spec fn first_bad_number(f: Seq<Seq<char>>) -> Option<usize> {
    if !float_text(trimmed(f[2])) {
        Some(2)
    } else if !float_text(trimmed(f[3])) {
        Some(3)
    } else if !float_text(trimmed(f[4])) {
        Some(4)
    } else if !float_text(trimmed(f[9])) {
        Some(9)
    } else if !float_text(trimmed(f[10])) {
        Some(10)
    } else {
        None
    }
}

/// The fields of a line: the pieces between commas of the trimmed line.
pub open spec fn line_fields(line: Seq<char>) -> Seq<Seq<char>> {
    comma_fields(trimmed(line))
}

/// Parse a single student as a comma-separated line with the same column
/// order as the dataset (12 fields). Each field is trimmed; the first must
/// be a decimal `i64` and the five measured ones numbers.
pub fn from_csv_line(line: &str) -> (res: Result<Record, RecordError>)
    ensures
        ({
            let f = line_fields(line@);
            &&& f.len() != N_FIELDS ==> res == Err::<Record, RecordError>(
                RecordError::FieldCount { found: f.len() as usize },
            )
            &&& f.len() == N_FIELDS && i64_text(trimmed(f[0])) is None ==> res == Err::<
                Record,
                RecordError,
            >(RecordError::StudentId)
            &&& f.len() == N_FIELDS && i64_text(trimmed(f[0])) is Some && first_bad_number(f) is Some
                ==> res == Err::<Record, RecordError>(
                RecordError::Number { field: first_bad_number(f)->Some_0 },
            )
            &&& f.len() == N_FIELDS && i64_text(trimmed(f[0])) is Some && first_bad_number(f) is None
                ==> res is Ok && record_from_fields(res->Ok_0, f)
        }),
{
    let t = trim(line);
    let f = split_commas(t);
    assert(str_views(f@) == line_fields(line@));
    if f.len() != N_FIELDS {
        return Err(RecordError::FieldCount { found: f.len() });
    }
    assert(forall|k: int| 0 <= k < f.len() ==> #[trigger] str_views(f@)[k] == f@[k]@);
    let student_id = match parse_i64(trim(f[0])) {
        Some(v) => v,
        None => {
            return Err(RecordError::StudentId);
        },
    };
    let numeric: [usize; 5] = [2, 3, 4, 9, 10];
    let mut k: usize = 0;
    while k < 5
        invariant
            f.len() == N_FIELDS,
            str_views(f@) == line_fields(line@),
            i64_text(trimmed(line_fields(line@)[0])) == Some(student_id),
            numeric@ == seq![2usize, 3, 4, 9, 10],
            k <= 5,
            forall|k: int| 0 <= k < f.len() ==> #[trigger] str_views(f@)[k] == f@[k]@,
            forall|j: int| 0 <= j < k ==> float_text(trimmed(f@[#[trigger] numeric@[j] as int]@)),
        decreases 5 - k,
    {
        let field = numeric[k];
        if !is_float_text(trim(f[field])) {
            proof {
                let g = line_fields(line@);
                assert(g[field as int] == f@[field as int]@);
                assert(forall|j: int| 0 <= j < k ==> float_text(trimmed(g[#[trigger] numeric@[j] as int])));
                if k >= 1 { assert(float_text(trimmed(g[numeric@[0] as int]))); }
                if k >= 2 { assert(float_text(trimmed(g[numeric@[1] as int]))); }
                if k >= 3 { assert(float_text(trimmed(g[numeric@[2] as int]))); }
                if k >= 4 { assert(float_text(trimmed(g[numeric@[3] as int]))); }
            }
            return Err(RecordError::Number { field });
        }
        k = k + 1;
    }
    let r = Record {
        student_id,
        gender: String::from_str(trim(f[1])),
        study_time_hours: String::from_str(trim(f[2])),
        attendance_percent: String::from_str(trim(f[3])),
        sleep_hours: String::from_str(trim(f[4])),
        parental_education: String::from_str(trim(f[5])),
        internet_access: String::from_str(trim(f[6])),
        extracurricular_activities: String::from_str(trim(f[7])),
        part_time_job: String::from_str(trim(f[8])),
        previous_grade: String::from_str(trim(f[9])),
        final_exam_score: String::from_str(trim(f[10])),
        final_grade: String::from_str(trim(f[11])),
    };
    Ok(r)
}

}
