use student_performance::data::{from_csv_line, RecordError};

#[test]
fn parses_a_csv_line() {
    let r = from_csv_line("42,Male,4.0,98.0,6.5,Bachelors,Yes,Yes,No,76.9,100.0,A").unwrap();
    assert_eq!(r.student_id, 42);
    assert_eq!(r.gender, "Male");
    assert_eq!(r.final_grade, "A");
}

#[test]
fn rejects_wrong_field_count() {
    assert!(from_csv_line("1,Male,4.0").is_err());
}

#[test]
fn reports_the_field_count_found() {
    assert_eq!(from_csv_line("1,Male,4.0").unwrap_err(), RecordError::FieldCount { found: 3 });
    assert_eq!(from_csv_line("").unwrap_err(), RecordError::FieldCount { found: 1 });
    assert_eq!(
        from_csv_line("1,,,,,,,,,,,,").unwrap_err(),
        RecordError::FieldCount { found: 13 }
    );
}

#[test]
fn rejects_a_bad_student_id() {
    let line = "4x2,Male,4.0,98.0,6.5,Bachelors,Yes,Yes,No,76.9,100.0,A";
    assert_eq!(from_csv_line(line).unwrap_err(), RecordError::StudentId);
    let line = "99999999999999999999,Male,4.0,98.0,6.5,Bachelors,Yes,Yes,No,76.9,100.0,A";
    assert_eq!(from_csv_line(line).unwrap_err(), RecordError::StudentId);
    let line = ",Male,4.0,98.0,6.5,Bachelors,Yes,Yes,No,76.9,100.0,A";
    assert_eq!(from_csv_line(line).unwrap_err(), RecordError::StudentId);
}

#[test]
fn rejects_a_field_that_is_not_a_number() {
    let line = "1,Male,4.0,98.0,six,Bachelors,Yes,Yes,No,76.9,100.0,A";
    assert_eq!(from_csv_line(line).unwrap_err(), RecordError::Number { field: 4 });
    // The first bad measured field is the one reported.
    let line = "1,Male,4.0,x,6.5,Bachelors,Yes,Yes,No,y,100.0,A";
    assert_eq!(from_csv_line(line).unwrap_err(), RecordError::Number { field: 3 });
    let line = "1,Male,4.0,98.0,6.5,Bachelors,Yes,Yes,No,76.9,,A";
    assert_eq!(from_csv_line(line).unwrap_err(), RecordError::Number { field: 10 });
    // A bad student id is reported before a bad number.
    let line = "x,Male,bad,98.0,6.5,Bachelors,Yes,Yes,No,76.9,100.0,A";
    assert_eq!(from_csv_line(line).unwrap_err(), RecordError::StudentId);
    // Text that `f64::from_str` accepts passes.
    let line = "1,Male,+1e3,.5,7.,Bachelors,Yes,Yes,No,-Inf,NaN,A";
    let r = from_csv_line(line).unwrap();
    assert_eq!(r.previous_grade, "-Inf");
}

#[test]
fn trims_the_line_and_every_field() {
    let line = "  \t-7 , Female ,4.6, 85.3 ,8.1, High School ,No,No,Yes,52.2,82.2, B \n";
    let r = from_csv_line(line).unwrap();
    assert_eq!(r.student_id, -7);
    assert_eq!(r.gender, "Female");
    assert_eq!(r.study_time_hours, "4.6");
    assert_eq!(r.attendance_percent, "85.3");
    assert_eq!(r.sleep_hours, "8.1");
    assert_eq!(r.parental_education, "High School");
    assert_eq!(r.internet_access, "No");
    assert_eq!(r.extracurricular_activities, "No");
    assert_eq!(r.part_time_job, "Yes");
    assert_eq!(r.previous_grade, "52.2");
    assert_eq!(r.final_exam_score, "82.2");
    assert_eq!(r.final_grade, "B");
    // The measured fields keep the text of the line, which reads back as the number.
    assert_eq!(r.study_time_hours.parse::<f64>().unwrap(), 4.6);
}

#[test]
fn clone_keeps_every_field() {
    let r = from_csv_line("999,Female,4.6,85.3,8.1,High School,No,No,Yes,52.2,82.2,B").unwrap();
    let c = r.clone();
    assert_eq!(c.student_id, 999);
    assert_eq!(c.parental_education, "High School");
    assert_eq!(c.final_exam_score, "82.2");
}
