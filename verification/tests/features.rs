use student_performance::data::from_csv_line;
use student_performance::features::{
    encode_categorical, feature_names, grade_counts, grade_to_ordinal, ordinal_to_grade, GRADES,
};

#[test]
fn grade_mapping_round_trips() {
    for (i, g) in GRADES.iter().enumerate() {
        assert_eq!(grade_to_ordinal(g), i as i32);
        assert_eq!(ordinal_to_grade(i as i32), *g);
    }
}

#[test]
fn unknown_grades_and_ordinals() {
    assert_eq!(grade_to_ordinal("E"), 0);
    assert_eq!(grade_to_ordinal(""), 0);
    assert_eq!(grade_to_ordinal("a"), 0);
    assert_eq!(ordinal_to_grade(5), "?");
    assert_eq!(ordinal_to_grade(-1), "?");
    assert_eq!(ordinal_to_grade(i32::MIN), "?");
}

#[test]
fn feature_names_has_12_columns() {
    let names = feature_names();
    assert_eq!(names.len(), 12);
    assert_eq!(
        names,
        vec![
            "study_time_hours",
            "attendance_percent",
            "sleep_hours",
            "previous_grade",
            "gender_Male",
            "parental_education_High_School",
            "parental_education_Bachelors",
            "parental_education_Masters",
            "parental_education_PhD",
            "internet_access_Yes",
            "extracurricular_activities_Yes",
            "part_time_job_Yes",
        ]
    );
}

#[test]
fn categorical_encoding_is_correct() {
    let r = from_csv_line("1,Male,4.0,98.0,6.5,Bachelors,Yes,Yes,No,76.9,100.0,A").unwrap();
    let row = encode_categorical(&r);
    // gender_Male, parental (4), then 3 flags
    assert_eq!(row, vec![1, 0, 1, 0, 0, 1, 1, 0]);
    let r = from_csv_line("2,Female,1,2,3,None,No,No,Yes,4,5,F").unwrap();
    assert_eq!(encode_categorical(&r), vec![0, 0, 0, 0, 0, 0, 0, 1]);
    let r = from_csv_line("3,Female,1,2,3,High School,No,Yes,No,4,5,C").unwrap();
    assert_eq!(encode_categorical(&r), vec![0, 1, 0, 0, 0, 0, 1, 0]);
}

#[test]
fn grade_counts_per_grade() {
    let lines = [
        "1,Male,1,1,1,PhD,Yes,Yes,No,1,1,A",
        "2,Male,1,1,1,PhD,Yes,Yes,No,1,1,B",
        "3,Male,1,1,1,PhD,Yes,Yes,No,1,1,B",
        "4,Male,1,1,1,PhD,Yes,Yes,No,1,1,F",
        "5,Male,1,1,1,PhD,Yes,Yes,No,1,1,Z",
    ];
    let records: Vec<_> = lines.iter().map(|l| from_csv_line(l).unwrap()).collect();
    let counts = grade_counts(&records);
    // The unknown grade "Z" is counted as an "A".
    assert_eq!(counts, vec![2, 2, 0, 0, 1]);
    assert_eq!(counts.iter().sum::<usize>(), records.len());
}
