use exercises::grades::{
    grade_distribution, highest_single_score, ranking_by_average, top_student_ranking, Grade,
    Student,
};

fn sample() -> Vec<Student> {
    vec![
        Student::new("Boris".to_string(), vec![70, 50, 60]),
        Student::new("Kolya".to_string(), vec![90, 80, 75]),
        Student::new("Sasha".to_string(), vec![45, 85, 90]),
        Student::new("Kiva".to_string(), vec![30, 65, 45]),
        Student::new("Rostislav".to_string(), vec![93, 65, 66]),
    ]
}

#[test]
fn grade_boundaries() {
    assert_eq!(Grade::get_grade(0), Grade::F);
    assert_eq!(Grade::get_grade(59), Grade::F);
    assert_eq!(Grade::get_grade(60), Grade::D);
    assert_eq!(Grade::get_grade(69), Grade::D);
    assert_eq!(Grade::get_grade(70), Grade::C);
    assert_eq!(Grade::get_grade(79), Grade::C);
    assert_eq!(Grade::get_grade(80), Grade::B);
    assert_eq!(Grade::get_grade(89), Grade::B);
    assert_eq!(Grade::get_grade(90), Grade::A);
    assert_eq!(Grade::get_grade(100), Grade::A);
    assert_eq!(Grade::get_grade(101), Grade::F);
}

#[test]
fn grade_letters() {
    assert_eq!(char::from(Grade::A), 'A');
    assert_eq!(char::from(Grade::B), 'B');
    assert_eq!(char::from(Grade::C), 'C');
    assert_eq!(char::from(Grade::D), 'D');
    assert_eq!(char::from(Grade::F), 'F');
}

#[test]
fn student_grades_follow_scores() {
    let s = Student::new("Ann".to_string(), vec![95, 42, 71]);
    assert_eq!(s.grades(), vec![Grade::A, Grade::F, Grade::C]);
    assert_eq!(s.name(), "Ann");
    assert_eq!(s.scores(), &vec![95, 42, 71]);
}

#[test]
fn distribution_of_sample() {
    let students = sample();
    assert_eq!(
        grade_distribution(&students),
        vec![('A', 3), ('B', 2), ('C', 2), ('D', 4), ('F', 4)]
    );
}

#[test]
fn distribution_lists_every_grade_and_counts_every_score() {
    let students = vec![
        Student::new("X".to_string(), vec![100, 95]),
        Student::new("Y".to_string(), vec![]),
        Student::new("Z".to_string(), vec![10, 200]),
    ];
    let d = grade_distribution(&students);
    assert_eq!(d, vec![('A', 2), ('B', 0), ('C', 0), ('D', 0), ('F', 2)]);
    assert_eq!(d.iter().map(|(_, n)| n).sum::<usize>(), 4);
    assert_eq!(
        grade_distribution(&[]),
        vec![('A', 0), ('B', 0), ('C', 0), ('D', 0), ('F', 0)]
    );
}

#[test]
fn distribution_of_one_student_with_two_a_scores() {
    let students = [Student::new("X".to_string(), vec![95, 100])];
    assert_eq!(
        grade_distribution(&students),
        vec![('A', 2), ('B', 0), ('C', 0), ('D', 0), ('F', 0)]
    );
}

#[test]
fn distribution_ignores_order() {
    let forward = sample();
    let backward = vec![
        Student::new("Rostislav".to_string(), vec![66, 65, 93]),
        Student::new("Kiva".to_string(), vec![45, 65, 30]),
        Student::new("Sasha".to_string(), vec![90, 85, 45]),
        Student::new("Kolya".to_string(), vec![75, 80, 90]),
        Student::new("Boris".to_string(), vec![60, 50, 70]),
    ];
    assert_eq!(grade_distribution(&forward), grade_distribution(&backward));
}

#[test]
fn highest_score_of_sample() {
    let students = sample();
    assert_eq!(
        highest_single_score(&students),
        Some(("Rostislav".to_string(), 93))
    );
}

#[test]
fn highest_score_ties_go_to_the_last() {
    let students = vec![
        Student::new("First".to_string(), vec![90, 10]),
        Student::new("Second".to_string(), vec![90]),
        Student::new("Third".to_string(), vec![5]),
    ];
    assert_eq!(
        highest_single_score(&students),
        Some(("Second".to_string(), 90))
    );
}

#[test]
fn highest_score_without_scores() {
    let students = vec![Student::new("Nobody".to_string(), vec![])];
    assert_eq!(highest_single_score(&students), None);
    assert_eq!(highest_single_score(&[]), None);
}

#[test]
fn ranking_of_sample() {
    let students = sample();
    assert_eq!(ranking_by_average(&students), vec![1, 4, 2, 0, 3]);
    assert_eq!(top_student_ranking(&students), vec![1, 4, 2]);
}

#[test]
fn ranking_keeps_order_of_equal_averages() {
    let students = vec![
        Student::new("A".to_string(), vec![80, 60]),
        Student::new("B".to_string(), vec![]),
        Student::new("C".to_string(), vec![70]),
        Student::new("D".to_string(), vec![90]),
        Student::new("E".to_string(), vec![0]),
    ];
    assert_eq!(ranking_by_average(&students), vec![3, 0, 2, 1, 4]);
    assert_eq!(top_student_ranking(&students), vec![3, 0, 2]);
}

#[test]
fn total_score_detects_overflow() {
    let s = Student::new("Big".to_string(), vec![u32::MAX, 1]);
    assert_eq!(s.total_score(), None);
    let t = Student::new("Small".to_string(), vec![3, 4]);
    assert_eq!(t.total_score(), Some(7));
}
