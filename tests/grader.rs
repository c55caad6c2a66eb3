use freecell_solver::grader::Grader;

#[test]
fn grader_basics() {
    let mut grader = Grader::new();

    grader.add(1, "one");
    grader.add(2, "two");
    grader.add(3, "three");

    assert_eq!(3, grader.grade_num());
    assert_eq!(3, grader.len());

    grader.add(3, "3");
    grader.add(2, "2");
    grader.add(1, "1");

    grader.add(1, "01");
    grader.add(2, "10");
    grader.add(3, "11");

    assert_eq!(3, grader.grade_num());
    assert_eq!(9, grader.len());
    assert_eq!(vec![1, 2, 3], grader.grades());

    assert_eq!(
        vec!["one", "1", "01"],
        grader.split_off(1, 3).expect("Should exist!")
    );

    assert_eq!(2, grader.grade_num());
    assert_eq!(6, grader.len());
    assert_eq!(vec![2, 3], grader.grades());

    assert_eq!(
        vec!["two", "2"],
        grader.split_off(2, 2).expect("Should exist!")
    );

    assert_eq!(2, grader.grade_num());
    assert_eq!(4, grader.len());
    assert_eq!(vec![2, 3], grader.grades());

    assert_eq!(
        vec!["three"],
        grader.split_off(3, 1).expect("Should exist!")
    );

    assert_eq!(2, grader.grade_num());
    assert_eq!(3, grader.len());
    assert_eq!(vec![2, 3], grader.grades());

    // drain out
    assert_eq!(vec!["10"], grader.split_off(2, 2).expect("Should exist!"));
    assert_eq!(vec!["3"], grader.split_off(3, 1).expect("Should exist!"));
    assert_eq!(vec!["11"], grader.split_off(3, 3).expect("Should exist!"));

    // empty test
    assert_eq!(0, grader.grade_num());
    assert_eq!(0, grader.len());
    assert_eq!(None, grader.split_off(3, 3));
}

#[test]
fn lowest_grade_first_oldest_first() {
    let mut grader = Grader::new();
    let ops = [(30, 'a'), (10, 'b'), (20, 'c'), (10, 'd'), (30, 'e'), (10, 'f'), (20, 'g')];
    for (grade, value) in ops {
        grader.add(grade, value);
    }
    assert_eq!(10, grader.grades()[0]);
    assert_eq!(vec!['b', 'd'], grader.split_off(10, 2).unwrap());
    assert_eq!(vec![10, 20, 30], grader.grades());
    assert_eq!(vec!['f'], grader.split_off(10, 5).unwrap());
    assert_eq!(vec![20, 30], grader.grades());
    assert_eq!(Vec::<char>::new(), grader.split_off(20, 0).unwrap());
    assert_eq!(vec!['c', 'g'], grader.split_off(20, 2).unwrap());
    assert_eq!(None, grader.split_off(10, 1));
    grader.clear();
    assert_eq!(0, grader.grade_num());
    assert!(grader.grades().is_empty());
}

#[test]
fn retain_filters_every_grade() {
    let mut grader = Grader::new();
    for (grade, value) in [(1, 10), (2, 21), (1, 12), (3, 31), (2, 22), (1, 13)] {
        grader.add(grade, value);
    }
    grader.retain(|v: &i32| v % 2 == 0);
    assert_eq!(vec![1, 2], grader.grades());
    assert_eq!(3, grader.len());
    assert_eq!(vec![10, 12], grader.split_off(1, 5).unwrap());
    assert_eq!(vec![22], grader.split_off(2, 5).unwrap());
}
