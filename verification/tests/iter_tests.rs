use abop::iter::IterExt;

#[test]
fn testit() {
    let v = vec![1.0, 2.0, 3.0];
    let result: Vec<_> = v.context_iter().collect_triples();
    println!("{:?}", result);

    assert_eq!(
        result,
        vec![
            (None, 1.0, Some(2.0)),
            (Some(1.0), 2.0, Some(3.0)),
            (Some(2.0), 3.0, None)
        ]
    );
}

#[test]
fn context_iter_empty_and_single() {
    let v: Vec<i32> = vec![];
    let result = v.context_iter().collect_triples();
    assert_eq!(result, vec![]);

    let v = vec![7];
    let result = v.context_iter().collect_triples();
    assert_eq!(result, vec![(None, 7, None)]);
}
