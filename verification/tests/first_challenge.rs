use segment_tree::first_challenge::max_parenthesis_depth;
use segment_tree::first_challenge::missing_number;

#[test]
fn depth_3() {
    let string = "((()))";
    assert_eq!(max_parenthesis_depth(string), 3);
}

#[test]
fn depth_2() {
    let string = "(aas(ddd))ff";
    assert_eq!(max_parenthesis_depth(string), 2);
}

#[test]
fn depth_1() {
    let string = "(fasljfasdkljfhaslkjfhaklfjh)";
    assert_eq!(max_parenthesis_depth(string), 1);
}

#[test]
fn miss3() {
    let perm = [0, 4, 1, 2];
    assert_eq!(missing_number(&perm), 3);
}

#[test]
fn miss2() {
    let perm = [0, 4, 1, 3];
    assert_eq!(missing_number(&perm), 2);
}

#[test]
fn miss_n() {
    let perm = [0, 2, 1, 3];
    assert_eq!(missing_number(&perm), 4);
}
