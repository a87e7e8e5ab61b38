use transformer_cpu::{Operator, Transpose};

#[test]
fn test() {
    let ans = Transpose::new(&[0, 3, 1, 2]).build(&[1, 2, 3, 4]);
    let ans = ans.as_slice();
    assert_eq!(ans.len(), 1);
    assert_eq!(ans[0].0.as_slice(), &[1, 4, 2, 3]);
    assert_eq!(
        ans[0].1.as_slice(),
        &[
            // column major
            1, 0, 0, 0, 0, //
            0, 0, 1, 0, 0, //
            0, 0, 0, 1, 0, //
            0, 1, 0, 0, 0, //
            0, 0, 0, 0, 1, //
        ]
    );
}

#[test]
fn transpose_of_no_axes() {
    let ans = Transpose::new(&[]).build(&[]);
    assert_eq!(ans.as_slice().len(), 1);
    assert_eq!(ans.as_slice()[0].0.as_slice(), &[] as &[u32]);
    assert_eq!(ans.as_slice()[0].1.as_slice(), &[1]);
}

#[test]
fn transpose_may_repeat_an_axis() {
    let ans = Transpose::new(&[1, 1]).build(&[3, 5]);
    assert_eq!(ans.as_slice()[0].0.as_slice(), &[5, 5]);
    assert_eq!(
        ans.as_slice()[0].1.as_slice(),
        &[
            0, 0, 0, //
            1, 1, 0, //
            0, 0, 1, //
        ]
    );
}

#[test]
fn transpose_of_many_axes() {
    let ans = Transpose::new(&[5, 4, 3, 2, 1, 0]).build(&[2, 3, 4, 5, 6, 7]);
    assert_eq!(ans.as_slice()[0].0.as_slice(), &[7, 6, 5, 4, 3, 2]);
}

#[test]
fn transpose_and_its_inverse_restore_the_shape() {
    let input = [1, 2, 3, 4];
    let there = Transpose::new(&[0, 3, 1, 2]).build(&input);
    let back = Transpose::new(&[0, 2, 3, 1]).build(there.as_slice()[0].0.as_slice());
    assert_eq!(back.as_slice()[0].0.as_slice(), &input);
}

#[test]
fn transposes_compose() {
    let input = [2, 3, 5];
    let first = Transpose::new(&[1, 0, 2]).build(&input);
    let both = Transpose::new(&[0, 2, 1]).build(first.as_slice()[0].0.as_slice());
    let direct = Transpose::new(&[1, 2, 0]).build(&input);
    assert_eq!(
        both.as_slice()[0].0.as_slice(),
        direct.as_slice()[0].0.as_slice()
    );
}

#[test]
fn identity_keeps_the_shape() {
    let ans = Transpose::new(&[0, 1, 2]).build(&[4, 5, 6]);
    assert_eq!(ans.as_slice()[0].0.as_slice(), &[4, 5, 6]);
    assert_eq!(
        ans.as_slice()[0].1.as_slice(),
        &[
            1, 0, 0, 0, //
            0, 1, 0, 0, //
            0, 0, 1, 0, //
            0, 0, 0, 1, //
        ]
    );
}

#[test]
fn shape_is_the_image_of_the_input() {
    let input = [7, 8, 9];
    let ans = Transpose::new(&[2, 0, 1]).build(&input);
    let (shape, affine) = &ans.as_slice()[0];
    let m = affine.as_slice();
    for r in 0..3 {
        let mut sum = 0;
        for c in 0..3 {
            sum += m[c * 4 + r] as u32 * input[c];
        }
        assert_eq!(shape.as_slice()[r], sum);
    }
}
