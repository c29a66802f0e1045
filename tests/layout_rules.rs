use crevice::{padding_needed, Convention, Layout};

fn lay(alignment: usize, size: usize) -> Layout {
    Layout { alignment, size }
}

#[test]
fn padding_is_zero_when_aligned() {
    assert_eq!(padding_needed(0, 4), 0);
    assert_eq!(padding_needed(16, 16), 0);
    assert_eq!(padding_needed(32, 8), 0);
}

#[test]
fn padding_reaches_next_multiple() {
    assert_eq!(padding_needed(4, 16), 12);
    assert_eq!(padding_needed(17, 16), 15);
    assert_eq!(padding_needed(5, 4), 3);
    assert_eq!(padding_needed(7, 1), 0);
}

#[test]
fn padding_stays_below_alignment_and_aligns() {
    for alignment in [1usize, 2, 4, 8, 16, 32] {
        for offset in 0usize..100 {
            let p = padding_needed(offset, alignment);
            assert!(p < alignment);
            assert_eq!((offset + p) % alignment, 0);
        }
    }
}

#[test]
fn scalar_layout() {
    assert_eq!(Layout::scalar(), lay(4, 4));
}

#[test]
fn vector_layouts_per_convention() {
    assert_eq!(Layout::vector(2, Convention::Std430), Some(lay(8, 8)));
    assert_eq!(Layout::vector(2, Convention::Std140), Some(lay(8, 8)));
    assert_eq!(Layout::vector(3, Convention::Std430), Some(lay(16, 12)));
    assert_eq!(Layout::vector(3, Convention::Std140), Some(lay(16, 16)));
    assert_eq!(Layout::vector(4, Convention::Std430), Some(lay(16, 16)));
    assert_eq!(Layout::vector(4, Convention::Std140), Some(lay(16, 16)));
}

#[test]
fn unsupported_vector_arity() {
    assert_eq!(Layout::vector(0, Convention::Std430), None);
    assert_eq!(Layout::vector(1, Convention::Std430), None);
    assert_eq!(Layout::vector(5, Convention::Std140), None);
}

#[test]
fn float_array_differs_between_conventions() {
    let a430 = Layout::array(Layout::scalar(), 3, Convention::Std430).unwrap();
    let a140 = Layout::array(Layout::scalar(), 3, Convention::Std140).unwrap();
    assert_eq!(a430.size, 12);
    assert_eq!(a140.size, 48);
    assert_eq!(a430.alignment, 4);
    assert_eq!(a140.alignment, 16);
}

#[test]
fn vec3_array_same_in_both_conventions() {
    let v430 = Layout::vector(3, Convention::Std430).unwrap();
    let v140 = Layout::vector(3, Convention::Std140).unwrap();
    let a430 = Layout::array(v430, 3, Convention::Std430).unwrap();
    let a140 = Layout::array(v140, 3, Convention::Std140).unwrap();
    assert_eq!(a430, lay(16, 48));
    assert_eq!(a140, lay(16, 48));
}

#[test]
fn empty_array_has_no_size() {
    assert_eq!(
        Layout::array(Layout::scalar(), 0, Convention::Std140),
        Some(lay(16, 0))
    );
}

#[test]
fn array_size_overflow_is_refused() {
    assert_eq!(Layout::array(lay(1, usize::MAX), 2, Convention::Std430), None);
    assert_eq!(Layout::array(lay(8, usize::MAX), 1, Convention::Std430), None);
}

#[test]
fn matrix_layouts() {
    assert_eq!(Layout::matrix(2, 2, Convention::Std430), Some(lay(8, 16)));
    assert_eq!(Layout::matrix(2, 2, Convention::Std140), Some(lay(16, 32)));
    assert_eq!(Layout::matrix(3, 3, Convention::Std430), Some(lay(16, 48)));
    assert_eq!(Layout::matrix(3, 3, Convention::Std140), Some(lay(16, 48)));
    assert_eq!(Layout::matrix(4, 4, Convention::Std430), Some(lay(16, 64)));
    assert_eq!(Layout::matrix(4, 2, Convention::Std430), Some(lay(8, 32)));
    assert_eq!(Layout::matrix(2, 4, Convention::Std140), Some(lay(16, 32)));
}

#[test]
fn unsupported_matrix_shape() {
    assert_eq!(Layout::matrix(1, 3, Convention::Std430), None);
    assert_eq!(Layout::matrix(3, 5, Convention::Std140), None);
}

#[test]
fn point_light_structure() {
    let v3 = Layout::vector(3, Convention::Std430).unwrap();
    let s = Layout::structure(&[v3, v3, Layout::scalar()]).unwrap();
    assert_eq!(s, lay(16, 32));
}

#[test]
fn structure_rounds_to_its_alignment() {
    let v2 = Layout::vector(2, Convention::Std430).unwrap();
    // scalar at 0, vec2 at 8, scalar at 16: ends at 20, rounded to 24
    let s = Layout::structure(&[Layout::scalar(), v2, Layout::scalar()]).unwrap();
    assert_eq!(s, lay(8, 24));
    assert_eq!(s.size % s.alignment, 0);
}

#[test]
fn structure_as_array_element_and_field() {
    let v3 = Layout::vector(3, Convention::Std430).unwrap();
    let inner = Layout::structure(&[Layout::scalar(), v3]).unwrap();
    assert_eq!(inner, lay(16, 32));
    let arr = Layout::array(inner, 2, Convention::Std430).unwrap();
    assert_eq!(arr, lay(16, 64));
    let outer = Layout::structure(&[Layout::scalar(), inner, Layout::scalar()]).unwrap();
    assert_eq!(outer, lay(16, 64));
}

#[test]
fn empty_structure_is_refused() {
    assert_eq!(Layout::structure(&[]), None);
}

#[test]
fn structure_size_overflow_is_refused() {
    assert_eq!(
        Layout::structure(&[Layout::scalar(), lay(1, usize::MAX)]),
        None
    );
}

#[test]
fn sizes_are_multiples_of_alignment_where_repeated() {
    for conv in [Convention::Std430, Convention::Std140] {
        for n in 2..=4 {
            let v = Layout::vector(n, conv).unwrap();
            let a = Layout::array(v, 5, conv).unwrap();
            assert_eq!(a.size % a.alignment, 0);
            assert_eq!((a.size / 5) % v.alignment, 0);
            for c in 2..=4 {
                let m = Layout::matrix(c, n, conv).unwrap();
                assert_eq!(m.size % m.alignment, 0);
            }
        }
        let s = Layout::array(Layout::scalar(), 7, conv).unwrap();
        assert_eq!(s.size % s.alignment, 0);
    }
}

#[test]
fn layout_is_the_same_when_asked_twice() {
    for conv in [Convention::Std430, Convention::Std140] {
        assert_eq!(Layout::vector(3, conv), Layout::vector(3, conv));
        assert_eq!(Layout::matrix(3, 4, conv), Layout::matrix(3, 4, conv));
        let e = Layout::scalar();
        assert_eq!(Layout::array(e, 9, conv), Layout::array(e, 9, conv));
    }
    let f = [Layout::scalar(), lay(16, 12)];
    assert_eq!(Layout::structure(&f), Layout::structure(&f));
}
