use half::f16;
use llm_service::topk::{order_key, topk, topk_row};

#[test]
fn test_topk() {
    let r = 2;
    let k = 2;
    let n = 8;
    let arr = [
        0., 2., 0., 0., 0., 0., 1., 0., 3., 0., 0., 0., 4., 0., 0., 0.,
    ];
    let src = arr
        .iter()
        .map(|x| f16::from_f32(*x as f32).to_bits())
        .collect::<Vec<_>>();
    let (weights, indices) = topk(&src, r, n, k);
    let weights = weights.into_iter().map(f16::from_bits).collect::<Vec<_>>(); // [2., 1., 4., 3.]
    assert_eq!(weights.len(), r * k);
    assert_eq!(indices.len(), r * k);
    assert_eq!(weights[0], f16::from_f64(2.));
    assert_eq!(indices[0], 1);
    assert_eq!(weights[1], f16::from_f64(1.));
    assert_eq!(indices[1], 6);
    assert_eq!(weights[2], f16::from_f64(4.));
    assert_eq!(indices[2], 4);
    assert_eq!(weights[3], f16::from_f64(3.));
    assert_eq!(indices[3], 0);
}

#[test]
fn order_key_is_the_total_order() {
    let samples = [
        f16::NEG_INFINITY,
        f16::MIN,
        f16::NEG_ONE,
        -f16::MAX_SUBNORMAL,
        f16::NEG_ZERO,
        f16::ZERO,
        f16::MAX_SUBNORMAL,
        f16::MIN_POSITIVE,
        f16::ONE,
        f16::MAX,
        f16::INFINITY,
        f16::NAN,
        -f16::NAN,
    ];
    for a in samples {
        for b in samples {
            assert_eq!(
                order_key(a.to_bits()).cmp(&order_key(b.to_bits())),
                a.total_cmp(&b),
                "{a:?} against {b:?}"
            );
        }
    }
    assert_eq!(order_key(0x0000), 0);
    assert_eq!(order_key(0x7fff), 32767);
    assert_eq!(order_key(0x8000), -1);
    assert_eq!(order_key(0xffff), -32768);
}

#[test]
fn order_key_agrees_with_the_total_order_on_every_pattern_against_one() {
    for bits in 0..=u16::MAX {
        let one = f16::ONE;
        assert_eq!(
            order_key(bits).cmp(&order_key(one.to_bits())),
            f16::from_bits(bits).total_cmp(&one)
        );
    }
}

#[test]
fn topk_row_takes_the_largest_first() {
    let line: Vec<u16> = [0.5f32, -1.0, 8.0, 2.0, -0.25]
        .iter()
        .map(|x| f16::from_f32(*x).to_bits())
        .collect();
    let (w, i) = topk_row(&line, 3);
    assert_eq!(i, vec![2, 3, 0]);
    assert_eq!(w, vec![line[2], line[3], line[0]]);
    let (w, i) = topk_row(&line, 5);
    assert_eq!(i, vec![2, 3, 0, 4, 1]);
    assert_eq!(w.len(), 5);
    let (w, i) = topk_row(&line, 0);
    assert!(w.is_empty() && i.is_empty());
}

#[test]
fn topk_row_ranks_negative_zero_below_zero() {
    let line = [f16::NEG_ZERO.to_bits(), f16::ZERO.to_bits()];
    let (w, i) = topk_row(&line, 1);
    assert_eq!(i, vec![1]);
    assert_eq!(w, vec![0]);
}

#[test]
fn topk_of_no_rows() {
    let (w, i) = topk(&[], 0, 8, 2);
    assert!(w.is_empty() && i.is_empty());
    let (w, i) = topk(&[1, 2, 3, 4], 2, 2, 0);
    assert!(w.is_empty() && i.is_empty());
}
