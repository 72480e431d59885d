use step_perf::primitives::elem::Bufferizable;
use step_perf::primitives::select::{IndexN, MultiHotN, SelectAdapter};

#[test]
fn test_one_hot() {
    let one_hot_a: MultiHotN = MultiHotN::new(vec![false, true], false);
    let one_hot_b: MultiHotN = MultiHotN::new(vec![false, true, true], false);
    let one_hot_c: MultiHotN = MultiHotN::new(
        vec![
            false, true, true, false, false, false, false, false, false, false, false, false,
            false, false, false, false,
        ],
        false,
    );

    assert!(one_hot_a.to_sel_vec() == vec![1usize]);
    assert!(one_hot_b.to_sel_vec() == vec![1usize, 2usize]);
    assert!(one_hot_c.to_sel_vec() == vec![1usize, 2usize]);

    assert!(one_hot_a.dam_size() == 64);
    assert!(one_hot_b.dam_size() == 64);
    assert!(one_hot_c.dam_size() == 64);

    println!("{:?}", one_hot_a);
    println!("{:?}", one_hot_b);
    println!("{:?}", one_hot_c);
}

#[test]
fn test_index_list() {
    let index_a: IndexN = IndexN::new(vec![Some(1), Some(2)], false);
    let index_b: IndexN = IndexN::new(vec![Some(1), None], false);
    let index_c: IndexN = IndexN::new(vec![Some(1), Some(2), Some(3)], false);
    let index_d: IndexN = IndexN::new(
        vec![Some(0), Some(1), Some(2), Some(11), Some(20), Some(21)],
        false,
    );

    assert!(index_a.to_sel_vec() == vec![1usize, 2usize]);
    assert!(index_b.to_sel_vec() == vec![1usize]);
    assert!(index_c.to_sel_vec() == vec![1, 2, 3]);
    assert!(index_d.to_sel_vec() == vec![0, 1, 2, 11, 20, 21]);

    assert!(index_a.dam_size() == 64);
    assert!(index_b.dam_size() == 64);
    assert!(index_c.dam_size() == 64);
    assert!(index_d.dam_size() == 64);

    println!("{:?}", index_a);
    println!("{:?}", index_b);
    println!("{:?}", index_c);
    println!("{:?}", index_d);
}

#[test]
fn test_from_sel_vec() {
    // Test MultiHotN from_sel_vec
    let sel_vec = vec![1, 3, 5];
    let multi_hot = MultiHotN::from_sel_vec(sel_vec.clone(), 8, false);
    assert_eq!(multi_hot.to_sel_vec(), sel_vec);
    assert_eq!(multi_hot.len(), 8);
    assert_eq!(multi_hot.as_vec()[1], true);
    assert_eq!(multi_hot.as_vec()[3], true);
    assert_eq!(multi_hot.as_vec()[5], true);
    assert_eq!(multi_hot.as_vec()[0], false);
    assert_eq!(multi_hot.as_vec()[2], false);
    assert_eq!(multi_hot.as_vec()[4], false);

    // Test IndexN from_sel_vec
    let index_n = IndexN::from_sel_vec(sel_vec.clone(), 8, false);
    assert_eq!(index_n.to_sel_vec(), sel_vec);
    assert_eq!(index_n.len(), 3);
    assert_eq!(index_n.as_vec()[0], Some(1));
    assert_eq!(index_n.as_vec()[1], Some(3));
    assert_eq!(index_n.as_vec()[2], Some(5));

    // Test empty selection
    let empty_sel: Vec<usize> = vec![];
    let empty_multi_hot = MultiHotN::from_sel_vec(empty_sel.clone(), 4, true);
    let empty_index = IndexN::from_sel_vec(empty_sel.clone(), 4, true);

    assert_eq!(empty_multi_hot.to_sel_vec(), empty_sel);
    assert_eq!(empty_index.to_sel_vec(), empty_sel);
    assert_eq!(empty_multi_hot.read_from_mu(), true);
    assert_eq!(empty_index.read_from_mu(), true);
}

#[test]
fn multi_hot_sizes_and_flag_update() {
    let m = MultiHotN::new(vec![true, false, true], true);
    assert_eq!(m.size_in_bytes(), 3);
    let n = m.clone_with_updated_read_from_mu(false);
    assert_eq!(n.read_from_mu(), false);
    assert_eq!(n.to_sel_vec(), vec![0, 2]);
    let i = IndexN::new(vec![Some(4), None, Some(2)], false);
    assert_eq!(i.size_in_bytes(), 24);
    assert_eq!(i.to_sel_vec(), vec![4, 2]);
}
