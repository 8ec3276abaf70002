use natset::inner::{Inner, Iter};
use natset::owned::Owned;

#[test]
fn ones_ordered() {
    let mut forward = Iter::new(Inner::MAX);
    let mut list_1 = Vec::new();
    while let Some(position) = forward.next() {
        list_1.push(position);
    }
    let mut backward = Iter::new(Inner::MAX);
    let mut list_2 = Vec::new();
    while let Some(position) = backward.next_back() {
        list_2.push(position);
    }
    list_2.reverse();
    assert!(list_1 == list_2, "list should be equal from both sides");
}

#[test]
fn values_iteration() {
    let mut set = Owned::new();
    let mut list = Vec::new();

    for index in 0..10 {
        let value = 2_usize.pow(index);

        set.grow_insert(value);
        list.push(value);
    }

    assert!(
        set.ascending().to_vec() == list,
        "ascending list should be ordered"
    );

    let mut reversed = list.clone();
    reversed.reverse();
    assert!(
        set.descending().to_vec() == reversed,
        "descending list should be ordered"
    );
}

#[test]
fn bulk_operation() {
    let mut set = Owned::new();

    set.grow_insert_all(30, 300);

    assert!(
        (30..300).collect::<Vec<usize>>() == set.ascending().to_vec(),
        "insertion should have succeeded"
    );

    set.remove_all(60, 240).unwrap();

    assert!(
        (30..60).chain(240..300).collect::<Vec<usize>>() == set.ascending().to_vec(),
        "insertion should have succeeded"
    );
}
