use tearchan::component::Component;
use tearchan::group::{ComponentGroup, ComponentGroupDeserializableData, ComponentGroupError};
use tearchan::zip::{ZipEntity1, ZipEntity2};

struct Inner(&'static str);

#[test]
fn test_len() {
    let mut group: ComponentGroup<Inner> = ComponentGroup::default();
    assert_eq!(group.len(), 0);

    group.push(1, Inner("ex1"));
    group.push(2, Inner("ex2"));
    group.push(3, Inner("ex3"));
    group.push(4, Inner("ex4"));

    assert_eq!(group.len(), 4);
}

#[test]
fn test_is_empty() {
    let mut group: ComponentGroup<Inner> = ComponentGroup::default();
    assert!(group.is_empty());

    group.push(1, Inner("ex1"));

    assert!(!group.is_empty());
}

#[test]
fn test_remove() {
    let mut group: ComponentGroup<Inner> = ComponentGroup::default();
    group.push(1, Inner("ex1"));
    group.push(2, Inner("ex2"));
    group.push(3, Inner("ex3"));
    group.push(4, Inner("ex4"));

    assert_eq!(group.len(), 4);

    assert!(group.remove(2).is_some());

    assert_eq!(group.len(), 3);

    assert!(group.remove(2).is_none());
    assert!(group.remove(5).is_none());
}

#[test]
fn group_test_iter() {
    let mut group: ComponentGroup<Inner> = ComponentGroup::default();
    group.push(1, Inner("ex1"));
    group.push(2, Inner("ex2"));
    group.push(3, Inner("ex3"));
    group.push(4, Inner("ex4"));

    let mut iter = group.iter();
    assert_eq!(iter.next().unwrap().1 .0, "ex1");
    assert_eq!(iter.next().unwrap().1 .0, "ex2");
    assert_eq!(iter.next().unwrap().1 .0, "ex3");
    assert_eq!(iter.next().unwrap().1 .0, "ex4");
}

#[test]
fn group_test_zip() {
    let mut group1: ComponentGroup<Inner> = ComponentGroup::default();
    let mut group2: ComponentGroup<Inner> = ComponentGroup::default();
    let mut group3: ComponentGroup<Inner> = ComponentGroup::default();

    group1.push(1, Inner("ex1"));
    group1.push(2, Inner("ex2"));

    group2.push(1, Inner("ex1"));
    group2.push(2, Inner("ex2"));

    group3.push(1, Inner("ex1"));
    group3.push(2, Inner("ex2"));

    let mut counter = 0;
    let entities = ZipEntity2::new(&group2, &group3);
    let mut iter = group1.iter().zip_entities(&entities);
    while let Some((_, component1, (component2, component3))) = iter.next() {
        counter += 1;
        assert_eq!(component1.0, component2.0);
        assert_eq!(component2.0, component3.0);
    }

    assert_eq!(counter, 2);
}

#[test]
fn test_iter_with_removing() {
    let mut group = ComponentGroup::default();
    group.push(0, 10);
    group.push(1, 11);
    group.push(2, 12);
    group.push(3, 13);
    group.remove(3);

    let mut iter = group.iter();
    assert_eq!(iter.next(), Some((0, &10)));
    assert_eq!(iter.next(), Some((1, &11)));
    assert_eq!(iter.next(), Some((2, &12)));
    assert_eq!(iter.next(), None);

    let mut iter = group.iter_mut();
    assert_eq!(iter.next(), Some((0, &mut 10)));
    assert_eq!(iter.next(), Some((1, &mut 11)));
    assert_eq!(iter.next(), Some((2, &mut 12)));
    assert_eq!(iter.next(), None);
}

#[test]
fn group_remove_moves_last_into_place() {
    let mut group = ComponentGroup::default();
    group.push(1, 10);
    group.push(2, 20);
    group.push(3, 30);
    assert_eq!(group.remove(1), Some(10));
    let mut iter = group.iter();
    assert_eq!(iter.next(), Some((3, &30)));
    assert_eq!(iter.next(), Some((2, &20)));
    assert_eq!(iter.next(), None);
    assert_eq!(group.get(3), Some(&30));
    assert_eq!(group.get(1), None);
}

#[test]
fn group_get_after_push_and_remove() {
    let mut group = ComponentGroup::default();
    group.push(7, "seven");
    group.push(9, "nine");
    assert_eq!(group.get(7), Some(&"seven"));
    assert_eq!(group.get(9), Some(&"nine"));
    assert_eq!(group.get(8), None);
    group.remove(7);
    assert_eq!(group.get(7), None);
    assert_eq!(group.get(9), Some(&"nine"));
    assert_eq!(group.len(), 1);
}

#[test]
fn group_get_mut_writes_back() {
    let mut group = ComponentGroup::default();
    group.push(1, 5);
    *group.get_mut(1).unwrap() += 3;
    assert_eq!(group.get(1), Some(&8));
    *group.entity_mut(1) = 2;
    assert_eq!(*group.entity(1), 2);
    assert!(group.get_mut(4).is_none());
}

#[test]
fn group_errors_name_the_entity() {
    let mut group: ComponentGroup<i32> = ComponentGroup::default();
    group.push(1, 5);
    match group.get_with_err(3) {
        Err(ComponentGroupError::NotFoundEntity { id }) => assert_eq!(id, 3),
        Ok(_) => panic!("entity 3 has no component"),
    }
    match group.get_mut_with_err(4) {
        Err(ComponentGroupError::NotFoundEntity { id }) => assert_eq!(id, 4),
        Ok(_) => panic!("entity 4 has no component"),
    }
    assert_eq!(*group.get_with_err(1).unwrap(), 5);
}

#[test]
fn group_remove_all_empties() {
    let mut group = ComponentGroup::default();
    group.push(1, 1);
    group.push(2, 2);
    group.remove_all();
    assert!(group.is_empty());
    assert_eq!(group.len(), 0);
    assert_eq!(group.get(1), None);
}

#[test]
fn group_data_round_trip() {
    let mut group = ComponentGroup::default();
    group.push(0, 100);
    group.push(1, 101);
    group.push(2, 102);
    group.push(3, 103);
    group.remove(3);

    let data = group.to_data();
    let components: Vec<Component<i32>> = data
        .components
        .iter()
        .map(|c| Component::new(c.entity_id(), *c.inner()))
        .collect();
    let mut loaded = ComponentGroup::default();
    loaded.load_data(ComponentGroupDeserializableData { components });
    assert_eq!(loaded.get(0), Some(&100));
    assert_eq!(loaded.get(1), Some(&101));
    assert_eq!(loaded.get(2), Some(&102));
    assert!(loaded.get(3).is_none());
    assert_eq!(group.debug().0.len(), 3);
}

#[test]
fn group_zip_mut_skips_missing() {
    let mut group1 = ComponentGroup::default();
    let mut group2 = ComponentGroup::default();
    group1.push(1, 1);
    group1.push(2, 2);
    group1.push(3, 3);
    group2.push(3, 30);
    group2.push(1, 10);
    {
        let other = ZipEntity1::new(&group2);
        let mut iter = group1.iter_mut().zip_entities_mut(&other);
        while let Some((_, value, other)) = iter.next() {
            *value += *other;
        }
    }
    assert_eq!(group1.get(1), Some(&11));
    assert_eq!(group1.get(2), Some(&2));
    assert_eq!(group1.get(3), Some(&33));
}

#[test]
fn group_zip_mut_doubles() {
    let mut group1: ComponentGroup<i32> = ComponentGroup::default();
    let mut group2: ComponentGroup<i32> = ComponentGroup::default();
    group1.push(1, 32);
    group2.push(1, 64);
    group1.push(2, 12);
    group2.push(2, 24);
    group1.push(3, 45);
    group2.push(3, 90);
    group1.push(4, 67);
    group2.push(4, 134);
    {
        let other = ZipEntity1::new(&group2);
        let mut iter = group1.iter_mut().zip_entities_mut(&other);
        while let Some((_, a, b)) = iter.next() {
            *a = *b * 2;
        }
    }
    assert_eq!(group1.get(1), Some(&128));
    assert_eq!(group1.get(2), Some(&48));
    assert_eq!(group1.get(3), Some(&180));
    assert_eq!(group1.get(4), Some(&268));
    assert_eq!(group2.get(1), Some(&64));
    assert_eq!(group2.get(2), Some(&24));
    assert_eq!(group2.get(3), Some(&90));
    assert_eq!(group2.get(4), Some(&134));
}

#[test]
fn component_accessors() {
    let mut c = Component::new(4, 8);
    assert_eq!(c.entity_id(), 4);
    *c.inner_mut() = 9;
    assert_eq!(*c.inner(), 9);
    assert_eq!(c.into_inner(), 9);
}

#[test]
fn group_history_decides_get() {
    let mut group: ComponentGroup<i32> = ComponentGroup::default();
    group.push(1, 10);
    group.push(2, 20);
    group.push(3, 30);
    group.remove(2);
    group.push(2, 21);
    group.remove(1);
    assert_eq!(group.get(1), None);
    assert_eq!(group.get(2), Some(&21));
    assert_eq!(group.get(3), Some(&30));
    group.remove_all();
    group.push(4, 40);
    group.load_data(ComponentGroupDeserializableData {
        components: vec![Component::new(5, 50), Component::new(3, 31)],
    });
    assert_eq!(group.get(2), None);
    assert_eq!(group.get(3), Some(&31));
    assert_eq!(group.get(4), Some(&40));
    assert_eq!(group.get(5), Some(&50));
    let mut seen: Vec<(u64, i32)> = Vec::new();
    let mut iter = group.iter();
    while let Some((id, v)) = iter.next() {
        seen.push((id, *v));
    }
    seen.sort();
    assert_eq!(seen, vec![(3, 31), (4, 40), (5, 50)]);
}

#[test]
fn group_zip2_yields_entities_held_by_both() {
    let mut base: ComponentGroup<i32> = ComponentGroup::default();
    let mut g2: ComponentGroup<i32> = ComponentGroup::default();
    let mut g3: ComponentGroup<&'static str> = ComponentGroup::default();
    base.push(1, 1);
    base.push(2, 2);
    base.push(3, 3);
    g2.push(1, 10);
    g2.push(3, 30);
    g3.push(3, "three");
    g3.push(2, "two");
    let other = ZipEntity2::new(&g2, &g3);
    let mut items: Vec<(u64, i32, i32, &str)> = Vec::new();
    let mut iter = base.iter().zip_entities(&other);
    while let Some((id, a, (b, c))) = iter.next() {
        items.push((id, *a, *b, *c));
    }
    assert_eq!(items, vec![(3, 3, 30, "three")]);
}
