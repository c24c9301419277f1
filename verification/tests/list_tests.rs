use linked_seq::list::LinkedList;

#[test]
fn create_numeric_list() {
    let mut list = LinkedList::<i32>::new();
    list.add(1);
    list.add(2);
    list.add(3);
    assert_eq!(3, list.length);
    assert_eq!(1, *list.get(0).unwrap());
    assert_eq!(2, *list.get(1).unwrap());
    assert_eq!(3, *list.get(2).unwrap());
}

#[test]
fn create_string_list() {
    let mut list_str = LinkedList::<String>::new();
    list_str.add("A".to_string());
    list_str.add("B".to_string());
    list_str.add("C".to_string());
    assert_eq!(3, list_str.length);
    assert_eq!("A", *list_str.get(0).unwrap());
    assert_eq!("B", *list_str.get(1).unwrap());
    assert_eq!("C", *list_str.get(2).unwrap());
}

#[test]
fn test_merge_linked_list_1() {
    let mut list_a = LinkedList::<i32>::new();
    let mut list_b = LinkedList::<i32>::new();
    let vec_a = vec![1, 3, 5, 7];
    let vec_b = vec![2, 4, 6, 8];
    let target_vec = vec![1, 2, 3, 4, 5, 6, 7, 8];

    for &num in &vec_a {
        list_a.add(num);
    }
    for &num in &vec_b {
        list_b.add(num);
    }

    let list_c = LinkedList::merge(list_a, list_b);
    for (i, &expected) in target_vec.iter().enumerate() {
        assert_eq!(expected, *list_c.get(i as i32).unwrap());
    }
}

#[test]
fn test_merge_linked_list_2() {
    let mut list_a = LinkedList::<i32>::new();
    let mut list_b = LinkedList::<i32>::new();
    let vec_a = vec![11, 33, 44, 88, 89, 90, 100];
    let vec_b = vec![1, 22, 30, 45];
    let target_vec = vec![1, 11, 22, 30, 33, 44, 45, 88, 89, 90, 100];

    for &num in &vec_a {
        list_a.add(num);
    }
    for &num in &vec_b {
        list_b.add(num);
    }

    let list_c = LinkedList::merge(list_a, list_b);
    for (i, &expected) in target_vec.iter().enumerate() {
        assert_eq!(expected, *list_c.get(i as i32).unwrap());
    }
}

#[test]
fn test_merge_empty_list() {
    let list_a = LinkedList::<i32>::new();
    let mut list_b = LinkedList::new();
    list_b.add(1);
    list_b.add(2);

    let merged = LinkedList::merge(list_a, list_b);
    assert_eq!(2, merged.length);
    assert_eq!(1, *merged.get(0).unwrap());
    assert_eq!(2, *merged.get(1).unwrap());
}

#[test]
fn get_out_of_range() {
    let mut list = LinkedList::<i32>::new();
    assert!(list.get(0).is_none());
    list.add(10);
    list.add(20);
    assert!(list.get(-1).is_none());
    assert!(list.get(2).is_none());
    assert!(list.get(100).is_none());
    assert_eq!(10, *list.get(0).unwrap());
    assert_eq!(20, *list.get(1).unwrap());
}

#[test]
fn append_preserves_existing() {
    let mut list = LinkedList::<i32>::new();
    list.add(7);
    list.add(8);
    assert_eq!(7, *list.get(0).unwrap());
    assert_eq!(8, *list.get(1).unwrap());
    list.add(9);
    assert_eq!(7, *list.get(0).unwrap());
    assert_eq!(8, *list.get(1).unwrap());
    assert_eq!(9, *list.get(2).unwrap());
    assert_eq!(3, list.length);
}

#[test]
fn merge_nonempty_with_empty() {
    let mut list_a = LinkedList::<i32>::new();
    list_a.add(4);
    list_a.add(6);
    let list_b = LinkedList::<i32>::new();
    let merged = LinkedList::merge(list_a, list_b);
    assert_eq!(2, merged.length);
    assert_eq!(4, *merged.get(0).unwrap());
    assert_eq!(6, *merged.get(1).unwrap());
}

#[test]
fn merge_empty_with_empty() {
    let list_a = LinkedList::<i32>::new();
    let list_b = LinkedList::<i32>::new();
    let merged = LinkedList::merge(list_a, list_b);
    assert_eq!(0, merged.length);
    assert!(merged.get(0).is_none());
}

#[test]
fn merge_keeps_duplicates() {
    let mut list_a = LinkedList::<i32>::new();
    list_a.add(2);
    list_a.add(2);
    list_a.add(3);
    let mut list_b = LinkedList::<i32>::new();
    list_b.add(2);
    let merged = LinkedList::merge(list_a, list_b);
    assert_eq!(4, merged.length);
    assert_eq!(2, *merged.get(0).unwrap());
    assert_eq!(2, *merged.get(1).unwrap());
    assert_eq!(2, *merged.get(2).unwrap());
    assert_eq!(3, *merged.get(3).unwrap());
}

#[test]
fn merge_string_lists() {
    let mut list_a = LinkedList::<String>::new();
    list_a.add("apple".to_string());
    list_a.add("pear".to_string());
    let mut list_b = LinkedList::<String>::new();
    list_b.add("fig".to_string());
    let merged = LinkedList::merge(list_a, list_b);
    assert_eq!(3, merged.length);
    assert_eq!("apple", *merged.get(0).unwrap());
    assert_eq!("fig", *merged.get(1).unwrap());
    assert_eq!("pear", *merged.get(2).unwrap());
}

#[derive(Clone, Copy, Debug)]
struct Tagged {
    key: i32,
    tag: u8,
}

impl PartialEq for Tagged {
    fn eq(&self, other: &Self) -> bool {
        self.key == other.key
    }
}

impl Eq for Tagged {}

impl PartialOrd for Tagged {
    fn partial_cmp(&self, other: &Self) -> Option<std::cmp::Ordering> {
        Some(self.cmp(other))
    }
}

impl Ord for Tagged {
    fn cmp(&self, other: &Self) -> std::cmp::Ordering {
        self.key.cmp(&other.key)
    }
}

#[test]
fn merge_is_stable_on_ties() {
    let mut list_a = LinkedList::<Tagged>::new();
    list_a.add(Tagged { key: 5, tag: 0 });
    let mut list_b = LinkedList::<Tagged>::new();
    list_b.add(Tagged { key: 5, tag: 1 });
    let merged = LinkedList::merge(list_a, list_b);
    assert_eq!(2, merged.length);
    assert_eq!(5, merged.get(0).unwrap().key);
    assert_eq!(0, merged.get(0).unwrap().tag);
    assert_eq!(5, merged.get(1).unwrap().key);
    assert_eq!(1, merged.get(1).unwrap().tag);
}
