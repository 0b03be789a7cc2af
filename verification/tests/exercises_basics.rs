//! Exercise tests carried over with the library: iterator, collection
//! and conversion behaviour, and the `CommandPos` conversions.

use std::collections::{BTreeMap, VecDeque};
use std::cmp::Ordering;
use std::hash::{Hash, Hasher};
use std::ops::Range;
use std::path::PathBuf;

use kvs::CommandPos;

// `kvs` with no args should exit with a non-zero code.
#[test]
fn cli_no_args() {}

// `kvs -V` should print the version
#[test]
fn cli_version() {}

#[test]
fn basic_test_flat_map() {
    let nested_numbers = vec![vec![1, 2, 3], vec![4, 5]];

    // Using map (doesn't flatten)
    let mapped_numbers: Vec<_> = nested_numbers
        .iter()
        .map(|inner_list| {
            inner_list.iter().map(|num| *num * 2) // Double each number in the inner list
        })
        .collect(); // Collects as a vector of vectors

    // Using flat_map (flattens and transforms)
    let flat_numbers = nested_numbers
        .iter()
        .flat_map(|inner_list| inner_list.iter().map(|num| num * 2))
        .collect::<Vec<i32>>(); // Collects as a flat vector of numbers

    println!("Mapped (not flattened): {:?}", mapped_numbers);
    println!("Flattened: {:?}", flat_numbers);
}

#[test]
fn test_lib_api_test_flat_map() {
    let nested_numbers = vec![vec![1, 2, 3], vec![4, 5]];

    let mapped_numbers: Vec<_> = nested_numbers
        .iter()
        .map(|inner_list| inner_list.iter().map(|num| *num * 2))
        .collect();

    let flat_numbers = nested_numbers
        .iter()
        .flat_map(|inner_list| inner_list.iter().map(|num| num * 2))
        .collect::<Vec<i32>>();

    println!("Mapped (not flattened): {:?}", mapped_numbers);
    println!("Flattened: {:?}", flat_numbers);
}

#[derive(Debug)]
struct NumberFrom {
    value: i32,
}

impl From<i32> for NumberFrom {
    fn from(value: i32) -> Self {
        NumberFrom { value }
    }
}

#[test]
fn test_from_trait() {
    let x = 5;
    let num = NumberFrom::from(x);

    println!("{:?}", num);
}

#[derive(Debug)]
struct NumberInto {
    value: i32,
}

impl Into<NumberInto> for i32 {
    fn into(self) -> NumberInto {
        NumberInto { value: self }
    }
}

#[test]
fn test_into_trait() {
    let x = 5;
    let number: NumberInto = x.into();
    println!("{:?}", number);
}

#[test]
fn test_command_pos_from() {
    // (gen, pos..new_pos).into()
    let command_pos = CommandPos::from((3, Range { start: 1, end: 10 }));

    println!("{:?}", command_pos);
}

#[test]
fn test_command_pos_into() {
    let command_pos: CommandPos = (2, Range { start: 0, end: 7 }).into();

    println!("{:?}", command_pos);

    let command_pos: CommandPos = (3, 34..67).into();
    println!("{:?}", command_pos);
}

#[test]
fn collections_exerciese_test_iterator() {
    let vec = vec![1, 2, 3, 4];

    for x in vec.iter() {
        println!("vec contained {x:?}");
    }

    let mut vec = vec![1, 2, 3, 4];

    for x in vec.iter_mut() {
        *x += 1
    }
    println!("{:?}", vec);
}

#[test]
fn test_into_iter() {
    let mut vec1 = vec![1, 2, 3, 4];
    let vec2 = vec![10, 20, 30, 40];

    vec1.extend(vec2);

    let vec = vec![1, 2, 3, 4];
    let _buf = vec.into_iter().collect::<VecDeque<_>>();
}

#[derive(Debug)]
struct Foo {
    a: u32,
    b: &'static str,
}

impl PartialEq for Foo {
    fn eq(&self, other: &Self) -> bool {
        self.a == other.a
    }
}

impl Eq for Foo {}

impl Hash for Foo {
    fn hash<H: Hasher>(&self, state: &mut H) {
        self.a.hash(state)
    }
}

impl PartialOrd for Foo {
    fn partial_cmp(&self, other: &Self) -> Option<Ordering> {
        self.a.partial_cmp(&other.a)
    }
}

impl Ord for Foo {
    fn cmp(&self, other: &Self) -> Ordering {
        self.a.cmp(&other.a)
    }
}

#[test]
fn test_map_insert_complex_key() {
    let mut map = BTreeMap::new();

    map.insert(Foo { a: 1, b: "baz" }, 99);

    map.insert(Foo { a: 1, b: "xyz" }, 100);

    assert_eq!(map.values().next().unwrap(), &100);

    assert_eq!(map.keys().next().unwrap().b, "baz");
}

#[test]
fn test_lib_api_test_into_path_buf() {
    let mut path_buf = PathBuf::new();
    path_buf.push("..");
}

#[test]
fn test_vec_last_unwrap_or() {
    let v: Vec<i32> = vec![];

    let last = v.last().unwrap_or(&-1);

    println!("{}", last);
}

#[test]
fn test_i32_into() {
    let x = 34_i16;

    let _x1: i32 = x.into();
}

#[test]
fn test_btree_map() {
    let mut map = BTreeMap::new();
    map.insert(3, "hello".to_string());
    map.insert(2, "world".to_string());

    for value in map.values_mut() {
        // iterate order is the order of key
        println!("{}", value);
        value.push_str("!");
    }
}

#[test]
fn test_range() {
    let range = 1..4;
    let sum: i32 = range.sum();
    println!("{:?}", sum);
}

#[test]
fn test_closure_specify_return_type() {
    let _f1 = |x: i32| -> String { x.to_string() };
}

#[test]
fn test_map() {
    let data = vec![1, 2, 3, 4];
    let _result = data.iter().map(|item| *item * 2).collect::<Vec<_>>();
}
