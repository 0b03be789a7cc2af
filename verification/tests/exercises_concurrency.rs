//! Exercise tests carried over with the library: closures, trait
//! objects, shared ownership and interior mutability.

use std::cell::{Cell, RefCell};
use std::sync::Arc;

fn consume_with_relish<F>(func: F)
where
    F: FnOnce(u32) -> String,
{
    // func consumes its captured variables, so it cannot be run more than once
    println!("Consumed: {}", func(1));

    println!("Delicious");
}

#[test]
fn fn_once_test() {
    let x = String::from("x");
    let consume_and_return_x = move |_y| x;
    consume_with_relish(consume_and_return_x);

    // consume_and_return_x can no longer be invoked at this point
}

#[test]
fn hello_closure() {
    let x = 1;
    let sum = |y| x + y;
    assert_eq!(3, sum(2));
}

fn fn_once<F>(func: F)
where
    F: FnOnce(usize) -> bool + Copy,
{
    println!("{:?}", func(3));
    println!("{:?}", func(4));
}

#[test]
fn test_fn_once() {
    let x = vec![1, 2, 3];
    fn_once(|z| z == x.len());
}

#[test]
fn test_fn_mute() {
    let mut some_vec = vec![1, 2, 3, 4];

    let mut update_vec = || {
        some_vec.push(5);
    };

    update_vec();
    update_vec();

    println!("{:?}", some_vec);
}

#[test]
fn send_test() {}

struct Sheep {}

struct Cow {}

trait Animal {
    // Instance method signature
    fn noise(&self) -> &'static str;
}

impl Animal for Sheep {
    fn noise(&self) -> &'static str {
        "baaaaaah"
    }
}

impl Animal for Cow {
    fn noise(&self) -> &'static str {
        "moooooo"
    }
}

// Returns some struct that implements animal, but we don't know which one at compile time
fn random_animal(random_number: f64) -> Box<dyn Animal> {
    if random_number < 0.5 {
        Box::new(Sheep {})
    } else {
        Box::new(Cow {})
    }
}

#[test]
fn test_random_animal() {
    let random_number = 0.345;
    let animal = random_animal(random_number);
    println!("{}", animal.noise());
}

#[test]
fn test_arc_1() {
    let _foo = Arc::new(vec![1, 2, 3, 4]);
}

#[derive(Debug)]
struct Person {
    name: String,
    age: u32,
}

#[test]
fn test_mutability() {
    let mut person = Person {
        name: "casey".to_string(),
        age: 23,
    };

    println!("{:?}", person);
    person.age = 344;
    println!("{:?}", person);
}

#[derive(Debug)]
struct CellPerson {
    // a name is fixed at birth and not updated afterwards,
    // while the age changes every year, so it stays mutable
    name: String,
    age: Cell<u32>,
}

#[test]
fn test_cell_mutate() {
    let person = CellPerson {
        name: "casey".to_string(),
        age: Cell::new(21),
    };

    println!("{:?}", person);

    person.age.set(312);
    println!("{:?}", person);
    println!("{}", person.name);
}

#[derive(Debug)]
struct UserRecord {
    id: u32,
    year_registered: u32,
    username: String,
    active: RefCell<bool>,
}

#[test]
fn test_cell() {
    let record = UserRecord {
        id: 1,
        year_registered: 2029,
        username: "casey".to_string(),
        active: RefCell::new(true),
    };
    println!("{:?}", record.active);
    println!("{} {} {}", record.id, record.year_registered, record.username);
}

#[test]
fn test_1() {
    let b = Box::new(1);
    let k = &*b;
    println!("k = {}", k);
    assert_eq!(*k, 1);
}
