//! Exercise tests carried over with the library: reference conversions,
//! iterators as traits, and error-cause plumbing.

#[test]
fn test_sled_db() -> Result<(), kvs::KvsError> {
    Ok(())
}

fn is_hello<T: AsRef<str>>(s: T) {
    assert_eq!("hello", s.as_ref());
}

#[test]
fn sled_test_as_ref() {
    let x = Box::new(5i32);
    let y = x.as_ref();
    let z: &i32 = &x;

    assert_eq!(y, z);

    let s = "hello";
    is_hello(s);

    let s = "hello".to_string();
    is_hello(s);
}

#[derive(Default)]
struct User {
    email: String,
    age: u8,
}

// obviously
impl AsRef<User> for User {
    fn as_ref(&self) -> &User {
        self
    }
}

enum Privilege {
    // imagine different moderator privileges here
}

#[derive(Default)]
struct Moderator {
    user: User,
    privileges: Vec<Privilege>,
}

impl AsRef<User> for Moderator {
    fn as_ref(&self) -> &User {
        &self.user
    }
}

fn takes_user(user: &User) {
    let _ = (&user.email, user.age);
}

fn takes_user_as_ref<U: AsRef<User>>(user: U) {
    let _ = user.as_ref();
}

#[test]
fn test_ref() {
    let user = User::default();
    let moderator = Moderator::default();

    takes_user(&user);

    takes_user_as_ref(&user);
    takes_user_as_ref(&moderator);
}

#[test]
fn test_cause() {}

#[test]
fn test_tcp_peer_addr() {}

#[test]
fn test_vec_macro() {
    let my_vec = vec![1, 2, 3, 4];
    println!("{:?}", my_vec);

    let my_vec = vec!["hello", "world"];

    println!["{:?}", my_vec];
}

struct Fibonacci {
    curr: u32,
    next: u32,
}

impl Iterator for Fibonacci {
    type Item = u32;
    fn next(&mut self) -> Option<Self::Item> {
        let current = self.curr;

        self.curr = self.next;
        self.next = current + self.next;

        Some(current)
    }
}

fn fibonacci() -> Fibonacci {
    Fibonacci { curr: 0, next: 1 }
}

#[test]
fn lib_api_test_iterator() {
    let mut sequence = 0..3;

    println!("{:?}", sequence.next());
    println!("{:?}", sequence.next());
    println!("{:?}", sequence.next());
    println!("{:?}", sequence.next());
    println!("{:?}", sequence.next());

    for x in fibonacci().take(4) {
        println!("{}", x);
    }

    for x in fibonacci().skip(4).take(4) {
        println!("{}", x);
    }

    for x in fibonacci().take(20).into_iter() {
        println!("{}", x);
    }

    let array = [1, 3, 4, 6, 3];
    for x in array.into_iter() {
        println!("{}", x);
    }
}
