use std::sync::atomic::AtomicUsize;
use std::sync::atomic::Ordering;
use std::sync::Arc;

use mea::atomicbox::AtomicBox;
use mea::atomicbox::AtomicOptionBox;

#[test]
fn atomic_box_swap_works() {
    let mut b = AtomicBox::new(Box::new("hello world"));
    let bis = Box::new("bis");
    assert_eq!(b.swap(bis), Box::new("hello world"));
    assert_eq!(b.swap(Box::new("")), Box::new("bis"));
}

#[test]
fn atomic_box_store_works() {
    let mut b = AtomicBox::new(Box::new("hello world"));
    let bis = Box::new("bis");
    b.store(bis);
    assert_eq!(b.into_inner(), Box::new("bis"));
}

#[test]
fn atomic_box_swap_mut_works() {
    let mut b = AtomicBox::new(Box::new("hello world"));
    let mut bis = Box::new("bis");
    b.swap_mut(&mut bis);
    assert_eq!(bis, Box::new("hello world"));
    b.swap_mut(&mut bis);
    assert_eq!(bis, Box::new("bis"));
}

#[test]
fn atomic_box_pointer_identity() {
    let box1 = Box::new(1);
    let p1 = format!("{box1:p}");
    let mut atom = AtomicBox::new(box1);

    let box2 = Box::new(2);
    let p2 = format!("{box2:p}");
    assert_ne!(p2, p1);

    let box3 = atom.swap(box2); // box1 out, box2 in
    let p3 = format!("{box3:p}");
    assert_eq!(p3, p1); // box3 is box1

    let box4 = atom.swap(Box::new(5)); // box2 out, throwaway value in
    let p4 = format!("{box4:p}");
    assert_eq!(p4, p2); // box4 is box2
}

struct K(Arc<AtomicUsize>, usize);

impl Drop for K {
    fn drop(&mut self) {
        self.0.fetch_add(self.1, Ordering::Relaxed);
    }
}

#[test]
fn atomic_box_atomic_box_drops() {
    let n = Arc::new(AtomicUsize::new(0));
    {
        let mut ab = AtomicBox::new(Box::new(K(n.clone(), 5)));
        assert_eq!(n.load(Ordering::Relaxed), 0);
        let first = ab.swap(Box::new(K(n.clone(), 13)));
        assert_eq!(n.load(Ordering::Relaxed), 0);
        drop(first);
        assert_eq!(n.load(Ordering::Relaxed), 5);
    }
    assert_eq!(n.load(Ordering::Relaxed), 5 + 13);
}

#[test]
fn atomic_box_get_mut_writes_through() {
    let mut b = AtomicBox::new(Box::new(1));
    *b.get_mut() = 7;
    assert_eq!(b.into_inner(), Box::new(7));
}

#[test]
fn atomic_option_box_swap_works() {
    let mut b = AtomicOptionBox::new(Some(Box::new("hello world")));
    let bis = Box::new("bis");
    assert_eq!(b.swap(None), Some(Box::new("hello world")));
    assert_eq!(b.swap(Some(bis)), None);
    assert_eq!(b.swap(None), Some(Box::new("bis")));
}

#[test]
fn atomic_option_box_store_works() {
    let mut b = AtomicOptionBox::new(Some(Box::new("hello world")));
    b.store(None);
    assert_eq!(b.into_inner(), None);

    let mut b = AtomicOptionBox::new(Some(Box::new("hello world")));
    let bis = Box::new("bis");
    b.store(Some(bis));
    assert_eq!(b.into_inner(), Some(Box::new("bis")));
}

#[test]
fn atomic_option_box_swap_mut_works() {
    let mut b = AtomicOptionBox::new(Some(Box::new("hello world")));
    let mut bis = None;
    b.swap_mut(&mut bis);
    assert_eq!(bis, Some(Box::new("hello world")));
    bis = Some(Box::new("bis"));
    b.swap_mut(&mut bis);
    assert_eq!(bis, None);
    b.swap_mut(&mut bis);
    assert_eq!(bis, Some(Box::new("bis")));
}

#[test]
fn atomic_option_box_pointer_identity() {
    let box1 = Box::new(1);
    let p1 = format!("{:p}", &*box1);
    let mut atom = AtomicOptionBox::new(Some(box1));

    let box2 = Box::new(2);
    let p2 = format!("{:p}", &*box2);
    assert_ne!(p2, p1);

    let box3 = atom.swap(Some(box2)).unwrap(); // box1 out, box2 in
    let p3 = format!("{:p}", &*box3);
    assert_eq!(p3, p1); // box3 is box1

    let box4 = atom.swap(None).unwrap(); // box2 out, None in
    let p4 = format!("{:p}", &*box4);
    assert_eq!(p4, p2); // box4 is box2
}

#[test]
fn atomic_option_box_atomic_box_drops() {
    let n = Arc::new(AtomicUsize::new(0));
    {
        let mut ab = AtomicOptionBox::new(Some(Box::new(K(n.clone(), 5))));
        assert_eq!(n.load(Ordering::Relaxed), 0);
        let first = ab.swap(None);
        assert_eq!(n.load(Ordering::Relaxed), 0);
        drop(first);
        assert_eq!(n.load(Ordering::Relaxed), 5);
        let second = ab.swap(Some(Box::new(K(n.clone(), 13))));
        assert!(second.is_none());
        assert_eq!(n.load(Ordering::Relaxed), 5);
    }
    assert_eq!(n.load(Ordering::Relaxed), 5 + 13);
}

#[test]
fn atomic_option_box_take_empties() {
    let mut atom = AtomicOptionBox::new(Some(Box::new("ok")));
    let prev_value = atom.take();
    assert!(prev_value.is_some());
    let prev_value = atom.take();
    assert!(prev_value.is_none());
    let mut none = AtomicOptionBox::<u32>::none();
    assert!(none.get_mut().is_none());
    none.store(Some(Box::new(3)));
    *none.get_mut().unwrap() = 4;
    assert_eq!(none.into_inner(), Some(Box::new(4)));
}

#[test]
fn atomic_option_box_get_mut_writes_through() {
    let mut b = AtomicOptionBox::new(Some(Box::new(1)));
    *b.get_mut().unwrap() = 7;
    assert_eq!(b.into_inner(), Some(Box::new(7)));
    let mut e: AtomicOptionBox<u8> = AtomicOptionBox::none();
    assert!(e.get_mut().is_none());
}
