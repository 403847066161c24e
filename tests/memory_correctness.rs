use std::cell::Cell;
use std::rc::Rc;

use compact_vecmap::VecMap;

const LIVE_VALUE: u64 = 0x123456789ABCDEF;
const DEAD_VALUE: u64 = 0xFEDCBA987654321;

struct Foo(u64, Rc<Cell<usize>>);

impl Drop for Foo {
    fn drop(&mut self) {
        assert_eq!(self.0, LIVE_VALUE);
        self.0 = DEAD_VALUE;
        self.1.set(self.1.get() + 1);
    }
}

#[test]
fn drain() {
    let deallocs = Rc::new(Cell::new(0usize));

    let mut map = VecMap::new();
    map.add(Foo(LIVE_VALUE, deallocs.clone()));
    map.add(Foo(LIVE_VALUE, deallocs.clone()));
    map.add(Foo(LIVE_VALUE, deallocs.clone()));
    map.add(Foo(LIVE_VALUE, deallocs.clone()));
    map.add(Foo(LIVE_VALUE, deallocs.clone()));

    assert_eq!(deallocs.get(), 0);

    {
        let mut iter = map.drain().into_iter();
        for _ in iter.by_ref().take(2) {}

        assert_eq!(deallocs.get(), 2);

        for _ in iter.by_ref().take(1) {}

        assert_eq!(deallocs.get(), 3);

        drop(iter);

        assert_eq!(deallocs.get(), 5);
    }

    assert_eq!(map.len(), 0);
    drop(map);
    assert_eq!(deallocs.get(), 5);
}

#[test]
fn clear_drops_each_value_once() {
    let deallocs = Rc::new(Cell::new(0usize));
    let mut map = VecMap::new();
    for _ in 0..4 {
        map.add(Foo(LIVE_VALUE, deallocs.clone()));
    }
    map.remove(2);
    assert_eq!(deallocs.get(), 1);
    map.clear();
    assert_eq!(deallocs.get(), 4);
    assert!(map.is_empty());
    drop(map);
    assert_eq!(deallocs.get(), 4);
}

#[test]
fn drop_of_map_drops_live_values_once() {
    let deallocs = Rc::new(Cell::new(0usize));
    let mut map = VecMap::new();
    map.insert(3, Foo(LIVE_VALUE, deallocs.clone()));
    map.insert(9, Foo(LIVE_VALUE, deallocs.clone()));
    let replaced = map.insert(3, Foo(LIVE_VALUE, deallocs.clone()));
    assert_eq!(deallocs.get(), 0);
    drop(replaced);
    assert_eq!(deallocs.get(), 1);
    drop(map);
    assert_eq!(deallocs.get(), 3);
}
