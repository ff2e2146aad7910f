//! Key paths: the bounded sequence of keys that leads from the root of a
//! rendered tree to one of its nodes.

use vstd::prelude::*;
use vstd::std_specs::cmp::PartialEqSpecImpl;

verus! {

/// The largest number of keys a path can hold.
pub const KEY_CAPACITY: usize = 32;

/// A path of keys, root first. It is a plain value: pushing a key yields a
/// new path and leaves the old one as it was.
///
/// Only the first `size` slots of `stack` belong to the path; what the other
/// slots hold is of no account.
#[derive(Debug, Copy, Clone)]
pub struct Keys {
    pub size: u32,
    pub stack: [u32; 32],
}

impl View for Keys {
    type V = Seq<u32>;

    /// The keys of the path, root first.
    open spec fn view(&self) -> Seq<u32> {
        self.stack@.take(
            if self.size <= 32 {
                self.size as int
            } else {
                32
            },
        )
    }
}

impl Keys {
    /// The empty path.
    pub fn new() -> (keys: Keys)
        ensures
            keys@ == Seq::<u32>::empty(),
    {
        let keys = Keys { size: 0, stack: [0u32; 32] };
        assert(keys@ =~= Seq::<u32>::empty());
        keys
    }

    /// A path from its raw parts: the first `size` slots of `stack`, or all of
    /// them where `size` is beyond the capacity.
    pub fn from_raw(size: u32, stack: [u32; 32]) -> (keys: Keys)
        ensures
            keys@ == stack@.take(
                if size <= 32 {
                    size as int
                } else {
                    32
                },
            ),
    {
        Keys { size, stack }
    }

    /// The number of keys in the path.
    pub fn len(&self) -> (n: usize)
        ensures
            n == self@.len(),
            n <= KEY_CAPACITY,
    {
        if self.size <= 32 {
            self.size as usize
        } else {
            32
        }
    }

    /// Whether the path holds no key.
    pub fn is_empty(&self) -> (b: bool)
        ensures
            b == (self@.len() == 0),
    {
        self.len() == 0
    }

    /// Whether no further key can be pushed.
    pub fn is_full(&self) -> (b: bool)
        ensures
            b == (self@.len() == KEY_CAPACITY),
    {
        self.len() == 32
    }

    /// The key at position `index`, counted from the root.
    pub fn get(&self, index: usize) -> (key: Option<u32>)
        ensures
            index < self@.len() ==> key == Some(self@[index as int]),
            index >= self@.len() ==> key is None,
    {
        if index < self.len() {
            Some(self.stack[index])
        } else {
            None
        }
    }

    /// The path extended by `key`. The path must have room for it.
    pub fn push(&self, key: u32) -> (keys: Keys)
        requires
            self@.len() < KEY_CAPACITY,
        ensures
            keys@ == self@.push(key),
    {
        let mut stack = self.stack;
        stack[self.size as usize] = key;
        let keys = Keys { size: self.size + 1, stack };
        assert(keys@ =~= self@.push(key));
        keys
    }

    /// The path extended by `key`, or `None` where the path is full.
    pub fn try_push(&self, key: u32) -> (keys: Option<Keys>)
        ensures
            self@.len() < KEY_CAPACITY ==> keys is Some && keys->0@ == self@.push(key),
            self@.len() >= KEY_CAPACITY ==> keys is None,
    {
        if self.len() < 32 {
            Some(self.push(key))
        } else {
            None
        }
    }

    /// The path of a child: extended by the child's key where it has one, and
    /// unchanged where it has none.
    pub fn child(&self, key: Option<u32>) -> (keys: Keys)
        requires
            key is Some ==> self@.len() < KEY_CAPACITY,
        ensures
            keys@ == child_path(self@, key),
    {
        match key {
            Some(k) => self.push(k),
            None => {
                let keys = *self;
                keys
            },
        }
    }

    /// An iterator-like cursor over the keys, root first.
    pub fn into_iter(self) -> (iter: KeyIter)
        ensures
            iter@ == self@,
    {
        let iter = KeyIter { keys: self, position: 0 };
        assert(iter@ =~= self@);
        iter
    }
}

/// The path of a node with key `key` whose parent has the path `keys`.
pub open spec fn child_path(keys: Seq<u32>, key: Option<u32>) -> Seq<u32> {
    match key {
        Some(k) => keys.push(k),
        None => keys,
    }
}

impl PartialEq for Keys {
    /// Two paths are equal when they hold the same keys in the same order.
    fn eq(&self, other: &Keys) -> (r: bool) {
        let n = self.len();
        if n != other.len() {
            return false;
        }
        let mut i: usize = 0;
        while i < n
            invariant
                n == self@.len(),
                n == other@.len(),
                i <= n,
                forall|j: int| 0 <= j < i ==> self@[j] == other@[j],
            decreases n - i,
        {
            if self.stack[i] != other.stack[i] {
                assert(self@[i as int] != other@[i as int]);
                return false;
            }
            i += 1;
        }
        assert(self@ =~= other@);
        true
    }
}

impl Eq for Keys {

}

impl PartialEqSpecImpl for Keys {
    open spec fn obeys_eq_spec() -> bool {
        true
    }

    open spec fn eq_spec(&self, other: &Keys) -> bool {
        self@ == other@
    }
}

/// A cursor over the keys of a path, root first.
#[derive(Debug, Copy, Clone)]
pub struct KeyIter {
    pub keys: Keys,
    pub position: u32,
}

impl View for KeyIter {
    type V = Seq<u32>;

    /// The keys not yet handed out, root first.
    open spec fn view(&self) -> Seq<u32> {
        if self.position <= self.keys@.len() {
            self.keys@.skip(self.position as int)
        } else {
            Seq::empty()
        }
    }
}

impl KeyIter {
    /// Hands out the next key, or `None` once the path is used up.
    pub fn next(&mut self) -> (key: Option<usize>)
        ensures
            old(self)@.len() == 0 ==> key is None && final(self)@ == old(self)@,
            old(self)@.len() > 0 ==> key == Some(old(self)@[0] as usize) && final(self)@
                == old(self)@.skip(1),
    {
        let n = self.keys.len();
        if (self.position as usize) < n {
            let k = self.keys.stack[self.position as usize];
            assert(old(self)@[0] == k);
            self.position = self.position + 1;
            assert(self@ =~= old(self)@.skip(1));
            Some(k as usize)
        } else {
            assert(old(self)@.len() == 0);
            None
        }
    }
}

} // verus!
