//! Generators of object ids, one counter per category of object.
use vstd::prelude::*;

verus! {

/// The kind of object an id generator serves.
pub type IdCategoryType = u8;

pub const ID_CATEGORY_TABLE: IdCategoryType = 3;

pub const ID_CATEGORY_FRAGMENT: IdCategoryType = 5;

pub const ID_CATEGORY_ACTOR: IdCategoryType = 6;

/// Whether a category has a generator of its own.
pub open spec fn is_generated_category(c: IdCategoryType) -> bool {
    c == ID_CATEGORY_TABLE || c == ID_CATEGORY_FRAGMENT || c == ID_CATEGORY_ACTOR
}

/// `a + b`, wrapped around at 2^64 as an atomic `fetch_add` does.
pub open spec fn wrapped_add(a: u64, b: u64) -> u64 {
    ((a as int + b as int) % 0x1_0000_0000_0000_0000) as u64
}

/// Hands out consecutive ids of one category.
pub struct IdGenerator<const TYPE: u8> {
    /// The next id to hand out.
    pub next: u64,
}

impl<const TYPE: u8> IdGenerator<TYPE> {
    /// A generator that starts at `available_id`, the first id not in use yet
    /// (one past the largest stored id). Tables take their ids from the rows
    /// they are stored in, so their generator starts at zero.
    pub fn new(available_id: i32) -> (r: Self)
        requires
            is_generated_category(TYPE),
        ensures
            r.next == if TYPE == ID_CATEGORY_TABLE {
                0u64
            } else {
                available_id as u64
            },
    {
        let id: i32 = if TYPE == ID_CATEGORY_TABLE {
            0
        } else {
            available_id
        };
        IdGenerator { next: id as u64 }
    }

    /// Reserves `interval` consecutive ids and returns the first of them.
    pub fn generate_interval(&mut self, interval: u64) -> (r: u64)
        ensures
            r == old(self).next,
            final(self).next == wrapped_add(old(self).next, interval),
    {
        let first = self.next;
        self.next = first.wrapping_add(interval);
        first
    }
}

/// The generators of the table, fragment and actor ids.
pub struct IdGeneratorManager {
    pub tables: IdGenerator<ID_CATEGORY_TABLE>,
    pub fragments: IdGenerator<ID_CATEGORY_FRAGMENT>,
    pub actors: IdGenerator<ID_CATEGORY_ACTOR>,
}

impl IdGeneratorManager {
    /// Generators whose fragment and actor ids start at the given first free ids.
    pub fn new(available_fragment_id: i32, available_actor_id: i32) -> (r: Self)
        ensures
            r.tables.next == 0,
            r.fragments.next == available_fragment_id as u64,
            r.actors.next == available_actor_id as u64,
    {
        IdGeneratorManager {
            tables: IdGenerator::new(0),
            fragments: IdGenerator::new(available_fragment_id),
            actors: IdGenerator::new(available_actor_id),
        }
    }

    /// The next id of category `C`, as a reservation of one id.
    pub fn generate<const C: u8>(&mut self) -> (r: u64)
        requires
            is_generated_category(C),
        ensures
            advanced(C, *old(self), *final(self), 1, r),
    {
        self.generate_interval::<C>(1)
    }

    /// Reserves `interval` consecutive ids of category `C`; returns the first.
    pub fn generate_interval<const C: u8>(&mut self, interval: u64) -> (r: u64)
        requires
            is_generated_category(C),
        ensures
            advanced(C, *old(self), *final(self), interval, r),
    {
        if C == ID_CATEGORY_TABLE {
            self.tables.generate_interval(interval)
        } else if C == ID_CATEGORY_FRAGMENT {
            self.fragments.generate_interval(interval)
        } else {
            self.actors.generate_interval(interval)
        }
    }
}

/// `after` is `before` with the generator of category `c` moved on by
/// `interval`, its old position being `first`; the others are unchanged.
pub open spec fn advanced(
    c: IdCategoryType,
    before: IdGeneratorManager,
    after: IdGeneratorManager,
    interval: u64,
    first: u64,
) -> bool {
    let t = before.tables.next;
    let f = before.fragments.next;
    let a = before.actors.next;
    if c == ID_CATEGORY_TABLE {
        first == t && after.tables.next == wrapped_add(t, interval) && after.fragments.next == f
            && after.actors.next == a
    } else if c == ID_CATEGORY_FRAGMENT {
        first == f && after.fragments.next == wrapped_add(f, interval) && after.tables.next == t
            && after.actors.next == a
    } else {
        first == a && after.actors.next == wrapped_add(a, interval) && after.tables.next == t
            && after.fragments.next == f
    }
}

} // verus!
