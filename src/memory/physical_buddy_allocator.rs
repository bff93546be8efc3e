//! An eight-layer buddy allocator of physical frames over per-layer bitmaps.
use vstd::prelude::*;

use crate::memory::mapper::{
    is_kernel_address, lemma_address_translation_round_trip, lemma_window_arithmetic, spec_is_kernel, spec_to_kernel,
    spec_to_physical, to_physical_address,
};
use crate::memory::{PhysicalAddress, VirtualAddress};
use crate::{max_end, Region, RegionKind, Regions};

verus! {

pub const MAX_MEMORY: u64 = 0x100000000;
pub const LAYER_COUNT: usize = 8;

pub const L0_SIZE: u64 = 0x80000;
pub const L1_SIZE: u64 = 0x40000;
pub const L2_SIZE: u64 = 0x20000;
pub const L3_SIZE: u64 = 0x10000;
pub const L4_SIZE: u64 = 0x8000;
pub const L5_SIZE: u64 = 0x4000;
pub const L6_SIZE: u64 = 0x2000;
pub const L7_SIZE: u64 = 0x1000;

pub const L0_COUNT: usize = 0x2000;
pub const L1_COUNT: usize = 0x4000;
pub const L2_COUNT: usize = 0x8000;
pub const L3_COUNT: usize = 0x10000;
pub const L4_COUNT: usize = 0x20000;
pub const L5_COUNT: usize = 0x40000;
pub const L6_COUNT: usize = 0x80000;
pub const L7_COUNT: usize = 0x100000;

/// Bytes of one layer header in the kernel's in-memory layout.
pub const LAYER_HEADER_SIZE: u64 = 72;

/// Bytes that the allocator's bookkeeping takes in the kernel's physical
/// memory layout (eight layer headers and one bit per slab of every layer).
/// `initialize` reserves this many bytes at `base`, so the frames there are
/// never handed out; the bitmaps and links of this library itself are held
/// in ordinary vectors (see `Layer`).
pub const ALLOCATION_SIZE: u64 = 8 * LAYER_HEADER_SIZE + (0x2000 + 0x4000 + 0x8000 + 0x10000
    + 0x20000 + 0x40000 + 0x80000 + 0x100000) / 8;

/// Slab size of layer `depth`: 512 KiB at the top, halving down to 4 KiB.
pub open spec fn layer_size(depth: int) -> u64 {
    if depth <= 0 {
        L0_SIZE
    } else if depth == 1 {
        L1_SIZE
    } else if depth == 2 {
        L2_SIZE
    } else if depth == 3 {
        L3_SIZE
    } else if depth == 4 {
        L4_SIZE
    } else if depth == 5 {
        L5_SIZE
    } else if depth == 6 {
        L6_SIZE
    } else {
        L7_SIZE
    }
}

/// Number of slabs of layer `depth` that cover `MAX_MEMORY`.
pub open spec fn layer_count(depth: int) -> nat {
    if depth <= 0 {
        L0_COUNT as nat
    } else if depth == 1 {
        L1_COUNT as nat
    } else if depth == 2 {
        L2_COUNT as nat
    } else if depth == 3 {
        L3_COUNT as nat
    } else if depth == 4 {
        L4_COUNT as nat
    } else if depth == 5 {
        L5_COUNT as nat
    } else if depth == 6 {
        L6_COUNT as nat
    } else {
        L7_COUNT as nat
    }
}

/// Whether bit `i` of the bitmap `states` is set (the slab is unavailable).
pub open spec fn state_bit(states: Seq<u8>, i: int) -> bool {
    (states[i / 8] >> ((i % 8) as u8)) & 1u8 == 1u8
}

proof fn lemma_bit_update(b: u8, x: u8, y: u8)
    requires
        x < 8,
        y < 8,
    ensures
        ((b | (1u8 << x)) >> y) & 1u8 == (if x == y {
            1u8
        } else {
            (b >> y) & 1u8
        }),
        ((b & !(1u8 << x)) >> y) & 1u8 == (if x == y {
            0u8
        } else {
            (b >> y) & 1u8
        }),
        (0u8 >> y) & 1u8 == 0u8,
        ((b >> y) & 1u8 == 0u8) == !((b >> y) & 1u8 == 1u8),
{
    assert(((b >> y) & 1u8 == 0u8) == !((b >> y) & 1u8 == 1u8)) by (bit_vector);
    assert(((b | (1u8 << x)) >> y) & 1u8 == (if x == y {
        1u8
    } else {
        (b >> y) & 1u8
    })) by (bit_vector)
        requires
            x < 8,
            y < 8,
    ;
    assert(((b & !(1u8 << x)) >> y) & 1u8 == (if x == y {
        0u8
    } else {
        (b >> y) & 1u8
    })) by (bit_vector)
        requires
            x < 8,
            y < 8,
    ;
    assert((0u8 >> y) & 1u8 == 0u8) by (bit_vector);
}

proof fn lemma_slab_index(address: int, size: int)
    requires
        size > 0,
        address >= 0,
        address % size == 0,
    ensures
        (address / size) * size == address,
{
    vstd::arithmetic::div_mod::lemma_fundamental_div_mod(address, size);
    let q = address / size;
    assert(q * size == address) by (nonlinear_arith)
        requires
            address == size * q + address % size,
            address % size == 0,
    ;
}

proof fn lemma_index_address(index: int, size: int)
    requires
        size > 0,
        index >= 0,
    ensures
        (index * size) / size == index,
        (index * size) % size == 0,
{
    vstd::arithmetic::div_mod::lemma_div_multiples_vanish(index, size);
    vstd::arithmetic::div_mod::lemma_mod_multiples_basic(index, size);
    assert(index * size == size * index) by (nonlinear_arith);
}

proof fn lemma_slots(size: u64, count: int, x: u64, y: u64)
    requires
        size > 0,
        count * size == MAX_MEMORY,
        x % size == 0,
        y % size == 0,
        x < MAX_MEMORY,
    ensures
        (x as int / size as int) * size == x,
        0 <= (x as int / size as int) < count,
        x != y ==> (x as int / size as int) != (y as int / size as int),
        (((x as int / size as int) * size) as u64) == x,
{
    lemma_slab_index(x as int, size as int);
    lemma_slab_index(y as int, size as int);
    let q = x as int / size as int;
    assert(q < count) by (nonlinear_arith)
        requires
            q * size == x,
            x < MAX_MEMORY,
            count * size == MAX_MEMORY,
            size > 0,
    ;
}

proof fn lemma_slot_address(size: u64, count: int, j: int)
    requires
        size > 0,
        count * size == MAX_MEMORY,
        0 <= j < count,
    ensures
        j * size < MAX_MEMORY,
        (j * size) / (size as int) == j,
        (j * size) % (size as int) == 0,
{
    lemma_index_address(j, size as int);
    assert(j * size < MAX_MEMORY) by (nonlinear_arith)
        requires
            0 <= j < count,
            count * size == MAX_MEMORY,
            size > 0,
    ;
}

/// The link words that the slab at position `i` of `free` holds.
pub open spec fn link_at(free: Seq<u64>, i: int) -> Slab {
    Slab {
        next: PhysicalAddress(
            if i + 1 < free.len() {
                free[i + 1]
            } else {
                0
            },
        ),
        previous: PhysicalAddress(
            if i > 0 {
                free[i - 1]
            } else {
                0
            },
        ),
    }
}

/// `links` threads the free list `free` of a layer of `count` slabs of `size`
/// bytes, and holds null links for every slab that is not on it.
pub open spec fn list_ok(size: u64, count: int, free: Seq<u64>, links: Seq<Slab>) -> bool {
    &&& links.len() == count
    &&& free.no_duplicates()
    &&& forall|i: int|
        #![trigger free[i]]
        0 <= i < free.len() ==> {
            &&& free[i] % size == 0
            &&& 0 < free[i] < MAX_MEMORY
            &&& links[free[i] as int / size as int] == link_at(free, i)
        }
    &&& forall|j: int|
        0 <= j < count && !free.contains(#[verifier::truncate] ((j * size) as u64))
            ==> #[trigger] links[j] == null_slab()
}

proof fn lemma_remove_keeps_distinct(free: Seq<u64>, p: int)
    requires
        free.no_duplicates(),
        0 <= p < free.len(),
    ensures
        free.remove(p).no_duplicates(),
{
    let nf = free.remove(p);
    free.remove_ensures(p);
    assert forall|x: int, y: int| 0 <= x < nf.len() && 0 <= y < nf.len() && x != y implies nf[x]
        != nf[y] by {
        let kx = if x < p {
            x
        } else {
            x + 1
        };
        let ky = if y < p {
            y
        } else {
            y + 1
        };
        assert(nf[x] == free[kx]);
        assert(nf[y] == free[ky]);
    }
}

#[verifier::spinoff_prover]
#[verifier::rlimit(100)]
proof fn lemma_remove_links(
    size: u64,
    count: int,
    free: Seq<u64>,
    links: Seq<Slab>,
    p: int,
    new_links: Seq<Slab>,
)
    requires
        size > 0,
        count * size == MAX_MEMORY,
        list_ok(size, count, free, links),
        0 <= p < free.len(),
        new_links.len() == links.len(),
        forall|j: int|
            0 <= j < count ==> #[trigger] new_links[j] == (if j == free[p] as int / size as int {
                null_slab()
            } else if p > 0 && j == free[p - 1] as int / size as int {
                Slab { next: link_at(free, p).next, previous: links[j].previous }
            } else if p + 1 < free.len() && j == free[p + 1] as int / size as int {
                Slab { next: links[j].next, previous: link_at(free, p).previous }
            } else {
                links[j]
            }),
    ensures
        list_ok(size, count, free.remove(p), new_links),
{
    let n = free.len();
    let nf = free.remove(p);
    free.remove_ensures(p);
    let a = free[p];
    assert forall|i: int| #![trigger nf[i]] 0 <= i < nf.len() implies {
        &&& nf[i] % size == 0
        &&& 0 < nf[i] < MAX_MEMORY
        &&& new_links[nf[i] as int / size as int] == link_at(nf, i)
    } by {
        let k = if i < p {
            i
        } else {
            i + 1
        };
        assert(nf[i] == free[k]);
        lemma_slots(size, count, free[k], a);
        if p > 0 {
            lemma_slots(size, count, free[k], free[p - 1]);
        }
        if p + 1 < n {
            lemma_slots(size, count, free[k], free[p + 1]);
        }
    }
    lemma_remove_keeps_distinct(free, p);
    assert forall|j: int|
        0 <= j < count && !nf.contains(#[verifier::truncate] ((j * size) as u64)) implies
        #[trigger] new_links[j] == null_slab() by {
        lemma_slot_address(size, count, j);
        let b = (j * size) as u64;
        lemma_slots(size, count, b, b);
        if b != a {
            assert(!free.contains(b)) by {
                if free.contains(b) {
                    let k = choose|k: int| 0 <= k < free.len() && free[k] == b;
                    if k < p {
                        assert(nf[k] == b);
                    } else {
                        assert(nf[k - 1] == b);
                    }
                }
            }
            lemma_slots(size, count, a, b);
            if p > 0 {
                lemma_slots(size, count, free[p - 1], b);
            }
            if p + 1 < n {
                lemma_slots(size, count, free[p + 1], b);
            }
        }
    }
}

/// The two link words that a free slab holds at its start: physical addresses
/// of the next and previous free slab of its layer, zero at either end.
#[derive(Copy, Clone, Debug, PartialEq, Eq, Structural)]
pub struct Slab {
    pub next: PhysicalAddress,
    pub previous: PhysicalAddress,
}

pub open spec fn null_slab() -> Slab {
    Slab { next: PhysicalAddress(0), previous: PhysicalAddress(0) }
}

/// One layer of the buddy allocator: a bitmap with one bit per slab
/// (`1` = unavailable) and a doubly linked list of free slabs. In the kernel
/// the two link words of a free slab are its own first bytes; here they are
/// modelled by `links`, one entry per slab at the slab's index, which holds
/// exactly what those bytes would hold (null links for slabs not on the
/// list). Physical zero is the list's end marker.
pub struct Layer {
    pub depth: usize,
    pub size: u64,
    pub states: Vec<u8>,
    pub links: Vec<Slab>,
    pub next: Option<PhysicalAddress>,
    pub last: Option<PhysicalAddress>,
    /// The free list, head first.
    pub free: Ghost<Seq<u64>>,
}

impl Layer {
    /// Whether slab `i` of this layer is marked unavailable.
    pub open spec fn unavailable(&self, i: int) -> bool {
        state_bit(self.states@, i)
    }

    pub open spec fn slot(&self, address: u64) -> int {
        address as int / self.size as int
    }

    pub open spec fn count(&self) -> int {
        self.links@.len() as int
    }

    pub open spec fn link_of(&self, i: int) -> Slab {
        link_at(self.free@, i)
    }

    pub open spec fn wf(&self) -> bool {
        let free = self.free@;
        &&& self.size > 0
        &&& self.count() * self.size == MAX_MEMORY
        &&& self.states@.len() * 8 == self.count()
        &&& free.no_duplicates()
        &&& list_ok(self.size, self.count(), free, self.links@)
        &&& self.next == (if free.len() == 0 {
            None
        } else {
            Some(PhysicalAddress(free[0]))
        })
        &&& self.last == (if free.len() == 0 {
            None
        } else {
            Some(PhysicalAddress(free.last()))
        })
    }

    /// A layer with every slab available and an empty free list.
    pub fn empty(depth: usize, size: u64, count: usize) -> (r: Layer)
        requires
            size > 0,
            count * size == MAX_MEMORY,
            count % 8 == 0,
        ensures
            r.wf(),
            r.depth == depth,
            r.size == size,
            r.count() == count,
            r.free@ == Seq::<u64>::empty(),
            forall|i: int| 0 <= i < count ==> !#[trigger] r.unavailable(i),
    {
        let mut states: Vec<u8> = Vec::new();
        let bytes: usize = count / 8;
        while states.len() < bytes
            invariant
                states@.len() <= bytes,
                forall|k: int| 0 <= k < states@.len() ==> states@[k] == 0u8,
            decreases bytes - states@.len(),
        {
            states.push(0u8);
        }
        let mut links: Vec<Slab> = Vec::new();
        while links.len() < count
            invariant
                links@.len() <= count,
                forall|k: int| 0 <= k < links@.len() ==> links@[k] == null_slab(),
            decreases count - links@.len(),
        {
            links.push(Slab { next: PhysicalAddress(0), previous: PhysicalAddress(0) });
        }
        let r = Layer {
            depth,
            size,
            states,
            links,
            next: None,
            last: None,
            free: Ghost(Seq::empty()),
        };
        assert forall|i: int| 0 <= i < count implies !#[trigger] r.unavailable(i) by {
            lemma_bit_update(0u8, 0u8, (i % 8) as u8);
        }
        r
    }

    pub fn is_available(&self, slab: usize) -> (r: bool)
        requires
            self.wf(),
            slab < self.count(),
        ensures
            r == !self.unavailable(slab as int),
    {
        let byte = slab / 8;
        let bit = slab - byte * 8;
        let value = self.states[byte];
        proof {
            lemma_bit_update(value, 0u8, bit as u8);
        }
        (value >> (bit as u8)) & 1 == 0
    }

    pub fn set_available(&mut self, slab: usize)
        requires
            old(self).wf(),
            slab < old(self).count(),
        ensures
            final(self).wf(),
            final(self).free@ == old(self).free@,
            final(self).links@ == old(self).links@,
            final(self).depth == old(self).depth,
            final(self).size == old(self).size,
            forall|i: int|
                0 <= i < old(self).count() ==> #[trigger] final(self).unavailable(i) == (i
                    != slab && old(self).unavailable(i)),
    {
        let byte = slab / 8;
        let bit = slab - byte * 8;
        let value = self.states[byte];
        self.states.set(byte, value & !(1u8 << (bit as u8)));
        assert forall|i: int|
            0 <= i < old(self).count() implies #[trigger] self.unavailable(i) == (i != slab
                && old(self).unavailable(i)) by {
            lemma_bit_update(value, bit as u8, (i % 8) as u8);
        }
    }

    pub fn set_unavailable(&mut self, slab: usize)
        requires
            old(self).wf(),
            slab < old(self).count(),
        ensures
            final(self).wf(),
            final(self).free@ == old(self).free@,
            final(self).links@ == old(self).links@,
            final(self).depth == old(self).depth,
            final(self).size == old(self).size,
            forall|i: int|
                0 <= i < old(self).count() ==> #[trigger] final(self).unavailable(i) == (i
                    == slab || old(self).unavailable(i)),
    {
        let byte = slab / 8;
        let bit = slab - byte * 8;
        let value = self.states[byte];
        self.states.set(byte, value | (1u8 << (bit as u8)));
        assert forall|i: int|
            0 <= i < old(self).count() implies #[trigger] self.unavailable(i) == (i == slab
                || old(self).unavailable(i)) by {
            lemma_bit_update(value, bit as u8, (i % 8) as u8);
        }
    }
}

impl Layer {
    /// Whether `address` is on this layer's free list.
    pub fn contains(&self, address: u64) -> (r: bool)
        requires
            self.wf(),
            address % self.size == 0,
            address < MAX_MEMORY,
        ensures
            r == self.free@.contains(address),
    {
        let index = (address / self.size) as usize;
        proof {
            lemma_slots(self.size, self.count(), address, address);
            if self.free@.contains(address) {
                let i = choose|i: int| 0 <= i < self.free@.len() && self.free@[i] == address;
                if i > 0 {
                    assert(self.free@[i - 1] > 0);
                }
            }
        }
        let head = match self.next {
            Some(n) => n.0 == address,
            None => false,
        };
        head || self.links[index].previous.0 != 0
    }

    /// Appends `address` at the tail of the free list.
    pub fn add(&mut self, address: PhysicalAddress)
        requires
            old(self).wf(),
            address.0 % old(self).size == 0,
            0 < address.0 < MAX_MEMORY,
            !old(self).free@.contains(address.0),
        ensures
            final(self).wf(),
            final(self).free@ == old(self).free@.push(address.0),
            final(self).links@.len() == old(self).links@.len(),
            final(self).states@ == old(self).states@,
            final(self).depth == old(self).depth,
            final(self).size == old(self).size,
    {
        let ghost old_free = self.free@;
        let ghost n = old_free.len();
        let index = (address.0 / self.size) as usize;
        proof {
            lemma_slots(self.size, self.count(), address.0, address.0);
        }
        let previous = match self.last {
            Some(l) => l,
            None => PhysicalAddress(0),
        };
        self.links.set(index, Slab { next: PhysicalAddress(0), previous });
        match self.last {
            Some(l) => {
                let last_index = (l.0 / self.size) as usize;
                proof {
                    lemma_slots(self.size, self.count(), l.0, address.0);
                    assert(old_free[n - 1] == l.0);
                }
                let mut slab = self.links[last_index];
                slab.next = address;
                self.links.set(last_index, slab);
            },
            None => {},
        }
        if self.next.is_none() {
            self.next = Some(address);
        }
        self.last = Some(address);
        self.free = Ghost(old_free.push(address.0));
        proof {
            let free = self.free@;
            assert forall|i: int| #![trigger free[i]] 0 <= i < free.len() implies {
                &&& free[i] % self.size == 0
                &&& 0 < free[i] < MAX_MEMORY
                &&& self.links@[self.slot(free[i])] == self.link_of(i)
            } by {
                if i < n {
                    lemma_slots(self.size, self.count(), free[i], address.0);
                    if i < n - 1 {
                        lemma_slots(self.size, self.count(), free[i], old_free[n - 1]);
                        assert(old_free[i] != old_free[n - 1]);
                    }
                }
            }
            assert forall|j: int|
                0 <= j < self.count() && !free.contains(#[verifier::truncate] ((j * self.size) as u64)) implies
                #[trigger] self.links@[j] == null_slab() by {
                lemma_slot_address(self.size, self.count(), j);
                let a = (j * self.size) as u64;
                assert(a != address.0) by {
                    assert(free[n as int] == address.0);
                }
                assert(self.slot(a) == j);
                if n > 0 {
                    lemma_slots(self.size, self.count(), old_free[n - 1], a);
                    assert(old_free.contains(a) ==> free.contains(a)) by {
                        if old_free.contains(a) {
                            let k = choose|k: int| 0 <= k < old_free.len() && old_free[k] == a;
                            assert(free[k] == a);
                        }
                    }
                }
                lemma_slots(self.size, self.count(), address.0, a);
            }
        }
    }

    /// Unlinks `address` from the free list.
    #[verifier::spinoff_prover]
    #[verifier::rlimit(100)]
    pub fn remove(&mut self, address: PhysicalAddress)
        requires
            old(self).wf(),
            old(self).free@.contains(address.0),
        ensures
            final(self).wf(),
            final(self).free@ == old(self).free@.remove(old(self).free@.index_of(address.0)),
            final(self).links@.len() == old(self).links@.len(),
            final(self).states@ == old(self).states@,
            final(self).depth == old(self).depth,
            final(self).size == old(self).size,
    {
        let ghost old_free = self.free@;
        let ghost old_links = self.links@;
        let ghost n = old_free.len();
        let ghost p = old_free.index_of(address.0);
        let ghost size = self.size;
        let ghost count = self.count();
        proof {
            lemma_slots(size, count, address.0, address.0);
            assert(old_links[address.0 as int / size as int] == link_at(old_free, p));
        }
        let index = (address.0 / self.size) as usize;
        let slab = self.links[index];
        let previous = slab.previous;
        let next = slab.next;
        if previous.0 != 0 {
            let previous_index = (previous.0 / self.size) as usize;
            proof {
                assert(p > 0);
                lemma_slots(size, count, previous.0, address.0);
            }
            let mut previous_slab = self.links[previous_index];
            previous_slab.next = next;
            self.links.set(previous_index, previous_slab);
        }
        if next.0 != 0 {
            let next_index = (next.0 / self.size) as usize;
            proof {
                assert(p + 1 < n);
                lemma_slots(size, count, next.0, address.0);
                if p > 0 {
                    lemma_slots(size, count, next.0, old_free[p - 1]);
                }
            }
            let mut next_slab = self.links[next_index];
            next_slab.previous = previous;
            self.links.set(next_index, next_slab);
        }
        self.links.set(index, Slab { next: PhysicalAddress(0), previous: PhysicalAddress(0) });
        if let Some(head) = self.next {
            if head.0 == address.0 {
                self.next = if next.0 == 0 {
                    None
                } else {
                    Some(next)
                };
            }
        }
        if let Some(tail) = self.last {
            if tail.0 == address.0 {
                self.last = if previous.0 == 0 {
                    None
                } else {
                    Some(previous)
                };
            }
        }
        self.free = Ghost(old_free.remove(p));
        proof {
            if p > 0 {
                lemma_slots(size, count, old_free[p - 1], address.0);
            }
            if p + 1 < n {
                lemma_slots(size, count, old_free[p + 1], address.0);
            }
            if p > 0 && p + 1 < n {
                lemma_slots(size, count, old_free[p - 1], old_free[p + 1]);
            }
            lemma_remove_links(size, count, old_free, old_links, p, self.links@);
            old_free.remove_ensures(p);
            assert(old_free[0] == address.0 ==> p == 0);
            assert(old_free[n - 1] == address.0 ==> p == n - 1);
        }
    }

    /// One step of freeing slab `index` (at `slab`): clears its bit; then,
    /// when `may_merge` holds and the buddy at `buddy` is available and
    /// listed, takes the buddy off the list; otherwise lists `slab` at the
    /// tail (unless it is there already, or is physical zero). Returns
    /// whether the buddy was taken.
    pub fn free_step(&mut self, index: usize, slab: u64, buddy: u64, may_merge: bool) -> (r: bool)
        requires
            old(self).wf(),
            index < old(self).count(),
            slab == index * old(self).size,
            slab % old(self).size == 0,
            slab < MAX_MEMORY,
            buddy % old(self).size == 0,
            buddy < MAX_MEMORY,
            buddy != slab,
        ensures
            final(self).wf(),
            final(self).depth == old(self).depth,
            final(self).size == old(self).size,
            final(self).links@.len() == old(self).links@.len(),
            forall|i: int|
                0 <= i < old(self).count() ==> #[trigger] final(self).unavailable(i) == (i != index && old(self).unavailable(i)),
            r == (may_merge && !old(self).unavailable(old(self).slot(buddy)) && old(self).free@.contains(buddy)),
            r ==> final(self).free@ == old(self).free@.remove(old(self).free@.index_of(buddy)),
            !r ==> final(self).free@ == (if slab != 0 && !old(self).free@.contains(slab) {
                old(self).free@.push(slab)
            } else {
                old(self).free@
            }),
    {
        proof {
            lemma_slots(self.size, self.count(), buddy, slab);
            lemma_slots(self.size, self.count(), slab, buddy);
        }
        self.set_available(index);
        let ghost cleared = *self;
        let merge = may_merge && self.is_available((buddy / self.size) as usize) && self.contains(buddy);
        if merge {
            self.remove(PhysicalAddress::new(buddy));
        } else if slab != 0 && !self.contains(slab) {
            self.add(PhysicalAddress::new(slab));
        }
        proof {
            assert(self.states@ == cleared.states@);
            assert forall|i: int| 0 <= i < old(self).count() implies #[trigger] self.unavailable(i) == (i != index
                && old(self).unavailable(i)) by {
                assert(self.unavailable(i) == cleared.unavailable(i));
            }
        }
        merge
    }

    /// Takes the head of the free list.
    pub fn try_take(&mut self) -> (r: Option<PhysicalAddress>)
        requires
            old(self).wf(),
        ensures
            final(self).wf(),
            final(self).states@ == old(self).states@,
            final(self).depth == old(self).depth,
            final(self).size == old(self).size,
            final(self).links@.len() == old(self).links@.len(),
            old(self).free@.len() == 0 ==> r.is_none() && *final(self) == *old(self),
            old(self).free@.len() > 0 ==> r == Some(PhysicalAddress(old(self).free@[0]))
                && final(self).free@ == old(self).free@.drop_first(),
    {
        match self.next {
            Some(slab) => {
                proof {
                    assert(self.free@.index_of(slab.0) == 0) by {
                        assert(self.free@[0] == slab.0);
                    }
                    assert(self.free@.remove(0) =~= self.free@.drop_first());
                }
                self.remove(slab);
                Some(slab)
            },
            None => None,
        }
    }

    /// Takes the head of the free list and marks it unavailable.
    pub fn try_allocate(&mut self) -> (r: Option<PhysicalAddress>)
        requires
            old(self).wf(),
        ensures
            final(self).wf(),
            final(self).depth == old(self).depth,
            final(self).size == old(self).size,
            final(self).links@.len() == old(self).links@.len(),
            old(self).free@.len() == 0 ==> r.is_none() && *final(self) == *old(self),
            old(self).free@.len() > 0 ==> {
                &&& r == Some(PhysicalAddress(old(self).free@[0]))
                &&& final(self).free@ == old(self).free@.drop_first()
                &&& forall|i: int|
                    0 <= i < old(self).count() ==> #[trigger] final(self).unavailable(i) == (i
                        == old(self).slot(old(self).free@[0]) || old(self).unavailable(i))
            },
    {
        let slab = self.try_take();
        match slab {
            Some(s) => {
                proof {
                    lemma_slots(self.size, self.count(), s.0, s.0);
                }
                self.set_unavailable((s.0 / self.size) as usize);
                Some(s)
            },
            None => None,
        }
    }
}

/// Whether a region `[start, end)` forbids L0 slab `i`: every L0 slab that
/// holds a byte of the region is taken out.
pub open spec fn covers(start: u64, end: u64, i: int) -> bool {
    start < end && start as int / L0_SIZE as int <= i <= (end - 1) as int / L0_SIZE as int
}

proof fn lemma_next_slab(x: int)
    requires
        x >= 0,
    ensures
        (x + 1) / (L0_SIZE as int) <= x / (L0_SIZE as int) + 1,
        x / (L0_SIZE as int) <= (x + 1) / (L0_SIZE as int),
{
    vstd::arithmetic::div_mod::lemma_fundamental_div_mod(x, L0_SIZE as int);
    vstd::arithmetic::div_mod::lemma_fundamental_div_mod(x + 1, L0_SIZE as int);
    let q = x / (L0_SIZE as int);
    let q1 = (x + 1) / (L0_SIZE as int);
    assert(q1 <= q + 1 && q <= q1) by (nonlinear_arith)
        requires
            x == L0_SIZE * q + x % (L0_SIZE as int),
            x + 1 == L0_SIZE * q1 + (x + 1) % (L0_SIZE as int),
            0 <= x % (L0_SIZE as int) < L0_SIZE,
            0 <= (x + 1) % (L0_SIZE as int) < L0_SIZE,
    ;
}

/// Whether `region` is reserved at start-up, below `max` (the end of available memory).
pub open spec fn region_reserves(region: Region, max: u64, i: int) -> bool {
    &&& region.kind != RegionKind::Available
    &&& region.start <= region.end
    &&& region.end <= max
    &&& covers(region.start, region.end, i)
}

/// Whether L0 slab `i` is unavailable after start-up: some non-available
/// region below `max` or the allocator's own footprint at `base` touches it.
pub open spec fn reserved_slab(regions: Seq<Region>, max: u64, base: u64, i: int) -> bool {
    ||| exists|k: int| 0 <= k < regions.len() && #[trigger] region_reserves(regions[k], max, i)
    ||| covers(base, (base + ALLOCATION_SIZE) as u64, i)
}

/// The L0 slabs in `[lo, hi)` whose bit in `states` is clear, in increasing order.
pub open spec fn available_l0_slabs(states: Seq<u8>, lo: int, hi: int) -> Seq<u64>
    decreases hi - lo,
{
    if hi <= lo {
        Seq::empty()
    } else {
        let rest = available_l0_slabs(states, lo, hi - 1);
        if !state_bit(states, hi - 1) {
            rest.push(((hi - 1) * L0_SIZE) as u64)
        } else {
            rest
        }
    }
}

/// First L0 slab that start-up hands out: the first whole slab at or after
/// `kernel_end`, and never slab zero, whose address is the free lists' end marker.
pub open spec fn first_free_slab(kernel_end: u64) -> int {
    let c: int = if kernel_end % L0_SIZE == 0 {
        (kernel_end / L0_SIZE) as int
    } else {
        kernel_end / L0_SIZE + 1
    };
    if c == 0 {
        1
    } else {
        c
    }
}

/// One past the last L0 slab that start-up hands out: slabs that end at or before `max`.
pub open spec fn last_free_slab(max: u64) -> int {
    if max / L0_SIZE > L0_COUNT {
        L0_COUNT as int
    } else {
        (max / L0_SIZE) as int
    }
}

proof fn lemma_layer_halves(depth: int)
    requires
        0 <= depth < LAYER_COUNT - 1,
    ensures
        layer_size(depth) == 2 * layer_size(depth + 1),
        layer_count(depth + 1) == 2 * layer_count(depth),
        MAX_MEMORY % layer_size(depth) == 0,
        MAX_MEMORY % layer_size(depth + 1) == 0,
{
    if depth == 0 {
        assert(MAX_MEMORY % L0_SIZE == 0 && MAX_MEMORY % L1_SIZE == 0);
    } else if depth == 1 {
        assert(MAX_MEMORY % L1_SIZE == 0 && MAX_MEMORY % L2_SIZE == 0);
    } else if depth == 2 {
        assert(MAX_MEMORY % L2_SIZE == 0 && MAX_MEMORY % L3_SIZE == 0);
    } else if depth == 3 {
        assert(MAX_MEMORY % L3_SIZE == 0 && MAX_MEMORY % L4_SIZE == 0);
    } else if depth == 4 {
        assert(MAX_MEMORY % L4_SIZE == 0 && MAX_MEMORY % L5_SIZE == 0);
    } else if depth == 5 {
        assert(MAX_MEMORY % L5_SIZE == 0 && MAX_MEMORY % L6_SIZE == 0);
    } else {
        assert(MAX_MEMORY % L6_SIZE == 0 && MAX_MEMORY % L7_SIZE == 0);
    }
}

proof fn lemma_layer_divides(x: u64, from: int, to: int)
    requires
        0 <= from <= to < LAYER_COUNT,
        x % layer_size(from) == 0,
    ensures
        x % layer_size(to) == 0,
    decreases to - from,
{
    if from < to {
        lemma_layer_divides(x, from, to - 1);
        lemma_layer_halves(to - 1);
        assert(layer_size(to) * 2 == layer_size(to - 1));
        vstd::arithmetic::div_mod::lemma_mod_mod(x as int, layer_size(to) as int, 2);
    }
}

proof fn lemma_buddy_in_range(slab: u64, size: u64, lower_size: u64)
    requires
        size == 2 * lower_size,
        lower_size > 0,
        slab % size == 0,
        slab < MAX_MEMORY,
        MAX_MEMORY % size == 0,
    ensures
        slab + size <= MAX_MEMORY,
        slab + lower_size < MAX_MEMORY,
{
    let q = slab as int / size as int;
    let c = MAX_MEMORY as int / size as int;
    vstd::arithmetic::div_mod::lemma_fundamental_div_mod(slab as int, size as int);
    vstd::arithmetic::div_mod::lemma_fundamental_div_mod(MAX_MEMORY as int, size as int);
    assert(slab + size <= MAX_MEMORY) by (nonlinear_arith)
        requires
            slab == size * q,
            MAX_MEMORY == size * c,
            slab < MAX_MEMORY,
            size > 0,
    ;
}

proof fn lemma_layer_geometry(level: int)
    requires
        0 <= level < LAYER_COUNT,
    ensures
        layer_count(level) * layer_size(level) == MAX_MEMORY,
        layer_size(level) > 0,
        layer_count(level) % 2 == 0,
{
    if level == 0 {
        assert(L0_COUNT * L0_SIZE == MAX_MEMORY);
    } else if level == 1 {
        assert(L1_COUNT * L1_SIZE == MAX_MEMORY);
    } else if level == 2 {
        assert(L2_COUNT * L2_SIZE == MAX_MEMORY);
    } else if level == 3 {
        assert(L3_COUNT * L3_SIZE == MAX_MEMORY);
    } else if level == 4 {
        assert(L4_COUNT * L4_SIZE == MAX_MEMORY);
    } else if level == 5 {
        assert(L5_COUNT * L5_SIZE == MAX_MEMORY);
    } else if level == 6 {
        assert(L6_COUNT * L6_SIZE == MAX_MEMORY);
    } else {
        assert(L7_COUNT * L7_SIZE == MAX_MEMORY);
    }
}

proof fn lemma_buddy(slab: u64, level: int, index: int)
    requires
        0 <= level < LAYER_COUNT,
        slab % layer_size(level) == 0,
        slab < MAX_MEMORY,
        index == slab as int / layer_size(level) as int,
    ensures
        index % 2 == 0 ==> slab + layer_size(level) < MAX_MEMORY && (slab + layer_size(level)) as int
            % layer_size(level) as int == 0,
        index % 2 == 1 ==> slab >= layer_size(level) && (slab - layer_size(level)) as int
            % layer_size(level) as int == 0,
{
    let size = layer_size(level);
    lemma_layer_geometry(level);
    lemma_slots(size, layer_count(level) as int, slab, slab);
    assert(slab == index * size);
    vstd::arithmetic::div_mod::lemma_mod_adds(slab as int, size as int, size as int);
    if index % 2 == 0 {
        assert(index + 1 < layer_count(level));
        assert((index + 1) * size < layer_count(level) * size) by (nonlinear_arith)
            requires
                index + 1 < layer_count(level),
                size > 0,
        ;
        assert((index + 1) * size == index * size + size) by (nonlinear_arith);
        assert(layer_count(level) * size == MAX_MEMORY);
        lemma_index_address(index + 1, size as int);
    } else {
        assert(index >= 1);
        assert(slab - size == (index - 1) * size) by (nonlinear_arith)
            requires
                slab == index * size,
        ;
        lemma_index_address(index - 1, size as int);
    }
}

proof fn lemma_merged(slab: u64, buddy: u64, level: int, index: int)
    requires
        1 <= level < LAYER_COUNT,
        slab % layer_size(level) == 0,
        slab < MAX_MEMORY,
        index == slab as int / layer_size(level) as int,
        buddy == (if index % 2 == 0 {
            slab + layer_size(level)
        } else {
            slab - layer_size(level)
        }),
        buddy < MAX_MEMORY,
    ensures
        (if buddy < slab {
            buddy
        } else {
            slab
        }) % layer_size(level - 1) == 0,
{
    let size = layer_size(level);
    lemma_layer_geometry(level);
    lemma_slots(size, layer_count(level) as int, slab, slab);
    lemma_layer_halves(level - 1);
    let upper = layer_size(level - 1);
    assert(slab == index * size);
    if index % 2 == 0 {
        assert(slab == (index / 2) * upper) by (nonlinear_arith)
            requires
                slab == index * size,
                upper == 2 * size,
                index % 2 == 0,
        ;
    } else {
        assert(buddy == (index / 2) * upper) by (nonlinear_arith)
            requires
                buddy == slab - size,
                slab == index * size,
                upper == 2 * size,
                index % 2 == 1,
        ;
    }
    lemma_index_address(index / 2, upper as int);
}

/// The layer a request of `bytes` is served from: the smallest slab size that holds it.
pub open spec fn layer_for_size(bytes: int) -> Option<int> {
    if bytes > L0_SIZE {
        None
    } else if bytes > L1_SIZE {
        Some(0)
    } else if bytes > L2_SIZE {
        Some(1)
    } else if bytes > L3_SIZE {
        Some(2)
    } else if bytes > L4_SIZE {
        Some(3)
    } else if bytes > L5_SIZE {
        Some(4)
    } else if bytes > L6_SIZE {
        Some(5)
    } else if bytes > L7_SIZE {
        Some(6)
    } else {
        Some(7)
    }
}

proof fn lemma_available_members(states: Seq<u8>, lo: int, hi: int)
    requires
        1 <= lo,
        hi <= L0_COUNT,
    ensures
        forall|k: int|
            #![trigger available_l0_slabs(states, lo, hi)[k]]
            0 <= k < available_l0_slabs(states, lo, hi).len() ==> !state_bit(
                states,
                available_l0_slabs(states, lo, hi)[k] as int / L0_SIZE as int,
            ),
    decreases hi - lo,
{
    if hi > lo {
        lemma_available_members(states, lo, hi - 1);
        let rest = available_l0_slabs(states, lo, hi - 1);
        let all = available_l0_slabs(states, lo, hi);
        lemma_index_address(hi - 1, L0_SIZE as int);
        assert(hi * L0_SIZE <= 0x100000000) by (nonlinear_arith)
            requires
                hi <= 0x2000,
        ;
        assert forall|k: int| 0 <= k < all.len() implies !state_bit(states, #[trigger] all[k] as int / L0_SIZE as int) by {
            if k < rest.len() {
                assert(all[k] == rest[k]);
            }
        }
    }
}

proof fn lemma_available_l0_slabs(states: Seq<u8>, lo: int, hi: int)
    requires
        1 <= lo,
        hi <= L0_COUNT,
    ensures
        forall|k: int|
            #![trigger available_l0_slabs(states, lo, hi)[k]]
            0 <= k < available_l0_slabs(states, lo, hi).len() ==> {
                let a = available_l0_slabs(states, lo, hi)[k];
                &&& a as int % L0_SIZE as int == 0
                &&& lo * L0_SIZE <= a < hi * L0_SIZE
            },
        available_l0_slabs(states, lo, hi).no_duplicates(),
    decreases hi - lo,
{
    if hi > lo {
        lemma_available_l0_slabs(states, lo, hi - 1);
        let rest = available_l0_slabs(states, lo, hi - 1);
        let all = available_l0_slabs(states, lo, hi);
        lemma_index_address(hi - 1, L0_SIZE as int);
        assert((hi - 1) * L0_SIZE < hi * L0_SIZE) by (nonlinear_arith)
            requires
                hi >= 1,
        ;
        assert(lo * L0_SIZE <= (hi - 1) * L0_SIZE) by (nonlinear_arith)
            requires
                lo <= hi - 1,
        ;
        assert(hi * L0_SIZE <= 0x100000000) by (nonlinear_arith)
            requires
                hi <= 0x2000,
        ;
        if !state_bit(states, hi - 1) {
            let a = ((hi - 1) * L0_SIZE) as u64;
            assert(all == rest.push(a));
            assert forall|k: int| 0 <= k < all.len() implies {
                let b = #[trigger] all[k];
                &&& b as int % L0_SIZE as int == 0
                &&& lo * L0_SIZE <= b < hi * L0_SIZE
            } by {
                if k < rest.len() {
                    assert(all[k] == rest[k]);
                }
            }
            assert forall|x: int, y: int| 0 <= x < all.len() && 0 <= y < all.len() && x != y implies
                all[x] != all[y] by {
                if x < rest.len() && y < rest.len() {
                    assert(all[x] == rest[x] && all[y] == rest[y]);
                } else if x < rest.len() {
                    assert(all[x] == rest[x]);
                } else if y < rest.len() {
                    assert(all[y] == rest[y]);
                }
            }
        }
    }
}

/// The deepest of `layers` above `below` whose free list is not empty; -1 if none.
pub open spec fn deepest_nonempty_in(layers: Seq<Layer>, below: int) -> int
    decreases below,
{
    if below <= 0 {
        -1
    } else if layers[below - 1].free@.len() > 0 {
        below - 1
    } else {
        deepest_nonempty_in(layers, below - 1)
    }
}

/// The buddy allocator: eight layers from 512 KiB slabs (L0) down to 4 KiB slabs (L7).
pub struct PhysicalBuddyAllocator {
    pub layers: Vec<Layer>,
    /// One bit per L0 slab, set for the slabs that start-up reserved; such a
    /// slab is never handed out, so it is never freed either.
    pub reserved: Vec<u8>,
}

impl PhysicalBuddyAllocator {
    pub open spec fn wf(&self) -> bool {
        &&& self.layers@.len() == LAYER_COUNT
        &&& forall|k: int|
            #![trigger self.layers@[k]]
            0 <= k < LAYER_COUNT ==> {
                &&& self.layers@[k].wf()
                &&& self.layers@[k].depth == k
                &&& self.layers@[k].size == layer_size(k)
                &&& self.layers@[k].count() == layer_count(k)
            }
        &&& self.reserved@.len() * 8 == L0_COUNT
    }

    /// The free list of layer `depth`, head first.
    pub open spec fn free_list(&self, depth: int) -> Seq<u64> {
        self.layers@[depth].free@
    }

    /// Whether slab `i` of layer `depth` is marked unavailable.
    pub open spec fn unavailable(&self, depth: int, i: int) -> bool {
        self.layers@[depth].unavailable(i)
    }

    /// An allocator that manages nothing until `initialize` runs.
    pub fn new() -> (r: PhysicalBuddyAllocator)
        ensures
            r.layers@.len() == 0,
    {
        Self { layers: Vec::new(), reserved: Vec::new() }
    }

    fn layer_geometry(depth: usize) -> (r: (u64, usize))
        requires
            depth < LAYER_COUNT,
        ensures
            r.0 == layer_size(depth as int),
            r.1 * r.0 == MAX_MEMORY,
            r.1 % 8 == 0,
            r.1 == layer_count(depth as int),
    {
        if depth == 0 {
            assert(L0_COUNT * L0_SIZE == MAX_MEMORY);
            (L0_SIZE, L0_COUNT)
        } else if depth == 1 {
            assert(L1_COUNT * L1_SIZE == MAX_MEMORY);
            (L1_SIZE, L1_COUNT)
        } else if depth == 2 {
            assert(L2_COUNT * L2_SIZE == MAX_MEMORY);
            (L2_SIZE, L2_COUNT)
        } else if depth == 3 {
            assert(L3_COUNT * L3_SIZE == MAX_MEMORY);
            (L3_SIZE, L3_COUNT)
        } else if depth == 4 {
            assert(L4_COUNT * L4_SIZE == MAX_MEMORY);
            (L4_SIZE, L4_COUNT)
        } else if depth == 5 {
            assert(L5_COUNT * L5_SIZE == MAX_MEMORY);
            (L5_SIZE, L5_COUNT)
        } else if depth == 6 {
            assert(L6_COUNT * L6_SIZE == MAX_MEMORY);
            (L6_SIZE, L6_COUNT)
        } else {
            assert(L7_COUNT * L7_SIZE == MAX_MEMORY);
            (L7_SIZE, L7_COUNT)
        }
    }

    /// Builds the eight layers, every slab available and every free list empty.
    fn setup_layers(&mut self)
        ensures
            final(self).wf(),
            forall|k: int, i: int|
                0 <= k < LAYER_COUNT && 0 <= i < layer_count(k) ==> !#[trigger] final(self).unavailable(k, i),
            forall|k: int| 0 <= k < LAYER_COUNT ==> #[trigger] final(self).free_list(k)
                == Seq::<u64>::empty(),
    {
        let mut layers: Vec<Layer> = Vec::new();
        let mut depth: usize = 0;
        while depth < LAYER_COUNT
            invariant
                depth <= LAYER_COUNT,
                layers@.len() == depth,
                forall|k: int|
                    #![trigger layers@[k]]
                    0 <= k < depth ==> {
                        &&& layers@[k].wf()
                        &&& layers@[k].depth == k
                        &&& layers@[k].size == layer_size(k)
                        &&& layers@[k].free@ == Seq::<u64>::empty()
                        &&& layers@[k].count() == layer_count(k)
                        &&& forall|i: int|
                            0 <= i < layer_count(k) ==> !#[trigger] layers@[k].unavailable(i)
                    },
            decreases LAYER_COUNT - depth,
        {
            let (size, count) = Self::layer_geometry(depth);
            layers.push(Layer::empty(depth, size, count));
            depth = depth + 1;
        }
        self.layers = layers;
        let mut reserved: Vec<u8> = Vec::new();
        while reserved.len() < L0_COUNT / 8
            invariant
                reserved@.len() <= L0_COUNT / 8,
            decreases L0_COUNT / 8 - reserved@.len(),
        {
            reserved.push(0u8);
        }
        self.reserved = reserved;
    }

    /// Marks unavailable every L0 slab that `region` touches, halving the region
    /// until each piece spans at most two L0 slabs.
    fn reserve_region_with_largest_slabs(&mut self, region: Region)
        requires
            old(self).wf(),
            region.start <= region.end,
        ensures
            final(self).wf(),
            final(self).reserved@ == old(self).reserved@,
            forall|k: int| 1 <= k < LAYER_COUNT ==> #[trigger] final(self).layers@[k] == old(self).layers@[k],
            final(self).free_list(0) == old(self).free_list(0),
            forall|i: int|
                0 <= i < L0_COUNT ==> #[trigger] final(self).unavailable(0, i) == (old(self).unavailable(0, i) || covers(region.start, region.end, i)),
        decreases region.end - region.start,
    {
        if region.size() > L0_SIZE {
            let middle = region.start + region.size() / 2;
            self.reserve_region_with_largest_slabs(Region::new(region.kind, region.start, middle));
            self.reserve_region_with_largest_slabs(Region::new(region.kind, middle, region.end));
            proof {
                let d = L0_SIZE as int;
                assert forall|i: int| 0 <= i < L0_COUNT implies (covers(region.start, middle, i)
                    || covers(middle, region.end, i)) == covers(region.start, region.end, i) by {
                    vstd::arithmetic::div_mod::lemma_div_is_ordered(region.start as int, middle as int - 1, d);
                    vstd::arithmetic::div_mod::lemma_div_is_ordered(middle as int, region.end as int - 1, d);
                    vstd::arithmetic::div_mod::lemma_div_is_ordered(region.start as int, middle as int, d);
                    lemma_next_slab(middle as int - 1);
                }
            }
            return ;
        }
        if region.start == region.end {
            return ;
        }
        let start = region.start / L0_SIZE;
        let end = (region.end - 1) / L0_SIZE;
        proof {
            let s = region.start as int;
            let e = region.end as int - 1;
            vstd::arithmetic::div_mod::lemma_fundamental_div_mod(s, L0_SIZE as int);
            vstd::arithmetic::div_mod::lemma_fundamental_div_mod(e, L0_SIZE as int);
            assert(end <= start + 1) by (nonlinear_arith)
                requires
                    s == L0_SIZE * (start as int) + s % L0_SIZE as int,
                    e == L0_SIZE * (end as int) + e % L0_SIZE as int,
                    0 <= (s % L0_SIZE as int) < L0_SIZE,
                    0 <= (e % L0_SIZE as int) < L0_SIZE,
                    e - s < L0_SIZE,
            ;
            vstd::arithmetic::div_mod::lemma_div_is_ordered(s, e, L0_SIZE as int);
        }
        if start < L0_COUNT as u64 {
            self.layers[0].set_unavailable(start as usize);
        }
        if end < L0_COUNT as u64 {
            self.layers[0].set_unavailable(end as usize);
        }
        proof {
            assert(self.layers@[0].count() == L0_COUNT);
        }
    }

    /// Marks unavailable the L0 slabs of every non-available region that ends
    /// at or below `max`, and those of the allocator's own footprint at `base`.
    fn reserve(&mut self, regions: &Regions, max: u64, base: u64)
        requires
            old(self).wf(),
            base + ALLOCATION_SIZE <= u64::MAX,
        ensures
            final(self).wf(),
            final(self).reserved@ == old(self).reserved@,
            forall|k: int| 1 <= k < LAYER_COUNT ==> #[trigger] final(self).layers@[k] == old(self).layers@[k],
            final(self).free_list(0) == old(self).free_list(0),
            forall|i: int|
                0 <= i < L0_COUNT ==> #[trigger] final(self).unavailable(0, i) == (old(self).unavailable(0, i)
                    || reserved_slab(regions.data@, max, base, i)),
    {
        let mut index: usize = 0;
        while index < regions.length()
            invariant
                self.wf(),
                self.reserved@ == old(self).reserved@,
                index <= regions.data@.len(),
                forall|k: int| 1 <= k < LAYER_COUNT ==> #[trigger] self.layers@[k] == old(self).layers@[k],
                self.free_list(0) == old(self).free_list(0),
                forall|i: int|
                    0 <= i < L0_COUNT ==> #[trigger] self.unavailable(0, i) == (old(self).unavailable(0, i)
                        || exists|k: int|
                        0 <= k < index && #[trigger] region_reserves(regions.data@[k], max, i)),
            decreases regions.data@.len() - index,
        {
            let region = regions.data[index];
            if region.kind != RegionKind::Available && region.end <= max && region.start <= region.end {
                self.reserve_region_with_largest_slabs(region);
            }
            proof {
                assert forall|i: int| 0 <= i < L0_COUNT implies #[trigger] self.unavailable(0, i) == (old(self).unavailable(0, i)
                    || exists|k: int| 0 <= k < index + 1 && #[trigger] region_reserves(regions.data@[k], max, i)) by {
                    if region_reserves(regions.data@[index as int], max, i) {
                        assert(exists|k: int| 0 <= k < index + 1 && #[trigger] region_reserves(regions.data@[k], max, i));
                    }
                    if exists|k: int| 0 <= k < index + 1 && #[trigger] region_reserves(regions.data@[k], max, i) {
                        let k = choose|k: int| 0 <= k < index + 1 && #[trigger] region_reserves(regions.data@[k], max, i);
                        if k < index {
                            assert(exists|k: int| 0 <= k < index && #[trigger] region_reserves(regions.data@[k], max, i));
                        }
                    }
                }
            }
            index = index + 1;
        }
        self.reserve_region_with_largest_slabs(Region::new(RegionKind::Reserved, base, base + ALLOCATION_SIZE));
    }

    /// Puts on the L0 free list every available L0 slab from the first whole
    /// slab at or after `start` up to the last slab that ends by `max`.
    fn add_available_slabs(&mut self, max: u64, start: u64)
        requires
            old(self).wf(),
            old(self).free_list(0) == Seq::<u64>::empty(),
        ensures
            final(self).wf(),
            final(self).reserved@ == old(self).reserved@,
            forall|k: int| 1 <= k < LAYER_COUNT ==> #[trigger] final(self).layers@[k] == old(self).layers@[k],
            final(self).layers@[0].states@ == old(self).layers@[0].states@,
            final(self).free_list(0) == available_l0_slabs(
                old(self).layers@[0].states@,
                first_free_slab(start),
                last_free_slab(max),
            ),
    {
        let ghost states = self.layers@[0].states@;
        let mut slabs = max / L0_SIZE;
        if slabs > L0_COUNT as u64 {
            slabs = L0_COUNT as u64;
        }
        let mut start_slab = if start % L0_SIZE == 0 {
            start / L0_SIZE
        } else {
            start / L0_SIZE + 1
        };
        if start_slab == 0 {
            start_slab = 1;
        }
        let mut slab = start_slab;
        while slab < slabs
            invariant
                self.wf(),
                self.reserved@ == old(self).reserved@,
                start_slab == first_free_slab(start),
                slabs == last_free_slab(max),
                slabs <= L0_COUNT,
                1 <= start_slab <= slab,
                slab <= slabs || slab == start_slab,
                forall|k: int| 1 <= k < LAYER_COUNT ==> #[trigger] self.layers@[k] == old(self).layers@[k],
                self.layers@[0].states@ == states,
                self.free_list(0) == available_l0_slabs(states, start_slab as int, slab as int),
            decreases slabs - slab,
        {
            let ghost before = self.free_list(0);
            proof {
                lemma_available_l0_slabs(states, start_slab as int, slab as int);
                lemma_index_address(slab as int, L0_SIZE as int);
                assert(slab * L0_SIZE < MAX_MEMORY) by (nonlinear_arith)
                    requires
                        slab < 0x2000,
                ;
                if before.contains((slab * L0_SIZE) as u64) {
                    let k = choose|k: int| 0 <= k < before.len() && before[k] == (slab * L0_SIZE) as u64;
                    assert(before[k] < slab * L0_SIZE);
                }
            }
            if self.layers[0].is_available(slab as usize) {
                self.layers[0].add(PhysicalAddress::new(slab * L0_SIZE));
            }
            slab = slab + 1;
        }
    }

    /// Records the L0 slabs marked unavailable now as the reserved ones.
    fn record_reserved(&mut self)
        requires
            old(self).wf(),
        ensures
            final(self).wf(),
            final(self).layers@ == old(self).layers@,
            final(self).reserved@ == old(self).layers@[0].states@,
    {
        proof {
            assert(self.layers@[0].wf());
        }
        let mut copy: Vec<u8> = Vec::new();
        let n = self.layers[0].states.len();
        while copy.len() < n
            invariant
                self.layers@.len() == LAYER_COUNT,
                n == self.layers@[0].states@.len(),
                copy@.len() <= n,
                copy@ == self.layers@[0].states@.take(copy@.len() as int),
            decreases n - copy@.len(),
        {
            let b = self.layers[0].states[copy.len()];
            copy.push(b);
            proof {
                assert(copy@ =~= self.layers@[0].states@.take(copy@.len() as int));
            }
        }
        proof {
            assert(copy@ =~= self.layers@[0].states@);
        }
        self.reserved = copy;
    }

    /// Whether L0 slab `slab` was reserved at start-up.
    pub fn reserved_at(&self, slab: usize) -> (r: bool)
        requires
            self.wf(),
            slab < L0_COUNT,
        ensures
            r == state_bit(self.reserved@, slab as int),
    {
        let byte = slab / 8;
        let bit = slab - byte * 8;
        let value = self.reserved[byte];
        proof {
            lemma_bit_update(value, 0u8, bit as u8);
        }
        (value >> (bit as u8)) & 1 == 1
    }

    /// Sets the allocator up over the memory map `regions`: builds the layers,
    /// reserves firmware ranges and its own footprint at `base`, and hands out
    /// the L0 slabs above `kernel_end`. Returns the end of available memory.
    pub fn initialize(&mut self, base: PhysicalAddress, regions: &Regions, kernel_end: PhysicalAddress) -> (r: PhysicalAddress)
        requires
            base.0 + ALLOCATION_SIZE <= u64::MAX,
        ensures
            final(self).wf(),
            r.0 == max_end(regions.data@, Some(RegionKind::Available), regions.data@.len() as int),
            forall|i: int|
                0 <= i < L0_COUNT ==> #[trigger] final(self).unavailable(0, i) == reserved_slab(regions.data@, r.0, base.0, i),
            forall|k: int, i: int|
                1 <= k < LAYER_COUNT && 0 <= i < layer_count(k) ==> !#[trigger] final(self).unavailable(k, i),
            forall|k: int| 1 <= k < LAYER_COUNT ==> #[trigger] final(self).free_list(k) == Seq::<u64>::empty(),
            final(self).free_list(0) == available_l0_slabs(
                final(self).layers@[0].states@,
                first_free_slab(kernel_end.0),
                last_free_slab(r.0),
            ),
            final(self).free_disjoint(),
            forall|i: int| 0 <= i < L0_COUNT ==> #[trigger] state_bit(final(self).reserved@, i) == reserved_slab(regions.data@, r.0, base.0, i),
            forall|i: int|
                0 <= i < final(self).free_list(0).len() ==> !final(self).unavailable(
                    0,
                    #[trigger] final(self).free_list(0)[i] as int / L0_SIZE as int,
                ) && !state_bit(final(self).reserved@, final(self).free_list(0)[i] as int / L0_SIZE as int),
            forall|i: int|
                0 <= i < L0_COUNT && #[trigger] state_bit(final(self).reserved@, i) ==> apart_from_free(
                    *final(self),
                    (i * L0_SIZE) as u64,
                    L0_SIZE,
                ),
    {
        let max = regions.find_end(Some(RegionKind::Available));
        self.setup_layers();
        let ghost after_setup = *self;
        proof {
            assert(layer_count(0) == L0_COUNT);
        }
        self.reserve(regions, max, base.value());
        let ghost after_reserve = *self;
        self.record_reserved();
        self.add_available_slabs(max, kernel_end.value());
        proof {
            assert forall|k: int, i: int|
                1 <= k < LAYER_COUNT && 0 <= i < layer_count(k) implies !#[trigger] self.unavailable(k, i) by {
                assert(self.layers@[k] == after_reserve.layers@[k]);
                assert(after_reserve.layers@[k] == after_setup.layers@[k]);
                assert(!after_setup.unavailable(k, i));
            }
            assert forall|k: int| 1 <= k < LAYER_COUNT implies #[trigger] self.free_list(k) == Seq::<u64>::empty() by {
                assert(self.layers@[k] == after_reserve.layers@[k]);
                assert(after_reserve.layers@[k] == after_setup.layers@[k]);
                assert(after_setup.free_list(k) == Seq::<u64>::empty());
            }
            lemma_single_list_disjoint(*self);
            let states = self.layers@[0].states@;
            lemma_available_members(states, first_free_slab(kernel_end.0), last_free_slab(max));
            assert(self.layers@[0].wf());
            assert forall|i: int| 0 <= i < self.free_list(0).len() implies !self.unavailable(
                0,
                #[trigger] self.free_list(0)[i] as int / L0_SIZE as int,
            ) && !state_bit(self.reserved@, self.free_list(0)[i] as int / L0_SIZE as int) by {
                let m = self.free_list(0)[i] as int / L0_SIZE as int;
                lemma_slots(L0_SIZE, L0_COUNT as int, self.free_list(0)[i], self.free_list(0)[i]);
                assert(state_bit(self.reserved@, m) == after_reserve.unavailable(0, m));
                assert(after_reserve.layers@[0].states@ == states);
            }
            let fin = *self;
            assert forall|i: int|
                0 <= i < L0_COUNT && #[trigger] state_bit(fin.reserved@, i) implies apart_from_free(
                    fin,
                    (i * L0_SIZE) as u64,
                    L0_SIZE,
                ) by {
                lemma_reserved_apart(fin, i);
            }
            assert forall|i: int| 0 <= i < L0_COUNT implies #[trigger] state_bit(self.reserved@, i) == reserved_slab(
                regions.data@,
                max,
                base.0,
                i,
            ) by {
                assert(state_bit(self.reserved@, i) == after_reserve.unavailable(0, i));
                assert(after_reserve.unavailable(0, i) == (after_setup.unavailable(0, i) || reserved_slab(regions.data@, max, base.0, i)));
                assert(!after_setup.unavailable(0, i));
            }
            assert forall|i: int|
                0 <= i < L0_COUNT implies #[trigger] self.unavailable(0, i) == reserved_slab(regions.data@, max, base.0, i) by {
                assert(after_reserve.unavailable(0, i) == (after_setup.unavailable(0, i) || reserved_slab(regions.data@, max, base.0, i)));
                assert(!after_setup.unavailable(0, i));
            }
        }
        PhysicalAddress::new(max)
    }

    /// The layer that serves a request of `bytes`; `None` when it exceeds an L0 slab.
    pub fn get_layer_index_by_size(bytes: usize) -> (r: Option<usize>)
        ensures
            r == (match layer_for_size(bytes as int) {
                Some(k) => Some(k as usize),
                None => None,
            }),
    {
        let bytes = bytes as u64;
        if bytes > L0_SIZE {
            None
        } else if bytes > L1_SIZE {
            Some(0)
        } else if bytes > L2_SIZE {
            Some(1)
        } else if bytes > L3_SIZE {
            Some(2)
        } else if bytes > L4_SIZE {
            Some(3)
        } else if bytes > L5_SIZE {
            Some(4)
        } else if bytes > L6_SIZE {
            Some(5)
        } else if bytes > L7_SIZE {
            Some(6)
        } else {
            Some(7)
        }
    }

    /// Splits `slab`, just taken off layer `from`, down to layer `to`: each
    /// step marks the slab unavailable and puts the upper half's buddy, the
    /// slab's second half at the next layer, on that layer's free list.
    #[verifier::spinoff_prover]
    #[verifier::rlimit(100)]
    fn split(&mut self, slab: u64, from: usize, to: usize) -> (r: PhysicalAddress)
        requires
            old(self).wf(),
            from < to < LAYER_COUNT,
            slab % layer_size(from as int) == 0,
            slab < MAX_MEMORY,
            forall|k: int| from < k <= to ==> #[trigger] old(self).free_list(k).len() == 0,
        ensures
            final(self).wf(),
            final(self).reserved@ == old(self).reserved@,
            r.0 == slab,
            final(self).free_list(from as int) == old(self).free_list(from as int),
            forall|k: int| from < k <= to ==> #[trigger] final(self).free_list(k) == seq![(slab + layer_size(k)) as u64],
            forall|k: int, i: int|
                from <= k <= to && 0 <= i < layer_count(k) ==> #[trigger] final(self).unavailable(k, i) == (i
                    == slab as int / layer_size(k) as int || old(self).unavailable(k, i)),
            forall|k: int| 0 <= k < LAYER_COUNT && (k < from || to < k) ==> #[trigger] final(self).layers@[k]
                == old(self).layers@[k],
    {
        let mut depth = from;
        while depth < to
            invariant
                self.wf(),
                self.reserved@ == old(self).reserved@,
                from <= depth <= to < LAYER_COUNT,
                slab % layer_size(from as int) == 0,
                slab < MAX_MEMORY,
                forall|k: int| from < k <= to ==> #[trigger] old(self).free_list(k).len() == 0,
                self.free_list(from as int) == old(self).free_list(from as int),
                forall|k: int| from < k <= depth ==> #[trigger] self.free_list(k) == seq![(slab + layer_size(k)) as u64],
                forall|k: int| depth < k <= to ==> #[trigger] self.layers@[k] == old(self).layers@[k],
                forall|k: int, i: int|
                    from <= k < depth && 0 <= i < layer_count(k) ==> #[trigger] self.unavailable(k, i) == (i
                        == slab as int / layer_size(k) as int || old(self).unavailable(k, i)),
                self.layers@[depth as int].states@ == old(self).layers@[depth as int].states@,
                forall|k: int| 0 <= k < LAYER_COUNT && (k < from || to < k) ==> #[trigger] self.layers@[k]
                    == old(self).layers@[k],
            decreases to - depth,
        {
            let (size, _) = Self::layer_geometry(depth);
            let (lower_size, _) = Self::layer_geometry(depth + 1);
            proof {
                lemma_layer_divides(slab, from as int, depth as int);
                lemma_layer_divides(slab, from as int, depth as int + 1);
                lemma_layer_halves(depth as int);
                lemma_slots(size, self.layers@[depth as int].count(), slab, slab);
                lemma_buddy_in_range(slab, size, lower_size);
            }
            let ghost before = *self;
            self.layers[depth].set_unavailable((slab / size) as usize);
            let ghost mid = *self;
            let buddy = slab + lower_size;
            proof {
                assert(old(self).free_list(depth as int + 1).len() == 0);
                assert(self.layers@[depth as int + 1] == old(self).layers@[depth as int + 1]);
                assert(buddy % lower_size == 0) by {
                    vstd::arithmetic::div_mod::lemma_mod_adds(slab as int, lower_size as int, lower_size as int);
                }
            }
            self.layers[depth + 1].add(PhysicalAddress::new(buddy));
            proof {
                assert(self.free_list(depth as int + 1) =~= seq![buddy]);
                assert(self.layers@[depth as int] == mid.layers@[depth as int]);
                assert forall|k: int, i: int|
                    from <= k < depth + 1 && 0 <= i < layer_count(k) implies #[trigger] self.unavailable(k, i) == (i
                        == slab as int / layer_size(k) as int || old(self).unavailable(k, i)) by {
                    if k < depth {
                        assert(self.layers@[k] == before.layers@[k]);
                        assert(before.unavailable(k, i) == (i == slab as int / layer_size(k) as int
                            || old(self).unavailable(k, i)));
                    } else {
                        assert(k == depth);
                        assert(before.layers@[k].states@ == old(self).layers@[k].states@);
                        assert(before.unavailable(k, i) == old(self).unavailable(k, i));
                        assert(before.layers@[k].count() == layer_count(k));
                        assert(mid.layers@[k].unavailable(i) == (i == slab as int / size as int
                            || before.layers@[k].unavailable(i)));
                        assert(self.unavailable(k, i) == mid.unavailable(k, i));
                    }
                }
                assert forall|k: int| from < k <= depth + 1 implies #[trigger] self.free_list(k) == seq![(slab + layer_size(k)) as u64] by {
                    if k < depth {
                        assert(self.layers@[k] == before.layers@[k]);
                        assert(before.free_list(k) == seq![(slab + layer_size(k)) as u64]);
                        assert(self.free_list(k) == before.free_list(k));
                    } else if k == depth {
                        assert(mid.layers@[k].free@ == before.layers@[k].free@);
                        assert(self.free_list(k) == mid.free_list(k));
                        assert(before.free_list(k) == seq![(slab + layer_size(k)) as u64]);
                    } else {
                        assert(layer_size(k) == lower_size);
                        assert(self.free_list(k) == seq![buddy]);
                    }
                }
            }
            depth = depth + 1;
        }
        let (size, _) = Self::layer_geometry(to);
        proof {
            lemma_layer_divides(slab, from as int, to as int);
            lemma_slots(size, self.layers@[to as int].count(), slab, slab);
        }
        let ghost before = *self;
        self.layers[to].set_unavailable((slab / size) as usize);
        proof {
            assert forall|k: int, i: int|
                from <= k <= to && 0 <= i < layer_count(k) implies #[trigger] self.unavailable(k, i) == (i
                    == slab as int / layer_size(k) as int || old(self).unavailable(k, i)) by {
                if k < to {
                    assert(self.layers@[k] == before.layers@[k]);
                    assert(before.unavailable(k, i) == (i == slab as int / layer_size(k) as int || old(self).unavailable(k, i)));
                } else {
                    assert(before.layers@[k].states@ == old(self).layers@[k].states@);
                    assert(before.unavailable(k, i) == old(self).unavailable(k, i));
                }
            }
            assert forall|k: int| from < k <= to implies #[trigger] self.free_list(k) == seq![(slab + layer_size(k)) as u64] by {
                if k < to {
                    assert(self.layers@[k] == before.layers@[k]);
                }
                assert(before.free_list(k) == seq![(slab + layer_size(k)) as u64]);
            }
        }
        PhysicalAddress::new(slab)
    }

    /// The deepest layer above `below` whose free list is not empty; -1 if none.
    pub open spec fn deepest_nonempty(&self, below: int) -> int {
        deepest_nonempty_in(self.layers@, below)
    }

    /// The layer whose head slab serves a request for layer `target`: the
    /// target itself when its list is not empty, else the deepest larger layer
    /// with a free slab; -1 when there is none.
    pub open spec fn allocation_source(&self, target: int) -> int {
        if self.free_list(target).len() > 0 {
            target
        } else {
            self.deepest_nonempty(target)
        }
    }

    /// What allocating a slab of layer `target` from layer `source` does:
    /// the head `slab` of `source` leaves its list, every layer from `source`
    /// down to `target` marks its slab at `slab` unavailable, and each layer
    /// below `source` down to `target` gets the buddy half on its list.
    pub open spec fn allocated_from(before: &Self, after: &Self, source: int, target: int, slab: u64) -> bool {
        &&& after.wf()
        &&& after.free_list(source) == before.free_list(source).drop_first()
        &&& forall|k: int| source < k <= target ==> #[trigger] after.free_list(k) == seq![(slab + layer_size(k)) as u64]
        &&& forall|k: int, i: int|
            source <= k <= target && 0 <= i < layer_count(k) ==> #[trigger] after.unavailable(k, i) == (i
                == slab as int / layer_size(k) as int || before.unavailable(k, i))
        &&& forall|k: int| 0 <= k < LAYER_COUNT && (k < source || target < k) ==> #[trigger] after.layers@[k]
            == before.layers@[k]
    }

    /// The outcome of a request for `bytes`: nothing changes and `None` comes
    /// back when the request exceeds an L0 slab or no layer at or above the
    /// target has a free slab; otherwise the source layer's head slab comes back,
    /// split down to the target layer.
    pub open spec fn allocation_result(before: &Self, after: &Self, bytes: int, r: Option<PhysicalAddress>) -> bool {
        match layer_for_size(bytes) {
            None => r.is_none() && after.layers@ == before.layers@,
            Some(t) => {
                let j = before.allocation_source(t);
                &&& j < 0 ==> r.is_none() && after.layers@ == before.layers@
                &&& j >= 0 ==> {
                    let slab = before.free_list(j)[0];
                    &&& r == Some(PhysicalAddress(slab))
                    &&& slab % layer_size(t) == 0
                    &&& slab < MAX_MEMORY
                    &&& Self::allocated_from(before, after, j, t, slab)
                }
            },
        }
    }

    pub proof fn lemma_deepest_nonempty(&self, below: int)
        requires
            self.wf(),
            0 <= below < LAYER_COUNT,
        ensures
            -1 <= self.deepest_nonempty(below) < below,
            self.deepest_nonempty(below) >= 0 ==> self.free_list(self.deepest_nonempty(below)).len() > 0,
            forall|k: int| self.deepest_nonempty(below) < k < below ==> #[trigger] self.free_list(k).len() == 0,
        decreases below,
    {
        reveal_with_fuel(deepest_nonempty_in, 2);
        if below > 0 && self.free_list(below - 1).len() == 0 {
            self.lemma_deepest_nonempty(below - 1);
        }
    }

    /// Takes a slab for `bytes` off the free lists: the head of the target
    /// layer's list, else the head of the deepest larger layer with a free
    /// slab, split down to the target layer. `None` when the request exceeds
    /// an L0 slab or no layer at or above the target has a free slab.
    #[verifier::spinoff_prover]
    #[verifier::rlimit(100)]
    pub fn allocate_physical_region(&mut self, bytes: usize) -> (r: Option<PhysicalAddress>)
        requires
            old(self).wf(),
        ensures
            final(self).wf(),
            final(self).reserved@ == old(self).reserved@,
            Self::allocation_result(old(self), final(self), bytes as int, r),
    {
        let target = match Self::get_layer_index_by_size(bytes) {
            Some(t) => t,
            None => return None,
        };
        proof {
            assert(self.layers@[target as int].wf());
        }
        if self.layers[target].next.is_some() {
            let ghost start = *self;
            let slab = self.layers[target].try_allocate();
            proof {
                let t = target as int;
                assert(start.layers@[t].free@[0] == start.free_list(t)[0]);
                assert forall|k: int| 0 <= k < LAYER_COUNT && (k < t || t < k) implies #[trigger] self.layers@[k]
                    == start.layers@[k] by {}
                assert(start.allocation_source(t) == t);
                assert(Self::allocated_from(&start, self, t, t, start.free_list(t)[0]));
                assert(Self::allocation_result(&start, self, bytes as int, slab));
            }
            return slab;
        }
        proof {
            self.lemma_deepest_nonempty(target as int);
        }
        let mut index = target;
        while index > 0
            invariant
                self.wf(),
                self.reserved@ == old(self).reserved@,
                self.layers@ == old(self).layers@,
                index <= target < LAYER_COUNT,
                layer_for_size(bytes as int) == Some(target as int),
                self.free_list(target as int).len() == 0,
                forall|k: int| index <= k <= target ==> #[trigger] self.free_list(k).len() == 0,
                self.deepest_nonempty(target as int) < index,
            decreases index,
        {
            index = index - 1;
            proof {
                assert(self.layers@[index as int].wf());
            }
            if self.layers[index].next.is_some() {
                proof {
                    self.lemma_deepest_nonempty(target as int);
                    let j = index as int;
                    assert(self.free_list(j).len() > 0);
                    assert(self.deepest_nonempty(target as int) == j);
                    assert(self.allocation_source(target as int) == j);
                }
                let ghost start = *self;
                let r = self.take_and_split(index, target);
                proof {
                    assert(Self::allocation_result(&start, self, bytes as int, Some(r)));
                }
                return Some(r);
            }
            proof {
                self.lemma_deepest_nonempty(target as int);
                assert(self.free_list(index as int).len() == 0);
            }
        }
        proof {
            self.lemma_deepest_nonempty(target as int);
            assert(self.allocation_source(target as int) < 0);
        }
        None
    }

    /// Takes the head slab of layer `source` and splits it down to layer `target`.
    fn take_and_split(&mut self, source: usize, target: usize) -> (r: PhysicalAddress)
        requires
            old(self).wf(),
            source < target < LAYER_COUNT,
            old(self).free_list(source as int).len() > 0,
            forall|k: int| source < k <= target ==> #[trigger] old(self).free_list(k).len() == 0,
        ensures
            final(self).reserved@ == old(self).reserved@,
            r.0 == old(self).free_list(source as int)[0],
            r.0 % layer_size(target as int) == 0,
            r.0 < MAX_MEMORY,
            Self::allocated_from(old(self), final(self), source as int, target as int, r.0),
    {
        let ghost start = *self;
        proof {
            assert(self.layers@[source as int].wf());
        }
        let taken = self.layers[source].try_take();
        let slab = match taken {
            Some(s) => s,
            None => {
                proof {
                    assert(false);
                }
                return PhysicalAddress::null();
            },
        };
        proof {
            let j = source as int;
            assert(start.layers@[j].free@[0] == start.free_list(j)[0]);
            assert(self.layers@[j].states@ == start.layers@[j].states@);
            assert forall|k: int| 0 <= k < LAYER_COUNT && k != j implies #[trigger] self.layers@[k]
                == start.layers@[k] by {}
            assert(self.wf());
            lemma_layer_divides(slab.0, j, target as int);
            assert forall|k: int| source < k <= target implies #[trigger] self.free_list(k).len() == 0 by {
                assert(self.layers@[k] == start.layers@[k]);
                assert(start.free_list(k).len() == 0);
            }
        }
        let ghost taken_state = *self;
        let r = self.split(slab.0, source, target);
        proof {
            let j = source as int;
            assert forall|k: int, i: int|
                j <= k <= target && 0 <= i < layer_count(k) implies #[trigger] self.unavailable(k, i) == (i
                    == slab.0 as int / layer_size(k) as int || start.unavailable(k, i)) by {
                assert(taken_state.unavailable(k, i) == start.unavailable(k, i)) by {
                    if k == j {
                        assert(taken_state.layers@[k].states@ == start.layers@[k].states@);
                    } else {
                        assert(taken_state.layers@[k] == start.layers@[k]);
                    }
                }
            }
            assert forall|k: int| 0 <= k < LAYER_COUNT && (k < j || target < k) implies #[trigger] self.layers@[k]
                == start.layers@[k] by {
                assert(taken_state.layers@[k] == start.layers@[k]);
            }
        }
        r
    }

    /// Whether a request for `bytes` can be served: it fits an L0 slab and
    /// some layer at or above the target layer has a free slab.
    pub open spec fn serves(&self, bytes: int) -> bool {
        &&& layer_for_size(bytes) is Some
        &&& self.allocation_source(layer_for_size(bytes)->Some_0) >= 0
    }

    /// Whether `allocate(bytes)` can be called: asking more than an L0 slab,
    /// or for memory that is exhausted, is a kernel bug.
    pub fn can_allocate(&self, bytes: usize) -> (r: bool)
        requires
            self.wf(),
        ensures
            r == self.serves(bytes as int),
    {
        let target = match Self::get_layer_index_by_size(bytes) {
            Some(t) => t,
            None => return false,
        };
        proof {
            self.lemma_deepest_nonempty(target as int);
            assert(self.layers@[target as int].wf());
        }
        if self.layers[target].next.is_some() {
            proof {
                assert(self.free_list(target as int).len() > 0);
            }
            return true;
        }
        let mut index = target;
        while index > 0
            invariant
                self.wf(),
                index <= target < LAYER_COUNT,
                layer_for_size(bytes as int) == Some(target as int),
                self.free_list(target as int).len() == 0,
                forall|k: int| index <= k <= target ==> #[trigger] self.free_list(k).len() == 0,
                self.deepest_nonempty(target as int) < index,
            decreases index,
        {
            index = index - 1;
            proof {
                assert(self.layers@[index as int].wf());
                self.lemma_deepest_nonempty(target as int);
            }
            if self.layers[index].next.is_some() {
                proof {
                    assert(self.free_list(index as int).len() > 0);
                    self.lemma_deepest_nonempty(target as int);
                }
                return true;
            }
        }
        false
    }

    /// Allocates a slab that holds `bytes` and returns its direct-map address.
    pub fn allocate(&mut self, bytes: usize) -> (r: VirtualAddress)
        requires
            old(self).wf(),
            old(self).serves(bytes as int),
        ensures
            final(self).wf(),
            final(self).reserved@ == old(self).reserved@,
            ({
                let t = layer_for_size(bytes as int)->Some_0;
                let j = old(self).allocation_source(t);
                let slab = old(self).free_list(j)[0];
                &&& r == VirtualAddress(spec_to_kernel(slab))
                &&& slab % layer_size(t) == 0
                &&& slab < MAX_MEMORY
                &&& Self::allocated_from(old(self), final(self), j, t, slab)
                &&& Self::allocation_result(old(self), final(self), bytes as int, Some(PhysicalAddress(slab)))
            }),
    {
        match self.allocate_physical_region(bytes) {
            Some(physical_address) => VirtualAddress::to_kernel(physical_address),
            None => VirtualAddress::null(),
        }
    }

    /// The deepest layer at or above `depth` whose slab holding `address` is
    /// marked unavailable; -1 if none.
    pub open spec fn owner_from(&self, address: u64, depth: int) -> int
        decreases depth + 1,
    {
        if depth < 0 {
            -1
        } else if self.unavailable(depth, address as int / layer_size(depth) as int) {
            depth
        } else {
            self.owner_from(address, depth - 1)
        }
    }

    /// Whether slab `address` of layer `depth` is available.
    pub fn is_available(&self, depth: usize, address: u64) -> (r: bool)
        requires
            self.wf(),
            depth < LAYER_COUNT,
            address < MAX_MEMORY,
        ensures
            r == !self.unavailable(depth as int, address as int / layer_size(depth as int) as int),
    {
        let (size, _) = Self::layer_geometry(depth);
        proof {
            assert(self.layers@[depth as int].wf());
            assert((address as int / size as int) < layer_count(depth as int)) by (nonlinear_arith)
                requires
                    address < MAX_MEMORY,
                    layer_count(depth as int) * size == MAX_MEMORY,
                    size > 0,
            ;
        }
        self.layers[depth].is_available((address / size) as usize)
    }

    /// Whether slab `address` of layer `depth` is split (see `is_split`).
    pub open spec fn split_at(&self, depth: int, address: u64) -> bool {
        let i = address as int / layer_size(depth) as int;
        depth + 1 < LAYER_COUNT && self.unavailable(depth, i) && (self.unavailable(depth + 1, 2 * i)
            || self.unavailable(depth + 1, 2 * i + 1))
    }

    /// Whether slab `address` of layer `depth` is split: it is unavailable and
    /// so is at least one of its two halves on the layer below. The bitmaps
    /// alone decide this; nothing else records it.
    pub fn is_split(&self, depth: usize, address: u64) -> (r: bool)
        requires
            self.wf(),
            depth < LAYER_COUNT,
            address < MAX_MEMORY,
            address % layer_size(depth as int) == 0,
        ensures
            r == self.split_at(depth as int, address),
    {
        if depth + 1 >= LAYER_COUNT {
            return false;
        }
        if self.is_available(depth, address) {
            return false;
        }
        let (size, _) = Self::layer_geometry(depth);
        let (lower_size, _) = Self::layer_geometry(depth + 1);
        proof {
            lemma_layer_halves(depth as int);
            lemma_buddy_in_range(address, size, lower_size);
            lemma_layer_divides(address, depth as int, depth as int + 1);
            let i = address as int / size as int;
            lemma_layer_geometry(depth as int);
            lemma_slots(size, layer_count(depth as int) as int, address, address);
            assert(address == i * size);
            assert(address as int / lower_size as int == 2 * i) by {
                assert(address == (2 * i) * lower_size) by (nonlinear_arith)
                    requires
                        address == i * size,
                        size == 2 * lower_size,
                ;
                lemma_index_address(2 * i, lower_size as int);
            }
            assert((address + lower_size) as int / lower_size as int == 2 * i + 1) by {
                assert(address + lower_size == (2 * i + 1) * lower_size) by (nonlinear_arith)
                    requires
                        address == i * size,
                        size == 2 * lower_size,
                ;
                lemma_index_address(2 * i + 1, lower_size as int);
            }
        }
        !self.is_available(depth + 1, address) || !self.is_available(depth + 1, address + lower_size)
    }

    /// The free list of layer `depth`, read by following the slabs' links.
    pub fn free_slabs(&self, depth: usize) -> (r: Vec<u64>)
        requires
            self.wf(),
            depth < LAYER_COUNT,
        ensures
            r@ == self.free_list(depth as int),
    {
        let ghost free = self.free_list(depth as int);
        let layer = &self.layers[depth];
        proof {
            assert(layer.wf());
        }
        let mut out: Vec<u64> = Vec::new();
        let mut current = layer.next;
        while current.is_some()
            invariant
                layer.wf(),
                free == layer.free@,
                out@.len() <= free.len(),
                out@ == free.take(out@.len() as int),
                current == (if out@.len() < free.len() {
                    Some(PhysicalAddress(free[out@.len() as int]))
                } else {
                    None::<PhysicalAddress>
                }),
            decreases free.len() - out@.len(),
        {
            let address = match current {
                Some(a) => a.0,
                None => 0,
            };
            let ghost i = out@.len() as int;
            proof {
                assert(free[i] == address);
                lemma_slots(layer.size, layer.count(), address, address);
                if i + 1 < free.len() {
                    assert(free[i + 1] > 0);
                }
            }
            out.push(address);
            let next = layer.links[(address / layer.size) as usize].next;
            current = if next.0 == 0 {
                None
            } else {
                Some(next)
            };
            proof {
                assert(out@ =~= free.take(i + 1));
            }
        }
        proof {
            assert(out@ =~= free);
        }
        out
    }

    /// Whether the slab `slab` of layer `level` merges with its buddy when
    /// freed: the buddy is available and listed, and the parent slab on the
    /// layer above is marked unavailable.
    pub open spec fn merges(&self, level: int, slab: u64) -> bool {
        let buddy = buddy_of(slab, level);
        &&& level > 0
        &&& self.unavailable(level - 1, parent_of(slab, level) as int / layer_size(level - 1) as int)
        &&& !self.unavailable(level, buddy as int / layer_size(level) as int)
        &&& self.free_list(level).contains(buddy)
    }

    /// The layer where merging stops when slab `a` of layer `k` is freed,
    /// looking from layer `l` up.
    pub open spec fn merge_stop(&self, a: u64, k: int, l: int) -> int
        decreases l,
    {
        if l > 0 && self.merges(l, chain(a, k, l)) {
            self.merge_stop(a, k, l - 1)
        } else {
            l
        }
    }

    /// What freeing slab `a` of layer `k` does, from `before` to `after`: on
    /// each layer from `k` up to the layer `m` where merging stops, the slab
    /// of the merge chain becomes available; on each layer merged past, its
    /// buddy leaves the free list; at `m` the merged slab joins the tail of
    /// the list (unless it is already there, or is physical zero); every other
    /// layer is unchanged.
    pub open spec fn freed_from(before: &Self, after: &Self, a: u64, k: int) -> bool {
        let m = before.merge_stop(a, k, k);
        &&& after.wf()
        &&& 0 <= m <= k
        &&& forall|l: int, i: int|
            m <= l <= k && 0 <= i < layer_count(l) ==> #[trigger] after.unavailable(l, i) == (i != chain(a, k, l) as int
                / layer_size(l) as int && before.unavailable(l, i))
        &&& forall|l: int|
            m < l <= k ==> #[trigger] after.free_list(l) == before.free_list(l).remove(
                before.free_list(l).index_of(buddy_of(chain(a, k, l), l)),
            )
        &&& after.free_list(m) == (if chain(a, k, m) != 0 && !before.free_list(m).contains(chain(a, k, m)) {
            before.free_list(m).push(chain(a, k, m))
        } else {
            before.free_list(m)
        })
        &&& forall|l: int| 0 <= l < LAYER_COUNT && (l < m || k < l) ==> #[trigger] after.layers@[l] == before.layers@[l]
    }

    /// Frees slab `address` of layer `depth`: clears its bit, then, while it
    /// merges with its buddy, takes the buddy off its list and moves up to the
    /// parent; the slab where merging stops joins the tail of its list.
    fn unsplit(&mut self, depth: usize, address: u64)
        requires
            old(self).wf(),
            depth < LAYER_COUNT,
            address % layer_size(depth as int) == 0,
            address < MAX_MEMORY,
        ensures
            final(self).reserved@ == old(self).reserved@,
            Self::freed_from(old(self), final(self), address, depth as int),
    {
        let ghost before = *old(self);
        let mut level = depth;
        let mut slab = address;
        loop
            invariant
                self.wf(),
                self.reserved@ == old(self).reserved@,
                before == *old(self),
                level <= depth < LAYER_COUNT,
                slab == chain(address, depth as int, level as int),
                slab % layer_size(level as int) == 0,
                slab < MAX_MEMORY,
                forall|l: int| 0 <= l <= level ==> #[trigger] self.layers@[l] == before.layers@[l],
                forall|l: int| depth < l < LAYER_COUNT ==> #[trigger] self.layers@[l] == before.layers@[l],
                before.merge_stop(address, depth as int, depth as int) == before.merge_stop(
                    address,
                    depth as int,
                    level as int,
                ),
                done_above(before, *self, address, depth as int, level as int),
            decreases level,
        {
            let ghost at_level = *self;
            let (merged, parent) = self.merge_one(level, slab);
            proof {
                assert(at_level.layers@[level as int] == before.layers@[level as int]);
                if level > 0 {
                    assert(at_level.layers@[level as int - 1] == before.layers@[level as int - 1]);
                }
                assert(merged == before.merges(level as int, slab));
                lemma_done_above_frame(before, at_level, *self, address, depth as int, level as int);
            }
            if merged {
                proof {
                    lemma_done_above_extend(before, *self, address, depth as int, level as int);
                    assert(chain(address, depth as int, level as int - 1) == parent);
                }
                slab = parent;
                level = level - 1;
            } else {
                proof {
                    let m = level as int;
                    assert(before.merge_stop(address, depth as int, m) == m);
                    assert forall|l: int, i: int|
                        m <= l <= depth && 0 <= i < layer_count(l) implies #[trigger] self.unavailable(l, i) == (i
                            != chain(address, depth as int, l) as int / layer_size(l) as int && before.unavailable(l, i)) by {
                        if l == m {
                            assert(at_level.unavailable(l, i) == before.unavailable(l, i));
                        }
                    }
                    assert forall|l: int| 0 <= l < LAYER_COUNT && (l < m || depth < l) implies #[trigger] self.layers@[l]
                        == before.layers@[l] by {
                        assert(self.layers@[l] == at_level.layers@[l]);
                    }
                }
                return ;
            }
        }
    }

    /// One step of freeing on layer `level`: clears the bit of `slab`, then
    /// either takes its buddy off the list, when the two merge, and gives the
    /// parent; or lists `slab` at the tail of the layer's list.
    fn merge_one(&mut self, level: usize, slab: u64) -> (r: (bool, u64))
        requires
            old(self).wf(),
            level < LAYER_COUNT,
            slab % layer_size(level as int) == 0,
            slab < MAX_MEMORY,
        ensures
            final(self).wf(),
            final(self).reserved@ == old(self).reserved@,
            forall|l: int| 0 <= l < LAYER_COUNT && l != level ==> #[trigger] final(self).layers@[l] == old(self).layers@[l],
            r.1 == parent_of(slab, level as int),
            r.0 == old(self).merges(level as int, slab),
            r.0 ==> r.1 % layer_size(level - 1) == 0 && r.1 < MAX_MEMORY,
            forall|i: int|
                0 <= i < layer_count(level as int) ==> #[trigger] final(self).unavailable(level as int, i) == (i
                    != slab as int / layer_size(level as int) as int && old(self).unavailable(level as int, i)),
            r.0 ==> final(self).free_list(level as int) == old(self).free_list(level as int).remove(
                old(self).free_list(level as int).index_of(buddy_of(slab, level as int)),
            ),
            !r.0 ==> final(self).free_list(level as int) == (if slab != 0 && !old(self).free_list(
                level as int,
            ).contains(slab) {
                old(self).free_list(level as int).push(slab)
            } else {
                old(self).free_list(level as int)
            }),
    {
        let (size, _) = Self::layer_geometry(level);
        let index = (slab / size) as usize;
        proof {
            assert(self.layers@[level as int].wf());
            lemma_layer_geometry(level as int);
            lemma_slots(size, layer_count(level as int) as int, slab, slab);
            lemma_buddy(slab, level as int, index as int);
        }
        let buddy = if index % 2 == 0 {
            slab + size
        } else {
            slab - size
        };
        let parent = if buddy < slab {
            buddy
        } else {
            slab
        };
        proof {
            lemma_slots(size, layer_count(level as int) as int, buddy, slab);
            assert(buddy == buddy_of(slab, level as int));
        }
        let mut parent_taken = false;
        if level > 0 {
            let (upper_size, _) = Self::layer_geometry(level - 1);
            proof {
                lemma_merged(slab, buddy, level as int, index as int);
                lemma_layer_geometry(level as int - 1);
                lemma_slots(upper_size, layer_count(level as int - 1) as int, parent, parent);
            }
            parent_taken = !self.is_available(level - 1, parent);
        }
        let merged = self.layers[level].free_step(index, slab, buddy, parent_taken);
        proof {
            if merged {
                lemma_merged(slab, buddy, level as int, index as int);
            }
        }
        (merged, parent)
    }

    /// The allocator frees the slab at direct-map address `address`: it is a
    /// kernel address, 4 KiB aligned, inside managed memory, and the deepest
    /// layer marking its slab unavailable holds a slab that starts there and
    /// is not split.
    pub open spec fn frees(&self, address: u64) -> bool {
        let p = spec_to_physical(address);
        let k = self.owner_from(p, 7);
        &&& spec_is_kernel(address)
        &&& p % L7_SIZE == 0
        &&& p < MAX_MEMORY
        &&& k >= 0
        &&& p % layer_size(k) == 0
        &&& !self.split_at(k, p)
        &&& k == 0 ==> !state_bit(self.reserved@, p as int / L0_SIZE as int)
    }

    proof fn lemma_owner_bound(&self, p: u64, d: int)
        requires
            d >= -1,
        ensures
            -1 <= self.owner_from(p, d) <= d,
        decreases d + 1,
    {
        if d >= 0 {
            self.lemma_owner_bound(p, d - 1);
        }
    }

    /// The deepest layer whose slab holding `physical` is marked unavailable.
    fn owner_layer(&self, physical: u64) -> (r: Option<usize>)
        requires
            self.wf(),
            physical < MAX_MEMORY,
        ensures
            self.owner_from(physical, 7) < 0 ==> r.is_none(),
            self.owner_from(physical, 7) >= 0 ==> r == Some(self.owner_from(physical, 7) as usize),
    {
        let mut depth: usize = LAYER_COUNT;
        while depth > 0
            invariant
                self.wf(),
                depth <= LAYER_COUNT,
                physical < MAX_MEMORY,
                self.owner_from(physical, 7) == self.owner_from(physical, depth as int - 1),
            decreases depth,
        {
            depth = depth - 1;
            if !self.is_available(depth, physical) {
                proof {
                    assert(self.owner_from(physical, depth as int) == depth);
                }
                return Some(depth);
            }
        }
        None
    }

    /// Whether `deallocate` accepts `address` (see `frees`). Freeing an
    /// address that fails this is a kernel bug.
    pub fn owns(&self, address: VirtualAddress) -> (r: bool)
        requires
            self.wf(),
        ensures
            r == self.frees(address.0),
    {
        if !is_kernel_address(address.value()) {
            return false;
        }
        let physical = to_physical_address(address.value());
        if physical % L7_SIZE != 0 || physical >= MAX_MEMORY {
            return false;
        }
        match self.owner_layer(physical) {
            None => false,
            Some(depth) => {
                proof {
                    self.lemma_owner_bound(physical, 7);
                }
                let (size, _) = Self::layer_geometry(depth);
                if physical % size != 0 || self.is_split(depth, physical) {
                    return false;
                }
                proof {
                    assert(physical / L0_SIZE < L0_COUNT) by (nonlinear_arith)
                        requires
                            physical < MAX_MEMORY,
                    ;
                }
                depth != 0 || !self.reserved_at((physical / L0_SIZE) as usize)
            },
        }
    }

    /// Returns the slab at direct-map address `address` to the allocator and
    /// gives its layer: the slab's bit is cleared and it merges with free
    /// buddies upward (see `freed_from`).
    pub fn deallocate(&mut self, address: VirtualAddress) -> (r: usize)
        requires
            old(self).wf(),
            old(self).frees(address.0),
        ensures
            final(self).reserved@ == old(self).reserved@,
            r == old(self).owner_from(spec_to_physical(address.0), 7),
            Self::freed_from(old(self), final(self), spec_to_physical(address.0), r as int),
    {
        let physical = to_physical_address(address.value());
        proof {
            self.lemma_owner_bound(physical, 7);
        }
        let depth = match self.owner_layer(physical) {
            Some(d) => d,
            None => 0,
        };
        self.unsplit(depth, physical);
        depth
    }
}

/// Slab `a`'s ancestor on layer `l` when it is freed on layer `k`: `a` itself
/// at `k`, and the parent of the one below on each layer above.
pub open spec fn chain(a: u64, k: int, l: int) -> u64
    decreases k - l,
{
    if l >= k {
        a
    } else {
        parent_of(chain(a, k, l + 1), l + 1)
    }
}

/// The other half of the parent of slab `a` of layer `depth`.
pub open spec fn buddy_of(a: u64, depth: int) -> u64 {
    if (a as int / layer_size(depth) as int) % 2 == 0 {
        (a + layer_size(depth)) as u64
    } else {
        (a - layer_size(depth)) as u64
    }
}

/// The parent of slab `a` of layer `depth`: the lower of it and its buddy.
pub open spec fn parent_of(a: u64, depth: int) -> u64 {
    if buddy_of(a, depth) < a {
        buddy_of(a, depth)
    } else {
        a
    }
}

/// On every layer in `(level, depth]`, freeing slab `a` of layer `depth` has
/// done its work: the chain slab's bit is clear and the buddy left the list.
pub open spec fn done_above(before: PhysicalBuddyAllocator, now: PhysicalBuddyAllocator, a: u64, depth: int, level: int) -> bool {
    &&& forall|l: int, i: int|
        level < l <= depth && 0 <= i < layer_count(l) ==> #[trigger] now.unavailable(l, i) == (i != chain(a, depth, l) as int
            / layer_size(l) as int && before.unavailable(l, i))
    &&& forall|l: int|
        level < l <= depth ==> #[trigger] now.free_list(l) == before.free_list(l).remove(
            before.free_list(l).index_of(buddy_of(chain(a, depth, l), l)),
        )
}

proof fn lemma_done_above_frame(
    before: PhysicalBuddyAllocator,
    s: PhysicalBuddyAllocator,
    t: PhysicalBuddyAllocator,
    a: u64,
    depth: int,
    level: int,
)
    requires
        done_above(before, s, a, depth, level),
        forall|l: int| level < l <= depth ==> #[trigger] t.layers@[l] == s.layers@[l],
    ensures
        done_above(before, t, a, depth, level),
{
    assert forall|l: int, i: int| level < l <= depth && 0 <= i < layer_count(l) implies #[trigger] t.unavailable(l, i)
        == (i != chain(a, depth, l) as int / layer_size(l) as int && before.unavailable(l, i)) by {
        assert(t.layers@[l] == s.layers@[l]);
        assert(s.unavailable(l, i) == (i != chain(a, depth, l) as int / layer_size(l) as int && before.unavailable(l, i)));
    }
    assert forall|l: int| level < l <= depth implies #[trigger] t.free_list(l) == before.free_list(l).remove(
        before.free_list(l).index_of(buddy_of(chain(a, depth, l), l)),
    ) by {
        assert(t.layers@[l] == s.layers@[l]);
        assert(s.free_list(l) == before.free_list(l).remove(before.free_list(l).index_of(buddy_of(chain(a, depth, l), l))));
    }
}

proof fn lemma_done_above_extend(before: PhysicalBuddyAllocator, t: PhysicalBuddyAllocator, a: u64, depth: int, level: int)
    requires
        done_above(before, t, a, depth, level),
        forall|i: int|
            0 <= i < layer_count(level) ==> #[trigger] t.unavailable(level, i) == (i != chain(a, depth, level) as int
                / layer_size(level) as int && before.unavailable(level, i)),
        t.free_list(level) == before.free_list(level).remove(
            before.free_list(level).index_of(buddy_of(chain(a, depth, level), level)),
        ),
    ensures
        done_above(before, t, a, depth, level - 1),
{
}

/// Whether the ranges `[a, a + size_a)` and `[b, b + size_b)` do not overlap.
pub open spec fn apart(a: u64, size_a: u64, b: u64, size_b: u64) -> bool {
    a + size_a <= b || b + size_b <= a
}

impl PhysicalBuddyAllocator {
    /// Every free slab of every layer covers memory that no other free slab covers.
    pub open spec fn free_disjoint(&self) -> bool {
        layers_disjoint(self.layers@)
    }
}

/// The free slabs of `layers` pairwise do not overlap.
pub open spec fn layers_disjoint(layers: Seq<Layer>) -> bool {
    forall|a: int, i: int, b: int, j: int|
        #![trigger layers[a].free@[i], layers[b].free@[j]]
        0 <= a < LAYER_COUNT && 0 <= b < LAYER_COUNT && 0 <= i < layers[a].free@.len() && 0 <= j
            < layers[b].free@.len() && (a != b || i != j) ==> apart(
            layers[a].free@[i],
            layer_size(a),
            layers[b].free@[j],
            layer_size(b),
        )
}

proof fn lemma_sizes_ordered(a: int, b: int)
    requires
        0 <= a < b < LAYER_COUNT,
    ensures
        layer_size(a) >= 2 * layer_size(b),
    decreases b - a,
{
    lemma_layer_halves(b - 1);
    if a < b - 1 {
        lemma_sizes_ordered(a, b - 1);
    }
}

/// Where a free slab stands after an allocation from layer `source` split
/// down to `target`: it is an old free slab other than the taken one, or the
/// upper half of the taken slab at a layer below `source`.
pub open spec fn free_origin(before: PhysicalBuddyAllocator, source: int, target: int, slab: u64, b: int, y: u64) -> bool {
    ||| (source < b <= target && y == slab + layer_size(b))
    ||| exists|i: int|
        0 <= i < before.free_list(b).len() && (b != source || i != 0) && #[trigger] before.free_list(b)[i] == y
}

proof fn lemma_free_origin(
    before: PhysicalBuddyAllocator,
    after: PhysicalBuddyAllocator,
    source: int,
    target: int,
    slab: u64,
    b: int,
    j: int,
)
    requires
        before.wf(),
        0 <= source <= target < LAYER_COUNT,
        before.free_list(source).len() > 0,
        slab == before.free_list(source)[0],
        PhysicalBuddyAllocator::allocated_from(&before, &after, source, target, slab),
        0 <= b < LAYER_COUNT,
        0 <= j < after.free_list(b).len(),
    ensures
        free_origin(before, source, target, slab, b, after.free_list(b)[j]),
{
    if source < b <= target {
        assert(after.free_list(b) == seq![(slab + layer_size(b)) as u64]);
        lemma_buddy_in_range_top(slab, source);
        lemma_sizes_ordered(source, b);
    } else if b == source {
        assert(after.free_list(b)[j] == before.free_list(b)[j + 1]);
    } else {
        assert(after.layers@[b] == before.layers@[b]);
        assert(before.free_list(b)[j] == after.free_list(b)[j]);
    }
}

proof fn lemma_origins_apart(
    before: PhysicalBuddyAllocator,
    source: int,
    target: int,
    slab: u64,
    a: int,
    x: u64,
    b: int,
    y: u64,
)
    requires
        before.wf(),
        before.free_disjoint(),
        0 <= source <= target < LAYER_COUNT,
        before.free_list(source).len() > 0,
        slab == before.free_list(source)[0],
        slab + layer_size(source) <= MAX_MEMORY,
        0 <= a < LAYER_COUNT,
        0 <= b < LAYER_COUNT,
        free_origin(before, source, target, slab, a, x),
        free_origin(before, source, target, slab, b, y),
        a != b || x != y,
    ensures
        apart(x, layer_size(a), y, layer_size(b)),
{
    let size_src = layer_size(source);
    if source < a <= target && x == slab + layer_size(a) && source < b <= target && y == slab + layer_size(b) {
        if a < b {
            lemma_sizes_ordered(a, b);
        } else if b < a {
            lemma_sizes_ordered(b, a);
        }
    } else if source < a <= target && x == slab + layer_size(a) {
        let jb = choose|jb: int|
            0 <= jb < before.free_list(b).len() && (b != source || jb != 0) && #[trigger] before.free_list(b)[jb] == y;
        lemma_sizes_ordered(source, a);
        assert(apart(before.free_list(source)[0], size_src, before.free_list(b)[jb], layer_size(b)));
    } else if source < b <= target && y == slab + layer_size(b) {
        let ia = choose|ia: int|
            0 <= ia < before.free_list(a).len() && (a != source || ia != 0) && #[trigger] before.free_list(a)[ia] == x;
        lemma_sizes_ordered(source, b);
        assert(apart(before.free_list(a)[ia], layer_size(a), before.free_list(source)[0], size_src));
    } else {
        let ia = choose|ia: int|
            0 <= ia < before.free_list(a).len() && (a != source || ia != 0) && #[trigger] before.free_list(a)[ia] == x;
        let jb = choose|jb: int|
            0 <= jb < before.free_list(b).len() && (b != source || jb != 0) && #[trigger] before.free_list(b)[jb] == y;
        assert(a != b || ia != jb);
        assert(apart(before.free_list(a)[ia], layer_size(a), before.free_list(b)[jb], layer_size(b)));
    }
}

proof fn lemma_taken_apart(
    before: PhysicalBuddyAllocator,
    source: int,
    target: int,
    slab: u64,
    b: int,
    y: u64,
)
    requires
        before.wf(),
        before.free_disjoint(),
        0 <= source <= target < LAYER_COUNT,
        before.free_list(source).len() > 0,
        slab == before.free_list(source)[0],
        0 <= b < LAYER_COUNT,
        free_origin(before, source, target, slab, b, y),
    ensures
        apart(slab, layer_size(target), y, layer_size(b)),
{
    if source < b <= target && y == slab + layer_size(b) {
        if b < target {
            lemma_sizes_ordered(b, target);
        }
    } else {
        let jb = choose|jb: int|
            0 <= jb < before.free_list(b).len() && (b != source || jb != 0) && #[trigger] before.free_list(b)[jb] == y;
        assert(apart(before.free_list(source)[0], layer_size(source), before.free_list(b)[jb], layer_size(b)));
        if source < target {
            lemma_sizes_ordered(source, target);
        }
    }
}

proof fn lemma_split_keeps_free_disjoint(
    before: PhysicalBuddyAllocator,
    after: PhysicalBuddyAllocator,
    source: int,
    target: int,
    slab: u64,
)
    requires
        before.wf(),
        before.free_disjoint(),
        0 <= source <= target < LAYER_COUNT,
        before.free_list(source).len() > 0,
        slab == before.free_list(source)[0],
        PhysicalBuddyAllocator::allocated_from(&before, &after, source, target, slab),
    ensures
        after.free_disjoint(),
        forall|b: int, j: int|
            #![trigger after.free_list(b)[j]]
            0 <= b < LAYER_COUNT && 0 <= j < after.free_list(b).len() ==> apart(
                slab,
                layer_size(target),
                after.free_list(b)[j],
                layer_size(b),
            ),
{
    assert(before.layers@[source].wf());
    lemma_buddy_in_range_top(slab, source);
    let layers = after.layers@;
    assert forall|a: int, i: int, b: int, j: int|
        #![trigger layers[a].free@[i], layers[b].free@[j]]
        0 <= a < LAYER_COUNT && 0 <= b < LAYER_COUNT && 0 <= i < layers[a].free@.len() && 0 <= j
            < layers[b].free@.len() && (a != b || i != j) implies apart(
            layers[a].free@[i],
            layer_size(a),
            layers[b].free@[j],
            layer_size(b),
        ) by {
        lemma_free_origin(before, after, source, target, slab, a, i);
        lemma_free_origin(before, after, source, target, slab, b, j);
        if a == b {
            assert(after.layers@[a].wf());
            assert(after.free_list(a)[i] != after.free_list(b)[j]);
        }
        lemma_origins_apart(before, source, target, slab, a, after.free_list(a)[i], b, after.free_list(b)[j]);
    }
    assert(layers_disjoint(after.layers@));
    assert forall|b: int, j: int|
        #![trigger after.free_list(b)[j]]
        0 <= b < LAYER_COUNT && 0 <= j < after.free_list(b).len() implies apart(
            slab,
            layer_size(target),
            after.free_list(b)[j],
            layer_size(b),
        ) by {
        lemma_free_origin(before, after, source, target, slab, b, j);
        lemma_taken_apart(before, source, target, slab, b, after.free_list(b)[j]);
    }
}

proof fn lemma_single_list_disjoint(allocator: PhysicalBuddyAllocator)
    requires
        allocator.wf(),
        forall|k: int| 1 <= k < LAYER_COUNT ==> #[trigger] allocator.free_list(k) == Seq::<u64>::empty(),
    ensures
        allocator.free_disjoint(),
{
    let layers = allocator.layers@;
    assert(layers[0].wf());
    assert forall|a: int, i: int, b: int, j: int|
        #![trigger layers[a].free@[i], layers[b].free@[j]]
        0 <= a < LAYER_COUNT && 0 <= b < LAYER_COUNT && 0 <= i < layers[a].free@.len() && 0 <= j
            < layers[b].free@.len() && (a != b || i != j) implies apart(
            layers[a].free@[i],
            layer_size(a),
            layers[b].free@[j],
            layer_size(b),
        ) by {
        if a != 0 {
            assert(allocator.free_list(a) == Seq::<u64>::empty());
        }
        if b != 0 {
            assert(allocator.free_list(b) == Seq::<u64>::empty());
        }
        let x = layers[0].free@[i];
        let y = layers[0].free@[j];
        lemma_slots(L0_SIZE, L0_COUNT as int, x, y);
        lemma_slots(L0_SIZE, L0_COUNT as int, y, x);
        let qx = x as int / L0_SIZE as int;
        let qy = y as int / L0_SIZE as int;
        assert(x + L0_SIZE <= y || y + L0_SIZE <= x) by (nonlinear_arith)
            requires
                qx * L0_SIZE == x,
                qy * L0_SIZE == y,
                qx != qy,
        ;
    }
}

proof fn lemma_reserved_apart(s: PhysicalBuddyAllocator, r: int)
    requires
        s.wf(),
        0 <= r < L0_COUNT,
        state_bit(s.reserved@, r),
        forall|k: int| 1 <= k < LAYER_COUNT ==> #[trigger] s.free_list(k) == Seq::<u64>::empty(),
        forall|i: int|
            0 <= i < s.free_list(0).len() ==> !state_bit(s.reserved@, #[trigger] s.free_list(0)[i] as int / L0_SIZE as int),
    ensures
        apart_from_free(s, (r * L0_SIZE) as u64, L0_SIZE),
{
    lemma_slot_address(L0_SIZE, L0_COUNT as int, r);
    assert(s.layers@[0].wf());
    assert forall|l: int, i: int|
        #![trigger s.free_list(l)[i]]
        0 <= l < LAYER_COUNT && 0 <= i < s.free_list(l).len() implies apart(
            (r * L0_SIZE) as u64,
            L0_SIZE,
            s.free_list(l)[i],
            layer_size(l),
        ) by {
        if l != 0 {
            assert(s.free_list(l) == Seq::<u64>::empty());
        }
        let y = s.free_list(0)[i];
        lemma_slots(L0_SIZE, L0_COUNT as int, y, y);
        let qy = y as int / L0_SIZE as int;
        assert(qy != r);
        assert((r * L0_SIZE) + L0_SIZE <= y || y + L0_SIZE <= r * L0_SIZE) by (nonlinear_arith)
            requires
                qy * L0_SIZE == y,
                qy != r,
        ;
    }
}

/// An allocation keeps the free slabs disjoint, and the slab it hands out
/// overlaps none of the slabs left free.
pub proof fn lemma_allocation_keeps_free_disjoint(
    before: PhysicalBuddyAllocator,
    after: PhysicalBuddyAllocator,
    bytes: int,
    r: Option<PhysicalAddress>,
)
    requires
        before.wf(),
        before.free_disjoint(),
        PhysicalBuddyAllocator::allocation_result(&before, &after, bytes, r),
    ensures
        after.free_disjoint(),
        r matches Some(slab) ==> forall|b: int, j: int|
            #![trigger after.free_list(b)[j]]
            0 <= b < LAYER_COUNT && 0 <= j < after.free_list(b).len() ==> apart(
                slab.0,
                layer_size(layer_for_size(bytes)->Some_0),
                after.free_list(b)[j],
                layer_size(b),
            ),
{
    if let Some(t) = layer_for_size(bytes) {
        let src = before.allocation_source(t);
        if src < 0 {
            assert(after.layers@ == before.layers@);
        } else {
            before.lemma_deepest_nonempty(t);
            lemma_split_keeps_free_disjoint(before, after, src, t, before.free_list(src)[0]);
        }
    } else {
        assert(after.layers@ == before.layers@);
    }
}

proof fn lemma_buddy_in_range_top(slab: u64, depth: int)
    requires
        0 <= depth < LAYER_COUNT,
        slab % layer_size(depth) == 0,
        slab < MAX_MEMORY,
    ensures
        slab + layer_size(depth) <= MAX_MEMORY,
{
    lemma_layer_geometry(depth);
    let size = layer_size(depth);
    lemma_slots(size, layer_count(depth) as int, slab, slab);
    let q = slab as int / size as int;
    assert(slab + size <= MAX_MEMORY) by (nonlinear_arith)
        requires
            q * size == slab,
            q < layer_count(depth),
            layer_count(depth) * size == MAX_MEMORY,
    ;
}

/// Two allocations in a row from a state whose free slabs are disjoint hand
/// out slabs that do not overlap.
pub proof fn lemma_successive_allocations_disjoint(
    s0: PhysicalBuddyAllocator,
    s1: PhysicalBuddyAllocator,
    s2: PhysicalBuddyAllocator,
    first_bytes: int,
    second_bytes: int,
    first: PhysicalAddress,
    second: PhysicalAddress,
)
    requires
        s0.wf(),
        s0.free_disjoint(),
        PhysicalBuddyAllocator::allocation_result(&s0, &s1, first_bytes, Some(first)),
        PhysicalBuddyAllocator::allocation_result(&s1, &s2, second_bytes, Some(second)),
    ensures
        apart(
            first.0,
            layer_size(layer_for_size(first_bytes)->Some_0),
            second.0,
            layer_size(layer_for_size(second_bytes)->Some_0),
        ),
{
    lemma_allocation_keeps_free_disjoint(s0, s1, first_bytes, Some(first));
    let t1 = layer_for_size(first_bytes)->Some_0;
    let t2 = layer_for_size(second_bytes)->Some_0;
    let src = s1.allocation_source(t2);
    s1.lemma_deepest_nonempty(t2);
    let head = s1.free_list(src)[0];
    assert(second.0 == head);
    assert(apart(first.0, layer_size(t1), head, layer_size(src)));
    if src < t2 {
        lemma_sizes_ordered(src, t2);
    }
}

/// No address of `addrs` lies inside a free slab of `allocator`.
pub open spec fn outside_free(addrs: Seq<u64>, allocator: PhysicalBuddyAllocator) -> bool {
    forall|k: int, l: int, i: int|
        #![trigger addrs[k], allocator.free_list(l)[i]]
        0 <= k < addrs.len() && 0 <= l < LAYER_COUNT && 0 <= i < allocator.free_list(l).len() ==> !(
        allocator.free_list(l)[i] <= addrs[k] < allocator.free_list(l)[i] + layer_size(l))
}

/// Whether two 4 KiB frames can be allocated one after the other: the L7
/// list holds two slabs, or a larger layer has a free slab to split.
pub open spec fn has_two_frames(allocator: PhysicalBuddyAllocator) -> bool {
    allocator.free_list(7).len() >= 2 || allocator.deepest_nonempty(7) >= 0
}

/// A 4 KiB frame handed out while `addrs` lie outside the free slabs is none
/// of `addrs`, and afterwards `addrs` and the frame lie outside the free slabs.
pub proof fn lemma_frame_allocation(addrs: Seq<u64>, before: PhysicalBuddyAllocator, after: PhysicalBuddyAllocator, f: u64)
    requires
        before.wf(),
        before.free_disjoint(),
        outside_free(addrs, before),
        PhysicalBuddyAllocator::allocation_result(&before, &after, 4096, Some(PhysicalAddress(f))),
    ensures
        !addrs.contains(f),
        outside_free(addrs.push(f), after),
        after.free_disjoint(),
        after.wf(),
        f % 4096 == 0,
        f < MAX_MEMORY,
{
    assert(layer_for_size(4096) == Some(7int));
    let src = before.allocation_source(7);
    before.lemma_deepest_nonempty(7);
    assert(src >= 0);
    assert(f == before.free_list(src)[0]);
    assert(before.layers@[src].wf());
    lemma_buddy_in_range_top(f, src);
    lemma_split_keeps_free_disjoint(before, after, src, 7, f);
    if addrs.contains(f) {
        let k = choose|k: int| 0 <= k < addrs.len() && addrs[k] == f;
        assert(before.free_list(src)[0] == f);
        assert(!(before.free_list(src)[0] <= addrs[k] < before.free_list(src)[0] + layer_size(src)));
    }
    let all = addrs.push(f);
    assert forall|k: int, l: int, i: int|
        #![trigger all[k], after.free_list(l)[i]]
        0 <= k < all.len() && 0 <= l < LAYER_COUNT && 0 <= i < after.free_list(l).len() implies !(
        after.free_list(l)[i] <= all[k] < after.free_list(l)[i] + layer_size(l)) by {
        let y = after.free_list(l)[i];
        lemma_free_origin(before, after, src, 7, f, l, i);
        if k == addrs.len() {
            assert(apart(f, layer_size(7), y, layer_size(l)));
        } else {
            let a = addrs[k];
            assert(all[k] == a);
            if src < l <= 7 && y == f + layer_size(l) {
                lemma_sizes_ordered(src, l);
                assert(!(before.free_list(src)[0] <= a < before.free_list(src)[0] + layer_size(src)));
            } else {
                let ia = choose|ia: int|
                    0 <= ia < before.free_list(l).len() && (l != src || ia != 0) && #[trigger] before.free_list(l)[ia] == y;
                assert(!(before.free_list(l)[ia] <= a < before.free_list(l)[ia] + layer_size(l)));
            }
        }
    }
}

proof fn lemma_deepest_same(a: Seq<Layer>, b: Seq<Layer>, below: int)
    requires
        below <= 7,
        a.len() == LAYER_COUNT,
        b.len() == LAYER_COUNT,
        forall|k: int| 0 <= k < below ==> #[trigger] a[k].free@ == b[k].free@,
    ensures
        deepest_nonempty_in(a, below) == deepest_nonempty_in(b, below),
    decreases below,
{
    if below > 0 {
        lemma_deepest_same(a, b, below - 1);
    }
}

/// After one 4 KiB frame is handed out, a second can be exactly when two
/// frames could be had at the start.
pub proof fn lemma_second_frame(before: PhysicalBuddyAllocator, after: PhysicalBuddyAllocator, f: u64)
    requires
        before.wf(),
        PhysicalBuddyAllocator::allocation_result(&before, &after, 4096, Some(PhysicalAddress(f))),
    ensures
        after.allocation_source(7) >= 0 <==> has_two_frames(before),
{
    assert(layer_for_size(4096) == Some(7int));
    let src = before.allocation_source(7);
    before.lemma_deepest_nonempty(7);
    after.lemma_deepest_nonempty(7);
    if src == 7 {
        assert(after.free_list(7) == before.free_list(7).drop_first());
        assert forall|k: int| 0 <= k < 7 implies #[trigger] after.layers@[k].free@ == before.layers@[k].free@ by {
            assert(after.layers@[k] == before.layers@[k]);
        }
        lemma_deepest_same(after.layers@, before.layers@, 7);
    } else {
        assert(after.free_list(7) == seq![(f + layer_size(7)) as u64]);
        assert(before.free_list(7).len() == 0);
    }
}

/// Whether the slabs `xs` (of `sa` bytes) and `ys` (of `sb` bytes) pairwise
/// do not overlap, the pairs at the same position excepted when `same`.
fn lists_apart(xs: &Vec<u64>, sa: u64, ys: &Vec<u64>, sb: u64, same: bool) -> (r: bool)
    ensures
        r == forall|i: int, j: int|
            #![trigger xs@[i], ys@[j]]
            0 <= i < xs@.len() && 0 <= j < ys@.len() && (!same || i != j) ==> apart(xs@[i], sa, ys@[j], sb),
{
    let mut i: usize = 0;
    while i < xs.len()
        invariant
            i <= xs@.len(),
            forall|i2: int, j: int|
                #![trigger xs@[i2], ys@[j]]
                0 <= i2 < i && 0 <= j < ys@.len() && (!same || i2 != j) ==> apart(xs@[i2], sa, ys@[j], sb),
        decreases xs@.len() - i,
    {
        let mut j: usize = 0;
        while j < ys.len()
            invariant
                i < xs@.len(),
                j <= ys@.len(),
                forall|i2: int, j2: int|
                    #![trigger xs@[i2], ys@[j2]]
                    0 <= i2 < i && 0 <= j2 < ys@.len() && (!same || i2 != j2) ==> apart(xs@[i2], sa, ys@[j2], sb),
                forall|j2: int|
                    #![trigger ys@[j2]]
                    0 <= j2 < j && (!same || i != j2) ==> apart(xs@[i as int], sa, ys@[j2], sb),
            decreases ys@.len() - j,
        {
            if !(same && i == j) {
                let x = xs[i];
                let y = ys[j];
                if !((x as u128) + (sa as u128) <= (y as u128) || (y as u128) + (sb as u128) <= (x as u128)) {
                    return false;
                }
            }
            j = j + 1;
        }
        i = i + 1;
    }
    true
}

/// Whether no address of `addrs` lies in a slab of `xs` (of `size` bytes).
fn addresses_outside(addrs: &Vec<u64>, xs: &Vec<u64>, size: u64) -> (r: bool)
    ensures
        r == forall|k: int, i: int|
            #![trigger addrs@[k], xs@[i]]
            0 <= k < addrs@.len() && 0 <= i < xs@.len() ==> !(xs@[i] <= addrs@[k] < xs@[i] + size),
{
    let mut k: usize = 0;
    while k < addrs.len()
        invariant
            k <= addrs@.len(),
            forall|k2: int, i: int|
                #![trigger addrs@[k2], xs@[i]]
                0 <= k2 < k && 0 <= i < xs@.len() ==> !(xs@[i] <= addrs@[k2] < xs@[i] + size),
        decreases addrs@.len() - k,
    {
        let mut i: usize = 0;
        while i < xs.len()
            invariant
                k < addrs@.len(),
                i <= xs@.len(),
                forall|k2: int, i2: int|
                    #![trigger addrs@[k2], xs@[i2]]
                    0 <= k2 < k && 0 <= i2 < xs@.len() ==> !(xs@[i2] <= addrs@[k2] < xs@[i2] + size),
                forall|i2: int| #![trigger xs@[i2]] 0 <= i2 < i ==> !(xs@[i2] <= addrs@[k as int] < xs@[i2] + size),
            decreases xs@.len() - i,
        {
            let x = xs[i];
            let a = addrs[k];
            if x <= a && (a as u128) < (x as u128) + (size as u128) {
                return false;
            }
            i = i + 1;
        }
        k = k + 1;
    }
    true
}

impl PhysicalBuddyAllocator {
    /// The free lists of all layers, read by following the links.
    fn all_free_slabs(&self) -> (r: Vec<Vec<u64>>)
        requires
            self.wf(),
        ensures
            r@.len() == LAYER_COUNT,
            forall|k: int| 0 <= k < LAYER_COUNT ==> #[trigger] r@[k]@ == self.free_list(k),
    {
        let mut lists: Vec<Vec<u64>> = Vec::new();
        let mut depth: usize = 0;
        while depth < LAYER_COUNT
            invariant
                self.wf(),
                depth <= LAYER_COUNT,
                lists@.len() == depth,
                forall|k: int| 0 <= k < depth ==> #[trigger] lists@[k]@ == self.free_list(k),
            decreases LAYER_COUNT - depth,
        {
            lists.push(self.free_slabs(depth));
            depth = depth + 1;
        }
        lists
    }

    /// Whether the free slabs of all layers pairwise do not overlap (see `free_disjoint`).
    #[verifier::spinoff_prover]
    #[verifier::rlimit(100)]
    pub fn free_slabs_disjoint(&self) -> (r: bool)
        requires
            self.wf(),
        ensures
            r == self.free_disjoint(),
    {
        let lists = self.all_free_slabs();
        let mut a: usize = 0;
        while a < LAYER_COUNT
            invariant
                self.wf(),
                a <= LAYER_COUNT,
                lists@.len() == LAYER_COUNT,
                forall|k: int| 0 <= k < LAYER_COUNT ==> #[trigger] lists@[k]@ == self.free_list(k),
                forall|a2: int, i: int, b: int, j: int|
                    #![trigger self.free_list(a2)[i], self.free_list(b)[j]]
                    0 <= a2 < a && 0 <= b < LAYER_COUNT && 0 <= i < self.free_list(a2).len() && 0 <= j
                        < self.free_list(b).len() && (a2 != b || i != j) ==> apart(
                        self.free_list(a2)[i],
                        layer_size(a2),
                        self.free_list(b)[j],
                        layer_size(b),
                    ),
            decreases LAYER_COUNT - a,
        {
            let mut b: usize = 0;
            while b < LAYER_COUNT
                invariant
                    self.wf(),
                    a < LAYER_COUNT,
                    b <= LAYER_COUNT,
                    lists@.len() == LAYER_COUNT,
                    forall|k: int| 0 <= k < LAYER_COUNT ==> #[trigger] lists@[k]@ == self.free_list(k),
                    forall|a2: int, i: int, b2: int, j: int|
                        #![trigger self.free_list(a2)[i], self.free_list(b2)[j]]
                        0 <= a2 < a && 0 <= b2 < LAYER_COUNT && 0 <= i < self.free_list(a2).len() && 0 <= j
                            < self.free_list(b2).len() && (a2 != b2 || i != j) ==> apart(
                            self.free_list(a2)[i],
                            layer_size(a2),
                            self.free_list(b2)[j],
                            layer_size(b2),
                        ),
                    forall|i: int, b2: int, j: int|
                        #![trigger self.free_list(a as int)[i], self.free_list(b2)[j]]
                        0 <= b2 < b && 0 <= i < self.free_list(a as int).len() && 0 <= j < self.free_list(b2).len() && (
                        a != b2 || i != j) ==> apart(
                            self.free_list(a as int)[i],
                            layer_size(a as int),
                            self.free_list(b2)[j],
                            layer_size(b2),
                        ),
                decreases LAYER_COUNT - b,
            {
                let (sa, _) = Self::layer_geometry(a);
                let (sb, _) = Self::layer_geometry(b);
                let ok = lists_apart(&lists[a], sa, &lists[b], sb, a == b);
                if !ok {
                    proof {
                        let xs = lists@[a as int]@;
                        let ys = lists@[b as int]@;
                        let (i, j) = choose|i: int, j: int|
                            #![trigger xs[i], ys[j]]
                            0 <= i < xs.len() && 0 <= j < ys.len() && (!(a == b) || i != j) && !apart(xs[i], sa, ys[j], sb);
                        assert(!apart(self.free_list(a as int)[i], layer_size(a as int), self.free_list(b as int)[j], layer_size(b as int)));
                    }
                    return false;
                }
                b = b + 1;
            }
            a = a + 1;
        }
        proof {
            let layers = self.layers@;
            assert forall|a2: int, i: int, b2: int, j: int|
                #![trigger layers[a2].free@[i], layers[b2].free@[j]]
                0 <= a2 < LAYER_COUNT && 0 <= b2 < LAYER_COUNT && 0 <= i < layers[a2].free@.len() && 0 <= j
                    < layers[b2].free@.len() && (a2 != b2 || i != j) implies apart(
                    layers[a2].free@[i],
                    layer_size(a2),
                    layers[b2].free@[j],
                    layer_size(b2),
                ) by {
                assert(self.free_list(a2)[i] == layers[a2].free@[i]);
                assert(self.free_list(b2)[j] == layers[b2].free@[j]);
            }
        }
        true
    }

    /// Whether no address of `addrs` lies inside a free slab (see `outside_free`).
    #[verifier::spinoff_prover]
    pub fn addresses_outside_free(&self, addrs: &Vec<u64>) -> (r: bool)
        requires
            self.wf(),
        ensures
            r == outside_free(addrs@, *self),
    {
        let lists = self.all_free_slabs();
        let mut l: usize = 0;
        while l < LAYER_COUNT
            invariant
                self.wf(),
                l <= LAYER_COUNT,
                lists@.len() == LAYER_COUNT,
                forall|k: int| 0 <= k < LAYER_COUNT ==> #[trigger] lists@[k]@ == self.free_list(k),
                forall|k: int, l2: int, i: int|
                    #![trigger addrs@[k], self.free_list(l2)[i]]
                    0 <= k < addrs@.len() && 0 <= l2 < l && 0 <= i < self.free_list(l2).len() ==> !(self.free_list(l2)[i]
                        <= addrs@[k] < self.free_list(l2)[i] + layer_size(l2)),
            decreases LAYER_COUNT - l,
        {
            let (size, _) = Self::layer_geometry(l);
            if !addresses_outside(addrs, &lists[l], size) {
                proof {
                    let xs = lists@[l as int]@;
                    let (k, i) = choose|k: int, i: int|
                        #![trigger addrs@[k], xs[i]]
                        0 <= k < addrs@.len() && 0 <= i < xs.len() && !!(xs[i] <= addrs@[k] < xs[i] + size);
                    assert(self.free_list(l as int)[i] == xs[i]);
                }
                return false;
            }
            l = l + 1;
        }
        true
    }
}

proof fn lemma_top_slab_even(a: u64, l: int)
    requires
        1 <= l < LAYER_COUNT,
        a % L0_SIZE == 0,
        a < MAX_MEMORY,
    ensures
        (a as int / layer_size(l) as int) % 2 == 0,
        buddy_of(a, l) == a + layer_size(l),
        parent_of(a, l) == a,
        a % layer_size(l) == 0,
        a % layer_size(l - 1) == 0,
        a + layer_size(l) < MAX_MEMORY,
{
    lemma_layer_divides(a, 0, l - 1);
    lemma_layer_divides(a, 0, l);
    lemma_layer_halves(l - 1);
    lemma_layer_geometry(l - 1);
    let big = layer_size(l - 1) as int;
    let small = layer_size(l) as int;
    let m = a as int / big;
    vstd::arithmetic::div_mod::lemma_fundamental_div_mod(a as int, big);
    assert(a == (2 * m) * small) by (nonlinear_arith)
        requires
            a == big * m + 0,
            big == 2 * small,
    ;
    lemma_index_address(2 * m, small);
    lemma_buddy_in_range(a, layer_size(l - 1), layer_size(l));
}

proof fn lemma_chain_stays(a: u64, t: int, l: int)
    requires
        0 <= l <= t < LAYER_COUNT,
        a % L0_SIZE == 0,
        a < MAX_MEMORY,
    ensures
        chain(a, t, l) == a,
    decreases t - l,
{
    if l < t {
        lemma_chain_stays(a, t, l + 1);
        lemma_top_slab_even(a, l + 1);
    }
}

proof fn lemma_stop_at_top(s: PhysicalBuddyAllocator, a: u64, t: int, l: int)
    requires
        0 <= l <= t,
        forall|m: int| 1 <= m <= l ==> #[trigger] s.merges(m, chain(a, t, m)),
    ensures
        s.merge_stop(a, t, l) == 0,
    decreases l,
{
    if l > 0 {
        lemma_stop_at_top(s, a, t, l - 1);
    }
}

proof fn lemma_owner_down(s: PhysicalBuddyAllocator, p: u64, t: int, d: int)
    requires
        0 <= t <= d < LAYER_COUNT,
        s.unavailable(t, p as int / layer_size(t) as int),
        forall|m: int| t < m <= d ==> !#[trigger] s.unavailable(m, p as int / layer_size(m) as int),
    ensures
        s.owner_from(p, d) == t,
    decreases d,
{
    if d > t {
        lemma_owner_down(s, p, t, d - 1);
    }
}

proof fn lemma_source_is_top(s0: PhysicalBuddyAllocator, bytes: int)
    requires
        s0.wf(),
        s0.serves(bytes),
        forall|k: int| 1 <= k < LAYER_COUNT ==> #[trigger] s0.free_list(k).len() == 0,
        s0.free_list(0).len() > 0,
    ensures
        s0.allocation_source(layer_for_size(bytes)->Some_0) == 0,
        s0.free_list(0)[0] % L0_SIZE == 0,
        0 < s0.free_list(0)[0] < MAX_MEMORY,
{
    let t = layer_for_size(bytes)->Some_0;
    s0.lemma_deepest_nonempty(t);
    if t > 0 {
        assert(s0.free_list(t).len() == 0);
        if s0.deepest_nonempty(t) != 0 {
            assert(s0.free_list(0).len() == 0);
        }
    }
    assert(s0.layers@[0].wf());
}

#[verifier::spinoff_prover]
proof fn lemma_owner_is_target(s0: PhysicalBuddyAllocator, s1: PhysicalBuddyAllocator, bytes: int)
    requires
        s0.wf(),
        s0.serves(bytes),
        forall|k: int| 1 <= k < LAYER_COUNT ==> #[trigger] s0.free_list(k).len() == 0,
        forall|k: int, i: int| 1 <= k < LAYER_COUNT && 0 <= i < layer_count(k) ==> !#[trigger] s0.unavailable(k, i),
        s0.free_list(0).len() > 0,
        !s0.unavailable(0, s0.free_list(0)[0] as int / L0_SIZE as int),
        !state_bit(s0.reserved@, s0.free_list(0)[0] as int / L0_SIZE as int),
        PhysicalBuddyAllocator::allocated_from(
            &s0,
            &s1,
            s0.allocation_source(layer_for_size(bytes)->Some_0),
            layer_for_size(bytes)->Some_0,
            s0.free_list(s0.allocation_source(layer_for_size(bytes)->Some_0))[0],
        ),
        s1.reserved@ == s0.reserved@,
    ensures
        s1.owner_from(s0.free_list(0)[0], 7) == layer_for_size(bytes)->Some_0,
        !s1.split_at(layer_for_size(bytes)->Some_0, s0.free_list(0)[0]),
        s0.free_list(0)[0] % layer_size(layer_for_size(bytes)->Some_0) == 0,
{
    lemma_source_is_top(s0, bytes);
    let t = layer_for_size(bytes)->Some_0;
    let a = s0.free_list(0)[0];
    lemma_layer_divides(a, 0, t);
    lemma_layer_geometry(t);
    lemma_slots(layer_size(t), layer_count(t) as int, a, a);
    assert(s1.unavailable(t, a as int / layer_size(t) as int));
    assert forall|m: int| t < m <= 7 implies !#[trigger] s1.unavailable(m, a as int / layer_size(m) as int) by {
        lemma_layer_divides(a, 0, m);
        lemma_layer_geometry(m);
        lemma_slots(layer_size(m), layer_count(m) as int, a, a);
        assert(s1.layers@[m] == s0.layers@[m]);
        assert(!s0.unavailable(m, a as int / layer_size(m) as int));
    }
    lemma_owner_down(s1, a, t, 7);
    if t + 1 < LAYER_COUNT {
        let i = a as int / layer_size(t) as int;
        lemma_layer_halves(t);
        lemma_layer_geometry(t + 1);
        assert(s1.layers@[t + 1] == s0.layers@[t + 1]);
        assert(!s0.unavailable(t + 1, 2 * i));
        assert(!s0.unavailable(t + 1, 2 * i + 1));
    }
}

#[verifier::spinoff_prover]
#[verifier::rlimit(100)]
proof fn lemma_allocated_slab_frees(s0: PhysicalBuddyAllocator, s1: PhysicalBuddyAllocator, bytes: int)
    requires
        s0.wf(),
        s0.serves(bytes),
        forall|k: int| 1 <= k < LAYER_COUNT ==> #[trigger] s0.free_list(k).len() == 0,
        forall|k: int, i: int| 1 <= k < LAYER_COUNT && 0 <= i < layer_count(k) ==> !#[trigger] s0.unavailable(k, i),
        s0.free_list(0).len() > 0,
        !s0.unavailable(0, s0.free_list(0)[0] as int / L0_SIZE as int),
        !state_bit(s0.reserved@, s0.free_list(0)[0] as int / L0_SIZE as int),
        PhysicalBuddyAllocator::allocated_from(
            &s0,
            &s1,
            s0.allocation_source(layer_for_size(bytes)->Some_0),
            layer_for_size(bytes)->Some_0,
            s0.free_list(s0.allocation_source(layer_for_size(bytes)->Some_0))[0],
        ),
        s1.reserved@ == s0.reserved@,
    ensures
        ({
            let a = s0.free_list(0)[0];
            let t = layer_for_size(bytes)->Some_0;
            &&& s1.frees(spec_to_kernel(a))
            &&& s1.owner_from(a, 7) == t
            &&& s1.merge_stop(a, t, t) == 0
        }),
{
    lemma_source_is_top(s0, bytes);
    let t = layer_for_size(bytes)->Some_0;
    let a = s0.free_list(0)[0];
    assert forall|m: int| 1 <= m <= t implies #[trigger] s1.merges(m, chain(a, t, m)) by {
        lemma_merges_at(s0, s1, bytes, m);
    }
    lemma_stop_at_top(s1, a, t, t);
    lemma_owner_is_target(s0, s1, bytes);
    lemma_address_translation_round_trip(a, spec_to_kernel(a));
    lemma_window_arithmetic(a);
}

#[verifier::spinoff_prover]
#[verifier::rlimit(100)]
proof fn lemma_merges_at(s0: PhysicalBuddyAllocator, s1: PhysicalBuddyAllocator, bytes: int, m: int)
    requires
        s0.wf(),
        s0.serves(bytes),
        forall|k: int| 1 <= k < LAYER_COUNT ==> #[trigger] s0.free_list(k).len() == 0,
        forall|k: int, i: int| 1 <= k < LAYER_COUNT && 0 <= i < layer_count(k) ==> !#[trigger] s0.unavailable(k, i),
        s0.free_list(0).len() > 0,
        !s0.unavailable(0, s0.free_list(0)[0] as int / L0_SIZE as int),
        !state_bit(s0.reserved@, s0.free_list(0)[0] as int / L0_SIZE as int),
        PhysicalBuddyAllocator::allocated_from(
            &s0,
            &s1,
            s0.allocation_source(layer_for_size(bytes)->Some_0),
            layer_for_size(bytes)->Some_0,
            s0.free_list(s0.allocation_source(layer_for_size(bytes)->Some_0))[0],
        ),
        s1.reserved@ == s0.reserved@,
        1 <= m <= layer_for_size(bytes)->Some_0,
    ensures
        s1.merges(m, chain(s0.free_list(0)[0], layer_for_size(bytes)->Some_0, m)),
{
    lemma_source_is_top(s0, bytes);
    let t = layer_for_size(bytes)->Some_0;
    let a = s0.free_list(0)[0];
    lemma_chain_stays(a, t, m);
    lemma_top_slab_even(a, m);
    lemma_layer_geometry(m);
    lemma_layer_geometry(m - 1);
    lemma_slots(layer_size(m), layer_count(m) as int, a, a);
    lemma_slots(layer_size(m - 1), layer_count(m - 1) as int, a, a);
    let b = (a + layer_size(m)) as u64;
    let q = a as int / layer_size(m) as int;
    assert(b == (q + 1) * layer_size(m)) by (nonlinear_arith)
        requires
            q * layer_size(m) == a,
            b == a + layer_size(m),
    ;
    lemma_index_address(q + 1, layer_size(m) as int);
    lemma_slots(layer_size(m), layer_count(m) as int, b, a);
    assert(s1.free_list(m) == seq![b]);
    assert(s1.free_list(m)[0] == b);
    assert(s1.unavailable(m - 1, a as int / layer_size(m - 1) as int));
    assert(s1.unavailable(m, b as int / layer_size(m) as int) == s0.unavailable(m, b as int / layer_size(m) as int));
}

#[verifier::spinoff_prover]
#[verifier::rlimit(100)]
proof fn lemma_list_restored(s0: PhysicalBuddyAllocator, s1: PhysicalBuddyAllocator, s2: PhysicalBuddyAllocator, bytes: int, k: int)
    requires
        s0.wf(),
        s0.serves(bytes),
        forall|k: int| 1 <= k < LAYER_COUNT ==> #[trigger] s0.free_list(k).len() == 0,
        forall|k: int, i: int| 1 <= k < LAYER_COUNT && 0 <= i < layer_count(k) ==> !#[trigger] s0.unavailable(k, i),
        s0.free_list(0).len() > 0,
        !s0.unavailable(0, s0.free_list(0)[0] as int / L0_SIZE as int),
        !state_bit(s0.reserved@, s0.free_list(0)[0] as int / L0_SIZE as int),
        PhysicalBuddyAllocator::allocated_from(
            &s0,
            &s1,
            s0.allocation_source(layer_for_size(bytes)->Some_0),
            layer_for_size(bytes)->Some_0,
            s0.free_list(s0.allocation_source(layer_for_size(bytes)->Some_0))[0],
        ),
        s1.reserved@ == s0.reserved@,
        PhysicalBuddyAllocator::freed_from(
            &s1,
            &s2,
            s0.free_list(0)[0],
            layer_for_size(bytes)->Some_0,
        ),
        s1.merge_stop(s0.free_list(0)[0], layer_for_size(bytes)->Some_0, layer_for_size(bytes)->Some_0) == 0,
        1 <= k < LAYER_COUNT,
    ensures
        s2.free_list(k).len() == 0,
{
    lemma_source_is_top(s0, bytes);
    let t = layer_for_size(bytes)->Some_0;
    let a = s0.free_list(0)[0];
    if k <= t {
        lemma_chain_stays(a, t, k);
        lemma_top_slab_even(a, k);
        let b = (a + layer_size(k)) as u64;
        assert(s1.free_list(k) == seq![b]);
        assert(buddy_of(chain(a, t, k), k) == b);
        assert(s2.free_list(k) == s1.free_list(k).remove(s1.free_list(k).index_of(b)));
        assert(s1.free_list(k).index_of(b) == 0) by {
            assert(s1.free_list(k)[0] == b);
        }
        s1.free_list(k).remove_ensures(0);
    } else {
        assert(s2.layers@[k] == s1.layers@[k]);
        assert(s1.layers@[k] == s0.layers@[k]);
        assert(s0.free_list(k).len() == 0);
    }
}

#[verifier::spinoff_prover]
#[verifier::rlimit(100)]
proof fn lemma_bits_restored(
    s0: PhysicalBuddyAllocator,
    s1: PhysicalBuddyAllocator,
    s2: PhysicalBuddyAllocator,
    bytes: int,
    k: int,
    i: int,
)
    requires
        s0.wf(),
        s0.serves(bytes),
        forall|k: int| 1 <= k < LAYER_COUNT ==> #[trigger] s0.free_list(k).len() == 0,
        forall|k: int, i: int| 1 <= k < LAYER_COUNT && 0 <= i < layer_count(k) ==> !#[trigger] s0.unavailable(k, i),
        s0.free_list(0).len() > 0,
        !s0.unavailable(0, s0.free_list(0)[0] as int / L0_SIZE as int),
        !state_bit(s0.reserved@, s0.free_list(0)[0] as int / L0_SIZE as int),
        PhysicalBuddyAllocator::allocated_from(
            &s0,
            &s1,
            s0.allocation_source(layer_for_size(bytes)->Some_0),
            layer_for_size(bytes)->Some_0,
            s0.free_list(s0.allocation_source(layer_for_size(bytes)->Some_0))[0],
        ),
        s1.reserved@ == s0.reserved@,
        PhysicalBuddyAllocator::freed_from(
            &s1,
            &s2,
            s0.free_list(0)[0],
            layer_for_size(bytes)->Some_0,
        ),
        s1.merge_stop(s0.free_list(0)[0], layer_for_size(bytes)->Some_0, layer_for_size(bytes)->Some_0) == 0,
        0 <= k < LAYER_COUNT,
        0 <= i < layer_count(k),
    ensures
        s2.unavailable(k, i) == s0.unavailable(k, i),
{
    lemma_source_is_top(s0, bytes);
    let t = layer_for_size(bytes)->Some_0;
    let a = s0.free_list(0)[0];
    if k <= t {
        lemma_chain_stays(a, t, k);
        lemma_layer_divides(a, 0, k);
        lemma_layer_geometry(k);
        lemma_slots(layer_size(k), layer_count(k) as int, a, a);
        assert(s1.unavailable(k, i) == (i == a as int / layer_size(k) as int || s0.unavailable(k, i)));
        assert(s2.unavailable(k, i) == (i != chain(a, t, k) as int / layer_size(k) as int && s1.unavailable(k, i)));
    } else {
        assert(s2.layers@[k] == s1.layers@[k]);
        assert(s1.layers@[k] == s0.layers@[k]);
    }
}

/// Allocating from a state like the one `initialize` leaves (only L0 has
/// free slabs, every bit below L0 is clear, the head of L0 is available and
/// not reserved) and freeing the slab right away: the free is accepted at the
/// allocation's layer, every buddy merges back, every bitmap is as before,
/// the lists below L0 are empty again, and the slab returns to the tail of L0.
#[verifier::spinoff_prover]
#[verifier::rlimit(100)]
pub proof fn lemma_free_after_allocate_restores(
    s0: PhysicalBuddyAllocator,
    s1: PhysicalBuddyAllocator,
    s2: PhysicalBuddyAllocator,
    bytes: int,
)
    requires
        s0.wf(),
        s0.serves(bytes),
        forall|k: int| 1 <= k < LAYER_COUNT ==> #[trigger] s0.free_list(k).len() == 0,
        forall|k: int, i: int| 1 <= k < LAYER_COUNT && 0 <= i < layer_count(k) ==> !#[trigger] s0.unavailable(k, i),
        s0.free_list(0).len() > 0,
        !s0.unavailable(0, s0.free_list(0)[0] as int / L0_SIZE as int),
        !state_bit(s0.reserved@, s0.free_list(0)[0] as int / L0_SIZE as int),
        PhysicalBuddyAllocator::allocated_from(
            &s0,
            &s1,
            s0.allocation_source(layer_for_size(bytes)->Some_0),
            layer_for_size(bytes)->Some_0,
            s0.free_list(s0.allocation_source(layer_for_size(bytes)->Some_0))[0],
        ),
        s1.reserved@ == s0.reserved@,
        PhysicalBuddyAllocator::freed_from(
            &s1,
            &s2,
            s0.free_list(0)[0],
            s1.owner_from(s0.free_list(0)[0], 7),
        ),
    ensures
        ({
            let a = s0.free_list(0)[0];
            let t = layer_for_size(bytes)->Some_0;
            &&& s0.allocation_source(t) == 0
            &&& s1.frees(spec_to_kernel(a))
            &&& s1.owner_from(a, 7) == t
            &&& forall|k: int, i: int|
                0 <= k < LAYER_COUNT && 0 <= i < layer_count(k) ==> #[trigger] s2.unavailable(k, i) == s0.unavailable(k, i)
            &&& forall|k: int| 1 <= k < LAYER_COUNT ==> #[trigger] s2.free_list(k).len() == 0
            &&& s2.free_list(0) == s0.free_list(0).drop_first().push(a)
        }),
{
    lemma_source_is_top(s0, bytes);
    lemma_allocated_slab_frees(s0, s1, bytes);
    let t = layer_for_size(bytes)->Some_0;
    let a = s0.free_list(0)[0];
    lemma_chain_stays(a, t, 0);
    assert(s1.owner_from(a, 7) == t);
    assert forall|k: int, i: int|
        0 <= k < LAYER_COUNT && 0 <= i < layer_count(k) implies #[trigger] s2.unavailable(k, i) == s0.unavailable(k, i) by {
        lemma_bits_restored(s0, s1, s2, bytes, k, i);
    }
    assert forall|k: int| 1 <= k < LAYER_COUNT implies #[trigger] s2.free_list(k).len() == 0 by {
        lemma_list_restored(s0, s1, s2, bytes, k);
    }
    assert(s1.free_list(0) == s0.free_list(0).drop_first());
    assert(!s1.free_list(0).contains(a)) by {
        if s1.free_list(0).contains(a) {
            let i = choose|i: int| 0 <= i < s1.free_list(0).len() && s1.free_list(0)[i] == a;
            assert(s0.free_list(0)[i + 1] == a);
            assert(s0.free_list(0)[0] == a);
        }
    }
}

proof fn lemma_chain_aligned(a: u64, k: int, l: int)
    requires
        0 <= l <= k < LAYER_COUNT,
        a % layer_size(k) == 0,
        a < MAX_MEMORY,
    ensures
        chain(a, k, l) % layer_size(l) == 0,
        chain(a, k, l) < MAX_MEMORY,
        l < k ==> {
            let c = chain(a, k, l + 1);
            let b = buddy_of(c, l + 1);
            &&& chain(a, k, l) == parent_of(c, l + 1)
            &&& b < MAX_MEMORY
            &&& b % layer_size(l + 1) == 0
            &&& (chain(a, k, l) == c && b == c + layer_size(l + 1) || chain(a, k, l) == b && c == b + layer_size(l + 1))
            &&& layer_size(l) == 2 * layer_size(l + 1)
        },
    decreases k - l,
{
    if l < k {
        lemma_chain_aligned(a, k, l + 1);
        let c = chain(a, k, l + 1);
        let idx = c as int / layer_size(l + 1) as int;
        lemma_buddy(c, l + 1, idx);
        lemma_layer_geometry(l + 1);
        lemma_slots(layer_size(l + 1), layer_count(l + 1) as int, c, c);
        lemma_merged(c, buddy_of(c, l + 1), l + 1, idx);
        lemma_layer_halves(l);
        let b = buddy_of(c, l + 1);
        if idx % 2 == 0 {
            assert(b == c + layer_size(l + 1));
        } else {
            assert(b == c - layer_size(l + 1));
        }
        lemma_slots(layer_size(l + 1), layer_count(l + 1) as int, b, b);
    }
}

/// Whether `[x, x + sx)` and `[y, y + sy)` overlap.
pub open spec fn overlap(x: int, sx: int, y: int, sy: int) -> bool {
    x < y + sy && y < x + sx
}

proof fn lemma_overlap_piece(a: u64, k: int, l: int, y: int, sy: int) -> (j: int)
    requires
        0 <= l <= k < LAYER_COUNT,
        a % layer_size(k) == 0,
        a < MAX_MEMORY,
        sy > 0,
        overlap(chain(a, k, l) as int, layer_size(l) as int, y, sy),
    ensures
        j == k && overlap(a as int, layer_size(k) as int, y, sy) || l < j <= k && overlap(
            buddy_of(chain(a, k, j), j) as int,
            layer_size(j) as int,
            y,
            sy,
        ),
    decreases k - l,
{
    if l == k {
        k
    } else {
        lemma_chain_aligned(a, k, l);
        let c = chain(a, k, l + 1);
        let b = buddy_of(c, l + 1);
        if overlap(c as int, layer_size(l + 1) as int, y, sy) {
            let j = lemma_overlap_piece(a, k, l + 1, y, sy);
            j
        } else {
            let base = chain(a, k, l) as int;
            let half = layer_size(l + 1) as int;
            assert(layer_size(l) as int == 2 * half);
            assert(base < y + sy && y < base + 2 * half);
            if base == c as int {
                assert(b as int == base + half);
            } else {
                assert(base == b as int);
                assert(c as int == base + half);
            }
            assert(overlap(b as int, layer_size(l + 1) as int, y, sy));
            l + 1
        }
    }
}

proof fn lemma_merge_chain_listed(before: PhysicalBuddyAllocator, a: u64, k: int, l: int, j: int)
    requires
        0 <= l < j <= k,
        l == before.merge_stop(a, k, k),
    ensures
        before.merges(j, chain(a, k, j)),
{
    lemma_merge_stop_walk(before, a, k, k, j);
}

proof fn lemma_merge_stop_walk(before: PhysicalBuddyAllocator, a: u64, k: int, top: int, j: int)
    requires
        0 < j <= top <= k,
        before.merge_stop(a, k, top) < j,
    ensures
        before.merges(j, chain(a, k, j)),
    decreases top,
{
    if top > 0 && before.merges(top, chain(a, k, top)) {
        if top > j {
            lemma_merge_stop_walk(before, a, k, top - 1, j);
        }
    }
}

/// Where entry `i` of layer `x`'s free list after freeing slab `a` of layer
/// `k` was before: its old position, or -1 for the merged slab appended.
pub open spec fn origin_index(before: PhysicalBuddyAllocator, a: u64, k: int, x: int, i: int) -> int {
    let m = before.merge_stop(a, k, k);
    let old_list = before.free_list(x);
    if m < x <= k {
        if i >= old_list.index_of(buddy_of(chain(a, k, x), x)) {
            i + 1
        } else {
            i
        }
    } else if x == m && i >= old_list.len() {
        -1
    } else {
        i
    }
}

proof fn lemma_origin_after_free(before: PhysicalBuddyAllocator, after: PhysicalBuddyAllocator, a: u64, k: int, x: int, i: int)
    requires
        before.wf(),
        0 <= k < LAYER_COUNT,
        PhysicalBuddyAllocator::freed_from(&before, &after, a, k),
        0 <= x < LAYER_COUNT,
        0 <= i < after.free_list(x).len(),
    ensures
        ({
            let oi = origin_index(before, a, k, x, i);
            let m = before.merge_stop(a, k, k);
            &&& oi >= 0 ==> 0 <= oi < before.free_list(x).len() && after.free_list(x)[i] == before.free_list(x)[oi]
            &&& oi < 0 ==> x == m && i == before.free_list(x).len() && after.free_list(x)[i] == chain(a, k, m)
            &&& m < x <= k ==> oi != before.free_list(x).index_of(buddy_of(chain(a, k, x), x))
        }),
{
    let m = before.merge_stop(a, k, k);
    let old_list = before.free_list(x);
    if m < x <= k {
        let b = buddy_of(chain(a, k, x), x);
        lemma_merge_chain_listed(before, a, k, m, x);
        assert(old_list.contains(b));
        let idx = old_list.index_of(b);
        old_list.remove_ensures(idx);
        assert(after.free_list(x) == old_list.remove(idx));
    } else if x == m {
        if after.free_list(x) != old_list {
            assert(after.free_list(x) == old_list.push(chain(a, k, m)));
        }
    } else {
        assert(after.layers@[x] == before.layers@[x]);
    }
}

/// Freeing a slab that overlaps no free slab keeps the free slabs disjoint.
pub proof fn lemma_free_keeps_free_disjoint(before: PhysicalBuddyAllocator, after: PhysicalBuddyAllocator, a: u64, k: int)
    requires
        before.wf(),
        before.free_disjoint(),
        0 <= k < LAYER_COUNT,
        a % layer_size(k) == 0,
        a < MAX_MEMORY,
        forall|l: int, i: int|
            #![trigger before.free_list(l)[i]]
            0 <= l < LAYER_COUNT && 0 <= i < before.free_list(l).len() ==> apart(
                a,
                layer_size(k),
                before.free_list(l)[i],
                layer_size(l),
            ),
        PhysicalBuddyAllocator::freed_from(&before, &after, a, k),
    ensures
        after.free_disjoint(),
{
    let m = before.merge_stop(a, k, k);
    let c = chain(a, k, m);
    lemma_chain_aligned(a, k, m);
    let layers = after.layers@;
    assert forall|x: int, i: int, z: int, j: int|
        #![trigger layers[x].free@[i], layers[z].free@[j]]
        0 <= x < LAYER_COUNT && 0 <= z < LAYER_COUNT && 0 <= i < layers[x].free@.len() && 0 <= j
            < layers[z].free@.len() && (x != z || i != j) implies apart(
            layers[x].free@[i],
            layer_size(x),
            layers[z].free@[j],
            layer_size(z),
        ) by {
        lemma_origin_after_free(before, after, a, k, x, i);
        lemma_origin_after_free(before, after, a, k, z, j);
        let oi = origin_index(before, a, k, x, i);
        let oj = origin_index(before, a, k, z, j);
        let u = layers[x].free@[i];
        let w = layers[z].free@[j];
        assert(u == after.free_list(x)[i] && w == after.free_list(z)[j]);
        if oi >= 0 && oj >= 0 {
            assert(x != z || oi != oj);
            assert(apart(before.free_list(x)[oi], layer_size(x), before.free_list(z)[oj], layer_size(z)));
        } else if oi < 0 && oj < 0 {
            assert(false);
        } else {
            let y = if oi < 0 {
                w
            } else {
                u
            };
            let ly = if oi < 0 {
                z
            } else {
                x
            };
            let yi = if oi < 0 {
                oj
            } else {
                oi
            };
            assert(y == before.free_list(ly)[yi]);
            assert(0 <= yi < before.free_list(ly).len());
            if !apart(c, layer_size(m), y, layer_size(ly)) {
                lemma_layer_geometry(ly);
                let p = lemma_overlap_piece(a, k, m, y as int, layer_size(ly) as int);
                if p == k && overlap(a as int, layer_size(k) as int, y as int, layer_size(ly) as int) {
                    assert(apart(a, layer_size(k), before.free_list(ly)[yi], layer_size(ly)));
                } else {
                    lemma_merge_chain_listed(before, a, k, m, p);
                    let b = buddy_of(chain(a, k, p), p);
                    let bi = before.free_list(p).index_of(b);
                    assert(before.free_list(p).contains(b));
                    assert(0 <= bi < before.free_list(p).len() && before.free_list(p)[bi] == b);
                    assert(ly != p || yi != bi);
                    assert(apart(before.free_list(p)[bi], layer_size(p), before.free_list(ly)[yi], layer_size(ly)));
                }
            }
        }
    }
    assert(layers_disjoint(after.layers@));
}

/// The slab `[q, q + size)` overlaps no free slab of `allocator`.
pub open spec fn apart_from_free(allocator: PhysicalBuddyAllocator, q: u64, size: u64) -> bool {
    forall|l: int, i: int|
        #![trigger allocator.free_list(l)[i]]
        0 <= l < LAYER_COUNT && 0 <= i < allocator.free_list(l).len() ==> apart(
            q,
            size,
            allocator.free_list(l)[i],
            layer_size(l),
        )
}

/// A slab that overlaps no free slab still overlaps none after an
/// allocation, and does not overlap the slab that the allocation hands out.
pub proof fn lemma_held_slab_after_allocation(
    before: PhysicalBuddyAllocator,
    after: PhysicalBuddyAllocator,
    bytes: int,
    r: Option<PhysicalAddress>,
    q: u64,
    size: u64,
)
    requires
        before.wf(),
        size > 0,
        apart_from_free(before, q, size),
        PhysicalBuddyAllocator::allocation_result(&before, &after, bytes, r),
    ensures
        apart_from_free(after, q, size),
        r matches Some(slab) ==> apart(q, size, slab.0, layer_size(layer_for_size(bytes)->Some_0)),
{
    if let Some(t) = layer_for_size(bytes) {
        let src = before.allocation_source(t);
        if src < 0 {
            assert(after.layers@ == before.layers@);
            assert forall|l: int, i: int|
                #![trigger after.free_list(l)[i]]
                0 <= l < LAYER_COUNT && 0 <= i < after.free_list(l).len() implies apart(q, size, after.free_list(l)[i], layer_size(l)) by {
                assert(after.free_list(l) == before.free_list(l));
            }
        } else {
            before.lemma_deepest_nonempty(t);
            let slab = before.free_list(src)[0];
            assert(apart(q, size, before.free_list(src)[0], layer_size(src)));
            assert(before.layers@[src].wf());
            lemma_buddy_in_range_top(slab, src);
            assert forall|l: int, i: int|
                #![trigger after.free_list(l)[i]]
                0 <= l < LAYER_COUNT && 0 <= i < after.free_list(l).len() implies apart(q, size, after.free_list(l)[i], layer_size(l)) by {
                lemma_free_origin(before, after, src, t, slab, l, i);
                let y = after.free_list(l)[i];
                if src < l <= t && y == slab + layer_size(l) {
                    lemma_sizes_ordered(src, l);
                } else {
                    let ia = choose|ia: int|
                        0 <= ia < before.free_list(l).len() && (l != src || ia != 0) && #[trigger] before.free_list(l)[ia] == y;
                    assert(apart(q, size, before.free_list(l)[ia], layer_size(l)));
                }
            }
            if src < t {
                lemma_sizes_ordered(src, t);
            }
        }
    } else {
        assert(after.layers@ == before.layers@);
        assert forall|l: int, i: int|
            #![trigger after.free_list(l)[i]]
            0 <= l < LAYER_COUNT && 0 <= i < after.free_list(l).len() implies apart(q, size, after.free_list(l)[i], layer_size(l)) by {
            assert(after.free_list(l) == before.free_list(l));
        }
    }
}

/// A slab that overlaps no free slab and not the slab `a` being freed on
/// layer `k` overlaps no free slab after the free either.
pub proof fn lemma_held_slab_after_free(
    before: PhysicalBuddyAllocator,
    after: PhysicalBuddyAllocator,
    a: u64,
    k: int,
    q: u64,
    size: u64,
)
    requires
        before.wf(),
        size > 0,
        0 <= k < LAYER_COUNT,
        a % layer_size(k) == 0,
        a < MAX_MEMORY,
        apart_from_free(before, q, size),
        apart(q, size, a, layer_size(k)),
        PhysicalBuddyAllocator::freed_from(&before, &after, a, k),
    ensures
        apart_from_free(after, q, size),
{
    let m = before.merge_stop(a, k, k);
    let c = chain(a, k, m);
    lemma_chain_aligned(a, k, m);
    assert forall|l: int, i: int|
        #![trigger after.free_list(l)[i]]
        0 <= l < LAYER_COUNT && 0 <= i < after.free_list(l).len() implies apart(q, size, after.free_list(l)[i], layer_size(l)) by {
        lemma_origin_after_free(before, after, a, k, l, i);
        let oi = origin_index(before, a, k, l, i);
        if oi >= 0 {
            assert(apart(q, size, before.free_list(l)[oi], layer_size(l)));
        } else {
            assert(after.free_list(l)[i] == c && l == m);
            if !apart(q, size, c, layer_size(m)) {
                let p = lemma_overlap_piece(a, k, m, q as int, size as int);
                if p == k && overlap(a as int, layer_size(k) as int, q as int, size as int) {
                } else {
                    lemma_merge_chain_listed(before, a, k, m, p);
                    let b = buddy_of(chain(a, k, p), p);
                    let bi = before.free_list(p).index_of(b);
                    assert(before.free_list(p).contains(b));
                    assert(0 <= bi < before.free_list(p).len() && before.free_list(p)[bi] == b);
                    assert(apart(q, size, before.free_list(p)[bi], layer_size(p)));
                }
            }
        }
    }
}

} // verus!
