//! One bit per word of the one stack: whether the word is a reference.
use crate::ir::{Function, SlotKind};
use vstd::prelude::*;

verus! {

/// How many words one limb answers for.
pub const LIMB: usize = 64;

/// Bit `i` of a limb.
pub open spec fn limb_bit(limb: u64, i: int) -> bool {
    (limb >> (i as u64)) & 1 == 1
}

/// Bit `at` of a run of limbs, and false past their end.
pub open spec fn bit_of(limbs: Seq<u64>, at: int) -> bool {
    0 <= at && at / 64 < limbs.len() && limb_bit(limbs[at / 64], at % 64)
}

proof fn lemma_set_bit(limb: u64, b: u64, i: u64)
    by (bit_vector)
    requires
        b < 64,
        i < 64,
    ensures
        ((limb | (1u64 << b)) >> i) & 1 == (if i == b {
            1
        } else {
            (limb >> i) & 1
        }),
        ((limb & !(1u64 << b)) >> i) & 1 == (if i == b {
            0
        } else {
            (limb >> i) & 1
        }),
{
}

proof fn lemma_zero_limb(i: u64)
    by (bit_vector)
    ensures
        (0u64 >> i) & 1 == 0,
{
}

/// Bits of a limb taken from one place inside a mask and from another outside.
proof fn lemma_mixed(old_limb: u64, named: u64, mask: u64, i: u64)
    by (bit_vector)
    requires
        i < 64,
    ensures
        (((old_limb & !mask) | (named & mask)) >> i) & 1 == (if (mask >> i) & 1 == 1 {
            (named >> i) & 1
        } else {
            (old_limb >> i) & 1
        }),
{
}

proof fn lemma_mask_bits(from: u64, to: u64, i: u64)
    by (bit_vector)
    requires
        from < 64,
        to < 64,
        i < 64,
    ensures
        ((0xFFFF_FFFF_FFFF_FFFFu64 << from) >> i) & 1 == (if i >= from {
            1u64
        } else {
            0
        }),
        (((0xFFFF_FFFF_FFFF_FFFFu64 << from) & !(0xFFFF_FFFF_FFFF_FFFFu64 << to)) >> i) & 1 == (if i
            >= from && i < to {
            1u64
        } else {
            0
        }),
{
}

proof fn lemma_shifted(low: u64, prev: u64, shift: u64, i: u64)
    by (bit_vector)
    requires
        0 < shift < 64,
        i < 64,
    ensures
        (((low << shift) | (prev >> ((64 - shift) as u64))) >> i) & 1 == (if i >= shift {
            (low >> ((i - shift) as u64)) & 1
        } else {
            (prev >> ((i + 64 - shift) as u64)) & 1
        }),
{
}

/// What stripping the lowest set bit of a limb leaves.
proof fn lemma_strip_lowest(limb: u64, tz: u64, i: u64)
    by (bit_vector)
    requires
        tz < 64,
        i < 64,
        (limb >> tz) & 1 == 1,
        limb << ((64 - tz) as u64) == 0,
    ensures
        limb >= 1,
        ((limb & ((limb - 1) as u64)) >> i) & 1 == (if i == tz {
            0
        } else {
            (limb >> i) & 1
        }),
        i < tz ==> (limb >> i) & 1 == 0,
{
}

/// Bits kept by a mask are those both hold.
proof fn lemma_and_bits(limb: u64, mask: u64, i: u64)
    by (bit_vector)
    requires
        i < 64,
    ensures
        ((limb & mask) >> i) & 1 == (if (mask >> i) & 1 == 1 {
            (limb >> i) & 1
        } else {
            0
        }),
        ((limb & !mask) >> i) & 1 == (if (mask >> i) & 1 == 1 {
            0
        } else {
            (limb >> i) & 1
        }),
{
}

/// Where one function's words stand in the frame, and which of them are
/// references.
///
/// A slot's number is its offset from the frame's base. What is left is the
/// part a number cannot carry: how wide a frame is, and which of its words are
/// references, one bit per slot, packed the way [`Bitmap`] packs its limbs and
/// counted from the frame's own slot 0.
#[derive(Debug)]
pub struct FrameMap {
    /// How many words one call needs.
    pub width: usize,
    /// Bit `i % 64` of limb `i / 64` is set exactly when slot `i` is a
    /// reference.
    pub template: Vec<u64>,
}

impl FrameMap {
    /// Slot `at` is a reference.
    pub open spec fn names(self, at: int) -> bool {
        bit_of(self.template@, at)
    }

    /// The map a function's own numbering states.
    pub fn of(function: &Function) -> (map: FrameMap)
        ensures
            map.width == function.slots@.len(),
            forall|at: int|
                #![trigger map.names(at)]
                map.names(at) == (0 <= at < function.slots@.len()
                    && function.slots@[at] is Value),
    {
        let width: usize = function.slots.len();
        let limbs: usize = width / 64 + (if width % 64 == 0 {
            0usize
        } else {
            1
        });
        let mut template: Vec<u64> = Vec::new();
        while template.len() < limbs
            invariant
                template@.len() <= limbs,
                forall|i: int| 0 <= i < template@.len() ==> template@[i] == 0,
            decreases limbs - template@.len(),
        {
            template.push(0);
        }
        let mut slot: usize = 0;
        proof {
            assert forall|at: int| !#[trigger] bit_of(template@, at) by {
                lemma_zero_limb((at % 64) as u64);
            }
        }
        while slot < width
            invariant
                slot <= width,
                width == function.slots@.len(),
                template@.len() == limbs,
                limbs * 64 >= width,
                forall|at: int|
                    #![trigger bit_of(template@, at)]
                    bit_of(template@, at) == (0 <= at < slot && function.slots@[at] is Value),
            decreases width - slot,
        {
            if let SlotKind::Value = function.slots[slot] {
                let ghost before = template@;
                let limb: u64 = template[slot / 64];
                template.set(slot / 64, limb | (1u64 << ((slot % 64) as u64)));
                proof {
                    assert forall|at: int| #[trigger]
                        bit_of(template@, at) == (at == slot || bit_of(before, at)) by {
                        if 0 <= at && at / 64 == slot / 64 {
                            lemma_set_bit(limb, (slot % 64) as u64, (at % 64) as u64);
                        }
                    }
                }
            }
            slot = slot + 1;
        }
        FrameMap { width, template }
    }
}

/// One bit per word of the one stack: whether the word is a reference.
///
/// Sixty-four words to a limb. The bits are the whole of what a collection
/// consults; the words themselves say nothing.
#[derive(Debug)]
pub struct Bitmap {
    limbs: Vec<u64>,
}

impl Bitmap {
    /// The word at `at` is a reference.
    pub closed spec fn is_ref(self, at: int) -> bool {
        bit_of(self.limbs@, at)
    }

    /// A bitmap with room for `words` words.
    pub fn with_capacity(words: usize) -> (map: Bitmap)
        ensures
            forall|at: int| !#[trigger] map.is_ref(at),
    {
        let limbs: usize = words / 64 + (if words % 64 == 0 {
            0usize
        } else {
            1
        });
        Bitmap::with_limbs(limbs)
    }

    /// A bitmap of `limbs` limbs, reserved up front.
    pub fn with_limbs(limbs: usize) -> (map: Bitmap)
        ensures
            forall|at: int| !#[trigger] map.is_ref(at),
    {
        let mut map = Bitmap { limbs: Vec::new() };
        map.grow(limbs);
        map
    }

    /// Makes room for at least `limbs` limbs.
    fn grow(&mut self, limbs: usize)
        ensures
            final(self).limbs@.len() >= limbs,
            final(self).limbs@.len() >= old(self).limbs@.len(),
            forall|at: int| #[trigger] final(self).is_ref(at) == old(self).is_ref(at),
    {
        while self.limbs.len() < limbs
            invariant
                self.limbs@.len() >= old(self).limbs@.len(),
                forall|at: int| #[trigger] self.is_ref(at) == old(self).is_ref(at),
            decreases limbs - self.limbs@.len(),
        {
            let ghost before = *self;
            self.limbs.push(0);
            proof {
                assert forall|at: int| #[trigger] self.is_ref(at) == before.is_ref(at) by {
                    lemma_zero_limb((at % 64) as u64);
                }
            }
        }
    }

    /// Says whether the word at `at` is a reference.
    pub fn write(&mut self, at: usize, is_reference: bool)
        requires
            at / 64 < usize::MAX,
        ensures
            forall|j: int| #[trigger]
                final(self).is_ref(j) == (if j == at {
                    is_reference
                } else {
                    old(self).is_ref(j)
                }),
    {
        self.grow(at / 64 + 1);
        let ghost before = *self;
        let index: usize = at / 64;
        let limb: u64 = self.limbs[index];
        let bit: u64 = 1u64 << ((at % 64) as u64);
        let written: u64 = if is_reference {
            limb | bit
        } else {
            limb & !bit
        };
        self.limbs.set(index, written);
        proof {
            assert forall|j: int| #[trigger]
                self.is_ref(j) == (if j == at {
                    is_reference
                } else {
                    before.is_ref(j)
                }) by {
                if 0 <= j && j / 64 == index {
                    lemma_set_bit(limb, (at % 64) as u64, (j % 64) as u64);
                }
            }
        }
    }

    /// Whether the word at `at` is a reference.
    pub fn read(&self, at: usize) -> (is_reference: bool)
        ensures
            is_reference == self.is_ref(at as int),
    {
        if at / 64 < self.limbs.len() {
            (self.limbs[at / 64] >> ((at % 64) as u64)) & 1 == 1
        } else {
            false
        }
    }

    /// The bits of limb `index` that `from .. to` covers.
    fn mask(index: usize, from: usize, to: usize) -> (mask: u64)
        requires
            index <= to / 64,
        ensures
            forall|i: int|
                0 <= i < 64 ==> #[trigger] limb_bit(mask, i) == (from <= index * 64 + i && index * 64
                    + i < to),
    {
        let low: usize = index * 64;
        proof {
            assert forall|i: int| 0 <= i < 64 implies !#[trigger] limb_bit(0, i) by {
                lemma_zero_limb(i as u64);
            }
        }
        if to <= low || (from >= low && from - low >= 64) {
            return 0;
        }
        let first: u64 = if from > low {
            (from - low) as u64
        } else {
            0
        };
        let room: usize = to - low;
        if room >= 64 {
            proof {
                assert forall|i: int| 0 <= i < 64 implies #[trigger] limb_bit(
                    0xFFFF_FFFF_FFFF_FFFFu64 << first,
                    i,
                ) == (first <= i) by {
                    lemma_mask_bits(first, 0, i as u64);
                }
            }
            0xFFFF_FFFF_FFFF_FFFFu64 << first
        } else {
            let last: u64 = room as u64;
            proof {
                assert forall|i: int| 0 <= i < 64 implies #[trigger] limb_bit(
                    (0xFFFF_FFFF_FFFF_FFFFu64 << first) & !(0xFFFF_FFFF_FFFF_FFFFu64 << last),
                    i,
                ) == (first <= i < last) by {
                    lemma_mask_bits(first, last, i as u64);
                }
            }
            (0xFFFF_FFFF_FFFF_FFFFu64 << first) & !(0xFFFF_FFFF_FFFF_FFFFu64 << last)
        }
    }

    /// Writes a whole frame's worth in one pass: every word of
    /// `base .. base + map.width` a scalar, except where the map's template
    /// names a reference.
    ///
    /// One read-modify-write per limb touched. The template is counted from the
    /// frame's own slot 0, so it is shifted left by `base % 64` before it meets
    /// a limb here, and what that pushes off the top of one limb is carried
    /// into the next.
    pub fn write_frame(&mut self, base: usize, map: &FrameMap)
        requires
            base + map.width + 64 <= usize::MAX,
        ensures
            forall|j: int| #[trigger]
                final(self).is_ref(j) == (if base <= j < base + map.width {
                    map.names(j - base)
                } else {
                    old(self).is_ref(j)
                }),
    {
        let width: usize = map.width;
        if width == 0 {
            return;
        }
        let end: usize = base + width;
        let shift: u64 = (base % 64) as u64;
        let first: usize = base / 64;
        let last: usize = (end - 1) / 64;
        self.grow(last + 1);
        let mut index: usize = first;
        while index <= last
            invariant
                first == base / 64,
                last == (end - 1) / 64,
                end == base + width,
                end + 64 <= usize::MAX,
                width == map.width,
                width > 0,
                shift == base % 64,
                first <= index <= last + 1,
                self.limbs@.len() > last,
                forall|j: int| #[trigger]
                    self.is_ref(j) == (if base <= j < end && j < index * 64 {
                        map.names(j - base)
                    } else {
                        old(self).is_ref(j)
                    }),
            decreases last + 1 - index,
        {
            let ghost before = *self;
            let frame: u64 = Bitmap::mask(index, base, end);
            let t: usize = index - first;
            let low: u64 = if t < map.template.len() {
                map.template[t]
            } else {
                0
            };
            let prev: u64 = if t > 0 && t - 1 < map.template.len() {
                map.template[t - 1]
            } else {
                0
            };
            let named: u64 = if shift == 0 {
                low
            } else {
                (low << shift) | (prev >> (64 - shift))
            };
            let limb: u64 = self.limbs[index];
            self.limbs.set(index, (limb & !frame) | (named & frame));
            proof {
                assert forall|i: int|
                    0 <= i < 64 && base <= index * 64 + i < end implies #[trigger] limb_bit(
                    named,
                    i,
                ) == map.names(index * 64 + i - base) by {
                    let at = index * 64 + i - base;
                    lemma_zero_limb(i as u64);
                    if shift == 0 {
                        assert(at == t * 64 + i);
                        assert(at / 64 == t && at % 64 == i);
                    } else {
                        lemma_shifted(low, prev, shift, i as u64);
                        if i >= shift {
                            assert(at == t * 64 + (i - shift));
                            assert(at / 64 == t && at % 64 == i - shift);
                            lemma_zero_limb((i - shift) as u64);
                        } else {
                            assert(at == (t - 1) * 64 + (i + 64 - shift));
                            assert(at / 64 == t - 1 && at % 64 == i + 64 - shift);
                            lemma_zero_limb((i + 64 - shift) as u64);
                        }
                    }
                }
                assert forall|j: int| #[trigger]
                    self.is_ref(j) == (if base <= j < end && j < (index + 1) * 64 {
                        map.names(j - base)
                    } else {
                        old(self).is_ref(j)
                    }) by {
                    assert(before.is_ref(j) == (if base <= j < end && j < index * 64 {
                        map.names(j - base)
                    } else {
                        old(self).is_ref(j)
                    }));
                    if 0 <= j && j / 64 == index {
                        let i = j % 64;
                        assert(j == index * 64 + i);
                        lemma_mixed(limb, named, frame, i as u64);
                        assert(limb_bit(frame, i) == (base <= j < end));
                        if base <= j < end {
                            assert(limb_bit(named, i) == map.names(j - base));
                        }
                    } else {
                        assert(self.is_ref(j) == before.is_ref(j));
                    }
                }
            }
            index = index + 1;
        }
        proof {
            assert forall|j: int| #[trigger]
                self.is_ref(j) == (if base <= j < base + map.width {
                    map.names(j - base)
                } else {
                    old(self).is_ref(j)
                }) by {
                if base <= j < end {
                    assert(j / 64 <= last);
                    assert(j < index * 64);
                }
            }
        }
    }

    /// The places of the references in `from .. to`, in ascending order,
    /// skipping sixty-four words at a time wherever a limb is empty.
    pub fn references(&self, from: usize, to: usize) -> (found: Vec<usize>)
        ensures
            forall|i: int, j: int| 0 <= i < j < found@.len() ==> found@[i] < found@[j],
            forall|at: int|
                from <= at < to && self.is_ref(at) <==> exists|i: int|
                    0 <= i < found@.len() && #[trigger] found@[i] == at,
    {
        let mut found: Vec<usize> = Vec::new();
        if from >= to {
            return found;
        }
        let first: usize = from / 64;
        let last: usize = (to - 1) / 64;
        let mut index: usize = first;
        while index <= last && index < self.limbs.len()
            invariant
                from < to,
                first == from / 64,
                last == (to - 1) / 64,
                first <= index <= last + 1,
                forall|i: int, j: int| 0 <= i < j < found@.len() ==> found@[i] < found@[j],
                forall|i: int|
                    0 <= i < found@.len() ==> from <= #[trigger] found@[i] < to && found@[i] < index
                        * 64 && self.is_ref(found@[i] as int),
                forall|at: int|
                    #![trigger self.is_ref(at)]
                    from <= at < to && at < index * 64 && self.is_ref(at) ==> exists|i: int|
                        0 <= i < found@.len() && #[trigger] found@[i] == at,
            decreases last + 1 - index,
        {
            let whole: u64 = self.limbs[index];
            let mask: u64 = Bitmap::mask(index, from, to);
            let mut limb: u64 = whole & mask;
            let ghost kept = limb;
            proof {
                assert forall|i: int| 0 <= i < 64 implies #[trigger] limb_bit(kept, i) == (from
                    <= index * 64 + i < to && self.is_ref(index * 64 + i)) by {
                    lemma_and_bits(whole, mask, i as u64);
                    lemma_zero_limb(i as u64);
                    assert((index * 64 + i) / 64 == index && (index * 64 + i) % 64 == i);
                    assert(limb_bit(mask, i) == (from <= index * 64 + i < to));
                }
            }
            let ghost mut floor: int = 0;
            while limb != 0
                invariant
                    index <= last,
                    last == (to - 1) / 64,
                    0 <= floor <= 64,
                    forall|i: int|
                        0 <= i < 64 ==> #[trigger] limb_bit(kept, i) == (from <= index * 64 + i < to
                            && self.is_ref(index * 64 + i)),
                    forall|i: int|
                        0 <= i < 64 ==> #[trigger] limb_bit(limb, i) == (floor <= i && limb_bit(
                            kept,
                            i,
                        )),
                    forall|i: int, j: int| 0 <= i < j < found@.len() ==> found@[i] < found@[j],
                    forall|i: int|
                        0 <= i < found@.len() ==> from <= #[trigger] found@[i] < to && found@[i]
                            < index * 64 + floor && self.is_ref(found@[i] as int),
                    forall|at: int|
                        #![trigger self.is_ref(at)]
                        from <= at < to && at < index * 64 + floor && self.is_ref(at)
                            ==> exists|i: int| 0 <= i < found@.len() && #[trigger] found@[i] == at,
                decreases 64 - floor,
            {
                let bit: u32 = limb.trailing_zeros();
                proof {
                    vstd::std_specs::bits::axiom_u64_trailing_zeros(limb);
                    lemma_strip_lowest(limb, bit as u64, 0);
                    assert(limb_bit(limb, bit as int));
                    assert forall|i: int| floor <= i < bit implies !#[trigger] limb_bit(kept, i) by {
                        lemma_strip_lowest(limb, bit as u64, i as u64);
                        assert(!limb_bit(limb, i));
                    }
                    assert(limb_bit(kept, bit as int));
                    assert(index * 64 + bit < to);
                }
                let at: usize = index * 64 + bit as usize;
                let ghost earlier = found@;
                found.push(at);
                let ghost stripped = limb;
                limb = limb & (limb - 1);
                proof {
                    assert forall|i: int| 0 <= i < 64 implies #[trigger] limb_bit(limb, i) == (bit + 1
                        <= i && limb_bit(kept, i)) by {
                        lemma_strip_lowest(stripped, bit as u64, i as u64);
                        assert(limb_bit(stripped, i) == (floor <= i && limb_bit(kept, i)));
                    }
                    assert forall|a: int|
                        #![trigger self.is_ref(a)]
                        from <= a < to && a < index * 64 + bit + 1 && self.is_ref(
                            a,
                        ) implies exists|i: int| 0 <= i < found@.len() && #[trigger] found@[i] == a by {
                        if a < index * 64 + floor {
                            let i = choose|i: int|
                                0 <= i < earlier.len() && #[trigger] earlier[i] == a;
                            assert(found@[i] == a);
                        } else {
                            let i = a - index * 64;
                            assert(limb_bit(kept, i));
                            assert(i == bit);
                            assert(found@[earlier.len() as int] == a);
                        }
                    }
                    floor = bit as int + 1;
                }
            }
            proof {
                assert forall|a: int|
                    #![trigger self.is_ref(a)]
                    from <= a < to && a < (index + 1) * 64 && self.is_ref(a) implies exists|i: int|
                    0 <= i < found@.len() && #[trigger] found@[i] == a by {
                    if a >= index * 64 + floor {
                        let i = a - index * 64;
                        lemma_zero_limb(i as u64);
                        assert(limb_bit(kept, i));
                        assert(limb_bit(limb, i));
                    }
                }
            }
            index = index + 1;
        }
        proof {
            assert forall|at: int| from <= at < to && self.is_ref(at) implies exists|i: int|
                0 <= i < found@.len() && #[trigger] found@[i] == at by {
                assert(at / 64 <= last && at / 64 < self.limbs@.len());
                assert(at < index * 64);
            }
        }
        found
    }
}

/// Slot `at` of a function is named by bit `at % 64` of limb `at / 64`, the
/// least significant bit first.
pub proof fn a_slot_is_named_by_its_bit(map: FrameMap, at: int)
    requires
        0 <= at,
    ensures
        at / 64 < map.template@.len() ==> (map.names(at) <==> (map.template@[at / 64] >> ((at
            % 64) as u64)) & 1 == 1),
        at / 64 >= map.template@.len() ==> !map.names(at),
{
}

} // verus!
