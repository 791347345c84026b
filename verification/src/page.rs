//! Pages: the unit in which a heap file is read and written.
//!
//! A page of `PAGE_SIZE` bytes starts with its id and its number of slots, two bytes each, the lower
//! byte first. Two bytes for each slot follow: the length of its value, or `FREE_SLOT`. Then come the
//! values, one after the other, and zeros up to the end.

use vstd::prelude::*;
use vstd::string::StringExecFns;

use crate::ids::{PageId, SlotId};
use crate::text::{append_decimal, decimal};

verus! {

/// How many bytes a page has.
pub const PAGE_SIZE: usize = 4096;

/// How many bytes of a page stand before those that belong to slots.
pub const PAGE_HEADER_SIZE: usize = 4;

/// How many bytes the length of the value in a slot takes.
pub const SLOT_HEADER_SIZE: usize = 2;

/// What stands in place of a length where a slot holds no value.
pub const FREE_SLOT: u16 = 0xFFFF;

/// How long the longest value is that a page can hold.
pub const MAX_VALUE_SIZE: usize = 4090;

/// What the slots of a page hold.
pub type Slots = Seq<Option<Seq<u8>>>;

/// What a `Page` holds.
#[verifier::ext_equal]
pub struct PageView {
    pub id: PageId,
    pub slots: Slots,
}

/// The lower byte of a number.
pub open spec fn low_byte(n: u16) -> u8 {
    (n % 256) as u8
}

/// The upper byte of a number.
pub open spec fn high_byte(n: u16) -> u8 {
    (n / 256) as u8
}

/// The number whose two bytes stand at a position.
pub open spec fn number_at(bytes: Seq<u8>, at: int) -> u16 {
    (bytes[at] + 256 * bytes[at + 1]) as u16
}

/// The bytes of the value in a slot.
pub open spec fn slot_value(slot: Option<Seq<u8>>) -> Seq<u8> {
    match slot {
        Some(value) => value,
        None => Seq::empty(),
    }
}

/// What stands on a page for a slot: the length of its value, or `FREE_SLOT`.
pub open spec fn slot_code(slot: Option<Seq<u8>>) -> u16 {
    match slot {
        Some(value) => value.len() as u16,
        None => FREE_SLOT,
    }
}

/// The values of some slots, one after the other.
pub open spec fn payload(slots: Slots) -> Seq<u8>
    decreases slots.len(),
{
    if slots.len() == 0 {
        Seq::empty()
    } else {
        payload(slots.drop_last()) + slot_value(slots.last())
    }
}

/// The bytes that stand on a page for some slots.
pub open spec fn slot_headers(slots: Slots) -> Seq<u8>
    decreases slots.len(),
{
    if slots.len() == 0 {
        Seq::empty()
    } else {
        slot_headers(slots.drop_last()).push(low_byte(slot_code(slots.last()))).push(
            high_byte(slot_code(slots.last())),
        )
    }
}

/// The slots from `slot` to `count`, whose values stand on a page from `at` on; `None` if a value
/// does not end on the page.
pub open spec fn parse_slots(bytes: Seq<u8>, slot: int, count: int, at: int) -> Option<Slots>
    decreases count - slot,
{
    if slot >= count {
        Some(Seq::empty())
    } else {
        let code = number_at(bytes, PAGE_HEADER_SIZE + SLOT_HEADER_SIZE * slot);
        if code == FREE_SLOT {
            match parse_slots(bytes, slot + 1, count, at) {
                Some(later) => Some(seq![None] + later),
                None => None,
            }
        } else if at + code > bytes.len() {
            None
        } else {
            match parse_slots(bytes, slot + 1, count, at + code) {
                Some(later) => Some(seq![Some(bytes.subrange(at, at + code))] + later),
                None => None,
            }
        }
    }
}

/// The page that some bytes stand for. Bytes that stand for no page count as one without slots.
pub open spec fn parse_page(bytes: Seq<u8>) -> PageView {
    let id = number_at(bytes, 0);
    let count = number_at(bytes, 2);
    let start = PAGE_HEADER_SIZE + SLOT_HEADER_SIZE * count;
    let slots = if start > bytes.len() {
        None
    } else {
        parse_slots(bytes, 0, count as int, start)
    };
    PageView {
        id,
        slots: match slots {
            Some(slots) => slots,
            None => Seq::empty(),
        },
    }
}

/// The first slot without a value; the number of slots if there is none.
pub open spec fn first_free(slots: Slots) -> int
    decreases slots.len(),
{
    if slots.len() == 0 || slots[0] is None {
        0
    } else {
        1 + first_free(slots.drop_first())
    }
}

impl PageView {
    /// The page without any slot.
    pub open spec fn empty(id: PageId) -> PageView {
        PageView { id, slots: Seq::empty() }
    }

    /// How many bytes of the page are in use.
    pub open spec fn used(self) -> int {
        PAGE_HEADER_SIZE + SLOT_HEADER_SIZE * self.slots.len() + payload(self.slots).len()
    }

    /// Whether the page fits into its bytes.
    pub open spec fn fits(self) -> bool {
        self.used() <= PAGE_SIZE
    }

    /// The value in a slot, if there is one.
    pub open spec fn value(self, slot: int) -> Option<Seq<u8>> {
        if 0 <= slot < self.slots.len() {
            self.slots[slot]
        } else {
            None
        }
    }

    /// How many more bytes of the page are in use once a value of the given length is added.
    pub open spec fn cost(self, len: nat) -> int {
        if first_free(self.slots) < self.slots.len() {
            len as int
        } else {
            SLOT_HEADER_SIZE + len
        }
    }

    /// Whether there is room for a value of the given length.
    pub open spec fn has_room(self, len: nat) -> bool {
        self.used() + self.cost(len) <= PAGE_SIZE
    }

    /// The page after a value is added in the first free slot, or in a new one if none is free.
    pub open spec fn with_value(self, value: Seq<u8>) -> PageView {
        let slot = first_free(self.slots);
        PageView {
            id: self.id,
            slots: if slot < self.slots.len() {
                self.slots.update(slot, Some(value))
            } else {
                self.slots.push(Some(value))
            },
        }
    }

    /// The page after the value in a slot is deleted. If there is none, nothing changes.
    pub open spec fn without(self, slot: int) -> PageView {
        if 0 <= slot < self.slots.len() {
            PageView { id: self.id, slots: self.slots.update(slot, None) }
        } else {
            self
        }
    }

    /// The bytes that stand for the page.
    pub open spec fn bytes(self) -> Seq<u8> {
        seq![
            low_byte(self.id),
            high_byte(self.id),
            low_byte(self.slots.len() as u16),
            high_byte(self.slots.len() as u16),
        ] + slot_headers(self.slots) + payload(self.slots) + Seq::new(
            (PAGE_SIZE - self.used()) as nat,
            |i: int| 0u8,
        )
    }
}

/// The slot headers take two bytes for each slot, and each stands where its slot says.
proof fn lemma_slot_headers(slots: Slots)
    ensures
        slot_headers(slots).len() == SLOT_HEADER_SIZE * slots.len(),
        forall|i: int|
            #![trigger slots[i]]
            0 <= i < slots.len() ==> number_at(slot_headers(slots), SLOT_HEADER_SIZE * i)
                == slot_code(slots[i]),
    decreases slots.len(),
{
    if slots.len() > 0 {
        let before = slots.drop_last();
        lemma_slot_headers(before);
        assert forall|i: int|
            #![trigger slots[i]]
            0 <= i < slots.len() implies number_at(slot_headers(slots), SLOT_HEADER_SIZE * i)
            == slot_code(slots[i]) by {
            if i < before.len() {
                assert(before[i] == slots[i]);
                assert(slot_headers(slots)[2 * i] == slot_headers(before)[2 * i]);
                assert(slot_headers(slots)[2 * i + 1] == slot_headers(before)[2 * i + 1]);
            }
        }
    }
}

/// The values of the first slots stand at the start of the values of all slots.
proof fn lemma_payload_prefix(slots: Slots, n: int)
    requires
        0 <= n <= slots.len(),
    ensures
        payload(slots.take(n)).len() <= payload(slots).len(),
        payload(slots).take(payload(slots.take(n)).len() as int) == payload(slots.take(n)),
    decreases slots.len(),
{
    if n == slots.len() {
        assert(slots.take(n) == slots);
    } else {
        lemma_payload_prefix(slots.drop_last(), n);
        assert(slots.drop_last().take(n) == slots.take(n));
        let shorter = payload(slots.drop_last());
        let len = payload(slots.take(n)).len() as int;
        assert(payload(slots).take(len) == shorter.take(len));
    }
}

/// The value of a slot stands behind those of the slots before it.
proof fn lemma_payload_value(slots: Slots, n: int)
    requires
        0 <= n < slots.len(),
    ensures
        ({
            let start = payload(slots.take(n)).len() as int;
            let value = slot_value(slots[n]);
            &&& payload(slots.take(n + 1)).len() == start + value.len()
            &&& start + value.len() <= payload(slots).len()
            &&& payload(slots).subrange(start, start + value.len()) == value
        }),
{
    let start = payload(slots.take(n)).len() as int;
    let value = slot_value(slots[n]);
    assert(slots.take(n + 1).drop_last() == slots.take(n));
    lemma_payload_prefix(slots, n + 1);
    let prefix = payload(slots.take(n + 1));
    assert(prefix == payload(slots.take(n)) + value);
    assert forall|k: int| 0 <= k < value.len() implies payload(slots)[start + k] == value[k] by {
        assert(payload(slots)[start + k] == payload(slots).take(prefix.len() as int)[start + k]);
    }
    assert(payload(slots).subrange(start, start + value.len()) =~= value);
}

/// A page that fits has few slots, and its bytes are those of a page.
proof fn lemma_page_bytes(page: PageView)
    requires
        page.fits(),
    ensures
        page.slots.len() < FREE_SLOT,
        page.bytes().len() == PAGE_SIZE,
{
    lemma_slot_headers(page.slots);
}

/// Reading the bytes of a page back slot by slot gives its slots.
proof fn lemma_parse_slots(page: PageView, slot: int)
    requires
        page.fits(),
        0 <= slot <= page.slots.len(),
    ensures
        parse_slots(
            page.bytes(),
            slot,
            page.slots.len() as int,
            PAGE_HEADER_SIZE + SLOT_HEADER_SIZE * page.slots.len() + payload(
                page.slots.take(slot),
            ).len(),
        ) == Some(page.slots.skip(slot)),
    decreases page.slots.len() - slot,
{
    lemma_page_bytes(page);
    let slots = page.slots;
    let bytes = page.bytes();
    let start = PAGE_HEADER_SIZE + SLOT_HEADER_SIZE * slots.len();
    if slot < slots.len() {
        lemma_parse_slots(page, slot + 1);
        lemma_slot_headers(slots);
        lemma_payload_value(slots, slot);
        let at = start + payload(slots.take(slot)).len();
        let value = slot_value(slots[slot]);
        let headers = slot_headers(slots);
        assert(bytes[4 + 2 * slot] == headers[2 * slot]);
        assert(bytes[4 + 2 * slot + 1] == headers[2 * slot + 1]);
        assert(number_at(bytes, 4 + 2 * slot) == slot_code(slots[slot]));
        assert(value.len() < FREE_SLOT);
        assert(bytes.subrange(at, at + value.len()) =~= payload(slots).subrange(
            at - start,
            at - start + value.len(),
        ));
        assert(slots.skip(slot) =~= seq![slots[slot]] + slots.skip(slot + 1));
    } else {
        assert(slots.skip(slot) =~= Seq::empty());
    }
}

/// Reading the bytes of a page back gives the page.
pub proof fn lemma_read_back(page: PageView)
    requires
        page.fits(),
    ensures
        page.bytes().len() == PAGE_SIZE,
        parse_page(page.bytes()) == page,
{
    lemma_page_bytes(page);
    let bytes = page.bytes();
    let count = page.slots.len() as u16;
    lemma_slot_headers(page.slots);
    assert(bytes[0] == low_byte(page.id));
    assert(bytes[1] == high_byte(page.id));
    assert(bytes[2] == low_byte(count));
    assert(bytes[3] == high_byte(count));
    assert(number_at(bytes, 0) == page.id);
    assert(number_at(bytes, 2) == count);
    lemma_parse_slots(page, 0);
    assert(page.slots.take(0) =~= Seq::empty());
    assert(page.slots.skip(0) =~= page.slots);
}

/// The values of a slot and of those behind it.
proof fn lemma_payload_first(slot: Option<Seq<u8>>, later: Slots)
    ensures
        payload(seq![slot] + later) == slot_value(slot) + payload(later),
    decreases later.len(),
{
    let slots = seq![slot] + later;
    if later.len() == 0 {
        assert(slots.drop_last() =~= Seq::empty());
        assert(slot_value(slot) + payload(later) =~= slot_value(slot));
        assert(payload(slots.drop_last()) =~= Seq::empty());
        assert(slots.last() == slot);
        assert(payload(slots) =~= slot_value(slot));
    } else {
        lemma_payload_first(slot, later.drop_last());
        assert(slots.drop_last() =~= seq![slot] + later.drop_last());
        assert(slot_value(slot) + payload(later) =~= slot_value(slot) + payload(later.drop_last())
            + slot_value(later.last()));
    }
}

/// What is read from some bytes takes no more room than they have.
proof fn lemma_parse_fits(bytes: Seq<u8>, slot: int, count: int, at: int)
    requires
        0 <= slot <= count,
        0 <= at <= bytes.len(),
    ensures
        parse_slots(bytes, slot, count, at) matches Some(slots) ==> slots.len() == count - slot
            && at + payload(slots).len() <= bytes.len(),
    decreases count - slot,
{
    if slot < count {
        let code = number_at(bytes, PAGE_HEADER_SIZE + SLOT_HEADER_SIZE * slot);
        if code == FREE_SLOT {
            lemma_parse_fits(bytes, slot + 1, count, at);
            if let Some(later) = parse_slots(bytes, slot + 1, count, at) {
                lemma_payload_first(None, later);
            }
        } else if at + code <= bytes.len() {
            lemma_parse_fits(bytes, slot + 1, count, at + code);
            if let Some(later) = parse_slots(bytes, slot + 1, count, at + code) {
                lemma_payload_first(Some(bytes.subrange(at, at + code)), later);
            }
        }
    }
}

/// Whatever the bytes of a page are, the page that they stand for fits.
pub proof fn lemma_parsed_page_fits(bytes: Seq<u8>)
    requires
        bytes.len() == PAGE_SIZE,
    ensures
        parse_page(bytes).fits(),
{
    let count = number_at(bytes, 2);
    let start = PAGE_HEADER_SIZE + SLOT_HEADER_SIZE * count;
    if start <= bytes.len() {
        lemma_parse_fits(bytes, 0, count as int, start);
    }
}

/// Changing a slot changes the length of the values by as much as that of its own.
proof fn lemma_payload_update(slots: Slots, i: int, slot: Option<Seq<u8>>)
    requires
        0 <= i < slots.len(),
    ensures
        payload(slots.update(i, slot)).len() == payload(slots).len() - slot_value(slots[i]).len()
            + slot_value(slot).len(),
    decreases slots.len(),
{
    let updated = slots.update(i, slot);
    if i == slots.len() - 1 {
        assert(updated.drop_last() =~= slots.drop_last());
    } else {
        lemma_payload_update(slots.drop_last(), i, slot);
        assert(updated.drop_last() =~= slots.drop_last().update(i, slot));
    }
}

/// The first free slot holds no value, and all before it do.
pub proof fn lemma_first_free(slots: Slots)
    ensures
        0 <= first_free(slots) <= slots.len(),
        first_free(slots) < slots.len() ==> slots[first_free(slots)] is None,
        forall|i: int| 0 <= i < first_free(slots) ==> (#[trigger] slots[i]) is Some,
    decreases slots.len(),
{
    if slots.len() > 0 && slots[0] is Some {
        let later = slots.drop_first();
        lemma_first_free(later);
        assert forall|i: int| 0 <= i < first_free(slots) implies (#[trigger] slots[i]) is Some by {
            if i > 0 {
                assert(later[i - 1] == slots[i]);
            }
        }
    }
}

/// Adding a value takes the room that it costs. It fills a slot that held nothing, and leaves the
/// others as they are.
pub proof fn lemma_with_value(page: PageView, value: Seq<u8>)
    ensures
        page.with_value(value).used() == page.used() + page.cost(value.len()),
        page.with_value(value).id == page.id,
        page.value(first_free(page.slots)) is None,
        page.with_value(value).value(first_free(page.slots)) == Some(value),
        forall|i: int|
            i != first_free(page.slots) ==> #[trigger] page.with_value(value).value(i)
                == page.value(i),
{
    let slot = first_free(page.slots);
    lemma_first_free(page.slots);
    if slot < page.slots.len() {
        lemma_payload_update(page.slots, slot, Some(value));
    } else {
        let slots = page.slots.push(Some(value));
        assert(slots.drop_last() =~= page.slots);
    }
}

/// Deleting a value takes no room. It empties the slot and leaves the others as they are.
pub proof fn lemma_without(page: PageView, slot: int)
    ensures
        page.without(slot).used() == page.used() - slot_value(page.value(slot)).len(),
        page.without(slot).id == page.id,
        page.without(slot).value(slot) is None,
        forall|i: int|
            i != slot ==> #[trigger] page.without(slot).value(i) == page.value(i),
        page.value(slot) is None ==> page.without(slot) == page,
{
    if 0 <= slot < page.slots.len() {
        lemma_payload_update(page.slots, slot, None);
        if page.slots[slot] is None {
            assert(page.slots.update(slot, None) =~= page.slots);
        }
    }
}

/// A new page has room for any value that is not too long for a page.
pub proof fn lemma_empty_page(id: PageId)
    ensures
        PageView::empty(id).fits(),
        forall|len: nat| PageView::empty(id).has_room(len) <==> len <= MAX_VALUE_SIZE,
{
}

/// The part of some bytes from `from` up to `to`.
fn copy_range(bytes: &[u8], from: usize, to: usize) -> (res: Vec<u8>)
    requires
        from <= to <= bytes@.len(),
    ensures
        res@ == bytes@.subrange(from as int, to as int),
{
    let mut res: Vec<u8> = Vec::with_capacity(to - from);
    for i in from..to
        invariant
            from <= to <= bytes@.len(),
            res@ == bytes@.subrange(from as int, i as int),
    {
        res.push(bytes[i]);
        assert(bytes@.subrange(from as int, i + 1) == bytes@.subrange(from as int, i as int).push(
            bytes@[i as int],
        ));
    }
    res
}

/// Appends the bytes of a value.
fn append_bytes(to: &mut Vec<u8>, value: &Vec<u8>)
    ensures
        final(to)@ == old(to)@ + value@,
{
    let ghost before = to@;
    for i in 0..value.len()
        invariant
            to@ == before + value@.take(i as int),
    {
        to.push(value[i]);
        assert(before + value@.take(i + 1) == (before + value@.take(i as int)).push(
            value@[i as int],
        ));
    }
    assert(value@.take(value@.len() as int) == value@);
}

/// The number whose two bytes stand at a position.
fn read_number(bytes: &[u8], at: usize) -> (res: u16)
    requires
        at + 1 < bytes@.len(),
    ensures
        res == number_at(bytes@, at as int),
{
    bytes[at] as u16 + 256 * (bytes[at + 1] as u16)
}

/// Appends the two bytes of a number.
fn write_number(to: &mut Vec<u8>, n: u16)
    ensures
        final(to)@ == old(to)@.push(low_byte(n)).push(high_byte(n)),
{
    to.push((n % 256) as u8);
    to.push((n / 256) as u8);
}

/// What some slots hold.
pub open spec fn slot_views(slots: Seq<Option<Vec<u8>>>) -> Slots {
    slots.map_values(
        |slot: Option<Vec<u8>>|
            match slot {
                Some(value) => Some(value@),
                None => None,
            },
    )
}

/// A page, taken apart into its slots.
#[derive(Debug)]
struct PageSlots {
    page_id: PageId,
    slots: Vec<Option<Vec<u8>>>,
}

impl View for PageSlots {
    type V = PageView;

    closed spec fn view(&self) -> PageView {
        PageView { id: self.page_id, slots: slot_views(self.slots@) }
    }
}

impl PageSlots {
    /// The page without any slot.
    fn new(page_id: PageId) -> (res: Self)
        ensures
            res@ == PageView::empty(page_id),
            res@.fits(),
    {
        let res = PageSlots { page_id, slots: Vec::new() };
        assert(res@.slots =~= Seq::empty());
        res
    }

    /// How many bytes of the page are in use.
    fn used_bytes(&self) -> (res: usize)
        requires
            self@.fits(),
        ensures
            res == self@.used(),
    {
        let mut res: usize = PAGE_HEADER_SIZE + SLOT_HEADER_SIZE * self.slots.len();
        let ghost slots = self@.slots;
        for i in 0..self.slots.len()
            invariant
                self@.fits(),
                slots == self@.slots,
                slots.len() == self.slots@.len(),
                res == PAGE_HEADER_SIZE + SLOT_HEADER_SIZE * slots.len() + payload(
                    slots.take(i as int),
                ).len(),
        {
            proof {
                lemma_payload_value(slots, i as int);
            }
            match &self.slots[i] {
                Some(value) => {
                    assert(slots[i as int] == Some(value@));
                    res = res + value.len();
                },
                None => {
                    assert(slots[i as int] is None);
                },
            }
        }
        assert(slots.take(slots.len() as int) == slots);
        res
    }

    /// The first slot without a value; the number of slots if there is none.
    fn free_slot(&self) -> (res: usize)
        ensures
            res == first_free(self@.slots),
    {
        let ghost slots = self@.slots;
        assert(slots.skip(0) == slots);
        for i in 0..self.slots.len()
            invariant
                slots == self@.slots,
                first_free(slots) == i + first_free(slots.skip(i as int)),
        {
            assert(slots.skip(i as int)[0] == slots[i as int]);
            assert(slots.skip(i as int).drop_first() == slots.skip(i + 1));
            if self.slots[i].is_none() {
                return i;
            }
        }
        self.slots.len()
    }

    /// Adds a value in the first free slot, or in a new one if none is free, and returns that
    /// slot. If there is no room for the value, the page stays as it is.
    fn add_value(&mut self, value: &[u8]) -> (res: Option<SlotId>)
        requires
            old(self)@.fits(),
        ensures
            final(self)@.fits(),
            match res {
                Some(slot) => {
                    &&& old(self)@.has_room(value@.len())
                    &&& slot == first_free(old(self)@.slots)
                    &&& final(self)@ == old(self)@.with_value(value@)
                },
                None => !old(self)@.has_room(value@.len()) && final(self)@ == old(self)@,
            },
    {
        let ghost before = self@;
        proof {
            lemma_page_bytes(before);
            lemma_first_free(before.slots);
            lemma_with_value(before, value@);
        }
        let used: usize = self.used_bytes();
        let slot: usize = self.free_slot();
        let header: usize = if slot < self.slots.len() {
            0
        } else {
            SLOT_HEADER_SIZE
        };
        if value.len() > PAGE_SIZE || used + header + value.len() > PAGE_SIZE {
            return None;
        }
        let copy = copy_range(value, 0, value.len());
        assert(copy@ == value@);
        if slot < self.slots.len() {
            self.slots.set(slot, Some(copy));
            assert(self@.slots =~= before.with_value(value@).slots);
        } else {
            self.slots.push(Some(copy));
            assert(self@.slots =~= before.with_value(value@).slots);
        }
        Some(slot as u16)
    }

    /// The value in a slot, if there is one.
    fn get_value(&self, slot_id: SlotId) -> (res: Option<Vec<u8>>)
        ensures
            match res {
                Some(value) => self@.value(slot_id as int) == Some(value@),
                None => self@.value(slot_id as int) is None,
            },
    {
        let slot: usize = slot_id as usize;
        if slot < self.slots.len() {
            match &self.slots[slot] {
                Some(value) => {
                    let copy = copy_range(value.as_slice(), 0, value.len());
                    assert(copy@ == value@);
                    Some(copy)
                },
                None => None,
            }
        } else {
            None
        }
    }

    /// Deletes the value in a slot, and says whether there was one.
    fn delete_value(&mut self, slot_id: SlotId) -> (res: Option<()>)
        ensures
            final(self)@ == old(self)@.without(slot_id as int),
            res is Some <==> old(self)@.value(slot_id as int) is Some,
            old(self)@.fits() ==> final(self)@.fits(),
    {
        let ghost before = self@;
        proof {
            lemma_without(before, slot_id as int);
        }
        let slot: usize = slot_id as usize;
        if slot < self.slots.len() && self.slots[slot].is_some() {
            self.slots.set(slot, None);
            assert(self@.slots =~= before.without(slot_id as int).slots);
            Some(())
        } else {
            None
        }
    }

    /// The bytes that stand for the page.
    fn to_bytes(&self) -> (res: Vec<u8>)
        requires
            self@.fits(),
        ensures
            res@ == self@.bytes(),
            res@.len() == PAGE_SIZE,
    {
        let ghost slots = self@.slots;
        proof {
            lemma_page_bytes(self@);
        }
        let mut res: Vec<u8> = Vec::with_capacity(PAGE_SIZE);
        write_number(&mut res, self.page_id);
        write_number(&mut res, self.slots.len() as u16);
        let ghost head = res@;
        assert(head =~= seq![
            low_byte(self.page_id),
            high_byte(self.page_id),
            low_byte(slots.len() as u16),
            high_byte(slots.len() as u16),
        ]);
        assert(head + slot_headers(slots.take(0)) =~= head);
        for i in 0..self.slots.len()
            invariant
                self@.fits(),
                slots == self@.slots,
                res@ == head + slot_headers(slots.take(i as int)),
        {
            assert(slots.take(i + 1).drop_last() == slots.take(i as int));
            proof {
                lemma_payload_value(slots, i as int);
            }
            let code: u16 = match &self.slots[i] {
                Some(value) => {
                    assert(slots[i as int] == Some(value@));
                    value.len() as u16
                },
                None => FREE_SLOT,
            };
            assert(code == slot_code(slots[i as int]));
            write_number(&mut res, code);
            assert(res@ =~= head + slot_headers(slots.take(i + 1)));
        }
        assert(slots.take(slots.len() as int) == slots);
        let ghost headed = res@;
        assert(headed + payload(slots.take(0)) =~= headed);
        for i in 0..self.slots.len()
            invariant
                slots == self@.slots,
                res@ == headed + payload(slots.take(i as int)),
        {
            assert(slots.take(i + 1).drop_last() == slots.take(i as int));
            match &self.slots[i] {
                Some(value) => {
                    assert(slots[i as int] == Some(value@));
                    append_bytes(&mut res, value);
                },
                None => {
                    assert(slots[i as int] is None);
                },
            }
            assert(res@ =~= headed + payload(slots.take(i + 1)));
        }
        let ghost filled = res@;
        proof {
            lemma_slot_headers(slots);
        }
        while res.len() < PAGE_SIZE
            invariant
                filled.len() <= res@.len() <= PAGE_SIZE,
                res@ == filled + Seq::new((res@.len() - filled.len()) as nat, |i: int| 0u8),
            decreases PAGE_SIZE - res@.len(),
        {
            res.push(0);
            assert(res@ =~= filled + Seq::new((res@.len() - filled.len()) as nat, |i: int| 0u8));
        }
        assert(res@ =~= self@.bytes());
        res
    }

    /// The bytes that stand for the page, as an array.
    fn to_array(&self) -> (res: [u8; PAGE_SIZE])
        requires
            self@.fits(),
        ensures
            res@ == self@.bytes(),
    {
        let bytes = self.to_bytes();
        let res = page_array(bytes.as_slice(), 0);
        assert(res@ =~= bytes@);
        res
    }

    /// Reads the slots of a page; `None` if its bytes stand for no page.
    fn read_slots(bytes: &[u8]) -> (res: Option<Vec<Option<Vec<u8>>>>)
        requires
            bytes@.len() == PAGE_SIZE,
        ensures
            ({
                let count = number_at(bytes@, 2);
                let start = PAGE_HEADER_SIZE + SLOT_HEADER_SIZE * count;
                let parsed = if start > bytes@.len() {
                    None
                } else {
                    parse_slots(bytes@, 0, count as int, start)
                };
                match res {
                    Some(slots) => parsed == Some(slot_views(slots@)),
                    None => parsed is None,
                }
            }),
    {
        let count: usize = read_number(bytes, 2) as usize;
        let mut at: usize = PAGE_HEADER_SIZE + SLOT_HEADER_SIZE * count;
        if at > PAGE_SIZE {
            return None;
        }
        let mut slots: Vec<Option<Vec<u8>>> = Vec::new();
        let ghost parsed = parse_slots(bytes@, 0, count as int, at as int);
        assert(slot_views(slots@) =~= Seq::empty());
        proof {
            if let Some(all) = parsed {
                assert(Seq::empty() + all =~= all);
            }
        }
        for slot in 0..count
            invariant
                bytes@.len() == PAGE_SIZE,
                count == number_at(bytes@, 2),
                parsed == parse_slots(
                    bytes@,
                    0,
                    count as int,
                    PAGE_HEADER_SIZE + SLOT_HEADER_SIZE * count,
                ),
                PAGE_HEADER_SIZE + SLOT_HEADER_SIZE * count <= at <= PAGE_SIZE,
                match parse_slots(bytes@, slot as int, count as int, at as int) {
                    Some(later) => parsed == Some(slot_views(slots@) + later),
                    None => parsed is None,
                },
        {
            let ghost before = slot_views(slots@);
            let code: u16 = read_number(bytes, PAGE_HEADER_SIZE + SLOT_HEADER_SIZE * slot);
            let value: Option<Vec<u8>> = if code == FREE_SLOT {
                None
            } else {
                let end: usize = at + code as usize;
                if end > PAGE_SIZE {
                    return None;
                }
                let value = copy_range(bytes, at, end);
                at = end;
                Some(value)
            };
            let ghost seen = slot_views(seq![value])[0];
            slots.push(value);
            proof {
                assert(slot_views(slots@) =~= before.push(seen));
                if let Some(later) = parse_slots(bytes@, slot + 1, count as int, at as int) {
                    assert(before + (seq![seen] + later) =~= before.push(seen) + later);
                }
            }
        }
        assert(slot_views(slots@) + Seq::empty() =~= slot_views(slots@));
        Some(slots)
    }

    /// The page that some bytes stand for. Bytes that stand for no page count as one without
    /// slots.
    fn from_bytes(bytes: &[u8]) -> (res: Self)
        requires
            bytes@.len() == PAGE_SIZE,
        ensures
            res@ == parse_page(bytes@),
            res@.fits(),
    {
        proof {
            lemma_parsed_page_fits(bytes@);
        }
        let page_id: u16 = read_number(bytes, 0);
        match Self::read_slots(bytes) {
            Some(slots) => PageSlots { page_id, slots },
            None => {
                let res = PageSlots { page_id, slots: Vec::new() };
                assert(res@.slots =~= Seq::empty());
                res
            },
        }
    }

    /// A text that shows the page to a reader: its id, and the lengths of the values in its slots.
    fn debug_text(&self) -> (res: String)
        ensures
            res@ == page_text(self@),
    {
        let mut res = String::from_str("page ");
        append_decimal(&mut res, self.page_id as usize);
        res.append(":");
        let ghost head = res@;
        let ghost slots = self@.slots;
        assert(head + slots_text(slots.take(0)) =~= head);
        for i in 0..self.slots.len()
            invariant
                slots == self@.slots,
                res@ == head + slots_text(slots.take(i as int)),
        {
            assert(slots.take(i + 1).drop_last() == slots.take(i as int));
            res.append(" ");
            match &self.slots[i] {
                Some(value) => {
                    assert(slots[i as int] == Some(value@));
                    append_decimal(&mut res, value.len());
                },
                None => {
                    assert(slots[i as int] is None);
                    res.append("free");
                },
            }
            assert(res@ =~= head + slots_text(slots.take(i + 1)));
        }
        assert(slots.take(slots.len() as int) == slots);
        res
    }
}

/// The bytes of a page that stand from `from` on.
pub(crate) fn page_array(bytes: &[u8], from: usize) -> (res: [u8; PAGE_SIZE])
    requires
        from + PAGE_SIZE <= bytes@.len(),
    ensures
        res@ == bytes@.subrange(from as int, from + PAGE_SIZE),
{
    let mut res: [u8; PAGE_SIZE] = [0u8; PAGE_SIZE];
    let len: usize = bytes.len();
    for i in 0..PAGE_SIZE
        invariant
            from + PAGE_SIZE <= len,
            len == bytes@.len(),
            forall|k: int| 0 <= k < i ==> res@[k] == bytes@[from + k],
    {
        res[i] = bytes[from + i];
    }
    assert(res@ =~= bytes@.subrange(from as int, from + PAGE_SIZE));
    res
}

/// What is left of the bytes of a page after the value in a slot is deleted. If there is none, they
/// stay as they are.
pub open spec fn bytes_without(bytes: Seq<u8>, slot: int) -> Seq<u8> {
    if parse_page(bytes).value(slot) is Some {
        parse_page(bytes).without(slot).bytes()
    } else {
        bytes
    }
}

/// A page of a heap file.
#[derive(Debug)]
pub struct Page {
    data: [u8; PAGE_SIZE],
}

impl View for Page {
    type V = PageView;

    open spec fn view(&self) -> PageView {
        parse_page(self.raw())
    }
}

impl Page {
    /// The bytes of the page.
    pub closed spec fn raw(&self) -> Seq<u8> {
        self.data@
    }

    /// A page has as many bytes as any other, and what they stand for fits into them.
    pub proof fn lemma_raw(&self)
        ensures
            self.raw().len() == PAGE_SIZE,
            self@.fits(),
    {
        lemma_parsed_page_fits(self.raw());
    }

    /// The page without any slot.
    pub fn new(page_id: PageId) -> (res: Self)
        ensures
            res.raw() == PageView::empty(page_id).bytes(),
            res@ == PageView::empty(page_id),
    {
        let slots = PageSlots::new(page_id);
        proof {
            lemma_read_back(slots@);
        }
        Page { data: slots.to_array() }
    }

    /// The id of the page.
    pub fn get_page_id(&self) -> (res: PageId)
        ensures
            res == self@.id,
    {
        read_number(self.data.as_slice(), 0)
    }

    /// Adds a value in the first free slot, or in a new one if none is free, and returns that
    /// slot. If there is no room for the value, the page stays as it is.
    pub fn add_value(&mut self, value: &[u8]) -> (res: Option<SlotId>)
        ensures
            match res {
                Some(slot) => {
                    &&& old(self)@.has_room(value@.len())
                    &&& slot == first_free(old(self)@.slots)
                    &&& final(self).raw() == old(self)@.with_value(value@).bytes()
                    &&& final(self)@ == old(self)@.with_value(value@)
                },
                None => !old(self)@.has_room(value@.len()) && final(self).raw()
                    == old(self).raw(),
            },
    {
        let mut slots = PageSlots::from_bytes(self.data.as_slice());
        match slots.add_value(value) {
            Some(slot) => {
                proof {
                    lemma_read_back(slots@);
                }
                self.data = slots.to_array();
                Some(slot)
            },
            None => None,
        }
    }

    /// The value in a slot, if there is one.
    pub fn get_value(&self, slot_id: SlotId) -> (res: Option<Vec<u8>>)
        ensures
            match res {
                Some(value) => self@.value(slot_id as int) == Some(value@),
                None => self@.value(slot_id as int) is None,
            },
    {
        PageSlots::from_bytes(self.data.as_slice()).get_value(slot_id)
    }

    /// Deletes the value in a slot, and says whether there was one. If there was none, the page
    /// stays as it is.
    pub fn delete_value(&mut self, slot_id: SlotId) -> (res: Option<()>)
        ensures
            final(self).raw() == bytes_without(old(self).raw(), slot_id as int),
            final(self)@ == old(self)@.without(slot_id as int),
            res is Some <==> old(self)@.value(slot_id as int) is Some,
    {
        proof {
            lemma_without(self@, slot_id as int);
        }
        let mut slots = PageSlots::from_bytes(self.data.as_slice());
        match slots.delete_value(slot_id) {
            Some(_) => {
                proof {
                    lemma_read_back(slots@);
                }
                self.data = slots.to_array();
                Some(())
            },
            None => None,
        }
    }

    /// The bytes of the page.
    pub fn to_bytes(&self) -> (res: &[u8; PAGE_SIZE])
        ensures
            res@ == self.raw(),
    {
        &self.data
    }

    /// The page with the given bytes; see `parse_page` for what they stand for.
    pub fn from_bytes(data: [u8; PAGE_SIZE]) -> (res: Self)
        ensures
            res.raw() == data@,
    {
        Page { data }
    }

    /// A text that shows the page to a reader: its id, and the lengths of the values in its slots.
    pub fn debug_text(&self) -> (res: String)
        ensures
            res@ == page_text(self@),
    {
        PageSlots::from_bytes(self.data.as_slice()).debug_text()
    }

    /// The values of the page, one after the other.
    pub fn into_iter(self) -> (res: HeapPageIntoIter)
        ensures
            res.wf(),
            res.remaining() == page_items(self@.slots, 0),
    {
        HeapPageIntoIter::new(self)
    }
}

/// The lengths of the values in some slots, or that they are free, each after a space.
pub open spec fn slots_text(slots: Slots) -> Seq<char>
    decreases slots.len(),
{
    if slots.len() == 0 {
        Seq::empty()
    } else {
        slots_text(slots.drop_last()) + " "@ + match slots.last() {
            Some(value) => decimal(value.len()),
            None => "free"@,
        }
    }
}

/// A text that shows a page to a reader.
pub open spec fn page_text(page: PageView) -> Seq<char> {
    "page "@ + decimal(page.id as nat) + ":"@ + slots_text(page.slots)
}

/// The values in the slots from `from` on, and where they lie.
pub open spec fn page_items(slots: Slots, from: int) -> Seq<(Seq<u8>, SlotId)>
    decreases slots.len() - from,
{
    if from < 0 || from >= slots.len() {
        Seq::empty()
    } else {
        match slots[from] {
            Some(value) => seq![(value, from as SlotId)] + page_items(slots, from + 1),
            None => page_items(slots, from + 1),
        }
    }
}

/// Goes through the values of a page, slot by slot.
#[derive(Debug)]
pub struct HeapPageIntoIter {
    page: PageSlots,
    /// The slot to look at next.
    slot: SlotId,
}

impl HeapPageIntoIter {
    /// The values that have not been handed out yet, and where they lie.
    pub closed spec fn remaining(&self) -> Seq<(Seq<u8>, SlotId)> {
        page_items(self.page@.slots, self.slot as int)
    }

    /// Whether the page fits into its bytes.
    pub closed spec fn wf(&self) -> bool {
        self.page@.fits()
    }

    /// Starts at the first slot of a page.
    pub fn new(page: Page) -> (res: Self)
        ensures
            res.wf(),
            res.remaining() == page_items(page@.slots, 0),
    {
        HeapPageIntoIter { page: PageSlots::from_bytes(page.data.as_slice()), slot: 0 }
    }

    /// Starts at the given slot of a page.
    pub fn new_at_slot(page: Page, slot_id: SlotId) -> (res: Self)
        ensures
            res.wf(),
            res.remaining() == page_items(page@.slots, slot_id as int),
    {
        HeapPageIntoIter { page: PageSlots::from_bytes(page.data.as_slice()), slot: slot_id }
    }

    /// Hands out the next value, and the slot that it lies in.
    pub fn next(&mut self) -> (res: Option<(Vec<u8>, SlotId)>)
        requires
            old(self).wf(),
        ensures
            final(self).wf(),
            match res {
                Some((value, slot)) => {
                    &&& old(self).remaining().len() > 0
                    &&& old(self).remaining()[0] == (value@, slot)
                    &&& final(self).remaining() == old(self).remaining().drop_first()
                },
                None => old(self).remaining().len() == 0 && final(self).remaining().len() == 0,
            },
    {
        let ghost items = self.remaining();
        proof {
            lemma_page_bytes(self.page@);
        }
        while (self.slot as usize) < self.page.slots.len()
            invariant
                self.wf(),
                self.page@.slots.len() < FREE_SLOT,
                self.remaining() == items,
                items == old(self).remaining(),
            decreases self.page@.slots.len() - self.slot,
        {
            let slot: SlotId = self.slot;
            match self.page.get_value(slot) {
                Some(value) => {
                    self.slot = slot + 1;
                    assert(items.drop_first() =~= self.remaining());
                    return Some((value, slot));
                },
                None => {
                    self.slot = slot + 1;
                },
            }
        }
        None
    }
}

/// The value in a slot is what the slot holds; a slot that is not there holds nothing.
pub proof fn lemma_value(page: PageView, slot: int)
    ensures
        0 <= slot < page.slots.len() ==> page.value(slot) == page.slots[slot],
        !(0 <= slot < page.slots.len()) ==> page.value(slot) is None,
{
}

/// How many bytes of a page are in use: four for the page, two for each slot, and those of the values.
pub proof fn lemma_used(id: PageId, slots: Slots, value: Seq<u8>)
    ensures
        PageView::empty(id).used() == 4,
        (PageView { id, slots: slots.push(Some(value)) }).used() == (PageView {
            id,
            slots,
        }).used() + 2 + value.len(),
        (PageView { id, slots: slots.push(None) }).used() == (PageView { id, slots }).used() + 2,
{
    assert(slots.push(Some(value)).drop_last() =~= slots);
    assert(slots.push(None).drop_last() =~= slots);
    assert(payload(PageView::empty(id).slots) =~= Seq::empty());
}

/// A value has room on a page if and only if the page with the value takes no more bytes than a page
/// has.
pub proof fn lemma_room(page: PageView, value: Seq<u8>)
    ensures
        page.has_room(value.len()) <==> page.with_value(value).used() <= 4096,
        page.has_room(value.len()) <==> page.with_value(value).fits(),
{
    lemma_with_value(page, value);
}

/// Deleting a value from the bytes of a page deletes it from the page that they stand for; if there is
/// none, not even the bytes change.
pub proof fn lemma_bytes_without(bytes: Seq<u8>, slot: int)
    requires
        bytes.len() == PAGE_SIZE,
    ensures
        bytes_without(bytes, slot).len() == PAGE_SIZE,
        parse_page(bytes_without(bytes, slot)).id == parse_page(bytes).id,
        parse_page(bytes_without(bytes, slot)).value(slot) is None,
        forall|i: int|
            i != slot ==> #[trigger] parse_page(bytes_without(bytes, slot)).value(i) == parse_page(
                bytes,
            ).value(i),
        parse_page(bytes).value(slot) is None ==> bytes_without(bytes, slot) == bytes,
{
    let page = parse_page(bytes);
    lemma_parsed_page_fits(bytes);
    lemma_without(page, slot);
    lemma_read_back(page.without(slot));
}

} // verus!
