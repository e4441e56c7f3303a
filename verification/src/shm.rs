//! The pool of buffers that frames are handed to the compositor in.
//!
//! The pool keeps at most two buffers: one that is being shown, one that is
//! being drawn. They are used again from frame to frame, so a redraw of the
//! same size never makes a new one. Buffers that are much larger than the
//! widget are given back.

use vstd::prelude::*;
use crate::pixmap::byte_count;
use crate::render::{column_of, repaired, row_of_byte};
use crate::seqs::{first_index, lemma_first_index};

verus! {

/// How many buffers are kept.
pub const MAX_BUFFERS: usize = 2;

/// A buffer of the pool.
pub struct Slot<B> {
    pub id: u64,
    /// The memory and its protocol object.
    pub buffer: B,
    /// Number of the protocol object.
    pub proxy_id: u32,
    pub w: u32,
    pub h: u32,
    /// How many bytes its memory has.
    pub bytes: usize,
    /// The compositor has the buffer.
    pub in_use: bool,
}

/// A new buffer, with the number of its protocol object and that of the bytes of
/// its memory.
pub struct Made<B> {
    pub buffer: B,
    pub proxy_id: u32,
    pub bytes: usize,
}

/// How many bytes the memory of a buffer of this size has: four to a pixel.
/// Nothing, where memory cannot be that large.
pub fn memory_len(w: u32, h: u32) -> (r: Option<usize>)
    ensures
        match r {
            Some(n) => n == byte_count(w, h),
            None => byte_count(w, h) > usize::MAX,
        },
{
    let n: u128 = area(w, h) * 4;
    if n > usize::MAX as u128 {
        None
    } else {
        Some(n as usize)
    }
}

/// Whether every buffer that is made has memory for just the pixels of its size.
pub open spec fn makes_whole_buffers<
    B,
    F: FnOnce(Option<&B>, u32, u32, u64) -> Option<Made<B>>,
>(create: F) -> bool {
    forall|b: Option<&B>, w: u32, h: u32, id: u64, made: Option<Made<B>>| #[trigger]
        create.ensures((b, w, h, id), made) ==> (made matches Some(m) ==> m.bytes == byte_count(
            w,
            h,
        ))
}

/// The buffers of the widget.
pub struct BufferPool<B> {
    buffers: Vec<Slot<B>>,
    next_id: u64,
}

/// Free buffers of this size.
pub open spec fn fits<B>(w: u32, h: u32) -> spec_fn(Slot<B>) -> bool {
    |s: Slot<B>| !s.in_use && s.w == w && s.h == h
}

/// Free buffers.
pub open spec fn is_free<B>() -> spec_fn(Slot<B>) -> bool {
    |s: Slot<B>| !s.in_use
}

/// The buffer of a protocol object.
pub open spec fn has_proxy<B>(proxy_id: u32) -> spec_fn(Slot<B>) -> bool {
    |s: Slot<B>| s.proxy_id == proxy_id
}

/// A slot, taken.
pub open spec fn taken<B>(s: Slot<B>) -> Slot<B> {
    Slot { in_use: true, ..s }
}

/// A slot with a new buffer, taken.
pub open spec fn filled<B>(made: Made<B>, w: u32, h: u32, id: u64) -> Slot<B> {
    Slot {
        id,
        buffer: made.buffer,
        proxy_id: made.proxy_id,
        w,
        h,
        bytes: made.bytes,
        in_use: true,
    }
}

/// The slots after a buffer was to be made for place `i`, and the place, where
/// it was made.
pub open spec fn settled<B>(
    slots: Seq<Slot<B>>,
    i: int,
    made: Option<Made<B>>,
    w: u32,
    h: u32,
    id: u64,
) -> (Seq<Slot<B>>, Option<usize>) {
    match made {
        Some(m) => (
            if i < slots.len() {
                slots.update(i, filled(m, w, h, id))
            } else {
                slots.push(filled(m, w, h, id))
            },
            Some(i as usize),
        ),
        None => (slots, None),
    }
}

/// Whether buffer `i` has this size and was not in use before, and is now.
pub open spec fn is_taken<B>(
    before: Seq<Slot<B>>,
    slots: Seq<Slot<B>>,
    i: int,
    w: u32,
    h: u32,
) -> bool {
    &&& i < slots.len()
    &&& slots[i].w == w && slots[i].h == h && slots[i].in_use
    &&& i < before.len() ==> !before[i].in_use
}

/// What taking a buffer of this size does to the pool, and which one it is. A
/// free buffer of the size is used again. Otherwise `create` makes one: in place
/// of a free buffer of another size, or as an additional one, where there is
/// room.
pub open spec fn acquired<B, F: FnOnce(Option<&B>, u32, u32, u64) -> Option<Made<B>>>(
    before: BufferPool<B>,
    after: BufferPool<B>,
    w: u32,
    h: u32,
    create: F,
    r: Option<usize>,
) -> bool {
    let slots = before.slots();
    match (first_index(slots, fits(w, h)), first_index(slots, is_free())) {
        (Some(i), _) => {
            &&& r == Some(i as usize)
            &&& after.slots() == slots.update(i, taken(slots[i]))
            &&& after.next() == before.next()
        },
        (None, Some(i)) => {
            &&& after.next() == before.next()
            &&& exists|made: Option<Made<B>>|
                {
                    &&& #[trigger] create.ensures(
                        (Some(&before.slots()[i].buffer), w, h, before.slots()[i].id),
                        made,
                    )
                    &&& (after.slots(), r) == settled(slots, i, made, w, h, slots[i].id)
                }
        },
        (None, None) => if slots.len() < MAX_BUFFERS {
            let n = slots.len() as int;
            &&& after.next() == before.next().wrapping_add(1)
            &&& exists|made: Option<Made<B>>|
                {
                    &&& #[trigger] create.ensures((None, w, h, before.next()), made)
                    &&& (after.slots(), r) == settled(slots, n, made, w, h, before.next())
                }
        } else {
            r is None && after == before
        },
    }
}

/// Buffers to keep for a widget of this size: those in use, and those that are
/// at most twice as large as needed.
pub open spec fn worth_keeping<B>(needed: (u32, u32)) -> spec_fn(Slot<B>) -> bool {
    |s: Slot<B>| s.in_use || s.w * s.h <= needed.0 * needed.1 * 2
}

/// Buffers to give back.
pub open spec fn oversized<B>(needed: (u32, u32)) -> spec_fn(Slot<B>) -> bool {
    |s: Slot<B>| !(s.in_use || s.w * s.h <= needed.0 * needed.1 * 2)
}

/// The slots after a protocol object was released.
pub open spec fn released<B>(slots: Seq<Slot<B>>, proxy_id: u32) -> Seq<Slot<B>> {
    match first_index(slots, has_proxy(proxy_id)) {
        Some(i) => slots.update(i, Slot { in_use: false, ..slots[i] }),
        None => slots,
    }
}

/// The slots after those that are too large were given back. Where nothing is
/// needed yet, all stay.
pub open spec fn reclaimed<B>(slots: Seq<Slot<B>>, needed: (u32, u32)) -> Seq<Slot<B>> {
    if needed.0 * needed.1 == 0 {
        slots
    } else {
        slots.filter(worth_keeping(needed))
    }
}

/// The slots that were given back.
pub open spec fn given_back<B>(slots: Seq<Slot<B>>, needed: (u32, u32)) -> Seq<Slot<B>> {
    if needed.0 * needed.1 == 0 {
        Seq::empty()
    } else {
        slots.filter(oversized(needed))
    }
}

/// `dst` after `n` rows of a rectangle were copied into it from `src`. `x` and
/// `len` count bytes, as do the lengths of the rows.
pub open spec fn with_rows(
    dst: Seq<u8>,
    dst_stride: int,
    src: Seq<u8>,
    src_stride: int,
    x: int,
    y: int,
    len: int,
    n: int,
) -> Seq<u8>
    decreases n,
{
    if n <= 0 {
        dst
    } else {
        let before = with_rows(dst, dst_stride, src, src_stride, x, y, len, n - 1);
        let to = (y + n - 1) * dst_stride + x;
        let from = (y + n - 1) * src_stride + x;
        overlaid(before, to, src.subrange(from, from + len))
    }
}

/// `s` with `part` written at `at`.
pub open spec fn overlaid(s: Seq<u8>, at: int, part: Seq<u8>) -> Seq<u8> {
    Seq::new(
        s.len(),
        |i: int|
            if at <= i < at + part.len() {
                part[i - at]
            } else {
                s[i]
            },
    )
}

/// Writes `len` bytes of `src` from `from` on into `dst` at `to`.
fn write_bytes(dst: &mut [u8], to: usize, src: &[u8], from: usize, len: usize)
    requires
        to + len <= old(dst)@.len(),
        from + len <= src@.len(),
    ensures
        final(dst)@ == overlaid(old(dst)@, to as int, src@.subrange(from as int, from + len)),
{
    let room: usize = dst.len();
    let have: usize = src.len();
    let mut i: usize = 0;
    while i < len
        invariant
            i <= len,
            dst@.len() == old(dst)@.len(),
            dst@.len() == room,
            src@.len() == have,
            to + len <= room,
            from + len <= have,
            dst@ == overlaid(old(dst)@, to as int, src@.subrange(from as int, from + i)),
        decreases len - i,
    {
        dst[to + i] = src[from + i];
        i = i + 1;
        assert(dst@ =~= overlaid(old(dst)@, to as int, src@.subrange(from as int, from + i)));
    }
}

impl<B> BufferPool<B> {
    /// The buffers, in their order.
    pub closed spec fn slots(self) -> Seq<Slot<B>> {
        self.buffers@
    }

    /// The id of the next buffer that is added.
    pub closed spec fn next(self) -> u64 {
        self.next_id
    }

    /// There are never more buffers than are needed to draw one while the other
    /// is shown, and each has memory for just the pixels of its size.
    pub open spec fn wf(self) -> bool {
        &&& self.slots().len() <= MAX_BUFFERS
        &&& forall|i: int|
            0 <= i < self.slots().len() ==> (#[trigger] self.slots()[i]).bytes == byte_count(
                self.slots()[i].w,
                self.slots()[i].h,
            )
    }

    pub fn new() -> (r: Self)
        ensures
            r.wf(),
            r.slots() == Seq::<Slot<B>>::empty(),
            r.next() == 1,
    {
        BufferPool { buffers: Vec::new(), next_id: 1 }
    }

    /// The number of buffers.
    pub fn len(&self) -> (r: usize)
        ensures
            r == self.slots().len(),
    {
        self.buffers.len()
    }

    fn find_free(&self, size: Option<(u32, u32)>) -> (r: Option<usize>)
        ensures
            match (r, first_index(
                self.slots(),
                match size {
                    Some((w, h)) => fits(w, h),
                    None => is_free(),
                },
            )) {
                (Some(i), Some(j)) => i == j,
                (None, None) => true,
                _ => false,
            },
    {
        let ghost pred = match size {
            Some((w, h)) => fits::<B>(w, h),
            None => is_free(),
        };
        let mut i: usize = 0;
        proof {
            lemma_first_index(self.buffers@, pred);
        }
        while i < self.buffers.len()
            invariant
                i <= self.buffers@.len(),
                pred == match size {
                    Some((w, h)) => fits::<B>(w, h),
                    None => is_free(),
                },
                forall|j: int| 0 <= j < i ==> !pred(#[trigger] self.buffers@[j]),
                match first_index(self.buffers@, pred) {
                    Some(k) => 0 <= k < self.buffers@.len() && pred(self.buffers@[k])
                        && forall|j: int| 0 <= j < k ==> !pred(#[trigger] self.buffers@[j]),
                    None => forall|j: int|
                        0 <= j < self.buffers@.len() ==> !pred(#[trigger] self.buffers@[j]),
                },
            decreases self.buffers@.len() - i,
        {
            let s: &Slot<B> = &self.buffers[i];
            let wanted: bool = match size {
                Some((w, h)) => s.w == w && s.h == h,
                None => true,
            };
            if !s.in_use && wanted {
                assert(pred(self.buffers@[i as int]));
                return Some(i);
            }
            i = i + 1;
        }
        None
    }

    fn set_in_use(&mut self, i: usize, in_use: bool)
        requires
            i < old(self).slots().len(),
        ensures
            final(self).slots() == old(self).slots().update(
                i as int,
                (Slot { in_use, ..old(self).slots()[i as int] }),
            ),
            final(self).next() == old(self).next(),
    {
        self.buffers[i].in_use = in_use;
    }

    /// Takes a buffer of this size; the result is its place in the pool.
    ///
    /// A free buffer of the size is used again. Otherwise `create` makes one:
    /// in place of a free buffer of another size, which it is handed, or as an
    /// additional one, where there is room. It is handed the id of the buffer
    /// too. There is none where the compositor has all buffers, or where none
    /// could be made.
    pub fn acquire<F: FnOnce(Option<&B>, u32, u32, u64) -> Option<Made<B>>>(
        &mut self,
        w: u32,
        h: u32,
        create: F,
    ) -> (r: Option<usize>)
        requires
            old(self).wf(),
            forall|old_buffer: Option<&B>, id: u64| #[trigger]
                create.requires((old_buffer, w, h, id)),
            makes_whole_buffers(create),
        ensures
            final(self).wf(),
            acquired(*old(self), *final(self), w, h, create, r),
            r matches Some(i) ==> is_taken(old(self).slots(), final(self).slots(), i as int, w, h),
            forall|j: int|
                0 <= j < old(self).slots().len() && (#[trigger] old(self).slots()[j]).in_use
                    ==> final(self).slots()[j] == old(self).slots()[j],
    {
        proof {
            lemma_first_index(self.slots(), fits(w, h));
            lemma_first_index(self.slots(), is_free());
        }
        if let Some(i) = self.find_free(Some((w, h))) {
            self.set_in_use(i, true);
            return Some(i);
        }
        if let Some(i) = self.find_free(None) {
            let id: u64 = self.buffers[i].id;
            match create(Some(&self.buffers[i].buffer), w, h, id) {
                Some(made) => {
                    self.buffers[i] = Slot {
                        id,
                        buffer: made.buffer,
                        proxy_id: made.proxy_id,
                        w,
                        h,
                        bytes: made.bytes,
                        in_use: true,
                    };
                    Some(i)
                },
                None => None,
            }
        } else if self.buffers.len() < MAX_BUFFERS {
            let id: u64 = self.next_id;
            self.next_id = id.wrapping_add(1);
            match create(None, w, h, id) {
                Some(made) => {
                    self.buffers.push(
                        Slot {
                            id,
                            buffer: made.buffer,
                            proxy_id: made.proxy_id,
                            w,
                            h,
                            bytes: made.bytes,
                            in_use: true,
                        },
                    );
                    Some(self.buffers.len() - 1)
                },
                None => None,
            }
        } else {
            None
        }
    }

    /// Copies a frame into the memory of a buffer.
    pub fn copy_pixels(&self, i: usize, memory: &mut [u8], pixels: &[u8])
        requires
            i < self.slots().len(),
            old(memory)@.len() == self.slots()[i as int].bytes,
            pixels@.len() <= old(memory)@.len(),
        ensures
            final(memory)@ == overlaid(old(memory)@, 0, pixels@),
    {
        let n: usize = pixels.len();
        write_bytes(memory, 0, pixels, 0, n);
        assert(pixels@.subrange(0, n as int) =~= pixels@);
    }

    /// Copies a rectangle of a frame into the memory of a buffer: `rw` by `rh`
    /// pixels at `x`, `y`. The rows of the frame are `buf_w` pixels wide. All
    /// else in the memory stays. Where there is no such buffer, nothing is
    /// copied.
    pub fn copy_region(
        &self,
        i: usize,
        memory: &mut [u8],
        pixels: &[u8],
        buf_w: u32,
        x: u32,
        y: u32,
        rw: u32,
        rh: u32,
    )
        requires
            i < self.slots().len() && rh > 0 ==> {
                let w = self.slots()[i as int].w;
                &&& (y + rh - 1) * (w * 4) + x * 4 + rw * 4 <= old(memory)@.len()
                &&& (y + rh - 1) * (buf_w * 4) + x * 4 + rw * 4 <= pixels@.len()
                &&& w * 4 <= usize::MAX
                &&& buf_w * 4 <= usize::MAX
            },
        ensures
            final(memory)@ == if i < self.slots().len() {
                with_rows(
                    old(memory)@,
                    self.slots()[i as int].w * 4,
                    pixels@,
                    buf_w * 4,
                    x * 4,
                    y as int,
                    rw * 4,
                    rh as int,
                )
            } else {
                old(memory)@
            },
    {
        if i >= self.buffers.len() {
            return;
        }
        if rh == 0 {
            return;
        }
        let w: u32 = self.buffers[i].w;
        assert((y + rh - 1) * (w * 4) >= 0 && (y + rh - 1) * (buf_w * 4) >= 0) by (nonlinear_arith)
            requires
                rh > 0,
        ;
        let room: usize = memory.len();
        let have: usize = pixels.len();
        assert(x * 4 + rw * 4 <= room);
        let dst_stride: usize = w as usize * 4;
        let src_stride: usize = buf_w as usize * 4;
        let left: usize = x as usize * 4;
        let len: usize = rw as usize * 4;
        let mut row: u32 = 0;
        while row < rh
            invariant
                row <= rh,
                dst_stride == w * 4,
                src_stride == buf_w * 4,
                left == x * 4,
                len == rw * 4,
                memory@.len() == room,
                pixels@.len() == have,
                (y + rh - 1) * dst_stride + left + len <= room,
                (y + rh - 1) * src_stride + left + len <= have,
                memory@ == with_rows(
                    old(memory)@,
                    dst_stride as int,
                    pixels@,
                    src_stride as int,
                    left as int,
                    y as int,
                    len as int,
                    row as int,
                ),
            decreases rh - row,
        {
            assert((y + row) * dst_stride <= (y + rh - 1) * dst_stride) by (nonlinear_arith)
                requires
                    row < rh,
            ;
            assert((y + row) * src_stride <= (y + rh - 1) * src_stride) by (nonlinear_arith)
                requires
                    row < rh,
            ;
            let at: u64 = y as u64 + row as u64;
            let to: usize = (at * dst_stride as u64) as usize + left;
            let from: usize = (at * src_stride as u64) as usize + left;
            write_bytes(memory, to, pixels, from, len);
            row = row + 1;
        }
    }

    /// The buffer at a place of the pool.
    pub fn buffer(&self, i: usize) -> (r: &B)
        requires
            i < self.slots().len(),
        ensures
            *r == self.slots()[i as int].buffer,
    {
        &self.buffers[i].buffer
    }

    /// Marks the buffer of a protocol object as free, and gives back what is
    /// much larger than the widget.
    pub fn release(&mut self, proxy_id: u32, needed: (u32, u32)) -> (r: Vec<Slot<B>>)
        requires
            old(self).wf(),
        ensures
            final(self).wf(),
            final(self).slots() == reclaimed(released(old(self).slots(), proxy_id), needed),
            r@ == given_back(released(old(self).slots(), proxy_id), needed),
            final(self).next() == old(self).next(),
    {
        let ghost pred = has_proxy::<B>(proxy_id);
        proof {
            lemma_first_index(self.slots(), pred);
        }
        let mut i: usize = 0;
        while i < self.buffers.len() && self.buffers[i].proxy_id != proxy_id
            invariant
                *self == *old(self),
                i <= self.buffers@.len(),
                forall|j: int| 0 <= j < i ==> (#[trigger] self.buffers@[j]).proxy_id != proxy_id,
            ensures
                *self == *old(self),
                i <= self.buffers@.len(),
                forall|j: int| 0 <= j < i ==> (#[trigger] self.buffers@[j]).proxy_id != proxy_id,
                i < self.buffers@.len() ==> self.buffers@[i as int].proxy_id == proxy_id,
            decreases self.buffers@.len() - i,
        {
            i = i + 1;
        }
        if i < self.buffers.len() {
            assert(pred(self.slots()[i as int]));
            assert(first_index(self.slots(), pred) == Some(i as int));
            self.set_in_use(i, false);
        } else {
            assert(first_index(self.slots(), pred) is None);
        }
        self.reclaim_oversized(needed)
    }

    /// Takes free buffers that are much larger than the widget out of the pool.
    pub fn reclaim_oversized(&mut self, needed: (u32, u32)) -> (r: Vec<Slot<B>>)
        requires
            old(self).wf(),
        ensures
            final(self).wf(),
            final(self).slots() == reclaimed(old(self).slots(), needed),
            r@ == given_back(old(self).slots(), needed),
            final(self).next() == old(self).next(),
    {
        let mut gone: Vec<Slot<B>> = Vec::new();
        if needed.0 == 0 || needed.1 == 0 {
            return gone;
        }
        assert(needed.0 * needed.1 != 0) by (nonlinear_arith)
            requires
                needed.0 > 0,
                needed.1 > 0,
        ;
        let limit: u128 = area(needed.0, needed.1) * 2;
        let ghost all = self.buffers@;
        let ghost keep = worth_keeping::<B>(needed);
        let ghost drop = oversized::<B>(needed);
        let ghost mut done: int = 0;
        let mut i: usize = 0;
        proof {
            reveal(Seq::filter);
        }
        assert(all.take(0).filter(keep) + all.skip(0) =~= all);
        assert(all.take(0).filter(drop) =~= Seq::empty());
        while i < self.buffers.len()
            invariant
                self.next_id == old(self).next_id,
                all == old(self).buffers@,
                limit == needed.0 * needed.1 * 2,
                keep == worth_keeping::<B>(needed),
                drop == oversized::<B>(needed),
                0 <= done <= all.len(),
                i == all.take(done).filter(keep).len(),
                self.buffers@ == all.take(done).filter(keep) + all.skip(done),
                gone@ == all.take(done).filter(drop),
            decreases all.len() - done,
        {
            let s: &Slot<B> = &self.buffers[i];
            assert(*s == all[done]);
            let stays: bool = s.in_use || area(s.w, s.h) <= limit;
            proof {
                reveal(Seq::filter);
                assert(all.take(done + 1).drop_last() =~= all.take(done));
                assert(all.take(done + 1).last() == all[done]);
            }
            if stays {
                assert(all.take(done).filter(keep) + all.skip(done) =~= all.take(done).filter(
                    keep,
                ).push(all[done]) + all.skip(done + 1));
                i = i + 1;
            } else {
                let b = self.buffers.remove(i);
                gone.push(b);
                assert(self.buffers@ =~= all.take(done).filter(keep) + all.skip(done + 1));
            }
            proof {
                done = done + 1;
            }
        }
        assert(done == all.len());
        assert(all.take(done) =~= all);
        assert(self.buffers@ =~= all.filter(keep));
        proof {
            all.lemma_filter_len(keep);
            assert forall|k: int| 0 <= k < self.slots().len() implies (
            #[trigger] self.slots()[k]).bytes == byte_count(
                self.slots()[k].w,
                self.slots()[k].h,
            ) by {
                let kept = self.slots()[k];
                assert(all.filter(keep).contains(kept));
                all.lemma_filter_contains_rev(keep, kept);
                let m = choose|m: int| 0 <= m < all.len() && all[m] == kept;
                assert(old(self).slots()[m] == kept);
            }
        }
        gone
    }
}

/// The area of a rectangle.
fn area(w: u32, h: u32) -> (r: u128)
    ensures
        r == w * h,
        r <= 0xffff_ffff_ffff_ffff,
{
    assert(w * h <= 0xffff_ffff * 0xffff_ffff) by (nonlinear_arith)
        requires
            w <= 0xffff_ffff,
            h <= 0xffff_ffff,
    ;
    (w as u128) * (h as u128)
}

/// A byte lies in a row of the rectangle exactly where its pixel does.
proof fn lemma_row_bytes(i: int, w: u32, r: int, x: int, n: int)
    requires
        0 <= i,
        0 < w,
        0 <= r,
        0 <= x,
        0 <= n,
        x + n <= w,
    ensures
        (r * (w * 4) + x * 4 <= i < r * (w * 4) + x * 4 + n * 4) == (row_of_byte(i, w) == r && x
            <= column_of(i, w) < x + n),
{
    let p = i / 4;
    let d = w as int;
    vstd::arithmetic::div_mod::lemma_fundamental_div_mod(p, d);
    vstd::arithmetic::div_mod::lemma_mod_bound(p, d);
    assert(r * (w * 4) == r * d * 4) by (nonlinear_arith)
        requires
            d == w,
    ;
    assert((r * (w * 4) + x * 4 <= i < r * (w * 4) + x * 4 + n * 4) == (r * d + x <= p < r * d + x
        + n));
    if r * d + x <= p < r * d + x + n {
        let q = p - r * d;
        assert(p == r * d + q);
        vstd::arithmetic::div_mod::lemma_fundamental_div_mod_converse(p, d, r, q);
    } else if p / d == r {
        assert(d * (p / d) == r * d) by (nonlinear_arith)
            requires
                p / d == r,
        ;
    }
}

proof fn lemma_rows_copied(
    dst: Seq<u8>,
    src: Seq<u8>,
    w: u32,
    area: (u32, u32, u32, u32),
    n: u32,
)
    requires
        dst.len() == src.len(),
        area.0 + area.2 <= w,
        n <= area.3,
        w > 0,
        area.3 > 0 ==> (area.1 + area.3 - 1) * (w * 4) + area.0 * 4 + area.2 * 4 <= src.len(),
    ensures
        with_rows(
            dst,
            w * 4,
            src,
            w * 4,
            area.0 * 4,
            area.1 as int,
            area.2 * 4,
            n as int,
        ) == repaired(dst, src, w, (area.0, area.1, area.2, n)),
    decreases n,
{
    let (x, y, rw, rh) = area;
    let part = (x, y, rw, n);
    if n == 0 {
        assert(repaired(dst, src, w, part) =~= dst);
    } else {
        let m = (n - 1) as u32;
        lemma_rows_copied(dst, src, w, area, m);
        let before = repaired(dst, src, w, (x, y, rw, m));
        let r = y + n - 1;
        assert(0 <= r * (w * 4) <= (y + rh - 1) * (w * 4)) by (nonlinear_arith)
            requires
                r == y + n - 1,
                0 < n <= rh,
        ;
        let to = r * (w * 4) + x * 4;
        let row = src.subrange(to, to + rw * 4);
        assert forall|i: int| 0 <= i < src.len() implies overlaid(before, to, row)[i] == repaired(
            dst,
            src,
            w,
            part,
        )[i] by {
            lemma_row_bytes(i, w, r, x as int, rw as int);
        }
        assert(overlaid(before, to, row) =~= repaired(dst, src, w, part));
    }
}

/// Copying a rectangle of a frame into memory that holds a frame of the same
/// size shows that rectangle anew, and nothing else.
pub proof fn region_shows_anew(
    memory: Seq<u8>,
    frame: Seq<u8>,
    w: u32,
    h: u32,
    area: (u32, u32, u32, u32),
)
    requires
        memory.len() == byte_count(w, h),
        frame.len() == byte_count(w, h),
        w > 0,
        area.0 + area.2 <= w,
        area.1 + area.3 <= h,
    ensures
        with_rows(
            memory,
            w * 4,
            frame,
            w * 4,
            area.0 * 4,
            area.1 as int,
            area.2 * 4,
            area.3 as int,
        ) == repaired(memory, frame, w, area),
{
    if area.3 > 0 {
        assert((area.1 + area.3 - 1) * (w * 4) + area.0 * 4 + area.2 * 4 <= w * h * 4)
            by (nonlinear_arith)
            requires
                area.0 + area.2 <= w,
                area.1 + area.3 <= h,
                area.3 > 0,
        ;
    }
    lemma_rows_copied(memory, frame, w, area, area.3);
}

/// What the compositor has is never given back.
pub proof fn buffers_in_use_stay<B>(slots: Seq<Slot<B>>, needed: (u32, u32), i: int)
    requires
        0 <= i < given_back(slots, needed).len(),
    ensures
        !given_back(slots, needed)[i].in_use,
{
    slots.lemma_filter_pred(oversized(needed), i);
}

/// A buffer that comes back is used again for a frame of its size: after the
/// release, `acquire` finds a free buffer and makes none.
pub proof fn released_buffers_are_reused<B>(slots: Seq<Slot<B>>, proxy_id: u32, i: int)
    requires
        first_index(slots, has_proxy(proxy_id)) == Some(i),
        slots[i].w > 0,
        slots[i].h > 0,
    ensures
        ({
            let (w, h) = (slots[i].w, slots[i].h);
            first_index(reclaimed(released(slots, proxy_id), (w, h)), fits(w, h)) is Some
        }),
{
    let (w, h) = (slots[i].w, slots[i].h);
    lemma_first_index(slots, has_proxy(proxy_id));
    let free = released(slots, proxy_id);
    let s = free[i];
    assert(w * h != 0 && w * h <= w * h * 2) by (nonlinear_arith)
        requires
            w > 0,
            h > 0,
    ;
    assert(worth_keeping::<B>((w, h))(s));
    free.lemma_filter_contains(worth_keeping((w, h)), i);
    let kept = reclaimed(free, (w, h));
    assert(kept.contains(s));
    let j = choose|j: int| 0 <= j < kept.len() && kept[j] == s;
    lemma_first_index(kept, fits(w, h));
    assert(fits::<B>(w, h)(kept[j]));
}

/// A buffer is refused only where the compositor has as many as are kept, or
/// where none could be made.
pub proof fn refused_only_when_busy<B, F: FnOnce(Option<&B>, u32, u32, u64) -> Option<Made<B>>>(
    before: BufferPool<B>,
    after: BufferPool<B>,
    w: u32,
    h: u32,
    create: F,
)
    requires
        before.wf(),
        acquired(before, after, w, h, create, None),
        forall|old_buffer: Option<&B>, id: u64, made: Option<Made<B>>| #[trigger]
            create.ensures((old_buffer, w, h, id), made) ==> made is Some,
    ensures
        before.slots().len() == MAX_BUFFERS,
        forall|i: int| 0 <= i < before.slots().len() ==> (#[trigger] before.slots()[i]).in_use,
{
    lemma_first_index(before.slots(), fits(w, h));
    lemma_first_index(before.slots(), is_free());
    assert forall|i: int| 0 <= i < before.slots().len() implies (
    #[trigger] before.slots()[i]).in_use by {
        assert(!is_free::<B>()(before.slots()[i]));
    }
}

/// A widget that shrank gives its memory back: every buffer that stays is in use,
/// or at most twice as large as needed.
pub proof fn memory_is_given_back<B>(slots: Seq<Slot<B>>, needed: (u32, u32), i: int)
    requires
        needed.0 > 0,
        needed.1 > 0,
        0 <= i < reclaimed(slots, needed).len(),
    ensures
        ({
            let s = reclaimed(slots, needed)[i];
            s.in_use || s.w * s.h <= needed.0 * needed.1 * 2
        }),
{
    assert(needed.0 * needed.1 != 0) by (nonlinear_arith)
        requires
            needed.0 > 0,
            needed.1 > 0,
    ;
    slots.lemma_filter_pred(worth_keeping(needed), i);
}

} // verus!
