//! Whole-page access to the image of the backing file, and the scan that
//! recovers how many rows it holds.
use vstd::prelude::*;
use vstd::arithmetic::div_mod::{lemma_div_is_ordered, lemma_fundamental_div_mod};
use crate::row::{
    lemma_sizes,
    copy_range, decode_row, zeros, Definition, Error, ErrorKind, Row, PAGE_SIZE, ROWS_PER_PAGE,
    ROW_SIZE,
};

verus! {

/// Page `n` lies entirely within the file.
pub open spec fn page_present(image: Seq<u8>, n: nat) -> bool {
    (n + 1) * (PAGE_SIZE as nat) <= image.len()
}

/// The bytes of page `n`.
pub open spec fn page_of(image: Seq<u8>, n: nat) -> Seq<u8> {
    image.subrange((n * (PAGE_SIZE as nat)) as int, ((n + 1) * (PAGE_SIZE as nat)) as int)
}

/// The file after writing `bytes` at offset `off`: a gap before `off` is filled
/// with zero bytes, and the file grows where the write runs past its end.
pub open spec fn write_at(image: Seq<u8>, off: nat, bytes: Seq<u8>) -> Seq<u8> {
    let base = if image.len() < off {
        image + zeros((off - image.len()) as nat)
    } else {
        image
    };
    let end = off + bytes.len();
    base.subrange(0, off as int) + bytes + (if end < base.len() {
        base.subrange(end as int, base.len() as int)
    } else {
        Seq::empty()
    })
}

/// The page that holds row slot `i`.
pub open spec fn slot_page(i: nat) -> nat {
    i / (ROWS_PER_PAGE as nat)
}

/// Where row slot `i` starts within its page.
pub open spec fn slot_offset(i: nat) -> nat {
    (i % (ROWS_PER_PAGE as nat)) * (ROW_SIZE as nat)
}

/// Where row slot `i` starts in the file.
pub open spec fn slot_start(i: nat) -> nat {
    slot_page(i) * (PAGE_SIZE as nat) + slot_offset(i)
}

/// The page of row slot `i` lies within the file.
pub open spec fn slot_present(image: Seq<u8>, i: nat) -> bool {
    page_present(image, slot_page(i))
}

/// The bytes of row slot `i`.
pub open spec fn slot_bytes(image: Seq<u8>, i: nat) -> Seq<u8> {
    image.subrange(slot_start(i) as int, slot_start(i) + ROW_SIZE)
}

/// Row slot `i` lies within the file and has been written: its first byte is not zero.
pub open spec fn slot_filled(image: Seq<u8>, i: nat) -> bool {
    slot_present(image, i) && image[slot_start(i) as int] != 0
}

/// `n` is the number of rows the file holds: slots `0..n` are filled and slot `n` is not.
pub open spec fn is_row_count(image: Seq<u8>, n: nat) -> bool {
    &&& forall|i: nat| i < n ==> #[trigger] slot_filled(image, i)
    &&& !slot_filled(image, n)
}

/// A row slot ends within its page, and no slot starts before a slot of a
/// smaller index ends.
pub proof fn lemma_slot_layout(i: nat)
    ensures
        slot_offset(i) + ROW_SIZE <= PAGE_SIZE,
        slot_start(i) + ROW_SIZE <= (slot_page(i) + 1) * (PAGE_SIZE as nat),
        i < (slot_page(i) + 1) * (ROWS_PER_PAGE as nat),
        slot_start(i) >= i,
{
    assert(ROW_SIZE == 297);
    assert(ROWS_PER_PAGE == 13);
    let k = i % 13;
    assert(k < 13);
    assert(k * 297 + 297 <= 4096) by (nonlinear_arith)
        requires
            k < 13,
    ;
}

/// Slots are laid out in index order, without overlap.
pub proof fn lemma_slot_order(i: nat, n: nat)
    requires
        i < n,
    ensures
        slot_start(i) + ROW_SIZE <= slot_start(n),
        slot_page(i) <= slot_page(n),
{
    lemma_sizes();
    lemma_fundamental_div_mod(i as int, 13);
    lemma_fundamental_div_mod(n as int, 13);
    lemma_div_is_ordered(i as int, n as int, 13);
    lemma_slot_layout(i);
}

proof fn lemma_page_count(p: nat, len: nat)
    ensures
        p < len / (PAGE_SIZE as nat) <==> (p + 1) * (PAGE_SIZE as nat) <= len,
{
}

/// An in-memory image of the backing file, read and written a page at a time.
pub struct Pager {
    data: Vec<u8>,
}

impl View for Pager {
    type V = Seq<u8>;

    closed spec fn view(&self) -> Seq<u8> {
        self.data@
    }
}

impl Pager {
    /// A pager over the given file contents.
    pub fn open(image: Vec<u8>) -> (p: Pager)
        ensures
            p@ == image@,
    {
        Pager { data: image }
    }

    /// The whole file image.
    pub fn image(&self) -> (r: &Vec<u8>)
        ensures
            r@ == self@,
    {
        &self.data
    }

    /// Page `page_num`, or `ShortRead` where it does not lie entirely within the file.
    pub fn get_page(&self, page_num: usize) -> (r: Result<Vec<u8>, Error>)
        ensures
            match r {
                Ok(page) => page_present(self@, page_num as nat) && page@ == page_of(
                    self@,
                    page_num as nat,
                ),
                Err(e) => !page_present(self@, page_num as nat) && e.kind == ErrorKind::ShortRead,
            },
    {
        proof {
            lemma_page_count(page_num as nat, self@.len());
        }
        if page_num >= self.data.len() / PAGE_SIZE {
            return Err(Error { kind: ErrorKind::ShortRead });
        }
        let start = page_num * PAGE_SIZE;
        Ok(copy_range(&self.data, start, start + PAGE_SIZE))
    }

    /// Writes a whole page at `page_num`, growing the file as needed; fails with
    /// `OutOfSpace`, and writes nothing, where the page would end beyond `usize::MAX`.
    pub fn flush_page(&mut self, page_num: usize, data: Vec<u8>) -> (r: Result<(), Error>)
        requires
            data@.len() == PAGE_SIZE,
        ensures
            match r {
                Ok(()) => {
                    &&& (page_num + 1) * PAGE_SIZE <= usize::MAX
                    &&& final(self)@ == write_at(old(self)@, (page_num * PAGE_SIZE) as nat, data@)
                },
                Err(e) => {
                    &&& (page_num + 1) * PAGE_SIZE > usize::MAX
                    &&& e.kind == ErrorKind::OutOfSpace
                    &&& final(self)@ == old(self)@
                },
            },
    {
        proof {
            lemma_page_count(page_num as nat, usize::MAX as nat);
        }
        if page_num >= usize::MAX / PAGE_SIZE {
            return Err(Error { kind: ErrorKind::OutOfSpace });
        }
        let off = page_num * PAGE_SIZE;
        let ghost image = self.data@;
        let ghost base = if image.len() < off {
            image + zeros((off - image.len()) as nat)
        } else {
            image
        };
        while self.data.len() < off
            invariant
                image.len() <= self.data@.len() <= off || self.data@.len() == image.len(),
                self.data@ == image + zeros((self.data@.len() - image.len()) as nat),
            decreases off - self.data@.len(),
        {
            self.data.push(0);
            assert(self.data@ =~= image + zeros((self.data@.len() - image.len()) as nat));
        }
        assert(self.data@ =~= base);
        let mut i: usize = 0;
        while i < PAGE_SIZE
            invariant
                off + PAGE_SIZE <= usize::MAX,
                0 <= i <= PAGE_SIZE,
                data@.len() == PAGE_SIZE,
                base.len() >= off,
                self.data@ =~= base.subrange(0, off as int) + data@.subrange(0, i as int) + (if off
                    + i < base.len() {
                    base.subrange(off + i, base.len() as int)
                } else {
                    Seq::empty()
                }),
            decreases PAGE_SIZE - i,
        {
            if off + i < self.data.len() {
                self.data.set(off + i, data[i]);
            } else {
                self.data.push(data[i]);
            }
            i = i + 1;
        }
        assert(data@.subrange(0, PAGE_SIZE as int) =~= data@);
        Ok(())
    }

    /// The number of rows in the file: slots are read in order from the first,
    /// and the count stops at the first slot that is empty or not in the file.
    pub fn rows(&self, def: &Definition) -> (n: usize)
        requires
            def.wf(),
        ensures
            is_row_count(self@, n as nat),
    {
        let mut i: usize = 0;
        loop
            invariant
                def.wf(),
                i <= self@.len(),
                forall|j: nat| j < i ==> #[trigger] slot_filled(self@, j),
            ensures
                is_row_count(self@, i as nat),
            decreases self@.len() - i,
        {
            assert(ROW_SIZE == 297);
            assert(ROWS_PER_PAGE == 13);
            let page = i / ROWS_PER_PAGE;
            proof {
                lemma_page_count(page as nat, self@.len());
                lemma_slot_layout(i as nat);
            }
            if page >= self.data.len() / PAGE_SIZE {
                break;
            }
            let start = page * PAGE_SIZE + (i % ROWS_PER_PAGE) * ROW_SIZE;
            let chunk = copy_range(&self.data, start, start + ROW_SIZE);
            assert(chunk@[0] == self@[slot_start(i as nat) as int]);
            match Row::de(&chunk, def) {
                Err(e) => {
                    if e.kind == ErrorKind::EmptyRow {
                        break;
                    }
                },
                Ok(_) => {},
            }
            i = i + 1;
        }
        i
    }
}

} // verus!
