//! The table: an append-only sequence of rows laid out in the pages of a file.
use vstd::prelude::*;
use vstd::arithmetic::div_mod::{lemma_div_is_ordered, lemma_fundamental_div_mod};
use vstd::utf8::encode_utf8;
use crate::pager::{
    is_row_count, lemma_slot_layout, lemma_slot_order, page_of, page_present, slot_bytes,
    slot_filled, slot_offset, slot_page, slot_present, slot_start, write_at, Pager,
};
use crate::row::{
    copy_range, decode_row, encode_row, fits, lemma_decode_encode, lemma_sizes,
    no_trailing_zero, zeros, Definition, Error, ErrorKind, Row, RowValue, PAGE_SIZE,
    ROWS_PER_PAGE, ROW_SIZE,
};

verus! {

/// The file after row slot `i` is written with `bytes`: the page that holds the
/// slot is read (taken as zeros where it is not in the file), the slot is
/// overwritten, and the whole page is written back.
pub open spec fn write_slot(image: Seq<u8>, i: nat, bytes: Seq<u8>) -> Seq<u8> {
    let p = slot_page(i);
    let page = if page_present(image, p) {
        page_of(image, p)
    } else {
        zeros(PAGE_SIZE as nat)
    };
    let off = slot_offset(i);
    let new_page = page.subrange(0, off as int) + bytes + page.subrange(
        off + ROW_SIZE,
        PAGE_SIZE as int,
    );
    write_at(image, p * (PAGE_SIZE as nat), new_page)
}

/// The records in slots `0..n`, in slot order; a slot that holds none (empty or
/// malformed) is left out.
pub open spec fn selected(image: Seq<u8>, n: nat) -> Seq<RowValue>
    decreases n,
{
    if n == 0 {
        Seq::empty()
    } else {
        let prev = selected(image, (n - 1) as nat);
        match decode_row(slot_bytes(image, (n - 1) as nat)) {
            Ok(v) => prev.push(v),
            Err(_) => prev,
        }
    }
}

/// What byte `j` of the file holds after row slot `n` is written with `b`.
pub open spec fn byte_after_write(image: Seq<u8>, n: nat, b: Seq<u8>, j: int) -> u8 {
    let off = slot_page(n) * (PAGE_SIZE as nat);
    if slot_start(n) <= j < slot_start(n) + ROW_SIZE {
        b[j - slot_start(n)]
    } else if j < image.len() && (j < off || j >= off + PAGE_SIZE || page_present(
        image,
        slot_page(n),
    )) {
        image[j]
    } else {
        0
    }
}

/// Writing a slot writes its page: the file grows to cover that page, the slot
/// takes the new bytes, and the rest of the file is kept (the rest of the page is
/// zero where the page was not in the file).
pub proof fn lemma_write_slot(image: Seq<u8>, n: nat, b: Seq<u8>)
    requires
        b.len() == ROW_SIZE,
    ensures
        write_slot(image, n, b).len() == if image.len() < (slot_page(n) + 1) * (PAGE_SIZE as nat) {
            (slot_page(n) + 1) * (PAGE_SIZE as nat)
        } else {
            image.len()
        },
        forall|j: int|
            0 <= j < write_slot(image, n, b).len() ==> #[trigger] write_slot(image, n, b)[j]
                == byte_after_write(image, n, b, j),
{
    lemma_slot_layout(n);
    let p = slot_page(n);
    let off = p * (PAGE_SIZE as nat);
    assert((p + 1) * (PAGE_SIZE as nat) == p * (PAGE_SIZE as nat) + PAGE_SIZE) by (nonlinear_arith);
    let o = slot_offset(n);
    let page = if page_present(image, p) {
        page_of(image, p)
    } else {
        zeros(PAGE_SIZE as nat)
    };
    let new_page = page.subrange(0, o as int) + b + page.subrange(o + ROW_SIZE, PAGE_SIZE as int);
    assert(new_page.len() == PAGE_SIZE);
    let base = if image.len() < off {
        image + zeros((off - image.len()) as nat)
    } else {
        image
    };
    let r = write_slot(image, n, b);
    assert forall|j: int| 0 <= j < r.len() implies #[trigger] r[j] == byte_after_write(
        image,
        n,
        b,
        j,
    ) by {
        if j < off {
            assert(r[j] == base[j]);
        } else if j < off + PAGE_SIZE {
            assert(r[j] == new_page[j - off]);
        } else {
            assert(r[j] == base[j]);
        }
    }
}

proof fn lemma_selected_same_slots(a: Seq<u8>, b: Seq<u8>, n: nat)
    requires
        forall|i: nat| i < n ==> #[trigger] slot_bytes(a, i) == slot_bytes(b, i),
    ensures
        selected(a, n) == selected(b, n),
    decreases n,
{
    if n > 0 {
        lemma_selected_same_slots(a, b, (n - 1) as nat);
        assert(slot_bytes(a, (n - 1) as nat) == slot_bytes(b, (n - 1) as nat));
    }
}

/// The rows of slots `0..n` stay as they were when slot `n` is written, while the
/// slots before it are in the file.
proof fn lemma_write_slot_keeps(image: Seq<u8>, n: nat, b: Seq<u8>, i: nat)
    requires
        b.len() == ROW_SIZE,
        i < n,
        slot_present(image, i),
    ensures
        slot_bytes(write_slot(image, n, b), i) == slot_bytes(image, i),
{
    lemma_write_slot(image, n, b);
    lemma_slot_order(i, n);
    lemma_slot_layout(i);
    lemma_slot_layout(n);
    let r = write_slot(image, n, b);
    let p = slot_page(n);
    if slot_page(i) < p {
        assert((slot_page(i) + 1) * (PAGE_SIZE as nat) <= p * (PAGE_SIZE as nat)) by (
        nonlinear_arith)
            requires
                slot_page(i) < p,
        ;
    }
    assert(slot_bytes(r, i) =~= slot_bytes(image, i));
}

/// Once slot `n` is written, the records of slots `0..n+1` are those of slots
/// `0..n` followed by the record of the new slot, if it holds one.
pub proof fn lemma_insert_appends(image: Seq<u8>, n: nat, b: Seq<u8>)
    requires
        b.len() == ROW_SIZE,
        n > 0 ==> slot_present(image, (n - 1) as nat),
    ensures
        selected(write_slot(image, n, b), n + 1) == selected(image, n) + match decode_row(b) {
            Ok(v) => seq![v],
            Err(_) => Seq::<RowValue>::empty(),
        },
{
    let r = write_slot(image, n, b);
    lemma_write_slot(image, n, b);
    lemma_slot_layout(n);
    assert forall|i: nat| i < n implies #[trigger] slot_bytes(r, i) == slot_bytes(image, i) by {
        lemma_slot_order(i, (n - 1) as nat + 1);
        if i < n - 1 {
            lemma_slot_order(i, (n - 1) as nat);
        }
        assert(slot_page(i) <= slot_page((n - 1) as nat));
        assert((slot_page(i) + 1) * (PAGE_SIZE as nat) <= (slot_page((n - 1) as nat) + 1) * (
        PAGE_SIZE as nat)) by (nonlinear_arith)
            requires
                slot_page(i) <= slot_page((n - 1) as nat),
        ;
        lemma_write_slot_keeps(image, n, b, i);
    }
    lemma_selected_same_slots(r, image, n);
    assert(slot_bytes(r, n) =~= b);
    assert(selected(r, n + 1) =~= selected(image, n) + match decode_row(b) {
        Ok(v) => seq![v],
        Err(_) => Seq::<RowValue>::empty(),
    });
}

/// The file that a table opened on an empty file leaves after `insert` has
/// stored `rows`, in order.
pub open spec fn image_after(rows: Seq<Seq<u8>>) -> Seq<u8>
    decreases rows.len(),
{
    if rows.len() == 0 {
        Seq::empty()
    } else {
        write_slot(image_after(rows.drop_last()), (rows.len() - 1) as nat, rows.last())
    }
}

/// The number of pages that `n` rows occupy.
pub open spec fn pages_for(n: nat) -> nat {
    if n == 0 {
        0
    } else {
        slot_page((n - 1) as nat) + 1
    }
}

proof fn lemma_pages_for_step(n: nat)
    ensures
        pages_for(n + 1) == slot_page(n) + 1,
        pages_for(n) == slot_page(n) || pages_for(n) == slot_page(n) + 1,
        pages_for(n) == slot_page(n) ==> slot_offset(n) == 0,
{
    lemma_sizes();
    lemma_fundamental_div_mod(n as int, 13);
    if n > 0 {
        lemma_fundamental_div_mod(n - 1, 13);
    }
}

proof fn lemma_image_after(rows: Seq<Seq<u8>>)
    requires
        forall|k: int| 0 <= k < rows.len() ==> (#[trigger] rows[k]).len() == ROW_SIZE,
    ensures
        image_after(rows).len() == pages_for(rows.len()) * (PAGE_SIZE as nat),
        forall|i: nat| i < rows.len() ==> #[trigger] slot_bytes(image_after(rows), i) == rows[i as int],
        forall|i: nat|
            i >= rows.len() && #[trigger] slot_present(image_after(rows), i) ==> image_after(
                rows,
            )[slot_start(i) as int] == 0,
    decreases rows.len(),
{
    if rows.len() > 0 {
        let prev = rows.drop_last();
        let n = prev.len();
        let w = image_after(prev);
        let b = rows.last();
        let r = image_after(rows);
        lemma_image_after(prev);
        lemma_write_slot(w, n, b);
        lemma_pages_for_step(n);
        lemma_slot_layout(n);
        let p = slot_page(n);
        let off = p * (PAGE_SIZE as nat);
        assert((p + 1) * (PAGE_SIZE as nat) == off + PAGE_SIZE) by (nonlinear_arith)
            requires
                off == p * (PAGE_SIZE as nat),
        ;
        assert(r.len() == pages_for(n + 1) * (PAGE_SIZE as nat));
        assert forall|i: nat| i < rows.len() implies #[trigger] slot_bytes(r, i) == rows[i as int] by {
            if i < n {
                lemma_slot_order(i, n);
                lemma_slot_layout(i);
                assert(slot_page(i) < pages_for(n)) by {
                    if n > 0 && i < n - 1 {
                        lemma_slot_order(i, (n - 1) as nat);
                    }
                }
                assert((slot_page(i) + 1) * (PAGE_SIZE as nat) <= pages_for(n) * (PAGE_SIZE as nat))
                    by (nonlinear_arith)
                    requires
                        slot_page(i) < pages_for(n),
                ;
                lemma_write_slot_keeps(w, n, b, i);
                assert(prev[i as int] == rows[i as int]);
            } else {
                assert(slot_bytes(r, i) =~= b);
            }
        }
        assert forall|i: nat| i >= rows.len() && #[trigger] slot_present(r, i) implies r[slot_start(
            i,
        ) as int] == 0 by {
            lemma_slot_order(n, i);
            lemma_slot_layout(i);
            let j = slot_start(i) as int;
            if j < w.len() {
                assert(slot_page(i) * (PAGE_SIZE as nat) <= slot_start(i));
                assert(slot_page(i) < pages_for(n)) by {
                    if slot_page(i) >= pages_for(n) {
                        assert(slot_page(i) * (PAGE_SIZE as nat) >= pages_for(n) * (
                        PAGE_SIZE as nat)) by (nonlinear_arith)
                            requires
                                slot_page(i) >= pages_for(n),
                        ;
                    }
                }
                assert((slot_page(i) + 1) * (PAGE_SIZE as nat) <= pages_for(n) * (PAGE_SIZE as nat))
                    by (nonlinear_arith)
                    requires
                        slot_page(i) < pages_for(n),
                ;
                assert(slot_present(w, i));
            }
        }
    }
}

/// A record that `Row::ser` accepts and that reads back unchanged: its text
/// fields fit their columns and their UTF-8 does not end in a zero byte.
pub open spec fn storable(v: RowValue) -> bool {
    &&& fits(v.username, v.email)
    &&& no_trailing_zero(encode_utf8(v.username))
    &&& no_trailing_zero(encode_utf8(v.email))
}

/// The rows that `Row::ser` makes of `vals`.
pub open spec fn encoded(vals: Seq<RowValue>) -> Seq<Seq<u8>> {
    vals.map_values(|v: RowValue| encode_row(v.id, v.username, v.email))
}

proof fn lemma_encoded(vals: Seq<RowValue>)
    requires
        forall|k: int| 0 <= k < vals.len() ==> storable(#[trigger] vals[k]),
    ensures
        forall|k: int|
            0 <= k < vals.len() ==> (#[trigger] encoded(vals)[k]).len() == ROW_SIZE && decode_row(
                encoded(vals)[k],
            ) == Ok::<RowValue, ErrorKind>(vals[k]),
{
    assert forall|k: int| 0 <= k < vals.len() implies (#[trigger] encoded(vals)[k]).len()
        == ROW_SIZE && decode_row(encoded(vals)[k]) == Ok::<RowValue, ErrorKind>(vals[k]) by {
        let v = vals[k];
        assert(storable(v));
        lemma_decode_encode(v.id, v.username, v.email);
    }
}

/// Once a table opened on an empty file has stored `vals` with
/// `insert`, one after the other, its first `vals.len()` slots read back as
/// exactly `vals`, in insertion order.
pub proof fn lemma_append_order(vals: Seq<RowValue>)
    requires
        forall|k: int| 0 <= k < vals.len() ==> storable(#[trigger] vals[k]),
    ensures
        selected(image_after(encoded(vals)), vals.len()) == vals,
    decreases vals.len(),
{
    if vals.len() > 0 {
        let prev = vals.drop_last();
        let n = prev.len();
        assert(encoded(vals).drop_last() =~= encoded(prev));
        lemma_append_order(prev);
        lemma_encoded(vals);
        lemma_encoded(prev);
        lemma_image_after(encoded(prev));
        let w = image_after(encoded(prev));
        if n > 0 {
            lemma_slot_layout((n - 1) as nat);
        }
        let b = encoded(vals)[n as int];
        assert(encoded(vals).last() == b);
        lemma_insert_appends(w, n, b);
        assert(decode_row(b) == Ok::<RowValue, ErrorKind>(vals[n as int]));
        assert(selected(image_after(encoded(vals)), vals.len()) =~= vals);
    }
}

/// The scan finds at most one row count in a file.
pub proof fn lemma_row_count_unique(image: Seq<u8>, m: nat, n: nat)
    requires
        is_row_count(image, m),
        is_row_count(image, n),
    ensures
        m == n,
{
    if m < n {
        assert(slot_filled(image, m));
    } else if n < m {
        assert(slot_filled(image, n));
    }
}

/// On the file that a table opened on an empty file leaves after
/// storing `vals`, the row count that the scan finds is `vals.len()`, and the
/// table reopened there reads back exactly `vals`, in the same order.
pub proof fn lemma_reopen(vals: Seq<RowValue>, n: nat)
    requires
        forall|k: int| 0 <= k < vals.len() ==> storable(#[trigger] vals[k]),
        is_row_count(image_after(encoded(vals)), n),
    ensures
        n == vals.len(),
        selected(image_after(encoded(vals)), n) == vals,
{
    let rows = encoded(vals);
    let image = image_after(rows);
    lemma_encoded(vals);
    lemma_image_after(rows);
    let len = vals.len();
    assert forall|i: nat| i < len implies #[trigger] slot_filled(image, i) by {
        lemma_slot_layout(i);
        if i < len - 1 {
            lemma_slot_order(i, (len - 1) as nat);
        }
        assert((slot_page(i) + 1) * (PAGE_SIZE as nat) <= pages_for(len) * (PAGE_SIZE as nat)) by (
        nonlinear_arith)
            requires
                slot_page(i) + 1 <= pages_for(len),
        ;
        assert(slot_bytes(image, i) == rows[i as int]);
        assert(image[slot_start(i) as int] == slot_bytes(image, i)[0]);
    }
    assert(!slot_filled(image, len));
    lemma_row_count_unique(image, n, len);
    lemma_append_order(vals);
}

/// The first 13 slots lie in page 0, slot 13 starts page 1, and
/// writing slot 13 leaves page 0 as it was.
pub proof fn lemma_page_boundary(image: Seq<u8>, b: Seq<u8>)
    requires
        b.len() == ROW_SIZE,
        page_present(image, 0),
    ensures
        forall|i: nat|
            i < 13 ==> #[trigger] slot_page(i) == 0 && slot_start(i) + ROW_SIZE <= PAGE_SIZE,
        slot_page(13) == 1,
        slot_start(13) == PAGE_SIZE,
        page_of(write_slot(image, 13, b), 0) == page_of(image, 0),
{
    lemma_sizes();
    assert forall|i: nat| i < 13 implies #[trigger] slot_page(i) == 0 && slot_start(i) + ROW_SIZE
        <= PAGE_SIZE by {
        lemma_slot_layout(i);
    }
    lemma_write_slot(image, 13, b);
    assert(page_of(write_slot(image, 13, b), 0) =~= page_of(image, 0));
}

/// A slot whose first byte is zero holds no record, and `select` yields nothing
/// for it.
pub proof fn lemma_empty_slot_skipped(image: Seq<u8>, i: nat)
    requires
        slot_present(image, i),
        image[slot_start(i) as int] == 0,
    ensures
        decode_row(slot_bytes(image, i)) == Err::<RowValue, ErrorKind>(ErrorKind::EmptyRow),
        selected(image, i + 1) == selected(image, i),
{
    lemma_slot_layout(i);
    assert(slot_bytes(image, i)[0] == image[slot_start(i) as int]);
}

/// A page of zero bytes.
fn zero_page() -> (r: Vec<u8>)
    ensures
        r@ == zeros(PAGE_SIZE as nat),
{
    let mut r: Vec<u8> = Vec::new();
    let mut i: usize = 0;
    while i < PAGE_SIZE
        invariant
            i <= PAGE_SIZE,
            r@ == zeros(i as nat),
        decreases PAGE_SIZE - i,
    {
        r.push(0);
        i = i + 1;
        assert(r@ =~= zeros(i as nat));
    }
    r
}

/// The rows of one file, appended at the end and read back in order.
pub struct Table<'a> {
    pager: Pager,
    last_row: usize,
    pub def: &'a Definition,
}

impl<'a> Table<'a> {
    /// The image of the file.
    pub closed spec fn image(&self) -> Seq<u8> {
        self.pager@
    }

    /// The number of rows in the table: the append cursor.
    pub closed spec fn spec_row_count(&self) -> nat {
        self.last_row as nat
    }

    /// The schema is well formed and the page of every row is in the file.
    pub closed spec fn wf(&self) -> bool {
        &&& self.def.wf()
        &&& self.last_row > 0 ==> slot_present(self.pager@, (self.last_row - 1) as nat)
    }

    /// A table over the file that `pager` holds; its row count is recovered by
    /// scanning the file.
    pub fn open_db(pager: Pager, def: &'a Definition) -> (t: Table<'a>)
        requires
            def.wf(),
        ensures
            t.wf(),
            t.image() == pager@,
            is_row_count(t.image(), t.spec_row_count()),
    {
        let n = pager.rows(def);
        proof {
            if n > 0 {
                assert(slot_filled(pager@, (n - 1) as nat));
            }
        }
        Table { pager, last_row: n, def }
    }

    /// Appends a row: its bytes go to the slot at the row count, in a page that
    /// is read, changed and written back whole. Returns the number of that page.
    /// Fails with `OutOfSpace`, changing nothing, where the page would end beyond
    /// `usize::MAX`.
    pub fn insert(&mut self, row: Row) -> (r: Result<usize, Error>)
        requires
            old(self).wf(),
            row.bytes().len() == ROW_SIZE,
        ensures
            final(self).wf(),
            match r {
                Ok(page_num) => {
                    &&& page_num == slot_page(old(self).spec_row_count())
                    &&& final(self).image() == write_slot(
                        old(self).image(),
                        old(self).spec_row_count(),
                        row.bytes(),
                    )
                    &&& final(self).spec_row_count() == old(self).spec_row_count() + 1
                },
                Err(e) => {
                    &&& e.kind == ErrorKind::OutOfSpace
                    &&& (slot_page(old(self).spec_row_count()) + 1) * PAGE_SIZE > usize::MAX
                    &&& final(self).image() == old(self).image()
                    &&& final(self).spec_row_count() == old(self).spec_row_count()
                },
            },
    {
        let row_num = self.last_row;
        let row_per_page = self.def.row_per_page();
        let row_size = self.def.row_size();
        proof {
            lemma_sizes();
        }
        let page_num = row_num / row_per_page;
        let ghost image = self.pager@;
        let mut page = match self.pager.get_page(page_num) {
            Ok(p) => p,
            Err(_) => zero_page(),
        };
        let ghost orig = page@;
        proof {
            lemma_slot_layout(row_num as nat);
        }
        let byte_offset = (row_num % row_per_page) * row_size;
        let bytes = row.as_bytes();
        let mut i: usize = 0;
        while i < row_size
            invariant
                row_size == ROW_SIZE,
                byte_offset == slot_offset(row_num as nat),
                byte_offset + ROW_SIZE <= PAGE_SIZE,
                orig.len() == PAGE_SIZE,
                bytes@.len() == ROW_SIZE,
                0 <= i <= ROW_SIZE,
                page@ =~= orig.subrange(0, byte_offset as int) + bytes@.subrange(0, i as int)
                    + orig.subrange(byte_offset + i, PAGE_SIZE as int),
            decreases ROW_SIZE - i,
        {
            page.set(byte_offset + i, bytes[i]);
            i = i + 1;
        }
        assert(bytes@.subrange(0, ROW_SIZE as int) =~= bytes@);
        match self.pager.flush_page(page_num, page) {
            Ok(()) => {},
            Err(e) => {
                return Err(e);
            },
        }
        proof {
            let off = (page_num * PAGE_SIZE) as nat;
            assert(write_at(image, off, page@).len() >= off + PAGE_SIZE);
        }
        self.last_row = row_num + 1;
        Ok(page_num)
    }

    /// The records of the table in row order; a slot that holds none (empty or
    /// malformed) is skipped.
    pub fn select(&self) -> (rows: Vec<Row>)
        requires
            self.wf(),
        ensures
            rows@.map_values(|r: Row| r@) == selected(self.image(), self.spec_row_count()),
    {
        let mut rows: Vec<Row> = Vec::new();
        let row_per_page = self.def.row_per_page();
        let row_size = self.def.row_size();
        proof {
            lemma_sizes();
        }
        let mut i: usize = 0;
        while i < self.last_row
            invariant
                self.wf(),
                row_per_page == ROWS_PER_PAGE,
                row_size == ROW_SIZE,
                ROWS_PER_PAGE == 13,
                i <= self.last_row,
                rows@.map_values(|r: Row| r@) == selected(self.pager@, i as nat),
            decreases self.last_row - i,
        {
            let page_num = i / row_per_page;
            proof {
                lemma_slot_layout(i as nat);
                lemma_div_is_ordered(i as int, self.last_row - 1, 13);
                assert(slot_page(i as nat) <= slot_page((self.last_row - 1) as nat));
            }
            if let Ok(page) = self.pager.get_page(page_num) {
                let row_offset = i % row_per_page;
                let byte_offset = row_offset * row_size;
                let buf = copy_range(&page, byte_offset, byte_offset + row_size);
                assert(buf@ =~= slot_bytes(self.pager@, i as nat));
                if let Ok(row) = Row::de(&buf, self.def) {
                    rows.push(row);
                }
            }
            i = i + 1;
            assert(rows@.map_values(|r: Row| r@) =~= selected(self.pager@, i as nat));
        }
        rows
    }

    /// The number of rows in the table.
    pub fn row_count(&self) -> (n: u64)
        ensures
            n == self.spec_row_count(),
    {
        self.last_row as u64
    }

    /// The page store, to read back what was written.
    pub fn pager(&self) -> (p: &Pager)
        ensures
            p@ == self.image(),
    {
        &self.pager
    }
}

} // verus!
