use vstd::prelude::*;

use crate::page::PAGE_SIZE;
use crate::value::{Value, ValueView};

verus! {

/// The kind of value a table's primary key holds.
#[allow(non_camel_case_types)]
#[derive(Debug, Clone, Copy, PartialEq, Eq, Structural)]
pub enum key_type {
    Number,
    Strings,
}

/// Which table a storage holds and which column is its primary key.
#[derive(Debug)]
pub struct TableMetaData {
    pub table_name: String,
    pub primary_key: String,
    pub prim_key_type: key_type,
}

/// The allocator: the page being filled, the bytes used in it, and the
/// capacity of a page.
#[derive(Debug, Clone, Copy, PartialEq, Eq, Structural)]
pub struct PageData {
    pub page_number: usize,
    pub current_size: usize,
    pub max_size: usize,
}

/// Where one row lies: its key, its encoded size, its inclusive byte range
/// and its page.
#[derive(Debug)]
pub struct RowMetaData {
    pub table: TableMetaData,
    pub primary_key: Value,
    pub row_size: usize,
    pub range: Vec<usize>,
    pub page_number: usize,
}

pub ghost struct RecordView {
    pub key: ValueView,
    pub size: int,
    pub start: int,
    pub end: int,
    pub page: int,
}

impl View for RowMetaData {
    type V = RecordView;

    open spec fn view(&self) -> RecordView {
        RecordView {
            key: self.primary_key@,
            size: self.row_size as int,
            start: self.range@[0] as int,
            end: self.range@[1] as int,
            page: self.page_number as int,
        }
    }
}

impl RowMetaData {
    /// The range has its two ends, the key is well formed, and the range's
    /// length is the stored size.
    pub open spec fn wf(&self) -> bool {
        &&& self.range@.len() == 2
        &&& self.primary_key.wf()
        &&& self.row_size >= 1
        &&& self.range@[1] == self.range@[0] + self.row_size - 1
    }
}

impl TableMetaData {
    pub fn new(table_name: String, primary_key: String, prim_key_type: key_type) -> (r: Self)
        ensures
            r.table_name@ == table_name@,
            r.primary_key@ == primary_key@,
            r.prim_key_type == prim_key_type,
    {
        Self { table_name, primary_key, prim_key_type }
    }

    /// An exact copy.
    pub fn duplicate(&self) -> (r: Self)
        ensures
            r.table_name@ == self.table_name@,
            r.primary_key@ == self.primary_key@,
            r.prim_key_type == self.prim_key_type,
    {
        Self {
            table_name: self.table_name.clone(),
            primary_key: self.primary_key.clone(),
            prim_key_type: self.prim_key_type,
        }
    }
}

/// Whether a row of `row_size` bytes overflows the page being filled.
pub open spec fn is_full(p: PageData, row_size: int) -> bool {
    p.current_size + row_size > p.max_size
}

/// The allocator after placing a row of `row_size` bytes: on a fresh page
/// holding only that row where the row overflows the current one, else after
/// the bytes already used.
pub open spec fn placed(p: PageData, row_size: int) -> PageData {
    if is_full(p, row_size) {
        PageData {
            page_number: (p.page_number + 1) as usize,
            current_size: row_size as usize,
            max_size: p.max_size,
        }
    } else {
        PageData {
            page_number: p.page_number,
            current_size: (p.current_size + row_size) as usize,
            max_size: p.max_size,
        }
    }
}

/// Where the placed row starts on its page.
pub open spec fn placed_start(p: PageData, row_size: int) -> int {
    if is_full(p, row_size) {
        0
    } else {
        p.current_size as int
    }
}

impl PageData {
    /// A fresh allocator: page 1, nothing used, pages of `PAGE_SIZE` bytes.
    /// The argument is not used; a storage always starts at page 1.
    #[allow(non_snake_case)]
    pub fn default(page_number: usize) -> (r: Self)
        ensures
            r == (PageData { page_number: 1, current_size: 0, max_size: PAGE_SIZE }),
    {
        Self { page_number: 1, current_size: 0, max_size: PAGE_SIZE }
    }

    /// Places a row of `row_size` bytes and returns its page and inclusive
    /// byte range. Where the row overflows the current page, the next page
    /// is opened and counts the row as its only content.
    #[allow(non_snake_case)]
    pub fn getChunkData(&mut self, row_size: usize) -> (r: (usize, Vec<usize>))
        requires
            row_size >= 1,
            old(self).page_number < usize::MAX,
            old(self).current_size + row_size <= usize::MAX,
        ensures
            *final(self) == placed(*old(self), row_size as int),
            r.0 == final(self).page_number,
            r.1@ == seq![
                placed_start(*old(self), row_size as int) as usize,
                (placed_start(*old(self), row_size as int) + row_size - 1) as usize,
            ],
    {
        if self.isFull(row_size) {
            self.page_number = self.page_number + 1;
            self.current_size = row_size;
            return (self.page_number, vec![0, row_size - 1]);
        }
        let size = self.current_size;
        self.current_size = self.current_size + row_size;
        (self.page_number, vec![size, size + row_size - 1])
    }

    /// Whether a row of `current_size` bytes overflows the page being filled.
    #[allow(non_snake_case)]
    pub fn isFull(&self, current_size: usize) -> (r: bool)
        ensures
            r == is_full(*self, current_size as int),
    {
        current_size > self.max_size || self.current_size > self.max_size - current_size
    }

    /// Gives back `size` bytes of the page being filled.
    #[allow(non_snake_case)]
    pub fn rollBackCurrentSize(&mut self, size: usize)
        requires
            old(self).current_size >= size,
        ensures
            final(self).page_number == old(self).page_number,
            final(self).max_size == old(self).max_size,
            final(self).current_size == old(self).current_size - size,
    {
        self.current_size = self.current_size - size;
    }
}

impl RowMetaData {
    pub fn new(
        table: TableMetaData,
        primary_key: Value,
        row_size: usize,
        range: Vec<usize>,
        page_number: usize,
    ) -> (r: Self)
        ensures
            r.table == table,
            r.primary_key == primary_key,
            r.row_size == row_size,
            r.range == range,
            r.page_number == page_number,
    {
        Self { table, primary_key, row_size, range, page_number }
    }
}

} // verus!
