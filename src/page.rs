use vstd::prelude::*;

verus! {

/// The byte count a page is meant to hold; rows larger than it still get a
/// page of their own.
pub const PAGE_SIZE: usize = 4096;

/// A numbered page and its bytes.
#[derive(Debug)]
pub struct Page {
    pub page_number: usize,
    pub data: Vec<u8>,
}

pub open spec fn clamp(x: int, n: int) -> int {
    if x < n {
        x
    } else {
        n
    }
}

/// `s` without the bytes at positions `start..=end` (none where
/// `start > end`), the rest in order.
pub open spec fn remove_range(s: Seq<u8>, start: int, end: int) -> Seq<u8> {
    if start > end {
        s
    } else {
        s.subrange(0, clamp(start, s.len() as int)) + s.subrange(
            clamp(end + 1, s.len() as int),
            s.len() as int,
        )
    }
}

proof fn lemma_remove_range_step(s: Seq<u8>, i: int, start: int, end: int)
    requires
        0 <= i < s.len(),
        0 <= start,
    ensures
        (i < start || i > end) ==> remove_range(s.subrange(0, i + 1), start, end) == remove_range(
            s.subrange(0, i),
            start,
            end,
        ).push(s[i]),
        !(i < start || i > end) ==> remove_range(s.subrange(0, i + 1), start, end) == remove_range(
            s.subrange(0, i),
            start,
            end,
        ),
{
    let s0 = s.subrange(0, i);
    let s1 = s.subrange(0, i + 1);
    if start > end {
        assert(s1 =~= s0.push(s[i]));
    } else if i < start {
        assert(remove_range(s1, start, end) =~= s1);
        assert(remove_range(s0, start, end) =~= s0);
        assert(s1 =~= s0.push(s[i]));
    } else if i > end {
        assert(remove_range(s1, start, end) =~= remove_range(s0, start, end).push(s[i]));
    } else {
        assert(remove_range(s1, start, end) =~= remove_range(s0, start, end));
    }
}

impl Page {
    /// An empty page.
    pub fn default(page_number: usize) -> (r: Page)
        ensures
            r.page_number == page_number,
            r.data@ == Seq::<u8>::empty(),
    {
        Page { page_number, data: Vec::new() }
    }

    pub fn new(page_number: usize, data: Vec<u8>) -> (r: Page)
        ensures
            r.page_number == page_number,
            r.data@ == data@,
    {
        Page { page_number, data }
    }

    /// Appends bytes at the end of the page; the page does not enforce its
    /// capacity.
    pub fn append_chunks(&mut self, chunks: Vec<u8>, range: Vec<usize>)
        ensures
            final(self).page_number == old(self).page_number,
            final(self).data@ == old(self).data@ + chunks@,
    {
        let mut chunks = chunks;
        self.data.append(&mut chunks);
    }

    /// Removes the bytes at positions `start..=end` and returns a copy of
    /// the updated page.
    pub fn delete_chunks(&mut self, start: usize, end: usize) -> (r: Page)
        ensures
            final(self).page_number == old(self).page_number,
            final(self).data@ == remove_range(old(self).data@, start as int, end as int),
            r.page_number == final(self).page_number,
            r.data@ == final(self).data@,
    {
        let mut updated: Vec<u8> = Vec::new();
        let n = self.data.len();
        let mut i: usize = 0;
        while i < n
            invariant
                n == self.data@.len(),
                0 <= i <= n,
                updated@ == remove_range(self.data@.subrange(0, i as int), start as int, end as int),
            decreases n - i,
        {
            if i < start || i > end {
                updated.push(self.data[i]);
            }
            proof {
                lemma_remove_range_step(self.data@, i as int, start as int, end as int);
            }
            i = i + 1;
        }
        assert(self.data@.subrange(0, n as int) =~= self.data@);
        self.data = updated;
        self.duplicate()
    }

    /// The bytes at positions `start..=end`, where the page holds them.
    pub fn read_chunks(&self, start: usize, end: usize) -> (r: Option<Vec<u8>>)
        ensures
            match r {
                Some(b) => start <= end < self.data@.len() && b@ == self.data@.subrange(
                    start as int,
                    end + 1,
                ),
                None => !(start <= end < self.data@.len()),
            },
    {
        let n = self.data.len();
        if start <= end && end < n {
            let mut out: Vec<u8> = Vec::new();
            let mut i: usize = start;
            while i <= end
                invariant
                    start <= i <= end + 1,
                    end < n,
                    n == self.data@.len(),
                    out@ == self.data@.subrange(start as int, i as int),
                decreases end + 1 - i,
            {
                out.push(self.data[i]);
                i = i + 1;
                assert(out@ =~= self.data@.subrange(start as int, i as int));
            }
            Some(out)
        } else {
            None
        }
    }

    /// An exact copy.
    pub fn duplicate(&self) -> (r: Page)
        ensures
            r.page_number == self.page_number,
            r.data@ == self.data@,
    {
        let data = self.data.clone();
        assert(data@ =~= self.data@);
        Page { page_number: self.page_number, data }
    }
}

} // verus!
