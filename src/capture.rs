use std::collections::HashMap;
use vstd::prelude::*;

use crate::bitmap::{
    count_true, is_pow2, is_power_of_two, lemma_count_true_clear, lemma_count_true_take,
    lemma_count_true_uniform,
};
use crate::block::{copy_payload, rows};
use crate::codec::{
    count, count_of, drop_marker_of, lemma_drop_marker_round_trip, write_marker, COUNT_BYTES,
};

verus! {

broadcast use vstd::std_specs::hash::group_hash_axioms;

/// Errors produced while configuring or running a capture.
#[derive(Debug, Clone, Copy, PartialEq, Eq)]
pub enum Error {
    /// A datagram whose length is not the configured payload size.
    SizeMismatch(usize),
    /// The kernel kept another receive buffer size than the one asked for.
    SetRecvBufferFailed { expected: usize, found: usize },
    /// The block size is zero or not a power of two.
    InvalidBlockSize(usize),
    /// The payload size is too small to carry a count.
    InvalidPayloadSize(usize),
    /// A future payload arrived while the backlog already held its capacity.
    BacklogOverflow { count: u64, capacity: usize },
    /// A block window starting at this count would pass the largest count.
    CountOverflow(u64),
    /// The drop and processed counters would no longer fit in 64 bits.
    CounterOverflow,
}

/// Where a payload went when it was sorted.
#[derive(Debug, Clone, Copy, PartialEq, Eq)]
pub enum Placement {
    /// Its count lies before the current block: it was dropped.
    Past,
    /// Its count lies after the current block: it waits in the backlog.
    Future,
    /// Its count belongs to the current block, at this slot.
    Slot(usize),
}

/// The abstract state of a capture.
pub struct CaptureView {
    pub payload_size: nat,
    pub block_size: nat,
    pub backlog_capacity: nat,
    /// Future payloads, keyed by their count.
    pub backlog: Map<u64, Seq<u8>>,
    /// One bit per slot of the block under assembly: still to fill.
    pub to_fill: Seq<bool>,
    pub drops: nat,
    pub processed: nat,
    /// No payload has fixed the block base yet.
    pub first_payload: bool,
    /// The count of slot 0 of the block under assembly.
    pub block_base: u64,
    /// Slots of the blocks that were finished.
    pub advanced: nat,
    /// Payloads dropped because their count was already behind the block.
    pub late: nat,
    /// Payloads written over a slot that was already filled.
    pub repeats: nat,
}

impl CaptureView {
    pub open spec fn pending(self) -> nat {
        count_true(self.to_fill)
    }

    /// The block base in force once a payload with count `c` is taken.
    pub open spec fn base_for(self, c: u64) -> u64 {
        if self.first_payload {
            c
        } else {
            self.block_base
        }
    }

    /// Where a payload with count `c` goes.
    pub open spec fn placement(self, c: u64) -> Placement {
        let base = self.base_for(c);
        if c < base {
            Placement::Past
        } else if c - base >= self.block_size {
            Placement::Future
        } else {
            Placement::Slot((c - base) as usize)
        }
    }

    /// The counters cannot take one more increment that no pending slot pays for.
    pub open spec fn counters_full(self) -> bool {
        self.drops + self.processed + self.pending() >= u64::MAX
    }

    /// The error that sorting payload `p` meets, if any.
    pub open spec fn sort_error(self, p: Seq<u8>) -> Option<Error> {
        let c = count_of(p);
        if p.len() != self.payload_size {
            Some(Error::SizeMismatch(p.len() as usize))
        } else if self.first_payload && c + self.block_size > u64::MAX {
            Some(Error::CountOverflow(c))
        } else {
            match self.placement(c) {
                Placement::Past => if self.counters_full() {
                    Some(Error::CounterOverflow)
                } else {
                    None
                },
                Placement::Future => if !self.backlog.contains_key(c) && self.backlog.len()
                    >= self.backlog_capacity {
                    Some(Error::BacklogOverflow { count: c, capacity: self.backlog_capacity as usize })
                } else {
                    None
                },
                Placement::Slot(i) => if !self.to_fill[i as int] && self.counters_full() {
                    Some(Error::CounterOverflow)
                } else {
                    None
                },
            }
        }
    }

    /// The state after sorting payload `p`, where that succeeds.
    pub open spec fn after_sort(self, p: Seq<u8>) -> CaptureView {
        let c = count_of(p);
        let s = CaptureView { first_payload: false, block_base: self.base_for(c), ..self };
        match self.placement(c) {
            Placement::Past => CaptureView { drops: s.drops + 1, late: s.late + 1, ..s },
            Placement::Future => CaptureView { backlog: s.backlog.insert(c, p), ..s },
            Placement::Slot(i) => if s.to_fill[i as int] {
                CaptureView {
                    to_fill: s.to_fill.update(i as int, false),
                    processed: s.processed + 1,
                    ..s
                }
            } else {
                CaptureView { processed: s.processed + 1, repeats: s.repeats + 1, ..s }
            },
        }
    }

    /// The block after sorting payload `p`, where that succeeds.
    pub open spec fn block_after_sort(self, block: Seq<Seq<u8>>, p: Seq<u8>) -> Seq<Seq<u8>> {
        match self.placement(count_of(p)) {
            Placement::Slot(i) => block.update(i as int, p),
            _ => block,
        }
    }

    /// The count that slot `i` of the current block stands for.
    pub open spec fn expected(self, i: int) -> u64 {
        (self.block_base + i) as u64
    }

    /// Whether `k` is the count of a slot of the current block.
    pub open spec fn in_window(self, k: u64) -> bool {
        self.block_base <= k < self.block_base + self.block_size
    }

    /// The slots still to fill whose payload waits in the backlog.
    pub open spec fn recovered(self) -> Seq<bool> {
        Seq::new(
            self.block_size,
            |i: int| self.to_fill[i] && self.backlog.contains_key(self.expected(i)),
        )
    }

    /// The slots still to fill whose payload is nowhere.
    pub open spec fn missing(self) -> Seq<bool> {
        Seq::new(
            self.block_size,
            |i: int| self.to_fill[i] && !self.backlog.contains_key(self.expected(i)),
        )
    }

    /// The state after the gaps of the current block are filled. The backlog gives up every
    /// payload of the current block, used or not, since none of them can be placed later.
    pub open spec fn after_fill(self) -> CaptureView {
        CaptureView {
            first_payload: false,
            to_fill: Seq::new(self.block_size, |i: int| false),
            backlog: self.backlog.remove_keys(Set::new(|k: u64| self.in_window(k))),
            processed: self.processed + count_true(self.recovered()),
            drops: self.drops + count_true(self.missing()),
            ..self
        }
    }

    /// The block after its gaps are filled: from the backlog where it holds the count, else
    /// with a drop marker.
    pub open spec fn block_after_fill(self, block: Seq<Seq<u8>>) -> Seq<Seq<u8>> {
        Seq::new(
            self.block_size,
            |i: int|
                if !self.to_fill[i] {
                    block[i]
                } else if self.backlog.contains_key(self.expected(i)) {
                    self.backlog[self.expected(i)]
                } else {
                    drop_marker_of(self.expected(i), self.payload_size)
                },
        )
    }

    /// `block` is a whole block: slot `i` carries count `block_base + i`.
    pub open spec fn is_ordered_block(self, block: Seq<Seq<u8>>) -> bool {
        &&& block.len() == self.block_size
        &&& forall|i: int|
            0 <= i < self.block_size ==> #[trigger] block[i].len() == self.payload_size
                && count_of(block[i]) == self.block_base + i
    }

    /// The state once the block base moves on by one block.
    pub open spec fn after_advance(self) -> CaptureView {
        CaptureView {
            block_base: (self.block_base + self.block_size) as u64,
            to_fill: Seq::new(self.block_size, |i: int| true),
            advanced: self.advanced + self.block_size,
            ..self
        }
    }

    /// The error that moving the block base on meets, if any.
    pub open spec fn advance_error(self) -> Option<Error> {
        if self.block_base + 2 * self.block_size > u64::MAX {
            Some(Error::CountOverflow((self.block_base + self.block_size) as u64))
        } else if self.drops + self.processed + self.block_size > u64::MAX {
            Some(Error::CounterOverflow)
        } else {
            None
        }
    }

    /// The state and block after sorting each payload of `ds` in turn, skipping those of
    /// the wrong size, or the first other error met.
    pub open spec fn sort_all(self, block: Seq<Seq<u8>>, ds: Seq<Seq<u8>>) -> Result<
        (CaptureView, Seq<Seq<u8>>),
        Error,
    >
        decreases ds.len(),
    {
        if ds.len() == 0 {
            Ok((self, block))
        } else {
            match self.sort_all(block, ds.drop_last()) {
                Err(e) => Err(e),
                Ok((s, b)) => match s.sort_error(ds.last()) {
                    Some(Error::SizeMismatch(n)) => Ok((s, b)),
                    Some(e) => Err(e),
                    None => Ok((s.after_sort(ds.last()), s.block_after_sort(b, ds.last()))),
                },
            }
        }
    }

    /// `block` is a block of this capture whose filled slots carry their counts.
    pub open spec fn holds_block(self, block: Seq<Seq<u8>>) -> bool {
        &&& block.len() == self.block_size
        &&& forall|i: int|
            0 <= i < self.block_size ==> #[trigger] block[i].len() == self.payload_size
        &&& forall|i: int|
            0 <= i < self.block_size && !self.to_fill[i] ==> count_of(#[trigger] block[i])
                == self.block_base + i
    }
}

/// The reorder engine: sorts payloads into blocks by their count.
pub struct Capture {
    payload_size: usize,
    block_size: usize,
    backlog_capacity: usize,
    backlog: HashMap<u64, Vec<u8>>,
    to_fill: Vec<bool>,
    pending: usize,
    drops: u64,
    processed: u64,
    first_payload: bool,
    oldest_count: u64,
    advanced: Ghost<nat>,
    late: Ghost<nat>,
    repeats: Ghost<nat>,
}

impl View for Capture {
    type V = CaptureView;

    closed spec fn view(&self) -> CaptureView {
        CaptureView {
            payload_size: self.payload_size as nat,
            block_size: self.block_size as nat,
            backlog_capacity: self.backlog_capacity as nat,
            backlog: self.backlog@.map_values(|v: Vec<u8>| v@),
            to_fill: self.to_fill@,
            drops: self.drops as nat,
            processed: self.processed as nat,
            first_payload: self.first_payload,
            block_base: self.oldest_count,
            advanced: self.advanced@,
            late: self.late@,
            repeats: self.repeats@,
        }
    }
}

impl Capture {
    /// The invariant of a capture.
    pub closed spec fn wf(&self) -> bool {
        let v = self@;
        &&& v.payload_size >= COUNT_BYTES
        &&& is_pow2(v.block_size)
        &&& v.to_fill.len() == v.block_size
        &&& self.pending as nat == v.pending()
        &&& v.backlog.len() <= v.backlog_capacity
        &&& self.backlog@.dom().finite()
        &&& forall|k: u64|
            #[trigger] v.backlog.contains_key(k) ==> v.backlog[k].len() == v.payload_size
                && count_of(v.backlog[k]) == k
        &&& v.block_base + v.block_size <= u64::MAX
        &&& v.drops + v.processed + v.pending() <= u64::MAX
        &&& v.drops + v.processed == v.advanced + v.late + v.repeats + (v.block_size
            - v.pending())
        &&& forall|k: u64| #[trigger] v.backlog.contains_key(k) ==> v.block_base <= k
        &&& v.first_payload ==> v.backlog.is_empty()
        &&& v.first_payload ==> v.pending() == v.block_size
        &&& forall|i: int| 0 <= i < v.block_size && v.first_payload ==> #[trigger] v.to_fill[i]
    }

    proof fn lemma_backlog_view(&self)
        ensures
            self@.backlog.dom() == self.backlog@.dom(),
            self@.backlog.len() == self.backlog@.len(),
            forall|k: u64| #[trigger]
                self@.backlog.contains_key(k) ==> self@.backlog[k] == self.backlog@[k]@,
    {
        assert(self@.backlog.dom() =~= self.backlog@.dom());
    }

    /// A capture for payloads of `payload_size` bytes, blocks of `block_size` payloads, and
    /// a backlog of at most `backlog_capacity` future payloads.
    pub fn new(payload_size: usize, block_size: usize, backlog_capacity: usize) -> (r: Result<
        Capture,
        Error,
    >)
        ensures
            match r {
                Ok(c) => {
                    &&& payload_size >= COUNT_BYTES && is_pow2(block_size as nat)
                    &&& c.wf()
                    &&& c@.payload_size == payload_size
                    &&& c@.block_size == block_size
                    &&& c@.backlog_capacity == backlog_capacity
                    &&& c@.backlog.is_empty()
                    &&& c@.drops == 0 && c@.processed == 0
                    &&& c@.first_payload
                    &&& c@.pending() == block_size
                    &&& c@.to_fill == Seq::new(block_size as nat, |i: int| true)
                },
                Err(e) => if !is_pow2(block_size as nat) {
                    e == Error::InvalidBlockSize(block_size)
                } else {
                    payload_size < COUNT_BYTES && e == Error::InvalidPayloadSize(payload_size)
                },
            },
    {
        if !is_power_of_two(block_size) {
            return Err(Error::InvalidBlockSize(block_size));
        }
        if payload_size < COUNT_BYTES {
            return Err(Error::InvalidPayloadSize(payload_size));
        }
        let mut to_fill: Vec<bool> = Vec::with_capacity(block_size);
        let mut i: usize = 0;
        while i < block_size
            invariant
                0 <= i <= block_size,
                to_fill@.len() == i,
                forall|k: int| 0 <= k < i ==> to_fill@[k],
            decreases block_size - i,
        {
            to_fill.push(true);
            i += 1;
        }
        proof {
            lemma_count_true_uniform(to_fill@, true);
            assert(to_fill@ =~= Seq::new(block_size as nat, |i: int| true));
        }
        let c = Capture {
            payload_size,
            block_size,
            backlog_capacity,
            backlog: HashMap::with_capacity(backlog_capacity),
            to_fill,
            pending: block_size,
            drops: 0,
            processed: 0,
            first_payload: true,
            oldest_count: 0,
            advanced: Ghost(0),
            late: Ghost(0),
            repeats: Ghost(0),
        };
        proof {
            c.lemma_backlog_view();
        }
        Ok(c)
    }

    /// Checks the length `n` of a received datagram against the payload size.
    pub fn capture(&self, n: usize) -> (r: Result<(), Error>)
        ensures
            r == if n == self@.payload_size {
                Ok::<(), Error>(())
            } else {
                Err(Error::SizeMismatch(n))
            },
    {
        if n != self.payload_size {
            Err(Error::SizeMismatch(n))
        } else {
            Ok(())
        }
    }

    /// Sorts one received payload: drops it when its count is behind the block, keeps it in
    /// the backlog when its count is beyond the block, and writes it to its slot otherwise.
    /// The first payload ever sorted fixes the block base.
    pub fn sort_payload(&mut self, slot: &mut Vec<Vec<u8>>, payload: &[u8]) -> (r: Result<
        Placement,
        Error,
    >)
        requires
            old(self).wf(),
            old(self)@.holds_block(rows(old(slot)@)),
        ensures
            final(self).wf(),
            final(self)@.holds_block(rows(final(slot)@)),
            final(self)@.backlog.len() <= final(self)@.backlog_capacity,
            match r {
                Ok(pl) => {
                    &&& old(self)@.sort_error(payload@) is None
                    &&& pl == old(self)@.placement(count_of(payload@))
                    &&& final(self)@ == old(self)@.after_sort(payload@)
                    &&& rows(final(slot)@) == old(self)@.block_after_sort(
                        rows(old(slot)@),
                        payload@,
                    )
                },
                Err(e) => {
                    &&& old(self)@.sort_error(payload@) == Some(e)
                    &&& final(self)@ == old(self)@
                    &&& final(slot)@ == old(slot)@
                },
            },
    {
        proof {
            self.lemma_backlog_view();
        }
        let ghost s0 = self@;
        let ghost b0 = rows(slot@);
        let n = payload.len();
        if n != self.payload_size {
            return Err(Error::SizeMismatch(n));
        }
        let c = count(payload);
        let base: u64;
        if self.first_payload {
            if c > u64::MAX - self.block_size as u64 {
                return Err(Error::CountOverflow(c));
            }
            base = c;
        } else {
            base = self.oldest_count;
        }
        let full = self.drops == u64::MAX - self.processed - self.pending as u64;
        if c < base {
            if full {
                return Err(Error::CounterOverflow);
            }
            self.drops = self.drops + 1;
            self.late = Ghost(self.late@ + 1);
            self.first_payload = false;
            self.oldest_count = base;
            proof {
                self.lemma_backlog_view();
                assert(self@ == s0.after_sort(payload@));
            }
            Ok(Placement::Past)
        } else if c - base >= self.block_size as u64 {
            if !self.backlog.contains_key(&c) && self.backlog.len() >= self.backlog_capacity {
                return Err(Error::BacklogOverflow { count: c, capacity: self.backlog_capacity });
            }
            let v = vstd::slice::slice_to_vec(payload);
            self.backlog.insert(c, v);
            self.first_payload = false;
            self.oldest_count = base;
            proof {
                assert(self@.backlog =~= s0.backlog.insert(c, payload@));
                self.lemma_backlog_view();
                if !s0.backlog.contains_key(c) {
                    assert(s0.backlog.len() < s0.backlog_capacity);
                }
                assert(self@ == s0.after_sort(payload@));
            }
            Ok(Placement::Future)
        } else {
            let idx = (c - base) as usize;
            if self.to_fill[idx] {
                proof {
                    lemma_count_true_clear(self.to_fill@, idx as int);
                }
                self.to_fill.set(idx, false);
                self.pending = self.pending - 1;
            } else {
                if full {
                    return Err(Error::CounterOverflow);
                }
                self.repeats = Ghost(self.repeats@ + 1);
            }
            proof {
                assert(b0[idx as int].len() == s0.payload_size);
                assert(b0[idx as int] == slot@[idx as int]@);
            }
            copy_payload(&mut slot[idx], payload);
            self.processed = self.processed + 1;
            self.first_payload = false;
            self.oldest_count = base;
            proof {
                self.lemma_backlog_view();
                assert(self@ == s0.after_sort(payload@));
                assert(rows(slot@) =~= b0.update(idx as int, payload@));
            }
            Ok(Placement::Slot(idx))
        }
    }

    /// The finalize phase: fills each slot still to fill from the backlog, or else with a
    /// drop marker, and commits the block base.
    pub fn fill_gaps(&mut self, slot: &mut Vec<Vec<u8>>)
        requires
            old(self).wf(),
            old(self)@.holds_block(rows(old(slot)@)),
        ensures
            final(self).wf(),
            final(self)@ == old(self)@.after_fill(),
            rows(final(slot)@) == old(self)@.block_after_fill(rows(old(slot)@)),
            final(self)@.pending() == 0,
            final(self)@.holds_block(rows(final(slot)@)),
            final(self)@.is_ordered_block(rows(final(slot)@)),
    {
        proof {
            self.lemma_backlog_view();
        }
        self.first_payload = false;
        let ghost s0 = self@;
        let ghost b0 = rows(slot@);
        let ghost t0 = old(self)@;
        assert(s0 == CaptureView { first_payload: false, ..t0 });
        let n = self.block_size;
        let mut i: usize = 0;
        while i < n
            invariant
                self.wf(),
                n == s0.block_size,
                0 <= i <= n,
                self@.payload_size == s0.payload_size,
                self@.block_size == s0.block_size,
                self@.backlog_capacity == s0.backlog_capacity,
                self@.block_base == s0.block_base,
                !self@.first_payload,
                self@.advanced == s0.advanced,
                self@.late == s0.late,
                self@.repeats == s0.repeats,
                forall|j: int| 0 <= j < i ==> !self@.to_fill[j],
                forall|j: int| i <= j < n ==> self@.to_fill[j] == s0.to_fill[j],
                self@.backlog == s0.backlog.remove_keys(
                    Set::new(|k: u64| s0.block_base <= k < s0.block_base + i),
                ),
                self@.processed == s0.processed + count_true(s0.recovered().take(i as int)),
                self@.drops == s0.drops + count_true(s0.missing().take(i as int)),
                slot@.len() == n,
                forall|j: int| 0 <= j < i ==> #[trigger] rows(slot@)[j] == s0.block_after_fill(b0)[j],
                forall|j: int| i <= j < n ==> #[trigger] rows(slot@)[j] == b0[j],
                s0.holds_block(b0),
            decreases n - i,
        {
            proof {
                self.lemma_backlog_view();
                lemma_count_true_take(s0.recovered(), i as int);
                lemma_count_true_take(s0.missing(), i as int);
            }
            let ghost cur = self@;
            let ghost rs = rows(slot@);
            let ghost sv = slot@;
            let c = self.oldest_count + i as u64;
            assert(c == s0.expected(i as int));
            assert(cur.backlog.contains_key(c) == s0.backlog.contains_key(c));
            let taken = self.backlog.remove(&c);
            if self.to_fill[i] {
                proof {
                    lemma_count_true_clear(self.to_fill@, i as int);
                    assert(rs[i as int] == slot@[i as int]@);
                }
                match taken {
                    Some(pl) => {
                        copy_payload(&mut slot[i], pl.as_slice());
                        self.processed = self.processed + 1;
                    },
                    None => {
                        write_marker(&mut slot[i], c);
                        self.drops = self.drops + 1;
                    },
                }
                self.to_fill.set(i, false);
                self.pending = self.pending - 1;
            }
            proof {
                self.lemma_backlog_view();
                assert(self@.backlog =~= s0.backlog.remove_keys(
                    Set::new(|k: u64| s0.block_base <= k < s0.block_base + (i + 1)),
                ));
                assert(rows(slot@)[i as int] == s0.block_after_fill(b0)[i as int]);
                assert forall|j: int| 0 <= j < n && j != i implies #[trigger] rows(slot@)[j]
                    == rs[j] by {
                    assert(slot@[j] == sv[j]);
                }
            }
            i += 1;
        }
        proof {
            self.lemma_backlog_view();
            let t = s0.after_fill();
            assert(self@.to_fill =~= t.to_fill);
            assert(Set::new(|k: u64| s0.block_base <= k < s0.block_base + n) =~= Set::new(
                |k: u64| s0.in_window(k),
            ));
            assert(self@.backlog =~= t.backlog);
            assert(s0.recovered().take(n as int) =~= s0.recovered());
            assert(s0.missing().take(n as int) =~= s0.missing());
            assert(self@ == t);
            assert(t0.recovered() =~= s0.recovered());
            assert(t0.missing() =~= s0.missing());
            assert(Set::new(|k: u64| t0.in_window(k)) =~= Set::new(|k: u64| s0.in_window(k)));
            assert(t0.after_fill() == t);
            assert(rows(slot@) =~= s0.block_after_fill(b0));
            assert(t0.block_after_fill(b0) =~= s0.block_after_fill(b0));
            lemma_count_true_uniform(self@.to_fill, false);
            assert forall|j: int| 0 <= j < n implies #[trigger] rows(slot@)[j].len()
                == s0.payload_size && count_of(rows(slot@)[j]) == s0.block_base + j by {
                lemma_drop_marker_round_trip(s0.expected(j), s0.payload_size);
                assert(b0[j].len() == s0.payload_size);
            }
            assert(rows(slot@).len() == n);
            assert(self@.is_ordered_block(rows(slot@)));
            assert forall|j: int| 0 <= j < n && !self@.to_fill[j] implies count_of(
                #[trigger] rows(slot@)[j],
            ) == self@.block_base + j by {
                assert(rows(slot@)[j].len() == s0.payload_size);
            }
        }
    }

    /// Closes the block under assembly: fills its gaps, then moves the block base on by one
    /// block, ready for the next.
    pub fn finish_block(&mut self, slot: &mut Vec<Vec<u8>>) -> (r: Result<(), Error>)
        requires
            old(self).wf(),
            old(self)@.holds_block(rows(old(slot)@)),
        ensures
            final(self).wf(),
            rows(final(slot)@) == old(self)@.block_after_fill(rows(old(slot)@)),
            old(self)@.after_fill().is_ordered_block(rows(final(slot)@)),
            match r {
                Ok(()) => {
                    &&& old(self)@.after_fill().advance_error() is None
                    &&& final(self)@ == old(self)@.after_fill().after_advance()
                    &&& final(self)@.block_base == old(self)@.block_base + old(self)@.block_size
                    &&& final(self)@.holds_block(rows(final(slot)@))
                    &&& forall|k: u64| #[trigger]
                        final(self)@.backlog.contains_key(k) ==> final(self)@.block_base <= k
                },
                Err(e) => {
                    &&& old(self)@.after_fill().advance_error() == Some(e)
                    &&& final(self)@ == old(self)@.after_fill()
                },
            },
    {
        self.fill_gaps(slot);
        let ghost f = self@;
        let bs = self.block_size as u64;
        if u64::MAX - self.oldest_count - bs < bs {
            return Err(Error::CountOverflow(self.oldest_count + bs));
        }
        if u64::MAX - self.drops - self.processed < bs {
            return Err(Error::CounterOverflow);
        }
        let n = self.block_size;
        let mut i: usize = 0;
        while i < n
            invariant
                n == f.block_size,
                0 <= i <= n,
                self@ == (CaptureView { to_fill: self@.to_fill, ..f }),
                self.pending == 0,
                self@.to_fill.len() == n,
                forall|j: int| 0 <= j < i ==> self@.to_fill[j],
            decreases n - i,
        {
            self.to_fill.set(i, true);
            i += 1;
        }
        self.pending = self.block_size;
        self.oldest_count = self.oldest_count + bs;
        self.advanced = Ghost((self.advanced@ + self.block_size) as nat);
        proof {
            assert(self.to_fill@ =~= Seq::new(f.block_size, |k: int| true));
            lemma_count_true_uniform(self.to_fill@, true);
            self.lemma_backlog_view();
            assert(self@ == f.after_advance());
        }
        Ok(())
    }

    /// Assembles one block from the payloads `datagrams`, received in that order: sorts each
    /// (skipping those of the wrong size), then closes the block.
    pub fn capture_next_block(&mut self, slot: &mut Vec<Vec<u8>>, datagrams: &Vec<Vec<u8>>) -> (r:
        Result<(), Error>)
        requires
            old(self).wf(),
            old(self)@.holds_block(rows(old(slot)@)),
        ensures
            final(self).wf(),
            match old(self)@.sort_all(rows(old(slot)@), rows(datagrams@)) {
                Err(e) => r == Err::<(), Error>(e),
                Ok((s, b)) => {
                    &&& rows(final(slot)@) == s.block_after_fill(b)
                    &&& s.after_fill().is_ordered_block(rows(final(slot)@))
                    &&& match r {
                        Ok(()) => {
                            &&& s.after_fill().advance_error() is None
                            &&& final(self)@ == s.after_fill().after_advance()
                            &&& final(self)@.holds_block(rows(final(slot)@))
                        },
                        Err(e) => {
                            &&& s.after_fill().advance_error() == Some(e)
                            &&& final(self)@ == s.after_fill()
                        },
                    }
                },
            },
            r is Ok ==> forall|i: int|
                0 <= i < final(self)@.block_size ==> count_of(#[trigger] rows(final(slot)@)[i])
                    == final(self)@.block_base - final(self)@.block_size + i,
            r is Ok && !old(self)@.first_payload ==> final(self)@.block_base
                == old(self)@.block_base + old(self)@.block_size,
    {
        let ghost s0 = self@;
        let ghost b0 = rows(slot@);
        let ghost ds = rows(datagrams@);
        let mut k: usize = 0;
        while k < datagrams.len()
            invariant
                self.wf(),
                self@.holds_block(rows(slot@)),
                0 <= k <= datagrams@.len(),
                ds == rows(datagrams@),
                s0 == old(self)@,
                b0 == rows(old(slot)@),
                s0.sort_all(b0, ds.take(k as int)) == Ok::<(CaptureView, Seq<Seq<u8>>), Error>(
                    (self@, rows(slot@)),
                ),
                self@.block_size == s0.block_size,
                !s0.first_payload ==> self@.block_base == s0.block_base && !self@.first_payload,
            decreases datagrams@.len() - k,
        {
            proof {
                assert(ds.take(k + 1).drop_last() =~= ds.take(k as int));
                assert(ds.take(k + 1).last() == datagrams@[k as int]@);
            }
            match self.sort_payload(slot, datagrams[k].as_slice()) {
                Ok(_) => {},
                Err(Error::SizeMismatch(_)) => {},
                Err(e) => {
                    proof {
                        assert(s0.sort_all(b0, ds.take(k + 1)) == Err::<
                            (CaptureView, Seq<Seq<u8>>),
                            Error,
                        >(e));
                        lemma_sort_all_stops(s0, b0, ds, k + 1, e);
                        assert(s0.sort_all(b0, ds) == Err::<(CaptureView, Seq<Seq<u8>>), Error>(e));
                    }
                    return Err(e);
                },
            }
            k += 1;
        }
        proof {
            assert(ds.take(datagrams@.len() as int) =~= ds);
        }
        let ghost before = self@;
        let ghost bb = rows(slot@);
        assert(s0.sort_all(b0, ds) == Ok::<(CaptureView, Seq<Seq<u8>>), Error>((before, bb)));
        let r = self.finish_block(slot);
        proof {
            assert(rows(slot@) == before.block_after_fill(bb));
            assert(before.after_fill().is_ordered_block(rows(slot@)));
            if r is Ok {
                assert(self@ == before.after_fill().after_advance());
                assert(self@.holds_block(rows(slot@)));
            } else {
                assert(self@ == before.after_fill());
            }
            if r is Ok {
                let t = before.after_fill();
                assert forall|i: int| 0 <= i < self@.block_size implies count_of(
                    #[trigger] rows(slot@)[i],
                ) == self@.block_base - self@.block_size + i by {
                    assert(rows(slot@)[i].len() == t.payload_size);
                }
            }
        }
        r
    }
}

/// Once sorting a prefix of the payloads fails, sorting all of them fails with that error.
proof fn lemma_sort_all_stops(
    s: CaptureView,
    b: Seq<Seq<u8>>,
    ds: Seq<Seq<u8>>,
    k: int,
    e: Error,
)
    requires
        0 <= k <= ds.len(),
        s.sort_all(b, ds.take(k)) == Err::<(CaptureView, Seq<Seq<u8>>), Error>(e),
    ensures
        s.sort_all(b, ds) == Err::<(CaptureView, Seq<Seq<u8>>), Error>(e),
    decreases ds.len(),
{
    if ds.len() == k {
        assert(ds.take(k) =~= ds);
    } else {
        assert(ds.drop_last().take(k) =~= ds.take(k));
        lemma_sort_all_stops(s, b, ds.drop_last(), k, e);
    }
}

/// Accounting: every slot of every finished block, every slot already filled in the open
/// block, every payload that came too late and every repeated fill counts once, either as a
/// drop or as processed. So a stream with no late and no repeated payload has, at each block
/// boundary, as many drops and processed payloads together as slots advanced through.
pub proof fn lemma_conservation(c: &Capture)
    requires
        c.wf(),
    ensures
        c@.drops + c@.processed == c@.advanced + (c@.block_size - c@.pending()) + c@.late
            + c@.repeats,
        c@.late == 0 && c@.repeats == 0 && c@.pending() == c@.block_size ==> c@.drops
            + c@.processed == c@.advanced,
{
}

/// The backlog never holds more payloads than its capacity, nor a payload whose count is
/// behind the block under assembly.
pub proof fn lemma_backlog_bound(c: &Capture)
    requires
        c.wf(),
    ensures
        c@.backlog.len() <= c@.backlog_capacity,
        forall|k: u64| #[trigger] c@.backlog.contains_key(k) ==> c@.block_base <= k,
{
}

/// Filling the gaps of a block leaves nothing to fill, so filling them a second time changes
/// neither the capture nor the block.
pub proof fn lemma_fill_gaps_idempotent(s: CaptureView, block: Seq<Seq<u8>>)
    requires
        s.to_fill.len() == s.block_size,
        block.len() == s.block_size,
    ensures
        s.after_fill().pending() == 0,
        s.after_fill().after_fill() == s.after_fill(),
        s.after_fill().block_after_fill(s.block_after_fill(block)) == s.block_after_fill(block),
{
    let t = s.after_fill();
    lemma_count_true_uniform(t.to_fill, false);
    lemma_count_true_uniform(t.recovered(), false);
    lemma_count_true_uniform(t.missing(), false);
    assert(Set::new(|k: u64| t.in_window(k)) =~= Set::new(|k: u64| s.in_window(k)));
    assert(t.backlog.remove_keys(Set::new(|k: u64| t.in_window(k))) =~= t.backlog);
    assert(Seq::new(t.block_size, |i: int| false) =~= t.to_fill);
    assert(t.after_fill() == t);
    assert(t.block_after_fill(s.block_after_fill(block)) =~= s.block_after_fill(block));
}

/// Checks the receive buffer size that the kernel reports after `requested` bytes were asked
/// for: the kernel doubles what it is given, so `found` must be twice `requested`.
pub fn check_recv_buffer(requested: usize, found: usize) -> (r: Result<(), Error>)
    requires
        2 * requested <= usize::MAX,
    ensures
        r == if found == 2 * requested {
            Ok::<(), Error>(())
        } else {
            Err(Error::SetRecvBufferFailed { expected: (2 * requested) as usize, found })
        },
{
    let expected = requested * 2;
    if found != expected {
        Err(Error::SetRecvBufferFailed { expected, found })
    } else {
        Ok(())
    }
}

impl Capture {
    /// Payloads dropped so far: too late, or missing when their block closed.
    pub fn drops(&self) -> (r: u64)
        ensures
            r == self@.drops,
    {
        self.drops
    }

    /// Payloads placed in a block so far.
    pub fn processed(&self) -> (r: u64)
        ensures
            r == self@.processed,
    {
        self.processed
    }

    /// Number of future payloads waiting in the backlog.
    pub fn backlog_len(&self) -> (r: usize)
        requires
            self.wf(),
        ensures
            r == self@.backlog.len(),
    {
        proof {
            self.lemma_backlog_view();
        }
        self.backlog.len()
    }

    /// The count of slot 0 of the block under assembly.
    pub fn block_base(&self) -> (r: u64)
        ensures
            r == self@.block_base,
    {
        self.oldest_count
    }

    /// Number of payloads in a block.
    pub fn block_size(&self) -> (r: usize)
        ensures
            r == self@.block_size,
    {
        self.block_size
    }

    /// Number of bytes in a payload.
    pub fn payload_size(&self) -> (r: usize)
        ensures
            r == self@.payload_size,
    {
        self.payload_size
    }

    /// Number of slots of the block under assembly that are still to fill.
    pub fn pending(&self) -> (r: usize)
        requires
            self.wf(),
        ensures
            r == self@.pending(),
    {
        self.pending
    }

    /// Whether `slot` can receive the block under assembly: it has one payload-sized row per
    /// slot, and the slots already filled carry their counts.
    pub fn fits(&self, slot: &Vec<Vec<u8>>) -> (r: bool)
        requires
            self.wf(),
        ensures
            r == self@.holds_block(rows(slot@)),
    {
        let ghost v = self@;
        if slot.len() != self.block_size {
            return false;
        }
        let mut i: usize = 0;
        while i < slot.len()
            invariant
                self.wf(),
                v == self@,
                slot@.len() == v.block_size,
                0 <= i <= slot@.len(),
                forall|j: int|
                    0 <= j < i ==> #[trigger] rows(slot@)[j].len() == v.payload_size && (
                    v.to_fill[j] || count_of(rows(slot@)[j]) == v.block_base + j),
            decreases slot@.len() - i,
        {
            let row = &slot[i];
            assert(rows(slot@)[i as int] == row@);
            if row.len() != self.payload_size {
                proof {
                    assert(rows(slot@)[i as int].len() != v.payload_size);
                }
                return false;
            }
            if !self.to_fill[i] && count(row.as_slice()) != self.oldest_count + i as u64 {
                proof {
                    assert(count_of(rows(slot@)[i as int]) != v.block_base + i);
                }
                return false;
            }
            proof {
                assert(v.to_fill[i as int] || count_of(row@) == v.block_base + i);
                assert forall|j: int| 0 <= j < i + 1 implies #[trigger] rows(slot@)[j].len()
                    == v.payload_size && (v.to_fill[j] || count_of(rows(slot@)[j])
                    == v.block_base + j) by {
                    if j == i {
                        assert(rows(slot@)[j] == row@);
                    }
                }
            }
            i += 1;
        }
        proof {
            assert forall|j: int| 0 <= j < v.block_size && !v.to_fill[j] implies count_of(
                #[trigger] rows(slot@)[j],
            ) == v.block_base + j by {
                assert(rows(slot@)[j].len() == v.payload_size);
            }
        }
        true
    }
}

} // verus!
