//! Splitting input into physical lines while retaining a bounded number of bytes per line.

use vstd::prelude::*;

verus! {

/// Calls `memchr::memchr`, which returns the index of the first occurrence of `needle` in
/// `haystack`, or `None` when there is none (its documentation: "semantically the same as
/// `haystack.iter().position(|&b| b == needle)`"). The contract claims exactly that.
#[verifier::external_body]
pub(crate) fn find_byte(needle: u8, haystack: &[u8]) -> (r: Option<usize>)
    ensures
        match r {
            Some(i) => {
                &&& i < haystack@.len()
                &&& haystack@[i as int] == needle
                &&& forall|j: int| 0 <= j < i ==> haystack@[j] != needle
            },
            None => forall|j: int| 0 <= j < haystack@.len() ==> haystack@[j] != needle,
        },
{
    memchr::memchr(needle, haystack)
}

/// How many bytes of one line are retained for a limit of `limit`: one more than the limit,
/// so that a line of exactly `limit` bytes followed by a carriage return is still told apart
/// from a longer one.
pub open spec fn storage_limit(limit: usize) -> nat {
    if limit == usize::MAX {
        usize::MAX as nat
    } else {
        (limit + 1) as nat
    }
}

/// Collects one physical line from consecutive chunks of input, retaining at most
/// `storage_limit(limit)` bytes of it.
pub struct LineAccumulator {
    limit: usize,
    retained: Vec<u8>,
    seen: Ghost<Seq<u8>>,
    saw_bytes: bool,
    too_long: bool,
}

impl LineAccumulator {
    /// The bytes of the current line absorbed so far (without its line feed).
    pub closed spec fn seen(&self) -> Seq<u8> {
        self.seen@
    }

    pub closed spec fn line_limit(&self) -> usize {
        self.limit
    }

    /// What the accumulator keeps is the first `storage_limit` bytes of the line, and it knows
    /// whether any byte was absorbed and whether any was dropped.
    pub closed spec fn inv(&self) -> bool {
        &&& self.retained@ == self.seen@.take(
            if self.seen@.len() < storage_limit(self.limit) {
                self.seen@.len() as int
            } else {
                storage_limit(self.limit) as int
            },
        )
        &&& self.saw_bytes == (self.seen@.len() > 0)
        &&& self.too_long == (self.seen@.len() > storage_limit(self.limit))
    }

    pub fn new(limit: usize) -> (r: LineAccumulator)
        ensures
            r.inv(),
            r.seen() == Seq::<u8>::empty(),
            r.line_limit() == limit,
    {
        let r = LineAccumulator {
            limit,
            retained: Vec::new(),
            seen: Ghost(Seq::empty()),
            saw_bytes: false,
            too_long: false,
        };
        assert(r.retained@ == r.seen@.take(0));
        r
    }

    /// Starts a new line.
    pub fn reset(&mut self)
        requires
            old(self).inv(),
        ensures
            final(self).inv(),
            final(self).seen() == Seq::<u8>::empty(),
            final(self).line_limit() == old(self).line_limit(),
    {
        self.retained.clear();
        self.seen = Ghost(Seq::empty());
        self.saw_bytes = false;
        self.too_long = false;
        assert(self.retained@ == self.seen@.take(0));
    }

    /// Absorbs the start of `chunk` up to and including its first line feed, or all of it when
    /// it has none. Returns how many bytes were absorbed and whether the line is complete.
    pub fn absorb(&mut self, chunk: &[u8]) -> (r: (usize, bool))
        requires
            old(self).inv(),
        ensures
            final(self).inv(),
            final(self).line_limit() == old(self).line_limit(),
            match find_line_feed(chunk@) {
                Some(i) => {
                    &&& r.0 == i + 1 && r.1
                    &&& final(self).seen() == old(self).seen() + chunk@.take(i as int)
                },
                None => {
                    &&& r == (chunk@.len() as usize, false)
                    &&& final(self).seen() == old(self).seen() + chunk@
                },
            },
    {
        let n = chunk.len();
        let newline = find_byte(10u8, chunk);
        let before = match newline {
            Some(i) => i,
            None => chunk.len(),
        };
        proof {
            match newline {
                Some(i) => lemma_find_line_feed(chunk@, i as int),
                None => lemma_no_line_feed(chunk@),
            }
        }
        let ghost old_seen = self.seen@;
        let ghost added = chunk@.take(before as int);
        if before > 0 {
            self.saw_bytes = true;
            let storage = self.limit.saturating_add(1);
            let available = storage.saturating_sub(self.retained.len());
            let retained = if before < available {
                before
            } else {
                available
            };
            self.retained.extend_from_slice(vstd::slice::slice_subrange(chunk, 0, retained));
            self.too_long = self.too_long || retained < before;
        }
        self.seen = Ghost(old_seen + added);
        proof {
            let s = storage_limit(self.limit);
            let total = old_seen + added;
            assert(total.len() == old_seen.len() + before);
            if before > 0 {
                assert(self.retained@ == total.take(
                    if total.len() < s {
                        total.len() as int
                    } else {
                        s as int
                    },
                ));
            } else {
                assert(total == old_seen);
            }
        }
        match newline {
            Some(i) => (i + 1, true),
            None => {
                assert(added == chunk@);
                (before, false)
            },
        }
    }

    /// Whether any byte of the current line was absorbed.
    pub fn has_bytes(&self) -> (r: bool)
        requires
            self.inv(),
        ensures
            r == (self.seen().len() > 0),
    {
        self.saw_bytes
    }

    /// The retained bytes of the current line.
    pub fn retained(&self) -> (r: &Vec<u8>)
        requires
            self.inv(),
        ensures
            r@ == self.seen().take(
                if self.seen().len() < storage_limit(self.line_limit()) {
                    self.seen().len() as int
                } else {
                    storage_limit(self.line_limit()) as int
                },
            ),
    {
        &self.retained
    }

    /// Whether bytes of the current line were dropped because it exceeds the retained limit.
    pub fn cut(&self) -> (r: bool)
        requires
            self.inv(),
        ensures
            r == (self.seen().len() > storage_limit(self.line_limit())),
    {
        self.too_long
    }
}

/// Index of the first line feed in `s`, if any.
pub open spec fn find_line_feed(s: Seq<u8>) -> Option<usize> {
    if exists|i: int| 0 <= i < s.len() && s[i] == 10u8 {
        Some(
            (choose|i: int|
                0 <= i < s.len() && s[i] == 10u8 && forall|j: int| 0 <= j < i ==> s[j] != 10u8) as usize,
        )
    } else {
        None
    }
}

proof fn lemma_find_line_feed(s: Seq<u8>, i: int)
    requires
        0 <= i < s.len(),
        s[i] == 10u8,
        forall|j: int| 0 <= j < i ==> s[j] != 10u8,
        s.len() <= usize::MAX,
    ensures
        find_line_feed(s) == Some(i as usize),
{
    let c = choose|c: int| 0 <= c < s.len() && s[c] == 10u8 && forall|j: int| 0 <= j < c ==> s[j] != 10u8;
    assert(c == i) by {
        if c < i {
        } else if c > i {
        }
    }
}

proof fn lemma_no_line_feed(s: Seq<u8>)
    requires
        forall|j: int| 0 <= j < s.len() ==> s[j] != 10u8,
    ensures
        find_line_feed(s) is None,
{
}

} // verus!
