//! The per-drive change feed: a monotonic log of changes, each numbered one above the last.
//!
//! The feed is the source of truth for sync: it is gap-free and resumable, and carries paths and
//! etags, never bytes. A beacon only wakes a client up to poll; the cursor here is the truth.
use vstd::prelude::*;

use crate::wire::{Change, ChangeKind, ChangeView};

verus! {

/// An append-only, monotonic change log for one drive. `seq` starts at 0 (nothing seen) and is the
/// `seq` of the last recorded change; a poll at a cursor returns changes with `seq > cursor`.
#[derive(Debug, Default)]
pub struct Feed {
    changes: Vec<Change>,
}

impl View for Feed {
    type V = Seq<ChangeView>;

    closed spec fn view(&self) -> Seq<ChangeView> {
        self.changes.deep_view()
    }
}

/// Whether changes are numbered 1, 2, 3, without a gap.
pub open spec fn numbered(s: Seq<ChangeView>) -> bool {
    forall|i: int| 0 <= i < s.len() ==> (#[trigger] s[i]).seq == i + 1
}

/// The seq of the last change, or 0.
pub open spec fn last_seq(s: Seq<ChangeView>) -> u64 {
    if s.len() == 0 {
        0
    } else {
        s.last().seq
    }
}

/// The changes that a client at `cursor` has not seen.
pub open spec fn later(s: Seq<ChangeView>, cursor: u64) -> Seq<ChangeView> {
    s.filter(|c: ChangeView| c.seq > cursor)
}

/// The first `limit` changes (at least one) that a client at `cursor` has not seen.
pub open spec fn page(s: Seq<ChangeView>, cursor: u64, limit: nat) -> Seq<ChangeView> {
    let rest = later(s, cursor);
    let n = if limit < 1 { 1 } else { limit };
    rest.take(if rest.len() < n { rest.len() as int } else { n as int })
}

/// Where a client that was at `cursor` is after such a page.
pub open spec fn cursor_after(p: Seq<ChangeView>, cursor: u64) -> u64 {
    if p.len() == 0 {
        cursor
    } else {
        p.last().seq
    }
}

proof fn lemma_later(s: Seq<ChangeView>, cursor: u64)
    requires
        numbered(s),
    ensures
        later(s, cursor) == s.skip(if s.len() < cursor { s.len() as int } else { cursor as int }),
    decreases s.len(),
{
    reveal(Seq::filter);
    if s.len() > 0 {
        let t = s.drop_last();
        assert forall|i: int| 0 <= i < t.len() implies (#[trigger] t[i]).seq == i + 1 by {
            assert(t[i] == s[i]);
        }
        lemma_later(t, cursor);
        assert(s.last().seq == s.len());
    }
    assert(later(s, cursor) =~= s.skip(
        if s.len() < cursor {
            s.len() as int
        } else {
            cursor as int
        },
    ));
}

impl Feed {
    /// Changes are numbered without a gap.
    pub open spec fn wf(self) -> bool {
        numbered(self@)
    }

    /// An empty feed.
    pub fn new() -> (r: Self)
        ensures
            r.wf(),
            r@ == Seq::<ChangeView>::empty(),
    {
        Feed { changes: Vec::new() }
    }

    /// The current cursor — the highest seq recorded (0 if empty).
    pub fn cursor(&self) -> (r: u64)
        ensures
            r == last_seq(self@),
    {
        let n: usize = self.changes.len();
        if n == 0 {
            0
        } else {
            self.changes[n - 1].seq
        }
    }

    /// Record a change, assigning it the next seq. Returns the new cursor.
    pub fn record(&mut self, path: String, node_id: String, kind: ChangeKind, etag: String) -> (r:
        u64)
        requires
            old(self).wf(),
            old(self)@.len() < u64::MAX,
        ensures
            final(self).wf(),
            r == old(self)@.len() + 1,
            final(self)@ == old(self)@.push(
                (ChangeView {
                    seq: r,
                    path: path@,
                    node_id: node_id@,
                    kind: kind.deep_view(),
                    etag: etag@,
                }),
            ),
    {
        let seq: u64 = self.cursor() + 1;
        let change = Change { seq, path, node_id, kind, etag };
        let ghost was = self@;
        let ghost model = change.deep_view();
        self.changes.push(change);
        assert(self@ =~= was.push(model));
        seq
    }

    /// Page of changes with `seq > cursor`, capped at `limit`. Returns `(changes, new_cursor)` where
    /// `new_cursor` is the seq of the last returned change (or `cursor` unchanged if none). Gap-free
    /// and resumable: poll again from `new_cursor`.
    pub fn poll(&self, cursor: u64, limit: u32) -> (r: (Vec<Change>, u64))
        requires
            self.wf(),
        ensures
            r.0.deep_view() == page(self@, cursor, limit as nat),
            r.1 == cursor_after(page(self@, cursor, limit as nat), cursor),
    {
        proof {
            lemma_later(self@, cursor);
        }
        let limit: usize = if limit < 1 {
            1
        } else {
            limit as usize
        };
        let len: usize = self.changes.len();
        let from: usize = if (len as u64) < cursor {
            len
        } else {
            cursor as usize
        };
        let to: usize = if len - from < limit {
            len
        } else {
            from + limit
        };
        let mut out: Vec<Change> = Vec::new();
        let mut i: usize = from;
        while i < to
            invariant
                from <= i <= to,
                to <= self.changes@.len(),
                out.deep_view() == self@.subrange(from as int, i as int),
            decreases to - i,
        {
            let ghost was = out.deep_view();
            out.push(self.changes[i].clone());
            assert(out.deep_view() =~= was.push(self@[i as int]));
            i = i + 1;
        }
        let n: usize = out.len();
        let new_cursor: u64 = if n == 0 {
            cursor
        } else {
            out[n - 1].seq
        };
        assert(out.deep_view() =~= page(self@, cursor, limit as nat));
        (out, new_cursor)
    }
}

/// A page starts right after the cursor and has no gap: its changes are numbered upwards from
/// there, and it is empty only when there is nothing later.
pub proof fn law_poll_is_gap_free(s: Seq<ChangeView>, cursor: u64, limit: nat)
    requires
        numbered(s),
    ensures
        page(s, cursor, limit).len() <= (if limit < 1 { 1 } else { limit }),
        page(s, cursor, limit).len() == 0 <==> s.len() <= cursor,
        forall|i: int|
            0 <= i < page(s, cursor, limit).len() ==> (#[trigger] page(s, cursor, limit)[i]) == s[cursor
                + i] && page(s, cursor, limit)[i].seq == cursor + 1 + i,
        cursor_after(page(s, cursor, limit), cursor) == cursor + page(s, cursor, limit).len(),
{
    lemma_later(s, cursor);
}

/// Polling on from where a page ended gives what one larger page would have given.
pub proof fn law_poll_resumes(s: Seq<ChangeView>, cursor: u64, m: nat, n: nat)
    requires
        numbered(s),
        m >= 1,
        n >= 1,
    ensures
        page(s, cursor, m) + page(s, cursor_after(page(s, cursor, m), cursor), n) == page(
            s,
            cursor,
            m + n,
        ),
{
    let p = page(s, cursor, m);
    let next = cursor_after(p, cursor);
    law_poll_is_gap_free(s, cursor, m);
    lemma_later(s, cursor);
    lemma_later(s, next);
    assert(p + page(s, next, n) =~= page(s, cursor, m + n));
}

/// A client that has seen everything sees exactly what is recorded next.
pub proof fn law_record_is_polled_once(s: Seq<ChangeView>, c: ChangeView, limit: nat)
    requires
        numbered(s.push(c)),
    ensures
        page(s, last_seq(s), limit) == Seq::<ChangeView>::empty(),
        page(s.push(c), last_seq(s), limit) == seq![c],
        page(s.push(c), c.seq, limit) == Seq::<ChangeView>::empty(),
{
    let t = s.push(c);
    assert(t.last() == c && c.seq == t.len());
    assert forall|i: int| 0 <= i < s.len() implies (#[trigger] s[i]).seq == i + 1 by {
        assert(t[i] == s[i]);
    }
    lemma_later(s, last_seq(s));
    lemma_later(t, last_seq(s));
    lemma_later(t, c.seq);
    assert(page(s, last_seq(s), limit) =~= Seq::<ChangeView>::empty());
    assert(page(t, last_seq(s), limit) =~= seq![c]);
    assert(page(t, c.seq, limit) =~= Seq::<ChangeView>::empty());
}

/// How far a gap-free feed is, is how many changes it has; and a page of it is as long as the limit
/// allows, or as there are changes that have not been seen.
pub proof fn law_feed_is_as_far_as_it_is_long(s: Seq<ChangeView>, cursor: u64, limit: nat)
    requires
        numbered(s),
    ensures
        last_seq(s) == s.len(),
        ({
            let unseen = if s.len() < cursor { 0 } else { s.len() - cursor };
            let most = if limit == 0 { 1 } else { limit as int };
            page(s, cursor, limit).len() == (if unseen < most { unseen } else { most })
        }),
{
    lemma_later(s, cursor);
}

} // verus!
