//! Cutting a shell's output stream into lines. Each line keeps its
//! terminator, lines are handed out in the order the bytes came, and two lines
//! are never joined into one.
use vstd::prelude::*;

verus! {

pub const NEWLINE: u8 = 10;

/// `l` is one complete line: it ends with a newline and holds no other.
pub open spec fn is_line(l: Seq<u8>) -> bool {
    &&& l.len() > 0
    &&& l.last() == NEWLINE
    &&& forall|k: int| 0 <= k < l.len() - 1 ==> l[k] != NEWLINE
}

pub open spec fn has_no_newline(s: Seq<u8>) -> bool {
    forall|k: int| 0 <= k < s.len() ==> s[k] != NEWLINE
}

/// The byte sequences of a list of lines.
pub open spec fn lines_view(ls: Seq<Vec<u8>>) -> Seq<Seq<u8>> {
    ls.map_values(|l: Vec<u8>| l@)
}

/// Collects the bytes of a stream and hands out each line as soon as its
/// newline has arrived. Bytes after the last newline wait for more input.
pub struct LineBuffer {
    pending: Vec<u8>,
}

impl LineBuffer {
    pub open spec fn wf(&self) -> bool {
        has_no_newline(self.pending_view())
    }

    /// The bytes received since the last complete line.
    pub closed spec fn pending_view(&self) -> Seq<u8> {
        self.pending@
    }

    /// An empty buffer.
    pub fn new() -> (r: LineBuffer)
        ensures
            r.wf(),
            r.pending_view() == Seq::<u8>::empty(),
    {
        LineBuffer { pending: Vec::new() }
    }

    /// Takes the next bytes of the stream and returns the lines they complete,
    /// in order. The lines and what stays pending are, together, exactly what
    /// was pending before followed by `chunk`.
    pub fn push(&mut self, chunk: &[u8]) -> (lines: Vec<Vec<u8>>)
        requires
            old(self).wf(),
        ensures
            final(self).wf(),
            lines_view(lines@).flatten() + final(self).pending_view() == old(self).pending_view()
                + chunk@,
            forall|k: int| 0 <= k < lines@.len() ==> is_line(#[trigger] lines@[k]@),
    {
        let mut lines: Vec<Vec<u8>> = Vec::new();
        let mut cur: Vec<u8> = Vec::new();
        std::mem::swap(&mut cur, &mut self.pending);
        let ghost start = cur@;
        let mut i: usize = 0;
        while i < chunk.len()
            invariant
                i <= chunk@.len(),
                has_no_newline(cur@),
                lines_view(lines@).flatten() + cur@ == start + chunk@.subrange(0, i as int),
                forall|k: int| 0 <= k < lines@.len() ==> is_line(#[trigger] lines@[k]@),
            decreases chunk@.len() - i,
        {
            let c = chunk[i];
            let ghost before = lines_view(lines@).flatten();
            let ghost cur0 = cur@;
            cur.push(c);
            proof {
                assert(chunk@.subrange(0, i + 1) =~= chunk@.subrange(0, i as int).push(c));
                assert(before + cur@ =~= (before + cur0).push(c));
            }
            if c == NEWLINE {
                let mut done: Vec<u8> = Vec::new();
                std::mem::swap(&mut done, &mut cur);
                proof {
                    lines_view(lines@).lemma_flatten_push(done@);
                    assert(lines_view(lines@.push(done)) =~= lines_view(lines@).push(done@));
                }
                lines.push(done);
                assert(lines_view(lines@).flatten() + cur@ =~= before + done@);
            }
            i = i + 1;
        }
        assert(chunk@.subrange(0, chunk@.len() as int) =~= chunk@);
        self.pending = cur;
        lines
    }

    /// Called at the end of the stream: returns the last, unterminated line if
    /// any bytes are pending, and empties the buffer.
    pub fn finish(&mut self) -> (r: Option<Vec<u8>>)
        ensures
            final(self).wf(),
            final(self).pending_view() == Seq::<u8>::empty(),
            r is None <==> old(self).pending_view().len() == 0,
            r matches Some(v) ==> v@ == old(self).pending_view(),
    {
        let mut rest: Vec<u8> = Vec::new();
        std::mem::swap(&mut rest, &mut self.pending);
        if rest.len() == 0 {
            None
        } else {
            Some(rest)
        }
    }
}

/// A stream of complete lines can be cut into lines in one way only: two
/// lists of lines with the same bytes are the same list.
pub proof fn lemma_lines_unique(ls: Seq<Seq<u8>>, ms: Seq<Seq<u8>>)
    requires
        forall|k: int| 0 <= k < ls.len() ==> is_line(#[trigger] ls[k]),
        forall|k: int| 0 <= k < ms.len() ==> is_line(#[trigger] ms[k]),
        ls.flatten() == ms.flatten(),
    ensures
        ls == ms,
    decreases ls.len(),
{
    if ls.len() == 0 || ms.len() == 0 {
        if ls.len() > 0 {
            assert(is_line(ls[0]));
            assert(ls.flatten().len() > 0);
        }
        if ms.len() > 0 {
            assert(is_line(ms[0]));
            assert(ms.flatten().len() > 0);
        }
        assert(ls =~= ms);
    } else {
        let s = ls.flatten();
        let l = ls.first();
        let m = ms.first();
        assert(is_line(l) && is_line(m));
        assert(s == l + ls.drop_first().flatten());
        assert(s == m + ms.drop_first().flatten());
        if l.len() < m.len() {
            assert(s[l.len() - 1] == l[l.len() - 1]);
            assert(s[l.len() - 1] == m[l.len() - 1]);
        }
        if m.len() < l.len() {
            assert(s[m.len() - 1] == m[m.len() - 1]);
            assert(s[m.len() - 1] == l[m.len() - 1]);
        }
        assert(l =~= s.subrange(0, l.len() as int));
        assert(m =~= s.subrange(0, m.len() as int));
        assert(ls.drop_first().flatten() =~= s.subrange(l.len() as int, s.len() as int));
        assert(ms.drop_first().flatten() =~= s.subrange(m.len() as int, s.len() as int));
        assert forall|k: int| 0 <= k < ls.drop_first().len() implies is_line(#[trigger] ls.drop_first()[k]) by {
            assert(ls.drop_first()[k] == ls[k + 1]);
        }
        assert forall|k: int| 0 <= k < ms.drop_first().len() implies is_line(#[trigger] ms.drop_first()[k]) by {
            assert(ms.drop_first()[k] == ms[k + 1]);
        }
        lemma_lines_unique(ls.drop_first(), ms.drop_first());
        assert(ls =~= seq![l] + ls.drop_first());
        assert(ms =~= seq![m] + ms.drop_first());
    }
}

/// Two lines that arrive back to back are handed out as two lines, in the
/// order they came, and never joined into one.
pub proof fn lemma_lines_kept_apart(ls: Seq<Seq<u8>>, a: Seq<u8>, b: Seq<u8>)
    requires
        is_line(a),
        is_line(b),
        forall|k: int| 0 <= k < ls.len() ==> is_line(#[trigger] ls[k]),
        ls.flatten() == a + b,
    ensures
        ls == seq![a, b],
{
    let ms = seq![a, b];
    assert(ms.drop_first() =~= seq![b]);
    assert(seq![b].drop_first() =~= Seq::<Seq<u8>>::empty());
    assert(seq![b].first() == b);
    assert(seq![b].drop_first().flatten() =~= Seq::<u8>::empty());
    assert(seq![b].flatten() =~= b + Seq::<u8>::empty());
    assert(b + Seq::<u8>::empty() =~= b);
    assert(ms.flatten() =~= a + b);
    lemma_lines_unique(ls, ms);
}

} // verus!
